use retasync::convert::{
    apply_profile, derive_events, detect_profile_from_path, map_operation_id, normalize_newlines,
    pascal_to_snake, ConvertError, MappingRow, WarningRow,
};

fn row(op: &str, cmd: &str) -> MappingRow {
    MappingRow { operation_id: op.to_string(), command_operation: cmd.to_string() }
}

#[test]
fn pascal_identifiers_become_snake_case() {
    assert_eq!(pascal_to_snake("EmergencyActionMessage"), "emergency_action_message");
    assert_eq!(pascal_to_snake("Event"), "event");
    assert_eq!(pascal_to_snake("already_snake"), "already_snake");
    assert_eq!(pascal_to_snake(""), "");
}

#[test]
fn operation_identifiers_map_to_commands() {
    assert_eq!(
        map_operation_id("CreateEmergencyActionMessage").as_deref(),
        Some("emergency_action_message.create")
    );
    assert_eq!(map_operation_id("ListEvent").as_deref(), Some("event.list"));
    assert_eq!(map_operation_id("PutEvent").as_deref(), Some("event.put"));
    assert_eq!(map_operation_id("RetrieveEvent").as_deref(), Some("event.retrieve"));
    assert_eq!(map_operation_id("DeleteEvent").as_deref(), Some("event.delete"));
    assert_eq!(
        map_operation_id("StreamNotifications").as_deref(),
        Some("notifications.stream")
    );
    // a bare verb with no entity cannot be mapped
    assert_eq!(map_operation_id("Create"), None);
    // an unrecognized verb cannot be mapped
    assert_eq!(map_operation_id("FetchEvent"), None);
}

#[test]
fn events_derive_sorted_and_deduplicated() {
    let commands = vec![
        "event.put".to_string(),
        "emergency_action_message.create".to_string(),
        "event.delete".to_string(),
        "notifications.stream".to_string(),
        "event.put".to_string(),
        "nodot".to_string(),
    ];
    let events = derive_events(&commands);
    assert_eq!(
        events,
        vec![
            "emergency_action_message.created".to_string(),
            "event.deleted".to_string(),
            "event.updated".to_string(),
            "notifications.changed".to_string(),
        ]
    );
}

#[test]
fn newline_normalization_strips_bom_and_crlf() {
    assert_eq!(normalize_newlines("\u{feff}a\r\nb"), "a\nb");
    assert_eq!(normalize_newlines("plain\ntext"), "plain\ntext");
    assert_eq!(normalize_newlines("\r\n\r\n"), "\n\n");
    assert_eq!(normalize_newlines(""), "");
}

#[test]
fn profile_detection_keys_on_the_file_name() {
    assert_eq!(
        detect_profile_from_path("specs/EmergencyActionMessageManagement-OAS.yaml"),
        Some("emergency-management")
    );
    assert_eq!(detect_profile_from_path("specs/other-api.yaml"), None);
    // the marker must be in the file name, not the directory
    assert_eq!(detect_profile_from_path("EmergencyActionMessageManagement-OAS/other.yaml"), None);
}

#[test]
fn profile_check_notes_missing_operations() {
    let mappings = vec![
        row("CreateEmergencyActionMessage", "emergency_action_message.create"),
        row("ListEvent", "event.list"),
    ];
    let mut warnings: Vec<WarningRow> = Vec::new();
    apply_profile("emergency-management", &mappings, &mut warnings).expect("supported profile");
    assert_eq!(warnings.len(), 9);
    assert_eq!(warnings[0].operation_id, "ListEmergencyActionMessage");
    assert_eq!(
        warnings[0].reason,
        "missing operation required by emergency-management profile"
    );
    assert_eq!(warnings[8].operation_id, "StreamNotifications");

    let mut none: Vec<WarningRow> = Vec::new();
    match apply_profile("other", &mappings, &mut none) {
        Err(ConvertError::UnsupportedProfile) => {}
        _ => panic!("expected the profile to be refused"),
    }
    assert!(none.is_empty());
}
