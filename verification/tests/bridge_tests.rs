use retasync::bridge::{BridgeError, InMemoryRpcMeshBridge, TransportSelection};
use retasync::codec::CanonValue;
use retasync::envelope::{MeshCommandEnvelope, MeshEventEnvelope, TransferHint};

fn command(operation: &str) -> MeshCommandEnvelope {
    MeshCommandEnvelope {
        message_id: "msg-1".to_string(),
        operation: operation.to_string(),
        sent_at: "2024-01-01T00:00:00Z".to_string(),
        source_identity: "node-a".to_string(),
        destination_identity: "node-b".to_string(),
        content_type: "application/msgpack".to_string(),
        payload: CanonValue::Null,
        ttl_ms: Some(30_000),
        transport_hint: None,
    }
}

fn event() -> MeshEventEnvelope {
    MeshEventEnvelope {
        message_id: "evt-1".to_string(),
        event: "something.changed".to_string(),
        sent_at: "2024-01-01T00:00:00Z".to_string(),
        source_identity: "node-a".to_string(),
        destination_identity: "node-b".to_string(),
        content_type: "application/msgpack".to_string(),
        payload: CanonValue::Null,
        ttl_ms: None,
        transport_hint: Some(TransferHint::Lxmf),
    }
}

#[test]
fn transport_selection_follows_the_priority_chain() {
    for prefer_link in [false, true] {
        for link_available in [false, true] {
            let bridge = InMemoryRpcMeshBridge::new(prefer_link, link_available);

            // hint Link and link available -> Link; unavailable -> Lxmf
            let got = bridge.select_transport(Some(TransferHint::Link));
            if link_available {
                assert_eq!(got, TransportSelection::Link);
            } else {
                assert_eq!(got, TransportSelection::Lxmf);
            }

            // hint Lxmf always wins, availability regardless
            assert_eq!(bridge.select_transport(Some(TransferHint::Lxmf)), TransportSelection::Lxmf);

            // no hint: prefer_link and availability together give Link
            let got = bridge.select_transport(None);
            if prefer_link && link_available {
                assert_eq!(got, TransportSelection::Link);
            } else {
                assert_eq!(got, TransportSelection::Lxmf);
            }
        }
    }
}

#[test]
fn send_command_rejects_empty_operation() {
    let bridge = InMemoryRpcMeshBridge::new(true, true);
    match bridge.send_command(command("")) {
        Err(BridgeError::InvalidPayload(msg)) => {
            assert_eq!(msg, "operation cannot be empty");
        }
        _ => panic!("expected an InvalidPayload rejection and no result envelope"),
    }
}

#[test]
fn send_command_rejects_whitespace_operation() {
    let bridge = InMemoryRpcMeshBridge::new(true, true);
    match bridge.send_command(command(" \t\n ")) {
        Err(BridgeError::InvalidPayload(_)) => {}
        _ => panic!("expected an InvalidPayload rejection"),
    }
}

#[test]
fn send_command_swaps_identities_and_correlates() {
    let bridge = InMemoryRpcMeshBridge::new(true, true);
    let result = bridge.send_command(command("ping")).expect("accepted");
    assert_eq!(result.correlation_id, "msg-1");
    assert_eq!(result.operation, "ping");
    assert_eq!(result.source_identity, "node-b");
    assert_eq!(result.destination_identity, "node-a");
    assert_eq!(result.content_type, "application/msgpack");
    assert_eq!(result.ttl_ms, Some(30_000));
    assert_eq!(result.transport_hint, Some(TransferHint::Link));
    match &result.payload {
        CanonValue::Obj(entries) => {
            assert_eq!(entries.len(), 2);
            assert_eq!(entries[0].0, "status");
            assert!(matches!(&entries[0].1, CanonValue::Str(s) if s == "accepted"));
            assert_eq!(entries[1].0, "transport");
            assert!(matches!(&entries[1].1, CanonValue::Str(s) if s == "link"));
        }
        _ => panic!("expected an acceptance object"),
    }
}

#[test]
fn publish_event_acknowledges_with_chosen_transport() {
    let bridge = InMemoryRpcMeshBridge::new(true, true);
    let receipt = bridge.publish_event(event()).expect("receipt");
    assert_eq!(receipt.message_id, "evt-1");
    assert_eq!(receipt.transport, TransportSelection::Lxmf);
}

#[test]
fn query_receipt_rejects_only_the_empty_identifier() {
    let bridge = InMemoryRpcMeshBridge::new(false, false);
    assert!(matches!(bridge.query_receipt(""), Err(BridgeError::InvalidPayload(_))));

    // every non-empty identifier is acknowledged, whitespace included
    let receipt = bridge.query_receipt("   ").expect("ok").expect("receipt");
    assert_eq!(receipt.message_id, "   ");

    let receipt = bridge.query_receipt("some-id").expect("ok").expect("receipt");
    assert_eq!(receipt.message_id, "some-id");
    assert_eq!(receipt.transport, TransportSelection::Lxmf);
}

#[test]
fn poll_events_is_empty_in_the_reference_bridge() {
    let bridge = InMemoryRpcMeshBridge::new(true, true);
    let batch = bridge.poll_events(16).expect("ok");
    assert!(batch.is_empty());
}
