use retasync::bridge::InMemoryRpcMeshBridge;
use retasync::bus::RecvOutcome;
use retasync::codec::{canon_eq, CanonValue};
use retasync::control::{AuthDecision, ControlPlane, LogQuery, NodeConfig};
use retasync::storage::{normalize_sqlite_uri, MemoryStorage};
use retasync::transfer::TransferUploadRequest;

fn node_config(token: Option<&str>) -> NodeConfig {
    NodeConfig {
        rpc_endpoint: "tcp://127.0.0.1:4242".to_string(),
        http_bind: "127.0.0.1:8080".to_string(),
        http_auth_token: token.map(|t| t.to_string()),
        sqlite_path: "retasync.db".to_string(),
        acl_mode: "allowlist".to_string(),
        prefer_link: true,
    }
}

fn plane(require_bearer: bool) -> ControlPlane {
    ControlPlane::new(
        MemoryStorage::new(),
        InMemoryRpcMeshBridge::new(true, true),
        node_config(Some("test-token")),
        "asyncapi: 3.0.0".to_string(),
        require_bearer,
    )
}

fn obj(entries: Vec<(&str, CanonValue)>) -> CanonValue {
    CanonValue::Obj(entries.into_iter().map(|(k, v)| (k.to_string(), v)).collect())
}

fn get_str(v: &CanonValue, key: &str) -> Option<String> {
    match v {
        CanonValue::Obj(entries) => entries.iter().find_map(|(k, val)| {
            if k == key {
                match val {
                    CanonValue::Str(s) => Some(s.clone()),
                    _ => None,
                }
            } else {
                None
            }
        }),
        _ => None,
    }
}

#[test]
fn submitted_ping_command_reaches_success_with_result() {
    let mut cp = plane(false);
    let payload = obj(vec![("destination_identity", CanonValue::Str("node-b".to_string()))]);
    let payload_again = obj(vec![("destination_identity", CanonValue::Str("node-b".to_string()))]);

    let rec = cp.submit_command("ping", payload).expect("job created");
    assert_eq!(rec.status, "queued");
    assert_eq!(rec.operation, "ping");

    let job_id = rec.job_id.clone();
    cp.process_command_job(&job_id, "ping", payload_again);

    let job = cp.get_job(&job_id).expect("job exists");
    assert_eq!(job.status, "success");
    assert!(job.failure_reason.is_none());

    let result = cp.get_job_result(&job_id).expect("result exists");
    assert_eq!(result.job_id, job_id);
    let expected = obj(vec![
        ("status", CanonValue::Str("accepted".to_string())),
        ("transport", CanonValue::Str("link".to_string())),
    ]);
    assert!(canon_eq(&result.result, &expected));
}

#[test]
fn blank_operation_job_fails_with_reason() {
    let mut cp = plane(false);
    let rec = cp.submit_command("", CanonValue::Null).expect("job created");
    let job_id = rec.job_id.clone();
    cp.process_command_job(&job_id, "", CanonValue::Null);

    let job = cp.get_job(&job_id).expect("job exists");
    assert_eq!(job.status, "failed");
    assert_eq!(
        job.failure_reason.as_deref(),
        Some("invalid payload: operation cannot be empty")
    );
    assert!(cp.get_job_result(&job_id).is_none());
}

#[test]
fn subscriber_observes_three_ordered_status_updates() {
    let mut cp = plane(false);
    let sub = cp.sse_bus.subscribe();

    let rec = cp.submit_command("ping", CanonValue::Null).expect("job created");
    let job_id = rec.job_id.clone();
    cp.process_command_job(&job_id, "ping", CanonValue::Null);

    let mut seen = Vec::new();
    loop {
        match cp.sse_bus.recv(sub) {
            RecvOutcome::Item(update) => {
                assert_eq!(update.event_type, "job.status.changed");
                assert_eq!(get_str(&update.data, "job_id").as_deref(), Some(job_id.as_str()));
                seen.push(get_str(&update.data, "status").expect("status field"));
            }
            RecvOutcome::Empty => break,
            RecvOutcome::Lagged(_) => panic!("a fresh subscriber cannot have lagged"),
        }
    }
    assert_eq!(seen, vec!["queued", "running", "success"]);
}

#[test]
fn late_subscriber_sees_no_backlog() {
    let mut cp = plane(false);
    let rec = cp.submit_command("ping", CanonValue::Null).expect("job created");
    cp.process_command_job(&rec.job_id.clone(), "ping", CanonValue::Null);

    let sub = cp.sse_bus.subscribe();
    assert!(matches!(cp.sse_bus.recv(sub), RecvOutcome::Empty));
}

#[test]
fn transfer_reaches_success_and_emits_completion() {
    let mut cp = plane(false);
    let sub = cp.sse_bus.subscribe();
    let request = TransferUploadRequest {
        destination_identity: "node-b".to_string(),
        file_name: "report.pdf".to_string(),
        media_type: "application/pdf".to_string(),
        payload_base64: "aGVsbG8=".to_string(),
    };
    let rec = cp.submit_transfer(&request).expect("transfer created");
    assert_eq!(rec.status, "queued");

    let transfer_id = rec.transfer_id.clone();
    cp.process_transfer_job(&transfer_id);

    let stored = cp.get_transfer(&transfer_id).expect("transfer exists");
    assert_eq!(stored.status, "success");
    assert_eq!(get_str(&stored.metadata, "destination_identity").as_deref(), Some("node-b"));
    assert_eq!(get_str(&stored.metadata, "file_name").as_deref(), Some("report.pdf"));
    assert_eq!(get_str(&stored.metadata, "media_type").as_deref(), Some("application/pdf"));
    match &stored.metadata {
        CanonValue::Obj(entries) => {
            let size = entries.iter().find(|(k, _)| k == "payload_size").expect("size entry");
            assert!(matches!(size.1, CanonValue::Int(8)));
        }
        _ => panic!("expected metadata object"),
    }

    let mut tags = Vec::new();
    loop {
        match cp.sse_bus.recv(sub) {
            RecvOutcome::Item(update) => tags.push(update.event_type.clone()),
            RecvOutcome::Empty => break,
            RecvOutcome::Lagged(_) => panic!("no lag expected"),
        }
    }
    assert_eq!(tags, vec!["transfer.progress", "transfer.progress", "transfer.completed"]);
}

#[test]
fn unknown_job_lookup_returns_none() {
    let cp = plane(false);
    assert!(cp.get_job("missing").is_none());
    assert!(cp.get_job_result("missing").is_none());
    assert!(cp.get_transfer("missing").is_none());
}

#[test]
fn authorize_enforces_bearer_token_for_writes() {
    let cp = plane(true);
    assert!(matches!(cp.authorize(false, None), AuthDecision::Allowed));
    assert!(matches!(cp.authorize(true, None), AuthDecision::Unauthorized));
    assert!(matches!(
        cp.authorize(true, Some("Bearer wrong")),
        AuthDecision::Unauthorized
    ));
    assert!(matches!(
        cp.authorize(true, Some("Bearer test-token")),
        AuthDecision::Allowed
    ));

    let open_plane = plane(false);
    assert!(matches!(open_plane.authorize(true, None), AuthDecision::Allowed));

    let tokenless = ControlPlane::new(
        MemoryStorage::new(),
        InMemoryRpcMeshBridge::new(true, true),
        node_config(None),
        String::new(),
        true,
    );
    assert!(matches!(tokenless.authorize(true, None), AuthDecision::TokenMissing));
}

#[test]
fn node_reads_ready_and_healthy() {
    let cp = plane(false);
    let status = cp.node_status();
    assert!(status.healthy);
    assert!(status.ready);
    assert!(status.daemon_connected);
    assert!(cp.health_ready());
}

#[test]
fn logs_filter_by_level_and_text_and_limit() {
    let mut cp = plane(false);
    for i in 0..5 {
        let rec = cp.submit_command(&format!("op-{i}"), CanonValue::Null).expect("created");
        cp.process_command_job(&rec.job_id.clone(), &format!("op-{i}"), CanonValue::Null);
    }
    // five submissions and five completions, all at level info
    let all = cp.get_logs(&LogQuery { since: None, level: None, contains: None, limit: None });
    assert_eq!(all.len(), 10);

    let infos = cp.get_logs(&LogQuery {
        since: None,
        level: Some("INFO".to_string()),
        contains: None,
        limit: None,
    });
    assert_eq!(infos.len(), 10);

    let errors = cp.get_logs(&LogQuery {
        since: None,
        level: Some("error".to_string()),
        contains: None,
        limit: None,
    });
    assert!(errors.is_empty());

    let submitted = cp.get_logs(&LogQuery {
        since: None,
        level: None,
        contains: Some("submitted".to_string()),
        limit: None,
    });
    assert_eq!(submitted.len(), 5);

    let limited = cp.get_logs(&LogQuery {
        since: None,
        level: None,
        contains: None,
        limit: Some(3),
    });
    assert_eq!(limited.len(), 3);
    // the newest lines are kept
    assert!(limited[2].message.contains("completed"));
}

#[test]
fn update_config_appends_numbered_revisions() {
    let mut cp = plane(false);
    let rev1 = cp.update_config(node_config(None), "{\"prefer_link\":true}");
    assert_eq!(rev1.revision_id, 1);
    assert_eq!(rev1.config_json, "{\"prefer_link\":true}");
    let rev2 = cp.update_config(node_config(Some("tok")), "{\"prefer_link\":false}");
    assert_eq!(rev2.revision_id, 2);
    assert!(cp.node_config.http_auth_token.is_some());
}

#[test]
fn sqlite_uri_normalization() {
    assert_eq!(normalize_sqlite_uri("retasync.db"), "sqlite://retasync.db");
    assert_eq!(normalize_sqlite_uri("/var/lib/retasync.db"), "sqlite:///var/lib/retasync.db");
    assert_eq!(normalize_sqlite_uri("sqlite:memory.db"), "sqlite:memory.db");
    assert_eq!(normalize_sqlite_uri("sqlite://already.db"), "sqlite://already.db");
}
