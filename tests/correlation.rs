use symposium_rust_analyzer::correlation::{CallError, Outcome, PendingRequests};
use symposium_rust_analyzer::protocol::InboundMessage;

fn reply(id: u64, n: u64) -> InboundMessage {
    InboundMessage {
        id: Some(id),
        result: Some(serde_json::Value::from(n)),
        error: None,
    }
}

#[test]
fn replies_in_reverse_order_reach_their_callers() {
    let mut table: PendingRequests<String> = PendingRequests::new();
    let mut ids = Vec::new();
    for caller in ["a", "b", "c", "d"] {
        ids.push(table.register(caller.to_string()).unwrap());
    }
    assert_eq!(ids, vec![1, 2, 3, 4]);
    for (k, id) in ids.iter().enumerate().rev() {
        let (slot, outcome) = table.dispatch(reply(*id, 100 + *id)).unwrap();
        assert_eq!(slot, ["a", "b", "c", "d"][k]);
        assert_eq!(outcome, Outcome::Success(Some(serde_json::Value::from(100 + *id))));
    }
}

#[test]
fn error_reply_reaches_only_its_caller() {
    let mut table: PendingRequests<&str> = PendingRequests::new();
    let a = table.register("a").unwrap();
    let b = table.register("b").unwrap();
    let err = serde_json::Value::from("boom");
    let (slot, outcome) = table
        .dispatch(InboundMessage {
            id: Some(b),
            result: None,
            error: Some(err.clone()),
        })
        .unwrap();
    assert_eq!(slot, "b");
    assert_eq!(outcome, Outcome::Failure(err));
    let (slot, outcome) = table
        .dispatch(InboundMessage {
            id: Some(a),
            result: None,
            error: None,
        })
        .unwrap();
    assert_eq!(slot, "a");
    assert_eq!(outcome, Outcome::Success(None));
}

#[test]
fn unknown_and_duplicate_replies_are_dropped() {
    let mut table: PendingRequests<&str> = PendingRequests::new();
    let a = table.register("a").unwrap();
    assert!(table.dispatch(reply(99, 0)).is_none());
    assert!(table
        .dispatch(InboundMessage {
            id: None,
            result: None,
            error: None
        })
        .is_none());
    assert!(table.dispatch(reply(a, 1)).is_some());
    assert!(table.dispatch(reply(a, 1)).is_none());
}

#[test]
fn request_after_teardown_fails_at_once() {
    let mut table: PendingRequests<&str> = PendingRequests::new();
    let a = table.register("a").unwrap();
    let b = table.register("b").unwrap();
    let waiting = table.close();
    assert!(table.is_closed());
    assert_eq!(waiting.len(), 2);
    assert_eq!(waiting.get(&a), Some(&"a"));
    assert_eq!(waiting.get(&b), Some(&"b"));
    assert_eq!(table.register("c"), Err(CallError::TransportClosed));
    assert!(table.dispatch(reply(a, 0)).is_none());
}

#[test]
fn withdrawn_request_gets_no_reply() {
    let mut table: PendingRequests<&str> = PendingRequests::new();
    let a = table.register("a").unwrap();
    assert_eq!(table.withdraw(a), Some("a"));
    assert_eq!(table.withdraw(a), None);
    assert!(table.dispatch(reply(a, 0)).is_none());
    assert_eq!(table.register("b"), Ok(2));
}
