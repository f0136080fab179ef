use rustory::tracker::{is_authorized, query_get, PeerMeta, RegisterOutcome, TrackerClient, TrackerState};

#[test]
fn tracker_register_and_list_end_to_end() {
    let mut state = TrackerState::new();

    let outcome = state.register(
        "peer-a",
        vec!["/ip4/127.0.0.1/tcp/1234".to_string()],
        Some(PeerMeta {
            user_id: Some("u1".to_string()),
            device_id: Some("d1".to_string()),
            hostname: None,
            version: Some("0.1.0".to_string()),
        }),
        100,
        60,
    );
    match outcome {
        RegisterOutcome::Accepted(resp) => {
            assert!(resp.ok);
            assert_eq!(resp.ttl_sec, 60);
        }
        RegisterOutcome::BadRequest => panic!("registration rejected"),
    }

    let list = state.list(Some("u1"), 100, 60);
    assert_eq!(list.len(), 1);
    assert_eq!(list[0].peer_id, "peer-a");
    assert_eq!(list[0].addrs, vec!["/ip4/127.0.0.1/tcp/1234".to_string()]);

    let other = state.list(Some("u2"), 100, 60);
    assert!(other.is_empty());
}

#[test]
fn tracker_rejects_without_token() {
    // a request with no credentials against a token-gated tracker
    assert!(!is_authorized(None, None, "secret"));
    // and one with the wrong bearer value
    assert!(!is_authorized(Some("Bearer nope"), None, "secret"));
    assert!(!is_authorized(None, Some("nope"), "secret"));
}

#[test]
fn tracker_accepts_with_token() {
    assert!(is_authorized(Some("Bearer secret"), None, "secret"));
    assert!(is_authorized(Some("Bearer  secret "), None, "secret"));
    assert!(is_authorized(None, Some("secret"), "secret"));
    // a blank token gates nothing
    assert!(is_authorized(None, None, "  "));
}

#[test]
fn tracker_register_rejects_blank_peer_id() {
    let mut state = TrackerState::new();
    let outcome = state.register("   ", vec![], None, 0, 60);
    assert!(matches!(outcome, RegisterOutcome::BadRequest));
    assert!(state.list(None, 0, 60).is_empty());
}

#[test]
fn tracker_ttl_expires_unrefreshed_peers() {
    let mut state = TrackerState::new();
    state.register("peer-a", vec![], None, 0, 60);

    // still listed just inside the TTL
    assert_eq!(state.list(None, 60, 60).len(), 1);
    // gone one second past it
    assert!(state.list(None, 61, 60).is_empty());
}

#[test]
fn tracker_refresh_keeps_peer_alive() {
    let mut state = TrackerState::new();
    state.register("peer-a", vec![], None, 0, 60);
    state.register("peer-a", vec!["/ip4/10.0.0.1/tcp/1".to_string()], None, 50, 60);

    let list = state.list(None, 100, 60);
    assert_eq!(list.len(), 1);
    assert_eq!(list[0].last_seen_unix, 50);
    assert_eq!(list[0].addrs, vec!["/ip4/10.0.0.1/tcp/1".to_string()]);
}

#[test]
fn tracker_client_normalizes_base_url() {
    let c = TrackerClient::new("http://127.0.0.1:8850///".to_string(), None);
    assert_eq!(c.base_url, "http://127.0.0.1:8850");
    assert!(c.token.is_none());
}

#[test]
fn query_get_finds_first_matching_key() {
    assert_eq!(query_get("user_id=u1", "user_id"), Some("u1".to_string()));
    assert_eq!(
        query_get("a=1&user_id=u1&user_id=u2", "user_id"),
        Some("u1".to_string())
    );
    assert_eq!(query_get("a=1&b=2", "user_id"), None);
    assert_eq!(query_get("noequals&user_id=x", "user_id"), Some("x".to_string()));
    assert_eq!(query_get("", "user_id"), None);
}
