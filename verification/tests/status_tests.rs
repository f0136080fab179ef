use rustory::entry::Entry;
use rustory::status::build_sync_status_report;
use rustory::store::{LocalStore, PeerBookPeer};

fn entry(entry_id: &str, ts: i64, device_id: &str) -> Entry {
    Entry {
        entry_id: entry_id.to_string(),
        device_id: device_id.to_string(),
        user_id: "user1".to_string(),
        ts,
        cmd: "echo test".to_string(),
        cwd: "/tmp".to_string(),
        exit_code: 0,
        duration_ms: 10,
        shell: "zsh".to_string(),
        hostname: "host".to_string(),
        version: "0.1.0".to_string(),
    }
}

#[test]
fn sync_status_report_includes_pending_push_and_filter() {
    let mut store = LocalStore::new();
    store
        .insert_entries(&vec![
            entry("id-1", 1, "dev-local"),
            entry("id-2", 2, "dev-remote"),
            entry("id-3", 3, "dev-local"),
        ])
        .unwrap();
    store.set_last_cursor("peer-a", 2).unwrap();
    store.set_last_pushed_seq("peer-a", 1).unwrap();
    store.set_last_cursor("peer-b", 3).unwrap();
    store.set_last_pushed_seq("peer-b", 3).unwrap();
    store
        .upsert_peer_book(&PeerBookPeer {
            peer_id: "peer-a".to_string(),
            addrs: vec!["/ip4/127.0.0.1/tcp/1111/p2p/peer-a".to_string()],
            user_id: Some("user1".to_string()),
            device_id: Some("dev-remote".to_string()),
            last_seen_unix: 99,
        })
        .unwrap();

    let report = build_sync_status_report(&store, "dev-local", None).unwrap();
    assert_eq!(report.local_head, 3);
    assert_eq!(report.local_device_id, "dev-local");
    assert_eq!(report.peers.len(), 2);

    let peer_a = report
        .peers
        .iter()
        .find(|peer| peer.peer_id == "peer-a")
        .unwrap();
    assert_eq!(peer_a.pull_cursor, 2);
    assert_eq!(peer_a.push_cursor, 1);
    assert_eq!(peer_a.pending_push, 1);
    assert_eq!(peer_a.last_seen_unix, Some(99));

    let peer_b = report
        .peers
        .iter()
        .find(|peer| peer.peer_id == "peer-b")
        .unwrap();
    assert_eq!(peer_b.pending_push, 0);
    assert_eq!(peer_b.last_seen_unix, None);

    let filtered = build_sync_status_report(&store, "dev-local", Some("peer-a")).unwrap();
    assert_eq!(filtered.peers.len(), 1);
    assert_eq!(filtered.peers[0].peer_id, "peer-a");
}
