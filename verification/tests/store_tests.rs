use rustory::entry::Entry;
use rustory::store::{InsertStats, LocalStore, PeerBookPeer};

fn entry(entry_id: &str, ts: i64, cmd: &str) -> Entry {
    Entry {
        entry_id: entry_id.to_string(),
        device_id: "dev1".to_string(),
        user_id: "user1".to_string(),
        ts,
        cmd: cmd.to_string(),
        cwd: "/tmp".to_string(),
        exit_code: 0,
        duration_ms: 12,
        shell: "zsh".to_string(),
        hostname: "host".to_string(),
        version: "0.1.0".to_string(),
    }
}

#[test]
fn insert_dedup_and_pull_by_cursor() {
    let mut store = LocalStore::new();

    let e1 = entry("id-1", 1, "echo 1");
    let e2 = entry("id-2", 2, "echo 2");
    store.insert_entries(&vec![e1.clone(), e2.clone()]).unwrap();

    // duplicate entry_id must be ignored
    store.insert_entries(&vec![e1.clone()]).unwrap();

    let b1 = store.pull_since_cursor(0, 1).unwrap();
    assert_eq!(b1.entries.len(), 1);
    assert_eq!(b1.entries[0].entry_id, "id-1");
    assert_eq!(b1.next_cursor, Some(1));

    let b2 = store.pull_since_cursor(b1.next_cursor.unwrap(), 10).unwrap();
    assert_eq!(b2.entries.len(), 1);
    assert_eq!(b2.entries[0].entry_id, "id-2");
    assert_eq!(b2.next_cursor, Some(2));

    let b3 = store.pull_since_cursor(b2.next_cursor.unwrap(), 10).unwrap();
    assert!(b3.entries.is_empty());
    assert_eq!(b3.next_cursor, None);
}

#[test]
fn insert_entries_with_stats_counts_inserted_and_ignored() {
    let mut store = LocalStore::new();

    let e1 = entry("id-1", 1, "echo 1");
    let e2 = entry("id-2", 2, "echo 2");

    let stats = store
        .insert_entries_with_stats(&vec![e1.clone(), e2.clone()])
        .unwrap();
    assert_eq!(
        stats,
        InsertStats {
            inserted: 2,
            ignored: 0
        }
    );

    let stats = store.insert_entries_with_stats(&vec![e1.clone()]).unwrap();
    assert_eq!(
        stats,
        InsertStats {
            inserted: 0,
            ignored: 1
        }
    );
}

#[test]
fn insert_twice_is_idempotent() {
    let mut store = LocalStore::new();
    let batch = vec![entry("id-1", 1, "a"), entry("id-2", 2, "b"), entry("id-1", 3, "c")];

    let s1 = store.insert_entries_with_stats(&batch).unwrap();
    assert_eq!(s1.inserted, 2);
    assert_eq!(s1.ignored, 1);
    let head = store.latest_ingest_seq();

    let s2 = store.insert_entries_with_stats(&batch).unwrap();
    assert_eq!(s2.inserted, 0);
    assert_eq!(s2.ignored, 3);
    assert_eq!(store.latest_ingest_seq(), head);
}

#[test]
fn pull_by_cursor_can_filter_by_device_id() {
    let mut store = LocalStore::new();

    let mut e1 = entry("id-1", 1, "echo 1");
    e1.device_id = "dev-local".to_string();

    let mut e2 = entry("id-2", 2, "echo 2");
    e2.device_id = "dev-remote".to_string();

    let mut e3 = entry("id-3", 3, "echo 3");
    e3.device_id = "dev-local".to_string();

    store
        .insert_entries(&vec![e1.clone(), e2.clone(), e3.clone()])
        .unwrap();

    let b1 = store
        .pull_since_cursor_for_device(0, 10, "dev-local")
        .unwrap();
    assert_eq!(b1.entries.len(), 2);
    assert_eq!(b1.entries[0].entry_id, "id-1");
    assert_eq!(b1.entries[1].entry_id, "id-3");
    assert_eq!(b1.next_cursor, Some(3));

    let b2 = store
        .pull_since_cursor_for_device(b1.next_cursor.unwrap(), 10, "dev-local")
        .unwrap();
    assert!(b2.entries.is_empty());
    assert_eq!(b2.next_cursor, None);
}

#[test]
fn peer_state_roundtrip() {
    let mut store = LocalStore::new();

    assert_eq!(store.get_last_cursor("peer-a").unwrap(), 0);
    store.set_last_cursor("peer-a", 42).unwrap();
    assert_eq!(store.get_last_cursor("peer-a").unwrap(), 42);
}

#[test]
fn peer_push_state_roundtrip() {
    let mut store = LocalStore::new();

    assert_eq!(store.get_last_pushed_seq("peer-a").unwrap(), 0);
    store.set_last_pushed_seq("peer-a", 7).unwrap();
    assert_eq!(store.get_last_pushed_seq("peer-a").unwrap(), 7);
}

#[test]
fn peer_book_upsert_and_list_filters_by_user_and_age() {
    let mut store = LocalStore::new();

    store
        .upsert_peer_book(&PeerBookPeer {
            peer_id: "peer-a".to_string(),
            addrs: vec!["/ip4/127.0.0.1/tcp/1/p2p/peer-a".to_string()],
            user_id: Some("u1".to_string()),
            device_id: Some("d1".to_string()),
            last_seen_unix: 100,
        })
        .unwrap();

    store
        .upsert_peer_book(&PeerBookPeer {
            peer_id: "peer-b".to_string(),
            addrs: vec!["/ip4/127.0.0.1/tcp/2/p2p/peer-b".to_string()],
            user_id: Some("u2".to_string()),
            device_id: Some("d2".to_string()),
            last_seen_unix: 200,
        })
        .unwrap();

    let got = store.list_peer_book(Some("u1"), 0, 10).unwrap();
    assert_eq!(got.len(), 1);
    assert_eq!(got[0].peer_id, "peer-a");

    let got = store.list_peer_book(None, 150, 10).unwrap();
    assert_eq!(got.len(), 1);
    assert_eq!(got[0].peer_id, "peer-b");
}

#[test]
fn count_pending_push_counts_device_rows_past_cursor() {
    let mut store = LocalStore::new();
    let mut e1 = entry("id-1", 1, "a");
    e1.device_id = "dev-local".to_string();
    let mut e2 = entry("id-2", 2, "b");
    e2.device_id = "dev-remote".to_string();
    let mut e3 = entry("id-3", 3, "c");
    e3.device_id = "dev-local".to_string();
    store.insert_entries(&vec![e1, e2, e3]).unwrap();

    store.set_last_pushed_seq("peer-a", 1).unwrap();
    let pending = store
        .count_pending_push_entries("peer-a", Some("dev-local"))
        .unwrap();
    assert_eq!(pending, 1);

    let pending_all = store.count_pending_push_entries("peer-a", None).unwrap();
    assert_eq!(pending_all, 2);
}
