use rustory::entry::Entry;
use rustory::store::{LocalStore, PullBatch};
use rustory::sync::{
    is_payload_too_large_error, sync_pull_from_peer, sync_pull_from_store, sync_push_to_peer,
    sync_push_to_store, Puller, Pusher, SyncError,
};

fn entry(entry_id: &str, ts: i64, cmd: &str) -> Entry {
    Entry {
        entry_id: entry_id.to_string(),
        device_id: "dev1".to_string(),
        user_id: "user1".to_string(),
        ts,
        cmd: cmd.to_string(),
        cwd: "/tmp".to_string(),
        exit_code: 0,
        duration_ms: 12,
        shell: "zsh".to_string(),
        hostname: "host".to_string(),
        version: "0.1.0".to_string(),
    }
}

struct StorePuller<'a> {
    remote: &'a LocalStore,
    call_limits: Vec<usize>,
    reject_over: Option<usize>,
}

impl Puller for StorePuller<'_> {
    fn pull(&mut self, cursor: i64, limit: usize) -> Result<PullBatch, SyncError> {
        self.call_limits.push(limit);
        if let Some(cap) = self.reject_over {
            if limit > cap {
                return Err(SyncError::TooLarge("request too large: over cap".to_string()));
            }
        }
        self.remote
            .pull_since_cursor(cursor, limit)
            .map_err(SyncError::Storage)
    }
}

struct StorePusher<'a> {
    remote: &'a mut LocalStore,
    call_sizes: Vec<usize>,
    reject_over: Option<usize>,
}

impl Pusher for StorePusher<'_> {
    fn push(&mut self, entries: Vec<Entry>) -> Result<(), SyncError> {
        self.call_sizes.push(entries.len());
        if let Some(cap) = self.reject_over {
            if entries.len() > cap {
                return Err(SyncError::TooLarge("payload too large".to_string()));
            }
        }
        self.remote
            .insert_entries(&entries)
            .map_err(SyncError::Storage)
    }
}

struct FailingPusher;

impl Pusher for FailingPusher {
    fn push(&mut self, _entries: Vec<Entry>) -> Result<(), SyncError> {
        Err(SyncError::Transport("network error".to_string()))
    }
}

#[test]
fn sync_pulls_until_caught_up_and_persists_cursor() {
    let mut local = LocalStore::new();
    let mut remote = LocalStore::new();

    remote
        .insert_entries(&vec![entry("id-1", 1, "echo 1"), entry("id-2", 2, "echo 2")])
        .unwrap();

    let mut puller = StorePuller {
        remote: &remote,
        call_limits: Vec::new(),
        reject_over: None,
    };
    let pulled = sync_pull_from_peer(&mut local, "peer-1", 100, &mut puller).unwrap();

    assert_eq!(pulled, 2);
    assert_eq!(local.latest_ingest_seq(), 2);
    assert_eq!(local.get_last_cursor("peer-1").unwrap(), 2);
}

#[test]
fn sync_is_idempotent_when_run_multiple_times() {
    let mut local = LocalStore::new();
    let mut remote = LocalStore::new();

    remote
        .insert_entries(&vec![entry("id-1", 1, "echo 1"), entry("id-2", 2, "echo 2")])
        .unwrap();

    let a = sync_pull_from_store(&mut local, "peer-1", 1, &remote, None).unwrap();
    assert_eq!(a, 2);
    assert_eq!(local.latest_ingest_seq(), 2);

    let b = sync_pull_from_store(&mut local, "peer-1", 1, &remote, None).unwrap();
    assert_eq!(b, 0);
    assert_eq!(local.latest_ingest_seq(), 2);
}

#[test]
fn push_is_idempotent_when_run_multiple_times() {
    let mut local = LocalStore::new();
    let mut remote = LocalStore::new();

    local
        .insert_entries(&vec![entry("id-1", 1, "echo 1"), entry("id-2", 2, "echo 2")])
        .unwrap();

    let a = sync_push_to_store(&mut local, "peer-1", 1, Some("dev1"), &mut remote, None).unwrap();
    assert_eq!(a, 2);
    assert_eq!(remote.latest_ingest_seq(), 2);

    let b = sync_push_to_store(&mut local, "peer-1", 1, Some("dev1"), &mut remote, None).unwrap();
    assert_eq!(b, 0);
    assert_eq!(remote.latest_ingest_seq(), 2);
}

#[test]
fn push_does_not_advance_cursor_when_push_fails() {
    let mut local = LocalStore::new();

    local
        .insert_entries(&vec![entry("id-1", 1, "echo 1"), entry("id-2", 2, "echo 2")])
        .unwrap();

    let err = sync_push_to_peer(&mut local, "peer-1", 100, Some("dev1"), &mut FailingPusher)
        .unwrap_err();
    match err {
        SyncError::Transport(m) => assert!(m.contains("network error")),
        other => panic!("unexpected error: {:?}", other),
    }
    assert_eq!(local.get_last_pushed_seq("peer-1").unwrap(), 0);
}

#[test]
fn push_filters_by_device_id_and_avoids_gossip() {
    let mut local = LocalStore::new();
    let mut remote = LocalStore::new();

    let mut e1 = entry("id-1", 1, "echo local 1");
    e1.device_id = "dev-local".to_string();
    let mut e2 = entry("id-2", 2, "echo remote 2");
    e2.device_id = "dev-remote".to_string();
    let mut e3 = entry("id-3", 3, "echo local 3");
    e3.device_id = "dev-local".to_string();

    local.insert_entries(&vec![e1, e2, e3]).unwrap();

    let pushed =
        sync_push_to_store(&mut local, "peer-1", 100, Some("dev-local"), &mut remote, None)
            .unwrap();
    assert_eq!(pushed, 2);
    assert_eq!(local.get_last_pushed_seq("peer-1").unwrap(), 3);

    let got = remote.pull_since_cursor(0, 10).unwrap();
    assert_eq!(got.entries.len(), 2);
    assert!(got.entries.iter().any(|e| e.entry_id == "id-1"));
    assert!(got.entries.iter().any(|e| e.entry_id == "id-3"));
    assert!(!got.entries.iter().any(|e| e.entry_id == "id-2"));
}

#[test]
fn pull_adapts_limit_when_payload_too_large() {
    let mut local = LocalStore::new();
    let mut remote = LocalStore::new();

    remote
        .insert_entries(&vec![
            entry("id-1", 1, "echo 1"),
            entry("id-2", 2, "echo 2"),
            entry("id-3", 3, "echo 3"),
        ])
        .unwrap();

    let mut puller = StorePuller {
        remote: &remote,
        call_limits: Vec::new(),
        reject_over: Some(1),
    };
    let pulled = sync_pull_from_peer(&mut local, "peer-1", 8, &mut puller).unwrap();

    assert_eq!(pulled, 3);
    assert_eq!(local.latest_ingest_seq(), 3);
    assert_eq!(local.get_last_cursor("peer-1").unwrap(), 3);

    assert!(puller.call_limits.contains(&1));
    assert!(puller.call_limits.first().copied().unwrap_or(0) > 1);
}

#[test]
fn push_adapts_limit_when_payload_too_large() {
    let mut local = LocalStore::new();
    let mut remote = LocalStore::new();

    let mut e1 = entry("id-1", 1, "echo 1");
    e1.device_id = "dev-local".to_string();
    let mut e2 = entry("id-2", 2, "echo 2");
    e2.device_id = "dev-local".to_string();
    let mut e3 = entry("id-3", 3, "echo 3");
    e3.device_id = "dev-local".to_string();

    local.insert_entries(&vec![e1, e2, e3]).unwrap();

    let (pushed, call_sizes) = {
        let mut pusher = StorePusher {
            remote: &mut remote,
            call_sizes: Vec::new(),
            reject_over: Some(1),
        };
        let pushed =
            sync_push_to_peer(&mut local, "peer-1", 8, Some("dev-local"), &mut pusher).unwrap();
        (pushed, pusher.call_sizes)
    };

    assert_eq!(pushed, 3);
    assert_eq!(remote.latest_ingest_seq(), 3);
    assert_eq!(local.get_last_pushed_seq("peer-1").unwrap(), 3);

    assert!(call_sizes.contains(&1));
    assert!(call_sizes.first().copied().unwrap_or(0) > 1);
}

#[test]
fn pull_from_capped_store_converges_one_by_one() {
    let mut local = LocalStore::new();
    let mut remote = LocalStore::new();
    remote
        .insert_entries(&vec![
            entry("id-1", 1, "echo 1"),
            entry("id-2", 2, "echo 2"),
            entry("id-3", 3, "echo 3"),
        ])
        .unwrap();

    let pulled = sync_pull_from_store(&mut local, "peer-1", 8, &remote, Some(1)).unwrap();
    assert_eq!(pulled, 3);
    assert_eq!(local.latest_ingest_seq(), 3);
    assert_eq!(local.get_last_cursor("peer-1").unwrap(), 3);
}

#[test]
fn pull_from_store_rejecting_everything_changes_nothing() {
    let mut local = LocalStore::new();
    let mut remote = LocalStore::new();
    remote.insert_entries(&vec![entry("id-1", 1, "a")]).unwrap();

    let err = sync_pull_from_store(&mut local, "peer-1", 4, &remote, Some(0)).unwrap_err();
    assert!(is_payload_too_large_error(&err));
    assert_eq!(local.latest_ingest_seq(), 0);
    assert_eq!(local.get_last_cursor("peer-1").unwrap(), 0);
}

#[test]
fn too_large_recognised_by_classification_and_by_text() {
    assert!(is_payload_too_large_error(&SyncError::TooLarge(
        "anything".to_string()
    )));
    assert!(is_payload_too_large_error(&SyncError::Transport(
        "io: message too large: 100 > 10 bytes".to_string()
    )));
    assert!(is_payload_too_large_error(&SyncError::Transport(
        "request too large".to_string()
    )));
    assert!(is_payload_too_large_error(&SyncError::Transport(
        "payload too large".to_string()
    )));
    assert!(!is_payload_too_large_error(&SyncError::Transport(
        "connection refused".to_string()
    )));
    assert!(!is_payload_too_large_error(&SyncError::InvalidBatch(
        "too large".to_string()
    )));
}
