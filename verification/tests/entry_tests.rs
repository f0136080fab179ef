use rustory::entry::{import_entry_id, new_entry_id, Entry, EntryInput};
use uuid::Uuid;

#[test]
fn new_entry_id_returns_uuid() {
    let id = new_entry_id();
    let _uuid = Uuid::parse_str(&id).unwrap();
}

#[test]
fn new_entry_id_is_unique_enough_for_poc() {
    let a = new_entry_id();
    let b = new_entry_id();
    assert_ne!(a, b);
}

#[test]
fn entry_new_generates_id_and_sets_version() {
    let e = Entry::new(EntryInput {
        device_id: "dev1".to_string(),
        user_id: "user1".to_string(),
        ts: 1,
        cmd: "echo 1".to_string(),
        cwd: "/tmp".to_string(),
        exit_code: 0,
        duration_ms: 12,
        shell: "zsh".to_string(),
        hostname: "host".to_string(),
    });

    let _uuid = Uuid::parse_str(&e.entry_id).unwrap();
    assert_eq!(e.version, "0.1.0");
    assert_eq!(e.cmd, "echo 1");
}

#[test]
fn import_entry_id_is_deterministic_and_sensitive() {
    let a = import_entry_id("u1", "d1", "zsh", 1, "echo 1", 0);
    let b = import_entry_id("u1", "d1", "zsh", 1, "echo 1", 0);
    assert_eq!(a, b);

    let c = import_entry_id("u1", "d1", "zsh", 1, "echo 1", 1);
    assert_ne!(a, c);

    let d = import_entry_id("u1", "d1", "zsh", 1, "echo 2", 0);
    assert_ne!(a, d);
}

#[test]
fn import_entry_id_is_a_name_based_uuid() {
    let a = import_entry_id("u1", "d1", "zsh", 1700000000, "echo 1", 0);
    let parsed = Uuid::parse_str(&a).unwrap();
    assert_eq!(parsed.get_version_num(), 5);
    assert_ne!(a, "echo 1");
}
