use rustory::history_import::{
    import_into_store, parse_bash_history, parse_zsh_history, HistoryRecord, HistoryShell,
    ImportRequest,
};
use rustory::store::LocalStore;

#[test]
fn parse_zsh_extended_history() {
    let content = ": 1700000000:2;echo hello\n: 1700000001:0;ls -la\n";
    let got = parse_zsh_history(content);
    assert_eq!(
        got,
        vec![
            HistoryRecord {
                source_index: 0,
                ts_unix: Some(1700000000),
                duration_ms: 2000,
                cmd: "echo hello".to_string(),
            },
            HistoryRecord {
                source_index: 1,
                ts_unix: Some(1700000001),
                duration_ms: 0,
                cmd: "ls -la".to_string(),
            },
        ]
    );
}

#[test]
fn parse_bash_history_with_timestamps() {
    let content = "#1700000000\necho a\n#1700000001\nls\n";
    let got = parse_bash_history(content);
    assert_eq!(
        got,
        vec![
            HistoryRecord {
                source_index: 0,
                ts_unix: Some(1700000000),
                duration_ms: 0,
                cmd: "echo a".to_string(),
            },
            HistoryRecord {
                source_index: 1,
                ts_unix: Some(1700000001),
                duration_ms: 0,
                cmd: "ls".to_string(),
            },
        ]
    );
}

#[test]
fn import_is_idempotent_for_same_content() {
    let mut store = LocalStore::new();
    let content = ": 1700000000:0;echo a\n: 1700000001:0;echo b\n";

    let s1 = import_into_store(
        &mut store,
        ImportRequest {
            shell: HistoryShell::Zsh,
            content,
            limit: None,
            user_id: "u1",
            device_id: "d1",
            hostname: "host",
            ignore_regex: None,
        },
        1800000000,
    )
    .unwrap();
    assert_eq!(s1.received, 2);
    assert_eq!(s1.inserted, 2);
    assert_eq!(s1.ignored, 0);

    let s2 = import_into_store(
        &mut store,
        ImportRequest {
            shell: HistoryShell::Zsh,
            content,
            limit: None,
            user_id: "u1",
            device_id: "d1",
            hostname: "host",
            ignore_regex: None,
        },
        1800000000,
    )
    .unwrap();
    assert_eq!(s2.received, 2);
    assert_eq!(s2.inserted, 0);
    assert_eq!(s2.ignored, 2);
}

#[test]
fn import_is_idempotent_even_without_timestamps() {
    let mut store = LocalStore::new();
    let content = "echo a\necho b\n";

    let s1 = import_into_store(
        &mut store,
        ImportRequest {
            shell: HistoryShell::Bash,
            content,
            limit: None,
            user_id: "u1",
            device_id: "d1",
            hostname: "host",
            ignore_regex: None,
        },
        1800000000,
    )
    .unwrap();
    assert_eq!(s1.received, 2);
    assert_eq!(s1.inserted, 2);

    // a later run sees a different clock; the ids do not depend on it
    let s2 = import_into_store(
        &mut store,
        ImportRequest {
            shell: HistoryShell::Bash,
            content,
            limit: None,
            user_id: "u1",
            device_id: "d1",
            hostname: "host",
            ignore_regex: None,
        },
        1800005000,
    )
    .unwrap();
    assert_eq!(s2.received, 2);
    assert_eq!(s2.inserted, 0);
    assert_eq!(s2.ignored, 2);
}

#[test]
fn import_applies_ignore_regex() {
    let mut store = LocalStore::new();
    let content = ": 1700000000:0;echo token=abc\n: 1700000001:0;echo ok\n";

    let s = import_into_store(
        &mut store,
        ImportRequest {
            shell: HistoryShell::Zsh,
            content,
            limit: None,
            user_id: "u1",
            device_id: "d1",
            hostname: "host",
            ignore_regex: Some("(?i)token"),
        },
        1800000000,
    )
    .unwrap();

    assert_eq!(s.received, 2);
    assert_eq!(s.skipped, 1);
    assert_eq!(s.inserted, 1);
    assert_eq!(store.latest_ingest_seq(), 1);
}

#[test]
fn import_rejects_bad_ignore_pattern_untouched() {
    let mut store = LocalStore::new();
    let content = ": 1700000000:0;echo a\n";

    let r = import_into_store(
        &mut store,
        ImportRequest {
            shell: HistoryShell::Zsh,
            content,
            limit: None,
            user_id: "u1",
            device_id: "d1",
            hostname: "host",
            ignore_regex: Some("("),
        },
        1800000000,
    );
    assert!(r.is_err());
    assert_eq!(store.latest_ingest_seq(), 0);
}

#[test]
fn import_limit_keeps_last_records() {
    let mut store = LocalStore::new();
    let content = ": 1:0;echo a\n: 2:0;echo b\n: 3:0;echo c\n";

    let s = import_into_store(
        &mut store,
        ImportRequest {
            shell: HistoryShell::Zsh,
            content,
            limit: Some(2),
            user_id: "u1",
            device_id: "d1",
            hostname: "host",
            ignore_regex: None,
        },
        1800000000,
    )
    .unwrap();
    assert_eq!(s.received, 2);
    assert_eq!(s.inserted, 2);

    let got = store.pull_since_cursor(0, 10).unwrap();
    assert!(got.entries.iter().any(|e| e.cmd == "echo b"));
    assert!(got.entries.iter().any(|e| e.cmd == "echo c"));
    assert!(!got.entries.iter().any(|e| e.cmd == "echo a"));
}

#[test]
fn import_skips_blank_and_self_invocations() {
    let mut store = LocalStore::new();
    let content = "   \nrr search\necho keep\n";

    let s = import_into_store(
        &mut store,
        ImportRequest {
            shell: HistoryShell::Bash,
            content,
            limit: None,
            user_id: "u1",
            device_id: "d1",
            hostname: "host",
            ignore_regex: None,
        },
        1800000000,
    )
    .unwrap();
    assert_eq!(s.received, 2);
    assert_eq!(s.skipped, 1);
    assert_eq!(s.inserted, 1);
}

#[test]
fn history_shell_parse_and_names() {
    assert_eq!(HistoryShell::parse("bash").unwrap(), HistoryShell::Bash);
    assert_eq!(HistoryShell::parse("zsh").unwrap(), HistoryShell::Zsh);
    assert!(HistoryShell::parse("fish").is_err());
    assert_eq!(HistoryShell::Bash.as_str(), "bash");
    assert_eq!(HistoryShell::Zsh.as_str(), "zsh");
    assert_eq!(HistoryShell::Bash.default_history_path(), "~/.bash_history");
    assert_eq!(HistoryShell::Zsh.default_history_path(), "~/.zsh_history");
}
