use rustory::hook::{render_hook, Shell};
use rustory::retry::{exp_duration, is_retryable_status, RetryPolicy};
use rustory::search::{format_fzf_lines, parse_selected_cmd, sanitize_one_line};
use rustory::settings::{
    is_self_rr_command, normalize_opt_string, parse_attempts, resolve_device_id,
    resolve_p2p_request_retry_policy, resolve_record_ignore_regex, resolve_search_limit,
    resolve_swarm_key_path, resolve_tracker_token, resolve_user_id, should_ignore_record_command,
    FileConfig,
};
use rustory::transport::{max_request_body_bytes, normalize_peer_base_url, parse_cursor_limit};

#[test]
fn is_self_rr_command_detects_rr_invocation() {
    assert!(is_self_rr_command("rr"));
    assert!(is_self_rr_command("rr serve --bind 0.0.0.0:8844"));
    assert!(is_self_rr_command("  rr  search"));

    assert!(!is_self_rr_command(""));
    assert!(!is_self_rr_command("echo rr"));
    assert!(!is_self_rr_command("rrr search"));
    assert!(!is_self_rr_command("cargo run --bin rr -- serve"));
}

#[test]
fn bash_hook_contains_disable_and_ctrl_r_and_rr_filter() {
    let got = render_hook(Shell::Bash);
    assert!(got.contains("RUSTORY_HOOK_DISABLE"));
    assert!(got.contains("RUSTORY_SEARCH_LIMIT"));
    assert!(got.contains("bind -x '\"\\C-r\":__rustory_ctrl_r'"));

    // ensure we skip both `rr` and `rr ...`
    assert!(got.contains("case \"$cmd\" in"));
    assert!(got.contains("rr|rr\\ *)"));
}

#[test]
fn zsh_hook_contains_disable_and_ctrl_r_and_rr_filter() {
    let got = render_hook(Shell::Zsh);
    assert!(got.contains("RUSTORY_HOOK_DISABLE"));
    assert!(got.contains("RUSTORY_SEARCH_LIMIT"));
    assert!(got.contains("bindkey '^R'"));

    // ensure we skip both `rr` and `rr ...`
    assert!(got.contains("case \"$cmd\" in"));
    assert!(got.contains("rr|rr\\ *)"));
}

#[test]
fn sanitize_one_line_replaces_newlines() {
    assert_eq!(sanitize_one_line("a\nb\rc"), "a b c");
}

#[test]
fn format_fzf_lines_prefixes_entry_id_and_tab() {
    let entries = vec![rustory::entry::Entry {
        entry_id: "id-1".to_string(),
        device_id: "dev1".to_string(),
        user_id: "user1".to_string(),
        ts: 1,
        cmd: "echo 1".to_string(),
        cwd: "/tmp".to_string(),
        exit_code: 0,
        duration_ms: 12,
        shell: "zsh".to_string(),
        hostname: "host".to_string(),
        version: "0.1.0".to_string(),
    }];

    let lines = format_fzf_lines(&entries);
    assert_eq!(lines, vec!["id-1\techo 1".to_string()]);
}

#[test]
fn parse_selected_cmd_extracts_cmd_after_tab() {
    assert_eq!(
        parse_selected_cmd("id-1\techo 1"),
        Some("echo 1".to_string())
    );
}

#[test]
fn parse_selected_cmd_accepts_plain_line() {
    assert_eq!(parse_selected_cmd("echo 1"), Some("echo 1".to_string()));
}

#[test]
fn record_ignore_regex_matches_command() {
    assert!(should_ignore_record_command("echo token=abc", "(?i)token").unwrap());
    assert!(!should_ignore_record_command("echo hello", "(?i)token").unwrap());
}

#[test]
fn record_ignore_regex_invalid_pattern_is_error() {
    assert!(should_ignore_record_command("echo hello", "(").is_err());
}

#[test]
fn normalize_opt_string_trims_and_drops_blanks() {
    assert_eq!(normalize_opt_string(Some("  x  ".to_string())), Some("x".to_string()));
    assert_eq!(normalize_opt_string(Some("   ".to_string())), None);
    assert_eq!(normalize_opt_string(None), None);
}

#[test]
fn resolve_precedence_runs_cli_env_file_default() {
    let cfg = FileConfig {
        search_limit_default: Some(7),
        user_id: Some("cfg-user".to_string()),
        ..FileConfig::default()
    };
    assert_eq!(resolve_search_limit(Some(3), Some("5".to_string()), &cfg).unwrap(), 3);
    assert_eq!(resolve_search_limit(None, Some("5".to_string()), &cfg).unwrap(), 5);
    assert_eq!(resolve_search_limit(None, None, &cfg).unwrap(), 7);
    assert_eq!(
        resolve_search_limit(None, None, &FileConfig::default()).unwrap(),
        100000
    );
    assert!(resolve_search_limit(None, Some("nope".to_string()), &cfg).is_err());

    assert_eq!(resolve_user_id(Some("env-user".to_string()), &cfg, None), "env-user");
    assert_eq!(resolve_user_id(None, &cfg, None), "cfg-user");
    assert_eq!(
        resolve_user_id(None, &FileConfig::default(), Some("login".to_string())),
        "login"
    );
    assert_eq!(resolve_user_id(None, &FileConfig::default(), None), "unknown");

    assert_eq!(
        resolve_device_id(None, &FileConfig::default(), Some("host1".to_string()), None),
        "host1"
    );
    assert_eq!(
        resolve_tracker_token(None, None, &FileConfig::default()).unwrap(),
        None
    );
    assert_eq!(
        resolve_record_ignore_regex(Some(" p ".to_string()), &FileConfig::default()),
        Some("p".to_string())
    );
    assert_eq!(
        resolve_swarm_key_path(None, None, &FileConfig::default()),
        "~/.config/rustory/swarm.key"
    );
}

#[test]
fn retry_policy_resolution_and_attempts() {
    let p = resolve_p2p_request_retry_policy(
        Some(4),
        Some(7),
        Some(33),
        Some(250),
        None,
        None,
        None,
        None,
        &FileConfig::default(),
    )
    .unwrap();
    assert_eq!(p.attempts, 4);
    assert_eq!(p.timeout_base_sec, 7);
    assert_eq!(p.timeout_cap_sec, 33);
    assert_eq!(p.backoff_base_ms, 250);

    // the cap never falls below the base
    let p2 = resolve_p2p_request_retry_policy(
        None,
        Some(40),
        Some(10),
        None,
        None,
        None,
        None,
        None,
        &FileConfig::default(),
    )
    .unwrap();
    assert_eq!(p2.timeout_cap_sec, 40);

    assert!(parse_attempts(0, "attempts").is_err());
    assert_eq!(parse_attempts(3, "attempts").unwrap(), 3);
}

#[test]
fn exp_duration_doubles_and_caps() {
    assert_eq!(exp_duration(300, 0, Some(2000)), 300);
    assert_eq!(exp_duration(300, 1, Some(2000)), 600);
    assert_eq!(exp_duration(300, 2, Some(2000)), 1200);
    assert_eq!(exp_duration(300, 3, Some(2000)), 2000);
    assert_eq!(exp_duration(200, 3, None), 1600);
    // overflow falls back to the base
    assert_eq!(exp_duration(u64::MAX, 1, None), u64::MAX);
}

#[test]
fn retryable_status_codes_are_exactly_timeouts_and_server_errors() {
    assert!(is_retryable_status(408));
    assert!(is_retryable_status(429));
    assert!(is_retryable_status(500));
    assert!(is_retryable_status(599));
    assert!(!is_retryable_status(200));
    assert!(!is_retryable_status(404));
    assert!(!is_retryable_status(413));
    assert!(!is_retryable_status(600));
}

#[test]
fn retry_policies_have_documented_shapes() {
    let t = RetryPolicy::tracker();
    assert_eq!(t.attempts, 3);
    assert_eq!(t.connect_base_ms, 300);
    assert_eq!(t.read_cap_ms, 5000);
    let x = RetryPolicy::transport();
    assert_eq!(x.attempts, 3);
    assert_eq!(x.read_base_ms, 3000);
    assert_eq!(x.read_cap_ms, 30000);
}

#[test]
fn peer_url_normalization_shares_one_cursor_key() {
    assert_eq!(
        normalize_peer_base_url("http://h:1/").unwrap(),
        "http://h:1"
    );
    assert_eq!(
        normalize_peer_base_url(" http://h:1 ").unwrap(),
        "http://h:1"
    );
    assert!(normalize_peer_base_url("   ").is_err());
    assert!(normalize_peer_base_url("///").is_err());
}

#[test]
fn cursor_limit_query_parses_with_defaults() {
    assert_eq!(parse_cursor_limit(None).unwrap(), (0, 1000));
    assert_eq!(parse_cursor_limit(Some("")).unwrap(), (0, 1000));
    assert_eq!(
        parse_cursor_limit(Some("cursor=5&limit=2")).unwrap(),
        (5, 2)
    );
    assert_eq!(parse_cursor_limit(Some("limit=9")).unwrap(), (0, 9));
    assert_eq!(parse_cursor_limit(Some("other=x")).unwrap(), (0, 1000));
    assert_eq!(parse_cursor_limit(Some("cursor=-3")).unwrap(), (-3, 1000));
    assert!(parse_cursor_limit(Some("cursor=abc")).is_err());
    assert!(parse_cursor_limit(Some("limit=-1")).is_err());
}

#[test]
fn request_body_cap_is_sixteen_mebibytes() {
    assert_eq!(max_request_body_bytes(), 16 * 1024 * 1024);
}
