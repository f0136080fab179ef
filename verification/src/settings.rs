//! Pure resolution of configuration values.
//!
//! Every setting is resolved from an explicit argument, the corresponding
//! environment value, and the configuration file, in that order of
//! precedence. The caller reads the environment and the file and hands the
//! raw values in; everything here is a pure function of its arguments.

use crate::strutil::{
    chars_to_string, first_token, spec_first_token, spec_split, spec_trim, split_char, str_eq,
    str_to_chars, trim_chars,
};
use crate::tracker::{clean_addrs, spec_clean_addrs, PeerMeta};
use crate::numtext::{is_uint_text, parse_u64_chars, parse_usize_chars, uint_text_val};
use vstd::prelude::*;

verus! {

/// Trimmed copy of an optional string; `None` when absent or blank.
pub open spec fn spec_norm(v: Option<Seq<char>>) -> Option<Seq<char>> {
    match v {
        Some(s) => if spec_trim(s).len() == 0 {
            None
        } else {
            Some(spec_trim(s))
        },
        None => None,
    }
}

/// Trims an optional string, turning a blank or missing value into `None`.
pub fn normalize_opt_string(value: Option<String>) -> (r: Option<String>)
    ensures
        (match r {
            Some(s) => Some(s@),
            None => None,
        }) == spec_norm(
            match value {
                Some(s) => Some(s@),
                None => None,
            },
        ),
{
    match value {
        Some(s) => {
            let cs = str_to_chars(s.as_str());
            let t = trim_chars(cs.as_slice());
            if t.len() == 0 {
                None
            } else {
                Some(chars_to_string(t.as_slice()))
            }
        },
        None => None,
    }
}

/// The configuration file's contents, with every field optional.
#[derive(Debug, Clone, Default)]
pub struct FileConfig {
    pub db_path: Option<String>,
    pub user_id: Option<String>,
    pub device_id: Option<String>,
    pub trackers: Option<Vec<String>>,
    pub tracker_token: Option<String>,
    pub relay_addr: Option<String>,
    pub swarm_key_path: Option<String>,
    pub p2p_identity_key_path: Option<String>,
    pub relay_identity_key_path: Option<String>,
    pub p2p_watch_start_jitter_sec: Option<u64>,
    pub p2p_request_attempts: Option<u64>,
    pub p2p_request_timeout_base_sec: Option<u64>,
    pub p2p_request_timeout_cap_sec: Option<u64>,
    pub p2p_request_backoff_base_ms: Option<u64>,
    pub search_limit_default: Option<usize>,
    pub record_ignore_regex: Option<String>,
}

/// A setting whose text could not be used, with the offending value.
#[derive(Debug, Clone, PartialEq, Eq)]
pub struct SettingError {
    pub value: String,
}

/// The search limit: the explicit value, else the environment value
/// parsed as an unsigned number, else the file's default, else 100000.
pub fn resolve_search_limit(cli: Option<usize>, env: Option<String>, cfg: &FileConfig) -> (r:
    Result<usize, SettingError>)
    ensures
        cli matches Some(v) ==> r matches Ok(x) && x == v,
        cli is None ==> (match spec_norm(
            match env {
                Some(s) => Some(s@),
                None => None,
            },
        ) {
            Some(t) => if is_uint_text(t) && uint_text_val(t) <= usize::MAX {
                r matches Ok(x) && x as int == uint_text_val(t)
            } else {
                r matches Err(_)
            },
            None => r matches Ok(x) && x as int == (match cfg.search_limit_default {
                Some(d) => d as int,
                None => 100000,
            }),
        }),
{
    if let Some(v) = cli {
        return Ok(v);
    }
    match normalize_opt_string(env) {
        Some(t) => {
            let cs = str_to_chars(t.as_str());
            match parse_usize_chars(cs.as_slice()) {
                Some(x) => {
                    proof {
                        crate::numtext::lemma_digits_val_nonneg(crate::numtext::uint_body(cs@));
                    }
                    Ok(x)
                },
                None => Err(SettingError { value: t }),
            }
        },
        None => match cfg.search_limit_default {
            Some(d) => Ok(d),
            None => Ok(100000),
        },
    }
}

/// The watch loop's startup jitter bound, in seconds; defaults to 0.
pub fn resolve_p2p_watch_start_jitter_sec(
    cli: Option<u64>,
    env: Option<String>,
    cfg: &FileConfig,
) -> (r: Result<u64, SettingError>)
    ensures
        cli matches Some(v) ==> r matches Ok(x) && x == v,
        cli is None ==> (match spec_norm(
            match env {
                Some(s) => Some(s@),
                None => None,
            },
        ) {
            Some(t) => if is_uint_text(t) && uint_text_val(t) <= u64::MAX {
                r matches Ok(x) && x as int == uint_text_val(t)
            } else {
                r matches Err(_)
            },
            None => r matches Ok(x) && x as int == (match cfg.p2p_watch_start_jitter_sec {
                Some(d) => d as int,
                None => 0,
            }),
        }),
{
    if let Some(v) = cli {
        return Ok(v);
    }
    match normalize_opt_string(env) {
        Some(t) => {
            let cs = str_to_chars(t.as_str());
            match parse_u64_chars(cs.as_slice()) {
                Some(x) => {
                    proof {
                        crate::numtext::lemma_digits_val_nonneg(crate::numtext::uint_body(cs@));
                    }
                    Ok(x)
                },
                None => Err(SettingError { value: t }),
            }
        },
        None => match cfg.p2p_watch_start_jitter_sec {
            Some(d) => Ok(d),
            None => Ok(0),
        },
    }
}

/// How requests over the overlay are retried: attempt count, exponential
/// per-attempt timeout between a base and a cap, and backoff base.
#[derive(Debug, Clone, Copy, PartialEq, Eq, Structural)]
pub struct RequestRetryPolicy {
    pub attempts: usize,
    pub timeout_base_sec: u64,
    pub timeout_cap_sec: u64,
    pub backoff_base_ms: u64,
}

impl Default for RequestRetryPolicy {
    /// Three attempts, 5 s base timeout capped at 30 s, 200 ms backoff.
    fn default() -> (r: RequestRetryPolicy)
        ensures
            r.attempts == 3 && r.timeout_base_sec == 5 && r.timeout_cap_sec == 30
                && r.backoff_base_ms == 200,
    {
        RequestRetryPolicy { attempts: 3, timeout_base_sec: 5, timeout_cap_sec: 30, backoff_base_ms: 200 }
    }
}

/// An attempt count must be at least one and fit the machine.
pub fn parse_attempts(value: u64, label: &str) -> (r: Result<usize, SettingError>)
    ensures
        value == 0 ==> r matches Err(_),
        1 <= value <= usize::MAX ==> (r matches Ok(x) && x as int == value),
        value > usize::MAX ==> r matches Err(_),
{
    if value == 0 {
        return Err(SettingError { value: label.to_owned() });
    }
    if value > usize::MAX as u64 {
        return Err(SettingError { value: label.to_owned() });
    }
    Ok(value as usize)
}

/// One slot of the retry policy: the explicit value, else the parsed
/// environment value, else the file's value, else the default.
fn resolve_u64_setting(cli: Option<u64>, env: Option<String>, file: Option<u64>, default: u64) -> (
    r: Result<u64, SettingError>)
    ensures
        cli matches Some(v) ==> r matches Ok(x) && x == v,
        cli is None ==> (match spec_norm(
            match env {
                Some(s) => Some(s@),
                None => None,
            },
        ) {
            Some(t) => if is_uint_text(t) && uint_text_val(t) <= u64::MAX {
                r matches Ok(x) && x as int == uint_text_val(t)
            } else {
                r matches Err(_)
            },
            None => r matches Ok(x) && x == (match file {
                Some(d) => d,
                None => default,
            }),
        }),
{
    if let Some(v) = cli {
        return Ok(v);
    }
    match normalize_opt_string(env) {
        Some(t) => {
            let cs = str_to_chars(t.as_str());
            match parse_u64_chars(cs.as_slice()) {
                Some(x) => {
                    proof {
                        crate::numtext::lemma_digits_val_nonneg(crate::numtext::uint_body(cs@));
                    }
                    Ok(x)
                },
                None => Err(SettingError { value: t }),
            }
        },
        None => match file {
            Some(d) => Ok(d),
            None => Ok(default),
        },
    }
}

/// Resolves the whole request retry policy. Each slot follows the usual
/// precedence; the cap is raised to the base when it would fall below it,
/// and a zero or oversized attempt count is an error.
pub fn resolve_p2p_request_retry_policy(
    cli_attempts: Option<u64>,
    cli_timeout_base_sec: Option<u64>,
    cli_timeout_cap_sec: Option<u64>,
    cli_backoff_base_ms: Option<u64>,
    env_attempts: Option<String>,
    env_timeout_base_sec: Option<String>,
    env_timeout_cap_sec: Option<String>,
    env_backoff_base_ms: Option<String>,
    cfg: &FileConfig,
) -> (r: Result<RequestRetryPolicy, SettingError>)
    ensures
        r matches Ok(p) ==> p.attempts >= 1 && p.timeout_cap_sec >= p.timeout_base_sec,
{
    let attempts_raw = match resolve_u64_setting(cli_attempts, env_attempts, cfg.p2p_request_attempts, 3) {
        Ok(v) => v,
        Err(e) => {
            return Err(e);
        },
    };
    let attempts = match parse_attempts(attempts_raw, "attempts") {
        Ok(v) => v,
        Err(e) => {
            return Err(e);
        },
    };
    let timeout_base_sec = match resolve_u64_setting(
        cli_timeout_base_sec,
        env_timeout_base_sec,
        cfg.p2p_request_timeout_base_sec,
        5,
    ) {
        Ok(v) => v,
        Err(e) => {
            return Err(e);
        },
    };
    let cap_raw = match resolve_u64_setting(
        cli_timeout_cap_sec,
        env_timeout_cap_sec,
        cfg.p2p_request_timeout_cap_sec,
        30,
    ) {
        Ok(v) => v,
        Err(e) => {
            return Err(e);
        },
    };
    let timeout_cap_sec = if cap_raw < timeout_base_sec {
        timeout_base_sec
    } else {
        cap_raw
    };
    let backoff_base_ms = match resolve_u64_setting(
        cli_backoff_base_ms,
        env_backoff_base_ms,
        cfg.p2p_request_backoff_base_ms,
        200,
    ) {
        Ok(v) => v,
        Err(e) => {
            return Err(e);
        },
    };
    Ok(RequestRetryPolicy { attempts, timeout_base_sec, timeout_cap_sec, backoff_base_ms })
}

/// A path-like setting: the explicit value, else the environment, else the
/// file, else the given default.
fn resolve_path_setting(
    cli: Option<String>,
    env: Option<String>,
    file: Option<String>,
    default: &str,
) -> (r: String)
    ensures
        r@ == (match spec_norm(
            match cli {
                Some(s) => Some(s@),
                None => None,
            },
        ) {
            Some(c) => c,
            None => match spec_norm(
                match env {
                    Some(s) => Some(s@),
                    None => None,
                },
            ) {
                Some(e) => e,
                None => match spec_norm(
                    match file {
                        Some(s) => Some(s@),
                        None => None,
                    },
                ) {
                    Some(f) => f,
                    None => default@,
                },
            },
        }),
{
    match normalize_opt_string(cli) {
        Some(c) => c,
        None => match normalize_opt_string(env) {
            Some(e) => e,
            None => match normalize_opt_string(file) {
                Some(f) => f,
                None => default.to_owned(),
            },
        },
    }
}

/// Where the swarm pre-shared key lives.
pub fn resolve_swarm_key_path(cli_path: Option<String>, env: Option<String>, cfg: &FileConfig) -> (
    r: String)
    ensures
        r@ == (match spec_norm(
            match cli_path {
                Some(s) => Some(s@),
                None => None,
            },
        ) {
            Some(c) => c,
            None => match spec_norm(
                match env {
                    Some(s) => Some(s@),
                    None => None,
                },
            ) {
                Some(e) => e,
                None => match spec_norm(
                    match cfg.swarm_key_path {
                        Some(s) => Some(s@),
                        None => None,
                    },
                ) {
                    Some(f) => f,
                    None => "~/.config/rustory/swarm.key"@,
                },
            },
        }),
{
    resolve_path_setting(
        cli_path,
        env,
        cfg.swarm_key_path.clone(),
        "~/.config/rustory/swarm.key",
    )
}

/// Where the node's identity keypair lives.
pub fn resolve_p2p_identity_key_path(
    cli_path: Option<String>,
    env: Option<String>,
    cfg: &FileConfig,
) -> (r: String)
    ensures
        r@ == (match spec_norm(
            match cli_path {
                Some(s) => Some(s@),
                None => None,
            },
        ) {
            Some(c) => c,
            None => match spec_norm(
                match env {
                    Some(s) => Some(s@),
                    None => None,
                },
            ) {
                Some(e) => e,
                None => match spec_norm(
                    match cfg.p2p_identity_key_path {
                        Some(s) => Some(s@),
                        None => None,
                    },
                ) {
                    Some(f) => f,
                    None => "~/.config/rustory/identity.key"@,
                },
            },
        }),
{
    resolve_path_setting(
        cli_path,
        env,
        cfg.p2p_identity_key_path.clone(),
        "~/.config/rustory/identity.key",
    )
}

/// Where the relay's identity keypair lives.
pub fn resolve_relay_identity_key_path(
    cli_path: Option<String>,
    env: Option<String>,
    cfg: &FileConfig,
) -> (r: String)
    ensures
        r@ == (match spec_norm(
            match cli_path {
                Some(s) => Some(s@),
                None => None,
            },
        ) {
            Some(c) => c,
            None => match spec_norm(
                match env {
                    Some(s) => Some(s@),
                    None => None,
                },
            ) {
                Some(e) => e,
                None => match spec_norm(
                    match cfg.relay_identity_key_path {
                        Some(s) => Some(s@),
                        None => None,
                    },
                ) {
                    Some(f) => f,
                    None => "~/.config/rustory/relay.key"@,
                },
            },
        }),
{
    resolve_path_setting(
        cli_path,
        env,
        cfg.relay_identity_key_path.clone(),
        "~/.config/rustory/relay.key",
    )
}

/// The tracker bearer token, if any source provides one.
pub fn resolve_tracker_token(cli: Option<String>, env: Option<String>, cfg: &FileConfig) -> (r:
    Result<Option<String>, SettingError>)
    ensures
        r matches Ok(o) && (match o {
            Some(s) => Some(s@),
            None => None,
        }) == (match spec_norm(
            match cli {
                Some(s) => Some(s@),
                None => None,
            },
        ) {
            Some(c) => Some(c),
            None => match spec_norm(
                match env {
                    Some(s) => Some(s@),
                    None => None,
                },
            ) {
                Some(e) => Some(e),
                None => spec_norm(
                    match cfg.tracker_token {
                        Some(s) => Some(s@),
                        None => None,
                    },
                ),
            },
        }),
{
    match normalize_opt_string(cli) {
        Some(c) => Ok(Some(c)),
        None => match normalize_opt_string(env) {
            Some(e) => Ok(Some(e)),
            None => Ok(normalize_opt_string(cfg.tracker_token.clone())),
        },
    }
}

/// The user this device records for.
pub fn resolve_user_id(env_user: Option<String>, cfg: &FileConfig, env_fallback_user: Option<
    String,
>) -> (r: String)
    ensures
        r@ == (match spec_norm(
            match env_user {
                Some(s) => Some(s@),
                None => None,
            },
        ) {
            Some(u) => u,
            None => match spec_norm(
                match cfg.user_id {
                    Some(s) => Some(s@),
                    None => None,
                },
            ) {
                Some(c) => c,
                None => match spec_norm(
                    match env_fallback_user {
                        Some(s) => Some(s@),
                        None => None,
                    },
                ) {
                    Some(f) => f,
                    None => "unknown"@,
                },
            },
        }),
{
    match normalize_opt_string(env_user) {
        Some(u) => u,
        None => match normalize_opt_string(cfg.user_id.clone()) {
            Some(c) => c,
            None => match normalize_opt_string(env_fallback_user) {
                Some(f) => f,
                None => "unknown".to_owned(),
            },
        },
    }
}

/// The device's identity, falling back to its host name.
pub fn resolve_device_id(
    env_device: Option<String>,
    cfg: &FileConfig,
    env_hostname: Option<String>,
    env_host: Option<String>,
) -> (r: String)
    ensures
        r@ == (match spec_norm(
            match env_device {
                Some(s) => Some(s@),
                None => None,
            },
        ) {
            Some(u) => u,
            None => match spec_norm(
                match cfg.device_id {
                    Some(s) => Some(s@),
                    None => None,
                },
            ) {
                Some(c) => c,
                None => match spec_norm(
                    match env_hostname {
                        Some(s) => Some(s@),
                        None => None,
                    },
                ) {
                    Some(h) => h,
                    None => match spec_norm(
                        match env_host {
                            Some(s) => Some(s@),
                            None => None,
                        },
                    ) {
                        Some(h2) => h2,
                        None => "unknown"@,
                    },
                },
            },
        }),
{
    match normalize_opt_string(env_device) {
        Some(u) => u,
        None => match normalize_opt_string(cfg.device_id.clone()) {
            Some(c) => c,
            None => match normalize_opt_string(env_hostname) {
                Some(h) => h,
                None => match normalize_opt_string(env_host) {
                    Some(h2) => h2,
                    None => "unknown".to_owned(),
                },
            },
        },
    }
}

/// The pattern of commands the recorder must not store, if configured.
pub fn resolve_record_ignore_regex(env: Option<String>, cfg: &FileConfig) -> (r: Option<String>)
    ensures
        (match r {
            Some(s) => Some(s@),
            None => None,
        }) == (match spec_norm(
            match env {
                Some(s) => Some(s@),
                None => None,
            },
        ) {
            Some(e) => Some(e),
            None => spec_norm(
                match cfg.record_ignore_regex {
                    Some(s) => Some(s@),
                    None => None,
                },
            ),
        }),
{
    match normalize_opt_string(env) {
        Some(e) => Some(e),
        None => normalize_opt_string(cfg.record_ignore_regex.clone()),
    }
}

/// Whether a regular-expression pattern compiles.
pub uninterp spec fn regex_valid(pattern: Seq<char>) -> bool;

/// Whether a pattern matches somewhere in a text; a function of the
/// pattern and the text alone.
pub uninterp spec fn regex_match(pattern: Seq<char>, text: Seq<char>) -> bool;

/// A pattern that did not compile.
#[derive(Debug, Clone, PartialEq, Eq)]
pub struct RegexError {
    pub pattern: String,
}

/// Relies on `regex::Regex::new` and `regex::Regex::is_match`: whether the
/// pattern compiles, and whether it matches the text, are functions of the
/// pattern and text alone.
#[verifier::external_body]
fn regex_is_match(pattern: &str, text: &str) -> (r: Result<bool, RegexError>)
    ensures
        (r matches Ok(_)) == regex_valid(pattern@),
        r matches Ok(b) ==> b == regex_match(pattern@, text@),
{
    match regex::Regex::new(pattern) {
        Ok(re) => Ok(re.is_match(text)),
        Err(_) => Err(RegexError { pattern: pattern.to_string() }),
    }
}

/// Whether the recorder must skip this command under the configured
/// ignore pattern; an error when the pattern does not compile.
pub fn should_ignore_record_command(cmd: &str, pattern: &str) -> (r: Result<bool, RegexError>)
    ensures
        (r matches Ok(_)) == regex_valid(pattern@),
        r matches Ok(b) ==> b == regex_match(pattern@, cmd@),
{
    regex_is_match(pattern, cmd)
}

/// Whether a command line invokes this tool itself: its first
/// whitespace-separated word is exactly `rr`.
pub fn is_self_rr_command(cmd: &str) -> (r: bool)
    ensures
        r == (spec_first_token(cmd@) == "rr"@),
{
    let cs = str_to_chars(cmd);
    let t = first_token(cs.as_slice());
    let ts = chars_to_string(t.as_slice());
    str_eq(ts.as_str(), "rr")
}

/// The configured trackers: the explicit list when one was given, else
/// the environment value split at commas, else the file's list; every
/// entry trimmed and blank entries dropped.
pub fn resolve_trackers(cli: Vec<String>, env: Option<String>, cfg: &FileConfig) -> (r: Result<
    Vec<String>,
    SettingError,
>)
    ensures
        r matches Ok(v) && v.deep_view() == spec_clean_addrs(
            if cli@.len() > 0 {
                cli.deep_view()
            } else {
                match spec_norm(
                    match env {
                        Some(e) => Some(e@),
                        None => None,
                    },
                ) {
                    Some(e) => spec_split(e, ','),
                    None => match cfg.trackers {
                        Some(t) => t.deep_view(),
                        None => Seq::<Seq<char>>::empty(),
                    },
                }
            },
        ),
{
    if cli.len() > 0 {
        return Ok(clean_addrs(&cli));
    }
    match normalize_opt_string(env) {
        Some(e) => {
            let cs = str_to_chars(e.as_str());
            let parts = split_char(cs.as_slice(), ',');
            Ok(clean_addrs(&parts))
        },
        None => match &cfg.trackers {
            Some(t) => Ok(clean_addrs(t)),
            None => {
                let empty: Vec<String> = Vec::new();
                proof {
                    assert(empty.deep_view() =~= Seq::<Seq<char>>::empty());
                    assert(spec_clean_addrs(Seq::<Seq<char>>::empty())
                        == Seq::<Seq<char>>::empty());
                }
                Ok(empty)
            },
        },
    }
}

/// What this node advertises about itself to the trackers.
pub fn resolve_peer_meta(
    env_hostname: Option<String>,
    env_user: Option<String>,
    env_fallback_user: Option<String>,
    env_device: Option<String>,
    env_host: Option<String>,
    cfg: &FileConfig,
) -> (r: PeerMeta)
    ensures
        (match r.hostname {
            Some(h) => h@,
            None => Seq::<char>::empty(),
        }) == (match spec_norm(
            match env_hostname {
                Some(h) => Some(h@),
                None => None,
            },
        ) {
            Some(h) => h,
            None => "unknown"@,
        }),
        r.hostname is Some,
        r.user_id is Some,
        r.device_id is Some,
        (r.version matches Some(v) && v@ == crate::entry::spec_version()),
{
    let env_hostname2: Option<String> = match &env_hostname {
        Some(h) => Some(h.clone()),
        None => None,
    };
    let hostname = match normalize_opt_string(env_hostname) {
        Some(h) => h,
        None => "unknown".to_owned(),
    };
    let user_id = resolve_user_id(env_user, cfg, env_fallback_user);
    let device_id = resolve_device_id(env_device, cfg, env_hostname2, env_host);
    PeerMeta {
        device_id: Some(device_id),
        hostname: Some(hostname),
        user_id: Some(user_id),
        version: Some(crate::entry::version_string()),
    }
}

} // verus!
