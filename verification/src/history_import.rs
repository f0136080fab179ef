//! The shell-history importer: parsing bash and zsh history files and
//! loading the records into the local store under deterministic ids.

use crate::entry::{import_entry_id, import_id_of, spec_version, Entry, EntryInput, EntryModel};
use crate::numtext::{int_text_val, is_int_text, parse_i64_chars};
use crate::settings::{regex_match, regex_valid, should_ignore_record_command, RegexError};
use crate::store::{spec_insert, InsertStats, LocalStore, StoreError, StoreModel};
use crate::strutil::{
    char_range, chars_to_string, find_ch, find_char, first_token, lemma_find_ch_at,
    lemma_find_ch_bounds, spec_first_token, spec_trim, spec_trim_end_in, str_eq, str_to_chars,
    trim_chars, trim_end_ws, ws_set,
};
use vstd::prelude::*;

verus! {

/// One record parsed out of a history file. `source_index` is its 0-based
/// position among the command records of the file.
#[derive(Debug, Clone, PartialEq, Eq)]
pub struct HistoryRecord {
    pub source_index: u64,
    pub ts_unix: Option<i64>,
    pub duration_ms: i64,
    pub cmd: String,
}

/// Model of a parsed history record.
pub ghost struct HistoryRecordModel {
    pub source_index: int,
    pub ts_unix: Option<int>,
    pub duration_ms: int,
    pub cmd: Seq<char>,
}

impl View for HistoryRecord {
    type V = HistoryRecordModel;

    open spec fn view(&self) -> HistoryRecordModel {
        HistoryRecordModel {
            source_index: self.source_index as int,
            ts_unix: match self.ts_unix {
                Some(t) => Some(t as int),
                None => None,
            },
            duration_ms: self.duration_ms as int,
            cmd: self.cmd@,
        }
    }
}

impl DeepView for HistoryRecord {
    type V = HistoryRecordModel;

    open spec fn deep_view(&self) -> HistoryRecordModel {
        self.view()
    }
}

/// The shells whose history files the importer reads.
#[derive(Debug, Clone, Copy, PartialEq, Eq, Structural)]
pub enum HistoryShell {
    Bash,
    Zsh,
}

/// Why a shell name was rejected.
#[derive(Debug, Clone, PartialEq, Eq)]
pub struct UnsupportedShell {
    pub value: String,
}

impl HistoryShell {
    /// Accepts exactly "bash" and "zsh".
    pub fn parse(value: &str) -> (r: Result<HistoryShell, UnsupportedShell>)
        ensures
            value@ == "bash"@ ==> (r matches Ok(s) && s == HistoryShell::Bash),
            value@ == "zsh"@ ==> (r matches Ok(s) && s == HistoryShell::Zsh),
            value@ != "bash"@ && value@ != "zsh"@ ==> (r matches Err(e) && e.value@ == value@),
    {
        proof {
            reveal_strlit("bash");
            reveal_strlit("zsh");
            assert("bash"@.len() == 4);
            assert("zsh"@.len() == 3);
        }
        if crate::strutil::str_eq(value, "bash") {
            Ok(HistoryShell::Bash)
        } else if crate::strutil::str_eq(value, "zsh") {
            Ok(HistoryShell::Zsh)
        } else {
            Err(UnsupportedShell { value: value.to_owned() })
        }
    }

    /// The shell's canonical name.
    pub fn as_str(self) -> (r: &'static str)
        ensures
            self == HistoryShell::Bash ==> r@ == "bash"@,
            self == HistoryShell::Zsh ==> r@ == "zsh"@,
    {
        match self {
            HistoryShell::Bash => "bash",
            HistoryShell::Zsh => "zsh",
        }
    }

    /// Where the shell keeps its history by default.
    pub fn default_history_path(self) -> (r: &'static str)
        ensures
            self == HistoryShell::Bash ==> r@ == "~/.bash_history"@,
            self == HistoryShell::Zsh ==> r@ == "~/.zsh_history"@,
    {
        match self {
            HistoryShell::Bash => "~/.bash_history",
            HistoryShell::Zsh => "~/.zsh_history",
        }
    }
}

/// Counts reported by one import run.
#[derive(Debug, Clone, Copy, Default, PartialEq, Eq, Structural)]
pub struct ImportStats {
    pub received: usize,
    pub inserted: usize,
    pub ignored: usize,
    pub skipped: usize,
}

/// The lines of `s`, split at newlines the way `str::lines` splits them
/// (the trailing carriage return of each line is left for the trimming
/// that both parsers apply).
pub open spec fn spec_lines(s: Seq<char>) -> Seq<Seq<char>>
    decreases s.len(),
{
    if s.len() == 0 {
        Seq::empty()
    } else {
        let i = find_ch(s, '\n');
        if 0 <= i < s.len() {
            seq![s.subrange(0, i)] + spec_lines(s.subrange(i + 1, s.len() as int))
        } else {
            seq![s]
        }
    }
}

/// `v` clamped into the `i64` range.
pub open spec fn clamp_i64(v: int) -> int {
    if v > i64::MAX {
        i64::MAX as int
    } else if v < i64::MIN {
        i64::MIN as int
    } else {
        v
    }
}

/// What one (trimmed, non-empty) zsh history line yields. Extended-history
/// lines `: <epoch>:<duration>;cmd` carry their own timestamp and duration
/// in seconds; any other line is a bare command without a timestamp.
pub open spec fn zsh_record_of(l: Seq<char>, idx: int) -> HistoryRecordModel {
    let plain = HistoryRecordModel { source_index: idx, ts_unix: None, duration_ms: 0, cmd: l };
    if l.len() >= 2 && l.subrange(0, 2) == ": "@ {
        let rest = l.subrange(2, l.len() as int);
        let si = find_ch(rest, ';');
        if si < rest.len() {
            let meta = rest.subrange(0, si);
            let after = rest.subrange(si + 1, rest.len() as int);
            let ci = find_ch(meta, ':');
            if ci < meta.len() {
                let ts_s = meta.subrange(0, ci);
                let dur_s = meta.subrange(ci + 1, meta.len() as int);
                HistoryRecordModel {
                    source_index: idx,
                    ts_unix: if is_int_text(ts_s) && i64::MIN <= int_text_val(ts_s)
                        <= i64::MAX {
                        Some(int_text_val(ts_s))
                    } else {
                        None
                    },
                    duration_ms: if is_int_text(dur_s) && i64::MIN <= int_text_val(dur_s)
                        <= i64::MAX {
                        clamp_i64(int_text_val(dur_s) * 1000)
                    } else {
                        0
                    },
                    cmd: after,
                }
            } else {
                plain
            }
        } else {
            plain
        }
    } else {
        plain
    }
}

/// The zsh records of a line list: blank lines are skipped, the others are
/// numbered in order and parsed by [`zsh_record_of`].
pub open spec fn zsh_records_from(lines: Seq<Seq<char>>, idx: int) -> Seq<HistoryRecordModel>
    decreases lines.len(),
{
    if lines.len() == 0 {
        Seq::empty()
    } else {
        let l = spec_trim_end_in(lines[0], ws_set());
        let rest = lines.subrange(1, lines.len() as int);
        if l.len() == 0 {
            zsh_records_from(rest, idx)
        } else {
            seq![zsh_record_of(l, idx)] + zsh_records_from(rest, idx + 1)
        }
    }
}

/// What parsing a zsh history file yields.
pub open spec fn spec_parse_zsh(s: Seq<char>) -> Seq<HistoryRecordModel> {
    zsh_records_from(spec_lines(s), 0)
}

/// The bash records of a line list. A `#<epoch>` line stamps the next
/// command; blank lines are skipped; any other line is a command carrying
/// the pending stamp, if one is waiting.
pub open spec fn bash_records_from(
    lines: Seq<Seq<char>>,
    idx: int,
    pending: Option<int>,
) -> Seq<HistoryRecordModel>
    decreases lines.len(),
{
    if lines.len() == 0 {
        Seq::empty()
    } else {
        let l = spec_trim_end_in(lines[0], ws_set());
        let rest = lines.subrange(1, lines.len() as int);
        if l.len() == 0 {
            bash_records_from(rest, idx, pending)
        } else if l[0] == '#' && is_int_text(l.subrange(1, l.len() as int)) && i64::MIN
            <= int_text_val(l.subrange(1, l.len() as int)) <= i64::MAX {
            bash_records_from(rest, idx, Some(int_text_val(l.subrange(1, l.len() as int))))
        } else {
            seq![
                HistoryRecordModel {
                    source_index: idx,
                    ts_unix: pending,
                    duration_ms: 0,
                    cmd: l,
                },
            ] + bash_records_from(rest, idx + 1, None)
        }
    }
}

/// What parsing a bash history file yields.
pub open spec fn spec_parse_bash(s: Seq<char>) -> Seq<HistoryRecordModel> {
    bash_records_from(spec_lines(s), 0, None)
}

/// Parses zsh history text, extended-history lines included.
pub fn parse_zsh_history(content: &str) -> (r: Vec<HistoryRecord>)
    ensures
        r.deep_view() == spec_parse_zsh(content@),
{
    let cs = str_to_chars(content);
    parse_zsh_chars(&cs)
}

/// Parses bash history text, `HISTTIMEFORMAT` timestamp lines included.
pub fn parse_bash_history(content: &str) -> (r: Vec<HistoryRecord>)
    ensures
        r.deep_view() == spec_parse_bash(content@),
{
    let cs = str_to_chars(content);
    parse_bash_chars(&cs)
}

/// Parses the history of either shell.
pub fn parse_history(shell: HistoryShell, content: &str) -> (r: Vec<HistoryRecord>)
    ensures
        shell == HistoryShell::Bash ==> r.deep_view() == spec_parse_bash(content@),
        shell == HistoryShell::Zsh ==> r.deep_view() == spec_parse_zsh(content@),
{
    match shell {
        HistoryShell::Bash => parse_bash_history(content),
        HistoryShell::Zsh => parse_zsh_history(content),
    }
}

/// Splits off the first line, mirroring one unfolding of [`spec_lines`].
fn next_line(cs: &[char], pos: usize) -> (r: (Vec<char>, usize))
    requires
        pos < cs@.len(),
    ensures
        ({
            let s = cs@.subrange(pos as int, cs@.len() as int);
            let i = find_ch(s, '\n');
            &&& r.0@ == s.subrange(0, i)
            &&& pos < r.1 <= cs@.len()
            &&& (i == s.len() ==> r.1 == cs@.len())
            &&& (i < s.len() ==> r.1 == pos + i + 1 && cs@.subrange(
                r.1 as int,
                cs@.len() as int,
            ) == s.subrange(i + 1, s.len() as int))
        }),
{
    let ghost s = cs@.subrange(pos as int, cs@.len() as int);
    let n: usize = cs.len();
    let mut i: usize = pos;
    while i < n && cs[i] != '\n'
        invariant
            pos <= i <= n,
            n == cs@.len(),
            s == cs@.subrange(pos as int, n as int),
            forall|j: int| pos <= j < i ==> cs@[j] != '\n',
        decreases n - i,
    {
        i = i + 1;
    }
    proof {
        assert(forall|j: int| 0 <= j < i - pos ==> s[j] != '\n');
        if i < n {
            assert(s[i - pos] == '\n');
        }
        lemma_find_ch_at(s, '\n', i - pos as int);
    }
    let line = char_range(cs, pos, i);
    proof {
        assert(line@ =~= s.subrange(0, i - pos as int));
    }
    if i < n {
        proof {
            assert(cs@.subrange(i + 1, n as int) =~= s.subrange(
                i + 1 - pos as int,
                s.len() as int,
            ));
        }
        (line, i + 1)
    } else {
        (line, n)
    }
}

/// Parses one trimmed zsh line exactly as [`zsh_record_of`] describes it.
fn zsh_parse_line(l: &[char], idx: u64) -> (r: HistoryRecord)
    ensures
        r@ == zsh_record_of(l@, idx as int),
{
    let n: usize = l.len();
    if n >= 2 && l[0] == ':' && l[1] == ' ' {
        proof {
            assert(l@.subrange(0, 2) =~= ": "@) by {
                reveal_strlit(": ");
            }
        }
        let rest = char_range(l, 2, n);
        match find_char(rest.as_slice(), ';') {
            Some(si) => {
                proof {
                    lemma_find_ch_at(rest@, ';', si as int);
                }
                let meta = char_range(rest.as_slice(), 0, si);
                let after = char_range(rest.as_slice(), si + 1, rest.len());
                match find_char(meta.as_slice(), ':') {
                    Some(ci) => {
                        proof {
                            lemma_find_ch_at(meta@, ':', ci as int);
                        }
                        let ts_s = char_range(meta.as_slice(), 0, ci);
                        let dur_s = char_range(meta.as_slice(), ci + 1, meta.len());
                        let ts_unix: Option<i64> = parse_i64_chars(ts_s.as_slice());
                        let duration_ms: i64 = match parse_i64_chars(dur_s.as_slice()) {
                            Some(d) => sat_mul_1000(d),
                            None => 0,
                        };
                        HistoryRecord {
                            source_index: idx,
                            ts_unix,
                            duration_ms,
                            cmd: chars_to_string(after.as_slice()),
                        }
                    },
                    None => {
                        proof {
                            lemma_find_ch_at(meta@, ':', meta@.len() as int);
                        }
                        HistoryRecord {
                            source_index: idx,
                            ts_unix: None,
                            duration_ms: 0,
                            cmd: chars_to_string(l),
                        }
                    },
                }
            },
            None => {
                proof {
                    lemma_find_ch_at(rest@, ';', rest@.len() as int);
                }
                HistoryRecord {
                    source_index: idx,
                    ts_unix: None,
                    duration_ms: 0,
                    cmd: chars_to_string(l),
                }
            },
        }
    } else {
        proof {
            if l@.len() >= 2 {
                assert(l@.subrange(0, 2) != ": "@) by {
                    reveal_strlit(": ");
                    if l@.subrange(0, 2) == ": "@ {
                        assert(l@.subrange(0, 2)[0] == l@[0]);
                        assert(l@.subrange(0, 2)[1] == l@[1]);
                        assert(": "@[0] == ':' && ": "@[1] == ' ');
                        assert(false);
                    }
                }
            }
        }
        HistoryRecord {
            source_index: idx,
            ts_unix: None,
            duration_ms: 0,
            cmd: chars_to_string(l),
        }
    }
}

/// Multiplies a parsed duration by 1000, clamped at the `i64` range.
fn sat_mul_1000(d: i64) -> (r: i64)
    ensures
        r as int == clamp_i64(d as int * 1000),
{
    match d.checked_mul(1000) {
        Some(v) => v,
        None => {
            if d > 0 {
                i64::MAX
            } else {
                i64::MIN
            }
        },
    }
}

fn parse_zsh_chars(cs: &Vec<char>) -> (r: Vec<HistoryRecord>)
    ensures
        r.deep_view() == spec_parse_zsh(cs@),
{
    let n: usize = cs.len();
    let mut out: Vec<HistoryRecord> = Vec::new();
    let mut idx: u64 = 0;
    let mut pos: usize = 0;
    proof {
        assert(cs@.subrange(0, n as int) =~= cs@);
    }
    while pos < n
        invariant
            n == cs@.len(),
            pos <= n,
            idx <= pos,
            spec_parse_zsh(cs@) == out.deep_view() + zsh_records_from(
                spec_lines(cs@.subrange(pos as int, n as int)),
                idx as int,
            ),
        decreases n - pos,
    {
        let ghost s = cs@.subrange(pos as int, n as int);
        let ghost predv = out.deep_view();
        let (line, newpos) = next_line(cs.as_slice(), pos);
        let trimmed = trim_end_ws(line.as_slice());
        proof {
            let i = find_ch(s, '\n');
            lemma_find_ch_bounds(s, '\n');
            if i == s.len() {
                assert(spec_lines(s) =~= seq![s]);
                assert(spec_lines(s).subrange(1, 1) =~= Seq::<Seq<char>>::empty());
                assert(spec_lines(cs@.subrange(newpos as int, n as int)) =~= Seq::<
                    Seq<char>,
                >::empty()) by {
                    assert(cs@.subrange(n as int, n as int) =~= Seq::<char>::empty());
                }
                assert(line@ == s.subrange(0, i) && s.subrange(0, i) =~= s);
            } else {
                assert(spec_lines(s)[0] == s.subrange(0, i));
                assert(spec_lines(s).subrange(1, spec_lines(s).len() as int) =~= spec_lines(
                    s.subrange(i + 1, s.len() as int),
                ));
            }
        }
        if trimmed.len() > 0 {
            let rec = zsh_parse_line(trimmed.as_slice(), idx);
            out.push(rec);
            proof {
                assert(out.deep_view().len() == out@.len());
                assert forall|k: int|
                    0 <= k < out.deep_view().len() implies out.deep_view()[k] == (predv + seq![
                    zsh_record_of(trimmed@, idx as int),
                ])[k] by {
                    assert(out.deep_view()[k] == out@[k].deep_view());
                }
                assert(out.deep_view() =~= predv + seq![zsh_record_of(trimmed@, idx as int)]);
            }
            idx = idx + 1;
        }
        pos = newpos;
    }
    proof {
        assert(cs@.subrange(n as int, n as int) =~= Seq::<char>::empty());
        assert(zsh_records_from(spec_lines(cs@.subrange(pos as int, n as int)), idx as int)
            =~= Seq::<HistoryRecordModel>::empty());
        assert(out.deep_view() =~= out.deep_view() + Seq::<HistoryRecordModel>::empty());
    }
    out
}

fn parse_bash_chars(cs: &Vec<char>) -> (r: Vec<HistoryRecord>)
    ensures
        r.deep_view() == spec_parse_bash(cs@),
{
    let n: usize = cs.len();
    let mut out: Vec<HistoryRecord> = Vec::new();
    let mut idx: u64 = 0;
    let mut pos: usize = 0;
    let mut pending: Option<i64> = None;
    proof {
        assert(cs@.subrange(0, n as int) =~= cs@);
    }
    while pos < n
        invariant
            n == cs@.len(),
            pos <= n,
            idx <= pos,
            spec_parse_bash(cs@) == out.deep_view() + bash_records_from(
                spec_lines(cs@.subrange(pos as int, n as int)),
                idx as int,
                match pending {
                    Some(t) => Some(t as int),
                    None => None,
                },
            ),
        decreases n - pos,
    {
        let ghost s = cs@.subrange(pos as int, n as int);
        let ghost predv = out.deep_view();
        let (line, newpos) = next_line(cs.as_slice(), pos);
        let trimmed = trim_end_ws(line.as_slice());
        proof {
            let i = find_ch(s, '\n');
            lemma_find_ch_bounds(s, '\n');
            if i == s.len() {
                assert(spec_lines(s) =~= seq![s]);
                assert(spec_lines(s).subrange(1, 1) =~= Seq::<Seq<char>>::empty());
                assert(spec_lines(cs@.subrange(newpos as int, n as int)) =~= Seq::<
                    Seq<char>,
                >::empty()) by {
                    assert(cs@.subrange(n as int, n as int) =~= Seq::<char>::empty());
                }
                assert(line@ == s.subrange(0, i) && s.subrange(0, i) =~= s);
            } else {
                assert(spec_lines(s)[0] == s.subrange(0, i));
                assert(spec_lines(s).subrange(1, spec_lines(s).len() as int) =~= spec_lines(
                    s.subrange(i + 1, s.len() as int),
                ));
            }
        }
        if trimmed.len() > 0 {
            let is_stamp: Option<i64> = if trimmed[0] == '#' {
                parse_i64_chars(char_range(trimmed.as_slice(), 1, trimmed.len()).as_slice())
            } else {
                None
            };
            match is_stamp {
                Some(t) => {
                    pending = Some(t);
                },
                None => {
                    let rec = HistoryRecord {
                        source_index: idx,
                        ts_unix: pending,
                        duration_ms: 0,
                        cmd: chars_to_string(trimmed.as_slice()),
                    };
                    let ghost recm = rec@;
                    out.push(rec);
                    proof {
                        assert(out.deep_view().len() == out@.len());
                        assert forall|k: int|
                            0 <= k < out.deep_view().len() implies out.deep_view()[k] == (predv
                            + seq![recm])[k] by {
                            assert(out.deep_view()[k] == out@[k].deep_view());
                        }
                        assert(out.deep_view() =~= predv + seq![recm]);
                    }
                    idx = idx + 1;
                    pending = None;
                },
            }
        }
        pos = newpos;
    }
    proof {
        assert(cs@.subrange(n as int, n as int) =~= Seq::<char>::empty());
        assert(out.deep_view() =~= out.deep_view() + Seq::<HistoryRecordModel>::empty());
    }
    out
}

/// What the importer is asked to do.
pub struct ImportRequest<'a> {
    pub shell: HistoryShell,
    pub content: &'a str,
    pub limit: Option<usize>,
    pub user_id: &'a str,
    pub device_id: &'a str,
    pub hostname: &'a str,
    pub ignore_regex: Option<&'a str>,
}

/// Why an import failed.
#[derive(Debug)]
pub enum ImportError {
    /// The configured ignore pattern does not compile.
    BadPattern(RegexError),
    /// The local store failed.
    Storage(StoreError),
}

/// The canonical name of a shell.
pub open spec fn shell_name(s: HistoryShell) -> Seq<char> {
    match s {
        HistoryShell::Bash => "bash"@,
        HistoryShell::Zsh => "zsh"@,
    }
}

/// The records a parse yields for either shell.
pub open spec fn spec_parse(shell: HistoryShell, s: Seq<char>) -> Seq<HistoryRecordModel> {
    match shell {
        HistoryShell::Bash => spec_parse_bash(s),
        HistoryShell::Zsh => spec_parse_zsh(s),
    }
}

/// The records kept after the optional tail limit: the last `n` of them.
pub open spec fn spec_limited(recs: Seq<HistoryRecordModel>, limit: Option<usize>) -> Seq<
    HistoryRecordModel,
> {
    match limit {
        Some(n) => if recs.len() > n {
            recs.skip(recs.len() - n as int)
        } else {
            recs
        },
        None => recs,
    }
}

/// Whether a record survives the import filters: a non-blank command that
/// is not an invocation of this tool and does not match the ignore
/// pattern.
pub open spec fn record_kept(r: HistoryRecordModel, ignore: Option<Seq<char>>) -> bool {
    let cmd = spec_trim(r.cmd);
    &&& cmd.len() > 0
    &&& spec_first_token(cmd) != "rr"@
    &&& (match ignore {
        Some(p) => !regex_match(p, cmd),
        None => true,
    })
}

/// How far back a synthetic timestamp is pushed so that file order is
/// kept: the oldest record gets the earliest stamp.
pub open spec fn spec_fill_delta(total: int, index: int) -> int {
    let d = if total - 1 - index >= 0 {
        total - 1 - index
    } else {
        0
    };
    if d > i64::MAX {
        i64::MAX as int
    } else {
        d
    }
}

/// The timestamp an imported record is stored under: its own, or a
/// synthetic one counted back from `now`.
pub open spec fn spec_filled_ts(total: int, index: int, original: Option<int>, now: int) -> int {
    match original {
        Some(t) => t,
        None => clamp_i64(now - spec_fill_delta(total, index)),
    }
}

/// The entry an imported record becomes.
pub open spec fn entry_of_record(
    r: HistoryRecordModel,
    index: int,
    total: int,
    now: int,
    user: Seq<char>,
    device: Seq<char>,
    shell: Seq<char>,
    hostname: Seq<char>,
) -> EntryModel {
    let cmd = spec_trim(r.cmd);
    EntryModel {
        entry_id: import_id_of(
            user,
            device,
            shell,
            match r.ts_unix {
                Some(t) => t,
                None => 0,
            },
            cmd,
            r.source_index,
        ),
        device_id: device,
        user_id: user,
        ts: spec_filled_ts(total, index, r.ts_unix, now),
        cmd,
        cwd: "unknown"@,
        exit_code: 0,
        duration_ms: r.duration_ms,
        shell,
        hostname,
        version: spec_version(),
    }
}

/// The entries an import inserts, in file order.
pub open spec fn spec_import(
    recs: Seq<HistoryRecordModel>,
    index: int,
    total: int,
    now: int,
    user: Seq<char>,
    device: Seq<char>,
    shell: Seq<char>,
    hostname: Seq<char>,
    ignore: Option<Seq<char>>,
) -> Seq<EntryModel>
    decreases recs.len(),
{
    if recs.len() == 0 {
        Seq::empty()
    } else {
        let rest = spec_import(
            recs.subrange(1, recs.len() as int),
            index + 1,
            total,
            now,
            user,
            device,
            shell,
            hostname,
            ignore,
        );
        if record_kept(recs[0], ignore) {
            seq![entry_of_record(recs[0], index, total, now, user, device, shell, hostname)]
                + rest
        } else {
            rest
        }
    }
}

/// The timestamp an imported record is stored under, as
/// [`spec_filled_ts`] defines it.
pub fn filled_ts_unix(total: usize, index: usize, original: Option<i64>, now: i64) -> (r: i64)
    ensures
        r as int == spec_filled_ts(total as int, index as int, (match original {
            Some(t) => Some(t as int),
            None => None,
        }), now as int),
{
    match original {
        Some(t) => t,
        None => {
            let back: usize = if total >= 1 {
                total - 1
            } else {
                0
            };
            let delta_us: usize = back.saturating_sub(index);
            let delta: i64 = if delta_us as u64 > i64::MAX as u64 {
                i64::MAX
            } else {
                delta_us as i64
            };
            proof {
                assert(delta as int == spec_fill_delta(total as int, index as int));
            }
            match now.checked_sub(delta) {
                Some(v) => v,
                None => i64::MIN,
            }
        },
    }
}

/// Parses a history file and inserts its commands under deterministic
/// ids: the same file imported at any time yields the same ids, so a
/// second import inserts nothing. `now_unix` stamps records that carry no
/// timestamp of their own. Fails only when the ignore pattern does not
/// compile (before touching the store) or on store failure.
pub fn import_into_store(store: &mut LocalStore, req: ImportRequest<'_>, now_unix: i64) -> (r:
    Result<ImportStats, ImportError>)
    requires
        old(store).wf(),
        old(store)@.next_seq + spec_limited(
            spec_parse(req.shell, req.content@),
            req.limit,
        ).len() <= i64::MAX,
    ensures
        final(store).wf(),
        ((r matches Err(_)) <==> (match req.ignore_regex {
            Some(p) => !regex_valid(p@),
            None => false,
        })),
        r matches Err(_) ==> final(store)@ == old(store)@,
        r matches Ok(stats) ==> {
            let recs = spec_limited(spec_parse(req.shell, req.content@), req.limit);
            let kept = spec_import(
                recs,
                0,
                recs.len() as int,
                now_unix as int,
                req.user_id@,
                req.device_id@,
                shell_name(req.shell),
                req.hostname@,
                match req.ignore_regex {
                    Some(p) => Some(p@),
                    None => None,
                },
            );
            let t = spec_insert(old(store)@.rows, old(store)@.next_seq, kept);
            &&& final(store)@ == StoreModel { rows: t.0, next_seq: t.1, ..old(store)@ }
            &&& stats.received == recs.len()
            &&& stats.skipped == recs.len() - kept.len()
            &&& stats.inserted == t.2
            &&& stats.ignored == kept.len() - t.2
        },
{
    let ghost ignore_spec: Option<Seq<char>> = match req.ignore_regex {
        Some(p) => Some(p@),
        None => None,
    };
    match req.ignore_regex {
        Some(p) => {
            match should_ignore_record_command("", p) {
                Ok(_) => (),
                Err(e) => {
                    return Err(ImportError::BadPattern(e));
                },
            }
        },
        None => (),
    };
    let mut records = parse_history(req.shell, req.content);
    let ghost parsed = spec_parse(req.shell, req.content@);
    match req.limit {
        Some(n) => {
            if records.len() > n {
                let at: usize = records.len() - n;
                let ghost before = records.deep_view();
                records = records.split_off(at);
                proof {
                    assert(records.deep_view().len() == records@.len());
                    assert forall|k: int|
                        0 <= k < records.deep_view().len() implies records.deep_view()[k]
                        == parsed.skip(parsed.len() - n as int)[k] by {
                        assert(records.deep_view()[k] == records@[k].deep_view());
                    }
                    assert(records.deep_view() =~= parsed.skip(parsed.len() - n as int));
                }
            }
        },
        None => (),
    };
    let ghost recs = spec_limited(parsed, req.limit);
    proof {
        assert(records.deep_view() == recs);
    }
    let total: usize = records.len();
    let ghost now = now_unix as int;
    let ghost user = req.user_id@;
    let ghost device = req.device_id@;
    let ghost shell = shell_name(req.shell);
    let ghost hostname = req.hostname@;
    let shell_str = req.shell.as_str();
    let mut entries: Vec<Entry> = Vec::new();
    let mut skipped: usize = 0;
    let mut i: usize = 0;
    proof {
        assert(recs.subrange(0, total as int) =~= recs);
    }
    while i < total
        invariant
            total == records@.len(),
            recs == records.deep_view(),
            recs.len() == total,
            i <= total,
            now == now_unix as int,
            user == req.user_id@,
            device == req.device_id@,
            shell == shell_name(req.shell),
            shell_str@ == shell,
            hostname == req.hostname@,
            (ignore_spec == match req.ignore_regex {
                Some(p) => Some(p@),
                None => None::<Seq<char>>,
            }),
            (match ignore_spec {
                Some(p) => regex_valid(p),
                None => true,
            }),
            skipped <= i,
            entries@.len() == i - skipped,
            spec_import(recs, 0, total as int, now, user, device, shell, hostname, ignore_spec)
                == entries.deep_view() + spec_import(
                recs.subrange(i as int, total as int),
                i as int,
                total as int,
                now,
                user,
                device,
                shell,
                hostname,
                ignore_spec,
            ),
        decreases total - i,
    {
        let ghost tail = recs.subrange(i as int, total as int);
        proof {
            assert(tail[0] == recs[i as int]);
            assert(tail.subrange(1, tail.len() as int) =~= recs.subrange(
                i + 1,
                total as int,
            ));
            assert(recs[i as int] == records@[i as int]@);
        }
        let rec = &records[i];
        let cmd_cs = str_to_chars(rec.cmd.as_str());
        let cmdv = trim_chars(cmd_cs.as_slice());
        let mut keep: bool = cmdv.len() > 0;
        if keep {
            let tok = first_token(cmdv.as_slice());
            let toks = chars_to_string(tok.as_slice());
            if str_eq(toks.as_str(), "rr") {
                keep = false;
            }
        }
        if keep {
            match req.ignore_regex {
                Some(p) => {
                    let cmds_probe = chars_to_string(cmdv.as_slice());
                    match should_ignore_record_command(cmds_probe.as_str(), p) {
                        Ok(true) => {
                            keep = false;
                        },
                        Ok(false) => (),
                        Err(_) => {
                            proof {
                                assert(false);
                            }
                            return Err(ImportError::Storage(StoreError::CapacityExhausted));
                        },
                    }
                },
                None => (),
            }
        }
        proof {
            assert(keep == record_kept(recs[i as int], ignore_spec));
        }
        if keep {
            let cmds = chars_to_string(cmdv.as_slice());
            let id_ts: i64 = match rec.ts_unix {
                Some(t) => t,
                None => 0,
            };
            let eid = import_entry_id(
                req.user_id,
                req.device_id,
                shell_str,
                id_ts,
                cmds.as_str(),
                rec.source_index,
            );
            let ts = filled_ts_unix(total, i, rec.ts_unix, now_unix);
            let e = Entry::new_with_id(
                eid,
                EntryInput {
                    device_id: req.device_id.to_owned(),
                    user_id: req.user_id.to_owned(),
                    ts,
                    cmd: cmds,
                    cwd: "unknown".to_owned(),
                    exit_code: 0,
                    duration_ms: rec.duration_ms,
                    shell: shell_str.to_owned(),
                    hostname: req.hostname.to_owned(),
                },
            );
            let ghost em = entry_of_record(
                recs[i as int],
                i as int,
                total as int,
                now,
                user,
                device,
                shell,
                hostname,
            );
            let ghost prev = entries@;
            let ghost prevdv = entries.deep_view();
            proof {
                assert(e@ == em);
            }
            entries.push(e);
            proof {
                assert(entries@ == prev.push(entries@[prev.len() as int]));
                assert(entries.deep_view().len() == entries@.len());
                assert forall|k: int|
                    0 <= k < entries.deep_view().len() implies entries.deep_view()[k] == (prevdv
                    + seq![em])[k] by {
                    assert(entries.deep_view()[k] == entries@[k].deep_view());
                    if k < prev.len() {
                        assert(entries@[k] == prev[k]);
                        assert(prevdv[k] == prev[k].deep_view());
                    }
                }
                assert(entries.deep_view() =~= prevdv + seq![em]);
            }
        } else {
            skipped = skipped + 1;
        }
        i = i + 1;
    }
    proof {
        assert(recs.subrange(total as int, total as int)
            =~= Seq::<HistoryRecordModel>::empty());
        assert(entries.deep_view() =~= entries.deep_view()
            + Seq::<EntryModel>::empty());
        assert(entries.deep_view() == spec_import(
            recs,
            0,
            total as int,
            now,
            user,
            device,
            shell,
            hostname,
            ignore_spec,
        ));
    }
    let stats = match store.insert_entries_with_stats(&entries) {
        Ok(st) => st,
        Err(_) => {
            proof {
                assert(false);
            }
            return Err(ImportError::Storage(StoreError::CapacityExhausted));
        },
    };
    Ok(
        ImportStats {
            received: total,
            inserted: stats.inserted,
            ignored: stats.ignored,
            skipped,
        },
    )
}

} // verus!
