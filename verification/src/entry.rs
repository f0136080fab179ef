//! The command record: an immutable, globally identified entry.

use vstd::prelude::*;

verus! {

/// Globally unique identifier of an entry.
pub type EntryId = String;

/// The version string recorded in every entry this library creates.
pub open spec fn spec_version() -> Seq<char> {
    "0.1.0"@
}

pub fn version_string() -> (r: String)
    ensures
        r@ == spec_version(),
{
    "0.1.0".to_owned()
}

/// Mathematical model of one command record.
pub ghost struct EntryModel {
    pub entry_id: Seq<char>,
    pub device_id: Seq<char>,
    pub user_id: Seq<char>,
    pub ts: int,
    pub cmd: Seq<char>,
    pub cwd: Seq<char>,
    pub exit_code: int,
    pub duration_ms: int,
    pub shell: Seq<char>,
    pub hostname: Seq<char>,
    pub version: Seq<char>,
}

/// Immutable record of one executed command. `ts` is wall-clock seconds
/// since the Unix epoch.
pub struct Entry {
    pub entry_id: EntryId,
    pub device_id: String,
    pub user_id: String,
    pub ts: i64,
    pub cmd: String,
    pub cwd: String,
    pub exit_code: i32,
    pub duration_ms: i64,
    pub shell: String,
    pub hostname: String,
    pub version: String,
}

impl View for Entry {
    type V = EntryModel;

    open spec fn view(&self) -> EntryModel {
        EntryModel {
            entry_id: self.entry_id@,
            device_id: self.device_id@,
            user_id: self.user_id@,
            ts: self.ts as int,
            cmd: self.cmd@,
            cwd: self.cwd@,
            exit_code: self.exit_code as int,
            duration_ms: self.duration_ms as int,
            shell: self.shell@,
            hostname: self.hostname@,
            version: self.version@,
        }
    }
}

impl DeepView for Entry {
    type V = EntryModel;

    open spec fn deep_view(&self) -> EntryModel {
        self.view()
    }
}

impl Clone for Entry {
    fn clone(&self) -> (r: Entry)
        ensures
            r == *self,
    {
        Entry {
            entry_id: self.entry_id.clone(),
            device_id: self.device_id.clone(),
            user_id: self.user_id.clone(),
            ts: self.ts,
            cmd: self.cmd.clone(),
            cwd: self.cwd.clone(),
            exit_code: self.exit_code,
            duration_ms: self.duration_ms,
            shell: self.shell.clone(),
            hostname: self.hostname.clone(),
            version: self.version.clone(),
        }
    }
}

/// What the recorder hands over when a command finishes: an entry minus its
/// identifier and version.
pub struct EntryInput {
    pub device_id: String,
    pub user_id: String,
    pub ts: i64,
    pub cmd: String,
    pub cwd: String,
    pub exit_code: i32,
    pub duration_ms: i64,
    pub shell: String,
    pub hostname: String,
}

impl Entry {
    /// A fresh entry under a random identifier.
    pub fn new(input: EntryInput) -> (r: Entry)
        ensures
            r@.entry_id.len() == 36,
            r@.device_id == input.device_id@,
            r@.user_id == input.user_id@,
            r@.ts == input.ts as int,
            r@.cmd == input.cmd@,
            r@.cwd == input.cwd@,
            r@.exit_code == input.exit_code as int,
            r@.duration_ms == input.duration_ms as int,
            r@.shell == input.shell@,
            r@.hostname == input.hostname@,
            r@.version == spec_version(),
    {
        Entry::new_with_id(new_entry_id(), input)
    }

    /// A fresh entry under the identifier the caller chose.
    pub fn new_with_id(entry_id: EntryId, input: EntryInput) -> (r: Entry)
        ensures
            r@.entry_id == entry_id@,
            r@.device_id == input.device_id@,
            r@.user_id == input.user_id@,
            r@.ts == input.ts as int,
            r@.cmd == input.cmd@,
            r@.cwd == input.cwd@,
            r@.exit_code == input.exit_code as int,
            r@.duration_ms == input.duration_ms as int,
            r@.shell == input.shell@,
            r@.hostname == input.hostname@,
            r@.version == spec_version(),
    {
        Entry {
            entry_id,
            device_id: input.device_id,
            user_id: input.user_id,
            ts: input.ts,
            cmd: input.cmd,
            cwd: input.cwd,
            exit_code: input.exit_code,
            duration_ms: input.duration_ms,
            shell: input.shell,
            hostname: input.hostname,
            version: version_string(),
        }
    }
}

/// Relies on `uuid::Uuid::new_v4` and its `Display` form: a random
/// version-4 UUID rendered as 36 hyphenated lowercase hex characters.
/// Nothing more is promised of a random value.
#[verifier::external_body]
pub fn new_entry_id() -> (r: EntryId)
    ensures
        r@.len() == 36,
{
    uuid::Uuid::new_v4().to_string()
}

/// The identifier the importer derives for a history record: a function of
/// the arguments alone.
pub uninterp spec fn import_id_of(
    user: Seq<char>,
    device: Seq<char>,
    shell: Seq<char>,
    ts: int,
    cmd: Seq<char>,
    idx: int,
) -> Seq<char>;

/// Relies on `uuid::Uuid::new_v5`: a name-based (SHA-1) UUID, a function of
/// the namespace and name bytes alone, rendered as 36 hyphenated characters.
/// The name encodes every argument, separated by NUL bytes, so equal
/// arguments give equal identifiers across runs and machines.
#[verifier::external_body]
pub fn import_entry_id(
    user_id: &str,
    device_id: &str,
    shell: &str,
    ts_unix: i64,
    cmd: &str,
    source_index: u64,
) -> (r: EntryId)
    ensures
        r@ == import_id_of(
            user_id@,
            device_id@,
            shell@,
            ts_unix as int,
            cmd@,
            source_index as int,
        ),
        r@.len() == 36,
{
    let name = format!(
        "rustory:import\0{user_id}\0{device_id}\0{shell}\0{ts_unix}\0{source_index}\0{cmd}"
    );
    uuid::Uuid::new_v5(&uuid::Uuid::NAMESPACE_URL, name.as_bytes()).to_string()
}

} // verus!
