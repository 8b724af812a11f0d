//! The bounded version probe that enumeration and the health check run through.
//!
//! The probe asks what version the binary at a path is by running it with `--version`. A binary
//! that does not answer within [`PROBE_BUDGET`] is killed and reported as present but unreadable,
//! so that one unanswering binary cannot stall a pass. The child gets an environment of two
//! allowlisted variables and a working directory that belongs to the system.

use vstd::prelude::*;

use crate::path::{a_path_is_its_directory_and_its_name, is_plain, join, joined};
use crate::resolver::DetectedVersion;
use crate::text::{trim_text, trimmed};

verus! {

/// How many milliseconds a binary is given to answer `--version`.
pub const PROBE_BUDGET: u64 = 10_000;

/// How many milliseconds lie between two looks at a running probe.
pub const POLL_INTERVAL: u64 = 20;

/// What one look at a running child found.
#[derive(Debug, Clone, Copy, PartialEq, Eq)]
pub enum Polled {
    /// It has exited, successfully or not.
    Exited {
        /// Whether its status is a success.
        success: bool,
    },
    /// Its status could not be read: it is finished either way.
    Unreadable,
    /// It is still running.
    Running,
}

/// What to do after one look at a running child.
#[derive(Debug, Clone, Copy, PartialEq, Eq)]
pub enum Wait {
    /// It is finished, successfully or not.
    Finished {
        /// Whether it succeeded.
        success: bool,
    },
    /// It outlasted its budget: kill it.
    TimedOut,
    /// Look again after so many milliseconds.
    Sleep(u64),
}

/// The decision after one look at a child: a finished child ends the wait even past its deadline,
/// and one that still runs at the deadline has outlasted its budget.
#[must_use]
pub fn wait_within(polled: Polled, now: u64, deadline: u64) -> (wait: Wait)
    ensures
        wait == match polled {
            Polled::Exited { success } => Wait::Finished { success },
            Polled::Unreadable => Wait::Finished { success: false },
            Polled::Running => if now >= deadline {
                Wait::TimedOut
            } else {
                Wait::Sleep(POLL_INTERVAL)
            },
        },
{
    match polled {
        Polled::Exited { success } => Wait::Finished { success },
        Polled::Unreadable => Wait::Finished { success: false },
        Polled::Running => {
            if now >= deadline {
                Wait::TimedOut
            } else {
                Wait::Sleep(POLL_INTERVAL)
            }
        },
    }
}

/// How a version query ended.
#[derive(Debug, Clone, PartialEq, Eq)]
pub enum Query {
    /// The binary could not be run.
    NotRun,
    /// It ran and failed.
    Rejected,
    /// It outlasted its budget and was killed.
    TimedOut,
    /// It answered, but what it wrote could not be read.
    Unreadable,
    /// It answered.
    Answered(String),
}

/// The version that a query of an installed binary found: what it answered, without the white
/// space around it, and the empty text where there is no answer.
pub open spec fn queried(query: Query) -> Seq<char> {
    match query {
        Query::Answered(text) => trimmed(text@),
        _ => Seq::empty(),
    }
}

/// Detect the version of the binary at `path`.
///
/// A binary that is not installed is never run: `query` may be called only where `is_installed` said that
/// it is there. An installed one is always reported as present, whatever became of the query.
#[must_use]
pub fn bounded_probe<E: FnOnce(&str) -> bool, Q: FnOnce(&str) -> Query>(
    path: &str,
    is_installed: E,
    query: Q,
) -> (detected: DetectedVersion)
    requires
        is_installed.requires((path,)),
        is_installed.ensures((path,), true) ==> query.requires((path,)),
    ensures
        detected is Absent ==> is_installed.ensures((path,), false),
        detected matches DetectedVersion::Present(version) ==> is_installed.ensures((path,), true)
            && exists|q: Query| #[trigger] query.ensures((path,), q) && version@ == queried(q),
{
    if !is_installed(path) {
        return DetectedVersion::Absent;
    }
    let q: Query = query(path);
    let ghost asked = q;
    match q {
        Query::Answered(text) => {
            let version: String = trim_text(text.as_str());
            assert(query.ensures((path,), asked) && version@ == queried(asked));
            DetectedVersion::Present(version)
        },
        _ => {
            let version: String = String::new();
            assert(version@ =~= queried(asked));
            assert(query.ensures((path,), asked));
            DetectedVersion::Present(version)
        },
    }
}

/// Whether a variable may reach a probed program: only the two that the Windows loader needs. The
/// search path and every variable that says where a user's data lives are left out.
pub open spec fn may_inherit(key: Seq<char>) -> bool {
    key == "SystemRoot"@ || key == "SystemDrive"@
}

/// The variables that a probed program may inherit.
#[must_use]
pub fn probe_env_allowlist() -> (keys: Vec<&'static str>)
    ensures
        keys@.len() == 2,
        keys@[0]@ == "SystemRoot"@,
        keys@[1]@ == "SystemDrive"@,
{
    let mut keys: Vec<&'static str> = Vec::new();
    keys.push("SystemRoot");
    keys.push("SystemDrive");
    keys
}

/// Whether looking up `key` gave `value`.
pub open spec fn looked_up<L: Fn(&str) -> Option<String>>(
    lookup: L,
    key: Seq<char>,
    value: Option<String>,
) -> bool {
    exists|k: &str| k@ == key && #[trigger] lookup.ensures((k,), value)
}

/// A variable as a list: of one pair where it is set.
pub open spec fn as_pairs(key: Seq<char>, value: Option<String>) -> Seq<(Seq<char>, Seq<char>)> {
    match value {
        Some(v) => seq![(key, v@)],
        None => Seq::empty(),
    }
}

/// The pairs that a probed program inherits, from the values of the two variables.
pub open spec fn inherited(root: Option<String>, drive: Option<String>) -> Seq<
    (Seq<char>, Seq<char>),
> {
    as_pairs("SystemRoot"@, root) + as_pairs("SystemDrive"@, drive)
}

/// The views of the pairs.
pub open spec fn pair_views(pairs: Seq<(String, String)>) -> Seq<(Seq<char>, Seq<char>)> {
    Seq::new(pairs.len(), |i: int| (pairs[i].0@, pairs[i].1@))
}

/// The allowlisted variables that are set, with their values. No other variable is even looked up.
#[must_use]
pub fn inherited_allowlisted_env<L: Fn(&str) -> Option<String>>(lookup: &L) -> (pairs: Vec<
    (String, String),
>)
    requires
        forall|k: &str| may_inherit(k@) ==> #[trigger] lookup.requires((k,)),
    ensures
        exists|root: Option<String>, drive: Option<String>|
            looked_up(*lookup, "SystemRoot"@, root) && looked_up(*lookup, "SystemDrive"@, drive)
                && pair_views(pairs@) == #[trigger] inherited(root, drive),
        forall|i: int| 0 <= i < pairs@.len() ==> may_inherit((#[trigger] pairs@[i]).0@),
{
    let root: Option<String> = lookup("SystemRoot");
    let drive: Option<String> = lookup("SystemDrive");
    let ghost r = root;
    let ghost d = drive;
    assert(looked_up(*lookup, "SystemRoot"@, r));
    assert(looked_up(*lookup, "SystemDrive"@, d));
    let mut pairs: Vec<(String, String)> = Vec::new();
    if let Some(v) = root {
        pairs.push(("SystemRoot".to_owned(), v));
    }
    if let Some(v) = drive {
        pairs.push(("SystemDrive".to_owned(), v));
    }
    assert(pair_views(pairs@) =~= inherited(r, d));
    pairs
}

/// The directory that a probed program runs in: one that belongs to the system, never the inherited
/// one.
pub open spec fn probe_dir(windows: bool, system_root: Option<Seq<char>>) -> Seq<char> {
    if windows {
        joined(
            match system_root {
                Some(root) => root,
                None => "C:/Windows"@,
            },
            "System32"@,
        )
    } else {
        "/"@
    }
}

/// Computes [`probe_dir`] from `%SystemRoot%`.
#[must_use]
pub fn system_working_dir(windows: bool, system_root: &Option<String>) -> (dir: String)
    ensures
        dir@ == probe_dir(windows, crate::text::opt_view(*system_root)),
{
    if windows {
        match system_root {
            Some(root) => join(root.as_str(), "System32"),
            None => join("C:/Windows", "System32"),
        }
    } else {
        "/".to_owned()
    }
}

/// What a binary answered is its version, without the white space around it; one that did not answer has
/// the empty version, however it failed.
pub proof fn an_answer_is_the_version(front: Seq<char>, core: Seq<char>, back: Seq<char>, text: String)
    requires
        crate::text::is_blank(front),
        crate::text::is_blank(back),
        core.len() > 0 ==> !crate::text::is_white(core[0]) && !crate::text::is_white(core.last()),
        text@ == front + core + back,
    ensures
        queried(Query::Answered(text)) == core,
        queried(Query::NotRun).len() == 0,
        queried(Query::Rejected).len() == 0,
        queried(Query::TimedOut).len() == 0,
        queried(Query::Unreadable).len() == 0,
{
    crate::text::trimming_takes_the_blanks_off(front, core, back);
}

/// A probed program inherits the two variables that are set, each under its own name and with its own
/// value, and no other.
pub proof fn two_variables_are_inherited(root: String, drive: String)
    ensures
        inherited(Some(root), Some(drive)) == seq![
            ("SystemRoot"@, root@),
            ("SystemDrive"@, drive@),
        ],
        inherited(Some(root), None) == seq![("SystemRoot"@, root@)],
        inherited(None, Some(drive)) == seq![("SystemDrive"@, drive@)],
        inherited(None, None).len() == 0,
{
    assert(inherited(Some(root), Some(drive)) =~= seq![
        ("SystemRoot"@, root@),
        ("SystemDrive"@, drive@),
    ]);
    assert(inherited(Some(root), None) =~= seq![("SystemRoot"@, root@)]);
    assert(inherited(None, Some(drive)) =~= seq![("SystemDrive"@, drive@)]);
}

/// A probed program runs in the system's own directory.
pub proof fn a_probe_runs_in_a_system_directory(
    above: Seq<char>,
    last: Seq<char>,
    any: Option<Seq<char>>,
)
    requires
        above.len() == 0 || above.last() == '/',
        is_plain(last),
    ensures
        probe_dir(true, Some(above + last)) == above + last + "/System32"@,
        probe_dir(true, None) == "C:/Windows/System32"@,
        probe_dir(false, any) == "/"@,
{
    reveal_strlit("System32");
    reveal_strlit("/System32");
    reveal_strlit("C:/Windows");
    reveal_strlit("C:/Windows/System32");
    a_path_is_its_directory_and_its_name(above, last, "System32"@);
    assert(seq!['/'] + "System32"@ =~= "/System32"@);
    assert(above + last + seq!['/'] + "System32"@ =~= above + last + "/System32"@);
    assert(joined("C:/Windows"@, "System32"@) =~= "C:/Windows/System32"@);
}

} // verus!
