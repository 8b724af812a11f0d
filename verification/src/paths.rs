//! The locations that the updater uses: the state directory, its world-readable status sibling,
//! and the binaries that sit beside the running one.
//!
//! What the operating system says (environment variables, the temporary directory) arrives as a
//! [`HostEnv`].

use vstd::prelude::*;

use crate::error::{BrokerError, ErrorView};
use crate::path::{
    a_path_is_its_directory_and_its_name, components, file_name, is_plain, join, joined, lemma_components, lemma_join, lemma_last,
    lemma_parent_is_trimmed, name_of, parent, parent_of, with_file_name, with_name, within,
};
use crate::text::{cat2, opt_view};

verus! {

/// The environment variable that relocates the state directory for a dry check.
pub const STATE_DIR_ENV: &'static str = "DIG_UPDATER_STATE_DIR";

/// What the operating system says about where things go.
#[derive(Debug, Clone, PartialEq, Eq)]
pub struct HostEnv {
    /// Whether the host runs Windows.
    pub windows: bool,
    /// `%ProgramData%`.
    pub program_data: Option<String>,
    /// `%LOCALAPPDATA%`.
    pub local_app_data: Option<String>,
    /// `$XDG_CACHE_HOME`.
    pub xdg_cache_home: Option<String>,
    /// `$HOME`.
    pub home: Option<String>,
    /// The directory for temporary files.
    pub temp_dir: String,
}

/// The state directory of a full pass. It can never be relocated.
pub open spec fn state_dir_of(env: HostEnv) -> Seq<char> {
    if env.windows {
        joined(
            joined(
                match env.program_data {
                    Some(dir) => dir@,
                    None => "C:/ProgramData"@,
                },
                "DIG"@,
            ),
            "updater"@,
        )
    } else {
        "/var/lib/dig-updater"@
    }
}

/// The per-user directory that a dry check falls back to.
pub open spec fn user_dir_of(env: HostEnv) -> Seq<char> {
    if env.windows {
        joined(
            joined(
                match env.local_app_data {
                    Some(dir) => dir@,
                    None => env.temp_dir@,
                },
                "DIG"@,
            ),
            "updater"@,
        )
    } else {
        joined(
            match (env.xdg_cache_home, env.home) {
                (Some(dir), _) => dir@,
                (None, Some(dir)) => joined(dir@, ".cache"@),
                _ => env.temp_dir@,
            },
            "dig-updater"@,
        )
    }
}

/// The status directory beside a state directory: the same parent, the name with `-status` added.
pub open spec fn status_dir_of(state_dir: Seq<char>) -> Seq<char> {
    with_name(
        state_dir,
        match name_of(state_dir) {
            Some(name) => name,
            None => Seq::empty(),
        } + "-status"@,
    )
}

/// The default state directory, where the trust state and the configuration live.
#[must_use]
pub fn default_state_dir(env: &HostEnv) -> (dir: String)
    ensures
        dir@ == state_dir_of(*env),
{
    if env.windows {
        let base: String = match &env.program_data {
            Some(dir) => join(dir.as_str(), "DIG"),
            None => join("C:/ProgramData", "DIG"),
        };
        join(base.as_str(), "updater")
    } else {
        "/var/lib/dig-updater".to_owned()
    }
}

/// A per-user writable location for a dry check.
#[must_use]
pub fn per_user_state_dir(env: &HostEnv) -> (dir: String)
    ensures
        dir@ == user_dir_of(*env),
{
    if env.windows {
        let base: String = match &env.local_app_data {
            Some(dir) => join(dir.as_str(), "DIG"),
            None => join(env.temp_dir.as_str(), "DIG"),
        };
        join(base.as_str(), "updater")
    } else {
        match &env.xdg_cache_home {
            Some(dir) => join(dir.as_str(), "dig-updater"),
            None => match &env.home {
                Some(dir) => {
                    let cache: String = join(dir.as_str(), ".cache");
                    join(cache.as_str(), "dig-updater")
                },
                None => join(env.temp_dir.as_str(), "dig-updater"),
            },
        }
    }
}

/// The state directory that a dry check uses: a non-empty override; else the default where
/// `default_dir_usable` answers that this process can use it; else the per-user fallback. The
/// question is asked only where there is no override.
pub fn resolve_dry_check_state_dir<F: FnOnce() -> bool>(
    override_dir: Option<String>,
    default_dir_usable: F,
    env: &HostEnv,
) -> (dir: String)
    requires
        !(opt_view(override_dir) matches Some(o) && o.len() > 0)
            ==> default_dir_usable.requires(()),
    ensures
        match opt_view(override_dir) {
            Some(o) if o.len() > 0 => dir@ == o,
            _ => (default_dir_usable.ensures((), true) && dir@ == state_dir_of(*env)) || (
            default_dir_usable.ensures((), false) && dir@ == user_dir_of(*env)),
        },
{
    if let Some(dir) = override_dir {
        if !dir.as_str().is_empty() {
            return dir;
        }
    }
    if default_dir_usable() {
        default_state_dir(env)
    } else {
        per_user_state_dir(env)
    }
}

/// How creating a directory ended.
#[derive(Debug, Clone, Copy, PartialEq, Eq, Structural)]
pub enum DirCreation {
    /// It is there.
    Created,
    /// The system says that something is already there. It can be a directory that this process
    /// may not even look at.
    AlreadyExists,
    /// It could not be created.
    Failed,
}

/// Whether a directory can be created and written into: a file is written to find out, unless it
/// could not be created at all.
pub fn is_dir_writable<C: FnOnce(&str) -> DirCreation, W: FnOnce(&str) -> bool>(
    dir: &str,
    create: C,
    write_probe: W,
) -> (r: bool)
    requires
        create.requires((dir,)),
        forall|p: &str|
            p@ == probe_of(dir@) && is_there(create, dir) ==> #[trigger] write_probe.requires((p,)),
    ensures
        r ==> is_there(create, dir) && probe_written(write_probe, dir@, true),
        !r ==> create.ensures((dir,), DirCreation::Failed) || probe_written(
            write_probe,
            dir@,
            false,
        ),
{
    let made: DirCreation = create(dir);
    if made == DirCreation::Failed {
        return false;
    }
    let probe: String = join(dir, ".dig-updater-write-probe");
    let r: bool = write_probe(probe.as_str());
    assert(probe_written(write_probe, dir@, r));
    r
}

/// Whether the directory was created or something was already there.
pub open spec fn is_there<C: FnOnce(&str) -> DirCreation>(create: C, dir: &str) -> bool {
    create.ensures((dir,), DirCreation::Created) || create.ensures(
        (dir,),
        DirCreation::AlreadyExists,
    )
}

/// The file that is written to find out whether a directory can be.
pub open spec fn probe_of(dir: Seq<char>) -> Seq<char> {
    joined(dir, ".dig-updater-write-probe"@)
}

/// Writing the probe file answered `r`.
pub open spec fn probe_written<W: FnOnce(&str) -> bool>(write_probe: W, dir: Seq<char>, r: bool) -> bool {
    exists|p: &str| p@ == probe_of(dir) && #[trigger] write_probe.ensures((p,), r)
}

/// Whether the default state directory can be used: only a privileged process has a way to it, so
/// an unprivileged one does not even try to write there.
pub fn default_dir_is_usable<E: FnOnce() -> bool, W: FnOnce(&str) -> bool>(
    env: &HostEnv,
    is_elevated: E,
    is_writable: W,
) -> (r: bool)
    requires
        is_elevated.requires(()),
        forall|d: &str|
            d@ == state_dir_of(*env) && is_elevated.ensures((), true)
                ==> #[trigger] is_writable.requires((d,)),
    ensures
        r ==> is_elevated.ensures((), true) && default_judged(is_writable, *env, true),
        !r ==> is_elevated.ensures((), false) || default_judged(is_writable, *env, false),
{
    if !is_elevated() {
        return false;
    }
    let dir: String = default_state_dir(env);
    let r: bool = is_writable(dir.as_str());
    assert(default_judged(is_writable, *env, r));
    r
}

/// Asked whether the default state directory can be written, the system answered `r`.
pub open spec fn default_judged<W: FnOnce(&str) -> bool>(is_writable: W, env: HostEnv, r: bool) -> bool {
    exists|d: &str| d@ == state_dir_of(env) && #[trigger] is_writable.ensures((d,), r)
}

/// The default world-readable status directory.
#[must_use]
pub fn default_status_dir(env: &HostEnv) -> (dir: String)
    ensures
        dir@ == status_dir_of(state_dir_of(*env)),
{
    let state: String = default_state_dir(env);
    sibling_status_dir(state.as_str())
}

/// The status directory that mirrors `state_dir`: a sibling, never a subdirectory, because what is
/// nested in the state directory inherits its lock-down and stops being readable.
#[must_use]
pub fn sibling_status_dir(state_dir: &str) -> (dir: String)
    ensures
        dir@ == status_dir_of(state_dir@),
{
    let name: String = match file_name(state_dir) {
        Some(n) => n,
        None => String::new(),
    };
    assert(name_of(state_dir@) is None ==> name@ =~= Seq::empty());
    let sibling: String = cat2(name.as_str(), "-status");
    with_file_name(state_dir, sibling.as_str())
}

/// The status directory has the same parent as the state directory and another name, so neither
/// contains the other.
pub proof fn the_status_dir_is_a_sibling(state_dir: Seq<char>)
    requires
        name_of(state_dir) is Some,
    ensures
        parent_of(status_dir_of(state_dir)) == parent_of(state_dir),
        name_of(status_dir_of(state_dir)) == Some(name_of(state_dir)->0 + "-status"@),
        status_dir_of(state_dir) != state_dir,
        !within(status_dir_of(state_dir), state_dir),
        !within(state_dir, status_dir_of(state_dir)),
{
    reveal_strlit("-status");
    let name = name_of(state_dir)->0;
    let leaf = name + "-status"@;
    lemma_last(state_dir);
    lemma_parent_is_trimmed(state_dir);
    assert(leaf.len() >= 7);
    assert forall|j: int| 0 <= j < leaf.len() implies #[trigger] leaf[j] != '/' by {
        if j < name.len() {
            assert(leaf[j] == name[j]);
        } else {
            assert(leaf[j] == "-status"@[j - name.len()]);
        }
    }
    lemma_join(parent_of(state_dir)->0, leaf);
    let status = status_dir_of(state_dir);
    lemma_components(state_dir);
    lemma_components(status);
    let n: int = components(status).len() - 1;
    assert(components(status)[n] == leaf);
    assert(components(state_dir)[n] == name);
    assert(leaf.len() != name.len());
}

/// Wherever the per-user fallback is, it is some path and not the empty one.
pub proof fn the_fallback_is_never_empty(env: HostEnv)
    ensures
        user_dir_of(env).len() > 0,
{
    reveal_strlit("updater");
    reveal_strlit("dig-updater");
}

/// The file name of a program beside the running one, with the suffix that Windows wants.
pub open spec fn program_name(stem: Seq<char>, windows: bool) -> Seq<char> {
    if windows {
        stem + ".exe"@
    } else {
        stem
    }
}

/// The file name of the worker binary.
#[must_use]
pub fn worker_file_name(windows: bool) -> (name: String)
    ensures
        name@ == program_name("dig-updater-worker"@, windows),
{
    named("dig-updater-worker", windows)
}

/// The file name of the installer binary.
#[must_use]
pub fn installer_file_name(windows: bool) -> (name: String)
    ensures
        name@ == program_name("dig-installer"@, windows),
{
    named("dig-installer", windows)
}

/// Computes [`program_name`].
fn named(stem: &str, windows: bool) -> (name: String)
    ensures
        name@ == program_name(stem@, windows),
{
    if windows {
        cat2(stem, ".exe")
    } else {
        stem.to_owned()
    }
}

/// What resolves to a program beside the running one: its path, or an error where the running
/// executable has no directory.
pub open spec fn sibling_ok(exe: Seq<char>, name: Seq<char>, r: Result<String, BrokerError>) -> bool {
    match r {
        Ok(path) => parent_of(exe) is Some && path@ == joined(parent_of(exe)->0, name),
        Err(e) => parent_of(exe) is None && e@ == ErrorView::Io(
            "current executable has no parent directory"@,
        ),
    }
}

/// The worker binary that sits beside the running executable.
///
/// # Errors
///
/// [`BrokerError::Io`] if the executable's path has no directory.
pub fn sibling_worker_binary(exe: &str, windows: bool) -> (path: Result<String, BrokerError>)
    ensures
        sibling_ok(exe@, program_name("dig-updater-worker"@, windows), path),
{
    let name: String = worker_file_name(windows);
    sibling(exe, name.as_str())
}

/// The installer binary that sits beside the running executable: never a bare name looked up on
/// the search path.
///
/// # Errors
///
/// [`BrokerError::Io`] if the executable's path has no directory.
pub fn sibling_installer_binary(exe: &str, windows: bool) -> (path: Result<String, BrokerError>)
    ensures
        sibling_ok(exe@, program_name("dig-installer"@, windows), path),
{
    let name: String = installer_file_name(windows);
    sibling(exe, name.as_str())
}

/// The program `name` beside the executable.
fn sibling(exe: &str, name: &str) -> (path: Result<String, BrokerError>)
    ensures
        sibling_ok(exe@, name@, path),
{
    match parent(exe) {
        Some(dir) => Ok(join(dir.as_str(), name)),
        None => Err(BrokerError::Io("current executable has no parent directory".to_owned())),
    }
}

/// The state directory is `DIG/updater` below the program data of the machine, in its usual place where
/// nothing names it, on Windows, and `/var/lib/dig-updater` elsewhere, whatever else is set.
#[verifier::spinoff_prover]
#[verifier::rlimit(40)]
pub proof fn the_state_directory_is_fixed(env: HostEnv, above: Seq<char>, last: Seq<char>)
    requires
        above.len() == 0 || above.last() == '/',
        is_plain(last),
    ensures
        !env.windows ==> state_dir_of(env) == "/var/lib/dig-updater"@,
        env.windows && env.program_data is None ==> state_dir_of(env)
            == "C:/ProgramData/DIG/updater"@,
        env.windows && env.program_data is Some && env.program_data->0@ == above + last
            ==> state_dir_of(env) == above + last + "/DIG/updater"@,
{
    reveal_strlit("C:/ProgramData");
    reveal_strlit("C:/ProgramData/DIG/updater");
    lemma_dig_updater(above, last);
    reveal_strlit("DIG");
    reveal_strlit("updater");
    assert(joined(joined("C:/ProgramData"@, "DIG"@), "updater"@) =~= "C:/ProgramData/DIG/updater"@);
}

#[verifier::spinoff_prover]
#[verifier::rlimit(40)]
proof fn lemma_dig_updater(above: Seq<char>, last: Seq<char>)
    requires
        above.len() == 0 || above.last() == '/',
        is_plain(last),
    ensures
        joined(joined(above + last, "DIG"@), "updater"@) == above + last + "/DIG/updater"@,
{
    reveal_strlit("DIG");
    reveal_strlit("updater");
    reveal_strlit("/DIG/updater");
    a_path_is_its_directory_and_its_name(above, last, "DIG"@);
    let dir = above + last + seq!['/'] + "DIG"@;
    assert(dir.last() == 'G');
    assert(joined(dir, "updater"@) =~= above + last + "/DIG/updater"@);
}

/// A dry check falls back, on Windows, to `DIG/updater` below the user's application data, or below the
/// directory for temporary files; elsewhere to `dig-updater` below the user's cache directory: the one
/// that is named, else `.cache` at home, else the directory for temporary files.
pub proof fn the_fallback_is_the_users_own(env: HostEnv, above: Seq<char>, last: Seq<char>)
    requires
        above.len() == 0 || above.last() == '/',
        is_plain(last),
    ensures
        env.windows && ((env.local_app_data is Some && env.local_app_data->0@ == above + last) || (
        env.local_app_data is None && env.temp_dir@ == above + last)) ==> user_dir_of(env) == above
            + last + "/DIG/updater"@,
        !env.windows && ((env.xdg_cache_home is Some && env.xdg_cache_home->0@ == above + last) || (
        env.xdg_cache_home is None && env.home is None && env.temp_dir@ == above + last))
            ==> user_dir_of(env) == above + last + "/dig-updater"@,
        !env.windows && env.xdg_cache_home is None && env.home is Some && env.home->0@ == above + last
            ==> user_dir_of(env) == above + last + "/.cache/dig-updater"@,
{
    lemma_dig_updater(above, last);
    lemma_user_dirs(above, last);
}

#[verifier::spinoff_prover]
#[verifier::rlimit(40)]
proof fn lemma_user_dirs(above: Seq<char>, last: Seq<char>)
    requires
        above.len() == 0 || above.last() == '/',
        is_plain(last),
    ensures
        joined(above + last, "dig-updater"@) == above + last + "/dig-updater"@,
        joined(joined(above + last, ".cache"@), "dig-updater"@) == above + last
            + "/.cache/dig-updater"@,
{
    reveal_strlit("dig-updater");
    reveal_strlit(".cache");
    reveal_strlit("/dig-updater");
    reveal_strlit("/.cache/dig-updater");
    let dir = above + last;
    assert(last[last.len() - 1] != '/');
    assert(dir.last() == last[last.len() - 1]);
    assert(joined(dir, "dig-updater"@) == dir + seq!['/'] + "dig-updater"@);
    assert(dir + seq!['/'] + "dig-updater"@ =~= dir + "/dig-updater"@);
    let cache = dir + seq!['/'] + ".cache"@;
    assert(joined(dir, ".cache"@) == cache);
    assert(cache.last() == 'e');
    assert(joined(cache, "dig-updater"@) =~= dir + "/.cache/dig-updater"@);
}

/// A program beside the running one has its directory and its own name, with `.exe` on Windows alone.
pub proof fn a_sibling_stands_in_the_same_directory(
    above: Seq<char>,
    last: Seq<char>,
    exe: Seq<char>,
    stem: Seq<char>,
    windows: bool,
    r: Result<String, BrokerError>,
)
    requires
        above.len() == 0 || above.last() == '/',
        is_plain(last),
        is_plain(exe),
        is_plain(stem),
        sibling_ok(above + last + seq!['/'] + exe, program_name(stem, windows), r),
    ensures
        r is Ok,
        r->Ok_0@ == above + last + seq!['/'] + stem + (if windows {
            ".exe"@
        } else {
            Seq::empty()
        }),
{
    reveal_strlit(".exe");
    let name = program_name(stem, windows);
    a_path_is_its_directory_and_its_name(above, last, exe);
    assert(name.len() > 0 && name[0] == stem[0]);
    let dir = above + last;
    assert(dir.last() == last[last.len() - 1]);
    assert(joined(dir, name) == dir + seq!['/'] + name);
    if windows {
        assert(dir + seq!['/'] + (stem + ".exe"@) =~= dir + seq!['/'] + stem + ".exe"@);
    } else {
        assert(dir + seq!['/'] + stem + Seq::<char>::empty() =~= dir + seq!['/'] + stem);
    }
}

} // verus!
