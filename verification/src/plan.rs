//! Enumerating what is installed and planning what to do about it.
//!
//! Given the re-verified manifest and the artifacts that the worker staged, a plan says for each
//! tracked component whether the pass installs it, updates it or leaves it. The decision matrix is
//! the shared one ([`crate::resolver`]); what is decided here is which evidence it is asked about.
//!
//! A component whose version can only be learned by running it, and which is not safe to run, is
//! held without being executed. A component with content-digest evidence needs no execution at
//! all.

use vstd::prelude::*;

use crate::error::{BrokerError, ErrorView};
use crate::installed::InstalledBuilds;
use crate::manifest::{
    artifacts_for, the_artifacts_of_a_platform, Artifact, Component, Manifest, Platform,
    StagedArtifact,
};
use crate::path::{a_path_is_its_directory_and_its_name, is_plain, join, joined, parent, parent_of};
use crate::resolver::{
    a_version_is_read, decide, lemma_decision_cases, lemma_shown_version, release_version, resolver_decision,
    shown_version, version_word, DetectedVersion, UpdateAction, UpdateDecision,
};
use crate::text::{
    a_decimal_is_a_word_of_digits, all_digits, ascii_lowered, cat2, cat5, chars_of, clone_opt_text, clone_texts, decimal,
    decimal_of, digits_value, find_char, find_from, find_text, has_text, opt_view, parse_u64, same_ignoring_ascii_case, same_opt_text, same_text,
    scan_char, split, split_text, text_range, tokens, tokens_of, trim_text, trimmed, trimming_takes_the_blanks_off,
    u64_written, views,
};

verus! {

/// The manifest component name that the updater tracks for itself.
pub const BEACON_COMPONENT_NAME: &'static str = "dig-updater";

/// The manifest component name of the per-user identity agent.
pub const DIG_APP_COMPONENT_NAME: &'static str = "dig-app";

// ------------------------------------------------------------------ build numbers

/// The UTC build date in a nightly version: the part between the first `-nightly.` and what ends
/// it, read as eight digits.
pub open spec fn nightly_date(version: Seq<char>) -> Option<u64> {
    match find_from(version, "-nightly."@, 0) {
        Some(k) => {
            let after = version.skip(k + "-nightly."@.len());
            let segment = match find_from(after, "-nightly."@, 0) {
                Some(j) => after.take(j),
                None => after,
            };
            let date = segment.take(scan_char(segment, '.', 0));
            if date.len() == 8 && all_digits(date) {
                Some(digits_value(date) as u64)
            } else {
                None
            }
        },
        None => None,
    }
}

/// The version core: what stands before the first `-` or `+`, without surrounding white space and
/// one leading `v`.
pub open spec fn version_core(version: Seq<char>) -> Seq<char> {
    let t = trimmed(version);
    let bare = if t.len() > 0 && t[0] == 'v' {
        t.skip(1)
    } else {
        t
    };
    let undashed = bare.take(scan_char(bare, '-', 0));
    undashed.take(scan_char(undashed, '+', 0))
}

/// The three numbers of a stable version.
pub open spec fn stable_version(version: Seq<char>) -> Option<(u64, u64, u64)> {
    let parts = split(version_core(version), '.');
    if parts.len() == 3 {
        match (u64_written(parts[0]), u64_written(parts[1]), u64_written(parts[2])) {
            (Some(major), Some(minor), Some(patch)) => Some((major, minor, patch)),
            _ => None,
        }
    } else {
        None
    }
}

/// The number that packs a stable version: major times a million, minor times a thousand, patch.
pub open spec fn packed(v: (u64, u64, u64)) -> int {
    v.0 * 1_000_000 + v.1 * 1_000 + v.2
}

/// The build number of a version, on the scale that its own channel uses.
pub open spec fn build_of_version(version: Seq<char>) -> Option<u64> {
    if has_text(version, "-nightly."@) {
        nightly_date(version)
    } else {
        match stable_version(version) {
            Some(v) => if v.1 < 1_000 && v.2 < 1_000 && packed(v) <= u64::MAX {
                Some(packed(v) as u64)
            } else {
                None
            },
            None => None,
        }
    }
}

/// A packed stable build orders as the version does.
pub proof fn packing_keeps_the_order(a: (u64, u64, u64), b: (u64, u64, u64))
    requires
        a.1 < 1_000,
        a.2 < 1_000,
        b.1 < 1_000,
        b.2 < 1_000,
    ensures
        packed(a) < packed(b) <==> crate::resolver::older(a, b),
        packed(a) == packed(b) <==> a == b,
{
    lemma_packed(a.0 as int, a.1 as int, a.2 as int, b.0 as int, b.1 as int, b.2 as int);
    lemma_packed(b.0 as int, b.1 as int, b.2 as int, a.0 as int, a.1 as int, a.2 as int);
}

proof fn lemma_packed(a0: int, a1: int, a2: int, b0: int, b1: int, b2: int)
    requires
        0 <= a0,
        0 <= b0,
        0 <= a1 < 1_000,
        0 <= a2 < 1_000,
        0 <= b1 < 1_000,
        0 <= b2 < 1_000,
    ensures
        a0 < b0 || (a0 == b0 && a1 < b1) || (a0 == b0 && a1 == b1 && a2 < b2) ==> a0 * 1_000_000
            + a1 * 1_000 + a2 < b0 * 1_000_000 + b1 * 1_000 + b2,
{
    if a0 < b0 {
        assert(a0 + 1 <= b0);
        assert(a1 * 1_000 + a2 < 1_000_000);
    } else if a0 == b0 && a1 < b1 {
        assert(a1 + 1 <= b1);
    }
}

/// A nightly version is aged by its date or not at all, never by its version numbers: a build
/// number that a nightly version has is an eight-digit date.
pub proof fn a_nightly_is_never_packed_as_stable(version: Seq<char>)
    requires
        has_text(version, "-nightly."@),
    ensures
        build_of_version(version) == nightly_date(version),
        build_of_version(version) matches Some(date) ==> date < 100_000_000,
{
    if nightly_date(version) is Some {
        let k: int = find_from(version, "-nightly."@, 0)->0;
        let after = version.skip(k + "-nightly."@.len());
        let segment = match find_from(after, "-nightly."@, 0) {
            Some(j) => after.take(j),
            None => after,
        };
        lemma_eight_digits(segment.take(scan_char(segment, '.', 0)));
    }
}

proof fn lemma_eight_digits(s: Seq<char>)
    requires
        s.len() == 8,
        all_digits(s),
    ensures
        digits_value(s) < 100_000_000,
{
    reveal_with_fuel(digits_value, 9);
    let s7 = s.drop_last();
    let s6 = s7.drop_last();
    let s5 = s6.drop_last();
    let s4 = s5.drop_last();
    let s3 = s4.drop_last();
    let s2 = s3.drop_last();
    let s1 = s2.drop_last();
    assert(s7[6] == s[6] && s6[5] == s[5] && s5[4] == s[4] && s4[3] == s[3] && s3[2] == s[2]
        && s2[1] == s[1] && s1[0] == s[0]);
    assert(crate::text::is_digit(s[7]) && crate::text::is_digit(s[6]) && crate::text::is_digit(s[5])
        && crate::text::is_digit(s[4]) && crate::text::is_digit(s[3]) && crate::text::is_digit(s[2])
        && crate::text::is_digit(s[1]) && crate::text::is_digit(s[0]));
}

/// Pack a `--version` string into its monotonic build number, on the scale that the signed
/// manifest's builds use.
///
/// The string describes itself: a nightly packs to its build date, a stable version to its packed
/// numbers. `None` for anything that cannot be aged.
#[must_use]
pub fn pack_build(version: &str) -> (build: Option<u64>)
    ensures
        build == build_of_version(version@),
{
    let chars: Vec<char> = chars_of(version);
    let mark: Vec<char> = chars_of("-nightly.");
    if crate::text::contains_chars(&chars, &mark) {
        return nightly_build_date(version);
    }
    let core: String = core_of(version);
    let parts: Vec<String> = split_text(core.as_str(), '.');
    let ghost pieces = split(version_core(version@), '.');
    assert(views(parts@) == pieces);
    if parts.len() != 3 {
        assert(pieces.len() == parts@.len());
        return None;
    }
    assert(pieces[0] == parts@[0]@ && pieces[1] == parts@[1]@ && pieces[2] == parts@[2]@);
    let major: u64 = match parse_u64(parts[0].as_str()) {
        Some(n) => n,
        None => return None,
    };
    let minor: u64 = match parse_u64(parts[1].as_str()) {
        Some(n) => n,
        None => return None,
    };
    let patch: u64 = match parse_u64(parts[2].as_str()) {
        Some(n) => n,
        None => return None,
    };
    if minor >= 1_000 || patch >= 1_000 {
        return None;
    }
    let low: u64 = minor * 1_000 + patch;
    if major > (u64::MAX - low) / 1_000_000 {
        return None;
    }
    Some(major * 1_000_000 + low)
}

/// Computes [`version_core`].
fn core_of(version: &str) -> (core: String)
    ensures
        core@ == version_core(version@),
{
    let trimmed_text: String = trim_text(version);
    let t: Vec<char> = chars_of(trimmed_text.as_str());
    let from: usize = if t.len() > 0 && t[0] == 'v' {
        1
    } else {
        0
    };
    let bare: String = text_range(&t, from, t.len());
    assert(from == 0 ==> bare@ =~= t@);
    assert(from == 1 ==> bare@ =~= t@.skip(1));
    let b: Vec<char> = chars_of(bare.as_str());
    let dash: usize = find_char(&b, '-', 0);
    let undashed: String = text_range(&b, 0, dash);
    assert(undashed@ =~= b@.take(dash as int));
    let u: Vec<char> = chars_of(undashed.as_str());
    let plus: usize = find_char(&u, '+', 0);
    let core: String = text_range(&u, 0, plus);
    assert(core@ =~= u@.take(plus as int));
    core
}

/// The nightly build number: the eight-digit UTC build date of a nightly version.
fn nightly_build_date(version: &str) -> (build: Option<u64>)
    ensures
        build == nightly_date(version@),
{
    let chars: Vec<char> = chars_of(version);
    let mark: Vec<char> = chars_of("-nightly.");
    let at: usize = match find_text(&chars, &mark, 0) {
        Some(k) => k,
        None => return None,
    };
    let n: usize = chars.len();
    let rest: String = text_range(&chars, at + mark.len(), n);
    assert(rest@ =~= version@.skip(at + mark@.len()));
    let after: Vec<char> = chars_of(rest.as_str());
    let end: usize = match find_text(&after, &mark, 0) {
        Some(j) => j,
        None => after.len(),
    };
    let segment: String = text_range(&after, 0, end);
    assert(end == after@.len() ==> segment@ =~= after@);
    assert(segment@ =~= after@.take(end as int));
    let s: Vec<char> = chars_of(segment.as_str());
    let dot: usize = find_char(&s, '.', 0);
    let date: String = text_range(&s, 0, dot);
    assert(date@ =~= s@.take(dot as int));
    if dot != 8 || s[0] == '+' {
        assert(dot == 8 ==> !crate::text::is_digit(date@[0]));
        return None;
    }
    let parsed: Option<u64> = parse_u64(date.as_str());
    proof {
        if all_digits(date@) {
            lemma_eight_digits(date@);
        }
    }
    parsed
}

// ------------------------------------------------------------------ targets

/// How a tracked component's artifact is installed on the host.
#[derive(Debug, Clone, Copy, PartialEq, Eq, Structural)]
pub enum InstallMethod {
    /// Replace a single executable in place with the staged bytes.
    RawBinary,
    /// A Windows MSI, installed silently.
    WindowsMsi,
    /// A macOS flat package, installed silently.
    MacosPkg,
    /// A Debian package, installed silently.
    LinuxDeb,
}

/// What establishes which build of a component is installed.
///
/// A version probe is not a read: it executes the binary from a privileged process, and a program
/// that ignores its arguments does whatever it does on startup. So this is a safety declaration,
/// and every target has to make it.
#[derive(Debug, Clone, Copy, PartialEq, Eq, Structural)]
pub enum VersionEvidence {
    /// The binary answers `--version` and exits.
    SafeToProbe,
    /// The installed version is established by hashing the file against the manifest's digest;
    /// the binary is never executed.
    ArtifactDigest,
    /// The version could only be learned by executing the binary, which may have side effects; it
    /// is never executed and the component is always held.
    UnsafeToProbe,
}

impl VersionEvidence {
    /// Whether establishing the installed version means executing the component.
    #[must_use]
    pub fn requires_execution(self) -> (r: bool)
        ensures
            r == (self == VersionEvidence::SafeToProbe),
    {
        self == VersionEvidence::SafeToProbe
    }
}

/// Where and how one tracked component installs on this host.
///
/// A component is a set of binaries: the primary at [`Self::dest`] and every byte-identical alias.
#[derive(Debug, Clone, PartialEq, Eq)]
pub struct ComponentTarget {
    /// The manifest component name.
    pub name: String,
    /// How its artifact is applied on this platform.
    pub method: InstallMethod,
    /// The installed executable's path.
    pub dest: String,
    /// The byte-identical alias binaries that the component also owns.
    pub aliases: Vec<String>,
    /// The service that the component's binary belongs to, if it is service-backed.
    pub service: Option<String>,
    /// What establishes which build is installed.
    pub evidence: VersionEvidence,
}

/// What a [`ComponentTarget`] says.
#[verifier::ext_equal]
pub struct TargetView {
    pub name: Seq<char>,
    pub method: InstallMethod,
    pub dest: Seq<char>,
    pub aliases: Seq<Seq<char>>,
    pub service: Option<Seq<char>>,
    pub evidence: VersionEvidence,
}

impl View for ComponentTarget {
    type V = TargetView;

    open spec fn view(&self) -> TargetView {
        TargetView {
            name: self.name@,
            method: self.method,
            dest: self.dest@,
            aliases: views(self.aliases@),
            service: opt_view(self.service),
            evidence: self.evidence,
        }
    }
}

impl ComponentTarget {
    /// Every on-disk binary that the component owns, the primary first.
    pub fn binaries(&self) -> (paths: Vec<&str>)
        ensures
            paths@.len() == 1 + self.aliases@.len(),
            paths@[0]@ == self.dest@,
            forall|i: int|
                0 <= i < self.aliases@.len() ==> (#[trigger] paths@[i + 1])@ == self.aliases@[i]@,
    {
        let mut paths: Vec<&str> = Vec::new();
        paths.push(self.dest.as_str());
        let mut i: usize = 0;
        while i < self.aliases.len()
            invariant
                i <= self.aliases@.len(),
                paths@.len() == 1 + i,
                paths@[0]@ == self.dest@,
                forall|j: int| 0 <= j < i ==> (#[trigger] paths@[j + 1])@ == self.aliases@[j]@,
            decreases self.aliases@.len() - i,
        {
            paths.push(self.aliases[i].as_str());
            i = i + 1;
        }
        paths
    }

    /// The service that the component's binary belongs to, if it is service-backed.
    #[must_use]
    pub fn service_id(&self) -> (service: Option<&str>)
        ensures
            match service {
                Some(s) => opt_view(self.service) == Some(s@),
                None => self.service is None,
            },
    {
        match &self.service {
            Some(s) => Some(s.as_str()),
            None => None,
        }
    }
}

/// The tracked components' targets on this host.
#[derive(Debug, Clone, PartialEq, Eq)]
pub struct Catalog {
    targets: Vec<ComponentTarget>,
}

impl View for Catalog {
    type V = Seq<ComponentTarget>;

    closed spec fn view(&self) -> Seq<ComponentTarget> {
        self.targets@
    }
}

/// The views of a sequence of targets, in order.
pub open spec fn target_views(targets: Seq<ComponentTarget>) -> Seq<TargetView> {
    Seq::new(targets.len(), |i: int| targets[i]@)
}

/// The first target called `name`.
pub open spec fn target_named(targets: Seq<ComponentTarget>, name: Seq<char>) -> Option<
    ComponentTarget,
>
    decreases targets.len(),
{
    if targets.len() == 0 {
        None
    } else if targets[0].name@ == name {
        Some(targets[0])
    } else {
        target_named(targets.skip(1), name)
    }
}

/// What [`target_named`] finds is a target of that name.
pub proof fn lemma_target_named(targets: Seq<ComponentTarget>, name: Seq<char>)
    ensures
        target_named(targets, name) matches Some(t) ==> t.name@ == name && targets.contains(t),
    decreases targets.len(),
{
    if targets.len() > 0 {
        if targets[0].name@ == name {
            assert(targets.contains(targets[0]));
        } else {
            lemma_target_named(targets.skip(1), name);
            if target_named(targets.skip(1), name) is Some {
                let t = target_named(targets.skip(1), name)->0;
                let i: int = choose|i: int|
                    0 <= i < targets.skip(1).len() && targets.skip(1)[i] == t;
                assert(targets[i + 1] == t);
            }
        }
    }
}

/// The executable `stem` in `bin_dir`, with the suffix that Windows wants.
pub open spec fn executable(bin_dir: Seq<char>, os: Seq<char>, stem: Seq<char>) -> Seq<char> {
    joined(
        bin_dir,
        if os == "windows"@ {
            stem + ".exe"@
        } else {
            stem
        },
    )
}

/// How a native package is installed on `os`.
pub open spec fn package_method(os: Seq<char>) -> InstallMethod {
    if os == "windows"@ {
        InstallMethod::WindowsMsi
    } else if os == "macos"@ {
        InstallMethod::MacosPkg
    } else {
        InstallMethod::LinuxDeb
    }
}

/// The tracked components when `bin_dir` is the install root.
pub open spec fn default_targets(bin_dir: Seq<char>, os: Seq<char>) -> Seq<TargetView> {
    seq![
        TargetView {
            name: "dig-node"@,
            method: package_method(os),
            dest: executable(bin_dir, os, "dig-node"@),
            aliases: seq![executable(bin_dir, os, "dign"@)],
            service: Some("net.dignetwork.dig-node"@),
            evidence: VersionEvidence::SafeToProbe,
        },
        TargetView {
            name: "digstore"@,
            method: InstallMethod::RawBinary,
            dest: executable(bin_dir, os, "digstore"@),
            aliases: seq![executable(bin_dir, os, "digs"@)],
            service: None,
            evidence: VersionEvidence::SafeToProbe,
        },
        TargetView {
            name: "dig-dns"@,
            method: InstallMethod::RawBinary,
            dest: executable(bin_dir, os, "dig-dns"@),
            aliases: seq![executable(bin_dir, os, "digd"@)],
            service: None,
            evidence: VersionEvidence::SafeToProbe,
        },
        TargetView {
            name: BEACON_COMPONENT_NAME@,
            method: InstallMethod::RawBinary,
            dest: executable(bin_dir, os, BEACON_COMPONENT_NAME@),
            aliases: Seq::empty(),
            service: None,
            evidence: VersionEvidence::SafeToProbe,
        },
        TargetView {
            name: DIG_APP_COMPONENT_NAME@,
            method: InstallMethod::RawBinary,
            dest: executable(bin_dir, os, DIG_APP_COMPONENT_NAME@),
            aliases: Seq::empty(),
            service: None,
            evidence: VersionEvidence::ArtifactDigest,
        },
    ]
}

/// Where the components are installed: beside the running updater, else in the conventional root.
pub open spec fn install_root(
    current_exe: Option<Seq<char>>,
    os: Seq<char>,
    program_files: Option<Seq<char>>,
) -> Seq<char> {
    match current_exe {
        Some(exe) => match parent_of(exe) {
            Some(dir) => dir,
            None => conventional_root(os, program_files),
        },
        None => conventional_root(os, program_files),
    }
}

/// The conventional install root of `os`.
pub open spec fn conventional_root(os: Seq<char>, program_files: Option<Seq<char>>) -> Seq<char> {
    if os == "windows"@ {
        joined(
            match program_files {
                Some(dir) => dir,
                None => "C:/Program Files"@,
            },
            "DIG"@,
        )
    } else {
        "/usr/local/bin"@
    }
}

impl Catalog {
    /// Build a catalog from explicit targets.
    #[must_use]
    pub fn new(targets: Vec<ComponentTarget>) -> (catalog: Self)
        ensures
            catalog@ == targets@,
    {
        Catalog { targets }
    }

    /// The tracked components on `platform`, installed beside the running updater
    /// (`current_exe`), else in the conventional root (under `program_files` on Windows).
    #[must_use]
    pub fn alpha_defaults(
        platform: &Platform,
        current_exe: Option<String>,
        program_files: Option<String>,
    ) -> (catalog: Self)
        ensures
            target_views(catalog@) == default_targets(
                install_root(opt_view(current_exe), platform.os@, opt_view(program_files)),
                platform.os@,
            ),
    {
        let root: String = resolve_install_root(current_exe, platform, program_files);
        Self::alpha_defaults_in(root.as_str(), platform)
    }

    /// [`Self::alpha_defaults`] with the install root supplied.
    #[must_use]
    pub fn alpha_defaults_in(bin_dir: &str, platform: &Platform) -> (catalog: Self)
        ensures
            target_views(catalog@) == default_targets(bin_dir@, platform.os@),
    {
        let os: &str = platform.os.as_str();
        let package: InstallMethod = if same_text(os, "windows") {
            InstallMethod::WindowsMsi
        } else if same_text(os, "macos") {
            InstallMethod::MacosPkg
        } else {
            InstallMethod::LinuxDeb
        };
        let mut targets: Vec<ComponentTarget> = Vec::new();
        // The node runs as a service whose executable is held open while it runs.
        targets.push(
            ComponentTarget {
                name: "dig-node".to_owned(),
                method: package,
                dest: exe(bin_dir, os, "dig-node"),
                aliases: alias(bin_dir, os, "dign"),
                service: Some("net.dignetwork.dig-node".to_owned()),
                evidence: VersionEvidence::SafeToProbe,
            },
        );
        targets.push(
            ComponentTarget {
                name: "digstore".to_owned(),
                method: InstallMethod::RawBinary,
                dest: exe(bin_dir, os, "digstore"),
                aliases: alias(bin_dir, os, "digs"),
                service: None,
                evidence: VersionEvidence::SafeToProbe,
            },
        );
        targets.push(
            ComponentTarget {
                name: "dig-dns".to_owned(),
                method: InstallMethod::RawBinary,
                dest: exe(bin_dir, os, "dig-dns"),
                aliases: alias(bin_dir, os, "digd"),
                service: None,
                evidence: VersionEvidence::SafeToProbe,
            },
        );
        targets.push(
            ComponentTarget {
                name: BEACON_COMPONENT_NAME.to_owned(),
                method: InstallMethod::RawBinary,
                dest: exe(bin_dir, os, BEACON_COMPONENT_NAME),
                aliases: Vec::new(),
                service: None,
                evidence: VersionEvidence::SafeToProbe,
            },
        );
        // A per-user tray agent, kept current without ever being executed: its startup behaviour
        // is irrelevant, because the installed build is established by hashing.
        targets.push(
            ComponentTarget {
                name: DIG_APP_COMPONENT_NAME.to_owned(),
                method: InstallMethod::RawBinary,
                dest: exe(bin_dir, os, DIG_APP_COMPONENT_NAME),
                aliases: Vec::new(),
                service: None,
                evidence: VersionEvidence::ArtifactDigest,
            },
        );
        proof {
            let want = default_targets(bin_dir@, platform.os@);
            assert(targets@[3]@.aliases =~= want[3].aliases);
            assert(targets@[4]@.aliases =~= want[4].aliases);
            assert(targets@[0]@ =~= want[0]);
            assert(targets@[1]@ =~= want[1]);
            assert(targets@[2]@ =~= want[2]);
            assert(targets@[3]@ =~= want[3]);
            assert(targets@[4]@ =~= want[4]);
            assert(target_views(targets@) =~= want);
        }
        Self::new(targets)
    }

    /// The target for `name`, if this host tracks that component.
    #[must_use]
    pub fn target(&self, name: &str) -> (target: Option<&ComponentTarget>)
        ensures
            match target {
                Some(t) => target_named(self@, name@) == Some(*t) && t.name@ == name@
                    && self@.contains(*t),
                None => target_named(self@, name@) is None,
            },
    {
        let mut i: usize = 0;
        assert(self@.skip(0) =~= self@);
        while i < self.targets.len()
            invariant
                i <= self.targets@.len(),
                self@ == self.targets@,
                target_named(self@, name@) == target_named(self@.skip(i as int), name@),
            decreases self.targets@.len() - i,
        {
            assert(self@.skip(i as int)[0] == self.targets@[i as int]);
            assert(self@.skip(i as int).skip(1) =~= self@.skip(i + 1));
            if same_text(self.targets[i].name.as_str(), name) {
                assert(self@.contains(self.targets@[i as int]));
                return Some(&self.targets[i]);
            }
            i = i + 1;
        }
        None
    }

    /// Every tracked target, in catalog order.
    pub fn targets(&self) -> (targets: &Vec<ComponentTarget>)
        ensures
            targets@ == self@,
    {
        &self.targets
    }
}

/// Computes [`executable`].
fn exe(bin_dir: &str, os: &str, stem: &str) -> (path: String)
    ensures
        path@ == executable(bin_dir@, os@, stem@),
{
    if same_text(os, "windows") {
        let name: String = cat2(stem, ".exe");
        join(bin_dir, name.as_str())
    } else {
        join(bin_dir, stem)
    }
}

/// The one alias `stem` in `bin_dir`.
fn alias(bin_dir: &str, os: &str, stem: &str) -> (aliases: Vec<String>)
    ensures
        views(aliases@) == seq![executable(bin_dir@, os@, stem@)],
{
    let mut aliases: Vec<String> = Vec::new();
    aliases.push(exe(bin_dir, os, stem));
    assert(views(aliases@) =~= seq![executable(bin_dir@, os@, stem@)]);
    aliases
}

/// Resolve the install root from the running updater's own executable path. An unresolvable path
/// falls back to the conventional root, so a pass never aborts on it.
#[must_use]
pub fn resolve_install_root(
    current_exe: Option<String>,
    platform: &Platform,
    program_files: Option<String>,
) -> (root: String)
    ensures
        root@ == install_root(opt_view(current_exe), platform.os@, opt_view(program_files)),
{
    match current_exe {
        Some(exe_path) => match parent(exe_path.as_str()) {
            Some(dir) => dir,
            None => default_install_root(platform, program_files),
        },
        None => default_install_root(platform, program_files),
    }
}

/// The conventional per-system install root, the fallback of [`resolve_install_root`].
#[must_use]
pub fn default_install_root(platform: &Platform, program_files: Option<String>) -> (root: String)
    ensures
        root@ == conventional_root(platform.os@, opt_view(program_files)),
{
    if same_text(platform.os.as_str(), "windows") {
        match program_files {
            Some(dir) => join(dir.as_str(), "DIG"),
            None => join("C:/Program Files", "DIG"),
        }
    } else {
        "/usr/local/bin".to_owned()
    }
}

// ------------------------------------------------------------------ the plan

/// One build variant of a component staged for this platform.
#[derive(Debug, Clone, PartialEq, Eq)]
pub struct PlannedVariant {
    /// The build variant, or `None` for the default build.
    pub variant: Option<String>,
    /// The digest from the re-verified manifest.
    pub expected_digest: String,
    /// The staged, worker-downloaded file to install from.
    pub staged_path: String,
}

/// One component's planned action for this pass, and everything needed to do it.
#[derive(Debug, Clone, PartialEq, Eq)]
pub struct PlannedComponent {
    /// The component name.
    pub name: String,
    /// How to apply it.
    pub method: InstallMethod,
    /// The installed executable path.
    pub dest: String,
    /// The alias binaries refreshed from the same verified bytes.
    pub aliases: Vec<String>,
    /// The manifest's version.
    pub version: String,
    /// The manifest's monotonic build number.
    pub build: u64,
    /// The staged variants for this platform, the default first. Never empty.
    pub variants: Vec<PlannedVariant>,
    /// Install, update or skip.
    pub action: UpdateAction,
    /// The decision in words.
    pub summary: String,
    /// The build that is installed before this pass, where it can be aged.
    pub installed_build: Option<u64>,
    /// What establishes the installed version; the health gate uses the same evidence.
    pub evidence: VersionEvidence,
}

impl PlannedComponent {
    /// The default staged variant.
    #[must_use]
    pub fn primary(&self) -> (variant: &PlannedVariant)
        requires
            self.variants@.len() > 0,
        ensures
            *variant == self.variants@[0],
    {
        &self.variants[0]
    }
}

/// A tracked component that this pass will not act on, and why.
#[derive(Debug, Clone, PartialEq, Eq)]
pub struct HeldComponent {
    /// The manifest component name.
    pub name: String,
    /// Why it was held, in terms an operator can act on.
    pub reason: String,
}

/// The full pass plan: what will be acted on and what is held, each in manifest order.
#[derive(Debug, Clone, PartialEq, Eq)]
pub struct Plan {
    /// The planned components.
    pub components: Vec<PlannedComponent>,
    /// The tracked components deliberately not acted on.
    pub held: Vec<HeldComponent>,
}

/// What a plan is made from, besides the manifest and what is found on the host.
pub struct PlanInput {
    pub targets: Seq<ComponentTarget>,
    pub staged: Seq<StagedArtifact>,
    pub platform: Platform,
    pub recorded: Map<Seq<char>, u64>,
}

/// Whether a version probe may be run on `path`: it is a binary of a target that is declared safe
/// to execute.
pub open spec fn may_probe(targets: Seq<ComponentTarget>, path: Seq<char>) -> bool {
    exists|i: int|
        0 <= i < targets.len() && (#[trigger] targets[i]).evidence == VersionEvidence::SafeToProbe
            && (path == targets[i].dest@ || views(targets[i].aliases@).contains(path))
}

/// Whether `path` may be hashed: it is the only binary of a target with content-digest evidence. One
/// with aliases is held, and never hashed.
pub open spec fn may_hash(targets: Seq<ComponentTarget>, path: Seq<char>) -> bool {
    exists|i: int|
        0 <= i < targets.len() && (#[trigger] targets[i]).evidence
            == VersionEvidence::ArtifactDigest && targets[i].aliases@.len() == 0 && path
            == targets[i].dest@
}

/// Whether it may be looked for `path`: it is the primary of a target that is declared unsafe to
/// probe, and is held.
pub open spec fn may_look_for(targets: Seq<ComponentTarget>, path: Seq<char>) -> bool {
    exists|i: int|
        0 <= i < targets.len() && (#[trigger] targets[i]).evidence
            == VersionEvidence::UnsafeToProbe && path == targets[i].dest@
}

/// Whether probing `path` answered `d`.
pub open spec fn probed<D: Fn(&str) -> DetectedVersion>(
    detect: D,
    path: Seq<char>,
    d: DetectedVersion,
) -> bool {
    exists|p: &str| p@ == path && #[trigger] detect.ensures((p,), d)
}

/// Whether hashing `path` answered `found`.
pub open spec fn hashed<G: Fn(&str) -> Option<String>>(
    digest: G,
    path: Seq<char>,
    found: Option<String>,
) -> bool {
    exists|p: &str| p@ == path && #[trigger] digest.ensures((p,), found)
}

/// Whether looking for `path` answered `there`.
pub open spec fn looked_for<X: Fn(&str) -> bool>(
    is_installed: X,
    path: Seq<char>,
    there: bool,
) -> bool {
    exists|p: &str| p@ == path && #[trigger] is_installed.ensures((p,), there)
}

/// The first of the tokens that packs to a build number, from `i` on.
pub open spec fn first_build(words: Seq<Seq<char>>, i: int) -> Option<u64>
    decreases words.len() - i,
{
    if i < 0 || i >= words.len() {
        None
    } else if build_of_version(words[i]) is Some {
        build_of_version(words[i])
    } else {
        first_build(words, i + 1)
    }
}

/// The build that a probe's answer packs to.
pub open spec fn build_in(detected: Option<Seq<char>>) -> Option<u64> {
    match detected {
        Some(raw) => first_build(tokens(raw), 0),
        None => None,
    }
}

/// What a digest says about the installed version: nothing there, the promised version, or
/// something whose version is not established.
pub open spec fn digest_answer(
    found: Option<Seq<char>>,
    expected: Seq<Seq<char>>,
    version: Seq<char>,
) -> Option<Seq<char>> {
    match found {
        None => None,
        Some(digest) => if exists|i: int|
            0 <= i < expected.len() && ascii_lowered(digest) == ascii_lowered(
                #[trigger] expected[i],
            ) {
            Some(version)
        } else {
            Some(Seq::empty())
        },
    }
}

/// The digests of a component's artifacts for the platform.
pub open spec fn wanted_digests(c: Component, platform: Platform) -> Seq<Seq<char>> {
    let wanted = artifacts_for(c.artifacts@, platform.os@, platform.arch@);
    Seq::new(wanted.len(), |i: int| wanted[i].sha256@)
}

/// Whether the target is held by its declaration alone.
pub open spec fn is_held(t: ComponentTarget) -> bool {
    ||| t.evidence == VersionEvidence::UnsafeToProbe
    ||| t.evidence == VersionEvidence::ArtifactDigest && t.aliases@.len() > 0
}

/// Why a target that is unsafe to probe is held.
pub open spec fn unsafe_reason(name: Seq<char>, dest: Seq<char>, there: bool) -> Seq<char> {
    "held: "@ + name + (if there {
        " is installed at "@
    } else {
        " is not installed at "@
    }) + dest
        + " and is declared unsafe to probe, so the beacon did not run it and cannot tell which version is there. Nothing was probed, downloaded over, installed or rolled back. It updates once it either ships a `--version` that prints and EXITS without starting the app (dig_ecosystem#1749) or is declared to carry content-digest evidence (dig_ecosystem#1803)."@
}

/// Why a target with content-digest evidence and aliases is held.
pub open spec fn alias_reason(name: Seq<char>, n: nat) -> Seq<char> {
    "held: "@ + name + " declares content-digest evidence AND "@ + decimal(n)
        + " alias binaries, which this beacon cannot reconcile — an alias carries no manifest artifact digest of its own, so its freshness could only be established by executing it. Nothing was probed, installed or rolled back. Either drop the aliases or give the component a form of evidence that covers them."@
}

/// Whether `reason` is why the held target `t` is held.
pub open spec fn reason_ok<X: Fn(&str) -> bool>(
    t: ComponentTarget,
    is_installed: X,
    reason: Seq<char>,
) -> bool {
    if t.evidence == VersionEvidence::UnsafeToProbe {
        exists|there: bool| #[trigger]
            looked_for(is_installed, t.dest@, there) && reason == unsafe_reason(
                t.name@,
                t.dest@,
                there,
            )
    } else {
        reason == alias_reason(t.name@, t.aliases@.len())
    }
}

/// Whether a probe answer is current for `version`, by the shared matrix.
pub open spec fn is_current(detected: Option<Seq<char>>, version: Seq<char>) -> bool {
    resolver_decision(detected, version).0 == UpdateAction::Skip
}

/// Whether probing the alias answered something that is, or is not, current.
pub open spec fn alias_answered<D: Fn(&str) -> DetectedVersion>(
    detect: D,
    path: Seq<char>,
    version: Seq<char>,
    current: bool,
) -> bool {
    exists|d: DetectedVersion| #[trigger]
        probed(detect, path, d) && is_current(d@, version) == current
}

/// The summary of a component whose primary is current but whose alias is not.
pub open spec fn stale_alias_summary(version: Seq<char>, path: Seq<char>) -> Seq<char> {
    "v"@ + version + " (primary current, but alias "@ + path
        + " is out of date — refreshing the set)"@
}

/// Whether `out` is the decision `base` keyed on the whole binary set: a skip stands only where
/// every alias is current, and becomes an update at the first alias that is not.
pub open spec fn redriven<D: Fn(&str) -> DetectedVersion>(
    detect: D,
    aliases: Seq<String>,
    version: Seq<char>,
    base: (UpdateAction, Seq<char>),
    out: (UpdateAction, Seq<char>),
) -> bool {
    if base.0 != UpdateAction::Skip {
        out == base
    } else {
        ||| out == base && forall|i: int|
            0 <= i < aliases.len() ==> alias_answered(
                detect,
                (#[trigger] aliases[i])@,
                version,
                true,
            )
        ||| exists|k: int|
            0 <= k < aliases.len() && alias_answered(
                detect,
                (#[trigger] aliases[k])@,
                version,
                false,
            ) && out == (UpdateAction::Update, stale_alias_summary(version, aliases[k]@))
                && forall|i: int|
                0 <= i < k ==> alias_answered(detect, (#[trigger] aliases[i])@, version, true)
    }
}

/// The decision `base`, unless it is an update that would move the component backwards.
pub open spec fn guarded(
    base: (UpdateAction, Seq<char>),
    recorded_build: Option<u64>,
    manifest_build: u64,
) -> (UpdateAction, Seq<char>) {
    if base.0 == UpdateAction::Update && recorded_build is Some && recorded_build->0
        > manifest_build {
        (
            UpdateAction::Skip,
            "installed build "@ + decimal(recorded_build->0 as nat) + " is newer than the feed's "@
                + decimal(manifest_build as nat) + " — nothing to do"@,
        )
    } else {
        base
    }
}

/// The recorded build of a component.
pub open spec fn recorded_build(recorded: Map<Seq<char>, u64>, name: Seq<char>) -> Option<u64> {
    if recorded.contains_key(name) {
        Some(recorded[name])
    } else {
        None
    }
}

/// Whether a staged artifact is the given variant of the component for the platform.
pub open spec fn is_staged(
    s: StagedArtifact,
    name: Seq<char>,
    platform: Platform,
    variant: Option<Seq<char>>,
) -> bool {
    s.component@ == name && s.os@ == platform.os@ && s.arch@ == platform.arch@ && opt_view(
        s.variant,
    ) == variant
}

/// Where the first staged artifact of that variant is.
pub open spec fn staged_path_of(
    staged: Seq<StagedArtifact>,
    name: Seq<char>,
    platform: Platform,
    variant: Option<Seq<char>>,
) -> Option<String>
    decreases staged.len(),
{
    if staged.len() == 0 {
        None
    } else if is_staged(staged[0], name, platform, variant) {
        Some(staged[0].staged_path)
    } else {
        staged_path_of(staged.skip(1), name, platform, variant)
    }
}

/// Where the staged file of the component's `i`th artifact for the platform is.
pub open spec fn staged_artifact(input: PlanInput, c: Component, i: int) -> Option<String> {
    staged_path_of(
        input.staged,
        c.name@,
        input.platform,
        opt_view(
            artifacts_for(c.artifacts@, input.platform.os@, input.platform.arch@)[i].variant,
        ),
    )
}

/// The target of a component that this host tracks and that has an artifact for the platform.
pub open spec fn considered(input: PlanInput, c: Component) -> Option<ComponentTarget> {
    if artifacts_for(c.artifacts@, input.platform.os@, input.platform.arch@).len() > 0 {
        target_named(input.targets, c.name@)
    } else {
        None
    }
}

/// Whether the component is to be planned but one of its artifacts was not staged.
pub open spec fn is_missing(input: PlanInput, c: Component) -> bool {
    &&& considered(input, c) is Some
    &&& !is_held(considered(input, c)->0)
    &&& exists|i: int|
        0 <= i < artifacts_for(c.artifacts@, input.platform.os@, input.platform.arch@).len()
            && #[trigger] staged_artifact(input, c, i) is None
}

/// What becomes of one manifest component.
pub enum PlanItem {
    /// It is not tracked, or has nothing for this platform.
    Ignored,
    /// It is held.
    Held(HeldComponent),
    /// It is planned.
    Planned(PlannedComponent),
}

/// Whether the planned variants are the component's artifacts for the platform, in order, each
/// with its staged file.
pub open spec fn variants_ok(
    variants: Seq<PlannedVariant>,
    input: PlanInput,
    c: Component,
) -> bool {
    let wanted = artifacts_for(c.artifacts@, input.platform.os@, input.platform.arch@);
    &&& variants.len() == wanted.len()
    &&& forall|i: int|
        0 <= i < variants.len() ==> (#[trigger] variants[i]).variant == wanted[i].variant
            && variants[i].expected_digest == wanted[i].sha256 && Some(variants[i].staged_path)
            == staged_artifact(input, c, i)
}

/// Whether `d` is what the target's declared evidence answered.
pub open spec fn detected_by<D: Fn(&str) -> DetectedVersion, G: Fn(&str) -> Option<String>>(
    input: PlanInput,
    c: Component,
    t: ComponentTarget,
    detect: D,
    digest: G,
    d: DetectedVersion,
) -> bool {
    if t.evidence == VersionEvidence::SafeToProbe {
        probed(detect, t.dest@, d)
    } else {
        exists|found: Option<String>| #[trigger]
            hashed(digest, t.dest@, found) && d@ == digest_answer(
                opt_view(found),
                wanted_digests(c, input.platform),
                c.version@,
            )
    }
}

/// Whether `out` is the decision on the component, given what was detected.
pub open spec fn decided<D: Fn(&str) -> DetectedVersion>(
    input: PlanInput,
    c: Component,
    t: ComponentTarget,
    detect: D,
    d: DetectedVersion,
    out: (UpdateAction, Seq<char>),
) -> bool {
    let base = resolver_decision(d@, c.version@);
    if t.evidence == VersionEvidence::SafeToProbe {
        redriven(detect, t.aliases@, c.version@, base, out)
    } else {
        out == guarded(base, recorded_build(input.recorded, c.name@), c.build)
    }
}

/// Whether `p` is the plan for the component.
pub open spec fn planned_ok<D: Fn(&str) -> DetectedVersion, G: Fn(&str) -> Option<String>>(
    input: PlanInput,
    c: Component,
    t: ComponentTarget,
    detect: D,
    digest: G,
    p: PlannedComponent,
) -> bool {
    &&& p.name == c.name
    &&& p.method == t.method
    &&& p.dest == t.dest
    &&& p.aliases@ == t.aliases@
    &&& p.version == c.version
    &&& p.build == c.build
    &&& p.evidence == t.evidence
    &&& variants_ok(p.variants@, input, c)
    &&& exists|d: DetectedVersion| #[trigger]
        detected_by(input, c, t, detect, digest, d) && p.installed_build == build_in(d@)
            && decided(input, c, t, detect, d, (p.action, p.summary@))
}

/// Whether `item` is what becomes of the component.
pub open spec fn item_ok<
    D: Fn(&str) -> DetectedVersion,
    G: Fn(&str) -> Option<String>,
    X: Fn(&str) -> bool,
>(
    input: PlanInput,
    c: Component,
    detect: D,
    digest: G,
    is_installed: X,
    item: PlanItem,
) -> bool {
    match considered(input, c) {
        None => item is Ignored,
        Some(t) => if is_held(t) {
            item matches PlanItem::Held(h) && h.name == c.name && reason_ok(
                t,
                is_installed,
                h.reason@,
            )
        } else {
            item matches PlanItem::Planned(p) && planned_ok(input, c, t, detect, digest, p)
        },
    }
}

/// The planned components among the items, in order.
pub open spec fn planned_of(items: Seq<PlanItem>) -> Seq<PlannedComponent>
    decreases items.len(),
{
    if items.len() == 0 {
        Seq::empty()
    } else {
        match items.last() {
            PlanItem::Planned(p) => planned_of(items.drop_last()).push(p),
            _ => planned_of(items.drop_last()),
        }
    }
}

/// The held components among the items, in order.
pub open spec fn held_of(items: Seq<PlanItem>) -> Seq<HeldComponent>
    decreases items.len(),
{
    if items.len() == 0 {
        Seq::empty()
    } else {
        match items.last() {
            PlanItem::Held(h) => held_of(items.drop_last()).push(h),
            _ => held_of(items.drop_last()),
        }
    }
}

/// Whether the plan is what becomes of the components, item by item.
pub open spec fn plan_ok<
    D: Fn(&str) -> DetectedVersion,
    G: Fn(&str) -> Option<String>,
    X: Fn(&str) -> bool,
>(
    input: PlanInput,
    components: Seq<Component>,
    detect: D,
    digest: G,
    is_installed: X,
    plan: Plan,
    items: Seq<PlanItem>,
) -> bool {
    &&& items.len() == components.len()
    &&& forall|i: int|
        0 <= i < items.len() ==> item_ok(
            input,
            components[i],
            detect,
            digest,
            is_installed,
            #[trigger] items[i],
        )
    &&& plan.components@ == planned_of(items)
    &&& plan.held@ == held_of(items)
}

/// Whether every artifact was staged and `plan` is the plan for the components.
pub open spec fn complete<
    D: Fn(&str) -> DetectedVersion,
    G: Fn(&str) -> Option<String>,
    X: Fn(&str) -> bool,
>(
    input: PlanInput,
    components: Seq<Component>,
    detect: D,
    digest: G,
    is_installed: X,
    plan: Plan,
) -> bool {
    &&& forall|i: int| 0 <= i < components.len() ==> !is_missing(input, #[trigger] components[i])
    &&& exists|items: Seq<PlanItem>| #[trigger]
        plan_ok(input, components, detect, digest, is_installed, plan, items)
}

/// Whether component `k` is the first whose artifact was not staged, and `e` is the error for it.
pub open spec fn first_missing(
    input: PlanInput,
    components: Seq<Component>,
    k: int,
    e: ErrorView,
) -> bool {
    &&& 0 <= k < components.len()
    &&& is_missing(input, components[k])
    &&& forall|i: int| 0 <= i < k ==> !is_missing(input, #[trigger] components[i])
    &&& e == ErrorView::StagedArtifactMissing(
        components[k].name@,
        input.platform.os@,
        input.platform.arch@,
    )
}

/// Whether `r` is the plan for the components, or tells of the first whose artifact was not staged.
pub open spec fn is_built<
    D: Fn(&str) -> DetectedVersion,
    G: Fn(&str) -> Option<String>,
    X: Fn(&str) -> bool,
>(
    input: PlanInput,
    components: Seq<Component>,
    detect: D,
    digest: G,
    is_installed: X,
    r: Result<Plan, BrokerError>,
) -> bool {
    &&& r is Ok ==> complete(input, components, detect, digest, is_installed, r->Ok_0)
    &&& r is Err ==> exists|k: int| #[trigger] first_missing(input, components, k, r->Err_0@)
}

/// The components that are acted on: install or update.
pub open spec fn acted_on(components: Seq<PlannedComponent>) -> Seq<PlannedComponent>
    decreases components.len(),
{
    if components.len() == 0 {
        Seq::empty()
    } else if components.last().action != UpdateAction::Skip {
        acted_on(components.drop_last()).push(components.last())
    } else {
        acted_on(components.drop_last())
    }
}

// ------------------------------------------------------------------ laws

/// A record can stop an update and do nothing else: the only transition is from update to skip,
/// and only for a recorded build above the manifest's.
pub proof fn a_record_only_brakes(
    base: (UpdateAction, Seq<char>),
    recorded: Option<u64>,
    manifest_build: u64,
)
    ensures
        guarded(base, recorded, manifest_build) == base || (base.0 == UpdateAction::Update
            && guarded(base, recorded, manifest_build).0 == UpdateAction::Skip && recorded is Some
            && recorded->0 > manifest_build),
        recorded is None ==> guarded(base, recorded, manifest_build) == base,
{
}

/// Whether what is found on the host depends on the path alone: probing, hashing and looking for a
/// file are functions.
pub open spec fn is_steady<
    D: Fn(&str) -> DetectedVersion,
    G: Fn(&str) -> Option<String>,
    X: Fn(&str) -> bool,
>(
    detect: D,
    digest: G,
    is_installed: X,
    version_at: spec_fn(Seq<char>) -> Option<Seq<char>>,
    digest_at: spec_fn(Seq<char>) -> Option<Seq<char>>,
    there_at: spec_fn(Seq<char>) -> bool,
) -> bool {
    &&& forall|p: &str, d: DetectedVersion| #[trigger]
        detect.ensures((p,), d) ==> d@ == version_at(p@)
    &&& forall|p: &str, found: Option<String>| #[trigger]
        digest.ensures((p,), found) ==> opt_view(found) == digest_at(p@)
    &&& forall|p: &str, there: bool| #[trigger]
        is_installed.ensures((p,), there) ==> there == there_at(p@)
}

/// Whether the two are the same plan for a component but for what was decided.
pub open spec fn same_but_decision(a: PlannedComponent, b: PlannedComponent) -> bool {
    &&& a.name == b.name
    &&& a.method == b.method
    &&& a.dest == b.dest
    &&& a.aliases@ == b.aliases@
    &&& a.version == b.version
    &&& a.build == b.build
    &&& a.evidence == b.evidence
    &&& a.variants@ == b.variants@
    &&& a.installed_build == b.installed_build
}

/// What was decided on a component, and why.
pub open spec fn decision_of(p: PlannedComponent) -> (UpdateAction, Seq<char>) {
    (p.action, p.summary@)
}

/// Whether `a` and `b` are the plans for one component under two sets of records: the same, but that
/// each set may have stopped an update of a component with content-digest evidence.
pub open spec fn differ_by_records(
    a: PlannedComponent,
    records_a: Map<Seq<char>, u64>,
    b: PlannedComponent,
    records_b: Map<Seq<char>, u64>,
) -> bool {
    &&& same_but_decision(a, b)
    &&& if a.evidence == VersionEvidence::ArtifactDigest {
        exists|base: (UpdateAction, Seq<char>)|
            decision_of(a) == guarded(base, recorded_build(records_a, a.name@), a.build)
                && decision_of(b) == #[trigger] guarded(
                base,
                recorded_build(records_b, b.name@),
                b.build,
            )
    } else {
        decision_of(a) == decision_of(b)
    }
}

/// Whether the two holds are of the same component, for the same reason.
pub open spec fn same_hold(a: HeldComponent, b: HeldComponent) -> bool {
    a.name == b.name && a.reason@ == b.reason@
}

/// Whether the two plans hold the same components.
pub open spec fn same_holds(a: Plan, b: Plan) -> bool {
    &&& a.held@.len() == b.held@.len()
    &&& forall|i: int|
        0 <= i < a.held@.len() ==> same_hold(#[trigger] a.held@[i], b.held@[i])
}

/// Over whole plans, too, records only brake. Two plans made from the same inputs but for the records
/// have the same error or the same held components; and their components are the same, but that a
/// recorded build above the manifest's turns an update of a component with content-digest evidence
/// into a skip.
pub proof fn plans_differ_by_records_alone<
    D: Fn(&str) -> DetectedVersion,
    G: Fn(&str) -> Option<String>,
    X: Fn(&str) -> bool,
>(
    input_a: PlanInput,
    input_b: PlanInput,
    components: Seq<Component>,
    detect: D,
    digest: G,
    is_installed: X,
    version_at: spec_fn(Seq<char>) -> Option<Seq<char>>,
    digest_at: spec_fn(Seq<char>) -> Option<Seq<char>>,
    there_at: spec_fn(Seq<char>) -> bool,
    a: Result<Plan, BrokerError>,
    b: Result<Plan, BrokerError>,
)
    requires
        input_b == (PlanInput { recorded: input_b.recorded, ..input_a }),
        is_steady(detect, digest, is_installed, version_at, digest_at, there_at),
        is_built(input_a, components, detect, digest, is_installed, a),
        is_built(input_b, components, detect, digest, is_installed, b),
    ensures
        a is Err <==> b is Err,
        a is Err ==> a->Err_0@ == b->Err_0@,
        a is Ok ==> same_holds(a->Ok_0, b->Ok_0),
        a is Ok ==> a->Ok_0.components@.len() == b->Ok_0.components@.len(),
        a is Ok ==> forall|i: int|
            0 <= i < a->Ok_0.components@.len() ==> differ_by_records(
                #[trigger] a->Ok_0.components@[i],
                input_a.recorded,
                b->Ok_0.components@[i],
                input_b.recorded,
            ),
{
    assert forall|i: int| 0 <= i < components.len() implies is_missing(
        input_a,
        #[trigger] components[i],
    ) == is_missing(input_b, components[i]) by {
        lemma_same_missing(input_a, input_b, components[i]);
    }
    if a is Err {
        let k: int = choose|k: int| #[trigger] first_missing(input_a, components, k, a->Err_0@);
        assert(is_missing(input_b, components[k]));
        if b is Err {
            let j: int = choose|j: int| #[trigger] first_missing(input_b, components, j, b->Err_0@);
            assert(is_missing(input_a, components[j]));
            assert(j == k);
        }
    } else {
        if b is Err {
            let j: int = choose|j: int| #[trigger] first_missing(input_b, components, j, b->Err_0@);
            assert(is_missing(input_a, components[j]));
        }
        let (pa, pb) = (a->Ok_0, b->Ok_0);
        let ia = choose|items: Seq<PlanItem>| #[trigger]
            plan_ok(input_a, components, detect, digest, is_installed, pa, items);
        let ib = choose|items: Seq<PlanItem>| #[trigger]
            plan_ok(input_b, components, detect, digest, is_installed, pb, items);
        assert forall|i: int| 0 <= i < ia.len() implies items_differ_by_records(
            #[trigger] ia[i],
            input_a.recorded,
            ib[i],
            input_b.recorded,
        ) by {
            assert(item_ok(input_b, components[i], detect, digest, is_installed, ib[i]));
            lemma_item_under_records(
                input_a,
                input_b,
                components[i],
                detect,
                digest,
                is_installed,
                version_at,
                digest_at,
                there_at,
                ia[i],
                ib[i],
            );
        }
        lemma_items_differ(ia, input_a.recorded, ib, input_b.recorded);
    }
}

/// What a set of records makes of a plan that was made without any: a recorded build above the
/// manifest's turns an update of a component with content-digest evidence into a skip, and every
/// other decision stands. The error and the held components are the same.
pub proof fn a_plan_with_records_is_the_plan_without_them_braked<
    D: Fn(&str) -> DetectedVersion,
    G: Fn(&str) -> Option<String>,
    X: Fn(&str) -> bool,
>(
    input: PlanInput,
    components: Seq<Component>,
    detect: D,
    digest: G,
    is_installed: X,
    version_at: spec_fn(Seq<char>) -> Option<Seq<char>>,
    digest_at: spec_fn(Seq<char>) -> Option<Seq<char>>,
    there_at: spec_fn(Seq<char>) -> bool,
    bare: Result<Plan, BrokerError>,
    braked: Result<Plan, BrokerError>,
)
    requires
        is_steady(detect, digest, is_installed, version_at, digest_at, there_at),
        is_built(
            (PlanInput { recorded: Map::empty(), ..input }),
            components,
            detect,
            digest,
            is_installed,
            bare,
        ),
        is_built(input, components, detect, digest, is_installed, braked),
    ensures
        bare is Err <==> braked is Err,
        bare is Err ==> bare->Err_0@ == braked->Err_0@,
        bare is Ok ==> same_holds(bare->Ok_0, braked->Ok_0),
        bare is Ok ==> bare->Ok_0.components@.len() == braked->Ok_0.components@.len(),
        bare is Ok ==> forall|i: int|
            0 <= i < bare->Ok_0.components@.len() ==> same_but_decision(
                #[trigger] bare->Ok_0.components@[i],
                braked->Ok_0.components@[i],
            ) && decision_of(braked->Ok_0.components@[i]) == braked_decision(
                bare->Ok_0.components@[i],
                input.recorded,
            ),
{
    let none = PlanInput { recorded: Map::empty(), ..input };
    plans_differ_by_records_alone(
        none,
        input,
        components,
        detect,
        digest,
        is_installed,
        version_at,
        digest_at,
        there_at,
        bare,
        braked,
    );
    if bare is Ok {
        let (p, q) = (bare->Ok_0, braked->Ok_0);
        assert forall|i: int| 0 <= i < p.components@.len() implies same_but_decision(
            #[trigger] p.components@[i],
            q.components@[i],
        ) && decision_of(q.components@[i]) == braked_decision(
            p.components@[i],
            input.recorded,
        ) by {
            assert(differ_by_records(
                p.components@[i],
                none.recorded,
                q.components@[i],
                input.recorded,
            ));
        }
    }
}

/// The decision on a component that was planned without records, under these.
pub open spec fn braked_decision(
    p: PlannedComponent,
    records: Map<Seq<char>, u64>,
) -> (UpdateAction, Seq<char>) {
    if p.evidence == VersionEvidence::ArtifactDigest {
        guarded(decision_of(p), recorded_build(records, p.name@), p.build)
    } else {
        decision_of(p)
    }
}

/// Whether the two are what becomes of one component under two sets of records.
spec fn items_differ_by_records(
    a: PlanItem,
    records_a: Map<Seq<char>, u64>,
    b: PlanItem,
    records_b: Map<Seq<char>, u64>,
) -> bool {
    match (a, b) {
        (PlanItem::Ignored, PlanItem::Ignored) => true,
        (PlanItem::Held(x), PlanItem::Held(y)) => same_hold(x, y),
        (PlanItem::Planned(x), PlanItem::Planned(y)) => differ_by_records(
            x,
            records_a,
            y,
            records_b,
        ),
        _ => false,
    }
}

proof fn lemma_same_missing(input_a: PlanInput, input_b: PlanInput, c: Component)
    requires
        input_b == (PlanInput { recorded: input_b.recorded, ..input_a }),
    ensures
        is_missing(input_a, c) == is_missing(input_b, c),
{
    assert(forall|i: int| #[trigger] staged_artifact(input_a, c, i) == staged_artifact(
        input_b,
        c,
        i,
    ));
    assert(forall|i: int| #[trigger] staged_artifact(input_b, c, i) == staged_artifact(
        input_a,
        c,
        i,
    ));
}

/// Where probing is a function, so is the decision on the whole binary set.
proof fn lemma_redriven_once<D: Fn(&str) -> DetectedVersion>(
    detect: D,
    version_at: spec_fn(Seq<char>) -> Option<Seq<char>>,
    aliases: Seq<String>,
    version: Seq<char>,
    base: (UpdateAction, Seq<char>),
    a: (UpdateAction, Seq<char>),
    b: (UpdateAction, Seq<char>),
)
    requires
        forall|p: &str, d: DetectedVersion| #[trigger]
            detect.ensures((p,), d) ==> d@ == version_at(p@),
        redriven(detect, aliases, version, base, a),
        redriven(detect, aliases, version, base, b),
    ensures
        a == b,
{
    assert forall|path: Seq<char>, current: bool| #[trigger]
        alias_answered(detect, path, version, current) implies current == is_current(
        version_at(path),
        version,
    ) by {}
    if base.0 == UpdateAction::Skip && a != b {
        if a == base {
            let k: int = choose|k: int|
                0 <= k < aliases.len() && alias_answered(
                    detect,
                    (#[trigger] aliases[k])@,
                    version,
                    false,
                ) && b == (UpdateAction::Update, stale_alias_summary(version, aliases[k]@))
                    && forall|i: int|
                    0 <= i < k ==> alias_answered(detect, (#[trigger] aliases[i])@, version, true);
            assert(alias_answered(detect, aliases[k]@, version, true));
        } else if b == base {
            let k: int = choose|k: int|
                0 <= k < aliases.len() && alias_answered(
                    detect,
                    (#[trigger] aliases[k])@,
                    version,
                    false,
                ) && a == (UpdateAction::Update, stale_alias_summary(version, aliases[k]@))
                    && forall|i: int|
                    0 <= i < k ==> alias_answered(detect, (#[trigger] aliases[i])@, version, true);
            assert(alias_answered(detect, aliases[k]@, version, true));
        } else {
            let j: int = choose|k: int|
                0 <= k < aliases.len() && alias_answered(
                    detect,
                    (#[trigger] aliases[k])@,
                    version,
                    false,
                ) && a == (UpdateAction::Update, stale_alias_summary(version, aliases[k]@))
                    && forall|i: int|
                    0 <= i < k ==> alias_answered(detect, (#[trigger] aliases[i])@, version, true);
            let k: int = choose|k: int|
                0 <= k < aliases.len() && alias_answered(
                    detect,
                    (#[trigger] aliases[k])@,
                    version,
                    false,
                ) && b == (UpdateAction::Update, stale_alias_summary(version, aliases[k]@))
                    && forall|i: int|
                    0 <= i < k ==> alias_answered(detect, (#[trigger] aliases[i])@, version, true);
            if j < k {
                assert(alias_answered(detect, aliases[j]@, version, true));
            } else if k < j {
                assert(alias_answered(detect, aliases[k]@, version, true));
            }
        }
    }
}

proof fn lemma_item_under_records<
    D: Fn(&str) -> DetectedVersion,
    G: Fn(&str) -> Option<String>,
    X: Fn(&str) -> bool,
>(
    input_a: PlanInput,
    input_b: PlanInput,
    c: Component,
    detect: D,
    digest: G,
    is_installed: X,
    version_at: spec_fn(Seq<char>) -> Option<Seq<char>>,
    digest_at: spec_fn(Seq<char>) -> Option<Seq<char>>,
    there_at: spec_fn(Seq<char>) -> bool,
    a: PlanItem,
    b: PlanItem,
)
    requires
        input_b == (PlanInput { recorded: input_b.recorded, ..input_a }),
        is_steady(detect, digest, is_installed, version_at, digest_at, there_at),
        item_ok(input_a, c, detect, digest, is_installed, a),
        item_ok(input_b, c, detect, digest, is_installed, b),
    ensures
        items_differ_by_records(a, input_a.recorded, b, input_b.recorded),
{
    if considered(input_a, c) is Some && !is_held(considered(input_a, c)->0) {
        let t = considered(input_a, c)->0;
        let (x, y) = (a->Planned_0, b->Planned_0);
        let d = choose|d: DetectedVersion| #[trigger]
            detected_by(input_a, c, t, detect, digest, d) && x.installed_build == build_in(d@)
                && decided(input_a, c, t, detect, d, (x.action, x.summary@));
        let e = choose|d: DetectedVersion| #[trigger]
            detected_by(input_b, c, t, detect, digest, d) && y.installed_build == build_in(d@)
                && decided(input_b, c, t, detect, d, (y.action, y.summary@));
        assert(d@ == e@);
        let base = resolver_decision(d@, c.version@);
        assert(x.variants@ =~= y.variants@) by {
            assert forall|i: int| 0 <= i < x.variants@.len() implies x.variants@[i]
                == y.variants@[i] by {
                assert(x.variants@[i].variant == y.variants@[i].variant);
                assert(staged_artifact(input_a, c, i) == staged_artifact(input_b, c, i));
            }
        }
        if t.evidence == VersionEvidence::SafeToProbe {
            lemma_redriven_once(
                detect,
                version_at,
                t.aliases@,
                c.version@,
                base,
                (x.action, x.summary@),
                (y.action, y.summary@),
            );
        } else {
            assert(t.evidence == VersionEvidence::ArtifactDigest);
            assert(decision_of(y) == guarded(
                base,
                recorded_build(input_b.recorded, y.name@),
                y.build,
            ));
        }
    }
}

proof fn lemma_items_differ(
    a: Seq<PlanItem>,
    records_a: Map<Seq<char>, u64>,
    b: Seq<PlanItem>,
    records_b: Map<Seq<char>, u64>,
)
    requires
        a.len() == b.len(),
        forall|i: int|
            0 <= i < a.len() ==> items_differ_by_records(
                #[trigger] a[i],
                records_a,
                b[i],
                records_b,
            ),
    ensures
        planned_of(a).len() == planned_of(b).len(),
        forall|i: int|
            0 <= i < planned_of(a).len() ==> differ_by_records(
                #[trigger] planned_of(a)[i],
                records_a,
                planned_of(b)[i],
                records_b,
            ),
        held_of(a).len() == held_of(b).len(),
        forall|i: int|
            0 <= i < held_of(a).len() ==> same_hold(#[trigger] held_of(a)[i], held_of(b)[i]),
    decreases a.len(),
{
    if a.len() > 0 {
        let (fa, fb) = (a.drop_last(), b.drop_last());
        assert forall|i: int| 0 <= i < fa.len() implies items_differ_by_records(
            #[trigger] fa[i],
            records_a,
            fb[i],
            records_b,
        ) by {
            assert(items_differ_by_records(a[i], records_a, b[i], records_b));
        }
        lemma_items_differ(fa, records_a, fb, records_b);
        assert(items_differ_by_records(a.last(), records_a, b.last(), records_b)) by {
            assert(items_differ_by_records(
                a[a.len() - 1],
                records_a,
                b[a.len() - 1],
                records_b,
            ));
        }
        assert forall|i: int| 0 <= i < planned_of(a).len() implies differ_by_records(
            #[trigger] planned_of(a)[i],
            records_a,
            planned_of(b)[i],
            records_b,
        ) by {
            if i < planned_of(fa).len() {
                assert(differ_by_records(
                    planned_of(fa)[i],
                    records_a,
                    planned_of(fb)[i],
                    records_b,
                ));
            }
        }
        assert forall|i: int| 0 <= i < held_of(a).len() implies same_hold(
            #[trigger] held_of(a)[i],
            held_of(b)[i],
        ) by {
            if i < held_of(fa).len() {
                assert(same_hold(held_of(fa)[i], held_of(fb)[i]));
            }
        }
    }
}

/// Measured bytes that match a variant's digest are the promised version, whichever variant it is
/// and whatever the digest's casing; and that version is current.
pub proof fn a_matching_digest_is_current(
    found: Seq<char>,
    expected: Seq<Seq<char>>,
    i: int,
    version: Seq<char>,
)
    requires
        0 <= i < expected.len(),
        ascii_lowered(found) == ascii_lowered(expected[i]),
        version.len() > 0,
        forall|j: int| 0 <= j < version.len() ==> !crate::text::is_white(#[trigger] version[j]),
        crate::resolver::release_version(version) is Some,
    ensures
        digest_answer(Some(found), expected, version) == Some(version),
        resolver_decision(Some(version), version).0 == UpdateAction::Skip,
{
    reveal(resolver_decision);
    lemma_one_word(version, 0);
    crate::text::lemma_split(version, '\n', version.len() as int);
    assert(version.subrange(0, version.len() as int) =~= version);
    assert(tokens(version) =~= seq![version]);
}

/// Bytes that match no digest have no established version: they are updated and cannot be aged.
pub proof fn a_mismatched_digest_is_updated(
    found: Seq<char>,
    expected: Seq<Seq<char>>,
    version: Seq<char>,
)
    requires
        forall|j: int|
            0 <= j < expected.len() ==> ascii_lowered(found) != ascii_lowered(
                #[trigger] expected[j],
            ),
    ensures
        resolver_decision(digest_answer(Some(found), expected, version), version).0
            == UpdateAction::Update,
        build_in(digest_answer(Some(found), expected, version)) is None,
{
    reveal(resolver_decision);
    crate::resolver::lemma_no_version();
}

/// A component of which nothing could be hashed is installed.
pub proof fn an_absent_digest_is_installed(expected: Seq<Seq<char>>, version: Seq<char>)
    ensures
        resolver_decision(digest_answer(None, expected, version), version).0
            == UpdateAction::Install,
{
    reveal(resolver_decision);
}

proof fn lemma_one_word(s: Seq<char>, i: int)
    requires
        0 <= i <= s.len(),
        forall|j: int| 0 <= j < s.len() ==> !crate::text::is_white(#[trigger] s[j]),
    ensures
        crate::text::find_white(s, i) == s.len(),
        crate::text::tokens_from(s, i) == if i < s.len() {
            seq![s.subrange(i, s.len() as int)]
        } else {
            Seq::empty()
        },
    decreases s.len() - i,
{
    if i < s.len() {
        lemma_one_word(s, i + 1);
        assert(crate::text::skip_white(s, i) == i);
        assert(crate::text::tokens_from(s, s.len() as int) =~= Seq::empty());
        assert(crate::text::tokens_from(s, i) =~= seq![s.subrange(i, s.len() as int)]);
        if i == 0 {
            assert(s.subrange(0, s.len() as int) =~= s);
        }
    }
}

/// No planned component is one that is held, and each carries its variants: a component that is
/// declared unsafe to probe is never planned, so nothing can install, probe or roll it back.
pub proof fn a_held_component_is_never_planned<
    D: Fn(&str) -> DetectedVersion,
    G: Fn(&str) -> Option<String>,
    X: Fn(&str) -> bool,
>(
    input: PlanInput,
    components: Seq<Component>,
    detect: D,
    digest: G,
    is_installed: X,
    plan: Plan,
    items: Seq<PlanItem>,
    k: int,
)
    requires
        plan_ok(input, components, detect, digest, is_installed, plan, items),
        0 <= k < plan.components@.len(),
    ensures
        plan.components@[k].evidence != VersionEvidence::UnsafeToProbe,
        plan.components@[k].evidence == VersionEvidence::ArtifactDigest
            ==> plan.components@[k].aliases@.len() == 0,
        plan.components@[k].variants@.len() > 0,
{
    lemma_planned_item(items, k);
    let i: int = choose|i: int|
        0 <= i < items.len() && #[trigger] items[i] == PlanItem::Planned(plan.components@[k]);
    assert(item_ok(input, components[i], detect, digest, is_installed, items[i]));
}

/// Every component that this host tracks and that has an artifact for the platform is either
/// planned or held: none is passed over in silence, and none is both.
pub proof fn nothing_is_passed_over<
    D: Fn(&str) -> DetectedVersion,
    G: Fn(&str) -> Option<String>,
    X: Fn(&str) -> bool,
>(
    input: PlanInput,
    components: Seq<Component>,
    detect: D,
    digest: G,
    is_installed: X,
    plan: Plan,
    items: Seq<PlanItem>,
)
    requires
        plan_ok(input, components, detect, digest, is_installed, plan, items),
    ensures
        plan.components@.len() + plan.held@.len() == considered_count(input, components),
{
    assert(components.take(items.len() as int) =~= components);
    assert forall|i: int| 0 <= i < items.len() implies (#[trigger] items[i] is Ignored) == (
    considered(input, components[i]) is None) by {
        assert(item_ok(input, components[i], detect, digest, is_installed, items[i]));
    }
    lemma_item_counts(input, components, items);
}

/// How many of the components this host tracks and has an artifact for.
pub open spec fn considered_count(input: PlanInput, components: Seq<Component>) -> nat
    decreases components.len(),
{
    if components.len() == 0 {
        0
    } else {
        considered_count(input, components.drop_last()) + if considered(
            input,
            components.last(),
        ) is Some {
            1nat
        } else {
            0nat
        }
    }
}

proof fn lemma_item_counts(input: PlanInput, components: Seq<Component>, items: Seq<PlanItem>)
    requires
        items.len() == components.len(),
        forall|i: int|
            0 <= i < items.len() ==> (#[trigger] items[i] is Ignored) == (considered(
                input,
                components[i],
            ) is None),
    ensures
        planned_of(items).len() + held_of(items).len() == considered_count(input, components),
    decreases items.len(),
{
    if items.len() > 0 {
        let fewer = items.drop_last();
        assert forall|i: int| 0 <= i < fewer.len() implies (#[trigger] fewer[i] is Ignored) == (
        considered(input, components.drop_last()[i]) is None) by {
            assert(items[i] == fewer[i]);
        }
        lemma_item_counts(input, components.drop_last(), fewer);
        assert(items[items.len() - 1] == items.last());
    }
}

proof fn lemma_planned_item(items: Seq<PlanItem>, k: int)
    requires
        0 <= k < planned_of(items).len(),
    ensures
        exists|i: int|
            0 <= i < items.len() && #[trigger] items[i] == PlanItem::Planned(planned_of(items)[k]),
    decreases items.len(),
{
    if items.len() > 0 {
        let before = planned_of(items.drop_last());
        if k < before.len() {
            lemma_planned_item(items.drop_last(), k);
            let i: int = choose|i: int|
                0 <= i < items.drop_last().len() && #[trigger] items.drop_last()[i]
                    == PlanItem::Planned(before[k]);
            assert(items[i] == PlanItem::Planned(planned_of(items)[k]));
        } else {
            assert(items[items.len() - 1] == PlanItem::Planned(planned_of(items)[k]));
        }
    }
}

/// No default component is held, and the only one that is not executed is the identity agent,
/// whose version is established by its digest.
pub proof fn no_default_component_is_held(
    bin_dir: Seq<char>,
    os: Seq<char>,
    targets: Seq<ComponentTarget>,
    i: int,
)
    requires
        target_views(targets) == default_targets(bin_dir, os),
        0 <= i < targets.len(),
    ensures
        !is_held(targets[i]),
        targets[i].evidence == VersionEvidence::SafeToProbe || targets[i].name@
            == DIG_APP_COMPONENT_NAME@,
{
    let v = default_targets(bin_dir, os);
    assert(target_views(targets)[i] == targets[i]@);
    assert(v.len() == 5);
    assert(v[4].aliases.len() == 0);
    assert(targets[i]@.aliases.len() == targets[i].aliases@.len());
}

/// Whether a target owns the file.
pub open spec fn owns_file(t: TargetView, path: Seq<char>) -> bool {
    path == t.dest || t.aliases.contains(path)
}

#[verifier::spinoff_prover]
#[verifier::rlimit(40)]
proof fn lemma_executable(bin_dir: Seq<char>, os: Seq<char>, a: Seq<char>, b: Seq<char>)
    requires
        a.len() > 0,
        b.len() > 0,
        a[0] != '/',
        b[0] != '/',
        executable(bin_dir, os, a) == executable(bin_dir, os, b),
    ensures
        a == b,
{
    let ext = if os == "windows"@ {
        ".exe"@
    } else {
        Seq::empty()
    };
    let (x, y) = (a + ext, b + ext);
    assert(a + Seq::<char>::empty() =~= a && b + Seq::<char>::empty() =~= b);
    assert(x[0] == a[0] && y[0] == b[0]);
    let whole = joined(bin_dir, x);
    assert(whole == joined(bin_dir, y));
    let n: int = whole.len() - x.len();
    assert(x =~= whole.skip(n) && y =~= whole.skip(n));
    assert(a =~= x.take(a.len() as int) && b =~= y.take(b.len() as int));
}

/// The names of the default components' files, with the component that each belongs to.
spec fn default_files() -> Seq<(int, Seq<char>)> {
    seq![
        (0int, "dig-node"@),
        (0int, "dign"@),
        (1int, "digstore"@),
        (1int, "digs"@),
        (2int, "dig-dns"@),
        (2int, "digd"@),
        (3int, BEACON_COMPONENT_NAME@),
        (4int, DIG_APP_COMPONENT_NAME@),
    ]
}

proof fn lemma_default_files()
    ensures
        forall|k: int|
            0 <= k < 8 ==> (#[trigger] default_files()[k]).1.len() > 3 && default_files()[k].1[0]
                == 'd',
        forall|k: int, l: int|
            0 <= k < 8 && 0 <= l < 8 && k != l ==> (#[trigger] default_files()[k]).1 != (
            #[trigger] default_files()[l]).1,
{
    reveal_strlit("dig-node");
    reveal_strlit("dign");
    reveal_strlit("digstore");
    reveal_strlit("digs");
    reveal_strlit("dig-dns");
    reveal_strlit("digd");
    reveal_strlit("dig-updater");
    reveal_strlit("dig-app");
    assert("dign"@[3] == 'n' && "digs"@[3] == 's' && "digd"@[3] == 'd');
    assert("dig-node"@[3] == '-' && "digstore"@[3] == 's');
    assert("dig-dns"@[4] == 'd' && "dig-app"@[4] == 'a');
    let f = default_files();
    assert(f[0].1.len() == 8 && f[1].1.len() == 4 && f[2].1.len() == 8 && f[3].1.len() == 4);
    assert(f[4].1.len() == 7 && f[5].1.len() == 4 && f[6].1.len() == 11 && f[7].1.len() == 7);
    assert forall|k: int, l: int| 0 <= k < 8 && 0 <= l < 8 && k != l implies (
    #[trigger] f[k]).1 != (#[trigger] f[l]).1 by {
        if f[k].1.len() == f[l].1.len() {
            assert(f[k].1[3] != f[l].1[3] || f[k].1[4] != f[l].1[4]);
        }
    }
}

proof fn lemma_default_owner(bin_dir: Seq<char>, os: Seq<char>, i: int, path: Seq<char>) -> (k: int)
    requires
        0 <= i < default_targets(bin_dir, os).len(),
        owns_file(default_targets(bin_dir, os)[i], path),
    ensures
        0 <= k < 8,
        default_files()[k].0 == i,
        path == executable(bin_dir, os, default_files()[k].1),
{
    let t = default_targets(bin_dir, os)[i];
    assert(default_targets(bin_dir, os).len() == 5);
    if path == t.dest {
        if i == 0 {
            0
        } else if i == 1 {
            2
        } else if i == 2 {
            4
        } else if i == 3 {
            6
        } else {
            7
        }
    } else {
        assert(t.aliases.contains(path));
        assert(i < 3);
        assert(path == t.aliases[0]);
        2 * i + 1
    }
}

/// No file belongs to two default components: two owners would overwrite each other in every pass.
pub proof fn no_file_has_two_owners(
    bin_dir: Seq<char>,
    os: Seq<char>,
    i: int,
    j: int,
    path: Seq<char>,
)
    requires
        0 <= i < default_targets(bin_dir, os).len(),
        0 <= j < default_targets(bin_dir, os).len(),
        owns_file(default_targets(bin_dir, os)[i], path),
        owns_file(default_targets(bin_dir, os)[j], path),
    ensures
        i == j,
{
    let k: int = lemma_default_owner(bin_dir, os, i, path);
    let l: int = lemma_default_owner(bin_dir, os, j, path);
    lemma_default_files();
    lemma_executable(bin_dir, os, default_files()[k].1, default_files()[l].1);
    assert(k == l);
}

impl Plan {
    /// Plan against the re-verified `manifest`, the `staged` artifacts, this host's `catalog` and
    /// the `platform`, establishing each component's installed version from the evidence it
    /// declares: `detect` (which executes the binary) or `digest` (which only hashes it).
    ///
    /// `detect` is called only on the binaries of targets declared safe to probe; a held component
    /// is neither probed nor hashed. `is_installed` only sharpens the wording of a hold.
    ///
    /// Untracked components and components with no artifact for this platform are left out.
    ///
    /// # Errors
    ///
    /// [`BrokerError::StagedArtifactMissing`] for the first component whose artifact for this
    /// platform is not in `staged`.
    pub fn build<
        D: Fn(&str) -> DetectedVersion,
        G: Fn(&str) -> Option<String>,
        X: Fn(&str) -> bool,
    >(
        manifest: &Manifest,
        staged: &[StagedArtifact],
        catalog: &Catalog,
        platform: &Platform,
        detect: &D,
        digest: &G,
        recorded: &InstalledBuilds,
        is_installed: &X,
    ) -> (plan: Result<Plan, BrokerError>)
        requires
            forall|p: &str| may_probe(catalog@, p@) ==> #[trigger] detect.requires((p,)),
            forall|p: &str| may_hash(catalog@, p@) ==> #[trigger] digest.requires((p,)),
            forall|p: &str|
                may_look_for(catalog@, p@) ==> #[trigger] is_installed.requires((p,)),
        ensures
            is_built(
                (PlanInput {
                    targets: catalog@,
                    staged: staged@,
                    platform: *platform,
                    recorded: recorded@,
                }),
                manifest.components@,
                *detect,
                *digest,
                *is_installed,
                plan,
            ),
    {
        let ghost input = PlanInput {
            targets: catalog@,
            staged: staged@,
            platform: *platform,
            recorded: recorded@,
        };
        let mut components: Vec<PlannedComponent> = Vec::new();
        let mut held: Vec<HeldComponent> = Vec::new();
        let ghost mut items: Seq<PlanItem> = Seq::empty();
        let mut i: usize = 0;
        while i < manifest.components.len()
            invariant
                i <= manifest.components@.len(),
                input == (PlanInput {
                    targets: catalog@,
                    staged: staged@,
                    platform: *platform,
                    recorded: recorded@,
                }),
                forall|p: &str| may_probe(catalog@, p@) ==> #[trigger] detect.requires((p,)),
                forall|p: &str| may_hash(catalog@, p@) ==> #[trigger] digest.requires((p,)),
                forall|p: &str|
                    may_look_for(catalog@, p@) ==> #[trigger] is_installed.requires((p,)),
                items.len() == i,
                forall|j: int|
                    0 <= j < items.len() ==> item_ok(
                        input,
                        manifest.components@[j],
                        *detect,
                        *digest,
                        *is_installed,
                        #[trigger] items[j],
                    ),
                components@ == planned_of(items),
                held@ == held_of(items),
                forall|j: int|
                    0 <= j < i ==> !is_missing(input, #[trigger] manifest.components@[j]),
            decreases manifest.components@.len() - i,
        {
            let component: &Component = &manifest.components[i];
            let order: Vec<usize> = component.artifacts_for(
                platform.os.as_str(),
                platform.arch.as_str(),
            );
            let ghost c = *component;
            let mut item: Option<PlannedComponent> = None;
            let mut hold: Option<HeldComponent> = None;
            let found: Option<&ComponentTarget> = catalog.target(component.name.as_str());
            if order.len() > 0 {
                if let Some(target) = found {
                    match hold_reason(target, is_installed) {
                        Some(reason) => {
                            hold = Some(HeldComponent { name: component.name.clone(), reason });
                        },
                        None => {
                            match plan_component(
                                component,
                                &order,
                                target,
                                staged,
                                platform,
                                detect,
                                digest,
                                recorded,
                                Ghost(input),
                            ) {
                                Ok(p) => {
                                    item = Some(p);
                                },
                                Err(e) => {
                                    let refused: Result<Plan, BrokerError> = Err(e);
                                    assert(first_missing(
                                        input,
                                        manifest.components@,
                                        i as int,
                                        refused->Err_0@,
                                    ));
                                    return refused;
                                },
                            }
                        },
                    }
                }
            }
            let ghost next = item_of(item, hold);
            proof {
                assert(item_ok(input, c, *detect, *digest, *is_installed, next));
                assert(items.push(next).drop_last() =~= items);
                items = items.push(next);
            }
            if let Some(p) = item {
                components.push(p);
            } else if let Some(h) = hold {
                held.push(h);
            }
            i = i + 1;
        }
        let plan = Plan { components, held };
        proof {
            assert(i == manifest.components@.len());
            assert(plan_ok(
                input,
                manifest.components@,
                *detect,
                *digest,
                *is_installed,
                plan,
                items,
            ));
            assert forall|j: int| 0 <= j < manifest.components@.len() implies !is_missing(
                input,
                #[trigger] manifest.components@[j],
            ) by {}
            assert(complete(
                input,
                manifest.components@,
                *detect,
                *digest,
                *is_installed,
                plan,
            ));
        }
        Ok(plan)
    }

    /// The components that this pass will act on (install or update).
    pub fn actionable(&self) -> (components: Vec<&PlannedComponent>)
        ensures
            components@.len() == acted_on(self.components@).len(),
            forall|i: int|
                0 <= i < components@.len() ==> *(#[trigger] components@[i]) == acted_on(
                    self.components@,
                )[i],
    {
        let mut out: Vec<&PlannedComponent> = Vec::new();
        let mut i: usize = 0;
        while i < self.components.len()
            invariant
                i <= self.components@.len(),
                out@.len() == acted_on(self.components@.take(i as int)).len(),
                forall|j: int|
                    0 <= j < out@.len() ==> *(#[trigger] out@[j]) == acted_on(
                        self.components@.take(i as int),
                    )[j],
            decreases self.components@.len() - i,
        {
            proof {
                let upto = self.components@.take(i + 1);
                assert(upto.drop_last() =~= self.components@.take(i as int));
                assert(upto.last() == self.components@[i as int]);
            }
            if self.components[i].action != UpdateAction::Skip {
                out.push(&self.components[i]);
            }
            i = i + 1;
        }
        assert(self.components@.take(i as int) =~= self.components@);
        out
    }
}

spec fn item_of(planned: Option<PlannedComponent>, held: Option<HeldComponent>) -> PlanItem {
    match (planned, held) {
        (Some(p), _) => PlanItem::Planned(p),
        (None, Some(h)) => PlanItem::Held(h),
        _ => PlanItem::Ignored,
    }
}

/// Plan one component that is tracked, has artifacts for the platform and is not held.
fn plan_component<D: Fn(&str) -> DetectedVersion, G: Fn(&str) -> Option<String>>(
    component: &Component,
    order: &Vec<usize>,
    target: &ComponentTarget,
    staged: &[StagedArtifact],
    platform: &Platform,
    detect: &D,
    digest: &G,
    recorded: &InstalledBuilds,
    Ghost(input): Ghost<PlanInput>,
) -> (planned: Result<PlannedComponent, BrokerError>)
    requires
        input.staged == staged@,
        input.platform == *platform,
        input.recorded == recorded@,
        input.targets.contains(*target),
        order@.len() > 0,
        considered(input, *component) == Some(*target),
        !is_held(*target),
        order@.len() == artifacts_for(component.artifacts@, platform.os@, platform.arch@).len(),
        forall|i: int|
            0 <= i < order@.len() ==> (#[trigger] order@[i]) < component.artifacts@.len()
                && component.artifacts@[order@[i] as int] == artifacts_for(
                component.artifacts@,
                platform.os@,
                platform.arch@,
            )[i],
        forall|p: &str| may_probe(input.targets, p@) ==> #[trigger] detect.requires((p,)),
        forall|p: &str| may_hash(input.targets, p@) ==> #[trigger] digest.requires((p,)),
    ensures
        match planned {
            Ok(p) => !is_missing(input, *component) && planned_ok(
                input,
                *component,
                *target,
                *detect,
                *digest,
                p,
            ),
            Err(e) => is_missing(input, *component) && e@ == ErrorView::StagedArtifactMissing(
                component.name@,
                platform.os@,
                platform.arch@,
            ),
        },
{
    let ghost at: int = choose|i: int| 0 <= i < input.targets.len() && input.targets[i] == *target;
    let detected: DetectedVersion = if target.evidence.requires_execution() {
        assert forall|p: &str| p@ == target.dest@ implies may_probe(input.targets, p@) by {
            assert(input.targets[at].evidence == VersionEvidence::SafeToProbe);
        }
        let d: DetectedVersion = detect(target.dest.as_str());
        assert(probed(*detect, target.dest@, d));
        d
    } else {
        assert forall|p: &str| p@ == target.dest@ implies may_hash(input.targets, p@) by {
            assert(input.targets[at].evidence == VersionEvidence::ArtifactDigest);
        }
        let mut digests: Vec<String> = Vec::new();
        let mut i: usize = 0;
        while i < order.len()
            invariant
                i <= order@.len(),
                order@.len() == artifacts_for(
                    component.artifacts@,
                    platform.os@,
                    platform.arch@,
                ).len(),
                forall|j: int|
                    0 <= j < order@.len() ==> (#[trigger] order@[j]) < component.artifacts@.len()
                        && component.artifacts@[order@[j] as int] == artifacts_for(
                        component.artifacts@,
                        platform.os@,
                        platform.arch@,
                    )[j],
                digests@.len() == i,
                forall|j: int|
                    0 <= j < i ==> (#[trigger] digests@[j])@ == artifacts_for(
                        component.artifacts@,
                        platform.os@,
                        platform.arch@,
                    )[j].sha256@,
            decreases order@.len() - i,
        {
            let at: usize = order[i];
            digests.push(component.artifacts[at].sha256.clone());
            i = i + 1;
        }
        assert(views(digests@) =~= wanted_digests(*component, *platform));
        let found: Option<String> = digest(target.dest.as_str());
        assert(hashed(*digest, target.dest@, found));
        digest_evidence(&found, &digests, component.version.as_str())
    };
    assert(detected_by(input, *component, *target, *detect, *digest, detected));
    let variants: Vec<PlannedVariant> = match stage_variants(
        component,
        order,
        staged,
        platform,
        Ghost(input),
    ) {
        Some(v) => v,
        None => return Err(
            BrokerError::StagedArtifactMissing {
                component: component.name.clone(),
                os: platform.os.clone(),
                arch: platform.arch.clone(),
            },
        ),
    };
    let installed: Option<u64> = installed_build(&detected);
    let decision: UpdateDecision = decide(&detected, component.version.as_str());
    let (action, summary): (UpdateAction, String) = if target.evidence.requires_execution() {
        assert forall|p: &str| views(target.aliases@).contains(p@) implies may_probe(
            input.targets,
            p@,
        ) by {
            assert(input.targets[at].evidence == VersionEvidence::SafeToProbe);
        }
        redrive_for_stale_alias(
            target,
            component.version.as_str(),
            decision.action,
            decision.summary,
            detect,
        )
    } else {
        guard_newer_installed(
            decision.action,
            decision.summary,
            recorded.build_of(component.name.as_str()),
            component.build,
        )
    };
    assert(decided(input, *component, *target, *detect, detected, (action, summary@)));
    Ok(
        PlannedComponent {
            name: component.name.clone(),
            method: target.method,
            dest: target.dest.clone(),
            aliases: clone_texts(&target.aliases),
            version: component.version.clone(),
            build: component.build,
            variants,
            action,
            summary,
            installed_build: installed,
            evidence: target.evidence,
        },
    )
}

/// The staged variants of a component, or `None` where one is not staged.
fn stage_variants(
    component: &Component,
    order: &Vec<usize>,
    staged: &[StagedArtifact],
    platform: &Platform,
    Ghost(input): Ghost<PlanInput>,
) -> (variants: Option<Vec<PlannedVariant>>)
    requires
        input.staged == staged@,
        input.platform == *platform,
        order@.len() == artifacts_for(component.artifacts@, platform.os@, platform.arch@).len(),
        forall|i: int|
            0 <= i < order@.len() ==> (#[trigger] order@[i]) < component.artifacts@.len()
                && component.artifacts@[order@[i] as int] == artifacts_for(
                component.artifacts@,
                platform.os@,
                platform.arch@,
            )[i],
    ensures
        match variants {
            Some(v) => variants_ok(v@, input, *component) && forall|i: int|
                0 <= i < order@.len() ==> #[trigger] staged_artifact(input, *component, i) is Some,
            None => exists|i: int|
                0 <= i < order@.len() && #[trigger] staged_artifact(input, *component, i) is None,
        },
{
    let ghost wanted = artifacts_for(component.artifacts@, platform.os@, platform.arch@);
    let mut variants: Vec<PlannedVariant> = Vec::new();
    let mut i: usize = 0;
    while i < order.len()
        invariant
            i <= order@.len(),
            input.staged == staged@,
            input.platform == *platform,
            wanted == artifacts_for(component.artifacts@, platform.os@, platform.arch@),
            order@.len() == wanted.len(),
            forall|j: int|
                0 <= j < order@.len() ==> (#[trigger] order@[j]) < component.artifacts@.len()
                    && component.artifacts@[order@[j] as int] == wanted[j],
            variants@.len() == i,
            forall|j: int|
                0 <= j < i ==> (#[trigger] variants@[j]).variant == wanted[j].variant
                    && variants@[j].expected_digest == wanted[j].sha256 && Some(
                    variants@[j].staged_path,
                ) == staged_artifact(input, *component, j),
            forall|j: int| 0 <= j < i ==> #[trigger] staged_artifact(input, *component, j) is Some,
        decreases order@.len() - i,
    {
        let at: usize = order[i];
        let staged_path: String = match find_staged(
            staged,
            component.name.as_str(),
            platform,
            &component.artifacts[at].variant,
        ) {
            Some(p) => p,
            None => {
                assert(staged_artifact(input, *component, i as int) is None);
                return None;
            },
        };
        variants.push(
            PlannedVariant {
                variant: clone_opt_text(&component.artifacts[at].variant),
                expected_digest: component.artifacts[at].sha256.clone(),
                staged_path,
            },
        );
        i = i + 1;
    }
    Some(variants)
}

/// Computes [`staged_path_of`].
fn find_staged(
    staged: &[StagedArtifact],
    name: &str,
    platform: &Platform,
    variant: &Option<String>,
) -> (path: Option<String>)
    ensures
        path == staged_path_of(staged@, name@, *platform, opt_view(*variant)),
{
    let mut i: usize = 0;
    assert(staged@.skip(0) =~= staged@);
    while i < staged.len()
        invariant
            i <= staged@.len(),
            staged_path_of(staged@, name@, *platform, opt_view(*variant)) == staged_path_of(
                staged@.skip(i as int),
                name@,
                *platform,
                opt_view(*variant),
            ),
        decreases staged@.len() - i,
    {
        let s: &StagedArtifact = &staged[i];
        assert(staged@.skip(i as int)[0] == *s);
        assert(staged@.skip(i as int).skip(1) =~= staged@.skip(i + 1));
        if same_text(s.component.as_str(), name) && same_text(s.os.as_str(), platform.os.as_str())
            && same_text(s.arch.as_str(), platform.arch.as_str()) && same_opt_text(
            &s.variant,
            variant,
        ) {
            return Some(s.staged_path.clone());
        }
        i = i + 1;
    }
    None
}

/// The installed build that a probe answer packs to: the first word that is a version.
#[must_use]
pub fn installed_build(detected: &DetectedVersion) -> (build: Option<u64>)
    ensures
        build == build_in(detected@),
{
    let words: Vec<String> = match detected {
        DetectedVersion::Present(raw) => tokens_of(raw.as_str()),
        DetectedVersion::Absent => return None,
    };
    let ghost all = tokens(detected@->0);
    let mut i: usize = 0;
    while i < words.len()
        invariant
            i <= words@.len(),
            views(words@) == all,
            all == tokens(detected@->0),
            detected@ is Some,
            first_build(all, 0) == first_build(all, i as int),
        decreases words@.len() - i,
    {
        assert(all[i as int] == words@[i as int]@);
        let build: Option<u64> = pack_build(words[i].as_str());
        if build.is_some() {
            return build;
        }
        i = i + 1;
    }
    assert(all.len() == words@.len());
    None
}

/// What a digest says about the installed version, measured against every variant's digest: a host
/// running any variant of the promised build is current.
#[must_use]
pub fn digest_evidence(found: &Option<String>, expected: &Vec<String>, version: &str) -> (detected:
    DetectedVersion)
    ensures
        detected@ == digest_answer(opt_view(*found), views(expected@), version@),
{
    let digest: &str = match found {
        Some(d) => d.as_str(),
        None => return DetectedVersion::Absent,
    };
    let mut i: usize = 0;
    while i < expected.len()
        invariant
            i <= expected@.len(),
            opt_view(*found) == Some(digest@),
            forall|j: int|
                0 <= j < i ==> ascii_lowered(digest@) != ascii_lowered(
                    #[trigger] views(expected@)[j],
                ),
        decreases expected@.len() - i,
    {
        assert(views(expected@)[i as int] == expected@[i as int]@);
        if same_ignoring_ascii_case(digest, expected[i].as_str()) {
            return DetectedVersion::Present(version.to_owned());
        }
        i = i + 1;
    }
    let none: String = String::new();
    assert(none@ =~= Seq::empty());
    DetectedVersion::Present(none)
}

/// Why `target` is held this pass, or `None` to plan it: decided from the declaration, without
/// executing or hashing anything.
#[must_use]
pub fn hold_reason<X: Fn(&str) -> bool>(target: &ComponentTarget, is_installed: &X) -> (reason:
    Option<String>)
    requires
        forall|p: &str|
            target.evidence == VersionEvidence::UnsafeToProbe && p@ == target.dest@
                ==> #[trigger] is_installed.requires((p,)),
    ensures
        match reason {
            Some(r) => is_held(*target) && reason_ok(*target, *is_installed, r@),
            None => !is_held(*target),
        },
{
    match target.evidence {
        VersionEvidence::SafeToProbe => None,
        VersionEvidence::ArtifactDigest => {
            if target.aliases.len() == 0 {
                return None;
            }
            let n: String = decimal_of(target.aliases.len() as u64);
            Some(
                cat5(
                    "held: ",
                    target.name.as_str(),
                    " declares content-digest evidence AND ",
                    n.as_str(),
                    " alias binaries, which this beacon cannot reconcile — an alias carries no manifest artifact digest of its own, so its freshness could only be established by executing it. Nothing was probed, installed or rolled back. Either drop the aliases or give the component a form of evidence that covers them.",
                ),
            )
        },
        VersionEvidence::UnsafeToProbe => {
            let there: bool = is_installed(target.dest.as_str());
            assert(looked_for(*is_installed, target.dest@, there));
            let presence: &str = if there {
                " is installed at "
            } else {
                " is not installed at "
            };
            Some(
                cat5(
                    "held: ",
                    target.name.as_str(),
                    presence,
                    target.dest.as_str(),
                    " and is declared unsafe to probe, so the beacon did not run it and cannot tell which version is there. Nothing was probed, downloaded over, installed or rolled back. It updates once it either ships a `--version` that prints and EXITS without starting the app (dig_ecosystem#1749) or is declared to carry content-digest evidence (dig_ecosystem#1803).",
                ),
            )
        },
    }
}

/// Drive an aliased component as an update when the primary looks current but any of its aliases
/// is missing or on another version: a component is a binary set, and a stale alias would
/// otherwise never be refreshed.
pub fn redrive_for_stale_alias<D: Fn(&str) -> DetectedVersion>(
    target: &ComponentTarget,
    version: &str,
    primary_action: UpdateAction,
    primary_summary: String,
    detect: &D,
) -> (out: (UpdateAction, String))
    requires
        forall|p: &str|
            views(target.aliases@).contains(p@) ==> #[trigger] detect.requires((p,)),
    ensures
        redriven(
            *detect,
            target.aliases@,
            version@,
            (primary_action, primary_summary@),
            (out.0, out.1@),
        ),
{
    if primary_action != UpdateAction::Skip {
        return (primary_action, primary_summary);
    }
    let mut i: usize = 0;
    while i < target.aliases.len()
        invariant
            i <= target.aliases@.len(),
            primary_action == UpdateAction::Skip,
            forall|p: &str|
                views(target.aliases@).contains(p@) ==> #[trigger] detect.requires((p,)),
            forall|j: int|
                0 <= j < i ==> alias_answered(
                    *detect,
                    (#[trigger] target.aliases@[j])@,
                    version@,
                    true,
                ),
        decreases target.aliases@.len() - i,
    {
        let path: &str = target.aliases[i].as_str();
        assert(views(target.aliases@)[i as int] == path@);
        let found: DetectedVersion = detect(path);
        assert(probed(*detect, target.aliases@[i as int]@, found));
        let decision: UpdateDecision = decide(&found, version);
        if decision.action != UpdateAction::Skip {
            assert(alias_answered(*detect, target.aliases@[i as int]@, version@, false));
            return (
                UpdateAction::Update,
                cat5(
                    "v",
                    version,
                    " (primary current, but alias ",
                    path,
                    " is out of date — refreshing the set)",
                ),
            );
        }
        assert(alias_answered(*detect, target.aliases@[i as int]@, version@, true));
        i = i + 1;
    }
    (primary_action, primary_summary)
}

/// Hold back an update that would move a component backwards, when the record says that the build
/// already installed is newer than the one the feed offers.
///
/// A brake and never an accelerator: the only transition it makes is from update to skip.
pub fn guard_newer_installed(
    action: UpdateAction,
    summary: String,
    recorded_build: Option<u64>,
    manifest_build: u64,
) -> (out: (UpdateAction, String))
    ensures
        (out.0, out.1@) == guarded((action, summary@), recorded_build, manifest_build),
{
    if action != UpdateAction::Update {
        return (action, summary);
    }
    let recorded: u64 = match recorded_build {
        Some(r) => r,
        None => return (action, summary),
    };
    if recorded <= manifest_build {
        return (action, summary);
    }
    let newer: String = decimal_of(recorded);
    let offered: String = decimal_of(manifest_build);
    (
        UpdateAction::Skip,
        cat5(
            "installed build ",
            newer.as_str(),
            " is newer than the feed's ",
            offered.as_str(),
            " — nothing to do",
        ),
    )
}

// ------------------------------------------------------------------ laws on versions

/// A stable version `MAJOR.MINOR.PATCH`, with or without a leading `v` and whatever follows a `-` or
/// `+`, packs to a million times the first number, a thousand times the second, and the third; unless
/// the second or the third takes more than three digits.
pub proof fn a_stable_version_packs(v: (u64, u64, u64), suffix: Seq<char>)
    requires
        suffix.len() > 0 ==> (suffix[0] == '-' || suffix[0] == '+') && !crate::text::is_white(
            suffix.last(),
        ),
        !has_text(shown_version(v) + suffix, "-nightly."@),
        !has_text(seq!['v'] + (shown_version(v) + suffix), "-nightly."@),
    ensures
        v.1 < 1_000 && v.2 < 1_000 && v.0 * 1_000_000 + v.1 * 1_000 + v.2 <= u64::MAX ==> {
            let build = Some((v.0 * 1_000_000 + v.1 * 1_000 + v.2) as u64);
            &&& build_of_version(shown_version(v) + suffix) == build
            &&& build_of_version(seq!['v'] + (shown_version(v) + suffix)) == build
        },
        v.1 >= 1_000 || v.2 >= 1_000 ==> build_of_version(shown_version(v) + suffix) is None,
{
    let bare = shown_version(v) + suffix;
    lemma_cores(v, suffix);
    lemma_stable_build(bare, v);
    lemma_stable_build(seq!['v'] + bare, v);
}

#[verifier::spinoff_prover]
#[verifier::rlimit(40)]
proof fn lemma_cores(v: (u64, u64, u64), suffix: Seq<char>)
    requires
        suffix.len() > 0 ==> (suffix[0] == '-' || suffix[0] == '+') && !crate::text::is_white(
            suffix.last(),
        ),
    ensures
        version_core(shown_version(v) + suffix) == shown_version(v),
        version_core(seq!['v'] + (shown_version(v) + suffix)) == shown_version(v),
{
    let shown = shown_version(v);
    let bare = shown + suffix;
    let marked = seq!['v'] + bare;
    let none = Seq::<char>::empty();
    lemma_shown_version(v);
    assert(bare[0] == shown[0]);
    if suffix.len() == 0 {
        assert(bare =~= shown);
    } else {
        assert(bare.last() == suffix.last());
    }
    assert(marked.last() == bare.last());
    trimming_takes_the_blanks_off(none, bare, none);
    trimming_takes_the_blanks_off(none, marked, none);
    assert(none + bare + none =~= bare);
    assert(none + marked + none =~= marked);
    assert(marked.skip(1) =~= bare);
    lemma_core(shown, suffix);
}

#[verifier::spinoff_prover]
#[verifier::rlimit(40)]
proof fn lemma_stable_build(text: Seq<char>, v: (u64, u64, u64))
    requires
        version_core(text) == shown_version(v),
        !has_text(text, "-nightly."@),
    ensures
        v.1 < 1_000 && v.2 < 1_000 && v.0 * 1_000_000 + v.1 * 1_000 + v.2 <= u64::MAX
            ==> build_of_version(text) == Some((v.0 * 1_000_000 + v.1 * 1_000 + v.2) as u64),
        v.1 >= 1_000 || v.2 >= 1_000 ==> build_of_version(text) is None,
{
    lemma_shown_version(v);
    let parts = split(shown_version(v), '.');
    assert(parts.len() == 3);
    assert(parts[0] == decimal(v.0 as nat) && parts[1] == decimal(v.1 as nat) && parts[2]
        == decimal(v.2 as nat));
    assert(stable_version(text) == Some(v));
}

proof fn lemma_core(shown: Seq<char>, suffix: Seq<char>)
    requires
        suffix.len() > 0 ==> suffix[0] == '-' || suffix[0] == '+',
        forall|i: int| 0 <= i < shown.len() ==> #[trigger] shown[i] != '-' && shown[i] != '+',
    ensures
        ({
            let bare = shown + suffix;
            let undashed = bare.take(scan_char(bare, '-', 0));
            undashed.take(scan_char(undashed, '+', 0)) == shown
        }),
{
    let bare = shown + suffix;
    let n: int = shown.len() as int;
    let dash: int = scan_char(bare, '-', 0);
    crate::text::lemma_scan_char_found(bare, '-', 0);
    assert forall|i: int| 0 <= i < n implies bare[i] != '-' && bare[i] != '+' by {
        assert(bare[i] == shown[i]);
    }
    assert(dash >= n);
    let undashed = bare.take(dash);
    if suffix.len() > 0 {
        assert(bare[n] == suffix[0]);
    }
    crate::text::lemma_scan_char(undashed, '+', 0, n);
    assert(undashed.take(n) =~= shown);
}

/// A nightly version packs to the date that stands behind `-nightly.`, up to the end or the next dot.
pub proof fn a_nightly_version_packs_to_its_date(core: Seq<char>, date: u64, tail: Seq<char>)
    requires
        !core.contains('-'),
        10_000_000 <= date < 100_000_000,
        tail.len() == 0 || tail[0] == '.',
    ensures
        build_of_version(core + "-nightly."@ + decimal(date as nat) + tail) == Some(date),
{
    let shown = decimal(date as nat);
    crate::text::decimal_is_read_back(date);
    a_decimal_is_a_word_of_digits(date as nat);
    lemma_decimal_length(date as nat);
    lemma_nightly_parts(core, shown, tail);
    assert forall|i: int| 0 <= i < shown.len() implies crate::text::is_digit(#[trigger] shown[i]) by {}
    assert(shown[0] != '+');
}

/// A nightly version whose date is not eight digits has no build number.
pub proof fn a_nightly_version_without_a_date_has_no_build(
    core: Seq<char>,
    date: Seq<char>,
    tail: Seq<char>,
)
    requires
        !core.contains('-'),
        !date.contains('-'),
        !date.contains('.'),
        tail.len() == 0 || tail[0] == '.',
        date.len() != 8 || exists|i: int|
            0 <= i < date.len() && !('0' <= #[trigger] date[i] && date[i] <= '9'),
    ensures
        build_of_version(core + "-nightly."@ + date + tail) is None,
{
    assert forall|i: int| 0 <= i < date.len() implies #[trigger] date[i] != '-' && date[i] != '.' by {
        assert(date.contains(date[i]));
    }
    lemma_nightly_parts(core, date, tail);
    if date.len() == 8 {
        let i: int = choose|i: int|
            0 <= i < date.len() && !('0' <= #[trigger] date[i] && date[i] <= '9');
        assert(!crate::text::is_digit(date[i]));
    }
}

proof fn lemma_decimal_length(n: nat)
    requires
        10_000_000 <= n < 100_000_000,
    ensures
        decimal(n).len() == 8,
{
    reveal_with_fuel(decimal, 9);
}

#[verifier::spinoff_prover]
#[verifier::rlimit(40)]
proof fn lemma_nightly_parts(core: Seq<char>, date: Seq<char>, tail: Seq<char>)
    requires
        !core.contains('-'),
        forall|i: int| 0 <= i < date.len() ==> #[trigger] date[i] != '-' && date[i] != '.',
        tail.len() == 0 || tail[0] == '.',
    ensures
        ({
            let version = core + "-nightly."@ + date + tail;
            &&& has_text(version, "-nightly."@)
            &&& nightly_date(version) == (if date.len() == 8 && all_digits(date) {
                Some(digits_value(date) as u64)
            } else {
                None
            })
        }),
{
    let mark = "-nightly."@;
    reveal_strlit("-nightly.");
    let version = core + mark + date + tail;
    let n: int = core.len() as int;
    let after = date + tail;
    assert(version.subrange(n, n + mark.len()) =~= mark);
    assert(crate::text::stands_at(version, mark, n));
    assert(version.skip(n + mark.len()) =~= after);
    crate::text::lemma_find_from(version, mark, 0);
    let k: int = find_from(version, mark, 0)->0;
    if k < n {
        assert(version.subrange(k, k + mark.len())[0] == version[k]);
        assert(version[k] == core[k]);
        assert(core.contains(core[k]));
    }
    assert(k == n);
    crate::text::lemma_find_from(after, mark, 0);
    let next = find_from(after, mark, 0);
    let segment = match next {
        Some(j) => after.take(j),
        None => after,
    };
    let d: int = date.len() as int;
    if next is Some {
        let j: int = next->0;
        assert(after.subrange(j, j + mark.len())[0] == after[j]);
        if j < d {
            assert(after[j] == date[j]);
        } else if j == d {
            assert(after[j] == tail[0]);
        }
        assert(j > d);
    }
    assert forall|i: int| 0 <= i < d implies segment[i] != '.' by {
        assert(segment[i] == date[i]);
    }
    if d < segment.len() {
        assert(segment[d] == tail[0]);
    }
    crate::text::lemma_scan_char(segment, '.', 0, d);
    assert(segment.take(d) =~= date);
}

/// The build of an answer is that of the first of its words that has one.
pub proof fn the_first_word_with_a_build_counts(raw: Seq<char>, k: int)
    requires
        0 <= k <= tokens(raw).len(),
        forall|i: int| 0 <= i < k ==> build_of_version(#[trigger] tokens(raw)[i]) is None,
    ensures
        k < tokens(raw).len() && build_of_version(tokens(raw)[k]) is Some ==> build_in(Some(raw))
            == build_of_version(tokens(raw)[k]),
        k == tokens(raw).len() ==> build_in(Some(raw)) is None,
        build_in(None) is None,
{
    lemma_first_build(tokens(raw), 0, k);
}

proof fn lemma_first_build(words: Seq<Seq<char>>, i: int, k: int)
    requires
        0 <= i <= k <= words.len(),
        forall|j: int| i <= j < k ==> build_of_version(#[trigger] words[j]) is None,
    ensures
        first_build(words, i) == first_build(words, k),
    decreases k - i,
{
    if i < k {
        lemma_first_build(words, i + 1, k);
    }
}

// ------------------------------------------------------------------ laws on plans

/// The target of a component is the first in the catalog that has its name.
pub proof fn the_first_target_of_a_name_counts(
    targets: Seq<ComponentTarget>,
    name: Seq<char>,
    k: int,
)
    requires
        0 <= k <= targets.len(),
        forall|i: int| 0 <= i < k ==> (#[trigger] targets[i]).name@ != name,
    ensures
        k < targets.len() && targets[k].name@ == name ==> target_named(targets, name) == Some(
            targets[k],
        ),
        k == targets.len() ==> target_named(targets, name) is None,
    decreases k,
{
    if k > 0 {
        let rest = targets.skip(1);
        assert(targets[0].name@ != name);
        assert forall|i: int| 0 <= i < k - 1 implies (#[trigger] rest[i]).name@ != name by {
            assert(rest[i] == targets[i + 1]);
        }
        the_first_target_of_a_name_counts(rest, name, k - 1);
        if k < targets.len() {
            assert(rest[k - 1] == targets[k]);
        }
    }
}

/// The staged file of a variant is the first staged for that component, operating system,
/// architecture and variant.
pub proof fn the_first_staged_file_counts(
    staged: Seq<StagedArtifact>,
    name: Seq<char>,
    platform: Platform,
    variant: Option<Seq<char>>,
    k: int,
)
    requires
        0 <= k <= staged.len(),
        forall|i: int|
            0 <= i < k ==> (#[trigger] staged[i]).component@ != name || staged[i].os@
                != platform.os@ || staged[i].arch@ != platform.arch@ || opt_view(staged[i].variant)
                != variant,
    ensures
        k < staged.len() && staged[k].component@ == name && staged[k].os@ == platform.os@
            && staged[k].arch@ == platform.arch@ && opt_view(staged[k].variant) == variant
            ==> staged_path_of(staged, name, platform, variant) == Some(staged[k].staged_path),
        k == staged.len() ==> staged_path_of(staged, name, platform, variant) is None,
    decreases k,
{
    if k > 0 {
        let rest = staged.skip(1);
        assert(!is_staged(staged[0], name, platform, variant));
        assert forall|i: int| 0 <= i < k - 1 implies (#[trigger] rest[i]).component@ != name
            || rest[i].os@ != platform.os@ || rest[i].arch@ != platform.arch@ || opt_view(
            rest[i].variant,
        ) != variant by {
            assert(rest[i] == staged[i + 1]);
        }
        the_first_staged_file_counts(rest, name, platform, variant, k - 1);
        if k < staged.len() {
            assert(rest[k - 1] == staged[k]);
        }
    }
}

proof fn lemma_staged_somewhere(
    staged: Seq<StagedArtifact>,
    name: Seq<char>,
    platform: Platform,
    variant: Option<Seq<char>>,
)
    ensures
        staged_path_of(staged, name, platform, variant) matches Some(path) ==> exists|k: int|
            0 <= k < staged.len() && (#[trigger] staged[k]).staged_path == path
                && staged[k].component@ == name && staged[k].os@ == platform.os@ && staged[k].arch@
                == platform.arch@ && opt_view(staged[k].variant) == variant,
    decreases staged.len(),
{
    if staged.len() > 0 {
        if is_staged(staged[0], name, platform, variant) {
            assert(staged[0].staged_path == staged[0].staged_path);
        } else {
            let rest = staged.skip(1);
            lemma_staged_somewhere(rest, name, platform, variant);
            if staged_path_of(rest, name, platform, variant) is Some {
                let path = staged_path_of(rest, name, platform, variant)->0;
                let k: int = choose|k: int|
                    0 <= k < rest.len() && (#[trigger] rest[k]).staged_path == path
                        && rest[k].component@ == name && rest[k].os@ == platform.os@
                        && rest[k].arch@ == platform.arch@ && opt_view(rest[k].variant) == variant;
                assert(staged[k + 1] == rest[k]);
            }
        }
    }
}

/// Whether the staged file is of this artifact of the component.
pub open spec fn is_file_of(s: StagedArtifact, c: Component, a: Artifact) -> bool {
    s.component@ == c.name@ && s.os@ == a.os@ && s.arch@ == a.arch@ && opt_view(s.variant)
        == opt_view(a.variant)
}

/// Each planned variant of a component is one of its artifacts, for the platform's own operating
/// system and architecture: it has that artifact's digest and the file that was staged for it. And
/// each such artifact is among the variants.
#[verifier::spinoff_prover]
#[verifier::rlimit(60)]
pub proof fn a_variant_is_an_artifact_of_the_platform(
    variants: Seq<PlannedVariant>,
    input: PlanInput,
    c: Component,
    j: int,
    k: int,
)
    requires
        variants_ok(variants, input, c),
        0 <= j < variants.len(),
        0 <= k < c.artifacts@.len(),
    ensures
        exists|i: int, s: int|
            0 <= i < c.artifacts@.len() && 0 <= s < input.staged.len() && {
                let a = #[trigger] c.artifacts@[i];
                &&& a.os@ == input.platform.os@
                &&& a.arch@ == input.platform.arch@
                &&& variants[j].variant == a.variant
                &&& variants[j].expected_digest == a.sha256
                &&& variants[j].staged_path == (#[trigger] input.staged[s]).staged_path
                &&& is_file_of(input.staged[s], c, a)
            },
        c.artifacts@[k].os@ == input.platform.os@ && c.artifacts@[k].arch@ == input.platform.arch@
            ==> exists|i: int|
            0 <= i < variants.len() && (#[trigger] variants[i]).expected_digest
                == c.artifacts@[k].sha256 && variants[i].variant == c.artifacts@[k].variant,
{
    let wanted = artifacts_for(c.artifacts@, input.platform.os@, input.platform.arch@);
    let order = the_artifacts_of_a_platform(
        c.artifacts@,
        input.platform.os@,
        input.platform.arch@,
    );
    let i: int = order[j];
    let a = c.artifacts@[i];
    assert(wanted[j] == a);
    assert(variants[j].variant == wanted[j].variant);
    lemma_staged_somewhere(input.staged, c.name@, input.platform, opt_view(a.variant));
    assert(staged_artifact(input, c, j) == Some(variants[j].staged_path));
    let s: int = choose|s: int|
        0 <= s < input.staged.len() && (#[trigger] input.staged[s]).staged_path
            == variants[j].staged_path && input.staged[s].component@ == c.name@
            && input.staged[s].os@ == input.platform.os@ && input.staged[s].arch@
            == input.platform.arch@ && opt_view(input.staged[s].variant) == opt_view(a.variant);
    assert(is_file_of(input.staged[s], c, c.artifacts@[i]));
    if c.artifacts@[k].os@ == input.platform.os@ && c.artifacts@[k].arch@
        == input.platform.arch@ {
        let at: int = choose|at: int| 0 <= at < order.len() && #[trigger] order[at] == k;
        assert(wanted[at] == c.artifacts@[k]);
        assert(variants[at].variant == wanted[at].variant);
    }
}

/// Whether an artifact of the component is for the platform.
pub open spec fn offered_here(c: Component, platform: Platform) -> bool {
    exists|k: int|
        0 <= k < c.artifacts@.len() && (#[trigger] c.artifacts@[k]).os@ == platform.os@
            && c.artifacts@[k].arch@ == platform.arch@
}

/// What becomes of a component: one that the catalog does not name, or that has no artifact for this
/// operating system and architecture, is left out. Of the others, one that must not be executed and
/// has no other evidence, or has aliases that its evidence does not cover, is held; every other is
/// planned, under its own name and version, with the method, files and evidence of the catalog.
pub proof fn what_becomes_of_a_component<
    D: Fn(&str) -> DetectedVersion,
    G: Fn(&str) -> Option<String>,
    X: Fn(&str) -> bool,
>(
    input: PlanInput,
    c: Component,
    detect: D,
    digest: G,
    is_installed: X,
    item: PlanItem,
    t: int,
)
    requires
        item_ok(input, c, detect, digest, is_installed, item),
        0 <= t <= input.targets.len(),
        forall|i: int| 0 <= i < t ==> (#[trigger] input.targets[i]).name@ != c.name@,
        t < input.targets.len() ==> input.targets[t].name@ == c.name@,
    ensures
        t == input.targets.len() || !offered_here(c, input.platform) ==> item is Ignored,
        t < input.targets.len() && offered_here(c, input.platform) ==> {
            let target = input.targets[t];
            let held = target.evidence is UnsafeToProbe || (target.evidence is ArtifactDigest
                && target.aliases@.len() > 0);
            &&& held ==> (item matches PlanItem::Held(h) && h.name == c.name)
            &&& !held ==> (item matches PlanItem::Planned(p) && {
                &&& p.name == c.name
                &&& p.version == c.version
                &&& p.build == c.build
                &&& p.method == target.method
                &&& p.dest == target.dest
                &&& p.aliases@ == target.aliases@
                &&& p.evidence == target.evidence
                &&& p.variants@.len() > 0
                &&& variants_ok(p.variants@, input, c)
            })
        },
{
    let order = the_artifacts_of_a_platform(
        c.artifacts@,
        input.platform.os@,
        input.platform.arch@,
    );
    the_first_target_of_a_name_counts(input.targets, c.name@, t);
    let wanted = artifacts_for(c.artifacts@, input.platform.os@, input.platform.arch@);
    if wanted.len() > 0 {
        assert(c.artifacts@[order[0]].os@ == input.platform.os@);
        assert(offered_here(c, input.platform));
    }
    if offered_here(c, input.platform) {
        let k: int = choose|k: int|
            0 <= k < c.artifacts@.len() && (#[trigger] c.artifacts@[k]).os@ == input.platform.os@
                && c.artifacts@[k].arch@ == input.platform.arch@;
        let at: int = choose|at: int| 0 <= at < order.len() && #[trigger] order[at] == k;
        assert(wanted.len() > 0);
    }
}

/// A plan comes to nothing exactly where a component that is to be planned has an artifact for the
/// platform of which no file was staged.
#[verifier::spinoff_prover]
#[verifier::rlimit(60)]
pub proof fn a_component_is_missing_where_a_file_is(input: PlanInput, c: Component, t: int, k: int)
    requires
        0 <= t < input.targets.len(),
        forall|i: int| 0 <= i < t ==> (#[trigger] input.targets[i]).name@ != c.name@,
        input.targets[t].name@ == c.name@,
        input.targets[t].evidence is SafeToProbe || (input.targets[t].evidence is ArtifactDigest
            && input.targets[t].aliases@.len() == 0),
        0 <= k < c.artifacts@.len(),
        c.artifacts@[k].os@ == input.platform.os@,
        c.artifacts@[k].arch@ == input.platform.arch@,
    ensures
        (forall|s: int|
            0 <= s < input.staged.len() ==> !is_file_of(
                #[trigger] input.staged[s],
                c,
                c.artifacts@[k],
            )) ==> is_missing(input, c),
        is_missing(input, c) ==> exists|i: int| #[trigger]
            is_unstaged(input, c, i),
{
    let order = the_artifacts_of_a_platform(
        c.artifacts@,
        input.platform.os@,
        input.platform.arch@,
    );
    let wanted = artifacts_for(c.artifacts@, input.platform.os@, input.platform.arch@);
    the_first_target_of_a_name_counts(input.targets, c.name@, t);
    let at: int = choose|at: int| 0 <= at < order.len() && #[trigger] order[at] == k;
    assert(wanted[at] == c.artifacts@[k]);
    if forall|s: int|
        0 <= s < input.staged.len() ==> !is_file_of(
            #[trigger] input.staged[s],
            c,
            c.artifacts@[k],
        ) {
        assert forall|s: int| 0 <= s < input.staged.len() implies (
        #[trigger] input.staged[s]).component@ != c.name@ || input.staged[s].os@
            != input.platform.os@ || input.staged[s].arch@ != input.platform.arch@ || opt_view(
            input.staged[s].variant,
        ) != opt_view(c.artifacts@[k].variant) by {
            assert(!is_file_of(input.staged[s], c, c.artifacts@[k]));
        }
        the_first_staged_file_counts(
            input.staged,
            c.name@,
            input.platform,
            opt_view(c.artifacts@[k].variant),
            input.staged.len() as int,
        );
        assert(staged_artifact(input, c, at) is None);
    }
    if is_missing(input, c) {
        let j: int = choose|j: int|
            0 <= j < wanted.len() && #[trigger] staged_artifact(input, c, j) is None;
        let i: int = order[j];
        assert(wanted[j] == c.artifacts@[i]);
        assert forall|s: int| 0 <= s < input.staged.len() implies !is_file_of(
            #[trigger] input.staged[s],
            c,
            c.artifacts@[i],
        ) by {
            if is_file_of(input.staged[s], c, c.artifacts@[i]) {
                lemma_staged_found(
                    input.staged,
                    c.name@,
                    input.platform,
                    opt_view(c.artifacts@[i].variant),
                    s,
                );
            }
        }
        assert(is_unstaged(input, c, i));
    }
}

/// Whether no file was staged of the component's `i`th artifact, which is for the platform.
pub open spec fn is_unstaged(input: PlanInput, c: Component, i: int) -> bool {
    &&& 0 <= i < c.artifacts@.len()
    &&& c.artifacts@[i].os@ == input.platform.os@
    &&& c.artifacts@[i].arch@ == input.platform.arch@
    &&& forall|s: int|
        0 <= s < input.staged.len() ==> !is_file_of(
            #[trigger] input.staged[s],
            c,
            c.artifacts@[i],
        )
}

proof fn lemma_staged_found(
    staged: Seq<StagedArtifact>,
    name: Seq<char>,
    platform: Platform,
    variant: Option<Seq<char>>,
    s: int,
)
    requires
        0 <= s < staged.len(),
        is_staged(staged[s], name, platform, variant),
    ensures
        staged_path_of(staged, name, platform, variant) is Some,
    decreases staged.len(),
{
    if !is_staged(staged[0], name, platform, variant) {
        assert(staged.skip(1)[s - 1] == staged[s]);
        lemma_staged_found(staged.skip(1), name, platform, variant, s - 1);
    }
}

/// The plan of two lists of components one after the other is the plan of the first and then that of
/// the second: nothing is dropped, repeated or moved.
pub proof fn a_plan_keeps_the_order(a: Seq<PlanItem>, b: Seq<PlanItem>, p: PlannedComponent, h: HeldComponent)
    ensures
        planned_of(a + b) == planned_of(a) + planned_of(b),
        held_of(a + b) == held_of(a) + held_of(b),
        planned_of(seq![PlanItem::Planned(p)]) == seq![p],
        held_of(seq![PlanItem::Held(h)]) == seq![h],
        planned_of(seq![PlanItem::Held(h)]) == Seq::<PlannedComponent>::empty(),
        held_of(seq![PlanItem::Planned(p)]) == Seq::<HeldComponent>::empty(),
        planned_of(seq![PlanItem::Ignored]) == Seq::<PlannedComponent>::empty(),
        held_of(seq![PlanItem::Ignored]) == Seq::<HeldComponent>::empty(),
        planned_of(Seq::empty()) == Seq::<PlannedComponent>::empty(),
        held_of(Seq::empty()) == Seq::<HeldComponent>::empty(),
    decreases b.len(),
{
    let x = seq![PlanItem::Planned(p)];
    let y = seq![PlanItem::Held(h)];
    let z = seq![PlanItem::Ignored];
    assert(x.drop_last() =~= Seq::empty() && y.drop_last() =~= Seq::empty() && z.drop_last()
        =~= Seq::empty());
    assert(planned_of(x.drop_last()) =~= Seq::empty());
    assert(held_of(y.drop_last()) =~= Seq::empty());
    assert(planned_of(x) =~= seq![p]);
    assert(held_of(y) =~= seq![h]);
    if b.len() == 0 {
        assert(a + b =~= a);
        assert(planned_of(a) + planned_of(b) =~= planned_of(a));
        assert(held_of(a) + held_of(b) =~= held_of(a));
    } else {
        a_plan_keeps_the_order(a, b.drop_last(), p, h);
        assert((a + b).drop_last() =~= a + b.drop_last());
        assert((a + b).last() == b.last());
        assert(planned_of(a + b) =~= planned_of(a) + planned_of(b));
        assert(held_of(a + b) =~= held_of(a) + held_of(b));
    }
}

/// What is acted on of two lists one after the other is what is acted on of each; a component is acted
/// on exactly if it is to be installed or updated.
pub proof fn installs_and_updates_are_acted_on(
    a: Seq<PlannedComponent>,
    b: Seq<PlannedComponent>,
    p: PlannedComponent,
)
    ensures
        acted_on(a + b) == acted_on(a) + acted_on(b),
        p.action is Install || p.action is Update ==> acted_on(seq![p]) == seq![p],
        p.action is Skip ==> acted_on(seq![p]) == Seq::<PlannedComponent>::empty(),
    decreases b.len(),
{
    assert(seq![p].drop_last() =~= Seq::empty());
    assert(acted_on(seq![p].drop_last()) =~= Seq::empty());
    assert(!(p.action is Skip) ==> acted_on(seq![p]) =~= seq![p]);
    if b.len() == 0 {
        assert(a + b =~= a);
        assert(acted_on(a) + acted_on(b) =~= acted_on(a));
    } else {
        installs_and_updates_are_acted_on(a, b.drop_last(), p);
        assert((a + b).drop_last() =~= a + b.drop_last());
        assert((a + b).last() == b.last());
        assert(acted_on(a + b) =~= acted_on(a) + acted_on(b));
    }
}

/// What is decided of a component that may be probed: where the probe finds nothing at its place it is
/// installed. Where the primary's version, the last word of the answer's first line, is below the
/// manifest's it is updated. Where it is not, it is left alone if every alias is at the manifest's
/// version or above, and updated if one is not.
#[verifier::spinoff_prover]
#[verifier::rlimit(60)]
pub proof fn what_is_decided_of_a_probed_component<
    D: Fn(&str) -> DetectedVersion,
    G: Fn(&str) -> Option<String>,
>(
    input: PlanInput,
    c: Component,
    t: ComponentTarget,
    detect: D,
    digest: G,
    p: PlannedComponent,
    offered: (u64, u64, u64),
)
    requires
        planned_ok(input, c, t, detect, digest, p),
        t.evidence is SafeToProbe,
        c.version@ == shown_version(offered),
    ensures
        exists|d: DetectedVersion| #[trigger]
            probed(detect, t.dest@, d) && {
                &&& p.installed_build == build_in(d@)
                &&& d is Absent ==> p.action is Install
                &&& d is Present ==> (p.action is Update || p.action is Skip)
                &&& is_behind(d, offered) ==> p.action is Update
                &&& is_level(d, offered) && p.action is Skip ==> forall|i: int|
                    0 <= i < t.aliases@.len() ==> alias_is_level(
                        detect,
                        (#[trigger] t.aliases@[i])@,
                        offered,
                    )
                &&& is_level(d, offered) && !(p.action is Skip) ==> exists|i: int|
                    0 <= i < t.aliases@.len() && alias_is_not_level(
                        detect,
                        (#[trigger] t.aliases@[i])@,
                        offered,
                    )
                &&& p.action is Skip ==> is_level(d, offered)
            },
{
    let d = choose|d: DetectedVersion| #[trigger]
        detected_by(input, c, t, detect, digest, d) && p.installed_build == build_in(d@) && decided(
            input,
            c,
            t,
            detect,
            d,
            (p.action, p.summary@),
        );
    assert(probed(detect, t.dest@, d));
    let base = resolver_decision(d@, c.version@);
    lemma_decision_by_versions(d, offered);
    if is_level(d, offered) && p.action is Skip {
        assert forall|i: int| 0 <= i < t.aliases@.len() implies alias_is_level(
            detect,
            (#[trigger] t.aliases@[i])@,
            offered,
        ) by {
            assert(alias_answered(detect, t.aliases@[i]@, c.version@, true));
            let a = choose|a: DetectedVersion| #[trigger]
                probed(detect, t.aliases@[i]@, a) && is_current(a@, c.version@);
            lemma_decision_by_versions(a, offered);
            assert(probed(detect, t.aliases@[i]@, a) && is_level(a, offered));
        }
    }
    if is_level(d, offered) && !(p.action is Skip) {
        let k: int = choose|k: int|
            0 <= k < t.aliases@.len() && alias_answered(
                detect,
                (#[trigger] t.aliases@[k])@,
                c.version@,
                false,
            ) && (p.action, p.summary@) == (
                UpdateAction::Update,
                stale_alias_summary(c.version@, t.aliases@[k]@),
            );
        let a = choose|a: DetectedVersion| #[trigger]
            probed(detect, t.aliases@[k]@, a) && !is_current(a@, c.version@);
        lemma_decision_by_versions(a, offered);
        assert(alias_is_not_level(detect, t.aliases@[k]@, offered));
    }
}

/// Whether the answer's version is at or above the one offered.
pub open spec fn is_level(d: DetectedVersion, offered: (u64, u64, u64)) -> bool {
    d matches DetectedVersion::Present(raw) && (release_version(version_word(raw@)) matches Some(v)
        && (v.0 > offered.0 || (v.0 == offered.0 && (v.1 > offered.1 || (v.1 == offered.1 && v.2
        >= offered.2)))))
}

/// Whether something is installed whose version is unreadable or below the one offered.
pub open spec fn is_behind(d: DetectedVersion, offered: (u64, u64, u64)) -> bool {
    d is Present && !is_level(d, offered)
}

/// Whether probing the alias at `path` found the version offered, or one above.
pub open spec fn alias_is_level<D: Fn(&str) -> DetectedVersion>(
    detect: D,
    path: Seq<char>,
    offered: (u64, u64, u64),
) -> bool {
    exists|d: DetectedVersion| #[trigger] probed(detect, path, d) && is_level(d, offered)
}

/// Whether probing the alias at `path` found nothing, or a version that is unreadable or below the one
/// offered.
pub open spec fn alias_is_not_level<D: Fn(&str) -> DetectedVersion>(
    detect: D,
    path: Seq<char>,
    offered: (u64, u64, u64),
) -> bool {
    exists|d: DetectedVersion| #[trigger] probed(detect, path, d) && !is_level(d, offered)
}

#[verifier::spinoff_prover]
#[verifier::rlimit(60)]
proof fn lemma_decision_by_versions(d: DetectedVersion, offered: (u64, u64, u64))
    ensures
        d is Absent ==> resolver_decision(d@, shown_version(offered)).0 is Install,
        is_behind(d, offered) ==> resolver_decision(d@, shown_version(offered)).0 is Update,
        is_level(d, offered) ==> resolver_decision(d@, shown_version(offered)).0 is Skip,
{
    let none = Seq::<char>::empty();
    a_version_is_read(none, offered, none);
    assert(none + shown_version(offered) + none =~= shown_version(offered));
    lemma_decision_cases(
        if d is Present {
            d@->0
        } else {
            none
        },
        shown_version(offered),
    );
}

/// What is decided of a component whose evidence is its digest: where nothing could be hashed it is
/// installed; where the digest, whatever its casing, is that of one of its artifacts for the platform
/// it is left alone; where it is that of none it is updated, unless a build above the manifest's is on
/// record.
#[verifier::spinoff_prover]
#[verifier::rlimit(60)]
pub proof fn what_is_decided_of_a_hashed_component<
    D: Fn(&str) -> DetectedVersion,
    G: Fn(&str) -> Option<String>,
>(
    input: PlanInput,
    c: Component,
    t: ComponentTarget,
    detect: D,
    digest: G,
    p: PlannedComponent,
    offered: (u64, u64, u64),
)
    requires
        planned_ok(input, c, t, detect, digest, p),
        t.evidence is ArtifactDigest,
        c.version@ == shown_version(offered),
    ensures
        exists|found: Option<String>| #[trigger]
            hashed(digest, t.dest@, found) && {
                &&& p.installed_build == (if found is Some && is_artifact_digest(
                    c,
                    input.platform,
                    found->0@,
                ) {
                    build_in(Some(c.version@))
                } else {
                    None
                })
                &&& found is None ==> p.action is Install
                &&& found is Some && is_artifact_digest(c, input.platform, found->0@)
                    ==> p.action is Skip
                &&& found is Some && !is_artifact_digest(c, input.platform, found->0@) ==> {
                    if input.recorded.contains_key(c.name@) && input.recorded[c.name@] > c.build {
                        p.action is Skip
                    } else {
                        p.action is Update
                    }
                }
            },
{
    let d = choose|d: DetectedVersion| #[trigger]
        detected_by(input, c, t, detect, digest, d) && p.installed_build == build_in(d@) && decided(
            input,
            c,
            t,
            detect,
            d,
            (p.action, p.summary@),
        );
    let wanted = wanted_digests(c, input.platform);
    let found = choose|found: Option<String>| #[trigger]
        hashed(digest, t.dest@, found) && d@ == digest_answer(opt_view(found), wanted, c.version@);
    let order = the_artifacts_of_a_platform(
        c.artifacts@,
        input.platform.os@,
        input.platform.arch@,
    );
    lemma_decision_cases(c.version@, c.version@);
    if found is Some {
        let f = found->0@;
        lemma_shown_version(offered);
        let none = Seq::<char>::empty();
        a_version_is_read(none, offered, none);
        assert(none + shown_version(offered) + none =~= shown_version(offered));
        if is_artifact_digest(c, input.platform, f) {
            let k: int = choose|k: int|
                0 <= k < c.artifacts@.len() && (#[trigger] c.artifacts@[k]).os@
                    == input.platform.os@ && c.artifacts@[k].arch@ == input.platform.arch@
                    && ascii_lowered(f) == ascii_lowered(c.artifacts@[k].sha256@);
            let at: int = choose|at: int| 0 <= at < order.len() && #[trigger] order[at] == k;
            assert(wanted[at] == c.artifacts@[k].sha256@);
            a_matching_digest_is_current(f, wanted, at, c.version@);
        } else {
            assert forall|j: int| 0 <= j < wanted.len() implies ascii_lowered(f) != ascii_lowered(
                #[trigger] wanted[j],
            ) by {
                assert(wanted[j] == c.artifacts@[order[j]].sha256@);
            }
            a_mismatched_digest_is_updated(f, wanted, c.version@);
        }
    }
}

/// Whether the digest is, up to casing, that of an artifact of the component for the platform.
pub open spec fn is_artifact_digest(c: Component, platform: Platform, digest: Seq<char>) -> bool {
    exists|k: int|
        0 <= k < c.artifacts@.len() && (#[trigger] c.artifacts@[k]).os@ == platform.os@
            && c.artifacts@[k].arch@ == platform.arch@ && ascii_lowered(digest) == ascii_lowered(
            c.artifacts@[k].sha256@,
        )
}

/// Whatever is planned is offered for this host: each variant of each planned component is an artifact
/// of a manifest component of that name, for the platform's own operating system and architecture, with
/// the manifest's digest of it and a file that was staged for it.
#[verifier::spinoff_prover]
#[verifier::rlimit(60)]
pub proof fn what_is_planned_is_for_this_platform<
    D: Fn(&str) -> DetectedVersion,
    G: Fn(&str) -> Option<String>,
    X: Fn(&str) -> bool,
>(
    input: PlanInput,
    components: Seq<Component>,
    detect: D,
    digest: G,
    is_installed: X,
    plan: Plan,
    k: int,
    j: int,
)
    requires
        is_built(input, components, detect, digest, is_installed, Ok(plan)),
        0 <= k < plan.components@.len(),
        0 <= j < plan.components@[k].variants@.len(),
    ensures
        exists|i: int, a: int, s: int|
            0 <= i < components.len() && 0 <= a < components[i].artifacts@.len() && 0 <= s
                < input.staged.len() && #[trigger] is_variant_of(
                plan.components@[k],
                j,
                components[i],
                a,
                input.platform,
                input.staged[s],
            ),
{
    let items = choose|items: Seq<PlanItem>| #[trigger]
        plan_ok(input, components, detect, digest, is_installed, plan, items);
    let p = plan.components@[k];
    lemma_planned_item(items, k);
    let i: int = choose|i: int|
        0 <= i < items.len() && #[trigger] items[i] == PlanItem::Planned(plan.components@[k]);
    assert(item_ok(input, components[i], detect, digest, is_installed, items[i]));
    let c = components[i];
    let order = the_artifacts_of_a_platform(
        c.artifacts@,
        input.platform.os@,
        input.platform.arch@,
    );
    assert(0 <= order[j] < c.artifacts@.len());
    a_variant_is_an_artifact_of_the_platform(p.variants@, input, c, j, order[j]);
    let (a, s) = choose|a: int, s: int|
        0 <= a < c.artifacts@.len() && 0 <= s < input.staged.len() && {
            let x = #[trigger] c.artifacts@[a];
            &&& x.os@ == input.platform.os@
            &&& x.arch@ == input.platform.arch@
            &&& p.variants@[j].variant == x.variant
            &&& p.variants@[j].expected_digest == x.sha256
            &&& p.variants@[j].staged_path == (#[trigger] input.staged[s]).staged_path
            &&& is_file_of(input.staged[s], c, x)
        };
    assert(is_variant_of(p, j, components[i], a, input.platform, input.staged[s]));
}

/// Whether the planned component's `j`th variant is the `a`th artifact of the manifest component, is
/// for the platform, and is installed from the staged file.
pub open spec fn is_variant_of(
    p: PlannedComponent,
    j: int,
    c: Component,
    a: int,
    platform: Platform,
    s: StagedArtifact,
) -> bool {
    &&& p.name@ == c.name@
    &&& p.version@ == c.version@
    &&& p.build == c.build
    &&& c.artifacts@[a].os@ == platform.os@
    &&& c.artifacts@[a].arch@ == platform.arch@
    &&& p.variants@[j].expected_digest@ == c.artifacts@[a].sha256@
    &&& opt_view(p.variants@[j].variant) == opt_view(c.artifacts@[a].variant)
    &&& p.variants@[j].staged_path@ == s.staged_path@
    &&& s.component@ == c.name@
    &&& s.os@ == platform.os@
    &&& s.arch@ == platform.arch@
    &&& opt_view(s.variant) == opt_view(c.artifacts@[a].variant)
}

/// Every component that the catalog names and that has an artifact for the platform is planned, at the
/// place that the catalog gives it, or held, as its evidence says.
pub proof fn what_is_offered_for_this_platform_is_planned<
    D: Fn(&str) -> DetectedVersion,
    G: Fn(&str) -> Option<String>,
    X: Fn(&str) -> bool,
>(
    input: PlanInput,
    components: Seq<Component>,
    detect: D,
    digest: G,
    is_installed: X,
    plan: Plan,
    i: int,
    t: int,
)
    requires
        is_built(input, components, detect, digest, is_installed, Ok(plan)),
        0 <= i < components.len(),
        0 <= t < input.targets.len(),
        input.targets[t].name@ == components[i].name@,
        forall|j: int| 0 <= j < t ==> (#[trigger] input.targets[j]).name@ != components[i].name@,
        offered_here(components[i], input.platform),
    ensures
        input.targets[t].evidence is SafeToProbe || (input.targets[t].evidence is ArtifactDigest
            && input.targets[t].aliases@.len() == 0) ==> exists|k: int|
            0 <= k < plan.components@.len() && (#[trigger] plan.components@[k]).name@
                == components[i].name@ && plan.components@[k].dest@ == input.targets[t].dest@
                && plan.components@[k].build == components[i].build,
        input.targets[t].evidence is UnsafeToProbe || (input.targets[t].evidence is ArtifactDigest
            && input.targets[t].aliases@.len() > 0) ==> exists|k: int|
            0 <= k < plan.held@.len() && (#[trigger] plan.held@[k]).name@ == components[i].name@,
{
    let items = choose|items: Seq<PlanItem>| #[trigger]
        plan_ok(input, components, detect, digest, is_installed, plan, items);
    assert(item_ok(input, components[i], detect, digest, is_installed, items[i]));
    what_becomes_of_a_component(
        input,
        components[i],
        detect,
        digest,
        is_installed,
        items[i],
        t,
    );
    lemma_item_is_listed(items, i);
}

#[verifier::rlimit(40)]
proof fn lemma_item_is_listed(items: Seq<PlanItem>, i: int)
    requires
        0 <= i < items.len(),
    ensures
        items[i] matches PlanItem::Planned(p) ==> exists|k: int|
            0 <= k < planned_of(items).len() && #[trigger] planned_of(items)[k] == p,
        items[i] matches PlanItem::Held(h) ==> exists|k: int|
            0 <= k < held_of(items).len() && #[trigger] held_of(items)[k] == h,
    decreases items.len(),
{
    let fewer = items.drop_last();
    if i == items.len() - 1 {
        assert(items[i] == items.last());
        match items[i] {
            PlanItem::Planned(p) => {
                assert(planned_of(items)[planned_of(fewer).len() as int] == p);
            },
            PlanItem::Held(h) => {
                assert(held_of(items)[held_of(fewer).len() as int] == h);
            },
            PlanItem::Ignored => {},
        }
    } else {
        lemma_item_is_listed(fewer, i);
        assert(fewer[i] == items[i]);
        match items[i] {
            PlanItem::Planned(p) => {
                let k: int = choose|k: int|
                    0 <= k < planned_of(fewer).len() && #[trigger] planned_of(fewer)[k] == p;
                assert(planned_of(items)[k] == p);
            },
            PlanItem::Held(h) => {
                let k: int = choose|k: int|
                    0 <= k < held_of(fewer).len() && #[trigger] held_of(fewer)[k] == h;
                assert(held_of(items)[k] == h);
            },
            PlanItem::Ignored => {},
        }
    }
}

// ------------------------------------------------------------------ laws on the catalog

/// Whether a target is the file `name` in the directory, with the suffix, under its own name.
pub open spec fn is_in(
    t: TargetView,
    dir: Seq<char>,
    suffix: Seq<char>,
    name: Seq<char>,
    alias: Option<Seq<char>>,
) -> bool {
    &&& t.name == name
    &&& t.dest == dir + seq!['/'] + name + suffix
    &&& match alias {
        Some(a) => t.aliases == seq![dir + seq!['/'] + a + suffix],
        None => t.aliases.len() == 0,
    }
}

/// The components that are tracked, where their files are and how each is dealt with: the node, which is a
/// native package with a service; the store, the name server and the updater, which are single files; and the
/// identity agent, which is one too and is never executed. On Windows every file has the suffix `.exe`.
#[verifier::spinoff_prover]
#[verifier::rlimit(40)]
pub proof fn what_is_tracked(above: Seq<char>, last: Seq<char>, os: Seq<char>)
    requires
        above.len() == 0 || above.last() == '/',
        is_plain(last),
    ensures
        ({
            let t = default_targets(above + last, os);
            let dir = above + last;
            let suffix = if os == "windows"@ {
                ".exe"@
            } else {
                Seq::empty()
            };
            &&& t.len() == 5
            &&& is_in(t[0], dir, suffix, "dig-node"@, Some("dign"@))
            &&& is_in(t[1], dir, suffix, "digstore"@, Some("digs"@))
            &&& is_in(t[2], dir, suffix, "dig-dns"@, Some("digd"@))
            &&& is_in(t[3], dir, suffix, "dig-updater"@, None)
            &&& is_in(t[4], dir, suffix, "dig-app"@, None)
            &&& t[0].service == Some("net.dignetwork.dig-node"@)
            &&& forall|i: int| 1 <= i < 5 ==> (#[trigger] t[i]).service is None && t[i].method
                is RawBinary
            &&& os == "windows"@ ==> t[0].method is WindowsMsi
            &&& os == "macos"@ ==> t[0].method is MacosPkg
            &&& os == "linux"@ ==> t[0].method is LinuxDeb
            &&& forall|i: int| 0 <= i < 4 ==> (#[trigger] t[i]).evidence is SafeToProbe
            &&& t[4].evidence is ArtifactDigest
        }),
{
    let dir = above + last;
    let t = default_targets(dir, os);
    lemma_default_files();
    let f = default_files();
    assert(f[0].1 == "dig-node"@ && f[1].1 == "dign"@ && f[2].1 == "digstore"@ && f[3].1 == "digs"@);
    assert(f[4].1 == "dig-dns"@ && f[5].1 == "digd"@);
    assert(f[6].1 == "dig-updater"@ && f[7].1 == "dig-app"@);
    assert forall|k: int| 0 <= k < 8 implies executable(dir, os, (#[trigger] f[k]).1) == dir
        + seq!['/'] + f[k].1 + (if os == "windows"@ {
        ".exe"@
    } else {
        Seq::empty()
    }) by {
        lemma_executable_in(above, last, os, f[k].1);
    }
    reveal_strlit("windows");
    reveal_strlit("macos");
    reveal_strlit("linux");
    assert("windows"@.len() == 7 && "macos"@.len() == 5 && "linux"@.len() == 5);
    assert("macos"@[0] == 'm' && "linux"@[0] == 'l');
    assert(t.len() == 5);
}

proof fn lemma_executable_in(above: Seq<char>, last: Seq<char>, os: Seq<char>, stem: Seq<char>)
    requires
        above.len() == 0 || above.last() == '/',
        is_plain(last),
        stem.len() > 0,
        stem[0] != '/',
    ensures
        executable(above + last, os, stem) == above + last + seq!['/'] + stem + (if os
            == "windows"@ {
            ".exe"@
        } else {
            Seq::empty()
        }),
{
    let dir = above + last;
    assert(last[last.len() - 1] != '/');
    assert(dir.last() == last[last.len() - 1]);
    let leaf = if os == "windows"@ {
        stem + ".exe"@
    } else {
        stem
    };
    assert(leaf[0] == stem[0]);
    assert(joined(dir, leaf) == dir + seq!['/'] + leaf);
    if os == "windows"@ {
        assert(dir + seq!['/'] + (stem + ".exe"@) =~= dir + seq!['/'] + stem + ".exe"@);
    } else {
        assert(dir + seq!['/'] + stem + Seq::<char>::empty() =~= dir + seq!['/'] + stem);
    }
}

/// The components are installed beside the running updater; where its place is unknown, in `DIG` below the
/// program files on Windows, and in `/usr/local/bin` elsewhere.
pub proof fn components_are_installed_beside_the_updater(
    above: Seq<char>,
    last: Seq<char>,
    name: Seq<char>,
    os: Seq<char>,
    program_files: Option<Seq<char>>,
)
    requires
        above.len() == 0 || above.last() == '/',
        is_plain(last),
        is_plain(name),
    ensures
        install_root(Some(above + last + seq!['/'] + name), os, program_files) == above + last,
        os != "windows"@ ==> install_root(None, os, program_files) == "/usr/local/bin"@,
        os == "windows"@ ==> install_root(None, os, None) == "C:/Program Files/DIG"@,
        os == "windows"@ ==> install_root(None, os, Some(above + last)) == above + last + "/DIG"@,
{
    a_path_is_its_directory_and_its_name(above, last, name);
    lemma_program_files(above, last);
}

#[verifier::spinoff_prover]
proof fn lemma_program_files(above: Seq<char>, last: Seq<char>)
    requires
        above.len() == 0 || above.last() == '/',
        is_plain(last),
    ensures
        joined("C:/Program Files"@, "DIG"@) == "C:/Program Files/DIG"@,
        joined(above + last, "DIG"@) == above + last + "/DIG"@,
{
    reveal_strlit("C:/Program Files");
    reveal_strlit("C:/Program Files/DIG");
    reveal_strlit("DIG");
    reveal_strlit("/DIG");
    let dir = above + last;
    assert(last[last.len() - 1] != '/');
    assert(dir.last() == last[last.len() - 1]);
    assert(joined("C:/Program Files"@, "DIG"@) =~= "C:/Program Files/DIG"@);
    assert(joined(dir, "DIG"@) =~= dir + "/DIG"@);
}

} // verus!
