//! Deciding whether a Windows DACL lets a non-privileged principal write a guarded path.
//!
//! Who owns a directory and who can write it are different questions: an administrator-owned
//! directory can still carry an entry granting write to ordinary users, and on an install root
//! that means planting a binary which a privileged schedule later runs.
//!
//! The access-control list arrives as data, so the whole decision is a function of a [`Dacl`]
//! value. Reading the descriptor off a path is left to the caller, who hands over one
//! [`RawAce`] per entry.
//!
//! # Which direction a wrong answer fails in
//!
//! Too strict stops the updater on legitimate machines, so the leniency is deliberate:
//!
//! - a DENY that precedes a grant is subtracted from the same principal's allowed rights, and so
//!   is a DENY to `Everyone`, except from a grant to `ANONYMOUS LOGON`, whose token can omit
//!   `Everyone`; a DENY that follows the grant is not, because Windows never reaches it;
//! - an `INHERIT_ONLY` entry grants nothing on the object itself;
//! - an entry whose condition cannot be evaluated, whose trustee cannot be read, or which cannot
//!   be read at all is taken to grant, and the walk goes on past it.

use vstd::prelude::*;

use crate::text::{chars_of, decimal, digit_char, same_text, stands, stands_at};

verus! {

/// `FILE_WRITE_DATA` / `FILE_ADD_FILE`.
pub const WRITE_DATA: u32 = 0x0000_0002;

/// `FILE_APPEND_DATA` / `FILE_ADD_SUBDIRECTORY`.
pub const ADD_SUBDIRECTORY: u32 = 0x0000_0004;

/// `FILE_DELETE_CHILD`: delete a child of this directory regardless of the child's own DACL.
pub const DELETE_CHILD: u32 = 0x0000_0040;

/// `DELETE`: delete this object itself.
pub const DELETE: u32 = 0x0001_0000;

/// `WRITE_DAC`: change the object's DACL, that is, grant yourself everything else.
pub const WRITE_DAC: u32 = 0x0004_0000;

/// `WRITE_OWNER`: take ownership, that is, grant yourself everything else.
pub const WRITE_OWNER: u32 = 0x0008_0000;

/// `GENERIC_ALL`.
pub const GENERIC_ALL: u32 = 0x1000_0000;

/// `GENERIC_WRITE`.
pub const GENERIC_WRITE: u32 = 0x4000_0000;

/// Every right that is enough to plant, replace or remove a binary in the directory, or to change
/// its DACL so that one can.
pub const WRITE_EQUIVALENT: u32 = WRITE_DATA | ADD_SUBDIRECTORY | DELETE_CHILD | DELETE | WRITE_DAC
    | WRITE_OWNER | GENERIC_ALL | GENERIC_WRITE;

/// `INHERIT_ONLY_ACE`: the entry applies to children only, never to the object carrying it.
pub const INHERIT_ONLY_ACE: u8 = 0x08;

/// `OBJECT_INHERIT_ACE`: the entry is inherited by the files created in this directory.
pub const OBJECT_INHERIT_ACE: u8 = 0x01;

/// Whether an entry allows access, denies it, or grants and takes away nothing.
#[derive(Debug, Clone, Copy, PartialEq, Eq, Structural)]
pub enum AceKind {
    /// An entry that grants.
    Allow,
    /// An entry that takes away.
    Deny,
    /// An audit entry, or a DENY that cannot be relied on.
    Other,
}

/// Who an entry names.
///
/// A type of its own rather than a sentinel text: a rule about SIDs cannot be written against a
/// trustee that has none.
#[derive(Debug, Clone, PartialEq, Eq)]
pub enum Trustee {
    /// A trustee that was read, as a string SID (`S-1-5-32-544`).
    Sid(String),
    /// A trustee that could not be read. It names some principal; which one is unknown.
    Unreadable,
}

impl View for Trustee {
    type V = Option<Seq<char>>;

    open spec fn view(&self) -> Option<Seq<char>> {
        match *self {
            Trustee::Sid(sid) => Some(sid@),
            Trustee::Unreadable => None,
        }
    }
}

impl Trustee {
    /// The SID this trustee names, or `None` when it cannot be named.
    pub fn sid(&self) -> (sid: Option<&str>)
        ensures
            match sid {
                Some(s) => self@ == Some(s@),
                None => self@ is None,
            },
    {
        match self {
            Trustee::Sid(sid) => Some(sid.as_str()),
            Trustee::Unreadable => None,
        }
    }

    /// How a refusal names this trustee.
    pub fn shown(&self) -> (text: String)
        ensures
            text@ == shown_trustee(self@),
    {
        match self {
            Trustee::Sid(sid) => sid.clone(),
            Trustee::Unreadable => "<object ACE: trustee unreadable>".to_owned(),
        }
    }
}

/// The text that names a trustee in a refusal.
pub open spec fn shown_trustee(sid: Option<Seq<char>>) -> Seq<char> {
    match sid {
        Some(s) => s,
        None => "<object ACE: trustee unreadable>"@,
    }
}

/// One access-control entry, reduced to what the decision depends on.
#[derive(Debug, Clone, PartialEq, Eq)]
pub struct Ace {
    /// Allow, deny, or neither.
    pub kind: AceKind,
    /// Who the entry names.
    pub trustee: Trustee,
    /// The access mask.
    pub mask: u32,
    /// The entry grants nothing on the object itself.
    pub inherit_only: bool,
    /// Every file created in this directory inherits the entry.
    pub object_inherit: bool,
}

/// What an [`Ace`] says.
pub struct AceView {
    pub kind: AceKind,
    pub sid: Option<Seq<char>>,
    pub mask: u32,
    pub inherit_only: bool,
    pub object_inherit: bool,
}

impl View for Ace {
    type V = AceView;

    open spec fn view(&self) -> AceView {
        AceView {
            kind: self.kind,
            sid: self.trustee@,
            mask: self.mask,
            inherit_only: self.inherit_only,
            object_inherit: self.object_inherit,
        }
    }
}

impl Ace {
    /// An entry allowing `mask` to `sid` on the object itself.
    pub fn allow(sid: &str, mask: u32) -> (ace: Self)
        ensures
            ace@ == (AceView {
                kind: AceKind::Allow,
                sid: Some(sid@),
                mask,
                inherit_only: false,
                object_inherit: false,
            }),
    {
        Ace {
            kind: AceKind::Allow,
            trustee: Trustee::Sid(sid.to_owned()),
            mask,
            inherit_only: false,
            object_inherit: false,
        }
    }

    /// An entry allowing `mask` to `sid` on the files created in the directory and not on the
    /// directory itself.
    pub fn allow_files_only(sid: &str, mask: u32) -> (ace: Self)
        ensures
            ace@ == (AceView {
                kind: AceKind::Allow,
                sid: Some(sid@),
                mask,
                inherit_only: true,
                object_inherit: true,
            }),
    {
        Ace {
            kind: AceKind::Allow,
            trustee: Trustee::Sid(sid.to_owned()),
            mask,
            inherit_only: true,
            object_inherit: true,
        }
    }

    /// An entry denying `mask` to `sid` on the object itself.
    pub fn deny(sid: &str, mask: u32) -> (ace: Self)
        ensures
            ace@ == (AceView {
                kind: AceKind::Deny,
                sid: Some(sid@),
                mask,
                inherit_only: false,
                object_inherit: false,
            }),
    {
        Ace {
            kind: AceKind::Deny,
            trustee: Trustee::Sid(sid.to_owned()),
            mask,
            inherit_only: false,
            object_inherit: false,
        }
    }
}

/// A discretionary access-control list as read from a security descriptor.
///
/// [`Dacl::Absent`] is not [`Dacl::Present`] with no entries: a missing DACL grants everyone full
/// control, an empty one grants nobody anything.
#[derive(Debug, Clone, PartialEq, Eq)]
pub enum Dacl {
    /// No DACL on the descriptor.
    Absent,
    /// A DACL with these entries, possibly none.
    Present(Vec<Ace>),
}

impl View for Dacl {
    type V = Option<Seq<AceView>>;

    open spec fn view(&self) -> Option<Seq<AceView>> {
        match *self {
            Dacl::Absent => None,
            Dacl::Present(entries) => Some(ace_views(entries@)),
        }
    }
}

/// The views of a sequence of entries, in order.
pub open spec fn ace_views(entries: Seq<Ace>) -> Seq<AceView> {
    Seq::new(entries.len(), |i: int| entries[i]@)
}

/// What a DACL says about non-privileged write access.
#[derive(Debug, Clone, PartialEq, Eq)]
pub enum DaclVerdict {
    /// Every write-equivalent grant belongs to a privileged principal.
    PrivilegedWriteOnly,
    /// A non-privileged principal holds write-equivalent access.
    UnprivilegedWrite {
        /// The offending trustee, for the refusal message.
        sid: String,
    },
}

impl View for DaclVerdict {
    /// The offending trustee, if there is one.
    type V = Option<Seq<char>>;

    open spec fn view(&self) -> Option<Seq<char>> {
        match *self {
            DaclVerdict::PrivilegedWriteOnly => None,
            DaclVerdict::UnprivilegedWrite { sid } => Some(sid@),
        }
    }
}

// ------------------------------------------------------------------ the rule

/// Whether an entry applies to the object judged: the directory itself, or the files created in it.
pub open spec fn applies(ace: AceView, files: bool) -> bool {
    if files {
        ace.object_inherit
    } else {
        !ace.inherit_only
    }
}

/// The account and group SIDs that are administrator-equivalent in every domain: a domain
/// identifier followed by the identifier of `Administrator`, `Domain Admins`, `Schema Admins` or
/// `Enterprise Admins`.
pub open spec fn is_administrator(sid: Seq<char>) -> bool {
    let tail = sid.skip(sid.len() - 4);
    &&& sid.len() > "S-1-5-21-"@.len() + 4
    &&& stands_at(sid, "S-1-5-21-"@, 0)
    &&& (tail == "-500"@ || tail == "-512"@ || tail == "-518"@ || tail == "-519"@)
}

/// Whether `sid` names a principal whose write access to a privileged root is expected: Local
/// System, Administrators, the (already verified) owner, TrustedInstaller, or an administrator
/// account.
pub open spec fn is_privileged(sid: Option<Seq<char>>) -> bool {
    match sid {
        Some(s) => {
            ||| s == "S-1-5-18"@
            ||| s == "S-1-5-32-544"@
            ||| s == "S-1-3-0"@
            ||| s == "S-1-3-4"@
            ||| s == "S-1-5-80-956008885-3418522649-1831038044-1853292631-2271478464"@
            ||| is_administrator(s)
        },
        None => false,
    }
}

/// Whether the DENY `ace` is reached by every requester who could use a grant to `sid`: it names
/// the same principal, or it names `Everyone` and a token holding `sid` holds `Everyone` too.
pub open spec fn takes_from(ace: AceView, sid: Seq<char>, files: bool) -> bool {
    &&& ace.kind == AceKind::Deny
    &&& applies(ace, files)
    &&& ace.sid is Some
    &&& (ace.sid->0 == sid || (ace.sid->0 == "S-1-1-0"@ && sid != "S-1-5-7"@))
}

/// Every right that the entries of `preceding` take away from a grant to `sid`. Nothing is taken
/// from a trustee that cannot be named.
pub open spec fn denied_mask(preceding: Seq<AceView>, sid: Option<Seq<char>>, files: bool) -> u32
    decreases preceding.len(),
{
    if preceding.len() == 0 || sid is None {
        0
    } else if takes_from(preceding.last(), sid->0, files) {
        denied_mask(preceding.drop_last(), sid, files) | preceding.last().mask
    } else {
        denied_mask(preceding.drop_last(), sid, files)
    }
}

/// Whether entry `i` leaves a non-privileged principal with write-equivalent access.
pub open spec fn is_finding(entries: Seq<AceView>, i: int, files: bool) -> bool {
    &&& entries[i].kind == AceKind::Allow
    &&& applies(entries[i], files)
    &&& !is_privileged(entries[i].sid)
    &&& entries[i].mask & WRITE_EQUIVALENT & !denied_mask(entries.take(i), entries[i].sid, files)
        != 0
}

/// The trustee of the first finding at or after `i`.
pub open spec fn first_finding(entries: Seq<AceView>, i: int, files: bool) -> Option<Seq<char>>
    decreases entries.len() - i,
{
    if i < 0 || i >= entries.len() {
        None
    } else if is_finding(entries, i, files) {
        Some(shown_trustee(entries[i].sid))
    } else {
        first_finding(entries, i + 1, files)
    }
}

/// The verdict on a DACL: the offending trustee, if there is one.
pub open spec fn verdict(dacl: Option<Seq<AceView>>, files: bool) -> Option<Seq<char>> {
    match dacl {
        None => Some("<null DACL: every principal has full control>"@),
        Some(entries) => first_finding(entries, 0, files),
    }
}

// ------------------------------------------------------------------ laws

/// There is a verdict against a present DACL exactly when one of its entries is a finding.
pub proof fn a_verdict_needs_a_finding(entries: Seq<AceView>, files: bool)
    ensures
        verdict(Some(entries), files) is Some <==> exists|i: int|
            0 <= i < entries.len() && #[trigger] is_finding(entries, i, files),
{
    lemma_first_finding(entries, 0, files);
}

/// A missing DACL is a finding, and an empty one is not.
pub proof fn absent_is_not_empty(files: bool)
    ensures
        verdict(None, files) is Some,
        verdict(Some(Seq::empty()), files) is None,
{
}

/// Entries that follow a finding cannot silence it: in particular a DENY placed after the grant.
pub proof fn later_entries_excuse_nothing(entries: Seq<AceView>, tail: Seq<AceView>, files: bool)
    requires
        verdict(Some(entries), files) is Some,
    ensures
        verdict(Some(entries + tail), files) == verdict(Some(entries), files),
{
    lemma_first_finding_extends(entries, tail, 0, files);
}

/// A grant of a write-equivalent right to a trustee that cannot be named is a finding, whatever
/// stands before it.
pub proof fn an_unnameable_grant_is_a_finding(entries: Seq<AceView>, i: int, files: bool)
    requires
        0 <= i < entries.len(),
        entries[i].kind == AceKind::Allow,
        entries[i].sid is None,
        applies(entries[i], files),
        entries[i].mask & WRITE_EQUIVALENT != 0,
    ensures
        is_finding(entries, i, files),
        verdict(Some(entries), files) is Some,
{
    let m = entries[i].mask;
    let w = WRITE_EQUIVALENT;
    assert(m & w & !0u32 == m & w) by (bit_vector);
    assert(denied_mask(entries.take(i), entries[i].sid, files) == 0);
    a_verdict_needs_a_finding(entries, files);
}

/// A grant is excused by an earlier DENY of every write-equivalent right to the same principal,
/// and by one to `Everyone` unless the grant is to `ANONYMOUS LOGON`.
pub proof fn an_earlier_full_deny_excuses(entries: Seq<AceView>, k: int, i: int, files: bool)
    requires
        0 <= k < i < entries.len(),
        entries[i].sid is Some,
        takes_from(entries[k], entries[i].sid->0, files),
        entries[k].mask & WRITE_EQUIVALENT == WRITE_EQUIVALENT,
    ensures
        !is_finding(entries, i, files),
{
    lemma_denied_covers(entries.take(i), entries[i].sid, files, k);
    let m = entries[i].mask;
    let w = WRITE_EQUIVALENT;
    let d = denied_mask(entries.take(i), entries[i].sid, files);
    let e = entries[k].mask;
    assert(m & w & !d == 0) by (bit_vector)
        requires
            d & e == e,
            e & w == w,
    ;
}

/// A DACL without an applicable grant to a non-privileged principal draws no finding: denials,
/// audit entries and grants to privileged principals are never findings.
pub proof fn only_unprivileged_grants_are_findings(entries: Seq<AceView>, files: bool)
    requires
        forall|i: int|
            0 <= i < entries.len() ==> (#[trigger] entries[i]).kind != AceKind::Allow || !applies(
                entries[i],
                files,
            ) || is_privileged(entries[i].sid),
    ensures
        verdict(Some(entries), files) is None,
{
    a_verdict_needs_a_finding(entries, files);
}

/// An entry that does not apply to the object judged has no part in the judgment: taking it out
/// leaves the verdict as it is.
pub proof fn an_entry_that_does_not_apply_changes_nothing(
    entries: Seq<AceView>,
    k: int,
    files: bool,
)
    requires
        0 <= k < entries.len(),
        !applies(entries[k], files),
    ensures
        verdict(Some(entries.remove(k)), files) == verdict(Some(entries), files),
{
    lemma_remove_scan(entries, k, 0, files);
}

proof fn lemma_first_finding(entries: Seq<AceView>, i: int, files: bool)
    requires
        0 <= i <= entries.len(),
    ensures
        first_finding(entries, i, files) is Some <==> exists|j: int|
            i <= j < entries.len() && #[trigger] is_finding(entries, j, files),
    decreases entries.len() - i,
{
    if i < entries.len() {
        lemma_first_finding(entries, i + 1, files);
        if first_finding(entries, i, files) is Some && !is_finding(entries, i, files) {
            let j: int = choose|j: int|
                i + 1 <= j < entries.len() && #[trigger] is_finding(entries, j, files);
            assert(is_finding(entries, j, files));
        }
    }
}

proof fn lemma_first_finding_extends(
    entries: Seq<AceView>,
    tail: Seq<AceView>,
    i: int,
    files: bool,
)
    requires
        0 <= i,
        first_finding(entries, i, files) is Some,
    ensures
        first_finding(entries + tail, i, files) == first_finding(entries, i, files),
    decreases entries.len() - i,
{
    if i < entries.len() {
        assert((entries + tail).take(i) =~= entries.take(i));
        assert((entries + tail)[i] == entries[i]);
        if !is_finding(entries, i, files) {
            lemma_first_finding_extends(entries, tail, i + 1, files);
        }
    }
}

proof fn lemma_denied_covers(
    preceding: Seq<AceView>,
    sid: Option<Seq<char>>,
    files: bool,
    k: int,
)
    requires
        0 <= k < preceding.len(),
        sid is Some,
        takes_from(preceding[k], sid->0, files),
    ensures
        denied_mask(preceding, sid, files) & preceding[k].mask == preceding[k].mask,
    decreases preceding.len(),
{
    let rest = denied_mask(preceding.drop_last(), sid, files);
    let e = preceding[k].mask;
    let last = preceding.last().mask;
    if k == preceding.len() - 1 {
        assert((rest | e) & e == e) by (bit_vector);
    } else {
        lemma_denied_covers(preceding.drop_last(), sid, files, k);
        assert(preceding.drop_last()[k] == preceding[k]);
        assert((rest | last) & e == e) by (bit_vector)
            requires
                rest & e == e,
        ;
    }
}

proof fn lemma_denied_remove(s: Seq<AceView>, sid: Option<Seq<char>>, files: bool, k: int)
    requires
        0 <= k < s.len(),
        !applies(s[k], files),
    ensures
        denied_mask(s.remove(k), sid, files) == denied_mask(s, sid, files),
    decreases s.len(),
{
    if k == s.len() - 1 {
        assert(s.remove(k) =~= s.drop_last());
    } else {
        lemma_denied_remove(s.drop_last(), sid, files, k);
        assert(s.remove(k).drop_last() =~= s.drop_last().remove(k));
        assert(s.remove(k).last() == s.last());
    }
}

proof fn lemma_remove_finding(entries: Seq<AceView>, k: int, i: int, files: bool)
    requires
        0 <= k < entries.len(),
        0 <= i < entries.len() - 1,
        !applies(entries[k], files),
    ensures
        ({
            let j: int = if i < k {
                i
            } else {
                i + 1
            };
            &&& is_finding(entries.remove(k), i, files) == is_finding(entries, j, files)
            &&& entries.remove(k)[i] == entries[j]
        }),
{
    let fewer = entries.remove(k);
    if i < k {
        assert(fewer.take(i) =~= entries.take(i));
    } else {
        assert(fewer.take(i) =~= entries.take(i + 1).remove(k));
        lemma_denied_remove(entries.take(i + 1), entries[i + 1].sid, files, k);
    }
}

proof fn lemma_remove_scan(entries: Seq<AceView>, k: int, i: int, files: bool)
    requires
        0 <= k < entries.len(),
        0 <= i <= entries.len() - 1,
        !applies(entries[k], files),
    ensures
        first_finding(entries.remove(k), i, files) == first_finding(
            entries,
            if i <= k {
                i
            } else {
                i + 1
            },
            files,
        ),
    decreases entries.len() - i,
{
    let fewer = entries.remove(k);
    if i < fewer.len() {
        lemma_remove_finding(entries, k, i, files);
        lemma_remove_scan(entries, k, i + 1, files);
        if i == k {
            assert(!is_finding(entries, k, files));
            assert(first_finding(entries, k, files) == first_finding(entries, k + 1, files));
        }
    } else if i == k {
        assert(!is_finding(entries, k, files));
        assert(first_finding(entries, k + 1, files) is None);
    }
}

// ------------------------------------------------------------------ judging

/// Judge a DACL: does any non-privileged principal hold write-equivalent access to this object?
pub fn judge(dacl: &Dacl) -> (v: DaclVerdict)
    ensures
        v@ == verdict(dacl@, false),
{
    judge_grants(dacl, false)
}

/// Judge the DACL that a directory hands to the files created in it: does any non-privileged
/// principal inherit write-equivalent access to them?
///
/// A different question from [`judge`]: an entry that applies to children only grants nothing on
/// the directory, and every file created there still carries it.
pub fn judge_files_created_in(dacl: &Dacl) -> (v: DaclVerdict)
    ensures
        v@ == verdict(dacl@, true),
{
    judge_grants(dacl, true)
}

/// Both judgements over one walk, differing only in which entries apply.
fn judge_grants(dacl: &Dacl, files: bool) -> (v: DaclVerdict)
    ensures
        v@ == verdict(dacl@, files),
{
    let entries: &Vec<Ace> = match dacl {
        Dacl::Absent => {
            return DaclVerdict::UnprivilegedWrite {
                sid: "<null DACL: every principal has full control>".to_owned(),
            };
        },
        Dacl::Present(entries) => entries,
    };
    let mut i: usize = 0;
    while i < entries.len()
        invariant
            i <= entries@.len(),
            dacl@ == Some(ace_views(entries@)),
            first_finding(ace_views(entries@), 0, files) == first_finding(
                ace_views(entries@),
                i as int,
                files,
            ),
        decreases entries@.len() - i,
    {
        let ace: &Ace = &entries[i];
        assert(ace_views(entries@)[i as int] == ace@);
        if ace.kind == AceKind::Allow && ace_applies(ace, files) && !is_privileged_trustee(
            &ace.trustee,
        ) {
            let denied: u32 = denied_mask_for(entries, i, &ace.trustee, files);
            if ace.mask & WRITE_EQUIVALENT & !denied != 0 {
                assert(is_finding(ace_views(entries@), i as int, files));
                return DaclVerdict::UnprivilegedWrite { sid: ace.trustee.shown() };
            }
        }
        i = i + 1;
    }
    DaclVerdict::PrivilegedWriteOnly
}

/// Computes [`applies`].
fn ace_applies(ace: &Ace, files: bool) -> (r: bool)
    ensures
        r == applies(ace@, files),
{
    if files {
        ace.object_inherit
    } else {
        !ace.inherit_only
    }
}

/// Every right denied to `granted` by an applicable DENY among the first `n` entries, the ones
/// that Windows evaluates before the grant.
fn denied_mask_for(entries: &Vec<Ace>, n: usize, granted: &Trustee, files: bool) -> (denied: u32)
    requires
        n <= entries@.len(),
    ensures
        denied == denied_mask(ace_views(entries@).take(n as int), granted@, files),
{
    let sid: &str = match granted.sid() {
        Some(s) => s,
        None => return 0,
    };
    let reached: bool = an_everyone_deny_is_reached_by(sid);
    let mut denied: u32 = 0;
    let mut i: usize = 0;
    while i < n
        invariant
            i <= n <= entries@.len(),
            granted@ == Some(sid@),
            reached == (sid@ != "S-1-5-7"@),
            denied == denied_mask(ace_views(entries@).take(i as int), granted@, files),
        decreases n - i,
    {
        let ace: &Ace = &entries[i];
        let takes: bool = ace.kind == AceKind::Deny && ace_applies(ace, files) && match ace.trustee.sid() {
            Some(name) => same_text(name, sid) || (same_text(name, "S-1-1-0") && reached),
            None => false,
        };
        proof {
            let upto = ace_views(entries@).take(i + 1);
            assert(upto.drop_last() =~= ace_views(entries@).take(i as int));
            assert(upto.last() == ace@);
        }
        if takes {
            denied = denied | ace.mask;
        }
        i = i + 1;
    }
    denied
}

/// Whether a DENY to `Everyone` is reached by every requester who could use a grant to
/// `granted_sid`.
///
/// The question is about tokens: does every token that holds the granted SID hold `Everyone` too?
/// An anonymous token is the one that can omit it.
pub fn an_everyone_deny_is_reached_by(granted_sid: &str) -> (r: bool)
    ensures
        r == (granted_sid@ != "S-1-5-7"@),
{
    !same_text(granted_sid, "S-1-5-7")
}

/// Whether a trustee is expected to hold write access to a privileged root. One that cannot be
/// named never is.
fn is_privileged_trustee(trustee: &Trustee) -> (r: bool)
    ensures
        r == is_privileged(trustee@),
{
    match trustee.sid() {
        Some(sid) => same_text(sid, "S-1-5-18") || same_text(sid, "S-1-5-32-544") || same_text(
            sid,
            "S-1-3-0",
        ) || same_text(sid, "S-1-3-4") || same_text(
            sid,
            "S-1-5-80-956008885-3418522649-1831038044-1853292631-2271478464",
        ) || is_administrator_account(sid),
        None => false,
    }
}

/// Whether `sid` is one of the domain-relative accounts or groups that are administrator-equivalent
/// by definition. An ordinary local account is not.
pub fn is_administrator_account(sid: &str) -> (r: bool)
    ensures
        r == is_administrator(sid@),
{
    let chars: Vec<char> = chars_of(sid);
    let prefix: Vec<char> = chars_of("S-1-5-21-");
    let n: usize = chars.len();
    if n < 4 || n - 4 <= prefix.len() || !stands(&chars, &prefix, 0) {
        return false;
    }
    let tail: String = crate::text::text_range(&chars, n - 4, n);
    assert(tail@ =~= sid@.skip(n - 4));
    same_text(tail.as_str(), "-500") || same_text(tail.as_str(), "-512") || same_text(
        tail.as_str(),
        "-518",
    ) || same_text(tail.as_str(), "-519")
}

// ------------------------------------------------------------------ reading entries

/// One entry of an access-control list as it was found on the descriptor.
#[derive(Debug, Clone, PartialEq, Eq)]
pub enum RawAce {
    /// The entry could not be read at all.
    Unread,
    /// The entry's header was read.
    Read {
        /// The entry's type byte.
        ace_type: u8,
        /// The entry's flags.
        flags: u8,
        /// The access mask; meaningful where [`has_basic_layout`] holds of the type.
        mask: u32,
        /// The trustee's string SID, if it could be rendered; read only where
        /// [`has_basic_layout`] holds of the type.
        sid: Option<String>,
    },
}

/// Whether an entry of this type lays out its mask and trustee as the basic grant does, so that
/// the trustee can be read: a plain or conditional grant, or a plain denial.
pub open spec fn basic_layout(ace_type: u8) -> bool {
    ace_type == 0 || ace_type == 9 || ace_type == 1
}

/// Whether an entry of this type is a grant whose trustee hides behind object-type identifiers.
pub open spec fn object_grant(ace_type: u8) -> bool {
    ace_type == 5 || ace_type == 11
}

/// Computes [`basic_layout`].
pub fn has_basic_layout(ace_type: u8) -> (r: bool)
    ensures
        r == basic_layout(ace_type),
{
    ace_type == 0 || ace_type == 9 || ace_type == 1
}

/// A grant of every right to a trustee that cannot be named, on the files created in the
/// directory and, unless it is inherit-only, on the directory.
pub open spec fn assumed_grant(inherit_only: bool) -> AceView {
    AceView {
        kind: AceKind::Allow,
        sid: None,
        mask: u32::MAX,
        inherit_only,
        object_inherit: true,
    }
}

/// What an entry contributes to the list that is judged; a denial whose trustee cannot be named
/// contributes nothing.
pub open spec fn decoded(raw: RawAce) -> Option<AceView> {
    match raw {
        RawAce::Unread => Some(assumed_grant(false)),
        RawAce::Read { ace_type, flags, mask, sid } => {
            let inherit_only = flags & INHERIT_ONLY_ACE != 0;
            let object_inherit = flags & OBJECT_INHERIT_ACE != 0;
            if object_grant(ace_type) {
                Some(assumed_grant(inherit_only))
            } else if !basic_layout(ace_type) {
                Some(
                    AceView {
                        kind: AceKind::Other,
                        sid: None,
                        mask: 0,
                        inherit_only,
                        object_inherit,
                    },
                )
            } else {
                let kind = if ace_type == 1 {
                    AceKind::Deny
                } else {
                    AceKind::Allow
                };
                match sid {
                    Some(s) => Some(
                        AceView { kind, sid: Some(s@), mask, inherit_only, object_inherit },
                    ),
                    None => if kind == AceKind::Allow {
                        Some(assumed_grant(inherit_only))
                    } else {
                        None
                    },
                }
            }
        },
    }
}

/// What a list of entries contributes, in order.
pub open spec fn decoded_all(raw: Seq<RawAce>) -> Seq<AceView>
    decreases raw.len(),
{
    if raw.len() == 0 {
        Seq::empty()
    } else {
        match decoded(raw.last()) {
            Some(ace) => decoded_all(raw.drop_last()).push(ace),
            None => decoded_all(raw.drop_last()),
        }
    }
}

/// An entry that cannot be read is never an all-clear: a list that holds one draws a verdict for
/// the directory and for the files created in it.
pub proof fn an_unread_entry_is_a_finding(raw: Seq<RawAce>, k: int, files: bool)
    requires
        0 <= k < raw.len(),
        raw[k] is Unread,
    ensures
        verdict(Some(decoded_all(raw)), files) is Some,
{
    lemma_decoded_holds(raw, k);
    let entries = decoded_all(raw);
    let i: int = choose|i: int| 0 <= i < entries.len() && entries[i] == assumed_grant(false);
    assert(u32::MAX & WRITE_EQUIVALENT != 0) by (bit_vector);
    an_unnameable_grant_is_a_finding(entries, i, files);
}

proof fn lemma_decoded_holds(raw: Seq<RawAce>, k: int)
    requires
        0 <= k < raw.len(),
        decoded(raw[k]) is Some,
    ensures
        exists|i: int|
            0 <= i < decoded_all(raw).len() && #[trigger] decoded_all(raw)[i] == decoded(raw[k])->0,
    decreases raw.len(),
{
    let before = decoded_all(raw.drop_last());
    if k == raw.len() - 1 {
        assert(decoded_all(raw)[before.len() as int] == decoded(raw[k])->0);
    } else {
        lemma_decoded_holds(raw.drop_last(), k);
        let i: int = choose|i: int|
            0 <= i < before.len() && #[trigger] before[i] == decoded(raw.drop_last()[k])->0;
        assert(decoded_all(raw)[i] == before[i]);
    }
}

/// Turn the entries found on a descriptor into the list that is judged.
///
/// The walk always completes: an entry that cannot be decoded becomes a grant of every right to a
/// trustee that can never be privileged.
pub fn entries(raw: &Vec<RawAce>) -> (out: Vec<Ace>)
    ensures
        ace_views(out@) == decoded_all(raw@),
{
    let mut out: Vec<Ace> = Vec::new();
    let mut i: usize = 0;
    assert(ace_views(out@) =~= decoded_all(raw@.take(0)));
    while i < raw.len()
        invariant
            i <= raw@.len(),
            ace_views(out@) == decoded_all(raw@.take(i as int)),
        decreases raw@.len() - i,
    {
        let ghost before = out@;
        proof {
            assert(raw@.take(i + 1).drop_last() =~= raw@.take(i as int));
            assert(raw@.take(i + 1).last() == raw@[i as int]);
        }
        match decode(&raw[i]) {
            Some(ace) => {
                out.push(ace);
                assert(ace_views(out@) =~= ace_views(before).push(ace@));
            },
            None => {},
        }
        i = i + 1;
    }
    assert(raw@.take(i as int) =~= raw@);
    out
}

/// Computes [`decoded`].
fn decode(raw: &RawAce) -> (ace: Option<Ace>)
    ensures
        match ace {
            Some(a) => decoded(*raw) == Some(a@),
            None => decoded(*raw) is None,
        },
{
    match raw {
        RawAce::Unread => Some(unreadable_grant(false)),
        RawAce::Read { ace_type, flags, mask, sid } => {
            let inherit_only: bool = *flags & INHERIT_ONLY_ACE != 0;
            let object_inherit: bool = *flags & OBJECT_INHERIT_ACE != 0;
            if *ace_type == 5 || *ace_type == 11 {
                return Some(unreadable_grant(inherit_only));
            }
            if !has_basic_layout(*ace_type) {
                return Some(
                    Ace {
                        kind: AceKind::Other,
                        trustee: Trustee::Unreadable,
                        mask: 0,
                        inherit_only,
                        object_inherit,
                    },
                );
            }
            let kind: AceKind = if *ace_type == 1 {
                AceKind::Deny
            } else {
                AceKind::Allow
            };
            match sid {
                Some(name) => Some(
                    Ace {
                        kind,
                        trustee: Trustee::Sid(name.clone()),
                        mask: *mask,
                        inherit_only,
                        object_inherit,
                    },
                ),
                None => if kind == AceKind::Allow {
                    Some(unreadable_grant(inherit_only))
                } else {
                    None
                },
            }
        },
    }
}

/// Computes [`assumed_grant`].
fn unreadable_grant(inherit_only: bool) -> (ace: Ace)
    ensures
        ace@ == assumed_grant(inherit_only),
{
    Ace {
        kind: AceKind::Allow,
        trustee: Trustee::Unreadable,
        mask: u32::MAX,
        inherit_only,
        object_inherit: true,
    }
}

// ------------------------------------------------------------------ laws on principals and rights

/// Of the principals of a domain, whichever it is, those with the relative identifiers 500
/// (`Administrator`), 512 (`Domain Admins`), 518 (`Schema Admins`) and 519 (`Enterprise Admins`) are
/// privileged, and no other: not `Domain Users` (513), not `Domain Guests` (514), not `Domain Computers`
/// (515), and no account that was created in it (1000 and above).
#[verifier::spinoff_prover]
#[verifier::rlimit(40)]
pub proof fn a_domain_principal_is_privileged_by_its_identifier(domain: Seq<char>, rid: nat)
    requires
        domain.len() > 0,
    ensures
        is_privileged(Some("S-1-5-21-"@ + domain + "-"@ + decimal(rid))) <==> rid == 500 || rid
            == 512 || rid == 518 || rid == 519,
{
    reveal_strlit("S-1-5-21-");
    reveal_strlit("-");
    let digits = decimal(rid);
    let sid = "S-1-5-21-"@ + domain + "-"@ + digits;
    let n: int = sid.len() as int;
    let tail = sid.skip(n - 4);
    let d: int = digits.len() as int;
    crate::text::a_decimal_is_a_word_of_digits(rid);
    lemma_fixed_sids();
    assert(sid.subrange(0, 9) =~= "S-1-5-21-"@);
    assert(sid[6] == '2');
    assert forall|i: int| 0 <= i < d implies sid[n - d + i] == digits[i] by {}
    assert(sid[n - d - 1] == '-');
    lemma_three_digits(rid);
    reveal_strlit("-500");
    reveal_strlit("-512");
    reveal_strlit("-518");
    reveal_strlit("-519");
    if d == 3 {
        assert(tail =~= seq!['-', digits[0], digits[1], digits[2]]);
        assert(tail[0] == '-' && tail[1] == digits[0] && tail[2] == digits[1] && tail[3]
            == digits[2]);
        assert("-500"@ =~= seq!['-', '5', '0', '0']);
        assert("-512"@ =~= seq!['-', '5', '1', '2']);
        assert("-518"@ =~= seq!['-', '5', '1', '8']);
        assert("-519"@ =~= seq!['-', '5', '1', '9']);
    } else if d > 3 {
        assert(tail[0] == digits[d - 4]);
        assert(tail[0] != '-');
        assert("-500"@[0] == '-' && "-512"@[0] == '-' && "-518"@[0] == '-' && "-519"@[0] == '-');
    } else {
        assert(tail[3 - d] == '-');
        assert(3 - d == 1 || 3 - d == 2);
        assert("-500"@[1] == '5' && "-512"@[1] == '5' && "-518"@[1] == '5' && "-519"@[1] == '5');
        assert("-500"@[2] == '0' && "-512"@[2] == '1' && "-518"@[2] == '1' && "-519"@[2] == '1');
    }
}

proof fn lemma_three_digits(rid: nat)
    ensures
        decimal(rid).len() == 3 <==> 100 <= rid < 1_000,
        100 <= rid < 1_000 ==> decimal(rid) == seq![
            digit_char(rid / 100),
            digit_char((rid / 10) % 10),
            digit_char(rid % 10),
        ],
        forall|a: nat, b: nat|
            a < 10 && b < 10 && #[trigger] digit_char(a) == #[trigger] digit_char(b) ==> a == b,
        digit_char(0) == '0',
        digit_char(1) == '1',
        digit_char(2) == '2',
        digit_char(5) == '5',
        digit_char(8) == '8',
        digit_char(9) == '9',
{
    reveal_with_fuel(decimal, 4);
    if rid < 10 {
    } else if rid < 100 {
        assert(rid / 10 < 10);
    } else if rid < 1_000 {
        assert(rid / 10 / 10 == rid / 100);
        assert(rid / 100 < 10);
        assert(decimal(rid) =~= seq![
            digit_char(rid / 100),
            digit_char((rid / 10) % 10),
            digit_char(rid % 10),
        ]);
    } else {
        let (a, b, c) = (rid / 10, rid / 10 / 10, rid / 10 / 10 / 10);
        assert(a >= 100 && b >= 10 && c >= 1);
        crate::text::a_decimal_is_a_word_of_digits(c);
        assert(decimal(b) == decimal(c).push(digit_char(b % 10)));
        assert(decimal(a) == decimal(b).push(digit_char(a % 10)));
        assert(decimal(rid) == decimal(a).push(digit_char(rid % 10)));
    }
}

proof fn lemma_fixed_sids()
    ensures
        "S-1-5-18"@.len() == 8,
        "S-1-5-32-544"@.len() == 12,
        "S-1-5-32-544"@[6] == '3',
        "S-1-3-0"@.len() == 7,
        "S-1-3-4"@.len() == 7,
        "S-1-5-80-956008885-3418522649-1831038044-1853292631-2271478464"@[6] == '8',
        "S-1-5-80-956008885-3418522649-1831038044-1853292631-2271478464"@.len() > 6,
{
    reveal_strlit("S-1-5-18");
    reveal_strlit("S-1-5-32-544");
    reveal_strlit("S-1-3-0");
    reveal_strlit("S-1-3-4");
    reveal_strlit("S-1-5-80-956008885-3418522649-1831038044-1853292631-2271478464");
}

/// Outside the domains, those who are expected to write a privileged root are Local System, the
/// Administrators, the owner by either of its two names, and TrustedInstaller; nobody else, and nobody
/// whose identity cannot be read.
pub proof fn outside_the_domains_five_principals_are_privileged(sid: Seq<char>)
    requires
        !(sid.len() >= 9 && sid.take(9) == "S-1-5-21-"@),
    ensures
        is_privileged(Some(sid)) <==> sid == "S-1-5-18"@ || sid == "S-1-5-32-544"@ || sid
            == "S-1-3-0"@ || sid == "S-1-3-4"@ || sid
            == "S-1-5-80-956008885-3418522649-1831038044-1853292631-2271478464"@,
        !is_privileged(None),
{
    reveal_strlit("S-1-5-21-");
    assert(stands_at(sid, "S-1-5-21-"@, 0) ==> sid.take(9) =~= "S-1-5-21-"@);
}

/// Whether the right is one of those with which a binary can be planted, replaced or removed: writing
/// data, adding a subdirectory, deleting a child, deleting, changing the list, taking ownership, and the
/// generic rights that hold them.
pub open spec fn is_write_right(right: u32) -> bool {
    ||| right == 0x2 || right == 0x4 || right == 0x40
    ||| right == 0x1_0000 || right == 0x4_0000 || right == 0x8_0000
    ||| right == 0x1000_0000 || right == 0x4000_0000
}

/// A right with which a binary can be planted is a finding where it is granted, on the object judged, to
/// a principal that is not privileged, and no entry before the grant takes it away: none that denies it,
/// on the object judged, to that principal or (but for `ANONYMOUS LOGON`) to `Everyone`.
pub proof fn a_write_right_of_an_ordinary_principal_is_a_finding(
    entries: Seq<AceView>,
    i: int,
    files: bool,
    right: u32,
)
    requires
        0 <= i < entries.len(),
        entries[i].kind == AceKind::Allow,
        if files {
            entries[i].object_inherit
        } else {
            !entries[i].inherit_only
        },
        !is_privileged(entries[i].sid),
        is_write_right(right),
        entries[i].mask & right != 0,
        forall|k: int|
            0 <= k < i && (#[trigger] entries[k]).kind == AceKind::Deny && (if files {
                entries[k].object_inherit
            } else {
                !entries[k].inherit_only
            }) && entries[k].sid is Some && entries[i].sid is Some && (entries[k].sid
                == entries[i].sid || (entries[k].sid->0 == "S-1-1-0"@ && entries[i].sid->0
                != "S-1-5-7"@)) ==> entries[k].mask & right == 0,
    ensures
        verdict(Some(entries), files) is Some,
        (forall|j: int| 0 <= j < i ==> !is_finding(entries, j, files)) ==> verdict(
            Some(entries),
            files,
        ) == Some(
            match entries[i].sid {
                Some(sid) => sid,
                None => "<object ACE: trustee unreadable>"@,
            },
        ),
{
    lemma_nothing_denied(entries, i, entries[i].sid, files, right, i);
    let m = entries[i].mask;
    let d = denied_mask(entries.take(i), entries[i].sid, files);
    let w = WRITE_EQUIVALENT;
    lemma_write_rights(right);
    assert(m & w & !d != 0) by (bit_vector)
        requires
            m & right != 0,
            right & w == right,
            d & right == 0,
    ;
    assert(is_finding(entries, i, files));
    a_verdict_needs_a_finding(entries, files);
    if forall|j: int| 0 <= j < i ==> !is_finding(entries, j, files) {
        lemma_scan_to(entries, 0, i, files);
    }
}

proof fn lemma_scan_to(entries: Seq<AceView>, i: int, k: int, files: bool)
    requires
        0 <= i <= k <= entries.len(),
        forall|j: int| i <= j < k ==> !is_finding(entries, j, files),
    ensures
        first_finding(entries, i, files) == first_finding(entries, k, files),
    decreases k - i,
{
    if i < k {
        lemma_scan_to(entries, i + 1, k, files);
    }
}

proof fn lemma_write_rights(right: u32)
    requires
        is_write_right(right),
    ensures
        right & WRITE_EQUIVALENT == right,
{
    let w = WRITE_EQUIVALENT;
    assert(right & (0x2u32 | 0x4u32 | 0x40u32 | 0x1_0000u32 | 0x4_0000u32 | 0x8_0000u32
        | 0x1000_0000u32 | 0x4000_0000u32) == right) by (bit_vector)
        requires
            right == 0x2 || right == 0x4 || right == 0x40 || right == 0x1_0000 || right == 0x4_0000
                || right == 0x8_0000 || right == 0x1000_0000 || right == 0x4000_0000,
    ;
}

proof fn lemma_nothing_denied(
    entries: Seq<AceView>,
    i: int,
    sid: Option<Seq<char>>,
    files: bool,
    right: u32,
    n: int,
)
    requires
        0 <= n <= i < entries.len(),
        sid == entries[i].sid,
        forall|k: int|
            0 <= k < i && sid is Some && takes_from(#[trigger] entries[k], sid->0, files)
                ==> entries[k].mask & right == 0,
    ensures
        denied_mask(entries.take(n), sid, files) & right == 0,
    decreases n,
{
    assert(0u32 & right == 0) by (bit_vector);
    if n > 0 && sid is Some {
        lemma_nothing_denied(entries, i, sid, files, right, n - 1);
        let upto = entries.take(n);
        assert(upto.drop_last() =~= entries.take(n - 1));
        assert(upto.last() == entries[n - 1]);
        let rest = denied_mask(entries.take(n - 1), sid, files);
        let last = entries[n - 1].mask;
        if takes_from(upto.last(), sid->0, files) {
            assert((rest | last) & right == 0) by (bit_vector)
                requires
                    rest & right == 0,
                    last & right == 0,
            ;
        }
    }
}

/// A list is clear where each grant that applies to the object judged is to a privileged principal,
/// holds no right with which a binary can be planted, or is taken back whole by an entry before it, to
/// the same principal or (but for `ANONYMOUS LOGON`) to `Everyone`.
#[verifier::rlimit(40)]
pub proof fn a_list_without_ordinary_write_rights_is_clear(entries: Seq<AceView>, files: bool)
    requires
        forall|i: int|
            0 <= i < entries.len() && (#[trigger] entries[i]).kind == AceKind::Allow && (if files {
                entries[i].object_inherit
            } else {
                !entries[i].inherit_only
            }) ==> is_privileged(entries[i].sid) || holds_no_write_right(entries[i].mask)
                || taken_back(entries, i, files),
    ensures
        verdict(Some(entries), files) is None,
{
    a_verdict_needs_a_finding(entries, files);
    assert forall|i: int| 0 <= i < entries.len() implies !is_finding(entries, i, files) by {
        if is_finding(entries, i, files) {
            let m = entries[i].mask;
            let d = denied_mask(entries.take(i), entries[i].sid, files);
            if holds_no_write_right(m) {
                assert(m & (0x2u32 | 0x4u32 | 0x40u32 | 0x1_0000u32 | 0x4_0000u32 | 0x8_0000u32
                    | 0x1000_0000u32 | 0x4000_0000u32) & !d == 0) by (bit_vector)
                    requires
                        m & 0x2 == 0,
                        m & 0x4 == 0,
                        m & 0x40 == 0,
                        m & 0x1_0000 == 0,
                        m & 0x4_0000 == 0,
                        m & 0x8_0000 == 0,
                        m & 0x1000_0000 == 0,
                        m & 0x4000_0000 == 0,
                ;
            } else {
                let k: int = choose|k: int|
                    0 <= k < i && (#[trigger] entries[k]).kind == AceKind::Deny && (if files {
                        entries[k].object_inherit
                    } else {
                        !entries[k].inherit_only
                    }) && entries[k].sid is Some && entries[i].sid is Some && (entries[k].sid
                        == entries[i].sid || (entries[k].sid->0 == "S-1-1-0"@ && entries[i].sid->0
                        != "S-1-5-7"@)) && entries[k].mask & entries[i].mask == entries[i].mask;
                assert(takes_from(entries[k], entries[i].sid->0, files));
                assert(entries.take(i)[k] == entries[k]);
                lemma_denied_covers(entries.take(i), entries[i].sid, files, k);
                let e = entries[k].mask;
                let w = WRITE_EQUIVALENT;
                assert(m & w & !d == 0) by (bit_vector)
                    requires
                        d & e == e,
                        e & m == m,
                ;
            }
        }
    }
}

/// Whether the mask holds none of the rights with which a binary can be planted.
pub open spec fn holds_no_write_right(mask: u32) -> bool {
    &&& mask & 0x2 == 0 && mask & 0x4 == 0 && mask & 0x40 == 0
    &&& mask & 0x1_0000 == 0 && mask & 0x4_0000 == 0 && mask & 0x8_0000 == 0
    &&& mask & 0x1000_0000 == 0 && mask & 0x4000_0000 == 0
}

/// Whether an entry before the grant `i` denies all that it grants.
pub open spec fn taken_back(entries: Seq<AceView>, i: int, files: bool) -> bool {
    exists|k: int|
        0 <= k < i && (#[trigger] entries[k]).kind == AceKind::Deny && (if files {
            entries[k].object_inherit
        } else {
            !entries[k].inherit_only
        }) && entries[k].sid is Some && entries[i].sid is Some && (entries[k].sid == entries[i].sid
            || (entries[k].sid->0 == "S-1-1-0"@ && entries[i].sid->0 != "S-1-5-7"@))
            && entries[k].mask & entries[i].mask == entries[i].mask
}

/// How an entry is read. Types 0 and 9 grant and type 1 denies, to the trustee and with the mask that
/// the entry holds; where a grant's trustee cannot be read, as of types 5 and 11 it never can, everything
/// is granted to somebody unknown; a denial to somebody unknown counts for nothing; other types neither
/// grant nor deny. The flag 8 keeps the entry off the directory, and the flag 1 hands it to the files
/// created there.
pub proof fn how_an_entry_is_read(ace_type: u8, flags: u8, mask: u32, sid: Option<String>)
    ensures
        ({
            let ace = decoded(RawAce::Read { ace_type, flags, mask, sid });
            let grants = ace_type == 0 || ace_type == 9;
            let below_only = flags & 8 != 0;
            let to_files = flags & 1 != 0;
            &&& (grants || ace_type == 1) && sid is Some ==> ace is Some && ace->0.mask == mask
                && ace->0.sid == Some(sid->0@) && ace->0.inherit_only == below_only
                && ace->0.object_inherit == to_files
            &&& grants && sid is Some ==> ace->0.kind == AceKind::Allow
            &&& ace_type == 1 && sid is Some ==> ace->0.kind == AceKind::Deny
            &&& ace_type == 1 && sid is None ==> ace is None
            &&& (grants && sid is None) || ace_type == 5 || ace_type == 11 ==> ace is Some
                && ace->0.kind == AceKind::Allow && ace->0.sid is None && ace->0.mask == 0xffff_ffff
                && ace->0.inherit_only == below_only && ace->0.object_inherit
            &&& ace_type != 0 && ace_type != 9 && ace_type != 1 && ace_type != 5 && ace_type != 11
                ==> ace is Some && ace->0.kind == AceKind::Other
        }),
{
}

/// The entries of two lists one after the other are read as those of the first and then those of the
/// second: none is dropped, repeated or moved.
pub proof fn entries_are_read_in_order(a: Seq<RawAce>, b: Seq<RawAce>, raw: RawAce)
    ensures
        decoded_all(a + b) == decoded_all(a) + decoded_all(b),
        decoded(raw) is Some ==> decoded_all(seq![raw]) == seq![decoded(raw)->0],
        decoded(raw) is None ==> decoded_all(seq![raw]) == Seq::<AceView>::empty(),
    decreases b.len(),
{
    assert(seq![raw].drop_last() =~= Seq::empty());
    assert(decoded_all(seq![raw].drop_last()) =~= Seq::empty());
    assert(decoded(raw) is Some ==> decoded_all(seq![raw]) =~= seq![decoded(raw)->0]);
    if b.len() == 0 {
        assert(a + b =~= a);
        assert(decoded_all(a) + decoded_all(b) =~= decoded_all(a));
    } else {
        entries_are_read_in_order(a, b.drop_last(), raw);
        assert((a + b).drop_last() =~= a + b.drop_last());
        assert((a + b).last() == b.last());
        assert(decoded_all(a + b) =~= decoded_all(a) + decoded_all(b));
    }
}

/// A privileged principal of a domain has a domain, and one of the four administrative identifiers
/// behind it.
pub proof fn a_privileged_domain_principal_is_an_administrator(sid: Seq<char>)
    requires
        sid.len() >= 9,
        sid.take(9) == "S-1-5-21-"@,
        is_privileged(Some(sid)),
    ensures
        sid.len() > 13,
        ({
            let tail = sid.skip(sid.len() - 4);
            tail == "-500"@ || tail == "-512"@ || tail == "-518"@ || tail == "-519"@
        }),
{
    reveal_strlit("S-1-5-21-");
    lemma_fixed_sids();
    assert(sid.take(9)[6] == sid[6]);
    assert(sid[6] == '2');
}

} // verus!
