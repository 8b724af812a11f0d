//! What a version probe finds and what is to be done about it.
//!
//! The decision itself is the one that the DIG installer ships, called from
//! [`dig_release_resolver`], so that a machine decides the same whichever tool asks.

use vstd::prelude::*;

use crate::text::{
    a_decimal_is_a_word_of_digits, decimal, decimal_is_read_back, is_blank, is_white, is_word, lemma_blank_has_no_words,
    lemma_split, pieces_are_read_back, split, the_words_of_a_text, the_words_of_two_texts, tokens, trimmed,
    trimming_takes_the_blanks_off, u64_written, with_separator,
};

verus! {

/// What a version probe found at a component's install destination.
#[derive(Debug, Clone, PartialEq, Eq)]
pub enum DetectedVersion {
    /// Nothing is installed there.
    Absent,
    /// A binary is there and reported this; empty where its version could not be read.
    Present(String),
}

impl View for DetectedVersion {
    type V = Option<Seq<char>>;

    open spec fn view(&self) -> Option<Seq<char>> {
        match *self {
            DetectedVersion::Absent => None,
            DetectedVersion::Present(raw) => Some(raw@),
        }
    }
}

/// What a run should do with a component.
#[derive(Debug, Clone, Copy, PartialEq, Eq, Structural)]
pub enum UpdateAction {
    /// Nothing was installed.
    Install,
    /// An older or unreadable version was installed.
    Update,
    /// The installed version is current or newer.
    Skip,
}

impl UpdateAction {
    /// The token for this action (`install`, `update`, `skip`).
    pub fn as_str(self) -> (token: &'static str)
        ensures
            token@ == action_token(self),
    {
        match self {
            UpdateAction::Install => "install",
            UpdateAction::Update => "update",
            UpdateAction::Skip => "skip",
        }
    }
}

/// The token for an action.
pub open spec fn action_token(action: UpdateAction) -> Seq<char> {
    match action {
        UpdateAction::Install => "install"@,
        UpdateAction::Update => "update"@,
        UpdateAction::Skip => "skip"@,
    }
}

/// A decision, with the line that describes it.
#[derive(Debug, Clone, PartialEq, Eq)]
pub struct UpdateDecision {
    /// What to do.
    pub action: UpdateAction,
    /// The decision and the version transition in words.
    pub summary: String,
}

/// The three numbers of a version `MAJOR.MINOR.PATCH`, with an optional leading `v`.
pub open spec fn release_version(s: Seq<char>) -> Option<(u64, u64, u64)> {
    let t = trimmed(s);
    let parts = split(
        if t.len() > 0 && t[0] == 'v' {
            t.skip(1)
        } else {
            t
        },
        '.',
    );
    if parts.len() == 3 {
        match (u64_written(parts[0]), u64_written(parts[1]), u64_written(parts[2])) {
            (Some(major), Some(minor), Some(patch)) => Some((major, minor, patch)),
            _ => None,
        }
    } else {
        None
    }
}

/// Whether the first version comes before the second.
pub open spec fn older(a: (u64, u64, u64), b: (u64, u64, u64)) -> bool {
    ||| a.0 < b.0
    ||| a.0 == b.0 && a.1 < b.1
    ||| a.0 == b.0 && a.1 == b.1 && a.2 < b.2
}

/// The word of an answer to `--version` that is taken as the version: the last of its first line,
/// or nothing.
pub open spec fn version_word(raw: Seq<char>) -> Seq<char> {
    let words = tokens(split(raw, '\n')[0]);
    if words.len() > 0 {
        words.last()
    } else {
        Seq::empty()
    }
}

/// A version as it is shown.
pub open spec fn shown_version(v: (u64, u64, u64)) -> Seq<char> {
    decimal(v.0 as nat) + "."@ + decimal(v.1 as nat) + "."@ + decimal(v.2 as nat)
}

/// The shared decision matrix: what to do about what was detected (`None` where nothing is
/// installed) when `latest` is the latest version, and the line that describes it.
///
/// Nothing installed is installed. An answer whose version and the latest version both read as
/// `MAJOR.MINOR.PATCH` is updated where it is older and left where it is not. Any other answer
/// cannot be shown to be current, and is updated.
#[verifier::opaque]
pub open spec fn resolver_decision(detected: Option<Seq<char>>, latest: Seq<char>) -> (
    UpdateAction,
    Seq<char>,
) {
    match detected {
        None => (UpdateAction::Install, "not installed → install v"@ + latest),
        Some(raw) => match (release_version(version_word(raw)), release_version(latest)) {
            (Some(installed), Some(wanted)) => if older(installed, wanted) {
                (
                    UpdateAction::Update,
                    "v"@ + shown_version(installed) + " → v"@ + latest + " (update)"@,
                )
            } else {
                (UpdateAction::Skip, "v"@ + shown_version(installed) + " (up to date)"@)
            },
            _ => (
                UpdateAction::Update,
                (if version_word(raw).len() == 0 {
                    "unknown version"@
                } else {
                    version_word(raw)
                }) + " → v"@ + latest
                    + " (update — installed version unreadable, reinstalling)"@,
            ),
        },
    }
}

/// [`dig_release_resolver::decide`]: the shared decision matrix, [`resolver_decision`]. The contract
/// claims the action and the summary line of every branch, as the function's source gives them.
#[verifier::external_body]
pub(crate) fn decide(detected: &DetectedVersion, latest_version: &str) -> (decision: UpdateDecision)
    ensures
        (decision.action, decision.summary@) == resolver_decision(detected@, latest_version@),
{
    let found = match detected {
        DetectedVersion::Absent => dig_release_resolver::DetectedVersion::Absent,
        DetectedVersion::Present(raw) => dig_release_resolver::DetectedVersion::Present(raw.clone()),
    };
    let decided = dig_release_resolver::decide(&found, latest_version);
    let action = match decided.action {
        dig_release_resolver::UpdateAction::Install => UpdateAction::Install,
        dig_release_resolver::UpdateAction::Update => UpdateAction::Update,
        dig_release_resolver::UpdateAction::Skip => UpdateAction::Skip,
    };
    UpdateDecision { action, summary: decided.summary }
}

/// An answer that is empty names no version.
pub proof fn lemma_no_version()
    ensures
        version_word(Seq::empty()).len() == 0,
        release_version(version_word(Seq::empty())) is None,
{
    let none = Seq::<char>::empty();
    crate::text::lemma_split(none, '\n', 0);
    assert(split(none, '\n')[0] =~= none);
    assert(tokens(none).len() == 0);
    assert(trimmed(none).len() == 0);
    assert(trimmed(none) =~= none);
    crate::text::lemma_split(none, '.', 0);
}

// ------------------------------------------------------------------ laws

/// A version written as `MAJOR.MINOR.PATCH` is read as its three numbers, with or without a leading
/// `v` and with white space around it or none.
pub proof fn a_version_is_read(front: Seq<char>, v: (u64, u64, u64), back: Seq<char>)
    requires
        is_blank(front),
        is_blank(back),
    ensures
        release_version(front + shown_version(v) + back) == Some(v),
        release_version(front + (seq!['v'] + shown_version(v)) + back) == Some(v),
{
    let shown = shown_version(v);
    lemma_shown_version(v);
    trimming_takes_the_blanks_off(front, shown, back);
    let marked = seq!['v'] + shown;
    assert(marked.last() == shown.last());
    trimming_takes_the_blanks_off(front, marked, back);
    assert(marked.skip(1) =~= shown);
}

/// A version as it is shown: three numbers with a dot between, no white space and no other sign.
#[verifier::spinoff_prover]
#[verifier::rlimit(60)]
pub proof fn lemma_shown_version(v: (u64, u64, u64))
    ensures
        is_word(shown_version(v)),
        forall|i: int|
            0 <= i < shown_version(v).len() ==> '0' <= #[trigger] shown_version(v)[i] <= '9'
                || shown_version(v)[i] == '.',
        '0' <= shown_version(v)[0] <= '9',
        '0' <= shown_version(v).last() <= '9',
        split(shown_version(v), '.') == seq![
            decimal(v.0 as nat),
            decimal(v.1 as nat),
            decimal(v.2 as nat),
        ],
        u64_written(decimal(v.0 as nat)) == Some(v.0),
        u64_written(decimal(v.1 as nat)) == Some(v.1),
        u64_written(decimal(v.2 as nat)) == Some(v.2),
{
    let shown = shown_version(v);
    let (a, b, c) = (decimal(v.0 as nat), decimal(v.1 as nat), decimal(v.2 as nat));
    reveal_strlit(".");
    decimal_is_read_back(v.0);
    decimal_is_read_back(v.1);
    decimal_is_read_back(v.2);
    a_decimal_is_a_word_of_digits(v.0 as nat);
    a_decimal_is_a_word_of_digits(v.1 as nat);
    a_decimal_is_a_word_of_digits(v.2 as nat);
    let pieces = seq![a, b, c];
    assert(pieces.skip(1) =~= seq![b, c]);
    assert(seq![b, c].skip(1) =~= seq![c]);
    assert(with_separator(seq![c], '.') == c);
    assert(with_separator(seq![b, c], '.') == b.push('.') + c);
    assert(with_separator(pieces, '.') =~= shown);
    assert forall|k: int| 0 <= k < pieces.len() implies !(#[trigger] pieces[k]).contains('.') by {
        assert(pieces[0] == a && pieces[1] == b && pieces[2] == c);
    }
    pieces_are_read_back(pieces, '.');
    let x: int = a.len() as int;
    let y: int = x + 1 + b.len();
    assert forall|i: int| 0 <= i < shown.len() implies '0' <= #[trigger] shown[i] <= '9' || shown[i]
        == '.' by {
        if i < x {
            assert(shown[i] == a[i]);
        } else if x < i && i < y {
            assert(shown[i] == b[i - x - 1]);
        } else if i > y {
            assert(shown[i] == c[i - y - 1]);
        }
    }
    assert(shown[0] == a[0]);
    assert(shown.last() == c[c.len() - 1]);
    assert forall|i: int| 0 <= i < shown.len() implies !is_white(#[trigger] shown[i]) by {}
}

/// What a program answers to `--version` is read as the last word of the first line.
#[verifier::spinoff_prover]
#[verifier::rlimit(60)]
pub proof fn the_last_word_of_the_first_line_counts(
    front: Seq<char>,
    word: Seq<char>,
    back: Seq<char>,
    more: Seq<char>,
)
    requires
        !front.contains('\n'),
        front.len() == 0 || is_white(front.last()),
        is_word(word),
        is_blank(back),
        !back.contains('\n'),
        more.len() == 0 || more[0] == '\n',
    ensures
        version_word(front + word + back + more) == word,
{
    let line = front + word + back;
    let raw = line + more;
    let n: int = line.len() as int;
    assert forall|j: int| 0 <= j < n implies raw[j] != '\n' by {
        if j < front.len() {
            assert(raw[j] == front[j]);
            assert(front.contains(front[j]));
        } else if j < front.len() + word.len() {
            assert(raw[j] == word[j - front.len()]);
        } else {
            assert(raw[j] == back[j - front.len() - word.len()]);
            assert(back.contains(back[j - front.len() - word.len()]));
        }
    }
    lemma_split(raw, '\n', n);
    assert(raw.take(n) =~= line);
    if more.len() == 0 {
        assert(raw =~= line);
    }
    assert(split(raw, '\n')[0] == line);
    if back.len() > 0 {
        assert(is_white(back[0]));
    }
    the_words_of_two_texts(front + word, back);
    the_words_of_two_texts(front, word);
    the_words_of_a_text(word, Seq::empty());
    assert(word + Seq::<char>::empty() =~= word);
    lemma_blank_has_no_words(back);
    assert(tokens(word) =~= seq![word]);
    assert(tokens(line) =~= tokens(front).push(word));
}

/// The branches of the decision matrix.
pub proof fn lemma_decision_cases(raw: Seq<char>, latest: Seq<char>)
    ensures
        resolver_decision(None, latest).0 is Install,
        match (release_version(version_word(raw)), release_version(latest)) {
            (Some(installed), Some(wanted)) => resolver_decision(Some(raw), latest).0 == (if older(
                installed,
                wanted,
            ) {
                UpdateAction::Update
            } else {
                UpdateAction::Skip
            }),
            _ => resolver_decision(Some(raw), latest).0 is Update,
        },
{
    reveal(resolver_decision);
}

/// What is decided: nothing installed is installed; an answer whose version is older than the latest
/// is updated, and one that is not older is left alone; an answer without a readable version is
/// updated.
#[verifier::spinoff_prover]
#[verifier::rlimit(60)]
pub proof fn the_decision_follows_the_versions(
    word: Seq<char>,
    installed: (u64, u64, u64),
    latest: (u64, u64, u64),
    raw: Seq<char>,
)
    requires
        word == shown_version(installed) || word == seq!['v'] + shown_version(installed),
    ensures
        resolver_decision(None, shown_version(latest)).0 == UpdateAction::Install,
        version_word(raw) == word ==> resolver_decision(Some(raw), shown_version(latest)).0 == (if installed.0
            < latest.0 || (installed.0 == latest.0 && installed.1
            < latest.1) || (installed.0 == latest.0 && installed.1 == latest.1 && installed.2
            < latest.2) {
            UpdateAction::Update
        } else {
            UpdateAction::Skip
        }),
        release_version(version_word(raw)) is None ==> resolver_decision(
            Some(raw),
            shown_version(latest),
        ).0 == UpdateAction::Update,
{
    let none = Seq::<char>::empty();
    lemma_decision_cases(raw, shown_version(latest));
    a_version_is_read(none, installed, none);
    a_version_is_read(none, latest, none);
    assert(none + shown_version(installed) + none =~= shown_version(installed));
    assert(none + shown_version(latest) + none =~= shown_version(latest));
    let marked = seq!['v'] + shown_version(installed);
    assert(none + marked + none =~= marked);
}

} // verus!
