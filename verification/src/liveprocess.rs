//! Whether a component's binary is the image of a running process.
//!
//! A per-user desktop component has no service to ask and must not be run, so the one liveness
//! signal is the system's process list, matched by file name. Every failure to look reads as
//! nothing running: a probe that could not run must never raise a false alarm.

use vstd::prelude::*;

use crate::path::{file_name, name_of};
use crate::text::{ascii_lowered, chars_of, contains_chars, has_text, stands_at};

verus! {

/// What [`str::to_lowercase`] gives for a text.
pub uninterp spec fn lowercased(s: Seq<char>) -> Seq<char>;

/// Whether every character is in the ASCII range.
pub open spec fn is_ascii_text(s: Seq<char>) -> bool {
    forall|i: int| 0 <= i < s.len() ==> (#[trigger] s[i] as u32) < 128
}

/// [`str::to_lowercase`]: the result is the lowercase form of the text, a function of the text
/// alone. Of ASCII text it is the text with each capital letter replaced by its small counterpart;
/// of other text the result is only named.
#[verifier::external_body]
fn to_lowercase(text: &str) -> (out: String)
    ensures
        out@ == lowercased(text@),
        is_ascii_text(text@) ==> out@ == ascii_lowered(text@),
{
    text.to_lowercase()
}

/// Whether `binary`'s file name is the image of a running process, as `running` answers for a file
/// name. A path without a file name has none, and nothing is asked.
#[must_use]
pub fn is_running<R: Fn(&str) -> bool>(binary: &str, running: &R) -> (r: bool)
    requires
        forall|n: &str| name_of(binary@) == Some(n@) ==> #[trigger] running.requires((n,)),
    ensures
        name_of(binary@) is None ==> !r,
        name_of(binary@) is Some ==> exists|n: &str|
            n@ == name_of(binary@)->0 && #[trigger] running.ensures((n,), r),
{
    match file_name(binary) {
        None => false,
        Some(name) => running(name.as_str()),
    }
}

/// What is asked of the Windows process list to find an image name.
#[must_use]
pub fn tasklist_filter(name: &str) -> (filter: String)
    ensures
        filter@ == "IMAGENAME eq "@ + name@,
{
    crate::text::cat2("IMAGENAME eq ", name)
}

/// Whether a listing in lowercase names an image in lowercase: the quoted name stands in it.
pub open spec fn names_image(listing: Seq<char>, name: Seq<char>) -> bool {
    has_text(listing, "\""@ + name + "\""@)
}

/// Computes [`names_image`].
#[must_use]
pub fn listing_names(listing: &str, name: &str) -> (r: bool)
    ensures
        r == names_image(listing@, name@),
{
    let quoted: String = crate::text::cat3("\"", name, "\"");
    let pat: Vec<char> = chars_of(quoted.as_str());
    let text: Vec<char> = chars_of(listing);
    contains_chars(&text, &pat)
}

/// Whether the Windows process list, as the tool printed it, names `name`, in any letter case.
/// A listing that failed names nothing.
#[must_use]
pub fn windows_is_running(success: bool, listing: &str, name: &str) -> (r: bool)
    ensures
        r == (success && names_image(lowercased(listing@), lowercased(name@))),
        is_ascii_text(listing@) && is_ascii_text(name@) ==> r == (success && names_image(
            ascii_lowered(listing@),
            ascii_lowered(name@),
        )),
{
    let text: String = to_lowercase(listing);
    let image: String = to_lowercase(name);
    success && listing_names(text.as_str(), image.as_str())
}

/// A process list names an image where the image's name stands in it in quotes, whole: wherever that is,
/// and nowhere else. A longer name that ends or starts with it is another image.
pub proof fn an_image_is_named_in_quotes(
    before: Seq<char>,
    name: Seq<char>,
    after: Seq<char>,
    listing: Seq<char>,
)
    ensures
        names_image(before + seq!['"'] + name + seq!['"'] + after, name),
        !listing.contains('"') ==> !names_image(listing, name),
        !before.contains('"') && !after.contains('"') && !name.contains('"') && listing == seq!['"']
            + before + name + after + seq!['"'] && (before.len() > 0 || after.len() > 0)
            ==> !names_image(listing, name),
{
    reveal_strlit("\"");
    let pat = "\""@ + name + "\""@;
    let whole = before + seq!['"'] + name + seq!['"'] + after;
    let k: int = before.len() as int;
    assert(whole.subrange(k, k + pat.len()) =~= pat);
    assert(stands_at(whole, pat, k));
    if names_image(listing, name) {
        let i: int = choose|i: int| stands_at(listing, pat, i);
        let n: int = pat.len() as int;
        assert(listing.subrange(i, i + n)[0] == listing[i]);
        assert(listing.subrange(i, i + n)[n - 1] == listing[i + n - 1]);
        assert(listing[i] == '"' && listing[i + n - 1] == '"');
        assert(listing.contains(listing[i]));
        if !before.contains('"') && !after.contains('"') && !name.contains('"') && listing == seq!['"']
            + before + name + after + seq!['"'] {
            lemma_quotes_at_the_ends(before, name, after, i);
            lemma_quotes_at_the_ends(before, name, after, i + n - 1);
        }
    }
}

proof fn lemma_quotes_at_the_ends(before: Seq<char>, name: Seq<char>, after: Seq<char>, i: int)
    requires
        !before.contains('"'),
        !name.contains('"'),
        !after.contains('"'),
        ({
            let listing = seq!['"'] + before + name + after + seq!['"'];
            0 <= i < listing.len() && listing[i] == '"'
        }),
    ensures
        i == 0 || i == before.len() + name.len() + after.len() + 1,
{
    let listing = seq!['"'] + before + name + after + seq!['"'];
    let a: int = 1 + before.len() as int;
    let b: int = a + name.len();
    if 0 < i && i < a {
        assert(listing[i] == before[i - 1]);
        assert(before.contains(before[i - 1]));
    } else if a <= i && i < b {
        assert(listing[i] == name[i - a]);
        assert(name.contains(name[i - a]));
    } else if b <= i && i < b + after.len() {
        assert(listing[i] == after[i - b]);
        assert(after.contains(after[i - b]));
    }
}

} // verus!
