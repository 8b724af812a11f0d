//! Making text from a downloaded artifact safe to show.
//!
//! A refusal has to name the libraries it refused on, and those names are raw bytes out of a
//! downloaded file. They end up in a log and on an operator's terminal, where a carriage return or
//! an escape sequence could overwrite the very line that reports the refusal.

use vstd::prelude::*;

use crate::text::chars_of;

verus! {

/// Whether `c` is a control character (Unicode general category `Cc`).
pub open spec fn is_control(c: char) -> bool {
    c as int <= 0x1f || 0x7f <= c as int <= 0x9f
}

/// `s` with every control character replaced by the replacement character.
pub open spec fn sanitized(s: Seq<char>) -> Seq<char> {
    Seq::new(
        s.len(),
        |i: int|
            if is_control(s[i]) {
                '\u{fffd}'
            } else {
                s[i]
            },
    )
}

/// Computes [`is_control`].
fn control(c: char) -> (r: bool)
    ensures
        r == is_control(c),
{
    let v: u32 = c as u32;
    v <= 0x1f || (0x7f <= v && v <= 0x9f)
}

/// `text` with every control character replaced by `U+FFFD`, so it cannot move a terminal cursor,
/// start an escape sequence, or break a log line into two.
///
/// Replaces rather than strips: a name that had a control character in it is not a name to trust,
/// and the replacement makes that visible. Ordinary text is returned unchanged.
#[must_use]
pub fn without_control_chars(text: &str) -> (safe: String)
    ensures
        safe@ == sanitized(text@),
{
    let chars: Vec<char> = chars_of(text);
    let mut safe: String = String::new();
    let mut i: usize = 0;
    while i < chars.len()
        invariant
            i <= chars@.len(),
            chars@ == text@,
            safe@ =~= sanitized(text@).take(i as int),
        decreases chars@.len() - i,
    {
        let c: char = chars[i];
        let shown: char = if control(c) {
            '\u{fffd}'
        } else {
            c
        };
        assert(shown == sanitized(text@)[i as int]);
        safe.push(shown);
        i = i + 1;
    }
    assert(sanitized(text@).take(i as int) =~= sanitized(text@));
    safe
}

/// What comes out holds no control character, and as many characters as went in.
pub proof fn sanitized_text_is_inert(s: Seq<char>)
    ensures
        sanitized(s).len() == s.len(),
        forall|i: int| 0 <= i < s.len() ==> !is_control(#[trigger] sanitized(s)[i]),
{
}

/// Text without control characters is left as it is; so a second pass changes nothing.
pub proof fn ordinary_text_is_kept(s: Seq<char>)
    ensures
        (forall|i: int| 0 <= i < s.len() ==> !is_control(#[trigger] s[i])) ==> sanitized(s) == s,
        sanitized(sanitized(s)) == sanitized(s),
{
    if forall|i: int| 0 <= i < s.len() ==> !is_control(#[trigger] s[i]) {
        assert(sanitized(s) =~= s);
    }
    assert(sanitized(sanitized(s)) =~= sanitized(s));
}

/// What is replaced: the characters before the space, the delete character and those after it up to
/// `U+009F`, each by `U+FFFD`, and nothing else.
pub proof fn control_characters_alone_are_replaced(s: Seq<char>, i: int)
    requires
        0 <= i < s.len(),
    ensures
        sanitized(s).len() == s.len(),
        sanitized(s)[i] == (if s[i] < ' ' || ('\u{7f}' <= s[i] && s[i] <= '\u{9f}') {
            '\u{fffd}'
        } else {
            s[i]
        }),
{
}

} // verus!
