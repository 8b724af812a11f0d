//! Text primitives: the character-level vocabulary in which the rest of the library states what
//! it reads and what it reports.
//!
//! A `str` or `String` is viewed as its sequence of characters. Each operation here is a spec
//! function on such sequences together with an executable function that computes it.

use vstd::prelude::*;

verus! {

/// `String::push` appends one character to the end of the string.
pub assume_specification[ String::push ](text: &mut String, c: char)
    ensures
        final(text)@ == old(text)@.push(c),
;

/// The views of a sequence of strings, in order.
pub open spec fn views(texts: Seq<String>) -> Seq<Seq<char>> {
    Seq::new(texts.len(), |i: int| texts[i]@)
}

/// The view of an optional string.
pub open spec fn opt_view(text: Option<String>) -> Option<Seq<char>> {
    match text {
        Some(t) => Some(t@),
        None => None,
    }
}

pub proof fn lemma_views_push(texts: Seq<String>, text: String)
    ensures
        views(texts.push(text)) == views(texts).push(text@),
{
    assert(views(texts.push(text)) =~= views(texts).push(text@));
}

// ------------------------------------------------------------------ conversion and equality

/// The characters of `text`, one per element.
pub fn chars_of(text: &str) -> (out: Vec<char>)
    ensures
        out@ == text@,
{
    let mut out: Vec<char> = Vec::new();
    for c in it: text.chars()
        invariant
            it.seq() == text@,
            out@ =~= it.seq().take(it.index() as int),
    {
        out.push(c);
    }
    out
}

/// The text made of `chars[from..to]`.
pub fn text_range(chars: &Vec<char>, from: usize, to: usize) -> (out: String)
    requires
        from <= to <= chars@.len(),
    ensures
        out@ == chars@.subrange(from as int, to as int),
{
    let mut out: String = String::new();
    let mut i: usize = from;
    while i < to
        invariant
            from <= i <= to <= chars@.len(),
            out@ =~= chars@.subrange(from as int, i as int),
        decreases to - i,
    {
        out.push(chars[i]);
        i = i + 1;
    }
    out
}

/// Whether two texts hold the same characters.
pub fn same_text(a: &str, b: &str) -> (same: bool)
    ensures
        same == (a@ == b@),
{
    let left: Vec<char> = chars_of(a);
    let right: Vec<char> = chars_of(b);
    if left.len() != right.len() {
        return false;
    }
    let mut i: usize = 0;
    while i < left.len()
        invariant
            i <= left@.len(),
            left@.len() == right@.len(),
            left@.take(i as int) =~= right@.take(i as int),
            left@ == a@,
            right@ == b@,
        decreases left@.len() - i,
    {
        if left[i] != right[i] {
            assert(a@[i as int] != b@[i as int]);
            return false;
        }
        i = i + 1;
    }
    assert(left@.take(i as int) =~= left@);
    assert(right@.take(i as int) =~= right@);
    true
}

/// Whether two optional texts agree: both absent, or both present with the same characters.
pub fn same_opt_text(a: &Option<String>, b: &Option<String>) -> (same: bool)
    ensures
        same == (opt_view(*a) == opt_view(*b)),
{
    match (a, b) {
        (Some(x), Some(y)) => same_text(x.as_str(), y.as_str()),
        (None, None) => true,
        _ => false,
    }
}

/// A copy of an optional text.
pub fn clone_opt_text(text: &Option<String>) -> (out: Option<String>)
    ensures
        out == *text,
{
    match text {
        Some(t) => Some(t.clone()),
        None => None,
    }
}

/// Copies of `texts`, in order.
pub fn clone_texts(texts: &Vec<String>) -> (out: Vec<String>)
    ensures
        out@ == texts@,
{
    let mut out: Vec<String> = Vec::new();
    let mut i: usize = 0;
    while i < texts.len()
        invariant
            i <= texts@.len(),
            out@ =~= texts@.take(i as int),
        decreases texts@.len() - i,
    {
        out.push(texts[i].clone());
        i = i + 1;
    }
    assert(texts@.take(i as int) =~= texts@);
    out
}

/// Add copies of `more` to `texts`, in order.
pub fn add_texts(texts: &mut Vec<String>, more: &Vec<String>)
    ensures
        views(final(texts)@) == views(old(texts)@) + views(more@),
{
    let mut i: usize = 0;
    assert(views(texts@) =~= views(old(texts)@) + views(more@).take(0));
    while i < more.len()
        invariant
            i <= more@.len(),
            views(texts@) == views(old(texts)@) + views(more@).take(i as int),
        decreases more@.len() - i,
    {
        let ghost before = views(texts@);
        texts.push(more[i].clone());
        assert(views(texts@) =~= before.push(more@[i as int]@));
        assert(views(more@).take(i + 1) =~= views(more@).take(i as int).push(more@[i as int]@));
        i = i + 1;
    }
    assert(views(more@).take(i as int) =~= views(more@));
}

// ------------------------------------------------------------------ concatenation

/// `a` followed by `b`.
pub fn cat2(a: &str, b: &str) -> (out: String)
    ensures
        out@ == a@ + b@,
{
    let mut out: String = a.to_owned();
    out.append(b);
    out
}

/// `a` followed by `b` and `c`.
pub fn cat3(a: &str, b: &str, c: &str) -> (out: String)
    ensures
        out@ == a@ + b@ + c@,
{
    let mut out: String = cat2(a, b);
    out.append(c);
    out
}

/// `a` followed by `b`, `c` and `d`.
pub fn cat4(a: &str, b: &str, c: &str, d: &str) -> (out: String)
    ensures
        out@ == a@ + b@ + c@ + d@,
{
    let mut out: String = cat3(a, b, c);
    out.append(d);
    out
}

/// `a` followed by `b`, `c`, `d` and `e`.
pub fn cat5(a: &str, b: &str, c: &str, d: &str, e: &str) -> (out: String)
    ensures
        out@ == a@ + b@ + c@ + d@ + e@,
{
    let mut out: String = cat4(a, b, c, d);
    out.append(e);
    out
}

// ------------------------------------------------------------------ characters

/// Whether `c` has the Unicode `White_Space` property.
pub open spec fn is_white(c: char) -> bool {
    let v: int = c as int;
    ||| 0x9 <= v <= 0xd
    ||| v == 0x20
    ||| v == 0x85
    ||| v == 0xa0
    ||| v == 0x1680
    ||| 0x2000 <= v <= 0x200a
    ||| v == 0x2028
    ||| v == 0x2029
    ||| v == 0x202f
    ||| v == 0x205f
    ||| v == 0x3000
}

/// Computes [`is_white`].
pub fn white(c: char) -> (r: bool)
    ensures
        r == is_white(c),
{
    let v: u32 = c as u32;
    (0x9 <= v && v <= 0xd) || v == 0x20 || v == 0x85 || v == 0xa0 || v == 0x1680 || (0x2000 <= v
        && v <= 0x200a) || v == 0x2028 || v == 0x2029 || v == 0x202f || v == 0x205f || v == 0x3000
}

/// Whether `c` is one of the digits `0` to `9`.
pub open spec fn is_digit(c: char) -> bool {
    '0' <= c && c <= '9'
}

/// The number that a digit stands for.
pub open spec fn digit_value(c: char) -> nat {
    (c as int - '0' as int) as nat
}

/// Whether `s` consists of digits alone.
pub open spec fn all_digits(s: Seq<char>) -> bool {
    forall|i: int| 0 <= i < s.len() ==> is_digit(#[trigger] s[i])
}

/// The digit that stands for `n`, for `n` below ten.
pub open spec fn digit_char(n: nat) -> char {
    ('0' as int + n as int) as char
}

/// `c` with an ASCII capital letter replaced by its small counterpart.
pub open spec fn ascii_lower(c: char) -> char {
    if 'A' <= c && c <= 'Z' {
        (c as int + 32) as char
    } else {
        c
    }
}

/// The ASCII small counterpart of every character of `s`.
pub open spec fn ascii_lowered(s: Seq<char>) -> Seq<char> {
    Seq::new(s.len(), |i: int| ascii_lower(s[i]))
}

/// Computes [`ascii_lower`].
pub fn to_ascii_lower(c: char) -> (r: char)
    ensures
        r == ascii_lower(c),
{
    if 'A' <= c && c <= 'Z' {
        let v: u8 = c as u8;
        (v + 32) as char
    } else {
        c
    }
}

/// The characters of `text` with ASCII capitals made small.
pub fn lowered_chars(text: &str) -> (out: Vec<char>)
    ensures
        out@ == ascii_lowered(text@),
{
    let chars: Vec<char> = chars_of(text);
    let mut out: Vec<char> = Vec::new();
    let mut i: usize = 0;
    while i < chars.len()
        invariant
            i <= chars@.len(),
            chars@ == text@,
            out@ =~= ascii_lowered(text@).take(i as int),
        decreases chars@.len() - i,
    {
        out.push(to_ascii_lower(chars[i]));
        i = i + 1;
    }
    assert(ascii_lowered(text@).take(i as int) =~= ascii_lowered(text@));
    out
}

/// Whether two texts agree up to the case of ASCII letters.
pub fn same_ignoring_ascii_case(a: &str, b: &str) -> (same: bool)
    ensures
        same == (ascii_lowered(a@) == ascii_lowered(b@)),
{
    let left: Vec<char> = lowered_chars(a);
    let right: Vec<char> = lowered_chars(b);
    if left.len() != right.len() {
        return false;
    }
    let mut i: usize = 0;
    while i < left.len()
        invariant
            i <= left@.len(),
            left@.len() == right@.len(),
            left@.take(i as int) =~= right@.take(i as int),
            left@ == ascii_lowered(a@),
            right@ == ascii_lowered(b@),
        decreases left@.len() - i,
    {
        if left[i] != right[i] {
            assert(ascii_lowered(a@)[i as int] != ascii_lowered(b@)[i as int]);
            return false;
        }
        i = i + 1;
    }
    assert(left@.take(i as int) =~= left@);
    assert(right@.take(i as int) =~= right@);
    true
}

// ------------------------------------------------------------------ searching

/// The first position at or after `i` that holds `c`, or the length of `s`.
pub open spec fn scan_char(s: Seq<char>, c: char, i: int) -> int
    decreases s.len() - i,
{
    if i < 0 || i >= s.len() {
        s.len() as int
    } else if s[i] == c {
        i
    } else {
        scan_char(s, c, i + 1)
    }
}

/// [`scan_char`] gives `k` where no position from `i` to `k` holds `c` and `k` is the end or
/// holds it.
pub proof fn lemma_scan_char(s: Seq<char>, c: char, i: int, k: int)
    requires
        0 <= i <= k <= s.len(),
        forall|j: int| i <= j < k ==> s[j] != c,
        k == s.len() || s[k] == c,
    ensures
        scan_char(s, c, i) == k,
    decreases k - i,
{
    if i < k {
        lemma_scan_char(s, c, i + 1, k);
    }
}

/// What [`scan_char`] finds: a position in range before which `c` does not occur, holding `c`
/// unless it is the end.
pub proof fn lemma_scan_char_found(s: Seq<char>, c: char, i: int)
    requires
        0 <= i <= s.len(),
    ensures
        i <= scan_char(s, c, i) <= s.len(),
        forall|j: int| i <= j < scan_char(s, c, i) ==> s[j] != c,
        scan_char(s, c, i) < s.len() ==> s[scan_char(s, c, i)] == c,
    decreases s.len() - i,
{
    if i < s.len() && s[i] != c {
        lemma_scan_char_found(s, c, i + 1);
    }
}

/// Computes [`scan_char`].
pub fn find_char(chars: &Vec<char>, c: char, from: usize) -> (at: usize)
    requires
        from <= chars@.len(),
    ensures
        at == scan_char(chars@, c, from as int),
        from <= at <= chars@.len(),
{
    let mut i: usize = from;
    while i < chars.len() && chars[i] != c
        invariant
            from <= i <= chars@.len(),
            forall|j: int| from <= j < i ==> chars@[j] != c,
        decreases chars@.len() - i,
    {
        i = i + 1;
    }
    proof {
        lemma_scan_char(chars@, c, from as int, i as int);
    }
    i
}

/// Whether `pat` stands in `s` at position `i`.
pub open spec fn stands_at(s: Seq<char>, pat: Seq<char>, i: int) -> bool {
    0 <= i && i + pat.len() <= s.len() && s.subrange(i, i + pat.len()) == pat
}

/// The first position at or after `i` where `pat` stands in `s`.
pub open spec fn find_from(s: Seq<char>, pat: Seq<char>, i: int) -> Option<int>
    decreases s.len() + 1 - i,
{
    if i < 0 || i + pat.len() > s.len() {
        None
    } else if stands_at(s, pat, i) {
        Some(i)
    } else {
        find_from(s, pat, i + 1)
    }
}

/// Whether `pat` occurs in `s`.
pub open spec fn has_text(s: Seq<char>, pat: Seq<char>) -> bool {
    exists|i: int| stands_at(s, pat, i)
}

/// What [`find_from`] finds: a place where `pat` stands, with none before it, or no place at all.
pub proof fn lemma_find_from(s: Seq<char>, pat: Seq<char>, i: int)
    requires
        0 <= i,
    ensures
        match find_from(s, pat, i) {
            Some(k) => i <= k && stands_at(s, pat, k) && forall|j: int|
                i <= j < k ==> !#[trigger] stands_at(s, pat, j),
            None => forall|j: int| i <= j ==> !#[trigger] stands_at(s, pat, j),
        },
    decreases s.len() + 1 - i,
{
    if i + pat.len() <= s.len() && !stands_at(s, pat, i) {
        lemma_find_from(s, pat, i + 1);
    }
}

/// Computes [`stands_at`].
pub fn stands(chars: &Vec<char>, pat: &Vec<char>, at: usize) -> (r: bool)
    requires
        at <= chars@.len(),
    ensures
        r == stands_at(chars@, pat@, at as int),
{
    let n: usize = chars.len();
    if n - at < pat.len() {
        return false;
    }
    let mut i: usize = 0;
    while i < pat.len()
        invariant
            i <= pat@.len(),
            n == chars@.len(),
            at + pat@.len() <= n,
            forall|j: int| 0 <= j < i ==> chars@[at + j] == pat@[j],
        decreases pat@.len() - i,
    {
        if chars[at + i] != pat[i] {
            assert(chars@.subrange(at as int, at + pat@.len())[i as int] != pat@[i as int]);
            return false;
        }
        i = i + 1;
    }
    assert(chars@.subrange(at as int, at + pat@.len()) =~= pat@);
    true
}

/// Computes [`find_from`].
pub fn find_text(chars: &Vec<char>, pat: &Vec<char>, from: usize) -> (at: Option<usize>)
    requires
        from <= chars@.len(),
    ensures
        match at {
            Some(k) => find_from(chars@, pat@, from as int) == Some(k as int) && k + pat@.len()
                <= chars@.len(),
            None => find_from(chars@, pat@, from as int) is None,
        },
{
    let mut i: usize = from;
    while chars.len() - i >= pat.len()
        invariant
            from <= i <= chars@.len(),
            find_from(chars@, pat@, from as int) == find_from(chars@, pat@, i as int),
        decreases chars@.len() - i,
    {
        if stands(chars, pat, i) {
            return Some(i);
        }
        if i == chars.len() {
            assert(find_from(chars@, pat@, i + 1) is None);
            return None;
        }
        i = i + 1;
    }
    None
}

/// Whether the characters `pat` occur in `chars`.
pub fn contains_chars(chars: &Vec<char>, pat: &Vec<char>) -> (r: bool)
    ensures
        r == has_text(chars@, pat@),
{
    proof {
        lemma_find_from(chars@, pat@, 0);
    }
    match find_text(chars, pat, 0) {
        Some(k) => {
            assert(stands_at(chars@, pat@, k as int));
            true
        },
        None => false,
    }
}

/// Whether `pat` occurs in `text`.
pub fn contains_text(text: &str, pat: &str) -> (r: bool)
    ensures
        r == has_text(text@, pat@),
{
    let chars: Vec<char> = chars_of(text);
    let pattern: Vec<char> = chars_of(pat);
    contains_chars(&chars, &pattern)
}

// ------------------------------------------------------------------ splitting

/// The pieces of `s` between occurrences of `sep`; always at least one piece.
pub open spec fn split(s: Seq<char>, sep: char) -> Seq<Seq<char>>
    decreases s.len(),
{
    let k: int = scan_char(s, sep, 0);
    if 0 <= k < s.len() {
        seq![s.take(k)] + split(s.skip(k + 1), sep)
    } else {
        seq![s]
    }
}

/// [`split`] at the first occurrence of the separator, and of a text without one.
pub proof fn lemma_split(s: Seq<char>, sep: char, k: int)
    requires
        0 <= k <= s.len(),
        forall|j: int| 0 <= j < k ==> s[j] != sep,
    ensures
        k < s.len() && s[k] == sep ==> split(s, sep) == seq![s.take(k)] + split(s.skip(k + 1), sep),
        k == s.len() ==> split(s, sep) == seq![s],
{
    if k == s.len() || s[k] == sep {
        lemma_scan_char(s, sep, 0, k);
    }
}

/// No piece holds the separator or is longer than the text, and every character of a piece is one of
/// the text.
pub proof fn lemma_split_pieces(s: Seq<char>, sep: char)
    ensures
        forall|k: int|
            0 <= k < split(s, sep).len() ==> (#[trigger] split(s, sep)[k]).len() <= s.len(),
        forall|k: int, j: int|
            0 <= k < split(s, sep).len() && 0 <= j < split(s, sep)[k].len() ==> {
                &&& (#[trigger] split(s, sep)[k][j]) != sep
                &&& s.contains(split(s, sep)[k][j])
            },
    decreases s.len(),
{
    let at: int = scan_char(s, sep, 0);
    lemma_scan_char_found(s, sep, 0);
    if at < s.len() {
        let rest = s.skip(at + 1);
        lemma_split_pieces(rest, sep);
        assert forall|k: int| 0 <= k < split(s, sep).len() implies (
        #[trigger] split(s, sep)[k]).len() <= s.len() by {
            if k > 0 {
                assert(split(s, sep)[k] == split(rest, sep)[k - 1]);
            }
        }
        assert forall|k: int, j: int|
            0 <= k < split(s, sep).len() && 0 <= j < split(s, sep)[k].len() implies (
        #[trigger] split(s, sep)[k][j]) != sep && s.contains(split(s, sep)[k][j]) by {
            if k == 0 {
                assert(split(s, sep)[0] == s.take(at));
                assert(s[j] == split(s, sep)[k][j]);
            } else {
                assert(split(s, sep)[k] == split(rest, sep)[k - 1]);
                let c = split(rest, sep)[k - 1][j];
                assert(rest.contains(c));
                let m: int = choose|m: int| 0 <= m < rest.len() && rest[m] == c;
                assert(s[m + at + 1] == c);
            }
        }
    } else {
        assert forall|k: int, j: int|
            0 <= k < split(s, sep).len() && 0 <= j < split(s, sep)[k].len() implies (
        #[trigger] split(s, sep)[k][j]) != sep && s.contains(split(s, sep)[k][j]) by {
            assert(split(s, sep)[k] == s);
            assert(s[j] == split(s, sep)[k][j]);
        }
    }
}

/// Computes [`split`].
pub fn split_text(text: &str, sep: char) -> (out: Vec<String>)
    ensures
        views(out@) == split(text@, sep),
{
    let chars: Vec<char> = chars_of(text);
    let mut out: Vec<String> = Vec::new();
    let mut start: usize = 0;
    let mut i: usize = 0;
    proof {
        assert(text@.skip(0) =~= text@);
        assert(views(out@) + split(text@.skip(0), sep) =~= split(text@, sep));
    }
    while i < chars.len()
        invariant
            start <= i <= chars@.len(),
            chars@ == text@,
            forall|j: int| start <= j < i ==> chars@[j] != sep,
            views(out@) + split(text@.skip(start as int), sep) == split(text@, sep),
        decreases chars@.len() - i,
    {
        if chars[i] == sep {
            let piece: String = text_range(&chars, start, i);
            proof {
                let rest = text@.skip(start as int);
                let k: int = i - start;
                assert(forall|j: int| 0 <= j < k ==> rest[j] != sep);
                lemma_split(rest, sep, k);
                assert(rest.take(k) =~= piece@);
                assert(rest.skip(k + 1) =~= text@.skip(i + 1));
                lemma_views_push(out@, piece);
                assert(views(out@) + split(rest, sep) =~= views(out@.push(piece)) + split(
                    text@.skip(i + 1),
                    sep,
                ));
            }
            out.push(piece);
            start = i + 1;
        }
        i = i + 1;
    }
    let last: String = text_range(&chars, start, i);
    proof {
        let rest = text@.skip(start as int);
        lemma_split(rest, sep, rest.len() as int);
        assert(rest =~= last@);
        lemma_views_push(out@, last);
        assert(views(out@) + split(rest, sep) =~= views(out@.push(last)));
    }
    out.push(last);
    out
}

/// The pieces that are not empty, in order.
pub open spec fn nonempty(pieces: Seq<Seq<char>>) -> Seq<Seq<char>>
    decreases pieces.len(),
{
    if pieces.len() == 0 {
        Seq::empty()
    } else if pieces.last().len() == 0 {
        nonempty(pieces.drop_last())
    } else {
        nonempty(pieces.drop_last()).push(pieces.last())
    }
}

/// What is kept is one of the pieces, and not empty.
pub proof fn lemma_nonempty_pieces(pieces: Seq<Seq<char>>)
    ensures
        forall|i: int|
            0 <= i < nonempty(pieces).len() ==> {
                &&& (#[trigger] nonempty(pieces)[i]).len() > 0
                &&& exists|k: int| 0 <= k < pieces.len() && #[trigger] pieces[k] == nonempty(pieces)[i]
            },
    decreases pieces.len(),
{
    if pieces.len() > 0 {
        let fewer = pieces.drop_last();
        lemma_nonempty_pieces(fewer);
        assert forall|i: int| 0 <= i < nonempty(pieces).len() implies (
        #[trigger] nonempty(pieces)[i]).len() > 0 && exists|k: int|
            0 <= k < pieces.len() && #[trigger] pieces[k] == nonempty(pieces)[i] by {
            if i < nonempty(fewer).len() {
                assert(nonempty(pieces)[i] == nonempty(fewer)[i]);
                let k: int = choose|k: int|
                    0 <= k < fewer.len() && #[trigger] fewer[k] == nonempty(fewer)[i];
                assert(pieces[k] == fewer[k]);
            } else {
                assert(pieces[pieces.len() - 1] == nonempty(pieces)[i]);
            }
        }
    }
}

/// Computes [`nonempty`].
pub fn keep_nonempty(pieces: &Vec<String>) -> (out: Vec<String>)
    ensures
        views(out@) == nonempty(views(pieces@)),
{
    let mut out: Vec<String> = Vec::new();
    let mut i: usize = 0;
    assert(views(out@) =~= nonempty(views(pieces@).take(0)));
    while i < pieces.len()
        invariant
            i <= pieces@.len(),
            views(out@) == nonempty(views(pieces@).take(i as int)),
        decreases pieces@.len() - i,
    {
        proof {
            let upto = views(pieces@).take(i + 1);
            assert(upto.drop_last() =~= views(pieces@).take(i as int));
            assert(upto.last() == pieces@[i as int]@);
            lemma_views_push(out@, pieces@[i as int]);
        }
        if !pieces[i].as_str().is_empty() {
            out.push(pieces[i].clone());
        }
        i = i + 1;
    }
    assert(views(pieces@).take(i as int) =~= views(pieces@));
    out
}

// ------------------------------------------------------------------ white space

/// The first position at or after `i` that holds no white space, or the length of `s`.
pub open spec fn skip_white(s: Seq<char>, i: int) -> int
    decreases s.len() - i,
{
    if i < 0 || i >= s.len() {
        s.len() as int
    } else if is_white(s[i]) {
        skip_white(s, i + 1)
    } else {
        i
    }
}

/// The first position at or after `i` that holds white space, or the length of `s`.
pub open spec fn find_white(s: Seq<char>, i: int) -> int
    decreases s.len() - i,
{
    if i < 0 || i >= s.len() {
        s.len() as int
    } else if is_white(s[i]) {
        i
    } else {
        find_white(s, i + 1)
    }
}

pub proof fn lemma_white_bounds(s: Seq<char>, i: int)
    requires
        0 <= i <= s.len(),
    ensures
        i <= skip_white(s, i) <= s.len(),
        i <= find_white(s, i) <= s.len(),
        skip_white(s, i) < s.len() ==> !is_white(s[skip_white(s, i)]),
        find_white(s, i) < s.len() ==> is_white(s[find_white(s, i)]),
    decreases s.len() - i,
{
    if i < s.len() {
        lemma_white_bounds(s, i + 1);
    }
}

/// The end of `s[..n]` without the white space that closes it.
pub open spec fn trim_end_at(s: Seq<char>, n: int) -> int
    decreases n,
{
    if n <= 0 {
        0
    } else if n <= s.len() && is_white(s[n - 1]) {
        trim_end_at(s, n - 1)
    } else {
        n
    }
}

/// `s` without the white space at its two ends.
pub open spec fn trimmed(s: Seq<char>) -> Seq<char> {
    let from: int = skip_white(s, 0);
    let to: int = trim_end_at(s, s.len() as int);
    if from < to {
        s.subrange(from, to)
    } else {
        Seq::empty()
    }
}

/// Computes [`skip_white`].
fn skip_spaces(chars: &Vec<char>, from: usize) -> (at: usize)
    requires
        from <= chars@.len(),
    ensures
        at == skip_white(chars@, from as int),
        from <= at <= chars@.len(),
{
    let mut i: usize = from;
    while i < chars.len() && white(chars[i])
        invariant
            from <= i <= chars@.len(),
            skip_white(chars@, from as int) == skip_white(chars@, i as int),
        decreases chars@.len() - i,
    {
        i = i + 1;
    }
    i
}

/// Computes [`find_white`].
fn find_space(chars: &Vec<char>, from: usize) -> (at: usize)
    requires
        from <= chars@.len(),
    ensures
        at == find_white(chars@, from as int),
        from <= at <= chars@.len(),
{
    let mut i: usize = from;
    while i < chars.len() && !white(chars[i])
        invariant
            from <= i <= chars@.len(),
            find_white(chars@, from as int) == find_white(chars@, i as int),
        decreases chars@.len() - i,
    {
        i = i + 1;
    }
    i
}

/// Computes [`trimmed`].
pub fn trim_text(text: &str) -> (out: String)
    ensures
        out@ == trimmed(text@),
{
    let chars: Vec<char> = chars_of(text);
    let from: usize = skip_spaces(&chars, 0);
    let mut to: usize = chars.len();
    while to > 0 && white(chars[to - 1])
        invariant
            to <= chars@.len(),
            trim_end_at(chars@, chars@.len() as int) == trim_end_at(chars@, to as int),
        decreases to,
    {
        to = to - 1;
    }
    if from < to {
        text_range(&chars, from, to)
    } else {
        String::new()
    }
}

/// The maximal runs of `s[i..]` without white space, in order.
pub open spec fn tokens_from(s: Seq<char>, i: int) -> Seq<Seq<char>>
    decreases s.len() - i,
{
    let from: int = skip_white(s, i);
    if i < 0 || i > s.len() || from >= s.len() || from < i {
        Seq::empty()
    } else {
        let to: int = find_white(s, from);
        if to <= from || to > s.len() {
            Seq::empty()
        } else {
            seq![s.subrange(from, to)] + tokens_from(s, to)
        }
    }
}

/// The maximal runs of `s` without white space, in order.
pub open spec fn tokens(s: Seq<char>) -> Seq<Seq<char>> {
    tokens_from(s, 0)
}

/// Computes [`tokens`].
pub fn tokens_of(text: &str) -> (out: Vec<String>)
    ensures
        views(out@) == tokens(text@),
{
    let chars: Vec<char> = chars_of(text);
    let mut out: Vec<String> = Vec::new();
    let mut i: usize = 0;
    assert(views(out@) + tokens_from(text@, 0) =~= tokens(text@));
    loop
        invariant
            i <= chars@.len(),
            chars@ == text@,
            views(out@) + tokens_from(text@, i as int) == tokens(text@),
        ensures
            views(out@) == tokens(text@),
        decreases chars@.len() - i,
    {
        let from: usize = skip_spaces(&chars, i);
        if from == chars.len() {
            assert(views(out@) + tokens_from(text@, i as int) =~= views(out@));
            break;
        }
        let to: usize = find_space(&chars, from);
        let token: String = text_range(&chars, from, to);
        proof {
            lemma_white_bounds(text@, i as int);
            lemma_white_bounds(text@, from as int);
            assert(to > from);
            lemma_views_push(out@, token);
            assert(views(out@) + tokens_from(text@, i as int) =~= views(out@.push(token))
                + tokens_from(text@, to as int));
        }
        out.push(token);
        i = to;
    }
    out
}

// ------------------------------------------------------------------ numbers

/// The number that a run of digits writes in base ten.
pub open spec fn digits_value(s: Seq<char>) -> nat
    decreases s.len(),
{
    if s.len() == 0 {
        0
    } else {
        digits_value(s.drop_last()) * 10 + digit_value(s.last())
    }
}

/// The `u64` that `s` writes: an optional `+`, then one or more digits, in range.
pub open spec fn u64_written(s: Seq<char>) -> Option<u64> {
    let body = if s.len() > 0 && s[0] == '+' {
        s.skip(1)
    } else {
        s
    };
    if body.len() > 0 && all_digits(body) && digits_value(body) <= u64::MAX {
        Some(digits_value(body) as u64)
    } else {
        None
    }
}

proof fn lemma_digits_value_mono(s: Seq<char>, n: int)
    requires
        0 <= n <= s.len(),
    ensures
        digits_value(s.take(n)) <= digits_value(s),
    decreases s.len(),
{
    if n == s.len() {
        assert(s.take(n) =~= s);
    } else {
        lemma_digits_value_mono(s.drop_last(), n);
        assert(s.drop_last().take(n) =~= s.take(n));
    }
}

/// Computes [`u64_written`].
pub fn parse_u64(text: &str) -> (n: Option<u64>)
    ensures
        n == u64_written(text@),
{
    let chars: Vec<char> = chars_of(text);
    let start: usize = if chars.len() > 0 && chars[0] == '+' {
        1
    } else {
        0
    };
    let ghost body = text@.skip(start as int);
    proof {
        assert(text@.skip(0) =~= text@);
    }
    if start == chars.len() {
        return None;
    }
    let mut value: u64 = 0;
    let mut i: usize = start;
    while i < chars.len()
        invariant
            start <= i <= chars@.len(),
            chars@ == text@,
            body == text@.skip(start as int),
            start == 0 ==> body == text@,
            start == 1 <==> (text@.len() > 0 && text@[0] == '+'),
            start <= 1,
            all_digits(body.take(i - start)),
            value == digits_value(body.take(i - start)),
        decreases chars@.len() - i,
    {
        let c: char = chars[i];
        proof {
            assert(body[i - start] == c);
            assert(body.take(i + 1 - start).drop_last() =~= body.take(i - start));
            assert(body.take(i + 1 - start).last() == c);
            lemma_digits_value_mono(body, i + 1 - start);
        }
        if c < '0' || c > '9' {
            assert(!is_digit(body[i - start]));
            return None;
        }
        let digit: u64 = c as u64 - 48;
        if value > (u64::MAX - digit) / 10 {
            return None;
        }
        value = value * 10 + digit;
        i = i + 1;
    }
    assert(body.take(i - start) =~= body);
    Some(value)
}

/// `n` written in base ten, without leading zeros.
pub open spec fn decimal(n: nat) -> Seq<char>
    decreases n,
{
    if n < 10 {
        seq![digit_char(n)]
    } else {
        decimal(n / 10).push(digit_char(n % 10))
    }
}

/// Computes [`decimal`].
pub fn decimal_of(n: u64) -> (out: String)
    ensures
        out@ == decimal(n as nat),
    decreases n,
{
    let digit: u8 = (n % 10) as u8;
    let last: char = (48 + digit) as char;
    let mut out: String = if n < 10 {
        String::new()
    } else {
        decimal_of(n / 10)
    };
    assert(last == digit_char((n % 10) as nat));
    out.push(last);
    assert(n < 10 ==> out@ =~= decimal(n as nat));
    out
}

/// Writing a number and reading it back gives the number.
pub proof fn decimal_is_read_back(n: u64)
    ensures
        u64_written(decimal(n as nat)) == Some(n),
{
    lemma_decimal(n as nat);
    let s = decimal(n as nat);
    assert(is_digit(s[0]));
}

proof fn lemma_decimal(n: nat)
    ensures
        decimal(n).len() > 0,
        all_digits(decimal(n)),
        digits_value(decimal(n)) == n,
    decreases n,
{
    if n < 10 {
        assert(decimal(n).drop_last() =~= Seq::<char>::empty());
        assert(digits_value(decimal(n).drop_last()) == 0);
    } else {
        lemma_decimal(n / 10);
        assert(decimal(n).drop_last() =~= decimal(n / 10));
    }
}

// ------------------------------------------------------------------ laws

/// The pieces with the separator between each and the next.
pub open spec fn with_separator(pieces: Seq<Seq<char>>, sep: char) -> Seq<char>
    decreases pieces.len(),
{
    if pieces.len() == 0 {
        Seq::empty()
    } else if pieces.len() == 1 {
        pieces[0]
    } else {
        pieces[0].push(sep) + with_separator(pieces.skip(1), sep)
    }
}

/// A text is its pieces with the separator between them, and no piece holds the separator.
pub proof fn a_text_is_its_pieces(s: Seq<char>, sep: char)
    ensures
        split(s, sep).len() > 0,
        with_separator(split(s, sep), sep) == s,
        forall|k: int|
            0 <= k < split(s, sep).len() ==> !(#[trigger] split(s, sep)[k]).contains(sep),
    decreases s.len(),
{
    let at: int = scan_char(s, sep, 0);
    let pieces = split(s, sep);
    lemma_scan_char_found(s, sep, 0);
    lemma_split_pieces(s, sep);
    assert forall|k: int| 0 <= k < pieces.len() implies !(#[trigger] pieces[k]).contains(sep) by {
        assert(forall|j: int| 0 <= j < pieces[k].len() ==> pieces[k][j] != sep);
    }
    if at < s.len() {
        let rest = s.skip(at + 1);
        a_text_is_its_pieces(rest, sep);
        assert(pieces.skip(1) =~= split(rest, sep));
        assert(pieces[0] == s.take(at));
        assert(pieces[0].push(sep) + rest =~= s);
    }
}

/// Pieces without the separator come out of a text as they were put into it.
#[verifier::rlimit(40)]
pub proof fn pieces_are_read_back(pieces: Seq<Seq<char>>, sep: char)
    requires
        pieces.len() > 0,
        forall|k: int| 0 <= k < pieces.len() ==> !(#[trigger] pieces[k]).contains(sep),
    ensures
        split(with_separator(pieces, sep), sep) == pieces,
    decreases pieces.len(),
{
    let s = with_separator(pieces, sep);
    let first = pieces[0];
    let k: int = first.len() as int;
    assert(forall|j: int| 0 <= j < k ==> first[j] != sep) by {
        assert forall|j: int| 0 <= j < k implies first[j] != sep by {
            assert(first.contains(first[j]));
        }
    }
    if pieces.len() == 1 {
        lemma_split(s, sep, k);
        assert(seq![s] =~= pieces);
    } else {
        let rest = pieces.skip(1);
        assert forall|j: int| 0 <= j < rest.len() implies !(#[trigger] rest[j]).contains(sep) by {
            assert(rest[j] == pieces[j + 1]);
        }
        pieces_are_read_back(rest, sep);
        let tail = with_separator(rest, sep);
        assert(s == first.push(sep) + tail);
        lemma_split(s, sep, k);
        assert(s.take(k) =~= first);
        assert(s.skip(k + 1) =~= tail);
        assert(seq![first] + rest =~= pieces);
    }
}

/// Of two lists of pieces one after the other, the pieces kept are those kept of the first and then
/// those kept of the second; of one piece, it is kept exactly if it has a character.
pub proof fn empty_pieces_alone_are_dropped(a: Seq<Seq<char>>, b: Seq<Seq<char>>, piece: Seq<char>)
    ensures
        nonempty(a + b) == nonempty(a) + nonempty(b),
        piece.len() > 0 ==> nonempty(seq![piece]) == seq![piece],
        nonempty(seq![Seq::<char>::empty()]) == Seq::<Seq<char>>::empty(),
        nonempty(Seq::empty()) == Seq::<Seq<char>>::empty(),
    decreases b.len(),
{
    assert(seq![piece].drop_last() =~= Seq::empty());
    assert(nonempty(seq![piece].drop_last()) =~= Seq::empty());
    assert(piece.len() > 0 ==> nonempty(seq![piece]) =~= seq![piece]);
    let nothing = seq![Seq::<char>::empty()];
    assert(nothing.drop_last() =~= Seq::empty());
    if b.len() == 0 {
        assert(a + b =~= a);
        assert(nonempty(a) + nonempty(b) =~= nonempty(a));
    } else {
        empty_pieces_alone_are_dropped(a, b.drop_last(), piece);
        assert((a + b).drop_last() =~= a + b.drop_last());
        assert((a + b).last() == b.last());
        assert(nonempty(a + b) =~= nonempty(a) + nonempty(b));
    }
}

/// Which characters are white space.
pub proof fn white_space_is_blank(c: char)
    ensures
        is_white(c) <==> {
            ||| c == ' ' || c == '\t' || c == '\n' || c == '\r' || c == '\u{b}' || c == '\u{c}'
            ||| c == '\u{85}' || c == '\u{a0}' || c == '\u{1680}'
            ||| '\u{2000}' <= c && c <= '\u{200a}'
            ||| c == '\u{2028}' || c == '\u{2029}' || c == '\u{202f}' || c == '\u{205f}'
            ||| c == '\u{3000}'
        },
{
}

/// Whether `s` holds no white space.
pub open spec fn is_word(s: Seq<char>) -> bool {
    s.len() > 0 && forall|i: int| 0 <= i < s.len() ==> !is_white(#[trigger] s[i])
}

/// The words of a text: an empty text has none; white space in front changes nothing; a run without
/// white space, at the end of the text or before white space, is the first of them as it stands.
#[verifier::rlimit(40)]
pub proof fn the_words_of_a_text(word: Seq<char>, rest: Seq<char>)
    ensures
        tokens(Seq::empty()) == Seq::<Seq<char>>::empty(),
        rest.len() > 0 && is_white(rest[0]) ==> tokens(rest) == tokens(rest.skip(1)),
        is_word(word) && (rest.len() == 0 || is_white(rest[0])) ==> tokens(word + rest) == seq![word]
            + tokens(rest),
{
    if rest.len() > 0 && is_white(rest[0]) {
        let tail = rest.skip(1);
        assert(seq![rest[0]] + tail =~= rest);
        lemma_tokens_shift(seq![rest[0]], tail, 0);
        lemma_skip_shift(seq![rest[0]], tail, 0);
        assert(skip_white(rest, 0) == skip_white(rest, 1));
        lemma_white_bounds(rest, 1);
        assert(tokens_from(rest, 0) == tokens_from(rest, 1));
    }
    if is_word(word) && (rest.len() == 0 || is_white(rest[0])) {
        let s = word + rest;
        let n: int = word.len() as int;
        assert(!is_white(s[0])) by {
            assert(s[0] == word[0]);
        }
        assert forall|j: int| 0 <= j < n implies !is_white(s[j]) by {
            assert(s[j] == word[j]);
        }
        assert(n < s.len() ==> s[n] == rest[0]);
        lemma_find_white(s, 0, n);
        assert(s.subrange(0, n) =~= word);
        lemma_tokens_shift(word, rest, 0);
    }
}

proof fn lemma_find_white(s: Seq<char>, i: int, k: int)
    requires
        0 <= i <= k <= s.len(),
        forall|j: int| i <= j < k ==> !is_white(s[j]),
        k == s.len() || is_white(s[k]),
    ensures
        find_white(s, i) == k,
    decreases k - i,
{
    if i < k {
        lemma_find_white(s, i + 1, k);
    }
}

proof fn lemma_skip_white(s: Seq<char>, i: int, k: int)
    requires
        0 <= i <= k <= s.len(),
        forall|j: int| i <= j < k ==> is_white(s[j]),
        k == s.len() || !is_white(s[k]),
    ensures
        skip_white(s, i) == k,
    decreases k - i,
{
    if i < k {
        lemma_skip_white(s, i + 1, k);
    }
}

proof fn lemma_skip_shift(a: Seq<char>, t: Seq<char>, j: int)
    requires
        0 <= j <= t.len(),
    ensures
        skip_white(a + t, a.len() + j) == a.len() + skip_white(t, j),
        find_white(a + t, a.len() + j) == a.len() + find_white(t, j),
    decreases t.len() - j,
{
    if j < t.len() {
        assert((a + t)[a.len() + j] == t[j]);
        lemma_skip_shift(a, t, j + 1);
    }
}

proof fn lemma_tokens_shift(a: Seq<char>, t: Seq<char>, j: int)
    requires
        0 <= j <= t.len(),
    ensures
        tokens_from(a + t, a.len() + j) == tokens_from(t, j),
    decreases t.len() - j,
{
    let s = a + t;
    let n: int = a.len() as int;
    lemma_skip_shift(a, t, j);
    lemma_white_bounds(t, j);
    let from: int = skip_white(t, j);
    if from < t.len() {
        lemma_skip_shift(a, t, from);
        lemma_white_bounds(t, from);
        let to: int = find_white(t, from);
        assert(find_white(t, from) == find_white(t, from + 1));
        lemma_white_bounds(t, from + 1);
        assert(s.subrange(n + from, n + to) =~= t.subrange(from, to));
        lemma_tokens_shift(a, t, to);
    }
}

/// Whether `s` holds white space alone.
pub open spec fn is_blank(s: Seq<char>) -> bool {
    forall|i: int| 0 <= i < s.len() ==> is_white(#[trigger] s[i])
}

/// Trimming takes the white space off both ends, and nothing else.
pub proof fn trimming_takes_the_blanks_off(front: Seq<char>, core: Seq<char>, back: Seq<char>)
    requires
        is_blank(front),
        is_blank(back),
        core.len() > 0 ==> !is_white(core[0]) && !is_white(core.last()),
    ensures
        trimmed(front + core + back) == core,
{
    let s = front + core + back;
    let a: int = front.len() as int;
    let b: int = a + core.len();
    assert forall|j: int| 0 <= j < a implies is_white(s[j]) by {
        assert(s[j] == front[j]);
    }
    assert forall|j: int| b <= j < s.len() implies is_white(s[j]) by {
        assert(s[j] == back[j - b]);
    }
    if core.len() > 0 {
        assert(s[a] == core[0]);
        assert(s[b - 1] == core.last());
        lemma_skip_white(s, 0, a);
        lemma_trim_end(s, s.len() as int, b);
        assert(s.subrange(a, b) =~= core);
    } else {
        lemma_skip_white(s, 0, s.len() as int);
        lemma_trim_end(s, s.len() as int, 0);
        assert(core =~= Seq::empty());
    }
}

proof fn lemma_trim_end(s: Seq<char>, n: int, k: int)
    requires
        0 <= k <= n <= s.len(),
        forall|j: int| k <= j < n ==> is_white(s[j]),
        k == 0 || !is_white(s[k - 1]),
    ensures
        trim_end_at(s, n) == k,
    decreases n,
{
    if k < n {
        lemma_trim_end(s, n - 1, k);
    }
}

/// Lowering the case of ASCII letters changes a capital into the small letter of its name and leaves
/// every other character as it is.
pub proof fn lowering_changes_capitals_alone(s: Seq<char>, i: int)
    requires
        0 <= i < s.len(),
    ensures
        ascii_lowered(s).len() == s.len(),
        s[i] < 'A' || 'Z' < s[i] ==> ascii_lowered(s)[i] == s[i],
        'A' <= s[i] && s[i] <= 'Z' ==> ascii_lowered(s)[i] as int - 'a' as int == s[i] as int
            - 'A' as int,
{
}

/// Whether `s` is zeros alone.
pub open spec fn is_zeros(s: Seq<char>) -> bool {
    forall|i: int| 0 <= i < s.len() ==> #[trigger] s[i] == '0'
}

/// A number is read out of its decimal digits, with or without a `+` and with any number of zeros in
/// front.
pub proof fn zeros_in_front_change_nothing(zeros: Seq<char>, n: u64)
    requires
        is_zeros(zeros),
    ensures
        u64_written(zeros + decimal(n as nat)) == Some(n),
        u64_written(seq!['+'] + zeros + decimal(n as nat)) == Some(n),
{
    let digits = decimal(n as nat);
    let s = zeros + digits;
    lemma_decimal(n as nat);
    lemma_zeros(zeros, digits);
    assert forall|i: int| 0 <= i < s.len() implies is_digit(#[trigger] s[i]) by {
        if i < zeros.len() {
            assert(s[i] == zeros[i]);
        } else {
            assert(s[i] == digits[i - zeros.len()]);
        }
    }
    assert(is_digit(s[0]));
    let signed = seq!['+'] + zeros + digits;
    assert(signed.skip(1) =~= s);
}

/// Nothing else is read as a number: a text that is one is the number's decimal digits, behind zeros
/// and possibly a `+`.
pub proof fn only_decimal_digits_are_a_number(s: Seq<char>)
    requires
        u64_written(s) is Some,
    ensures
        exists|zeros: Seq<char>| #[trigger]
            is_zeros(zeros) && ({
                let shown = zeros + decimal(u64_written(s)->0 as nat);
                s == shown || s == seq!['+'] + shown
            }),
{
    let body = if s[0] == '+' {
        s.skip(1)
    } else {
        s
    };
    let n: nat = digits_value(body);
    let k: int = lemma_digits_are_decimal(body);
    let zeros = body.take(k);
    assert(is_zeros(zeros));
    assert(zeros + decimal(n) =~= body);
    if s[0] == '+' {
        assert(seq!['+'] + body =~= s);
    }
}

proof fn lemma_zeros(zeros: Seq<char>, digits: Seq<char>)
    requires
        is_zeros(zeros),
    ensures
        digits_value(zeros + digits) == digits_value(digits),
    decreases digits.len(), zeros.len(),
{
    let s = zeros + digits;
    if digits.len() > 0 {
        lemma_zeros(zeros, digits.drop_last());
        assert(s.drop_last() =~= zeros + digits.drop_last());
        assert(s.last() == digits.last());
    } else if zeros.len() > 0 {
        lemma_zeros(zeros.drop_last(), digits);
        assert(s.drop_last() =~= zeros.drop_last() + digits);
        assert(s.last() == zeros.last());
        assert(zeros[zeros.len() - 1] == '0');
    }
}

#[verifier::rlimit(40)]
proof fn lemma_digits_are_decimal(body: Seq<char>) -> (k: int)
    requires
        body.len() > 0,
        all_digits(body),
    ensures
        0 <= k < body.len(),
        is_zeros(body.take(k)),
        body.skip(k) == decimal(digits_value(body)),
    decreases body.len(),
{
    let head = body.drop_last();
    let c = body.last();
    assert(is_digit(body[body.len() - 1]));
    assert(digit_char(digit_value(c)) == c);
    let v: nat = digits_value(head);
    assert(digits_value(body) == v * 10 + digit_value(c));
    if head.len() == 0 {
        assert(head =~= Seq::empty());
        assert(v == 0);
        assert(body.skip(0) =~= seq![c]);
        0
    } else {
        assert(forall|i: int| 0 <= i < head.len() ==> head[i] == body[i]);
        assert(all_digits(head)) by {
            assert forall|i: int| 0 <= i < head.len() implies is_digit(#[trigger] head[i]) by {
                assert(head[i] == body[i]);
            }
        }
        let k: int = lemma_digits_are_decimal(head);
        if v == 0 {
            lemma_decimal(0);
            assert(head.skip(k) == decimal(0));
            assert(decimal(0) =~= seq!['0']);
            assert(decimal(0).len() == 1);
            assert(k == head.len() - 1);
            assert(head[k] == head.skip(k)[0]);
            assert forall|i: int| 0 <= i < body.take(k + 1).len() implies #[trigger] body.take(
                k + 1,
            )[i] == '0' by {
                if i < k {
                    assert(head.take(k)[i] == '0');
                    assert(body[i] == head[i]);
                }
            }
            assert(body.skip(k + 1) =~= seq![c]);
            k + 1
        } else {
            assert((v * 10 + digit_value(c)) / 10 == v);
            assert((v * 10 + digit_value(c)) % 10 == digit_value(c));
            assert(body.skip(k) =~= head.skip(k).push(c));
            assert(body.take(k) =~= head.take(k));
            k
        }
    }
}

/// Where one of two texts is empty, or white space stands where they meet, the words of the two in
/// one are the words of the first and then those of the second.
#[verifier::rlimit(40)]
pub proof fn the_words_of_two_texts(a: Seq<char>, b: Seq<char>)
    requires
        a.len() == 0 || b.len() == 0 || is_white(a.last()) || is_white(b[0]),
    ensures
        tokens(a + b) == tokens(a) + tokens(b),
    decreases a.len(),
{
    the_words_of_a_text(Seq::empty(), Seq::empty());
    if a.len() == 0 {
        assert(a + b =~= b);
        assert(a =~= Seq::empty());
        assert(tokens(a) + tokens(b) =~= tokens(b));
    } else if is_white(a[0]) {
        the_words_of_a_text(Seq::empty(), a);
        the_words_of_a_text(Seq::empty(), a + b);
        assert((a + b)[0] == a[0]);
        let rest = a.skip(1);
        assert((a + b).skip(1) =~= rest + b);
        if rest.len() > 0 {
            assert(rest.last() == a.last());
        }
        the_words_of_two_texts(rest, b);
    } else {
        let n: int = find_white(a, 0);
        lemma_white_bounds(a, 0);
        lemma_before_white(a, 0);
        if n == 0 {
            assert(false);
        }
        let word = a.take(n);
        let rest = a.skip(n);
        assert(word + rest =~= a);
        assert forall|i: int| 0 <= i < word.len() implies !is_white(#[trigger] word[i]) by {
            assert(word[i] == a[i]);
        }
        assert(is_word(word));
        the_words_of_a_text(word, rest);
        assert(word + (rest + b) =~= a + b);
        if n < a.len() {
            assert(rest[0] == a[n]);
            assert((rest + b)[0] == a[n]);
            assert(rest.last() == a.last());
        } else {
            assert(rest + b =~= b);
            assert(rest =~= Seq::empty());
            if b.len() > 0 && !is_white(b[0]) {
                assert(a.last() == word[n - 1]);
            }
        }
        the_words_of_a_text(word, rest + b);
        the_words_of_two_texts(rest, b);
        assert(seq![word] + (tokens(rest) + tokens(b)) =~= seq![word] + tokens(rest) + tokens(b));
    }
}

/// A text of white space alone has no words.
pub proof fn lemma_blank_has_no_words(s: Seq<char>)
    requires
        is_blank(s),
    ensures
        tokens(s) == Seq::<Seq<char>>::empty(),
    decreases s.len(),
{
    the_words_of_a_text(Seq::empty(), s);
    if s.len() > 0 {
        assert(is_white(s[0]));
        let rest = s.skip(1);
        assert forall|i: int| 0 <= i < rest.len() implies is_white(#[trigger] rest[i]) by {
            assert(rest[i] == s[i + 1]);
        }
        lemma_blank_has_no_words(rest);
    } else {
        assert(s =~= Seq::empty());
    }
}

proof fn lemma_before_white(s: Seq<char>, i: int)
    requires
        0 <= i <= s.len(),
    ensures
        forall|j: int| i <= j < find_white(s, i) ==> !is_white(s[j]),
    decreases s.len() - i,
{
    if i < s.len() && !is_white(s[i]) {
        lemma_before_white(s, i + 1);
    }
}

/// A number in decimal is a word of digits: it has a digit, no white space and no sign.
pub proof fn a_decimal_is_a_word_of_digits(n: nat)
    ensures
        decimal(n).len() > 0,
        forall|i: int| 0 <= i < decimal(n).len() ==> '0' <= #[trigger] decimal(n)[i] <= '9',
        is_word(decimal(n)),
{
    lemma_decimal(n);
    assert forall|i: int| 0 <= i < decimal(n).len() implies '0' <= #[trigger] decimal(n)[i] <= '9' by {
        assert(is_digit(decimal(n)[i]));
    }
}

/// Of two texts with the separator between them, the pieces are those of the first and then those of the
/// second.
pub proof fn the_pieces_of_two_texts(a: Seq<char>, b: Seq<char>, sep: char)
    ensures
        split(a.push(sep) + b, sep) == split(a, sep) + split(b, sep),
{
    let (p, q) = (split(a, sep), split(b, sep));
    a_text_is_its_pieces(a, sep);
    a_text_is_its_pieces(b, sep);
    lemma_joined_pieces(p, q, sep);
    let all = p + q;
    assert forall|k: int| 0 <= k < all.len() implies !(#[trigger] all[k]).contains(sep) by {
        if k < p.len() {
            assert(all[k] == p[k]);
        } else {
            assert(all[k] == q[k - p.len()]);
        }
    }
    pieces_are_read_back(all, sep);
}

proof fn lemma_joined_pieces(p: Seq<Seq<char>>, q: Seq<Seq<char>>, sep: char)
    requires
        p.len() > 0,
        q.len() > 0,
    ensures
        with_separator(p + q, sep) == with_separator(p, sep).push(sep) + with_separator(q, sep),
    decreases p.len(),
{
    let all = p + q;
    assert(all[0] == p[0]);
    if p.len() == 1 {
        assert(all.skip(1) =~= q);
    } else {
        assert(all.skip(1) =~= p.skip(1) + q);
        lemma_joined_pieces(p.skip(1), q, sep);
        assert(with_separator(all, sep) =~= with_separator(p, sep).push(sep) + with_separator(
            q,
            sep,
        ));
    }
}

} // verus!
