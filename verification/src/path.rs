//! Lexical path operations.
//!
//! The library holds a path as text with `/` between its components, whatever the host; the edge
//! of the program converts. A path is rooted when it starts with `/`; on Windows a drive is the
//! first component of the paths on it. Repeated separators, a
//! trailing separator and a `.` that is not the first component carry no meaning, so a component
//! is one of: the root, a leading `.`, a `..`, or a name.

use vstd::prelude::*;

use crate::text::{
    cat3, chars_of, lemma_scan_char_found, lemma_split, lemma_views_push, pieces_are_read_back,
    same_text, scan_char, split, split_text, text_range, the_pieces_of_two_texts, views,
    with_separator,
};

verus! {

/// Whether the path starts at the root.
pub open spec fn rooted(p: Seq<char>) -> bool {
    p.len() > 0 && p[0] == '/'
}

/// Whether the path starts with the component `.`.
pub open spec fn starts_here(p: Seq<char>) -> bool {
    p.len() > 0 && p[0] == '.' && (p.len() == 1 || p[1] == '/')
}

/// Where the components after the root or the leading `.` begin.
pub open spec fn body_start(p: Seq<char>) -> int {
    if rooted(p) || starts_here(p) {
        1
    } else {
        0
    }
}

/// Where the component that ends at `end` begins: after the last separator, or at the body's
/// start.
pub open spec fn component_start(p: Seq<char>, end: int) -> int
    decreases end,
{
    if end <= body_start(p) || end > p.len() || p[end - 1] == '/' {
        end
    } else {
        component_start(p, end - 1)
    }
}

/// Where the text before the component that begins at `start` ends, its separator left out.
pub open spec fn before(p: Seq<char>, start: int) -> int {
    if start > body_start(p) {
        start - 1
    } else {
        start
    }
}

/// Whether the text between `start` and `end` is no component: nothing at all, or `.`.
pub open spec fn is_void(p: Seq<char>, start: int, end: int) -> bool {
    start == end || (end == start + 1 && p[start] == '.')
}

/// `end` moved back over trailing separators and `.` components.
pub open spec fn trim_back(p: Seq<char>, end: int) -> int
    decreases end,
{
    let start: int = component_start(p, end);
    if end <= body_start(p) || end > p.len() || !is_void(p, start, end) || before(p, start) >= end {
        end
    } else {
        trim_back(p, before(p, start))
    }
}

/// Where the last component of the body ends.
pub open spec fn last_end(p: Seq<char>) -> int {
    trim_back(p, p.len() as int)
}

/// Where the last component of the body begins.
pub open spec fn last_start(p: Seq<char>) -> int {
    component_start(p, last_end(p))
}

/// The final component, where it is a name.
pub open spec fn name_of(p: Seq<char>) -> Option<Seq<char>> {
    let name = p.subrange(last_start(p), last_end(p));
    if last_end(p) <= body_start(p) || name == seq!['.', '.'] {
        None
    } else {
        Some(name)
    }
}

/// The path without its final component. The root and the empty path have none.
pub open spec fn parent_of(p: Seq<char>) -> Option<Seq<char>> {
    if last_end(p) > body_start(p) {
        Some(p.take(trim_back(p, before(p, last_start(p)))))
    } else if starts_here(p) {
        Some(Seq::empty())
    } else {
        None
    }
}

/// `leaf` under `base`; `leaf` itself where it is absolute.
pub open spec fn joined(base: Seq<char>, leaf: Seq<char>) -> Seq<char> {
    if rooted(leaf) {
        leaf
    } else if base.len() == 0 || base.last() == '/' {
        base + leaf
    } else {
        base + seq!['/'] + leaf
    }
}

/// The path with its final name replaced, or with the name added where it has none.
pub open spec fn with_name(p: Seq<char>, name: Seq<char>) -> Seq<char> {
    if name_of(p) is Some {
        joined(parent_of(p)->0, name)
    } else {
        joined(p, name)
    }
}

/// The position of the last dot of `name` after its first character, or the length of `name`.
pub open spec fn last_dot(name: Seq<char>, end: int) -> int
    decreases end,
{
    if end <= 1 || end > name.len() {
        name.len() as int
    } else if name[end - 1] == '.' {
        end - 1
    } else {
        last_dot(name, end - 1)
    }
}

/// The path with the extension of its final name replaced by `ext`, or added where it has none.
/// A path without a final name is left as it is.
pub open spec fn with_ext(p: Seq<char>, ext: Seq<char>) -> Seq<char> {
    match name_of(p) {
        Some(name) => p.take(last_start(p) + last_dot(name, name.len() as int)) + seq!['.'] + ext,
        None => p,
    }
}

/// The pieces that are components: neither nothing nor `.`.
pub open spec fn real_pieces(pieces: Seq<Seq<char>>) -> Seq<Seq<char>>
    decreases pieces.len(),
{
    if pieces.len() == 0 {
        Seq::empty()
    } else if pieces.last().len() == 0 || pieces.last() == seq!['.'] {
        real_pieces(pieces.drop_last())
    } else {
        real_pieces(pieces.drop_last()).push(pieces.last())
    }
}

/// The root or the leading `.`, where the path has one.
pub open spec fn head_piece(p: Seq<char>) -> Seq<Seq<char>> {
    if body_start(p) == 1 {
        seq![p.take(1)]
    } else {
        Seq::empty()
    }
}

/// The components of a path, the root or the leading `.` first.
pub open spec fn components(p: Seq<char>) -> Seq<Seq<char>> {
    head_piece(p) + real_pieces(split(p.skip(body_start(p)), '/'))
}

/// Whether `p` is `root` or lies below it, component by component.
pub open spec fn within(p: Seq<char>, root: Seq<char>) -> bool {
    components(root).is_prefix_of(components(p))
}

/// Whether `p` lies below `root`, component by component, and is not `root` itself.
pub open spec fn strictly_within(p: Seq<char>, root: Seq<char>) -> bool {
    within(p, root) && components(p) != components(root)
}

/// Whether the path is absolute on the host: on Windows, below a drive or a share.
pub open spec fn absolute_on(p: Seq<char>, windows: bool) -> bool {
    if windows {
        ||| p.len() >= 3 && is_letter(p[0]) && p[1] == ':' && p[2] == '/'
        ||| p.len() >= 2 && p[0] == '/' && p[1] == '/'
    } else {
        rooted(p)
    }
}

/// Whether `c` can name a drive.
pub open spec fn is_letter(c: char) -> bool {
    ('a' <= c && c <= 'z') || ('A' <= c && c <= 'Z')
}

// ------------------------------------------------------------------ facts

/// The bounds of what the scans find.
pub proof fn lemma_component(p: Seq<char>, end: int)
    requires
        body_start(p) <= end <= p.len(),
    ensures
        body_start(p) <= component_start(p, end) <= end,
        forall|j: int| component_start(p, end) <= j < end ==> p[j] != '/',
        component_start(p, end) > body_start(p) ==> p[component_start(p, end) - 1] == '/',
    decreases end,
{
    if !(end <= body_start(p) || p[end - 1] == '/') {
        lemma_component(p, end - 1);
    }
}

/// [`component_start`] is the last separator's successor.
pub proof fn lemma_component_is(p: Seq<char>, start: int, end: int)
    requires
        body_start(p) <= start <= end <= p.len(),
        forall|j: int| start <= j < end ==> p[j] != '/',
        start == body_start(p) || p[start - 1] == '/',
    ensures
        component_start(p, end) == start,
    decreases end,
{
    if start < end {
        lemma_component_is(p, start, end - 1);
    }
}

/// What [`trim_back`] leaves: a shorter or equal end, at the body's start or after a component.
pub proof fn lemma_trim(p: Seq<char>, end: int)
    requires
        body_start(p) <= end <= p.len(),
    ensures
        body_start(p) <= trim_back(p, end) <= end,
        trim_back(p, end) > body_start(p) ==> !is_void(
            p,
            component_start(p, trim_back(p, end)),
            trim_back(p, end),
        ),
    decreases end,
{
    let start: int = component_start(p, end);
    lemma_component(p, end);
    if !(end <= body_start(p) || !is_void(p, start, end)) {
        if before(p, start) < end {
            lemma_trim(p, before(p, start));
        }
    }
}

/// The bounds of the final component.
pub proof fn lemma_last(p: Seq<char>)
    ensures
        body_start(p) <= last_start(p) <= last_end(p) <= p.len(),
        forall|j: int| last_start(p) <= j < last_end(p) ==> p[j] != '/',
        last_end(p) > body_start(p) ==> !is_void(p, last_start(p), last_end(p)),
        name_of(p) matches Some(name) ==> name.len() > 0 && forall|j: int|
            0 <= j < name.len() ==> #[trigger] name[j] != '/',
{
    lemma_trim(p, p.len() as int);
    lemma_component(p, last_end(p));
}

/// Scans over a shared prefix look the same in both paths, where the two have the same body.
proof fn lemma_shared_scans(p: Seq<char>, q: Seq<char>, end: int)
    requires
        end <= p.len(),
        end <= q.len(),
        forall|j: int| 0 <= j < end ==> p[j] == q[j],
        body_start(p) == body_start(q),
        body_start(q) <= end,
    ensures
        component_start(p, end) == component_start(q, end),
        trim_back(p, end) == trim_back(q, end),
    decreases end,
{
    lemma_component(q, end);
    lemma_component(p, end);
    lemma_component_is(p, component_start(q, end), end);
    let start: int = component_start(q, end);
    if end > body_start(q) && is_void(q, start, end) && before(q, start) < end {
        lemma_shared_scans(p, q, before(q, start));
    }
}

/// Nothing after the last dot is a dot.
proof fn lemma_last_dot(name: Seq<char>, end: int)
    requires
        0 < end <= name.len(),
    ensures
        1 <= last_dot(name, end) <= name.len(),
        last_dot(name, end) < name.len() ==> last_dot(name, end) < end,
        forall|j: int| 1 <= j < end && name[j] == '.' ==> last_dot(name, end) < name.len() && j
            <= last_dot(name, end),
    decreases end,
{
    if end > 1 && name[end - 1] != '.' {
        lemma_last_dot(name, end - 1);
    }
}

/// Replacing an extension gives another path in the same directory.
pub proof fn lemma_with_extension(p: Seq<char>, ext: Seq<char>)
    requires
        name_of(p) is Some,
        ext.len() > 0,
        forall|j: int| 0 <= j < ext.len() ==> #[trigger] ext[j] != '/',
    ensures
        parent_of(with_ext(p, ext)) == parent_of(p),
        name_of(with_ext(p, ext)) is Some,
{
    lemma_last(p);
    let name = name_of(p)->0;
    lemma_last_dot(name, name.len() as int);
    let s: int = last_start(p);
    let d: int = last_dot(name, name.len() as int);
    let q = with_ext(p, ext);
    let n: int = q.len() as int;
    assert(q =~= p.take(s + d) + seq!['.'] + ext);
    assert(forall|j: int| 0 <= j < s + d ==> q[j] == p[j]);
    assert(q[s + d] == '.');
    lemma_component(p, last_end(p));
    assert(body_start(q) == body_start(p)) by {
        if s + d == 1 {
            assert(q[1] == '.');
        }
    }
    assert forall|j: int| s <= j < n implies q[j] != '/' by {
        if j > s + d {
            assert(q[j] == ext[j - s - d - 1]);
        }
    }
    lemma_component_is(q, s, n);
    assert(!is_void(q, s, n));
    assert(trim_back(q, n) == n);
    assert(before(q, s) == before(p, s));
    lemma_shared_scans(p, q, before(p, s));
    lemma_trim(p, before(p, s));
    assert(parent_of(q)->0 =~= parent_of(p)->0);
    assert(q.subrange(s, n).len() > 2);
}

/// Whether `name` can stand as a final name: not empty, without a separator, not `.` or `..`.
pub open spec fn is_plain(name: Seq<char>) -> bool {
    &&& name.len() > 0
    &&& forall|j: int| 0 <= j < name.len() ==> #[trigger] name[j] != '/'
    &&& name != seq!['.']
    &&& name != seq!['.', '.']
}

/// What is joined below a trimmed directory has that directory as its parent and the leaf as its
/// name.
pub proof fn lemma_join(base: Seq<char>, leaf: Seq<char>)
    requires
        is_plain(leaf),
        trim_back(base, base.len() as int) == base.len(),
    ensures
        parent_of(joined(base, leaf)) == Some(base),
        name_of(joined(base, leaf)) == Some(leaf),
{
    let p = joined(base, leaf);
    assert(!rooted(leaf)) by {
        if rooted(leaf) {
            assert(leaf[0] == '/');
        }
    }
    let n: int = p.len() as int;
    let start: int = n - leaf.len();
    assert(p.subrange(start, n) =~= leaf);
    assert(p.take(base.len() as int) =~= base);
    if base.len() == 0 {
        assert(p =~= leaf);
        assert(!starts_here(p)) by {
            if starts_here(p) && p.len() > 1 {
                assert(leaf[1] == '/');
            } else if starts_here(p) {
                assert(leaf =~= seq!['.']);
            }
        }
    } else if base.last() == '/' {
        // A trimmed base that ends in a separator is the root alone.
        lemma_component(base, base.len() as int);
        if base.len() > 1 {
            lemma_trim(base, base.len() - 1);
        }
        assert(base.len() == 1);
    } else {
        assert(p[base.len() as int] == '/');
        assert(starts_here(p) == starts_here(base));
    }
    assert(body_start(p) == body_start(base));
    assert forall|j: int| start <= j < n implies p[j] != '/' by {
        assert(leaf[j - start] == p[j]);
    }
    lemma_component_is(p, start, n);
    assert(!is_void(p, start, n)) by {
        if n == start + 1 && p[start] == '.' {
            assert(leaf =~= seq!['.']);
        }
    }
    assert(trim_back(p, n) == n);
    assert(before(p, start) == base.len());
    assert(forall|j: int| 0 <= j < base.len() ==> p[j] == base[j]);
    lemma_shared_scans(p, base, base.len() as int);
}

/// A parent is trimmed: joining a plain name to it and taking the parent again gives it back.
pub proof fn lemma_parent_is_trimmed(p: Seq<char>)
    requires
        parent_of(p) is Some,
    ensures
        trim_back(parent_of(p)->0, parent_of(p)->0.len() as int) == parent_of(p)->0.len(),
{
    let q = parent_of(p)->0;
    lemma_last(p);
    if last_end(p) > body_start(p) {
        let b: int = before(p, last_start(p));
        lemma_trim(p, b);
        let end: int = trim_back(p, b);
        assert(q == p.take(end));
        if end < p.len() {
            assert(body_start(q) == body_start(p)) by {
                if end == 0 {
                } else if end == 1 && p[0] == '.' {
                    // A first component `.` is the leading one, or it is followed by more text.
                    lemma_component(p, 1);
                    if !starts_here(p) {
                        lemma_trim_settles(p, b);
                        assert(is_void(p, 0, 1));
                    }
                }
            }
            lemma_shared_scans(p, q, end);
            lemma_trim_settles(p, b);
        }
    }
}

/// Trimming twice is trimming once.
proof fn lemma_trim_settles(p: Seq<char>, end: int)
    requires
        body_start(p) <= end <= p.len(),
    ensures
        trim_back(p, trim_back(p, end)) == trim_back(p, end),
    decreases end,
{
    let start: int = component_start(p, end);
    lemma_component(p, end);
    if end > body_start(p) && is_void(p, start, end) && before(p, start) < end {
        lemma_trim_settles(p, before(p, start));
    }
}

/// The components of the body up to `end`.
spec fn pieces_to(p: Seq<char>, end: int) -> Seq<Seq<char>> {
    real_pieces(split(p.subrange(body_start(p), end), '/'))
}

/// A text is split where two texts are put together with the separator.
proof fn lemma_split_joined(a: Seq<char>, sep: char, b: Seq<char>)
    ensures
        split(a + seq![sep] + b, sep) == split(a, sep) + split(b, sep),
    decreases a.len(),
{
    let all = a + seq![sep] + b;
    let k: int = scan_char(a, sep, 0);
    lemma_scan_char_found(a, sep, 0);
    if k < a.len() {
        let rest = a.skip(k + 1);
        lemma_split(a, sep, k);
        lemma_split(all, sep, k);
        assert(all.take(k) =~= a.take(k));
        assert(all.skip(k + 1) =~= rest + seq![sep] + b);
        lemma_split_joined(rest, sep, b);
        assert(split(all, sep) =~= split(a, sep) + split(b, sep));
    } else {
        let n: int = a.len() as int;
        lemma_split(a, sep, n);
        assert(all[n] == sep);
        lemma_split(all, sep, n);
        assert(all.take(n) =~= a);
        assert(all.skip(n + 1) =~= b);
    }
}

proof fn lemma_real_pieces_joined(a: Seq<Seq<char>>, b: Seq<Seq<char>>)
    ensures
        real_pieces(a + b) == real_pieces(a) + real_pieces(b),
    decreases b.len(),
{
    if b.len() == 0 {
        assert(a + b =~= a);
        assert(real_pieces(a) + real_pieces(b) =~= real_pieces(a));
    } else {
        lemma_real_pieces_joined(a, b.drop_last());
        assert((a + b).drop_last() =~= a + b.drop_last());
        assert((a + b).last() == b.last());
        assert(real_pieces(a + b) =~= real_pieces(a) + real_pieces(b));
    }
}

/// The components up to `end` are those before the last one, and that one, where it is none of the
/// void ones.
proof fn lemma_pieces_step(p: Seq<char>, end: int)
    requires
        body_start(p) <= end <= p.len(),
    ensures
        pieces_to(p, body_start(p)) == Seq::<Seq<char>>::empty(),
        pieces_to(p, end) == pieces_to(p, before(p, component_start(p, end))) + (if is_void(
            p,
            component_start(p, end),
            end,
        ) {
            Seq::<Seq<char>>::empty()
        } else {
            seq![p.subrange(component_start(p, end), end)]
        }),
{
    let bs: int = body_start(p);
    let start: int = component_start(p, end);
    lemma_component(p, end);
    reveal_with_fuel(real_pieces, 2);
    let nothing = p.subrange(bs, bs);
    assert(nothing.len() == 0);
    lemma_split(nothing, '/', 0);
    assert(seq![nothing].drop_last() =~= Seq::empty());
    assert(pieces_to(p, bs) =~= Seq::<Seq<char>>::empty());
    let last = p.subrange(start, end);
    lemma_split(last, '/', last.len() as int);
    assert(seq![last].drop_last() =~= Seq::empty());
    assert(is_void(p, start, end) == (last.len() == 0 || last == seq!['.'])) by {
        if is_void(p, start, end) && last.len() == 1 {
            assert(last =~= seq!['.']);
        }
        if last == seq!['.'] {
            assert(last[0] == '.');
        }
    }
    if start > bs {
        let front = p.subrange(bs, start - 1);
        assert(p.subrange(bs, end) =~= front + seq!['/'] + last);
        lemma_split_joined(front, '/', last);
        lemma_real_pieces_joined(split(front, '/'), seq![last]);
    } else {
        assert(p.subrange(bs, end) =~= last);
    }
    assert(real_pieces(seq![last]) =~= if is_void(p, start, end) {
        Seq::<Seq<char>>::empty()
    } else {
        seq![last]
    });
}

/// Trimming leaves the components.
proof fn lemma_pieces_trimmed(p: Seq<char>, end: int)
    requires
        body_start(p) <= end <= p.len(),
    ensures
        pieces_to(p, trim_back(p, end)) == pieces_to(p, end),
    decreases end,
{
    let start: int = component_start(p, end);
    lemma_component(p, end);
    lemma_pieces_step(p, end);
    if end > body_start(p) && is_void(p, start, end) && before(p, start) < end {
        lemma_pieces_trimmed(p, before(p, start));
        assert(pieces_to(p, end) =~= pieces_to(p, before(p, start)));
    }
}

/// The body of a parent begins where that of the path does.
proof fn lemma_parent_body(p: Seq<char>)
    requires
        last_end(p) > body_start(p),
    ensures
        body_start(parent_of(p)->0) == body_start(p),
{
    lemma_last(p);
    let b: int = before(p, last_start(p));
    lemma_trim(p, b);
    let end: int = trim_back(p, b);
    if end == 1 && p[0] == '.' {
        lemma_component(p, 1);
        if !starts_here(p) {
            lemma_trim_settles(p, b);
            assert(is_void(p, 0, 1));
        }
    }
}

/// The components of a path with a final name are those of its parent, and that name.
pub proof fn lemma_components(p: Seq<char>)
    requires
        name_of(p) is Some,
    ensures
        components(p) == components(parent_of(p)->0).push(name_of(p)->0),
{
    let bs: int = body_start(p);
    let q = parent_of(p)->0;
    lemma_last(p);
    lemma_parent_body(p);
    let b: int = before(p, last_start(p));
    lemma_trim(p, b);
    let e: int = trim_back(p, b);
    lemma_pieces_trimmed(p, p.len() as int);
    lemma_pieces_step(p, last_end(p));
    lemma_pieces_trimmed(p, b);
    assert(p.skip(bs) =~= p.subrange(bs, p.len() as int));
    assert(q.skip(bs) =~= p.subrange(bs, e));
    assert(head_piece(q) =~= head_piece(p)) by {
        if bs == 1 {
            assert(q.take(1) =~= p.take(1));
        }
    }
    assert(components(p) =~= components(q).push(name_of(p)->0));
}

// ------------------------------------------------------------------ operations

/// Where the body of a path begins.
fn find_body(chars: &Vec<char>) -> (at: usize)
    ensures
        at == body_start(chars@),
        at <= chars@.len(),
{
    let n: usize = chars.len();
    if n > 0 && (chars[0] == '/' || (chars[0] == '.' && (n == 1 || chars[1] == '/'))) {
        1
    } else {
        0
    }
}

/// Computes [`component_start`].
fn find_component(chars: &Vec<char>, body: usize, end: usize) -> (start: usize)
    requires
        body == body_start(chars@),
        body <= end <= chars@.len(),
    ensures
        start == component_start(chars@, end as int),
        body <= start <= end,
{
    let mut start: usize = end;
    while start > body && chars[start - 1] != '/'
        invariant
            body == body_start(chars@),
            body <= start <= end <= chars@.len(),
            component_start(chars@, end as int) == component_start(chars@, start as int),
        decreases start,
    {
        start = start - 1;
    }
    start
}

/// Computes [`trim_back`].
fn find_end(chars: &Vec<char>, body: usize, from: usize) -> (end: usize)
    requires
        body == body_start(chars@),
        body <= from <= chars@.len(),
    ensures
        end == trim_back(chars@, from as int),
        body <= end <= from,
{
    let mut end: usize = from;
    while end > body
        invariant
            body == body_start(chars@),
            body <= end <= from <= chars@.len(),
            trim_back(chars@, from as int) == trim_back(chars@, end as int),
        ensures
            end == trim_back(chars@, from as int),
            body <= end <= from,
        decreases end,
    {
        let start: usize = find_component(chars, body, end);
        let void: bool = start == end || (end - start == 1 && chars[start] == '.');
        let rest: usize = if start > body {
            start - 1
        } else {
            start
        };
        if !void || rest >= end {
            break;
        }
        end = rest;
    }
    end
}

/// The final component of `path`, where it is a name.
pub fn file_name(path: &str) -> (name: Option<String>)
    ensures
        crate::text::opt_view(name) == name_of(path@),
{
    let chars: Vec<char> = chars_of(path);
    let body: usize = find_body(&chars);
    let end: usize = find_end(&chars, body, chars.len());
    if end <= body {
        return None;
    }
    let start: usize = find_component(&chars, body, end);
    let ghost name = path@.subrange(start as int, end as int);
    if end - start == 2 && chars[start] == '.' && chars[start + 1] == '.' {
        assert(name =~= seq!['.', '.']);
        return None;
    }
    assert(name != seq!['.', '.']) by {
        if name == seq!['.', '.'] {
            assert(name.len() == 2);
            assert(name[0] == chars@[start as int]);
            assert(name[1] == chars@[start + 1]);
        }
    }
    Some(text_range(&chars, start, end))
}

/// `path` without its final component.
pub fn parent(path: &str) -> (dir: Option<String>)
    ensures
        crate::text::opt_view(dir) == parent_of(path@),
{
    let chars: Vec<char> = chars_of(path);
    let body: usize = find_body(&chars);
    let end: usize = find_end(&chars, body, chars.len());
    if end > body {
        let start: usize = find_component(&chars, body, end);
        let rest: usize = if start > body {
            start - 1
        } else {
            start
        };
        let cut: usize = find_end(&chars, body, rest);
        let dir: String = text_range(&chars, 0, cut);
        assert(dir@ =~= path@.take(cut as int));
        Some(dir)
    } else if body == 1 && chars[0] == '.' {
        assert(starts_here(path@));
        let dir: String = String::new();
        assert(dir@ =~= Seq::empty());
        Some(dir)
    } else {
        assert(!starts_here(path@));
        None
    }
}

/// `leaf` under `base`.
pub fn join(base: &str, leaf: &str) -> (path: String)
    ensures
        path@ == joined(base@, leaf@),
{
    let below: Vec<char> = chars_of(leaf);
    if below.len() > 0 && below[0] == '/' {
        return leaf.to_owned();
    }
    let above: Vec<char> = chars_of(base);
    if above.len() == 0 || above[above.len() - 1] == '/' {
        crate::text::cat2(base, leaf)
    } else {
        proof {
            reveal_strlit("/");
            assert("/"@ =~= seq!['/']);
        }
        cat3(base, "/", leaf)
    }
}

/// `path` with its final name replaced.
pub fn with_file_name(path: &str, name: &str) -> (out: String)
    ensures
        out@ == with_name(path@, name@),
{
    match file_name(path) {
        Some(_) => {
            proof {
                lemma_last(path@);
            }
            match parent(path) {
                Some(dir) => join(dir.as_str(), name),
                None => join(path, name),
            }
        },
        None => join(path, name),
    }
}

/// `path` with the extension of its final name replaced by `ext`.
pub fn with_extension(path: &str, ext: &str) -> (out: String)
    ensures
        out@ == with_ext(path@, ext@),
{
    let name: Vec<char> = match file_name(path) {
        Some(n) => chars_of(n.as_str()),
        None => return path.to_owned(),
    };
    let chars: Vec<char> = chars_of(path);
    let body: usize = find_body(&chars);
    let end: usize = find_end(&chars, body, chars.len());
    let start: usize = find_component(&chars, body, end);
    let mut dot: usize = name.len();
    while dot > 1 && name[dot - 1] != '.'
        invariant
            dot <= name@.len(),
            last_dot(name@, name@.len() as int) == last_dot(name@, dot as int),
        decreases dot,
    {
        dot = dot - 1;
    }
    let stem: usize = if dot > 1 {
        dot - 1
    } else {
        name.len()
    };
    proof {
        lemma_last(path@);
        reveal_strlit(".");
        assert("."@ =~= seq!['.']);
    }
    let kept: String = text_range(&chars, 0, start + stem);
    assert(kept@ =~= path@.take(start + stem));
    cat3(kept.as_str(), ".", ext)
}

/// Whether `path` is absolute on the host.
pub fn is_absolute_on(path: &str, windows: bool) -> (r: bool)
    ensures
        r == absolute_on(path@, windows),
{
    let chars: Vec<char> = chars_of(path);
    let n: usize = chars.len();
    if windows {
        if n >= 3 && chars[1] == ':' && chars[2] == '/' {
            let c: char = chars[0];
            if ('a' <= c && c <= 'z') || ('A' <= c && c <= 'Z') {
                return true;
            }
        }
        n >= 2 && chars[0] == '/' && chars[1] == '/'
    } else {
        n > 0 && chars[0] == '/'
    }
}

/// Computes [`components`].
pub fn components_of(path: &str) -> (out: Vec<String>)
    ensures
        views(out@) == components(path@),
{
    let chars: Vec<char> = chars_of(path);
    let body: usize = find_body(&chars);
    let n: usize = chars.len();
    let rest: String = text_range(&chars, body, n);
    assert(rest@ =~= path@.skip(body as int));
    let pieces: Vec<String> = split_text(rest.as_str(), '/');
    let mut out: Vec<String> = Vec::new();
    if body == 1 {
        let head: String = text_range(&chars, 0, 1);
        assert(head@ =~= path@.take(1));
        out.push(head);
    }
    let ghost head = head_piece(path@);
    assert(views(out@) =~= head);
    let mut i: usize = 0;
    assert(views(out@) =~= head + real_pieces(views(pieces@).take(0)));
    while i < pieces.len()
        invariant
            i <= pieces@.len(),
            views(out@) == head + real_pieces(views(pieces@).take(i as int)),
        decreases pieces@.len() - i,
    {
        proof {
            let upto = views(pieces@).take(i + 1);
            assert(upto.drop_last() =~= views(pieces@).take(i as int));
            assert(upto.last() == pieces@[i as int]@);
            lemma_views_push(out@, pieces@[i as int]);
            reveal_strlit(".");
            assert("."@ =~= seq!['.']);
        }
        let void: bool = pieces[i].as_str().is_empty() || same_text(pieces[i].as_str(), ".");
        if !void {
            proof {
                let before = real_pieces(views(pieces@).take(i as int));
                assert(head + before.push(pieces@[i as int]@) =~= (head + before).push(
                    pieces@[i as int]@,
                ));
            }
            out.push(pieces[i].clone());
        }
        i = i + 1;
    }
    assert(views(pieces@).take(i as int) =~= views(pieces@));
    out
}

/// Whether `path` is `root` or lies below it.
pub fn is_within(path: &str, root: &str) -> (r: bool)
    ensures
        r == within(path@, root@),
{
    let below: Vec<String> = components_of(path);
    let above: Vec<String> = components_of(root);
    if above.len() > below.len() {
        return false;
    }
    let mut i: usize = 0;
    while i < above.len()
        invariant
            i <= above@.len() <= below@.len(),
            views(below@) == components(path@),
            views(above@) == components(root@),
            forall|j: int| 0 <= j < i ==> #[trigger] views(above@)[j] == views(below@)[j],
        decreases above@.len() - i,
    {
        assert(views(above@)[i as int] == above@[i as int]@);
        assert(views(below@)[i as int] == below@[i as int]@);
        if !same_text(above[i].as_str(), below[i].as_str()) {
            return false;
        }
        i = i + 1;
    }
    assert(components(root@) =~= components(path@).take(components(root@).len() as int));
    true
}

/// Computes [`strictly_within`].
#[must_use]
pub fn is_strictly_within(path: &str, root: &str) -> (r: bool)
    ensures
        r == strictly_within(path@, root@),
{
    let below: Vec<String> = components_of(path);
    let above: Vec<String> = components_of(root);
    let within_root: bool = is_within(path, root);
    proof {
        if within_root && below@.len() == above@.len() {
            assert(components(root@) =~= components(path@));
        }
    }
    within_root && below.len() != above.len()
}

// ------------------------------------------------------------------ laws

#[verifier::rlimit(40)]
proof fn lemma_plain_end(above: Seq<char>, name: Seq<char>)
    requires
        above.len() == 0 || above.last() == '/',
        is_plain(name),
    ensures
        ({
            let p = above + name;
            let n: int = p.len() as int;
            &&& body_start(p) <= above.len()
            &&& trim_back(p, n) == n
            &&& component_start(p, n) == above.len()
            &&& p.subrange(above.len() as int, n) == name
        }),
{
    let p = above + name;
    let n: int = p.len() as int;
    let start: int = above.len() as int;
    assert forall|j: int| start <= j < n implies p[j] != '/' by {
        assert(p[j] == name[j - start]);
    }
    if start == 0 {
        assert(p =~= name);
        assert(!rooted(p));
        assert(!starts_here(p)) by {
            if starts_here(p) && p.len() == 1 {
                assert(name =~= seq!['.']);
            }
        }
    } else {
        assert(p[start - 1] == '/');
    }
    lemma_component_is(p, start, n);
    assert(!is_void(p, start, n)) by {
        if n == start + 1 && p[start] == '.' {
            assert(name =~= seq!['.']);
        }
    }
    assert(p.subrange(start, n) =~= name);
}

/// A name in a directory is joined to it with one separator; the path has that directory as its parent
/// and that name as its name. A name alone has the empty path as its parent, and one below the root has
/// the root.
pub proof fn a_path_is_its_directory_and_its_name(
    above: Seq<char>,
    last: Seq<char>,
    name: Seq<char>,
)
    requires
        above.len() == 0 || above.last() == '/',
        is_plain(last),
        is_plain(name),
    ensures
        ({
            let dir = above + last;
            &&& joined(dir, name) == dir + seq!['/'] + name
            &&& parent_of(dir + seq!['/'] + name) == Some(dir)
            &&& name_of(dir + seq!['/'] + name) == Some(name)
        }),
        joined(Seq::empty(), name) == name,
        parent_of(name) == Some(Seq::<char>::empty()),
        name_of(name) == Some(name),
        joined(seq!['/'], name) == seq!['/'] + name,
        parent_of(seq!['/'] + name) == Some(seq!['/']),
        name_of(seq!['/'] + name) == Some(name),
        parent_of(seq!['/']) is None,
        name_of(seq!['/']) is None,
{
    let dir = above + last;
    let none = Seq::<char>::empty();
    let root = seq!['/'];
    lemma_plain_end(above, last);
    lemma_join(dir, name);
    assert(dir.last() == last[last.len() - 1]);
    assert(name[0] != '/');
    assert(trim_back(none, 0) == 0);
    lemma_join(none, name);
    assert(none + name =~= name);
    assert(body_start(root) == 1);
    assert(trim_back(root, 1) == 1);
    lemma_join(root, name);
}

/// A rooted path is itself, whatever it is joined to.
pub proof fn a_rooted_path_stands_alone(base: Seq<char>, rest: Seq<char>)
    ensures
        joined(base, seq!['/'] + rest) == seq!['/'] + rest,
{
}

/// Replacing the name of a path keeps its directory.
pub proof fn a_replaced_name_stands_in_the_same_directory(
    above: Seq<char>,
    last: Seq<char>,
    name: Seq<char>,
    new: Seq<char>,
)
    requires
        above.len() == 0 || above.last() == '/',
        is_plain(last),
        is_plain(name),
        is_plain(new),
    ensures
        with_name(above + last + seq!['/'] + name, new) == above + last + seq!['/'] + new,
        with_name(name, new) == new,
        with_name(seq!['/'] + name, new) == seq!['/'] + new,
{
    a_path_is_its_directory_and_its_name(above, last, name);
    a_path_is_its_directory_and_its_name(above, last, new);
}

/// Replacing the extension of a name replaces what follows its last dot, and keeps all before it; a
/// name without one gets it added.
pub proof fn an_extension_is_what_follows_the_last_dot(
    above: Seq<char>,
    stem: Seq<char>,
    old: Seq<char>,
    ext: Seq<char>,
)
    requires
        above.len() == 0 || above.last() == '/',
        stem.len() > 0,
        !stem.contains('/'),
        !old.contains('/'),
        !old.contains('.'),
    ensures
        stem != seq!['.'] || old.len() > 0 ==> with_ext(above + (stem.push('.') + old), ext) == above
            + stem.push('.') + ext,
        is_plain(stem) && (forall|i: int| 0 < i < stem.len() ==> stem[i] != '.') ==> with_ext(
            above + stem,
            ext,
        ) == above + stem.push('.') + ext,
{
    assert forall|i: int| 0 <= i < old.len() implies #[trigger] old[i] != '.' && old[i] != '/' by {
        assert(old.contains(old[i]));
    }
    assert forall|i: int| 0 <= i < stem.len() implies #[trigger] stem[i] != '/' by {
        assert(stem.contains(stem[i]));
    }
    if stem != seq!['.'] || old.len() > 0 {
        lemma_extension_replaced(above, stem, old, ext);
    }
    if is_plain(stem) && (forall|i: int| 0 < i < stem.len() ==> stem[i] != '.') {
        lemma_plain_end(above, stem);
        lemma_no_dot(stem, stem.len() as int);
        let p = above + stem;
        assert(name_of(p) == Some(stem));
        assert(p.take((above.len() + stem.len()) as int) + seq!['.'] + ext =~= above + stem.push('.')
            + ext);
    }
}

#[verifier::rlimit(40)]
proof fn lemma_extension_replaced(
    above: Seq<char>,
    stem: Seq<char>,
    old: Seq<char>,
    ext: Seq<char>,
)
    requires
        above.len() == 0 || above.last() == '/',
        stem.len() > 0,
        stem != seq!['.'] || old.len() > 0,
        forall|i: int| 0 <= i < old.len() ==> #[trigger] old[i] != '.' && old[i] != '/',
        forall|i: int| 0 <= i < stem.len() ==> #[trigger] stem[i] != '/',
    ensures
        with_ext(above + (stem.push('.') + old), ext) == above + stem.push('.') + ext,
{
    let name = stem.push('.') + old;
    let d: int = stem.len() as int;
    assert(name[d] == '.');
    assert forall|j: int| 0 <= j < name.len() implies #[trigger] name[j] != '/' by {
        if j < d {
            assert(name[j] == stem[j]);
        } else if j > d {
            assert(name[j] == old[j - d - 1]);
        }
    }
    if name == seq!['.', '.'] {
        assert(name.len() == 2);
        assert(stem[0] == name[0]);
        assert(stem =~= seq!['.']);
    }
    assert(name != seq!['.']) by {
        assert(name.len() >= 2);
    }
    assert(is_plain(name));
    lemma_plain_end(above, name);
    assert forall|j: int| d < j < name.len() implies name[j] != '.' by {
        assert(name[j] == old[j - d - 1]);
    }
    lemma_last_dot_at(name, name.len() as int, d);
    let p = above + name;
    assert(name_of(p) == Some(name));
    assert(p.take(above.len() + d) + seq!['.'] + ext =~= above + stem.push('.') + ext);
}

proof fn lemma_last_dot_at(name: Seq<char>, end: int, d: int)
    requires
        1 <= d < end <= name.len(),
        name[d] == '.',
        forall|j: int| d < j < end ==> name[j] != '.',
    ensures
        last_dot(name, end) == d,
    decreases end,
{
    if d < end - 1 {
        lemma_last_dot_at(name, end - 1, d);
    }
}

proof fn lemma_no_dot(name: Seq<char>, end: int)
    requires
        0 <= end <= name.len(),
        forall|j: int| 0 < j < end ==> name[j] != '.',
    ensures
        last_dot(name, end) == name.len(),
    decreases end,
{
    if end > 1 {
        lemma_no_dot(name, end - 1);
    }
}

/// Whether each of these can be a component: not empty, not `.`, without a separator.
pub open spec fn are_components(names: Seq<Seq<char>>) -> bool {
    forall|i: int|
        0 <= i < names.len() ==> (#[trigger] names[i]).len() > 0 && names[i] != seq!['.']
            && !names[i].contains('/')
}

/// A path of components is those components; where it starts at the root, the root comes first.
pub proof fn a_path_is_its_components(names: Seq<Seq<char>>)
    requires
        names.len() > 0,
        are_components(names),
    ensures
        components(with_separator(names, '/')) == names,
        components(seq!['/'] + with_separator(names, '/')) == seq![seq!['/']] + names,
        components(seq!['/']) == seq![seq!['/']],
{
    let s = with_separator(names, '/');
    let p = seq!['/'] + s;
    let none = Seq::<char>::empty();
    assert forall|k: int| 0 <= k < names.len() implies !(#[trigger] names[k]).contains('/') by {}
    pieces_are_read_back(names, '/');
    lemma_all_real(names);
    assert(p.skip(1) =~= s);
    assert(p.take(1) =~= seq!['/']);
    lemma_head(names);
    assert(s.skip(0) =~= s);
    assert(Seq::<Seq<char>>::empty() + names =~= names);
    let root = seq!['/'];
    assert(root.skip(1) =~= none);
    lemma_split(none, '/', 0);
    assert(seq![none].drop_last() =~= Seq::empty());
    assert(real_pieces(seq![none].drop_last()) =~= Seq::empty());
    assert(root.take(1) =~= root);
    assert(components(root) =~= seq![root]);
}

proof fn lemma_head(names: Seq<Seq<char>>)
    requires
        names.len() > 0,
        are_components(names),
    ensures
        !rooted(with_separator(names, '/')),
        !starts_here(with_separator(names, '/')),
{
    let s = with_separator(names, '/');
    let first = names[0];
    assert(first.contains(first[0]));
    assert(s[0] == first[0]);
    if starts_here(s) {
        if first.len() > 1 {
            assert(s[1] == first[1]);
            assert(first.contains(first[1]));
        } else {
            assert(first =~= seq!['.']);
        }
    }
}

proof fn lemma_all_real(names: Seq<Seq<char>>)
    requires
        are_components(names),
    ensures
        real_pieces(names) == names,
    decreases names.len(),
{
    if names.len() > 0 {
        let fewer = names.drop_last();
        assert forall|i: int| 0 <= i < fewer.len() implies (#[trigger] fewer[i]).len() > 0
            && fewer[i] != seq!['.'] && !fewer[i].contains('/') by {
            assert(fewer[i] == names[i]);
        }
        lemma_all_real(fewer);
        assert(names[names.len() - 1] == names.last());
        assert(fewer.push(names.last()) =~= names);
    } else {
        assert(names =~= Seq::empty());
    }
}

proof fn lemma_real_pieces(a: Seq<Seq<char>>, b: Seq<Seq<char>>)
    ensures
        real_pieces(a + b) == real_pieces(a) + real_pieces(b),
    decreases b.len(),
{
    if b.len() == 0 {
        assert(a + b =~= a);
        assert(real_pieces(a) + real_pieces(b) =~= real_pieces(a));
    } else {
        lemma_real_pieces(a, b.drop_last());
        assert((a + b).drop_last() =~= a + b.drop_last());
        assert((a + b).last() == b.last());
        assert(real_pieces(a + b) =~= real_pieces(a) + real_pieces(b));
    }
}

/// The components of a relative path joined to another are those of the one and then those of the other;
/// separators and dots that say nothing change nothing.
#[verifier::rlimit(40)]
pub proof fn joining_adds_components(base: Seq<char>, leaf: Seq<char>)
    requires
        base.len() > 0,
        !rooted(leaf),
        !starts_here(leaf),
    ensures
        components(joined(base, leaf)) == components(base) + components(leaf),
        components(base.push('/')) == components(base),
        components(base.push('/').push('.')) == components(base),
{
    let p = joined(base, leaf);
    let bs: int = body_start(base);
    let body = base.skip(bs);
    let none = Seq::<char>::empty();
    let dot = seq!['.'];
    assert(leaf.skip(0) =~= leaf);
    assert(components(leaf) =~= real_pieces(split(leaf, '/')));
    lemma_void_pieces();
    // The body with nothing, a dot or the leaf behind a separator.
    the_pieces_of_two_texts(body, leaf, '/');
    the_pieces_of_two_texts(body, none, '/');
    the_pieces_of_two_texts(body, dot, '/');
    lemma_real_pieces(split(body, '/'), split(leaf, '/'));
    lemma_real_pieces(split(body, '/'), split(none, '/'));
    lemma_real_pieces(split(body, '/'), split(dot, '/'));
    let slashed = base.push('/');
    let dotted = slashed.push('.');
    let n: int = base.len() as int;
    assert(slashed.take(n) =~= base);
    assert(dotted.take(n) =~= base);
    assert(p.take(n) =~= base);
    lemma_same_head(base, slashed);
    lemma_same_head(base, dotted);
    assert(slashed.skip(bs) =~= body.push('/') + none);
    assert(dotted.skip(bs) =~= body.push('/') + dot);
    assert(components(slashed) =~= components(base));
    assert(components(dotted) =~= components(base));
    if base.last() == '/' {
        assert(p == base + leaf);
        if body.len() == 0 {
            assert(base =~= seq!['/']);
            assert(p.skip(1) =~= leaf);
            assert(p.take(1) =~= base.take(1));
            assert(body =~= none);
            assert(components(p) =~= components(base) + components(leaf));
        } else {
            let shorter = body.drop_last();
            assert(body =~= shorter.push('/') + none);
            lemma_same_head(base, p);
            assert(p.skip(bs) =~= shorter.push('/') + leaf);
            the_pieces_of_two_texts(shorter, leaf, '/');
            the_pieces_of_two_texts(shorter, none, '/');
            lemma_real_pieces(split(shorter, '/'), split(leaf, '/'));
            lemma_real_pieces(split(shorter, '/'), split(none, '/'));
            assert(components(p) =~= components(base) + components(leaf));
        }
    } else {
        lemma_same_head(base, p);
        assert(p.skip(bs) =~= body.push('/') + leaf);
        assert(components(p) =~= components(base) + components(leaf));
    }
}

proof fn lemma_void_pieces()
    ensures
        real_pieces(split(Seq::<char>::empty(), '/')) == Seq::<Seq<char>>::empty(),
        real_pieces(split(seq!['.'], '/')) == Seq::<Seq<char>>::empty(),
{
    let none = Seq::<char>::empty();
    let dot = seq!['.'];
    lemma_split(none, '/', 0);
    lemma_split(dot, '/', 1);
    assert(seq![none].drop_last() =~= Seq::empty());
    assert(seq![dot].drop_last() =~= Seq::empty());
    assert(real_pieces(Seq::empty()) =~= Seq::empty());
    assert(real_pieces(seq![none]) == real_pieces(seq![none].drop_last()));
    assert(real_pieces(seq![dot]) == real_pieces(seq![dot].drop_last()));
}

proof fn lemma_same_head(base: Seq<char>, p: Seq<char>)
    requires
        base.len() > 0,
        p.len() >= base.len(),
        p.take(base.len() as int) == base,
        base.len() == 1 && p.len() > 1 ==> p[1] == '/' || base[0] == '/' || (p[1] != '/' && base[0] != '.'),
    ensures
        body_start(p) == body_start(base),
        head_piece(p) == head_piece(base),
{
    assert(p[0] == p.take(base.len() as int)[0]);
    if base.len() > 1 {
        assert(p[1] == p.take(base.len() as int)[1]);
    }
    assert(p.take(1) =~= base.take(1));
}

/// A path lies below a directory exactly if the directory's components start its own: names are compared
/// whole, so `/a/bc` is not below `/a/b`. It lies strictly below if it has more.
#[verifier::rlimit(40)]
pub proof fn containment_goes_by_whole_components(root: Seq<Seq<char>>, below: Seq<Seq<char>>)
    requires
        root.len() > 0,
        below.len() > 0,
        are_components(root),
        are_components(below),
    ensures
        ({
            let r = seq!['/'] + with_separator(root, '/');
            let p = seq!['/'] + with_separator(below, '/');
            &&& within(p, r) <==> root.len() <= below.len() && below.take(root.len() as int) == root
            &&& strictly_within(p, r) <==> root.len() < below.len() && below.take(root.len() as int)
                == root
        }),
{
    let r = seq!['/'] + with_separator(root, '/');
    let p = seq!['/'] + with_separator(below, '/');
    a_path_is_its_components(root);
    a_path_is_its_components(below);
    let (x, y) = (components(r), components(p));
    let n: int = root.len() as int;
    if root.len() <= below.len() {
        if below.take(n) == root {
            assert(y.subrange(0, n + 1) =~= x) by {
                assert forall|i: int| 0 <= i < n + 1 implies y[i] == x[i] by {
                    if i > 0 {
                        assert(below.take(n)[i - 1] == root[i - 1]);
                    }
                }
            }
            assert(within(p, r));
            if root.len() == below.len() {
                assert(below.take(n) =~= below);
            }
        } else if within(p, r) {
            assert forall|i: int| 0 <= i < n implies below.take(n)[i] == root[i] by {
                assert(x[i + 1] == y.subrange(0, n + 1)[i + 1]);
            }
            assert(below.take(n) =~= root);
        }
    }
}

/// On Windows a path is absolute below a drive, `X:/`, or a share, `//`; elsewhere where it starts at the
/// root.
pub proof fn absolute_paths_start_at_a_root(p: Seq<char>, letter: char, rest: Seq<char>)
    ensures
        absolute_on(seq!['/'] + rest, false),
        p.len() == 0 || p[0] != '/' ==> !absolute_on(p, false),
        ('A' <= letter && letter <= 'Z') || ('a' <= letter && letter <= 'z') ==> absolute_on(
            seq![letter, ':', '/'] + rest,
            true,
        ),
        absolute_on(seq!['/', '/'] + rest, true),
        p.len() < 2 || (p[1] != ':' && p[1] != '/') ==> !absolute_on(p, true),
        p.len() >= 2 && p[1] == ':' && (p.len() == 2 || p[2] != '/') ==> !absolute_on(p, true),
        p.len() >= 2 && p[0] != '/' && p[1] == '/' ==> !absolute_on(p, true),
        p.len() >= 2 && p[1] == ':' && !(('A' <= p[0] && p[0] <= 'Z') || ('a' <= p[0] && p[0] <= 'z'))
            ==> !absolute_on(p, true),
{
    let drive = seq![letter, ':', '/'] + rest;
    assert(drive[0] == letter && drive[1] == ':' && drive[2] == '/');
    let share = seq!['/', '/'] + rest;
    assert(share[0] == '/' && share[1] == '/');
}

/// The name of a path is what follows its last separator.
pub proof fn a_final_name_is_found(above: Seq<char>, name: Seq<char>)
    requires
        above.len() == 0 || above.last() == '/',
        is_plain(name),
    ensures
        name_of(above + name) == Some(name),
{
    lemma_plain_end(above, name);
}

} // verus!
