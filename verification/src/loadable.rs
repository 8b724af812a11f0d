//! Can the host load the artifact that a pass is about to install?
//!
//! That the bytes hash to the signed digest and that the binary will run here are independent
//! facts. This module answers the second without running anything: it reads the artifact's own
//! requirements ([`crate::elf`]) and resolves each soname against the host's library set.
//!
//! The answer has three values and is deliberately asymmetric: only a proven absence refuses the
//! install. What cannot be established (a native package, an unreadable file, a host whose
//! libraries cannot be enumerated) permits it, because refusing what cannot be proved would stop
//! updates altogether.

use vstd::prelude::*;

use crate::elf::{elf_needs, parse_elf_needs, ElfErrorView, ElfNeeds, ElfNeedsView};
use crate::path::{a_path_is_its_directory_and_its_name, is_plain, parent, parent_of};
use crate::text::{
    cat3, cat4, chars_of, decimal, decimal_of, find_from, find_text, has_text, is_blank, is_white,
    is_word, lemma_blank_has_no_words, lemma_find_from, lemma_split, lemma_views_push, same_text,
    split, split_text, text_range, the_pieces_of_two_texts, the_words_of_a_text,
    the_words_of_two_texts, tokens, tokens_of, views,
};

verus! {

/// Whether the host can load an artifact.
#[derive(Debug, Clone, PartialEq, Eq)]
pub enum Loadability {
    /// Every shared library that the image requires is resolvable on this host.
    Loadable,
    /// The image requires shared libraries that this host does not provide.
    Unloadable {
        /// The sonames that resolve to nothing, in the image's own link order.
        missing: Vec<String>,
    },
    /// No answer could be established, and therefore no refusal.
    Indeterminate {
        /// Why no answer was established.
        why: String,
    },
}

/// A ceiling on how many bytes of an artifact are read to inspect it.
pub const MAX_INSPECT_BYTES: u64 = 268_435_456;

/// Whether resolving `candidate` answered `found`.
pub open spec fn resolved<R: Fn(&str) -> bool>(
    resolve: R,
    candidate: Seq<char>,
    found: bool,
) -> bool {
    exists|p: &str| p@ == candidate && #[trigger] resolve.ensures((p,), found)
}

/// The end of `s[..n]` without the separators that close it.
pub open spec fn unslashed_end(s: Seq<char>, n: int) -> int
    decreases n,
{
    if n > 0 && n <= s.len() && s[n - 1] == '/' {
        unslashed_end(s, n - 1)
    } else {
        n
    }
}

/// The candidate for a soname in a search directory.
pub open spec fn candidate_in(dir: Seq<char>, soname: Seq<char>) -> Seq<char> {
    dir.take(unslashed_end(dir, dir.len() as int)) + "/"@ + soname
}

/// Whether the resolver found the soname: in the default search path, or in the first directory
/// of the search path that has it.
pub open spec fn is_found<R: Fn(&str) -> bool>(
    resolve: R,
    soname: Seq<char>,
    runpath: Seq<Seq<char>>,
) -> bool {
    ||| resolved(resolve, soname, true)
    ||| resolved(resolve, soname, false) && exists|k: int|
        0 <= k < runpath.len() && resolved(
            resolve,
            candidate_in(#[trigger] runpath[k], soname),
            true,
        )
}

/// Whether the resolver found the soname nowhere.
pub open spec fn is_lost<R: Fn(&str) -> bool>(
    resolve: R,
    soname: Seq<char>,
    runpath: Seq<Seq<char>>,
) -> bool {
    &&& resolved(resolve, soname, false)
    &&& forall|k: int|
        0 <= k < runpath.len() ==> resolved(
            resolve,
            candidate_in(#[trigger] runpath[k], soname),
            false,
        )
}

/// The sonames marked as lost, in order.
pub open spec fn missing_of(needed: Seq<Seq<char>>, lost: Seq<bool>) -> Seq<Seq<char>>
    decreases needed.len(),
{
    if needed.len() == 0 || lost.len() != needed.len() {
        Seq::empty()
    } else if lost.last() {
        missing_of(needed.drop_last(), lost.drop_last()).push(needed.last())
    } else {
        missing_of(needed.drop_last(), lost.drop_last())
    }
}

/// Whether each mark says what the resolver answered for its soname.
pub open spec fn marks_ok<R: Fn(&str) -> bool>(
    resolve: R,
    needs: ElfNeedsView,
    lost: Seq<bool>,
) -> bool {
    &&& lost.len() == needs.needed.len()
    &&& forall|i: int|
        0 <= i < lost.len() ==> if #[trigger] lost[i] {
            is_lost(resolve, needs.needed[i], needs.runpath)
        } else {
            is_found(resolve, needs.needed[i], needs.runpath)
        }
}

/// Whether the answer names exactly the sonames that were lost.
pub open spec fn names_missing(answer: Loadability, missing: Seq<Seq<char>>) -> bool {
    match answer {
        Loadability::Loadable => missing.len() == 0,
        Loadability::Unloadable { missing: m } => missing.len() > 0 && views(m@) == missing,
        Loadability::Indeterminate { .. } => false,
    }
}

/// The decision: which of the required sonames the resolver cannot find.
///
/// A soname counts as resolved if the default search path has it or any of the image's own search
/// directories does; those must already be expanded ([`expand_runpath`]).
#[must_use]
pub fn decide_loadability<R: Fn(&str) -> bool>(needs: &ElfNeeds, resolve: &R) -> (answer:
    Loadability)
    requires
        forall|p: &str| #[trigger] resolve.requires((p,)),
    ensures
        exists|lost: Seq<bool>| #[trigger]
            marks_ok(*resolve, needs@, lost) && names_missing(
                answer,
                missing_of(needs@.needed, lost),
            ),
{
    let mut missing: Vec<String> = Vec::new();
    let ghost mut lost: Seq<bool> = Seq::empty();
    let mut i: usize = 0;
    assert(views(missing@) =~= missing_of(needs@.needed.take(0), lost));
    while i < needs.needed.len()
        invariant
            i <= needs.needed@.len(),
            forall|p: &str| #[trigger] resolve.requires((p,)),
            lost.len() == i,
            forall|j: int|
                0 <= j < i ==> if #[trigger] lost[j] {
                    is_lost(*resolve, needs@.needed[j], needs@.runpath)
                } else {
                    is_found(*resolve, needs@.needed[j], needs@.runpath)
                },
            views(missing@) == missing_of(needs@.needed.take(i as int), lost),
        decreases needs.needed@.len() - i,
    {
        let found: bool = resolves(needs.needed[i].as_str(), &needs.runpath, resolve);
        proof {
            let upto = needs@.needed.take(i + 1);
            assert(upto.drop_last() =~= needs@.needed.take(i as int));
            assert(upto.last() == needs@.needed[i as int]);
            assert(lost.push(!found).drop_last() =~= lost);
            lemma_views_push(missing@, needs.needed@[i as int]);
            lost = lost.push(!found);
        }
        if !found {
            missing.push(needs.needed[i].clone());
        }
        i = i + 1;
    }
    assert(needs@.needed.take(i as int) =~= needs@.needed);
    assert(marks_ok(*resolve, needs@, lost));
    assert(views(missing@).len() == missing@.len());
    if missing.len() == 0 {
        Loadability::Loadable
    } else {
        Loadability::Unloadable { missing }
    }
}

/// Whether `soname` resolves via the default search path or any search directory.
fn resolves<R: Fn(&str) -> bool>(soname: &str, runpath: &Vec<String>, resolve: &R) -> (r: bool)
    requires
        forall|p: &str| #[trigger] resolve.requires((p,)),
    ensures
        r ==> is_found(*resolve, soname@, views(runpath@)),
        !r ==> is_lost(*resolve, soname@, views(runpath@)),
{
    let direct: bool = resolve(soname);
    assert(resolved(*resolve, soname@, direct));
    if direct {
        return true;
    }
    let mut i: usize = 0;
    while i < runpath.len()
        invariant
            i <= runpath@.len(),
            forall|p: &str| #[trigger] resolve.requires((p,)),
            resolved(*resolve, soname@, false),
            forall|k: int|
                0 <= k < i ==> resolved(
                    *resolve,
                    candidate_in(#[trigger] views(runpath@)[k], soname@),
                    false,
                ),
        decreases runpath@.len() - i,
    {
        let candidate: String = candidate(runpath[i].as_str(), soname);
        assert(views(runpath@)[i as int] == runpath@[i as int]@);
        let found: bool = resolve(candidate.as_str());
        assert(resolved(*resolve, candidate_in(views(runpath@)[i as int], soname@), found));
        if found {
            return true;
        }
        i = i + 1;
    }
    false
}

/// Computes [`candidate_in`].
fn candidate(dir: &str, soname: &str) -> (path: String)
    ensures
        path@ == candidate_in(dir@, soname@),
{
    let chars: Vec<char> = chars_of(dir);
    let mut end: usize = chars.len();
    while end > 0 && chars[end - 1] == '/'
        invariant
            end <= chars@.len(),
            unslashed_end(chars@, chars@.len() as int) == unslashed_end(chars@, end as int),
        decreases end,
    {
        end = end - 1;
    }
    let kept: String = text_range(&chars, 0, end);
    assert(kept@ =~= dir@.take(end as int));
    cat3(kept.as_str(), "/", soname)
}

/// `s` with each occurrence of `pat` replaced by `by`, from the left.
pub open spec fn replaced(s: Seq<char>, pat: Seq<char>, by: Seq<char>) -> Seq<char>
    decreases s.len(),
{
    match find_from(s, pat, 0) {
        Some(k) => if pat.len() > 0 && 0 <= k && k + pat.len() <= s.len() {
            s.take(k) + by + replaced(s.skip(k + pat.len()), pat, by)
        } else {
            s
        },
        None => s,
    }
}

/// Computes [`replaced`].
fn replace_all(text: &str, pat: &str, by: &str) -> (out: String)
    requires
        pat@.len() > 0,
    ensures
        out@ == replaced(text@, pat@, by@),
{
    let pattern: Vec<char> = chars_of(pat);
    let mut done: String = String::new();
    let mut rest: Vec<char> = chars_of(text);
    assert(done@ + replaced(rest@, pat@, by@) =~= replaced(text@, pat@, by@));
    loop
        invariant
            pattern@ == pat@,
            pat@.len() > 0,
            done@ + replaced(rest@, pat@, by@) == replaced(text@, pat@, by@),
        decreases rest@.len(),
    {
        match find_text(&rest, &pattern, 0) {
            Some(k) => {
                let head: String = text_range(&rest, 0, k);
                let n: usize = rest.len();
                let tail: String = text_range(&rest, k + pattern.len(), n);
                proof {
                    lemma_find_from(rest@, pat@, 0);
                    assert(head@ =~= rest@.take(k as int));
                    assert(tail@ =~= rest@.skip(k + pat@.len()));
                    assert(done@ + replaced(rest@, pat@, by@) =~= done@ + head@ + by@ + replaced(
                        tail@,
                        pat@,
                        by@,
                    ));
                }
                done.append(head.as_str());
                done.append(by);
                rest = chars_of(tail.as_str());
            },
            None => {
                let n: usize = rest.len();
                let tail: String = text_range(&rest, 0, n);
                assert(tail@ =~= rest@);
                done.append(tail.as_str());
                return done;
            },
        }
    }
}

/// A search directory with the origin filled in.
pub open spec fn expanded(dir: Seq<char>, origin: Seq<char>) -> Seq<char> {
    replaced(replaced(dir, "$ORIGIN"@, origin), "${ORIGIN}"@, origin)
}

/// Expand `$ORIGIN` in an image's search path to the directory that the artifact will be loaded
/// from, as the dynamic linker does.
#[must_use]
pub fn expand_runpath(runpath: &Vec<String>, origin_dir: &str) -> (out: Vec<String>)
    ensures
        views(out@) == Seq::new(
            runpath@.len(),
            |i: int| expanded(runpath@[i]@, origin_dir@),
        ),
{
    let mut out: Vec<String> = Vec::new();
    let mut i: usize = 0;
    while i < runpath.len()
        invariant
            i <= runpath@.len(),
            out@.len() == i,
            forall|j: int|
                0 <= j < i ==> (#[trigger] out@[j])@ == expanded(runpath@[j]@, origin_dir@),
        decreases runpath@.len() - i,
    {
        proof {
            reveal_strlit("$ORIGIN");
            reveal_strlit("${ORIGIN}");
        }
        let plain: String = replace_all(runpath[i].as_str(), "$ORIGIN", origin_dir);
        out.push(replace_all(plain.as_str(), "${ORIGIN}", origin_dir));
        i = i + 1;
    }
    assert(views(out@) =~= Seq::new(
        runpath@.len(),
        |i: int| expanded(runpath@[i]@, origin_dir@),
    ));
    out
}

/// The directory that an artifact at `path` is loaded from.
pub open spec fn origin_of(path: Seq<char>) -> Seq<char> {
    match parent_of(path) {
        Some(dir) => dir,
        None => "."@,
    }
}

/// The requirements with the search path expanded for an artifact at `path`.
pub open spec fn located(needs: ElfNeedsView, path: Seq<char>) -> ElfNeedsView {
    ElfNeedsView {
        runpath: Seq::new(
            needs.runpath.len(),
            |i: int| expanded(needs.runpath[i], origin_of(path)),
        ),
        ..needs
    }
}

/// Why an image that cannot be read has no answer.
pub open spec fn unreadable_text(path: Seq<char>, e: ElfErrorView) -> Seq<char> {
    path + " could not be read as an ELF image: "@ + match e {
        ElfErrorView::NotElf => "not an ELF image"@,
        ElfErrorView::Unsupported(why) => "unsupported ELF image: "@ + why,
        ElfErrorView::Truncated => "the ELF image is truncated or self-inconsistent"@,
    }
}

/// Inspect the artifact at `path`, given what could be read of it, and decide its loadability.
///
/// Anything that is not a readable ELF image is [`Loadability::Indeterminate`], never a refusal, and
/// `resolve` may not be asked about it.
#[must_use]
pub fn inspect_artifact<R: Fn(&str) -> bool>(
    path: &str,
    contents: Result<Vec<u8>, String>,
    resolve: &R,
) -> (answer: Loadability)
    requires
        contents is Ok && elf_needs(contents->Ok_0@) is Ok ==> forall|p: &str| #[trigger]
            resolve.requires((p,)),
    ensures
        match contents {
            Err(why) => answer == (Loadability::Indeterminate { why }),
            Ok(bytes) => match elf_needs(bytes@) {
                Err(e) => answer matches Loadability::Indeterminate { why } && why@
                    == unreadable_text(path@, e),
                Ok(needs) => exists|lost: Seq<bool>| #[trigger]
                    marks_ok(*resolve, located(needs, path@), lost) && names_missing(
                        answer,
                        missing_of(needs.needed, lost),
                    ),
            },
        },
{
    let bytes: Vec<u8> = match contents {
        Ok(b) => b,
        Err(why) => return Loadability::Indeterminate { why },
    };
    let needs: ElfNeeds = match parse_elf_needs(bytes.as_slice()) {
        Ok(n) => n,
        Err(e) => {
            let detail: String = e.message();
            return Loadability::Indeterminate {
                why: cat3(path, " could not be read as an ELF image: ", detail.as_str()),
            };
        },
    };
    let origin: String = match parent(path) {
        Some(dir) => dir,
        None => ".".to_owned(),
    };
    let placed = ElfNeeds {
        machine: needs.machine,
        runpath: expand_runpath(&needs.runpath, origin.as_str()),
        interp: needs.interp,
        needed: needs.needed,
    };
    assert(placed@.runpath =~= located(needs@, path@).runpath);
    assert(placed@ =~= located(needs@, path@));
    decide_loadability(&placed, resolve)
}

/// Why an implausibly large artifact is not read.
pub open spec fn oversized_text(path: Seq<char>, size: u64) -> Seq<char> {
    path + " is "@ + decimal(size as nat) + " bytes, past the "@ + decimal(
        MAX_INSPECT_BYTES as nat,
    ) + "-byte inspection ceiling"@
}

/// Refuse an implausibly large artifact, with the reason to report.
///
/// # Errors
///
/// The reason, if `size` is past [`MAX_INSPECT_BYTES`].
pub fn refuse_oversized(path: &str, size: u64) -> (r: Result<(), String>)
    ensures
        match r {
            Ok(_) => size <= MAX_INSPECT_BYTES,
            Err(why) => size > MAX_INSPECT_BYTES && why@ == oversized_text(path@, size),
        },
{
    if size > MAX_INSPECT_BYTES {
        let n: String = decimal_of(size);
        let limit: String = decimal_of(MAX_INSPECT_BYTES);
        let head: String = cat4(path, " is ", n.as_str(), " bytes, past the ");
        Err(cat3(head.as_str(), limit.as_str(), "-byte inspection ceiling"))
    } else {
        Ok(())
    }
}

/// Whether the size of the file at `path` was found to be `r`.
pub open spec fn measured<S: FnOnce(&str) -> Result<u64, String>>(
    size: S,
    path: &str,
    r: Result<u64, String>,
) -> bool {
    size.ensures((path,), r)
}

/// Read an artifact's bytes to inspect it, unless it is unreadable or implausibly large. `read` may
/// be called only for a file whose size is within [`MAX_INSPECT_BYTES`].
///
/// # Errors
///
/// The reason to report.
pub fn read_bounded<
    S: FnOnce(&str) -> Result<u64, String>,
    R: FnOnce(&str) -> Result<Vec<u8>, String>,
>(path: &str, size: S, read: R) -> (r: Result<Vec<u8>, String>)
    requires
        size.requires((path,)),
        forall|n: u64|
            #[trigger] measured(size, path, Ok(n)) && n <= MAX_INSPECT_BYTES ==> read.requires(
                (path,),
            ),
    ensures
        r is Ok ==> read.ensures((path,), r) && exists|n: u64|
            #[trigger] measured(size, path, Ok(n)) && n <= MAX_INSPECT_BYTES,
        r is Err ==> {
            ||| exists|e: String|
                #[trigger] measured(size, path, Err(e)) && r->Err_0@ == path@
                    + " could not be examined: "@ + e@
            ||| exists|n: u64|
                #[trigger] measured(size, path, Ok(n)) && n > MAX_INSPECT_BYTES && r->Err_0@
                    == oversized_text(path@, n)
            ||| exists|e: String|
                #[trigger] read.ensures((path,), Err(e)) && r->Err_0@ == path@
                    + " could not be read: "@ + e@
        },
{
    let n: u64 = match size(path) {
        Ok(n) => {
            assert(measured(size, path, Ok(n)));
            n
        },
        Err(e) => {
            assert(measured(size, path, Err(e)));
            return Err(cat3(path, " could not be examined: ", e.as_str()));
        },
    };
    match refuse_oversized(path, n) {
        Ok(_) => {},
        Err(why) => return Err(why),
    }
    match read(path) {
        Ok(bytes) => Ok(bytes),
        Err(e) => {
            assert(read.ensures((path,), Err(e)));
            Err(cat3(path, " could not be read: ", e.as_str()))
        },
    }
}

/// The check on this host: no answer where it does not load ELF images, or where its library set
/// could not be enumerated.
#[must_use]
pub fn host_check<F: Fn(&str) -> bool>(
    path: &str,
    elf_host: bool,
    contents: Result<Vec<u8>, String>,
    sonames: &Option<Vec<String>>,
    is_file: &F,
) -> (answer: Loadability)
    requires
        elf_host && sonames is Some && contents is Ok && elf_needs(contents->Ok_0@) is Ok
            ==> forall|p: &str| #[trigger] is_file.requires((p,)),
    ensures
        !elf_host ==> (answer matches Loadability::Indeterminate { why } && why@
            == "shared-library loadability is only established for ELF hosts"@),
        elf_host && sonames is None ==> (answer matches Loadability::Indeterminate { why } && why@
            == "this host's shared-library set could not be enumerated"@),
        elf_host && sonames is Some && contents is Err ==> answer == (Loadability::Indeterminate {
            why: contents->Err_0,
        }),
        elf_host && sonames is Some && contents is Ok && elf_needs(contents->Ok_0@) is Err ==> (
        answer matches Loadability::Indeterminate { why } && why@ == unreadable_text(
            path@,
            elf_needs(contents->Ok_0@)->Err_0,
        )),
        elf_host && sonames is Some && contents is Ok && elf_needs(contents->Ok_0@) is Ok
            ==> exists|lost: Seq<bool>| #[trigger]
            host_marks_ok(
                *is_file,
                views(sonames->0@),
                located(elf_needs(contents->Ok_0@)->Ok_0, path@),
                lost,
            ) && names_missing(answer, missing_of(elf_needs(contents->Ok_0@)->Ok_0.needed, lost)),
{
    if !elf_host {
        return Loadability::Indeterminate {
            why: "shared-library loadability is only established for ELF hosts".to_owned(),
        };
    }
    let set: &Vec<String> = match sonames {
        Some(s) => s,
        None => {
            return Loadability::Indeterminate {
                why: "this host's shared-library set could not be enumerated".to_owned(),
            };
        },
    };
    let resolve = |candidate: &str| -> (found: bool)
        requires
            forall|p: &str| #[trigger] is_file.requires((p,)),
        ensures
            host_has(*is_file, views(set@), candidate@, found),
        { resolves_on_host(candidate, set, is_file) };
    let answer: Loadability = inspect_artifact(path, contents, &resolve);
    proof {
        if contents is Ok && elf_needs(contents->Ok_0@) is Ok {
            let needs = elf_needs(contents->Ok_0@)->Ok_0;
            let lost = choose|lost: Seq<bool>| #[trigger]
                marks_ok(resolve, located(needs, path@), lost) && names_missing(
                    answer,
                    missing_of(needs.needed, lost),
                );
            let placed = located(needs, path@);
            assert forall|c: Seq<char>, found: bool| #[trigger]
                resolved(resolve, c, found) implies host_has(
                *is_file,
                views(set@),
                c,
                found,
            ) by {}
            assert(host_marks_ok(*is_file, views(set@), placed, lost));
        }
    }
    answer
}

/// Whether the host answered `found` for a candidate: a path must exist as a file, a bare soname
/// must be in the library set.
pub open spec fn host_has<F: Fn(&str) -> bool>(
    is_file: F,
    sonames: Seq<Seq<char>>,
    candidate: Seq<char>,
    found: bool,
) -> bool {
    if candidate.contains('/') {
        resolved(is_file, candidate, found)
    } else {
        found == sonames.contains(candidate)
    }
}

/// Whether each mark says what the host answered for its soname.
pub open spec fn host_marks_ok<F: Fn(&str) -> bool>(
    is_file: F,
    sonames: Seq<Seq<char>>,
    needs: ElfNeedsView,
    lost: Seq<bool>,
) -> bool {
    &&& lost.len() == needs.needed.len()
    &&& forall|i: int|
        0 <= i < lost.len() ==> if #[trigger] lost[i] {
            &&& host_has(is_file, sonames, needs.needed[i], false)
            &&& forall|k: int|
                0 <= k < needs.runpath.len() ==> host_has(
                    is_file,
                    sonames,
                    candidate_in(#[trigger] needs.runpath[k], needs.needed[i]),
                    false,
                )
        } else {
            ||| host_has(is_file, sonames, needs.needed[i], true)
            ||| exists|k: int|
                0 <= k < needs.runpath.len() && host_has(
                    is_file,
                    sonames,
                    candidate_in(#[trigger] needs.runpath[k], needs.needed[i]),
                    true,
                )
        }
}

/// Whether one candidate resolves on this host.
pub fn resolves_on_host<F: Fn(&str) -> bool>(
    candidate: &str,
    sonames: &Vec<String>,
    is_file: &F,
) -> (r: bool)
    requires
        forall|p: &str| #[trigger] is_file.requires((p,)),
    ensures
        host_has(*is_file, views(sonames@), candidate@, r),
{
    let chars: Vec<char> = chars_of(candidate);
    let slash: usize = crate::text::find_char(&chars, '/', 0);
    proof {
        crate::text::lemma_scan_char_found(candidate@, '/', 0);
    }
    if slash < chars.len() {
        assert(candidate@[slash as int] == '/');
        let r: bool = is_file(candidate);
        assert(resolved(*is_file, candidate@, r));
        return r;
    }
    let mut i: usize = 0;
    while i < sonames.len()
        invariant
            i <= sonames@.len(),
            !candidate@.contains('/'),
            forall|j: int| 0 <= j < i ==> #[trigger] views(sonames@)[j] != candidate@,
        decreases sonames@.len() - i,
    {
        assert(views(sonames@)[i as int] == sonames@[i as int]@);
        if same_text(sonames[i].as_str(), candidate) {
            return true;
        }
        i = i + 1;
    }
    false
}

/// The sonames that this host can load: those of the linker's cache, if it can be read, and those
/// found in the library directories. `None` where there are none at all.
#[must_use]
pub fn host_sonames(cached: Option<Vec<String>>, scanned: Vec<String>) -> (sonames: Option<
    Vec<String>,
>)
    ensures
        ({
            let all = (match cached {
                Some(c) => c@,
                None => Seq::empty(),
            }) + scanned@;
            match sonames {
                Some(s) => s@ == all && all.len() > 0,
                None => all.len() == 0,
            }
        }),
{
    let mut all: Vec<String> = match cached {
        Some(c) => c,
        None => Vec::new(),
    };
    let mut more: Vec<String> = scanned;
    all.append(&mut more);
    if all.len() == 0 {
        None
    } else {
        Some(all)
    }
}

/// The soname that a line of the linker's cache listing names: the first word of a line that
/// starts with a tab.
pub open spec fn cache_entry(line: Seq<char>) -> Option<Seq<char>> {
    if line.len() > 0 && line[0] == '\t' && tokens(line).len() > 0 {
        Some(tokens(line)[0])
    } else {
        None
    }
}

/// The sonames that the lines name, in order.
pub open spec fn cache_entries(lines: Seq<Seq<char>>) -> Seq<Seq<char>>
    decreases lines.len(),
{
    if lines.len() == 0 {
        Seq::empty()
    } else {
        match cache_entry(lines.last()) {
            Some(soname) => cache_entries(lines.drop_last()).push(soname),
            None => cache_entries(lines.drop_last()),
        }
    }
}

/// The sonames in the listing of the dynamic linker's cache; `None` where it lists none.
#[must_use]
pub fn ldconfig_sonames(listing: &str) -> (sonames: Option<Vec<String>>)
    ensures
        match sonames {
            Some(s) => views(s@) == cache_entries(split(listing@, '\n')) && s@.len() > 0,
            None => cache_entries(split(listing@, '\n')).len() == 0,
        },
{
    let lines: Vec<String> = split_text(listing, '\n');
    let ghost all = split(listing@, '\n');
    let mut out: Vec<String> = Vec::new();
    let mut i: usize = 0;
    assert(views(out@) =~= cache_entries(all.take(0)));
    while i < lines.len()
        invariant
            i <= lines@.len(),
            views(lines@) == all,
            views(out@) == cache_entries(all.take(i as int)),
        decreases lines@.len() - i,
    {
        let line: &String = &lines[i];
        proof {
            assert(all.take(i + 1).drop_last() =~= all.take(i as int));
            assert(all.take(i + 1).last() == line@);
        }
        let chars: Vec<char> = chars_of(line.as_str());
        if chars.len() > 0 && chars[0] == '\t' {
            let words: Vec<String> = tokens_of(line.as_str());
            assert(views(words@) == tokens(line@));
            if words.len() > 0 {
                assert(views(words@)[0] == words@[0]@);
                proof {
                    lemma_views_push(out@, words@[0]);
                }
                out.push(words[0].clone());
            } else {
                assert(tokens(line@).len() == 0);
            }
        }
        i = i + 1;
    }
    assert(all.take(i as int) =~= all);
    assert(views(out@).len() == out@.len());
    if out.len() == 0 {
        None
    } else {
        Some(out)
    }
}

/// Whether a file name in a library directory is a library.
#[must_use]
pub fn is_library_name(name: &str) -> (r: bool)
    ensures
        r == has_text(name@, ".so"@),
{
    crate::text::contains_text(name, ".so")
}

/// A static image requires nothing of the loader, so it is loadable on any host.
pub proof fn an_image_that_needs_nothing_is_loadable(answer: Loadability, lost: Seq<bool>)
    requires
        names_missing(answer, missing_of(Seq::empty(), lost)),
    ensures
        answer is Loadable,
{
}

/// A refusal names only libraries that the image requires and that were found nowhere.
pub proof fn a_refusal_names_what_is_lost<R: Fn(&str) -> bool>(
    resolve: R,
    needs: ElfNeedsView,
    lost: Seq<bool>,
    k: int,
)
    requires
        marks_ok(resolve, needs, lost),
        0 <= k < missing_of(needs.needed, lost).len(),
    ensures
        exists|i: int|
            0 <= i < needs.needed.len() && (#[trigger] needs.needed[i]) == missing_of(
                needs.needed,
                lost,
            )[k] && is_lost(resolve, needs.needed[i], needs.runpath),
{
    lemma_missing_is_lost(needs.needed, lost, k);
    let i: int = choose|i: int|
        0 <= i < needs.needed.len() && #[trigger] needs.needed[i] == missing_of(
            needs.needed,
            lost,
        )[k] && lost[i];
    assert(lost[i]);
    assert(is_lost(resolve, needs.needed[i], needs.runpath));
}

proof fn lemma_missing_is_lost(needed: Seq<Seq<char>>, lost: Seq<bool>, k: int)
    requires
        lost.len() == needed.len(),
        0 <= k < missing_of(needed, lost).len(),
    ensures
        exists|i: int|
            0 <= i < needed.len() && #[trigger] needed[i] == missing_of(needed, lost)[k] && lost[i],
    decreases needed.len(),
{
    if needed.len() > 0 {
        let n: int = needed.len() - 1;
        let before = missing_of(needed.drop_last(), lost.drop_last());
        if k < before.len() {
            lemma_missing_is_lost(needed.drop_last(), lost.drop_last(), k);
            let i: int = choose|i: int|
                0 <= i < needed.drop_last().len() && #[trigger] needed.drop_last()[i] == before[k]
                    && lost.drop_last()[i];
            assert(needed[i] == missing_of(needed, lost)[k] && lost[i]);
        } else {
            assert(needed[n] == missing_of(needed, lost)[k] && lost[n]);
        }
    }
}

// ------------------------------------------------------------------ laws on the library set

/// Each line of the cache's listing that starts with a tab and holds a word gives that word, whatever
/// follows it on the line; a line that does not start with a tab, or is blank, gives nothing; and the
/// lines are taken in order, none twice.
pub proof fn each_tabbed_line_gives_its_first_word(
    a: Seq<Seq<char>>,
    b: Seq<Seq<char>>,
    blank: Seq<char>,
    soname: Seq<char>,
    rest: Seq<char>,
)
    requires
        is_blank(blank),
        is_word(soname),
        rest.len() == 0 || is_white(rest[0]),
    ensures
        cache_entries(a + b) == cache_entries(a) + cache_entries(b),
        cache_entries(Seq::empty()) == Seq::<Seq<char>>::empty(),
        cache_entries(seq![seq!['\t'] + blank + soname + rest]) == seq![soname],
        cache_entries(seq![seq!['\t'] + blank]) == Seq::<Seq<char>>::empty(),
        rest.len() == 0 || rest[0] != '\t' ==> cache_entries(seq![rest]) == Seq::<
            Seq<char>,
        >::empty(),
        cache_entries(seq![soname + rest]) == Seq::<Seq<char>>::empty(),
{
    let front = seq!['\t'] + blank;
    assert forall|i: int| 0 <= i < front.len() implies is_white(#[trigger] front[i]) by {
        if i > 0 {
            assert(front[i] == blank[i - 1]);
        }
    }
    lemma_blank_has_no_words(front);
    let line = front + soname + rest;
    assert(front + (soname + rest) =~= line);
    the_words_of_two_texts(front, soname + rest);
    the_words_of_a_text(soname, rest);
    assert(tokens(line)[0] == soname);
    assert(line[0] == '\t');
    lemma_one_line(line);
    lemma_one_line(front);
    lemma_one_line(rest);
    lemma_one_line(soname + rest);
    assert((soname + rest)[0] == soname[0]);
    lemma_cache_entries(a, b);
}

proof fn lemma_one_line(line: Seq<char>)
    ensures
        cache_entries(seq![line]) == match cache_entry(line) {
            Some(soname) => seq![soname],
            None => Seq::empty(),
        },
{
    assert(seq![line].drop_last() =~= Seq::empty());
    assert(cache_entries(seq![line].drop_last()) =~= Seq::empty());
    match cache_entry(line) {
        Some(soname) => {
            assert(cache_entries(seq![line]) =~= seq![soname]);
        },
        None => {},
    }
}

proof fn lemma_cache_entries(a: Seq<Seq<char>>, b: Seq<Seq<char>>)
    ensures
        cache_entries(a + b) == cache_entries(a) + cache_entries(b),
    decreases b.len(),
{
    if b.len() == 0 {
        assert(a + b =~= a);
        assert(cache_entries(a) + cache_entries(b) =~= cache_entries(a));
    } else {
        lemma_cache_entries(a, b.drop_last());
        assert((a + b).drop_last() =~= a + b.drop_last());
        assert((a + b).last() == b.last());
        assert(cache_entries(a + b) =~= cache_entries(a) + cache_entries(b));
    }
}

/// A library in the cache is seen wherever its line stands in the listing, and the lines before and
/// after it give what they give without it.
#[verifier::spinoff_prover]
#[verifier::rlimit(40)]
pub proof fn a_cached_library_is_seen(
    before: Seq<char>,
    soname: Seq<char>,
    rest: Seq<char>,
    after: Seq<char>,
)
    requires
        is_word(soname),
        rest.len() == 0 || is_white(rest[0]),
        !rest.contains('\n'),
    ensures
        ({
            let line = seq!['\t'] + soname + rest;
            let listing = before.push('\n') + line.push('\n') + after;
            &&& cache_entries(split(listing, '\n')) == cache_entries(split(before, '\n')) + seq![
                soname,
            ] + cache_entries(split(after, '\n'))
            &&& cache_entries(split(line, '\n')) == seq![soname]
        }),
{
    let none = Seq::<char>::empty();
    let line = seq!['\t'] + soname + rest;
    let tail = line.push('\n') + after;
    let listing = before.push('\n') + line.push('\n') + after;
    assert(listing =~= before.push('\n') + tail);
    the_pieces_of_two_texts(before, tail, '\n');
    the_pieces_of_two_texts(line, after, '\n');
    assert forall|j: int| 0 <= j < line.len() implies line[j] != '\n' by {
        if 0 < j && j <= soname.len() {
            assert(line[j] == soname[j - 1]);
        } else if j > soname.len() {
            assert(line[j] == rest[j - 1 - soname.len()]);
            assert(rest.contains(rest[j - 1 - soname.len()]));
        }
    }
    lemma_split(line, '\n', line.len() as int);
    lemma_cache_entries(split(before, '\n'), split(tail, '\n'));
    lemma_cache_entries(split(line, '\n'), split(after, '\n'));
    assert(seq!['\t'] + none + soname + rest =~= line);
    each_tabbed_line_gives_its_first_word(Seq::empty(), Seq::empty(), none, soname, rest);
    assert(cache_entries(split(before, '\n')) + (seq![soname] + cache_entries(split(after, '\n')))
        =~= cache_entries(split(before, '\n')) + seq![soname] + cache_entries(split(after, '\n')));
}

/// Whether the default search path has the soname, or one of the directories of the image's own does.
pub open spec fn has_library<R: Fn(&str) -> bool>(
    resolve: R,
    soname: Seq<char>,
    runpath: Seq<Seq<char>>,
) -> bool {
    ||| exists|p: &str| p@ == soname && #[trigger] resolve.ensures((p,), true)
    ||| exists|k: int, p: &str|
        0 <= k < runpath.len() && p@ == candidate_in(runpath[k], soname)
            && #[trigger] resolve.ensures((p,), true) && #[trigger] in_runpath(runpath, k)
}

/// Whether `k` stands in the search path.
pub open spec fn in_runpath(runpath: Seq<Seq<char>>, k: int) -> bool {
    0 <= k < runpath.len()
}

/// Whether the default search path was asked for the soname and does not have it, and so was every
/// directory of the image's own.
pub open spec fn lacks_library<R: Fn(&str) -> bool>(
    resolve: R,
    soname: Seq<char>,
    runpath: Seq<Seq<char>>,
) -> bool {
    &&& exists|p: &str| p@ == soname && #[trigger] resolve.ensures((p,), false)
    &&& forall|k: int| #[trigger]
        in_runpath(runpath, k) ==> exists|p: &str|
            p@ == candidate_in(runpath[k], soname) && #[trigger] resolve.ensures((p,), false)
}

/// What an answer means: an image is loadable only if each library that it needs was found; it is
/// refused only for libraries that it needs and that were found nowhere, and every one that was not
/// found is named.
#[verifier::rlimit(40)]
pub proof fn an_answer_means_what_it_says<R: Fn(&str) -> bool>(
    resolve: R,
    needs: ElfNeedsView,
    lost: Seq<bool>,
    answer: Loadability,
    i: int,
)
    requires
        marks_ok(resolve, needs, lost),
        names_missing(answer, missing_of(needs.needed, lost)),
        0 <= i < needs.needed.len(),
    ensures
        !(answer is Indeterminate),
        answer is Loadable ==> has_library(resolve, needs.needed[i], needs.runpath),
        answer matches Loadability::Unloadable { missing } ==> {
            &&& missing@.len() > 0
            &&& has_library(resolve, needs.needed[i], needs.runpath) || exists|k: int|
                0 <= k < missing@.len() && (#[trigger] missing@[k])@ == needs.needed[i]
            &&& forall|k: int|
                0 <= k < missing@.len() ==> exists|j: int|
                    0 <= j < needs.needed.len() && needs.needed[j] == (#[trigger] missing@[k])@
                        && #[trigger] lacks_library(resolve, needs.needed[j], needs.runpath)
        },
{
    let gone = missing_of(needs.needed, lost);
    lemma_lost_is_missing(needs.needed, lost, i);
    assert forall|j: int| 0 <= j < needs.needed.len() && !lost[j] implies has_library(
        resolve,
        #[trigger] needs.needed[j],
        needs.runpath,
    ) by {
        assert(!lost[j]);
        assert(is_found(resolve, needs.needed[j], needs.runpath));
        if !resolved(resolve, needs.needed[j], true) {
            let k: int = choose|k: int|
                0 <= k < needs.runpath.len() && resolved(
                    resolve,
                    candidate_in(#[trigger] needs.runpath[k], needs.needed[j]),
                    true,
                );
            let p = choose|p: &str|
                p@ == candidate_in(needs.runpath[k], needs.needed[j]) && #[trigger] resolve.ensures(
                    (p,),
                    true,
                );
            assert(in_runpath(needs.runpath, k));
        }
    }
    match answer {
        Loadability::Unloadable { missing } => {
            assert forall|k: int| 0 <= k < missing@.len() implies exists|j: int|
                0 <= j < needs.needed.len() && needs.needed[j] == (#[trigger] missing@[k])@
                    && #[trigger] lacks_library(resolve, needs.needed[j], needs.runpath) by {
                assert(views(missing@)[k] == missing@[k]@);
                a_refusal_names_what_is_lost(resolve, needs, lost, k);
                let j: int = choose|j: int|
                    0 <= j < needs.needed.len() && (#[trigger] needs.needed[j]) == gone[k]
                        && is_lost(resolve, needs.needed[j], needs.runpath);
                assert(lacks_library(resolve, needs.needed[j], needs.runpath)) by {
                    assert forall|d: int| #[trigger] in_runpath(needs.runpath, d) implies exists|
                        p: &str,
                    |
                        p@ == candidate_in(needs.runpath[d], needs.needed[j])
                            && #[trigger] resolve.ensures((p,), false) by {
                        assert(resolved(
                            resolve,
                            candidate_in(needs.runpath[d], needs.needed[j]),
                            false,
                        ));
                    }
                }
            }
            if lost[i] {
                let k: int = choose|k: int|
                    0 <= k < gone.len() && #[trigger] gone[k] == needs.needed[i];
                assert(views(missing@)[k] == missing@[k]@);
            }
        },
        _ => {},
    }
}

proof fn lemma_lost_is_missing(needed: Seq<Seq<char>>, lost: Seq<bool>, i: int)
    requires
        lost.len() == needed.len(),
        0 <= i < needed.len(),
    ensures
        lost[i] ==> exists|k: int|
            0 <= k < missing_of(needed, lost).len() && #[trigger] missing_of(needed, lost)[k]
                == needed[i],
    decreases needed.len(),
{
    let before = missing_of(needed.drop_last(), lost.drop_last());
    let now = missing_of(needed, lost);
    if lost[i] {
        if i == needed.len() - 1 {
            assert(now[before.len() as int] == needed[i]);
        } else {
            lemma_lost_is_missing(needed.drop_last(), lost.drop_last(), i);
            let k: int = choose|k: int|
                0 <= k < before.len() && #[trigger] before[k] == needed.drop_last()[i];
            assert(now[k] == needed[i]);
        }
    }
}

/// The libraries named as missing are in the order in which the image asks for them, as often as it
/// does: those of two parts of its list are those of the first and then those of the second.
#[verifier::rlimit(40)]
pub proof fn missing_libraries_are_in_link_order(
    a: Seq<Seq<char>>,
    lost_a: Seq<bool>,
    b: Seq<Seq<char>>,
    lost_b: Seq<bool>,
    soname: Seq<char>,
)
    requires
        a.len() == lost_a.len(),
        b.len() == lost_b.len(),
    ensures
        missing_of(a + b, lost_a + lost_b) == missing_of(a, lost_a) + missing_of(b, lost_b),
        missing_of(seq![soname], seq![true]) == seq![soname],
        missing_of(seq![soname], seq![false]) == Seq::<Seq<char>>::empty(),
    decreases b.len(),
{
    let one = seq![soname];
    assert(one.drop_last() =~= Seq::empty());
    assert(missing_of(one.drop_last(), seq![true].drop_last()) =~= Seq::empty());
    assert(missing_of(one.drop_last(), seq![false].drop_last()) =~= Seq::empty());
    assert(missing_of(one, seq![true]) =~= one);
    if b.len() == 0 {
        assert(a + b =~= a && lost_a + lost_b =~= lost_a);
        assert(missing_of(a, lost_a) + missing_of(b, lost_b) =~= missing_of(a, lost_a));
    } else {
        missing_libraries_are_in_link_order(
            a,
            lost_a,
            b.drop_last(),
            lost_b.drop_last(),
            soname,
        );
        assert((a + b).drop_last() =~= a + b.drop_last());
        assert((lost_a + lost_b).drop_last() =~= lost_a + lost_b.drop_last());
        assert((a + b).last() == b.last() && (lost_a + lost_b).last() == lost_b.last());
        assert(missing_of(a + b, lost_a + lost_b) =~= missing_of(a, lost_a) + missing_of(
            b,
            lost_b,
        ));
    }
}

/// A library is looked for in a directory under its own name, with one separator between, however many
/// the directory ends in.
pub proof fn a_library_is_looked_for_in_the_directory(
    dir: Seq<char>,
    slashes: Seq<char>,
    soname: Seq<char>,
)
    requires
        dir.len() == 0 || dir.last() != '/',
        forall|i: int| 0 <= i < slashes.len() ==> #[trigger] slashes[i] == '/',
    ensures
        candidate_in(dir + slashes, soname) == dir + "/"@ + soname,
{
    let whole = dir + slashes;
    assert forall|i: int| dir.len() <= i < whole.len() implies whole[i] == '/' by {
        assert(whole[i] == slashes[i - dir.len()]);
    }
    lemma_unslashed(whole, whole.len() as int, dir.len() as int);
    assert(whole.take(dir.len() as int) =~= dir);
}

proof fn lemma_unslashed(s: Seq<char>, n: int, k: int)
    requires
        0 <= k <= n <= s.len(),
        forall|i: int| k <= i < n ==> s[i] == '/',
        k == 0 || s[k - 1] != '/',
    ensures
        unslashed_end(s, n) == k,
    decreases n,
{
    if k < n {
        lemma_unslashed(s, n - 1, k);
    }
}

/// `$ORIGIN`, and `${ORIGIN}`, in a search directory stands for the directory that the artifact is
/// loaded from; a directory without a `$` is searched as it stands.
#[verifier::rlimit(40)]
pub proof fn the_origin_is_filled_in(before: Seq<char>, origin: Seq<char>, after: Seq<char>)
    requires
        !before.contains('$'),
        !origin.contains('$'),
        !after.contains('$'),
    ensures
        expanded(before + "$ORIGIN"@ + after, origin) == before + origin + after,
        expanded(before + "${ORIGIN}"@ + after, origin) == before + origin + after,
        expanded(before, origin) == before,
{
    reveal_strlit("$ORIGIN");
    reveal_strlit("${ORIGIN}");
    let plain = "$ORIGIN"@;
    let braced = "${ORIGIN}"@;
    let out = before + origin + after;
    assert forall|i: int| 0 <= i < out.len() implies out[i] != '$' by {
        if i < before.len() {
            assert(out[i] == before[i]);
            assert(before.contains(before[i]));
        } else if i < before.len() + origin.len() {
            assert(out[i] == origin[i - before.len()]);
            assert(origin.contains(origin[i - before.len()]));
        } else {
            assert(out[i] == after[i - before.len() - origin.len()]);
            assert(after.contains(after[i - before.len() - origin.len()]));
        }
    }
    lemma_no_mark(before, plain, origin);
    lemma_no_mark(before, braced, origin);
    lemma_no_mark(after, plain, origin);
    lemma_no_mark(after, braced, origin);
    assert(!out.contains('$'));
    lemma_no_mark(out, braced, origin);
    lemma_one_mark(before, plain, after, plain, origin);
    lemma_one_mark(before, braced, after, braced, origin);
    lemma_one_mark(before, braced, after, plain, origin);
}

proof fn lemma_no_mark(s: Seq<char>, pat: Seq<char>, by: Seq<char>)
    requires
        !s.contains('$'),
        pat.len() > 0,
        pat[0] == '$',
    ensures
        replaced(s, pat, by) == s,
{
    lemma_find_from(s, pat, 0);
    if find_from(s, pat, 0) is Some {
        let k: int = find_from(s, pat, 0)->0;
        assert(s.subrange(k, k + pat.len())[0] == s[k]);
        assert(s.contains(s[k]));
    }
}

#[verifier::rlimit(40)]
proof fn lemma_one_mark(
    before: Seq<char>,
    mark: Seq<char>,
    after: Seq<char>,
    pat: Seq<char>,
    by: Seq<char>,
)
    requires
        !before.contains('$'),
        !after.contains('$'),
        mark.len() > 1,
        pat.len() > 1,
        mark[0] == '$',
        pat[0] == '$',
        forall|i: int| 0 < i < mark.len() ==> mark[i] != '$',
        pat == mark || pat[1] != mark[1],
    ensures
        pat == mark ==> replaced(before + mark + after, pat, by) == before + by + after,
        pat != mark ==> replaced(before + mark + after, pat, by) == before + mark + after,
{
    let s = before + mark + after;
    let n: int = before.len() as int;
    lemma_find_from(s, pat, 0);
    assert forall|k: int| 0 <= k && k != n implies !#[trigger] crate::text::stands_at(s, pat, k) by {
        if crate::text::stands_at(s, pat, k) {
            assert(s.subrange(k, k + pat.len())[0] == s[k]);
            if k < n {
                assert(s[k] == before[k]);
                assert(before.contains(before[k]));
            } else if k < n + mark.len() {
                assert(s[k] == mark[k - n]);
            } else {
                assert(s[k] == after[k - n - mark.len()]);
                assert(after.contains(after[k - n - mark.len()]));
            }
        }
    }
    if pat == mark {
        assert(s.subrange(n, n + mark.len()) =~= mark);
        assert(crate::text::stands_at(s, pat, n));
        assert(find_from(s, pat, 0) == Some(n));
        assert(s.skip(n + pat.len()) =~= after);
        assert(s.take(n) =~= before);
        lemma_no_mark(after, pat, by);
    } else if crate::text::stands_at(s, pat, n) {
        assert(s.subrange(n, n + pat.len())[1] == s[n + 1]);
        assert(s[n + 1] == mark[1]);
    }
}

/// What the host's answer means for a library that is asked for by name: it is missing only where the host's
/// set has no such name and no directory of the image's search path has such a file; and it is found only
/// where one of them has it.
#[verifier::rlimit(40)]
pub proof fn the_host_has_what_its_set_names<F: Fn(&str) -> bool>(
    is_file: F,
    sonames: Seq<Seq<char>>,
    needs: ElfNeedsView,
    lost: Seq<bool>,
    i: int,
)
    requires
        host_marks_ok(is_file, sonames, needs, lost),
        0 <= i < needs.needed.len(),
        !needs.needed[i].contains('/'),
    ensures
        lost[i] ==> !sonames.contains(needs.needed[i]) && forall|k: int| #[trigger]
            in_runpath(needs.runpath, k) ==> exists|p: &str|
                p@ == candidate_in(needs.runpath[k], needs.needed[i]) && #[trigger] is_file.ensures(
                    (p,),
                    false,
                ),
        !lost[i] ==> sonames.contains(needs.needed[i]) || exists|k: int, p: &str|
            p@ == candidate_in(needs.runpath[k], needs.needed[i]) && #[trigger] is_file.ensures(
                (p,),
                true,
            ) && #[trigger] in_runpath(needs.runpath, k),
{
    let soname = needs.needed[i];
    reveal_strlit("/");
    assert forall|k: int| 0 <= k < needs.runpath.len() implies #[trigger] candidate_in(
        needs.runpath[k],
        soname,
    ).contains('/') by {
        let dir = needs.runpath[k];
        let n: int = unslashed_end(dir, dir.len() as int);
        lemma_unslashed_bounds(dir, dir.len() as int);
        assert(candidate_in(dir, soname)[n] == '/');
    }
    if lost[i] {
        assert forall|k: int| #[trigger] in_runpath(needs.runpath, k) implies exists|p: &str|
            p@ == candidate_in(needs.runpath[k], soname) && #[trigger] is_file.ensures(
                (p,),
                false,
            ) by {
            assert(host_has(is_file, sonames, candidate_in(needs.runpath[k], soname), false));
        }
    } else if !sonames.contains(soname) {
        let k: int = choose|k: int|
            0 <= k < needs.runpath.len() && host_has(
                is_file,
                sonames,
                candidate_in(#[trigger] needs.runpath[k], soname),
                true,
            );
        assert(resolved(is_file, candidate_in(needs.runpath[k], soname), true));
        let p = choose|p: &str|
            p@ == candidate_in(needs.runpath[k], soname) && #[trigger] is_file.ensures((p,), true);
        assert(is_file.ensures((p,), true) && in_runpath(needs.runpath, k));
    }
}

proof fn lemma_unslashed_bounds(s: Seq<char>, n: int)
    requires
        0 <= n <= s.len(),
    ensures
        0 <= unslashed_end(s, n) <= n,
    decreases n,
{
    if n > 0 && s[n - 1] == '/' {
        lemma_unslashed_bounds(s, n - 1);
    }
}

/// An artifact's own directory is what its search path starts from: it is the directory of its path, and the
/// current one for a bare name. The libraries that it needs, and the rest, are left as they are.
pub proof fn an_artifact_is_loaded_from_its_directory(
    needs: ElfNeedsView,
    above: Seq<char>,
    last: Seq<char>,
    name: Seq<char>,
    i: int,
)
    requires
        above.len() == 0 || above.last() == '/',
        is_plain(last),
        is_plain(name),
        0 <= i < needs.runpath.len(),
    ensures
        ({
            let placed = located(needs, above + last + seq!['/'] + name);
            &&& placed.runpath.len() == needs.runpath.len()
            &&& placed.runpath[i] == expanded(needs.runpath[i], above + last)
            &&& placed.needed == needs.needed
            &&& placed.interp == needs.interp
            &&& placed.machine == needs.machine
        }),
        origin_of(seq!['/']) == "."@,
{
    a_path_is_its_directory_and_its_name(above, last, name);
}

/// How large an artifact may be to be read: 256 MiB.
pub proof fn the_ceiling_is_in_bytes()
    ensures
        MAX_INSPECT_BYTES == 256 * 1024 * 1024,
{
}

} // verus!
