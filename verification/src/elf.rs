//! A total reader for an ELF file's dynamic-linking requirements.
//!
//! The updater needs one fact about an artifact it is about to install: which shared libraries
//! the dynamic linker will demand before the binary's `main` ever runs. Asking the loader would
//! mean running the artifact, so the requirements are read out of the file's own bytes.
//!
//! Only the fields that answer that one question are decoded: the identification bytes, the
//! program headers (`PT_INTERP`, `PT_DYNAMIC`, `PT_LOAD` for address translation) and the dynamic
//! entries `DT_NEEDED`, `DT_STRTAB`, `DT_STRSZ`, `DT_RPATH` and `DT_RUNPATH`.
//!
//! The bytes are a downloaded artifact, read inside a privileged pass: a panic here would stop the
//! host updating at all. Every input therefore has an answer, which [`elf_needs`] states.

use vstd::prelude::*;
use vstd::slice::slice_subrange;

use crate::display::{sanitized, without_control_chars};
use crate::text::{
    cat2, keep_nonempty, lemma_nonempty_pieces, lemma_split_pieces, nonempty, opt_view, split,
    split_text, views,
};

verus! {

/// Why an artifact's dynamic requirements could not be read. Every variant means "no answer",
/// never "no requirements".
#[derive(Debug, Clone, PartialEq, Eq)]
pub enum ElfParseError {
    /// The file is not an ELF image at all (a package, a Windows image, a script, a stub).
    NotElf,
    /// A valid ELF image that this reader deliberately does not decode, with the reason.
    Unsupported(&'static str),
    /// The file ended, or a structure pointed, outside the bytes provided.
    Truncated,
}

/// What an [`ElfParseError`] says.
pub enum ElfErrorView {
    NotElf,
    Unsupported(Seq<char>),
    Truncated,
}

impl View for ElfParseError {
    type V = ElfErrorView;

    open spec fn view(&self) -> ElfErrorView {
        match *self {
            ElfParseError::NotElf => ElfErrorView::NotElf,
            ElfParseError::Unsupported(why) => ElfErrorView::Unsupported(why@),
            ElfParseError::Truncated => ElfErrorView::Truncated,
        }
    }
}

impl ElfParseError {
    /// The error in words.
    pub fn message(&self) -> (text: String)
        ensures
            text@ == (match self@ {
                ElfErrorView::NotElf => "not an ELF image"@,
                ElfErrorView::Unsupported(why) => "unsupported ELF image: "@ + why,
                ElfErrorView::Truncated => "the ELF image is truncated or self-inconsistent"@,
            }),
    {
        match self {
            ElfParseError::NotElf => "not an ELF image".to_owned(),
            ElfParseError::Unsupported(why) => cat2("unsupported ELF image: ", why),
            ElfParseError::Truncated => "the ELF image is truncated or self-inconsistent".to_owned(),
        }
    }
}

/// What the dynamic linker will require of an ELF image before it runs.
#[derive(Debug, Clone, PartialEq, Eq)]
pub struct ElfNeeds {
    /// The machine the image is built for (`e_machine`, such as [`EM_X86_64`]). Zero means that
    /// the image names no machine.
    pub machine: u16,
    /// The program interpreter (`PT_INTERP`); `None` for an image that needs no loader.
    pub interp: Option<String>,
    /// The `DT_NEEDED` sonames, in link order.
    pub needed: Vec<String>,
    /// The image's own search path (`DT_RUNPATH`, else `DT_RPATH`), split on `:` and unexpanded.
    pub runpath: Vec<String>,
}

impl Default for ElfNeeds {
    /// The requirements of an image that requires nothing.
    fn default() -> (needs: Self)
        ensures
            needs@ == (ElfNeedsView {
                machine: 0,
                interp: None,
                needed: Seq::empty(),
                runpath: Seq::empty(),
            }),
    {
        let needs = ElfNeeds { machine: 0, interp: None, needed: Vec::new(), runpath: Vec::new() };
        assert(views(needs.needed@) =~= Seq::empty());
        needs
    }
}

/// What an [`ElfNeeds`] holds.
#[verifier::ext_equal]
pub struct ElfNeedsView {
    pub machine: u16,
    pub interp: Option<Seq<char>>,
    pub needed: Seq<Seq<char>>,
    pub runpath: Seq<Seq<char>>,
}

impl View for ElfNeeds {
    type V = ElfNeedsView;

    open spec fn view(&self) -> ElfNeedsView {
        ElfNeedsView {
            machine: self.machine,
            interp: opt_view(self.interp),
            needed: views(self.needed@),
            runpath: views(self.runpath@),
        }
    }
}

/// `EM_386`: 32-bit x86.
pub const EM_386: u16 = 3;

/// `EM_ARM`: 32-bit ARM.
pub const EM_ARM: u16 = 40;

/// `EM_X86_64`: 64-bit x86.
pub const EM_X86_64: u16 = 62;

/// `EM_AARCH64`: 64-bit ARM.
pub const EM_AARCH64: u16 = 183;

/// `EM_RISCV`: RISC-V.
pub const EM_RISCV: u16 = 243;

/// A ceiling on how many `DT_NEEDED` entries are resolved from one image.
///
/// Together with [`MAX_STRING_BYTES`] it keeps the work linear: without them a dynamic array of
/// many entries, each naming one long unterminated string, allocates quadratically in the file.
pub const MAX_NEEDED_ENTRIES: usize = 512;

/// A ceiling on the length of any single string resolved out of the image.
pub const MAX_STRING_BYTES: usize = 4096;

// ------------------------------------------------------------------ what the bytes say

/// Where the two ELF classes keep the fields this reader needs. The classes differ only in field
/// widths and offsets.
pub struct Layout {
    /// Whether addresses and offsets are 8 bytes wide rather than 4.
    pub wide: bool,
    /// Offset of `e_phoff` in the ELF header.
    pub e_phoff: usize,
    /// Offset of `e_phentsize` in the ELF header.
    pub e_phentsize: usize,
    /// Offset of `e_phnum` in the ELF header.
    pub e_phnum: usize,
    /// Offset of `p_offset` in a program header.
    pub p_offset: usize,
    /// Offset of `p_vaddr` in a program header.
    pub p_vaddr: usize,
    /// Offset of `p_filesz` in a program header.
    pub p_filesz: usize,
}

/// The layout of the 64-bit class, or of the 32-bit class.
pub open spec fn layout_of(wide: bool) -> Layout {
    if wide {
        Layout {
            wide: true,
            e_phoff: 0x20,
            e_phentsize: 0x36,
            e_phnum: 0x38,
            p_offset: 0x08,
            p_vaddr: 0x10,
            p_filesz: 0x20,
        }
    } else {
        Layout {
            wide: false,
            e_phoff: 0x1c,
            e_phentsize: 0x2a,
            e_phnum: 0x2c,
            p_offset: 0x04,
            p_vaddr: 0x08,
            p_filesz: 0x10,
        }
    }
}

/// The little-endian two-byte number at `at`.
pub open spec fn u16_le(b: Seq<u8>, at: int) -> int {
    b[at] + 0x100 * b[at + 1]
}

/// The little-endian four-byte number at `at`.
pub open spec fn u32_le(b: Seq<u8>, at: int) -> int {
    u16_le(b, at) + 0x1_0000 * u16_le(b, at + 2)
}

/// The little-endian number of the class's width at `at`.
pub open spec fn word_le(b: Seq<u8>, at: int, wide: bool) -> int {
    if wide {
        u32_le(b, at) + 0x1_0000_0000 * u32_le(b, at + 4)
    } else {
        u32_le(b, at)
    }
}

/// How many bytes an address takes.
pub open spec fn word_bytes(wide: bool) -> int {
    if wide {
        8
    } else {
        4
    }
}

/// One program header.
pub struct SegmentView {
    pub kind: int,
    pub vaddr: int,
    pub offset: int,
    pub size: int,
}

/// Where program header `i` starts.
pub open spec fn header_base(b: Seq<u8>, l: Layout, i: int) -> int {
    word_le(b, l.e_phoff as int, l.wide) + i * u16_le(b, l.e_phentsize as int)
}

/// Program header `i`.
pub open spec fn header_at(b: Seq<u8>, l: Layout, i: int) -> SegmentView {
    let base: int = header_base(b, l, i);
    SegmentView {
        kind: u32_le(b, base),
        vaddr: word_le(b, base + l.p_vaddr, l.wide),
        offset: word_le(b, base + l.p_offset, l.wide),
        size: word_le(b, base + l.p_filesz, l.wide),
    }
}

/// Whether program header `i` lies in the file and describes a range that the host can index.
pub open spec fn header_ok(b: Seq<u8>, l: Layout, i: int) -> bool {
    &&& header_base(b, l, i) + u16_le(b, l.e_phentsize as int) <= b.len()
    &&& header_at(b, l, i).offset + header_at(b, l, i).size <= usize::MAX
}

/// How many program headers the image claims.
pub open spec fn header_count(b: Seq<u8>, l: Layout) -> int {
    u16_le(b, l.e_phnum as int)
}

/// Whether the program headers can be read.
pub open spec fn headers_ok(b: Seq<u8>, l: Layout) -> bool {
    &&& l.e_phnum + 2 <= b.len()
    &&& word_le(b, l.e_phoff as int, l.wide) <= usize::MAX
    &&& u16_le(b, l.e_phentsize as int) >= l.p_filesz + word_bytes(l.wide)
    &&& forall|i: int| 0 <= i < header_count(b, l) ==> #[trigger] header_ok(b, l, i)
}

/// The `PT_LOAD` segments among the first `n` headers, in order.
pub open spec fn loads_upto(b: Seq<u8>, l: Layout, n: int) -> Seq<SegmentView>
    decreases n,
{
    if n <= 0 {
        Seq::empty()
    } else if header_at(b, l, n - 1).kind == 1 {
        loads_upto(b, l, n - 1).push(header_at(b, l, n - 1))
    } else {
        loads_upto(b, l, n - 1)
    }
}

/// The last segment of kind `kind` among the first `n` headers.
pub open spec fn last_upto(b: Seq<u8>, l: Layout, kind: int, n: int) -> Option<SegmentView>
    decreases n,
{
    if n <= 0 {
        None
    } else if header_at(b, l, n - 1).kind == kind {
        Some(header_at(b, l, n - 1))
    } else {
        last_upto(b, l, kind, n - 1)
    }
}

/// The entries of a dynamic array from `at` on, each a tag and a value, up to the terminating
/// `DT_NULL` or the last whole entry.
pub open spec fn dynamic_from(d: Seq<u8>, wide: bool, at: int) -> Seq<(int, int)>
    decreases d.len() - at,
{
    let w: int = word_bytes(wide);
    if at < 0 || at + 2 * w > d.len() || word_le(d, at, wide) == 0 {
        Seq::empty()
    } else {
        seq![(word_le(d, at, wide), word_le(d, at + w, wide))] + dynamic_from(d, wide, at + 2 * w)
    }
}

/// The values of the entries tagged `tag`, in order.
pub open spec fn values_tagged(entries: Seq<(int, int)>, tag: int) -> Seq<int>
    decreases entries.len(),
{
    if entries.len() == 0 {
        Seq::empty()
    } else if entries.last().0 == tag {
        values_tagged(entries.drop_last(), tag).push(entries.last().1)
    } else {
        values_tagged(entries.drop_last(), tag)
    }
}

/// The value of the last entry tagged `tag`.
pub open spec fn last_tagged(entries: Seq<(int, int)>, tag: int) -> Option<int>
    decreases entries.len(),
{
    if entries.len() == 0 {
        None
    } else if entries.last().0 == tag {
        Some(entries.last().1)
    } else {
        last_tagged(entries.drop_last(), tag)
    }
}

/// Whether `load` maps the virtual address `vaddr` to a file offset that the host can index.
pub open spec fn maps(load: SegmentView, vaddr: int) -> bool {
    load.vaddr <= vaddr < load.vaddr + load.size && load.offset + (vaddr - load.vaddr) <= usize::MAX
}

/// The file offset of `vaddr`, through the first segment that maps it.
pub open spec fn file_offset(loads: Seq<SegmentView>, vaddr: int) -> Option<int>
    decreases loads.len(),
{
    if loads.len() == 0 {
        None
    } else if maps(loads[0], vaddr) {
        Some(loads[0].offset + (vaddr - loads[0].vaddr))
    } else {
        file_offset(loads.skip(1), vaddr)
    }
}

/// The position of the first zero byte at or after `i`, looked for within [`MAX_STRING_BYTES`].
pub open spec fn nul_at(b: Seq<u8>, i: int) -> Option<int>
    decreases b.len() - i,
{
    if i < 0 || i >= b.len() || i >= MAX_STRING_BYTES {
        None
    } else if b[i] == 0 {
        Some(i)
    } else {
        nul_at(b, i + 1)
    }
}

/// The text that `String::from_utf8_lossy` reads out of `bytes`.
pub uninterp spec fn utf8_lossy(bytes: Seq<u8>) -> Seq<char>;

/// The text that `bytes` hold: what they encode, where they are valid UTF-8, and what
/// `String::from_utf8_lossy` makes of them otherwise.
pub open spec fn text_in(bytes: Seq<u8>) -> Seq<char> {
    if vstd::utf8::valid_utf8(bytes) {
        vstd::utf8::decode_utf8(bytes)
    } else {
        utf8_lossy(bytes)
    }
}

/// The zero-terminated text at the start of `b`, with control characters replaced.
pub open spec fn c_text(b: Seq<u8>) -> Option<Seq<char>> {
    match nul_at(b, 0) {
        Some(n) => Some(sanitized(text_in(b.take(n)))),
        None => None,
    }
}

/// The zero-terminated text at `offset` in a string table.
pub open spec fn text_at(table: Seq<u8>, offset: int) -> Option<Seq<char>> {
    if 0 <= offset <= table.len() {
        c_text(table.skip(offset))
    } else {
        None
    }
}

/// The texts at each of `offsets`, if every one can be read.
pub open spec fn texts_at(table: Seq<u8>, offsets: Seq<int>) -> Option<Seq<Seq<char>>> {
    if forall|i: int| 0 <= i < offsets.len() ==> text_at(table, #[trigger] offsets[i]) is Some {
        Some(Seq::new(offsets.len(), |i: int| text_at(table, offsets[i])->0))
    } else {
        None
    }
}

/// The file range `[from, from + size)`, if it lies in the file.
pub open spec fn file_range(b: Seq<u8>, from: int, size: int) -> Option<Seq<u8>> {
    if from + size <= b.len() {
        Some(b.subrange(from, from + size))
    } else {
        None
    }
}

/// The dynamic string table: at the file offset of `DT_STRTAB`, as long as `DT_STRSZ` says.
pub open spec fn table_of(
    b: Seq<u8>,
    entries: Seq<(int, int)>,
    loads: Seq<SegmentView>,
) -> Option<Seq<u8>> {
    match (last_tagged(entries, 5), last_tagged(entries, 10)) {
        (Some(vaddr), Some(size)) => match file_offset(loads, vaddr) {
            Some(offset) => file_range(b, offset, size),
            None => None,
        },
        _ => None,
    }
}

/// Where the search path is named: `DT_RUNPATH`, else `DT_RPATH`.
pub open spec fn runpath_offset(entries: Seq<(int, int)>) -> Option<int> {
    match last_tagged(entries, 29) {
        Some(offset) => Some(offset),
        None => last_tagged(entries, 15),
    }
}

/// The image's own search path, split on `:` without empty parts.
pub open spec fn runpath_of(table: Seq<u8>, entries: Seq<(int, int)>) -> Option<Seq<Seq<char>>> {
    match runpath_offset(entries) {
        None => Some(Seq::empty()),
        Some(offset) => match text_at(table, offset) {
            Some(text) => Some(nonempty(split(text, ':'))),
            None => None,
        },
    }
}

/// The interpreter: absent, unreadable (`None`), or its name.
pub open spec fn interp_of(b: Seq<u8>, segment: Option<SegmentView>) -> Option<Option<Seq<char>>> {
    match segment {
        None => Some(None),
        Some(s) => match file_range(b, s.offset, s.size) {
            Some(bytes) => match c_text(bytes) {
                Some(text) => Some(Some(text)),
                None => None,
            },
            None => None,
        },
    }
}

/// The requirements that a dynamic array states.
pub open spec fn dynamic_needs(
    b: Seq<u8>,
    machine: u16,
    interp: Option<Seq<char>>,
    entries: Seq<(int, int)>,
    loads: Seq<SegmentView>,
) -> Result<ElfNeedsView, ElfErrorView> {
    match table_of(b, entries, loads) {
        None => Err(ElfErrorView::Truncated),
        Some(table) => {
            let offsets = values_tagged(entries, 1);
            if offsets.len() > MAX_NEEDED_ENTRIES {
                Err(ElfErrorView::Unsupported("more DT_NEEDED entries than any real image has"@))
            } else {
                match (texts_at(table, offsets), runpath_of(table, entries)) {
                    (Some(needed), Some(runpath)) => Ok(
                        ElfNeedsView { machine, interp, needed, runpath },
                    ),
                    _ => Err(ElfErrorView::Truncated),
                }
            }
        },
    }
}

/// The requirements that the program headers lead to.
pub open spec fn segment_needs(b: Seq<u8>, l: Layout, machine: u16) -> Result<
    ElfNeedsView,
    ElfErrorView,
> {
    let n: int = header_count(b, l);
    match interp_of(b, last_upto(b, l, 3, n)) {
        None => Err(ElfErrorView::Truncated),
        Some(interp) => match last_upto(b, l, 2, n) {
            None => Ok(
                ElfNeedsView { machine, interp, needed: Seq::empty(), runpath: Seq::empty() },
            ),
            Some(dynamic) => match file_range(b, dynamic.offset, dynamic.size) {
                None => Err(ElfErrorView::Truncated),
                Some(d) => dynamic_needs(
                    b,
                    machine,
                    interp,
                    dynamic_from(d, l.wide, 0),
                    loads_upto(b, l, n),
                ),
            },
        },
    }
}

/// Whether `b` starts with an ELF identification block.
pub open spec fn has_ident(b: Seq<u8>) -> bool {
    b.len() >= 16 && b[0] == 0x7f && b[1] == 0x45 && b[2] == 0x4c && b[3] == 0x46
}

/// The dynamic-linking requirements of the image `b`, or why there is no answer.
pub open spec fn elf_needs(b: Seq<u8>) -> Result<ElfNeedsView, ElfErrorView> {
    let l = layout_of(b[4] == 2);
    if !has_ident(b) {
        Err(ElfErrorView::NotElf)
    } else if b[5] != 1 {
        Err(ElfErrorView::Unsupported("big-endian encoding"@))
    } else if b[4] != 1 && b[4] != 2 {
        Err(ElfErrorView::Unsupported("unknown ELF class"@))
    } else if b.len() < 0x14 {
        Err(ElfErrorView::Truncated)
    } else if u16_le(b, 0x10) != 2 && u16_le(b, 0x10) != 3 {
        Err(ElfErrorView::Unsupported("not an executable or shared object"@))
    } else if !headers_ok(b, l) {
        Err(ElfErrorView::Truncated)
    } else {
        segment_needs(b, l, u16_le(b, 0x12) as u16)
    }
}

// ------------------------------------------------------------------ laws

/// A truncated image never invents requirements: where a prefix of an image has an answer at all,
/// be it that such an image is not supported, the whole image has the same.
pub proof fn a_truncated_image_never_invents_requirements(b: Seq<u8>, n: int)
    requires
        0 <= n <= b.len(),
        elf_needs(b.take(n)) is Ok || elf_needs(b.take(n))->Err_0 is Unsupported,
    ensures
        elf_needs(b) == elf_needs(b.take(n)),
{
    let p = b.take(n);
    let l = layout_of(b[4] == 2);
    assert(p.len() >= 16);
    assert(forall|i: int| 0 <= i < n ==> p[i] == b[i]);
    if p[5] == 1 && (p[4] == 1 || p[4] == 2) && p.len() >= 0x14 && (u16_le(p, 0x10) == 2 || u16_le(
        p,
        0x10,
    ) == 3) {
        lemma_prefix_reads_alike(b, n, l, u16_le(p, 0x12) as u16);
    }
}

#[verifier::rlimit(40)]
proof fn lemma_prefix_reads_alike(b: Seq<u8>, n: int, l: Layout, machine: u16)
    requires
        0 <= n <= b.len(),
        l == layout_of(b[4] == 2),
        headers_ok(b.take(n), l),
        segment_needs(b.take(n), l, machine) is Ok || segment_needs(
            b.take(n),
            l,
            machine,
        )->Err_0 is Unsupported,
    ensures
        headers_ok(b, l),
        segment_needs(b, l, machine) == segment_needs(b.take(n), l, machine),
{
    let p = b.take(n);
    assert forall|i: int| 0 <= i < header_count(p, l) implies #[trigger] header_at(b, l, i)
        == header_at(p, l, i) && header_base(b, l, i) == header_base(p, l, i) by {
        assert(header_ok(p, l, i));
        lemma_base_nonneg(p, l, i);
        assert(header_base(b, l, i) == header_base(p, l, i));
    }
    assert forall|i: int| 0 <= i < header_count(p, l) implies #[trigger] header_ok(b, l, i) by {
        assert(header_ok(p, l, i));
        assert(header_at(b, l, i) == header_at(p, l, i));
    }
    let count: int = header_count(p, l);
    lemma_same_segments(b, p, l, count);
    let interp = last_upto(p, l, 3, count);
    if interp is Some {
        lemma_last_nonneg(p, l, 3, count);
        assert(b.subrange(interp->0.offset, interp->0.offset + interp->0.size) =~= p.subrange(
            interp->0.offset,
            interp->0.offset + interp->0.size,
        ));
    }
    let dynamic = last_upto(p, l, 2, count);
    if dynamic is Some {
        lemma_last_nonneg(p, l, 2, count);
        let d = p.subrange(dynamic->0.offset, dynamic->0.offset + dynamic->0.size);
        assert(b.subrange(dynamic->0.offset, dynamic->0.offset + dynamic->0.size) =~= d);
        let entries = dynamic_from(d, l.wide, 0);
        let loads = loads_upto(p, l, count);
        let vaddr: int = last_tagged(entries, 5)->0;
        let size: int = last_tagged(entries, 10)->0;
        lemma_tagged_nonneg(d, l.wide, 0, 10);
        lemma_loads_nonneg(p, l, count);
        lemma_file_offset_nonneg(loads, vaddr);
        let offset: int = file_offset(loads, vaddr)->0;
        assert(b.subrange(offset, offset + size) =~= p.subrange(offset, offset + size));
        assert(table_of(p, entries, loads) is Some ==> table_of(b, entries, loads) == table_of(
            p,
            entries,
            loads,
        ));
    }
}

/// Whatever an image says, no more than [`MAX_NEEDED_ENTRIES`] sonames come out of it; no soname, no
/// entry of the search path and no interpreter holds a control character; and no entry of the search
/// path is empty or holds the separator.
pub proof fn requirements_are_bounded_and_inert(b: Seq<u8>)
    requires
        elf_needs(b) is Ok,
    ensures
        elf_needs(b)->Ok_0.needed.len() <= MAX_NEEDED_ENTRIES,
        forall|i: int, j: int|
            0 <= i < elf_needs(b)->Ok_0.needed.len() && 0 <= j
                < elf_needs(b)->Ok_0.needed[i].len() ==> !crate::display::is_control(
                #[trigger] elf_needs(b)->Ok_0.needed[i][j],
            ),
        elf_needs(b)->Ok_0.interp matches Some(name) ==> forall|j: int|
            0 <= j < name.len() ==> !crate::display::is_control(#[trigger] name[j]),
        forall|i: int|
            0 <= i < elf_needs(b)->Ok_0.runpath.len() ==> (
            #[trigger] elf_needs(b)->Ok_0.runpath[i]).len() > 0,
        forall|i: int, j: int|
            0 <= i < elf_needs(b)->Ok_0.runpath.len() && 0 <= j
                < elf_needs(b)->Ok_0.runpath[i].len() ==> {
                &&& (#[trigger] elf_needs(b)->Ok_0.runpath[i][j]) != ':'
                &&& !crate::display::is_control(elf_needs(b)->Ok_0.runpath[i][j])
            },
{
    let l = layout_of(b[4] == 2);
    let count: int = header_count(b, l);
    let dynamic = last_upto(b, l, 2, count);
    if dynamic is Some {
        let d = b.subrange(dynamic->0.offset, dynamic->0.offset + dynamic->0.size);
        let entries = dynamic_from(d, l.wide, 0);
        let table = table_of(b, entries, loads_upto(b, l, count))->0;
        if runpath_offset(entries) is Some {
            let text = text_at(table, runpath_offset(entries)->0)->0;
            lemma_split_pieces(text, ':');
            lemma_nonempty_pieces(split(text, ':'));
            let kept = nonempty(split(text, ':'));
            assert forall|i: int, j: int|
                0 <= i < kept.len() && 0 <= j < kept[i].len() implies (#[trigger] kept[i][j]) != ':'
                && !crate::display::is_control(kept[i][j]) by {
                let k: int = choose|k: int|
                    0 <= k < split(text, ':').len() && #[trigger] split(text, ':')[k] == kept[i];
                assert(text.contains(split(text, ':')[k][j]));
            }
        }
    }
}

proof fn lemma_base_nonneg(b: Seq<u8>, l: Layout, i: int)
    requires
        0 <= i,
    ensures
        header_base(b, l, i) >= 0,
        header_at(b, l, i).vaddr >= 0,
        header_at(b, l, i).offset >= 0,
        header_at(b, l, i).size >= 0,
{
    assert(i * u16_le(b, l.e_phentsize as int) >= 0) by (nonlinear_arith)
        requires
            0 <= i,
            0 <= u16_le(b, l.e_phentsize as int),
    ;
}

proof fn lemma_same_segments(b: Seq<u8>, p: Seq<u8>, l: Layout, n: int)
    requires
        forall|i: int| 0 <= i < n ==> #[trigger] header_at(b, l, i) == header_at(p, l, i),
    ensures
        loads_upto(b, l, n) == loads_upto(p, l, n),
        last_upto(b, l, 2, n) == last_upto(p, l, 2, n),
        last_upto(b, l, 3, n) == last_upto(p, l, 3, n),
    decreases n,
{
    if n > 0 {
        lemma_same_segments(b, p, l, n - 1);
        assert(header_at(b, l, n - 1) == header_at(p, l, n - 1));
    }
}

proof fn lemma_last_nonneg(b: Seq<u8>, l: Layout, kind: int, n: int)
    ensures
        last_upto(b, l, kind, n) matches Some(s) ==> s.offset >= 0 && s.size >= 0 && s.vaddr >= 0,
    decreases n,
{
    if n > 0 {
        lemma_last_nonneg(b, l, kind, n - 1);
        lemma_base_nonneg(b, l, n - 1);
    }
}

proof fn lemma_loads_nonneg(b: Seq<u8>, l: Layout, n: int)
    ensures
        forall|i: int|
            0 <= i < loads_upto(b, l, n).len() ==> (#[trigger] loads_upto(b, l, n)[i]).offset >= 0,
    decreases n,
{
    if n > 0 {
        lemma_loads_nonneg(b, l, n - 1);
        lemma_base_nonneg(b, l, n - 1);
        let before = loads_upto(b, l, n - 1);
        assert forall|i: int| 0 <= i < loads_upto(b, l, n).len() implies (#[trigger] loads_upto(
            b,
            l,
            n,
        )[i]).offset >= 0 by {
            if i < before.len() {
                assert(loads_upto(b, l, n)[i] == before[i]);
            }
        }
    }
}

proof fn lemma_file_offset_nonneg(loads: Seq<SegmentView>, vaddr: int)
    requires
        forall|i: int| 0 <= i < loads.len() ==> (#[trigger] loads[i]).offset >= 0,
    ensures
        file_offset(loads, vaddr) matches Some(offset) ==> offset >= 0,
    decreases loads.len(),
{
    if loads.len() > 0 {
        assert forall|i: int| 0 <= i < loads.skip(1).len() implies (#[trigger] loads.skip(
            1,
        )[i]).offset >= 0 by {
            assert(loads.skip(1)[i] == loads[i + 1]);
        }
        lemma_file_offset_nonneg(loads.skip(1), vaddr);
    }
}

proof fn lemma_entries_nonneg(d: Seq<u8>, wide: bool, at: int)
    ensures
        forall|i: int|
            0 <= i < dynamic_from(d, wide, at).len() ==> (#[trigger] dynamic_from(
                d,
                wide,
                at,
            )[i]).1 >= 0,
    decreases d.len() - at,
{
    let w: int = word_bytes(wide);
    if !(at < 0 || at + 2 * w > d.len() || word_le(d, at, wide) == 0) {
        lemma_entries_nonneg(d, wide, at + 2 * w);
        let rest = dynamic_from(d, wide, at + 2 * w);
        assert forall|i: int| 0 <= i < dynamic_from(d, wide, at).len() implies (
        #[trigger] dynamic_from(d, wide, at)[i]).1 >= 0 by {
            if i > 0 {
                assert(dynamic_from(d, wide, at)[i] == rest[i - 1]);
            }
        }
    }
}

proof fn lemma_last_tagged_is_an_entry(entries: Seq<(int, int)>, tag: int)
    ensures
        last_tagged(entries, tag) matches Some(v) ==> exists|i: int|
            0 <= i < entries.len() && (#[trigger] entries[i]).1 == v,
    decreases entries.len(),
{
    if entries.len() > 0 {
        lemma_last_tagged_is_an_entry(entries.drop_last(), tag);
        if entries.last().0 == tag {
            assert(entries[entries.len() - 1].1 == entries.last().1);
        } else if last_tagged(entries, tag) is Some {
            let v: int = last_tagged(entries, tag)->0;
            let i: int = choose|i: int|
                0 <= i < entries.drop_last().len() && (#[trigger] entries.drop_last()[i]).1 == v;
            assert(entries[i].1 == v);
        }
    }
}

proof fn lemma_tagged_nonneg(d: Seq<u8>, wide: bool, at: int, tag: int)
    ensures
        last_tagged(dynamic_from(d, wide, at), tag) matches Some(v) ==> v >= 0,
{
    lemma_entries_nonneg(d, wide, at);
    lemma_last_tagged_is_an_entry(dynamic_from(d, wide, at), tag);
}

// ------------------------------------------------------------------ the reader

/// Whether a name is shorter than [`MAX_STRING_BYTES`].
pub open spec fn is_short(name: String) -> bool {
    name@.len() < MAX_STRING_BYTES
}

/// Whether every name is shorter than [`MAX_STRING_BYTES`].
pub open spec fn are_short(names: Seq<String>) -> bool {
    forall|i: int| 0 <= i < names.len() ==> is_short(#[trigger] names[i])
}

/// Read `bytes`' dynamic-linking requirements. However large the image is, each text that comes out
/// of it is short.
///
/// # Errors
///
/// [`ElfParseError::NotElf`] if the identification is absent; [`ElfParseError::Unsupported`] for a
/// big-endian image, an unknown class, a non-executable image kind or too many requirements;
/// [`ElfParseError::Truncated`] if any header, segment, dynamic entry or string table falls
/// outside `bytes`.
pub fn parse_elf_needs(bytes: &[u8]) -> (needs: Result<ElfNeeds, ElfParseError>)
    ensures
        match needs {
            Ok(n) => elf_needs(bytes@) == Ok::<ElfNeedsView, ElfErrorView>(n@),
            Err(e) => elf_needs(bytes@) == Err::<ElfNeedsView, ElfErrorView>(e@),
        },
        needs matches Ok(n) ==> are_short(n.needed@) && are_short(n.runpath@),
        needs matches Ok(n) ==> (n.interp matches Some(name) ==> is_short(name)),
{
    if bytes.len() < 16 || bytes[0] != 0x7f || bytes[1] != 0x45 || bytes[2] != 0x4c || bytes[3]
        != 0x46 {
        return Err(ElfParseError::NotElf);
    }
    if bytes[5] != 1 {
        // Refusing beats guessing at a byte order.
        return Err(ElfParseError::Unsupported("big-endian encoding"));
    }
    if bytes[4] != 1 && bytes[4] != 2 {
        return Err(ElfParseError::Unsupported("unknown ELF class"));
    }
    let layout: Layout = layout(bytes[4] == 2);
    if bytes.len() < 0x14 {
        return Err(ElfParseError::Truncated);
    }
    let machine: u16 = u16_at(bytes, 0x12);
    let e_type: u16 = u16_at(bytes, 0x10);
    if e_type != 2 && e_type != 3 {
        return Err(ElfParseError::Unsupported("not an executable or shared object"));
    }
    let segments: Segments = match read_segments(bytes, &layout) {
        Some(s) => s,
        None => return Err(ElfParseError::Truncated),
    };
    let interp: Option<String> = match &segments.interp {
        Some(segment) => match range_of(bytes, segment.offset, segment.size) {
            Some(range) => match nul_terminated(range) {
                Some(name) => Some(name),
                None => return Err(ElfParseError::Truncated),
            },
            None => return Err(ElfParseError::Truncated),
        },
        None => None,
    };
    let dynamic: &[u8] = match &segments.dynamic {
        Some(segment) => match range_of(bytes, segment.offset, segment.size) {
            Some(range) => range,
            None => return Err(ElfParseError::Truncated),
        },
        // A static image requires nothing of the loader, which is a real answer.
        None => {
            let needed: Vec<String> = Vec::new();
            let runpath: Vec<String> = Vec::new();
            assert(views(needed@) =~= Seq::empty());
            assert(views(runpath@) =~= Seq::empty());
            return Ok(ElfNeeds { machine, interp, needed, runpath });
        },
    };
    let entries: DynamicEntries = read_dynamic(dynamic, layout.wide);
    let ghost found = dynamic_from(dynamic@, layout.wide, 0);
    let table: &[u8] = match string_table(bytes, &entries, &segments.loads, Ghost(found)) {
        Some(t) => t,
        None => return Err(ElfParseError::Truncated),
    };
    if entries.needed.len() > MAX_NEEDED_ENTRIES {
        return Err(ElfParseError::Unsupported("more DT_NEEDED entries than any real image has"));
    }
    let needed: Vec<String> = match resolve_all(table, &entries.needed) {
        Some(n) => n,
        None => return Err(ElfParseError::Truncated),
    };
    let runpath: Vec<String> = match read_runpath(table, &entries, Ghost(found)) {
        Some(r) => r,
        None => return Err(ElfParseError::Truncated),
    };
    Ok(ElfNeeds { machine, interp, needed, runpath })
}

/// Computes [`layout_of`].
fn layout(wide: bool) -> (l: Layout)
    ensures
        l == layout_of(wide),
{
    if wide {
        Layout {
            wide: true,
            e_phoff: 0x20,
            e_phentsize: 0x36,
            e_phnum: 0x38,
            p_offset: 0x08,
            p_vaddr: 0x10,
            p_filesz: 0x20,
        }
    } else {
        Layout {
            wide: false,
            e_phoff: 0x1c,
            e_phentsize: 0x2a,
            e_phnum: 0x2c,
            p_offset: 0x04,
            p_vaddr: 0x08,
            p_filesz: 0x10,
        }
    }
}

/// One program header, as far as it is used.
struct Segment {
    vaddr: u64,
    offset: usize,
    size: usize,
}

/// The program-header facts the dynamic requirements are read through.
struct Segments {
    /// The last `PT_DYNAMIC`, if the image has one.
    dynamic: Option<Segment>,
    /// The last `PT_INTERP`, if the image has one.
    interp: Option<Segment>,
    /// Each `PT_LOAD`, the unit of virtual-address to file-offset translation.
    loads: Vec<Segment>,
}

spec fn segment_is(s: Segment, v: SegmentView) -> bool {
    s.vaddr == v.vaddr && s.offset == v.offset && s.size == v.size
}

spec fn opt_segment_is(s: Option<Segment>, v: Option<SegmentView>) -> bool {
    match (s, v) {
        (Some(a), Some(b)) => segment_is(a, b),
        (None, None) => true,
        _ => false,
    }
}

spec fn segments_are(s: Seq<Segment>, v: Seq<SegmentView>) -> bool {
    s.len() == v.len() && forall|i: int| 0 <= i < s.len() ==> segment_is(#[trigger] s[i], v[i])
}

/// Walk the program headers, collecting only the three segment kinds that answer the question.
/// `None` where a header falls outside the file.
fn read_segments(bytes: &[u8], layout: &Layout) -> (segments: Option<Segments>)
    requires
        *layout == layout_of(layout.wide),
    ensures
        segments is Some <==> headers_ok(bytes@, *layout),
        segments matches Some(s) ==> {
            let n: int = header_count(bytes@, *layout);
            &&& opt_segment_is(s.dynamic, last_upto(bytes@, *layout, 2, n))
            &&& opt_segment_is(s.interp, last_upto(bytes@, *layout, 3, n))
            &&& segments_are(s.loads@, loads_upto(bytes@, *layout, n))
        },
{
    if bytes.len() < layout.e_phnum + 2 {
        return None;
    }
    let phoff: u64 = word_at(bytes, layout.e_phoff, layout.wide);
    let phentsize: usize = u16_at(bytes, layout.e_phentsize) as usize;
    let phnum: usize = u16_at(bytes, layout.e_phnum) as usize;
    let word: usize = if layout.wide {
        8
    } else {
        4
    };
    if phoff > usize::MAX as u64 || phentsize < layout.p_filesz + word {
        return None;
    }
    let mut segments = Segments { dynamic: None, interp: None, loads: Vec::new() };
    let mut base: usize = phoff as usize;
    let mut i: usize = 0;
    proof {
        assert(0 * u16_le(bytes@, layout.e_phentsize as int) == 0) by (nonlinear_arith);
    }
    while i < phnum
        invariant
            i <= phnum,
            *layout == layout_of(layout.wide),
            phentsize == u16_le(bytes@, layout.e_phentsize as int),
            phnum == header_count(bytes@, *layout),
            phentsize >= layout.p_filesz + word_bytes(layout.wide),
            base == header_base(bytes@, *layout, i as int),
            forall|j: int| 0 <= j < i ==> #[trigger] header_ok(bytes@, *layout, j),
            opt_segment_is(segments.dynamic, last_upto(bytes@, *layout, 2, i as int)),
            opt_segment_is(segments.interp, last_upto(bytes@, *layout, 3, i as int)),
            segments_are(segments.loads@, loads_upto(bytes@, *layout, i as int)),
        decreases phnum - i,
    {
        if base > bytes.len() || bytes.len() - base < phentsize {
            assert(!header_ok(bytes@, *layout, i as int));
            return None;
        }
        let kind: u32 = u32_at(bytes, base);
        let offset: u64 = word_at(bytes, base + layout.p_offset, layout.wide);
        let size: u64 = word_at(bytes, base + layout.p_filesz, layout.wide);
        let vaddr: u64 = word_at(bytes, base + layout.p_vaddr, layout.wide);
        if offset > usize::MAX as u64 || size > usize::MAX as u64 - offset {
            assert(!header_ok(bytes@, *layout, i as int));
            return None;
        }
        let segment = Segment { vaddr, offset: offset as usize, size: size as usize };
        assert(header_ok(bytes@, *layout, i as int));
        assert(segment_is(segment, header_at(bytes@, *layout, i as int)));
        if kind == 2 {
            segments.dynamic = Some(segment);
        } else if kind == 3 {
            segments.interp = Some(segment);
        } else if kind == 1 {
            segments.loads.push(segment);
        }
        proof {
            let e: int = phentsize as int;
            assert((i + 1) * e == i * e + e) by (nonlinear_arith);
        }
        base = base + phentsize;
        i = i + 1;
    }
    Some(segments)
}

/// The bytes of a file range, if it lies in the file.
fn range_of(bytes: &[u8], from: usize, size: usize) -> (range: Option<&[u8]>)
    ensures
        match range {
            Some(r) => file_range(bytes@, from as int, size as int) == Some(r@),
            None => file_range(bytes@, from as int, size as int) is None,
        },
{
    if from > bytes.len() || bytes.len() - from < size {
        None
    } else {
        Some(slice_subrange(bytes, from, from + size))
    }
}

/// The dynamic entries this reader cares about.
struct DynamicEntries {
    /// String-table offsets of the `DT_NEEDED` sonames, in link order.
    needed: Vec<u64>,
    /// `DT_STRTAB`: the string table's virtual address.
    strtab: Option<u64>,
    /// `DT_STRSZ`: the string table's size.
    strsz: Option<u64>,
    /// `DT_RUNPATH`'s string-table offset.
    runpath: Option<u64>,
    /// `DT_RPATH`'s string-table offset, used only when there is no `DT_RUNPATH`.
    rpath: Option<u64>,
}

spec fn opt_int(n: Option<u64>) -> Option<int> {
    match n {
        Some(v) => Some(v as int),
        None => None,
    }
}

spec fn ints(v: Seq<u64>) -> Seq<int> {
    Seq::new(v.len(), |i: int| v[i] as int)
}

spec fn entries_are(e: DynamicEntries, found: Seq<(int, int)>) -> bool {
    &&& ints(e.needed@) == values_tagged(found, 1)
    &&& opt_int(e.strtab) == last_tagged(found, 5)
    &&& opt_int(e.strsz) == last_tagged(found, 10)
    &&& opt_int(e.runpath) == last_tagged(found, 29)
    &&& opt_int(e.rpath) == last_tagged(found, 15)
}

/// Read the dynamic array. Stops at `DT_NULL` and ignores every tag it does not need, so that an
/// unfamiliar tag can never make a well-formed image unreadable.
fn read_dynamic(dynamic: &[u8], wide: bool) -> (entries: DynamicEntries)
    ensures
        entries_are(entries, dynamic_from(dynamic@, wide, 0)),
{
    let half: usize = if wide {
        8
    } else {
        4
    };
    let mut entries = DynamicEntries {
        needed: Vec::new(),
        strtab: None,
        strsz: None,
        runpath: None,
        rpath: None,
    };
    let ghost all = dynamic_from(dynamic@, wide, 0);
    let ghost mut seen: Seq<(int, int)> = Seq::empty();
    let mut at: usize = 0;
    proof {
        assert(ints(entries.needed@) =~= values_tagged(seen, 1));
        assert(seen + all =~= all);
    }
    while dynamic.len() - at >= 2 * half
        invariant
            at <= dynamic@.len(),
            half == word_bytes(wide),
            all == dynamic_from(dynamic@, wide, 0),
            seen + dynamic_from(dynamic@, wide, at as int) == all,
            entries_are(entries, seen),
        decreases dynamic@.len() - at,
    {
        let tag: u64 = word_at(dynamic, at, wide);
        let value: u64 = word_at(dynamic, at + half, wide);
        if tag == 0 {
            assert(seen + dynamic_from(dynamic@, wide, at as int) =~= seen);
            return entries;
        }
        proof {
            let rest = dynamic_from(dynamic@, wide, at + 2 * half);
            assert(seen + dynamic_from(dynamic@, wide, at as int) =~= seen.push(
                (tag as int, value as int),
            ) + rest);
            assert(seen.push((tag as int, value as int)).drop_last() =~= seen);
            seen = seen.push((tag as int, value as int));
        }
        let ghost before = entries.needed@;
        if tag == 1 {
            entries.needed.push(value);
            assert(ints(entries.needed@) =~= ints(before).push(value as int));
        } else if tag == 5 {
            entries.strtab = Some(value);
        } else if tag == 10 {
            entries.strsz = Some(value);
        } else if tag == 29 {
            entries.runpath = Some(value);
        } else if tag == 15 {
            entries.rpath = Some(value);
        }
        at = at + 2 * half;
    }
    assert(seen + dynamic_from(dynamic@, wide, at as int) =~= seen);
    entries
}

/// The dynamic string table's bytes, located by translating `DT_STRTAB` through the `PT_LOAD`
/// segments and bounded by `DT_STRSZ`.
fn string_table<'a>(
    bytes: &'a [u8],
    entries: &DynamicEntries,
    loads: &Vec<Segment>,
    Ghost(found): Ghost<Seq<(int, int)>>,
) -> (table: Option<&'a [u8]>)
    requires
        entries_are(*entries, found),
    ensures
        forall|views: Seq<SegmentView>|
            #![trigger table_of(bytes@, found, views)]
            segments_are(loads@, views) ==> match table {
                Some(t) => table_of(bytes@, found, views) == Some(t@),
                None => table_of(bytes@, found, views) is None,
            },
{
    let vaddr: u64 = match entries.strtab {
        Some(v) => v,
        None => return None,
    };
    let size: u64 = match entries.strsz {
        Some(s) => s,
        None => return None,
    };
    let offset: usize = match file_offset_of(vaddr, loads) {
        Some(o) => o,
        None => return None,
    };
    if size > usize::MAX as u64 {
        assert(bytes.len() == bytes@.len());
        return None;
    }
    range_of(bytes, offset, size as usize)
}

/// Translate a virtual address to a file offset via the first `PT_LOAD` segment that contains it.
fn file_offset_of(vaddr: u64, loads: &Vec<Segment>) -> (offset: Option<usize>)
    ensures
        forall|views: Seq<SegmentView>|
            #![trigger file_offset(views, vaddr as int)]
            segments_are(loads@, views) ==> match offset {
                Some(o) => file_offset(views, vaddr as int) == Some(o as int),
                None => file_offset(views, vaddr as int) is None,
            },
{
    let mut i: usize = 0;
    assert forall|views: Seq<SegmentView>| segments_are(loads@, views) implies file_offset(
        views,
        vaddr as int,
    ) == #[trigger] file_offset(views.skip(0), vaddr as int) by {
        assert(views.skip(0) =~= views);
    }
    while i < loads.len()
        invariant
            i <= loads@.len(),
            forall|views: Seq<SegmentView>| #[trigger]
                segments_are(loads@, views) ==> file_offset(views, vaddr as int) == file_offset(
                    views.skip(i as int),
                    vaddr as int,
                ),
        decreases loads@.len() - i,
    {
        let load: &Segment = &loads[i];
        assert forall|views: Seq<SegmentView>| segments_are(loads@, views) implies segment_is(
            *load,
            #[trigger] views.skip(i as int)[0],
        ) && views.skip(i as int).skip(1) =~= views.skip(i + 1) by {}
        if vaddr >= load.vaddr {
            let delta: u64 = vaddr - load.vaddr;
            if delta < load.size as u64 && delta <= (usize::MAX - load.offset) as u64 {
                return Some(load.offset + delta as usize);
            }
        }
        i = i + 1;
    }
    None
}

/// The image's own library search path: `DT_RUNPATH` when present, else the legacy `DT_RPATH`.
fn read_runpath(
    table: &[u8],
    entries: &DynamicEntries,
    Ghost(found): Ghost<Seq<(int, int)>>,
) -> (runpath: Option<Vec<String>>)
    requires
        entries_are(*entries, found),
    ensures
        match runpath {
            Some(r) => runpath_of(table@, found) == Some(views(r@)),
            None => runpath_of(table@, found) is None,
        },
        runpath matches Some(r) ==> are_short(r@),
{
    let offset: u64 = match entries.runpath {
        Some(o) => o,
        None => match entries.rpath {
            Some(o) => o,
            None => {
                let none: Vec<String> = Vec::new();
                assert(views(none@) =~= Seq::empty());
                return Some(none);
            },
        },
    };
    match string_at(table, offset) {
        Some(text) => {
            let kept: Vec<String> = keep_nonempty(&split_text(text.as_str(), ':'));
            proof {
                let pieces = split(text@, ':');
                lemma_split_pieces(text@, ':');
                lemma_nonempty_pieces(pieces);
                assert forall|i: int| 0 <= i < kept@.len() implies is_short(#[trigger] kept@[i]) by {
                    assert(views(kept@)[i] == nonempty(pieces)[i]);
                    let k: int = choose|k: int|
                        0 <= k < pieces.len() && #[trigger] pieces[k] == nonempty(pieces)[i];
                    assert(pieces[k].len() <= text@.len());
                }
            }
            Some(kept)
        },
        None => None,
    }
}

/// Resolve every string-table offset to its string, failing if any lies outside the table.
fn resolve_all(table: &[u8], offsets: &Vec<u64>) -> (texts: Option<Vec<String>>)
    ensures
        match texts {
            Some(t) => texts_at(table@, ints(offsets@)) == Some(views(t@)),
            None => texts_at(table@, ints(offsets@)) is None,
        },
        texts matches Some(t) ==> are_short(t@),
{
    let mut texts: Vec<String> = Vec::new();
    let mut i: usize = 0;
    while i < offsets.len()
        invariant
            i <= offsets@.len(),
            texts@.len() == i,
            are_short(texts@),
            forall|j: int|
                0 <= j < i ==> text_at(table@, offsets@[j] as int) == Some(
                    (#[trigger] texts@[j])@,
                ),
        decreases offsets@.len() - i,
    {
        match string_at(table, offsets[i]) {
            Some(text) => texts.push(text),
            None => {
                assert(text_at(table@, ints(offsets@)[i as int]) is None);
                return None;
            },
        }
        i = i + 1;
    }
    assert forall|j: int| 0 <= j < ints(offsets@).len() implies text_at(
        table@,
        #[trigger] ints(offsets@)[j],
    ) is Some by {
        assert(texts@[j]@ == texts@[j]@);
    }
    assert(views(texts@) =~= texts_at(table@, ints(offsets@))->0);
    Some(texts)
}

/// The zero-terminated string at `offset` within the dynamic string table.
fn string_at(table: &[u8], offset: u64) -> (text: Option<String>)
    ensures
        opt_view(text) == text_at(table@, offset as int),
        text matches Some(name) ==> is_short(name),
{
    if offset > table.len() as u64 {
        return None;
    }
    let rest: &[u8] = slice_subrange(table, offset as usize, table.len());
    assert(rest@ =~= table@.skip(offset as int));
    nul_terminated(rest)
}

/// The zero-terminated string at the start of `bytes`, looked for within [`MAX_STRING_BYTES`] so
/// that the allocation is bounded by a constant.
fn nul_terminated(bytes: &[u8]) -> (text: Option<String>)
    ensures
        opt_view(text) == c_text(bytes@),
        text matches Some(name) ==> is_short(name),
{
    let mut end: usize = 0;
    while end < bytes.len() && end < MAX_STRING_BYTES
        invariant
            end <= bytes@.len(),
            nul_at(bytes@, 0) == nul_at(bytes@, end as int),
        decreases bytes@.len() - end,
    {
        if bytes[end] == 0 {
            let name: &[u8] = slice_subrange(bytes, 0, end);
            assert(name@ =~= bytes@.take(end as int));
            let text: String = from_utf8_lossy(name);
            assert(text@ == text_in(name@));
            return Some(without_control_chars(text.as_str()));
        }
        end = end + 1;
    }
    None
}

/// `String::from_utf8_lossy`: the text that the bytes encode, each invalid sequence replaced.
/// Of valid UTF-8 it is the decoded text itself; of other bytes the result is only named. A
/// character stands for one byte or more, so there are no more of them than bytes.
#[verifier::external_body]
fn from_utf8_lossy(bytes: &[u8]) -> (text: String)
    ensures
        text@ == utf8_lossy(bytes@),
        text@.len() <= bytes@.len(),
        vstd::utf8::valid_utf8(bytes@) ==> text@ == vstd::utf8::decode_utf8(bytes@),
{
    String::from_utf8_lossy(bytes).into_owned()
}

/// The little-endian `u16` at `at`.
fn u16_at(bytes: &[u8], at: usize) -> (n: u16)
    requires
        at + 2 <= bytes@.len(),
    ensures
        n == u16_le(bytes@, at as int),
{
    bytes[at] as u16 + 0x100 * (bytes[at + 1] as u16)
}

/// The little-endian `u32` at `at`.
fn u32_at(bytes: &[u8], at: usize) -> (n: u32)
    requires
        at + 4 <= bytes@.len(),
    ensures
        n == u32_le(bytes@, at as int),
{
    assert(bytes.len() == bytes@.len());
    u16_at(bytes, at) as u32 + 0x1_0000 * (u16_at(bytes, at + 2) as u32)
}

/// The little-endian number of the class's width at `at`.
fn word_at(bytes: &[u8], at: usize, wide: bool) -> (n: u64)
    requires
        at + word_bytes(wide) <= bytes@.len(),
    ensures
        n == word_le(bytes@, at as int, wide),
{
    assert(bytes.len() == bytes@.len());
    if wide {
        u32_at(bytes, at) as u64 + 0x1_0000_0000 * (u32_at(bytes, at + 4) as u64)
    } else {
        u32_at(bytes, at) as u64
    }
}

// ------------------------------------------------------------------ laws on the format

/// The number that bytes write with the least significant first.
pub open spec fn le_value(bytes: Seq<u8>) -> int
    decreases bytes.len(),
{
    if bytes.len() == 0 {
        0
    } else {
        bytes[0] + 0x100 * le_value(bytes.skip(1))
    }
}

/// The little-endian number in the `n` bytes at `at`.
pub open spec fn field(b: Seq<u8>, at: int, n: int) -> int {
    le_value(b.subrange(at, at + n))
}

/// Numbers are read with the least significant byte first, in two, four or eight bytes.
pub proof fn numbers_are_little_endian(b: Seq<u8>, at: int)
    requires
        0 <= at,
    ensures
        at + 2 <= b.len() ==> u16_le(b, at) == field(b, at, 2),
        at + 4 <= b.len() ==> u32_le(b, at) == field(b, at, 4) && word_le(b, at, false) == field(
            b,
            at,
            4,
        ),
        at + 8 <= b.len() ==> word_le(b, at, true) == field(b, at, 8),
        at + 2 <= b.len() ==> field(b, at, 2) >= 0,
        at + 4 <= b.len() ==> field(b, at, 4) >= 0,
        at + 8 <= b.len() ==> field(b, at, 8) >= 0,
{
    reveal_with_fuel(le_value, 9);
    if at + 2 <= b.len() {
        lemma_le_bytes(b, at, 2);
    }
    if at + 4 <= b.len() {
        lemma_le_bytes(b, at, 4);
    }
    if at + 8 <= b.len() {
        lemma_le_bytes(b, at, 8);
    }
}

proof fn lemma_le_bytes(b: Seq<u8>, at: int, n: int)
    requires
        0 <= at,
        at + n <= b.len(),
        n == 2 || n == 4 || n == 8,
    ensures
        n == 2 ==> field(b, at, n) == b[at] + 0x100 * b[at + 1],
        n == 4 ==> field(b, at, n) == b[at] + 0x100 * b[at + 1] + 0x1_0000 * b[at + 2] + 0x100_0000
            * b[at + 3],
        n == 8 ==> field(b, at, n) == b[at] + 0x100 * b[at + 1] + 0x1_0000 * b[at + 2] + 0x100_0000
            * b[at + 3] + 0x1_0000_0000 * b[at + 4] + 0x100_0000_0000 * b[at + 5]
            + 0x1_0000_0000_0000 * b[at + 6] + 0x100_0000_0000_0000 * b[at + 7],
{
    lemma_le_step(b, at, n);
    lemma_le_step(b, at + 1, n - 1);
    assert(b.subrange(at + n, at + n) =~= Seq::empty());
    assert(field(b, at + n, 0) == 0);
    if n > 2 {
        lemma_le_step(b, at + 2, n - 2);
        lemma_le_step(b, at + 3, n - 3);
    }
    if n > 4 {
        lemma_le_step(b, at + 4, n - 4);
        lemma_le_step(b, at + 5, n - 5);
        lemma_le_step(b, at + 6, n - 6);
        lemma_le_step(b, at + 7, n - 7);
    }
}

proof fn lemma_le_step(b: Seq<u8>, at: int, n: int)
    requires
        0 <= at,
        0 < n,
        at + n <= b.len(),
    ensures
        field(b, at, n) == b[at] + 0x100 * field(b, at + 1, n - 1),
{
    let s = b.subrange(at, at + n);
    assert(s.skip(1) =~= b.subrange(at + 1, at + n));
}

/// How many bytes an address takes in an image of the class.
pub open spec fn address_bytes(wide: bool) -> int {
    if wide {
        8
    } else {
        4
    }
}

/// How many program headers the image has: `e_phnum`.
pub open spec fn e_phnum(b: Seq<u8>, wide: bool) -> int {
    if wide {
        field(b, 56, 2)
    } else {
        field(b, 44, 2)
    }
}

/// How long a program header is: `e_phentsize`.
pub open spec fn e_phentsize(b: Seq<u8>, wide: bool) -> int {
    if wide {
        field(b, 54, 2)
    } else {
        field(b, 42, 2)
    }
}

/// Where program header `i` starts: `e_phoff`, and `e_phentsize` for each header before it.
pub open spec fn ph_start(b: Seq<u8>, wide: bool, i: int) -> int {
    (if wide {
        field(b, 32, 8)
    } else {
        field(b, 28, 4)
    }) + i * e_phentsize(b, wide)
}

/// `p_type` of program header `i`.
pub open spec fn p_type(b: Seq<u8>, wide: bool, i: int) -> int {
    field(b, ph_start(b, wide, i), 4)
}

/// `p_offset` of program header `i`.
pub open spec fn p_offset(b: Seq<u8>, wide: bool, i: int) -> int {
    if wide {
        field(b, ph_start(b, wide, i) + 8, 8)
    } else {
        field(b, ph_start(b, wide, i) + 4, 4)
    }
}

/// `p_vaddr` of program header `i`.
pub open spec fn p_vaddr(b: Seq<u8>, wide: bool, i: int) -> int {
    if wide {
        field(b, ph_start(b, wide, i) + 16, 8)
    } else {
        field(b, ph_start(b, wide, i) + 8, 4)
    }
}

/// `p_filesz` of program header `i`.
pub open spec fn p_filesz(b: Seq<u8>, wide: bool, i: int) -> int {
    if wide {
        field(b, ph_start(b, wide, i) + 32, 8)
    } else {
        field(b, ph_start(b, wide, i) + 16, 4)
    }
}

/// Whether `b` is a little-endian executable or shared object of the class whose program headers lie in
/// the file.
pub open spec fn is_image(b: Seq<u8>, wide: bool) -> bool {
    &&& b.len() >= (if wide {
        58int
    } else {
        46int
    })
    &&& b[0] == 0x7f && b[1] == 'E' as u8 && b[2] == 'L' as u8 && b[3] == 'F' as u8
    &&& b[4] == (if wide {
        2u8
    } else {
        1u8
    })
    &&& b[5] == 1
    &&& (field(b, 16, 2) == 2 || field(b, 16, 2) == 3)
    &&& e_phentsize(b, wide) >= (if wide {
        40int
    } else {
        20int
    })
    &&& ph_start(b, wide, 0) <= b.len()
    &&& b.len() <= usize::MAX
    &&& forall|i: int| 0 <= i < e_phnum(b, wide) ==> #[trigger] is_header(b, wide, i)
}

/// Whether program header `i` lies in the file, and describes a range that can be indexed.
pub open spec fn is_header(b: Seq<u8>, wide: bool, i: int) -> bool {
    &&& ph_start(b, wide, i) + e_phentsize(b, wide) <= b.len()
    &&& p_offset(b, wide, i) + p_filesz(b, wide, i) <= usize::MAX
}

/// Whether the segment of header `i` is loaded, and holds the virtual address.
pub open spec fn holds_address(b: Seq<u8>, wide: bool, i: int, vaddr: int) -> bool {
    p_type(b, wide, i) == 1 && p_vaddr(b, wide, i) <= vaddr < p_vaddr(b, wide, i) + p_filesz(
        b,
        wide,
        i,
    )
}

/// The program headers of an image are read from where the format puts them.
pub proof fn headers_are_read_where_they_stand(b: Seq<u8>, wide: bool, i: int)
    requires
        is_image(b, wide),
        0 <= i < e_phnum(b, wide),
    ensures
        header_count(b, layout_of(wide)) == e_phnum(b, wide),
        header_at(b, layout_of(wide), i) == (SegmentView {
            kind: p_type(b, wide, i),
            vaddr: p_vaddr(b, wide, i),
            offset: p_offset(b, wide, i),
            size: p_filesz(b, wide, i),
        }),
        p_vaddr(b, wide, i) >= 0,
        p_offset(b, wide, i) >= 0,
        p_filesz(b, wide, i) >= 0,
{
    lemma_header_fields(b, wide);
    let l = layout_of(wide);
    let e: int = e_phentsize(b, wide);
    let start: int = ph_start(b, wide, i);
    assert(is_header(b, wide, i));
    assert(i * e >= 0) by (nonlinear_arith)
        requires
            i >= 0,
            e >= 0,
    ;
    assert(start >= 0);
    assert(header_base(b, l, i) == start);
    numbers_are_little_endian(b, start);
    numbers_are_little_endian(b, start + l.p_vaddr);
    numbers_are_little_endian(b, start + l.p_offset);
    numbers_are_little_endian(b, start + l.p_filesz);
}

proof fn lemma_header_fields(b: Seq<u8>, wide: bool)
    requires
        is_image(b, wide),
    ensures
        header_count(b, layout_of(wide)) == e_phnum(b, wide),
        u16_le(b, layout_of(wide).e_phentsize as int) == e_phentsize(b, wide),
        forall|i: int| #[trigger]
            header_base(b, layout_of(wide), i) == ph_start(b, wide, i),
        ph_start(b, wide, 0) >= 0,
        ph_start(b, wide, 0) == word_le(b, layout_of(wide).e_phoff as int, wide),
        u16_le(b, 16) == field(b, 16, 2),
{
    let l = layout_of(wide);
    numbers_are_little_endian(b, l.e_phnum as int);
    numbers_are_little_endian(b, l.e_phentsize as int);
    numbers_are_little_endian(b, l.e_phoff as int);
    numbers_are_little_endian(b, 16);
    let e: int = e_phentsize(b, wide);
    assert(0 * e == 0) by (nonlinear_arith);
}

proof fn lemma_is_readable(b: Seq<u8>, wide: bool)
    requires
        is_image(b, wide),
    ensures
        headers_ok(b, layout_of(wide)),
        elf_needs(b) == segment_needs(b, layout_of(wide), u16_le(b, 0x12) as u16),
        u16_le(b, 0x12) == field(b, 18, 2),
{
    let l = layout_of(wide);
    lemma_header_fields(b, wide);
    numbers_are_little_endian(b, 18);
    assert('E' as u8 == 0x45 && 'L' as u8 == 0x4c && 'F' as u8 == 0x46);
    assert forall|i: int| 0 <= i < header_count(b, l) implies #[trigger] header_ok(b, l, i) by {
        headers_are_read_where_they_stand(b, wide, i);
        assert(is_header(b, wide, i));
    }
}

proof fn lemma_last_of_kind(b: Seq<u8>, wide: bool, kind: int, k: int, n: int)
    requires
        is_image(b, wide),
        0 <= n <= e_phnum(b, wide),
        forall|i: int| 0 <= i < n && k < i ==> #[trigger] p_type(b, wide, i) != kind,
        -1 <= k < n,
        k >= 0 ==> p_type(b, wide, k) == kind,
    ensures
        k >= 0 ==> last_upto(b, layout_of(wide), kind, n) == Some(
            header_at(b, layout_of(wide), k),
        ),
        k < 0 ==> last_upto(b, layout_of(wide), kind, n) is None,
    decreases n,
{
    if n > 0 {
        headers_are_read_where_they_stand(b, wide, n - 1);
        if k < n - 1 {
            assert(p_type(b, wide, n - 1) != kind);
            lemma_last_of_kind(b, wide, kind, k, n - 1);
        }
    }
}

proof fn lemma_file_offset_push(loads: Seq<SegmentView>, last: SegmentView, vaddr: int)
    ensures
        file_offset(loads.push(last), vaddr) == (if file_offset(loads, vaddr) is Some {
            file_offset(loads, vaddr)
        } else if maps(last, vaddr) {
            Some(last.offset + (vaddr - last.vaddr))
        } else {
            None
        }),
    decreases loads.len(),
{
    let all = loads.push(last);
    if loads.len() == 0 {
        assert(all.skip(1) =~= Seq::empty());
        assert(file_offset(all.skip(1), vaddr) is None);
    } else {
        assert(all[0] == loads[0]);
        assert(all.skip(1) =~= loads.skip(1).push(last));
        lemma_file_offset_push(loads.skip(1), last, vaddr);
    }
}

/// An address is translated by the first loaded segment that holds it: the `k`th byte of the segment in
/// memory is the `k`th byte of its range of the file. An address that none holds is nowhere in the file.
pub proof fn an_address_is_translated_by_its_segment(
    b: Seq<u8>,
    wide: bool,
    j: int,
    k: int,
    vaddr: int,
)
    requires
        is_image(b, wide),
    ensures
        0 <= j < e_phnum(b, wide) && p_type(b, wide, j) == 1 && 0 <= k < p_filesz(b, wide, j) && (
        forall|i: int| 0 <= i < j ==> !#[trigger] holds_address(b, wide, i, p_vaddr(b, wide, j) + k))
            ==> file_offset(
            loads_upto(b, layout_of(wide), e_phnum(b, wide)),
            p_vaddr(b, wide, j) + k,
        ) == Some(p_offset(b, wide, j) + k),
        (forall|i: int|
            0 <= i < e_phnum(b, wide) ==> !#[trigger] holds_address(b, wide, i, vaddr))
            ==> file_offset(loads_upto(b, layout_of(wide), e_phnum(b, wide)), vaddr) is None,
{
    if 0 <= j < e_phnum(b, wide) && p_type(b, wide, j) == 1 && 0 <= k < p_filesz(b, wide, j) && (
    forall|i: int| 0 <= i < j ==> !#[trigger] holds_address(b, wide, i, p_vaddr(b, wide, j) + k)) {
        headers_are_read_where_they_stand(b, wide, j);
        lemma_translated(b, wide, j, p_vaddr(b, wide, j) + k, e_phnum(b, wide));
    }
    if forall|i: int| 0 <= i < e_phnum(b, wide) ==> !#[trigger] holds_address(b, wide, i, vaddr) {
        lemma_header_fields(b, wide);
        numbers_are_little_endian(
            b,
            if wide {
                56
            } else {
                44
            },
        );
        lemma_translated(b, wide, e_phnum(b, wide), vaddr, e_phnum(b, wide));
    }
}

proof fn lemma_translated(b: Seq<u8>, wide: bool, j: int, vaddr: int, n: int)
    requires
        is_image(b, wide),
        0 <= n <= e_phnum(b, wide),
        0 <= j <= e_phnum(b, wide),
        forall|i: int| 0 <= i < j ==> !#[trigger] holds_address(b, wide, i, vaddr),
        j < e_phnum(b, wide) ==> holds_address(b, wide, j, vaddr),
    ensures
        file_offset(loads_upto(b, layout_of(wide), n), vaddr) == (if j < n {
            Some(p_offset(b, wide, j) + (vaddr - p_vaddr(b, wide, j)))
        } else {
            None
        }),
    decreases n,
{
    let l = layout_of(wide);
    if n > 0 {
        lemma_translated(b, wide, j, vaddr, n - 1);
        headers_are_read_where_they_stand(b, wide, n - 1);
        assert(is_header(b, wide, n - 1));
        lemma_file_offset_push(loads_upto(b, l, n - 1), header_at(b, l, n - 1), vaddr);
        if j >= n {
            assert(!holds_address(b, wide, n - 1, vaddr));
        } else if j == n - 1 {
            assert(holds_address(b, wide, n - 1, vaddr));
        }
    }
}

/// Entry `j` of the dynamic array at `at`: its tag.
pub open spec fn d_tag(b: Seq<u8>, wide: bool, at: int, j: int) -> int {
    field(b, at + 2 * address_bytes(wide) * j, address_bytes(wide))
}

/// Entry `j` of the dynamic array at `at`: its value.
pub open spec fn d_val(b: Seq<u8>, wide: bool, at: int, j: int) -> int {
    field(b, at + 2 * address_bytes(wide) * j + address_bytes(wide), address_bytes(wide))
}

/// Whether the dynamic array in the `size` bytes at `at` has `m` entries: they are whole, none has the
/// tag zero, and what follows them has it or is no whole entry.
pub open spec fn has_entries(b: Seq<u8>, wide: bool, at: int, size: int, m: int) -> bool {
    &&& 0 <= m
    &&& 0 <= at
    &&& at + size <= b.len()
    &&& 2 * address_bytes(wide) * m <= size
    &&& forall|j: int| 0 <= j < m ==> #[trigger] d_tag(b, wide, at, j) != 0
    &&& 2 * address_bytes(wide) * (m + 1) > size || d_tag(b, wide, at, m) == 0
}

/// The entries of a dynamic array are read one after the other, each a tag and a value, up to one with
/// the tag zero or the end.
pub proof fn dynamic_entries_are_read_in_order(
    b: Seq<u8>,
    wide: bool,
    at: int,
    size: int,
    m: int,
)
    requires
        has_entries(b, wide, at, size, m),
    ensures
        dynamic_from(b.subrange(at, at + size), wide, 0) == Seq::new(
            m as nat,
            |j: int| (d_tag(b, wide, at, j), d_val(b, wide, at, j)),
        ),
{
    let all = Seq::new(m as nat, |j: int| (d_tag(b, wide, at, j), d_val(b, wide, at, j)));
    lemma_dynamic_from(b, wide, at, size, m, 0);
    assert(all.skip(0) =~= all);
}

#[verifier::rlimit(40)]
proof fn lemma_dynamic_from(b: Seq<u8>, wide: bool, at: int, size: int, m: int, j: int)
    requires
        has_entries(b, wide, at, size, m),
        0 <= j <= m,
    ensures
        dynamic_from(b.subrange(at, at + size), wide, 2 * address_bytes(wide) * j) == Seq::new(
            m as nat,
            |i: int| (d_tag(b, wide, at, i), d_val(b, wide, at, i)),
        ).skip(j),
    decreases m - j,
{
    let w: int = address_bytes(wide);
    let d = b.subrange(at, at + size);
    let here: int = 2 * w * j;
    let all = Seq::new(m as nat, |i: int| (d_tag(b, wide, at, i), d_val(b, wide, at, i)));
    assert(2 * w * (j + 1) == here + 2 * w) by (nonlinear_arith)
        requires
            here == 2 * w * j,
    ;
    assert(here >= 0) by (nonlinear_arith)
        requires
            here == 2 * w * j,
            w >= 0,
            j >= 0,
    ;
    if here + 2 * w <= size {
        numbers_are_little_endian(b, at + here);
        numbers_are_little_endian(b, at + here + w);
        numbers_are_little_endian(d, here);
        numbers_are_little_endian(d, here + w);
        assert(d.subrange(here, here + w) =~= b.subrange(at + here, at + here + w));
        assert(d.subrange(here + w, here + w + w) =~= b.subrange(
            at + here + w,
            at + here + w + w,
        ));
    }
    if j < m {
        assert(2 * w * (j + 1) <= 2 * w * m) by (nonlinear_arith)
            requires
                w >= 0,
                j + 1 <= m,
        ;
        assert(d_tag(b, wide, at, j) != 0);
        lemma_dynamic_from(b, wide, at, size, m, j + 1);
        assert(all.skip(j) =~= seq![all[j]] + all.skip(j + 1));
    } else {
        assert(all.skip(j) =~= Seq::empty());
    }
}

/// The values with a tag of two arrays one after the other are those of the first and then those of the
/// second; the last value with a tag is the second's if it has one, and else the first's.
pub proof fn tagged_values_are_taken_in_order(
    a: Seq<(int, int)>,
    b: Seq<(int, int)>,
    tag: int,
    other: int,
    value: int,
)
    requires
        other != tag,
    ensures
        values_tagged(a + b, tag) == values_tagged(a, tag) + values_tagged(b, tag),
        values_tagged(seq![(tag, value)], tag) == seq![value],
        values_tagged(seq![(other, value)], tag) == Seq::<int>::empty(),
        last_tagged(a + b, tag) == (if last_tagged(b, tag) is Some {
            last_tagged(b, tag)
        } else {
            last_tagged(a, tag)
        }),
        last_tagged(seq![(tag, value)], tag) == Some(value),
        last_tagged(seq![(other, value)], tag) is None,
        last_tagged(Seq::empty(), tag) is None,
    decreases b.len(),
{
    let (x, y) = (seq![(tag, value)], seq![(other, value)]);
    assert(x.drop_last() =~= Seq::empty() && y.drop_last() =~= Seq::empty());
    assert(values_tagged(x.drop_last(), tag) =~= Seq::empty());
    assert(values_tagged(x, tag) =~= seq![value]);
    if b.len() == 0 {
        assert(a + b =~= a);
        assert(values_tagged(a, tag) + values_tagged(b, tag) =~= values_tagged(a, tag));
    } else {
        tagged_values_are_taken_in_order(a, b.drop_last(), tag, other, value);
        assert((a + b).drop_last() =~= a + b.drop_last());
        assert((a + b).last() == b.last());
        assert(values_tagged(a + b, tag) =~= values_tagged(a, tag) + values_tagged(b, tag));
    }
}

#[verifier::rlimit(40)]
proof fn lemma_values_at(entries: Seq<(int, int)>, tag: int, at: Seq<int>)
    requires
        forall|i: int|
            0 <= i < at.len() ==> 0 <= #[trigger] at[i] < entries.len() && entries[at[i]].0 == tag,
        forall|i: int, j: int| 0 <= i < j < at.len() ==> #[trigger] at[i] < #[trigger] at[j],
        forall|k: int|
            0 <= k < entries.len() && (#[trigger] entries[k]).0 == tag ==> exists|i: int|
                0 <= i < at.len() && #[trigger] at[i] == k,
    ensures
        values_tagged(entries, tag) == Seq::new(at.len(), |i: int| entries[at[i]].1),
    decreases entries.len(),
{
    let out = Seq::new(at.len(), |i: int| entries[at[i]].1);
    if entries.len() == 0 {
        if at.len() > 0 {
            assert(0 <= at[0] < entries.len());
        }
        assert(out =~= Seq::empty());
    } else {
        let n: int = entries.len() - 1;
        let fewer = entries.drop_last();
        let tagged = entries[n].0 == tag;
        if tagged {
            let i: int = choose|i: int| 0 <= i < at.len() && #[trigger] at[i] == n;
            if i < at.len() - 1 {
                assert(at[i] < at[at.len() - 1]);
            }
            assert(at.last() == n);
        }
        let before = if tagged {
            at.drop_last()
        } else {
            at
        };
        assert forall|i: int| 0 <= i < before.len() implies 0 <= #[trigger] before[i] < fewer.len()
            && fewer[before[i]].0 == tag by {
            assert(before[i] == at[i]);
            if tagged {
                assert(at[i] < at[at.len() - 1]);
            } else {
                assert(entries[at[i]].0 == tag);
            }
        }
        assert forall|i: int, j: int| 0 <= i < j < before.len() implies #[trigger] before[i]
            < #[trigger] before[j] by {
            assert(before[i] == at[i] && before[j] == at[j]);
        }
        assert forall|k: int| 0 <= k < fewer.len() && (#[trigger] fewer[k]).0 == tag implies exists|
            i: int,
        |
            0 <= i < before.len() && #[trigger] before[i] == k by {
            assert(entries[k].0 == tag);
            let i: int = choose|i: int| 0 <= i < at.len() && #[trigger] at[i] == k;
            assert(before[i] == k);
        }
        lemma_values_at(fewer, tag, before);
        assert forall|i: int| 0 <= i < before.len() implies entries[at[i]].1
            == fewer[#[trigger] before[i]].1 by {}
        if tagged {
            assert(values_tagged(entries, tag) =~= out);
        } else {
            assert(values_tagged(entries, tag) =~= out);
        }
    }
}

proof fn lemma_last_at(entries: Seq<(int, int)>, tag: int, k: int)
    requires
        -1 <= k < entries.len(),
        forall|i: int| k < i < entries.len() ==> (#[trigger] entries[i]).0 != tag,
        k >= 0 ==> entries[k].0 == tag,
    ensures
        k >= 0 ==> last_tagged(entries, tag) == Some(entries[k].1),
        k < 0 ==> last_tagged(entries, tag) is None,
    decreases entries.len(),
{
    if entries.len() > 0 && k < entries.len() - 1 {
        assert(entries[entries.len() - 1].0 != tag);
        lemma_last_at(entries.drop_last(), tag, k);
    }
}

/// Whether the bytes of a name stand at `at`, closed by a zero before `end`: none of them is zero, and
/// there are fewer than 4096.
pub open spec fn name_stands(b: Seq<u8>, at: int, end: int, name: Seq<u8>) -> bool {
    &&& 0 <= at
    &&& at + name.len() < end <= b.len()
    &&& b.subrange(at, at + name.len()) == name
    &&& b[at + name.len()] == 0
    &&& forall|i: int| 0 <= i < name.len() ==> #[trigger] name[i] != 0
    &&& name.len() < 4096
}

/// A name that stands in a range of the file is read out of it, up to its zero, with what could move a
/// terminal's cursor replaced; and where no zero stands within 4096 bytes there is no name.
#[verifier::rlimit(40)]
pub proof fn a_name_is_read_up_to_its_zero(b: Seq<u8>, at: int, end: int, name: Seq<u8>)
    requires
        0 <= at <= end <= b.len(),
    ensures
        name_stands(b, at, end, name) ==> c_text(b.subrange(at, end)) == Some(
            sanitized(text_in(name)),
        ),
        (forall|i: int| at <= i < end && i < at + 4096 ==> b[i] != 0) ==> c_text(
            b.subrange(at, end),
        ) is None,
{
    let s = b.subrange(at, end);
    if name_stands(b, at, end, name) {
        let n: int = name.len() as int;
        assert forall|i: int| 0 <= i < n implies s[i] != 0 by {
            assert(b.subrange(at, at + n)[i] == b[at + i]);
            assert(name[i] != 0);
        }
        lemma_nul_at(s, 0, n);
        assert(s.take(n) =~= name);
    }
    if forall|i: int| at <= i < end && i < at + 4096 ==> b[i] != 0 {
        let n: int = if s.len() < 4096 {
            s.len() as int
        } else {
            4096
        };
        assert forall|i: int| 0 <= i < n implies s[i] != 0 by {
            assert(s[i] == b[at + i]);
        }
        lemma_nul_at(s, 0, n);
    }
}

proof fn lemma_nul_at(s: Seq<u8>, i: int, n: int)
    requires
        0 <= i <= n <= s.len(),
        n <= 4096,
        forall|j: int| i <= j < n ==> s[j] != 0,
    ensures
        nul_at(s, i) == nul_at(s, n),
    decreases n - i,
{
    if i < n {
        lemma_nul_at(s, i + 1, n);
    }
}

/// The parts of a dynamically linked image, as the format lays them out.
pub struct Parts {
    /// The index of the last `PT_INTERP`, if there is one, and the interpreter's name.
    pub interp: Option<(int, Seq<u8>)>,
    /// The index of the last `PT_DYNAMIC`.
    pub dynamic: int,
    /// How many entries its array has.
    pub entries: int,
    /// The entry with the string table's address: the last `DT_STRTAB`.
    pub strtab: int,
    /// The entry with the string table's size: the last `DT_STRSZ`.
    pub strsz: int,
    /// The first loaded segment that holds the string table's address.
    pub load: int,
    /// The entries that name a library, in order: each `DT_NEEDED`.
    pub needed: Seq<int>,
    /// The names of the libraries.
    pub names: Seq<Seq<u8>>,
    /// The entry that names the search path, if there is one, and the path: the last `DT_RUNPATH`, else
    /// the last `DT_RPATH`.
    pub runpath: Option<(int, Seq<u8>)>,
}

/// Whether `k` is the last program header of the type.
pub open spec fn is_last_header(b: Seq<u8>, wide: bool, kind: int, k: int) -> bool {
    &&& 0 <= k < e_phnum(b, wide)
    &&& p_type(b, wide, k) == kind
    &&& forall|i: int| k < i < e_phnum(b, wide) ==> #[trigger] p_type(b, wide, i) != kind
}

/// Whether `k` is the last of the `m` entries with the tag.
pub open spec fn is_last_entry(b: Seq<u8>, wide: bool, at: int, m: int, tag: int, k: int) -> bool {
    &&& 0 <= k < m
    &&& d_tag(b, wide, at, k) == tag
    &&& forall|i: int| k < i < m ==> #[trigger] d_tag(b, wide, at, i) != tag
}

/// Whether none of the `m` entries has the tag.
pub open spec fn has_no_entry(b: Seq<u8>, wide: bool, at: int, m: int, tag: int) -> bool {
    forall|i: int| 0 <= i < m ==> #[trigger] d_tag(b, wide, at, i) != tag
}

/// Whether the interpreter is the one that the image names.
pub open spec fn interp_stands(b: Seq<u8>, wide: bool, interp: Option<(int, Seq<u8>)>) -> bool {
    match interp {
        None => forall|i: int| 0 <= i < e_phnum(b, wide) ==> #[trigger] p_type(b, wide, i) != 3,
        Some((k, name)) => is_last_header(b, wide, 3, k) && p_offset(b, wide, k) + p_filesz(
            b,
            wide,
            k,
        ) <= b.len() && name_stands(
            b,
            p_offset(b, wide, k),
            p_offset(b, wide, k) + p_filesz(b, wide, k),
            name,
        ),
    }
}

/// Whether the image consists of these parts.
pub open spec fn has_parts(b: Seq<u8>, wide: bool, p: Parts) -> bool {
    let at = p_offset(b, wide, p.dynamic);
    let table = table_start(b, wide, p);
    let end = table + d_val(b, wide, at, p.strsz);
    &&& is_image(b, wide)
    &&& interp_stands(b, wide, p.interp)
    &&& is_last_header(b, wide, 2, p.dynamic)
    &&& has_entries(b, wide, at, p_filesz(b, wide, p.dynamic), p.entries)
    &&& is_last_entry(b, wide, at, p.entries, 5, p.strtab)
    &&& is_last_entry(b, wide, at, p.entries, 10, p.strsz)
    &&& 0 <= p.load < e_phnum(b, wide)
    &&& holds_address(b, wide, p.load, d_val(b, wide, at, p.strtab))
    &&& forall|i: int|
        0 <= i < p.load ==> !#[trigger] holds_address(b, wide, i, d_val(b, wide, at, p.strtab))
    &&& end <= b.len()
    &&& p.needed.len() <= 512
    &&& p.names.len() == p.needed.len()
    &&& forall|i: int|
        0 <= i < p.needed.len() ==> 0 <= #[trigger] p.needed[i] < p.entries && d_tag(
            b,
            wide,
            at,
            p.needed[i],
        ) == 1
    &&& forall|i: int, j: int|
        0 <= i < j < p.needed.len() ==> #[trigger] p.needed[i] < #[trigger] p.needed[j]
    &&& forall|k: int|
        0 <= k < p.entries && #[trigger] d_tag(b, wide, at, k) == 1 ==> exists|i: int|
            0 <= i < p.needed.len() && #[trigger] p.needed[i] == k
    &&& forall|i: int|
        0 <= i < p.names.len() ==> name_stands(
            b,
            table + d_val(b, wide, at, p.needed[i]),
            end,
            #[trigger] p.names[i],
        )
    &&& match p.runpath {
        None => has_no_entry(b, wide, at, p.entries, 29) && has_no_entry(
            b,
            wide,
            at,
            p.entries,
            15,
        ),
        Some((k, path)) => (is_last_entry(b, wide, at, p.entries, 29, k) || (has_no_entry(
            b,
            wide,
            at,
            p.entries,
            29,
        ) && is_last_entry(b, wide, at, p.entries, 15, k))) && name_stands(
            b,
            table + d_val(b, wide, at, k),
            end,
            path,
        ),
    }
}

/// Where in the file the string table starts: as far into its segment's range of the file as its address
/// lies into the segment.
pub open spec fn table_start(b: Seq<u8>, wide: bool, p: Parts) -> int {
    p_offset(b, wide, p.load) + (d_val(b, wide, p_offset(b, wide, p.dynamic), p.strtab) - p_vaddr(
        b,
        wide,
        p.load,
    ))
}

proof fn lemma_interp(b: Seq<u8>, wide: bool, interp: Option<(int, Seq<u8>)>)
    requires
        is_image(b, wide),
        interp_stands(b, wide, interp),
    ensures
        interp_of(b, last_upto(b, layout_of(wide), 3, e_phnum(b, wide))) == Some(
            match interp {
                None => None,
                Some((_, name)) => Some(sanitized(text_in(name))),
            },
        ),
{
    lemma_header_fields(b, wide);
    lemma_count_nonneg(b, wide);
    match interp {
        None => {
            lemma_last_of_kind(b, wide, 3, -1, e_phnum(b, wide));
        },
        Some((k, name)) => {
            lemma_last_of_kind(b, wide, 3, k, e_phnum(b, wide));
            headers_are_read_where_they_stand(b, wide, k);
            a_name_is_read_up_to_its_zero(
                b,
                p_offset(b, wide, k),
                p_offset(b, wide, k) + p_filesz(b, wide, k),
                name,
            );
        },
    }
}

proof fn lemma_count_nonneg(b: Seq<u8>, wide: bool)
    requires
        is_image(b, wide),
    ensures
        e_phnum(b, wide) >= 0,
{
    numbers_are_little_endian(
        b,
        if wide {
            56
        } else {
            44
        },
    );
}

/// An image without a dynamic array requires nothing of the loader but its interpreter.
pub proof fn a_static_image_requires_nothing(
    b: Seq<u8>,
    wide: bool,
    interp: Option<(int, Seq<u8>)>,
)
    requires
        is_image(b, wide),
        interp_stands(b, wide, interp),
        forall|i: int| 0 <= i < e_phnum(b, wide) ==> #[trigger] p_type(b, wide, i) != 2,
    ensures
        elf_needs(b) == Ok::<ElfNeedsView, ElfErrorView>(
            ElfNeedsView {
                machine: field(b, 18, 2) as u16,
                interp: match interp {
                    None => None,
                    Some((_, name)) => Some(sanitized(text_in(name))),
                },
                needed: Seq::empty(),
                runpath: Seq::empty(),
            },
        ),
{
    lemma_is_readable(b, wide);
    lemma_header_fields(b, wide);
    lemma_count_nonneg(b, wide);
    lemma_interp(b, wide, interp);
    lemma_last_of_kind(b, wide, 2, -1, e_phnum(b, wide));
}

/// A well-formed image requires the libraries that its dynamic array names, in that order, wherever it is
/// to be loaded; its search path is the one that the array names, in its parts.
#[verifier::rlimit(40)]
pub proof fn an_image_requires_what_its_dynamic_array_names(b: Seq<u8>, wide: bool, p: Parts)
    requires
        has_parts(b, wide, p),
    ensures
        elf_needs(b) == Ok::<ElfNeedsView, ElfErrorView>(
            ElfNeedsView {
                machine: field(b, 18, 2) as u16,
                interp: match p.interp {
                    None => None,
                    Some((_, name)) => Some(sanitized(text_in(name))),
                },
                needed: Seq::new(p.names.len(), |i: int| sanitized(text_in(p.names[i]))),
                runpath: match p.runpath {
                    None => Seq::empty(),
                    Some((_, path)) => nonempty(split(sanitized(text_in(path)), ':')),
                },
            },
        ),
{
    let l = layout_of(wide);
    let n: int = e_phnum(b, wide);
    let at: int = p_offset(b, wide, p.dynamic);
    let size: int = p_filesz(b, wide, p.dynamic);
    let m: int = p.entries;
    lemma_is_readable(b, wide);
    lemma_header_fields(b, wide);
    lemma_count_nonneg(b, wide);
    lemma_interp(b, wide, p.interp);
    lemma_last_of_kind(b, wide, 2, p.dynamic, n);
    headers_are_read_where_they_stand(b, wide, p.dynamic);
    let d = b.subrange(at, at + size);
    dynamic_entries_are_read_in_order(b, wide, at, size, m);
    let entries = dynamic_from(d, wide, 0);
    let loads = loads_upto(b, l, n);
    let vaddr: int = d_val(b, wide, at, p.strtab);
    let table_size: int = d_val(b, wide, at, p.strsz);
    lemma_last_at(entries, 5, p.strtab);
    lemma_last_at(entries, 10, p.strsz);
    headers_are_read_where_they_stand(b, wide, p.load);
    an_address_is_translated_by_its_segment(
        b,
        wide,
        p.load,
        vaddr - p_vaddr(b, wide, p.load),
        vaddr,
    );
    let start: int = table_start(b, wide, p);
    lemma_tagged_nonneg(d, wide, 0, 10);
    let table = b.subrange(start, start + table_size);
    assert(table_of(b, entries, loads) == Some(table));
    lemma_values_at_tags(b, wide, at, p, entries);
    let offsets = values_tagged(entries, 1);
    lemma_entries_nonneg(d, wide, 0);
    assert forall|i: int| 0 <= i < offsets.len() implies text_at(table, #[trigger] offsets[i])
        == Some(sanitized(text_in(p.names[i]))) by {
        assert(entries[p.needed[i]].1 >= 0);
        assert(name_stands(
            b,
            start + d_val(b, wide, at, p.needed[i]),
            start + table_size,
            p.names[i],
        ));
        lemma_text_at(b, start, table_size, offsets[i], p.names[i]);
    }
    assert(texts_at(table, offsets)->0 =~= Seq::new(
        p.names.len(),
        |i: int| sanitized(text_in(p.names[i])),
    ));
    match p.runpath {
        None => {
            lemma_last_at(entries, 29, -1);
            lemma_last_at(entries, 15, -1);
        },
        Some((k, path)) => {
            if is_last_entry(b, wide, at, m, 29, k) {
                lemma_last_at(entries, 29, k);
            } else {
                lemma_last_at(entries, 29, -1);
                lemma_last_at(entries, 15, k);
            }
            assert(entries[k].1 >= 0);
            lemma_text_at(b, start, table_size, d_val(b, wide, at, k), path);
        },
    }
}

proof fn lemma_values_at_tags(
    b: Seq<u8>,
    wide: bool,
    at: int,
    p: Parts,
    entries: Seq<(int, int)>,
)
    requires
        has_parts(b, wide, p),
        at == p_offset(b, wide, p.dynamic),
        entries == Seq::new(
            p.entries as nat,
            |j: int| (d_tag(b, wide, at, j), d_val(b, wide, at, j)),
        ),
    ensures
        values_tagged(entries, 1) == Seq::new(
            p.needed.len(),
            |i: int| d_val(b, wide, at, p.needed[i]),
        ),
{
    assert forall|k: int| 0 <= k < entries.len() && (#[trigger] entries[k]).0 == 1 implies exists|
        i: int,
    |
        0 <= i < p.needed.len() && #[trigger] p.needed[i] == k by {
        assert(d_tag(b, wide, at, k) == 1);
    }
    assert forall|i: int| 0 <= i < p.needed.len() implies 0 <= #[trigger] p.needed[i]
        < entries.len() && entries[p.needed[i]].0 == 1 by {}
    lemma_values_at(entries, 1, p.needed);
    assert(values_tagged(entries, 1) =~= Seq::new(
        p.needed.len(),
        |i: int| d_val(b, wide, at, p.needed[i]),
    ));
}

proof fn lemma_text_at(b: Seq<u8>, start: int, size: int, offset: int, name: Seq<u8>)
    requires
        0 <= start,
        0 <= size,
        start + size <= b.len(),
        0 <= offset,
        name_stands(b, start + offset, start + size, name),
    ensures
        text_at(b.subrange(start, start + size), offset) == Some(sanitized(text_in(name))),
{
    let table = b.subrange(start, start + size);
    assert(table.skip(offset) =~= b.subrange(start + offset, start + size));
    a_name_is_read_up_to_its_zero(b, start + offset, start + size, name);
}

/// Where an image is loaded is no part of what it requires: an image whose segments, and whose string
/// table, all lie a constant further in memory has the same requirements.
pub proof fn moving_an_image_changes_nothing(
    b: Seq<u8>,
    machine: u16,
    interp: Option<Seq<char>>,
    entries: Seq<(int, int)>,
    loads: Seq<SegmentView>,
    by: int,
    moved_entries: Seq<(int, int)>,
    moved_loads: Seq<SegmentView>,
)
    requires
        moved_entries.len() == entries.len(),
        moved_loads.len() == loads.len(),
        forall|i: int|
            0 <= i < entries.len() ==> #[trigger] moved_entries[i] == (
                entries[i].0,
                if entries[i].0 == 5 {
                    entries[i].1 + by
                } else {
                    entries[i].1
                },
            ),
        forall|i: int|
            0 <= i < loads.len() ==> #[trigger] moved_loads[i] == (SegmentView {
                vaddr: loads[i].vaddr + by,
                ..loads[i]
            }),
    ensures
        dynamic_needs(b, machine, interp, moved_entries, moved_loads) == dynamic_needs(
            b,
            machine,
            interp,
            entries,
            loads,
        ),
        forall|vaddr: int| #[trigger]
            file_offset(loads, vaddr) == file_offset(moved_loads, vaddr + by),
{
    lemma_moved_tags(entries, by, moved_entries);
    assert forall|vaddr: int| #[trigger]
        file_offset(loads, vaddr) == file_offset(moved_loads, vaddr + by) by {
        lemma_moved_loads(loads, by, moved_loads, vaddr);
    }
    assert(table_of(b, moved_entries, moved_loads) == table_of(b, entries, loads));
}

proof fn lemma_moved_loads(
    loads: Seq<SegmentView>,
    by: int,
    moved: Seq<SegmentView>,
    vaddr: int,
)
    requires
        moved.len() == loads.len(),
        forall|i: int|
            0 <= i < loads.len() ==> #[trigger] moved[i] == (SegmentView {
                vaddr: loads[i].vaddr + by,
                ..loads[i]
            }),
    ensures
        file_offset(loads, vaddr) == file_offset(moved, vaddr + by),
    decreases loads.len(),
{
    if loads.len() > 0 {
        assert(moved[0].vaddr == loads[0].vaddr + by);
        let (x, y) = (loads.skip(1), moved.skip(1));
        assert forall|i: int| 0 <= i < x.len() implies #[trigger] y[i] == (SegmentView {
            vaddr: x[i].vaddr + by,
            ..x[i]
        }) by {
            assert(y[i] == moved[i + 1]);
        }
        lemma_moved_loads(x, by, y, vaddr);
    }
}

proof fn lemma_moved_tags(entries: Seq<(int, int)>, by: int, moved: Seq<(int, int)>)
    requires
        moved.len() == entries.len(),
        forall|i: int|
            0 <= i < entries.len() ==> #[trigger] moved[i] == (
                entries[i].0,
                if entries[i].0 == 5 {
                    entries[i].1 + by
                } else {
                    entries[i].1
                },
            ),
    ensures
        values_tagged(moved, 1) == values_tagged(entries, 1),
        last_tagged(moved, 5) == (match last_tagged(entries, 5) {
            Some(v) => Some(v + by),
            None => None,
        }),
        last_tagged(moved, 10) == last_tagged(entries, 10),
        last_tagged(moved, 29) == last_tagged(entries, 29),
        last_tagged(moved, 15) == last_tagged(entries, 15),
    decreases entries.len(),
{
    if entries.len() > 0 {
        let n: int = entries.len() - 1;
        assert(moved[n].0 == entries[n].0);
        let (x, y) = (entries.drop_last(), moved.drop_last());
        assert forall|i: int| 0 <= i < x.len() implies #[trigger] y[i] == (
            x[i].0,
            if x[i].0 == 5 {
                x[i].1 + by
            } else {
                x[i].1
            },
        ) by {
            assert(y[i] == moved[i]);
        }
        lemma_moved_tags(x, by, y);
    }
}

/// What is no image, and what kind of image is not read.
pub proof fn what_is_not_read(b: Seq<u8>)
    ensures
        elf_needs(b) == Err::<ElfNeedsView, ElfErrorView>(ElfErrorView::NotElf) <==> b.len() < 16
            || b[0] != 0x7f || b[1] != 'E' as u8 || b[2] != 'L' as u8 || b[3] != 'F' as u8,
        elf_needs(b) is Ok ==> b.len() >= 20 && (b[4] == 1 || b[4] == 2) && b[5] == 1 && (b[16] == 2
            || b[16] == 3) && b[17] == 0,
        elf_needs(b) is Ok ==> elf_needs(b)->Ok_0.machine == b[18] + 0x100 * b[19],
{
    assert('E' as u8 == 0x45 && 'L' as u8 == 0x4c && 'F' as u8 == 0x46);
}

/// An answer leaves nothing out: where an image has a dynamic array and an answer, the answer has a name for
/// each library that the array asks for, no more than 512, and the array says where the string table is and
/// how long; and where the image names an interpreter, so does the answer.
#[verifier::rlimit(40)]
pub proof fn an_answer_leaves_nothing_out(
    b: Seq<u8>,
    wide: bool,
    k: int,
    m: int,
    needed: Seq<int>,
    interp: int,
)
    requires
        is_image(b, wide),
        is_last_header(b, wide, 2, k),
        has_entries(b, wide, p_offset(b, wide, k), p_filesz(b, wide, k), m),
        forall|i: int|
            0 <= i < needed.len() ==> 0 <= #[trigger] needed[i] < m && d_tag(
                b,
                wide,
                p_offset(b, wide, k),
                needed[i],
            ) == 1,
        forall|i: int, j: int|
            0 <= i < j < needed.len() ==> #[trigger] needed[i] < #[trigger] needed[j],
        forall|j: int|
            0 <= j < m && #[trigger] d_tag(b, wide, p_offset(b, wide, k), j) == 1 ==> exists|i: int|
                0 <= i < needed.len() && #[trigger] needed[i] == j,
        elf_needs(b) is Ok,
    ensures
        elf_needs(b)->Ok_0.needed.len() == needed.len(),
        needed.len() <= 512,
        exists|j: int| 0 <= j < m && #[trigger] d_tag(b, wide, p_offset(b, wide, k), j) == 5,
        exists|j: int| 0 <= j < m && #[trigger] d_tag(b, wide, p_offset(b, wide, k), j) == 10,
        is_last_header(b, wide, 3, interp) ==> elf_needs(b)->Ok_0.interp is Some,
        elf_needs(b)->Ok_0.machine == field(b, 18, 2),
{
    let l = layout_of(wide);
    let n: int = e_phnum(b, wide);
    let at: int = p_offset(b, wide, k);
    let size: int = p_filesz(b, wide, k);
    lemma_is_readable(b, wide);
    lemma_header_fields(b, wide);
    lemma_count_nonneg(b, wide);
    lemma_last_of_kind(b, wide, 2, k, n);
    headers_are_read_where_they_stand(b, wide, k);
    dynamic_entries_are_read_in_order(b, wide, at, size, m);
    let entries = dynamic_from(b.subrange(at, at + size), wide, 0);
    assert forall|j: int| 0 <= j < entries.len() && (#[trigger] entries[j]).0 == 1 implies exists|
        i: int,
    |
        0 <= i < needed.len() && #[trigger] needed[i] == j by {
        assert(d_tag(b, wide, at, j) == 1);
    }
    assert forall|i: int| 0 <= i < needed.len() implies 0 <= #[trigger] needed[i] < entries.len()
        && entries[needed[i]].0 == 1 by {}
    lemma_values_at(entries, 1, needed);
    lemma_tag_is_there(entries, 5);
    lemma_tag_is_there(entries, 10);
    let x: int = choose|x: int| 0 <= x < entries.len() && (#[trigger] entries[x]).0 == 5;
    let y: int = choose|y: int| 0 <= y < entries.len() && (#[trigger] entries[y]).0 == 10;
    assert(d_tag(b, wide, at, x) == 5);
    assert(d_tag(b, wide, at, y) == 10);
    if is_last_header(b, wide, 3, interp) {
        lemma_last_of_kind(b, wide, 3, interp, n);
    }
}

proof fn lemma_tag_is_there(entries: Seq<(int, int)>, tag: int)
    ensures
        last_tagged(entries, tag) is Some ==> exists|i: int|
            0 <= i < entries.len() && (#[trigger] entries[i]).0 == tag,
    decreases entries.len(),
{
    if entries.len() > 0 {
        if entries.last().0 == tag {
            assert(entries[entries.len() - 1].0 == tag);
        } else {
            let fewer = entries.drop_last();
            lemma_tag_is_there(fewer, tag);
            if last_tagged(fewer, tag) is Some {
                let i: int = choose|i: int| 0 <= i < fewer.len() && (#[trigger] fewer[i]).0 == tag;
                assert(entries[i].0 == tag);
            }
        }
    }
}

} // verus!
