//! The units that make up the output file, and the naming of output
//! sections.
use vstd::prelude::*;
use crate::linker::abi;
use crate::linker::context::{Context, lemma_sections_same, output_key, sections_added};
use crate::linker::elf::{Shdr, Phdr, EHDR_SIZE, PAGESIZE};
use crate::linker::chunker::{
    is_alloc, is_bss, is_note, is_tls, spec_phdr_flags, PhdrFlagsOf, IsAllocShdr, IsBssShdr,
    IsNoteShdr, IsTlsShdr,
};
use crate::linker::symbol::{wrap_add, wrap_sub};
use crate::linker::error::LinkError;
use crate::utils::{BytesEq, StartsWith, ToVec, starts_with};

verus! {

/// What every unit of the output has: a name, a section header and its
/// position in the table of section headers (0: not in the table).
#[derive(Debug)]
pub struct Chunk {
    pub Name: Vec<u8>,
    pub Shdr: Shdr,
    pub Shndx: usize,
}

/// The file header of the output.
#[derive(Debug)]
pub struct OutputEhdr {
    pub Chunk: Chunk,
}

/// The table of section headers of the output.
#[derive(Debug)]
pub struct OutputShdr {
    pub Chunk: Chunk,
}

/// The table of program headers of the output.
#[derive(Debug)]
pub struct OutputPhdr {
    pub Chunk: Chunk,
    pub Phdrs: Vec<Phdr>,
}

/// An input section by position: the object in the context, the section
/// in the object.
#[derive(Clone, Copy, Debug, PartialEq, Eq, Structural)]
pub struct SectionRef {
    pub Obj: usize,
    pub Sec: usize,
}

/// A section of the output: the input sections of one name, type and set
/// of flags, one after the other. `Idx` is its position in the context.
#[derive(Debug)]
pub struct OutputSection {
    pub Chunk: Chunk,
    pub Members: Vec<SectionRef>,
    pub Idx: usize,
}

/// A unit of the output by where the context holds it.
#[derive(Clone, Copy, Debug, PartialEq, Eq, Structural)]
pub enum ChunkId {
    Ehdr,
    Phdr,
    Shdr,
    Got,
    Output(usize),
    Merged(usize),
}

impl Chunk {
    /// Whether this is the chunk that `new` makes: no name, a header of
    /// zeros but for an alignment of 1.
    pub open spec fn is_blank(&self) -> bool {
        &&& self.Name@.len() == 0
        &&& self.Shdr == (Shdr { AddrAlign: 1, ..Shdr::zero() })
        &&& self.Shndx == 0
    }

    /// A chunk without name, with a header of zeros but for an alignment
    /// of 1.
    pub fn new() -> (r: Chunk)
        ensures
            r.is_blank(),
    {
        let mut shdr = Shdr::default();
        shdr.AddrAlign = 1;
        Chunk { Name: Vec::new(), Shdr: shdr, Shndx: 0 }
    }
}

impl OutputEhdr {
    /// The file header chunk: allocated, 64 bytes, aligned to 8.
    pub fn new() -> (r: OutputEhdr)
        ensures
            r.Chunk.Name@.len() == 0,
            r.Chunk.Shndx == 0,
            r.Chunk.Shdr == (Shdr { Flags: abi::SHF_ALLOC, Size: 64, AddrAlign: 8, ..Shdr::zero() }),
    {
        let mut c = Chunk::new();
        let mut shdr = Shdr::default();
        shdr.Flags = abi::SHF_ALLOC;
        shdr.Size = EHDR_SIZE as u64;
        shdr.AddrAlign = 8;
        c.Shdr = shdr;
        OutputEhdr { Chunk: c }
    }
}

impl OutputShdr {
    /// The chunk of the section header table: not allocated, aligned to 8.
    pub fn new() -> (r: OutputShdr)
        ensures
            r.Chunk.Name@.len() == 0,
            r.Chunk.Shndx == 0,
            r.Chunk.Shdr == (Shdr { AddrAlign: 8, ..Shdr::zero() }),
    {
        let mut c = Chunk::new();
        c.Shdr.AddrAlign = 8;
        OutputShdr { Chunk: c }
    }
}

impl OutputPhdr {
    /// The chunk of the program header table: allocated, aligned to 8, no
    /// program headers yet.
    pub fn new() -> (r: OutputPhdr)
        ensures
            r.Chunk.Name@.len() == 0,
            r.Chunk.Shndx == 0,
            r.Chunk.Shdr == (Shdr { Flags: abi::SHF_ALLOC, AddrAlign: 8, ..Shdr::zero() }),
            r.Phdrs@.len() == 0,
    {
        let mut c = Chunk::new();
        c.Shdr.Flags = abi::SHF_ALLOC;
        c.Shdr.AddrAlign = 8;
        OutputPhdr { Chunk: c, Phdrs: Vec::new() }
    }
}

impl OutputSection {
    /// An output section without members.
    pub fn new(name: Vec<u8>, ty: u32, flags: u64, idx: usize) -> (r: OutputSection)
        ensures
            r.Chunk.Name == name,
            r.Chunk.Shndx == 0,
            r.Chunk.Shdr == (Shdr { Type: ty, Flags: flags, AddrAlign: 1, ..Shdr::zero() }),
            r.Members@.len() == 0,
            r.Idx == idx,
    {
        let mut c = Chunk::new();
        c.Name = name;
        c.Shdr.Type = ty;
        c.Shdr.Flags = flags;
        OutputSection { Chunk: c, Members: Vec::new(), Idx: idx }
    }
}

/// How many prefixes the naming of output sections knows.
pub const N_PREFIXES: usize = 13;

/// The `k`-th section name prefix, in the order in which they are tried:
/// `.text.`, `.data.rel.ro.`, `.data.`, `.rodata.`, `.bss.rel.ro.`, `.bss.`,
/// `.init_array.`, `.fini_array.`, `.tbss.`, `.tdata.`,
/// `.gcc_except_table.`, `.ctors.`, `.dtors.`. A more specific prefix
/// stands before a less specific one.
pub open spec fn PREFIXES(k: int) -> Seq<u8> {
    if k == 0 {
        seq![0x2eu8, 0x74, 0x65, 0x78, 0x74, 0x2e]
    } else if k == 1 {
        seq![0x2eu8, 0x64, 0x61, 0x74, 0x61, 0x2e, 0x72, 0x65, 0x6c, 0x2e, 0x72, 0x6f, 0x2e]
    } else if k == 2 {
        seq![0x2eu8, 0x64, 0x61, 0x74, 0x61, 0x2e]
    } else if k == 3 {
        seq![0x2eu8, 0x72, 0x6f, 0x64, 0x61, 0x74, 0x61, 0x2e]
    } else if k == 4 {
        seq![0x2eu8, 0x62, 0x73, 0x73, 0x2e, 0x72, 0x65, 0x6c, 0x2e, 0x72, 0x6f, 0x2e]
    } else if k == 5 {
        seq![0x2eu8, 0x62, 0x73, 0x73, 0x2e]
    } else if k == 6 {
        seq![0x2eu8, 0x69, 0x6e, 0x69, 0x74, 0x5f, 0x61, 0x72, 0x72, 0x61, 0x79, 0x2e]
    } else if k == 7 {
        seq![0x2eu8, 0x66, 0x69, 0x6e, 0x69, 0x5f, 0x61, 0x72, 0x72, 0x61, 0x79, 0x2e]
    } else if k == 8 {
        seq![0x2eu8, 0x74, 0x62, 0x73, 0x73, 0x2e]
    } else if k == 9 {
        seq![0x2eu8, 0x74, 0x64, 0x61, 0x74, 0x61, 0x2e]
    } else if k == 10 {
        seq![
            0x2eu8,
            0x67,
            0x63,
            0x63,
            0x5f,
            0x65,
            0x78,
            0x63,
            0x65,
            0x70,
            0x74,
            0x5f,
            0x74,
            0x61,
            0x62,
            0x6c,
            0x65,
            0x2e,
        ]
    } else if k == 11 {
        seq![0x2eu8, 0x63, 0x74, 0x6f, 0x72, 0x73, 0x2e]
    } else {
        seq![0x2eu8, 0x64, 0x74, 0x6f, 0x72, 0x73, 0x2e]
    }
}

/// The `k`-th prefix as bytes.
pub fn Prefix(k: usize) -> (r: Vec<u8>)
    requires
        k < N_PREFIXES,
    ensures
        r@ == PREFIXES(k as int),
        r@.len() >= 2,
{
    let v: Vec<u8> = if k == 0 {
        vec![0x2eu8, 0x74, 0x65, 0x78, 0x74, 0x2e]
    } else if k == 1 {
        vec![0x2eu8, 0x64, 0x61, 0x74, 0x61, 0x2e, 0x72, 0x65, 0x6c, 0x2e, 0x72, 0x6f, 0x2e]
    } else if k == 2 {
        vec![0x2eu8, 0x64, 0x61, 0x74, 0x61, 0x2e]
    } else if k == 3 {
        vec![0x2eu8, 0x72, 0x6f, 0x64, 0x61, 0x74, 0x61, 0x2e]
    } else if k == 4 {
        vec![0x2eu8, 0x62, 0x73, 0x73, 0x2e, 0x72, 0x65, 0x6c, 0x2e, 0x72, 0x6f, 0x2e]
    } else if k == 5 {
        vec![0x2eu8, 0x62, 0x73, 0x73, 0x2e]
    } else if k == 6 {
        vec![0x2eu8, 0x69, 0x6e, 0x69, 0x74, 0x5f, 0x61, 0x72, 0x72, 0x61, 0x79, 0x2e]
    } else if k == 7 {
        vec![0x2eu8, 0x66, 0x69, 0x6e, 0x69, 0x5f, 0x61, 0x72, 0x72, 0x61, 0x79, 0x2e]
    } else if k == 8 {
        vec![0x2eu8, 0x74, 0x62, 0x73, 0x73, 0x2e]
    } else if k == 9 {
        vec![0x2eu8, 0x74, 0x64, 0x61, 0x74, 0x61, 0x2e]
    } else if k == 10 {
        vec![
            0x2eu8,
            0x67,
            0x63,
            0x63,
            0x5f,
            0x65,
            0x78,
            0x63,
            0x65,
            0x70,
            0x74,
            0x5f,
            0x74,
            0x61,
            0x62,
            0x6c,
            0x65,
            0x2e,
        ]
    } else if k == 11 {
        vec![0x2eu8, 0x63, 0x74, 0x6f, 0x72, 0x73, 0x2e]
    } else {
        vec![0x2eu8, 0x64, 0x74, 0x6f, 0x72, 0x73, 0x2e]
    };
    assert(v@ =~= PREFIXES(k as int));
    v
}

/// `.rodata`
pub open spec fn RODATA() -> Seq<u8> {
    seq![0x2eu8, 0x72, 0x6f, 0x64, 0x61, 0x74, 0x61]
}

/// `.rodata.str`
pub open spec fn RODATA_STR() -> Seq<u8> {
    seq![0x2eu8, 0x72, 0x6f, 0x64, 0x61, 0x74, 0x61, 0x2e, 0x73, 0x74, 0x72]
}

/// `.rodata.cst`
pub open spec fn RODATA_CST() -> Seq<u8> {
    seq![0x2eu8, 0x72, 0x6f, 0x64, 0x61, 0x74, 0x61, 0x2e, 0x63, 0x73, 0x74]
}

/// The `k`-th prefix without its last dot.
pub open spec fn stem(k: int) -> Seq<u8> {
    PREFIXES(k).drop_last()
}

/// The stem of the first prefix from the `k`-th on that `name` matches: a
/// name matches a prefix where it is its stem or starts with it. `name`
/// itself where none matches.
pub open spec fn stem_from(name: Seq<u8>, k: int) -> Seq<u8>
    decreases N_PREFIXES - k,
{
    if k >= N_PREFIXES {
        name
    } else if name == stem(k) || starts_with(name, PREFIXES(k)) {
        stem(k)
    } else {
        stem_from(name, k + 1)
    }
}

/// Whether a mergeable section of this name goes to one of the two merged
/// read-only sections.
pub open spec fn is_merge_rodata(name: Seq<u8>, flags: u64) -> bool {
    (name == RODATA() || starts_with(name, PREFIXES(3))) && flags & abi::SHF_MERGE != 0
}

/// The name of the output section that an input section called `name` with
/// the flags `flags` goes to.
pub open spec fn spec_output_name(name: Seq<u8>, flags: u64) -> Seq<u8> {
    if is_merge_rodata(name, flags) {
        if flags & abi::SHF_STRINGS != 0 {
            RODATA_STR()
        } else {
            RODATA_CST()
        }
    } else {
        stem_from(name, 0)
    }
}

/// The name of the output section that an input section called `name` with
/// the flags `flags` goes to: mergeable read-only data goes to `.rodata.str`
/// (strings) or `.rodata.cst` (constants); a name with one of the known
/// prefixes goes to the stem of the first that matches; every other name
/// stays.
pub fn GetOutputName(name: &[u8], flags: u64) -> (r: Vec<u8>)
    ensures
        r@ == spec_output_name(name@, flags),
{
    let rodata_dot = Prefix(3);
    let mut rodata = Prefix(3);
    rodata.pop();
    assert(rodata@ =~= RODATA());
    if (BytesEq(name, rodata.as_slice()) || StartsWith(name, rodata_dot.as_slice())) && flags
        & abi::SHF_MERGE != 0 {
        if flags & abi::SHF_STRINGS != 0 {
            let v: Vec<u8> = vec![0x2eu8, 0x72, 0x6f, 0x64, 0x61, 0x74, 0x61, 0x2e, 0x73, 0x74, 0x72];
            assert(v@ =~= RODATA_STR());
            return v;
        } else {
            let v: Vec<u8> = vec![0x2eu8, 0x72, 0x6f, 0x64, 0x61, 0x74, 0x61, 0x2e, 0x63, 0x73, 0x74];
            assert(v@ =~= RODATA_CST());
            return v;
        }
    }
    let mut k: usize = 0;
    while k < N_PREFIXES
        invariant
            k <= N_PREFIXES,
            !is_merge_rodata(name@, flags),
            stem_from(name@, 0) == stem_from(name@, k as int),
        decreases N_PREFIXES - k,
    {
        let prefix = Prefix(k);
        let mut st = Prefix(k);
        st.pop();
        assert(st@ =~= stem(k as int));
        if BytesEq(name, st.as_slice()) || StartsWith(name, prefix.as_slice()) {
            return st;
        }
        k = k + 1;
    }
    ToVec(name)
}

/// The flags that do not tell output sections apart.
pub const OUTPUT_FLAGS_IGNORED: u64 = 0xa80;

/// The flags that do not tell merged sections apart.
pub const MERGED_FLAGS_IGNORED: u64 = 0xa30;

/// `flags` without the group, compressed and link-order flags.
pub open spec fn output_flags(flags: u64) -> u64 {
    flags & !OUTPUT_FLAGS_IGNORED
}

/// `flags` without the group, merge, strings and compressed flags.
pub open spec fn merged_flags(flags: u64) -> u64 {
    flags & !MERGED_FLAGS_IGNORED
}

/// The position of the output section with the key `key`, if there is
/// one.
fn FindOutputSection(secs: &Vec<OutputSection>, name: &[u8], ty: u32, flags: u64) -> (r: Option<
    usize,
>)
    ensures
        r is Some ==> r.unwrap() < secs@.len() && output_key(secs@[r.unwrap() as int]) == (
            name@,
            ty,
            flags,
        ),
        r is None ==> forall|i: int| 0 <= i < secs@.len() ==> output_key(secs@[i]) != (name@, ty, flags),
{
    let n: usize = secs.len();
    let mut i: usize = 0;
    while i < n
        invariant
            i <= n,
            n == secs@.len(),
            forall|j: int| 0 <= j < i ==> output_key(secs@[j]) != (name@, ty, flags),
        decreases n - i,
    {
        if BytesEq(secs[i].Chunk.Name.as_slice(), name) && secs[i].Chunk.Shdr.Type == ty
            && secs[i].Chunk.Shdr.Flags == flags {
            return Some(i);
        }
        i = i + 1;
    }
    None
}

/// The position of the output section that an input section with the name
/// `name`, the type `ty` and the flags `flags` goes to. The section is made
/// and appended where the context has none with that name, type and flags;
/// the name is normalized and the group, compressed and link-order flags
/// are left out before the comparison. Nothing else in the context
/// changes.
pub fn GetOutputSection(ctx: &mut Context, name: &[u8], ty: u32, flags: u64) -> (r: usize)
    requires
        old(ctx).wf(),
    ensures
        final(ctx).wf(),
        *final(ctx) == (Context { OutputSections: final(ctx).OutputSections, ..*old(ctx) }),
        r < final(ctx).OutputSections@.len(),
        output_key(final(ctx).OutputSections@[r as int]) == (
            spec_output_name(name@, flags),
            ty,
            output_flags(flags),
        ),
        sections_added(*old(ctx), *final(ctx)),
        r < old(ctx).OutputSections@.len() ==> final(ctx).OutputSections@ == old(ctx).OutputSections@,
        r >= old(ctx).OutputSections@.len() ==> {
            &&& r == old(ctx).OutputSections@.len()
            &&& final(ctx).OutputSections@.len() == r + 1
            &&& final(ctx).OutputSections@.subrange(0, r as int) == old(ctx).OutputSections@
            &&& final(ctx).OutputSections@[r as int].Members@.len() == 0
            &&& final(ctx).OutputSections@[r as int].Idx == r
            &&& final(ctx).OutputSections@[r as int].Chunk.Shndx == 0
            &&& final(ctx).OutputSections@[r as int].Chunk.Shdr == (Shdr {
                Type: ty,
                Flags: output_flags(flags),
                AddrAlign: 1,
                ..Shdr::zero()
            })
            &&& forall|i: int|
                0 <= i < r ==> output_key(old(ctx).OutputSections@[i]) != (
                    spec_output_name(name@, flags),
                    ty,
                    output_flags(flags),
                )
        },
{
    proof {
        reveal(Context::wf);
        reveal(sections_added);
        lemma_sections_same(*ctx, *ctx);
    }
    let out_name = GetOutputName(name, flags);
    let out_flags: u64 = flags & !OUTPUT_FLAGS_IGNORED;
    match FindOutputSection(&ctx.OutputSections, out_name.as_slice(), ty, out_flags) {
        Some(i) => i,
        None => {
            let idx: usize = ctx.OutputSections.len();
            let osec = OutputSection::new(out_name, ty, out_flags, idx);
            ctx.OutputSections.push(osec);
            proof {
                assert(final(ctx).OutputSections@.subrange(0, idx as int) =~= old(ctx).OutputSections@);
                assert(final(ctx).MergedSections@.subrange(0, old(ctx).MergedSections@.len() as int)
                    =~= old(ctx).MergedSections@);
                assert forall|o: int| 0 <= o < ctx.Objs@.len() implies #[trigger] ctx.object_ok(
                    o,
                ) by {
                    assert(old(ctx).object_ok(o));
                }
            }
            idx
        },
    }
}

/// The larger of two alignments.
pub open spec fn max_align(a: u64, b: u64) -> u64 {
    if a > b {
        a
    } else {
        b
    }
}

/// The segment of type `ty` with the access flags `flags` that the chunk
/// with the header `h` starts: it covers the chunk, in the file where the
/// chunk has bits there, and is aligned as the chunk but at least to
/// `min_align`.
pub open spec fn define_phdr(ty: u32, flags: u32, min_align: u64, h: Shdr) -> Phdr {
    Phdr {
        Type: ty,
        Flags: flags,
        Offset: h.Offset,
        VAddr: h.Addr,
        PAddr: h.Addr,
        FileSize: if h.Type == abi::SHT_NOBITS {
            0
        } else {
            h.Size
        },
        MemSize: h.Size,
        Align: max_align(min_align, h.AddrAlign),
    }
}

/// The segment `p` with the chunk with the header `h` added at its end:
/// it reaches to the end of the chunk in memory, and in the file too where
/// the chunk has bits there, and is aligned at least as the chunk.
/// Addresses wrap around at 2^64.
pub open spec fn push_phdr(p: Phdr, h: Shdr) -> Phdr {
    Phdr {
        Align: max_align(p.Align, h.AddrAlign),
        FileSize: if h.Type != abi::SHT_NOBITS {
            wrap_sub(wrap_add(h.Addr, h.Size), p.VAddr)
        } else {
            p.FileSize
        },
        MemSize: wrap_sub(wrap_add(h.Addr, h.Size), p.VAddr),
        ..p
    }
}

/// What a chunk has to be to go on with a segment.
#[derive(Clone, Copy, Debug, PartialEq, Eq, Structural)]
pub enum RunKind {
    /// A loaded note with these access flags.
    Note(u32),
    /// An allocated chunk with these access flags that has bits in the
    /// file or is thread-local.
    Data(u32),
    /// Zero-initialized data that is not thread-local, with these access
    /// flags.
    Bss(u32),
    /// Thread-local data.
    Tls,
}

/// Whether the chunk with the header `h` goes on with a segment of the
/// kind `kind`.
pub open spec fn continues(kind: RunKind, h: Shdr) -> bool {
    match kind {
        RunKind::Note(f) => is_note(h) && spec_phdr_flags(h) == f,
        RunKind::Data(f) => spec_phdr_flags(h) == f && !is_bss(h),
        RunKind::Bss(f) => is_bss(h) && spec_phdr_flags(h) == f,
        RunKind::Tls => is_tls(h),
    }
}

/// The first position at or behind `from` whose chunk does not go on with
/// a segment of the kind `kind`; the number of chunks where all do.
pub open spec fn run_stop(shdrs: Seq<Shdr>, from: int, kind: RunKind) -> int
    decreases shdrs.len() - from,
{
    if from < 0 || from >= shdrs.len() || !continues(kind, shdrs[from]) {
        from
    } else {
        run_stop(shdrs, from + 1, kind)
    }
}

/// The segment `p` with the chunks from `from` to `to`, `to` left out,
/// added one after the other.
pub open spec fn fold_run(p: Phdr, shdrs: Seq<Shdr>, from: int, to: int) -> Phdr
    decreases to - from,
{
    if to <= from {
        p
    } else {
        push_phdr(fold_run(p, shdrs, from, to - 1), shdrs[to - 1])
    }
}

/// The note segments of the chunks from `i` on: one for every longest run
/// of loaded notes with the same access flags.
pub open spec fn note_segments(shdrs: Seq<Shdr>, i: int) -> Seq<Phdr>
    decreases shdrs.len() - i,
{
    if i < 0 || i >= shdrs.len() {
        Seq::empty()
    } else if !is_note(shdrs[i]) {
        note_segments(shdrs, i + 1)
    } else {
        let f = spec_phdr_flags(shdrs[i]);
        let e = run_stop(shdrs, i + 1, RunKind::Note(f));
        let seg = fold_run(
            define_phdr(abi::PT_NOTE, f, shdrs[i].AddrAlign, shdrs[i]),
            shdrs,
            i + 1,
            e,
        );
        if i < e <= shdrs.len() {
            seq![seg] + note_segments(shdrs, e)
        } else {
            seq![seg]
        }
    }
}

/// The load segments of the chunks from `i` on, up to the first chunk
/// that is not allocated: a segment takes the chunks with the access flags
/// of its first chunk, first those that are not zero-initialized data,
/// then zero-initialized data; it is aligned to a page at least.
pub open spec fn load_segments(shdrs: Seq<Shdr>, i: int) -> Seq<Phdr>
    decreases shdrs.len() - i,
{
    if i < 0 || i >= shdrs.len() || !is_alloc(shdrs[i]) {
        Seq::empty()
    } else {
        let f = spec_phdr_flags(shdrs[i]);
        let e1 = if is_bss(shdrs[i]) {
            i + 1
        } else {
            run_stop(shdrs, i + 1, RunKind::Data(f))
        };
        let e2 = run_stop(shdrs, e1, RunKind::Bss(f));
        let seg = fold_run(define_phdr(abi::PT_LOAD, f, PAGESIZE, shdrs[i]), shdrs, i + 1, e2);
        if i < e2 <= shdrs.len() {
            seq![seg] + load_segments(shdrs, e2)
        } else {
            seq![seg]
        }
    }
}

/// The thread-local segments of the chunks from `i` on: one for every
/// longest run of thread-local chunks.
pub open spec fn tls_segments(shdrs: Seq<Shdr>, i: int) -> Seq<Phdr>
    decreases shdrs.len() - i,
{
    if i < 0 || i >= shdrs.len() {
        Seq::empty()
    } else if !is_tls(shdrs[i]) {
        tls_segments(shdrs, i + 1)
    } else {
        let e = run_stop(shdrs, i + 1, RunKind::Tls);
        let seg = fold_run(
            define_phdr(abi::PT_TLS, spec_phdr_flags(shdrs[i]), 1, shdrs[i]),
            shdrs,
            i + 1,
            e,
        );
        if i < e <= shdrs.len() {
            seq![seg] + tls_segments(shdrs, e)
        } else {
            seq![seg]
        }
    }
}

/// The program headers of an output whose table of program headers has
/// the header `phdr` and whose chunks have the headers `shdrs`: the
/// segment of the table itself, read-only and aligned to 8; the note
/// segments; the load segments; and the thread-local segments.
pub open spec fn all_phdrs(phdr: Shdr, shdrs: Seq<Shdr>) -> Seq<Phdr> {
    seq![define_phdr(abi::PT_PHDR, abi::PF_R, 8, phdr)] + note_segments(shdrs, 0) + load_segments(
        shdrs,
        0,
    ) + tls_segments(shdrs, 0)
}

/// The thread pointer: the address of the last thread-local segment, `tp`
/// where there is none.
pub open spec fn tp_addr(shdrs: Seq<Shdr>, tp: u64) -> u64 {
    let t = tls_segments(shdrs, 0);
    if t.len() == 0 {
        tp
    } else {
        t[t.len() - 1].VAddr
    }
}

proof fn lemma_run_stop_bounds(shdrs: Seq<Shdr>, from: int, kind: RunKind)
    requires
        0 <= from <= shdrs.len(),
    ensures
        from <= run_stop(shdrs, from, kind) <= shdrs.len(),
    decreases shdrs.len() - from,
{
    if from < shdrs.len() && continues(kind, shdrs[from]) {
        lemma_run_stop_bounds(shdrs, from + 1, kind);
    }
}

/// The segment that the chunk with the header `h` starts.
pub fn DefinePhdr(ty: u32, flags: u32, min_align: u64, h: &Shdr) -> (r: Phdr)
    ensures
        r == define_phdr(ty, flags, min_align, *h),
{
    Phdr {
        Type: ty,
        Flags: flags,
        Offset: h.Offset,
        VAddr: h.Addr,
        PAddr: h.Addr,
        FileSize: if h.Type == abi::SHT_NOBITS {
            0
        } else {
            h.Size
        },
        MemSize: h.Size,
        Align: if min_align > h.AddrAlign {
            min_align
        } else {
            h.AddrAlign
        },
    }
}

/// Adds the chunk with the header `h` at the end of the segment `p`.
pub fn PushPhdr(p: &mut Phdr, h: &Shdr)
    ensures
        *final(p) == push_phdr(*old(p), *h),
{
    if h.AddrAlign > p.Align {
        p.Align = h.AddrAlign;
    }
    let end: u64 = h.Addr.wrapping_add(h.Size).wrapping_sub(p.VAddr);
    if h.Type != abi::SHT_NOBITS {
        p.FileSize = end;
    }
    p.MemSize = end;
}

/// Whether the chunk with the header `h` goes on with a segment of the
/// kind `kind`.
pub fn Continues(kind: RunKind, h: &Shdr) -> (r: bool)
    ensures
        r == continues(kind, *h),
{
    match kind {
        RunKind::Note(f) => IsNoteShdr(h) && PhdrFlagsOf(h) == f,
        RunKind::Data(f) => PhdrFlagsOf(h) == f && !IsBssShdr(h),
        RunKind::Bss(f) => IsBssShdr(h) && PhdrFlagsOf(h) == f,
        RunKind::Tls => IsTlsShdr(h),
    }
}

/// Adds to the segment `p` the chunks from `from` on that go on with a
/// segment of the kind `kind` and returns the position of the first that
/// does not.
fn ExtendRun(p: &mut Phdr, shdrs: &Vec<Shdr>, from: usize, kind: RunKind) -> (r: usize)
    requires
        from <= shdrs@.len(),
    ensures
        r == run_stop(shdrs@, from as int, kind),
        from <= r <= shdrs@.len(),
        *final(p) == fold_run(*old(p), shdrs@, from as int, r as int),
{
    let n: usize = shdrs.len();
    let mut i: usize = from;
    while i < n && Continues(kind, &shdrs[i])
        invariant
            from <= i <= n,
            n == shdrs@.len(),
            run_stop(shdrs@, from as int, kind) == run_stop(shdrs@, i as int, kind),
            *p == fold_run(*old(p), shdrs@, from as int, i as int),
        decreases n - i,
    {
        PushPhdr(p, &shdrs[i]);
        i = i + 1;
    }
    i
}

/// Folding chunks into a segment can be done in two stretches.
proof fn lemma_fold_run_split(p: Phdr, shdrs: Seq<Shdr>, from: int, mid: int, to: int)
    requires
        from <= mid <= to,
    ensures
        fold_run(fold_run(p, shdrs, from, mid), shdrs, mid, to) == fold_run(p, shdrs, from, to),
    decreases to - mid,
{
    if mid < to {
        lemma_fold_run_split(p, shdrs, from, mid, to - 1);
    }
}

/// The program headers of an output whose table of program headers has
/// the header `phdr` and whose chunks have the headers `shdrs`.
pub fn BuildPhdrs(phdr: &Shdr, shdrs: &Vec<Shdr>) -> (r: Vec<Phdr>)
    ensures
        r@ == all_phdrs(*phdr, shdrs@),
{
    let n: usize = shdrs.len();
    let mut out: Vec<Phdr> = Vec::new();
    out.push(DefinePhdr(abi::PT_PHDR, abi::PF_R, 8, phdr));
    let ghost head = out@;
    assert(head =~= seq![define_phdr(abi::PT_PHDR, abi::PF_R, 8, *phdr)]);
    let mut i: usize = 0;
    assert(out@ + note_segments(shdrs@, 0) =~= head + note_segments(shdrs@, 0));
    while i < n
        invariant
            i <= n,
            n == shdrs@.len(),
            out@ + note_segments(shdrs@, i as int) == head + note_segments(shdrs@, 0),
        decreases n - i,
    {
        let first = shdrs[i];
        if !IsNoteShdr(&first) {
            i = i + 1;
        } else {
            let flags: u32 = PhdrFlagsOf(&first);
            let mut seg = DefinePhdr(abi::PT_NOTE, flags, first.AddrAlign, &first);
            let e = ExtendRun(&mut seg, shdrs, i + 1, RunKind::Note(flags));
            let ghost before = out@;
            out.push(seg);
            proof {
                assert(before + (seq![seg] + note_segments(shdrs@, e as int)) =~= out@
                    + note_segments(shdrs@, e as int));
                if e >= n {
                    assert(seq![seg] + note_segments(shdrs@, e as int) =~= seq![seg]);
                }
            }
            i = e;
        }
    }
    let ghost notes = out@;
    assert(notes =~= head + note_segments(shdrs@, 0));
    i = 0;
    assert(out@ + load_segments(shdrs@, 0) =~= notes + load_segments(shdrs@, 0));
    while i < n && IsAllocShdr(&shdrs[i])
        invariant
            i <= n,
            n == shdrs@.len(),
            out@ + load_segments(shdrs@, i as int) == notes + load_segments(shdrs@, 0),
        decreases n - i,
    {
        let first = shdrs[i];
        let flags: u32 = PhdrFlagsOf(&first);
        let mut seg = DefinePhdr(abi::PT_LOAD, flags, PAGESIZE, &first);
        let ghost seg0 = seg;
        let mut e: usize = i + 1;
        if !IsBssShdr(&first) {
            e = ExtendRun(&mut seg, shdrs, i + 1, RunKind::Data(flags));
        }
        let ghost e1 = e;
        let e2 = ExtendRun(&mut seg, shdrs, e, RunKind::Bss(flags));
        let ghost before = out@;
        out.push(seg);
        proof {
            lemma_fold_run_split(seg0, shdrs@, i + 1, e1 as int, e2 as int);
            assert(before + (seq![seg] + load_segments(shdrs@, e2 as int)) =~= out@ + load_segments(
                shdrs@,
                e2 as int,
            ));
            if e2 >= n {
                assert(seq![seg] + load_segments(shdrs@, e2 as int) =~= seq![seg]);
            }
        }
        i = e2;
    }
    let ghost loads = out@;
    assert(loads =~= notes + load_segments(shdrs@, 0)) by {
        assert(load_segments(shdrs@, i as int) =~= Seq::<Phdr>::empty());
    }
    i = 0;
    assert(out@ + tls_segments(shdrs@, 0) =~= loads + tls_segments(shdrs@, 0));
    while i < n
        invariant
            i <= n,
            n == shdrs@.len(),
            out@ + tls_segments(shdrs@, i as int) == loads + tls_segments(shdrs@, 0),
        decreases n - i,
    {
        let first = shdrs[i];
        if !IsTlsShdr(&first) {
            i = i + 1;
        } else {
            let mut seg = DefinePhdr(abi::PT_TLS, PhdrFlagsOf(&first), 1, &first);
            let e = ExtendRun(&mut seg, shdrs, i + 1, RunKind::Tls);
            let ghost before = out@;
            out.push(seg);
            proof {
                assert(before + (seq![seg] + tls_segments(shdrs@, e as int)) =~= out@
                    + tls_segments(shdrs@, e as int));
                if e >= n {
                    assert(seq![seg] + tls_segments(shdrs@, e as int) =~= seq![seg]);
                }
            }
            i = e;
        }
    }
    assert(out@ =~= loads + tls_segments(shdrs@, 0));
    out
}

/// The address of the last thread-local segment among the chunks with
/// the headers `shdrs`; `tp` where there is none.
pub fn TpAddrOf(shdrs: &Vec<Shdr>, tp: u64) -> (r: u64)
    ensures
        r == tp_addr(shdrs@, tp),
{
    let n: usize = shdrs.len();
    let mut i: usize = 0;
    let mut cur: u64 = tp;
    let ghost mut seen: Seq<Phdr> = Seq::empty();
    assert(seen + tls_segments(shdrs@, 0) =~= tls_segments(shdrs@, 0));
    while i < n
        invariant
            i <= n,
            n == shdrs@.len(),
            seen + tls_segments(shdrs@, i as int) == tls_segments(shdrs@, 0),
            cur == (if seen.len() == 0 {
                tp
            } else {
                seen[seen.len() - 1].VAddr
            }),
        decreases n - i,
    {
        let first = shdrs[i];
        if !IsTlsShdr(&first) {
            i = i + 1;
        } else {
            let mut seg = DefinePhdr(abi::PT_TLS, PhdrFlagsOf(&first), 1, &first);
            let ghost seg0 = seg;
            let e = ExtendRun(&mut seg, shdrs, i + 1, RunKind::Tls);
            proof {
                lemma_fold_keeps_vaddr(seg0, shdrs@, i + 1, e as int);
                let before = seen;
                seen = seen.push(seg);
                assert(before + (seq![seg] + tls_segments(shdrs@, e as int)) =~= seen
                    + tls_segments(shdrs@, e as int));
                if e >= n {
                    assert(seq![seg] + tls_segments(shdrs@, e as int) =~= seq![seg]);
                }
            }
            cur = first.Addr;
            i = e;
        }
    }
    assert(seen =~= tls_segments(shdrs@, 0));
    cur
}

/// Adding chunks to a segment does not move its start.
proof fn lemma_fold_keeps_vaddr(p: Phdr, shdrs: Seq<Shdr>, from: int, to: int)
    ensures
        fold_run(p, shdrs, from, to).VAddr == p.VAddr,
        fold_run(p, shdrs, from, to).Type == p.Type,
        fold_run(p, shdrs, from, to).Flags == p.Flags,
        fold_run(p, shdrs, from, to).Offset == p.Offset,
    decreases to - from,
{
    if to > from {
        lemma_fold_keeps_vaddr(p, shdrs, from, to - 1);
    }
}

/// Makes the program headers of the output from the chunks as they are
/// placed, and sets the thread pointer to the address of the last
/// thread-local segment.
pub fn createPhdr(ctx: &mut Context) -> (r: Vec<Phdr>)
    requires
        old(ctx).wf(),
    ensures
        final(ctx).wf(),
        *final(ctx) == (Context { TpAddr: final(ctx).TpAddr, ..*old(ctx) }),
        r@ == all_phdrs(old(ctx).Phdr.Chunk.Shdr, old(ctx).chunk_shdrs()),
        final(ctx).TpAddr == tp_addr(old(ctx).chunk_shdrs(), old(ctx).TpAddr),
{
    proof {
        crate::linker::context::lemma_wf_parts(*ctx);
    }
    let shdrs = ctx.ChunkShdrs();
    let phdrs = BuildPhdrs(&ctx.Phdr.Chunk.Shdr, &shdrs);
    ctx.TpAddr = TpAddrOf(&shdrs, ctx.TpAddr);
    proof {
        reveal(Context::wf);
        assert forall|o: int| 0 <= o < ctx.Objs@.len() implies #[trigger] ctx.object_ok(o) by {
            assert(old(ctx).object_ok(o));
        }
    }
    phdrs
}

/// `.text`
pub open spec fn TEXT_NAME() -> Seq<u8> {
    seq![0x2eu8, 0x74, 0x65, 0x78, 0x74]
}

/// The address of the first of the first `upto` output sections that is
/// called `.text`; 0 where none is.
pub open spec fn spec_entry_addr(secs: Seq<OutputSection>, from: int) -> u64
    decreases secs.len() - from,
{
    if from < 0 || from >= secs.len() {
        0
    } else if secs[from].Chunk.Name@ == TEXT_NAME() {
        secs[from].Chunk.Shdr.Addr
    } else {
        spec_entry_addr(secs, from + 1)
    }
}

/// The address at which the program starts: the address of the output
/// section `.text`, 0 where the output has none.
pub fn GetEntryAddr(ctx: &Context) -> (r: u64)
    ensures
        r == spec_entry_addr(ctx.OutputSections@, 0),
{
    let text: Vec<u8> = vec![0x2eu8, 0x74, 0x65, 0x78, 0x74];
    assert(text@ =~= TEXT_NAME());
    let n: usize = ctx.OutputSections.len();
    let mut i: usize = 0;
    while i < n
        invariant
            i <= n,
            n == ctx.OutputSections@.len(),
            text@ == TEXT_NAME(),
            spec_entry_addr(ctx.OutputSections@, 0) == spec_entry_addr(
                ctx.OutputSections@,
                i as int,
            ),
        decreases n - i,
    {
        if BytesEq(ctx.OutputSections[i].Chunk.Name.as_slice(), text.as_slice()) {
            return ctx.OutputSections[i].Chunk.Shdr.Addr;
        }
        i = i + 1;
    }
    0
}

/// The processor flags of the first `upto` objects together: every flag
/// that one of them sets.
pub open spec fn spec_flags(objs: Seq<crate::linker::objectfile::Objectfile>, upto: int) -> u32
    decreases upto,
{
    if upto <= 0 {
        0
    } else {
        spec_flags(objs, upto - 1) | objs[upto - 1].inputFile.Ehdr.Flags
    }
}

/// The processor flags of the output: every flag that one of the objects
/// sets, and so the flag for compressed instructions where one object uses
/// them.
pub fn GetFlags(ctx: &Context) -> (r: u32)
    ensures
        r == spec_flags(ctx.Objs@, ctx.Objs@.len() as int),
{
    let n: usize = ctx.Objs.len();
    let mut flags: u32 = 0;
    let mut i: usize = 0;
    while i < n
        invariant
            i <= n,
            n == ctx.Objs@.len(),
            flags == spec_flags(ctx.Objs@, i as int),
        decreases n - i,
    {
        flags = flags | ctx.Objs[i].inputFile.GetEhdr().Flags;
        i = i + 1;
    }
    flags
}

/// The flag for compressed instructions is set in the flags of the first
/// `upto` objects wherever one of them sets it.
pub proof fn lemma_flags_keep_rvc(objs: Seq<crate::linker::objectfile::Objectfile>, upto: int, o: int)
    requires
        0 <= o < upto <= objs.len(),
        objs[o].inputFile.Ehdr.Flags & abi::EF_RISCV_RVC != 0,
    ensures
        spec_flags(objs, upto) & abi::EF_RISCV_RVC != 0,
    decreases upto,
{
    let a = spec_flags(objs, upto - 1);
    let b = objs[upto - 1].inputFile.Ehdr.Flags;
    if o < upto - 1 {
        lemma_flags_keep_rvc(objs, upto - 1, o);
        assert((a | b) & 1 != 0) by (bit_vector)
            requires
                a & 1 != 0,
        ;
    } else {
        assert((a | b) & 1 != 0) by (bit_vector)
            requires
                b & 1 != 0,
        ;
    }
}

/// The largest index in the table of section headers among the first
/// `upto` chunks; 0 without chunks.
pub open spec fn max_shndx(ctx: Context, upto: int) -> int
    decreases upto,
{
    if upto <= 0 {
        0
    } else {
        let m = max_shndx(ctx, upto - 1);
        let x = ctx.chunk_of(ctx.Chunks@[upto - 1]).Shndx as int;
        if x > m {
            x
        } else {
            m
        }
    }
}

impl OutputShdr {
    /// Sets the size of the table of section headers: one header for every
    /// index up to the largest that a chunk has, and one for index 0.
    /// Nothing changes where that size does not fit in 64 bits.
    pub fn UpdateShdr(ctx: &mut Context) -> (r: Result<(), LinkError>)
        requires
            old(ctx).wf(),
        ensures
            final(ctx).wf(),
            r is Ok <==> (max_shndx(*old(ctx), old(ctx).Chunks@.len() as int) + 1) * 64 <= u64::MAX,
            r is Ok ==> *final(ctx) == (Context {
                Shdr: OutputShdr {
                    Chunk: Chunk {
                        Shdr: Shdr {
                            Size: ((max_shndx(*old(ctx), old(ctx).Chunks@.len() as int) + 1)
                                * 64) as u64,
                            ..old(ctx).Shdr.Chunk.Shdr
                        },
                        ..old(ctx).Shdr.Chunk
                    },
                },
                ..*old(ctx)
            }),
            r is Err ==> r == Err::<(), LinkError>(LinkError::TooLarge) && *final(ctx) == *old(ctx),
    {
        proof {
            crate::linker::context::lemma_wf_parts(*ctx);
        }
        let n: usize = ctx.Chunks.len();
        let mut m: usize = 0;
        let mut k: usize = 0;
        while k < n
            invariant
                k <= n,
                n == ctx.Chunks@.len(),
                *ctx == *old(ctx),
                ctx.chunks_ok(),
                m == max_shndx(*ctx, k as int),
            decreases n - k,
        {
            let id = ctx.Chunks[k];
            assert(ctx.has_chunk(id));
            let x: usize = ctx.ChunkShndx(id);
            if x > m {
                m = x;
            }
            k = k + 1;
        }
        if m as u64 >= u64::MAX / 64 {
            return Err(LinkError::TooLarge);
        }
        ctx.Shdr.Chunk.Shdr.Size = (m as u64 + 1) * 64;
        proof {
            crate::linker::context::lemma_wf_frame(*old(ctx), *ctx);
        }
        Ok(())
    }
}

impl OutputPhdr {
    /// Makes the program headers anew from the chunks as they are placed
    /// and sets the size of their table; sets the thread pointer with
    /// them.
    pub fn UpdateShdr(ctx: &mut Context)
        requires
            old(ctx).wf(),
        ensures
            final(ctx).wf(),
            *final(ctx) == (Context {
                TpAddr: final(ctx).TpAddr,
                Phdr: final(ctx).Phdr,
                ..*old(ctx)
            }),
            final(ctx).TpAddr == tp_addr(old(ctx).chunk_shdrs(), old(ctx).TpAddr),
            final(ctx).Phdr.Phdrs@ == all_phdrs(old(ctx).Phdr.Chunk.Shdr, old(ctx).chunk_shdrs()),
            final(ctx).Phdr.Chunk == (Chunk {
                Shdr: Shdr { Size: final(ctx).Phdr.Chunk.Shdr.Size, ..old(ctx).Phdr.Chunk.Shdr },
                ..old(ctx).Phdr.Chunk
            }),
            final(ctx).Phdr.Phdrs@.len() * 56 <= u64::MAX ==> final(ctx).Phdr.Chunk.Shdr.Size
                == final(ctx).Phdr.Phdrs@.len() * 56,
            final(ctx).Phdr.Phdrs@.len() * 56 > u64::MAX ==> final(ctx).Phdr.Chunk.Shdr.Size
                == old(ctx).Phdr.Chunk.Shdr.Size,
    {
        let phdrs = createPhdr(ctx);
        let ghost mid = *ctx;
        let n: usize = phdrs.len();
        ctx.Phdr.Phdrs = phdrs;
        if n as u64 <= u64::MAX / 56 {
            ctx.Phdr.Chunk.Shdr.Size = n as u64 * 56;
        }
        proof {
            crate::linker::context::lemma_wf_frame(mid, *ctx);
        }
    }
}

} // verus!
