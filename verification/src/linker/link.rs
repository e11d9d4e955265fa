//! The link as a whole: the passes in their order.
use vstd::prelude::*;
use crate::linker::context::{Context, lemma_wf_parts, lemma_wf_frame, lemma_grows_no_members, no_members};
use crate::linker::elf::{MAGIC, checkMagic, MachineType, Ehdr, Shdr, Sym};
use crate::linker::error::LinkError;
use crate::linker::file::{File, InputFile, ReadInputFiles, inputs_result};
use crate::linker::layout::{
    BinSections, CollectOutputSections, ComputeMergedSectionSizes, ComputeSectionSizes,
    CreateSyntheticSections, SetOutputSectionOffsets, SortOutputSections, binned_ok,
    chunks_distinct, filled_merged, filled_outputs, is_rank_order, lemma_well_placed_sizes,
    sizes_apart, well_placed,
};
use crate::linker::mergedsection::MergedSection;
use crate::linker::objectfile::Objectfile;
use crate::linker::output::{ChunkId, OutputEhdr, OutputPhdr, OutputSection, OutputShdr, max_shndx};
use crate::linker::passes::{ConvertCommonSymbols, RegisterSectionPieces, ResolveSymbols};
use crate::linker::stages::{
    Arranged, Gathered, Placed, arranged, binned_stage, chunked_stage, commons_stage, emitted,
    gathered, header_updated, headers_stage, image, internal_stage, linked, merged_stage,
    pieces_stage, placed_stage, read_stage, resolved_stage, sized_stage, sorted_stage,
    synthetic_stage, tables_resized, update_run,
};
use crate::linker::symbol::{Symbol, SymbolId};
use crate::utils::{starts_with, overwrite};

verus! {

/// Puts an object of the linker's own at the end of the objects: alive,
/// without sections, with the one symbol that every symbol table starts
/// with.
pub fn CreateInternalFile(ctx: &mut Context)
    requires
        old(ctx).wf(),
    ensures
        final(ctx).wf(),
        final(ctx).grows_from(*old(ctx)),
        *final(ctx) == (Context { Objs: final(ctx).Objs, ..*old(ctx) }),
        final(ctx).Objs@.len() == old(ctx).Objs@.len() + 1,
        final(ctx).Objs@.subrange(0, old(ctx).Objs@.len() as int) == old(ctx).Objs@,
        ({
            let obj = final(ctx).Objs@[old(ctx).Objs@.len() as int];
            &&& obj.inputFile.IsAlive
            &&& obj.Sections@.len() == 0
            &&& obj.MergeableSections@.len() == 0
            &&& obj.inputFile.FirstGlobal == 1
            &&& obj.inputFile.ElfSyms@.len() == 1
            &&& obj.inputFile.File.Contents@.len() == 0
            &&& !obj.hasCommon
        }),
{
    let o: usize = ctx.Objs.len();
    let mut placeholder = Symbol::new(Vec::new().as_slice());
    placeholder.File = Some(o);
    let mut locals: Vec<Symbol> = Vec::new();
    locals.push(placeholder);
    let mut ids: Vec<SymbolId> = Vec::new();
    ids.push(SymbolId::Local(0));
    let mut esyms: Vec<Sym> = Vec::new();
    esyms.push(Sym { Name: 0, Info: 0, Other: 0, Shndx: 0, Val: 0, Size: 0 });
    let obj = Objectfile {
        hasCommon: false,
        inputFile: InputFile {
            File: File::new(Vec::new(), Vec::new(), None),
            Ehdr: Ehdr::zero(),
            ElfSections: Vec::new(),
            ElfSections2: Vec::new(),
            ElfSyms: esyms,
            FirstGlobal: 1,
            Shstrtab: Vec::new(),
            SymbolStrTab: Vec::new(),
            IsAlive: true,
            Symbols: ids,
            LocalSymbols: locals,
        },
        SymTabSec: None,
        SymtabShndxSec: Vec::new(),
        Sections: Vec::new(),
        MergeableSections: Vec::new(),
    };
    let ghost before = *ctx;
    ctx.Objs.push(obj);
    proof {
        reveal(Context::wf);
        crate::linker::context::lemma_grows_trans(before, before, before);
        assert(ctx.Objs@.subrange(0, o as int) =~= old(ctx).Objs@);
        assert forall|k: int| 0 <= k < ctx.Objs@.len() implies #[trigger] ctx.object_ok(k) by {
            if k < o {
                assert(before.object_ok(k));
                assert(ctx.Objs@[k] == before.Objs@[k]);
            } else {
                assert(obj.shape_ok());
                assert(ctx.local_ok(obj, k, obj.inputFile.LocalSymbols@[0]));
            }
        }
        assert forall|g: int| 0 <= g < ctx.SymbolMap@.len() implies ctx.symbol_ok(
            #[trigger] ctx.SymbolMap@[g],
        ) by {
            assert(before.symbol_ok(before.SymbolMap@[g]));
            let sym = ctx.SymbolMap@[g];
            if let Some(s) = sym.InputSection {
                assert(before.section_exists(sym.File.unwrap() as int, s as int));
                assert(ctx.Objs@[sym.File.unwrap() as int] == before.Objs@[sym.File.unwrap() as int]);
            }
        }
        assert forall|i: int, k: int|
            0 <= i < ctx.OutputSections@.len() && 0 <= k
                < ctx.OutputSections@[i].Members@.len() implies ctx.section_exists(
            (#[trigger] ctx.OutputSections@[i].Members@[k]).Obj as int,
            ctx.OutputSections@[i].Members@[k].Sec as int,
        ) by {
            let m = ctx.OutputSections@[i].Members@[k];
            assert(before.section_exists(m.Obj as int, m.Sec as int));
            assert(ctx.Objs@[m.Obj as int] == before.Objs@[m.Obj as int]);
        }
    }
}

/// Whether the tables of section headers and of program headers are as
/// long as a whole number of their entries.
pub open spec fn whole_tables(ctx: Context) -> bool {
    ctx.Shdr.Chunk.Shdr.Size % 64 == 0 && ctx.Phdr.Chunk.Shdr.Size % 56 == 0
}

/// Brings the section header of the chunk `id` up to date before the
/// chunk is placed or written: the table of section headers gets its
/// size, the table of program headers is made anew and gets its size;
/// every other chunk stays as it is.
pub fn UpdateShdr(ctx: &mut Context, id: ChunkId) -> (r: Result<(), LinkError>)
    requires
        old(ctx).wf(),
    ensures
        final(ctx).wf(),
        header_updated(*old(ctx), id, r, *final(ctx)),
        whole_tables(*old(ctx)) ==> whole_tables(*final(ctx)),
{
    match id {
        ChunkId::Shdr => {
            let r = OutputShdr::UpdateShdr(ctx);
            proof {
                let n = max_shndx(*old(ctx), old(ctx).Chunks@.len() as int) + 1;
                vstd::arithmetic::div_mod::lemma_mod_multiples_basic(n, 64);
            }
            r
        },
        ChunkId::Phdr => {
            OutputPhdr::UpdateShdr(ctx);
            proof {
                vstd::arithmetic::div_mod::lemma_mod_multiples_basic(
                    ctx.Phdr.Phdrs@.len() as int,
                    56,
                );
            }
            Ok(())
        },
        _ => Ok(()),
    }
}

/// Writes the chunk `id` into `buf`: the file header at the start, a
/// table of headers at its file offset, a section with its members or
/// pieces behind its file offset. The table of addresses relative to the
/// thread pointer writes nothing.
pub fn CopyBuf(ctx: &Context, id: ChunkId, buf: &mut Vec<u8>) -> (r: Result<(), LinkError>)
    requires
        ctx.wf(),
        ctx.has_chunk(id),
    ensures
        final(buf)@.len() == old(buf)@.len(),
        match ctx.chunk_written(id, old(buf)@) {
            Ok(b) => r is Ok && final(buf)@ == b,
            Err(e) => r == Err::<(), LinkError>(e),
        },
        id == ChunkId::Ehdr && r is Ok ==> starts_with(final(buf)@, MAGIC()),
{
    match id {
        ChunkId::Ehdr => OutputEhdr::CopyBuf(ctx, buf),
        ChunkId::Phdr => ctx.Phdr.CopyBuf(buf),
        ChunkId::Shdr => OutputShdr::CopyBuf(ctx, buf),
        ChunkId::Got => Ok(()),
        ChunkId::Output(i) => OutputSection::CopyBuf(ctx, i, buf),
        ChunkId::Merged(m) => ctx.MergedSections[m].CopyBuf(buf),
    }
}

/// A buffer of `n` zero bytes.
pub fn Zeros(n: usize) -> (r: Vec<u8>)
    ensures
        r@ == Seq::new(n as nat, |i: int| 0u8),
{
    let mut out: Vec<u8> = Vec::with_capacity(n);
    let mut i: usize = 0;
    while i < n
        invariant
            i <= n,
            out@.len() == i,
            forall|j: int| 0 <= j < i ==> out@[j] == 0,
        decreases n - i,
    {
        out.push(0);
        i = i + 1;
    }
    assert(out@ =~= Seq::new(n as nat, |i: int| 0u8));
    out
}

proof fn lemma_filled_outputs(secs: Seq<OutputSection>, upto: int)
    requires
        0 <= upto <= secs.len(),
        upto <= usize::MAX,
    ensures
        forall|k: int|
            0 <= k < filled_outputs(secs, upto).len() ==> ((
            #[trigger] filled_outputs(secs, upto)[k]) matches ChunkId::Output(i) && i < upto),
        forall|a: int, b: int|
            0 <= a < b < filled_outputs(secs, upto).len() ==> filled_outputs(secs, upto)[a]
                != filled_outputs(secs, upto)[b],
    decreases upto,
{
    if upto > 0 {
        lemma_filled_outputs(secs, upto - 1);
        let p = filled_outputs(secs, upto - 1);
        let f = filled_outputs(secs, upto);
        assert forall|a: int, b: int| 0 <= a < b < f.len() implies f[a] != f[b] by {
            if b < p.len() {
                assert(f[a] == p[a] && f[b] == p[b]);
            } else {
                assert(f[a] == p[a]);
                assert(p[a] matches ChunkId::Output(i) && i < upto - 1);
            }
        }
    }
}

proof fn lemma_filled_merged(secs: Seq<MergedSection>, upto: int)
    requires
        0 <= upto <= secs.len(),
        upto <= usize::MAX,
    ensures
        forall|k: int|
            0 <= k < filled_merged(secs, upto).len() ==> ((
            #[trigger] filled_merged(secs, upto)[k]) matches ChunkId::Merged(i) && i < upto),
        forall|a: int, b: int|
            0 <= a < b < filled_merged(secs, upto).len() ==> filled_merged(secs, upto)[a]
                != filled_merged(secs, upto)[b],
    decreases upto,
{
    if upto > 0 {
        lemma_filled_merged(secs, upto - 1);
        let p = filled_merged(secs, upto - 1);
        let f = filled_merged(secs, upto);
        assert forall|a: int, b: int| 0 <= a < b < f.len() implies f[a] != f[b] by {
            if b < p.len() {
                assert(f[a] == p[a] && f[b] == p[b]);
            } else {
                assert(f[a] == p[a]);
                assert(p[a] matches ChunkId::Merged(i) && i < upto - 1);
            }
        }
    }
}

/// Puts the chunks that carry the data of the output behind the chunks
/// that the list of chunks holds: every output section that has members,
/// then every merged section that has a size.
pub fn AddOutputChunks(ctx: &mut Context)
    requires
        old(ctx).wf(),
        old(ctx).Chunks@ == seq![ChunkId::Ehdr, ChunkId::Phdr, ChunkId::Shdr],
    ensures
        final(ctx).wf(),
        *final(ctx) == (Context { Chunks: final(ctx).Chunks, ..*old(ctx) }),
        final(ctx).Chunks@ == old(ctx).Chunks@ + filled_outputs(
            old(ctx).OutputSections@,
            old(ctx).OutputSections@.len() as int,
        ) + filled_merged(old(ctx).MergedSections@, old(ctx).MergedSections@.len() as int),
        chunks_distinct(*final(ctx)),
{
    let mut chunks = CollectOutputSections(ctx);
    let ghost added = chunks@;
    let nout: usize = ctx.OutputSections.len();
    let nm: usize = ctx.MergedSections.len();
    ctx.Chunks.append(&mut chunks);
    proof {
        reveal(Context::wf);
        let fo = filled_outputs(ctx.OutputSections@, nout as int);
        let fm = filled_merged(ctx.MergedSections@, nm as int);
        lemma_filled_outputs(ctx.OutputSections@, nout as int);
        lemma_filled_merged(ctx.MergedSections@, nm as int);
        assert(ctx.Chunks@ =~= old(ctx).Chunks@ + fo + fm);
        assert forall|o: int| 0 <= o < ctx.Objs@.len() implies #[trigger] ctx.object_ok(o) by {
            assert(old(ctx).object_ok(o));
        }
        assert forall|k: int| 0 <= k < ctx.Chunks@.len() implies match #[trigger] ctx.Chunks@[k] {
            ChunkId::Output(i) => i < ctx.OutputSections@.len(),
            ChunkId::Merged(m) => m < ctx.MergedSections@.len(),
            _ => true,
        } by {
            if k < 3 {
            } else if k < 3 + fo.len() {
                assert(ctx.Chunks@[k] == fo[k - 3]);
            } else {
                assert(ctx.Chunks@[k] == fm[k - 3 - fo.len()]);
            }
        }
        assert forall|a: int, b: int| 0 <= a < b < ctx.Chunks@.len() implies ctx.Chunks@[a]
            != ctx.Chunks@[b] by {
            let ca = ctx.Chunks@[a];
            let cb = ctx.Chunks@[b];
            if a >= 3 && a < 3 + fo.len() {
                assert(ca == fo[a - 3]);
            }
            if a >= 3 + fo.len() {
                assert(ca == fm[a - 3 - fo.len()]);
            }
            if b >= 3 && b < 3 + fo.len() {
                assert(cb == fo[b - 3]);
            }
            if b >= 3 + fo.len() {
                assert(cb == fm[b - 3 - fo.len()]);
            }
        }
    }
}

/// What writing the chunks gives does not depend on the buffer, the
/// arguments and the thread pointer of the context.
proof fn lemma_written_frame(a: Context, b: Context, buf: Seq<u8>, upto: int)
    requires
        b == (Context { Buf: b.Buf, ..a }),
        0 <= upto <= a.Chunks@.len(),
    ensures
        a.chunks_written(buf, upto) == b.chunks_written(buf, upto),
    decreases upto,
{
    if upto > 0 {
        lemma_written_frame(a, b, buf, upto - 1);
        let id = a.Chunks@[upto - 1];
        match a.chunks_written(buf, upto - 1) {
            Ok(x) => {
                lemma_chunk_written_frame(a, b, id, x);
            },
            Err(e) => {},
        }
    }
}

proof fn lemma_chunk_written_frame(a: Context, b: Context, id: ChunkId, buf: Seq<u8>)
    requires
        b == (Context { Buf: b.Buf, ..a }),
    ensures
        a.chunk_written(id, buf) == b.chunk_written(id, buf),
{
    match id {
        ChunkId::Ehdr => {
            assert(a.ehdr_bytes() == b.ehdr_bytes());
        },
        ChunkId::Shdr => {
            lemma_shdrs_frame(a, b, buf.len() as int, a.Chunks@.len() as int,
                overwrite(buf, a.Shdr.Chunk.Shdr.Offset as int, crate::linker::elf::Shdr::zero().bytes()));
        },
        ChunkId::Output(i) => {
            lemma_members_frame(a, b, i as int, buf, a.OutputSections@[i as int].Members@.len() as int);
        },
        _ => {},
    }
}

proof fn lemma_shdrs_frame(a: Context, b: Context, len: int, upto: int, buf: Seq<u8>)
    requires
        b == (Context { Buf: b.Buf, ..a }),
    ensures
        a.shdrs_written(buf, a.Shdr.Chunk.Shdr.Offset as int, upto) == b.shdrs_written(
            buf,
            a.Shdr.Chunk.Shdr.Offset as int,
            upto,
        ),
        a.shdrs_fit(len, a.Shdr.Chunk.Shdr.Offset as int, upto) == b.shdrs_fit(
            len,
            a.Shdr.Chunk.Shdr.Offset as int,
            upto,
        ),
    decreases upto,
{
    if upto > 0 {
        lemma_shdrs_frame(a, b, len, upto - 1, buf);
        assert(a.chunk_of(a.Chunks@[upto - 1]) == b.chunk_of(b.Chunks@[upto - 1]));
    }
    assert forall|k: int| a.chunk_of(a.Chunks@[k]) == b.chunk_of(b.Chunks@[k]) by {}
}

proof fn lemma_members_frame(a: Context, b: Context, i: int, buf: Seq<u8>, upto: int)
    requires
        b == (Context { Buf: b.Buf, ..a }),
    ensures
        a.members_written(i, buf, upto) == b.members_written(i, buf, upto),
    decreases upto,
{
    if upto > 0 {
        lemma_members_frame(a, b, i, buf, upto - 1);
        match a.members_written(i, buf, upto - 1) {
            Ok(x) => {
                let m = a.OutputSections@[i].Members@[upto - 1];
                let sec = a.Objs@[m.Obj as int].Sections@[m.Sec as int].unwrap();
                let base = a.OutputSections@[i].Chunk.Shdr.Offset + sec.Offset;
                lemma_section_frame(a, b, m.Obj as int, m.Sec as int, x, base);
            },
            Err(e) => {},
        }
    }
}

proof fn lemma_section_frame(a: Context, b: Context, o: int, s: int, buf: Seq<u8>, base: int)
    requires
        b == (Context { Buf: b.Buf, ..a }),
    ensures
        a.section_written(o, s, buf, base) == b.section_written(o, s, buf, base),
{
    let sec = a.Objs@[o].Sections@[s].unwrap();
    let n = sec.Rels@.len() as int;
    let start = overwrite(buf, base, sec.Contents@);
    lemma_pass_frame(a, b, 1, o, s, start, base, n);
    match a.reloc_pass(1, o, s, start, base, n) {
        Ok(b1) => {
            lemma_pass_frame(a, b, 2, o, s, b1, base, n);
            match a.reloc_pass(2, o, s, b1, base, n) {
                Ok(b2) => {
                    lemma_pass_frame(a, b, 3, o, s, b2, base, n);
                },
                Err(e) => {},
            }
        },
        Err(e) => {},
    }
}

proof fn lemma_pass_frame(
    a: Context,
    b: Context,
    pass: int,
    o: int,
    s: int,
    buf: Seq<u8>,
    base: int,
    upto: int,
)
    requires
        b == (Context { Buf: b.Buf, ..a }),
    ensures
        a.reloc_pass(pass, o, s, buf, base, upto) == b.reloc_pass(pass, o, s, buf, base, upto),
    decreases upto,
{
    if upto > 0 {
        lemma_pass_frame(a, b, pass, o, s, buf, base, upto - 1);
        match a.reloc_pass(pass, o, s, buf, base, upto - 1) {
            Ok(x) => {
                let rel = a.Objs@[o].Sections@[s].unwrap().Rels@[upto - 1];
                assert(a.rel_symbol(o, rel) == b.rel_symbol(o, rel));
                if a.rel_symbol(o, rel) is Some {
                    let sym = a.rel_symbol(o, rel).unwrap();
                    assert(sym.spec_addr(&a) == sym.spec_addr(&b));
                }
                assert(a.reloc_step(pass, o, s, x, base, rel) == b.reloc_step(
                    pass,
                    o,
                    s,
                    x,
                    base,
                    rel,
                ));
            },
            Err(e) => {},
        }
    }
}

/// Chunks that were written with the file header among them have tables
/// of headers that the file header can count.
proof fn lemma_written_fits(ctx: Context, buf: Seq<u8>, k: int, n: int)
    requires
        0 <= k < n <= ctx.Chunks@.len(),
        ctx.Chunks@[k] == ChunkId::Ehdr,
        ctx.chunks_written(buf, n) is Ok,
    ensures
        ctx.header_counts_fit(),
    decreases n,
{
    if k < n - 1 {
        lemma_written_fits(ctx, buf, k, n - 1);
    }
}

/// Whether nothing has been linked in `ctx` yet: no chunks, no members of
/// output sections, no slots in the table of thread-pointer relative
/// addresses.
pub open spec fn is_fresh(ctx: Context) -> bool {
    &&& ctx.Chunks@.len() == 0
    &&& no_members(ctx)
    &&& ctx.Got.GotTpSyms@.len() == 0
}

/// Brings the section headers of all chunks up to date, in the order of
/// the list of chunks, and stops at the first that fails.
pub fn UpdateShdrs(ctx: &mut Context) -> (r: Result<(), LinkError>)
    requires
        old(ctx).wf(),
    ensures
        final(ctx).wf(),
        headers_stage(*old(ctx), r, *final(ctx)),
        tables_resized(*old(ctx), *final(ctx)),
        r is Err ==> r == Err::<(), LinkError>(LinkError::TooLarge),
        whole_tables(*old(ctx)) ==> whole_tables(*final(ctx)),
{
    let n: usize = ctx.Chunks.len();
    let mut k: usize = 0;
    let ghost mut t: Seq<Context> = seq![*ctx];
    while k < n
        invariant
            k <= n,
            n == ctx.Chunks@.len(),
            ctx.wf(),
            whole_tables(*old(ctx)) ==> whole_tables(*ctx),
            tables_resized(*old(ctx), *ctx),
            t.len() == k + 1,
            t[0] == *old(ctx),
            t[k as int] == *ctx,
            forall|j: int|
                0 <= j < k ==> header_updated(
                    #[trigger] t[j],
                    old(ctx).Chunks@[j],
                    Ok::<(), LinkError>(()),
                    t[j + 1],
                ),
        decreases n - k,
    {
        let id = ctx.Chunks[k];
        let r = UpdateShdr(ctx, id);
        if r.is_err() {
            proof {
                assert(update_run(*old(ctx), t, r, *ctx));
            }
            return r;
        }
        proof {
            let before = t;
            t = t.push(*ctx);
            assert forall|j: int| 0 <= j < k + 1 implies header_updated(
                #[trigger] t[j],
                old(ctx).Chunks@[j],
                Ok::<(), LinkError>(()),
                t[j + 1],
            ) by {
                if j < k {
                    assert(header_updated(
                        before[j],
                        old(ctx).Chunks@[j],
                        Ok::<(), LinkError>(()),
                        before[j + 1],
                    ));
                }
            }
        }
        k = k + 1;
    }
    proof {
        assert(update_run(*old(ctx), t, Ok::<(), LinkError>(()), *ctx));
    }
    Ok(())
}

/// Writes every chunk into `buf`, in the order of the list of chunks, and
/// stops at the first that fails.
pub fn WriteChunks(ctx: &Context, buf: &mut Vec<u8>) -> (r: Result<(), LinkError>)
    requires
        ctx.wf(),
    ensures
        final(buf)@.len() == old(buf)@.len(),
        match ctx.chunks_written(old(buf)@, ctx.Chunks@.len() as int) {
            Ok(b) => r is Ok && final(buf)@ == b,
            Err(e) => r == Err::<(), LinkError>(e),
        },
{
    let n: usize = ctx.Chunks.len();
    let mut k: usize = 0;
    proof {
        lemma_wf_parts(*ctx);
    }
    while k < n
        invariant
            k <= n,
            n == ctx.Chunks@.len(),
            ctx.wf(),
            ctx.chunks_ok(),
            buf@.len() == old(buf)@.len(),
            ctx.chunks_written(old(buf)@, k as int) == Ok::<Seq<u8>, LinkError>(buf@),
        decreases n - k,
    {
        let id = ctx.Chunks[k];
        assert(ctx.has_chunk(id));
        match CopyBuf(ctx, id, buf) {
            Ok(()) => {},
            Err(e) => {
                proof {
                    crate::linker::writer::lemma_chunks_fail(*ctx, old(buf)@, k + 1, n as int);
                }
                return Err(e);
            },
        }
        k = k + 1;
    }
    Ok(())
}

/// Whether the file header `e` counts the headers of `ctx`: the number of
/// section headers times the size of one is the size of their table, and
/// likewise for the program headers.
pub open spec fn headers_counted(ctx: Context, e: Ehdr) -> bool {
    &&& e.ShNum * e.ShEntSize == ctx.Shdr.Chunk.Shdr.Size
    &&& e.PhNum * e.PhEntSize == ctx.Phdr.Chunk.Shdr.Size
}

/// Where only the tables of headers change their sizes, the headers of
/// the chunks differ in their sizes alone.
proof fn lemma_resized_headers(a: Context, b: Context)
    requires
        tables_resized(a, b),
    ensures
        sizes_apart(a.chunk_shdrs(), b.chunk_shdrs()),
{
    assert forall|k: int| 0 <= k < a.chunk_shdrs().len() implies #[trigger] b.chunk_shdrs()[k] == (
    Shdr { Size: b.chunk_shdrs()[k].Size, ..a.chunk_shdrs()[k] }) by {
        let id = a.Chunks@[k];
        assert(b.chunk_of(id).Shdr == (Shdr { Size: b.chunk_of(id).Shdr.Size, ..a.chunk_of(id).Shdr }));
    }
}

/// The first passes of a link: reads the input files, adds the linker's
/// own object, binds the symbols and drops the objects that nothing
/// needs, registers the pieces of mergeable sections, gives common
/// symbols their sections and lays out the merged sections. The first
/// pass that fails ends them.
#[verifier::rlimit(100)]
pub fn Gather(ctx: &mut Context, files: Vec<File>) -> (r: Result<(), LinkError>)
    requires
        old(ctx).wf(),
        is_fresh(*old(ctx)),
    ensures
        final(ctx).wf(),
        exists|s: Gathered|
            #[trigger] gathered(*old(ctx), files@, s) && s.outcome == r && s.end == *final(ctx),
        r is Ok ==> is_fresh(*final(ctx)),
        r is Ok ==> forall|o: int| 0 <= o < final(ctx).Objs@.len() ==> #[trigger] final(ctx).alive(o),
{
    let ghost c0 = *ctx;
    let ghost fs = files@;
    let ghost mut s = Gathered {
        read: c0,
        read_result: Ok(()),
        internal: c0,
        resolved: c0,
        pieces: c0,
        pieces_result: Ok(()),
        commons: c0,
        merged: c0,
        merged_result: Ok(()),
        outcome: Err(LinkError::Cli),
        end: c0,
    };
    proof {
        reveal(gathered);
    }
    if ctx.Args.Emulation != MachineType::MachineTypeRISCV64 {
        proof {
            assert(gathered(c0, fs, s));
        }
        return Err(LinkError::Cli);
    }
    let read = ReadInputFiles(ctx, files);
    let ghost c1 = *ctx;
    proof {
        s = Gathered { read: c1, read_result: read, outcome: read, end: c1, ..s };
        assert(read_stage(c0, fs, read, c1));
    }
    if read.is_err() {
        proof {
            assert(gathered(c0, fs, s));
        }
        return read;
    }
    CreateInternalFile(ctx);
    let ghost c2 = *ctx;
    proof {
        lemma_grows_no_members(c0, c1);
        lemma_grows_no_members(c1, c2);
        assert(internal_stage(c1, c2));
    }
    ResolveSymbols(ctx);
    let ghost c3 = *ctx;
    proof {
        assert(resolved_stage(c2, c3));
    }
    let pieces = RegisterSectionPieces(ctx);
    let ghost c4 = *ctx;
    proof {
        s = Gathered {
            internal: c2,
            resolved: c3,
            pieces: c4,
            pieces_result: pieces,
            outcome: pieces,
            end: c4,
            ..s
        };
        assert(pieces_stage(c3, pieces, c4));
    }
    if pieces.is_err() {
        proof {
            assert(gathered(c0, fs, s));
        }
        return pieces;
    }
    assert(no_members(c4));
    assert forall|o: int| 0 <= o < c4.Objs@.len() implies #[trigger] c4.alive(o) by {
        assert(c3.alive(o));
    }
    ConvertCommonSymbols(ctx);
    let ghost c5 = *ctx;
    proof {
        lemma_grows_no_members(c4, c5);
        assert(commons_stage(c4, c5));
    }
    assert forall|o: int| 0 <= o < c5.Objs@.len() implies #[trigger] c5.alive(o) by {
        assert(c4.alive(o));
    }
    let merged = ComputeMergedSectionSizes(ctx);
    proof {
        s = Gathered {
            commons: c5,
            merged: *ctx,
            merged_result: merged,
            outcome: merged,
            end: *ctx,
            ..s
        };
        assert(merged_stage(c5, merged, *ctx));
        assert(gathered(c0, fs, s));
        if merged is Ok {
            lemma_grows_no_members(c5, *ctx);
            assert forall|o: int| 0 <= o < ctx.Objs@.len() implies #[trigger] ctx.alive(o) by {
                assert(c5.alive(o));
            }
        }
    }
    merged
}

/// Whether the file header is among the chunks of `ctx`.
pub open spec fn has_file_header(ctx: Context) -> bool {
    exists|k: int| 0 <= k < ctx.Chunks@.len() && #[trigger] ctx.Chunks@[k] == ChunkId::Ehdr
}

/// The passes that make the chunks of a link: makes the header chunks,
/// bins the input sections of the objects, lists the chunks, gives the
/// output sections their sizes and orders the chunks by rank.
#[verifier::rlimit(100)]
pub fn Arrange(ctx: &mut Context) -> (r: Result<(), LinkError>)
    requires
        old(ctx).wf(),
        is_fresh(*old(ctx)),
    ensures
        final(ctx).wf(),
        exists|s: Arranged|
            #[trigger] arranged(*old(ctx), s) && s.outcome == r && s.end == *final(ctx),
        r is Ok ==> binned_ok(*final(ctx)) && chunks_distinct(*final(ctx)) && whole_tables(
            *final(ctx),
        ) && has_file_header(*final(ctx)),
        r is Ok ==> forall|o: int|
            0 <= o < old(ctx).Objs@.len() && old(ctx).alive(o) ==> #[trigger] final(ctx).alive(o),
        r is Ok ==> final(ctx).Objs@.len() == old(ctx).Objs@.len(),
{
    let ghost c0 = *ctx;
    CreateSyntheticSections(ctx);
    let ghost c1 = *ctx;
    assert(ctx.Chunks@ =~= seq![ChunkId::Ehdr, ChunkId::Phdr, ChunkId::Shdr]);
    assert(whole_tables(*ctx));
    proof {
        lemma_grows_no_members(c0, c1);
        assert(synthetic_stage(c0, c1));
    }
    BinSections(ctx);
    let ghost c2 = *ctx;
    AddOutputChunks(ctx);
    let ghost c3 = *ctx;
    proof {
        assert(binned_stage(c1, c2));
        assert(chunked_stage(c2, c3));
    }
    let sized = ComputeSectionSizes(ctx);
    let ghost c4 = *ctx;
    let ghost mut s = Arranged {
        synthetic: c1,
        binned: c2,
        chunked: c3,
        sized: c4,
        sized_result: sized,
        sorted: c4,
        outcome: sized,
        end: c4,
    };
    proof {
        reveal(arranged);
        assert(sized_stage(c3, sized, c4));
    }
    if sized.is_err() {
        proof {
            assert(arranged(c0, s));
        }
        return sized;
    }
    assert(chunks_distinct(c4));
    assert(whole_tables(c4));
    assert(c4.Chunks@[0] == ChunkId::Ehdr);
    assert forall|o: int| 0 <= o < c0.Objs@.len() && c0.alive(o) implies #[trigger] c4.alive(o) by {
        assert(c4.Objs@[o] == (Objectfile { Sections: c4.Objs@[o].Sections, ..c3.Objs@[o] }));
    }
    SortOutputSections(ctx);
    proof {
        s = Arranged { sorted: *ctx, end: *ctx, ..s };
        assert(sorted_stage(c4, *ctx));
        assert(arranged(c0, s));
        let order = choose|order: Seq<usize>|
            #![trigger is_rank_order(order, c4.chunk_ranks())]
            is_rank_order(order, c4.chunk_ranks()) && ctx.Chunks@ == Seq::new(
                c4.Chunks@.len(),
                |k: int| c4.Chunks@[order[k] as int],
            );
        assert(crate::linker::layout::places(order, 0));
        let k = choose|k: int| 0 <= k < order.len() && #[trigger] order[k] == 0;
        assert(ctx.Chunks@[k] == ChunkId::Ehdr);
        assert forall|o: int| 0 <= o < c0.Objs@.len() && c0.alive(o) implies #[trigger] ctx.alive(
            o,
        ) by {
            assert(c4.alive(o));
        }
    }
    sized
}

/// The last passes of a link: brings the headers of the chunks up to
/// date, gives the chunks their addresses and file offsets, brings the
/// headers up to date once more, and writes the chunks into a file of
/// zero bytes, which it leaves in the buffer of the context. An output
/// that does not start with the ELF magic is never handed out.
#[verifier::rlimit(100)]
pub fn Emit(ctx: &mut Context) -> (r: Result<(), LinkError>)
    requires
        old(ctx).wf(),
        binned_ok(*old(ctx)),
        chunks_distinct(*old(ctx)),
        whole_tables(*old(ctx)),
        has_file_header(*old(ctx)),
    ensures
        final(ctx).wf(),
        exists|s: Placed|
            #[trigger] emitted(*old(ctx), s) && s.outcome == r && s.end == *final(ctx),
        r is Ok ==> starts_with(final(ctx).Buf@, MAGIC()),
        r is Ok ==> image(*final(ctx), final(ctx).Buf@.len() as int) == Ok::<Seq<u8>, LinkError>(
            final(ctx).Buf@,
        ),
        r is Ok ==> binned_ok(*final(ctx)) && chunks_distinct(*final(ctx)),
        r is Ok ==> whole_tables(*final(ctx)) && final(ctx).header_counts_fit(),
        r is Ok ==> well_placed(final(ctx).chunk_shdrs()),
        final(ctx).Objs == old(ctx).Objs,
{
    let ghost c0 = *ctx;
    let ghost at = choose|k: int| 0 <= k < c0.Chunks@.len() && #[trigger] c0.Chunks@[k] == ChunkId::Ehdr;
    let updated = UpdateShdrs(ctx);
    let ghost c1 = *ctx;
    let ghost mut s = Placed {
        updated: c1,
        updated_result: updated,
        placed: c1,
        placed_result: Ok(0),
        ready: c1,
        ready_result: Ok(()),
        outcome: updated,
        end: c1,
    };
    proof {
        reveal(emitted);
    }
    if updated.is_err() {
        proof {
            assert(emitted(c0, s));
        }
        return updated;
    }
    assert(binned_ok(*ctx));
    assert(chunks_distinct(*ctx));
    let placed = SetOutputSectionOffsets(ctx);
    let ghost c2 = *ctx;
    proof {
        s = Placed {
            placed: c2,
            placed_result: placed,
            outcome: Err(LinkError::TooLarge),
            end: c2,
            ..s
        };
        assert(placed_stage(c1, placed, c2));
    }
    let size: u64 = match placed {
        Ok(v) => v,
        Err(e) => {
            proof {
                assert(emitted(c0, s));
            }
            return Err(LinkError::TooLarge);
        },
    };
    let ready = UpdateShdrs(ctx);
    let ghost c3 = *ctx;
    proof {
        s = Placed { ready: c3, ready_result: ready, outcome: ready, end: c3, ..s };
        lemma_resized_headers(c2, c3);
        lemma_well_placed_sizes(c2.chunk_shdrs(), c3.chunk_shdrs());
    }
    if ready.is_err() {
        proof {
            assert(emitted(c0, s));
        }
        return ready;
    }
    if size > usize::MAX as u64 {
        proof {
            s = Placed { outcome: Err(LinkError::TooLarge), ..s };
            assert(emitted(c0, s));
        }
        return Err(LinkError::TooLarge);
    }
    let mut buf = Zeros(size as usize);
    assert(ctx.Chunks@ == c0.Chunks@);
    match WriteChunks(ctx, &mut buf) {
        Ok(()) => {},
        Err(e) => {
            proof {
                s = Placed { outcome: Err(e), ..s };
                assert(emitted(c0, s));
            }
            return Err(e);
        },
    }
    proof {
        lemma_written_fits(
            *ctx,
            Seq::new(size as nat, |i: int| 0u8),
            at,
            ctx.Chunks@.len() as int,
        );
    }
    if !checkMagic(buf.as_slice()) {
        proof {
            s = Placed { outcome: Err(LinkError::Format), ..s };
            assert(emitted(c0, s));
        }
        return Err(LinkError::Format);
    }
    ctx.Buf = buf;
    proof {
        lemma_wf_frame(c3, *ctx);
        lemma_written_frame(c3, *ctx, Seq::new(size as nat, |i: int| 0u8), ctx.Chunks@.len() as int);
        s = Placed { outcome: Ok(()), end: *ctx, ..s };
        assert(emitted(c0, s));
        assert(ctx.chunk_shdrs() =~= c3.chunk_shdrs());
    }
    Ok(())
}

/// Links the input files `files`, in their order, into one executable and
/// leaves its bytes in the buffer of the context. The passes run in this
/// order: the objects are read, archives member by member; symbols are
/// bound and the objects that nothing needs are dropped; the pieces of
/// mergeable sections are registered; common symbols get their sections;
/// merged sections are laid out; the header chunks are made; input
/// sections are binned and output sections sized; the chunks are ordered,
/// placed and written. The first error ends the link. An output that does
/// not start with the ELF magic is never handed out.
pub fn Link(ctx: &mut Context, files: Vec<File>) -> (r: Result<(), LinkError>)
    requires
        old(ctx).wf(),
        is_fresh(*old(ctx)),
    ensures
        final(ctx).wf(),
        exists|g: Gathered, l: Arranged, p: Placed|
            #[trigger] linked(*old(ctx), files@, g, l, p, r, *final(ctx)),
        r is Ok ==> starts_with(final(ctx).Buf@, MAGIC()),
        r is Ok ==> image(*final(ctx), final(ctx).Buf@.len() as int) == Ok::<Seq<u8>, LinkError>(
            final(ctx).Buf@,
        ),
        r is Ok ==> forall|o: int| 0 <= o < final(ctx).Objs@.len() ==> #[trigger] final(ctx).alive(o),
        r is Ok ==> binned_ok(*final(ctx)) && chunks_distinct(*final(ctx)),
        r is Ok ==> whole_tables(*final(ctx)) && final(ctx).header_counts_fit(),
        r is Ok ==> forall|e: Ehdr| #[trigger]
            final(ctx).is_output_ehdr(e) ==> headers_counted(*final(ctx), e),
        r is Ok ==> well_placed(final(ctx).chunk_shdrs()),
        old(ctx).Args.Emulation != MachineType::MachineTypeRISCV64 ==> r == Err::<(), LinkError>(
            LinkError::Cli,
        ),
        old(ctx).Args.Emulation == MachineType::MachineTypeRISCV64 && inputs_result(
            MachineType::MachineTypeRISCV64,
            files@,
            0,
        ) is Err ==> r == inputs_result(MachineType::MachineTypeRISCV64, files@, 0),
{
    let ghost c0 = *ctx;
    let ghost fs = files@;
    let gathered_result = Gather(ctx, files);
    let ghost c1 = *ctx;
    let ghost g = choose|s: Gathered|
        #[trigger] gathered(c0, fs, s) && s.outcome == gathered_result && s.end == c1;
    let ghost l: Arranged = arbitrary();
    let ghost p: Placed = arbitrary();
    proof {
        lemma_gathered_fails(c0, fs, g);
    }
    if gathered_result.is_err() {
        proof {
            assert(linked(c0, fs, g, l, p, gathered_result, *ctx));
        }
        return gathered_result;
    }
    let arranged_result = Arrange(ctx);
    let ghost c2 = *ctx;
    let ghost l = choose|s: Arranged|
        #[trigger] arranged(c1, s) && s.outcome == arranged_result && s.end == c2;
    if arranged_result.is_err() {
        proof {
            assert(linked(c0, fs, g, l, p, arranged_result, *ctx));
        }
        return arranged_result;
    }
    let r = Emit(ctx);
    proof {
        let p = choose|s: Placed| #[trigger] emitted(c2, s) && s.outcome == r && s.end == *ctx;
        assert(linked(c0, fs, g, l, p, r, *ctx));
        if r is Ok {
            assert forall|o: int| 0 <= o < ctx.Objs@.len() implies #[trigger] ctx.alive(o) by {
                assert(c1.alive(o));
                assert(c2.alive(o));
            }
            assert forall|e: Ehdr| #[trigger] ctx.is_output_ehdr(e) implies headers_counted(
                *ctx,
                e,
            ) by {
                crate::linker::writer::lemma_header_counts(*ctx, e);
            }
        }
    }
    r
}

/// The first passes fail at once for another machine than RISC-V, and
/// with the error of the input files where reading them fails.
pub proof fn lemma_gathered_fails(a: Context, files: Seq<File>, s: Gathered)
    requires
        gathered(a, files, s),
    ensures
        a.Args.Emulation != MachineType::MachineTypeRISCV64 ==> s.outcome == Err::<(), LinkError>(
            LinkError::Cli,
        ),
        a.Args.Emulation == MachineType::MachineTypeRISCV64 && inputs_result(
            MachineType::MachineTypeRISCV64,
            files,
            0,
        ) is Err ==> s.outcome == inputs_result(MachineType::MachineTypeRISCV64, files, 0),
{
    reveal(gathered);
}

} // verus!
