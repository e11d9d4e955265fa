//! The passes of a link as relations between the context before and after
//! each, and the link as the chain of them.
use vstd::prelude::*;
use crate::linker::abi;
use crate::linker::commons::{commons_added, converted_symbols, made_sections};
use crate::linker::context::{Context, sections_added, symbols_added};
use crate::linker::elf::{MAGIC, MachineType, Shdr};
use crate::linker::error::LinkError;
use crate::linker::file::{
    File, input_units, inputs_result, objects_added, objects_parsed, symbols_named, units_are,
};
use crate::linker::layout::{
    binned_ok, chunks_distinct, filled_merged, filled_outputs, is_rank_order, members_changed,
    members_of, merged_resized, output_fits, output_sized, placed_shdrs, placed_size,
    placement_fits, places_changed, section_laid_out, section_overflows, sizes_changed,
    well_placed,
};
use crate::linker::output::{Chunk, ChunkId, OutputShdr, all_phdrs, max_shndx, tp_addr};
use crate::linker::passes::{bound_from, dropped_from, marked_from, nothing_binned, symbol_names_of};
use crate::linker::pieces::{
    aligns_kept, has_bad_piece, locals_placed, object_aligned, pieces_placed, pieces_registered,
    placed_symbols,
};
use crate::utils::starts_with;

verus! {

/// Whether `b` is the context `a` after the input files `files` were read
/// with the outcome `r`: the objects that the files bring were added
/// behind those that were there, each parsed, and the global symbols that
/// they name behind the symbols that were there.
pub open spec fn read_stage(a: Context, files: Seq<File>, r: Result<(), LinkError>, b: Context) -> bool {
    &&& b.grows_from(a)
    &&& b == (Context {
        Objs: b.Objs,
        SymbolMap: b.SymbolMap,
        OutputSections: b.OutputSections,
        MergedSections: b.MergedSections,
        ..a
    })
    &&& b.Objs@.len() >= a.Objs@.len()
    &&& b.Objs@.subrange(0, a.Objs@.len() as int) == a.Objs@
    &&& r == inputs_result(a.Args.Emulation, files, 0)
    &&& files.len() == 0 ==> b == a
    &&& r is Ok ==> objects_added(a, b, input_units(files, files.len() as int).len() as int)
        && units_are(b, a.Objs@.len() as int, input_units(files, files.len() as int))
    &&& symbols_added(a, b)
    &&& sections_added(a, b)
    &&& r is Ok ==> objects_parsed(b, a.Objs@.len() as int, b.Objs@.len() as int)
    &&& r is Ok ==> symbols_named(a, b)
}

/// Whether `b` is the context `a` with the linker's own object behind the
/// others.
pub open spec fn internal_stage(a: Context, b: Context) -> bool {
    &&& b.grows_from(a)
    &&& b == (Context { Objs: b.Objs, ..a })
    &&& b.Objs@.len() == a.Objs@.len() + 1
    &&& b.Objs@.subrange(0, a.Objs@.len() as int) == a.Objs@
    &&& ({
        let obj = b.Objs@[a.Objs@.len() as int];
        &&& obj.inputFile.IsAlive
        &&& obj.Sections@.len() == 0
        &&& obj.MergeableSections@.len() == 0
        &&& obj.inputFile.FirstGlobal == 1
        &&& obj.inputFile.ElfSyms@.len() == 1
        &&& obj.inputFile.File.Contents@.len() == 0
        &&& !obj.hasCommon
    })
}

/// Whether `b` is the context `a` after its symbols were bound, the
/// objects that are needed were marked, and the others dropped.
pub open spec fn resolved_stage(a: Context, b: Context) -> bool {
    &&& nothing_binned(b)
    &&& exists|bound: Context, marked: Context|
        bound_from(a, bound) && #[trigger] marked_from(bound, marked) && dropped_from(marked, b)
    &&& forall|j: int| 0 <= j < b.Objs@.len() ==> #[trigger] b.alive(j)
    &&& symbol_names_of(b) == symbol_names_of(a)
}

/// Whether `b` is the context `a` after the pieces of its mergeable
/// sections were registered with the outcome `r`: the pieces stand behind
/// fragments aligned as their sections are, the symbols that lie in them
/// are bound to those fragments, and nothing else changed. It fails where
/// an object has a symbol in a mergeable section that is in none of its
/// pieces.
pub open spec fn pieces_stage(a: Context, r: Result<(), LinkError>, b: Context) -> bool {
    &&& b.grows_from(a)
    &&& b == (Context {
        Objs: b.Objs,
        SymbolMap: b.SymbolMap,
        MergedSections: b.MergedSections,
        ..a
    })
    &&& b.Objs@.len() == a.Objs@.len()
    &&& b.MergedSections@.len() == a.MergedSections@.len()
    &&& symbol_names_of(b) == symbol_names_of(a)
    &&& forall|o: int|
        0 <= o < a.Objs@.len() ==> (#[trigger] b.Objs@[o]).inputFile.IsAlive
            == a.Objs@[o].inputFile.IsAlive
    &&& r is Err <==> exists|o: int| 0 <= o < a.Objs@.len() && has_bad_piece(#[trigger] a.Objs@[o])
    &&& r is Err ==> r == Err::<(), LinkError>(LinkError::Resolution)
    &&& r is Ok ==> forall|o: int|
        0 <= o < b.Objs@.len() ==> pieces_registered(#[trigger] b.Objs@[o])
    &&& aligns_kept(a, b)
    &&& forall|o: int| 0 <= o < a.Objs@.len() ==> #[trigger] pieces_placed(a.Objs@[o], b.Objs@[o])
    &&& r is Ok ==> b.SymbolMap@ == placed_symbols(b.Objs@, a.SymbolMap@, a.Objs@.len() as int)
    &&& r is Ok ==> forall|o: int|
        0 <= o < a.Objs@.len() ==> #[trigger] locals_placed(a.Objs@[o], b.Objs@[o])
    &&& r is Ok ==> forall|o: int|
        0 <= o < b.Objs@.len() ==> #[trigger] object_aligned(b, b.Objs@[o])
}

/// Whether `b` is the context `a` after its common symbols got their
/// sections.
pub open spec fn commons_stage(a: Context, b: Context) -> bool {
    &&& b.grows_from(a)
    &&& b == (Context {
        Objs: b.Objs,
        SymbolMap: b.SymbolMap,
        OutputSections: b.OutputSections,
        ..a
    })
    &&& b.Objs@.len() == a.Objs@.len()
    &&& symbol_names_of(b) == symbol_names_of(a)
    &&& forall|o: int|
        0 <= o < a.Objs@.len() ==> (#[trigger] b.Objs@[o]).inputFile.IsAlive
            == a.Objs@[o].inputFile.IsAlive
    &&& forall|o: int|
        0 <= o < a.Objs@.len() && !(#[trigger] a.Objs@[o]).hasCommon ==> b.Objs@[o] == a.Objs@[o]
    &&& sections_added(a, b)
    &&& b.SymbolMap@ == converted_symbols(a.Objs@, a.SymbolMap@, a.Objs@.len() as int)
    &&& forall|o: int|
        0 <= o < a.Objs@.len() && (#[trigger] a.Objs@[o]).hasCommon ==> commons_added(
            a.Objs@[o],
            b.Objs@[o],
            made_sections(a.Objs@, a.SymbolMap@, o),
        )
}

/// Whether `b` is the context `a` after its merged sections were laid out
/// with the outcome `r`. It fails only where one of them does not fit.
pub open spec fn merged_stage(a: Context, r: Result<(), LinkError>, b: Context) -> bool {
    &&& b.grows_from(a)
    &&& b == (Context { MergedSections: b.MergedSections, ..a })
    &&& b.MergedSections@.len() == a.MergedSections@.len()
    &&& forall|m: int|
        0 <= m < a.MergedSections@.len() ==> merged_resized(
            a.MergedSections@[m],
            #[trigger] b.MergedSections@[m],
        )
    &&& r is Ok ==> forall|m: int|
        0 <= m < a.MergedSections@.len() ==> section_laid_out(
            a.MergedSections@[m],
            #[trigger] b.MergedSections@[m],
        )
    &&& r is Err ==> r == Err::<(), LinkError>(LinkError::TooLarge) && exists|m: int|
        0 <= m < a.MergedSections@.len() && section_overflows(#[trigger] a.MergedSections@[m])
}

/// Whether `b` is the context `a` with the three header chunks behind its
/// chunks: the file header, the program headers, the section headers.
pub open spec fn synthetic_stage(a: Context, b: Context) -> bool {
    &&& b.grows_from(a)
    &&& b == (Context { Ehdr: b.Ehdr, Phdr: b.Phdr, Shdr: b.Shdr, Chunks: b.Chunks, ..a })
    &&& b.Chunks@ == a.Chunks@ + seq![ChunkId::Ehdr, ChunkId::Phdr, ChunkId::Shdr]
    &&& b.Ehdr.Chunk.Shdr == (Shdr { Flags: abi::SHF_ALLOC, Size: 64, AddrAlign: 8, ..Shdr::zero() })
    &&& b.Phdr.Chunk.Shdr == (Shdr { Flags: abi::SHF_ALLOC, AddrAlign: 8, ..Shdr::zero() })
    &&& b.Phdr.Phdrs@.len() == 0
    &&& b.Shdr.Chunk.Shdr == (Shdr { AddrAlign: 8, ..Shdr::zero() })
}

/// Whether `b` is the context `a` with every live input section among the
/// members of its output section, in the order of the objects.
pub open spec fn binned_stage(a: Context, b: Context) -> bool {
    &&& b == (Context { OutputSections: b.OutputSections, ..a })
    &&& members_changed(a.OutputSections@, b.OutputSections@)
    &&& forall|i: int|
        0 <= i < a.OutputSections@.len() ==> (#[trigger] b.OutputSections@[i]).Members@
            == members_of(a.Objs@, i, a.Objs@.len() as int)
    &&& binned_ok(b)
}

/// Whether `b` is the context `a` with the output sections that have
/// members, and then the merged sections that have bytes, behind its
/// chunks.
pub open spec fn chunked_stage(a: Context, b: Context) -> bool {
    &&& b == (Context { Chunks: b.Chunks, ..a })
    &&& b.Chunks@ == a.Chunks@ + filled_outputs(a.OutputSections@, a.OutputSections@.len() as int)
        + filled_merged(a.MergedSections@, a.MergedSections@.len() as int)
    &&& chunks_distinct(b)
}

/// Whether `b` is the context `a` after its output sections got their
/// sizes, and their members their offsets, with the outcome `r`. It fails
/// where the members of one do not fit.
pub open spec fn sized_stage(a: Context, r: Result<(), LinkError>, b: Context) -> bool {
    &&& binned_ok(b)
    &&& sizes_changed(a, b)
    &&& r is Ok ==> forall|i: int|
        0 <= i < a.OutputSections@.len() ==> #[trigger] output_sized(a, b, i)
    &&& r is Err <==> exists|i: int|
        0 <= i < a.OutputSections@.len() && !#[trigger] output_fits(a, i)
    &&& r is Err ==> r == Err::<(), LinkError>(LinkError::TooLarge)
}

/// Whether `b` is the context `a` with its chunks in the order of their
/// ranks.
pub open spec fn sorted_stage(a: Context, b: Context) -> bool {
    &&& b == (Context { Chunks: b.Chunks, ..a })
    &&& exists|order: Seq<usize>|
        #![trigger is_rank_order(order, a.chunk_ranks())]
        is_rank_order(order, a.chunk_ranks()) && b.Chunks@ == Seq::new(
            a.Chunks@.len(),
            |k: int| a.Chunks@[order[k] as int],
        )
    &&& chunks_distinct(a) ==> chunks_distinct(b)
}

/// Whether `b` is the context `a` after the header of the chunk `id` was
/// brought up to date with the outcome `r`. The table of section headers
/// gets its size, and fails where that does not fit in 64 bits; the table
/// of program headers is made anew, and gets its size where that fits;
/// every other chunk leaves the context as it is.
pub open spec fn header_updated(a: Context, id: ChunkId, r: Result<(), LinkError>, b: Context) -> bool {
    match id {
        ChunkId::Shdr => {
            let size = (max_shndx(a, a.Chunks@.len() as int) + 1) * 64;
            if size <= u64::MAX {
                r is Ok && b == (Context {
                    Shdr: OutputShdr {
                        Chunk: Chunk {
                            Shdr: Shdr { Size: size as u64, ..a.Shdr.Chunk.Shdr },
                            ..a.Shdr.Chunk
                        },
                    },
                    ..a
                })
            } else {
                r == Err::<(), LinkError>(LinkError::TooLarge) && b == a
            }
        },
        ChunkId::Phdr => {
            let size = (b.Phdr.Phdrs@.len() * 56) as int;
            &&& r is Ok
            &&& b == (Context { TpAddr: b.TpAddr, Phdr: b.Phdr, ..a })
            &&& b.TpAddr == tp_addr(a.chunk_shdrs(), a.TpAddr)
            &&& b.Phdr.Phdrs@ == all_phdrs(a.Phdr.Chunk.Shdr, a.chunk_shdrs())
            &&& b.Phdr.Chunk == (Chunk {
                Shdr: Shdr { Size: b.Phdr.Chunk.Shdr.Size, ..a.Phdr.Chunk.Shdr },
                ..a.Phdr.Chunk
            })
            &&& b.Phdr.Chunk.Shdr.Size == if size <= u64::MAX {
                size
            } else {
                a.Phdr.Chunk.Shdr.Size as int
            }
        },
        _ => r is Ok && b == a,
    }
}

/// Whether `b` is the context `a` but for the thread pointer, the program
/// headers and the sizes of the two tables of headers.
pub open spec fn tables_resized(a: Context, b: Context) -> bool {
    &&& b == (Context { TpAddr: b.TpAddr, Phdr: b.Phdr, Shdr: b.Shdr, ..a })
    &&& b.Phdr.Chunk == (Chunk {
        Shdr: Shdr { Size: b.Phdr.Chunk.Shdr.Size, ..a.Phdr.Chunk.Shdr },
        ..a.Phdr.Chunk
    })
    &&& b.Shdr == (OutputShdr {
        Chunk: Chunk {
            Shdr: Shdr { Size: b.Shdr.Chunk.Shdr.Size, ..a.Shdr.Chunk.Shdr },
            ..a.Shdr.Chunk
        },
    })
}

/// Whether the contexts `t` are a run of header updates over the chunks
/// of `a`, in their order, from `a` to `b` with the outcome `r`: every
/// update but the last succeeds, and the run ends at the first chunk
/// whose update fails, or behind the last chunk.
pub open spec fn update_run(a: Context, t: Seq<Context>, r: Result<(), LinkError>, b: Context) -> bool {
    &&& 1 <= t.len() <= a.Chunks@.len() + 1
    &&& t[0] == a
    &&& t[t.len() - 1] == b
    &&& forall|k: int|
        0 <= k < t.len() - 1 ==> header_updated(
            #[trigger] t[k],
            a.Chunks@[k],
            Ok::<(), LinkError>(()),
            t[k + 1],
        )
    &&& r is Ok ==> t.len() == a.Chunks@.len() + 1
    &&& r is Err ==> t.len() <= a.Chunks@.len() && header_updated(b, a.Chunks@[t.len() - 1], r, b)
}

/// Whether `b` is the context `a` after the headers of all its chunks
/// were brought up to date, in the order of the chunks, with the outcome
/// `r`.
pub open spec fn headers_stage(a: Context, r: Result<(), LinkError>, b: Context) -> bool {
    exists|t: Seq<Context>| #[trigger] update_run(a, t, r, b)
}

/// Whether `b` is the context `a` after its chunks got their addresses
/// and file offsets with the outcome `r`, which gives the size of the
/// file. It fails where an address or an offset does not fit.
pub open spec fn placed_stage(a: Context, r: Result<u64, LinkError>, b: Context) -> bool {
    &&& places_changed(a, b)
    &&& binned_ok(a) ==> binned_ok(b)
    &&& r is Ok <==> placement_fits(a.chunk_shdrs())
    &&& r is Ok ==> placed_shdrs(a.chunk_shdrs(), b.chunk_shdrs()) && r.unwrap() == placed_size(
        a.chunk_shdrs(),
    )
    &&& r is Ok ==> well_placed(b.chunk_shdrs())
    &&& r is Err ==> r == Err::<u64, LinkError>(LinkError::TooLarge) && b == a
}

/// The contexts and outcomes of the first passes of a link, each named
/// for its pass: reading the inputs, adding the linker's own object,
/// binding symbols, registering pieces, giving common symbols their
/// sections, laying out merged sections; then the outcome of all of them
/// and the context that they leave.
pub struct Gathered {
    pub read: Context,
    pub read_result: Result<(), LinkError>,
    pub internal: Context,
    pub resolved: Context,
    pub pieces: Context,
    pub pieces_result: Result<(), LinkError>,
    pub commons: Context,
    pub merged: Context,
    pub merged_result: Result<(), LinkError>,
    pub outcome: Result<(), LinkError>,
    pub end: Context,
}

/// Whether the first passes of a link take the context `a` and the input
/// files `files` through the stages `s`: each pass works on the context
/// that the one before it left, and the first that fails ends them with
/// its error. A link for another machine than RISC-V fails at once.
#[verifier::opaque]
pub open spec fn gathered(a: Context, files: Seq<File>, s: Gathered) -> bool {
    if a.Args.Emulation != MachineType::MachineTypeRISCV64 {
        s.outcome == Err::<(), LinkError>(LinkError::Cli) && s.end == a
    } else if s.read_result is Err {
        &&& read_stage(a, files, s.read_result, s.read)
        &&& s.outcome == s.read_result
        &&& s.end == s.read
    } else if s.pieces_result is Err {
        &&& read_stage(a, files, s.read_result, s.read)
        &&& internal_stage(s.read, s.internal)
        &&& resolved_stage(s.internal, s.resolved)
        &&& pieces_stage(s.resolved, s.pieces_result, s.pieces)
        &&& s.outcome == s.pieces_result
        &&& s.end == s.pieces
    } else {
        &&& read_stage(a, files, s.read_result, s.read)
        &&& internal_stage(s.read, s.internal)
        &&& resolved_stage(s.internal, s.resolved)
        &&& pieces_stage(s.resolved, s.pieces_result, s.pieces)
        &&& commons_stage(s.pieces, s.commons)
        &&& merged_stage(s.commons, s.merged_result, s.merged)
        &&& s.outcome == s.merged_result
        &&& s.end == s.merged
    }
}

/// The contexts and the outcome of the passes that make the chunks of a
/// link, each named for its pass: making the header chunks, binning the
/// input sections, listing the chunks, sizing the output sections,
/// ordering the chunks; then the outcome of all of them and the context
/// that they leave.
pub struct Arranged {
    pub synthetic: Context,
    pub binned: Context,
    pub chunked: Context,
    pub sized: Context,
    pub sized_result: Result<(), LinkError>,
    pub sorted: Context,
    pub outcome: Result<(), LinkError>,
    pub end: Context,
}

/// Whether the passes that make the chunks take the context `a` through
/// the stages `s`. They fail where the output sections cannot be sized.
#[verifier::opaque]
pub open spec fn arranged(a: Context, s: Arranged) -> bool {
    &&& synthetic_stage(a, s.synthetic)
    &&& binned_stage(s.synthetic, s.binned)
    &&& chunked_stage(s.binned, s.chunked)
    &&& sized_stage(s.chunked, s.sized_result, s.sized)
    &&& s.outcome == s.sized_result
    &&& if s.sized_result is Err {
        s.end == s.sized
    } else {
        sorted_stage(s.sized, s.sorted) && s.end == s.sorted
    }
}

/// The contexts and outcomes of the last passes of a link, each named
/// for its pass: bringing the headers up to date, placing the chunks,
/// bringing the headers up to date once more; then the outcome of these
/// and of writing the file, and the context that is left.
pub struct Placed {
    pub updated: Context,
    pub updated_result: Result<(), LinkError>,
    pub placed: Context,
    pub placed_result: Result<u64, LinkError>,
    pub ready: Context,
    pub ready_result: Result<(), LinkError>,
    pub outcome: Result<(), LinkError>,
    pub end: Context,
}

/// What writing the chunks of `ctx` into a file of `size` zero bytes
/// gives.
pub open spec fn image(ctx: Context, size: int) -> Result<Seq<u8>, LinkError> {
    ctx.chunks_written(Seq::new(size as nat, |i: int| 0u8), ctx.Chunks@.len() as int)
}

/// Whether the last passes take the context `a` through the stages `s`:
/// the first pass that fails ends them with its error; a file that is too
/// large for the machine, or whose bytes do not start with the ELF magic,
/// is an error too; else the context that is left is the last stage with
/// the bytes of the file in its buffer.
#[verifier::opaque]
pub open spec fn emitted(a: Context, s: Placed) -> bool {
    &&& headers_stage(a, s.updated_result, s.updated)
    &&& if s.updated_result is Err {
        s.outcome == s.updated_result && s.end == s.updated
    } else {
        &&& placed_stage(s.updated, s.placed_result, s.placed)
        &&& if s.placed_result is Err {
            s.outcome == Err::<(), LinkError>(LinkError::TooLarge) && s.end == s.placed
        } else {
            &&& headers_stage(s.placed, s.ready_result, s.ready)
            &&& if s.ready_result is Err {
                s.outcome == s.ready_result && s.end == s.ready
            } else if s.placed_result.unwrap() > usize::MAX {
                s.outcome == Err::<(), LinkError>(LinkError::TooLarge) && s.end == s.ready
            } else {
                match image(s.ready, s.placed_result.unwrap() as int) {
                    Err(e) => s.outcome == Err::<(), LinkError>(e) && s.end == s.ready,
                    Ok(bytes) => if starts_with(bytes, MAGIC()) {
                        &&& s.outcome is Ok
                        &&& s.end == (Context { Buf: s.end.Buf, ..s.ready })
                        &&& s.end.Buf@ == bytes
                    } else {
                        s.outcome == Err::<(), LinkError>(LinkError::Format) && s.end == s.ready
                    },
                }
            }
        }
    }
}

/// Whether a link takes the context `start` and the input files `files`
/// through the stages `g`, `l` and `p` to the context `end` with the
/// outcome `r`: the passes run in their order, each on the context that
/// the one before it left, and the first that fails ends the link with
/// its error and leaves the context as it then is.
pub open spec fn linked(
    start: Context,
    files: Seq<File>,
    g: Gathered,
    l: Arranged,
    p: Placed,
    r: Result<(), LinkError>,
    end: Context,
) -> bool {
    &&& gathered(start, files, g)
    &&& if g.outcome is Err {
        r == g.outcome && end == g.end
    } else {
        &&& arranged(g.end, l)
        &&& if l.outcome is Err {
            r == l.outcome && end == l.end
        } else {
            emitted(l.end, p) && r == p.outcome && end == p.end
        }
    }
}

} // verus!
