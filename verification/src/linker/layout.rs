//! The layout passes: binning input sections into output sections, sizing,
//! ordering and placing the chunks of the output.
use vstd::prelude::*;
use crate::linker::abi;
use crate::linker::context::{
    Context, lemma_wf_parts, lemma_grows_trans, lemma_object_ok_grows, merged_key, output_key,
    no_members,
};
use crate::linker::elf::Shdr;
use crate::linker::error::LinkError;
use crate::linker::mergedsection::{
    MergedSection,
    is_order,
    layout_fits,
    laid_out,
    offsets_changed,
};
use crate::linker::objectfile::Objectfile;
use crate::linker::inputsections::InputSection;
use crate::linker::chunker::{is_alloc, is_tbss, IsAllocShdr, IsTbssShdr};
use crate::linker::elf::IMAGE_BASE;
use crate::linker::gotsection::GotSection;
use crate::linker::mergedsection::{pow2, lemma_pow2_positive};
use crate::linker::output::Chunk;
use crate::utils::{AlignToChecked, align_up, lemma_align_up};
use crate::linker::output::{ChunkId, OutputEhdr, OutputPhdr, OutputSection, OutputShdr, SectionRef};

verus! {

/// Whether `after` is the merged section `before` with its fragments laid
/// out and its size and alignment set.
pub open spec fn section_laid_out(before: MergedSection, after: MergedSection) -> bool {
    &&& after.Chunk.Name == before.Chunk.Name
    &&& after.Chunk.Shndx == before.Chunk.Shndx
    &&& after.Chunk.Shdr == (Shdr {
        Size: after.Chunk.Shdr.Size,
        AddrAlign: after.Chunk.Shdr.AddrAlign,
        ..before.Chunk.Shdr
    })
    &&& offsets_changed(before.Map@, after.Map@)
    &&& exists|order: Seq<usize>|
        #![trigger is_order(order, before.Map@)]
        is_order(order, before.Map@) && layout_fits(before.Map@, order) && laid_out(
            after.Map@,
            after.Chunk.Shdr,
            before.Map@,
            order,
        )
}

/// Whether the fragments of the merged section `m`, laid out in their
/// order, do not fit: an offset needs more than 32 bits or the size more
/// than 64.
pub open spec fn section_overflows(m: MergedSection) -> bool {
    exists|order: Seq<usize>|
        #![trigger is_order(order, m.Map@)]
        is_order(order, m.Map@) && !layout_fits(m.Map@, order)
}

/// Whether `after` is the merged section `before` but for the offsets of
/// its fragments and its size and alignment.
pub open spec fn merged_resized(before: MergedSection, after: MergedSection) -> bool {
    &&& after.Chunk.Name == before.Chunk.Name
    &&& after.Chunk.Shndx == before.Chunk.Shndx
    &&& after.Chunk.Shdr == (Shdr {
        Size: after.Chunk.Shdr.Size,
        AddrAlign: after.Chunk.Shdr.AddrAlign,
        ..before.Chunk.Shdr
    })
    &&& offsets_changed(before.Map@, after.Map@)
    &&& after.wf()
}

/// A context stays in order where merged sections get other offsets,
/// sizes and alignments.
proof fn lemma_wf_merged_resized(old: Context, new: Context)
    requires
        old.wf(),
        new == (Context { MergedSections: new.MergedSections, ..old }),
        new.MergedSections@.len() == old.MergedSections@.len(),
        forall|m: int|
            0 <= m < old.MergedSections@.len() ==> merged_resized(
                old.MergedSections@[m],
                #[trigger] new.MergedSections@[m],
            ),
    ensures
        new.wf(),
        new.grows_from(old),
{
    reveal(Context::wf);
    lemma_grows_trans(old, old, old);
    assert(new.grows_from(old)) by {
        assert forall|i: int, k: int|
            0 <= i < old.MergedSections@.len() && 0 <= k
                < old.MergedSections@[i].Map@.len() implies (
        #[trigger] new.MergedSections@[i].Map@[k]).Key@ == old.MergedSections@[i].Map@[k].Key@ by {
            assert(merged_resized(old.MergedSections@[i], new.MergedSections@[i]));
        }
        assert forall|i: int| 0 <= i < old.MergedSections@.len() implies merged_key(
            #[trigger] new.MergedSections@[i],
        ) == merged_key(old.MergedSections@[i]) by {
            assert(merged_resized(old.MergedSections@[i], new.MergedSections@[i]));
        }
        assert forall|i: int|
            0 <= i < old.MergedSections@.len() implies old.MergedSections@[i].Map@.len() <= (
        #[trigger] new.MergedSections@[i]).Map@.len() by {
            assert(merged_resized(old.MergedSections@[i], new.MergedSections@[i]));
        }
    }
    assert forall|o: int| 0 <= o < new.Objs@.len() implies #[trigger] new.object_ok(o) by {
        assert(old.object_ok(o));
        lemma_object_ok_grows(old, new, old.Objs@[o], o);
    }
    assert forall|g: int| 0 <= g < new.SymbolMap@.len() implies new.symbol_ok(
        #[trigger] new.SymbolMap@[g],
    ) by {
        let sym = old.SymbolMap@[g];
        assert(old.symbol_ok(sym));
        if let Some(r) = sym.SectionFragment {
            assert(merged_resized(
                old.MergedSections@[r.Section as int],
                new.MergedSections@[r.Section as int],
            ));
        }
    }
    assert(new.merged_ok()) by {
        assert(old.merged_ok());
        assert forall|i: int, j: int|
            0 <= i < j < new.MergedSections@.len() implies merged_key(new.MergedSections@[i])
            != merged_key(new.MergedSections@[j]) by {
            assert(merged_resized(old.MergedSections@[i], new.MergedSections@[i]));
            assert(merged_resized(old.MergedSections@[j], new.MergedSections@[j]));
            assert(merged_key(old.MergedSections@[i]) != merged_key(old.MergedSections@[j]));
        }
        assert forall|i: int| 0 <= i < new.MergedSections@.len() implies (
        #[trigger] new.MergedSections@[i]).wf() by {
            assert(merged_resized(old.MergedSections@[i], new.MergedSections@[i]));
        }
        assert forall|i: int, k: int|
            0 <= i < new.MergedSections@.len() && 0 <= k
                < new.MergedSections@[i].Map@.len() implies (
        #[trigger] new.MergedSections@[i].Map@[k]).Frag.OutputSection == i by {
            assert(merged_resized(old.MergedSections@[i], new.MergedSections@[i]));
            assert(old.MergedSections@[i].Map@[k].Frag.OutputSection == i);
        }
    }
}

/// Lays out the fragments of every merged section and sets the size and
/// the alignment of each. Stops at the first section whose fragments do
/// not fit.
pub fn ComputeMergedSectionSizes(ctx: &mut Context) -> (r: Result<(), LinkError>)
    requires
        old(ctx).wf(),
    ensures
        final(ctx).wf(),
        final(ctx).grows_from(*old(ctx)),
        *final(ctx) == (Context { MergedSections: final(ctx).MergedSections, ..*old(ctx) }),
        final(ctx).MergedSections@.len() == old(ctx).MergedSections@.len(),
        forall|m: int|
            0 <= m < old(ctx).MergedSections@.len() ==> merged_resized(
                old(ctx).MergedSections@[m],
                #[trigger] final(ctx).MergedSections@[m],
            ),
        r is Ok ==> forall|m: int|
            0 <= m < old(ctx).MergedSections@.len() ==> section_laid_out(
                old(ctx).MergedSections@[m],
                #[trigger] final(ctx).MergedSections@[m],
            ),
        r is Err ==> r == Err::<(), LinkError>(LinkError::TooLarge) && exists|m: int|
            0 <= m < old(ctx).MergedSections@.len() && section_overflows(
                #[trigger] old(ctx).MergedSections@[m],
            ),
{
    proof {
        lemma_wf_parts(*ctx);
    }
    let n: usize = ctx.MergedSections.len();
    let mut m: usize = 0;
    while m < n
        invariant
            m <= n,
            n == old(ctx).MergedSections@.len(),
            old(ctx).wf(),
            old(ctx).merged_ok(),
            *ctx == (Context { MergedSections: ctx.MergedSections, ..*old(ctx) }),
            ctx.MergedSections@.len() == n,
            forall|j: int| m <= j < n ==> ctx.MergedSections@[j] == old(ctx).MergedSections@[j],
            forall|j: int|
                0 <= j < m ==> merged_resized(
                    old(ctx).MergedSections@[j],
                    #[trigger] ctx.MergedSections@[j],
                ),
            forall|j: int|
                0 <= j < m ==> section_laid_out(
                    old(ctx).MergedSections@[j],
                    #[trigger] ctx.MergedSections@[j],
                ),
        decreases n - m,
    {
        assert(old(ctx).MergedSections@[m as int].wf());
        let ghost before = ctx.MergedSections@;
        let res = ctx.MergedSections[m].AssignOffsets();
        proof {
            assert forall|j: int| 0 <= j < n implies merged_resized(
                old(ctx).MergedSections@[j],
                #[trigger] ctx.MergedSections@[j],
            ) by {
                if j < m {
                    assert(ctx.MergedSections@[j] == before[j]);
                    assert(merged_resized(old(ctx).MergedSections@[j], before[j]));
                } else if j > m {
                    assert(old(ctx).MergedSections@[j].wf());
                    assert(ctx.MergedSections@[j] == old(ctx).MergedSections@[j]);
                }
            }
            assert forall|j: int| 0 <= j < m implies section_laid_out(
                old(ctx).MergedSections@[j],
                #[trigger] ctx.MergedSections@[j],
            ) by {
                assert(section_laid_out(old(ctx).MergedSections@[j], before[j]));
            }
        }
        match res {
            Ok(()) => {},
            Err(e) => {
                proof {
                    lemma_wf_merged_resized(*old(ctx), *ctx);
                    assert(section_overflows(old(ctx).MergedSections@[m as int]));
                }
                return Err(LinkError::TooLarge);
            },
        }
        m = m + 1;
    }
    proof {
        lemma_wf_merged_resized(*old(ctx), *ctx);
    }
    Ok(())
}

/// Makes the three chunks that carry headers and puts them at the end of
/// the list of chunks: the file header, the table of program headers, the
/// table of section headers, in this order.
pub fn CreateSyntheticSections(ctx: &mut Context)
    requires
        old(ctx).wf(),
    ensures
        final(ctx).wf(),
        final(ctx).grows_from(*old(ctx)),
        *final(ctx) == (Context {
            Ehdr: final(ctx).Ehdr,
            Phdr: final(ctx).Phdr,
            Shdr: final(ctx).Shdr,
            Chunks: final(ctx).Chunks,
            ..*old(ctx)
        }),
        final(ctx).Chunks@ == old(ctx).Chunks@ + seq![ChunkId::Ehdr, ChunkId::Phdr, ChunkId::Shdr],
        final(ctx).Ehdr.Chunk.Shdr == (Shdr { Flags: abi::SHF_ALLOC, Size: 64, AddrAlign: 8, ..Shdr::zero() }),
        final(ctx).Phdr.Chunk.Shdr == (Shdr { Flags: abi::SHF_ALLOC, AddrAlign: 8, ..Shdr::zero() }),
        final(ctx).Phdr.Phdrs@.len() == 0,
        final(ctx).Shdr.Chunk.Shdr == (Shdr { AddrAlign: 8, ..Shdr::zero() }),
{
    ctx.Ehdr = OutputEhdr::new();
    ctx.Phdr = OutputPhdr::new();
    ctx.Shdr = OutputShdr::new();
    ctx.Chunks.push(ChunkId::Ehdr);
    ctx.Chunks.push(ChunkId::Phdr);
    ctx.Chunks.push(ChunkId::Shdr);
    proof {
        reveal(Context::wf);
        lemma_grows_trans(*old(ctx), *old(ctx), *old(ctx));
        assert(ctx.Chunks@ =~= old(ctx).Chunks@ + seq![ChunkId::Ehdr, ChunkId::Phdr, ChunkId::Shdr]);
        assert forall|o: int| 0 <= o < ctx.Objs@.len() implies #[trigger] ctx.object_ok(o) by {
            assert(old(ctx).object_ok(o));
        }
        assert(ctx.chunks_ok()) by {
            assert forall|k: int| 0 <= k < ctx.Chunks@.len() implies match #[trigger] ctx.Chunks@[k] {
                ChunkId::Output(i) => i < ctx.OutputSections@.len(),
                ChunkId::Merged(m) => m < ctx.MergedSections@.len(),
                _ => true,
            } by {
                if k < old(ctx).Chunks@.len() {
                    assert(ctx.Chunks@[k] == old(ctx).Chunks@[k]);
                }
            }
        }
    }
}

/// The sections among the first `upto` of the object `obj`, which stands
/// at `o`, that are alive and go to the output section at `i`, in their
/// order.
pub open spec fn members_of_object(obj: Objectfile, o: int, i: int, upto: int) -> Seq<SectionRef>
    decreases upto,
{
    if upto <= 0 {
        Seq::empty()
    } else {
        let prev = members_of_object(obj, o, i, upto - 1);
        if obj.Sections@[upto - 1] is Some && obj.Sections@[upto - 1].unwrap().IsAlive
            && obj.Sections@[upto - 1].unwrap().OutputSection == i {
            prev.push(SectionRef { Obj: o as usize, Sec: (upto - 1) as usize })
        } else {
            prev
        }
    }
}

/// The sections of the first `upto` objects that are alive and go to the
/// output section at `i`, object by object in their order.
pub open spec fn members_of(objs: Seq<Objectfile>, i: int, upto: int) -> Seq<SectionRef>
    decreases upto,
{
    if upto <= 0 {
        Seq::empty()
    } else {
        members_of(objs, i, upto - 1) + members_of_object(
            objs[upto - 1],
            upto - 1,
            i,
            objs[upto - 1].Sections@.len() as int,
        )
    }
}

/// Whether the members of the output sections are in order: every member
/// is a section that goes to the output section that lists it, and no
/// output section lists a section twice. An input section so belongs to
/// one output section at most.
pub open spec fn binned_ok(ctx: Context) -> bool {
    &&& forall|i: int, k: int|
        0 <= i < ctx.OutputSections@.len() && 0 <= k < ctx.OutputSections@[i].Members@.len() ==> {
            let m = #[trigger] ctx.OutputSections@[i].Members@[k];
            &&& ctx.section_exists(m.Obj as int, m.Sec as int)
            &&& ctx.Objs@[m.Obj as int].Sections@[m.Sec as int].unwrap().OutputSection == i
        }
    &&& forall|i: int, a: int, b: int|
        0 <= i < ctx.OutputSections@.len() && 0 <= a < b < ctx.OutputSections@[i].Members@.len()
            ==> #[trigger] ctx.OutputSections@[i].Members@[a] != #[trigger] ctx.OutputSections@[i].Members@[b]
}

/// Whether `after` are the output sections `before` with other members
/// and nothing else changed.
pub open spec fn members_changed(before: Seq<OutputSection>, after: Seq<OutputSection>) -> bool {
    &&& after.len() == before.len()
    &&& forall|i: int|
        0 <= i < before.len() ==> #[trigger] after[i] == (OutputSection {
            Members: after[i].Members,
            ..before[i]
        })
}

/// A context stays in order where output sections get other members, each
/// of which is a section that an object keeps.
proof fn lemma_wf_members(old: Context, new: Context)
    requires
        old.wf(),
        new == (Context { OutputSections: new.OutputSections, ..old }),
        members_changed(old.OutputSections@, new.OutputSections@),
        forall|i: int, k: int|
            0 <= i < new.OutputSections@.len() && 0 <= k < new.OutputSections@[i].Members@.len()
                ==> new.section_exists(
                (#[trigger] new.OutputSections@[i].Members@[k]).Obj as int,
                new.OutputSections@[i].Members@[k].Sec as int,
            ),
    ensures
        new.wf(),
{
    reveal(Context::wf);
    assert forall|i: int| 0 <= i < old.OutputSections@.len() implies output_key(
        #[trigger] new.OutputSections@[i],
    ) == output_key(old.OutputSections@[i]) by {
        assert(new.OutputSections@[i] == (OutputSection {
            Members: new.OutputSections@[i].Members,
            ..old.OutputSections@[i]
        }));
    }
    assert forall|o: int| 0 <= o < new.Objs@.len() implies #[trigger] new.object_ok(o) by {
        assert(old.object_ok(o));
        let obj = old.Objs@[o];
        assert forall|k: int| 0 <= k < obj.inputFile.LocalSymbols@.len() implies new.local_ok(
            obj,
            o,
            #[trigger] obj.inputFile.LocalSymbols@[k],
        ) by {
            assert(old.local_ok(obj, o, obj.inputFile.LocalSymbols@[k]));
        }
        assert forall|s: int|
            0 <= s < obj.Sections@.len() && (#[trigger] obj.Sections@[s]) is Some implies new.section_placed(
            obj,
            s,
        ) by {
            assert(old.section_placed(obj, s));
        }
        assert forall|m: int| 0 <= m < obj.MergeableSections@.len() implies (
        #[trigger] obj.MergeableSections@[m] matches Some(ms) ==> new.mergeable_ok(ms)) by {
            if let Some(ms) = obj.MergeableSections@[m] {
                assert(old.mergeable_ok(ms));
            }
        }
    }
    assert forall|g: int| 0 <= g < new.SymbolMap@.len() implies new.symbol_ok(
        #[trigger] new.SymbolMap@[g],
    ) by {
        assert(old.symbol_ok(old.SymbolMap@[g]));
    }
    assert(new.outputs_ok()) by {
        assert(old.outputs_ok());
        assert forall|i: int| 0 <= i < new.OutputSections@.len() implies (
        #[trigger] new.OutputSections@[i]).Idx == i by {
            assert(old.OutputSections@[i].Idx == i);
        }
        assert forall|i: int, j: int|
            0 <= i < j < new.OutputSections@.len() implies output_key(new.OutputSections@[i])
            != output_key(new.OutputSections@[j]) by {
            assert(output_key(old.OutputSections@[i]) != output_key(old.OutputSections@[j]));
            assert(output_key(new.OutputSections@[i]) == output_key(old.OutputSections@[i]));
            assert(output_key(new.OutputSections@[j]) == output_key(old.OutputSections@[j]));
        }
    }
}

/// Puts every input section that is alive into the output section that it
/// is assigned to: object by object and, in each object, section by
/// section, so that the members of an output section stand in the order in
/// which they were found. Sections that are not alive are left out.
#[verifier::rlimit(100)]
pub fn BinSections(ctx: &mut Context)
    requires
        old(ctx).wf(),
        no_members(*old(ctx)),
    ensures
        final(ctx).wf(),
        *final(ctx) == (Context { OutputSections: final(ctx).OutputSections, ..*old(ctx) }),
        members_changed(old(ctx).OutputSections@, final(ctx).OutputSections@),
        forall|i: int|
            0 <= i < old(ctx).OutputSections@.len() ==> (#[trigger] final(ctx).OutputSections@[i]).Members@
                == members_of(old(ctx).Objs@, i, old(ctx).Objs@.len() as int),
        binned_ok(*final(ctx)),
{
    proof {
        lemma_wf_parts(*ctx);
    }
    let n: usize = ctx.Objs.len();
    let nout: usize = ctx.OutputSections.len();
    let mut o: usize = 0;
    while o < n
        invariant
            o <= n,
            n == old(ctx).Objs@.len(),
            nout == old(ctx).OutputSections@.len(),
            old(ctx).wf(),
            forall|q: int| 0 <= q < n ==> #[trigger] old(ctx).object_ok(q),
            *ctx == (Context { OutputSections: ctx.OutputSections, ..*old(ctx) }),
            members_changed(old(ctx).OutputSections@, ctx.OutputSections@),
            forall|i: int|
                0 <= i < nout ==> (#[trigger] ctx.OutputSections@[i]).Members@ == members_of(
                    old(ctx).Objs@,
                    i,
                    o as int,
                ),
            forall|i: int, k: int|
                0 <= i < nout && 0 <= k < ctx.OutputSections@[i].Members@.len() ==> {
                    let m = #[trigger] ctx.OutputSections@[i].Members@[k];
                    &&& ctx.section_exists(m.Obj as int, m.Sec as int)
                    &&& ctx.Objs@[m.Obj as int].Sections@[m.Sec as int].unwrap().OutputSection == i
                    &&& m.Obj < o
                },
            forall|i: int, a: int, b: int|
                0 <= i < nout && 0 <= a < b < ctx.OutputSections@[i].Members@.len()
                    ==> #[trigger] ctx.OutputSections@[i].Members@[a] != #[trigger] ctx.OutputSections@[i].Members@[b],
        decreases n - o,
    {
        let ns: usize = ctx.Objs[o].Sections.len();
        let mut s: usize = 0;
        assert forall|i: int| 0 <= i < nout implies (#[trigger] ctx.OutputSections@[i]).Members@
            =~= members_of(old(ctx).Objs@, i, o as int) + members_of_object(
            old(ctx).Objs@[o as int],
            o as int,
            i,
            0,
        ) by {}
        while s < ns
            invariant
                s <= ns,
                o < n,
                n == old(ctx).Objs@.len(),
                ns == old(ctx).Objs@[o as int].Sections@.len(),
                nout == old(ctx).OutputSections@.len(),
                old(ctx).wf(),
                forall|q: int| 0 <= q < n ==> #[trigger] old(ctx).object_ok(q),
                *ctx == (Context { OutputSections: ctx.OutputSections, ..*old(ctx) }),
                members_changed(old(ctx).OutputSections@, ctx.OutputSections@),
                forall|i: int|
                    0 <= i < nout ==> (#[trigger] ctx.OutputSections@[i]).Members@ == members_of(
                        old(ctx).Objs@,
                        i,
                        o as int,
                    ) + members_of_object(old(ctx).Objs@[o as int], o as int, i, s as int),
                forall|i: int, k: int|
                    0 <= i < nout && 0 <= k < ctx.OutputSections@[i].Members@.len() ==> {
                        let m = #[trigger] ctx.OutputSections@[i].Members@[k];
                        &&& ctx.section_exists(m.Obj as int, m.Sec as int)
                        &&& ctx.Objs@[m.Obj as int].Sections@[m.Sec as int].unwrap().OutputSection
                            == i
                        &&& (m.Obj < o || (m.Obj == o && m.Sec < s))
                    },
                forall|i: int, a: int, b: int|
                    0 <= i < nout && 0 <= a < b < ctx.OutputSections@[i].Members@.len()
                        ==> #[trigger] ctx.OutputSections@[i].Members@[a] != #[trigger] ctx.OutputSections@[i].Members@[b],
            decreases ns - s,
        {
            let target: Option<usize> = match &ctx.Objs[o].Sections[s] {
                Some(sec) => if sec.IsAlive {
                    Some(sec.OutputSection)
                } else {
                    None
                },
                None => None,
            };
            let ghost before = ctx.OutputSections@;
            match target {
                Some(idx) => {
                    proof {
                        assert(old(ctx).object_ok(o as int));
                        assert(old(ctx).section_placed(old(ctx).Objs@[o as int], s as int));
                    }
                    ctx.OutputSections[idx].Members.push(SectionRef { Obj: o, Sec: s });
                    proof {
                        assert forall|i: int| 0 <= i < nout implies (
                        #[trigger] ctx.OutputSections@[i]).Members@ =~= members_of(
                            old(ctx).Objs@,
                            i,
                            o as int,
                        ) + members_of_object(old(ctx).Objs@[o as int], o as int, i, s + 1) by {
                            if i != idx {
                                assert(ctx.OutputSections@[i] == before[i]);
                            }
                        }
                        assert forall|i: int, k: int|
                            0 <= i < nout && 0 <= k
                                < ctx.OutputSections@[i].Members@.len() implies ({
                            let m = #[trigger] ctx.OutputSections@[i].Members@[k];
                            &&& ctx.section_exists(m.Obj as int, m.Sec as int)
                            &&& ctx.Objs@[m.Obj as int].Sections@[m.Sec as int].unwrap().OutputSection
                                == i
                            &&& (m.Obj < o || (m.Obj == o && m.Sec < s + 1))
                        }) by {
                            if i != idx {
                                assert(ctx.OutputSections@[i] == before[i]);
                                let m = before[i].Members@[k];
                            } else if k < before[i].Members@.len() {
                                assert(ctx.OutputSections@[i].Members@[k] == before[i].Members@[k]);
                            }
                        }
                        assert forall|i: int, a: int, b: int|
                            0 <= i < nout && 0 <= a < b
                                < ctx.OutputSections@[i].Members@.len() implies #[trigger] ctx.OutputSections@[i].Members@[a]
                            != #[trigger] ctx.OutputSections@[i].Members@[b] by {
                            if i != idx {
                                assert(ctx.OutputSections@[i] == before[i]);
                            } else {
                                assert(ctx.OutputSections@[i].Members@[a] == before[i].Members@[a]);
                                if b < before[i].Members@.len() {
                                    assert(ctx.OutputSections@[i].Members@[b]
                                        == before[i].Members@[b]);
                                }
                            }
                        }
                        assert(members_changed(old(ctx).OutputSections@, ctx.OutputSections@)) by {
                            assert forall|i: int|
                                0 <= i < nout implies #[trigger] ctx.OutputSections@[i] == (
                            OutputSection {
                                Members: ctx.OutputSections@[i].Members,
                                ..old(ctx).OutputSections@[i]
                            }) by {
                                assert(before[i] == (OutputSection {
                                    Members: before[i].Members,
                                    ..old(ctx).OutputSections@[i]
                                }));
                            }
                        }
                    }
                },
                None => {},
            }
            s = s + 1;
        }
        proof {
            assert forall|i: int, k: int|
                0 <= i < nout && 0 <= k < ctx.OutputSections@[i].Members@.len() implies ({
                let m = #[trigger] ctx.OutputSections@[i].Members@[k];
                &&& ctx.section_exists(m.Obj as int, m.Sec as int)
                &&& ctx.Objs@[m.Obj as int].Sections@[m.Sec as int].unwrap().OutputSection == i
                &&& m.Obj < o + 1
            }) by {}
        }
        o = o + 1;
    }
    proof {
        lemma_wf_members(*old(ctx), *ctx);
    }
}

/// The output sections among the first `upto` that have members, as
/// chunks, in their order.
pub open spec fn filled_outputs(secs: Seq<OutputSection>, upto: int) -> Seq<ChunkId>
    decreases upto,
{
    if upto <= 0 {
        Seq::empty()
    } else if secs[upto - 1].Members@.len() > 0 {
        filled_outputs(secs, upto - 1).push(ChunkId::Output((upto - 1) as usize))
    } else {
        filled_outputs(secs, upto - 1)
    }
}

/// The merged sections among the first `upto` that have a size, as
/// chunks, in their order.
pub open spec fn filled_merged(secs: Seq<MergedSection>, upto: int) -> Seq<ChunkId>
    decreases upto,
{
    if upto <= 0 {
        Seq::empty()
    } else if secs[upto - 1].Chunk.Shdr.Size > 0 {
        filled_merged(secs, upto - 1).push(ChunkId::Merged((upto - 1) as usize))
    } else {
        filled_merged(secs, upto - 1)
    }
}

/// The chunks that carry the data of the output: every output section
/// that has members, then every merged section that has a size, each in
/// the order in which the context holds them.
pub fn CollectOutputSections(ctx: &Context) -> (r: Vec<ChunkId>)
    ensures
        r@ == filled_outputs(ctx.OutputSections@, ctx.OutputSections@.len() as int) + filled_merged(
            ctx.MergedSections@,
            ctx.MergedSections@.len() as int,
        ),
{
    let mut out: Vec<ChunkId> = Vec::new();
    let n: usize = ctx.OutputSections.len();
    let mut i: usize = 0;
    while i < n
        invariant
            i <= n,
            n == ctx.OutputSections@.len(),
            out@ == filled_outputs(ctx.OutputSections@, i as int),
        decreases n - i,
    {
        if ctx.OutputSections[i].Members.len() > 0 {
            out.push(ChunkId::Output(i));
        }
        i = i + 1;
    }
    let nm: usize = ctx.MergedSections.len();
    let mut m: usize = 0;
    assert(out@ =~= filled_outputs(ctx.OutputSections@, n as int) + filled_merged(
        ctx.MergedSections@,
        0,
    ));
    while m < nm
        invariant
            m <= nm,
            n == ctx.OutputSections@.len(),
            nm == ctx.MergedSections@.len(),
            out@ == filled_outputs(ctx.OutputSections@, n as int) + filled_merged(
                ctx.MergedSections@,
                m as int,
            ),
        decreases nm - m,
    {
        if ctx.MergedSections[m].Chunk.Shdr.Size > 0 {
            out.push(ChunkId::Merged(m));
            assert(out@ =~= filled_outputs(ctx.OutputSections@, n as int) + filled_merged(
                ctx.MergedSections@,
                m + 1,
            ));
        }
        m = m + 1;
    }
    out
}

/// The member at `k` of the output section at `i`.
pub open spec fn member_sec(ctx: Context, i: int, k: int) -> InputSection {
    let m = ctx.OutputSections@[i].Members@[k];
    ctx.Objs@[m.Obj as int].Sections@[m.Sec as int].unwrap()
}

/// Where the first `k` members of the output section at `i` end: each
/// starts at the next multiple of its alignment behind the one before it.
pub open spec fn member_end(ctx: Context, i: int, k: int) -> int
    decreases k,
{
    if k <= 0 {
        0
    } else {
        align_up(member_end(ctx, i, k - 1), pow2(member_sec(ctx, i, k - 1).P2Align)) + member_sec(
            ctx,
            i,
            k - 1,
        ).ShSize
    }
}

/// Where the member at `k` of the output section at `i` starts.
pub open spec fn member_start(ctx: Context, i: int, k: int) -> int {
    align_up(member_end(ctx, i, k), pow2(member_sec(ctx, i, k).P2Align))
}

/// The largest alignment among the first `k` members of the output
/// section at `i`, as a logarithm.
pub open spec fn member_max_p2(ctx: Context, i: int, k: int) -> u8
    decreases k,
{
    if k <= 0 {
        0
    } else {
        let m = member_max_p2(ctx, i, k - 1);
        if member_sec(ctx, i, k - 1).P2Align > m {
            member_sec(ctx, i, k - 1).P2Align
        } else {
            m
        }
    }
}

/// Whether the output section at `i` of `after` is sized as the members
/// that it has in `before` ask: every member at its start, the section as
/// large as its members together and aligned as its most aligned member.
pub open spec fn output_sized(before: Context, after: Context, i: int) -> bool {
    let n = before.OutputSections@[i].Members@.len() as int;
    &&& forall|k: int| 0 <= k < n ==> (#[trigger] member_sec(after, i, k)).Offset == member_start(before, i, k)
    &&& after.OutputSections@[i].Chunk.Shdr.Size == member_end(before, i, n)
    &&& after.OutputSections@[i].Chunk.Shdr.AddrAlign == pow2(member_max_p2(before, i, n))
}

/// Whether the members of the output section at `i` fit in 64 bits.
pub open spec fn output_fits(ctx: Context, i: int) -> bool {
    member_end(ctx, i, ctx.OutputSections@[i].Members@.len() as int) <= u64::MAX
}

/// Whether `after` is `before` but for the offsets of input sections and
/// the sizes and alignments of output sections.
pub open spec fn sizes_changed(before: Context, after: Context) -> bool {
    &&& after == (Context { Objs: after.Objs, OutputSections: after.OutputSections, ..before })
    &&& after.Objs@.len() == before.Objs@.len()
    &&& forall|o: int|
        0 <= o < before.Objs@.len() ==> {
            &&& #[trigger] after.Objs@[o] == (Objectfile {
                Sections: after.Objs@[o].Sections,
                ..before.Objs@[o]
            })
            &&& after.Objs@[o].Sections@.len() == before.Objs@[o].Sections@.len()
        }
    &&& forall|o: int, s: int|
        0 <= o < before.Objs@.len() && 0 <= s < before.Objs@[o].Sections@.len() ==> match (
            before.Objs@[o].Sections@[s],
            #[trigger] after.Objs@[o].Sections@[s],
        ) {
            (Some(a), Some(b)) => b == (InputSection { Offset: b.Offset, ..a }),
            (None, None) => true,
            _ => false,
        }
    &&& after.OutputSections@.len() == before.OutputSections@.len()
    &&& forall|i: int|
        0 <= i < before.OutputSections@.len() ==> #[trigger] after.OutputSections@[i] == (
        OutputSection {
            Chunk: Chunk {
                Shdr: Shdr {
                    Size: after.OutputSections@[i].Chunk.Shdr.Size,
                    AddrAlign: after.OutputSections@[i].Chunk.Shdr.AddrAlign,
                    ..before.OutputSections@[i].Chunk.Shdr
                },
                ..before.OutputSections@[i].Chunk
            },
            ..before.OutputSections@[i]
        })
}

/// A context stays in order, and so do the members of its output
/// sections, where only offsets, sizes and alignments change.
pub proof fn lemma_wf_sizes(old: Context, new: Context)
    requires
        old.wf(),
        sizes_changed(old, new),
    ensures
        new.wf(),
        new.grows_from(old),
        binned_ok(old) ==> binned_ok(new),
{
    reveal(Context::wf);
    lemma_grows_trans(old, old, old);
    assert(new.grows_from(old));
    assert forall|o: int| 0 <= o < new.Objs@.len() implies #[trigger] new.object_ok(o) by {
        assert(old.object_ok(o));
        let a = old.Objs@[o];
        let b = new.Objs@[o];
        assert forall|s: int| 0 <= s < b.Sections@.len() implies (
        #[trigger] b.Sections@[s] matches Some(sec) ==> sec.Shndx == s && sec.P2Align < 64) by {
            assert(a.Sections@[s] matches Some(sec) ==> sec.Shndx == s && sec.P2Align < 64);
        }
        assert(b.shape_ok());
        assert forall|k: int| 0 <= k < b.inputFile.LocalSymbols@.len() implies new.local_ok(
            b,
            o,
            #[trigger] b.inputFile.LocalSymbols@[k],
        ) by {
            let sym = a.inputFile.LocalSymbols@[k];
            assert(old.local_ok(a, o, sym));
            if let Some(sx) = sym.InputSection {
                assert(a.has_section(sx as int));
            }
        }
        assert forall|s: int|
            0 <= s < b.Sections@.len() && (#[trigger] b.Sections@[s]) is Some implies new.section_placed(
            b,
            s,
        ) by {
            assert(a.Sections@[s] is Some);
            assert(old.section_placed(a, s));
        }
        assert forall|m: int| 0 <= m < b.MergeableSections@.len() implies (
        #[trigger] b.MergeableSections@[m] matches Some(ms) ==> new.mergeable_ok(ms)) by {
            if let Some(ms) = a.MergeableSections@[m] {
                assert(old.mergeable_ok(ms));
            }
        }
    }
    assert forall|g: int| 0 <= g < new.SymbolMap@.len() implies new.symbol_ok(
        #[trigger] new.SymbolMap@[g],
    ) by {
        let sym = old.SymbolMap@[g];
        assert(old.symbol_ok(sym));
        if let Some(s) = sym.InputSection {
            let f = sym.File.unwrap() as int;
            assert(old.section_exists(f, s as int));
            assert(new.Objs@[f].Sections@[s as int] is Some);
        }
    }
    assert(new.outputs_ok()) by {
        assert(old.outputs_ok());
        assert forall|i: int| 0 <= i < new.OutputSections@.len() implies (
        #[trigger] new.OutputSections@[i]).Idx == i by {
            assert(old.OutputSections@[i].Idx == i);
        }
        assert forall|i: int, j: int|
            0 <= i < j < new.OutputSections@.len() implies output_key(new.OutputSections@[i])
            != output_key(new.OutputSections@[j]) by {
            assert(output_key(old.OutputSections@[i]) != output_key(old.OutputSections@[j]));
        }
        assert forall|i: int, k: int|
            0 <= i < new.OutputSections@.len() && 0 <= k
                < new.OutputSections@[i].Members@.len() implies new.section_exists(
            (#[trigger] new.OutputSections@[i].Members@[k]).Obj as int,
            new.OutputSections@[i].Members@[k].Sec as int,
        ) by {
            let m = old.OutputSections@[i].Members@[k];
            assert(old.section_exists(m.Obj as int, m.Sec as int));
            assert(new.Objs@[m.Obj as int].Sections@[m.Sec as int] is Some);
        }
    }
    if binned_ok(old) {
        assert forall|i: int, k: int|
            0 <= i < new.OutputSections@.len() && 0 <= k
                < new.OutputSections@[i].Members@.len() implies ({
            let m = #[trigger] new.OutputSections@[i].Members@[k];
            &&& new.section_exists(m.Obj as int, m.Sec as int)
            &&& new.Objs@[m.Obj as int].Sections@[m.Sec as int].unwrap().OutputSection == i
        }) by {
            let m = old.OutputSections@[i].Members@[k];
            assert(old.section_exists(m.Obj as int, m.Sec as int));
            assert(new.Objs@[m.Obj as int].Sections@[m.Sec as int] is Some);
        }
        assert forall|i: int, a: int, b: int|
            0 <= i < new.OutputSections@.len() && 0 <= a < b
                < new.OutputSections@[i].Members@.len() implies #[trigger] new.OutputSections@[i].Members@[a]
            != #[trigger] new.OutputSections@[i].Members@[b] by {
            assert(old.OutputSections@[i].Members@[a] != old.OutputSections@[i].Members@[b]);
        }
    }
}

/// Where members start and end depends on their sizes and alignments
/// only.
proof fn lemma_member_frame(a: Context, b: Context, i: int, k: int)
    requires
        sizes_changed(a, b),
        binned_ok(a),
        0 <= i < a.OutputSections@.len(),
        0 <= k <= a.OutputSections@[i].Members@.len(),
    ensures
        member_end(a, i, k) == member_end(b, i, k),
        member_max_p2(a, i, k) == member_max_p2(b, i, k),
        k < a.OutputSections@[i].Members@.len() ==> member_start(a, i, k) == member_start(b, i, k),
    decreases k,
{
    if k > 0 {
        lemma_member_frame(a, b, i, k - 1);
        let m = a.OutputSections@[i].Members@[k - 1];
        assert(a.section_exists(m.Obj as int, m.Sec as int));
        assert(b.Objs@[m.Obj as int].Sections@[m.Sec as int] is Some);
    }
    if k < a.OutputSections@[i].Members@.len() {
        let m = a.OutputSections@[i].Members@[k];
        assert(a.section_exists(m.Obj as int, m.Sec as int));
        assert(b.Objs@[m.Obj as int].Sections@[m.Sec as int] is Some);
    }
}

/// Members never end before the members ahead of them.
proof fn lemma_member_end_mono(ctx: Context, i: int, k: int, n: int)
    requires
        ctx.wf(),
        binned_ok(ctx),
        0 <= i < ctx.OutputSections@.len(),
        0 <= k <= n <= ctx.OutputSections@[i].Members@.len(),
    ensures
        0 <= member_end(ctx, i, k) <= member_end(ctx, i, n),
        k < n ==> member_start(ctx, i, k) + member_sec(ctx, i, k).ShSize <= member_end(ctx, i, n),
        k < n ==> member_end(ctx, i, k) <= member_start(ctx, i, k),
    decreases n,
{
    if n > 0 {
        lemma_member_p2(ctx, i, n - 1);
        lemma_pow2_positive(member_sec(ctx, i, n - 1).P2Align);
        if k < n {
            lemma_member_end_mono(ctx, i, k, n - 1);
            lemma_member_end_mono(ctx, i, n - 1, n - 1);
            lemma_align_up(member_end(ctx, i, n - 1), pow2(member_sec(ctx, i, n - 1).P2Align));
            if k < n - 1 {
            } else {
            }
            lemma_member_p2(ctx, i, k);
            lemma_pow2_positive(member_sec(ctx, i, k).P2Align);
            lemma_member_end_mono(ctx, i, k, k);
            lemma_align_up(member_end(ctx, i, k), pow2(member_sec(ctx, i, k).P2Align));
        } else {
            lemma_member_end_mono(ctx, i, n - 1, n - 1);
            lemma_align_up(member_end(ctx, i, n - 1), pow2(member_sec(ctx, i, n - 1).P2Align));
        }
    }
}

/// The alignment of every member is a power of two that 64 bits hold.
proof fn lemma_member_p2(ctx: Context, i: int, k: int)
    requires
        ctx.wf(),
        binned_ok(ctx),
        0 <= i < ctx.OutputSections@.len(),
        0 <= k < ctx.OutputSections@[i].Members@.len(),
    ensures
        member_sec(ctx, i, k).P2Align < 64,
        ctx.section_exists(
            ctx.OutputSections@[i].Members@[k].Obj as int,
            ctx.OutputSections@[i].Members@[k].Sec as int,
        ),
        member_sec(ctx, i, k).OutputSection == i,
{
    reveal(Context::wf);
    let m = ctx.OutputSections@[i].Members@[k];
    assert(ctx.section_exists(m.Obj as int, m.Sec as int));
    assert(ctx.object_ok(m.Obj as int));
    assert(ctx.Objs@[m.Obj as int].shape_ok());
    assert(ctx.Objs@[m.Obj as int].Sections@[m.Sec as int] matches Some(sec) ==> sec.P2Align < 64);
}

proof fn lemma_member_max_bound(ctx: Context, i: int, k: int)
    requires
        ctx.wf(),
        binned_ok(ctx),
        0 <= i < ctx.OutputSections@.len(),
        0 <= k <= ctx.OutputSections@[i].Members@.len(),
    ensures
        member_max_p2(ctx, i, k) < 64,
    decreases k,
{
    if k > 0 {
        lemma_member_max_bound(ctx, i, k - 1);
        lemma_member_p2(ctx, i, k - 1);
    }
}

/// Whether `after` is `before` but for the output section at `i`: its
/// size and alignment and the offsets of the sections that go to it.
pub open spec fn only_output_sized(before: Context, after: Context, i: int) -> bool {
    &&& sizes_changed(before, after)
    &&& forall|j: int|
        0 <= j < before.OutputSections@.len() && j != i ==> #[trigger] after.OutputSections@[j]
            == before.OutputSections@[j]
    &&& forall|o: int, s: int|
        0 <= o < before.Objs@.len() && 0 <= s < before.Objs@[o].Sections@.len() && (
        before.Objs@[o].Sections@[s] matches Some(sec) ==> sec.OutputSection != i)
            ==> #[trigger] after.Objs@[o].Sections@[s] == before.Objs@[o].Sections@[s]
}

/// Gives every member of the output section at `i` its offset and the
/// section its size and alignment. Where the members do not fit in 64
/// bits the section header stays as it is.
#[verifier::rlimit(100)]
fn SizeOutputSection(ctx: &mut Context, i: usize) -> (r: Result<(), LinkError>)
    requires
        old(ctx).wf(),
        binned_ok(*old(ctx)),
        i < old(ctx).OutputSections@.len(),
    ensures
        final(ctx).wf(),
        binned_ok(*final(ctx)),
        only_output_sized(*old(ctx), *final(ctx), i as int),
        r is Ok <==> output_fits(*old(ctx), i as int),
        r is Ok ==> output_sized(*old(ctx), *final(ctx), i as int),
        r is Err ==> r == Err::<(), LinkError>(LinkError::TooLarge),
{
    let n: usize = ctx.OutputSections[i].Members.len();
    let mut offset: u64 = 0;
    let mut widest: u8 = 0;
    let mut k: usize = 0;
    while k < n
        invariant
            k <= n,
            i < old(ctx).OutputSections@.len(),
            n == old(ctx).OutputSections@[i as int].Members@.len(),
            old(ctx).wf(),
            binned_ok(*old(ctx)),
            sizes_changed(*old(ctx), *ctx),
            ctx.OutputSections@ == old(ctx).OutputSections@,
            forall|o: int, s: int|
                0 <= o < old(ctx).Objs@.len() && 0 <= s < old(ctx).Objs@[o].Sections@.len() && (old(ctx).Objs@[o].Sections@[s] matches Some(sec) ==> sec.OutputSection != i)
                    ==> #[trigger] ctx.Objs@[o].Sections@[s] == old(ctx).Objs@[o].Sections@[s],
            offset == member_end(*old(ctx), i as int, k as int),
            widest == member_max_p2(*old(ctx), i as int, k as int),
            widest < 64,
            forall|q: int|
                0 <= q < k ==> (#[trigger] member_sec(*ctx, i as int, q)).Offset == member_start(
                    *old(ctx),
                    i as int,
                    q,
                ),
        decreases n - k,
    {
        let m = ctx.OutputSections[i].Members[k];
        proof {
            lemma_member_p2(*old(ctx), i as int, k as int);
            lemma_pow2_positive(member_sec(*old(ctx), i as int, k as int).P2Align);
            lemma_member_end_mono(*old(ctx), i as int, k as int, n as int);
            assert(old(ctx).section_exists(m.Obj as int, m.Sec as int));
        }
        let ghost before = *ctx;
        let (p, size): (u8, u64) = match &ctx.Objs[m.Obj].Sections[m.Sec] {
            Some(sec) => (sec.P2Align, sec.ShSize),
            None => (0, 0),
        };
        assert(p == member_sec(*old(ctx), i as int, k as int).P2Align);
        assert(size == member_sec(*old(ctx), i as int, k as int).ShSize);
        let start: u64 = match AlignToChecked(offset, 1u64 << (p as u64)) {
            Some(v) => v,
            None => {
                proof {
                    lemma_wf_sizes(*old(ctx), *ctx);
                }
                return Err(LinkError::TooLarge);
            },
        };
        if size > u64::MAX - start {
            proof {
                lemma_wf_sizes(*old(ctx), *ctx);
            }
            return Err(LinkError::TooLarge);
        }
        match &mut ctx.Objs[m.Obj].Sections[m.Sec] {
            Some(sec) => {
                sec.Offset = start;
            },
            None => {},
        }
        offset = start + size;
        if p > widest {
            widest = p;
        }
        proof {
            assert(sizes_changed(*old(ctx), *ctx)) by {
                assert forall|o: int, s: int|
                    0 <= o < old(ctx).Objs@.len() && 0 <= s < old(ctx).Objs@[o].Sections@.len() implies match (
                    old(ctx).Objs@[o].Sections@[s],
                    #[trigger] ctx.Objs@[o].Sections@[s],
                ) {
                    (Some(a), Some(b)) => b == (InputSection { Offset: b.Offset, ..a }),
                    (None, None) => true,
                    _ => false,
                } by {
                    if o != m.Obj || s != m.Sec {
                        assert(ctx.Objs@[o].Sections@[s] == before.Objs@[o].Sections@[s]);
                    }
                }
                assert forall|o: int| 0 <= o < old(ctx).Objs@.len() implies ({
                    &&& #[trigger] ctx.Objs@[o] == (Objectfile {
                        Sections: ctx.Objs@[o].Sections,
                        ..old(ctx).Objs@[o]
                    })
                    &&& ctx.Objs@[o].Sections@.len() == old(ctx).Objs@[o].Sections@.len()
                }) by {
                    assert(before.Objs@[o] == (Objectfile {
                        Sections: before.Objs@[o].Sections,
                        ..old(ctx).Objs@[o]
                    }));
                }
            }
            assert forall|o: int, s: int|
                0 <= o < old(ctx).Objs@.len() && 0 <= s < old(ctx).Objs@[o].Sections@.len() && (old(ctx).Objs@[o].Sections@[s] matches Some(sec) ==> sec.OutputSection
                    != i) implies #[trigger] ctx.Objs@[o].Sections@[s] == old(ctx).Objs@[o].Sections@[s] by {
                if o != m.Obj || s != m.Sec {
                    assert(ctx.Objs@[o].Sections@[s] == before.Objs@[o].Sections@[s]);
                }
            }
            assert forall|q: int| 0 <= q < k + 1 implies (#[trigger] member_sec(
                *ctx,
                i as int,
                q,
            )).Offset == member_start(*old(ctx), i as int, q) by {
                let mq = old(ctx).OutputSections@[i as int].Members@[q];
                if q < k {
                    assert(mq != m);
                    lemma_member_p2(*old(ctx), i as int, q);
                    assert(ctx.Objs@[mq.Obj as int].Sections@[mq.Sec as int]
                        == before.Objs@[mq.Obj as int].Sections@[mq.Sec as int]);
                    assert(member_sec(*ctx, i as int, q) == member_sec(before, i as int, q));
                }
            }
        }
        k = k + 1;
    }
    let ghost mid = *ctx;
    ctx.OutputSections[i].Chunk.Shdr.Size = offset;
    ctx.OutputSections[i].Chunk.Shdr.AddrAlign = 1u64 << (widest as u64);
    proof {
        assert(ctx.Objs == mid.Objs);
        assert(ctx.OutputSections@[i as int].Members == mid.OutputSections@[i as int].Members);
        assert(sizes_changed(*old(ctx), *ctx));
        lemma_wf_sizes(*old(ctx), *ctx);
        assert forall|q: int| 0 <= q < n implies (#[trigger] member_sec(*ctx, i as int, q)).Offset
            == member_start(*old(ctx), i as int, q) by {
            assert(member_sec(*ctx, i as int, q) == member_sec(mid, i as int, q));
        }
    }
    Ok(())
}

/// Gives every input section that is a member of an output section its
/// offset in that section, and every output section its size and
/// alignment: the members follow each other in their order, each at the
/// next multiple of its alignment, and the section is aligned as its most
/// aligned member. Stops at the first output section whose members do not
/// fit in 64 bits.
#[verifier::rlimit(100)]
pub fn ComputeSectionSizes(ctx: &mut Context) -> (r: Result<(), LinkError>)
    requires
        old(ctx).wf(),
        binned_ok(*old(ctx)),
    ensures
        final(ctx).wf(),
        binned_ok(*final(ctx)),
        sizes_changed(*old(ctx), *final(ctx)),
        r is Ok ==> forall|i: int|
            0 <= i < old(ctx).OutputSections@.len() ==> #[trigger] output_sized(
                *old(ctx),
                *final(ctx),
                i,
            ),
        r is Err <==> exists|i: int|
            0 <= i < old(ctx).OutputSections@.len() && !#[trigger] output_fits(*old(ctx), i),
        r is Err ==> r == Err::<(), LinkError>(LinkError::TooLarge),
{
    let n: usize = ctx.OutputSections.len();
    let mut i: usize = 0;
    while i < n
        invariant
            i <= n,
            n == old(ctx).OutputSections@.len(),
            old(ctx).wf(),
            binned_ok(*old(ctx)),
            ctx.wf(),
            binned_ok(*ctx),
            sizes_changed(*old(ctx), *ctx),
            forall|j: int| i <= j < n ==> ctx.OutputSections@[j] == old(ctx).OutputSections@[j],
            forall|o: int, s: int|
                0 <= o < old(ctx).Objs@.len() && 0 <= s < old(ctx).Objs@[o].Sections@.len() && (old(ctx).Objs@[o].Sections@[s] matches Some(sec) ==> sec.OutputSection >= i)
                    ==> #[trigger] ctx.Objs@[o].Sections@[s] == old(ctx).Objs@[o].Sections@[s],
            forall|j: int| 0 <= j < i ==> #[trigger] output_sized(*old(ctx), *ctx, j),
            forall|j: int| 0 <= j < i ==> #[trigger] output_fits(*old(ctx), j),
        decreases n - i,
    {
        let ghost before = *ctx;
        let res = SizeOutputSection(ctx, i);
        proof {
            lemma_member_frame(*old(ctx), before, i as int, before.OutputSections@[i as int].Members@.len() as int);
            assert(output_fits(before, i as int) == output_fits(*old(ctx), i as int));
            assert(sizes_changed(*old(ctx), *ctx)) by {
                assert forall|o: int| 0 <= o < old(ctx).Objs@.len() implies ({
                    &&& #[trigger] ctx.Objs@[o] == (Objectfile {
                        Sections: ctx.Objs@[o].Sections,
                        ..old(ctx).Objs@[o]
                    })
                    &&& ctx.Objs@[o].Sections@.len() == old(ctx).Objs@[o].Sections@.len()
                }) by {
                    assert(before.Objs@[o] == (Objectfile {
                        Sections: before.Objs@[o].Sections,
                        ..old(ctx).Objs@[o]
                    }));
                }
                assert forall|o: int, s: int|
                    0 <= o < old(ctx).Objs@.len() && 0 <= s < old(ctx).Objs@[o].Sections@.len() implies match (
                    old(ctx).Objs@[o].Sections@[s],
                    #[trigger] ctx.Objs@[o].Sections@[s],
                ) {
                    (Some(a), Some(b)) => b == (InputSection { Offset: b.Offset, ..a }),
                    (None, None) => true,
                    _ => false,
                } by {
                    let x = before.Objs@[o].Sections@[s];
                    assert(match (old(ctx).Objs@[o].Sections@[s], x) {
                        (Some(a), Some(b)) => b == (InputSection { Offset: b.Offset, ..a }),
                        (None, None) => true,
                        _ => false,
                    });
                }
                assert forall|j: int|
                    0 <= j < old(ctx).OutputSections@.len() implies #[trigger] ctx.OutputSections@[j]
                    == (OutputSection {
                    Chunk: Chunk {
                        Shdr: Shdr {
                            Size: ctx.OutputSections@[j].Chunk.Shdr.Size,
                            AddrAlign: ctx.OutputSections@[j].Chunk.Shdr.AddrAlign,
                            ..old(ctx).OutputSections@[j].Chunk.Shdr
                        },
                        ..old(ctx).OutputSections@[j].Chunk
                    },
                    ..old(ctx).OutputSections@[j]
                }) by {
                    assert(before.OutputSections@[j] == (OutputSection {
                        Chunk: Chunk {
                            Shdr: Shdr {
                                Size: before.OutputSections@[j].Chunk.Shdr.Size,
                                AddrAlign: before.OutputSections@[j].Chunk.Shdr.AddrAlign,
                                ..old(ctx).OutputSections@[j].Chunk.Shdr
                            },
                            ..old(ctx).OutputSections@[j].Chunk
                        },
                        ..old(ctx).OutputSections@[j]
                    }));
                }
            }
            assert forall|o: int, s: int|
                0 <= o < old(ctx).Objs@.len() && 0 <= s < old(ctx).Objs@[o].Sections@.len() && (old(ctx).Objs@[o].Sections@[s] matches Some(sec) ==> sec.OutputSection >= i
                    + 1) implies #[trigger] ctx.Objs@[o].Sections@[s] == old(ctx).Objs@[o].Sections@[s] by {
                assert(before.Objs@[o].Sections@[s] == old(ctx).Objs@[o].Sections@[s]);
            }
            assert forall|j: int| 0 <= j < i implies #[trigger] output_sized(*old(ctx), *ctx, j) by {
                assert(output_sized(*old(ctx), before, j));
                let nj = old(ctx).OutputSections@[j].Members@.len() as int;
                assert forall|k: int| 0 <= k < nj implies (#[trigger] member_sec(*ctx, j, k)).Offset
                    == member_start(*old(ctx), j, k) by {
                    lemma_member_p2(before, j, k);
                    let m = before.OutputSections@[j].Members@[k];
                    assert(ctx.Objs@[m.Obj as int].Sections@[m.Sec as int]
                        == before.Objs@[m.Obj as int].Sections@[m.Sec as int]);
                    assert(member_sec(before, j, k).Offset == member_start(*old(ctx), j, k));
                }
            }
            if res is Ok {
                assert(output_sized(*old(ctx), *ctx, i as int)) by {
                    assert(output_sized(before, *ctx, i as int));
                    let ni = old(ctx).OutputSections@[i as int].Members@.len() as int;
                    assert forall|k: int| 0 <= k < ni implies (#[trigger] member_sec(
                        *ctx,
                        i as int,
                        k,
                    )).Offset == member_start(*old(ctx), i as int, k) by {
                        lemma_member_frame(*old(ctx), before, i as int, k);
                    }
                }
            }
        }
        match res {
            Ok(()) => {},
            Err(e) => {
                assert(!output_fits(*old(ctx), i as int));
                return Err(LinkError::TooLarge);
            },
        }
        i = i + 1;
    }
    Ok(())
}

/// Where the address cursor stands before the chunk at `k`: at the image
/// base before the first chunk; behind every allocated chunk at the end of
/// that chunk, which starts at the next multiple of its alignment; a chunk
/// of zero-initialized thread-local data does not move it, nor does a chunk
/// that is not allocated.
pub open spec fn addr_cursor(shdrs: Seq<Shdr>, k: int) -> int
    decreases k,
{
    if k <= 0 {
        IMAGE_BASE as int
    } else {
        let c = shdrs[k - 1];
        let prev = addr_cursor(shdrs, k - 1);
        if !is_alloc(c) {
            prev
        } else if is_tbss(c) {
            align_up(prev, c.AddrAlign as int)
        } else {
            align_up(prev, c.AddrAlign as int) + c.Size
        }
    }
}

/// The address of the chunk at `k`: the next multiple of its alignment at
/// or behind the cursor for an allocated chunk; the address it had for any
/// other.
pub open spec fn chunk_addr(shdrs: Seq<Shdr>, k: int) -> int {
    if is_alloc(shdrs[k]) {
        align_up(addr_cursor(shdrs, k), shdrs[k].AddrAlign as int)
    } else {
        shdrs[k].Addr as int
    }
}

/// The end of the run of chunks that take their file offset from their
/// address: the first chunk and the allocated chunks directly behind it.
pub open spec fn alloc_run(shdrs: Seq<Shdr>, from: int) -> int
    decreases shdrs.len() - from,
{
    if from >= shdrs.len() || !is_alloc(shdrs[from]) {
        from
    } else {
        alloc_run(shdrs, from + 1)
    }
}

/// Where the file offset cursor stands before the chunk at `k`, for the
/// chunks behind the run of `run` chunks that take their offset from their
/// address: behind the last chunk of that run at first, then behind every
/// chunk at its end.
pub open spec fn off_cursor(shdrs: Seq<Shdr>, run: int, k: int) -> int
    decreases k - run,
{
    if k <= run {
        chunk_addr(shdrs, run - 1) - chunk_addr(shdrs, 0) + shdrs[run - 1].Size
    } else {
        align_up(off_cursor(shdrs, run, k - 1), shdrs[k - 1].AddrAlign as int) + shdrs[k - 1].Size
    }
}

/// The file offset of the chunk at `k`: its address less the address of
/// the first chunk inside the run of `run` chunks; the next multiple of its
/// alignment at or behind the cursor behind that run.
pub open spec fn chunk_offset(shdrs: Seq<Shdr>, run: int, k: int) -> int {
    if k < run {
        chunk_addr(shdrs, k) - chunk_addr(shdrs, 0)
    } else {
        align_up(off_cursor(shdrs, run, k), shdrs[k].AddrAlign as int)
    }
}

/// Whether every address and file offset of the placement of `shdrs` fits
/// in 64 bits.
pub open spec fn placement_fits(shdrs: Seq<Shdr>) -> bool {
    let run = alloc_run(shdrs, 1);
    &&& forall|k: int| 0 <= k <= shdrs.len() ==> #[trigger] addr_cursor(shdrs, k) <= u64::MAX
    &&& forall|k: int| 0 <= k < shdrs.len() ==> #[trigger] chunk_addr(shdrs, k) <= u64::MAX
    &&& forall|k: int|
        0 <= k < shdrs.len() ==> 0 <= #[trigger] chunk_offset(shdrs, run, k) <= u64::MAX
    &&& forall|k: int| run <= k <= shdrs.len() ==> 0 <= #[trigger] off_cursor(shdrs, run, k) <= u64::MAX
}

/// Whether `after` are the headers `before` placed: each with its address
/// and its file offset, and nothing else changed.
pub open spec fn placed_shdrs(before: Seq<Shdr>, after: Seq<Shdr>) -> bool {
    let run = alloc_run(before, 1);
    &&& after.len() == before.len()
    &&& forall|k: int|
        0 <= k < before.len() ==> #[trigger] after[k] == (Shdr {
            Addr: chunk_addr(before, k) as u64,
            Offset: chunk_offset(before, run, k) as u64,
            ..before[k]
        })
}

/// The size of the file that the placement of `shdrs` gives: where the
/// last chunk ends; 0 without chunks.
pub open spec fn placed_size(shdrs: Seq<Shdr>) -> int {
    if shdrs.len() == 0 {
        0
    } else {
        off_cursor(shdrs, alloc_run(shdrs, 1), shdrs.len() as int)
    }
}

proof fn lemma_alloc_run_bounds(shdrs: Seq<Shdr>, from: int)
    requires
        0 <= from <= shdrs.len(),
    ensures
        from <= alloc_run(shdrs, from) <= shdrs.len(),
    decreases shdrs.len() - from,
{
    if from < shdrs.len() && is_alloc(shdrs[from]) {
        lemma_alloc_run_bounds(shdrs, from + 1);
    }
}

/// Gives every header of `shdrs` its address and its file offset and
/// returns the size of the file. Allocated chunks get rising addresses
/// from the image base on, each a multiple of its alignment; the first
/// chunk and the allocated chunks directly behind it get the file offset
/// that their distance from the first chunk gives; every chunk behind
/// them follows the chunk before it in the file, at a multiple of its
/// alignment.
#[verifier::rlimit(100)]
pub fn PlaceShdrs(shdrs: &mut Vec<Shdr>) -> (r: Result<u64, LinkError>)
    ensures
        final(shdrs)@.len() == old(shdrs)@.len(),
        forall|k: int|
            0 <= k < old(shdrs)@.len() ==> #[trigger] final(shdrs)@[k] == (Shdr {
                Addr: final(shdrs)@[k].Addr,
                Offset: final(shdrs)@[k].Offset,
                ..old(shdrs)@[k]
            }),
        r is Ok <==> placement_fits(old(shdrs)@),
        r is Ok ==> placed_shdrs(old(shdrs)@, final(shdrs)@) && r.unwrap() == placed_size(
            old(shdrs)@,
        ),
        r is Err ==> r == Err::<u64, LinkError>(LinkError::TooLarge),
{
    let n: usize = shdrs.len();
    if n == 0 {
        assert(addr_cursor(shdrs@, 0) <= u64::MAX);
        proof {
            lemma_alloc_run_bounds(shdrs@, 0);
        }
        assert(placement_fits(shdrs@)) by {
            assert(alloc_run(shdrs@, 1) == 1);
        }
        return Ok(0);
    }
    let ghost s0 = shdrs@;
    let mut addr: u64 = IMAGE_BASE;
    let mut k: usize = 0;
    while k < n
        invariant
            k <= n,
            n == s0.len(),
            s0 == old(shdrs)@,
            shdrs@.len() == n,
            addr == addr_cursor(s0, k as int),
            forall|j: int| 0 <= j <= k ==> 0 <= #[trigger] addr_cursor(s0, j) <= u64::MAX,
            forall|j: int| 0 <= j < k ==> 0 <= #[trigger] chunk_addr(s0, j) <= u64::MAX,
            forall|j: int|
                0 <= j < n ==> #[trigger] shdrs@[j] == (if j < k {
                    Shdr { Addr: chunk_addr(s0, j) as u64, ..s0[j] }
                } else {
                    s0[j]
                }),
        decreases n - k,
    {
        let c = shdrs[k];
        if IsAllocShdr(&c) {
            let a: u64 = match AlignToChecked(addr, c.AddrAlign) {
                Some(v) => v,
                None => {
                    assert(chunk_addr(s0, k as int) > u64::MAX);
                    return Err(LinkError::TooLarge);
                },
            };
            shdrs[k].Addr = a;
            if !IsTbssShdr(&c) {
                if c.Size > u64::MAX - a {
                    assert(addr_cursor(s0, k + 1) > u64::MAX);
                    return Err(LinkError::TooLarge);
                }
                addr = a + c.Size;
            } else {
                addr = a;
            }
        }
        k = k + 1;
    }
    let ghost s1 = shdrs@;
    let first: u64 = shdrs[0].Addr;
    let mut i: usize = 0;
    proof {
        lemma_alloc_run_bounds(s0, 1);
    }
    loop
        invariant_except_break
            i < n,
            i == 0 || i < alloc_run(s0, 1),
            i >= 1 ==> is_alloc(s0[i as int]),
            alloc_run(s0, 1) == alloc_run(s0, if i == 0 { 1int } else { i as int }),
        invariant
            i <= n,
            n == s0.len(),
            s1.len() == n,
            s0 == old(shdrs)@,
            shdrs@.len() == n,
            first == chunk_addr(s0, 0),
            1 <= alloc_run(s0, 1) <= n,
            forall|j: int| 0 <= j <= n ==> 0 <= #[trigger] addr_cursor(s0, j) <= u64::MAX,
            forall|j: int| 0 <= j < n ==> 0 <= #[trigger] chunk_addr(s0, j) <= u64::MAX,
            forall|j: int| 0 <= j < n ==> s1[j] == (Shdr { Addr: chunk_addr(s0, j) as u64, ..s0[j] }),
            forall|j: int|
                0 <= j < i ==> 0 <= #[trigger] chunk_offset(s0, alloc_run(s0, 1), j) <= u64::MAX,
            forall|j: int|
                0 <= j < n ==> #[trigger] shdrs@[j] == (if j < i {
                    Shdr { Offset: chunk_offset(s0, alloc_run(s0, 1), j) as u64, ..s1[j] }
                } else {
                    s1[j]
                }),
        ensures
            i == alloc_run(s0, 1),
        decreases n - i,
    {
        let a: u64 = shdrs[i].Addr;
        if a < first {
            proof {
                assert(chunk_offset(s0, alloc_run(s0, 1), i as int) < 0);
            }
            return Err(LinkError::TooLarge);
        }
        let ghost prev = shdrs@;
        shdrs[i].Offset = a - first;
        proof {
            let run = alloc_run(s0, 1);
            assert(prev[i as int] == s1[i as int]);
            assert(a == chunk_addr(s0, i as int));
            assert(chunk_offset(s0, run, i as int) == a - first);
            assert forall|j: int| 0 <= j < n implies #[trigger] shdrs@[j] == (if j < i + 1 {
                Shdr { Offset: chunk_offset(s0, run, j) as u64, ..s1[j] }
            } else {
                s1[j]
            }) by {
                if j != i {
                    assert(shdrs@[j] == prev[j]);
                }
            }
        }
        proof {
            if i >= 1 {
                assert(alloc_run(s0, i as int) == alloc_run(s0, i + 1));
            }
        }
        i = i + 1;
        assert(alloc_run(s0, 1) == alloc_run(s0, i as int));
        if i >= n || !IsAllocShdr(&shdrs[i]) {
            proof {
                if i < n {
                    assert(shdrs@[i as int].Flags == s0[i as int].Flags);
                }
            }
            break ;
        }
        proof {
            assert(shdrs@[i as int].Flags == s0[i as int].Flags);
            lemma_alloc_run_bounds(s0, i + 1);
        }
    }
    let ghost run = alloc_run(s0, 1);
    let last = shdrs[i - 1];
    if last.Size > u64::MAX - last.Offset {
        assert(off_cursor(s0, run, run) > u64::MAX);
        return Err(LinkError::TooLarge);
    }
    let mut fileoff: u64 = last.Offset + last.Size;
    while i < n
        invariant
            run <= i <= n,
            n == s0.len(),
            s1.len() == n,
            s0 == old(shdrs)@,
            shdrs@.len() == n,
            run == alloc_run(s0, 1),
            1 <= run <= n,
            fileoff == off_cursor(s0, run, i as int),
            forall|j: int| 0 <= j <= n ==> 0 <= #[trigger] addr_cursor(s0, j) <= u64::MAX,
            forall|j: int| 0 <= j < n ==> 0 <= #[trigger] chunk_addr(s0, j) <= u64::MAX,
            forall|j: int| 0 <= j < n ==> s1[j] == (Shdr { Addr: chunk_addr(s0, j) as u64, ..s0[j] }),
            forall|j: int| 0 <= j < i ==> 0 <= #[trigger] chunk_offset(s0, run, j) <= u64::MAX,
            forall|j: int| run <= j <= i ==> 0 <= #[trigger] off_cursor(s0, run, j) <= u64::MAX,
            forall|j: int|
                0 <= j < n ==> #[trigger] shdrs@[j] == (if j < i {
                    Shdr { Offset: chunk_offset(s0, run, j) as u64, ..s1[j] }
                } else {
                    s1[j]
                }),
        decreases n - i,
    {
        let c = shdrs[i];
        let off: u64 = match AlignToChecked(fileoff, c.AddrAlign) {
            Some(v) => v,
            None => {
                assert(chunk_offset(s0, run, i as int) > u64::MAX);
                return Err(LinkError::TooLarge);
            },
        };
        proof {
            if c.AddrAlign > 0 {
                lemma_align_up(fileoff as int, c.AddrAlign as int);
            }
        }
        shdrs[i].Offset = off;
        if c.Size > u64::MAX - off {
            assert(off_cursor(s0, run, i + 1) > u64::MAX);
            return Err(LinkError::TooLarge);
        }
        fileoff = off + c.Size;
        i = i + 1;
    }
    Ok(fileoff)
}

/// Whether `b` is the chunk `a` at another address and file offset.
pub open spec fn moved_chunk(a: Chunk, b: Chunk) -> bool {
    b == (Chunk { Shdr: Shdr { Addr: b.Shdr.Addr, Offset: b.Shdr.Offset, ..a.Shdr }, ..a })
}

/// Whether `after` is `before` but for the addresses and file offsets of
/// chunks.
pub open spec fn places_changed(before: Context, after: Context) -> bool {
    &&& after == (Context {
        Ehdr: after.Ehdr,
        Phdr: after.Phdr,
        Shdr: after.Shdr,
        Got: after.Got,
        OutputSections: after.OutputSections,
        MergedSections: after.MergedSections,
        ..before
    })
    &&& after.Ehdr == (OutputEhdr { Chunk: after.Ehdr.Chunk })
    &&& moved_chunk(before.Ehdr.Chunk, after.Ehdr.Chunk)
    &&& after.Phdr == (OutputPhdr { Chunk: after.Phdr.Chunk, ..before.Phdr })
    &&& moved_chunk(before.Phdr.Chunk, after.Phdr.Chunk)
    &&& after.Shdr == (OutputShdr { Chunk: after.Shdr.Chunk })
    &&& moved_chunk(before.Shdr.Chunk, after.Shdr.Chunk)
    &&& after.Got == (GotSection { Chunk: after.Got.Chunk, ..before.Got })
    &&& moved_chunk(before.Got.Chunk, after.Got.Chunk)
    &&& after.OutputSections@.len() == before.OutputSections@.len()
    &&& forall|i: int|
        0 <= i < before.OutputSections@.len() ==> #[trigger] after.OutputSections@[i] == (
        OutputSection { Chunk: after.OutputSections@[i].Chunk, ..before.OutputSections@[i] })
            && moved_chunk(before.OutputSections@[i].Chunk, after.OutputSections@[i].Chunk)
    &&& after.MergedSections@.len() == before.MergedSections@.len()
    &&& forall|m: int|
        0 <= m < before.MergedSections@.len() ==> #[trigger] after.MergedSections@[m] == (
        MergedSection { Chunk: after.MergedSections@[m].Chunk, ..before.MergedSections@[m] })
            && moved_chunk(before.MergedSections@[m].Chunk, after.MergedSections@[m].Chunk)
}

/// A context stays in order, and so do the members of its output
/// sections, where only addresses and file offsets of chunks change.
pub proof fn lemma_wf_places(old: Context, new: Context)
    requires
        old.wf(),
        places_changed(old, new),
    ensures
        new.wf(),
        new.grows_from(old),
        binned_ok(old) ==> binned_ok(new),
{
    reveal(Context::wf);
    lemma_grows_trans(old, old, old);
    assert(new.grows_from(old)) by {
        assert forall|i: int| 0 <= i < old.OutputSections@.len() implies output_key(
            #[trigger] new.OutputSections@[i],
        ) == output_key(old.OutputSections@[i]) by {
            assert(moved_chunk(old.OutputSections@[i].Chunk, new.OutputSections@[i].Chunk));
        }
        assert forall|i: int| 0 <= i < old.MergedSections@.len() implies merged_key(
            #[trigger] new.MergedSections@[i],
        ) == merged_key(old.MergedSections@[i]) by {
            assert(moved_chunk(old.MergedSections@[i].Chunk, new.MergedSections@[i].Chunk));
        }
        assert forall|i: int|
            0 <= i < old.MergedSections@.len() implies old.MergedSections@[i].Map@.len() <= (
        #[trigger] new.MergedSections@[i]).Map@.len() by {
            assert(new.MergedSections@[i].Map == old.MergedSections@[i].Map);
        }
        assert forall|i: int, k: int|
            0 <= i < old.MergedSections@.len() && 0 <= k
                < old.MergedSections@[i].Map@.len() implies (
        #[trigger] new.MergedSections@[i].Map@[k]).Key@ == old.MergedSections@[i].Map@[k].Key@ by {
            assert(new.MergedSections@[i].Map == old.MergedSections@[i].Map);
        }
    }
    assert forall|o: int| 0 <= o < new.Objs@.len() implies #[trigger] new.object_ok(o) by {
        assert(old.object_ok(o));
        lemma_object_ok_grows(old, new, old.Objs@[o], o);
    }
    assert forall|g: int| 0 <= g < new.SymbolMap@.len() implies new.symbol_ok(
        #[trigger] new.SymbolMap@[g],
    ) by {
        let sym = old.SymbolMap@[g];
        assert(old.symbol_ok(sym));
        if let Some(r) = sym.SectionFragment {
            assert(new.MergedSections@[r.Section as int].Map == old.MergedSections@[r.Section as int].Map);
        }
    }
    assert(new.outputs_ok()) by {
        assert(old.outputs_ok());
        assert forall|i: int| 0 <= i < new.OutputSections@.len() implies (
        #[trigger] new.OutputSections@[i]).Idx == i by {
            assert(old.OutputSections@[i].Idx == i);
        }
        assert forall|i: int, j: int|
            0 <= i < j < new.OutputSections@.len() implies output_key(new.OutputSections@[i])
            != output_key(new.OutputSections@[j]) by {
            assert(output_key(old.OutputSections@[i]) != output_key(old.OutputSections@[j]));
        }
        assert forall|i: int, k: int|
            0 <= i < new.OutputSections@.len() && 0 <= k
                < new.OutputSections@[i].Members@.len() implies new.section_exists(
            (#[trigger] new.OutputSections@[i].Members@[k]).Obj as int,
            new.OutputSections@[i].Members@[k].Sec as int,
        ) by {
            assert(new.OutputSections@[i].Members == old.OutputSections@[i].Members);
            let m = old.OutputSections@[i].Members@[k];
            assert(old.section_exists(m.Obj as int, m.Sec as int));
        }
    }
    assert(new.merged_ok()) by {
        assert(old.merged_ok());
        assert forall|i: int, j: int|
            0 <= i < j < new.MergedSections@.len() implies merged_key(new.MergedSections@[i])
            != merged_key(new.MergedSections@[j]) by {
            assert(merged_key(old.MergedSections@[i]) != merged_key(old.MergedSections@[j]));
        }
        assert forall|i: int| 0 <= i < new.MergedSections@.len() implies (
        #[trigger] new.MergedSections@[i]).wf() by {
            assert(old.MergedSections@[i].wf());
            assert(new.MergedSections@[i].Map == old.MergedSections@[i].Map);
        }
        assert forall|i: int, k: int|
            0 <= i < new.MergedSections@.len() && 0 <= k
                < new.MergedSections@[i].Map@.len() implies (
        #[trigger] new.MergedSections@[i].Map@[k]).Frag.OutputSection == i by {
            assert(new.MergedSections@[i].Map == old.MergedSections@[i].Map);
            assert(old.MergedSections@[i].Map@[k].Frag.OutputSection == i);
        }
    }
    if binned_ok(old) {
        assert forall|i: int, k: int|
            0 <= i < new.OutputSections@.len() && 0 <= k
                < new.OutputSections@[i].Members@.len() implies ({
            let m = #[trigger] new.OutputSections@[i].Members@[k];
            &&& new.section_exists(m.Obj as int, m.Sec as int)
            &&& new.Objs@[m.Obj as int].Sections@[m.Sec as int].unwrap().OutputSection == i
        }) by {
            assert(new.OutputSections@[i].Members == old.OutputSections@[i].Members);
            let m = old.OutputSections@[i].Members@[k];
            assert(old.section_exists(m.Obj as int, m.Sec as int));
        }
        assert forall|i: int, a: int, b: int|
            0 <= i < new.OutputSections@.len() && 0 <= a < b
                < new.OutputSections@[i].Members@.len() implies #[trigger] new.OutputSections@[i].Members@[a]
            != #[trigger] new.OutputSections@[i].Members@[b] by {
            assert(new.OutputSections@[i].Members == old.OutputSections@[i].Members);
            assert(old.OutputSections@[i].Members@[a] != old.OutputSections@[i].Members@[b]);
        }
    }
}

/// No chunk stands twice in the list of chunks.
pub open spec fn chunks_distinct(ctx: Context) -> bool {
    forall|a: int, b: int| 0 <= a < b < ctx.Chunks@.len() ==> ctx.Chunks@[a] != ctx.Chunks@[b]
}

impl Context {
    /// Moves the chunk `id` to the address `addr` and the file offset
    /// `offset`. No other chunk changes.
    pub fn PlaceChunk(&mut self, id: ChunkId, addr: u64, offset: u64)
        requires
            old(self).has_chunk(id),
        ensures
            places_changed(*old(self), *final(self)),
            final(self).chunk_of(id).Shdr == (Shdr {
                Addr: addr,
                Offset: offset,
                ..old(self).chunk_of(id).Shdr
            }),
            forall|other: ChunkId|
                old(self).has_chunk(other) && other != id ==> #[trigger] final(self).chunk_of(other)
                    == old(self).chunk_of(other),
    {
        match id {
            ChunkId::Ehdr => {
                self.Ehdr.Chunk.Shdr.Addr = addr;
                self.Ehdr.Chunk.Shdr.Offset = offset;
            },
            ChunkId::Phdr => {
                self.Phdr.Chunk.Shdr.Addr = addr;
                self.Phdr.Chunk.Shdr.Offset = offset;
            },
            ChunkId::Shdr => {
                self.Shdr.Chunk.Shdr.Addr = addr;
                self.Shdr.Chunk.Shdr.Offset = offset;
            },
            ChunkId::Got => {
                self.Got.Chunk.Shdr.Addr = addr;
                self.Got.Chunk.Shdr.Offset = offset;
            },
            ChunkId::Output(i) => {
                self.OutputSections[i].Chunk.Shdr.Addr = addr;
                self.OutputSections[i].Chunk.Shdr.Offset = offset;
            },
            ChunkId::Merged(m) => {
                self.MergedSections[m].Chunk.Shdr.Addr = addr;
                self.MergedSections[m].Chunk.Shdr.Offset = offset;
            },
        }
    }
}

/// Moving chunks twice is moving them.
proof fn lemma_places_trans(a: Context, b: Context, c: Context)
    requires
        places_changed(a, b),
        places_changed(b, c),
    ensures
        places_changed(a, c),
{
    assert forall|i: int| 0 <= i < a.OutputSections@.len() implies #[trigger] c.OutputSections@[i]
        == (OutputSection { Chunk: c.OutputSections@[i].Chunk, ..a.OutputSections@[i] })
        && moved_chunk(a.OutputSections@[i].Chunk, c.OutputSections@[i].Chunk) by {
        assert(b.OutputSections@[i] == (OutputSection {
            Chunk: b.OutputSections@[i].Chunk,
            ..a.OutputSections@[i]
        }));
        assert(moved_chunk(a.OutputSections@[i].Chunk, b.OutputSections@[i].Chunk));
    }
    assert forall|m: int| 0 <= m < a.MergedSections@.len() implies #[trigger] c.MergedSections@[m]
        == (MergedSection { Chunk: c.MergedSections@[m].Chunk, ..a.MergedSections@[m] })
        && moved_chunk(a.MergedSections@[m].Chunk, c.MergedSections@[m].Chunk) by {
        assert(b.MergedSections@[m] == (MergedSection {
            Chunk: b.MergedSections@[m].Chunk,
            ..a.MergedSections@[m]
        }));
        assert(moved_chunk(a.MergedSections@[m].Chunk, b.MergedSections@[m].Chunk));
    }
}

/// Gives every chunk its address and its file offset, in the order of the
/// list of chunks, and returns the size of the file. Allocated chunks get
/// rising addresses from the image base on, each a multiple of its
/// alignment; zero-initialized thread-local data takes no addresses. The
/// first chunk and the allocated chunks directly behind it get the file
/// offset that their distance from the first chunk gives; every chunk
/// behind them follows the chunk before it in the file, at a multiple of
/// its alignment. Where an address or an offset does not fit in 64 bits
/// nothing changes.
#[verifier::rlimit(100)]
pub fn SetOutputSectionOffsets(ctx: &mut Context) -> (r: Result<u64, LinkError>)
    requires
        old(ctx).wf(),
        chunks_distinct(*old(ctx)),
    ensures
        final(ctx).wf(),
        places_changed(*old(ctx), *final(ctx)),
        binned_ok(*old(ctx)) ==> binned_ok(*final(ctx)),
        r is Ok <==> placement_fits(old(ctx).chunk_shdrs()),
        r is Ok ==> placed_shdrs(old(ctx).chunk_shdrs(), final(ctx).chunk_shdrs()) && r.unwrap()
            == placed_size(old(ctx).chunk_shdrs()),
        r is Ok ==> well_placed(final(ctx).chunk_shdrs()),
        r is Err ==> r == Err::<u64, LinkError>(LinkError::TooLarge) && *final(ctx) == *old(ctx),
{
    proof {
        lemma_wf_parts(*ctx);
    }
    let mut shdrs = ctx.ChunkShdrs();
    let size: u64 = match PlaceShdrs(&mut shdrs) {
        Ok(v) => v,
        Err(e) => {
            proof {
                lemma_places_refl(*ctx);
            }
            return Err(LinkError::TooLarge);
        },
    };
    let n: usize = ctx.Chunks.len();
    let mut k: usize = 0;
    proof {
        lemma_places_refl(*ctx);
    }
    while k < n
        invariant
            k <= n,
            n == old(ctx).Chunks@.len(),
            shdrs@.len() == n,
            old(ctx).wf(),
            old(ctx).chunks_ok(),
            chunks_distinct(*old(ctx)),
            places_changed(*old(ctx), *ctx),
            placed_shdrs(old(ctx).chunk_shdrs(), shdrs@),
            forall|j: int|
                0 <= j < n ==> ctx.chunk_of(#[trigger] old(ctx).Chunks@[j]).Shdr == (if j < k {
                    shdrs@[j]
                } else {
                    old(ctx).chunk_of(old(ctx).Chunks@[j]).Shdr
                }),
        decreases n - k,
    {
        let id = ctx.Chunks[k];
        let ghost before = *ctx;
        assert(old(ctx).has_chunk(id));
        ctx.PlaceChunk(id, shdrs[k].Addr, shdrs[k].Offset);
        proof {
            lemma_places_trans(*old(ctx), before, *ctx);
            assert(shdrs@[k as int] == (Shdr {
                Addr: shdrs@[k as int].Addr,
                Offset: shdrs@[k as int].Offset,
                ..old(ctx).chunk_shdrs()[k as int]
            }));
            assert forall|j: int| 0 <= j < n implies ctx.chunk_of(
                #[trigger] old(ctx).Chunks@[j],
            ).Shdr == (if j < k + 1 {
                shdrs@[j]
            } else {
                old(ctx).chunk_of(old(ctx).Chunks@[j]).Shdr
            }) by {
                if j != k {
                    assert(old(ctx).Chunks@[j] != id);
                    assert(before.has_chunk(old(ctx).Chunks@[j]));
                    assert(ctx.chunk_of(old(ctx).Chunks@[j]) == before.chunk_of(
                        old(ctx).Chunks@[j],
                    ));
                }
            }
        }
        k = k + 1;
    }
    proof {
        lemma_wf_places(*old(ctx), *ctx);
        assert(ctx.chunk_shdrs() =~= shdrs@);
        lemma_placed_well(old(ctx).chunk_shdrs(), shdrs@);
    }
    Ok(size)
}

/// A context is itself with its chunks where they are.
proof fn lemma_places_refl(ctx: Context)
    ensures
        places_changed(ctx, ctx),
{
}

proof fn lemma_addr_cursor_nonneg(shdrs: Seq<Shdr>, k: int)
    requires
        0 <= k <= shdrs.len(),
    ensures
        0 <= addr_cursor(shdrs, k),
    decreases k,
{
    if k > 0 {
        lemma_addr_cursor_nonneg(shdrs, k - 1);
        if shdrs[k - 1].AddrAlign > 0 {
            lemma_align_up(addr_cursor(shdrs, k - 1), shdrs[k - 1].AddrAlign as int);
        }
    }
}

/// Every chunk is placed as its alignment asks: the address of an
/// allocated chunk is a multiple of its alignment; so is the file offset
/// of every chunk behind the run of chunks that take their offset from
/// their address; and inside that run the file offset of an allocated
/// chunk is a multiple of its alignment wherever the address of the first
/// chunk is one.
pub proof fn lemma_placement_aligned(shdrs: Seq<Shdr>, k: int)
    requires
        0 <= k < shdrs.len(),
        shdrs[k].AddrAlign > 0,
        placement_fits(shdrs),
    ensures
        is_alloc(shdrs[k]) ==> chunk_addr(shdrs, k) % (shdrs[k].AddrAlign as int) == 0,
        k >= alloc_run(shdrs, 1) ==> chunk_offset(shdrs, alloc_run(shdrs, 1), k) % (
        shdrs[k].AddrAlign as int) == 0,
        k < alloc_run(shdrs, 1) && is_alloc(shdrs[k]) && chunk_addr(shdrs, 0) % (
        shdrs[k].AddrAlign as int) == 0 ==> chunk_offset(shdrs, alloc_run(shdrs, 1), k) % (
        shdrs[k].AddrAlign as int) == 0,
{
    let run = alloc_run(shdrs, 1);
    let m = shdrs[k].AddrAlign as int;
    lemma_addr_cursor_nonneg(shdrs, k);
    lemma_align_up(addr_cursor(shdrs, k), m);
    if k >= run {
        assert(0 <= off_cursor(shdrs, run, k));
        lemma_align_up(off_cursor(shdrs, run, k), m);
    } else if is_alloc(shdrs[k]) && chunk_addr(shdrs, 0) % m == 0 {
        let a = chunk_addr(shdrs, k);
        let b = chunk_addr(shdrs, 0);
        assert(a % m == 0);
        assert(b % m == 0);
        vstd::arithmetic::div_mod::lemma_sub_mod_noop(a, b, m);
        vstd::arithmetic::div_mod::lemma_small_mod(0, m as nat);
        assert(((a % m) - (b % m)) % m == 0);
        assert((a - b) % m == 0);
    }
}

/// Whether `m` is a power of two that is not above the image base.
pub open spec fn small_power_of_two(m: u64) -> bool {
    0 < m <= IMAGE_BASE && m & ((m - 1) as u64) == 0
}

/// Every power of two that is not above the image base divides it.
pub proof fn lemma_divides_base(m: u64)
    requires
        small_power_of_two(m),
    ensures
        IMAGE_BASE as int % (m as int) == 0,
        align_up(IMAGE_BASE as int, m as int) == IMAGE_BASE,
{
    assert(0x200000u64 % m == 0) by (bit_vector)
        requires
            0 < m <= 0x200000u64,
            m & ((m - 1) as u64) == 0,
    ;
}

/// The address cursor never stands below the image base.
proof fn lemma_addr_cursor_base(shdrs: Seq<Shdr>, k: int)
    requires
        0 <= k <= shdrs.len(),
    ensures
        IMAGE_BASE <= addr_cursor(shdrs, k),
    decreases k,
{
    if k > 0 {
        lemma_addr_cursor_base(shdrs, k - 1);
        if shdrs[k - 1].AddrAlign > 0 {
            lemma_align_up(addr_cursor(shdrs, k - 1), shdrs[k - 1].AddrAlign as int);
        }
    }
}

/// Every chunk inside the run of chunks that take their offset from their
/// address, but for the first, is allocated.
proof fn lemma_run_allocated(shdrs: Seq<Shdr>, from: int, j: int)
    requires
        0 <= from <= j < alloc_run(shdrs, from),
    ensures
        j < shdrs.len(),
        is_alloc(shdrs[j]),
    decreases shdrs.len() - from,
{
    if from < shdrs.len() && is_alloc(shdrs[from]) {
        if from < j {
            lemma_run_allocated(shdrs, from + 1, j);
        }
    }
}

/// Where the first chunk is allocated and its alignment and that of the
/// chunk at `k` are powers of two not above the image base, the file
/// offset that the chunk at `k` is placed at is a multiple of its
/// alignment.
pub proof fn lemma_placed_offset_aligned(before: Seq<Shdr>, after: Seq<Shdr>, k: int)
    requires
        0 <= k < before.len(),
        placement_fits(before),
        placed_shdrs(before, after),
        is_alloc(before[0]),
        small_power_of_two(before[0].AddrAlign),
        small_power_of_two(before[k].AddrAlign),
    ensures
        after[k].AddrAlign == before[k].AddrAlign,
        after[k].Offset as int % (after[k].AddrAlign as int) == 0,
{
    let run = alloc_run(before, 1);
    let m = before[k].AddrAlign;
    lemma_divides_base(before[0].AddrAlign);
    lemma_divides_base(m);
    assert(chunk_addr(before, 0) == IMAGE_BASE);
    if k < run && k >= 1 {
        lemma_run_allocated(before, 1, k);
    }
    lemma_placement_aligned(before, k);
    assert(0 <= chunk_offset(before, run, k) <= u64::MAX);
    assert(after[k] == (Shdr {
        Addr: chunk_addr(before, k) as u64,
        Offset: chunk_offset(before, run, k) as u64,
        ..before[k]
    }));
}

/// Every allocated chunk is placed at or above the image base, at an
/// address that is a multiple of its alignment where it has one.
pub proof fn lemma_placed_address(before: Seq<Shdr>, after: Seq<Shdr>, k: int)
    requires
        0 <= k < before.len(),
        placement_fits(before),
        placed_shdrs(before, after),
        is_alloc(before[k]),
    ensures
        is_alloc(after[k]),
        after[k].AddrAlign == before[k].AddrAlign,
        after[k].Addr >= IMAGE_BASE,
        after[k].AddrAlign > 0 ==> after[k].Addr as int % (after[k].AddrAlign as int) == 0,
{
    let run = alloc_run(before, 1);
    lemma_addr_cursor_base(before, k);
    if before[k].AddrAlign > 0 {
        lemma_align_up(addr_cursor(before, k), before[k].AddrAlign as int);
        lemma_placement_aligned(before, k);
    }
    assert(IMAGE_BASE <= chunk_addr(before, k) <= u64::MAX);
    assert(after[k] == (Shdr {
        Addr: chunk_addr(before, k) as u64,
        Offset: chunk_offset(before, run, k) as u64,
        ..before[k]
    }));
}

/// Whether the chunk at `k` of the placed headers `shdrs` stands where its
/// alignment asks: at an address that is a multiple of its alignment
/// where it is allocated; at a file offset that is one where it stands
/// behind the run of chunks that take their offset from their address,
/// and inside that run where it is allocated and the address of the first
/// chunk is a multiple of its alignment.
pub open spec fn aligned_chunk(shdrs: Seq<Shdr>, k: int) -> bool {
    let m = shdrs[k].AddrAlign as int;
    let run = alloc_run(shdrs, 1);
    &&& is_alloc(shdrs[k]) ==> shdrs[k].Addr as int % m == 0
    &&& k >= run ==> shdrs[k].Offset as int % m == 0
    &&& k < run && is_alloc(shdrs[k]) && shdrs[0].Addr as int % m == 0 ==> shdrs[k].Offset as int
        % m == 0
}

/// Whether every chunk that has an alignment stands where its alignment
/// asks.
pub open spec fn well_placed(shdrs: Seq<Shdr>) -> bool {
    forall|k: int| 0 <= k < shdrs.len() && shdrs[k].AddrAlign > 0 ==> #[trigger] aligned_chunk(shdrs, k)
}

/// Whether the headers `b` are the headers `a` but for their sizes.
pub open spec fn sizes_apart(a: Seq<Shdr>, b: Seq<Shdr>) -> bool {
    &&& a.len() == b.len()
    &&& forall|k: int| 0 <= k < a.len() ==> #[trigger] b[k] == (Shdr { Size: b[k].Size, ..a[k] })
}

/// The run of chunks that take their offset from their address is the
/// same for headers with the same flags.
proof fn lemma_alloc_run_same(a: Seq<Shdr>, b: Seq<Shdr>, from: int)
    requires
        a.len() == b.len(),
        0 <= from,
        forall|k: int| 0 <= k < a.len() ==> (#[trigger] b[k]).Flags == a[k].Flags,
    ensures
        alloc_run(a, from) == alloc_run(b, from),
    decreases a.len() - from,
{
    if from < a.len() {
        assert(b[from].Flags == a[from].Flags);
        if is_alloc(a[from]) {
            lemma_alloc_run_same(a, b, from + 1);
        }
    }
}

/// Headers that were placed stand where their alignments ask.
pub proof fn lemma_placed_well(before: Seq<Shdr>, after: Seq<Shdr>)
    requires
        placement_fits(before),
        placed_shdrs(before, after),
    ensures
        well_placed(after),
{
    let run = alloc_run(before, 1);
    assert forall|k: int| 0 <= k < before.len() implies (#[trigger] after[k]).Flags
        == before[k].Flags by {}
    lemma_alloc_run_same(before, after, 1);
    assert forall|k: int| 0 <= k < after.len() && after[k].AddrAlign > 0 implies #[trigger] aligned_chunk(
        after,
        k,
    ) by {
        lemma_placement_aligned(before, k);
        lemma_addr_cursor_nonneg(before, k);
        lemma_align_up(addr_cursor(before, k), before[k].AddrAlign as int);
        lemma_addr_cursor_nonneg(before, 0);
        assert(after[k].Flags == before[k].Flags);
        assert(after[0].Flags == before[0].Flags);
        assert(0 <= chunk_addr(before, k) <= u64::MAX);
        assert(0 <= chunk_addr(before, 0) <= u64::MAX) by {
            if before[0].AddrAlign > 0 {
                lemma_align_up(addr_cursor(before, 0), before[0].AddrAlign as int);
            }
        }
        assert(0 <= chunk_offset(before, run, k) <= u64::MAX);
    }
}

/// Headers that stand where their alignments ask still do when their
/// sizes change.
pub proof fn lemma_well_placed_sizes(a: Seq<Shdr>, b: Seq<Shdr>)
    requires
        well_placed(a),
        sizes_apart(a, b),
    ensures
        well_placed(b),
{
    assert forall|k: int| 0 <= k < a.len() implies (#[trigger] b[k]).Flags == a[k].Flags by {}
    lemma_alloc_run_same(a, b, 1);
    assert forall|k: int| 0 <= k < b.len() && b[k].AddrAlign > 0 implies #[trigger] aligned_chunk(
        b,
        k,
    ) by {
        assert(b[k] == (Shdr { Size: b[k].Size, ..a[k] }));
        assert(b[0] == (Shdr { Size: b[0].Size, ..a[0] }));
        assert(aligned_chunk(a, k));
    }
}

/// The place of a chunk with the header `h` in the output: the file
/// header first, the program headers second, loaded notes behind them,
/// then the allocated sections, of which the read-only come before the
/// writable, code before data, thread-local before other data and data
/// with bits in the file before data without; then what is not allocated,
/// and last the section headers.
pub open spec fn spec_rank(id: ChunkId, h: Shdr) -> u32 {
    match id {
        ChunkId::Ehdr => 0,
        ChunkId::Phdr => 1,
        ChunkId::Shdr => u32::MAX,
        _ => if !is_alloc(h) {
            0xffff_fffe
        } else if h.Type == abi::SHT_NOTE {
            2
        } else {
            ((if h.Flags & abi::SHF_WRITE != 0 {
                128int
            } else {
                0int
            }) + (if h.Flags & abi::SHF_EXECINSTR == 0 {
                64int
            } else {
                0int
            }) + (if h.Flags & abi::SHF_TLS == 0 {
                32int
            } else {
                0int
            }) + (if h.Type == abi::SHT_NOBITS {
                16int
            } else {
                0int
            })) as u32
        },
    }
}

/// The place of a chunk with the header `h` in the output.
pub fn RankOf(id: ChunkId, h: &Shdr) -> (r: u32)
    ensures
        r == spec_rank(id, *h),
{
    match id {
        ChunkId::Ehdr => 0,
        ChunkId::Phdr => 1,
        ChunkId::Shdr => u32::MAX,
        _ => {
            if h.Flags & abi::SHF_ALLOC == 0 {
                0xffff_fffe
            } else if h.Type == abi::SHT_NOTE {
                2
            } else {
                let mut r: u32 = 0;
                if h.Flags & abi::SHF_WRITE != 0 {
                    r = r + 128;
                }
                if h.Flags & abi::SHF_EXECINSTR == 0 {
                    r = r + 64;
                }
                if h.Flags & abi::SHF_TLS == 0 {
                    r = r + 32;
                }
                if h.Type == abi::SHT_NOBITS {
                    r = r + 16;
                }
                r
            }
        },
    }
}

/// Whether the chunk at `x` goes before the chunk at `y`: the lower rank
/// first, and of two chunks of one rank the one that stood first.
pub open spec fn rank_before(ranks: Seq<u32>, x: int, y: int) -> bool {
    ranks[x] < ranks[y] || (ranks[x] == ranks[y] && x < y)
}

/// Whether `order` names the position `f`.
pub open spec fn places(order: Seq<usize>, f: int) -> bool {
    exists|k: int| 0 <= k < order.len() && #[trigger] order[k] == f
}

/// Whether `order` is the stable order by rank: it names every position
/// once, and no position stands directly behind one that goes after it.
pub open spec fn is_rank_order(order: Seq<usize>, ranks: Seq<u32>) -> bool {
    &&& order.len() == ranks.len()
    &&& forall|k: int| 0 <= k < order.len() ==> (#[trigger] order[k]) < ranks.len()
    &&& forall|a: int, b: int| 0 <= a < b < order.len() ==> order[a] != order[b]
    &&& forall|f: int| 0 <= f < ranks.len() ==> #[trigger] places(order, f)
    &&& forall|k: int|
        0 <= k && k + 1 < order.len() ==> !rank_before(
            ranks,
            (#[trigger] order[k + 1]) as int,
            order[k] as int,
        )
}

/// The stable order of the positions of `ranks` by rank.
pub fn SortByRank(ranks: &Vec<u32>) -> (order: Vec<usize>)
    ensures
        is_rank_order(order@, ranks@),
{
    let n: usize = ranks.len();
    let mut order: Vec<usize> = Vec::with_capacity(n);
    let mut i: usize = 0;
    while i < n
        invariant
            i <= n,
            n == ranks@.len(),
            order@.len() == i,
            forall|k: int| 0 <= k < i ==> (#[trigger] order@[k]) < i,
            forall|a: int, b: int| 0 <= a < b < i ==> order@[a] != order@[b],
            forall|f: int| 0 <= f < i ==> #[trigger] places(order@, f),
            forall|k: int|
                0 <= k && k + 1 < i ==> !rank_before(
                    ranks@,
                    (#[trigger] order@[k + 1]) as int,
                    order@[k] as int,
                ),
        decreases n - i,
    {
        let ghost before = order@;
        order.push(i);
        let mut j: usize = i;
        proof {
            assert forall|f: int| 0 <= f < i + 1 implies #[trigger] places(order@, f) by {
                if f < i {
                    assert(places(before, f));
                    let k = choose|k: int| 0 <= k < before.len() && #[trigger] before[k] == f;
                    assert(order@[k] == f);
                } else {
                    assert(order@[i as int] == f);
                }
            }
        }
        while j > 0 && ranks[i] < ranks[order[j - 1]]
            invariant
                j <= i < n,
                n == ranks@.len(),
                order@.len() == i + 1,
                order@[j as int] == i,
                forall|k: int| 0 <= k < i + 1 ==> (#[trigger] order@[k]) < i + 1,
                forall|a: int, b: int| 0 <= a < b < i + 1 ==> order@[a] != order@[b],
                forall|f: int| 0 <= f < i + 1 ==> #[trigger] places(order@, f),
                forall|k: int|
                    0 <= k && k + 1 < i + 1 && k + 1 != j ==> !rank_before(
                        ranks@,
                        (#[trigger] order@[k + 1]) as int,
                        order@[k] as int,
                    ),
                0 < j < i ==> !rank_before(
                    ranks@,
                    order@[j + 1] as int,
                    order@[j - 1] as int,
                ),
            decreases j,
        {
            let ghost prev = order@;
            let x: usize = order[j - 1];
            order[j - 1] = i;
            order[j] = x;
            proof {
                assert forall|f: int| 0 <= f < i + 1 implies #[trigger] places(order@, f) by {
                    assert(places(prev, f));
                    let k = choose|k: int| 0 <= k < prev.len() && #[trigger] prev[k] == f;
                    if k == j {
                        assert(order@[j - 1] == f);
                    } else if k == j - 1 {
                        assert(order@[j as int] == f);
                    } else {
                        assert(order@[k] == f);
                    }
                }
                assert forall|k: int|
                    0 <= k && k + 1 < i + 1 && k + 1 != j - 1 implies !rank_before(
                    ranks@,
                    (#[trigger] order@[k + 1]) as int,
                    order@[k] as int,
                ) by {
                    if k + 1 == j {
                    } else if k == j {
                        assert(prev[k + 1] == order@[k + 1]);
                    } else {
                        assert(prev[k + 1] == order@[k + 1]);
                        assert(prev[k] == order@[k]);
                    }
                }
                if 0 < j - 1 {
                    assert(prev[(j - 2) + 1] == x);
                }
            }
            j = j - 1;
        }
        i = i + 1;
    }
    order
}

impl Context {
    /// The ranks of the chunks, in the order of the list of chunks.
    pub open spec fn chunk_ranks(&self) -> Seq<u32> {
        Seq::new(
            self.Chunks@.len(),
            |k: int| spec_rank(self.Chunks@[k], self.chunk_of(self.Chunks@[k]).Shdr),
        )
    }
}

/// Puts the chunks in the order in which they go to the output: by rank,
/// and chunks of one rank in the order in which they stood. The file
/// header comes first, then the program headers, the loaded notes, the
/// allocated sections, the sections that are not allocated, and last the
/// section headers.
#[verifier::rlimit(100)]
pub fn SortOutputSections(ctx: &mut Context)
    requires
        old(ctx).wf(),
    ensures
        final(ctx).wf(),
        *final(ctx) == (Context { Chunks: final(ctx).Chunks, ..*old(ctx) }),
        exists|order: Seq<usize>|
            #![trigger is_rank_order(order, old(ctx).chunk_ranks())]
            is_rank_order(order, old(ctx).chunk_ranks()) && final(ctx).Chunks@ == Seq::new(
                old(ctx).Chunks@.len(),
                |k: int| old(ctx).Chunks@[order[k] as int],
            ),
        chunks_distinct(*old(ctx)) ==> chunks_distinct(*final(ctx)),
{
    proof {
        lemma_wf_parts(*ctx);
    }
    let n: usize = ctx.Chunks.len();
    let mut ranks: Vec<u32> = Vec::with_capacity(n);
    let mut k: usize = 0;
    while k < n
        invariant
            k <= n,
            n == ctx.Chunks@.len(),
            *ctx == *old(ctx),
            ctx.chunks_ok(),
            ranks@.len() == k,
            forall|j: int|
                0 <= j < k ==> ranks@[j] == spec_rank(
                    ctx.Chunks@[j],
                    ctx.chunk_of(ctx.Chunks@[j]).Shdr,
                ),
        decreases n - k,
    {
        let id = ctx.Chunks[k];
        assert(ctx.has_chunk(id));
        let h = ctx.ChunkShdr(id);
        ranks.push(RankOf(id, &h));
        k = k + 1;
    }
    assert(ranks@ =~= old(ctx).chunk_ranks());
    let order = SortByRank(&ranks);
    let mut sorted: Vec<ChunkId> = Vec::with_capacity(n);
    let mut q: usize = 0;
    while q < n
        invariant
            q <= n,
            n == ctx.Chunks@.len(),
            *ctx == *old(ctx),
            is_rank_order(order@, ranks@),
            ranks@.len() == n,
            sorted@.len() == q,
            forall|j: int| 0 <= j < q ==> sorted@[j] == ctx.Chunks@[order@[j] as int],
        decreases n - q,
    {
        sorted.push(ctx.Chunks[order[q]]);
        q = q + 1;
    }
    ctx.Chunks = sorted;
    proof {
        reveal(Context::wf);
        assert(ctx.Chunks@ =~= Seq::new(
            old(ctx).Chunks@.len(),
            |k: int| old(ctx).Chunks@[order@[k] as int],
        ));
        assert forall|o: int| 0 <= o < ctx.Objs@.len() implies #[trigger] ctx.object_ok(o) by {
            assert(old(ctx).object_ok(o));
        }
        assert(ctx.chunks_ok()) by {
            assert forall|j: int| 0 <= j < ctx.Chunks@.len() implies match #[trigger] ctx.Chunks@[j] {
                ChunkId::Output(i) => i < ctx.OutputSections@.len(),
                ChunkId::Merged(m) => m < ctx.MergedSections@.len(),
                _ => true,
            } by {
                let src = order@[j] as int;
                assert(match old(ctx).Chunks@[src] {
                    ChunkId::Output(i) => i < ctx.OutputSections@.len(),
                    ChunkId::Merged(m) => m < ctx.MergedSections@.len(),
                    _ => true,
                });
            }
        }
        if chunks_distinct(*old(ctx)) {
            assert forall|a: int, b: int| 0 <= a < b < ctx.Chunks@.len() implies ctx.Chunks@[a]
                != ctx.Chunks@[b] by {
                assert(order@[a] != order@[b]);
                let x = order@[a] as int;
                let y = order@[b] as int;
                if x < y {
                    assert(old(ctx).Chunks@[x] != old(ctx).Chunks@[y]);
                } else {
                    assert(old(ctx).Chunks@[y] != old(ctx).Chunks@[x]);
                }
            }
        }
    }
}

} // verus!
