//! Registering the pieces of mergeable sections and binding the symbols
//! that lie in them.
use vstd::prelude::*;
use crate::linker::abi;
use crate::linker::context::{Context, lemma_wf_parts};
use crate::linker::error::LinkError;
use crate::linker::file::InputFile;
use crate::linker::objectfile::Objectfile;
use crate::linker::symbol::{Symbol, SymbolId, FragmentRef};
use crate::linker::inputsections::{MergeableSection, InputSection};
use crate::linker::context::{lemma_object_ok_grows, lemma_grows_trans};

use crate::linker::passes::symbol_names_of;

verus! {
/// Whether `after` is the object `before` with other fragments behind the
/// pieces of its mergeable sections and nothing else changed.
pub open spec fn pieces_changed(before: Objectfile, after: Objectfile) -> bool {
    &&& after == (Objectfile { MergeableSections: after.MergeableSections, ..before })
    &&& after.MergeableSections@.len() == before.MergeableSections@.len()
    &&& forall|m: int|
        0 <= m < before.MergeableSections@.len() ==> match (
            before.MergeableSections@[m],
            #[trigger] after.MergeableSections@[m],
        ) {
            (Some(a), Some(b)) => b == (MergeableSection { Fragments: b.Fragments, ..a }),
            (None, None) => true,
            _ => false,
        }
}

/// Whether every mergeable section of `obj` has its pieces registered: a
/// fragment behind every piece.
pub open spec fn pieces_registered(obj: Objectfile) -> bool {
    forall|m: int|
        0 <= m < obj.MergeableSections@.len() ==> (#[trigger] obj.MergeableSections@[m] matches Some(
            ms,
        ) ==> ms.Fragments@.len() == ms.Strs@.len())
}

/// Whether `new` holds every fragment that `old` holds, none with a
/// smaller alignment than it had.
pub open spec fn aligns_kept(old: Context, new: Context) -> bool {
    &&& old.MergedSections@.len() <= new.MergedSections@.len()
    &&& forall|i: int|
        0 <= i < old.MergedSections@.len() ==> old.MergedSections@[i].Map@.len() <= (
        #[trigger] new.MergedSections@[i]).Map@.len()
    &&& forall|i: int, q: int|
        0 <= i < old.MergedSections@.len() && 0 <= q < old.MergedSections@[i].Map@.len() ==> (
        #[trigger] new.MergedSections@[i].Map@[q]).Frag.P2Align
            >= old.MergedSections@[i].Map@[q].Frag.P2Align
}

/// Whether every registered piece of the mergeable section `ms` stands
/// behind a fragment that is aligned at least as the section is.
pub open spec fn pieces_aligned(ctx: Context, ms: MergeableSection) -> bool {
    forall|k: int|
        0 <= k < ms.Fragments@.len() ==> (#[trigger] ms.Fragments@[k])
            < ctx.MergedSections@[ms.Parent as int].Map@.len()
            && ctx.MergedSections@[ms.Parent as int].Map@[ms.Fragments@[k] as int].Frag.P2Align
            >= ms.P2Align
}

/// Whether the pieces of every mergeable section of `obj` are aligned as
/// their sections are.
pub open spec fn object_aligned(ctx: Context, obj: Objectfile) -> bool {
    forall|m: int|
        0 <= m < obj.MergeableSections@.len() ==> (#[trigger] obj.MergeableSections@[m] matches Some(
            ms,
        ) ==> pieces_aligned(ctx, ms))
}

/// Alignments that are kept twice are kept.
pub proof fn lemma_aligns_trans(a: Context, b: Context, c: Context)
    requires
        aligns_kept(a, b),
        aligns_kept(b, c),
    ensures
        aligns_kept(a, c),
{
    assert forall|i: int| 0 <= i < a.MergedSections@.len() implies a.MergedSections@[i].Map@.len() <= (
    #[trigger] c.MergedSections@[i]).Map@.len() by {
        assert(a.MergedSections@[i].Map@.len() <= b.MergedSections@[i].Map@.len());
    }
    assert forall|i: int, q: int|
        0 <= i < a.MergedSections@.len() && 0 <= q < a.MergedSections@[i].Map@.len() implies (
    #[trigger] c.MergedSections@[i].Map@[q]).Frag.P2Align
        >= a.MergedSections@[i].Map@[q].Frag.P2Align by {
        assert(a.MergedSections@[i].Map@.len() <= b.MergedSections@[i].Map@.len());
        assert(b.MergedSections@[i].Map@[q].Frag.P2Align >= a.MergedSections@[i].Map@[q].Frag.P2Align);
    }
}

/// Every context keeps its own alignments.
pub proof fn lemma_aligns_refl(a: Context)
    ensures
        aligns_kept(a, a),
{
}

/// Pieces that are aligned stay aligned while alignments are kept.
pub proof fn lemma_aligned_kept(a: Context, b: Context, ms: MergeableSection)
    requires
        ms.Parent < a.MergedSections@.len(),
        pieces_aligned(a, ms),
        aligns_kept(a, b),
    ensures
        pieces_aligned(b, ms),
{
    assert forall|k: int| 0 <= k < ms.Fragments@.len() implies (#[trigger] ms.Fragments@[k])
        < b.MergedSections@[ms.Parent as int].Map@.len()
        && b.MergedSections@[ms.Parent as int].Map@[ms.Fragments@[k] as int].Frag.P2Align
        >= ms.P2Align by {
        let q = ms.Fragments@[k] as int;
        assert(a.MergedSections@[ms.Parent as int].Map@.len()
            <= b.MergedSections@[ms.Parent as int].Map@.len());
        assert(b.MergedSections@[ms.Parent as int].Map@[q].Frag.P2Align
            >= a.MergedSections@[ms.Parent as int].Map@[q].Frag.P2Align);
    }
}

/// The pieces of an object that are aligned stay aligned while alignments
/// are kept.
pub proof fn lemma_object_aligned_kept(a: Context, b: Context, obj: Objectfile)
    requires
        object_aligned(a, obj),
        aligns_kept(a, b),
        forall|m: int|
            0 <= m < obj.MergeableSections@.len() ==> (
            #[trigger] obj.MergeableSections@[m] matches Some(ms) ==> ms.Parent
                < a.MergedSections@.len()),
    ensures
        object_aligned(b, obj),
{
    assert forall|m: int| 0 <= m < obj.MergeableSections@.len() implies (
    #[trigger] obj.MergeableSections@[m] matches Some(ms) ==> pieces_aligned(b, ms)) by {
        if let Some(ms) = obj.MergeableSections@[m] {
            lemma_aligned_kept(a, b, ms);
        }
    }
}

/// A merged section that gains a fragment, or raises the alignment of
/// one, keeps the alignments of the context.
proof fn lemma_insert_aligns(before: Context, after: Context, parent: int, f: int)
    requires
        0 <= parent < before.MergedSections@.len(),
        after.MergedSections@.len() == before.MergedSections@.len(),
        forall|i: int|
            0 <= i < before.MergedSections@.len() && i != parent ==> (
            #[trigger] after.MergedSections@[i]) == before.MergedSections@[i],
        before.MergedSections@[parent].Map@.len() <= after.MergedSections@[parent].Map@.len(),
        forall|q: int|
            0 <= q < before.MergedSections@[parent].Map@.len() && q != f ==> (
            #[trigger] after.MergedSections@[parent].Map@[q]) == before.MergedSections@[parent].Map@[q],
        0 <= f < before.MergedSections@[parent].Map@.len()
            ==> after.MergedSections@[parent].Map@[f].Frag.P2Align
            >= before.MergedSections@[parent].Map@[f].Frag.P2Align,
    ensures
        aligns_kept(before, after),
{
    assert forall|i: int|
        0 <= i < before.MergedSections@.len() implies before.MergedSections@[i].Map@.len() <= (
    #[trigger] after.MergedSections@[i]).Map@.len() by {
        if i != parent {
            assert(after.MergedSections@[i] == before.MergedSections@[i]);
        }
    }
    assert forall|i: int, q: int|
        0 <= i < before.MergedSections@.len() && 0 <= q
            < before.MergedSections@[i].Map@.len() implies (
    #[trigger] after.MergedSections@[i].Map@[q]).Frag.P2Align
        >= before.MergedSections@[i].Map@[q].Frag.P2Align by {
        if i != parent {
            assert(after.MergedSections@[i] == before.MergedSections@[i]);
        } else if q != f {
            assert(after.MergedSections@[parent].Map@[q] == before.MergedSections@[parent].Map@[q]);
        }
    }
}

/// Registers the pieces of the mergeable sections of the object at `o`
/// with their merged sections: behind every piece stands the one fragment
/// that holds its bytes.
fn InsertPieces(ctx: &mut Context, o: usize)
    requires
        old(ctx).wf(),
        o < old(ctx).Objs@.len(),
    ensures
        final(ctx).wf(),
        final(ctx).grows_from(*old(ctx)),
        *final(ctx) == (Context {
            Objs: final(ctx).Objs,
            MergedSections: final(ctx).MergedSections,
            ..*old(ctx)
        }),
        final(ctx).Objs@.len() == old(ctx).Objs@.len(),
        forall|j: int|
            0 <= j < old(ctx).Objs@.len() && j != o ==> final(ctx).Objs@[j] == old(ctx).Objs@[j],
        pieces_changed(old(ctx).Objs@[o as int], final(ctx).Objs@[o as int]),
        pieces_registered(final(ctx).Objs@[o as int]),
        final(ctx).MergedSections@.len() == old(ctx).MergedSections@.len(),
        aligns_kept(*old(ctx), *final(ctx)),
        object_aligned(*final(ctx), final(ctx).Objs@[o as int]),
{
    proof {
        lemma_wf_parts(*ctx);
        lemma_grows_trans(*ctx, *ctx, *ctx);
    }
    let nm: usize = ctx.Objs[o].MergeableSections.len();
    let mut m: usize = 0;
    while m < nm
        invariant
            m <= nm,
            o < ctx.Objs@.len(),
            nm == old(ctx).Objs@[o as int].MergeableSections@.len(),
            old(ctx).wf(),
            ctx.wf(),
            ctx.grows_from(*old(ctx)),
            *ctx == (Context { Objs: ctx.Objs, MergedSections: ctx.MergedSections, ..*old(ctx) }),
            ctx.Objs@.len() == old(ctx).Objs@.len(),
            ctx.MergedSections@.len() == old(ctx).MergedSections@.len(),
            forall|j: int| 0 <= j < old(ctx).Objs@.len() && j != o ==> ctx.Objs@[j] == old(ctx).Objs@[j],
            pieces_changed(old(ctx).Objs@[o as int], ctx.Objs@[o as int]),
            forall|q: int|
                0 <= q < m ==> (#[trigger] ctx.Objs@[o as int].MergeableSections@[q] matches Some(ms)
                    ==> ms.Fragments@.len() == ms.Strs@.len()),
            aligns_kept(*old(ctx), *ctx),
            forall|q: int|
                0 <= q < nm ==> (#[trigger] ctx.Objs@[o as int].MergeableSections@[q] matches Some(ms)
                    ==> q < m ==> pieces_aligned(*ctx, ms)),
        decreases nm - m,
    {
        let has: bool = ctx.Objs[o].MergeableSections[m].is_some();
        let ghost before = *ctx;
        if has {
            RegisterOne(ctx, o, m);
        }
        proof {
            lemma_aligns_refl(before);
            lemma_aligns_trans(*old(ctx), before, *ctx);
            lemma_wf_parts(before);
            assert(before.object_ok(o as int));
            assert forall|q: int| 0 <= q < nm implies (
            #[trigger] ctx.Objs@[o as int].MergeableSections@[q] matches Some(ms) ==> q < m + 1
                ==> pieces_aligned(*ctx, ms)) by {
                if let Some(ms) = ctx.Objs@[o as int].MergeableSections@[q] {
                    if q < m {
                        assert(before.Objs@[o as int].MergeableSections@[q] == Some(ms));
                        assert(before.mergeable_ok(ms));
                        lemma_aligned_kept(before, *ctx, ms);
                    }
                }
            }
        }
        m = m + 1;
    }
}

/// Registers the pieces of the mergeable section at `m` of the object at
/// `o`.
#[verifier::rlimit(100)]
fn RegisterOne(ctx: &mut Context, o: usize, m: usize)
    requires
        old(ctx).wf(),
        o < old(ctx).Objs@.len(),
        m < old(ctx).Objs@[o as int].MergeableSections@.len(),
        old(ctx).Objs@[o as int].MergeableSections@[m as int] is Some,
    ensures
        final(ctx).wf(),
        final(ctx).grows_from(*old(ctx)),
        *final(ctx) == (Context {
            Objs: final(ctx).Objs,
            MergedSections: final(ctx).MergedSections,
            ..*old(ctx)
        }),
        final(ctx).Objs@.len() == old(ctx).Objs@.len(),
        final(ctx).MergedSections@.len() == old(ctx).MergedSections@.len(),
        forall|j: int|
            0 <= j < old(ctx).Objs@.len() && j != o ==> final(ctx).Objs@[j] == old(ctx).Objs@[j],
        final(ctx).Objs@[o as int] == (Objectfile {
            MergeableSections: final(ctx).Objs@[o as int].MergeableSections,
            ..old(ctx).Objs@[o as int]
        }),
        final(ctx).Objs@[o as int].MergeableSections@.len() == old(ctx).Objs@[o as int].MergeableSections@.len(),
        forall|q: int|
            0 <= q < old(ctx).Objs@[o as int].MergeableSections@.len() && q != m ==> final(ctx).Objs@[o as int].MergeableSections@[q] == old(ctx).Objs@[o as int].MergeableSections@[q],
        final(ctx).Objs@[o as int].MergeableSections@[m as int] matches Some(ms) && ms == (
        MergeableSection {
            Fragments: ms.Fragments,
            ..old(ctx).Objs@[o as int].MergeableSections@[m as int].unwrap()
        }) && ms.Fragments@.len() == ms.Strs@.len() && pieces_aligned(*final(ctx), ms),
        aligns_kept(*old(ctx), *final(ctx)),
{
    proof {
        lemma_wf_parts(*ctx);
        lemma_grows_trans(*ctx, *ctx, *ctx);
        assert(ctx.object_ok(o as int));
    }
    let ghost ms0 = ctx.Objs@[o as int].MergeableSections@[m as int].unwrap();
    assert(ctx.mergeable_ok(ms0));
    let (parent, align, count): (usize, u8, usize) = match &ctx.Objs[o].MergeableSections[m] {
        Some(ms) => (ms.Parent, ms.P2Align, ms.Strs.len()),
        None => (0, 0, 0),
    };
    let mut frags: Vec<usize> = Vec::with_capacity(count);
    let mut k: usize = 0;
    while k < count
        invariant
            k <= count,
            o < ctx.Objs@.len(),
            ctx.Objs@ == old(ctx).Objs@,
            m < ctx.Objs@[o as int].MergeableSections@.len(),
            ctx.Objs@[o as int].MergeableSections@[m as int] == Some(ms0),
            parent == ms0.Parent,
            align == ms0.P2Align,
            align < 64,
            count == ms0.Strs@.len(),
            parent < ctx.MergedSections@.len(),
            ctx.MergedSections@.len() == old(ctx).MergedSections@.len(),
            old(ctx).wf(),
            old(ctx).merged_ok(),
            ctx.merged_ok(),
            ctx.grows_from(*old(ctx)),
            *ctx == (Context { MergedSections: ctx.MergedSections, ..*old(ctx) }),
            frags@.len() == k,
            forall|q: int|
                0 <= q < k ==> (#[trigger] frags@[q]) < ctx.MergedSections@[parent as int].Map@.len()
                    && ctx.MergedSections@[parent as int].Map@[frags@[q] as int].Key@
                    == ms0.Strs@[q]@,
            aligns_kept(*old(ctx), *ctx),
            forall|q: int|
                0 <= q < k ==> ctx.MergedSections@[parent as int].Map@[(
                #[trigger] frags@[q]) as int].Frag.P2Align >= align,
        decreases count - k,
    {
        let ghost before = *ctx;
        let key: Vec<u8> = match &ctx.Objs[o].MergeableSections[m] {
            Some(ms) => crate::utils::ToVec(ms.Strs[k].as_slice()),
            None => Vec::new(),
        };
        assert(before.MergedSections@[parent as int].wf());
        let f: usize = ctx.MergedSections[parent].Insert(parent, key.as_slice(), align);
        frags.push(f);
        proof {
            let a = before.MergedSections@[parent as int];
            let b = ctx.MergedSections@[parent as int];
            assert forall|i: int| 0 <= i < before.MergedSections@.len() && i != parent implies (
            #[trigger] ctx.MergedSections@[i]) == before.MergedSections@[i] by {}
            assert(ctx.merged_ok()) by {
                assert forall|i: int, j: int|
                    0 <= i < j < ctx.MergedSections@.len() implies crate::linker::context::merged_key(
                    ctx.MergedSections@[i],
                ) != crate::linker::context::merged_key(ctx.MergedSections@[j]) by {
                    assert(crate::linker::context::merged_key(before.MergedSections@[i])
                        != crate::linker::context::merged_key(before.MergedSections@[j]));
                }
                assert forall|i: int, q: int|
                    0 <= i < ctx.MergedSections@.len() && 0 <= q
                        < ctx.MergedSections@[i].Map@.len() implies (
                #[trigger] ctx.MergedSections@[i].Map@[q]).Frag.OutputSection == i by {
                    if i == parent {
                        if q < a.Map@.len() {
                            assert(a.Map@[q].Frag.OutputSection == i);
                            if q != f {
                                assert(b.Map@[q] == a.Map@[q]);
                            }
                        }
                    } else {
                        assert(before.MergedSections@[i].Map@[q].Frag.OutputSection == i);
                    }
                }
            }
            assert(ctx.grows_from(before)) by {
                assert forall|i: int, q: int|
                    0 <= i < before.MergedSections@.len() && 0 <= q
                        < before.MergedSections@[i].Map@.len() implies (
                #[trigger] ctx.MergedSections@[i].Map@[q]).Key@
                    == before.MergedSections@[i].Map@[q].Key@ by {
                    if i == parent {
                        assert(b.Map@[q].Key@ == a.Map@[q].Key@);
                    }
                }
            }
            lemma_grows_trans(*old(ctx), before, *ctx);
            assert forall|q: int| 0 <= q < k + 1 implies (#[trigger] frags@[q])
                < ctx.MergedSections@[parent as int].Map@.len()
                && ctx.MergedSections@[parent as int].Map@[frags@[q] as int].Key@
                == ms0.Strs@[q]@ by {
                if q < k {
                    assert(b.Map@[frags@[q] as int].Key@ == a.Map@[frags@[q] as int].Key@);
                }
            }
            assert(b.Map@[f as int].Frag.P2Align >= align);
            lemma_insert_aligns(before, *ctx, parent as int, f as int);
            lemma_aligns_trans(*old(ctx), before, *ctx);
            assert forall|q: int| 0 <= q < k + 1 implies b.Map@[(
            #[trigger] frags@[q]) as int].Frag.P2Align >= align by {
                if q < k {
                    let x = frags@[q] as int;
                    assert(b.Map@[x].Frag.P2Align >= a.Map@[x].Frag.P2Align);
                }
            }
        }
        k = k + 1;
    }
    let ghost mid = *ctx;
    match &mut ctx.Objs[o].MergeableSections[m] {
        Some(ms) => {
            ms.Fragments = frags;
        },
        None => {},
    }
    proof {
        lemma_wf_pieces(*old(ctx), *ctx, o as int);
        lemma_aligns_refl(mid);
        lemma_aligns_trans(*old(ctx), mid, *ctx);
    }
}

/// A context stays in order where merged sections gain pieces and the
/// mergeable sections of one object get fragments that hold the bytes of
/// their pieces.
proof fn lemma_wf_pieces(old: Context, new: Context, o: int)
    requires
        old.wf(),
        0 <= o < old.Objs@.len(),
        new.grows_from(old),
        new.merged_ok(),
        new == (Context { Objs: new.Objs, MergedSections: new.MergedSections, ..old }),
        new.Objs@.len() == old.Objs@.len(),
        new.MergedSections@.len() == old.MergedSections@.len(),
        forall|j: int| 0 <= j < old.Objs@.len() && j != o ==> new.Objs@[j] == old.Objs@[j],
        pieces_changed(old.Objs@[o], new.Objs@[o]),
        forall|m: int|
            0 <= m < new.Objs@[o].MergeableSections@.len() ==> (
            #[trigger] new.Objs@[o].MergeableSections@[m] matches Some(ms) ==> new.mergeable_ok(ms)),
    ensures
        new.wf(),
{
    reveal(Context::wf);
    assert forall|j: int| 0 <= j < new.Objs@.len() implies #[trigger] new.object_ok(j) by {
        assert(old.object_ok(j));
        if j != o {
            lemma_object_ok_grows(old, new, old.Objs@[j], j);
        } else {
            let a = old.Objs@[o];
            let b = new.Objs@[o];
            assert forall|k: int| 0 <= k < b.inputFile.LocalSymbols@.len() implies new.local_ok(
                b,
                o,
                #[trigger] b.inputFile.LocalSymbols@[k],
            ) by {
                assert(old.local_ok(a, o, a.inputFile.LocalSymbols@[k]));
            }
            assert forall|s: int|
                0 <= s < b.Sections@.len() && (#[trigger] b.Sections@[s]) is Some implies new.section_placed(
                b,
                s,
            ) by {
                assert(old.section_placed(a, s));
            }
        }
    }
    assert forall|g: int| 0 <= g < new.SymbolMap@.len() implies new.symbol_ok(
        #[trigger] new.SymbolMap@[g],
    ) by {
        let sym = old.SymbolMap@[g];
        assert(old.symbol_ok(sym));
        if let Some(s) = sym.InputSection {
            let f = sym.File.unwrap() as int;
            assert(old.section_exists(f, s as int));
            assert(new.Objs@[f].Sections == old.Objs@[f].Sections);
        }
    }
    assert(new.outputs_ok()) by {
        assert(old.outputs_ok());
        assert forall|i: int, k: int|
            0 <= i < new.OutputSections@.len() && 0 <= k
                < new.OutputSections@[i].Members@.len() implies new.section_exists(
            (#[trigger] new.OutputSections@[i].Members@[k]).Obj as int,
            new.OutputSections@[i].Members@[k].Sec as int,
        ) by {
            let mm = old.OutputSections@[i].Members@[k];
            assert(old.section_exists(mm.Obj as int, mm.Sec as int));
            assert(new.Objs@[mm.Obj as int].Sections == old.Objs@[mm.Obj as int].Sections);
        }
    }
}

impl Objectfile {
    /// The mergeable section that the symbol at `i` of the symbol table
    /// lies in; none for an absolute, undefined or common symbol and for a
    /// symbol of a section that is not mergeable.
    pub open spec fn piece_section(&self, i: int) -> Option<MergeableSection> {
        let esym = self.inputFile.ElfSyms@[i];
        let sx = crate::linker::objectfile::spec_shndx(self.SymtabShndxSec@, esym, i);
        if esym.Shndx == abi::SHN_ABS || esym.Shndx == abi::SHN_UNDEF || esym.Shndx
            == abi::SHN_COMMON {
            None
        } else if 0 <= sx < self.MergeableSections@.len() {
            self.MergeableSections@[sx]
        } else {
            None
        }
    }

    /// Whether the symbol at `i` lies in a mergeable section but in none
    /// of its pieces.
    pub open spec fn bad_piece(&self, i: int) -> bool {
        let val = self.inputFile.ElfSyms@[i].Val;
        self.piece_section(i) matches Some(ms) && (val > u32::MAX || ms.piece_of(val as u32) is None)
    }

    /// The symbol `sym` bound as the entry at `i` of the symbol table asks:
    /// where the entry lies in a piece of a mergeable section, to the
    /// fragment behind that piece, with its offset in the piece as value;
    /// else as it is.
    pub open spec fn placed(&self, sym: Symbol, i: int) -> Symbol {
        let val = self.inputFile.ElfSyms@[i].Val;
        match self.piece_section(i) {
            Some(ms) => {
                let k = ms.piece_of(val as u32).unwrap();
                Symbol {
                    SectionFragment: Some(
                        FragmentRef { Section: ms.Parent, Index: ms.Fragments@[k] },
                    ),
                    InputSection: None,
                    Value: (val - ms.FragOffset@[k]) as u64,
                    ..sym
                }
            },
            None => sym,
        }
    }

    /// The global symbols `syms` after the entries 1 to `upto` of the
    /// symbol table, `upto` left out, bound them to fragments, in their
    /// order.
    pub open spec fn place_upto(&self, syms: Seq<Symbol>, upto: int) -> Seq<Symbol>
        decreases upto,
    {
        if upto <= 1 {
            syms
        } else {
            let prev = self.place_upto(syms, upto - 1);
            match self.inputFile.Symbols@[upto - 1] {
                SymbolId::Global(g) => prev.update(g as int, self.placed(prev[g as int], upto - 1)),
                SymbolId::Local(k) => prev,
            }
        }
    }

    /// Whether one of the entries 1 to `upto` of the symbol table, `upto`
    /// left out, lies in a mergeable section but in none of its pieces.
    pub open spec fn bad_piece_upto(&self, upto: int) -> bool {
        exists|i: int| 1 <= i < upto && #[trigger] self.bad_piece(i)
    }

    /// Registers the pieces of the mergeable sections of the object at `o`
    /// and binds the symbols that lie in them: every piece gets the one
    /// fragment of its merged section that holds its bytes, and every
    /// symbol of the object that lies in a mergeable section is bound to
    /// the fragment behind the piece it lies in, with its offset in the
    /// piece as value. A symbol that lies in no piece of its section is a
    /// resolution error.
    #[verifier::rlimit(100)]
    pub fn RegisterSectionPieces(ctx: &mut Context, o: usize) -> (r: Result<(), LinkError>)
        requires
            old(ctx).wf(),
            o < old(ctx).Objs@.len(),
        ensures
            final(ctx).wf(),
            final(ctx).grows_from(*old(ctx)),
            *final(ctx) == (Context {
                Objs: final(ctx).Objs,
                SymbolMap: final(ctx).SymbolMap,
                MergedSections: final(ctx).MergedSections,
                ..*old(ctx)
            }),
            final(ctx).Objs@.len() == old(ctx).Objs@.len(),
            final(ctx).MergedSections@.len() == old(ctx).MergedSections@.len(),
            symbol_names_of(*final(ctx)) == symbol_names_of(*old(ctx)),
            forall|j: int|
                0 <= j < old(ctx).Objs@.len() && j != o ==> final(ctx).Objs@[j] == old(ctx).Objs@[j],
            pieces_registered(final(ctx).Objs@[o as int]),
            pieces_changed(
                old(ctx).Objs@[o as int],
                Objectfile {
                    inputFile: old(ctx).Objs@[o as int].inputFile,
                    ..final(ctx).Objs@[o as int]
                },
            ),
            final(ctx).Objs@[o as int].inputFile == (InputFile {
                LocalSymbols: final(ctx).Objs@[o as int].inputFile.LocalSymbols,
                ..old(ctx).Objs@[o as int].inputFile
            }),
            final(ctx).Objs@[o as int].inputFile.LocalSymbols@.len() == old(ctx).Objs@[o as int].inputFile.LocalSymbols@.len(),
            aligns_kept(*old(ctx), *final(ctx)),
            object_aligned(*final(ctx), final(ctx).Objs@[o as int]),
            r is Err <==> final(ctx).Objs@[o as int].bad_piece_upto(
                old(ctx).Objs@[o as int].inputFile.ElfSyms@.len() as int,
            ),
            r is Err ==> r == Err::<(), LinkError>(LinkError::Resolution),
            r is Ok ==> {
                let obj = final(ctx).Objs@[o as int];
                let n = obj.inputFile.ElfSyms@.len() as int;
                &&& final(ctx).SymbolMap@ == obj.place_upto(old(ctx).SymbolMap@, n)
                &&& obj.inputFile.LocalSymbols@.len() == old(ctx).Objs@[o as int].inputFile.LocalSymbols@.len()
                &&& forall|k: int|
                    0 <= k < obj.inputFile.LocalSymbols@.len() ==> #[trigger] obj.inputFile.LocalSymbols@[k]
                        == (if k >= 1 {
                        obj.placed(old(ctx).Objs@[o as int].inputFile.LocalSymbols@[k], k)
                    } else {
                        old(ctx).Objs@[o as int].inputFile.LocalSymbols@[k]
                    })
            },
    {
        InsertPieces(ctx, o);
        let ghost mid = *ctx;
        proof {
            lemma_wf_parts(mid);
            assert(mid.object_ok(o as int));
            lemma_grows_trans(mid, mid, mid);
        }
        let n: usize = ctx.Objs[o].inputFile.ElfSyms.len();
        let nm: usize = ctx.Objs[o].MergeableSections.len();
        let ghost obj = mid.Objs@[o as int];
        let mut i: usize = 1;
        while i < n
            invariant
                1 <= i,
                o < ctx.Objs@.len(),
                n == obj.inputFile.ElfSyms@.len(),
                nm == obj.MergeableSections@.len(),
                obj == mid.Objs@[o as int],
                mid.wf(),
                mid.object_ok(o as int),
                mid.grows_from(*old(ctx)),
                mid == (Context { Objs: mid.Objs, MergedSections: mid.MergedSections, ..*old(ctx) }),
                mid.Objs@.len() == old(ctx).Objs@.len(),
                mid.MergedSections@.len() == old(ctx).MergedSections@.len(),
                forall|j: int|
                    0 <= j < old(ctx).Objs@.len() && j != o ==> mid.Objs@[j] == old(ctx).Objs@[j],
                pieces_changed(old(ctx).Objs@[o as int], obj),
                i <= n || i == 1,
                pieces_registered(obj),
                aligns_kept(*old(ctx), mid),
                object_aligned(mid, obj),
                placing(mid, *ctx, o as int),
                !obj.bad_piece_upto(i as int),
                ctx.SymbolMap@ == ctx.Objs@[o as int].place_upto(mid.SymbolMap@, i as int),
                forall|k: int|
                    0 <= k < obj.inputFile.LocalSymbols@.len() ==> #[trigger] ctx.Objs@[o as int].inputFile.LocalSymbols@[k]
                        == (if 1 <= k < i {
                        obj.placed(obj.inputFile.LocalSymbols@[k], k)
                    } else {
                        obj.inputFile.LocalSymbols@[k]
                    }),
            decreases n - i,
        {
            let esym = ctx.Objs[o].inputFile.ElfSyms[i];
            let id = ctx.Objs[o].inputFile.Symbols[i];
            let ghost before = *ctx;
            proof {
                lemma_place_frame(obj, before.Objs@[o as int], mid.SymbolMap@, i as int);
                lemma_place_frame(obj, before.Objs@[o as int], mid.SymbolMap@, i + 1);
                assert(obj.piece_section(i as int) == before.Objs@[o as int].piece_section(i as int));
            }
            if !(esym.IsAbs() || esym.IsUndef() || esym.IsCommon()) {
                let sx: usize = ctx.Objs[o].GetShndx(&esym, i);
                if sx < nm {
                    let found: Option<(Option<FragmentRef>, u32)> = match &ctx.Objs[o].MergeableSections[sx] {
                        Some(ms) => {
                            if esym.Val > u32::MAX as u64 {
                                Some((None, 0))
                            } else {
                                Some(ms.GetFragment(esym.Val as u32))
                            }
                        },
                        None => None,
                    };
                    match found {
                        Some((None, off)) => {
                            proof {
                                assert(obj.bad_piece(i as int));
                                lemma_wf_placing(mid, *ctx, o as int);
                                lemma_bad_frame(obj, ctx.Objs@[o as int], n as int);
                                lemma_grows_trans(*old(ctx), mid, *ctx);
                                lemma_aligned_placing(*old(ctx), mid, *ctx, o as int);
                            }
                            return Err(LinkError::Resolution);
                        },
                        Some((Some(fr), off)) => {
                            match id {
                                SymbolId::Global(g) => {
                                    ctx.SymbolMap[g].SetSectionFragment(Some(fr));
                                    ctx.SymbolMap[g].Value = off as u64;
                                    proof {
                                        assert(ctx.SymbolMap@ =~= before.SymbolMap@.update(
                                            g as int,
                                            obj.placed(before.SymbolMap@[g as int], i as int),
                                        ));
                                    }
                                },
                                SymbolId::Local(k) => {
                                    ctx.Objs[o].inputFile.LocalSymbols[k].SetSectionFragment(
                                        Some(fr),
                                    );
                                    ctx.Objs[o].inputFile.LocalSymbols[k].Value = off as u64;
                                },
                            }
                        },
                        None => {},
                    }
                }
            }
            proof {
                assert(!obj.bad_piece(i as int));
                assert(!obj.bad_piece_upto(i + 1)) by {
                    if obj.bad_piece_upto(i + 1) {
                        let w = choose|w: int| 1 <= w < i + 1 && #[trigger] obj.bad_piece(w);
                        if w < i {
                            assert(obj.bad_piece_upto(i as int));
                        }
                    }
                }
                lemma_place_frame(obj, ctx.Objs@[o as int], mid.SymbolMap@, i + 1);
                match id {
                    SymbolId::Global(g) => {
                        assert(ctx.SymbolMap@ =~= before.SymbolMap@.update(
                            g as int,
                            obj.placed(before.SymbolMap@[g as int], i as int),
                        ));
                    },
                    SymbolId::Local(k) => {
                        assert(k == i);
                    },
                }
            }
            i = i + 1;
        }
        proof {
            lemma_wf_placing(mid, *ctx, o as int);
            lemma_bad_frame(obj, ctx.Objs@[o as int], n as int);
            lemma_place_frame(obj, ctx.Objs@[o as int], old(ctx).SymbolMap@, n as int);
            if n < 1 {
                assert(!obj.bad_piece_upto(n as int));
            }
            assert(i >= n);
            if i > n {
                assert(ctx.Objs@[o as int].place_upto(old(ctx).SymbolMap@, n as int) == old(ctx).SymbolMap@);
                assert(!obj.bad_piece_upto(n as int)) by {
                    if obj.bad_piece_upto(n as int) {
                        let w = choose|w: int| 1 <= w < n && #[trigger] obj.bad_piece(w);
                        assert(1 <= w < i && obj.bad_piece(w));
                    }
                }
            }
            assert forall|k: int| 0 <= k < obj.inputFile.LocalSymbols@.len() implies (
            #[trigger] ctx.Objs@[o as int].inputFile.LocalSymbols@[k]) == (if k >= 1 {
                ctx.Objs@[o as int].placed(old(ctx).Objs@[o as int].inputFile.LocalSymbols@[k], k)
            } else {
                old(ctx).Objs@[o as int].inputFile.LocalSymbols@[k]
            }) by {
                assert(obj.inputFile.LocalSymbols@[k] == old(ctx).Objs@[o as int].inputFile.LocalSymbols@[k]);
                assert(ctx.Objs@[o as int].piece_section(k) == obj.piece_section(k));
                assert(k < n) by {
                    assert(obj.shape_ok());
                }
            }
            lemma_grows_trans(*old(ctx), mid, *ctx);
            lemma_aligned_placing(*old(ctx), mid, *ctx, o as int);
        }
        Ok(())
    }
}

/// Binding symbols to fragments changes no fragment: alignments are kept,
/// and the pieces of the object stay aligned.
proof fn lemma_aligned_placing(old: Context, mid: Context, new: Context, o: int)
    requires
        0 <= o < mid.Objs@.len(),
        aligns_kept(old, mid),
        object_aligned(mid, mid.Objs@[o]),
        placing(mid, new, o),
    ensures
        aligns_kept(old, new),
        object_aligned(new, new.Objs@[o]),
{
    lemma_aligns_refl(mid);
    lemma_aligns_trans(old, mid, new);
    let a = mid.Objs@[o];
    let b = new.Objs@[o];
    assert forall|m: int| 0 <= m < b.MergeableSections@.len() implies (
    #[trigger] b.MergeableSections@[m] matches Some(ms) ==> pieces_aligned(new, ms)) by {
        if let Some(ms) = b.MergeableSections@[m] {
            assert(a.MergeableSections@[m] == Some(ms));
            assert(pieces_aligned(mid, ms));
        }
    }
}

/// Whether `new` is `mid` after symbols of the object at `o` and global
/// symbols were bound to fragments: the same context but for those
/// symbols, each of which is as it was or lies in a fragment that is
/// there, in no section, with another value.
pub open spec fn placing(mid: Context, new: Context, o: int) -> bool {
    &&& new == (Context { Objs: new.Objs, SymbolMap: new.SymbolMap, ..mid })
    &&& new.Objs@.len() == mid.Objs@.len()
    &&& forall|j: int| 0 <= j < mid.Objs@.len() && j != o ==> new.Objs@[j] == mid.Objs@[j]
    &&& new.Objs@[o] == (Objectfile {
        inputFile: InputFile {
            LocalSymbols: new.Objs@[o].inputFile.LocalSymbols,
            ..mid.Objs@[o].inputFile
        },
        ..mid.Objs@[o]
    })
    &&& new.Objs@[o].inputFile.LocalSymbols@.len() == mid.Objs@[o].inputFile.LocalSymbols@.len()
    &&& forall|k: int|
        0 <= k < mid.Objs@[o].inputFile.LocalSymbols@.len() ==> rebind_ok(
            mid,
            mid.Objs@[o].inputFile.LocalSymbols@[k],
            #[trigger] new.Objs@[o].inputFile.LocalSymbols@[k],
        )
    &&& new.SymbolMap@.len() == mid.SymbolMap@.len()
    &&& forall|g: int|
        0 <= g < mid.SymbolMap@.len() ==> rebind_ok(
            mid,
            mid.SymbolMap@[g],
            #[trigger] new.SymbolMap@[g],
        )
}

/// Whether `b` is the symbol `a` as it was or bound to a fragment: in a
/// fragment that is there, in no section, with another value.
pub open spec fn rebind_ok(ctx: Context, a: Symbol, b: Symbol) -> bool {
    b == a || (b.SectionFragment is Some && ctx.fragment_exists(b.SectionFragment.unwrap()) && b
        == (Symbol {
        SectionFragment: b.SectionFragment,
        InputSection: None,
        Value: b.Value,
        ..a
    }))
}

/// A context stays in order where symbols are bound to fragments that are
/// there.
proof fn lemma_wf_placing(mid: Context, new: Context, o: int)
    requires
        mid.wf(),
        0 <= o < mid.Objs@.len(),
        placing(mid, new, o),
    ensures
        new.wf(),
        new.grows_from(mid),
        symbol_names_of(new) == symbol_names_of(mid),
{
    reveal(Context::wf);
    lemma_grows_trans(mid, mid, mid);
    assert(new.grows_from(mid));
    assert forall|j: int| 0 <= j < new.Objs@.len() implies #[trigger] new.object_ok(j) by {
        assert(mid.object_ok(j));
        if j == o {
            let a = mid.Objs@[o];
            let b = new.Objs@[o];
            assert forall|k: int| 0 <= k < b.inputFile.LocalSymbols@.len() implies new.local_ok(
                b,
                o,
                #[trigger] b.inputFile.LocalSymbols@[k],
            ) by {
                assert(mid.local_ok(a, o, a.inputFile.LocalSymbols@[k]));
                assert(rebind_ok(mid, a.inputFile.LocalSymbols@[k], b.inputFile.LocalSymbols@[k]));
            }
            assert forall|s: int|
                0 <= s < b.Sections@.len() && (#[trigger] b.Sections@[s]) is Some implies new.section_placed(
                b,
                s,
            ) by {
                assert(mid.section_placed(a, s));
            }
            assert forall|q: int| 0 <= q < b.MergeableSections@.len() implies (
            #[trigger] b.MergeableSections@[q] matches Some(ms) ==> new.mergeable_ok(ms)) by {
                if let Some(ms) = a.MergeableSections@[q] {
                    assert(mid.mergeable_ok(ms));
                }
            }
        }
    }
    assert forall|g: int| 0 <= g < new.SymbolMap@.len() implies new.symbol_ok(
        #[trigger] new.SymbolMap@[g],
    ) by {
        let sym = mid.SymbolMap@[g];
        assert(mid.symbol_ok(sym));
        assert(rebind_ok(mid, sym, new.SymbolMap@[g]));
        if let Some(s) = new.SymbolMap@[g].InputSection {
            let f = sym.File.unwrap() as int;
            assert(mid.section_exists(f, s as int));
            assert(new.Objs@[f].Sections == mid.Objs@[f].Sections);
        }
    }
    let names = symbol_names_of(new);
    let old_names = symbol_names_of(mid);
    assert(names =~= old_names) by {
        assert forall|g: int| 0 <= g < names.len() implies names[g] == old_names[g] by {
            assert(rebind_ok(mid, mid.SymbolMap@[g], new.SymbolMap@[g]));
        }
    }
    assert(new.outputs_ok()) by {
        assert(mid.outputs_ok());
        assert forall|i: int, k: int|
            0 <= i < new.OutputSections@.len() && 0 <= k
                < new.OutputSections@[i].Members@.len() implies new.section_exists(
            (#[trigger] new.OutputSections@[i].Members@[k]).Obj as int,
            new.OutputSections@[i].Members@[k].Sec as int,
        ) by {
            let mm = mid.OutputSections@[i].Members@[k];
            assert(mid.section_exists(mm.Obj as int, mm.Sec as int));
            assert(new.Objs@[mm.Obj as int].Sections == mid.Objs@[mm.Obj as int].Sections);
        }
    }
}

/// Binding symbols to fragments depends on the symbol table and the
/// mergeable sections of the object only.
proof fn lemma_place_frame(a: Objectfile, b: Objectfile, syms: Seq<Symbol>, upto: int)
    requires
        b == (Objectfile {
            inputFile: InputFile { LocalSymbols: b.inputFile.LocalSymbols, ..a.inputFile },
            ..a
        }),
    ensures
        a.place_upto(syms, upto) == b.place_upto(syms, upto),
    decreases upto,
{
    if upto > 1 {
        lemma_place_frame(a, b, syms, upto - 1);
        assert(a.piece_section(upto - 1) == b.piece_section(upto - 1));
    }
}

/// Whether a symbol lies in no piece of its section depends on the symbol
/// table and the mergeable sections of the object only.
proof fn lemma_bad_frame(a: Objectfile, b: Objectfile, upto: int)
    requires
        b == (Objectfile {
            inputFile: InputFile { LocalSymbols: b.inputFile.LocalSymbols, ..a.inputFile },
            ..a
        }),
    ensures
        a.bad_piece_upto(upto) == b.bad_piece_upto(upto),
{
    if a.bad_piece_upto(upto) {
        let w = choose|w: int| 1 <= w < upto && #[trigger] a.bad_piece(w);
        assert(b.bad_piece(w));
    }
    if b.bad_piece_upto(upto) {
        let w = choose|w: int| 1 <= w < upto && #[trigger] b.bad_piece(w);
        assert(a.bad_piece(w));
    }
}

/// Whether a symbol of the object lies in a mergeable section but in none
/// of its pieces.
pub open spec fn has_bad_piece(obj: Objectfile) -> bool {
    obj.bad_piece_upto(obj.inputFile.ElfSyms@.len() as int)
}

/// Whether a symbol lies in no piece of its section does not depend on
/// the fragments behind the pieces nor on the local symbols.
proof fn lemma_bad_piece_stable(a: Objectfile, b: Objectfile)
    requires
        pieces_changed(a, Objectfile { inputFile: a.inputFile, ..b }),
        b.inputFile == (InputFile { LocalSymbols: b.inputFile.LocalSymbols, ..a.inputFile }),
    ensures
        has_bad_piece(a) == has_bad_piece(b),
{
    let n = a.inputFile.ElfSyms@.len() as int;
    let c = Objectfile { inputFile: a.inputFile, ..b };
    assert forall|i: int| 1 <= i < n implies a.bad_piece(i) == b.bad_piece(i) by {
        let esym = a.inputFile.ElfSyms@[i];
        let sx = crate::linker::objectfile::spec_shndx(a.SymtabShndxSec@, esym, i);
        if 0 <= sx < a.MergeableSections@.len() {
            assert(c.MergeableSections@[sx] == b.MergeableSections@[sx]);
        }
    }
    if has_bad_piece(a) {
        let w = choose|w: int| 1 <= w < n && #[trigger] a.bad_piece(w);
        assert(b.bad_piece(w));
    }
    if has_bad_piece(b) {
        let w = choose|w: int| 1 <= w < n && #[trigger] b.bad_piece(w);
        assert(a.bad_piece(w));
    }
}

/// The global symbols `syms` after the objects below `upto` of `objs`, in
/// their order, bound the symbols that lie in their mergeable sections to
/// the fragments behind the pieces.
pub open spec fn placed_symbols(objs: Seq<Objectfile>, syms: Seq<Symbol>, upto: int) -> Seq<Symbol>
    decreases upto,
{
    if upto <= 0 {
        syms
    } else {
        objs[upto - 1].place_upto(
            placed_symbols(objs, syms, upto - 1),
            objs[upto - 1].inputFile.ElfSyms@.len() as int,
        )
    }
}

/// Whether `after` is the object `before` but for the fragments behind
/// the pieces of its mergeable sections and for its local symbols.
pub open spec fn pieces_placed(before: Objectfile, after: Objectfile) -> bool {
    &&& pieces_changed(before, Objectfile { inputFile: before.inputFile, ..after })
    &&& after.inputFile == (InputFile {
        LocalSymbols: after.inputFile.LocalSymbols,
        ..before.inputFile
    })
    &&& after.inputFile.LocalSymbols@.len() == before.inputFile.LocalSymbols@.len()
}

/// Whether the local symbols of `after` are those of `before`, each bound
/// to the fragment behind the piece that it lies in where it lies in a
/// mergeable section.
pub open spec fn locals_placed(before: Objectfile, after: Objectfile) -> bool {
    &&& after.inputFile.LocalSymbols@.len() == before.inputFile.LocalSymbols@.len()
    &&& forall|k: int|
        0 <= k < after.inputFile.LocalSymbols@.len() ==> #[trigger] after.inputFile.LocalSymbols@[k]
            == (if k >= 1 {
            after.placed(before.inputFile.LocalSymbols@[k], k)
        } else {
            before.inputFile.LocalSymbols@[k]
        })
}

/// What the objects below `upto` do to the global symbols depends on
/// those objects alone.
proof fn lemma_placed_symbols_frame(
    a: Seq<Objectfile>,
    b: Seq<Objectfile>,
    syms: Seq<Symbol>,
    upto: int,
)
    requires
        upto <= a.len(),
        upto <= b.len(),
        forall|j: int| 0 <= j < upto ==> #[trigger] a[j] == b[j],
    ensures
        placed_symbols(a, syms, upto) == placed_symbols(b, syms, upto),
    decreases upto,
{
    if upto > 0 {
        lemma_placed_symbols_frame(a, b, syms, upto - 1);
        assert(a[upto - 1] == b[upto - 1]);
    }
}

/// One more object has had its turn: the objects before it are as they
/// were, so what held of them holds still.
proof fn lemma_pieces_step(start: Context, before: Context, after: Context, o: int)
    requires
        0 <= o < start.Objs@.len(),
        before.Objs@.len() == start.Objs@.len(),
        after.Objs@.len() == start.Objs@.len(),
        before.Objs@[o] == start.Objs@[o],
        forall|j: int| 0 <= j < start.Objs@.len() && j != o ==> after.Objs@[j] == before.Objs@[j],
        forall|j: int| 0 <= j < o ==> #[trigger] pieces_placed(start.Objs@[j], before.Objs@[j]),
        forall|j: int| 0 <= j < o ==> #[trigger] locals_placed(start.Objs@[j], before.Objs@[j]),
        forall|j: int| 0 <= j < o ==> #[trigger] object_aligned(before, before.Objs@[j]),
        forall|j: int| 0 <= j < o ==> #[trigger] before.object_ok(j),
        before.SymbolMap@ == placed_symbols(before.Objs@, start.SymbolMap@, o),
        aligns_kept(start, before),
        aligns_kept(before, after),
        object_aligned(after, after.Objs@[o]),
        pieces_placed(before.Objs@[o], after.Objs@[o]),
        locals_placed(before.Objs@[o], after.Objs@[o]),
        after.SymbolMap@ == after.Objs@[o].place_upto(
            before.SymbolMap@,
            after.Objs@[o].inputFile.ElfSyms@.len() as int,
        ),
    ensures
        forall|j: int| 0 <= j < o + 1 ==> #[trigger] pieces_placed(start.Objs@[j], after.Objs@[j]),
        forall|j: int| 0 <= j < o + 1 ==> #[trigger] locals_placed(start.Objs@[j], after.Objs@[j]),
        forall|j: int| 0 <= j < o + 1 ==> #[trigger] object_aligned(after, after.Objs@[j]),
        after.SymbolMap@ == placed_symbols(after.Objs@, start.SymbolMap@, o + 1),
        aligns_kept(start, after),
{
    lemma_aligns_trans(start, before, after);
    lemma_placed_symbols_frame(before.Objs@, after.Objs@, start.SymbolMap@, o);
    assert forall|j: int| 0 <= j < o + 1 implies #[trigger] pieces_placed(
        start.Objs@[j],
        after.Objs@[j],
    ) by {
        if j < o {
            assert(pieces_placed(start.Objs@[j], before.Objs@[j]));
        }
    }
    assert forall|j: int| 0 <= j < o + 1 implies #[trigger] locals_placed(
        start.Objs@[j],
        after.Objs@[j],
    ) by {
        if j < o {
            assert(locals_placed(start.Objs@[j], before.Objs@[j]));
        }
    }
    assert forall|j: int| 0 <= j < o + 1 implies #[trigger] object_aligned(after, after.Objs@[j]) by {
        if j < o {
            assert(object_aligned(before, before.Objs@[j]));
            assert(before.object_ok(j));
            let obj = before.Objs@[j];
            assert forall|m: int| 0 <= m < obj.MergeableSections@.len() implies (
            #[trigger] obj.MergeableSections@[m] matches Some(ms) ==> ms.Parent
                < before.MergedSections@.len()) by {
                if let Some(ms) = obj.MergeableSections@[m] {
                    assert(before.mergeable_ok(ms));
                }
            }
            lemma_object_aligned_kept(before, after, obj);
        }
    }
}

/// An object of which nothing changed is as it was but for its pieces.
proof fn lemma_pieces_placed_refl(obj: Objectfile)
    ensures
        pieces_placed(obj, obj),
{
    let same = Objectfile { inputFile: obj.inputFile, ..obj };
    assert(same == obj);
    assert forall|m: int| 0 <= m < obj.MergeableSections@.len() implies match (
        obj.MergeableSections@[m],
        #[trigger] same.MergeableSections@[m],
    ) {
        (Some(a), Some(b)) => b == (MergeableSection { Fragments: b.Fragments, ..a }),
        (None, None) => true,
        _ => false,
    } by {}
}

/// Registers the pieces of all mergeable sections and binds the symbols
/// that lie in them, object by object: every piece gets the one fragment
/// of its merged section that holds its bytes, registered with the
/// alignment of its section, and every symbol that lies in a mergeable
/// section is bound to the fragment behind the piece it lies in, with its
/// offset in the piece as value. Nothing else changes. Stops at the first
/// object with a symbol that lies in no piece of its section, which is a
/// resolution error.
pub fn RegisterSectionPieces(ctx: &mut Context) -> (r: Result<(), LinkError>)
    requires
        old(ctx).wf(),
    ensures
        final(ctx).wf(),
        final(ctx).grows_from(*old(ctx)),
        *final(ctx) == (Context {
            Objs: final(ctx).Objs,
            SymbolMap: final(ctx).SymbolMap,
            MergedSections: final(ctx).MergedSections,
            ..*old(ctx)
        }),
        final(ctx).Objs@.len() == old(ctx).Objs@.len(),
        final(ctx).MergedSections@.len() == old(ctx).MergedSections@.len(),
        symbol_names_of(*final(ctx)) == symbol_names_of(*old(ctx)),
        forall|o: int|
            0 <= o < old(ctx).Objs@.len() ==> (#[trigger] final(ctx).Objs@[o]).inputFile.IsAlive
                == old(ctx).Objs@[o].inputFile.IsAlive,
        r is Err <==> exists|o: int|
            0 <= o < old(ctx).Objs@.len() && has_bad_piece(#[trigger] old(ctx).Objs@[o]),
        r is Err ==> r == Err::<(), LinkError>(LinkError::Resolution),
        r is Ok ==> forall|o: int|
            0 <= o < final(ctx).Objs@.len() ==> pieces_registered(#[trigger] final(ctx).Objs@[o]),
        aligns_kept(*old(ctx), *final(ctx)),
        forall|o: int|
            0 <= o < old(ctx).Objs@.len() ==> #[trigger] pieces_placed(
                old(ctx).Objs@[o],
                final(ctx).Objs@[o],
            ),
        r is Ok ==> final(ctx).SymbolMap@ == placed_symbols(
            final(ctx).Objs@,
            old(ctx).SymbolMap@,
            old(ctx).Objs@.len() as int,
        ),
        r is Ok ==> forall|o: int|
            0 <= o < old(ctx).Objs@.len() ==> #[trigger] locals_placed(
                old(ctx).Objs@[o],
                final(ctx).Objs@[o],
            ),
        r is Ok ==> forall|o: int|
            0 <= o < final(ctx).Objs@.len() ==> #[trigger] object_aligned(
                *final(ctx),
                final(ctx).Objs@[o],
            ),
{
    let n: usize = ctx.Objs.len();
    let mut o: usize = 0;
    proof {
        lemma_grows_trans(*ctx, *ctx, *ctx);
        lemma_aligns_refl(*ctx);
    }
    while o < n
        invariant
            o <= n,
            n == old(ctx).Objs@.len(),
            ctx.wf(),
            ctx.grows_from(*old(ctx)),
            *ctx == (Context {
                Objs: ctx.Objs,
                SymbolMap: ctx.SymbolMap,
                MergedSections: ctx.MergedSections,
                ..*old(ctx)
            }),
            ctx.Objs@.len() == n,
            ctx.MergedSections@.len() == old(ctx).MergedSections@.len(),
            symbol_names_of(*ctx) == symbol_names_of(*old(ctx)),
            forall|j: int| o <= j < n ==> ctx.Objs@[j] == old(ctx).Objs@[j],
            forall|j: int|
                0 <= j < n ==> (#[trigger] ctx.Objs@[j]).inputFile.IsAlive == old(ctx).Objs@[j].inputFile.IsAlive,
            forall|j: int| 0 <= j < o ==> !has_bad_piece(#[trigger] old(ctx).Objs@[j]),
            forall|j: int| 0 <= j < o ==> pieces_registered(#[trigger] ctx.Objs@[j]),
            aligns_kept(*old(ctx), *ctx),
            forall|j: int| 0 <= j < o ==> #[trigger] pieces_placed(old(ctx).Objs@[j], ctx.Objs@[j]),
            forall|j: int| 0 <= j < o ==> #[trigger] locals_placed(old(ctx).Objs@[j], ctx.Objs@[j]),
            forall|j: int| 0 <= j < o ==> #[trigger] object_aligned(*ctx, ctx.Objs@[j]),
            ctx.SymbolMap@ == placed_symbols(ctx.Objs@, old(ctx).SymbolMap@, o as int),
        decreases n - o,
    {
        let ghost before = *ctx;
        let res = Objectfile::RegisterSectionPieces(ctx, o);
        proof {
            lemma_grows_trans(*old(ctx), before, *ctx);
            lemma_bad_piece_stable(before.Objs@[o as int], ctx.Objs@[o as int]);
            lemma_aligns_trans(*old(ctx), before, *ctx);
            assert(before.Objs@[o as int] == old(ctx).Objs@[o as int]);
            assert forall|j: int| 0 <= j < n implies #[trigger] pieces_placed(
                old(ctx).Objs@[j],
                ctx.Objs@[j],
            ) by {
                if j < o {
                    assert(pieces_placed(old(ctx).Objs@[j], before.Objs@[j]));
                } else if j > o {
                    lemma_pieces_placed_refl(old(ctx).Objs@[j]);
                }
            }
            if res is Ok {
                lemma_wf_parts(before);
                lemma_pieces_step(*old(ctx), before, *ctx, o as int);
            }
            assert forall|j: int| 0 <= j < n implies (#[trigger] ctx.Objs@[j]).inputFile.IsAlive
                == old(ctx).Objs@[j].inputFile.IsAlive by {
                assert(before.Objs@[j].inputFile.IsAlive == old(ctx).Objs@[j].inputFile.IsAlive);
            }
            assert forall|j: int| 0 <= j < o implies pieces_registered(#[trigger] ctx.Objs@[j]) by {
                assert(pieces_registered(before.Objs@[j]));
            }
        }
        match res {
            Ok(()) => {},
            Err(e) => {
                assert(has_bad_piece(old(ctx).Objs@[o as int]));
                return Err(LinkError::Resolution);
            },
        }
        o = o + 1;
    }
    Ok(())
}

/// Two pieces with the same bytes that go to the same merged section are
/// behind the same fragment, and so end up in the same section at the same
/// offset.
pub proof fn lemma_merge_dedup(
    ctx: Context,
    o1: int,
    m1: int,
    k1: int,
    o2: int,
    m2: int,
    k2: int,
)
    requires
        ctx.wf(),
        0 <= o1 < ctx.Objs@.len(),
        0 <= o2 < ctx.Objs@.len(),
        0 <= m1 < ctx.Objs@[o1].MergeableSections@.len(),
        0 <= m2 < ctx.Objs@[o2].MergeableSections@.len(),
        ctx.Objs@[o1].MergeableSections@[m1] is Some,
        ctx.Objs@[o2].MergeableSections@[m2] is Some,
        0 <= k1 < ctx.Objs@[o1].MergeableSections@[m1].unwrap().Fragments@.len(),
        0 <= k2 < ctx.Objs@[o2].MergeableSections@[m2].unwrap().Fragments@.len(),
        ctx.Objs@[o1].MergeableSections@[m1].unwrap().Parent
            == ctx.Objs@[o2].MergeableSections@[m2].unwrap().Parent,
        ctx.Objs@[o1].MergeableSections@[m1].unwrap().Strs@[k1]@
            == ctx.Objs@[o2].MergeableSections@[m2].unwrap().Strs@[k2]@,
    ensures
        ctx.Objs@[o1].MergeableSections@[m1].unwrap().Fragments@[k1]
            == ctx.Objs@[o2].MergeableSections@[m2].unwrap().Fragments@[k2],
{
    reveal(Context::wf);
    let a = ctx.Objs@[o1].MergeableSections@[m1].unwrap();
    let b = ctx.Objs@[o2].MergeableSections@[m2].unwrap();
    assert(ctx.object_ok(o1));
    assert(ctx.object_ok(o2));
    assert(ctx.mergeable_ok(a));
    assert(ctx.mergeable_ok(b));
    let parent = ctx.MergedSections@[a.Parent as int];
    assert(parent.wf());
    let f1 = a.Fragments@[k1] as int;
    let f2 = b.Fragments@[k2] as int;
    assert(parent.Map@[f1].Key@ == parent.Map@[f2].Key@);
    if f1 < f2 {
        assert(parent.Map@[f1].Key@ != parent.Map@[f2].Key@);
    }
    if f2 < f1 {
        assert(parent.Map@[f2].Key@ != parent.Map@[f1].Key@);
    }
}

} // verus!
