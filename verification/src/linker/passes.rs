//! Binding the global symbols and dropping the objects that nothing needs.
use vstd::prelude::*;
use crate::linker::context::{
    Context, lemma_wf_parts, only_symbols_changed, lemma_wf_symbols_changed,
};
use crate::linker::file::InputFile;
use crate::linker::objectfile::Objectfile;
use crate::linker::symbol::Symbol;
use crate::linker::inputsections::InputSection;

use crate::linker::liveness::liveness_only;
pub use crate::linker::liveness::MarkLiveObjects;
pub use crate::linker::pieces::RegisterSectionPieces;
pub use crate::linker::commons::ConvertCommonSymbols;

verus! {
/// The symbol `sym` without definer: bound to no file, no section and no
/// fragment.
pub open spec fn orphan(sym: Symbol) -> Symbol {
    Symbol { File: None, InputSection: None, SectionFragment: None, ..sym }
}

impl Objectfile {
    /// Takes from the object at `o` the global symbols that it defines:
    /// each is left without definer. Nothing but global symbols changes.
    pub fn ClearSymbols(ctx: &mut Context, o: usize)
        requires
            old(ctx).wf(),
        ensures
            final(ctx).wf(),
            only_symbols_changed(*old(ctx), *final(ctx)),
            forall|g: int|
                0 <= g < old(ctx).SymbolMap@.len() ==> #[trigger] final(ctx).SymbolMap@[g] == (if old(ctx).SymbolMap@[g].File == Some(o) {
                    orphan(old(ctx).SymbolMap@[g])
                } else {
                    old(ctx).SymbolMap@[g]
                }),
    {
        let n: usize = ctx.SymbolMap.len();
        let mut g: usize = 0;
        while g < n
            invariant
                g <= n,
                n == old(ctx).SymbolMap@.len(),
                old(ctx).wf(),
                *ctx == (Context { SymbolMap: ctx.SymbolMap, ..*old(ctx) }),
                ctx.SymbolMap@.len() == n,
                forall|k: int|
                    0 <= k < n ==> #[trigger] ctx.SymbolMap@[k] == (if k < g && old(ctx).SymbolMap@[k].File == Some(o) {
                        orphan(old(ctx).SymbolMap@[k])
                    } else {
                        old(ctx).SymbolMap@[k]
                    }),
            decreases n - g,
        {
            if ctx.SymbolMap[g].File == Some(o) {
                ctx.SymbolMap[g].File = None;
                ctx.SymbolMap[g].InputSection = None;
                ctx.SymbolMap[g].SectionFragment = None;
            }
            g = g + 1;
        }
        proof {
            lemma_wf_parts(*old(ctx));
            assert forall|k: int| 0 <= k < ctx.SymbolMap@.len() implies ctx.symbol_ok(
                #[trigger] ctx.SymbolMap@[k],
            ) by {
                assert(old(ctx).symbol_ok(old(ctx).SymbolMap@[k]));
            }
            lemma_wf_symbols_changed(*old(ctx), *ctx);
        }
    }
}

/// How many of the first `upto` objects are alive.
pub open spec fn live_count(objs: Seq<Objectfile>, upto: int) -> nat
    decreases upto,
{
    if upto <= 0 {
        0
    } else {
        live_count(objs, upto - 1) + (if objs[upto - 1].inputFile.IsAlive {
            1nat
        } else {
            0nat
        })
    }
}

proof fn lemma_live_count_bounds(objs: Seq<Objectfile>, i: int, upto: int)
    requires
        0 <= i <= upto <= objs.len(),
    ensures
        live_count(objs, i) <= live_count(objs, upto),
        live_count(objs, upto) <= upto,
        i < upto && objs[i].inputFile.IsAlive ==> live_count(objs, i) < live_count(objs, upto),
    decreases upto,
{
    if upto > 0 {
        if i < upto {
            lemma_live_count_bounds(objs, i, upto - 1);
        } else {
            lemma_live_count_bounds(objs, upto - 1, upto - 1);
        }
    }
}

/// Whether `after` is the object `before` moved to the position `j`: the
/// same object but for its local symbols, which name `j` as their file.
pub open spec fn moved_to(before: Objectfile, after: Objectfile, j: int) -> bool {
    &&& after == (Objectfile {
        inputFile: InputFile { LocalSymbols: after.inputFile.LocalSymbols, ..before.inputFile },
        ..before
    })
    &&& after.inputFile.LocalSymbols@.len() == before.inputFile.LocalSymbols@.len()
    &&& forall|k: int|
        0 <= k < before.inputFile.LocalSymbols@.len() ==> #[trigger] after.inputFile.LocalSymbols@[k]
            == (Symbol { File: Some(j as usize), ..before.inputFile.LocalSymbols@[k] })
}

/// The global symbol `sym` after the objects `objs` lost those that are
/// not alive: a symbol that a surviving object defines names the new
/// position of that object; a symbol that a dropped object defined has no
/// definer.
pub open spec fn rebound(sym: Symbol, objs: Seq<Objectfile>) -> Symbol {
    match sym.File {
        Some(f) => if objs[f as int].inputFile.IsAlive {
            Symbol { File: Some(live_count(objs, f as int) as usize), ..sym }
        } else {
            orphan(sym)
        },
        None => sym,
    }
}

/// Whether `new` is `old` without the objects that are not alive: the
/// surviving objects in their order, each moved to its new position, and
/// the global symbols bound to the new positions.
pub open spec fn dropped_from(old: Context, new: Context) -> bool {
    let n = old.Objs@.len() as int;
    &&& new == (Context { Objs: new.Objs, SymbolMap: new.SymbolMap, ..old })
    &&& new.Objs@.len() == live_count(old.Objs@, n)
    &&& forall|i: int|
        0 <= i < n && (#[trigger] old.Objs@[i]).inputFile.IsAlive ==> moved_to(
            old.Objs@[i],
            new.Objs@[live_count(old.Objs@, i) as int],
            live_count(old.Objs@, i) as int,
        )
    &&& new.SymbolMap@.len() == old.SymbolMap@.len()
    &&& forall|g: int|
        0 <= g < old.SymbolMap@.len() ==> #[trigger] new.SymbolMap@[g] == rebound(
            old.SymbolMap@[g],
            old.Objs@,
        )
}

/// Whether no output section has members and no symbol has a slot in the
/// table of thread-pointer relative addresses: what holds before sections
/// are binned and relocations are scanned.
pub open spec fn nothing_binned(ctx: Context) -> bool {
    &&& forall|i: int|
        0 <= i < ctx.OutputSections@.len() ==> (#[trigger] ctx.OutputSections@[i]).Members@.len() == 0
    &&& ctx.Got.GotTpSyms@.len() == 0
}

/// Removes the objects that are not alive from the context. The surviving
/// objects keep their order; global symbols that a removed object defined
/// are left without definer.
#[verifier::rlimit(100)]
pub fn DropDeadObjects(ctx: &mut Context)
    requires
        old(ctx).wf(),
        nothing_binned(*old(ctx)),
    ensures
        final(ctx).wf(),
        dropped_from(*old(ctx), *final(ctx)),
        forall|j: int| 0 <= j < final(ctx).Objs@.len() ==> #[trigger] final(ctx).alive(j),
{
    proof {
        lemma_wf_parts(*ctx);
    }
    let n: usize = ctx.Objs.len();
    let mut table: Vec<usize> = Vec::with_capacity(n);
    let mut i: usize = 0;
    let mut live: usize = 0;
    while i < n
        invariant
            i <= n,
            n == ctx.Objs@.len(),
            *ctx == *old(ctx),
            live == live_count(ctx.Objs@, i as int),
            live <= i,
            table@.len() == i,
            forall|k: int| 0 <= k < i ==> (#[trigger] table@[k]) == live_count(ctx.Objs@, k),
        decreases n - i,
    {
        table.push(live);
        if ctx.Objs[i].IsAlive() {
            live = live + 1;
        }
        i = i + 1;
    }
    let ns: usize = ctx.SymbolMap.len();
    let mut g: usize = 0;
    while g < ns
        invariant
            g <= ns,
            ns == old(ctx).SymbolMap@.len(),
            n == old(ctx).Objs@.len(),
            old(ctx).symbols_ok(),
            *ctx == (Context { SymbolMap: ctx.SymbolMap, ..*old(ctx) }),
            ctx.SymbolMap@.len() == ns,
            table@.len() == n,
            forall|k: int| 0 <= k < n ==> (#[trigger] table@[k]) == live_count(old(ctx).Objs@, k),
            forall|k: int|
                0 <= k < ns ==> #[trigger] ctx.SymbolMap@[k] == (if k < g {
                    rebound(old(ctx).SymbolMap@[k], old(ctx).Objs@)
                } else {
                    old(ctx).SymbolMap@[k]
                }),
        decreases ns - g,
    {
        assert(old(ctx).symbol_ok(old(ctx).SymbolMap@[g as int]));
        match ctx.SymbolMap[g].File {
            Some(f) => {
                if ctx.Objs[f].IsAlive() {
                    ctx.SymbolMap[g].File = Some(table[f]);
                } else {
                    ctx.SymbolMap[g].File = None;
                    ctx.SymbolMap[g].InputSection = None;
                    ctx.SymbolMap[g].SectionFragment = None;
                }
            },
            None => {},
        }
        g = g + 1;
    }
    let mut rest: Vec<Objectfile> = Vec::new();
    core::mem::swap(&mut ctx.Objs, &mut rest);
    let mut done: usize = 0;
    assert(rest@ =~= old(ctx).Objs@.subrange(0, n as int));
    while done < n
        invariant
            done <= n,
            n == old(ctx).Objs@.len(),
            *ctx == (Context { Objs: ctx.Objs, SymbolMap: ctx.SymbolMap, ..*old(ctx) }),
            rest@ == old(ctx).Objs@.subrange(done as int, n as int),
            ctx.Objs@.len() == live_count(old(ctx).Objs@, done as int),
            ctx.SymbolMap@.len() == old(ctx).SymbolMap@.len(),
            forall|k: int|
                0 <= k < old(ctx).SymbolMap@.len() ==> #[trigger] ctx.SymbolMap@[k] == rebound(
                    old(ctx).SymbolMap@[k],
                    old(ctx).Objs@,
                ),
            forall|k: int|
                0 <= k < done && (#[trigger] old(ctx).Objs@[k]).inputFile.IsAlive ==> moved_to(
                    old(ctx).Objs@[k],
                    ctx.Objs@[live_count(old(ctx).Objs@, k) as int],
                    live_count(old(ctx).Objs@, k) as int,
                ),
            forall|j: int| 0 <= j < ctx.Objs@.len() ==> (#[trigger] ctx.Objs@[j]).inputFile.IsAlive,
        decreases n - done,
    {
        let mut obj = rest.remove(0);
        assert(obj == old(ctx).Objs@[done as int]);
        assert(rest@ =~= old(ctx).Objs@.subrange(done + 1, n as int));
        if obj.IsAlive() {
            let j: usize = ctx.Objs.len();
            let nl: usize = obj.inputFile.LocalSymbols.len();
            let ghost before = obj;
            let mut k: usize = 0;
            while k < nl
                invariant
                    k <= nl,
                    nl == before.inputFile.LocalSymbols@.len(),
                    obj == (Objectfile {
                        inputFile: InputFile {
                            LocalSymbols: obj.inputFile.LocalSymbols,
                            ..before.inputFile
                        },
                        ..before
                    }),
                    obj.inputFile.LocalSymbols@.len() == nl,
                    forall|q: int|
                        0 <= q < nl ==> #[trigger] obj.inputFile.LocalSymbols@[q] == (if q < k {
                            Symbol { File: Some(j), ..before.inputFile.LocalSymbols@[q] }
                        } else {
                            before.inputFile.LocalSymbols@[q]
                        }),
                decreases nl - k,
            {
                obj.inputFile.LocalSymbols[k].File = Some(j);
                k = k + 1;
            }
            let ghost prev = ctx.Objs@;
            ctx.Objs.push(obj);
            proof {
                lemma_live_count_bounds(old(ctx).Objs@, done as int, n as int);
                assert forall|q: int|
                    0 <= q < done + 1 && (#[trigger] old(ctx).Objs@[q]).inputFile.IsAlive implies moved_to(
                    old(ctx).Objs@[q],
                    ctx.Objs@[live_count(old(ctx).Objs@, q) as int],
                    live_count(old(ctx).Objs@, q) as int,
                ) by {
                    if q < done {
                        lemma_live_count_bounds(old(ctx).Objs@, q, done as int);
                        assert(ctx.Objs@[live_count(old(ctx).Objs@, q) as int]
                            == prev[live_count(old(ctx).Objs@, q) as int]);
                    }
                }
            }
        }
        done = done + 1;
    }
    proof {
        lemma_dropped_wf(*old(ctx), *ctx);
    }
}

/// A context that is in order stays in order where the objects that are
/// not alive are removed before anything is binned.
pub proof fn lemma_dropped_wf(old: Context, new: Context)
    requires
        old.wf(),
        nothing_binned(old),
        dropped_from(old, new),
        old.Objs@.len() <= usize::MAX,
    ensures
        new.wf(),
        forall|j: int| 0 <= j < new.Objs@.len() ==> #[trigger] new.alive(j),
{
    reveal(Context::wf);
    let n = old.Objs@.len() as int;
    let m = new.Objs@.len() as int;
    assert forall|j: int| 0 <= j < m implies #[trigger] new.object_ok(j) && new.alive(j) by {
        lemma_position_source(old.Objs@, n, j);
        let i = choose|i: int|
            0 <= i < n && old.Objs@[i].inputFile.IsAlive && #[trigger] live_count(old.Objs@, i) == j;
        let a = old.Objs@[i];
        let b = new.Objs@[j];
        assert(moved_to(a, b, j));
        assert(old.object_ok(i));
        assert forall|k: int| 0 <= k < b.inputFile.LocalSymbols@.len() implies new.local_ok(
            b,
            j,
            #[trigger] b.inputFile.LocalSymbols@[k],
        ) by {
            assert(old.local_ok(a, i, a.inputFile.LocalSymbols@[k]));
        }
        assert forall|s: int|
            0 <= s < b.Sections@.len() && (#[trigger] b.Sections@[s]) is Some implies new.section_placed(
            b,
            s,
        ) by {
            assert(old.section_placed(a, s));
        }
        assert forall|q: int| 0 <= q < b.MergeableSections@.len() implies (
        #[trigger] b.MergeableSections@[q] matches Some(ms) ==> new.mergeable_ok(ms)) by {
            if let Some(ms) = a.MergeableSections@[q] {
                assert(old.mergeable_ok(ms));
            }
        }
    }
    assert forall|j: int| 0 <= j < m implies #[trigger] new.alive(j) by {
        assert(new.object_ok(j));
        lemma_position_source(old.Objs@, n, j);
        let i = choose|i: int|
            0 <= i < n && old.Objs@[i].inputFile.IsAlive && #[trigger] live_count(old.Objs@, i) == j;
        assert(moved_to(old.Objs@[i], new.Objs@[j], j));
    }
    let names = symbol_names_of(new);
    assert forall|g: int| 0 <= g < new.SymbolMap@.len() implies new.symbol_ok(
        #[trigger] new.SymbolMap@[g],
    ) by {
        let sym = old.SymbolMap@[g];
        assert(old.symbol_ok(sym));
        assert(new.SymbolMap@[g] == rebound(sym, old.Objs@));
        if let Some(f) = sym.File {
            if old.Objs@[f as int].inputFile.IsAlive {
                lemma_live_count_bounds(old.Objs@, f as int, n);
                lemma_live_count_bounds(old.Objs@, f as int, f as int);
                assert(old.Objs@[f as int].inputFile.IsAlive);
                assert(moved_to(
                    old.Objs@[f as int],
                    new.Objs@[live_count(old.Objs@, f as int) as int],
                    live_count(old.Objs@, f as int) as int,
                ));
                if let Some(s) = sym.InputSection {
                    assert(old.section_exists(f as int, s as int));
                }
            }
        }
    }
    assert(names_unique(names)) by {
        let old_names = symbol_names_of(old);
        assert forall|i: int, j: int| 0 <= i < j < names.len() implies names[i] != names[j] by {
            assert(old_names[i] != old_names[j]);
            assert(new.SymbolMap@[i] == rebound(old.SymbolMap@[i], old.Objs@));
            assert(new.SymbolMap@[j] == rebound(old.SymbolMap@[j], old.Objs@));
        }
    }
    assert(new.outputs_ok()) by {
        assert(old.outputs_ok());
    }
}

/// The names of the global symbols of `ctx`.
pub open spec fn symbol_names_of(ctx: Context) -> Seq<Seq<u8>> {
    crate::linker::symbol::symbol_names(ctx.SymbolMap@)
}

use crate::linker::symbol::names_unique;

/// Every position below the number of objects alive is the new position
/// of an object that is alive.
proof fn lemma_position_source(objs: Seq<Objectfile>, upto: int, j: int)
    requires
        0 <= upto <= objs.len(),
        0 <= j < live_count(objs, upto),
    ensures
        exists|i: int|
            0 <= i < upto && objs[i].inputFile.IsAlive && #[trigger] live_count(objs, i) == j,
    decreases upto,
{
    if upto > 0 {
        if objs[upto - 1].inputFile.IsAlive && live_count(objs, upto - 1) == j {
            assert(0 <= upto - 1 < upto && objs[upto - 1].inputFile.IsAlive && live_count(
                objs,
                upto - 1,
            ) == j);
        } else {
            lemma_position_source(objs, upto - 1, j);
            let i = choose|i: int|
                0 <= i < upto - 1 && objs[i].inputFile.IsAlive && #[trigger] live_count(objs, i)
                    == j;
            assert(0 <= i < upto && objs[i].inputFile.IsAlive && live_count(objs, i) == j);
        }
    }
}

/// The global symbols `syms` after the first `upto` of the objects `objs`
/// had their turn at binding, in their order.
pub open spec fn resolve_objects(syms: Seq<Symbol>, objs: Seq<Objectfile>, upto: int) -> Seq<Symbol>
    decreases upto,
{
    if upto <= 0 {
        syms
    } else {
        objs[upto - 1].resolve_upto(
            resolve_objects(syms, objs, upto - 1),
            upto - 1,
            objs[upto - 1].inputFile.ElfSyms@.len() as int,
        )
    }
}

/// Whether `new` is `old` with every global symbol bound to the first
/// object that defines it.
pub open spec fn bound_from(old: Context, new: Context) -> bool {
    &&& only_symbols_changed(old, new)
    &&& new.SymbolMap@ == resolve_objects(old.SymbolMap@, old.Objs@, old.Objs@.len() as int)
}

/// Whether `new` is `old` with every object alive that can be reached from
/// an object alive in `old`, and no other.
pub open spec fn marked_from(old: Context, new: Context) -> bool {
    &&& liveness_only(old, new)
    &&& forall|o: int| 0 <= o < old.Objs@.len() ==> (#[trigger] new.alive(o) <==> old.reachable(o))
}

/// Binds the global symbols and settles which objects take part in the
/// link. Every global symbol is bound to the first object that defines it;
/// the objects that can be reached from an object that is alive, by a chain
/// of references to symbols, are brought to life; every other object is
/// removed, and the symbols that it defined are left without definer.
#[verifier::rlimit(100)]
pub fn ResolveSymbols(ctx: &mut Context)
    requires
        old(ctx).wf(),
        nothing_binned(*old(ctx)),
    ensures
        final(ctx).wf(),
        nothing_binned(*final(ctx)),
        exists|bound: Context, marked: Context|
            bound_from(*old(ctx), bound) && #[trigger] marked_from(bound, marked) && dropped_from(
                marked,
                *final(ctx),
            ),
        forall|j: int| 0 <= j < final(ctx).Objs@.len() ==> #[trigger] final(ctx).alive(j),
        symbol_names_of(*final(ctx)) == symbol_names_of(*old(ctx)),
{
    let n: usize = ctx.Objs.len();
    let mut o: usize = 0;
    while o < n
        invariant
            o <= n,
            n == old(ctx).Objs@.len(),
            ctx.wf(),
            only_symbols_changed(*old(ctx), *ctx),
            ctx.SymbolMap@ == resolve_objects(old(ctx).SymbolMap@, old(ctx).Objs@, o as int),
        decreases n - o,
    {
        let ghost before = *ctx;
        Objectfile::ResolveSymbols(ctx, o);
        proof {
            assert forall|g: int| 0 <= g < old(ctx).SymbolMap@.len() implies (
            #[trigger] ctx.SymbolMap@[g]).Name == old(ctx).SymbolMap@[g].Name by {
                assert(before.SymbolMap@[g].Name == old(ctx).SymbolMap@[g].Name);
            }
        }
        o = o + 1;
    }
    let ghost bound = *ctx;
    MarkLiveObjects(ctx);
    let ghost marked = *ctx;
    let mut d: usize = 0;
    while d < n
        invariant
            d <= n,
            n == marked.Objs@.len(),
            marked.wf(),
            ctx.wf(),
            only_symbols_changed(marked, *ctx),
            forall|g: int|
                0 <= g < marked.SymbolMap@.len() ==> #[trigger] ctx.SymbolMap@[g] == (
                if marked.SymbolMap@[g].File is Some && marked.SymbolMap@[g].File.unwrap() < d
                    && !marked.Objs@[marked.SymbolMap@[g].File.unwrap() as int].inputFile.IsAlive {
                    orphan(marked.SymbolMap@[g])
                } else {
                    marked.SymbolMap@[g]
                }),
        decreases n - d,
    {
        if !ctx.Objs[d].IsAlive() {
            let ghost before = *ctx;
            Objectfile::ClearSymbols(ctx, d);
            proof {
                assert forall|g: int| 0 <= g < marked.SymbolMap@.len() implies (
                #[trigger] ctx.SymbolMap@[g]).Name == marked.SymbolMap@[g].Name by {
                    assert(before.SymbolMap@[g].Name == marked.SymbolMap@[g].Name);
                }
            }
        }
        d = d + 1;
    }
    let ghost cleared = *ctx;
    DropDeadObjects(ctx);
    proof {
        lemma_wf_parts(marked);
        assert forall|g: int| 0 <= g < marked.SymbolMap@.len() implies #[trigger] ctx.SymbolMap@[g]
            == rebound(marked.SymbolMap@[g], marked.Objs@) by {
            assert(ctx.SymbolMap@[g] == rebound(cleared.SymbolMap@[g], cleared.Objs@));
            assert(marked.symbol_ok(marked.SymbolMap@[g]));
        }
        assert forall|i: int|
            0 <= i < n && (#[trigger] marked.Objs@[i]).inputFile.IsAlive implies moved_to(
            marked.Objs@[i],
            ctx.Objs@[live_count(marked.Objs@, i) as int],
            live_count(marked.Objs@, i) as int,
        ) by {
            assert(cleared.Objs@[i].inputFile.IsAlive);
        }
        assert(dropped_from(marked, *ctx));
        assert(bound_from(*old(ctx), bound));
        assert(marked_from(bound, marked));
        assert(symbol_names_of(*ctx) =~= symbol_names_of(*old(ctx))) by {
            assert forall|g: int| 0 <= g < old(ctx).SymbolMap@.len() implies ctx.SymbolMap@[g].Name
                == old(ctx).SymbolMap@[g].Name by {
                assert(ctx.SymbolMap@[g] == rebound(marked.SymbolMap@[g], marked.Objs@));
                assert(bound.SymbolMap@[g].Name == old(ctx).SymbolMap@[g].Name);
            }
        }
    }
}

} // verus!
