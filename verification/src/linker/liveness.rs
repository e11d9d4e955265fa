//! Which objects take part in the link: those that are reached from an
//! object that is alive by a chain of references to symbols.
use vstd::prelude::*;
use crate::linker::abi;
use crate::linker::context::{Context, lemma_wf_parts};
use crate::linker::file::InputFile;
use crate::linker::objectfile::Objectfile;
use crate::linker::symbol::SymbolId;
use crate::linker::inputsections::InputSection;


verus! {


/// Whether `new` is `old` with other liveness flags on its objects and
/// nothing else changed.
pub open spec fn liveness_only(old: Context, new: Context) -> bool {
    &&& new == (Context { Objs: new.Objs, ..old })
    &&& new.Objs@.len() == old.Objs@.len()
    &&& forall|o: int|
        0 <= o < old.Objs@.len() ==> #[trigger] new.Objs@[o] == (Objectfile {
            inputFile: InputFile {
                IsAlive: new.Objs@[o].inputFile.IsAlive,
                ..old.Objs@[o].inputFile
            },
            ..old.Objs@[o]
        })
}

/// A context stays in order where only liveness flags change.
pub proof fn lemma_wf_liveness(old: Context, new: Context)
    requires
        old.wf(),
        liveness_only(old, new),
    ensures
        new.wf(),
{
    reveal(Context::wf);
    assert forall|o: int| 0 <= o < new.Objs@.len() implies #[trigger] new.object_ok(o) by {
        assert(old.object_ok(o));
        let a = old.Objs@[o];
        let b = new.Objs@[o];
        assert(b == (Objectfile {
            inputFile: InputFile { IsAlive: b.inputFile.IsAlive, ..a.inputFile },
            ..a
        }));
        assert forall|k: int| 0 <= k < b.inputFile.LocalSymbols@.len() implies new.local_ok(
            b,
            o,
            #[trigger] b.inputFile.LocalSymbols@[k],
        ) by {
            assert(old.local_ok(a, o, a.inputFile.LocalSymbols@[k]));
        }
        assert forall|s: int|
            0 <= s < b.Sections@.len() && (#[trigger] b.Sections@[s]) is Some implies new.section_placed(
            b,
            s,
        ) by {
            assert(old.section_placed(a, s));
        }
        assert forall|m: int| 0 <= m < b.MergeableSections@.len() implies (
        #[trigger] b.MergeableSections@[m] matches Some(ms) ==> new.mergeable_ok(ms)) by {
            if let Some(ms) = a.MergeableSections@[m] {
                assert(old.mergeable_ok(ms));
            }
        }
    }
    assert forall|g: int| 0 <= g < new.SymbolMap@.len() implies new.symbol_ok(
        #[trigger] new.SymbolMap@[g],
    ) by {
        let sym = old.SymbolMap@[g];
        assert(old.symbol_ok(sym));
        if let Some(s) = sym.InputSection {
            let f = sym.File.unwrap() as int;
            assert(old.section_exists(f, s as int));
            assert(new.Objs@[f].Sections == old.Objs@[f].Sections);
        }
    }
    assert(new.outputs_ok()) by {
        assert(old.outputs_ok());
        assert forall|i: int, k: int|
            0 <= i < new.OutputSections@.len() && 0 <= k
                < new.OutputSections@[i].Members@.len() implies new.section_exists(
            (#[trigger] new.OutputSections@[i].Members@[k]).Obj as int,
            new.OutputSections@[i].Members@[k].Sec as int,
        ) by {
            let m = old.OutputSections@[i].Members@[k];
            assert(old.section_exists(m.Obj as int, m.Sec as int));
            assert(new.Objs@[m.Obj as int].Sections == old.Objs@[m.Obj as int].Sections);
        }
    }
}

impl Context {
    /// Whether the symbol at `i` of the symbol table of the object at `a`
    /// is a reference to a global symbol that the object at `b` defines.
    pub open spec fn needs_at(&self, a: int, b: int, i: int) -> bool {
        let f = self.Objs@[a].inputFile;
        &&& f.FirstGlobal <= i < f.ElfSyms@.len()
        &&& i < f.Symbols@.len()
        &&& f.ElfSyms@[i].Shndx == abi::SHN_UNDEF
        &&& f.Symbols@[i] matches SymbolId::Global(g) && g < self.SymbolMap@.len()
            && self.SymbolMap@[g as int].File == Some(b as usize)
    }

    /// Whether one of the first `upto` entries of the symbol table of the
    /// object at `a` is a reference to a symbol that the object at `b`
    /// defines.
    pub open spec fn needs_upto(&self, a: int, b: int, upto: int) -> bool {
        exists|i: int| 0 <= i < upto && #[trigger] self.needs_at(a, b, i)
    }

    /// Whether the object at `a` refers to a symbol that the object at `b`
    /// defines.
    pub open spec fn needs(&self, a: int, b: int) -> bool {
        &&& 0 <= a < self.Objs@.len()
        &&& 0 <= b < self.Objs@.len()
        &&& self.needs_upto(a, b, self.Objs@[a].inputFile.ElfSyms@.len() as int)
    }

    /// Whether the object at `b` is reached in at most `k` steps from an
    /// object that is alive: it is alive itself, or an object reached in
    /// fewer steps refers to a symbol that it defines.
    pub open spec fn reaches(&self, b: int, k: nat) -> bool
        decreases k,
    {
        &&& 0 <= b < self.Objs@.len()
        &&& (self.Objs@[b].inputFile.IsAlive || (k > 0 && exists|a: int|
            self.reaches(a, (k - 1) as nat) && #[trigger] self.needs(a, b)))
    }

    /// Whether the object at `b` is reached from an object that is alive
    /// by a chain of references to symbols.
    pub open spec fn reachable(&self, b: int) -> bool {
        exists|k: nat| #[trigger] self.reaches(b, k)
    }

    /// Whether the object at `o` is alive.
    pub open spec fn alive(&self, o: int) -> bool {
        0 <= o < self.Objs@.len() && self.Objs@[o].inputFile.IsAlive
    }
}

/// How many of the first `upto` objects are not alive.
pub open spec fn dead_count(objs: Seq<Objectfile>, upto: int) -> nat
    decreases upto,
{
    if upto <= 0 {
        0
    } else {
        dead_count(objs, upto - 1) + (if objs[upto - 1].inputFile.IsAlive {
            0nat
        } else {
            1nat
        })
    }
}

/// Bringing one dead object to life leaves one dead object less.
proof fn lemma_dead_count_flip(a: Seq<Objectfile>, b: Seq<Objectfile>, x: int, upto: int)
    requires
        a.len() == b.len(),
        0 <= x < a.len(),
        0 <= upto <= a.len(),
        !a[x].inputFile.IsAlive,
        b[x].inputFile.IsAlive,
        forall|o: int| 0 <= o < a.len() && o != x ==> a[o].inputFile.IsAlive == b[o].inputFile.IsAlive,
    ensures
        dead_count(b, upto) == dead_count(a, upto) - (if x < upto {
            1int
        } else {
            0int
        }),
    decreases upto,
{
    if upto > 0 {
        lemma_dead_count_flip(a, b, x, upto - 1);
    }
}

/// References between objects do not depend on liveness.
proof fn lemma_needs_liveness(old: Context, new: Context, a: int, b: int)
    requires
        liveness_only(old, new),
    ensures
        old.needs(a, b) == new.needs(a, b),
{
    if 0 <= a < old.Objs@.len() && 0 <= b < old.Objs@.len() {
        let n = old.Objs@[a].inputFile.ElfSyms@.len() as int;
        assert(new.Objs@[a].inputFile.ElfSyms == old.Objs@[a].inputFile.ElfSyms);
        if old.needs(a, b) {
            let i = choose|i: int| 0 <= i < n && #[trigger] old.needs_at(a, b, i);
            assert(new.needs_at(a, b, i));
        }
        if new.needs(a, b) {
            let i = choose|i: int| 0 <= i < n && #[trigger] new.needs_at(a, b, i);
            assert(old.needs_at(a, b, i));
        }
    }
}

impl Objectfile {
    /// Brings to life every object that defines a symbol to which the
    /// object at `a` refers and that is not alive yet, and appends each to
    /// `roots`. Nothing but liveness flags changes.
    #[verifier::rlimit(100)]
    pub fn MarkLiveObjects(ctx: &mut Context, a: usize, roots: &mut Vec<usize>)
        requires
            old(ctx).wf(),
            a < old(ctx).Objs@.len(),
        ensures
            final(ctx).wf(),
            liveness_only(*old(ctx), *final(ctx)),
            forall|b: int|
                0 <= b < old(ctx).Objs@.len() ==> (#[trigger] final(ctx).alive(b) <==> old(ctx).alive(b) || old(ctx).needs(a as int, b)),
            final(roots)@.len() >= old(roots)@.len(),
            final(roots)@.subrange(0, old(roots)@.len() as int) == old(roots)@,
            final(roots)@.len() - old(roots)@.len() == dead_count(
                old(ctx).Objs@,
                old(ctx).Objs@.len() as int,
            ) - dead_count(final(ctx).Objs@, old(ctx).Objs@.len() as int),
            forall|j: int|
                old(roots)@.len() <= j < final(roots)@.len() ==> {
                    &&& (#[trigger] final(roots)@[j]) < old(ctx).Objs@.len()
                    &&& !old(ctx).alive(final(roots)@[j] as int)
                    &&& old(ctx).needs(a as int, final(roots)@[j] as int)
                },
            forall|b: int|
                0 <= b < old(ctx).Objs@.len() && !old(ctx).alive(b) && (#[trigger] final(ctx).alive(
                    b,
                )) ==> exists|j: int|
                    old(roots)@.len() <= j < final(roots)@.len() && final(roots)@[j] == b,
    {
        proof {
            lemma_wf_parts(*ctx);
        }
        let n: usize = ctx.Objs[a].inputFile.ElfSyms.len();
        let first: usize = ctx.Objs[a].inputFile.FirstGlobal;
        let total: usize = ctx.Objs.len();
        let mut i: usize = first;
        assert(ctx.object_ok(a as int));
        assert(roots@.subrange(0, old(roots)@.len() as int) =~= old(roots)@);
        while i < n
            invariant
                a < total,
                total == old(ctx).Objs@.len(),
                n == old(ctx).Objs@[a as int].inputFile.ElfSyms@.len(),
                first == old(ctx).Objs@[a as int].inputFile.FirstGlobal,
                first <= i,
                old(ctx).wf(),
                old(ctx).object_ok(a as int),
                old(ctx).symbols_ok(),
                ctx.wf(),
                liveness_only(*old(ctx), *ctx),
                forall|b: int|
                    0 <= b < total ==> (#[trigger] ctx.alive(b) <==> old(ctx).alive(b) || old(ctx).needs_upto(a as int, b, i as int)),
                roots@.len() >= old(roots)@.len(),
                roots@.subrange(0, old(roots)@.len() as int) == old(roots)@,
                roots@.len() - old(roots)@.len() == dead_count(old(ctx).Objs@, total as int)
                    - dead_count(ctx.Objs@, total as int),
                forall|j: int|
                    old(roots)@.len() <= j < roots@.len() ==> {
                        &&& (#[trigger] roots@[j]) < total
                        &&& !old(ctx).alive(roots@[j] as int)
                        &&& old(ctx).needs_upto(a as int, roots@[j] as int, i as int)
                    },
                forall|b: int|
                    0 <= b < total && !old(ctx).alive(b) && (#[trigger] ctx.alive(b)) ==> exists|
                        j: int,
                    |
                        old(roots)@.len() <= j < roots@.len() && roots@[j] == b,
            decreases n - i,
        {
            let esym = ctx.Objs[a].inputFile.ElfSyms[i];
            let id = ctx.Objs[a].inputFile.Symbols[i];
            let ghost before = *ctx;
            let ghost roots_before = roots@;
            let mut flipped: Option<usize> = None;
            match id {
                SymbolId::Global(g) => {
                    match ctx.SymbolMap[g].File {
                        Some(f) => {
                            assert(old(ctx).symbol_ok(old(ctx).SymbolMap@[g as int]));
                            if esym.IsUndef() && !ctx.Objs[f].inputFile.IsAlive {
                                ctx.Objs[f].inputFile.IsAlive = true;
                                roots.push(f);
                                flipped = Some(f);
                            }
                        },
                        None => {},
                    }
                },
                SymbolId::Local(k) => {},
            }
            proof {
                assert forall|b: int| 0 <= b < total implies (old(ctx).needs_upto(
                    a as int,
                    b,
                    i + 1,
                ) <==> old(ctx).needs_upto(a as int, b, i as int) || old(ctx).needs_at(
                    a as int,
                    b,
                    i as int,
                )) by {
                    if old(ctx).needs_upto(a as int, b, i + 1) {
                        let w = choose|w: int|
                            0 <= w < i + 1 && #[trigger] old(ctx).needs_at(a as int, b, w);
                        if w < i {
                            assert(old(ctx).needs_upto(a as int, b, i as int));
                        }
                    }
                    if old(ctx).needs_upto(a as int, b, i as int) {
                        let w = choose|w: int|
                            0 <= w < i && #[trigger] old(ctx).needs_at(a as int, b, w);
                        assert(0 <= w < i + 1 && old(ctx).needs_at(a as int, b, w));
                    }
                    if old(ctx).needs_at(a as int, b, i as int) {
                        assert(0 <= i < i + 1 && old(ctx).needs_at(a as int, b, i as int));
                    }
                }
                match flipped {
                    Some(f) => {
                        assert(liveness_only(*old(ctx), *ctx)) by {
                            assert forall|o: int| 0 <= o < total implies #[trigger] ctx.Objs@[o]
                                == (Objectfile {
                                inputFile: InputFile {
                                    IsAlive: ctx.Objs@[o].inputFile.IsAlive,
                                    ..old(ctx).Objs@[o].inputFile
                                },
                                ..old(ctx).Objs@[o]
                            }) by {
                                assert(before.Objs@[o] == (Objectfile {
                                    inputFile: InputFile {
                                        IsAlive: before.Objs@[o].inputFile.IsAlive,
                                        ..old(ctx).Objs@[o].inputFile
                                    },
                                    ..old(ctx).Objs@[o]
                                }));
                            }
                        }
                        lemma_wf_liveness(*old(ctx), *ctx);
                        lemma_dead_count_flip(before.Objs@, ctx.Objs@, f as int, total as int);
                        assert(old(ctx).needs_at(a as int, f as int, i as int));
                        assert(!before.alive(f as int));
                        assert forall|j: int| old(roots)@.len() <= j < roots@.len() implies {
                            &&& (#[trigger] roots@[j]) < total
                            &&& !old(ctx).alive(roots@[j] as int)
                            &&& old(ctx).needs_upto(a as int, roots@[j] as int, i + 1)
                        } by {
                            if j < roots_before.len() {
                                assert(roots@[j] == roots_before[j]);
                            }
                        }
                        assert forall|b: int|
                            0 <= b < total && !old(ctx).alive(b) && (#[trigger] ctx.alive(
                                b,
                            )) implies exists|j: int|
                            old(roots)@.len() <= j < roots@.len() && roots@[j] == b by {
                            if b == f {
                                assert(roots@[roots@.len() - 1] == b);
                            } else {
                                assert(before.alive(b));
                                let j = choose|j: int|
                                    old(roots)@.len() <= j < roots_before.len() && roots_before[j]
                                        == b;
                                assert(roots@[j] == b);
                            }
                        }
                        assert(roots@.subrange(0, old(roots)@.len() as int) =~= old(roots)@);
                        assert forall|b: int| 0 <= b < total implies (#[trigger] ctx.alive(b) <==> old(ctx).alive(b) || old(ctx).needs_upto(a as int, b, i + 1)) by {
                            if b != f {
                                assert(ctx.alive(b) == before.alive(b));
                            }
                        }
                    },
                    None => {
                        assert forall|b: int| 0 <= b < total implies (#[trigger] ctx.alive(b) <==> old(ctx).alive(b) || old(ctx).needs_upto(a as int, b, i + 1)) by {
                            if old(ctx).needs_at(a as int, b, i as int) {
                                assert(ctx.alive(b));
                            }
                        }
                    },
                }
            }
            i = i + 1;
        }
        proof {
            assert forall|b: int| 0 <= b < total implies (old(ctx).needs(a as int, b) <==> old(ctx).needs_upto(a as int, b, i as int)) by {
                if old(ctx).needs_upto(a as int, b, i as int) {
                    let w = choose|w: int| 0 <= w < i && #[trigger] old(ctx).needs_at(a as int, b, w);
                    assert(0 <= w < n && old(ctx).needs_at(a as int, b, w));
                }
                if old(ctx).needs(a as int, b) {
                    let w = choose|w: int| 0 <= w < n && #[trigger] old(ctx).needs_at(a as int, b, w);
                    assert(0 <= w < i && old(ctx).needs_at(a as int, b, w));
                }
            }
        }
    }
}

/// An object that is reached brings within reach what it refers to.
proof fn lemma_reaches_step(ctx: Context, a: int, b: int, k: nat)
    requires
        ctx.reaches(a, k),
        ctx.needs(a, b),
    ensures
        ctx.reaches(b, k + 1),
        ctx.reachable(b),
{
    reveal_with_fuel(Context::reaches, 2);
    assert(ctx.reaches(a, ((k + 1) - 1) as nat));
}

/// A set of objects that holds the objects alive at first and, with each
/// object, those that define what it refers to, holds every object that
/// can be reached.
proof fn lemma_closed_complete(old: Context, new: Context, b: int, k: nat)
    requires
        liveness_only(old, new),
        forall|o: int| #[trigger] old.alive(o) ==> new.alive(o),
        forall|a: int, c: int| new.alive(a) && #[trigger] old.needs(a, c) ==> new.alive(c),
        old.reaches(b, k),
    ensures
        new.alive(b),
    decreases k,
{
    reveal_with_fuel(Context::reaches, 2);
    if old.Objs@[b].inputFile.IsAlive {
        assert(old.alive(b));
    } else {
        assert(k > 0);
        let a = choose|a: int| old.reaches(a, (k - 1) as nat) && #[trigger] old.needs(a, b);
        lemma_closed_complete(old, new, a, (k - 1) as nat);
    }
}

/// Brings to life every object that is reached from an object that is
/// alive by a chain of references to symbols: an object that refers to a
/// symbol brings the object that defines it to life. Nothing but liveness
/// flags changes; an object is alive afterwards exactly where it can be
/// reached from one that was alive before.
#[verifier::rlimit(100)]
pub fn MarkLiveObjects(ctx: &mut Context)
    requires
        old(ctx).wf(),
    ensures
        final(ctx).wf(),
        liveness_only(*old(ctx), *final(ctx)),
        forall|o: int|
            0 <= o < old(ctx).Objs@.len() ==> (#[trigger] final(ctx).alive(o) <==> old(ctx).reachable(o)),
{
    let n: usize = ctx.Objs.len();
    let mut roots: Vec<usize> = Vec::new();
    let mut c: usize = 0;
    while c < n
        invariant
            c <= n,
            n == ctx.Objs@.len(),
            *ctx == *old(ctx),
            forall|j: int| 0 <= j < roots@.len() ==> (#[trigger] roots@[j]) < n && ctx.alive(
                roots@[j] as int,
            ),
            forall|b: int|
                0 <= b < c && #[trigger] ctx.alive(b) ==> exists|j: int|
                    0 <= j < roots@.len() && roots@[j] == b,
        decreases n - c,
    {
        if ctx.Objs[c].IsAlive() {
            let ghost before = roots@;
            roots.push(c);
            proof {
                assert forall|b: int| 0 <= b < c + 1 && #[trigger] ctx.alive(b) implies exists|
                    j: int,
                |
                    0 <= j < roots@.len() && roots@[j] == b by {
                    if b < c {
                        let j = choose|j: int| 0 <= j < before.len() && before[j] == b;
                        assert(roots@[j] == b);
                    } else {
                        assert(roots@[roots@.len() - 1] == b);
                    }
                }
            }
        }
        c = c + 1;
    }
    proof {
        assert forall|b: int| #[trigger] ctx.alive(b) implies old(ctx).reachable(b) by {
            assert(old(ctx).reaches(b, 0));
        }
    }
    let mut head: usize = 0;
    while head < roots.len()
        invariant
            head <= roots@.len(),
            n == ctx.Objs@.len(),
            n == old(ctx).Objs@.len(),
            old(ctx).wf(),
            ctx.wf(),
            liveness_only(*old(ctx), *ctx),
            forall|j: int| 0 <= j < roots@.len() ==> (#[trigger] roots@[j]) < n && ctx.alive(
                roots@[j] as int,
            ),
            forall|b: int| #[trigger] ctx.alive(b) ==> old(ctx).reachable(b),
            forall|b: int| #[trigger] old(ctx).alive(b) ==> ctx.alive(b),
            forall|b: int|
                0 <= b < n && #[trigger] ctx.alive(b) ==> exists|j: int|
                    0 <= j < roots@.len() && roots@[j] == b,
            forall|j: int, b: int|
                0 <= j < head && #[trigger] old(ctx).needs(roots@[j] as int, b) ==> ctx.alive(b),
        decreases dead_count(ctx.Objs@, n as int) + roots@.len() - head,
    {
        let a: usize = roots[head];
        let ghost before = *ctx;
        let ghost roots_before = roots@;
        Objectfile::MarkLiveObjects(ctx, a, &mut roots);
        proof {
            assert(liveness_only(*old(ctx), *ctx)) by {
                assert forall|o: int| 0 <= o < n implies #[trigger] ctx.Objs@[o] == (Objectfile {
                    inputFile: InputFile {
                        IsAlive: ctx.Objs@[o].inputFile.IsAlive,
                        ..old(ctx).Objs@[o].inputFile
                    },
                    ..old(ctx).Objs@[o]
                }) by {
                    assert(before.Objs@[o] == (Objectfile {
                        inputFile: InputFile {
                            IsAlive: before.Objs@[o].inputFile.IsAlive,
                            ..old(ctx).Objs@[o].inputFile
                        },
                        ..old(ctx).Objs@[o]
                    }));
                }
            }
            assert forall|b: int| 0 <= b < n implies (before.needs(a as int, b) == old(ctx).needs(
                a as int,
                b,
            )) by {
                lemma_needs_liveness(*old(ctx), before, a as int, b);
            }
            assert forall|j: int| 0 <= j < roots@.len() implies (#[trigger] roots@[j]) < n
                && ctx.alive(roots@[j] as int) by {
                if j < roots_before.len() {
                    assert(roots@.subrange(0, roots_before.len() as int)[j] == roots@[j]);
                    assert(before.alive(roots_before[j] as int));
                    assert(ctx.alive(roots_before[j] as int));
                } else {
                    assert(before.needs(a as int, roots@[j] as int));
                    assert(ctx.alive(roots@[j] as int));
                }
            }
            assert forall|b: int| #[trigger] ctx.alive(b) implies old(ctx).reachable(b) by {
                if before.alive(b) {
                } else {
                    assert(old(ctx).needs(a as int, b));
                    assert(before.alive(a as int));
                    assert(old(ctx).reachable(a as int));
                    let k = choose|k: nat| #[trigger] old(ctx).reaches(a as int, k);
                    lemma_reaches_step(*old(ctx), a as int, b, k);
                }
            }
            assert forall|b: int| #[trigger] old(ctx).alive(b) implies ctx.alive(b) by {
                assert(before.alive(b));
            }
            assert forall|b: int| 0 <= b < n && #[trigger] ctx.alive(b) implies exists|j: int|
                0 <= j < roots@.len() && roots@[j] == b by {
                if before.alive(b) {
                    let j = choose|j: int| 0 <= j < roots_before.len() && roots_before[j] == b;
                    assert(roots@.subrange(0, roots_before.len() as int)[j] == roots@[j]);
                } else {
                    let j = choose|j: int|
                        roots_before.len() <= j < roots@.len() && roots@[j] == b;
                    assert(roots@[j] == b);
                }
            }
            assert forall|j: int, b: int|
                0 <= j < head + 1 && #[trigger] old(ctx).needs(
                    roots@[j] as int,
                    b,
                ) implies ctx.alive(b) by {
                assert(roots@.subrange(0, roots_before.len() as int)[j] == roots@[j]);
                if j < head {
                    assert(old(ctx).needs(roots_before[j] as int, b));
                    assert(before.alive(b));
                } else {
                    assert(before.needs(a as int, b));
                }
            }
        }
        head = head + 1;
    }
    proof {
        assert forall|a: int, c: int| ctx.alive(a) && #[trigger] old(ctx).needs(
            a,
            c,
        ) implies ctx.alive(c) by {
            let j = choose|j: int| 0 <= j < roots@.len() && roots@[j] == a;
            assert(old(ctx).needs(roots@[j] as int, c));
        }
        assert forall|o: int| 0 <= o < n implies (#[trigger] ctx.alive(o) <==> old(ctx).reachable(
            o,
        )) by {
            if old(ctx).reachable(o) {
                let k = choose|k: nat| #[trigger] old(ctx).reaches(o, k);
                lemma_closed_complete(*old(ctx), *ctx, o, k);
            }
        }
    }
}

} // verus!
