//! Common symbols: tentative definitions that get a section of their own.
use vstd::prelude::*;
use crate::linker::abi;
use crate::linker::context::{
    Context, lemma_sections_frame, lemma_sections_same, lemma_sections_trans, lemma_wf_parts,
    sections_added,
};
use crate::linker::file::InputFile;
use crate::linker::objectfile::Objectfile;
use crate::linker::symbol::{Symbol, SymbolId};
use crate::linker::inputsections::{InputSection, P2AlignOf, spec_p2align, NONE_IDX};
use crate::linker::elf::{Shdr, Sym};
use crate::linker::output::GetOutputSection;
use crate::linker::context::lemma_grows_trans;

use crate::linker::passes::symbol_names_of;

verus! {
/// The header of the section that is made up for the common symbol
/// `esym`: no bits in the file, allocated and writable, thread-local where
/// the symbol is, with the size of the symbol and its value as alignment.
pub open spec fn common_shdr(esym: Sym) -> Shdr {
    Shdr {
        Type: abi::SHT_NOBITS,
        Flags: if esym.Info & 0xf == abi::STT_TLS {
            0x403
        } else {
            0x3
        },
        Size: esym.Size,
        AddrAlign: esym.Val,
        ..Shdr::zero()
    }
}

impl Objectfile {
    /// Whether the entry at `i` of the symbol table is a common symbol
    /// that this object, which stands at `o`, has to materialize, given the
    /// global symbols `syms`: the symbol of the entry is bound to this
    /// object and lies in no section and no fragment yet.
    pub open spec fn converts(&self, syms: Seq<Symbol>, o: int, i: int) -> bool {
        &&& self.inputFile.ElfSyms@[i].Shndx == abi::SHN_COMMON
        &&& self.inputFile.Symbols@[i] matches SymbolId::Global(g) && syms[g as int].File == Some(
            o as usize,
        ) && syms[g as int].InputSection is None && syms[g as int].SectionFragment is None
    }

    /// The global symbols `syms` and the headers `made` of the sections
    /// made up so far, after the entries of the symbol table below `upto`
    /// had their turn: each common symbol to materialize gets a section of
    /// its own behind the sections that the object has, and is bound to it
    /// at value 0. `base` is the number of sections that the object had
    /// before.
    pub open spec fn convert_upto(
        &self,
        syms: Seq<Symbol>,
        o: int,
        base: int,
        upto: int,
    ) -> (Seq<Symbol>, Seq<Shdr>)
        decreases upto,
    {
        if upto <= self.inputFile.FirstGlobal || upto <= 0 {
            (syms, Seq::empty())
        } else {
            let (prev, made) = self.convert_upto(syms, o, base, upto - 1);
            if self.converts(prev, o, upto - 1) {
                let g = self.inputFile.Symbols@[upto - 1]->Global_0 as int;
                (
                    prev.update(
                        g,
                        Symbol {
                            File: Some(o as usize),
                            InputSection: Some((base + made.len()) as usize),
                            SectionFragment: None,
                            Value: 0,
                            SymIdx: (upto - 1) as usize,
                            ..prev[g]
                        },
                    ),
                    made.push(common_shdr(self.inputFile.ElfSyms@[upto - 1])),
                )
            } else {
                (prev, made)
            }
        }
    }
}

/// Whether `after` is the object `before`, which has no common symbol to
/// materialize left, with the sections `made` behind those it had: for
/// each header a section of its own, alive and without bytes.
pub open spec fn commons_added(before: Objectfile, after: Objectfile, made: Seq<Shdr>) -> bool {
    let base = before.Sections@.len() as int;
    &&& after == (Objectfile {
        Sections: after.Sections,
        inputFile: InputFile { ElfSections2: after.inputFile.ElfSections2, ..before.inputFile },
        ..before
    })
    &&& after.inputFile.ElfSections2@ == before.inputFile.ElfSections2@ + made
    &&& after.Sections@.len() == base + made.len()
    &&& after.Sections@.subrange(0, base) == before.Sections@
    &&& forall|j: int|
        0 <= j < made.len() ==> (#[trigger] after.Sections@[base + j] matches Some(sec) && {
            &&& sec.Shndx == base + j
            &&& sec.Contents@.len() == 0
            &&& sec.ShSize == made[j].Size
            &&& sec.IsAlive
            &&& sec.P2Align == spec_p2align(made[j].AddrAlign)
            &&& sec.Offset == u64::MAX
            &&& sec.RelsecIdx == NONE_IDX
            &&& sec.Rels@.len() == 0
        })
}

/// A context stays in order where an object gets one more section, made
/// up for a common symbol, and the symbol is bound to it.
proof fn lemma_wf_common(old: Context, new: Context, o: int, g: int)
    requires
        old.wf(),
        0 <= o < old.Objs@.len(),
        o <= usize::MAX,
        0 <= g < old.SymbolMap@.len(),
        new == (Context { Objs: new.Objs, SymbolMap: new.SymbolMap, ..old }),
        new.Objs@.len() == old.Objs@.len(),
        forall|j: int| 0 <= j < old.Objs@.len() && j != o ==> new.Objs@[j] == old.Objs@[j],
        new.SymbolMap@.len() == old.SymbolMap@.len(),
        forall|k: int| 0 <= k < old.SymbolMap@.len() && k != g ==> new.SymbolMap@[k] == old.SymbolMap@[k],
        new.SymbolMap@[g] == (Symbol {
            File: Some(o as usize),
            InputSection: Some(old.Objs@[o].Sections@.len() as usize),
            SectionFragment: None,
            Value: 0,
            SymIdx: new.SymbolMap@[g].SymIdx,
            ..old.SymbolMap@[g]
        }),
        old.Objs@[o].Sections@.len() < usize::MAX,
        new.Objs@[o] == (Objectfile {
            Sections: new.Objs@[o].Sections,
            inputFile: InputFile {
                ElfSections2: new.Objs@[o].inputFile.ElfSections2,
                ..old.Objs@[o].inputFile
            },
            ..old.Objs@[o]
        }),
        new.Objs@[o].inputFile.ElfSections2@.len() == old.Objs@[o].inputFile.ElfSections2@.len() + 1,
        new.Objs@[o].inputFile.ElfSections2@.subrange(
            0,
            old.Objs@[o].inputFile.ElfSections2@.len() as int,
        ) == old.Objs@[o].inputFile.ElfSections2@,
        new.Objs@[o].Sections@.len() == old.Objs@[o].Sections@.len() + 1,
        new.Objs@[o].Sections@.subrange(0, old.Objs@[o].Sections@.len() as int) == old.Objs@[o].Sections@,
        new.Objs@[o].Sections@[old.Objs@[o].Sections@.len() as int] matches Some(sec) && sec.Shndx
            == old.Objs@[o].Sections@.len() && sec.P2Align < 64 && new.section_placed(
            new.Objs@[o],
            old.Objs@[o].Sections@.len() as int,
        ),
    ensures
        new.wf(),
{
    reveal(Context::wf);
    let a = old.Objs@[o];
    let b = new.Objs@[o];
    let base = a.Sections@.len() as int;
    assert(old.object_ok(o));
    assert forall|s: int| 0 <= s < base implies b.Sections@[s] == a.Sections@[s] by {
        assert(b.Sections@.subrange(0, base)[s] == a.Sections@[s]);
    }
    assert forall|s: int| 0 <= s < base implies b.spec_shdr(s) == a.spec_shdr(s)
        && b.section_name(s) == a.section_name(s) by {
        let e = a.inputFile.ElfSections@.len() as int;
        if s >= e {
            assert(b.inputFile.ElfSections2@.subrange(
                0,
                a.inputFile.ElfSections2@.len() as int,
            )[s - e] == a.inputFile.ElfSections2@[s - e]);
        }
    }
    assert forall|j: int| 0 <= j < new.Objs@.len() implies #[trigger] new.object_ok(j) by {
        assert(old.object_ok(j));
        if j == o {
            assert forall|k: int| 0 <= k < b.inputFile.LocalSymbols@.len() implies new.local_ok(
                b,
                o,
                #[trigger] b.inputFile.LocalSymbols@[k],
            ) by {
                assert(old.local_ok(a, o, a.inputFile.LocalSymbols@[k]));
            }
            assert forall|s: int|
                0 <= s < b.Sections@.len() && (#[trigger] b.Sections@[s]) is Some implies new.section_placed(
                b,
                s,
            ) by {
                if s < base {
                    assert(old.section_placed(a, s));
                }
            }
            assert forall|q: int| 0 <= q < b.MergeableSections@.len() implies (
            #[trigger] b.MergeableSections@[q] matches Some(ms) ==> new.mergeable_ok(ms)) by {
                if let Some(ms) = a.MergeableSections@[q] {
                    assert(old.mergeable_ok(ms));
                }
            }
            assert forall|s: int| 0 <= s < b.Sections@.len() implies (
            #[trigger] b.Sections@[s] matches Some(sec) ==> sec.Shndx == s && sec.P2Align < 64) by {
                if s < base {
                    assert(a.Sections@[s] matches Some(sec) ==> sec.Shndx == s && sec.P2Align < 64);
                }
            }
            assert(b.shape_ok());
        }
    }
    assert forall|k: int| 0 <= k < new.SymbolMap@.len() implies new.symbol_ok(
        #[trigger] new.SymbolMap@[k],
    ) by {
        let sym = old.SymbolMap@[k];
        assert(old.symbol_ok(sym));
        if k != g {
            if let Some(s) = sym.InputSection {
                let f = sym.File.unwrap() as int;
                assert(old.section_exists(f, s as int));
                if f == o {
                    assert(b.Sections@[s as int] == a.Sections@[s as int]);
                }
            }
        }
    }
    let names = symbol_names_of(new);
    let old_names = symbol_names_of(old);
    assert forall|i: int, j: int| 0 <= i < j < names.len() implies names[i] != names[j] by {
        assert(old_names[i] != old_names[j]);
    }
    assert(new.outputs_ok()) by {
        assert(old.outputs_ok());
        assert forall|i: int, k: int|
            0 <= i < new.OutputSections@.len() && 0 <= k
                < new.OutputSections@[i].Members@.len() implies new.section_exists(
            (#[trigger] new.OutputSections@[i].Members@[k]).Obj as int,
            new.OutputSections@[i].Members@[k].Sec as int,
        ) by {
            let mm = old.OutputSections@[i].Members@[k];
            assert(old.section_exists(mm.Obj as int, mm.Sec as int));
            if mm.Obj == o {
                assert(b.Sections@[mm.Sec as int] == a.Sections@[mm.Sec as int]);
            }
        }
    }
}

/// The flags of a section made up for common symbols: allocated and
/// writable.
pub const COMMON_FLAGS: u64 = 0x3;

/// The flags of a section made up for thread-local common symbols:
/// allocated, writable and thread-local.
pub const TLS_COMMON_FLAGS: u64 = 0x403;

impl Objectfile {
    /// Materializes the common symbols of the object at `o`: every global
    /// symbol of the object that is common, bound to this object and still
    /// without section gets a section of its own, `.tls_common` for a
    /// thread-local symbol and `.common` for any other, without bits in the
    /// file, with the size of the symbol and its value as alignment; the
    /// symbol is bound to that section at value 0. An object that has no
    /// common symbol stays as it is.
    #[verifier::rlimit(100)]
    pub fn ConvertCommonSymbols(ctx: &mut Context, o: usize)
        requires
            old(ctx).wf(),
            o < old(ctx).Objs@.len(),
        ensures
            final(ctx).wf(),
            final(ctx).grows_from(*old(ctx)),
            sections_added(*old(ctx), *final(ctx)),
            *final(ctx) == (Context {
                Objs: final(ctx).Objs,
                SymbolMap: final(ctx).SymbolMap,
                OutputSections: final(ctx).OutputSections,
                ..*old(ctx)
            }),
            final(ctx).Objs@.len() == old(ctx).Objs@.len(),
            symbol_names_of(*final(ctx)) == symbol_names_of(*old(ctx)),
            forall|j: int|
                0 <= j < old(ctx).Objs@.len() && j != o ==> final(ctx).Objs@[j] == old(ctx).Objs@[j],
            !old(ctx).Objs@[o as int].hasCommon ==> *final(ctx) == *old(ctx),
            old(ctx).Objs@[o as int].hasCommon ==> {
                let obj = old(ctx).Objs@[o as int];
                let r = obj.convert_upto(
                    old(ctx).SymbolMap@,
                    o as int,
                    obj.Sections@.len() as int,
                    obj.inputFile.ElfSyms@.len() as int,
                );
                &&& final(ctx).SymbolMap@ == r.0
                &&& commons_added(obj, final(ctx).Objs@[o as int], r.1)
            },
    {
        proof {
            lemma_grows_trans(*ctx, *ctx, *ctx);
            lemma_sections_same(*ctx, *ctx);
            lemma_wf_parts(*ctx);
            assert(ctx.object_ok(o as int));
        }
        if !ctx.Objs[o].hasCommon {
            assert(symbol_names_of(*ctx) =~= symbol_names_of(*old(ctx)));
            return ;
        }
        let n: usize = ctx.Objs[o].inputFile.ElfSyms.len();
        let first: usize = ctx.Objs[o].inputFile.FirstGlobal;
        let ghost obj = ctx.Objs@[o as int];
        let ghost base = obj.Sections@.len() as int;
        let ghost mut made: Seq<Shdr> = Seq::empty();
        let mut i: usize = first;
        assert(ctx.Objs@[o as int].Sections@.subrange(0, base) =~= obj.Sections@);
        assert(obj.inputFile.ElfSections2@ + made =~= obj.inputFile.ElfSections2@);
        while i < n
            invariant
                o < ctx.Objs@.len(),
                obj == old(ctx).Objs@[o as int],
                base == obj.Sections@.len(),
                n == obj.inputFile.ElfSyms@.len(),
                first == obj.inputFile.FirstGlobal,
                first <= i,
                i <= n || i == first,
                old(ctx).wf(),
                ctx.wf(),
                ctx.grows_from(*old(ctx)),
                sections_added(*old(ctx), *ctx),
                *ctx == (Context {
                    Objs: ctx.Objs,
                    SymbolMap: ctx.SymbolMap,
                    OutputSections: ctx.OutputSections,
                    ..*old(ctx)
                }),
                ctx.Objs@.len() == old(ctx).Objs@.len(),
                symbol_names_of(*ctx) == symbol_names_of(*old(ctx)),
                forall|j: int|
                    0 <= j < old(ctx).Objs@.len() && j != o ==> ctx.Objs@[j] == old(ctx).Objs@[j],
                (ctx.SymbolMap@, made) == obj.convert_upto(
                    old(ctx).SymbolMap@,
                    o as int,
                    base,
                    i as int,
                ),
                commons_added(obj, ctx.Objs@[o as int], made),
            decreases n - i,
        {
            proof {
                lemma_wf_parts(*ctx);
                assert(ctx.object_ok(o as int));
                assert(ctx.Objs@[o as int].shape_ok());
            }
            let esym = ctx.Objs[o].inputFile.ElfSyms[i];
            let id = ctx.Objs[o].inputFile.Symbols[i];
            if esym.IsCommon() {
                match id {
                    SymbolId::Global(g) => {
                        if ctx.SymbolMap[g].File == Some(o) && ctx.SymbolMap[g].InputSection.is_none()
                            && ctx.SymbolMap[g].SectionFragment.is_none() {
                            let ghost before = *ctx;
                            let tls: bool = esym.Type() == abi::STT_TLS;
                            let flags: u64 = if tls {
                                TLS_COMMON_FLAGS
                            } else {
                                COMMON_FLAGS
                            };
                            let name: Vec<u8> = if tls {
                                vec![0x2eu8, 0x74, 0x6c, 0x73, 0x5f, 0x63, 0x6f, 0x6d, 0x6d, 0x6f, 0x6e]
                            } else {
                                vec![0x2eu8, 0x63, 0x6f, 0x6d, 0x6d, 0x6f, 0x6e]
                            };
                            proof {
                                assert(TLS_COMMON_FLAGS & abi::SHF_TLS != 0) by (bit_vector);
                                assert(COMMON_FLAGS & abi::SHF_TLS == 0) by (bit_vector);
                                if tls {
                                    assert(name@ =~= crate::linker::objectfile::TLS_COMMON_NAME());
                                } else {
                                    assert(name@ =~= crate::linker::objectfile::COMMON_NAME());
                                }
                            }
                            let mut shdr = Shdr::default();
                            shdr.Type = abi::SHT_NOBITS;
                            shdr.Flags = flags;
                            shdr.Size = esym.Size;
                            shdr.AddrAlign = esym.Val;
                            assert(shdr == common_shdr(esym));
                            let osec: usize = GetOutputSection(
                                ctx,
                                name.as_slice(),
                                abi::SHT_NOBITS,
                                flags,
                            );
                            let ghost mid = *ctx;
                            let idx: usize = ctx.Objs[o].Sections.len();
                            let sec = InputSection {
                                Contents: Vec::new(),
                                Shndx: idx,
                                ShSize: esym.Size,
                                IsAlive: true,
                                P2Align: P2AlignOf(esym.Val),
                                Offset: u64::MAX,
                                OutputSection: osec,
                                RelsecIdx: NONE_IDX,
                                Rels: Vec::new(),
                            };
                            ctx.Objs[o].inputFile.ElfSections2.push(shdr);
                            ctx.Objs[o].Sections.push(Some(sec));
                            let grown: usize = ctx.Objs[o].Sections.len();
                            assert(idx < usize::MAX);
                            ctx.SymbolMap[g].File = Some(o);
                            ctx.SymbolMap[g].SetInputSection(Some(idx));
                            ctx.SymbolMap[g].Value = 0;
                            ctx.SymbolMap[g].SymIdx = i;
                            proof {
                                let a = mid.Objs@[o as int];
                                let b = ctx.Objs@[o as int];
                                lemma_wf_parts(mid);
                                assert(mid.object_ok(o as int));
                                assert(a.shape_ok());
                                assert(b.inputFile.ElfSections2@.subrange(
                                    0,
                                    a.inputFile.ElfSections2@.len() as int,
                                ) =~= a.inputFile.ElfSections2@);
                                assert(b.Sections@.subrange(0, a.Sections@.len() as int)
                                    =~= a.Sections@);
                                assert(b.spec_shdr(idx as int) == shdr);
                                assert(b.section_name(idx as int) == name@);
                                assert(ctx.section_placed(b, idx as int));
                                lemma_wf_common(mid, *ctx, o as int, g as int);
                                lemma_grows_trans(*old(ctx), before, mid);
                                lemma_sections_trans(*old(ctx), before, mid);
                                lemma_sections_frame(*old(ctx), mid, *ctx);
                                assert(ctx.grows_from(mid)) by {
                                    lemma_grows_trans(mid, mid, mid);
                                }
                                lemma_grows_trans(*old(ctx), mid, *ctx);
                                assert(symbol_names_of(*ctx) =~= symbol_names_of(before));
                                let ghost old_made = made;
                                made = made.push(shdr);
                                assert(obj.converts(before.SymbolMap@, o as int, i as int));
                                assert(ctx.SymbolMap@ =~= before.SymbolMap@.update(
                                    g as int,
                                    Symbol {
                                        File: Some(o),
                                        InputSection: Some((base + old_made.len()) as usize),
                                        SectionFragment: None,
                                        Value: 0,
                                        SymIdx: i,
                                        ..before.SymbolMap@[g as int]
                                    },
                                ));
                                assert(b.inputFile.ElfSections2@ =~= obj.inputFile.ElfSections2@
                                    + made);
                                assert(b.Sections@.subrange(0, base) =~= obj.Sections@) by {
                                    assert forall|j: int| 0 <= j < base implies b.Sections@[j]
                                        == obj.Sections@[j] by {
                                        assert(a.Sections@.subrange(0, base)[j] == obj.Sections@[j]);
                                        assert(b.Sections@.subrange(0, a.Sections@.len() as int)[j]
                                            == a.Sections@[j]);
                                    }
                                }
                                assert forall|j: int| 0 <= j < made.len() implies (
                                #[trigger] b.Sections@[base + j] matches Some(sc) && {
                                    &&& sc.Shndx == base + j
                                    &&& sc.Contents@.len() == 0
                                    &&& sc.ShSize == made[j].Size
                                    &&& sc.IsAlive
                                    &&& sc.P2Align == spec_p2align(made[j].AddrAlign)
                                    &&& sc.Offset == u64::MAX
                                    &&& sc.RelsecIdx == NONE_IDX
                                    &&& sc.Rels@.len() == 0
                                }) by {
                                    if j < old_made.len() {
                                        assert(b.Sections@.subrange(
                                            0,
                                            a.Sections@.len() as int,
                                        )[base + j] == a.Sections@[base + j]);
                                    }
                                }
                            }
                        } else {
                            assert(!obj.converts(ctx.SymbolMap@, o as int, i as int));
                        }
                    },
                    SymbolId::Local(k) => {
                        assert(!obj.converts(ctx.SymbolMap@, o as int, i as int));
                    },
                }
            } else {
                assert(!obj.converts(ctx.SymbolMap@, o as int, i as int));
            }
            i = i + 1;
        }
        proof {
            if i != n {
                assert(obj.convert_upto(old(ctx).SymbolMap@, o as int, base, n as int) == (
                    old(ctx).SymbolMap@,
                    Seq::<Shdr>::empty(),
                ));
            }
        }
    }
}

/// The global symbols `syms` after the objects below `upto` of `objs` had
/// their turn, in their order: each object that has common symbols
/// materializes those that are bound to it and still without section.
pub open spec fn converted_symbols(objs: Seq<Objectfile>, syms: Seq<Symbol>, upto: int) -> Seq<
    Symbol,
>
    decreases upto,
{
    if upto <= 0 {
        syms
    } else {
        let prev = converted_symbols(objs, syms, upto - 1);
        let obj = objs[upto - 1];
        if obj.hasCommon {
            obj.convert_upto(
                prev,
                upto - 1,
                obj.Sections@.len() as int,
                obj.inputFile.ElfSyms@.len() as int,
            ).0
        } else {
            prev
        }
    }
}

/// The headers of the sections that the object at `o` of `objs` makes up
/// for its common symbols when its turn comes, the objects before it
/// having had theirs.
pub open spec fn made_sections(objs: Seq<Objectfile>, syms: Seq<Symbol>, o: int) -> Seq<Shdr> {
    objs[o].convert_upto(
        converted_symbols(objs, syms, o),
        o,
        objs[o].Sections@.len() as int,
        objs[o].inputFile.ElfSyms@.len() as int,
    ).1
}

/// Materializes the common symbols of all objects, object by object:
/// every common symbol that no object defines for real gets a section of
/// its own in the object that it is bound to, behind the sections that the
/// object had, and is bound to that section at value 0. An object without
/// common symbols stays as it is.
pub fn ConvertCommonSymbols(ctx: &mut Context)
    requires
        old(ctx).wf(),
    ensures
        final(ctx).wf(),
        final(ctx).grows_from(*old(ctx)),
        sections_added(*old(ctx), *final(ctx)),
        *final(ctx) == (Context {
            Objs: final(ctx).Objs,
            SymbolMap: final(ctx).SymbolMap,
            OutputSections: final(ctx).OutputSections,
            ..*old(ctx)
        }),
        final(ctx).Objs@.len() == old(ctx).Objs@.len(),
        symbol_names_of(*final(ctx)) == symbol_names_of(*old(ctx)),
        forall|o: int|
            0 <= o < old(ctx).Objs@.len() ==> (#[trigger] final(ctx).Objs@[o]).inputFile.IsAlive
                == old(ctx).Objs@[o].inputFile.IsAlive,
        forall|o: int|
            0 <= o < old(ctx).Objs@.len() && !(#[trigger] old(ctx).Objs@[o]).hasCommon ==> final(ctx).Objs@[o] == old(ctx).Objs@[o],
        final(ctx).SymbolMap@ == converted_symbols(
            old(ctx).Objs@,
            old(ctx).SymbolMap@,
            old(ctx).Objs@.len() as int,
        ),
        forall|o: int|
            0 <= o < old(ctx).Objs@.len() && (#[trigger] old(ctx).Objs@[o]).hasCommon
                ==> commons_added(
                old(ctx).Objs@[o],
                final(ctx).Objs@[o],
                made_sections(old(ctx).Objs@, old(ctx).SymbolMap@, o),
            ),
{
    let n: usize = ctx.Objs.len();
    let mut o: usize = 0;
    proof {
        lemma_grows_trans(*ctx, *ctx, *ctx);
        lemma_sections_same(*ctx, *ctx);
    }
    while o < n
        invariant
            o <= n,
            ctx.SymbolMap@ == converted_symbols(old(ctx).Objs@, old(ctx).SymbolMap@, o as int),
            forall|j: int|
                0 <= j < o && (#[trigger] old(ctx).Objs@[j]).hasCommon ==> commons_added(
                    old(ctx).Objs@[j],
                    ctx.Objs@[j],
                    made_sections(old(ctx).Objs@, old(ctx).SymbolMap@, j),
                ),
            n == old(ctx).Objs@.len(),
            ctx.wf(),
            ctx.grows_from(*old(ctx)),
            sections_added(*old(ctx), *ctx),
            *ctx == (Context {
                Objs: ctx.Objs,
                SymbolMap: ctx.SymbolMap,
                OutputSections: ctx.OutputSections,
                ..*old(ctx)
            }),
            ctx.Objs@.len() == n,
            symbol_names_of(*ctx) == symbol_names_of(*old(ctx)),
            forall|j: int| o <= j < n ==> ctx.Objs@[j] == old(ctx).Objs@[j],
            forall|j: int|
                0 <= j < n ==> (#[trigger] ctx.Objs@[j]).inputFile.IsAlive == old(ctx).Objs@[j].inputFile.IsAlive,
            forall|j: int|
                0 <= j < n && !(#[trigger] old(ctx).Objs@[j]).hasCommon ==> ctx.Objs@[j] == old(ctx).Objs@[j],
        decreases n - o,
    {
        let ghost before = *ctx;
        Objectfile::ConvertCommonSymbols(ctx, o);
        proof {
            lemma_grows_trans(*old(ctx), before, *ctx);
            lemma_sections_trans(*old(ctx), before, *ctx);
            assert forall|j: int| 0 <= j < n implies (#[trigger] ctx.Objs@[j]).inputFile.IsAlive
                == old(ctx).Objs@[j].inputFile.IsAlive by {
                assert(before.Objs@[j].inputFile.IsAlive == old(ctx).Objs@[j].inputFile.IsAlive);
                if j == o && before.Objs@[j].hasCommon {
                    let obj = before.Objs@[o as int];
                    let r = obj.convert_upto(
                        before.SymbolMap@,
                        o as int,
                        obj.Sections@.len() as int,
                        obj.inputFile.ElfSyms@.len() as int,
                    );
                    assert(commons_added(obj, ctx.Objs@[o as int], r.1));
                }
            }
            assert forall|j: int|
                0 <= j < n && !(#[trigger] old(ctx).Objs@[j]).hasCommon implies ctx.Objs@[j] == old(ctx).Objs@[j] by {
                assert(before.Objs@[j] == old(ctx).Objs@[j]);
            }
            assert(before.Objs@[o as int] == old(ctx).Objs@[o as int]);
            assert forall|j: int|
                0 <= j < o + 1 && (#[trigger] old(ctx).Objs@[j]).hasCommon implies commons_added(
                old(ctx).Objs@[j],
                ctx.Objs@[j],
                made_sections(old(ctx).Objs@, old(ctx).SymbolMap@, j),
            ) by {
                if j < o {
                    assert(ctx.Objs@[j] == before.Objs@[j]);
                }
            }
        }
        o = o + 1;
    }
}

/// Whether the global symbol at `g` was materialized on the way from
/// `syms` to `after` with the made-up sections `made` behind the first
/// `base` sections of the object at `o`: it is bound to that object at
/// value 0, in one of the made-up sections, whose header is the one that
/// the entry of the symbol table that defines it asks for.
pub open spec fn materialized(
    obj: Objectfile,
    after: Seq<Symbol>,
    made: Seq<Shdr>,
    o: int,
    base: int,
    g: int,
) -> bool {
    let sym = after[g];
    &&& sym.File == Some(o as usize)
    &&& sym.Value == 0
    &&& sym.SectionFragment is None
    &&& sym.InputSection matches Some(s) && base <= s < base + made.len() && made[s - base]
        == common_shdr(obj.inputFile.ElfSyms@[sym.SymIdx as int])
    &&& obj.inputFile.ElfSyms@[sym.SymIdx as int].Shndx == abi::SHN_COMMON
}

/// Whether one of the symbols that changed on the way from `syms` to
/// `after` lies in the `j`-th section behind the first `base`.
pub open spec fn section_held(syms: Seq<Symbol>, after: Seq<Symbol>, base: int, j: int) -> bool {
    exists|g: int|
        0 <= g < syms.len() && after[g] != syms[g] && (#[trigger] after[g]).InputSection == Some(
            (base + j) as usize,
        )
}

/// Every common symbol that an object materializes gets exactly one
/// made-up section, and every made-up section holds exactly one symbol: a
/// symbol that the conversion touched is bound at value 0, the start of
/// its section, to a section whose header has the size and the alignment
/// that the symbol asks for; no two symbols share a section; and no
/// made-up section is without symbol.
pub proof fn lemma_commons_materialized(
    obj: Objectfile,
    syms: Seq<Symbol>,
    o: int,
    base: int,
    upto: int,
)
    requires
        0 <= upto <= obj.inputFile.ElfSyms@.len(),
        obj.inputFile.Symbols@.len() == obj.inputFile.ElfSyms@.len(),
        0 <= o <= usize::MAX,
        0 <= base,
        base + upto <= usize::MAX,
        forall|i: int|
            0 <= i < obj.inputFile.Symbols@.len() ==> (
            #[trigger] obj.inputFile.Symbols@[i] matches SymbolId::Global(g) ==> g < syms.len()),
    ensures
        ({
            let r = obj.convert_upto(syms, o, base, upto);
            &&& r.0.len() == syms.len()
            &&& r.1.len() <= upto
            &&& forall|g: int|
                0 <= g < syms.len() ==> #[trigger] r.0[g] == syms[g] || materialized(
                    obj,
                    r.0,
                    r.1,
                    o,
                    base,
                    g,
                )
            &&& forall|g: int|
                0 <= g < syms.len() ==> (#[trigger] r.0[g]).Name == syms[g].Name
            &&& forall|g1: int, g2: int|
                0 <= g1 < syms.len() && 0 <= g2 < syms.len() && g1 != g2 && #[trigger] r.0[g1]
                    != syms[g1] && #[trigger] r.0[g2] != syms[g2] ==> r.0[g1].InputSection
                    != r.0[g2].InputSection
            &&& forall|j: int| 0 <= j < r.1.len() ==> #[trigger] section_held(syms, r.0, base, j)
        }),
    decreases upto,
{
    if upto <= obj.inputFile.FirstGlobal || upto <= 0 {
    } else {
        lemma_commons_materialized(obj, syms, o, base, upto - 1);
        let p = obj.convert_upto(syms, o, base, upto - 1);
        let r = obj.convert_upto(syms, o, base, upto);
        if obj.converts(p.0, o, upto - 1) {
            let gi = obj.inputFile.Symbols@[upto - 1]->Global_0 as int;
            assert(p.0[gi] == syms[gi]) by {
                if p.0[gi] != syms[gi] {
                    assert(materialized(obj, p.0, p.1, o, base, gi));
                }
            }
            assert forall|g: int| 0 <= g < syms.len() implies #[trigger] r.0[g] == syms[g]
                || materialized(obj, r.0, r.1, o, base, g) by {
                if g != gi {
                    assert(r.0[g] == p.0[g]);
                    if p.0[g] != syms[g] {
                        assert(materialized(obj, p.0, p.1, o, base, g));
                    }
                } else {
                    assert(r.1[p.1.len() as int] == common_shdr(obj.inputFile.ElfSyms@[upto - 1]));
                }
            }
            assert forall|g1: int, g2: int|
                0 <= g1 < syms.len() && 0 <= g2 < syms.len() && g1 != g2 && #[trigger] r.0[g1]
                    != syms[g1] && #[trigger] r.0[g2] != syms[g2] implies r.0[g1].InputSection
                != r.0[g2].InputSection by {
                if g1 != gi && g2 != gi {
                    assert(r.0[g1] == p.0[g1] && r.0[g2] == p.0[g2]);
                } else if g1 == gi {
                    assert(r.0[g2] == p.0[g2]);
                    assert(materialized(obj, p.0, p.1, o, base, g2));
                } else {
                    assert(r.0[g1] == p.0[g1]);
                    assert(materialized(obj, p.0, p.1, o, base, g1));
                }
            }
            assert forall|j: int| 0 <= j < r.1.len() implies #[trigger] section_held(
                syms,
                r.0,
                base,
                j,
            ) by {
                if j < p.1.len() {
                    assert(section_held(syms, p.0, base, j));
                    let g = choose|g: int|
                        0 <= g < syms.len() && p.0[g] != syms[g] && (#[trigger] p.0[g]).InputSection
                            == Some((base + j) as usize);
                    assert(g != gi);
                    assert(r.0[g] == p.0[g]);
                } else {
                    assert(r.0[gi].InputSection == Some((base + j) as usize));
                }
            }
        }
    }
}

impl Objectfile {
    /// Whether an entry of the symbol table below `upto` asks the object,
    /// which stands at `o`, to materialize the global symbol at `g`, given
    /// the global symbols `syms` before the conversion: the entry is
    /// common and names the symbol, and the symbol is bound to this
    /// object and lies in no section and no fragment.
    pub open spec fn wants_common(&self, syms: Seq<Symbol>, o: int, upto: int, g: int) -> bool {
        exists|i: int|
            self.inputFile.FirstGlobal <= i < upto && 0 <= i && #[trigger] self.converts(syms, o, i)
                && (self.inputFile.Symbols@[i] matches SymbolId::Global(x) && x == g)
    }
}

/// The symbols that an object materializes are exactly the common symbols
/// that its symbol table names and that are bound to it without section:
/// a common symbol whose definer is another object gets no section here,
/// and no symbol gets a section that no common entry names.
pub proof fn lemma_commons_exactly(obj: Objectfile, syms: Seq<Symbol>, o: int, base: int, upto: int)
    requires
        0 <= upto <= obj.inputFile.ElfSyms@.len(),
        obj.inputFile.Symbols@.len() == obj.inputFile.ElfSyms@.len(),
        0 <= o <= usize::MAX,
        0 <= base,
        base + upto <= usize::MAX,
        forall|i: int|
            0 <= i < obj.inputFile.Symbols@.len() ==> (
            #[trigger] obj.inputFile.Symbols@[i] matches SymbolId::Global(g) ==> g < syms.len()),
    ensures
        forall|g: int|
            0 <= g < syms.len() ==> (#[trigger] obj.convert_upto(syms, o, base, upto).0[g] != syms[g]
                <==> obj.wants_common(syms, o, upto, g)),
    decreases upto,
{
    let r = obj.convert_upto(syms, o, base, upto);
    lemma_commons_materialized(obj, syms, o, base, upto);
    if upto <= obj.inputFile.FirstGlobal || upto <= 0 {
    } else {
        lemma_commons_exactly(obj, syms, o, base, upto - 1);
        lemma_commons_materialized(obj, syms, o, base, upto - 1);
        let p = obj.convert_upto(syms, o, base, upto - 1);
        let i = upto - 1;
        assert forall|g: int| 0 <= g < syms.len() implies (#[trigger] r.0[g] != syms[g]
            <==> obj.wants_common(syms, o, upto, g)) by {
            assert(p.0[g] != syms[g] <==> obj.wants_common(syms, o, upto - 1, g));
            if obj.wants_common(syms, o, upto - 1, g) {
                let w = choose|w: int|
                    obj.inputFile.FirstGlobal <= w < upto - 1 && 0 <= w && #[trigger] obj.converts(
                        syms,
                        o,
                        w,
                    ) && (obj.inputFile.Symbols@[w] matches SymbolId::Global(x) && x == g);
                assert(obj.inputFile.FirstGlobal <= w < upto);
                assert(obj.wants_common(syms, o, upto, g));
                assert(materialized(obj, p.0, p.1, o, base, g));
                if obj.converts(p.0, o, i) {
                    let gi = obj.inputFile.Symbols@[i]->Global_0 as int;
                    assert(gi != g);
                }
                assert(r.0[g] == p.0[g]);
                assert(r.0[g] != syms[g]);
            } else if obj.wants_common(syms, o, upto, g) {
                let w = choose|w: int|
                    obj.inputFile.FirstGlobal <= w < upto && 0 <= w && #[trigger] obj.converts(
                        syms,
                        o,
                        w,
                    ) && (obj.inputFile.Symbols@[w] matches SymbolId::Global(x) && x == g);
                if w < i {
                    assert(obj.wants_common(syms, o, upto - 1, g));
                }
                assert(w == i);
                assert(p.0[g] == syms[g]);
                assert(obj.converts(p.0, o, i));
                assert(r.0[g].InputSection is Some);
                assert(r.0[g] != syms[g]);
            } else {
                assert(p.0[g] == syms[g]);
                if obj.converts(p.0, o, i) {
                    let gi = obj.inputFile.Symbols@[i]->Global_0 as int;
                    if gi == g {
                        assert(obj.converts(syms, o, i));
                        assert(obj.wants_common(syms, o, upto, g));
                    }
                    assert(r.0[g] == p.0[g]);
                }
                assert(r.0[g] == syms[g]);
            }
        }
    }
}

} // verus!
