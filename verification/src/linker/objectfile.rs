//! Objects: an input file with its sections and symbols.
use vstd::prelude::*;
use crate::linker::abi;
use crate::linker::context::{
    Context,
    lemma_grows_trans,
    only_symbols_changed,
    lemma_wf_symbols_changed,
    lemma_wf_parts, lemma_symbols_added_trans, symbols_added, lemma_sections_frame,
    lemma_sections_same, lemma_sections_trans, sections_added,
};
use crate::linker::elf::{
    Shdr,
    Sym,
    spec_elf_name,
    first_zero,
    ElfGetName,
    ReadRelas,
    ReadU32s,
    spec_u32s,
};
use crate::linker::file::{in_file, section_bytes, CheckFileCompatibility, spec_machine_type, readable_object, spec_section, spec_section_count, spec_shstrndx};
use crate::linker::elf::spec_syms;
use crate::linker::inputsections::{section_loadable, splits, SplitSection};
use crate::linker::error::LinkError;
use crate::linker::file::{File, InputFile};
use crate::linker::inputsections::{InputSection, MergeableSection};
use crate::linker::symbol::{Symbol, SymbolId};

verus! {

/// An object of the link. `SymTabSec` is the position of its symbol table
/// among its sections, `SymtabShndxSec` the table of section indices that
/// do not fit a symbol; `Sections` and `MergeableSections` have an entry
/// for every section header, empty where the section is not kept or not
/// mergeable.
#[derive(Debug)]
pub struct Objectfile {
    pub hasCommon: bool,
    pub inputFile: InputFile,
    pub SymTabSec: Option<usize>,
    pub SymtabShndxSec: Vec<u32>,
    pub Sections: Vec<Option<InputSection>>,
    pub MergeableSections: Vec<Option<MergeableSection>>,
}

/// `.common`
pub open spec fn COMMON_NAME() -> Seq<u8> {
    seq![0x2eu8, 0x63, 0x6f, 0x6d, 0x6d, 0x6f, 0x6e]
}

/// `.tls_common`
pub open spec fn TLS_COMMON_NAME() -> Seq<u8> {
    seq![0x2eu8, 0x74, 0x6c, 0x73, 0x5f, 0x63, 0x6f, 0x6d, 0x6d, 0x6f, 0x6e]
}

/// The section index that the symbol `esym` at position `idx` refers to:
/// the entry of `shndx_table` at `idx` where the index of the symbol is the
/// escape value, else the index of the symbol.
pub open spec fn spec_shndx(shndx_table: Seq<u32>, esym: Sym, idx: int) -> int {
    if esym.Shndx == abi::SHN_XINDEX {
        shndx_table[idx] as int
    } else {
        esym.Shndx as int
    }
}

impl Objectfile {
    /// The header of the section at `shndx`: one of the file's own, or one
    /// of those made up for the object.
    pub open spec fn spec_shdr(&self, shndx: int) -> Shdr {
        if shndx < self.inputFile.ElfSections@.len() {
            self.inputFile.ElfSections@[shndx]
        } else {
            self.inputFile.ElfSections2@[shndx - self.inputFile.ElfSections@.len()]
        }
    }

    /// The name of the section at `shndx`: what the table of section names
    /// holds for a section of the file; `.tls_common` or `.common` for a
    /// section that was made up for a common symbol.
    pub open spec fn section_name(&self, shndx: int) -> Seq<u8> {
        if shndx < self.inputFile.ElfSections@.len() {
            spec_elf_name(
                self.inputFile.Shstrtab@,
                self.inputFile.ElfSections@[shndx].Name as int,
            )
        } else if self.spec_shdr(shndx).Flags & abi::SHF_TLS != 0 {
            TLS_COMMON_NAME()
        } else {
            COMMON_NAME()
        }
    }

    /// Whether the object keeps a section at `s`.
    pub open spec fn has_section(&self, s: int) -> bool {
        0 <= s < self.Sections@.len() && self.Sections@[s] is Some
    }

    /// The invariant of an object by itself: a symbol location for every
    /// symbol, locals before globals, every local with its own entity, a
    /// section slot for every section header, and an entry in the table of
    /// long section indices for every symbol that needs one.
    pub open spec fn shape_ok(&self) -> bool {
        let f = self.inputFile;
        &&& f.Symbols@.len() == f.ElfSyms@.len()
        &&& f.FirstGlobal <= f.ElfSyms@.len() || f.ElfSyms@.len() == 0
        &&& f.LocalSymbols@.len() == (if f.FirstGlobal <= f.ElfSyms@.len() {
            f.FirstGlobal as int
        } else {
            0
        })
        &&& forall|i: int|
            0 <= i < f.Symbols@.len() ==> (#[trigger] f.Symbols@[i] is Local <==> i < f.FirstGlobal)
        &&& forall|i: int|
            0 <= i < f.Symbols@.len() && i < f.FirstGlobal ==> #[trigger] f.Symbols@[i]
                == SymbolId::Local(i as usize)
        &&& self.Sections@.len() == f.ElfSections@.len() + f.ElfSections2@.len()
        &&& self.MergeableSections@.len() <= self.Sections@.len()
        &&& forall|i: int|
            0 <= i < f.ElfSyms@.len() && (#[trigger] f.ElfSyms@[i]).Shndx == abi::SHN_XINDEX ==> i
                < self.SymtabShndxSec@.len()
        &&& forall|s: int|
            0 <= s < self.Sections@.len() ==> (#[trigger] self.Sections@[s] matches Some(sec)
                ==> sec.Shndx == s && sec.P2Align < 64)
    }

    /// The name of the file that the object was read from.
    pub fn Name(&self) -> (r: &Vec<u8>)
        ensures
            r == &self.inputFile.File.Name,
    {
        &self.inputFile.File.Name
    }

    /// Whether the object takes part in the link.
    pub fn IsAlive(&self) -> (r: bool)
        ensures
            r == self.inputFile.IsAlive,
    {
        self.inputFile.IsAlive
    }

    /// The section index that the symbol `esym` at position `idx` of the
    /// symbol table refers to.
    pub fn GetShndx(&self, esym: &Sym, idx: usize) -> (r: usize)
        requires
            esym.Shndx == abi::SHN_XINDEX ==> idx < self.SymtabShndxSec@.len(),
        ensures
            r == spec_shndx(self.SymtabShndxSec@, *esym, idx as int),
    {
        if esym.Shndx == abi::SHN_XINDEX {
            self.SymtabShndxSec[idx] as usize
        } else {
            esym.Shndx as usize
        }
    }

    /// The position of the section that defines the symbol `esym` at
    /// position `idx` of the symbol table, where the object keeps that
    /// section.
    pub fn GetSection(&self, esym: &Sym, idx: usize) -> (r: Option<usize>)
        requires
            esym.Shndx == abi::SHN_XINDEX ==> idx < self.SymtabShndxSec@.len(),
        ensures
            r is Some <==> self.has_section(spec_shndx(self.SymtabShndxSec@, *esym, idx as int)),
            r is Some ==> r.unwrap() == spec_shndx(self.SymtabShndxSec@, *esym, idx as int),
    {
        let s: usize = self.GetShndx(esym, idx);
        if s < self.Sections.len() && self.Sections[s].is_some() {
            Some(s)
        } else {
            None
        }
    }

    /// The header of the section at `shndx`.
    pub fn SectionShdr(&self, shndx: usize) -> (r: Shdr)
        requires
            shndx < self.inputFile.ElfSections@.len() + self.inputFile.ElfSections2@.len(),
        ensures
            r == self.spec_shdr(shndx as int),
    {
        if shndx < self.inputFile.ElfSections.len() {
            self.inputFile.ElfSections[shndx]
        } else {
            self.inputFile.ElfSections2[shndx - self.inputFile.ElfSections.len()]
        }
    }
}

/// Whether a section of the type `ty` carries data for the output. Groups,
/// symbol tables, string tables, relocation tables, the empty section and
/// the table of long section indices serve the link only.
pub open spec fn kept_type(ty: u32) -> bool {
    ty != abi::SHT_GROUP && ty != abi::SHT_SYMTAB && ty != abi::SHT_STRTAB && ty != abi::SHT_REL
        && ty != abi::SHT_RELA && ty != abi::SHT_NULL && ty != abi::SHT_SYMTAB_SHNDX
}

/// Whether a name starts at `off` in the string table `strtab`.
pub open spec fn name_readable(strtab: Seq<u8>, off: int) -> bool {
    off <= strtab.len() && first_zero(strtab, off) < strtab.len()
}

/// The last section of type `ty` among the first `upto` of `shdrs`.
pub open spec fn last_of_type(shdrs: Seq<Shdr>, ty: u32, upto: int) -> Option<int>
    decreases upto,
{
    if upto <= 0 {
        None
    } else if shdrs[upto - 1].Type == ty {
        Some(upto - 1)
    } else {
        last_of_type(shdrs, ty, upto - 1)
    }
}

/// Whether the section at `i` of a file with the bytes `c`, the section
/// headers `shdrs` and the section names `shstrtab` can be taken: a kept
/// section has a name and loadable bytes, and a table of long section
/// indices lies inside the file.
pub open spec fn section_ok_of(c: Seq<u8>, shdrs: Seq<Shdr>, shstrtab: Seq<u8>, i: int) -> bool {
    let h = shdrs[i];
    &&& kept_type(h.Type) ==> name_readable(shstrtab, h.Name as int) && section_loadable(c, h)
    &&& h.Type == abi::SHT_SYMTAB_SHNDX ==> in_file(c, h)
}

/// Whether the relocations that the section at `i` holds can be taken: a
/// relocation section for a kept section lies inside the file.
pub open spec fn relocs_ok_of(c: Seq<u8>, shdrs: Seq<Shdr>, i: int) -> bool {
    let h = shdrs[i];
    h.Type == abi::SHT_RELA && h.Info < shdrs.len() && kept_type(shdrs[h.Info as int].Type)
        ==> in_file(c, h)
}

/// Whether every section of the file can be taken.
pub open spec fn sections_ok_of(c: Seq<u8>, shdrs: Seq<Shdr>, shstrtab: Seq<u8>) -> bool {
    forall|i: int|
        0 <= i < shdrs.len() ==> #[trigger] section_ok_of(c, shdrs, shstrtab, i) && relocs_ok_of(
            c,
            shdrs,
            i,
        )
}

/// The table of long section indices of the file: what the last section of
/// that type holds, nothing where the file has none.
pub open spec fn symtab_shndx_of(c: Seq<u8>, shdrs: Seq<Shdr>) -> Seq<u32> {
    match last_of_type(shdrs, abi::SHT_SYMTAB_SHNDX, shdrs.len() as int) {
        Some(j) => spec_u32s(section_bytes(c, shdrs[j])),
        None => Seq::empty(),
    }
}

/// Whether the section at `i`, if it is kept and mergeable, can be cut
/// into pieces.
pub open spec fn mergeable_ok_of(c: Seq<u8>, shdrs: Seq<Shdr>, i: int) -> bool {
    let h = shdrs[i];
    kept_type(h.Type) && h.Flags & abi::SHF_MERGE != 0 ==> splits(
        crate::linker::inputsections::section_contents(c, h),
        h.Flags & abi::SHF_STRINGS != 0,
        h.EntSize as int,
        0,
    )
}

/// Whether every kept mergeable section of the file can be cut into
/// pieces.
pub open spec fn mergeables_ok_of(c: Seq<u8>, shdrs: Seq<Shdr>) -> bool {
    forall|i: int| 0 <= i < shdrs.len() ==> #[trigger] mergeable_ok_of(c, shdrs, i)
}

/// What parsing a file with the bytes `c`, the section headers `shdrs` and
/// the section names `shstrtab` gives: a format error where the symbol
/// table or its string table does not lie inside the file, or where a
/// section cannot be taken; else what taking the symbols gives; else a
/// format error where a mergeable section cannot be cut; else nothing.
pub open spec fn parse_result_of(c: Seq<u8>, shdrs: Seq<Shdr>, shstrtab: Seq<u8>) -> Result<
    (),
    LinkError,
> {
    let st = InputFile::spec_find_section(shdrs, abi::SHT_SYMTAB, 0);
    if st is Some && !(in_file(c, shdrs[st.unwrap()]) && shdrs[st.unwrap()].Link < shdrs.len()
        && in_file(c, shdrs[shdrs[st.unwrap()].Link as int])) {
        Err(LinkError::Format)
    } else if !sections_ok_of(c, shdrs, shstrtab) {
        Err(LinkError::Format)
    } else {
        let syms = if st is Some {
            symbols_result_of(
                shdrs[st.unwrap()].Info as int,
                crate::linker::elf::spec_syms(section_bytes(c, shdrs[st.unwrap()])),
                section_bytes(c, shdrs[shdrs[st.unwrap()].Link as int]),
                symtab_shndx_of(c, shdrs),
            )
        } else {
            symbols_result_of(0, Seq::empty(), Seq::empty(), symtab_shndx_of(c, shdrs))
        };
        if syms is Err {
            syms
        } else if !mergeables_ok_of(c, shdrs) {
            Err(LinkError::Format)
        } else {
            Ok(())
        }
    }
}

impl Objectfile {
    /// Whether the section at `i` can be taken.
    pub open spec fn section_ok(&self, i: int) -> bool {
        let f = self.inputFile;
        section_ok_of(f.File.Contents@, f.ElfSections@, f.Shstrtab@, i)
    }

    /// Whether the relocations that the section at `i` holds can be taken.
    pub open spec fn relocs_ok(&self, i: int) -> bool {
        relocs_ok_of(self.inputFile.File.Contents@, self.inputFile.ElfSections@, i)
    }

    /// Whether every section of the object can be taken.
    pub open spec fn sections_ok(&self) -> bool {
        forall|i: int|
            0 <= i < self.inputFile.ElfSections@.len() ==> #[trigger] self.section_ok(i)
                && self.relocs_ok(i)
    }

    /// What parsing the object gives: the error, or nothing.
    pub open spec fn parse_result(&self) -> Result<(), LinkError> {
        let f = self.inputFile;
        parse_result_of(f.File.Contents@, f.ElfSections@, f.Shstrtab@)
    }

    /// Whether the sections of the object are those that its section
    /// headers describe: a section for every header of a kept type and for
    /// no other, each alive, without offset, with its relocations, and
    /// assigned to the output section that its name, type and flags ask
    /// for.
    pub open spec fn sections_taken(&self, ctx: &Context) -> bool {
        let n = self.inputFile.ElfSections@.len() as int;
        &&& self.Sections@.len() == n
        &&& forall|i: int|
            0 <= i < n ==> ((#[trigger] self.Sections@[i]) is Some <==> kept_type(
                self.inputFile.ElfSections@[i].Type,
            ))
        &&& forall|i: int|
            0 <= i < n ==> (#[trigger] self.Sections@[i] matches Some(sec) ==> {
                &&& sec.is_loaded(*self, i)
                &&& sec.IsAlive
                &&& sec.Offset == u64::MAX
                &&& sec.relocs_loaded(*self, i, n)
                &&& ctx.section_placed(*self, i)
            })
    }

    /// The table of long section indices of the object.
    pub open spec fn spec_symtab_shndx(&self) -> Seq<u32> {
        symtab_shndx_of(self.inputFile.File.Contents@, self.inputFile.ElfSections@)
    }

    /// Reads the table of long section indices from the section `shdr`.
    pub fn FillUpSymtabShndxSec(&mut self, shdr: &Shdr) -> (r: Result<(), LinkError>)
        ensures
            r is Ok <==> in_file(old(self).inputFile.File.Contents@, *shdr),
            r is Err ==> r == Err::<(), LinkError>(LinkError::Format) && *final(self) == *old(self),
            r is Ok ==> *final(self) == (Objectfile {
                SymtabShndxSec: final(self).SymtabShndxSec,
                ..*old(self)
            }),
            r is Ok ==> final(self).SymtabShndxSec@ == spec_u32s(
                section_bytes(old(self).inputFile.File.Contents@, *shdr),
            ),
    {
        let bytes = match self.inputFile.GetBytesFromShdr(shdr) {
            Ok(b) => b,
            Err(e) => {
                return Err(LinkError::Format);
            },
        };
        self.SymtabShndxSec = ReadU32s(bytes.as_slice());
        Ok(())
    }

    /// Takes the sections of the object: an input section for every
    /// section header that carries data for the output, assigned to its
    /// output section, with the relocations that belong to it; and the
    /// table of long section indices. Output sections are made as needed;
    /// nothing else in the context changes.
    #[verifier::rlimit(100)]
    pub fn InitSections(&mut self, ctx: &mut Context) -> (r: Result<(), LinkError>)
        requires
            old(ctx).wf(),
            old(self).Sections@.len() == 0,
            old(self).SymtabShndxSec@.len() == 0,
            old(self).inputFile.ElfSections2@.len() == 0,
        ensures
            final(ctx).wf(),
            final(ctx).grows_from(*old(ctx)),
            sections_added(*old(ctx), *final(ctx)),
            *final(ctx) == (Context { OutputSections: final(ctx).OutputSections, ..*old(ctx) }),
            r is Ok <==> old(self).sections_ok(),
            r is Err ==> r == Err::<(), LinkError>(LinkError::Format),
            r is Ok ==> *final(self) == (Objectfile {
                Sections: final(self).Sections,
                SymtabShndxSec: final(self).SymtabShndxSec,
                ..*old(self)
            }),
            r is Ok ==> final(self).sections_taken(final(ctx)),
            r is Ok ==> final(self).SymtabShndxSec@ == old(self).spec_symtab_shndx(),
    {
        proof {
            lemma_sections_same(*ctx, *ctx);
        }
        let n: usize = self.inputFile.ElfSections.len();
        let mut i: usize = 0;
        while i < n
            invariant
                i <= n,
                n == self.inputFile.ElfSections@.len(),
                ctx.wf(),
                ctx.grows_from(*old(ctx)),
                sections_added(*old(ctx), *ctx),
                *ctx == (Context { OutputSections: ctx.OutputSections, ..*old(ctx) }),
                *self == (Objectfile {
                    Sections: self.Sections,
                    SymtabShndxSec: self.SymtabShndxSec,
                    ..*old(self)
                }),
                self.inputFile.ElfSections2@.len() == 0,
                self.Sections@.len() == i,
                forall|j: int| 0 <= j < i ==> #[trigger] old(self).section_ok(j),
                forall|j: int|
                    0 <= j < i ==> ((#[trigger] self.Sections@[j]) is Some <==> kept_type(
                        self.inputFile.ElfSections@[j].Type,
                    )),
                forall|j: int|
                    0 <= j < i ==> (#[trigger] self.Sections@[j] matches Some(sec) ==> {
                        &&& sec.is_taken_from(*self, j)
                        &&& ctx.section_placed(*self, j)
                    }),
                self.SymtabShndxSec@ == (match last_of_type(
                    self.inputFile.ElfSections@,
                    abi::SHT_SYMTAB_SHNDX,
                    i as int,
                ) {
                    Some(j) => spec_u32s(
                        section_bytes(
                            self.inputFile.File.Contents@,
                            self.inputFile.ElfSections@[j],
                        ),
                    ),
                    None => Seq::empty(),
                }),
            decreases n - i,
        {
            let shdr = self.inputFile.ElfSections[i];
            let ty: u32 = shdr.Type;
            if ty == abi::SHT_GROUP || ty == abi::SHT_SYMTAB || ty == abi::SHT_STRTAB || ty
                == abi::SHT_REL || ty == abi::SHT_RELA || ty == abi::SHT_NULL {
                self.Sections.push(None);
            } else if ty == abi::SHT_SYMTAB_SHNDX {
                match self.FillUpSymtabShndxSec(&shdr) {
                    Ok(()) => {},
                    Err(e) => {
                        assert(!old(self).section_ok(i as int));
                        return Err(LinkError::Format);
                    },
                }
                self.Sections.push(None);
            } else {
                let name = match ElfGetName(self.inputFile.Shstrtab.as_slice(), shdr.Name as usize) {
                    Ok(nm) => nm,
                    Err(e) => {
                        assert(!old(self).section_ok(i as int));
                        return Err(LinkError::Format);
                    },
                };
                let ghost before = *ctx;
                let sec = match InputSection::new(ctx, name.as_slice(), self, i) {
                    Ok(sc) => sc,
                    Err(e) => {
                        assert(!old(self).section_ok(i as int));
                        return Err(LinkError::Format);
                    },
                };
                let ghost prev = *self;
                self.Sections.push(Some(sec));
                proof {
                    lemma_grows_trans(*old(ctx), before, *ctx);
                    lemma_sections_trans(*old(ctx), before, *ctx);
                    assert forall|j: int| 0 <= j <= i implies (
                    #[trigger] self.Sections@[j] matches Some(sc) ==> {
                        &&& sc.is_taken_from(*self, j)
                        &&& ctx.section_placed(*self, j)
                    }) by {
                        if j < i {
                            assert(self.Sections@[j] == prev.Sections@[j]);
                            if let Some(sc) = prev.Sections@[j] {
                                assert(before.section_placed(prev, j));
                            }
                        }
                    }
                }
            }
            i = i + 1;
        }
        let mut k: usize = 0;
        while k < n
            invariant
                k <= n,
                n == self.inputFile.ElfSections@.len(),
                ctx.wf(),
                ctx.grows_from(*old(ctx)),
                sections_added(*old(ctx), *ctx),
                *ctx == (Context { OutputSections: ctx.OutputSections, ..*old(ctx) }),
                *self == (Objectfile {
                    Sections: self.Sections,
                    SymtabShndxSec: self.SymtabShndxSec,
                    ..*old(self)
                }),
                self.inputFile.ElfSections2@.len() == 0,
                self.Sections@.len() == n,
                self.SymtabShndxSec@ == old(self).spec_symtab_shndx(),
                forall|j: int| 0 <= j < n ==> #[trigger] old(self).section_ok(j),
                forall|j: int| 0 <= j < k ==> #[trigger] old(self).relocs_ok(j),
                forall|j: int|
                    0 <= j < n ==> ((#[trigger] self.Sections@[j]) is Some <==> kept_type(
                        self.inputFile.ElfSections@[j].Type,
                    )),
                forall|j: int|
                    0 <= j < n ==> (#[trigger] self.Sections@[j] matches Some(sec) ==> {
                        &&& sec.is_loaded(*self, j)
                        &&& sec.IsAlive
                        &&& sec.Offset == u64::MAX
                        &&& sec.relocs_loaded(*self, j, k as int)
                        &&& ctx.section_placed(*self, j)
                    }),
            decreases n - k,
        {
            let shdr = self.inputFile.ElfSections[k];
            if shdr.Type == abi::SHT_RELA && (shdr.Info as usize) < n {
                let target: usize = shdr.Info as usize;
                if self.Sections[target].is_some() {
                    let bytes = match self.inputFile.GetBytesFromShdr(&shdr) {
                        Ok(b) => b,
                        Err(e) => {
                            assert(old(self).section_ok(k as int));
                            assert(!old(self).relocs_ok(k as int));
                            return Err(LinkError::Format);
                        },
                    };
                    let rels = ReadRelas(bytes.as_slice());
                    let ghost prev = *self;
                    match &mut self.Sections[target] {
                        Some(sec) => {
                            sec.RelsecIdx = k;
                            sec.Rels = rels;
                        },
                        None => {},
                    }
                    proof {
                        assert forall|j: int| 0 <= j < n implies (
                        #[trigger] self.Sections@[j] matches Some(sec) ==> {
                            &&& sec.is_loaded(*self, j)
                            &&& sec.IsAlive
                            &&& sec.Offset == u64::MAX
                            &&& sec.relocs_loaded(*self, j, k + 1)
                            &&& ctx.section_placed(*self, j)
                        }) by {
                            if let Some(sc) = prev.Sections@[j] {
                                assert(ctx.section_placed(prev, j));
                                assert(sc.relocs_loaded(prev, j, k as int));
                            }
                        }
                    }
                }
            }
            k = k + 1;
        }
        Ok(())
    }
}

/// Whether the symbol at `i` of the symbol table `syms` can be taken: its
/// name can be read from `strtab` (the first local has none), and the table
/// of long section indices `shndx` has an entry for it where it needs one.
pub open spec fn symbol_readable_of(
    first: int,
    syms: Seq<Sym>,
    strtab: Seq<u8>,
    shndx: Seq<u32>,
    i: int,
) -> bool {
    &&& (i >= 1 || i >= first) ==> name_readable(strtab, syms[i].Name as int)
    &&& syms[i].Shndx == abi::SHN_XINDEX ==> i < shndx.len()
}

/// Whether a local symbol other than the first is a common symbol.
pub open spec fn has_common_local_of(first: int, syms: Seq<Sym>) -> bool {
    exists|i: int| 1 <= i < first && i < syms.len() && (#[trigger] syms[i]).Shndx == abi::SHN_COMMON
}

/// What taking the symbols of a symbol table gives: a format error where
/// the first global lies behind the end of the table; else a resolution
/// error where a local is a common symbol; else a format error where a
/// symbol cannot be taken; else nothing.
pub open spec fn symbols_result_of(first: int, syms: Seq<Sym>, strtab: Seq<u8>, shndx: Seq<u32>) -> Result<
    (),
    LinkError,
> {
    if first > syms.len() {
        Err(LinkError::Format)
    } else if has_common_local_of(first, syms) {
        Err(LinkError::Resolution)
    } else if !(forall|i: int|
        0 <= i < syms.len() ==> #[trigger] symbol_readable_of(first, syms, strtab, shndx, i)) {
        Err(LinkError::Format)
    } else {
        Ok(())
    }
}

impl Objectfile {
    /// Whether the symbol at `i` can be taken.
    pub open spec fn symbol_readable(&self, i: int) -> bool {
        let f = self.inputFile;
        symbol_readable_of(f.FirstGlobal as int, f.ElfSyms@, f.SymbolStrTab@, self.SymtabShndxSec@, i)
    }

    /// Whether a local symbol other than the first is a common symbol.
    pub open spec fn has_common_local(&self) -> bool {
        has_common_local_of(self.inputFile.FirstGlobal as int, self.inputFile.ElfSyms@)
    }

    /// Whether every symbol of the object can be taken.
    pub open spec fn symbols_readable(&self) -> bool {
        forall|i: int| 0 <= i < self.inputFile.ElfSyms@.len() ==> #[trigger] self.symbol_readable(i)
    }

    /// What taking the symbols of the object gives: the error, or nothing.
    pub open spec fn symbols_result(&self) -> Result<(), LinkError> {
        let f = self.inputFile;
        symbols_result_of(f.FirstGlobal as int, f.ElfSyms@, f.SymbolStrTab@, self.SymtabShndxSec@)
    }

    /// The name of the symbol at `i`.
    pub open spec fn symbol_name(&self, i: int) -> Seq<u8> {
        spec_elf_name(self.inputFile.SymbolStrTab@, self.inputFile.ElfSyms@[i].Name as int)
    }

    /// Whether `sym` is the local symbol at `k` of this object, which
    /// stands or will stand at `o`, as it is before resolution: the first
    /// local is a placeholder without name; every other local has its name
    /// and value from the symbol table and, unless it is absolute, the
    /// section that defines it.
    pub open spec fn is_local(&self, o: int, k: int, sym: Symbol) -> bool {
        let esym = self.inputFile.ElfSyms@[k];
        &&& sym.File == Some(o as usize)
        &&& sym.SectionFragment is None
        &&& sym.GotTpIdx == 0
        &&& sym.Flags == 0
        &&& if k == 0 {
            &&& sym.Name@.len() == 0
            &&& sym.Value == 0
            &&& sym.SymIdx == 0
            &&& sym.InputSection is None
        } else {
            &&& sym.Name@ == self.symbol_name(k)
            &&& sym.Value == esym.Val
            &&& sym.SymIdx == k
            &&& sym.InputSection == (if esym.Shndx != abi::SHN_ABS && self.has_section(
                spec_shndx(self.SymtabShndxSec@, esym, k),
            ) {
                Some(spec_shndx(self.SymtabShndxSec@, esym, k) as usize)
            } else {
                None
            })
        }
    }

    /// Whether the symbols of the object, which stands or will stand at
    /// `o`, are those that its symbol table describes: an entity of its own
    /// for every local, and for every global the one symbol of its name in
    /// the table of globals.
    pub open spec fn symbols_taken(&self, ctx: &Context, o: int) -> bool {
        let f = self.inputFile;
        &&& f.Symbols@.len() == f.ElfSyms@.len()
        &&& f.FirstGlobal <= f.ElfSyms@.len()
        &&& f.LocalSymbols@.len() == f.FirstGlobal
        &&& forall|k: int|
            0 <= k < f.FirstGlobal ==> #[trigger] f.Symbols@[k] == SymbolId::Local(k as usize)
                && self.is_local(o, k, f.LocalSymbols@[k])
        &&& forall|i: int|
            f.FirstGlobal <= i < f.ElfSyms@.len() ==> (#[trigger] f.Symbols@[i] matches SymbolId::Global(
                g,
            ) && g < ctx.SymbolMap@.len() && ctx.SymbolMap@[g as int].Name@ == self.symbol_name(i))
    }

    /// Whether an entry of the symbol table of the object names the
    /// global symbol at `g`.
    pub open spec fn names_global(&self, g: int) -> bool {
        exists|i: int|
            0 <= i < self.inputFile.Symbols@.len() && (
            #[trigger] self.inputFile.Symbols@[i] matches SymbolId::Global(x) && x == g)
    }

    /// Whether a global symbol of the object is a common symbol.
    pub open spec fn has_common_global(&self) -> bool {
        exists|i: int|
            self.inputFile.FirstGlobal <= i < self.inputFile.ElfSyms@.len() && (
            #[trigger] self.inputFile.ElfSyms@[i]).Shndx == abi::SHN_COMMON
    }

    /// Takes the symbols of the object, which will stand at `o` in the
    /// context: an entity of its own for every local symbol, and for every
    /// global symbol the one symbol of that name in the table of globals,
    /// which is made where the table has none. A first global behind the
    /// end of the symbol table is a format error, a local common symbol a
    /// resolution error, a name that cannot be read or a missing long
    /// section index a format error.
    #[verifier::rlimit(100)]
    pub fn InitSymbols(&mut self, ctx: &mut Context, o: usize) -> (r: Result<(), LinkError>)
        requires
            old(ctx).wf(),
            old(self).inputFile.Symbols@.len() == 0,
            old(self).inputFile.LocalSymbols@.len() == 0,
        ensures
            final(ctx).wf(),
            final(ctx).grows_from(*old(ctx)),
            sections_added(*old(ctx), *final(ctx)),
            *final(ctx) == (Context { SymbolMap: final(ctx).SymbolMap, ..*old(ctx) }),
            forall|g: int|
                0 <= g < old(ctx).SymbolMap@.len() ==> final(ctx).SymbolMap@[g] == old(ctx).SymbolMap@[g],
            symbols_added(*old(ctx), *final(ctx)),
            new_named(*old(ctx), *final(ctx), *final(self)),
            r == old(self).symbols_result(),
            r is Ok ==> *final(self) == (Objectfile {
                hasCommon: final(self).hasCommon,
                inputFile: InputFile {
                    Symbols: final(self).inputFile.Symbols,
                    LocalSymbols: final(self).inputFile.LocalSymbols,
                    ..old(self).inputFile
                },
                ..*old(self)
            }),
            r is Ok ==> final(self).symbols_taken(final(ctx), o as int),
            r is Ok ==> final(self).hasCommon == (old(self).hasCommon || old(self).has_common_global()),
    {
        proof {
            lemma_sections_same(*ctx, *ctx);
        }
        let n: usize = self.inputFile.ElfSyms.len();
        let first: usize = self.inputFile.FirstGlobal;
        if first > n {
            return Err(LinkError::Format);
        }
        let mut c: usize = 1;
        while c < first
            invariant
                1 <= c,
                first <= n,
                n == self.inputFile.ElfSyms@.len(),
                first == self.inputFile.FirstGlobal,
                *self == *old(self),
                *ctx == *old(ctx),
                sections_added(*old(ctx), *ctx),
                ctx.wf(),
                forall|j: int| 1 <= j < c ==> (#[trigger] self.inputFile.ElfSyms@[j]).Shndx != abi::SHN_COMMON,
            decreases first - c,
        {
            if self.inputFile.ElfSyms[c].IsCommon() {
                return Err(LinkError::Resolution);
            }
            c = c + 1;
        }
        assert(!old(self).has_common_local());
        let mut i: usize = 0;
        while i < first
            invariant
                i <= first <= n,
                n == self.inputFile.ElfSyms@.len(),
                first == self.inputFile.FirstGlobal,
                *ctx == *old(ctx),
                sections_added(*old(ctx), *ctx),
                ctx.wf(),
                !old(self).has_common_local(),
                *self == (Objectfile {
                    inputFile: InputFile {
                        Symbols: self.inputFile.Symbols,
                        LocalSymbols: self.inputFile.LocalSymbols,
                        ..old(self).inputFile
                    },
                    ..*old(self)
                }),
                self.inputFile.Symbols@.len() == i,
                self.inputFile.LocalSymbols@.len() == i,
                forall|j: int| 0 <= j < i ==> #[trigger] old(self).symbol_readable(j),
                forall|k: int|
                    0 <= k < i ==> #[trigger] self.inputFile.Symbols@[k] == SymbolId::Local(
                        k as usize,
                    ) && self.is_local(o as int, k, self.inputFile.LocalSymbols@[k]),
            decreases first - i,
        {
            let esym = self.inputFile.ElfSyms[i];
            if esym.Shndx == abi::SHN_XINDEX && i >= self.SymtabShndxSec.len() {
                assert(!old(self).symbol_readable(i as int));
                return Err(LinkError::Format);
            }
            let mut sym = if i == 0 {
                let empty: Vec<u8> = Vec::new();
                Symbol::new(empty.as_slice())
            } else {
                let name = match ElfGetName(
                    self.inputFile.SymbolStrTab.as_slice(),
                    esym.Name as usize,
                ) {
                    Ok(nm) => nm,
                    Err(e) => {
                        assert(!old(self).symbol_readable(i as int));
                        return Err(LinkError::Format);
                    },
                };
                let mut s = Symbol::new(name.as_slice());
                s.Value = esym.Val;
                s.SymIdx = i;
                if !esym.IsAbs() {
                    let isec = self.GetSection(&esym, i);
                    s.SetInputSection(isec);
                }
                s
            };
            sym.File = Some(o);
            let ghost prev = *self;
            self.inputFile.LocalSymbols.push(sym);
            self.inputFile.Symbols.push(SymbolId::Local(i));
            proof {
                assert forall|k: int| 0 <= k <= i implies #[trigger] self.inputFile.Symbols@[k]
                    == SymbolId::Local(k as usize) && self.is_local(
                    o as int,
                    k,
                    self.inputFile.LocalSymbols@[k],
                ) by {
                    if k < i {
                        assert(prev.inputFile.Symbols@[k] == SymbolId::Local(k as usize));
                        assert(prev.is_local(o as int, k, prev.inputFile.LocalSymbols@[k]));
                    }
                }
            }
            i = i + 1;
        }
        let ghost common_before = self.hasCommon;
        while i < n
            invariant
                first <= i <= n,
                n == self.inputFile.ElfSyms@.len(),
                first == self.inputFile.FirstGlobal,
                ctx.wf(),
                ctx.grows_from(*old(ctx)),
                sections_added(*old(ctx), *ctx),
                *ctx == (Context { SymbolMap: ctx.SymbolMap, ..*old(ctx) }),
                forall|g: int|
                    0 <= g < old(ctx).SymbolMap@.len() ==> ctx.SymbolMap@[g] == old(ctx).SymbolMap@[g],
                symbols_added(*old(ctx), *ctx),
                new_named(*old(ctx), *ctx, *self),
                !old(self).has_common_local(),
                *self == (Objectfile {
                    hasCommon: self.hasCommon,
                    inputFile: InputFile {
                        Symbols: self.inputFile.Symbols,
                        LocalSymbols: self.inputFile.LocalSymbols,
                        ..old(self).inputFile
                    },
                    ..*old(self)
                }),
                self.inputFile.Symbols@.len() == i,
                self.inputFile.LocalSymbols@.len() == first,
                forall|j: int| 0 <= j < i ==> #[trigger] old(self).symbol_readable(j),
                forall|k: int|
                    0 <= k < first ==> #[trigger] self.inputFile.Symbols@[k] == SymbolId::Local(
                        k as usize,
                    ) && self.is_local(o as int, k, self.inputFile.LocalSymbols@[k]),
                forall|j: int|
                    first <= j < i ==> (#[trigger] self.inputFile.Symbols@[j] matches SymbolId::Global(
                        g,
                    ) && g < ctx.SymbolMap@.len() && ctx.SymbolMap@[g as int].Name@
                        == self.symbol_name(j)),
                self.hasCommon == (old(self).hasCommon || exists|j: int|
                    first <= j < i && (#[trigger] self.inputFile.ElfSyms@[j]).Shndx
                        == abi::SHN_COMMON),
            decreases n - i,
        {
            let ghost head = *self;
            let esym = self.inputFile.ElfSyms[i];
            if esym.Shndx == abi::SHN_XINDEX && i >= self.SymtabShndxSec.len() {
                assert(!old(self).symbol_readable(i as int));
                return Err(LinkError::Format);
            }
            let name = match ElfGetName(self.inputFile.SymbolStrTab.as_slice(), esym.Name as usize) {
                Ok(nm) => nm,
                Err(e) => {
                    assert(!old(self).symbol_readable(i as int));
                    return Err(LinkError::Format);
                },
            };
            if esym.IsCommon() {
                self.hasCommon = true;
            }
            let ghost before = *ctx;
            let ghost prev = *self;
            let g: usize = Symbol::GetSymbolByName(ctx, name.as_slice());
            self.inputFile.Symbols.push(SymbolId::Global(g));
            proof {
                lemma_grows_trans(*old(ctx), before, *ctx);
                lemma_sections_frame(*old(ctx), before, *ctx);
                assert forall|j: int| 0 <= j < before.SymbolMap@.len() implies ctx.SymbolMap@[j]
                    == before.SymbolMap@[j] by {
                    if g >= before.SymbolMap@.len() {
                        assert(ctx.SymbolMap@.subrange(0, g as int)[j] == ctx.SymbolMap@[j]);
                    }
                }
                assert(symbols_added(before, *ctx));
                lemma_symbols_added_trans(*old(ctx), before, *ctx);
                assert forall|x: int|
                    old(ctx).SymbolMap@.len() <= x < ctx.SymbolMap@.len() implies #[trigger] self.names_global(
                    x,
                ) by {
                    if x < before.SymbolMap@.len() {
                        assert(head.names_global(x));
                        assert(prev.inputFile.Symbols == head.inputFile.Symbols);
                        assert(prev.names_global(x));
                    } else {
                        assert(x == g);
                    }
                    lemma_names_push(prev, *self, SymbolId::Global(g), x);
                }
                assert forall|k: int| 0 <= k < first implies #[trigger] self.inputFile.Symbols@[k]
                    == SymbolId::Local(k as usize) && self.is_local(
                    o as int,
                    k,
                    self.inputFile.LocalSymbols@[k],
                ) by {
                    assert(prev.inputFile.Symbols@[k] == SymbolId::Local(k as usize));
                    assert(prev.is_local(o as int, k, prev.inputFile.LocalSymbols@[k]));
                }
                assert forall|j: int| first <= j <= i implies (
                #[trigger] self.inputFile.Symbols@[j] matches SymbolId::Global(gg) && gg
                    < ctx.SymbolMap@.len() && ctx.SymbolMap@[gg as int].Name@ == self.symbol_name(
                    j,
                )) by {
                    if j < i {
                        assert(prev.inputFile.Symbols@[j] == self.inputFile.Symbols@[j]);
                    }
                }
            }
            proof {
                let syms = self.inputFile.ElfSyms@;
                assert(syms == prev.inputFile.ElfSyms@);
                if esym.Shndx == abi::SHN_COMMON {
                    assert(first <= i < i + 1 && syms[i as int].Shndx == abi::SHN_COMMON);
                } else {
                    assert forall|j: int|
                        first <= j < i + 1 && (#[trigger] syms[j]).Shndx
                            == abi::SHN_COMMON implies j < i by {}
                }
                assert(self.hasCommon == (old(self).hasCommon || exists|j: int|
                    first <= j < i + 1 && (#[trigger] syms[j]).Shndx == abi::SHN_COMMON));
            }
            i = i + 1;
        }
        proof {
            let f = old(self).inputFile;
            assert forall|j: int| 0 <= j < f.ElfSyms@.len() implies #[trigger] symbol_readable_of(
                f.FirstGlobal as int,
                f.ElfSyms@,
                f.SymbolStrTab@,
                old(self).SymtabShndxSec@,
                j,
            ) by {
                assert(old(self).symbol_readable(j));
            }
        }
        Ok(())
    }
}

/// Whether every global symbol that `new` holds behind those of `old` is
/// named by the symbol table of `obj`.
pub open spec fn new_named(old: Context, new: Context, obj: Objectfile) -> bool {
    forall|g: int| old.SymbolMap@.len() <= g < new.SymbolMap@.len() ==> #[trigger] obj.names_global(g)
}

/// An object that gets one more entry in its list of symbols names what
/// it named.
proof fn lemma_names_push(a: Objectfile, b: Objectfile, id: SymbolId, g: int)
    requires
        b.inputFile.Symbols@ == a.inputFile.Symbols@.push(id),
        a.names_global(g) || id == SymbolId::Global(g as usize) && 0 <= g <= usize::MAX,
    ensures
        b.names_global(g),
{
    if a.names_global(g) {
        let i = choose|i: int|
            0 <= i < a.inputFile.Symbols@.len() && (
            #[trigger] a.inputFile.Symbols@[i] matches SymbolId::Global(x) && x == g);
        assert(b.inputFile.Symbols@[i] == a.inputFile.Symbols@[i]);
    } else {
        let i = a.inputFile.Symbols@.len() as int;
        assert(b.inputFile.Symbols@[i] == id);
    }
}

impl Objectfile {
    /// Whether the section at `i` is kept and mergeable.
    pub open spec fn is_mergeable(&self, i: int) -> bool {
        self.has_section(i) && self.spec_shdr(i).Flags & abi::SHF_MERGE != 0
    }

    /// Whether the mergeable section at `i` can be cut into pieces.
    pub open spec fn mergeable_splits(&self, i: int) -> bool {
        self.is_mergeable(i) ==> splits(
            self.Sections@[i].unwrap().Contents@,
            self.spec_shdr(i).Flags & abi::SHF_STRINGS != 0,
            self.spec_shdr(i).EntSize as int,
            0,
        )
    }

    /// Whether every mergeable section of the object can be cut into
    /// pieces.
    pub open spec fn mergeables_ok(&self) -> bool {
        forall|i: int| 0 <= i < self.Sections@.len() ==> #[trigger] self.mergeable_splits(i)
    }

    /// Whether the mergeable sections of the object are split, given the
    /// object `before` the splitting: every kept mergeable section is dead
    /// and has its pieces; every other section is as it was.
    pub open spec fn mergeables_taken(&self, ctx: &Context, before: Objectfile) -> bool {
        let n = before.Sections@.len() as int;
        &&& self.Sections@.len() == n
        &&& self.MergeableSections@.len() == n
        &&& forall|i: int|
            0 <= i < n ==> ((#[trigger] self.MergeableSections@[i]) is Some <==> before.is_mergeable(
                i,
            ))
        &&& forall|i: int|
            0 <= i < n ==> #[trigger] self.Sections@[i] == (if before.is_mergeable(i) {
                Some(InputSection { IsAlive: false, ..before.Sections@[i].unwrap() })
            } else {
                before.Sections@[i]
            })
        &&& forall|i: int|
            0 <= i < n ==> (#[trigger] self.MergeableSections@[i] matches Some(ms) ==> {
                &&& ms.is_split_of(ctx, before, i)
                &&& ctx.mergeable_ok(ms)
            })
    }

    /// Splits the mergeable sections of the object: every kept section
    /// with the merge flag is marked dead and cut into pieces, which go to
    /// a merged section of the context. Merged sections are made as needed;
    /// nothing else in the context changes.
    #[verifier::rlimit(100)]
    pub fn InitMergeableSections(&mut self, ctx: &mut Context) -> (r: Result<(), LinkError>)
        requires
            old(ctx).wf(),
            old(self).MergeableSections@.len() == 0,
            old(self).inputFile.ElfSections2@.len() == 0,
            old(self).sections_taken(old(ctx)),
            old(self).sections_ok(),
        ensures
            final(ctx).wf(),
            final(ctx).grows_from(*old(ctx)),
            sections_added(*old(ctx), *final(ctx)),
            *final(ctx) == (Context { MergedSections: final(ctx).MergedSections, ..*old(ctx) }),
            r is Ok <==> old(self).mergeables_ok(),
            r is Err ==> r == Err::<(), LinkError>(LinkError::Format),
            r is Ok ==> *final(self) == (Objectfile {
                Sections: final(self).Sections,
                MergeableSections: final(self).MergeableSections,
                ..*old(self)
            }),
            r is Ok ==> final(self).mergeables_taken(final(ctx), *old(self)),
    {
        proof {
            lemma_sections_same(*ctx, *ctx);
        }
        let n: usize = self.Sections.len();
        let mut i: usize = 0;
        while i < n
            invariant
                i <= n,
                n == old(self).Sections@.len(),
                n == old(self).inputFile.ElfSections@.len(),
                old(self).inputFile.ElfSections2@.len() == 0,
                old(self).sections_taken(old(ctx)),
                old(self).sections_ok(),
                ctx.wf(),
                ctx.grows_from(*old(ctx)),
                sections_added(*old(ctx), *ctx),
                *ctx == (Context { MergedSections: ctx.MergedSections, ..*old(ctx) }),
                *self == (Objectfile {
                    Sections: self.Sections,
                    MergeableSections: self.MergeableSections,
                    ..*old(self)
                }),
                self.Sections@.len() == n,
                self.MergeableSections@.len() == i,
                forall|j: int| 0 <= j < i ==> #[trigger] old(self).mergeable_splits(j),
                forall|j: int|
                    0 <= j < i ==> ((#[trigger] self.MergeableSections@[j]) is Some <==> old(self).is_mergeable(j)),
                forall|j: int|
                    0 <= j < n ==> #[trigger] self.Sections@[j] == (if j < i && old(self).is_mergeable(j) {
                        Some(InputSection { IsAlive: false, ..old(self).Sections@[j].unwrap() })
                    } else {
                        old(self).Sections@[j]
                    }),
                forall|j: int|
                    0 <= j < i ==> (#[trigger] self.MergeableSections@[j] matches Some(ms) ==> {
                        &&& ms.is_split_of(ctx, *old(self), j)
                        &&& ctx.mergeable_ok(ms)
                    }),
            decreases n - i,
        {
            let merge: bool = match &self.Sections[i] {
                Some(sec) => sec.IsAlive && self.inputFile.ElfSections[i].Flags & abi::SHF_MERGE
                    != 0,
                None => false,
            };
            proof {
                assert(self.Sections@[i as int] == old(self).Sections@[i as int]);
                assert(old(self).section_ok(i as int));
            }
            if merge {
                let ghost before = *ctx;
                let ghost prev = *self;
                let ms = match SplitSection(ctx, self, i) {
                    Ok(m) => m,
                    Err(e) => {
                        assert(!old(self).mergeable_splits(i as int));
                        return Err(LinkError::Format);
                    },
                };
                match &mut self.Sections[i] {
                    Some(sec) => {
                        sec.IsAlive = false;
                    },
                    None => {},
                }
                self.MergeableSections.push(Some(ms));
                proof {
                    lemma_grows_trans(*old(ctx), before, *ctx);
                    lemma_sections_trans(*old(ctx), before, *ctx);
                    assert(ms.is_split_of(ctx, prev, i as int));
                    assert(ms.is_split_of(ctx, *old(self), i as int));
                    assert forall|j: int| 0 <= j <= i implies (
                    #[trigger] self.MergeableSections@[j] matches Some(m) ==> {
                        &&& m.is_split_of(ctx, *old(self), j)
                        &&& ctx.mergeable_ok(m)
                    }) by {
                        if j < i {
                            assert(self.MergeableSections@[j] == prev.MergeableSections@[j]);
                            if let Some(m) = prev.MergeableSections@[j] {
                                assert(m.is_split_of(&before, *old(self), j));
                                assert(before.mergeable_ok(m));
                            }
                        }
                    }
                }
            } else {
                self.MergeableSections.push(None);
            }
            i = i + 1;
        }
        Ok(())
    }
}

impl Objectfile {
    /// Whether nothing of the object has been parsed yet.
    pub open spec fn is_unparsed(&self) -> bool {
        let f = self.inputFile;
        &&& !self.hasCommon
        &&& self.SymTabSec is None
        &&& self.SymtabShndxSec@.len() == 0
        &&& self.Sections@.len() == 0
        &&& self.MergeableSections@.len() == 0
        &&& f.ElfSections2@.len() == 0
        &&& f.ElfSyms@.len() == 0
        &&& f.FirstGlobal == 0
        &&& f.SymbolStrTab@.len() == 0
        &&& f.Symbols@.len() == 0
        &&& f.LocalSymbols@.len() == 0
    }

    /// Whether the symbol table of the object is read: where the object
    /// has a symbol table section, its symbols, the position of its first
    /// global and the names it refers to; else nothing.
    pub open spec fn symtab_read(&self) -> bool {
        let f = self.inputFile;
        let c = f.File.Contents@;
        match InputFile::spec_find_section(f.ElfSections@, abi::SHT_SYMTAB, 0) {
            Some(st) => {
                &&& self.SymTabSec == Some(st as usize)
                &&& f.FirstGlobal == f.ElfSections@[st].Info
                &&& f.ElfSyms@ == spec_syms(section_bytes(c, f.ElfSections@[st]))
                &&& f.SymbolStrTab@ == section_bytes(
                    c,
                    f.ElfSections@[f.ElfSections@[st].Link as int],
                )
            },
            None => {
                &&& self.SymTabSec is None
                &&& f.FirstGlobal == 0
                &&& f.ElfSyms@.len() == 0
                &&& f.SymbolStrTab@.len() == 0
            },
        }
    }

    /// Whether the object, which stands or will stand at `o`, is parsed:
    /// its symbol table is read, its symbols are taken, it has a section
    /// for every section header that carries data for the output, alive
    /// unless mergeable, and the pieces of every mergeable section.
    pub open spec fn parsed(&self, ctx: &Context, o: int) -> bool {
        let f = self.inputFile;
        let n = f.ElfSections@.len() as int;
        &&& f.ElfSections2@.len() == 0
        &&& self.symtab_read()
        &&& self.SymtabShndxSec@ == self.spec_symtab_shndx()
        &&& self.symbols_readable()
        &&& self.symbols_taken(ctx, o)
        &&& self.hasCommon == self.has_common_global()
        &&& self.Sections@.len() == n
        &&& self.MergeableSections@.len() == n
        &&& forall|i: int|
            0 <= i < n ==> ((#[trigger] self.Sections@[i]) is Some <==> kept_type(
                f.ElfSections@[i].Type,
            ))
        &&& forall|i: int|
            0 <= i < n ==> (#[trigger] self.Sections@[i] matches Some(sec) ==> {
                &&& sec.is_loaded(*self, i)
                &&& sec.IsAlive == (f.ElfSections@[i].Flags & abi::SHF_MERGE == 0)
                &&& sec.Offset == u64::MAX
                &&& sec.relocs_loaded(*self, i, n)
                &&& ctx.section_placed(*self, i)
            })
        &&& forall|i: int|
            0 <= i < n ==> ((#[trigger] self.MergeableSections@[i]) is Some <==> self.is_mergeable(
                i,
            ))
        &&& forall|i: int|
            0 <= i < n ==> (#[trigger] self.MergeableSections@[i] matches Some(ms) ==> {
                &&& ms.is_split_of(ctx, *self, i)
                &&& ctx.mergeable_ok(ms)
            })
    }

    /// Parses the object, which will stand at `o` in the context: reads
    /// its symbol table, takes its sections and its symbols, and splits its
    /// mergeable sections. Global symbols, output sections and merged
    /// sections are made in the context as needed; nothing else in the
    /// context changes.
    #[verifier::rlimit(100)]
    pub fn Parse(&mut self, ctx: &mut Context, o: usize) -> (r: Result<(), LinkError>)
        requires
            old(ctx).wf(),
            old(self).is_unparsed(),
        ensures
            final(ctx).wf(),
            final(ctx).grows_from(*old(ctx)),
            sections_added(*old(ctx), *final(ctx)),
            *final(ctx) == (Context {
                SymbolMap: final(ctx).SymbolMap,
                OutputSections: final(ctx).OutputSections,
                MergedSections: final(ctx).MergedSections,
                ..*old(ctx)
            }),
            forall|g: int|
                0 <= g < old(ctx).SymbolMap@.len() ==> final(ctx).SymbolMap@[g] == old(ctx).SymbolMap@[g],
            symbols_added(*old(ctx), *final(ctx)),
            r is Ok ==> new_named(*old(ctx), *final(ctx), *final(self)),
            r == old(self).parse_result(),
            r is Ok ==> {
                &&& final(self).inputFile.File == old(self).inputFile.File
                &&& final(self).inputFile.Ehdr == old(self).inputFile.Ehdr
                &&& final(self).inputFile.ElfSections == old(self).inputFile.ElfSections
                &&& final(self).inputFile.Shstrtab == old(self).inputFile.Shstrtab
                &&& final(self).inputFile.IsAlive == old(self).inputFile.IsAlive
                &&& final(self).parsed(final(ctx), o as int)
                &&& final(ctx).object_ok_for(*final(self), o as int)
            },
    {
        proof {
            lemma_sections_same(*ctx, *ctx);
        }
        let ghost c = self.inputFile.File.Contents@;
        let ghost shdrs = self.inputFile.ElfSections@;
        let ghost shstrtab = self.inputFile.Shstrtab@;
        self.SymTabSec = self.inputFile.FindSection(abi::SHT_SYMTAB);
        match self.SymTabSec {
            Some(st) => {
                let symtab = self.inputFile.ElfSections[st];
                self.inputFile.FirstGlobal = symtab.Info as usize;
                match self.inputFile.FillUpElfSyms(&symtab) {
                    Ok(()) => {},
                    Err(e) => {
                        return Err(LinkError::Format);
                    },
                }
                self.inputFile.SymbolStrTab = match self.inputFile.GetBytesFromIdx(
                    symtab.Link as usize,
                ) {
                    Ok(b) => b,
                    Err(e) => {
                        return Err(LinkError::Format);
                    },
                };
                assert(self.inputFile.ElfSyms@ =~= spec_syms(section_bytes(c, shdrs[st as int])));
            },
            None => {},
        }
        assert(self.symtab_read());
        let ghost obj0 = *self;
        match self.InitSections(ctx) {
            Ok(()) => {},
            Err(e) => {
                proof {
                    lemma_sections_ok_bridge(obj0);
                }
                return Err(LinkError::Format);
            },
        }
        proof {
            lemma_sections_ok_bridge(obj0);
        }
        let ghost ctx1 = *ctx;
        let ghost obj1 = *self;
        match self.InitSymbols(ctx, o) {
            Ok(()) => {},
            Err(e) => {
                proof {
                    lemma_grows_trans(*old(ctx), ctx1, *ctx);
                    lemma_sections_trans(*old(ctx), ctx1, *ctx);
                }
                return Err(e);
            },
        }
        let ghost ctx2 = *ctx;
        let ghost obj2 = *self;
        proof {
            lemma_grows_trans(*old(ctx), ctx1, ctx2);
            lemma_sections_trans(*old(ctx), ctx1, ctx2);
            let n = shdrs.len() as int;
            assert forall|i: int| 0 <= i < n implies (
            #[trigger] obj2.Sections@[i] matches Some(sec) ==> {
                &&& sec.is_loaded(obj2, i)
                &&& sec.IsAlive
                &&& sec.Offset == u64::MAX
                &&& sec.relocs_loaded(obj2, i, n)
                &&& ctx2.section_placed(obj2, i)
            }) by {
                if let Some(sec) = obj1.Sections@[i] {
                    assert(sec.is_loaded(obj1, i));
                    assert(sec.relocs_loaded(obj1, i, n));
                    assert(ctx1.section_placed(obj1, i));
                }
            }
            assert(obj2.sections_taken(&ctx2));
            assert forall|i: int| 0 <= i < n implies #[trigger] obj2.section_ok(i)
                && obj2.relocs_ok(i) by {
                assert(obj1.section_ok(i));
            }
        }
        match self.InitMergeableSections(ctx) {
            Ok(()) => {},
            Err(e) => {
                proof {
                    lemma_grows_trans(*old(ctx), ctx2, *ctx);
                    lemma_sections_trans(*old(ctx), ctx2, *ctx);
                    lemma_mergeables_bridge(obj2, &ctx2);
                }
                return Err(LinkError::Format);
            },
        }
        proof {
            lemma_grows_trans(*old(ctx), ctx2, *ctx);
            lemma_sections_trans(*old(ctx), ctx2, *ctx);
            lemma_mergeables_bridge(obj2, &ctx2);
            assert forall|g: int|
                old(ctx).SymbolMap@.len() <= g < ctx.SymbolMap@.len() implies #[trigger] self.names_global(
                g,
            ) by {
                assert(obj2.names_global(g));
                assert(self.inputFile.Symbols == obj2.inputFile.Symbols);
            }
            let n = shdrs.len() as int;
            let f = self.inputFile;
            assert forall|i: int| 0 <= i < f.ElfSyms@.len() implies #[trigger] self.symbol_readable(
                i,
            ) by {
                assert(symbol_readable_of(
                    obj1.inputFile.FirstGlobal as int,
                    obj1.inputFile.ElfSyms@,
                    obj1.inputFile.SymbolStrTab@,
                    obj1.SymtabShndxSec@,
                    i,
                ));
            }
            assert forall|i: int| 0 <= i < n implies (
            #[trigger] self.Sections@[i] matches Some(sec) ==> {
                &&& sec.is_loaded(*self, i)
                &&& sec.IsAlive == (f.ElfSections@[i].Flags & abi::SHF_MERGE == 0)
                &&& sec.Offset == u64::MAX
                &&& sec.relocs_loaded(*self, i, n)
                &&& ctx.section_placed(*self, i)
            }) by {
                assert(self.Sections@[i] == (if obj2.is_mergeable(i) {
                    Some(InputSection { IsAlive: false, ..obj2.Sections@[i].unwrap() })
                } else {
                    obj2.Sections@[i]
                }));
                if let Some(sec) = obj2.Sections@[i] {
                    assert(sec.is_loaded(obj2, i));
                    assert(sec.relocs_loaded(obj2, i, n));
                    assert(ctx2.section_placed(obj2, i));
                }
            }
            assert forall|i: int| 0 <= i < n implies ((
            #[trigger] self.Sections@[i]) is Some <==> kept_type(f.ElfSections@[i].Type)) by {
                assert(self.Sections@[i] == (if obj2.is_mergeable(i) {
                    Some(InputSection { IsAlive: false, ..obj2.Sections@[i].unwrap() })
                } else {
                    obj2.Sections@[i]
                }));
                assert(obj2.Sections@[i] is Some <==> kept_type(f.ElfSections@[i].Type));
            }
            assert forall|i: int| 0 <= i < n implies ((
            #[trigger] self.MergeableSections@[i]) is Some <==> self.is_mergeable(i)) by {
                assert(self.Sections@[i] == (if obj2.is_mergeable(i) {
                    Some(InputSection { IsAlive: false, ..obj2.Sections@[i].unwrap() })
                } else {
                    obj2.Sections@[i]
                }));
            }
            assert forall|i: int| 0 <= i < n implies (
            #[trigger] self.MergeableSections@[i] matches Some(ms) ==> {
                &&& ms.is_split_of(ctx, *self, i)
                &&& ctx.mergeable_ok(ms)
            }) by {
                assert(self.Sections@[i] == (if obj2.is_mergeable(i) {
                    Some(InputSection { IsAlive: false, ..obj2.Sections@[i].unwrap() })
                } else {
                    obj2.Sections@[i]
                }));
                if let Some(ms) = self.MergeableSections@[i] {
                    assert(ms.is_split_of(ctx, obj2, i));
                }
            }
            assert(self.symbols_taken(ctx, o as int)) by {
                assert(obj2.symbols_taken(&ctx2, o as int));
                assert forall|k: int| 0 <= k < f.FirstGlobal implies #[trigger] f.Symbols@[k]
                    == SymbolId::Local(k as usize) && self.is_local(
                    o as int,
                    k,
                    f.LocalSymbols@[k],
                ) by {
                    assert(obj2.is_local(o as int, k, obj2.inputFile.LocalSymbols@[k]));
                    assert(self.has_section(
                        spec_shndx(self.SymtabShndxSec@, f.ElfSyms@[k], k),
                    ) == obj2.has_section(spec_shndx(obj2.SymtabShndxSec@, f.ElfSyms@[k], k))) by {
                        let sx = spec_shndx(self.SymtabShndxSec@, f.ElfSyms@[k], k);
                        if 0 <= sx < n {
                            assert(self.Sections@[sx] == (if obj2.is_mergeable(sx) {
                                Some(InputSection { IsAlive: false, ..obj2.Sections@[sx].unwrap() })
                            } else {
                                obj2.Sections@[sx]
                            }));
                        }
                    }
                }
            }
            assert(self.parsed(ctx, o as int));
            lemma_parsed_is_ok(*self, ctx, o as int);
        }
        Ok(())
    }
}

/// The two ways to say that every section can be taken say the same.
proof fn lemma_sections_ok_bridge(obj: Objectfile)
    ensures
        obj.sections_ok() == sections_ok_of(
            obj.inputFile.File.Contents@,
            obj.inputFile.ElfSections@,
            obj.inputFile.Shstrtab@,
        ),
{
    let f = obj.inputFile;
    if obj.sections_ok() {
        assert forall|i: int| 0 <= i < f.ElfSections@.len() implies #[trigger] section_ok_of(
            f.File.Contents@,
            f.ElfSections@,
            f.Shstrtab@,
            i,
        ) && relocs_ok_of(f.File.Contents@, f.ElfSections@, i) by {
            assert(obj.section_ok(i));
        }
    }
    if sections_ok_of(f.File.Contents@, f.ElfSections@, f.Shstrtab@) {
        assert forall|i: int| 0 <= i < f.ElfSections@.len() implies #[trigger] obj.section_ok(i)
            && obj.relocs_ok(i) by {
            assert(section_ok_of(f.File.Contents@, f.ElfSections@, f.Shstrtab@, i));
        }
    }
}

/// Once the sections are taken, the mergeable sections can be cut exactly
/// where the bytes of the file say so.
proof fn lemma_mergeables_bridge(obj: Objectfile, ctx: &Context)
    requires
        obj.sections_taken(ctx),
        obj.inputFile.ElfSections2@.len() == 0,
    ensures
        obj.mergeables_ok() == mergeables_ok_of(
            obj.inputFile.File.Contents@,
            obj.inputFile.ElfSections@,
        ),
{
    let f = obj.inputFile;
    let n = f.ElfSections@.len() as int;
    assert forall|i: int| 0 <= i < n implies obj.mergeable_splits(i) == mergeable_ok_of(
        f.File.Contents@,
        f.ElfSections@,
        i,
    ) by {
        assert(obj.Sections@[i] is Some <==> kept_type(f.ElfSections@[i].Type));
        if let Some(sec) = obj.Sections@[i] {
            assert(sec.is_loaded(obj, i));
        }
    }
    if obj.mergeables_ok() {
        assert forall|i: int| 0 <= i < n implies #[trigger] mergeable_ok_of(
            f.File.Contents@,
            f.ElfSections@,
            i,
        ) by {
            assert(obj.mergeable_splits(i));
        }
    }
    if mergeables_ok_of(f.File.Contents@, f.ElfSections@) {
        assert forall|i: int| 0 <= i < obj.Sections@.len() implies #[trigger] obj.mergeable_splits(
            i,
        ) by {
            assert(mergeable_ok_of(f.File.Contents@, f.ElfSections@, i));
        }
    }
}

/// What a parsed object refers to is there.
pub proof fn lemma_parsed_is_ok(obj: Objectfile, ctx: &Context, o: int)
    requires
        obj.parsed(ctx, o),
        0 <= o <= usize::MAX,
    ensures
        ctx.object_ok_for(obj, o),
{
    let f = obj.inputFile;
    assert forall|i: int|
        0 <= i < f.ElfSyms@.len() && (#[trigger] f.ElfSyms@[i]).Shndx == abi::SHN_XINDEX implies i
        < obj.SymtabShndxSec@.len() by {
        assert(obj.symbol_readable(i));
    }
    assert forall|i: int| 0 <= i < f.Symbols@.len() implies (#[trigger] f.Symbols@[i] is Local <==> i
        < f.FirstGlobal) by {}
    assert forall|k: int| 0 <= k < f.LocalSymbols@.len() implies ctx.local_ok(
        obj,
        o,
        #[trigger] f.LocalSymbols@[k],
    ) by {
        assert(f.Symbols@[k] == SymbolId::Local(k as usize));
        assert(obj.is_local(o, k, f.LocalSymbols@[k]));
    }
    assert forall|s: int| 0 <= s < obj.Sections@.len() implies (
    #[trigger] obj.Sections@[s] matches Some(sec) ==> sec.Shndx == s && sec.P2Align < 64) by {
        if let Some(sec) = obj.Sections@[s] {
            assert(sec.is_loaded(obj, s));
        }
    }
    assert(obj.shape_ok());
}

/// The section headers of a file with the bytes `c`.
pub open spec fn sections_of(c: Seq<u8>) -> Seq<Shdr> {
    Seq::new(spec_section_count(c) as nat, |i: int| spec_section(c, i))
}

/// The section names of a file with the bytes `c`.
pub open spec fn shstrtab_of(c: Seq<u8>) -> Seq<u8> {
    section_bytes(c, spec_section(c, spec_shstrndx(c)))
}

/// What making an object of a file of the type `ty` with the bytes `c`
/// gives in a link for `emulation`: a compatibility error where the file is
/// for another machine; else a format error where its headers cannot be
/// read; else what parsing it gives.
pub open spec fn object_result(
    emulation: crate::linker::elf::MachineType,
    ty: crate::linker::elf::FileType,
    c: Seq<u8>,
) -> Result<(), LinkError> {
    if spec_machine_type(ty, c) != emulation {
        Err(LinkError::Compatibility)
    } else if !readable_object(c) {
        Err(LinkError::Format)
    } else {
        parse_result_of(c, sections_of(c), shstrtab_of(c))
    }
}

impl Objectfile {
    /// Makes the object that `file` holds, which will stand at the end of
    /// the objects of the context, and parses it. `alive` says whether the
    /// object takes part in the link from the start.
    pub fn new(ctx: &mut Context, file: File, alive: bool) -> (r: Result<Objectfile, LinkError>)
        requires
            old(ctx).wf(),
        ensures
            final(ctx).wf(),
            final(ctx).grows_from(*old(ctx)),
            sections_added(*old(ctx), *final(ctx)),
            *final(ctx) == (Context {
                SymbolMap: final(ctx).SymbolMap,
                OutputSections: final(ctx).OutputSections,
                MergedSections: final(ctx).MergedSections,
                ..*old(ctx)
            }),
            forall|g: int|
                0 <= g < old(ctx).SymbolMap@.len() ==> final(ctx).SymbolMap@[g] == old(ctx).SymbolMap@[g],
            symbols_added(*old(ctx), *final(ctx)),
            r is Ok ==> new_named(*old(ctx), *final(ctx), r.unwrap()),
            r is Ok <==> object_result(old(ctx).Args.Emulation, file.Type, file.Contents@) is Ok,
            r is Err ==> Err::<(), LinkError>(r->Err_0) == object_result(
                old(ctx).Args.Emulation,
                file.Type,
                file.Contents@,
            ),
            r is Ok ==> {
                let obj = r.unwrap();
                &&& obj.inputFile.File == file
                &&& obj.inputFile.IsAlive == alive
                &&& obj.parsed(final(ctx), old(ctx).Objs@.len() as int)
                &&& final(ctx).object_ok_for(obj, old(ctx).Objs@.len() as int)
            },
    {
        proof {
            lemma_sections_same(*ctx, *ctx);
        }
        match CheckFileCompatibility(ctx.Args.Emulation, &file) {
            Ok(()) => {},
            Err(e) => {
                return Err(LinkError::Compatibility);
            },
        }
        let ghost c = file.Contents@;
        let f = match InputFile::new(file) {
            Ok(f) => f,
            Err(e) => {
                return Err(LinkError::Format);
            },
        };
        let mut obj = Objectfile {
            hasCommon: false,
            inputFile: f,
            SymTabSec: None,
            SymtabShndxSec: Vec::new(),
            Sections: Vec::new(),
            MergeableSections: Vec::new(),
        };
        obj.inputFile.IsAlive = alive;
        let o: usize = ctx.Objs.len();
        assert(obj.inputFile.ElfSections@ == sections_of(c));
        match obj.Parse(ctx, o) {
            Ok(()) => Ok(obj),
            Err(e) => Err(e),
        }
    }
}

impl Objectfile {
    /// Whether the symbol at `i` of the symbol table defines something: it
    /// is not a reference, and it is absolute, common, or lies in a section
    /// that the object keeps.
    pub open spec fn defines(&self, i: int) -> bool {
        let esym = self.inputFile.ElfSyms@[i];
        esym.Shndx != abi::SHN_UNDEF && (esym.Shndx == abi::SHN_ABS || esym.Shndx == abi::SHN_COMMON
            || self.has_section(spec_shndx(self.SymtabShndxSec@, esym, i)))
    }

    /// The section that the symbol at `i` lies in; none for an absolute or
    /// common symbol.
    pub open spec fn defining_section(&self, i: int) -> Option<usize> {
        let esym = self.inputFile.ElfSyms@[i];
        if esym.Shndx == abi::SHN_ABS || esym.Shndx == abi::SHN_COMMON {
            None
        } else {
            Some(spec_shndx(self.SymtabShndxSec@, esym, i) as usize)
        }
    }

    /// The global symbol `sym` after this object, which stands at `o`, had
    /// its turn with the symbol at `i` of its symbol table: a symbol without
    /// definer that the entry defines is bound to this object; every other
    /// symbol stays as it is.
    pub open spec fn claim(&self, sym: Symbol, o: int, i: int) -> Symbol {
        if sym.File is None && self.defines(i) {
            Symbol {
                File: Some(o as usize),
                InputSection: self.defining_section(i),
                Value: self.inputFile.ElfSyms@[i].Val,
                SymIdx: i as usize,
                SectionFragment: None,
                ..sym
            }
        } else {
            sym
        }
    }

    /// The global symbols `syms` after this object, which stands at `o`,
    /// had its turn with the first `upto` entries of its symbol table, in
    /// their order.
    pub open spec fn resolve_upto(&self, syms: Seq<Symbol>, o: int, upto: int) -> Seq<Symbol>
        decreases upto,
    {
        if upto <= self.inputFile.FirstGlobal || upto <= 0 {
            syms
        } else {
            let prev = self.resolve_upto(syms, o, upto - 1);
            match self.inputFile.Symbols@[upto - 1] {
                SymbolId::Global(g) => prev.update(
                    g as int,
                    self.claim(prev[g as int], o, upto - 1),
                ),
                SymbolId::Local(k) => prev,
            }
        }
    }

    /// Binds the global symbols that the object at `o` defines and that
    /// have no definer yet to that object: the first object to define a
    /// symbol keeps it. Nothing but global symbols changes.
    pub fn ResolveSymbols(ctx: &mut Context, o: usize)
        requires
            old(ctx).wf(),
            o < old(ctx).Objs@.len(),
        ensures
            final(ctx).wf(),
            only_symbols_changed(*old(ctx), *final(ctx)),
            final(ctx).SymbolMap@ == old(ctx).Objs@[o as int].resolve_upto(
                old(ctx).SymbolMap@,
                o as int,
                old(ctx).Objs@[o as int].inputFile.ElfSyms@.len() as int,
            ),
    {
        proof {
            lemma_wf_parts(*ctx);
        }
        let n: usize = ctx.Objs[o].inputFile.ElfSyms.len();
        let first: usize = ctx.Objs[o].inputFile.FirstGlobal;
        let mut i: usize = first;
        let ghost obj = ctx.Objs@[o as int];
        assert(ctx.object_ok(o as int));
        while i < n
            invariant
                o < ctx.Objs@.len(),
                obj == ctx.Objs@[o as int],
                old(ctx).Objs@ == ctx.Objs@,
                n == obj.inputFile.ElfSyms@.len(),
                first == obj.inputFile.FirstGlobal,
                first <= i || i == n,
                i <= n || i == first,
                old(ctx).wf(),
                old(ctx).object_ok(o as int),
                ctx.wf(),
                only_symbols_changed(*old(ctx), *ctx),
                ctx.SymbolMap@ == obj.resolve_upto(old(ctx).SymbolMap@, o as int, i as int),
            decreases n - i,
        {
            let esym = ctx.Objs[o].inputFile.ElfSyms[i];
            let id = ctx.Objs[o].inputFile.Symbols[i];
            let ghost before = *ctx;
            match id {
                SymbolId::Global(g) => {
                    let mut bind: bool = false;
                    let mut isec: Option<usize> = None;
                    if !esym.IsUndef() {
                        if !esym.IsAbs() && !esym.IsCommon() {
                            isec = ctx.Objs[o].GetSection(&esym, i);
                            bind = isec.is_some();
                        } else {
                            bind = true;
                        }
                    }
                    assert(bind == obj.defines(i as int));
                    if bind && ctx.SymbolMap[g].File.is_none() {
                        ctx.SymbolMap[g].File = Some(o);
                        ctx.SymbolMap[g].SetInputSection(isec);
                        ctx.SymbolMap[g].Value = esym.Val;
                        ctx.SymbolMap[g].SymIdx = i;
                        proof {
                            assert(ctx.SymbolMap@ =~= before.SymbolMap@.update(
                                g as int,
                                obj.claim(before.SymbolMap@[g as int], o as int, i as int),
                            ));
                            lemma_wf_parts(before);
                            assert forall|k: int| 0 <= k < ctx.SymbolMap@.len() implies ctx.symbol_ok(
                                #[trigger] ctx.SymbolMap@[k],
                            ) by {
                                assert(before.symbol_ok(before.SymbolMap@[k]));
                            }
                            lemma_wf_symbols_changed(before, *ctx);
                        }
                    } else {
                        assert(ctx.SymbolMap@ =~= before.SymbolMap@.update(
                            g as int,
                            obj.claim(before.SymbolMap@[g as int], o as int, i as int),
                        ));
                    }
                },
                SymbolId::Local(k) => {},
            }
            i = i + 1;
        }
        proof {
            if i != n {
                assert(obj.resolve_upto(old(ctx).SymbolMap@, o as int, i as int) == old(ctx).SymbolMap@);
                assert(obj.resolve_upto(old(ctx).SymbolMap@, o as int, n as int) == old(ctx).SymbolMap@);
            }
        }
    }
}

} // verus!
