//! Input files: a named run of bytes, classified by its first bytes.
use vstd::prelude::*;
use crate::linker::abi;
use crate::linker::elf::{
    FileType, MachineType, MAGIC, checkMagic, Ehdr, Shdr, Sym, ReadSyms, spec_syms,
};
use crate::linker::symbol::{Symbol, SymbolId};
use crate::linker::context::{
    Context, lemma_sections_frame, lemma_sections_same, lemma_sections_trans,
    lemma_symbols_added_trans, sections_added, symbols_added,
};
use crate::linker::objectfile::{Objectfile, new_named, object_result};
use crate::linker::archive::{ReadArchiveMembers, spec_members};
use crate::utils::Slice;
use crate::linker::error::LinkError;
use crate::utils::{ReadU16, starts_with, spec_u16_le, spec_u64_le};

verus! {

/// The eight bytes every archive starts with: `!<arch>` and a line feed.
pub open spec fn AR_IDENT() -> Seq<u8> {
    seq![0x21u8, 0x3cu8, 0x61u8, 0x72u8, 0x63u8, 0x68u8, 0x3eu8, 0x0au8]
}

/// Whether `s` starts with the archive magic.
pub fn checkArMagic(s: &[u8]) -> (r: bool)
    ensures
        r == starts_with(s@, AR_IDENT()),
{
    let r = s.len() >= 8 && s[0] == 0x21 && s[1] == 0x3c && s[2] == 0x61 && s[3] == 0x72 && s[4]
        == 0x63 && s[5] == 0x68 && s[6] == 0x3e && s[7] == 0x0a;
    proof {
        if s.len() >= 8 {
            let p = s@.subrange(0, 8);
            assert(p[0] == s@[0] && p[1] == s@[1] && p[2] == s@[2] && p[3] == s@[3]);
            assert(p[4] == s@[4] && p[5] == s@[5] && p[6] == s@[6] && p[7] == s@[7]);
            if r {
                assert(p =~= AR_IDENT());
            }
        }
    }
    r
}

/// What kind of file the bytes `s` are: nothing at all, a relocatable
/// object (the ELF magic and file type 1), an archive, or something else.
pub open spec fn classify(s: Seq<u8>) -> FileType {
    if s.len() == 0 {
        FileType::FileTypeEmpty
    } else if starts_with(s, MAGIC()) {
        if s.len() >= 18 && spec_u16_le(s, 16) == abi::ET_REL {
            FileType::FileTypeObject
        } else {
            FileType::FileTypeUnknown
        }
    } else if starts_with(s, AR_IDENT()) {
        FileType::FileTypeArchive
    } else {
        FileType::FileTypeUnknown
    }
}

/// A file held in memory. `Parent` names the archive that a member came
/// out of.
#[derive(Debug)]
pub struct File {
    pub Name: Vec<u8>,
    pub Contents: Vec<u8>,
    pub Type: FileType,
    pub Parent: Option<Vec<u8>>,
}

impl File {
    /// The invariant of a file: its type is what its bytes say.
    pub open spec fn wf(&self) -> bool {
        self.Type == classify(self.Contents@)
    }

    /// Takes the bytes of a file and classifies them.
    pub fn new(name: Vec<u8>, contents: Vec<u8>, parent: Option<Vec<u8>>) -> (r: File)
        ensures
            r.Name == name,
            r.Contents == contents,
            r.Parent == parent,
            r.Type == classify(contents@),
            r.wf(),
    {
        let ft: FileType = if contents.len() == 0 {
            FileType::FileTypeEmpty
        } else if checkMagic(contents.as_slice()) {
            if contents.len() >= 18 && ReadU16(contents.as_slice(), 16) == abi::ET_REL {
                FileType::FileTypeObject
            } else {
                FileType::FileTypeUnknown
            }
        } else if checkArMagic(contents.as_slice()) {
            FileType::FileTypeArchive
        } else {
            FileType::FileTypeUnknown
        };
        File { Name: name, Contents: contents, Type: ft, Parent: parent }
    }
}

/// The machine that an object was compiled for, as far as this linker
/// knows machines.
pub open spec fn spec_machine_type(ty: FileType, s: Seq<u8>) -> MachineType {
    if ty == FileType::FileTypeObject && s.len() >= 20 && spec_u16_le(s, 18) == abi::EM_RISCV
        && s[4] == abi::ELFCLASS64 {
        MachineType::MachineTypeRISCV64
    } else {
        MachineType::MachineTypeNone
    }
}

/// The machine that `file` was compiled for: RISC-V 64 for an object whose
/// header says so, none for everything else.
pub fn GetMachineType(file: &File) -> (r: MachineType)
    ensures
        r == spec_machine_type(file.Type, file.Contents@),
{
    match file.Type {
        FileType::FileTypeObject => {
            if file.Contents.len() >= 20 && ReadU16(file.Contents.as_slice(), 18) == abi::EM_RISCV
                && file.Contents[abi::EI_CLASS] == abi::ELFCLASS64 {
                MachineType::MachineTypeRISCV64
            } else {
                MachineType::MachineTypeNone
            }
        },
        _ => MachineType::MachineTypeNone,
    }
}

/// Accepts `file` for a link that targets `emulation`: its machine type has
/// to be that emulation.
pub fn CheckFileCompatibility(emulation: MachineType, file: &File) -> (r: Result<(), LinkError>)
    ensures
        r is Ok <==> spec_machine_type(file.Type, file.Contents@) == emulation,
        r is Err ==> r == Err::<(), LinkError>(LinkError::Compatibility),
{
    if GetMachineType(file) == emulation {
        Ok(())
    } else {
        Err(LinkError::Compatibility)
    }
}

/// An object file with what its header and its table of section headers
/// say. `ElfSections2` holds the headers of sections that the linker makes
/// up for the object; `Symbols` says for each entry of `ElfSyms` where the
/// symbol lives.
#[derive(Debug)]
pub struct InputFile {
    pub File: File,
    pub Ehdr: Ehdr,
    pub ElfSections: Vec<Shdr>,
    pub ElfSections2: Vec<Shdr>,
    pub ElfSyms: Vec<Sym>,
    pub FirstGlobal: usize,
    pub Shstrtab: Vec<u8>,
    pub SymbolStrTab: Vec<u8>,
    pub IsAlive: bool,
    pub Symbols: Vec<SymbolId>,
    pub LocalSymbols: Vec<Symbol>,
}

/// The bytes of `s` that the section header `h` covers lie inside `s`.
pub open spec fn in_file(s: Seq<u8>, h: Shdr) -> bool {
    h.Offset + h.Size <= s.len()
}

/// The bytes of `s` that the section header `h` covers.
pub open spec fn section_bytes(s: Seq<u8>, h: Shdr) -> Seq<u8> {
    s.subrange(h.Offset as int, h.Offset + h.Size)
}

/// How many section headers the file `s` has. A count of 0 in the file
/// header means that the size field of the first section header holds the
/// count; the first section header is always read.
pub open spec fn spec_section_count(s: Seq<u8>) -> int {
    let shoff = spec_u64_le(s, 40);
    let shnum = spec_u16_le(s, 60);
    let n: int = if shnum == 0 {
        Shdr::decode(s, shoff as int).Size as int
    } else {
        shnum as int
    };
    if n < 1 {
        1
    } else {
        n
    }
}

/// Which section holds the names of the sections of the file `s`. The
/// escape value 0xffff in the file header means that the link field of the
/// first section header holds the position.
pub open spec fn spec_shstrndx(s: Seq<u8>) -> int {
    let shoff = spec_u64_le(s, 40);
    let ndx = spec_u16_le(s, 62);
    if ndx == abi::SHN_XINDEX {
        Shdr::decode(s, shoff as int).Link as int
    } else {
        ndx as int
    }
}

/// The `i`-th section header of the file `s`.
pub open spec fn spec_section(s: Seq<u8>, i: int) -> Shdr {
    Shdr::decode(s, spec_u64_le(s, 40) + 64 * i)
}

/// Whether the file `s` can be read as an object: an acceptable file
/// header, a table of section headers that lies inside the file, and a
/// section of section names that exists and lies inside the file.
pub open spec fn readable_object(s: Seq<u8>) -> bool {
    &&& Ehdr::acceptable(s)
    &&& spec_u64_le(s, 40) + 64 * spec_section_count(s) <= s.len()
    &&& spec_shstrndx(s) < spec_section_count(s)
    &&& in_file(s, spec_section(s, spec_shstrndx(s)))
}

impl InputFile {
    /// The first section of type `ty`.
    pub open spec fn spec_find_section(sections: Seq<Shdr>, ty: u32, from: int) -> Option<int>
        decreases sections.len() - from,
    {
        if from < 0 || from >= sections.len() {
            None
        } else if sections[from].Type == ty {
            Some(from)
        } else {
            Self::spec_find_section(sections, ty, from + 1)
        }
    }

    /// Whether this is the file `file` as it is read at first: the file
    /// header and the table of section headers decoded, the names of the
    /// sections taken, every other table empty, not alive.
    pub open spec fn opened_from(&self, file: File) -> bool {
        let s = file.Contents@;
        &&& self.File == file
        &&& Ehdr::decodes(s, self.Ehdr)
        &&& self.ElfSections@ == Seq::new(
            spec_section_count(s) as nat,
            |i: int| spec_section(s, i),
        )
        &&& self.Shstrtab@ == section_bytes(s, spec_section(s, spec_shstrndx(s)))
        &&& self.ElfSections2@.len() == 0
        &&& self.ElfSyms@.len() == 0
        &&& self.FirstGlobal == 0
        &&& self.SymbolStrTab@.len() == 0
        &&& !self.IsAlive
        &&& self.Symbols@.len() == 0
        &&& self.LocalSymbols@.len() == 0
    }

    /// Reads the file header and the table of section headers of `file`,
    /// and the names of its sections. Nothing else of the object is set.
    pub fn new(file: File) -> (r: Result<InputFile, LinkError>)
        ensures
            r is Ok <==> readable_object(file.Contents@),
            r is Err ==> r == Err::<InputFile, LinkError>(LinkError::Format),
            r is Ok ==> r.unwrap().opened_from(file),
    {
        let ehdr = match Ehdr::Read(file.Contents.as_slice()) {
            Ok(e) => e,
            Err(e) => {
                return Err(LinkError::Format);
            },
        };
        let data: &[u8] = file.Contents.as_slice();
        let len: usize = data.len();
        if ehdr.ShOff > len as u64 || (len as u64 - ehdr.ShOff) < 64 {
            return Err(LinkError::Format);
        }
        let shoff: usize = ehdr.ShOff as usize;
        let first = Shdr::Read(data, shoff);
        let mut count: u64 = if ehdr.ShNum == 0 {
            first.Size
        } else {
            ehdr.ShNum as u64
        };
        if count < 1 {
            count = 1;
        }
        if count > ((len - shoff) / 64) as u64 {
            return Err(LinkError::Format);
        }
        let n: usize = count as usize;
        let mut sections: Vec<Shdr> = Vec::with_capacity(n);
        let mut i: usize = 0;
        while i < n
            invariant
                i <= n,
                shoff + 64 * n <= len,
                len == data.len(),
                sections@.len() == i,
                forall|j: int| 0 <= j < i ==> sections@[j] == Shdr::decode(data@, shoff + 64 * j),
            decreases n - i,
        {
            sections.push(Shdr::Read(data, shoff + 64 * i));
            i = i + 1;
        }
        assert(sections@ =~= Seq::new(
            spec_section_count(data@) as nat,
            |i: int| spec_section(data@, i),
        ));
        let shstrndx: u64 = if ehdr.ShStrndx == abi::SHN_XINDEX {
            first.Link as u64
        } else {
            ehdr.ShStrndx as u64
        };
        if shstrndx >= count {
            return Err(LinkError::Format);
        }
        let sh = sections[shstrndx as usize];
        let names = match Slice(data, sh.Offset, sh.Size) {
            Some(b) => b,
            None => {
                return Err(LinkError::Format);
            },
        };
        Ok(
            InputFile {
                File: file,
                Ehdr: ehdr,
                ElfSections: sections,
                ElfSections2: Vec::new(),
                ElfSyms: Vec::new(),
                FirstGlobal: 0,
                Shstrtab: names,
                SymbolStrTab: Vec::new(),
                IsAlive: false,
                Symbols: Vec::new(),
                LocalSymbols: Vec::new(),
            },
        )
    }

    /// The position of the first section of type `ty`.
    pub fn FindSection(&self, ty: u32) -> (r: Option<usize>)
        ensures
            r is Some <==> Self::spec_find_section(self.ElfSections@, ty, 0) is Some,
            r is Some ==> r.unwrap() == Self::spec_find_section(self.ElfSections@, ty, 0).unwrap(),
            r is Some ==> r.unwrap() < self.ElfSections@.len() && self.ElfSections@[r.unwrap() as int].Type
                == ty,
    {
        let n: usize = self.ElfSections.len();
        let mut i: usize = 0;
        while i < n
            invariant
                i <= n,
                n == self.ElfSections@.len(),
                Self::spec_find_section(self.ElfSections@, ty, 0) == Self::spec_find_section(
                    self.ElfSections@,
                    ty,
                    i as int,
                ),
            decreases n - i,
        {
            if self.ElfSections[i].Type == ty {
                return Some(i);
            }
            i = i + 1;
        }
        None
    }

    /// The bytes of the file that the section header `s` covers. A section
    /// that does not lie inside the file is a format error.
    pub fn GetBytesFromShdr(&self, s: &Shdr) -> (r: Result<Vec<u8>, LinkError>)
        ensures
            r is Ok <==> in_file(self.File.Contents@, *s),
            r is Ok ==> r.unwrap()@ == section_bytes(self.File.Contents@, *s),
            r is Err ==> r == Err::<Vec<u8>, LinkError>(LinkError::Format),
    {
        match Slice(self.File.Contents.as_slice(), s.Offset, s.Size) {
            Some(b) => Ok(b),
            None => Err(LinkError::Format),
        }
    }

    /// The bytes of the section at `idx`. A position behind the last
    /// section is a format error, as is a section outside the file.
    pub fn GetBytesFromIdx(&self, idx: usize) -> (r: Result<Vec<u8>, LinkError>)
        ensures
            r is Ok <==> idx < self.ElfSections@.len() && in_file(
                self.File.Contents@,
                self.ElfSections@[idx as int],
            ),
            r is Ok ==> r.unwrap()@ == section_bytes(
                self.File.Contents@,
                self.ElfSections@[idx as int],
            ),
            r is Err ==> r == Err::<Vec<u8>, LinkError>(LinkError::Format),
    {
        if idx >= self.ElfSections.len() {
            return Err(LinkError::Format);
        }
        let sh = self.ElfSections[idx];
        self.GetBytesFromShdr(&sh)
    }

    /// Reads the symbols of the symbol table `symtab` and appends them to
    /// the symbols read so far.
    pub fn FillUpElfSyms(&mut self, symtab: &Shdr) -> (r: Result<(), LinkError>)
        ensures
            r is Ok <==> in_file(old(self).File.Contents@, *symtab),
            r is Err ==> r == Err::<(), LinkError>(LinkError::Format) && *final(self) == *old(self),
            r is Ok ==> *final(self) == (InputFile { ElfSyms: final(self).ElfSyms, ..*old(self) }),
            r is Ok ==> final(self).ElfSyms@ == old(self).ElfSyms@ + spec_syms(
                section_bytes(old(self).File.Contents@, *symtab),
            ),
    {
        let bytes = match self.GetBytesFromShdr(symtab) {
            Ok(b) => b,
            Err(e) => {
                return Err(LinkError::Format);
            },
        };
        let mut syms = ReadSyms(bytes.as_slice());
        self.ElfSyms.append(&mut syms);
        Ok(())
    }

    /// The file header of the object.
    pub fn GetEhdr(&self) -> (r: Ehdr)
        ensures
            r == self.Ehdr,
    {
        self.Ehdr
    }
}

/// Reads the file header and the table of section headers of `file`, and
/// the names of its sections. Nothing else of the object is set.
pub fn NewInputFile(file: File) -> (r: Result<InputFile, LinkError>)
    ensures
        r is Ok <==> readable_object(file.Contents@),
        r is Err ==> r == Err::<InputFile, LinkError>(LinkError::Format),
        r is Ok ==> r.unwrap().opened_from(file),
{
    InputFile::new(file)
}

/// Whether the objects of `new` are those of `old` and behind them `k`
/// more.
pub open spec fn objects_added(old: Context, new: Context, k: int) -> bool {
    &&& new.Objs@.len() == old.Objs@.len() + k
    &&& new.Objs@.subrange(0, old.Objs@.len() as int) == old.Objs@
}

/// Makes the object that `file` holds, parses it and appends it to the
/// objects of the context. Where that fails no object is appended.
#[verifier::rlimit(100)]
pub fn AddObject(ctx: &mut Context, file: File, alive: bool) -> (r: Result<(), LinkError>)
    requires
        old(ctx).wf(),
    ensures
        final(ctx).wf(),
        final(ctx).grows_from(*old(ctx)),
        sections_added(*old(ctx), *final(ctx)),
        *final(ctx) == (Context {
            Objs: final(ctx).Objs,
            SymbolMap: final(ctx).SymbolMap,
            OutputSections: final(ctx).OutputSections,
            MergedSections: final(ctx).MergedSections,
            ..*old(ctx)
        }),
        symbols_added(*old(ctx), *final(ctx)),
        r == object_result(old(ctx).Args.Emulation, file.Type, file.Contents@),
        r is Err ==> final(ctx).Objs@ == old(ctx).Objs@,
        r is Ok ==> {
            let o = old(ctx).Objs@.len() as int;
            &&& objects_added(*old(ctx), *final(ctx), 1)
            &&& final(ctx).Objs@[o].inputFile.File == file
            &&& final(ctx).Objs@[o].inputFile.IsAlive == alive
            &&& final(ctx).Objs@[o].parsed(final(ctx), o)
            &&& new_named(*old(ctx), *final(ctx), final(ctx).Objs@[o])
        },
{
    proof {
        lemma_sections_same(*ctx, *ctx);
    }
    let obj = match Objectfile::new(ctx, file, alive) {
        Ok(o) => o,
        Err(e) => {
            return Err(e);
        },
    };
    let ghost before = *ctx;
    let ghost o = ctx.Objs@.len() as int;
    ctx.Objs.push(obj);
    proof {
        reveal(Context::wf);
        lemma_sections_frame(*old(ctx), before, *ctx);
        assert(ctx.Objs@.subrange(0, o) =~= old(ctx).Objs@);
        assert forall|k: int| 0 <= k < ctx.Objs@.len() implies #[trigger] ctx.object_ok(k) by {
            if k < o {
                assert(before.object_ok(k));
                assert(ctx.Objs@[k] == before.Objs@[k]);
                crate::linker::context::lemma_object_ok_grows(before, *ctx, ctx.Objs@[k], k);
            } else {
                crate::linker::context::lemma_object_ok_grows(before, *ctx, obj, k);
            }
        }
        assert forall|g: int| 0 <= g < ctx.SymbolMap@.len() implies ctx.symbol_ok(
            #[trigger] ctx.SymbolMap@[g],
        ) by {
            assert(before.symbol_ok(before.SymbolMap@[g]));
            let sym = ctx.SymbolMap@[g];
            if let Some(s) = sym.InputSection {
                assert(before.section_exists(sym.File.unwrap() as int, s as int));
                assert(ctx.Objs@[sym.File.unwrap() as int] == before.Objs@[sym.File.unwrap() as int]);
            }
        }
        assert forall|i: int, k: int|
            0 <= i < ctx.OutputSections@.len() && 0 <= k
                < ctx.OutputSections@[i].Members@.len() implies ctx.section_exists(
            (#[trigger] ctx.OutputSections@[i].Members@[k]).Obj as int,
            ctx.OutputSections@[i].Members@[k].Sec as int,
        ) by {
            let m = ctx.OutputSections@[i].Members@[k];
            assert(before.section_exists(m.Obj as int, m.Sec as int));
            assert(ctx.Objs@[m.Obj as int] == before.Objs@[m.Obj as int]);
        }
        assert(ctx.Objs@[o].parsed(ctx, o)) by {
            assert(obj.parsed(&before, o));
            lemma_parsed_frame(obj, &before, ctx, o);
        }
    }
    Ok(())
}

/// Whether an object is parsed does not depend on the objects of the
/// context.
pub proof fn lemma_parsed_frame(obj: Objectfile, a: &Context, b: &Context, o: int)
    requires
        obj.parsed(a, o),
        a.SymbolMap == b.SymbolMap,
        a.OutputSections == b.OutputSections,
        a.MergedSections == b.MergedSections,
    ensures
        obj.parsed(b, o),
{
    let n = obj.inputFile.ElfSections@.len() as int;
    assert forall|i: int| 0 <= i < n implies (#[trigger] obj.Sections@[i] matches Some(sec) ==> {
        &&& sec.is_loaded(obj, i)
        &&& sec.IsAlive == (obj.inputFile.ElfSections@[i].Flags & abi::SHF_MERGE == 0)
        &&& sec.Offset == u64::MAX
        &&& sec.relocs_loaded(obj, i, n)
        &&& b.section_placed(obj, i)
    }) by {
        if let Some(sec) = obj.Sections@[i] {
            assert(a.section_placed(obj, i));
        }
    }
    assert forall|i: int| 0 <= i < n implies (
    #[trigger] obj.MergeableSections@[i] matches Some(ms) ==> {
        &&& ms.is_split_of(b, obj, i)
        &&& b.mergeable_ok(ms)
    }) by {
        if let Some(ms) = obj.MergeableSections@[i] {
            assert(ms.is_split_of(a, obj, i));
            assert(a.mergeable_ok(ms));
        }
    }
    assert(obj.symbols_taken(b, o)) by {
        assert(obj.symbols_taken(a, o));
    }
}

/// An object stays parsed while the context grows and keeps its global
/// symbols.
pub proof fn lemma_parsed_grows(obj: Objectfile, a: &Context, b: &Context, o: int)
    requires
        obj.parsed(a, o),
        b.grows_from(*a),
        symbols_added(*a, *b),
    ensures
        obj.parsed(b, o),
{
    let n = obj.inputFile.ElfSections@.len() as int;
    assert forall|i: int| 0 <= i < n implies (#[trigger] obj.Sections@[i] matches Some(sec) ==> {
        &&& sec.is_loaded(obj, i)
        &&& sec.IsAlive == (obj.inputFile.ElfSections@[i].Flags & abi::SHF_MERGE == 0)
        &&& sec.Offset == u64::MAX
        &&& sec.relocs_loaded(obj, i, n)
        &&& b.section_placed(obj, i)
    }) by {
        if let Some(sec) = obj.Sections@[i] {
            assert(a.section_placed(obj, i));
        }
    }
    assert forall|i: int| 0 <= i < n implies (
    #[trigger] obj.MergeableSections@[i] matches Some(ms) ==> {
        &&& ms.is_split_of(b, obj, i)
        &&& b.mergeable_ok(ms)
    }) by {
        if let Some(ms) = obj.MergeableSections@[i] {
            assert(ms.is_split_of(a, obj, i));
            assert(a.mergeable_ok(ms));
        }
    }
    assert(obj.symbols_taken(b, o)) by {
        assert(obj.symbols_taken(a, o));
        let f = obj.inputFile;
        assert forall|i: int| f.FirstGlobal <= i < f.ElfSyms@.len() implies (
        #[trigger] f.Symbols@[i] matches SymbolId::Global(g) && g < b.SymbolMap@.len()
            && b.SymbolMap@[g as int].Name@ == obj.symbol_name(i)) by {
            if let SymbolId::Global(g) = f.Symbols@[i] {
                assert(b.SymbolMap@[g as int] == a.SymbolMap@[g as int]);
            }
        }
    }
}

/// Whether the objects of `ctx` from `from` up to `to` are parsed: each
/// has the sections, the symbols and the pieces of mergeable sections that
/// the bytes of its file describe.
pub open spec fn objects_parsed(ctx: Context, from: int, to: int) -> bool {
    forall|o: int| from <= o < to ==> (#[trigger] ctx.Objs@[o]).parsed(&ctx, o)
}

/// Whether an object of `ctx` from `from` on names the global symbol at
/// `g` in its symbol table.
pub open spec fn named_behind(ctx: Context, from: int, g: int) -> bool {
    exists|o: int| from <= o < ctx.Objs@.len() && (#[trigger] ctx.Objs@[o]).names_global(g)
}

/// Whether every global symbol that `new` holds behind those of `old` is
/// named by an object that `new` holds behind those of `old`: no symbol
/// came that no object asked for.
pub open spec fn symbols_named(old: Context, new: Context) -> bool {
    forall|g: int|
        old.SymbolMap@.len() <= g < new.SymbolMap@.len() ==> #[trigger] named_behind(
            new,
            old.Objs@.len() as int,
            g,
        )
}

/// Symbols that objects asked for stay asked for while more objects come,
/// which ask for the symbols that come with them.
proof fn lemma_named_grow(start: Context, before: Context, after: Context)
    requires
        symbols_named(start, before),
        symbols_named(before, after),
        start.Objs@.len() <= before.Objs@.len() <= after.Objs@.len(),
        after.Objs@.subrange(0, before.Objs@.len() as int) == before.Objs@,
        start.SymbolMap@.len() <= before.SymbolMap@.len() <= after.SymbolMap@.len(),
    ensures
        symbols_named(start, after),
{
    assert forall|g: int|
        start.SymbolMap@.len() <= g < after.SymbolMap@.len() implies #[trigger] named_behind(
        after,
        start.Objs@.len() as int,
        g,
    ) by {
        if g < before.SymbolMap@.len() {
            assert(named_behind(before, start.Objs@.len() as int, g));
            let o = choose|o: int|
                start.Objs@.len() <= o < before.Objs@.len() && (
                #[trigger] before.Objs@[o]).names_global(g);
            assert(after.Objs@.subrange(0, before.Objs@.len() as int)[o] == after.Objs@[o]);
            assert(after.Objs@[o].names_global(g));
        } else {
            assert(named_behind(after, before.Objs@.len() as int, g));
            let o = choose|o: int|
                before.Objs@.len() <= o < after.Objs@.len() && (#[trigger] after.Objs@[o]).names_global(
                    g,
                );
            assert(after.Objs@[o].names_global(g));
        }
    }
}

/// The one object that came names the symbols that came with it.
proof fn lemma_named_one(before: Context, after: Context)
    requires
        after.Objs@.len() == before.Objs@.len() + 1,
        new_named(before, after, after.Objs@[before.Objs@.len() as int]),
    ensures
        symbols_named(before, after),
{
    assert forall|g: int|
        before.SymbolMap@.len() <= g < after.SymbolMap@.len() implies #[trigger] named_behind(
        after,
        before.Objs@.len() as int,
        g,
    ) by {
        let o = before.Objs@.len() as int;
        assert(after.Objs@[o].names_global(g));
    }
}

/// Objects stay parsed while objects come behind them and the context
/// grows, and the objects that come are parsed too.
proof fn lemma_objects_parsed_grow(a: Context, b: Context, from: int, mid: int)
    requires
        0 <= from <= mid,
        mid == a.Objs@.len(),
        objects_parsed(a, from, mid),
        b.grows_from(a),
        symbols_added(a, b),
        b.Objs@.len() >= mid,
        b.Objs@.subrange(0, mid) == a.Objs@,
        objects_parsed(b, mid, b.Objs@.len() as int),
    ensures
        objects_parsed(b, from, b.Objs@.len() as int),
{
    assert forall|o: int| from <= o < b.Objs@.len() implies (#[trigger] b.Objs@[o]).parsed(&b, o) by {
        if o < mid {
            assert(b.Objs@.subrange(0, mid)[o] == b.Objs@[o]);
            assert(a.Objs@[o].parsed(&a, o));
            lemma_parsed_grows(a.Objs@[o], &a, &b, o);
        }
    }
}

/// Whether the `k` objects from `from` on in `ctx` are the files `members`
/// in their order, parsed, each with the liveness `alive`.
pub open spec fn objects_are(ctx: Context, from: int, members: Seq<File>, alive: bool) -> bool {
    forall|k: int|
        0 <= k < members.len() ==> {
            &&& (#[trigger] ctx.Objs@[from + k]).inputFile.File == members[k]
            &&& ctx.Objs@[from + k].inputFile.IsAlive == alive
        }
}

/// What taking the members of an archive from the `k`-th on into a link
/// for `emulation` gives: the error of the first member that is no object
/// or that cannot be made an object; nothing where there is none.
pub open spec fn archive_result(
    emulation: MachineType,
    members: Seq<(Seq<u8>, Seq<u8>)>,
    k: int,
) -> Result<(), LinkError>
    decreases members.len() - k,
{
    if k < 0 || k >= members.len() {
        Ok(())
    } else if classify(members[k].1) != FileType::FileTypeObject {
        Err(LinkError::Format)
    } else if object_result(emulation, FileType::FileTypeObject, members[k].1) is Err {
        object_result(emulation, FileType::FileTypeObject, members[k].1)
    } else {
        archive_result(emulation, members, k + 1)
    }
}

/// What taking a file of the type `ty` with the bytes `c` into a link for
/// `emulation` gives: for an object what making the object gives; for an
/// archive a format error where its members cannot be read, else what
/// taking its members gives; for any other file a format error.
pub open spec fn file_result(emulation: MachineType, ty: FileType, c: Seq<u8>) -> Result<
    (),
    LinkError,
> {
    if ty == FileType::FileTypeObject {
        object_result(emulation, ty, c)
    } else if ty == FileType::FileTypeArchive {
        if starts_with(c, AR_IDENT()) && spec_members(c, 8, Seq::empty()) is Some {
            archive_result(emulation, spec_members(c, 8, Seq::empty()).unwrap(), 0)
        } else {
            Err(LinkError::Format)
        }
    } else {
        Err(LinkError::Format)
    }
}

/// What taking the files from the `k`-th on into a link for `emulation`
/// gives: the error of the first file that fails; nothing where none does.
pub open spec fn inputs_result(emulation: MachineType, files: Seq<File>, k: int) -> Result<
    (),
    LinkError,
>
    decreases files.len() - k,
{
    if k < 0 || k >= files.len() {
        Ok(())
    } else if file_result(emulation, files[k].Type, files[k].Contents@) is Err {
        file_result(emulation, files[k].Type, files[k].Contents@)
    } else {
        inputs_result(emulation, files, k + 1)
    }
}

/// The objects that the file `f` brings into a link, in their order, each
/// with the name and the bytes of its file and whether it is alive from
/// the start: an object brings itself, alive; an archive brings its
/// members, not alive.
pub open spec fn file_units(f: File) -> Seq<(Seq<u8>, Seq<u8>, bool)> {
    if f.Type == FileType::FileTypeObject {
        seq![(f.Name@, f.Contents@, true)]
    } else if f.Type == FileType::FileTypeArchive && spec_members(f.Contents@, 8, Seq::empty())
        is Some {
        let m = spec_members(f.Contents@, 8, Seq::empty()).unwrap();
        Seq::new(m.len(), |k: int| (m[k].0, m[k].1, false))
    } else {
        Seq::empty()
    }
}

/// The objects that the first `upto` of the files `files` bring into a
/// link, in their order.
pub open spec fn input_units(files: Seq<File>, upto: int) -> Seq<(Seq<u8>, Seq<u8>, bool)>
    decreases upto,
{
    if upto <= 0 {
        Seq::empty()
    } else {
        input_units(files, upto - 1) + file_units(files[upto - 1])
    }
}

/// Whether the objects of `ctx` from `from` on are `units`, in their
/// order.
pub open spec fn units_are(ctx: Context, from: int, units: Seq<(Seq<u8>, Seq<u8>, bool)>) -> bool {
    forall|k: int|
        0 <= k < units.len() ==> {
            let unit = #[trigger] units[k];
            let obj = ctx.Objs@[from + k];
            &&& obj.inputFile.File.Name@ == unit.0
            &&& obj.inputFile.File.Contents@ == unit.1
            &&& obj.inputFile.IsAlive == unit.2
        }
}

/// Whether `new` is the context `old` after the file `file` was taken
/// into the link with the outcome `r`: an object brought itself, alive; an
/// archive brought its members, not alive; each object that came is
/// parsed; the global symbols that the objects name came behind those
/// that were there, blank but for their names, and none that no object
/// names; the output sections and merged sections that the objects go to
/// came behind those that were there, as they are made. Any other file is
/// a format error and changes nothing.
pub open spec fn file_read(old: Context, file: File, r: Result<(), LinkError>, new: Context) -> bool {
    &&& new.grows_from(old)
    &&& sections_added(old, new)
    &&& symbols_added(old, new)
    &&& new == (Context {
        Objs: new.Objs,
        SymbolMap: new.SymbolMap,
        OutputSections: new.OutputSections,
        MergedSections: new.MergedSections,
        ..old
    })
    &&& new.Objs@.len() >= old.Objs@.len()
    &&& new.Objs@.subrange(0, old.Objs@.len() as int) == old.Objs@
    &&& r == file_result(old.Args.Emulation, file.Type, file.Contents@)
    &&& file.Type == FileType::FileTypeObject && r is Ok ==> objects_are(
        new,
        old.Objs@.len() as int,
        seq![file],
        true,
    )
    &&& file.Type == FileType::FileTypeArchive && r is Ok ==> spec_members(
        file.Contents@,
        8,
        Seq::empty(),
    ) is Some
    &&& file.Type != FileType::FileTypeObject && file.Type != FileType::FileTypeArchive ==> r
        == Err::<(), LinkError>(LinkError::Format) && new == old
    &&& r is Ok ==> objects_added(old, new, file_units(file).len() as int)
    &&& r is Ok ==> units_are(new, old.Objs@.len() as int, file_units(file))
    &&& r is Ok ==> objects_parsed(new, old.Objs@.len() as int, new.Objs@.len() as int)
    &&& r is Ok ==> symbols_named(old, new)
}

/// Takes the objects of one input file into the link: the object itself,
/// alive, where the file is an object; the members of the archive, each
/// of which has to be an object, not alive, where the file is an archive.
/// Any other file is a format error.
pub fn ReadFile(ctx: &mut Context, file: File) -> (r: Result<(), LinkError>)
    requires
        old(ctx).wf(),
    ensures
        final(ctx).wf(),
        file_read(*old(ctx), file, r, *final(ctx)),
{
    match file.Type {
        FileType::FileTypeObject => ReadObject(ctx, file),
        FileType::FileTypeArchive => ReadArchive(ctx, file),
        _ => {
            proof {
                lemma_sections_same(*ctx, *ctx);
                crate::linker::context::lemma_grows_trans(*ctx, *ctx, *ctx);
                assert(ctx.Objs@.subrange(0, ctx.Objs@.len() as int) =~= ctx.Objs@);
            }
            Err(LinkError::Format)
        },
    }
}

/// Takes the object that `file` holds into the link, alive.
#[verifier::rlimit(100)]
fn ReadObject(ctx: &mut Context, file: File) -> (r: Result<(), LinkError>)
    requires
        old(ctx).wf(),
        file.Type == FileType::FileTypeObject,
    ensures
        final(ctx).wf(),
        file_read(*old(ctx), file, r, *final(ctx)),
{
    proof {
        lemma_sections_same(*ctx, *ctx);
    }
    let ghost f = file;
    let r = AddObject(ctx, file, true);
    proof {
        let n = old(ctx).Objs@.len() as int;
        if r is Ok {
            assert(seq![f][0] == f);
            assert(file_units(f) =~= seq![(f.Name@, f.Contents@, true)]);
            assert(file_units(f)[0] == (f.Name@, f.Contents@, true));
            lemma_named_one(*old(ctx), *ctx);
            assert(objects_added(*old(ctx), *ctx, 1));
            assert(units_are(*ctx, n, file_units(f)));
            assert(objects_are(*ctx, n, seq![f], true));
            assert(objects_parsed(*ctx, n, ctx.Objs@.len() as int));
        } else {
            assert(ctx.Objs@.subrange(0, n) =~= old(ctx).Objs@);
        }
        assert(r == file_result(old(ctx).Args.Emulation, f.Type, f.Contents@));
    }
    r
}

/// Takes the members of the archive that `file` holds into the link, in
/// their order, not alive, and stops at the first that is no object or
/// cannot be made one.
#[verifier::rlimit(100)]
fn ReadArchive(ctx: &mut Context, file: File) -> (r: Result<(), LinkError>)
    requires
        old(ctx).wf(),
        file.Type == FileType::FileTypeArchive,
    ensures
        final(ctx).wf(),
        file_read(*old(ctx), file, r, *final(ctx)),
{
    proof {
        lemma_sections_same(*ctx, *ctx);
    }
    let mut rest = match ReadArchiveMembers(&file) {
        Ok(m) => m,
        Err(e) => {
            assert(ctx.Objs@.subrange(0, old(ctx).Objs@.len() as int) =~= old(ctx).Objs@);
            return Err(LinkError::Format);
        },
    };
    let ghost all = rest@;
    let ghost members = spec_members(file.Contents@, 8, Seq::empty()).unwrap();
    let ghost base = ctx.Objs@.len() as int;
    let n: usize = rest.len();
    let mut done: usize = 0;
    assert(ctx.Objs@.subrange(0, base) =~= old(ctx).Objs@);
    while done < n
        invariant
            done <= n,
            n == all.len(),
            all.len() == members.len(),
            file.Type == FileType::FileTypeArchive,
            spec_members(file.Contents@, 8, Seq::empty()) == Some(members),
            starts_with(file.Contents@, AR_IDENT()),
            ctx.Args.Emulation == old(ctx).Args.Emulation,
            archive_result(old(ctx).Args.Emulation, members, 0) == archive_result(
                old(ctx).Args.Emulation,
                members,
                done as int,
            ),
            base == old(ctx).Objs@.len(),
            rest@ == all.subrange(done as int, n as int),
            crate::linker::archive::files_are(all, members, file.Name@),
            ctx.wf(),
            ctx.grows_from(*old(ctx)),
            sections_added(*old(ctx), *ctx),
            *ctx == (Context {
                Objs: ctx.Objs,
                SymbolMap: ctx.SymbolMap,
                OutputSections: ctx.OutputSections,
                MergedSections: ctx.MergedSections,
                ..*old(ctx)
            }),
            ctx.Objs@.len() == base + done,
            ctx.Objs@.subrange(0, base) == old(ctx).Objs@,
            symbols_added(*old(ctx), *ctx),
            objects_parsed(*ctx, base, base + done),
            symbols_named(*old(ctx), *ctx),
            forall|k: int|
                0 <= k < done ==> {
                    let obj = #[trigger] ctx.Objs@[base + k];
                    &&& obj.inputFile.File.Name@ == members[k].0
                    &&& obj.inputFile.File.Contents@ == members[k].1
                    &&& !obj.inputFile.IsAlive
                },
        decreases n - done,
    {
        let child = rest.remove(0);
        assert(child == all[done as int]);
        assert(rest@ =~= all.subrange(done + 1, n as int));
        if child.Type != FileType::FileTypeObject {
            return Err(LinkError::Format);
        }
        let ghost before = *ctx;
        match AddObject(ctx, child, false) {
            Ok(()) => {},
            Err(e) => {
                proof {
                    crate::linker::context::lemma_grows_trans(*old(ctx), before, *ctx);
                    lemma_sections_trans(*old(ctx), before, *ctx);
                    lemma_symbols_added_trans(*old(ctx), before, *ctx);
                }
                return Err(e);
            },
        }
        proof {
            crate::linker::context::lemma_grows_trans(*old(ctx), before, *ctx);
            lemma_sections_trans(*old(ctx), before, *ctx);
            lemma_symbols_added_trans(*old(ctx), before, *ctx);
            lemma_objects_parsed_grow(before, *ctx, base, base + done);
            lemma_named_one(before, *ctx);
            lemma_named_grow(*old(ctx), before, *ctx);
            assert(ctx.Objs@.subrange(0, base) =~= old(ctx).Objs@) by {
                assert forall|j: int| 0 <= j < base implies ctx.Objs@[j] == old(ctx).Objs@[j] by {
                    assert(ctx.Objs@.subrange(0, before.Objs@.len() as int)[j]
                        == before.Objs@[j]);
                    assert(before.Objs@.subrange(0, base)[j] == old(ctx).Objs@[j]);
                }
            }
            assert forall|k: int| 0 <= k < done + 1 implies ({
                let obj = #[trigger] ctx.Objs@[base + k];
                &&& obj.inputFile.File.Name@ == members[k].0
                &&& obj.inputFile.File.Contents@ == members[k].1
                &&& !obj.inputFile.IsAlive
            }) by {
                if k < done {
                    assert(ctx.Objs@.subrange(0, before.Objs@.len() as int)[base + k]
                        == before.Objs@[base + k]);
                }
            }
        }
        done = done + 1;
    }
    Ok(())
}

/// Objects that come behind the objects of a link come behind its units.
proof fn lemma_units_grow(
    before: Context,
    after: Context,
    base: int,
    had: Seq<(Seq<u8>, Seq<u8>, bool)>,
    got: Seq<(Seq<u8>, Seq<u8>, bool)>,
)
    requires
        0 <= base,
        before.Objs@.len() == base + had.len(),
        units_are(before, base, had),
        objects_added(before, after, got.len() as int),
        units_are(after, before.Objs@.len() as int, got),
    ensures
        after.Objs@.len() == base + (had + got).len(),
        units_are(after, base, had + got),
{
    assert forall|k: int| 0 <= k < (had + got).len() implies ({
        let unit = #[trigger] (had + got)[k];
        let obj = after.Objs@[base + k];
        &&& obj.inputFile.File.Name@ == unit.0
        &&& obj.inputFile.File.Contents@ == unit.1
        &&& obj.inputFile.IsAlive == unit.2
    }) by {
        if k < had.len() {
            assert(had[k] == (had + got)[k]);
            assert(after.Objs@.subrange(0, before.Objs@.len() as int)[base + k]
                == after.Objs@[base + k]);
        } else {
            assert(got[k - had.len()] == (had + got)[k]);
        }
    }
}

/// Takes the objects of the input files `files` into the link, file by
/// file in their order, and stops at the first file that fails.
#[verifier::rlimit(100)]
pub fn ReadInputFiles(ctx: &mut Context, files: Vec<File>) -> (r: Result<(), LinkError>)
    requires
        old(ctx).wf(),
    ensures
        final(ctx).wf(),
        final(ctx).grows_from(*old(ctx)),
        sections_added(*old(ctx), *final(ctx)),
        *final(ctx) == (Context {
            Objs: final(ctx).Objs,
            SymbolMap: final(ctx).SymbolMap,
            OutputSections: final(ctx).OutputSections,
            MergedSections: final(ctx).MergedSections,
            ..*old(ctx)
        }),
        final(ctx).Objs@.len() >= old(ctx).Objs@.len(),
        final(ctx).Objs@.subrange(0, old(ctx).Objs@.len() as int) == old(ctx).Objs@,
        r == inputs_result(old(ctx).Args.Emulation, files@, 0),
        files@.len() == 0 ==> *final(ctx) == *old(ctx),
        r is Ok ==> objects_added(
            *old(ctx),
            *final(ctx),
            input_units(files@, files@.len() as int).len() as int,
        ) && units_are(
            *final(ctx),
            old(ctx).Objs@.len() as int,
            input_units(files@, files@.len() as int),
        ),
        symbols_added(*old(ctx), *final(ctx)),
        r is Ok ==> objects_parsed(
            *final(ctx),
            old(ctx).Objs@.len() as int,
            final(ctx).Objs@.len() as int,
        ),
        r is Ok ==> symbols_named(*old(ctx), *final(ctx)),
{
    proof {
        lemma_sections_same(*ctx, *ctx);
    }
    let mut rest = files;
    let n: usize = rest.len();
    let ghost all = rest@;
    let ghost base = ctx.Objs@.len() as int;
    let mut done: usize = 0;
    assert(ctx.Objs@.subrange(0, base) =~= old(ctx).Objs@);
    proof {
        crate::linker::context::lemma_grows_trans(*old(ctx), *old(ctx), *old(ctx));
    }
    while done < n
        invariant
            done <= n,
            n == all.len(),
            all == files@,
            base == old(ctx).Objs@.len(),
            rest@ == all.subrange(done as int, n as int),
            ctx.wf(),
            ctx.grows_from(*old(ctx)),
            sections_added(*old(ctx), *ctx),
            *ctx == (Context {
                Objs: ctx.Objs,
                SymbolMap: ctx.SymbolMap,
                OutputSections: ctx.OutputSections,
                MergedSections: ctx.MergedSections,
                ..*old(ctx)
            }),
            ctx.Objs@.len() >= base,
            ctx.Objs@.subrange(0, base) == old(ctx).Objs@,
            done == 0 ==> *ctx == *old(ctx),
            ctx.Args.Emulation == old(ctx).Args.Emulation,
            ctx.Objs@.len() == base + input_units(all, done as int).len(),
            units_are(*ctx, base, input_units(all, done as int)),
            symbols_added(*old(ctx), *ctx),
            objects_parsed(*ctx, base, ctx.Objs@.len() as int),
            symbols_named(*old(ctx), *ctx),
            inputs_result(old(ctx).Args.Emulation, all, 0) == inputs_result(
                old(ctx).Args.Emulation,
                all,
                done as int,
            ),
        decreases n - done,
    {
        let file = rest.remove(0);
        assert(file == all[done as int]);
        assert(rest@ =~= all.subrange(done + 1, n as int));
        let ghost before = *ctx;
        let res = ReadFile(ctx, file);
        proof {
            crate::linker::context::lemma_grows_trans(*old(ctx), before, *ctx);
            lemma_sections_trans(*old(ctx), before, *ctx);
            lemma_symbols_added_trans(*old(ctx), before, *ctx);
            assert(ctx.Objs@.subrange(0, base) =~= old(ctx).Objs@) by {
                assert forall|j: int| 0 <= j < base implies ctx.Objs@[j] == old(ctx).Objs@[j] by {
                    assert(ctx.Objs@.subrange(0, before.Objs@.len() as int)[j] == before.Objs@[j]);
                    assert(before.Objs@.subrange(0, base)[j] == old(ctx).Objs@[j]);
                }
            }
        }
        match res {
            Ok(()) => {},
            Err(e) => {
                return Err(e);
            },
        }
        proof {
            lemma_units_grow(
                before,
                *ctx,
                base,
                input_units(all, done as int),
                file_units(all[done as int]),
            );
            lemma_objects_parsed_grow(before, *ctx, base, before.Objs@.len() as int);
            lemma_named_grow(*old(ctx), before, *ctx);
        }
        done = done + 1;
    }
    Ok(())
}

/// The path at which the library `name` would lie in the directory `dir`:
/// `<dir>/lib<name>.a`.
pub open spec fn library_path(dir: Seq<u8>, name: Seq<u8>) -> Seq<u8> {
    dir + seq![0x2fu8, 0x6c, 0x69, 0x62] + name + seq![0x2eu8, 0x61]
}

/// The path at which the library `name` would lie in the directory `dir`.
pub fn LibraryPath(dir: &[u8], name: &[u8]) -> (r: Vec<u8>)
    ensures
        r@ == library_path(dir@, name@),
{
    let mut out = crate::utils::ToVec(dir);
    out.push(0x2f);
    out.push(0x6c);
    out.push(0x69);
    out.push(0x62);
    let ghost head = out@;
    assert(head =~= dir@ + seq![0x2fu8, 0x6c, 0x69, 0x62]);
    let n: usize = name.len();
    let mut i: usize = 0;
    while i < n
        invariant
            i <= n,
            n == name@.len(),
            out@ == head + name@.subrange(0, i as int),
        decreases n - i,
    {
        out.push(name[i]);
        assert(out@ =~= head + name@.subrange(0, i + 1));
        i = i + 1;
    }
    assert(name@.subrange(0, n as int) =~= name@);
    out.push(0x2e);
    out.push(0x61);
    assert(out@ =~= library_path(dir@, name@));
    out
}

/// The paths at which the library `name` is looked for, one for every
/// search path of the context, in their order.
pub fn LibraryCandidates(ctx: &Context, name: &[u8]) -> (r: Vec<Vec<u8>>)
    ensures
        r@.len() == ctx.Args.LIbraryPaths@.len(),
        forall|i: int|
            0 <= i < r@.len() ==> (#[trigger] r@[i])@ == library_path(
                ctx.Args.LIbraryPaths@[i]@,
                name@,
            ),
{
    let n: usize = ctx.Args.LIbraryPaths.len();
    let mut out: Vec<Vec<u8>> = Vec::with_capacity(n);
    let mut i: usize = 0;
    while i < n
        invariant
            i <= n,
            n == ctx.Args.LIbraryPaths@.len(),
            out@.len() == i,
            forall|j: int|
                0 <= j < i ==> (#[trigger] out@[j])@ == library_path(
                    ctx.Args.LIbraryPaths@[j]@,
                    name@,
                ),
        decreases n - i,
    {
        out.push(LibraryPath(ctx.Args.LIbraryPaths[i].as_slice(), name));
        i = i + 1;
    }
    out
}

/// The position of the first file that is there among the first `upto`;
/// none where none is there.
pub open spec fn first_found(found: Seq<Option<File>>, from: int) -> Option<int>
    decreases found.len() - from,
{
    if from < 0 || from >= found.len() {
        None
    } else if found[from] is Some {
        Some(from)
    } else {
        first_found(found, from + 1)
    }
}

/// Picks the library among the candidates: `found` holds for every search
/// path, in their order, the file that was found there, if one was. The
/// first path that has the library wins; a library that no path has is
/// missing.
pub fn FindLibrary(found: Vec<Option<File>>) -> (r: Result<File, LinkError>)
    ensures
        r is Ok <==> first_found(found@, 0) is Some,
        r is Ok ==> Some(r.unwrap()) == found@[first_found(found@, 0).unwrap()],
        r is Err ==> r == Err::<File, LinkError>(LinkError::MissingLibrary),
{
    let mut rest = found;
    let n: usize = rest.len();
    let ghost all = rest@;
    let mut i: usize = 0;
    while i < n
        invariant
            i <= n,
            n == all.len(),
            all == found@,
            rest@ == all.subrange(i as int, n as int),
            first_found(all, 0) == first_found(all, i as int),
        decreases n - i,
    {
        let f = rest.remove(0);
        assert(f == all[i as int]);
        assert(rest@ =~= all.subrange(i + 1, n as int));
        match f {
            Some(file) => {
                return Ok(file);
            },
            None => {},
        }
        i = i + 1;
    }
    Err(LinkError::MissingLibrary)
}

} // verus!
