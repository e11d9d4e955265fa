//! The state of one link.
use vstd::prelude::*;
use crate::linker::abi;
use crate::linker::elf::{MachineType, Shdr};
use crate::linker::gotsection::GotSection;
use crate::linker::inputsections::{InputSection, MergeableSection};
use crate::linker::mergedsection::MergedSection;
use crate::linker::objectfile::Objectfile;
use crate::linker::file::InputFile;
use crate::linker::output::{
    ChunkId,
    OutputEhdr,
    OutputPhdr,
    OutputSection,
    OutputShdr,
    spec_output_name,
    output_flags,
};
use crate::linker::symbol::{FragmentRef, Symbol, SymbolId, names_unique, symbol_names};

verus! {

/// What the command line asked for.
#[derive(Debug)]
pub struct ContextArgs {
    pub Output: Vec<u8>,
    pub Emulation: MachineType,
    pub LIbraryPaths: Vec<Vec<u8>>,
}

/// Everything one link knows. The context owns the objects, the table of
/// global symbols, the output sections, the merged sections and the four
/// synthetic chunks; `Chunks` names the units of the output in the order in
/// which they are laid out and written.
#[derive(Debug)]
pub struct Context {
    pub Args: ContextArgs,
    pub Objs: Vec<Objectfile>,
    pub SymbolMap: Vec<Symbol>,
    pub Buf: Vec<u8>,
    pub MergedSections: Vec<MergedSection>,
    pub Ehdr: OutputEhdr,
    pub Shdr: OutputShdr,
    pub Phdr: OutputPhdr,
    pub Got: GotSection,
    pub TpAddr: u64,
    pub OutputSections: Vec<OutputSection>,
    pub Chunks: Vec<ChunkId>,
}

/// `a.out`
pub open spec fn DEFAULT_OUTPUT() -> Seq<u8> {
    seq![0x61u8, 0x2e, 0x6f, 0x75, 0x74]
}

/// The key that tells output sections apart: name, type and flags.
pub open spec fn output_key(o: OutputSection) -> (Seq<u8>, u32, u64) {
    (o.Chunk.Name@, o.Chunk.Shdr.Type, o.Chunk.Shdr.Flags)
}

/// The key that tells merged sections apart: name, type and flags.
pub open spec fn merged_key(m: MergedSection) -> (Seq<u8>, u32, u64) {
    (m.Chunk.Name@, m.Chunk.Shdr.Type, m.Chunk.Shdr.Flags)
}

impl Context {
    /// Whether the four chunks that every context has are as they are
    /// made: the file header allocated, 64 bytes long and aligned to 8;
    /// the table of program headers allocated, aligned to 8 and empty; the
    /// table of section headers aligned to 8; the table of addresses
    /// relative to the thread pointer named `.got`, with program bits,
    /// allocated and writable, and empty.
    pub open spec fn blank_chunks(&self) -> bool {
        &&& self.Ehdr.Chunk.Name@.len() == 0
        &&& self.Ehdr.Chunk.Shndx == 0
        &&& self.Ehdr.Chunk.Shdr == (Shdr {
            Flags: abi::SHF_ALLOC,
            Size: 64,
            AddrAlign: 8,
            ..Shdr::zero()
        })
        &&& self.Phdr.Chunk.Name@.len() == 0
        &&& self.Phdr.Chunk.Shndx == 0
        &&& self.Phdr.Chunk.Shdr == (Shdr { Flags: abi::SHF_ALLOC, AddrAlign: 8, ..Shdr::zero() })
        &&& self.Phdr.Phdrs@.len() == 0
        &&& self.Shdr.Chunk.Name@.len() == 0
        &&& self.Shdr.Chunk.Shndx == 0
        &&& self.Shdr.Chunk.Shdr == (Shdr { AddrAlign: 8, ..Shdr::zero() })
        &&& self.Got.Chunk.Name@ == crate::linker::gotsection::GOT_NAME()
        &&& self.Got.Chunk.Shndx == 0
        &&& self.Got.Chunk.Shdr == (Shdr { Type: abi::SHT_PROGBITS, Flags: 3, ..Shdr::zero() })
        &&& self.Got.GotTpSyms@.len() == 0
    }

    /// An empty context: output to `a.out`, no emulation chosen, no search
    /// paths, no objects, and the four chunks that every context has as
    /// they are made.
    pub fn new() -> (r: Context)
        ensures
            r.blank_chunks(),
            r.Args.Output@ == DEFAULT_OUTPUT(),
            r.Args.Emulation == MachineType::MachineTypeNone,
            r.Args.LIbraryPaths@.len() == 0,
            r.Objs@.len() == 0,
            r.SymbolMap@.len() == 0,
            r.Buf@.len() == 0,
            r.MergedSections@.len() == 0,
            r.OutputSections@.len() == 0,
            r.Chunks@.len() == 0,
            r.Got.GotTpSyms@.len() == 0,
            r.TpAddr == 0,
            r.wf(),
    {
        let out: Vec<u8> = vec![0x61u8, 0x2e, 0x6f, 0x75, 0x74];
        assert(out@ =~= DEFAULT_OUTPUT());
        reveal(Context::wf);
        Context {
            Args: ContextArgs {
                Output: out,
                Emulation: MachineType::MachineTypeNone,
                LIbraryPaths: Vec::new(),
            },
            Objs: Vec::new(),
            SymbolMap: Vec::new(),
            Buf: Vec::new(),
            MergedSections: Vec::new(),
            Ehdr: OutputEhdr::new(),
            Shdr: OutputShdr::new(),
            Phdr: OutputPhdr::new(),
            Got: GotSection::new(),
            TpAddr: 0,
            OutputSections: Vec::new(),
            Chunks: Vec::new(),
        }
    }

    /// Whether the object at `o` keeps a section at `s`.
    pub open spec fn section_exists(&self, o: int, s: int) -> bool {
        0 <= o < self.Objs@.len() && self.Objs@[o].has_section(s)
    }

    /// Whether `r` names a fragment that the context holds.
    pub open spec fn fragment_exists(&self, r: FragmentRef) -> bool {
        r.Section < self.MergedSections@.len() && r.Index < self.MergedSections@[r.Section as int].Map@.len()
    }

    /// Whether what the symbol `sym` refers to is there.
    pub open spec fn symbol_ok(&self, sym: Symbol) -> bool {
        &&& sym.wf()
        &&& sym.File matches Some(f) ==> f < self.Objs@.len()
        &&& sym.InputSection matches Some(s) ==> self.section_exists(sym.File.unwrap() as int, s as int)
        &&& sym.SectionFragment matches Some(r) ==> self.fragment_exists(r)
    }

    /// Whether the address of the symbol `sym` can be computed: what it
    /// refers to is there, and so is the output section of its section.
    pub open spec fn symbol_placed(&self, sym: Symbol) -> bool {
        &&& self.symbol_ok(sym)
        &&& sym.InputSection matches Some(s) ==> self.Objs@[sym.File.unwrap() as int].Sections@[s as int].unwrap().OutputSection
            < self.OutputSections@.len()
    }

    /// The symbol at `id`, seen from the object at `o`.
    pub open spec fn symbol_at(&self, o: int, id: SymbolId) -> Symbol {
        match id {
            SymbolId::Local(k) => self.Objs@[o].inputFile.LocalSymbols@[k as int],
            SymbolId::Global(g) => self.SymbolMap@[g as int],
        }
    }

    /// Whether what the mergeable section `ms` refers to is there: its
    /// parent, and behind each registered piece the fragment with the
    /// bytes of the piece.
    pub open spec fn mergeable_ok(&self, ms: MergeableSection) -> bool {
        &&& ms.Parent < self.MergedSections@.len()
        &&& ms.P2Align < 64
        &&& ms.pieces_wf()
        &&& ms.Fragments@.len() == 0 || ms.Fragments@.len() == ms.Strs@.len()
        &&& forall|k: int|
            0 <= k < ms.Fragments@.len() ==> {
                &&& (#[trigger] ms.Fragments@[k]) < self.MergedSections@[ms.Parent as int].Map@.len()
                &&& self.MergedSections@[ms.Parent as int].Map@[ms.Fragments@[k] as int].Key@
                    == ms.Strs@[k]@
            }
    }

    /// Whether the local symbol `sym` of the object `obj`, which stands or
    /// will stand at `o`, refers to what is there: its file is that object,
    /// its section one that the object keeps.
    pub open spec fn local_ok(&self, obj: Objectfile, o: int, sym: Symbol) -> bool {
        &&& sym.wf()
        &&& sym.File == Some(o as usize)
        &&& sym.InputSection matches Some(s) ==> obj.has_section(s as int)
        &&& sym.SectionFragment matches Some(r) ==> self.fragment_exists(r)
    }

    /// Whether the section at `s` of `obj` goes to the output section that
    /// its name, type and flags ask for.
    pub open spec fn section_placed(&self, obj: Objectfile, s: int) -> bool {
        let sec = obj.Sections@[s].unwrap();
        let h = obj.spec_shdr(s);
        &&& sec.OutputSection < self.OutputSections@.len()
        &&& output_key(self.OutputSections@[sec.OutputSection as int]) == (
            spec_output_name(obj.section_name(s), h.Flags),
            h.Type,
            output_flags(h.Flags),
        )
    }

    /// Whether what the object `obj`, which stands or will stand at `o`,
    /// refers to is there.
    pub open spec fn object_ok_for(&self, obj: Objectfile, o: int) -> bool {
        let f = obj.inputFile;
        &&& obj.shape_ok()
        &&& forall|i: int|
            0 <= i < f.Symbols@.len() ==> (#[trigger] f.Symbols@[i] matches SymbolId::Global(g)
                ==> g < self.SymbolMap@.len())
        &&& forall|k: int|
            0 <= k < f.LocalSymbols@.len() ==> self.local_ok(obj, o, #[trigger] f.LocalSymbols@[k])
        &&& forall|s: int|
            0 <= s < obj.Sections@.len() && (#[trigger] obj.Sections@[s]) is Some
                ==> self.section_placed(obj, s)
        &&& forall|m: int|
            0 <= m < obj.MergeableSections@.len() ==> (
            #[trigger] obj.MergeableSections@[m] matches Some(ms) ==> self.mergeable_ok(ms))
    }

    /// Whether what the object at `o` refers to is there.
    pub open spec fn object_ok(&self, o: int) -> bool {
        self.object_ok_for(self.Objs@[o], o)
    }

    /// Whether the output sections are in order: each knows its position,
    /// no two have the same name, type and flags, and every member is a
    /// section that an object keeps.
    pub open spec fn outputs_ok(&self) -> bool {
        &&& forall|i: int|
            0 <= i < self.OutputSections@.len() ==> (#[trigger] self.OutputSections@[i]).Idx == i
        &&& forall|i: int, j: int|
            0 <= i < j < self.OutputSections@.len() ==> output_key(self.OutputSections@[i])
                != output_key(self.OutputSections@[j])
        &&& forall|i: int, k: int|
            0 <= i < self.OutputSections@.len() && 0 <= k < self.OutputSections@[i].Members@.len()
                ==> self.section_exists(
                (#[trigger] self.OutputSections@[i].Members@[k]).Obj as int,
                self.OutputSections@[i].Members@[k].Sec as int,
            )
    }

    /// Whether the merged sections are in order: no two have the same
    /// name, type and flags, each holds every piece once, and every
    /// fragment knows the section that owns it.
    pub open spec fn merged_ok(&self) -> bool {
        &&& forall|i: int, j: int|
            0 <= i < j < self.MergedSections@.len() ==> merged_key(self.MergedSections@[i])
                != merged_key(self.MergedSections@[j])
        &&& forall|i: int|
            0 <= i < self.MergedSections@.len() ==> (#[trigger] self.MergedSections@[i]).wf()
        &&& forall|i: int, k: int|
            0 <= i < self.MergedSections@.len() && 0 <= k < self.MergedSections@[i].Map@.len() ==> (
            #[trigger] self.MergedSections@[i].Map@[k]).Frag.OutputSection == i
    }

    /// Whether every chunk in the list of chunks is there.
    pub open spec fn chunks_ok(&self) -> bool {
        forall|k: int|
            0 <= k < self.Chunks@.len() ==> match #[trigger] self.Chunks@[k] {
                ChunkId::Output(i) => i < self.OutputSections@.len(),
                ChunkId::Merged(m) => m < self.MergedSections@.len(),
                _ => true,
            }
    }

    /// Whether the global symbols are in order: one symbol per name, and
    /// what each refers to is there.
    pub open spec fn symbols_ok(&self) -> bool {
        &&& names_unique(symbol_names(self.SymbolMap@))
        &&& forall|g: int|
            0 <= g < self.SymbolMap@.len() ==> self.symbol_ok(#[trigger] self.SymbolMap@[g])
    }

    /// The invariant of the context: every position that one entity holds
    /// of another names an entity that is there, and each name, each key of
    /// a section and each piece is there once.
    #[verifier::opaque]
    pub open spec fn wf(&self) -> bool {
        &&& self.symbols_ok()
        &&& forall|o: int| 0 <= o < self.Objs@.len() ==> #[trigger] self.object_ok(o)
        &&& self.outputs_ok()
        &&& self.merged_ok()
        &&& self.chunks_ok()
    }
}

impl Context {
    /// Whether this context holds everything that `old` holds, at the same
    /// positions: the global symbols, the output sections with their keys,
    /// and the merged sections with their pieces.
    pub open spec fn grows_from(&self, old: Context) -> bool {
        &&& old.SymbolMap@.len() <= self.SymbolMap@.len()
        &&& old.OutputSections@.len() <= self.OutputSections@.len()
        &&& forall|i: int|
            0 <= i < old.OutputSections@.len() ==> output_key(#[trigger] self.OutputSections@[i])
                == output_key(old.OutputSections@[i])
        &&& forall|i: int|
            0 <= i < self.OutputSections@.len() ==> (#[trigger] self.OutputSections@[i]).Members
                == (if i < old.OutputSections@.len() {
                old.OutputSections@[i].Members
            } else {
                self.OutputSections@[i].Members
            }) && (i >= old.OutputSections@.len() ==> self.OutputSections@[i].Members@.len() == 0)
        &&& old.MergedSections@.len() <= self.MergedSections@.len()
        &&& forall|i: int|
            0 <= i < old.MergedSections@.len() ==> merged_key(#[trigger] self.MergedSections@[i])
                == merged_key(old.MergedSections@[i])
        &&& forall|i: int|
            0 <= i < old.MergedSections@.len() ==> old.MergedSections@[i].Map@.len() <= (
            #[trigger] self.MergedSections@[i]).Map@.len()
        &&& forall|i: int, k: int|
            0 <= i < old.MergedSections@.len() && 0 <= k < old.MergedSections@[i].Map@.len() ==> (
            #[trigger] self.MergedSections@[i].Map@[k]).Key@ == old.MergedSections@[i].Map@[k].Key@
    }
}

/// What an object refers to stays there while the context grows.
pub proof fn lemma_object_ok_grows(old: Context, new: Context, obj: Objectfile, o: int)
    requires
        old.object_ok_for(obj, o),
        new.grows_from(old),
    ensures
        new.object_ok_for(obj, o),
{
    let f = obj.inputFile;
    assert forall|k: int| 0 <= k < f.LocalSymbols@.len() implies new.local_ok(
        obj,
        o,
        #[trigger] f.LocalSymbols@[k],
    ) by {
        assert(old.local_ok(obj, o, f.LocalSymbols@[k]));
    }
    assert forall|s: int|
        0 <= s < obj.Sections@.len() && (#[trigger] obj.Sections@[s]) is Some implies new.section_placed(
        obj,
        s,
    ) by {
        assert(old.section_placed(obj, s));
    }
    assert forall|m: int| 0 <= m < obj.MergeableSections@.len() implies (
    #[trigger] obj.MergeableSections@[m] matches Some(ms) ==> new.mergeable_ok(ms)) by {
        if let Some(ms) = obj.MergeableSections@[m] {
            assert(old.mergeable_ok(ms));
        }
    }
}

/// Growing is transitive, and every context grows from itself.
pub proof fn lemma_grows_trans(a: Context, b: Context, c: Context)
    requires
        b.grows_from(a),
        c.grows_from(b),
    ensures
        c.grows_from(a),
        a.grows_from(a),
{
    assert forall|i: int| 0 <= i < a.OutputSections@.len() implies output_key(
        #[trigger] c.OutputSections@[i],
    ) == output_key(a.OutputSections@[i]) by {
        assert(output_key(b.OutputSections@[i]) == output_key(a.OutputSections@[i]));
    }
    assert forall|i: int| 0 <= i < c.OutputSections@.len() implies (
    #[trigger] c.OutputSections@[i]).Members == (if i < a.OutputSections@.len() {
        a.OutputSections@[i].Members
    } else {
        c.OutputSections@[i].Members
    }) && (i >= a.OutputSections@.len() ==> c.OutputSections@[i].Members@.len() == 0) by {
        if i < b.OutputSections@.len() {
            assert(b.OutputSections@[i].Members == (if i < a.OutputSections@.len() {
                a.OutputSections@[i].Members
            } else {
                b.OutputSections@[i].Members
            }) && (i >= a.OutputSections@.len() ==> b.OutputSections@[i].Members@.len() == 0));
        }
    }
    assert forall|i: int| 0 <= i < a.MergedSections@.len() implies merged_key(
        #[trigger] c.MergedSections@[i],
    ) == merged_key(a.MergedSections@[i]) by {
        assert(merged_key(b.MergedSections@[i]) == merged_key(a.MergedSections@[i]));
    }
    assert forall|i: int| 0 <= i < a.MergedSections@.len() implies a.MergedSections@[i].Map@.len()
        <= (#[trigger] c.MergedSections@[i]).Map@.len() by {
        assert(a.MergedSections@[i].Map@.len() <= b.MergedSections@[i].Map@.len());
    }
    assert forall|i: int, k: int|
        0 <= i < a.MergedSections@.len() && 0 <= k < a.MergedSections@[i].Map@.len() implies (
    #[trigger] c.MergedSections@[i].Map@[k]).Key@ == a.MergedSections@[i].Map@[k].Key@ by {
        assert(a.MergedSections@[i].Map@.len() <= b.MergedSections@[i].Map@.len());
        assert(b.MergedSections@[i].Map@[k].Key@ == a.MergedSections@[i].Map@[k].Key@);
    }
}

/// In a context that is in order, the address of every symbol whose
/// references are there can be computed.
pub proof fn lemma_symbol_placed(ctx: Context, sym: Symbol)
    requires
        ctx.wf(),
        ctx.symbol_ok(sym),
    ensures
        ctx.symbol_placed(sym),
{
    reveal(Context::wf);
    if let Some(s) = sym.InputSection {
        let f = sym.File.unwrap() as int;
        assert(ctx.section_exists(f, s as int));
        assert(ctx.object_ok(f));
        assert(ctx.Objs@[f].Sections@[s as int] is Some);
        assert(ctx.section_placed(ctx.Objs@[f], s as int));
    }
}

/// Whether `new` is `old` with other global symbols: as many, with the
/// same names, and everything else as it was.
pub open spec fn only_symbols_changed(old: Context, new: Context) -> bool {
    &&& new == (Context { SymbolMap: new.SymbolMap, ..old })
    &&& new.SymbolMap@.len() == old.SymbolMap@.len()
    &&& forall|g: int|
        0 <= g < old.SymbolMap@.len() ==> (#[trigger] new.SymbolMap@[g]).Name == old.SymbolMap@[g].Name
}

/// A context stays in order where only global symbols change, keep their
/// names and refer to what is there.
pub proof fn lemma_wf_symbols_changed(old: Context, new: Context)
    requires
        old.wf(),
        only_symbols_changed(old, new),
        forall|g: int| 0 <= g < new.SymbolMap@.len() ==> new.symbol_ok(#[trigger] new.SymbolMap@[g]),
    ensures
        new.wf(),
{
    reveal(Context::wf);
    let names = symbol_names(new.SymbolMap@);
    let old_names = symbol_names(old.SymbolMap@);
    assert forall|i: int, j: int| 0 <= i < j < names.len() implies names[i] != names[j] by {
        assert(old_names[i] != old_names[j]);
        assert(new.SymbolMap@[i].Name == old.SymbolMap@[i].Name);
        assert(new.SymbolMap@[j].Name == old.SymbolMap@[j].Name);
    }
    assert forall|o: int| 0 <= o < new.Objs@.len() implies #[trigger] new.object_ok(o) by {
        assert(old.object_ok(o));
    }
    assert(new.outputs_ok()) by {
        assert(old.outputs_ok());
    }
}

/// In a context that is in order every global symbol refers to what is
/// there, and so does every object.
pub proof fn lemma_wf_parts(ctx: Context)
    requires
        ctx.wf(),
    ensures
        ctx.symbols_ok(),
        forall|o: int| 0 <= o < ctx.Objs@.len() ==> #[trigger] ctx.object_ok(o),
        ctx.outputs_ok(),
        ctx.merged_ok(),
        ctx.chunks_ok(),
{
    reveal(Context::wf);
}

/// A context stays in order where its objects, symbols, sections and
/// list of chunks stay as they are.
pub proof fn lemma_wf_frame(old: Context, new: Context)
    requires
        old.wf(),
        new.Objs == old.Objs,
        new.SymbolMap == old.SymbolMap,
        new.OutputSections == old.OutputSections,
        new.MergedSections == old.MergedSections,
        new.Chunks == old.Chunks,
    ensures
        new.wf(),
{
    reveal(Context::wf);
    assert forall|o: int| 0 <= o < new.Objs@.len() implies #[trigger] new.object_ok(o) by {
        assert(old.object_ok(o));
    }
}

/// Whether the global symbols of `new` are those of `old` and, behind
/// them, symbols that are blank but for their names.
pub open spec fn symbols_added(old: Context, new: Context) -> bool {
    &&& old.SymbolMap@.len() <= new.SymbolMap@.len()
    &&& forall|g: int|
        0 <= g < old.SymbolMap@.len() ==> #[trigger] new.SymbolMap@[g] == old.SymbolMap@[g]
    &&& forall|g: int|
        old.SymbolMap@.len() <= g < new.SymbolMap@.len() ==> (#[trigger] new.SymbolMap@[g]).is_fresh(
            new.SymbolMap@[g].Name@,
        )
}

/// Symbols added after symbols were added are added.
pub proof fn lemma_symbols_added_trans(a: Context, b: Context, c: Context)
    requires
        symbols_added(a, b),
        symbols_added(b, c),
    ensures
        symbols_added(a, c),
{
    assert forall|g: int| 0 <= g < a.SymbolMap@.len() implies #[trigger] c.SymbolMap@[g]
        == a.SymbolMap@[g] by {
        assert(b.SymbolMap@[g] == a.SymbolMap@[g]);
    }
    assert forall|g: int| a.SymbolMap@.len() <= g < c.SymbolMap@.len() implies (
    #[trigger] c.SymbolMap@[g]).is_fresh(c.SymbolMap@[g].Name@) by {
        if g < b.SymbolMap@.len() {
            assert(c.SymbolMap@[g] == b.SymbolMap@[g]);
            assert(b.SymbolMap@[g].is_fresh(b.SymbolMap@[g].Name@));
        }
    }
}

/// Whether the output section `o` is as it is made: without members, with
/// a header that holds its type and flags and an alignment of 1 only.
pub open spec fn blank_output(o: OutputSection) -> bool {
    &&& o.Members@.len() == 0
    &&& o.Chunk.Shndx == 0
    &&& o.Chunk.Shdr == (Shdr {
        Type: o.Chunk.Shdr.Type,
        Flags: o.Chunk.Shdr.Flags,
        AddrAlign: 1,
        ..Shdr::zero()
    })
}

/// Whether the merged section `m` is as it is made: without pieces, with
/// a header that holds its type and flags and an alignment of 1 only.
pub open spec fn blank_merged(m: MergedSection) -> bool {
    &&& m.Map@.len() == 0
    &&& m.Chunk.Shndx == 0
    &&& m.Chunk.Shdr == (Shdr {
        Type: m.Chunk.Shdr.Type,
        Flags: m.Chunk.Shdr.Flags,
        AddrAlign: 1,
        ..Shdr::zero()
    })
}

/// Whether the output sections and the merged sections of `new` are
/// those of `old`, unchanged, and behind them sections as they are made.
#[verifier::opaque]
pub open spec fn sections_added(old: Context, new: Context) -> bool {
    &&& old.OutputSections@.len() <= new.OutputSections@.len()
    &&& new.OutputSections@.subrange(0, old.OutputSections@.len() as int) == old.OutputSections@
    &&& forall|i: int|
        old.OutputSections@.len() <= i < new.OutputSections@.len() ==> blank_output(
            #[trigger] new.OutputSections@[i],
        )
    &&& old.MergedSections@.len() <= new.MergedSections@.len()
    &&& new.MergedSections@.subrange(0, old.MergedSections@.len() as int) == old.MergedSections@
    &&& forall|i: int|
        old.MergedSections@.len() <= i < new.MergedSections@.len() ==> blank_merged(
            #[trigger] new.MergedSections@[i],
        )
}

/// A context whose sections are those of another has no section added.
pub proof fn lemma_sections_same(a: Context, b: Context)
    requires
        a.OutputSections@ == b.OutputSections@,
        a.MergedSections@ == b.MergedSections@,
    ensures
        sections_added(a, b),
{
    reveal(sections_added);
    assert(b.OutputSections@.subrange(0, a.OutputSections@.len() as int) =~= a.OutputSections@);
    assert(b.MergedSections@.subrange(0, a.MergedSections@.len() as int) =~= a.MergedSections@);
}

/// Sections added after sections were added are added.
pub proof fn lemma_sections_trans(a: Context, b: Context, c: Context)
    requires
        sections_added(a, b),
        sections_added(b, c),
    ensures
        sections_added(a, c),
{
    reveal(sections_added);
    let no = a.OutputSections@.len() as int;
    let nm = a.MergedSections@.len() as int;
    assert(c.OutputSections@.subrange(0, no) =~= a.OutputSections@) by {
        assert forall|i: int| 0 <= i < no implies c.OutputSections@[i] == a.OutputSections@[i] by {
            assert(c.OutputSections@.subrange(0, b.OutputSections@.len() as int)[i]
                == b.OutputSections@[i]);
            assert(b.OutputSections@.subrange(0, no)[i] == a.OutputSections@[i]);
        }
    }
    assert(c.MergedSections@.subrange(0, nm) =~= a.MergedSections@) by {
        assert forall|i: int| 0 <= i < nm implies c.MergedSections@[i] == a.MergedSections@[i] by {
            assert(c.MergedSections@.subrange(0, b.MergedSections@.len() as int)[i]
                == b.MergedSections@[i]);
            assert(b.MergedSections@.subrange(0, nm)[i] == a.MergedSections@[i]);
        }
    }
    assert forall|i: int| no <= i < c.OutputSections@.len() implies blank_output(
        #[trigger] c.OutputSections@[i],
    ) by {
        if i < b.OutputSections@.len() {
            assert(c.OutputSections@.subrange(0, b.OutputSections@.len() as int)[i]
                == b.OutputSections@[i]);
            assert(blank_output(b.OutputSections@[i]));
        }
    }
    assert forall|i: int| nm <= i < c.MergedSections@.len() implies blank_merged(
        #[trigger] c.MergedSections@[i],
    ) by {
        if i < b.MergedSections@.len() {
            assert(c.MergedSections@.subrange(0, b.MergedSections@.len() as int)[i]
                == b.MergedSections@[i]);
            assert(blank_merged(b.MergedSections@[i]));
        }
    }
}

/// Sections that were added are added still where nothing but other
/// parts of the context changes afterwards.
pub proof fn lemma_sections_frame(a: Context, b: Context, c: Context)
    requires
        sections_added(a, b),
        c.OutputSections@ == b.OutputSections@,
        c.MergedSections@ == b.MergedSections@,
    ensures
        sections_added(a, c),
{
    lemma_sections_same(b, c);
    lemma_sections_trans(a, b, c);
}

/// Whether no output section has a member.
pub open spec fn no_members(ctx: Context) -> bool {
    forall|i: int|
        0 <= i < ctx.OutputSections@.len() ==> (#[trigger] ctx.OutputSections@[i]).Members@.len() == 0
}

/// A context that grows gets no members.
pub proof fn lemma_grows_no_members(old: Context, new: Context)
    requires
        new.grows_from(old),
        no_members(old),
    ensures
        no_members(new),
{
    assert forall|i: int| 0 <= i < new.OutputSections@.len() implies (
    #[trigger] new.OutputSections@[i]).Members@.len() == 0 by {
        if i < old.OutputSections@.len() {
            assert(old.OutputSections@[i].Members@.len() == 0);
        }
    }
}

/// Whether `b` is the symbol `a` with other flags and another slot in the
/// table of thread-pointer relative addresses.
pub open spec fn marked(a: Symbol, b: Symbol) -> bool {
    b == (Symbol { Flags: b.Flags, GotTpIdx: b.GotTpIdx, ..a })
}

/// Whether `new` is `old` but for the flags and slots of symbols and for
/// the table of thread-pointer relative addresses.
pub open spec fn marks_changed(old: Context, new: Context) -> bool {
    &&& new == (Context { Objs: new.Objs, SymbolMap: new.SymbolMap, Got: new.Got, ..old })
    &&& new.Objs@.len() == old.Objs@.len()
    &&& forall|o: int|
        0 <= o < old.Objs@.len() ==> {
            &&& #[trigger] new.Objs@[o] == (Objectfile {
                inputFile: InputFile {
                    LocalSymbols: new.Objs@[o].inputFile.LocalSymbols,
                    ..old.Objs@[o].inputFile
                },
                ..old.Objs@[o]
            })
            &&& new.Objs@[o].inputFile.LocalSymbols@.len() == old.Objs@[o].inputFile.LocalSymbols@.len()
        }
    &&& forall|o: int, k: int|
        0 <= o < old.Objs@.len() && 0 <= k < old.Objs@[o].inputFile.LocalSymbols@.len() ==> marked(
            old.Objs@[o].inputFile.LocalSymbols@[k],
            #[trigger] new.Objs@[o].inputFile.LocalSymbols@[k],
        )
    &&& new.SymbolMap@.len() == old.SymbolMap@.len()
    &&& forall|g: int|
        0 <= g < old.SymbolMap@.len() ==> marked(old.SymbolMap@[g], #[trigger] new.SymbolMap@[g])
}

/// A context stays in order where only flags and slots of symbols change.
pub proof fn lemma_wf_marks(old: Context, new: Context)
    requires
        old.wf(),
        marks_changed(old, new),
    ensures
        new.wf(),
{
    reveal(Context::wf);
    assert forall|o: int| 0 <= o < new.Objs@.len() implies #[trigger] new.object_ok(o) by {
        assert(old.object_ok(o));
        let a = old.Objs@[o];
        let b = new.Objs@[o];
        assert forall|k: int| 0 <= k < b.inputFile.LocalSymbols@.len() implies new.local_ok(
            b,
            o,
            #[trigger] b.inputFile.LocalSymbols@[k],
        ) by {
            assert(old.local_ok(a, o, a.inputFile.LocalSymbols@[k]));
            assert(marked(a.inputFile.LocalSymbols@[k], b.inputFile.LocalSymbols@[k]));
        }
        assert forall|s: int|
            0 <= s < b.Sections@.len() && (#[trigger] b.Sections@[s]) is Some implies new.section_placed(
            b,
            s,
        ) by {
            assert(old.section_placed(a, s));
        }
        assert forall|m: int| 0 <= m < b.MergeableSections@.len() implies (
        #[trigger] b.MergeableSections@[m] matches Some(ms) ==> new.mergeable_ok(ms)) by {
            if let Some(ms) = a.MergeableSections@[m] {
                assert(old.mergeable_ok(ms));
            }
        }
    }
    assert forall|g: int| 0 <= g < new.SymbolMap@.len() implies new.symbol_ok(
        #[trigger] new.SymbolMap@[g],
    ) by {
        let sym = old.SymbolMap@[g];
        assert(old.symbol_ok(sym));
        assert(marked(sym, new.SymbolMap@[g]));
        if let Some(s) = sym.InputSection {
            let f = sym.File.unwrap() as int;
            assert(old.section_exists(f, s as int));
            assert(new.Objs@[f].Sections == old.Objs@[f].Sections);
        }
    }
    let names = symbol_names(new.SymbolMap@);
    let old_names = symbol_names(old.SymbolMap@);
    assert forall|i: int, j: int| 0 <= i < j < names.len() implies names[i] != names[j] by {
        assert(old_names[i] != old_names[j]);
        assert(marked(old.SymbolMap@[i], new.SymbolMap@[i]));
        assert(marked(old.SymbolMap@[j], new.SymbolMap@[j]));
    }
    assert(new.outputs_ok()) by {
        assert(old.outputs_ok());
        assert forall|i: int, k: int|
            0 <= i < new.OutputSections@.len() && 0 <= k
                < new.OutputSections@[i].Members@.len() implies new.section_exists(
            (#[trigger] new.OutputSections@[i].Members@[k]).Obj as int,
            new.OutputSections@[i].Members@[k].Sec as int,
        ) by {
            let mm = old.OutputSections@[i].Members@[k];
            assert(old.section_exists(mm.Obj as int, mm.Sec as int));
            assert(new.Objs@[mm.Obj as int].Sections == old.Objs@[mm.Obj as int].Sections);
        }
    }
}

/// Every input section goes to the output section whose name is the
/// normalized name of the input section, and whose type and flags are
/// those of the input section but for the flags that do not tell output
/// sections apart.
pub proof fn lemma_name_normalization(ctx: Context, o: int, s: int)
    requires
        ctx.wf(),
        ctx.section_exists(o, s),
    ensures
        ({
            let obj = ctx.Objs@[o];
            let sec = obj.Sections@[s].unwrap();
            &&& sec.OutputSection < ctx.OutputSections@.len()
            &&& ctx.OutputSections@[sec.OutputSection as int].Chunk.Name@ == spec_output_name(
                obj.section_name(s),
                obj.spec_shdr(s).Flags,
            )
            &&& ctx.OutputSections@[sec.OutputSection as int].Chunk.Shdr.Type == obj.spec_shdr(s).Type
            &&& ctx.OutputSections@[sec.OutputSection as int].Chunk.Shdr.Flags == output_flags(
                obj.spec_shdr(s).Flags,
            )
        }),
{
    reveal(Context::wf);
    assert(ctx.object_ok(o));
    assert(ctx.Objs@[o].Sections@[s] is Some);
    assert(ctx.section_placed(ctx.Objs@[o], s));
}

/// The table of global symbols holds one symbol for every name: two
/// places of the table with the same name are one place.
pub proof fn lemma_symbol_names_unique(ctx: Context, i: int, j: int)
    requires
        ctx.wf(),
        0 <= i < ctx.SymbolMap@.len(),
        0 <= j < ctx.SymbolMap@.len(),
        ctx.SymbolMap@[i].Name@ == ctx.SymbolMap@[j].Name@,
    ensures
        i == j,
{
    reveal(Context::wf);
    let names = symbol_names(ctx.SymbolMap@);
    if i < j {
        assert(names[i] != names[j]);
    }
    if j < i {
        assert(names[j] != names[i]);
    }
}

} // verus!
