//! Symbols as the linker sees them: one entity per global name, one per
//! local entry of an object.
use vstd::prelude::*;


use crate::linker::context::Context;
use crate::linker::elf::Sym;
use crate::utils::{BytesEq, ToVec};

verus! {

/// Where a symbol of an object lives: among the locals of that object, or
/// in the table of globals that all objects share.
#[derive(Clone, Copy, Debug, PartialEq, Eq, Structural)]
pub enum SymbolId {
    Local(usize),
    Global(usize),
}

/// A fragment of a merged section: the merged section by its position in
/// the context, the fragment by its position in that section.
#[derive(Clone, Copy, Debug, PartialEq, Eq, Structural)]
pub struct FragmentRef {
    pub Section: usize,
    pub Index: usize,
}

/// A symbol. `File` is the position in the context of the object that
/// defines it, `InputSection` the position of the defining section in that
/// object, `SectionFragment` the fragment it lies in; a symbol is bound to
/// a section or to a fragment, never to both.
#[derive(Debug)]
pub struct Symbol {
    pub File: Option<usize>,
    pub InputSection: Option<usize>,
    pub Name: Vec<u8>,
    pub Value: u64,
    pub SymIdx: usize,
    pub SectionFragment: Option<FragmentRef>,
    pub GotTpIdx: usize,
    pub Flags: u32,
}

/// `a + b` in 64-bit arithmetic that wraps around.
pub open spec fn wrap_add(a: u64, b: u64) -> u64 {
    ((a + b) % 0x1_0000_0000_0000_0000) as u64
}

/// `a - b` in 64-bit arithmetic that wraps around.
pub open spec fn wrap_sub(a: u64, b: u64) -> u64 {
    ((a - b) % 0x1_0000_0000_0000_0000) as u64
}

impl Symbol {
    /// Whether this is the symbol that `new` makes for `name`.
    pub open spec fn is_fresh(&self, name: Seq<u8>) -> bool {
        &&& self.Name@ == name
        &&& self.File is None
        &&& self.InputSection is None
        &&& self.SectionFragment is None
        &&& self.Value == 0
        &&& self.SymIdx == 0
        &&& self.GotTpIdx == 0
        &&& self.Flags == 0
    }

    /// The invariant of every symbol: bound to a section or to a fragment,
    /// not to both, and to neither without a defining file.
    pub open spec fn wf(&self) -> bool {
        &&& !(self.InputSection is Some && self.SectionFragment is Some)
        &&& self.InputSection is Some ==> self.File is Some
    }

    /// A symbol that nothing defines yet.
    pub fn new(name: &[u8]) -> (r: Symbol)
        ensures
            r.is_fresh(name@),
            r.wf(),
    {
        Symbol {
            File: None,
            InputSection: None,
            Name: ToVec(name),
            Value: 0,
            SymIdx: 0,
            SectionFragment: None,
            GotTpIdx: 0,
            Flags: 0,
        }
    }

    /// Binds the symbol to a section, or to none; it lies in no fragment
    /// afterwards.
    pub fn SetInputSection(&mut self, isec: Option<usize>)
        ensures
            final(self).InputSection == isec,
            final(self).SectionFragment is None,
            final(self).File == old(self).File,
            final(self).Name == old(self).Name,
            final(self).Value == old(self).Value,
            final(self).SymIdx == old(self).SymIdx,
            final(self).GotTpIdx == old(self).GotTpIdx,
            final(self).Flags == old(self).Flags,
    {
        self.InputSection = isec;
        self.SectionFragment = None;
    }

    /// Binds the symbol to a fragment, or to none; it lies in no section
    /// afterwards.
    pub fn SetSectionFragment(&mut self, frag: Option<FragmentRef>)
        ensures
            final(self).SectionFragment == frag,
            final(self).InputSection is None,
            final(self).File == old(self).File,
            final(self).Name == old(self).Name,
            final(self).Value == old(self).Value,
            final(self).SymIdx == old(self).SymIdx,
            final(self).GotTpIdx == old(self).GotTpIdx,
            final(self).Flags == old(self).Flags,
    {
        self.InputSection = None;
        self.SectionFragment = frag;
    }
}

/// The names of `syms`, position by position.
pub open spec fn symbol_names(syms: Seq<Symbol>) -> Seq<Seq<u8>> {
    Seq::new(syms.len(), |i: int| syms[i].Name@)
}

/// No name stands at two positions.
pub open spec fn names_unique(names: Seq<Seq<u8>>) -> bool {
    forall|i: int, j: int| 0 <= i < j < names.len() ==> names[i] != names[j]
}

/// The position of `name` among `syms`, if it is there.
pub fn FindSymbol(syms: &Vec<Symbol>, name: &[u8]) -> (r: Option<usize>)
    ensures
        r is Some ==> r.unwrap() < syms.len() && syms[r.unwrap() as int].Name@ == name@,
        r is None ==> forall|i: int| 0 <= i < syms.len() ==> syms[i].Name@ != name@,
{
    let n: usize = syms.len();
    let mut i: usize = 0;
    while i < n
        invariant
            i <= n,
            n == syms.len(),
            forall|j: int| 0 <= j < i ==> syms[j].Name@ != name@,
        decreases n - i,
    {
        if BytesEq(syms[i].Name.as_slice(), name) {
            return Some(i);
        }
        i = i + 1;
    }
    None
}

impl Symbol {
    /// The position in the table of globals of the symbol called `name`.
    /// The symbol is made and appended where the table has none of that
    /// name. Nothing else in the context changes, and no other symbol
    /// does.
    pub fn GetSymbolByName(ctx: &mut Context, name: &[u8]) -> (r: usize)
        requires
            old(ctx).wf(),
        ensures
            final(ctx).wf(),
            *final(ctx) == (Context { SymbolMap: final(ctx).SymbolMap, ..*old(ctx) }),
            r < final(ctx).SymbolMap@.len(),
            final(ctx).SymbolMap@[r as int].Name@ == name@,
            r < old(ctx).SymbolMap@.len() ==> final(ctx).SymbolMap@ == old(ctx).SymbolMap@,
            r >= old(ctx).SymbolMap@.len() ==> {
                &&& r == old(ctx).SymbolMap@.len()
                &&& final(ctx).SymbolMap@.len() == r + 1
                &&& final(ctx).SymbolMap@.subrange(0, r as int) == old(ctx).SymbolMap@
                &&& final(ctx).SymbolMap@[r as int].is_fresh(name@)
                &&& forall|i: int| 0 <= i < r ==> old(ctx).SymbolMap@[i].Name@ != name@
            },
    {
        proof {
            reveal(Context::wf);
        }
        match FindSymbol(&ctx.SymbolMap, name) {
            Some(i) => i,
            None => {
                let idx: usize = ctx.SymbolMap.len();
                ctx.SymbolMap.push(Symbol::new(name));
                proof {
                    assert(final(ctx).SymbolMap@.subrange(0, idx as int) =~= old(ctx).SymbolMap@);
                    assert forall|o: int| 0 <= o < ctx.Objs@.len() implies #[trigger] ctx.object_ok(
                        o,
                    ) by {
                        assert(old(ctx).object_ok(o));
                    }
                    assert forall|g: int| 0 <= g < ctx.SymbolMap@.len() implies ctx.symbol_ok(
                        #[trigger] ctx.SymbolMap@[g],
                    ) by {
                        if g < idx {
                            assert(old(ctx).symbol_ok(old(ctx).SymbolMap@[g]));
                        }
                    }
                    let names = symbol_names(ctx.SymbolMap@);
                    let old_names = symbol_names(old(ctx).SymbolMap@);
                    assert forall|i: int, j: int| 0 <= i < j < names.len() implies names[i]
                        != names[j] by {
                        if j < idx {
                            assert(old_names[i] != old_names[j]);
                        }
                    }
                }
                idx
            },
        }
    }

    /// Whether the object that defines the symbol takes part in the link.
    /// A symbol that nothing defines has no live file.
    pub fn FileAlive(&self, ctx: &Context) -> (r: bool)
        requires
            ctx.symbol_ok(*self),
        ensures
            r == (self.File is Some && ctx.Objs@[self.File.unwrap() as int].inputFile.IsAlive),
    {
        match self.File {
            Some(f) => ctx.Objs[f].inputFile.IsAlive,
            None => false,
        }
    }

    /// The entry of the symbol table of the defining object that defines
    /// the symbol.
    pub fn ElfSym(&self, ctx: &Context) -> (r: Sym)
        requires
            ctx.symbol_ok(*self),
            self.File is Some,
            self.SymIdx < ctx.Objs@[self.File.unwrap() as int].inputFile.ElfSyms@.len(),
        ensures
            r == ctx.Objs@[self.File.unwrap() as int].inputFile.ElfSyms@[self.SymIdx as int],
    {
        ctx.Objs[self.File.unwrap()].inputFile.ElfSyms[self.SymIdx]
    }

    /// The address of the symbol in the output: the address of its
    /// fragment or of its section plus its value, or its value alone where
    /// it lies in neither. Addresses wrap around at 2^64.
    pub open spec fn spec_addr(&self, ctx: &Context) -> u64 {
        if let Some(r) = self.SectionFragment {
            wrap_add(
                wrap_add(
                    ctx.MergedSections@[r.Section as int].Chunk.Shdr.Addr,
                    ctx.MergedSections@[r.Section as int].Map@[r.Index as int].Frag.Offset as u64,
                ),
                self.Value,
            )
        } else if let Some(s) = self.InputSection {
            let sec = ctx.Objs@[self.File.unwrap() as int].Sections@[s as int].unwrap();
            wrap_add(
                wrap_add(ctx.OutputSections@[sec.OutputSection as int].Chunk.Shdr.Addr, sec.Offset),
                self.Value,
            )
        } else {
            self.Value
        }
    }

    /// The address of the symbol in the output.
    pub fn GetAddr(&self, ctx: &Context) -> (r: u64)
        requires
            ctx.symbol_placed(*self),
        ensures
            r == self.spec_addr(ctx),
    {
        if let Some(fr) = self.SectionFragment {
            let m = &ctx.MergedSections[fr.Section];
            let base: u64 = m.Chunk.Shdr.Addr.wrapping_add(m.Map[fr.Index].Frag.Offset as u64);
            return base.wrapping_add(self.Value);
        }
        if let Some(s) = self.InputSection {
            let f: usize = self.File.unwrap();
            assert(ctx.section_exists(f as int, s as int));
            match &ctx.Objs[f].Sections[s] {
                Some(sec) => {
                    let base: u64 = ctx.OutputSections[sec.OutputSection].Chunk.Shdr.Addr.wrapping_add(
                        sec.Offset,
                    );
                    return base.wrapping_add(self.Value);
                },
                None => {
                    return self.Value;
                },
            }
        }
        self.Value
    }

    /// The address of the slot of the symbol in the table of addresses
    /// relative to the thread pointer.
    pub fn GetGotTpAddr(&self, ctx: &Context) -> (r: u64)
        ensures
            r == wrap_add(ctx.Got.Chunk.Shdr.Addr, (((self.GotTpIdx as u64) * 8) % 0x1_0000_0000_0000_0000) as u64),
    {
        ctx.Got.Chunk.Shdr.Addr.wrapping_add((self.GotTpIdx as u64).wrapping_mul(8))
    }
}

} // verus!
