//! Copying input sections into the output and applying their relocations.
use vstd::prelude::*;
use crate::linker::abi;
use crate::linker::context::{
    Context, lemma_symbol_placed, lemma_wf_parts, marks_changed, lemma_wf_marks, marked,
};
use crate::linker::elf::{Rela, Shdr, NEEDS_GOT_TP};
use crate::linker::error::LinkError;
use crate::linker::gotsection::{
    patched, spec_btype, spec_itype, spec_jtype, spec_stype, spec_utype, writeBtype, writeItype,
    writeJtype, writeStype, writeUtype, setRs1, BTYPE_KEEP, ITYPE_KEEP, JTYPE_KEEP, STYPE_KEEP,
    UTYPE_KEEP, RS1_KEEP,
};
use crate::linker::inputsections::InputSection;
use crate::linker::objectfile::Objectfile;
use crate::linker::file::InputFile;
use crate::linker::symbol::{Symbol, SymbolId, wrap_add, wrap_sub};
use crate::utils::{
    ReadU32, WriteBytes, WriteU32, WriteU64, SignExtend, bytes_of_u32, bytes_of_u64, overwrite,
    spec_sign_extend, spec_u32_le,
};

verus! {

/// The low 32 bits of `v`.
pub open spec fn low32(v: u64) -> u32 {
    (v % 0x1_0000_0000) as u32
}

/// The low 32 bits of `v`.
pub fn Low32(v: u64) -> (r: u32)
    ensures
        r == low32(v),
{
    (v % 0x1_0000_0000) as u32
}

/// How many bytes a relocation of the kind `ty` writes in the first pass;
/// 0 for a kind that the first pass leaves alone.
pub open spec fn reloc_width(ty: u32) -> int {
    if ty == abi::R_RISCV_64 || ty == abi::R_RISCV_CALL || ty == abi::R_RISCV_CALL_PLT {
        8
    } else if ty == abi::R_RISCV_32 || ty == abi::R_RISCV_BRANCH || ty == abi::R_RISCV_JAL || ty
        == abi::R_RISCV_TLS_GOT_HI20 || ty == abi::R_RISCV_PCREL_HI20 || ty == abi::R_RISCV_HI20
        || ty == abi::R_RISCV_LO12_I || ty == abi::R_RISCV_LO12_S || ty
        == abi::R_RISCV_TPREL_LO12_I || ty == abi::R_RISCV_TPREL_LO12_S {
        4
    } else {
        0
    }
}

/// The instruction at `at` with the low part `v` as its I-type or S-type
/// immediate and, where `v` is a signed number of 12 bits, with `rs1` as
/// its first source register.
pub open spec fn low_part(buf: Seq<u8>, at: int, stype: bool, v: u64, rs1: u32) -> Seq<u8> {
    let w = if stype {
        patched(buf, at, STYPE_KEEP, spec_stype(low32(v)))
    } else {
        patched(buf, at, ITYPE_KEEP, spec_itype(low32(v)))
    };
    if spec_sign_extend(v, 11) == v {
        patched(w, at, RS1_KEEP, rs1 << 15)
    } else {
        w
    }
}

/// The bytes `buf` after the first pass applied one relocation of the
/// kind `ty` at `at`. `s` is the address of the symbol, `a` the addend, `p`
/// the address of the place, `g` the address of the slot of the symbol in
/// the table of thread-pointer relative addresses, `tp` the thread
/// pointer. All sums wrap around at 2^64.
#[verifier::opaque]
pub open spec fn step1(buf: Seq<u8>, at: int, ty: u32, s: u64, a: u64, p: u64, g: u64, tp: u64) -> Seq<
    u8,
> {
    let sa = wrap_add(s, a);
    let sap = wrap_sub(sa, p);
    if ty == abi::R_RISCV_32 {
        overwrite(buf, at, bytes_of_u32(low32(sa)))
    } else if ty == abi::R_RISCV_64 {
        overwrite(buf, at, bytes_of_u64(sa))
    } else if ty == abi::R_RISCV_BRANCH {
        patched(buf, at, BTYPE_KEEP, spec_btype(low32(sap)))
    } else if ty == abi::R_RISCV_JAL {
        patched(buf, at, JTYPE_KEEP, spec_jtype(low32(sap)))
    } else if ty == abi::R_RISCV_CALL || ty == abi::R_RISCV_CALL_PLT {
        patched(
            patched(buf, at, UTYPE_KEEP, spec_utype(low32(sap))),
            at + 4,
            ITYPE_KEEP,
            spec_itype(low32(sap)),
        )
    } else if ty == abi::R_RISCV_TLS_GOT_HI20 {
        overwrite(buf, at, bytes_of_u32(low32(wrap_sub(wrap_add(g, a), p))))
    } else if ty == abi::R_RISCV_PCREL_HI20 {
        overwrite(buf, at, bytes_of_u32(low32(sap)))
    } else if ty == abi::R_RISCV_HI20 {
        patched(buf, at, UTYPE_KEEP, spec_utype(low32(sa)))
    } else if ty == abi::R_RISCV_LO12_I || ty == abi::R_RISCV_LO12_S {
        low_part(buf, at, ty == abi::R_RISCV_LO12_S, sa, 0)
    } else if ty == abi::R_RISCV_TPREL_LO12_I || ty == abi::R_RISCV_TPREL_LO12_S {
        low_part(buf, at, ty == abi::R_RISCV_TPREL_LO12_S, wrap_sub(sa, tp), 4)
    } else {
        buf
    }
}

/// Applies one relocation of the first pass at `at`.
#[verifier::rlimit(100)]
pub fn ApplyStep1(buf: &mut Vec<u8>, at: usize, ty: u32, s: u64, a: u64, p: u64, g: u64, tp: u64)
    requires
        at + reloc_width(ty) <= old(buf)@.len(),
    ensures
        final(buf)@ == step1(old(buf)@, at as int, ty, s, a, p, g, tp),
        final(buf)@.len() == old(buf)@.len(),
{
    reveal(step1);
    let sa: u64 = s.wrapping_add(a);
    let sap: u64 = sa.wrapping_sub(p);
    let len: usize = buf.len();
    if ty == abi::R_RISCV_32 {
        WriteU32(buf, at, Low32(sa));
    } else if ty == abi::R_RISCV_64 {
        WriteU64(buf, at, sa);
    } else if ty == abi::R_RISCV_BRANCH {
        writeBtype(buf, at, Low32(sap));
    } else if ty == abi::R_RISCV_JAL {
        writeJtype(buf, at, Low32(sap));
    } else if ty == abi::R_RISCV_CALL || ty == abi::R_RISCV_CALL_PLT {
        writeUtype(buf, at, Low32(sap));
        writeItype(buf, at + 4, Low32(sap));
    } else if ty == abi::R_RISCV_TLS_GOT_HI20 {
        WriteU32(buf, at, Low32(g.wrapping_add(a).wrapping_sub(p)));
    } else if ty == abi::R_RISCV_PCREL_HI20 {
        WriteU32(buf, at, Low32(sap));
    } else if ty == abi::R_RISCV_HI20 {
        writeUtype(buf, at, Low32(sa));
    } else if ty == abi::R_RISCV_LO12_I || ty == abi::R_RISCV_LO12_S {
        WriteLowPart(buf, at, ty == abi::R_RISCV_LO12_S, sa, 0);
    } else if ty == abi::R_RISCV_TPREL_LO12_I || ty == abi::R_RISCV_TPREL_LO12_S {
        WriteLowPart(buf, at, ty == abi::R_RISCV_TPREL_LO12_S, sa.wrapping_sub(tp), 4);
    }
}

/// Puts the low part `v` into the instruction at `at`.
fn WriteLowPart(buf: &mut Vec<u8>, at: usize, stype: bool, v: u64, rs1: u32)
    requires
        at + 4 <= old(buf)@.len(),
        rs1 < 32,
    ensures
        final(buf)@ == low_part(old(buf)@, at as int, stype, v, rs1),
        final(buf)@.len() == old(buf)@.len(),
{
    if stype {
        writeStype(buf, at, Low32(v));
    } else {
        writeItype(buf, at, Low32(v));
    }
    if SignExtend(v, 11) == v {
        setRs1(buf, at, rs1);
    }
}

/// Patching an instruction twice with the same fields is patching it once.
pub proof fn lemma_patched_idempotent(buf: Seq<u8>, at: int, keep: u32, fields: u32)
    requires
        0 <= at,
        at + 4 <= buf.len(),
    ensures
        patched(patched(buf, at, keep, fields), at, keep, fields) == patched(buf, at, keep, fields),
{
    let w = spec_u32_le(buf, at);
    let v: u32 = (w & keep) | fields;
    let once = patched(buf, at, keep, fields);
    crate::utils::lemma_u32_round_trip(v);
    let b = bytes_of_u32(v);
    assert(once[at] == b[0] && once[at + 1] == b[1] && once[at + 2] == b[2] && once[at + 3] == b[3]);
    assert(spec_u32_le(once, at) == spec_u32_le(b, 0));
    assert(((v & keep) | fields) == v) by (bit_vector)
        requires
            v == (w & keep) | fields,
    ;
    assert(patched(once, at, keep, fields) =~= once);
}

/// The position `base + off` in a buffer of `len` bytes, where `width`
/// bytes fit there.
pub fn Position(len: usize, base: usize, off: u64, width: usize) -> (r: Option<usize>)
    ensures
        r is Some <==> base + off + width <= len,
        r is Some ==> r.unwrap() == base + off,
{
    if base > len || width > len - base {
        return None;
    }
    let room: usize = len - base - width;
    if off > room as u64 {
        return None;
    }
    Some(base + off as usize)
}

impl Context {
    /// The symbol that the relocation `rel` of the object at `o` names, if
    /// the object has a symbol of that index.
    pub open spec fn rel_symbol(&self, o: int, rel: Rela) -> Option<Symbol> {
        let syms = self.Objs@[o].inputFile.Symbols@;
        if rel.Sym < syms.len() {
            Some(self.symbol_at(o, syms[rel.Sym as int]))
        } else {
            None
        }
    }

    /// The address of the section at `s` of the object at `o` in the
    /// output.
    pub open spec fn section_addr(&self, o: int, s: int) -> u64 {
        let sec = self.Objs@[o].Sections@[s].unwrap();
        wrap_add(self.OutputSections@[sec.OutputSection as int].Chunk.Shdr.Addr, sec.Offset)
    }

    /// The address of the slot of `sym` in the table of thread-pointer
    /// relative addresses.
    pub open spec fn got_tp_addr(&self, sym: Symbol) -> u64 {
        wrap_add(
            self.Got.Chunk.Shdr.Addr,
            (((sym.GotTpIdx as u64) * 8) % 0x1_0000_0000_0000_0000) as u64,
        )
    }

    /// The bytes `buf` after one relocation of the section at `s` of the
    /// object at `o`, which stands at `base` in `buf`, had its turn in the
    /// pass `pass`.
    ///
    /// The first pass writes what needs the address of the symbol only. A
    /// relocation without kind or for relaxation is passed over, as is one
    /// whose symbol nothing defines.
    ///
    /// The second pass handles the low parts of addresses relative to the
    /// place: the symbol of such a relocation lies in this section, at the
    /// instruction that holds the high part, and what the first pass wrote
    /// there goes into the I-type or S-type immediate here.
    ///
    /// The third pass turns what the first pass wrote for a high part into
    /// an instruction: the instruction of the input with that value as its
    /// U-type immediate.
    pub open spec fn reloc_step(
        &self,
        pass: int,
        o: int,
        s: int,
        buf: Seq<u8>,
        base: int,
        rel: Rela,
    ) -> Result<Seq<u8>, LinkError> {
        let sec = self.Objs@[o].Sections@[s].unwrap();
        let at = base + rel.Offset;
        if pass == 1 {
            if rel.Type == abi::R_RISCV_NONE || rel.Type == abi::R_RISCV_RELAX {
                Ok(buf)
            } else if self.rel_symbol(o, rel) is None {
                Err(LinkError::Format)
            } else if self.rel_symbol(o, rel).unwrap().File is None || reloc_width(rel.Type) == 0 {
                Ok(buf)
            } else if at + reloc_width(rel.Type) > buf.len() {
                Err(LinkError::Format)
            } else {
                let sym = self.rel_symbol(o, rel).unwrap();
                Ok(
                    step1(
                        buf,
                        at,
                        rel.Type,
                        sym.spec_addr(self),
                        rel.Addend,
                        wrap_add(self.section_addr(o, s), rel.Offset),
                        self.got_tp_addr(sym),
                        self.TpAddr,
                    ),
                )
            }
        } else if pass == 2 {
            if rel.Type != abi::R_RISCV_PCREL_LO12_I && rel.Type != abi::R_RISCV_PCREL_LO12_S {
                Ok(buf)
            } else if self.rel_symbol(o, rel) is None {
                Err(LinkError::Format)
            } else {
                let sym = self.rel_symbol(o, rel).unwrap();
                if !(sym.File == Some(o as usize) && sym.InputSection == Some(s as usize)) {
                    Err(LinkError::Resolution)
                } else if base + sym.Value + 4 > buf.len() || at + 4 > buf.len() {
                    Err(LinkError::Format)
                } else {
                    let val = spec_u32_le(buf, base + sym.Value);
                    if rel.Type == abi::R_RISCV_PCREL_LO12_I {
                        Ok(patched(buf, at, ITYPE_KEEP, spec_itype(val)))
                    } else {
                        Ok(patched(buf, at, STYPE_KEEP, spec_stype(val)))
                    }
                }
            }
        } else {
            if rel.Type != abi::R_RISCV_PCREL_HI20 && rel.Type != abi::R_RISCV_TLS_GOT_HI20 {
                Ok(buf)
            } else if at + 4 > buf.len() || rel.Offset + 4 > sec.Contents@.len() {
                Err(LinkError::Format)
            } else {
                let val = spec_u32_le(buf, at);
                let insn = sec.Contents@.subrange(rel.Offset as int, rel.Offset + 4);
                Ok(patched(overwrite(buf, at, insn), at, UTYPE_KEEP, spec_utype(val)))
            }
        }
    }

    /// The bytes `buf` after the first `upto` relocations of the section
    /// had their turn in the pass `pass`, in their order; the error of the
    /// first that fails.
    pub open spec fn reloc_pass(
        &self,
        pass: int,
        o: int,
        s: int,
        buf: Seq<u8>,
        base: int,
        upto: int,
    ) -> Result<Seq<u8>, LinkError>
        decreases upto,
    {
        if upto <= 0 {
            Ok(buf)
        } else {
            match self.reloc_pass(pass, o, s, buf, base, upto - 1) {
                Err(e) => Err(e),
                Ok(b) => self.reloc_step(
                    pass,
                    o,
                    s,
                    b,
                    base,
                    self.Objs@[o].Sections@[s].unwrap().Rels@[upto - 1],
                ),
            }
        }
    }

    /// The bytes `buf` after the three passes over the relocations of the
    /// section at `s` of the object at `o`, which stands at `base` in
    /// `buf`; the error of the first relocation that fails.
    pub open spec fn relocated(&self, o: int, s: int, buf: Seq<u8>, base: int) -> Result<
        Seq<u8>,
        LinkError,
    > {
        let n = self.Objs@[o].Sections@[s].unwrap().Rels@.len() as int;
        match self.reloc_pass(1, o, s, buf, base, n) {
            Err(e) => Err(e),
            Ok(b1) => match self.reloc_pass(2, o, s, b1, base, n) {
                Err(e) => Err(e),
                Ok(b2) => self.reloc_pass(3, o, s, b2, base, n),
            },
        }
    }
}

/// Lets one relocation of the section at `s` of the object at `o` have
/// its turn in the pass `pass`.
fn RelocStep(ctx: &Context, pass: u8, o: usize, s: usize, buf: &mut Vec<u8>, base: usize, k: usize) -> (r:
    Result<(), LinkError>)
    requires
        ctx.wf(),
        ctx.section_exists(o as int, s as int),
        k < ctx.Objs@[o as int].Sections@[s as int].unwrap().Rels@.len(),
        1 <= pass <= 3,
    ensures
        final(buf)@.len() == old(buf)@.len(),
        match ctx.reloc_step(
            pass as int,
            o as int,
            s as int,
            old(buf)@,
            base as int,
            ctx.Objs@[o as int].Sections@[s as int].unwrap().Rels@[k as int],
        ) {
            Ok(b) => r is Ok && final(buf)@ == b,
            Err(e) => r == Err::<(), LinkError>(e),
        },
{
    if pass == 1 {
        RelocStep1(ctx, o, s, buf, base, k)
    } else if pass == 2 {
        RelocStep2(ctx, o, s, buf, base, k)
    } else {
        RelocStep3(ctx, o, s, buf, base, k)
    }
}

/// The symbol that the relocation `rel` of the object at `o` names.
fn RelSymbol<'a>(ctx: &'a Context, o: usize, rel: &Rela) -> (r: Option<&'a Symbol>)
    requires
        ctx.wf(),
        o < ctx.Objs@.len(),
    ensures
        r is Some <==> ctx.rel_symbol(o as int, *rel) is Some,
        r is Some ==> *r.unwrap() == ctx.rel_symbol(o as int, *rel).unwrap() && ctx.symbol_placed(
            *r.unwrap(),
        ),
{
    proof {
        lemma_wf_parts(*ctx);
        assert(ctx.object_ok(o as int));
    }
    let obj = &ctx.Objs[o];
    if rel.Sym as usize >= obj.inputFile.Symbols.len() {
        return None;
    }
    let sym: &Symbol = match obj.inputFile.Symbols[rel.Sym as usize] {
        SymbolId::Local(q) => &obj.inputFile.LocalSymbols[q],
        SymbolId::Global(g) => &ctx.SymbolMap[g],
    };
    proof {
        match obj.inputFile.Symbols@[rel.Sym as int] {
            SymbolId::Local(q) => {
                assert(ctx.local_ok(*obj, o as int, *sym));
                assert(ctx.symbol_ok(*sym));
            },
            SymbolId::Global(g) => {
                assert(ctx.symbol_ok(*sym));
            },
        }
        lemma_symbol_placed(*ctx, *sym);
    }
    Some(sym)
}

/// How many bytes a relocation of the kind `ty` writes in the first pass.
fn RelocWidth(ty: u32) -> (r: usize)
    ensures
        r == reloc_width(ty),
{
    if ty == abi::R_RISCV_64 || ty == abi::R_RISCV_CALL || ty == abi::R_RISCV_CALL_PLT {
        8
    } else if ty == abi::R_RISCV_32 || ty == abi::R_RISCV_BRANCH || ty == abi::R_RISCV_JAL || ty
        == abi::R_RISCV_TLS_GOT_HI20 || ty == abi::R_RISCV_PCREL_HI20 || ty == abi::R_RISCV_HI20
        || ty == abi::R_RISCV_LO12_I || ty == abi::R_RISCV_LO12_S || ty
        == abi::R_RISCV_TPREL_LO12_I || ty == abi::R_RISCV_TPREL_LO12_S {
        4
    } else {
        0
    }
}

#[verifier::rlimit(100)]
fn RelocStep1(ctx: &Context, o: usize, s: usize, buf: &mut Vec<u8>, base: usize, k: usize) -> (r: Result<
    (),
    LinkError,
>)
    requires
        ctx.wf(),
        ctx.section_exists(o as int, s as int),
        k < ctx.Objs@[o as int].Sections@[s as int].unwrap().Rels@.len(),
    ensures
        final(buf)@.len() == old(buf)@.len(),
        match ctx.reloc_step(
            1,
            o as int,
            s as int,
            old(buf)@,
            base as int,
            ctx.Objs@[o as int].Sections@[s as int].unwrap().Rels@[k as int],
        ) {
            Ok(b) => r is Ok && final(buf)@ == b,
            Err(e) => r == Err::<(), LinkError>(e),
        },
{
    proof {
        lemma_wf_parts(*ctx);
        assert(ctx.object_ok(o as int));
        assert(ctx.section_placed(ctx.Objs@[o as int], s as int));
    }
    let sec = match &ctx.Objs[o].Sections[s] {
        Some(x) => x,
        None => {
            return Ok(());
        },
    };
    let rel = sec.Rels[k];
    let len: usize = buf.len();
    if rel.Type == abi::R_RISCV_NONE || rel.Type == abi::R_RISCV_RELAX {
        return Ok(());
    }
    let sym = match RelSymbol(ctx, o, &rel) {
        Some(x) => x,
        None => {
            return Err(LinkError::Format);
        },
    };
    if sym.File.is_none() {
        return Ok(());
    }
    let width: usize = RelocWidth(rel.Type);
    if width == 0 {
        return Ok(());
    }
    let at: usize = match Position(len, base, rel.Offset, width) {
        Some(v) => v,
        None => {
            return Err(LinkError::Format);
        },
    };
    let sv: u64 = sym.GetAddr(ctx);
    let pv: u64 = sec.GetAddr(ctx).wrapping_add(rel.Offset);
    let gv: u64 = sym.GetGotTpAddr(ctx);
    ApplyStep1(buf, at, rel.Type, sv, rel.Addend, pv, gv, ctx.TpAddr);
    Ok(())
}

fn RelocStep2(ctx: &Context, o: usize, s: usize, buf: &mut Vec<u8>, base: usize, k: usize) -> (r: Result<
    (),
    LinkError,
>)
    requires
        ctx.wf(),
        ctx.section_exists(o as int, s as int),
        k < ctx.Objs@[o as int].Sections@[s as int].unwrap().Rels@.len(),
    ensures
        final(buf)@.len() == old(buf)@.len(),
        match ctx.reloc_step(
            2,
            o as int,
            s as int,
            old(buf)@,
            base as int,
            ctx.Objs@[o as int].Sections@[s as int].unwrap().Rels@[k as int],
        ) {
            Ok(b) => r is Ok && final(buf)@ == b,
            Err(e) => r == Err::<(), LinkError>(e),
        },
{
    let sec = match &ctx.Objs[o].Sections[s] {
        Some(x) => x,
        None => {
            return Ok(());
        },
    };
    let rel = sec.Rels[k];
    let len: usize = buf.len();
    if rel.Type != abi::R_RISCV_PCREL_LO12_I && rel.Type != abi::R_RISCV_PCREL_LO12_S {
        return Ok(());
    }
    let sym = match RelSymbol(ctx, o, &rel) {
        Some(x) => x,
        None => {
            return Err(LinkError::Format);
        },
    };
    if !(sym.File == Some(o) && sym.InputSection == Some(s)) {
        return Err(LinkError::Resolution);
    }
    let from: usize = match Position(len, base, sym.Value, 4) {
        Some(v) => v,
        None => {
            return Err(LinkError::Format);
        },
    };
    let at: usize = match Position(len, base, rel.Offset, 4) {
        Some(v) => v,
        None => {
            return Err(LinkError::Format);
        },
    };
    let val: u32 = ReadU32(buf.as_slice(), from);
    if rel.Type == abi::R_RISCV_PCREL_LO12_I {
        writeItype(buf, at, val);
    } else {
        writeStype(buf, at, val);
    }
    Ok(())
}

fn RelocStep3(ctx: &Context, o: usize, s: usize, buf: &mut Vec<u8>, base: usize, k: usize) -> (r: Result<
    (),
    LinkError,
>)
    requires
        ctx.wf(),
        ctx.section_exists(o as int, s as int),
        k < ctx.Objs@[o as int].Sections@[s as int].unwrap().Rels@.len(),
    ensures
        final(buf)@.len() == old(buf)@.len(),
        match ctx.reloc_step(
            3,
            o as int,
            s as int,
            old(buf)@,
            base as int,
            ctx.Objs@[o as int].Sections@[s as int].unwrap().Rels@[k as int],
        ) {
            Ok(b) => r is Ok && final(buf)@ == b,
            Err(e) => r == Err::<(), LinkError>(e),
        },
{
    let sec = match &ctx.Objs[o].Sections[s] {
        Some(x) => x,
        None => {
            return Ok(());
        },
    };
    let rel = sec.Rels[k];
    let len: usize = buf.len();
    if rel.Type != abi::R_RISCV_PCREL_HI20 && rel.Type != abi::R_RISCV_TLS_GOT_HI20 {
        return Ok(());
    }
    let at: usize = match Position(len, base, rel.Offset, 4) {
        Some(v) => v,
        None => {
            return Err(LinkError::Format);
        },
    };
    let insn = match crate::utils::Slice(sec.Contents.as_slice(), rel.Offset, 4) {
        Some(b) => b,
        None => {
            return Err(LinkError::Format);
        },
    };
    let val: u32 = ReadU32(buf.as_slice(), at);
    WriteBytes(buf, at, insn.as_slice());
    writeUtype(buf, at, val);
    Ok(())
}

impl InputSection {
    /// Applies the relocations of the section at `s` of the object at
    /// `o`, which stands at `base` in `buf`, in three passes: first what
    /// needs the address of the symbol only; then the low parts of
    /// addresses relative to the place, which read what the first pass
    /// wrote for the high part; last the high parts, which become
    /// instructions. A relocation that names no symbol of the object or
    /// that does not lie inside the buffer is a format error; a low part
    /// whose symbol is not its high part in this section is a resolution
    /// error.
    pub fn ApplyRelocAlloc(ctx: &Context, o: usize, s: usize, buf: &mut Vec<u8>, base: usize) -> (r:
        Result<(), LinkError>)
        requires
            ctx.wf(),
            ctx.section_exists(o as int, s as int),
        ensures
            final(buf)@.len() == old(buf)@.len(),
            match ctx.relocated(o as int, s as int, old(buf)@, base as int) {
                Ok(b) => r is Ok && final(buf)@ == b,
                Err(e) => r == Err::<(), LinkError>(e),
            },
    {
        match RunPass(ctx, 1, o, s, buf, base) {
            Ok(()) => {},
            Err(e) => {
                return Err(e);
            },
        }
        match RunPass(ctx, 2, o, s, buf, base) {
            Ok(()) => {},
            Err(e) => {
                return Err(e);
            },
        }
        RunPass(ctx, 3, o, s, buf, base)
    }
}

/// Lets every relocation of the section at `s` of the object at `o` have
/// its turn in the pass `pass`, in their order, and stops at the first
/// that fails.
fn RunPass(ctx: &Context, pass: u8, o: usize, s: usize, buf: &mut Vec<u8>, base: usize) -> (r: Result<
    (),
    LinkError,
>)
    requires
        ctx.wf(),
        ctx.section_exists(o as int, s as int),
        1 <= pass <= 3,
    ensures
        final(buf)@.len() == old(buf)@.len(),
        match ctx.reloc_pass(
            pass as int,
            o as int,
            s as int,
            old(buf)@,
            base as int,
            ctx.Objs@[o as int].Sections@[s as int].unwrap().Rels@.len() as int,
        ) {
            Ok(b) => r is Ok && final(buf)@ == b,
            Err(e) => r == Err::<(), LinkError>(e),
        },
{
    let n: usize = match &ctx.Objs[o].Sections[s] {
        Some(sec) => sec.Rels.len(),
        None => 0,
    };
    let mut k: usize = 0;
    while k < n
        invariant
            k <= n,
            1 <= pass <= 3,
            ctx.wf(),
            ctx.section_exists(o as int, s as int),
            n == ctx.Objs@[o as int].Sections@[s as int].unwrap().Rels@.len(),
            buf@.len() == old(buf)@.len(),
            ctx.reloc_pass(pass as int, o as int, s as int, old(buf)@, base as int, k as int)
                == Ok::<Seq<u8>, LinkError>(buf@),
        decreases n - k,
    {
        match RelocStep(ctx, pass, o, s, buf, base, k) {
            Ok(()) => {},
            Err(e) => {
                proof {
                    lemma_pass_fails(
                        *ctx,
                        pass as int,
                        o as int,
                        s as int,
                        old(buf)@,
                        base as int,
                        k + 1,
                        n as int,
                    );
                }
                return Err(e);
            },
        }
        k = k + 1;
    }
    Ok(())
}

/// A pass that fails at one relocation fails as a whole, with the error
/// of that relocation.
proof fn lemma_pass_fails(
    ctx: Context,
    pass: int,
    o: int,
    s: int,
    buf: Seq<u8>,
    base: int,
    k: int,
    n: int,
)
    requires
        0 <= k <= n,
        ctx.reloc_pass(pass, o, s, buf, base, k) is Err,
    ensures
        ctx.reloc_pass(pass, o, s, buf, base, n) == ctx.reloc_pass(pass, o, s, buf, base, k),
    decreases n - k,
{
    if k < n {
        lemma_pass_fails(ctx, pass, o, s, buf, base, k, n - 1);
    }
}

impl Context {
    /// The bytes `buf` after the section at `s` of the object at `o` was
    /// written at `base`: a section without bits in the file or without
    /// size leaves `buf` as it is; any other section puts its bytes there
    /// and, where it is allocated, has its relocations applied.
    pub open spec fn section_written(&self, o: int, s: int, buf: Seq<u8>, base: int) -> Result<
        Seq<u8>,
        LinkError,
    > {
        let sec = self.Objs@[o].Sections@[s].unwrap();
        let h = self.Objs@[o].spec_shdr(s);
        if h.Type == abi::SHT_NOBITS || sec.ShSize == 0 {
            Ok(buf)
        } else if base + sec.Contents@.len() > buf.len() {
            Err(LinkError::TooLarge)
        } else if h.Flags & abi::SHF_ALLOC != 0 {
            self.relocated(o, s, overwrite(buf, base, sec.Contents@), base)
        } else {
            Ok(overwrite(buf, base, sec.Contents@))
        }
    }
}

impl InputSection {
    /// Copies the bytes of the section into `buf` from `base` on.
    pub fn CopyContents(&self, buf: &mut Vec<u8>, base: usize)
        requires
            base + self.Contents@.len() <= old(buf)@.len(),
        ensures
            final(buf)@ == overwrite(old(buf)@, base as int, self.Contents@),
    {
        WriteBytes(buf, base, self.Contents.as_slice());
    }

    /// Writes the section at `s` of the object at `o` into `buf` at
    /// `base`: its bytes, and on them its relocations where the section is
    /// allocated. A section without bits in the file or without size
    /// writes nothing. Bytes that do not fit in `buf` are an error, as is a
    /// relocation that fails.
    pub fn WriteTo(ctx: &Context, o: usize, s: usize, buf: &mut Vec<u8>, base: usize) -> (r: Result<
        (),
        LinkError,
    >)
        requires
            ctx.wf(),
            ctx.section_exists(o as int, s as int),
        ensures
            final(buf)@.len() == old(buf)@.len(),
            match ctx.section_written(o as int, s as int, old(buf)@, base as int) {
                Ok(b) => r is Ok && final(buf)@ == b,
                Err(e) => r == Err::<(), LinkError>(e),
            },
    {
        proof {
            lemma_wf_parts(*ctx);
            assert(ctx.object_ok(o as int));
            assert(ctx.Objs@[o as int].shape_ok());
        }
        let obj = &ctx.Objs[o];
        let sec = match &obj.Sections[s] {
            Some(x) => x,
            None => {
                return Ok(());
            },
        };
        let h = obj.SectionShdr(s);
        if h.Type == abi::SHT_NOBITS || sec.ShSize == 0 {
            return Ok(());
        }
        let len: usize = buf.len();
        if base > len || sec.Contents.len() > len - base {
            return Err(LinkError::TooLarge);
        }
        sec.CopyContents(buf, base);
        if h.Flags & abi::SHF_ALLOC != 0 {
            InputSection::ApplyRelocAlloc(ctx, o, s, buf, base)
        } else {
            Ok(())
        }
    }
}

impl Context {
    /// Whether one of the first `upto` relocations of the section at `s`
    /// of the object at `o` asks for a slot in the table of addresses
    /// relative to the thread pointer for the symbol `id`, which some
    /// object defines.
    pub open spec fn wants_got_tp(&self, o: int, s: int, id: SymbolId, upto: int) -> bool {
        exists|k: int|
            0 <= k < upto && (#[trigger] self.Objs@[o].Sections@[s].unwrap().Rels@[k]).Type
                == abi::R_RISCV_TLS_GOT_HI20 && self.Objs@[o].Sections@[s].unwrap().Rels@[k].Sym
                < self.Objs@[o].inputFile.Symbols@.len()
                && self.Objs@[o].inputFile.Symbols@[self.Objs@[o].Sections@[s].unwrap().Rels@[k].Sym as int]
                == id && self.symbol_at(o, id).File is Some
    }
}

impl InputSection {
    /// Marks the symbols that the relocations of the section at `s` of the
    /// object at `o` need a slot for in the table of addresses relative to
    /// the thread pointer. A relocation that names no symbol of the object,
    /// or a symbol that nothing defines, marks nothing.
    pub fn ScanRelocations(ctx: &mut Context, o: usize, s: usize)
        requires
            old(ctx).wf(),
            old(ctx).section_exists(o as int, s as int),
        ensures
            final(ctx).wf(),
            marks_changed(*old(ctx), *final(ctx)),
            final(ctx).Got == old(ctx).Got,
            forall|q: int|
                0 <= q < old(ctx).Objs@[o as int].inputFile.Symbols@.len() ==> {
                    let id = #[trigger] old(ctx).Objs@[o as int].inputFile.Symbols@[q];
                    let before = old(ctx).symbol_at(o as int, id);
                    let after = final(ctx).symbol_at(o as int, id);
                    &&& after.GotTpIdx == before.GotTpIdx
                    &&& after.Flags == (if old(ctx).wants_got_tp(
                        o as int,
                        s as int,
                        id,
                        old(ctx).Objs@[o as int].Sections@[s as int].unwrap().Rels@.len() as int,
                    ) {
                        before.Flags | NEEDS_GOT_TP
                    } else {
                        before.Flags
                    })
                },
    {
        proof {
            lemma_wf_parts(*ctx);
            assert(ctx.object_ok(o as int));
        }
        let n: usize = match &ctx.Objs[o].Sections[s] {
            Some(sec) => sec.Rels.len(),
            None => 0,
        };
        let ns: usize = ctx.Objs[o].inputFile.Symbols.len();
        let mut k: usize = 0;
        while k < n
            invariant
                k <= n,
                o < old(ctx).Objs@.len(),
                old(ctx).wf(),
                old(ctx).object_ok(o as int),
                old(ctx).section_exists(o as int, s as int),
                n == old(ctx).Objs@[o as int].Sections@[s as int].unwrap().Rels@.len(),
                ns == old(ctx).Objs@[o as int].inputFile.Symbols@.len(),
                marks_changed(*old(ctx), *ctx),
                ctx.Got == old(ctx).Got,
                forall|q: int|
                    0 <= q < ns ==> {
                        let id = #[trigger] old(ctx).Objs@[o as int].inputFile.Symbols@[q];
                        let before = old(ctx).symbol_at(o as int, id);
                        let after = ctx.symbol_at(o as int, id);
                        &&& after.GotTpIdx == before.GotTpIdx
                        &&& after.Flags == (if old(ctx).wants_got_tp(
                            o as int,
                            s as int,
                            id,
                            k as int,
                        ) {
                            before.Flags | NEEDS_GOT_TP
                        } else {
                            before.Flags
                        })
                    },
            decreases n - k,
        {
            let rel: Rela = match &ctx.Objs[o].Sections[s] {
                Some(sec) => sec.Rels[k],
                None => Rela { Offset: 0, Type: 0, Sym: 0, Addend: 0 },
            };
            let ghost prev = *ctx;
            let ghost rels = old(ctx).Objs@[o as int].Sections@[s as int].unwrap().Rels@;
            assert(rel == rels[k as int]);
            let mut hit: bool = false;
            if rel.Type == abi::R_RISCV_TLS_GOT_HI20 && (rel.Sym as usize) < ns {
                let id = ctx.Objs[o].inputFile.Symbols[rel.Sym as usize];
                match id {
                    SymbolId::Local(q) => {
                        if ctx.Objs[o].inputFile.LocalSymbols[q].File.is_some() {
                            let f: u32 = ctx.Objs[o].inputFile.LocalSymbols[q].Flags;
                            ctx.Objs[o].inputFile.LocalSymbols[q].Flags = f | NEEDS_GOT_TP;
                            hit = true;
                        }
                    },
                    SymbolId::Global(g) => {
                        if ctx.SymbolMap[g].File.is_some() {
                            let f: u32 = ctx.SymbolMap[g].Flags;
                            ctx.SymbolMap[g].Flags = f | NEEDS_GOT_TP;
                            hit = true;
                        }
                    },
                }
            }
            proof {
                let target = if rel.Sym < ns {
                    Some(old(ctx).Objs@[o as int].inputFile.Symbols@[rel.Sym as int])
                } else {
                    None
                };
                assert(marks_changed(*old(ctx), *ctx)) by {
                    assert forall|oo: int, kk: int|
                        0 <= oo < old(ctx).Objs@.len() && 0 <= kk < old(ctx).Objs@[oo].inputFile.LocalSymbols@.len() implies marked(
                        old(ctx).Objs@[oo].inputFile.LocalSymbols@[kk],
                        #[trigger] ctx.Objs@[oo].inputFile.LocalSymbols@[kk],
                    ) by {
                        assert(marked(
                            old(ctx).Objs@[oo].inputFile.LocalSymbols@[kk],
                            prev.Objs@[oo].inputFile.LocalSymbols@[kk],
                        ));
                    }
                    assert forall|g: int| 0 <= g < old(ctx).SymbolMap@.len() implies marked(
                        old(ctx).SymbolMap@[g],
                        #[trigger] ctx.SymbolMap@[g],
                    ) by {
                        assert(marked(old(ctx).SymbolMap@[g], prev.SymbolMap@[g]));
                    }
                    assert forall|oo: int| 0 <= oo < old(ctx).Objs@.len() implies ({
                        &&& #[trigger] ctx.Objs@[oo] == (Objectfile {
                            inputFile: InputFile {
                                LocalSymbols: ctx.Objs@[oo].inputFile.LocalSymbols,
                                ..old(ctx).Objs@[oo].inputFile
                            },
                            ..old(ctx).Objs@[oo]
                        })
                        &&& ctx.Objs@[oo].inputFile.LocalSymbols@.len() == old(ctx).Objs@[oo].inputFile.LocalSymbols@.len()
                    }) by {
                        assert(prev.Objs@[oo] == (Objectfile {
                            inputFile: InputFile {
                                LocalSymbols: prev.Objs@[oo].inputFile.LocalSymbols,
                                ..old(ctx).Objs@[oo].inputFile
                            },
                            ..old(ctx).Objs@[oo]
                        }));
                    }
                }
                assert forall|q: int| 0 <= q < ns implies ({
                    let id = #[trigger] old(ctx).Objs@[o as int].inputFile.Symbols@[q];
                    let before = old(ctx).symbol_at(o as int, id);
                    let after = ctx.symbol_at(o as int, id);
                    &&& after.GotTpIdx == before.GotTpIdx
                    &&& after.Flags == (if old(ctx).wants_got_tp(o as int, s as int, id, k + 1) {
                        before.Flags | NEEDS_GOT_TP
                    } else {
                        before.Flags
                    })
                }) by {
                    let id = old(ctx).Objs@[o as int].inputFile.Symbols@[q];
                    let before = old(ctx).symbol_at(o as int, id);
                    let mid = prev.symbol_at(o as int, id);
                    let after = ctx.symbol_at(o as int, id);
                    assert(marked(before, mid));
                    let was = old(ctx).wants_got_tp(o as int, s as int, id, k as int);
                    let now = old(ctx).wants_got_tp(o as int, s as int, id, k + 1);
                    let here = rel.Type == abi::R_RISCV_TLS_GOT_HI20 && rel.Sym < ns && target
                        == Some(id) && before.File is Some;
                    assert(now == (was || here)) by {
                        if now {
                            let w = choose|w: int|
                                0 <= w < k + 1 && (#[trigger] rels[w]).Type
                                    == abi::R_RISCV_TLS_GOT_HI20 && rels[w].Sym < ns && old(ctx).Objs@[o as int].inputFile.Symbols@[rels[w].Sym as int] == id
                                    && old(ctx).symbol_at(o as int, id).File is Some;
                            if w < k {
                                assert(was);
                            }
                        }
                        if was {
                            let w = choose|w: int|
                                0 <= w < k && (#[trigger] rels[w]).Type
                                    == abi::R_RISCV_TLS_GOT_HI20 && rels[w].Sym < ns && old(ctx).Objs@[o as int].inputFile.Symbols@[rels[w].Sym as int] == id
                                    && old(ctx).symbol_at(o as int, id).File is Some;
                            assert(0 <= w < k + 1);
                        }
                        if here {
                            assert(rels[k as int].Type == abi::R_RISCV_TLS_GOT_HI20);
                        }
                    }
                    let x: u32 = before.Flags;
                    assert((x | 1) | 1 == x | 1) by (bit_vector);
                    if hit && target == Some(id) {
                        assert(after.Flags == mid.Flags | NEEDS_GOT_TP);
                    } else {
                        assert(after == mid) by {
                            if hit {
                                let tid = target.unwrap();
                                assert(tid != id);
                                assert(old(ctx).Objs@[o as int].shape_ok());
                            }
                        }
                    }
                }
            }
            k = k + 1;
        }
        proof {
            lemma_wf_marks(*old(ctx), *ctx);
        }
    }
}

} // verus!
