//! Instruction immediates of RISC-V, and the table of thread-pointer
//! relative addresses.
use vstd::prelude::*;
use crate::linker::abi;
use crate::linker::elf::Shdr;
use crate::linker::output::Chunk;
use crate::linker::symbol::{SymbolId, Symbol, wrap_sub};
use crate::linker::context::{Context, marks_changed, lemma_wf_marks, lemma_wf_parts, lemma_symbol_placed};
use crate::linker::error::LinkError;
use crate::utils::{Bit, Bits, spec_bit, spec_bits, ReadU32, WriteU32, spec_u32_le, bytes_of_u32, overwrite};

verus! {

/// A symbol by where it lives: the object whose symbol table names it, and
/// its place among the locals of that object or among the globals.
#[derive(Clone, Copy, Debug, PartialEq, Eq, Structural)]
pub struct SymbolLoc {
    pub Obj: usize,
    pub Id: SymbolId,
}

/// The table of addresses relative to the thread pointer: one slot of 8
/// bytes for each symbol in `GotTpSyms`, in that order.
#[derive(Debug)]
pub struct GotSection {
    pub Chunk: Chunk,
    pub GotTpSyms: Vec<SymbolLoc>,
}

/// What one slot of the table holds: the number of the slot and the
/// address of its symbol relative to the thread pointer.
#[derive(Clone, Copy, Debug, PartialEq, Eq, Structural)]
pub struct GotEntry {
    pub Idx: usize,
    pub Val: u64,
}

/// `.got`
pub open spec fn GOT_NAME() -> Seq<u8> {
    seq![0x2eu8, 0x67, 0x6f, 0x74]
}

impl GotSection {
    /// The empty table: `.got`, program bits, allocated and writable.
    pub fn new() -> (r: GotSection)
        ensures
            r.Chunk.Name@ == GOT_NAME(),
            r.Chunk.Shndx == 0,
            r.Chunk.Shdr == (Shdr {
                Type: abi::SHT_PROGBITS,
                Flags: 3,
                ..Shdr::zero()
            }),
            r.GotTpSyms@.len() == 0,
    {
        let mut c = Chunk::new();
        let name: Vec<u8> = vec![0x2eu8, 0x67, 0x6f, 0x74];
        assert(name@ =~= GOT_NAME());
        c.Name = name;
        c.Shdr.Type = abi::SHT_PROGBITS;
        c.Shdr.Flags = abi::SHF_ALLOC | abi::SHF_WRITE;
        c.Shdr.AddrAlign = 0;
        assert(abi::SHF_ALLOC | abi::SHF_WRITE == 3) by (bit_vector);
        GotSection { Chunk: c, GotTpSyms: Vec::new() }
    }
}

/// The immediate field of an I-type instruction that holds `val`.
pub open spec fn spec_itype(val: u32) -> u32 {
    val << 20
}

/// The immediate fields of an S-type instruction that hold `val`.
pub open spec fn spec_stype(val: u32) -> u32 {
    (spec_bits(val, 11, 5) << 25) | (spec_bits(val, 4, 0) << 7)
}

/// The immediate fields of a B-type instruction that hold `val`.
pub open spec fn spec_btype(val: u32) -> u32 {
    (spec_bit(val, 12) << 31) | (spec_bits(val, 10, 5) << 25) | (spec_bits(val, 4, 1) << 8) | (
    spec_bit(val, 11) << 7)
}

/// The immediate field of a U-type instruction that pairs with a
/// sign-extended low part of 12 bits to give `val`.
pub open spec fn spec_utype(val: u32) -> u32 {
    (((val as int + 0x800) % 0x1_0000_0000) as u32) & 0xffff_f000
}

/// The immediate fields of a J-type instruction that hold `val`.
pub open spec fn spec_jtype(val: u32) -> u32 {
    (spec_bit(val, 20) << 31) | (spec_bits(val, 10, 1) << 21) | (spec_bit(val, 11) << 20) | (
    spec_bits(val, 19, 12) << 12)
}

/// The immediate that an I-type instruction word holds, not sign-extended.
pub open spec fn spec_imm_of_itype(word: u32) -> u32 {
    word >> 20
}

/// The immediate that an S-type instruction word holds, not sign-extended.
pub open spec fn spec_imm_of_stype(word: u32) -> u32 {
    ((word >> 25) << 5) | ((word >> 7) & 0x1f)
}

/// The immediate that a B-type instruction word holds, not sign-extended.
pub open spec fn spec_imm_of_btype(word: u32) -> u32 {
    ((word >> 31) << 12) | (((word >> 25) & 0x3f) << 5) | (((word >> 8) & 0xf) << 1) | (((word
        >> 7) & 1) << 11)
}

/// The immediate that a J-type instruction word holds, not sign-extended.
pub open spec fn spec_imm_of_jtype(word: u32) -> u32 {
    ((word >> 31) << 20) | (((word >> 21) & 0x3ff) << 1) | (((word >> 20) & 1) << 11) | (((word
        >> 12) & 0xff) << 12)
}

/// The low 12 bits of `val`, read as a two's-complement number and widened
/// to 32 bits.
pub open spec fn spec_low12_signed(val: u32) -> u32 {
    if val & 0x800 != 0 {
        (val & 0xfff) | 0xffff_f000
    } else {
        val & 0xfff
    }
}

/// An I-type immediate reads back as the low 12 bits that went in.
pub proof fn lemma_itype_decodes(val: u32)
    ensures
        spec_imm_of_itype(spec_itype(val)) == val & 0xfff,
        spec_itype(val) & 0x000f_ffff == 0,
{
    assert((val << 20) >> 20 == val & 0xfff) by (bit_vector);
    assert((val << 20) & 0x000f_ffff == 0) by (bit_vector);
}

/// An S-type immediate reads back as the low 12 bits that went in, and
/// touches no other field of the instruction.
pub proof fn lemma_stype_decodes(val: u32)
    ensures
        spec_imm_of_stype(spec_stype(val)) == val & 0xfff,
        spec_stype(val) & 0x01ff_f07f == 0,
{
    assert(spec_imm_of_stype(spec_stype(val)) == val & 0xfff && spec_stype(val) & 0x01ff_f07f
        == 0) by (bit_vector);
}

/// A B-type immediate reads back as bits 12 to 1 of what went in, and
/// touches no other field of the instruction.
pub proof fn lemma_btype_decodes(val: u32)
    ensures
        spec_imm_of_btype(spec_btype(val)) == val & 0x1ffe,
        spec_btype(val) & 0x01ff_f07f == 0,
{
    assert(spec_imm_of_btype(spec_btype(val)) == val & 0x1ffe && spec_btype(val) & 0x01ff_f07f
        == 0) by (bit_vector);
}

/// A J-type immediate reads back as bits 20 to 1 of what went in, and
/// touches no other field of the instruction.
pub proof fn lemma_jtype_decodes(val: u32)
    ensures
        spec_imm_of_jtype(spec_jtype(val)) == val & 0x1f_fffe,
        spec_jtype(val) & 0x0000_0fff == 0,
{
    assert(spec_imm_of_jtype(spec_jtype(val)) == val & 0x1f_fffe && spec_jtype(val)
        & 0x0000_0fff == 0) by (bit_vector);
}

/// The high part that a U-type instruction holds and the sign-extended low
/// 12 bits add up, modulo 2^32, to the value that was split.
pub proof fn lemma_utype_pairs_with_low12(val: u32)
    ensures
        ((spec_utype(val) + spec_low12_signed(val)) % 0x1_0000_0000) as u32 == val,
        spec_utype(val) & 0x0000_0fff == 0,
{
    assert(((spec_utype(val) + spec_low12_signed(val)) % 0x1_0000_0000) as u32 == val
        && spec_utype(val) & 0x0000_0fff == 0) by (bit_vector);
}

/// The immediate field of an I-type instruction that holds `val`.
pub fn itype(val: u32) -> (r: u32)
    ensures
        r == spec_itype(val),
{
    val << 20
}

/// The immediate fields of an S-type instruction that hold `val`.
pub fn stype(val: u32) -> (r: u32)
    ensures
        r == spec_stype(val),
{
    (Bits(val, 11, 5) << 25) | (Bits(val, 4, 0) << 7)
}

/// The immediate fields of a B-type instruction that hold `val`.
pub fn btype(val: u32) -> (r: u32)
    ensures
        r == spec_btype(val),
{
    (Bit(val, 12) << 31) | (Bits(val, 10, 5) << 25) | (Bits(val, 4, 1) << 8) | (Bit(val, 11) << 7)
}

/// The immediate field of a U-type instruction that pairs with a
/// sign-extended low part of 12 bits to give `val`.
pub fn utype(val: u32) -> (r: u32)
    ensures
        r == spec_utype(val),
{
    val.wrapping_add(0x800) & 0xffff_f000
}

/// The immediate fields of a J-type instruction that hold `val`.
pub fn jtype(val: u32) -> (r: u32)
    ensures
        r == spec_jtype(val),
{
    (Bit(val, 20) << 31) | (Bits(val, 10, 1) << 21) | (Bit(val, 11) << 20) | (Bits(val, 19, 12)
        << 12)
}

/// The immediate fields of a compressed branch that hold `val`.
pub open spec fn spec_cbtype(val: u16) -> u16 {
    let v: u32 = val as u32;
    (((spec_bit(v, 8) << 12) | (spec_bit(v, 4) << 11) | (spec_bit(v, 3) << 10) | (spec_bit(v, 7)
        << 6) | (spec_bit(v, 6) << 5) | (spec_bit(v, 2) << 4) | (spec_bit(v, 1) << 3) | (spec_bit(
        v,
        5,
    ) << 2)) & 0x1fff) as u16
}

/// The immediate fields of a compressed jump that hold `val`.
pub open spec fn spec_cjtype(val: u16) -> u16 {
    let v: u32 = val as u32;
    (((spec_bit(v, 11) << 12) | (spec_bit(v, 4) << 11) | (spec_bit(v, 9) << 10) | (spec_bit(v, 8)
        << 9) | (spec_bit(v, 10) << 8) | (spec_bit(v, 6) << 7) | (spec_bit(v, 7) << 6) | (
    spec_bit(v, 3) << 5) | (spec_bit(v, 2) << 4) | (spec_bit(v, 1) << 3) | (spec_bit(v, 5) << 2))
        & 0x1fff) as u16
}

/// The immediate fields of a compressed branch that hold `val`.
pub fn cbtype(val: u16) -> (r: u16)
    ensures
        r == spec_cbtype(val),
{
    let v: u32 = val as u32;
    let w: u32 = ((Bit(v, 8) << 12) | (Bit(v, 4) << 11) | (Bit(v, 3) << 10) | (Bit(v, 7) << 6) | (
    Bit(v, 6) << 5) | (Bit(v, 2) << 4) | (Bit(v, 1) << 3) | (Bit(v, 5) << 2)) & 0x1fff;
    assert(w <= 0x1fff) by (bit_vector)
        requires
            exists|x: u32| w == x & 0x1fff,
    ;
    w as u16
}

/// The immediate fields of a compressed jump that hold `val`.
pub fn cjtype(val: u16) -> (r: u16)
    ensures
        r == spec_cjtype(val),
{
    let v: u32 = val as u32;
    let w: u32 = ((Bit(v, 11) << 12) | (Bit(v, 4) << 11) | (Bit(v, 9) << 10) | (Bit(v, 8) << 9) | (
    Bit(v, 10) << 8) | (Bit(v, 6) << 7) | (Bit(v, 7) << 6) | (Bit(v, 3) << 5) | (Bit(v, 2) << 4)
        | (Bit(v, 1) << 3) | (Bit(v, 5) << 2)) & 0x1fff;
    assert(w <= 0x1fff) by (bit_vector)
        requires
            exists|x: u32| w == x & 0x1fff,
    ;
    w as u16
}

/// The bits of an I-type instruction outside its immediate.
pub const ITYPE_KEEP: u32 = 0x000f_ffff;

/// The bits of an S-type instruction outside its immediate.
pub const STYPE_KEEP: u32 = 0x01ff_f07f;

/// The bits of a B-type instruction outside its immediate.
pub const BTYPE_KEEP: u32 = 0x01ff_f07f;

/// The bits of a U-type instruction outside its immediate.
pub const UTYPE_KEEP: u32 = 0x0000_0fff;

/// The bits of a J-type instruction outside its immediate.
pub const JTYPE_KEEP: u32 = 0x0000_0fff;

/// The bits of an instruction outside its first source register.
pub const RS1_KEEP: u32 = 0xfff0_7fff;

/// `buf` with the instruction word at `off` keeping the bits under `keep`
/// and taking every other bit from `fields`.
pub open spec fn patched(buf: Seq<u8>, off: int, keep: u32, fields: u32) -> Seq<u8> {
    overwrite(buf, off, bytes_of_u32((spec_u32_le(buf, off) & keep) | fields))
}

fn patch(buf: &mut Vec<u8>, off: usize, keep: u32, fields: u32)
    requires
        off + 4 <= old(buf).len(),
    ensures
        final(buf)@ == patched(old(buf)@, off as int, keep, fields),
{
    let word: u32 = (ReadU32(buf.as_slice(), off) & keep) | fields;
    WriteU32(buf, off, word);
}

/// Puts `val` into the immediate of the I-type instruction at `off`.
pub fn writeItype(buf: &mut Vec<u8>, off: usize, val: u32)
    requires
        off + 4 <= old(buf).len(),
    ensures
        final(buf)@ == patched(old(buf)@, off as int, ITYPE_KEEP, spec_itype(val)),
{
    patch(buf, off, ITYPE_KEEP, itype(val));
}

/// Puts `val` into the immediate of the S-type instruction at `off`.
pub fn writeStype(buf: &mut Vec<u8>, off: usize, val: u32)
    requires
        off + 4 <= old(buf).len(),
    ensures
        final(buf)@ == patched(old(buf)@, off as int, STYPE_KEEP, spec_stype(val)),
{
    patch(buf, off, STYPE_KEEP, stype(val));
}

/// Puts `val` into the immediate of the B-type instruction at `off`.
pub fn writeBtype(buf: &mut Vec<u8>, off: usize, val: u32)
    requires
        off + 4 <= old(buf).len(),
    ensures
        final(buf)@ == patched(old(buf)@, off as int, BTYPE_KEEP, spec_btype(val)),
{
    patch(buf, off, BTYPE_KEEP, btype(val));
}

/// Puts the high part of `val` into the immediate of the U-type instruction
/// at `off`.
pub fn writeUtype(buf: &mut Vec<u8>, off: usize, val: u32)
    requires
        off + 4 <= old(buf).len(),
    ensures
        final(buf)@ == patched(old(buf)@, off as int, UTYPE_KEEP, spec_utype(val)),
{
    patch(buf, off, UTYPE_KEEP, utype(val));
}

/// Puts `val` into the immediate of the J-type instruction at `off`.
pub fn writeJtype(buf: &mut Vec<u8>, off: usize, val: u32)
    requires
        off + 4 <= old(buf).len(),
    ensures
        final(buf)@ == patched(old(buf)@, off as int, JTYPE_KEEP, spec_jtype(val)),
{
    patch(buf, off, JTYPE_KEEP, jtype(val));
}

/// Makes register `rs1` the first source register of the instruction at
/// `off`; every other field stays.
pub fn setRs1(buf: &mut Vec<u8>, off: usize, rs1: u32)
    requires
        off + 4 <= old(buf).len(),
        rs1 < 32,
    ensures
        final(buf)@ == patched(old(buf)@, off as int, RS1_KEEP, rs1 << 15),
{
    patch(buf, off, RS1_KEEP, rs1 << 15);
}

impl Context {
    /// Whether `loc` names a symbol that is there.
    pub open spec fn has_symbol(&self, loc: SymbolLoc) -> bool {
        &&& loc.Obj < self.Objs@.len()
        &&& match loc.Id {
            SymbolId::Local(q) => q < self.Objs@[loc.Obj as int].inputFile.LocalSymbols@.len(),
            SymbolId::Global(g) => g < self.SymbolMap@.len(),
        }
    }

    /// Whether every symbol with a slot in the table of thread-pointer
    /// relative addresses is there.
    pub open spec fn got_ok(&self) -> bool {
        forall|k: int|
            0 <= k < self.Got.GotTpSyms@.len() ==> self.has_symbol(#[trigger] self.Got.GotTpSyms@[k])
    }
}

impl GotSection {
    /// Gives the symbol `loc` the next slot of the table of addresses
    /// relative to the thread pointer: the symbol gets the number of the
    /// slot, and the table grows by the 8 bytes of the slot. Nothing
    /// changes where the table cannot grow.
    pub fn AddGotTpSymbol(ctx: &mut Context, loc: SymbolLoc) -> (r: Result<(), LinkError>)
        requires
            old(ctx).wf(),
            old(ctx).has_symbol(loc),
        ensures
            final(ctx).wf(),
            r is Ok <==> old(ctx).Got.Chunk.Shdr.Size <= u64::MAX - 8 && old(ctx).Got.Chunk.Shdr.Size
                / 8 <= usize::MAX,
            r is Err ==> r == Err::<(), LinkError>(LinkError::TooLarge) && *final(ctx) == *old(ctx),
            r is Ok ==> {
                &&& marks_changed(*old(ctx), *final(ctx))
                &&& final(ctx).Got.GotTpSyms@ == old(ctx).Got.GotTpSyms@.push(loc)
                &&& final(ctx).Got.Chunk.Shdr.Size == old(ctx).Got.Chunk.Shdr.Size + 8
                &&& final(ctx).symbol_at(loc.Obj as int, loc.Id) == (Symbol {
                    GotTpIdx: (old(ctx).Got.Chunk.Shdr.Size / 8) as usize,
                    ..old(ctx).symbol_at(loc.Obj as int, loc.Id)
                })
                &&& old(ctx).got_ok() ==> final(ctx).got_ok()
            },
    {
        let size: u64 = ctx.Got.Chunk.Shdr.Size;
        if size > u64::MAX - 8 || size / 8 > usize::MAX as u64 {
            return Err(LinkError::TooLarge);
        }
        let slot: usize = (size / 8) as usize;
        match loc.Id {
            SymbolId::Local(q) => {
                ctx.Objs[loc.Obj].inputFile.LocalSymbols[q].GotTpIdx = slot;
            },
            SymbolId::Global(g) => {
                ctx.SymbolMap[g].GotTpIdx = slot;
            },
        }
        ctx.Got.Chunk.Shdr.Size = size + 8;
        ctx.Got.GotTpSyms.push(loc);
        proof {
            lemma_wf_marks(*old(ctx), *ctx);
            if old(ctx).got_ok() {
                assert forall|k: int| 0 <= k < ctx.Got.GotTpSyms@.len() implies ctx.has_symbol(
                    #[trigger] ctx.Got.GotTpSyms@[k],
                ) by {
                    if k < old(ctx).Got.GotTpSyms@.len() {
                        assert(old(ctx).has_symbol(old(ctx).Got.GotTpSyms@[k]));
                    }
                }
            }
        }
        Ok(())
    }

    /// What the slots of the table hold: for every symbol with a slot, in
    /// the order of the slots, the number of its slot and its address
    /// relative to the thread pointer.
    pub fn GetEntries(ctx: &Context) -> (r: Vec<GotEntry>)
        requires
            ctx.wf(),
            ctx.got_ok(),
        ensures
            r@.len() == ctx.Got.GotTpSyms@.len(),
            forall|k: int|
                0 <= k < r@.len() ==> #[trigger] r@[k] == (GotEntry {
                    Idx: ctx.symbol_at(
                        ctx.Got.GotTpSyms@[k].Obj as int,
                        ctx.Got.GotTpSyms@[k].Id,
                    ).GotTpIdx,
                    Val: wrap_sub(
                        ctx.symbol_at(
                            ctx.Got.GotTpSyms@[k].Obj as int,
                            ctx.Got.GotTpSyms@[k].Id,
                        ).spec_addr(ctx),
                        ctx.TpAddr,
                    ),
                }),
    {
        proof {
            lemma_wf_parts(*ctx);
        }
        let n: usize = ctx.Got.GotTpSyms.len();
        let mut out: Vec<GotEntry> = Vec::with_capacity(n);
        let mut k: usize = 0;
        while k < n
            invariant
                k <= n,
                n == ctx.Got.GotTpSyms@.len(),
                ctx.wf(),
                ctx.got_ok(),
                ctx.symbols_ok(),
                forall|o: int| 0 <= o < ctx.Objs@.len() ==> #[trigger] ctx.object_ok(o),
                out@.len() == k,
                forall|j: int|
                    0 <= j < k ==> #[trigger] out@[j] == (GotEntry {
                        Idx: ctx.symbol_at(
                            ctx.Got.GotTpSyms@[j].Obj as int,
                            ctx.Got.GotTpSyms@[j].Id,
                        ).GotTpIdx,
                        Val: wrap_sub(
                            ctx.symbol_at(
                                ctx.Got.GotTpSyms@[j].Obj as int,
                                ctx.Got.GotTpSyms@[j].Id,
                            ).spec_addr(ctx),
                            ctx.TpAddr,
                        ),
                    }),
            decreases n - k,
        {
            let loc = ctx.Got.GotTpSyms[k];
            assert(ctx.has_symbol(loc));
            let sym: &Symbol = match loc.Id {
                SymbolId::Local(q) => &ctx.Objs[loc.Obj].inputFile.LocalSymbols[q],
                SymbolId::Global(g) => &ctx.SymbolMap[g],
            };
            proof {
                match loc.Id {
                    SymbolId::Local(q) => {
                        assert(ctx.object_ok(loc.Obj as int));
                        assert(ctx.local_ok(ctx.Objs@[loc.Obj as int], loc.Obj as int, *sym));
                        assert(ctx.symbol_ok(*sym));
                    },
                    SymbolId::Global(g) => {
                        assert(ctx.symbol_ok(*sym));
                    },
                }
                lemma_symbol_placed(*ctx, *sym);
            }
            out.push(GotEntry { Idx: sym.GotTpIdx, Val: sym.GetAddr(ctx).wrapping_sub(ctx.TpAddr) });
            k = k + 1;
        }
        out
    }
}

} // verus!
