//! Applying the relocations of a section twice gives what applying them
//! once gives.
use vstd::prelude::*;
use crate::linker::abi;
use crate::linker::context::Context;
use crate::linker::elf::Rela;
use crate::linker::error::LinkError;
use crate::linker::gotsection::{
    patched, spec_btype, spec_itype, spec_jtype, spec_stype, spec_utype, BTYPE_KEEP, ITYPE_KEEP,
    JTYPE_KEEP, RS1_KEEP, STYPE_KEEP, UTYPE_KEEP,
};
use crate::linker::symbol::{wrap_add, wrap_sub};
use crate::utils::{lemma_bytes_len, spec_sign_extend};
use crate::linker::relocation::low32;
use crate::linker::relocation::{low_part, reloc_width, step1};
use crate::utils::{bytes_of_u32, bytes_of_u64, overwrite, spec_u32_le, lemma_u32_round_trip};

verus! {

/// Whether two buffers hold the same bytes from `at` on, `n` of them.
pub open spec fn agree(x: Seq<u8>, y: Seq<u8>, at: int, n: int) -> bool {
    forall|p: int| at <= p < at + n ==> x[p] == y[p]
}

/// Whether the relocation `rel` is a high part: the kind that the first
/// pass stores whole and the third pass turns into an instruction.
pub open spec fn is_high(rel: Rela) -> bool {
    rel.Type == abi::R_RISCV_PCREL_HI20 || rel.Type == abi::R_RISCV_TLS_GOT_HI20
}

/// Whether the relocation `rel` is a low part relative to the place: the
/// kind that the second pass handles.
pub open spec fn is_low(rel: Rela) -> bool {
    rel.Type == abi::R_RISCV_PCREL_LO12_I || rel.Type == abi::R_RISCV_PCREL_LO12_S
}

impl Context {
    /// Whether the relocation `rel` of the object at `o` writes in the
    /// pass `pass`.
    pub open spec fn writes(&self, pass: int, o: int, rel: Rela) -> bool {
        if pass == 1 {
            rel.Type != abi::R_RISCV_NONE && rel.Type != abi::R_RISCV_RELAX && self.rel_symbol(
                o,
                rel,
            ) is Some && self.rel_symbol(o, rel).unwrap().File is Some && reloc_width(rel.Type) > 0
        } else if pass == 2 {
            is_low(rel)
        } else {
            is_high(rel)
        }
    }

    /// How many bytes the relocation `rel` of the object at `o` writes in
    /// the pass `pass`.
    pub open spec fn span(&self, pass: int, o: int, rel: Rela) -> int {
        if !self.writes(pass, o, rel) {
            0
        } else if pass == 1 {
            reloc_width(rel.Type)
        } else {
            4
        }
    }
}

/// A patch changes the four bytes of its instruction only, and what it
/// puts there follows from those four bytes.
pub proof fn lemma_patched_local(x: Seq<u8>, y: Seq<u8>, at: int, keep: u32, fields: u32)
    requires
        0 <= at,
        at + 4 <= x.len(),
        x.len() == y.len(),
        agree(x, y, at, 4),
    ensures
        patched(x, at, keep, fields).len() == x.len(),
        forall|p: int| 0 <= p < x.len() && !(at <= p < at + 4) ==> patched(x, at, keep, fields)[p] == x[p],
        agree(patched(x, at, keep, fields), patched(y, at, keep, fields), at, 4),
        spec_u32_le(patched(x, at, keep, fields), at) == (spec_u32_le(x, at) & keep) | fields,
{
    assert(x[at] == y[at] && x[at + 1] == y[at + 1] && x[at + 2] == y[at + 2] && x[at + 3] == y[at + 3]);
    assert(spec_u32_le(x, at) == spec_u32_le(y, at));
    let v: u32 = (spec_u32_le(x, at) & keep) | fields;
    lemma_u32_round_trip(v);
    let once = patched(x, at, keep, fields);
    let b = bytes_of_u32(v);
    assert(once[at] == b[0] && once[at + 1] == b[1] && once[at + 2] == b[2] && once[at + 3] == b[3]);
    assert(spec_u32_le(once, at) == spec_u32_le(b, 0));
}

/// Overwriting changes the bytes it covers only, and what it puts there
/// does not depend on what was there.
pub proof fn lemma_overwrite_local(x: Seq<u8>, y: Seq<u8>, at: int, b: Seq<u8>)
    requires
        0 <= at,
        at + b.len() <= x.len(),
        x.len() == y.len(),
    ensures
        overwrite(x, at, b).len() == x.len(),
        forall|p: int|
            0 <= p < x.len() && !(at <= p < at + b.len()) ==> overwrite(x, at, b)[p] == x[p],
        agree(overwrite(x, at, b), overwrite(y, at, b), at, b.len() as int),
{
}

/// Patching the same instruction with one field and then with another
/// changes its four bytes only, and what it puts there follows from those
/// four bytes.
proof fn lemma_low_part_local(x: Seq<u8>, y: Seq<u8>, at: int, stype: bool, v: u64, rs1: u32)
    requires
        0 <= at,
        at + 4 <= x.len(),
        x.len() == y.len(),
        agree(x, y, at, 4),
    ensures
        low_part(x, at, stype, v, rs1).len() == x.len(),
        forall|p: int|
            0 <= p < x.len() && !(at <= p < at + 4) ==> low_part(x, at, stype, v, rs1)[p] == x[p],
        agree(low_part(x, at, stype, v, rs1), low_part(y, at, stype, v, rs1), at, 4),
        agree(
            low_part(low_part(x, at, stype, v, rs1), at, stype, v, rs1),
            low_part(x, at, stype, v, rs1),
            at,
            4,
        ),
{
    let keep = if stype {
        STYPE_KEEP
    } else {
        ITYPE_KEEP
    };
    let f = if stype {
        spec_stype(low32(v))
    } else {
        spec_itype(low32(v))
    };
    let f2: u32 = rs1 << 15;
    let wx = patched(x, at, keep, f);
    let wy = patched(y, at, keep, f);
    lemma_patched_local(x, y, at, keep, f);
    lemma_patched_local(wx, wy, at, RS1_KEEP, f2);
    let r = low_part(x, at, stype, v, rs1);
    // the second application
    let w0 = spec_u32_le(x, at);
    let w1: u32 = (w0 & keep) | f;
    let wr = spec_u32_le(r, at);
    let narrow = spec_sign_extend(v, 11) == v;
    assert(wr == (if narrow {
        (w1 & RS1_KEEP) | f2
    } else {
        w1
    }));
    let rx = patched(r, at, keep, f);
    lemma_patched_local(r, r, at, keep, f);
    lemma_patched_local(rx, rx, at, RS1_KEEP, f2);
    let k2 = RS1_KEEP;
    if narrow {
        assert((((((w1 & k2) | f2) & keep) | f) & k2) | f2 == (w1 & k2) | f2) by (bit_vector)
            requires
                w1 == (w0 & keep) | f,
        ;
    } else {
        assert((w1 & keep) | f == w1) by (bit_vector)
            requires
                w1 == (w0 & keep) | f,
        ;
    }
    let rr = low_part(r, at, stype, v, rs1);
    assert(spec_u32_le(rr, at) == wr);
    lemma_word_bytes(rr, r, at);
}

/// Two buffers that hold the same instruction at `at` hold the same four
/// bytes there.
proof fn lemma_word_bytes(x: Seq<u8>, y: Seq<u8>, at: int)
    requires
        0 <= at,
        at + 4 <= x.len(),
        at + 4 <= y.len(),
        spec_u32_le(x, at) == spec_u32_le(y, at),
    ensures
        agree(x, y, at, 4),
{
    let a0 = x[at] as int;
    let a1 = x[at + 1] as int;
    let a2 = x[at + 2] as int;
    let a3 = x[at + 3] as int;
    let b0 = y[at] as int;
    let b1 = y[at + 1] as int;
    let b2 = y[at + 2] as int;
    let b3 = y[at + 3] as int;
    assert(a0 + 0x100 * a1 + 0x1_0000 * (a2 + 0x100 * a3) == b0 + 0x100 * b1 + 0x1_0000 * (b2
        + 0x100 * b3));
    assert(a0 == b0 && a1 == b1 && a2 == b2 && a3 == b3);
}

/// A patch applied twice puts there what applying it once puts there.
proof fn lemma_patched_twice(x: Seq<u8>, at: int, keep: u32, fields: u32)
    requires
        0 <= at,
        at + 4 <= x.len(),
    ensures
        agree(patched(patched(x, at, keep, fields), at, keep, fields), patched(x, at, keep, fields), at, 4),
{
    let w = spec_u32_le(x, at);
    let v: u32 = (w & keep) | fields;
    let once = patched(x, at, keep, fields);
    lemma_patched_local(x, x, at, keep, fields);
    lemma_patched_local(once, once, at, keep, fields);
    assert(((v & keep) | fields) == v) by (bit_vector)
        requires
            v == (w & keep) | fields,
    ;
    lemma_word_bytes(patched(once, at, keep, fields), once, at);
}

/// A step of the first pass changes the bytes of its place only; what it
/// puts there follows from what was there; and doing it twice puts there
/// what doing it once puts there.
pub proof fn lemma_step1_local(
    x: Seq<u8>,
    y: Seq<u8>,
    at: int,
    ty: u32,
    s: u64,
    a: u64,
    p: u64,
    g: u64,
    tp: u64,
)
    requires
        0 <= at,
        at + reloc_width(ty) <= x.len(),
        x.len() == y.len(),
        agree(x, y, at, reloc_width(ty)),
    ensures
        step1(x, at, ty, s, a, p, g, tp).len() == x.len(),
        forall|q: int|
            0 <= q < x.len() && !(at <= q < at + reloc_width(ty)) ==> step1(
                x,
                at,
                ty,
                s,
                a,
                p,
                g,
                tp,
            )[q] == x[q],
        agree(
            step1(x, at, ty, s, a, p, g, tp),
            step1(y, at, ty, s, a, p, g, tp),
            at,
            reloc_width(ty),
        ),
        agree(
            step1(step1(x, at, ty, s, a, p, g, tp), at, ty, s, a, p, g, tp),
            step1(x, at, ty, s, a, p, g, tp),
            at,
            reloc_width(ty),
        ),
{
    reveal(step1);
    let sa = wrap_add(s, a);
    let sap = wrap_sub(sa, p);
    lemma_bytes_len(0, 0, 0);
    if ty == abi::R_RISCV_32 {
        lemma_bytes_len(0, low32(sa), 0);
        lemma_overwrite_local(x, y, at, bytes_of_u32(low32(sa)));
        lemma_overwrite_local(step1(x, at, ty, s, a, p, g, tp), x, at, bytes_of_u32(low32(sa)));
    } else if ty == abi::R_RISCV_64 {
        lemma_bytes_len(0, 0, sa);
        lemma_overwrite_local(x, y, at, bytes_of_u64(sa));
        lemma_overwrite_local(step1(x, at, ty, s, a, p, g, tp), x, at, bytes_of_u64(sa));
    } else if ty == abi::R_RISCV_BRANCH {
        lemma_patched_local(x, y, at, BTYPE_KEEP, spec_btype(low32(sap)));
        lemma_patched_twice(x, at, BTYPE_KEEP, spec_btype(low32(sap)));
    } else if ty == abi::R_RISCV_JAL {
        lemma_patched_local(x, y, at, JTYPE_KEEP, spec_jtype(low32(sap)));
        lemma_patched_twice(x, at, JTYPE_KEEP, spec_jtype(low32(sap)));
    } else if ty == abi::R_RISCV_CALL || ty == abi::R_RISCV_CALL_PLT {
        let fu = spec_utype(low32(sap));
        let fi = spec_itype(low32(sap));
        let x1 = patched(x, at, UTYPE_KEEP, fu);
        let y1 = patched(y, at, UTYPE_KEEP, fu);
        lemma_patched_local(x, y, at, UTYPE_KEEP, fu);
        lemma_patched_local(x1, y1, at + 4, ITYPE_KEEP, fi);
        let r = patched(x1, at + 4, ITYPE_KEEP, fi);
        let r1 = patched(r, at, UTYPE_KEEP, fu);
        lemma_patched_local(r, x1, at, UTYPE_KEEP, fu);
        lemma_patched_twice(x, at, UTYPE_KEEP, fu);
        lemma_patched_local(r1, r, at + 4, ITYPE_KEEP, fi);
        lemma_patched_twice(x1, at + 4, ITYPE_KEEP, fi);
    } else if ty == abi::R_RISCV_TLS_GOT_HI20 {
        let v = low32(wrap_sub(wrap_add(g, a), p));
        lemma_bytes_len(0, v, 0);
        lemma_overwrite_local(x, y, at, bytes_of_u32(v));
        lemma_overwrite_local(step1(x, at, ty, s, a, p, g, tp), x, at, bytes_of_u32(v));
    } else if ty == abi::R_RISCV_PCREL_HI20 {
        lemma_bytes_len(0, low32(sap), 0);
        lemma_overwrite_local(x, y, at, bytes_of_u32(low32(sap)));
        lemma_overwrite_local(step1(x, at, ty, s, a, p, g, tp), x, at, bytes_of_u32(low32(sap)));
    } else if ty == abi::R_RISCV_HI20 {
        lemma_patched_local(x, y, at, UTYPE_KEEP, spec_utype(low32(sa)));
        lemma_patched_twice(x, at, UTYPE_KEEP, spec_utype(low32(sa)));
    } else if ty == abi::R_RISCV_LO12_I || ty == abi::R_RISCV_LO12_S {
        lemma_low_part_local(x, y, at, ty == abi::R_RISCV_LO12_S, sa, 0);
    } else if ty == abi::R_RISCV_TPREL_LO12_I || ty == abi::R_RISCV_TPREL_LO12_S {
        lemma_low_part_local(x, y, at, ty == abi::R_RISCV_TPREL_LO12_S, wrap_sub(sa, tp), 4);
    } else {
    }
}

impl Context {
    /// The relocations of the section at `s` of the object at `o`.
    pub open spec fn rels(&self, o: int, s: int) -> Seq<Rela> {
        self.Objs@[o].Sections@[s].unwrap().Rels@
    }

    /// How many bytes the relocation `rel` writes in any pass.
    pub open spec fn any_span(&self, o: int, rel: Rela) -> int {
        if is_low(rel) {
            4
        } else {
            self.span(1, o, rel)
        }
    }

    /// Whether the first `upto` relocations of the section write the byte
    /// at `q` in the pass `pass`.
    pub open spec fn touched(&self, pass: int, o: int, s: int, base: int, upto: int, q: int) -> bool {
        exists|k: int|
            0 <= k < upto && base + (#[trigger] self.rels(o, s)[k]).Offset <= q < base + self.rels(
                o,
                s,
            )[k].Offset + self.span(pass, o, self.rels(o, s)[k])
    }

    /// Whether the relocations of the section at `s` of the object at `o`,
    /// which stands at `base`, keep out of each other's way: no two write
    /// the same byte; every high part has a symbol that some object
    /// defines; and every low part relative to the place names the place of
    /// a high part.
    pub open spec fn tidy(&self, o: int, s: int, base: int) -> bool {
        let rels = self.rels(o, s);
        &&& 0 <= base
        &&& forall|j: int, k: int|
            0 <= j < k < rels.len() ==> self.any_span(o, #[trigger] rels[j]) == 0 || self.any_span(
                o,
                #[trigger] rels[k],
            ) == 0 || rels[j].Offset + self.any_span(o, rels[j]) <= rels[k].Offset || rels[k].Offset
                + self.any_span(o, rels[k]) <= rels[j].Offset
        &&& forall|k: int|
            0 <= k < rels.len() && is_high(#[trigger] rels[k]) ==> self.writes(1, o, rels[k])
        &&& forall|k: int|
            0 <= k < rels.len() && is_low(#[trigger] rels[k]) && self.rel_symbol(o, rels[k]) is Some
                ==> self.pairs_up(o, s, k)
    }

    /// Whether the low part at `k` names the place of a high part.
    pub open spec fn pairs_up(&self, o: int, s: int, k: int) -> bool {
        exists|h: int|
            0 <= h < self.rels(o, s).len() && is_high(#[trigger] self.rels(o, s)[h]) && self.rels(
                o,
                s,
            )[h].Offset == self.rel_symbol(o, self.rels(o, s)[k]).unwrap().Value
    }
}

/// A step of a pass changes the bytes of its place only, and what it puts
/// there follows from what was there and, for a low part, from what was at
/// the place of its high part.
pub proof fn lemma_step_local(
    ctx: Context,
    pass: int,
    o: int,
    s: int,
    x: Seq<u8>,
    y: Seq<u8>,
    base: int,
    rel: Rela,
)
    requires
        1 <= pass <= 3,
        0 <= base,
        x.len() == y.len(),
        ctx.reloc_step(pass, o, s, x, base, rel) is Ok,
        agree(x, y, base + rel.Offset, ctx.span(pass, o, rel)),
        pass == 2 && is_low(rel) ==> agree(
            x,
            y,
            base + ctx.rel_symbol(o, rel).unwrap().Value,
            4,
        ),
    ensures
        ctx.reloc_step(pass, o, s, y, base, rel) is Ok,
        ctx.reloc_step(pass, o, s, x, base, rel).unwrap().len() == x.len(),
        forall|q: int|
            0 <= q < x.len() && !(base + rel.Offset <= q < base + rel.Offset + ctx.span(
                pass,
                o,
                rel,
            )) ==> ctx.reloc_step(pass, o, s, x, base, rel).unwrap()[q] == x[q],
        agree(
            ctx.reloc_step(pass, o, s, x, base, rel).unwrap(),
            ctx.reloc_step(pass, o, s, y, base, rel).unwrap(),
            base + rel.Offset,
            ctx.span(pass, o, rel),
        ),
{
    let at = base + rel.Offset;
    if pass == 1 {
        if ctx.writes(1, o, rel) {
            let sym = ctx.rel_symbol(o, rel).unwrap();
            lemma_step1_local(
                x,
                y,
                at,
                rel.Type,
                sym.spec_addr(&ctx),
                rel.Addend,
                wrap_add(ctx.section_addr(o, s), rel.Offset),
                ctx.got_tp_addr(sym),
                ctx.TpAddr,
            );
        }
    } else if pass == 2 {
        if is_low(rel) {
            let sym = ctx.rel_symbol(o, rel).unwrap();
            let from = base + sym.Value;
            assert(x[from] == y[from] && x[from + 1] == y[from + 1] && x[from + 2] == y[from + 2]
                && x[from + 3] == y[from + 3]);
            let val = spec_u32_le(x, from);
            assert(val == spec_u32_le(y, from));
            if rel.Type == abi::R_RISCV_PCREL_LO12_I {
                lemma_patched_local(x, y, at, ITYPE_KEEP, spec_itype(val));
            } else {
                lemma_patched_local(x, y, at, STYPE_KEEP, spec_stype(val));
            }
        }
    } else {
        if is_high(rel) {
            let sec = ctx.Objs@[o].Sections@[s].unwrap();
            let insn = sec.Contents@.subrange(rel.Offset as int, rel.Offset + 4);
            assert(x[at] == y[at] && x[at + 1] == y[at + 1] && x[at + 2] == y[at + 2] && x[at + 3]
                == y[at + 3]);
            let val = spec_u32_le(x, at);
            assert(val == spec_u32_le(y, at));
            lemma_overwrite_local(x, y, at, insn);
            lemma_patched_local(
                overwrite(x, at, insn),
                overwrite(y, at, insn),
                at,
                UTYPE_KEEP,
                spec_utype(val),
            );
        }
    }
}

/// A pass over tidy relocations changes the bytes of their places only,
/// and puts at every place what its relocation alone would put there.
pub proof fn lemma_pass_pointwise(
    ctx: Context,
    pass: int,
    o: int,
    s: int,
    x: Seq<u8>,
    base: int,
    upto: int,
)
    requires
        1 <= pass <= 3,
        ctx.tidy(o, s, base),
        0 <= upto <= ctx.rels(o, s).len(),
        ctx.reloc_pass(pass, o, s, x, base, upto) is Ok,
    ensures
        ctx.reloc_pass(pass, o, s, x, base, upto).unwrap().len() == x.len(),
        forall|q: int|
            0 <= q < x.len() && !#[trigger] ctx.touched(pass, o, s, base, upto, q) ==> ctx.reloc_pass(
                pass,
                o,
                s,
                x,
                base,
                upto,
            ).unwrap()[q] == x[q],
        forall|k: int|
            0 <= k < upto ==> ctx.reloc_step(pass, o, s, x, base, #[trigger] ctx.rels(o, s)[k]) is Ok
                && agree(
                ctx.reloc_pass(pass, o, s, x, base, upto).unwrap(),
                ctx.reloc_step(pass, o, s, x, base, ctx.rels(o, s)[k]).unwrap(),
                base + ctx.rels(o, s)[k].Offset,
                ctx.span(pass, o, ctx.rels(o, s)[k]),
            ),
    decreases upto,
{
    if upto > 0 {
        let rels = ctx.rels(o, s);
        let last = rels[upto - 1];
        let prev = ctx.reloc_pass(pass, o, s, x, base, upto - 1).unwrap();
        let y = ctx.reloc_pass(pass, o, s, x, base, upto).unwrap();
        lemma_pass_pointwise(ctx, pass, o, s, x, base, upto - 1);
        let at = base + last.Offset;
        let w = ctx.span(pass, o, last);
        // what came before left the place of the last alone
        assert forall|q: int| at <= q < at + w implies prev[q] == x[q] by {
            lemma_step_bounds(ctx, pass, o, s, prev, base, last);
            if ctx.touched(pass, o, s, base, upto - 1, q) {
                let k = choose|k: int|
                    0 <= k < upto - 1 && base + (#[trigger] ctx.rels(o, s)[k]).Offset <= q < base
                        + ctx.rels(o, s)[k].Offset + ctx.span(pass, o, ctx.rels(o, s)[k]);
                lemma_spans(ctx, pass, o, rels[k]);
                lemma_spans(ctx, pass, o, last);
                assert(rels[k].Offset + ctx.any_span(o, rels[k]) <= rels[upto - 1].Offset
                    || rels[upto - 1].Offset + ctx.any_span(o, rels[upto - 1]) <= rels[k].Offset);
            }
        }
        if pass == 2 && is_low(last) {
            let sym = ctx.rel_symbol(o, last).unwrap();
            let from = base + sym.Value;
            lemma_step_bounds(ctx, pass, o, s, prev, base, last);
            assert(ctx.pairs_up(o, s, upto - 1));
            let h = choose|h: int|
                0 <= h < ctx.rels(o, s).len() && is_high(#[trigger] ctx.rels(o, s)[h]) && ctx.rels(
                    o,
                    s,
                )[h].Offset == ctx.rel_symbol(o, ctx.rels(o, s)[upto - 1]).unwrap().Value;
            assert forall|q: int| from <= q < from + 4 implies prev[q] == x[q] by {
                if ctx.touched(pass, o, s, base, upto - 1, q) {
                    let k = choose|k: int|
                        0 <= k < upto - 1 && base + (#[trigger] ctx.rels(o, s)[k]).Offset <= q
                            < base + ctx.rels(o, s)[k].Offset + ctx.span(
                            pass,
                            o,
                            ctx.rels(o, s)[k],
                        );
                    lemma_spans(ctx, pass, o, rels[k]);
                    assert(is_low(rels[k]));
                    assert(ctx.writes(1, o, rels[h]));
                    if k < h {
                        assert(rels[k].Offset + ctx.any_span(o, rels[k]) <= rels[h].Offset
                            || rels[h].Offset + ctx.any_span(o, rels[h]) <= rels[k].Offset);
                    } else {
                        assert(rels[h].Offset + ctx.any_span(o, rels[h]) <= rels[k].Offset
                            || rels[k].Offset + ctx.any_span(o, rels[k]) <= rels[h].Offset);
                    }
                }
            }
        }
        lemma_step_local(ctx, pass, o, s, prev, x, base, last);
        assert forall|q: int|
            0 <= q < x.len() && !#[trigger] ctx.touched(pass, o, s, base, upto, q) implies y[q]
            == x[q] by {
            assert(!(at <= q < at + w)) by {
                if at <= q < at + w {
                    assert(base + rels[upto - 1].Offset <= q < base + rels[upto - 1].Offset
                        + ctx.span(pass, o, rels[upto - 1]));
                }
            }
            assert(!ctx.touched(pass, o, s, base, upto - 1, q)) by {
                if ctx.touched(pass, o, s, base, upto - 1, q) {
                    let k = choose|k: int|
                        0 <= k < upto - 1 && base + (#[trigger] ctx.rels(o, s)[k]).Offset <= q
                            < base + ctx.rels(o, s)[k].Offset + ctx.span(
                            pass,
                            o,
                            ctx.rels(o, s)[k],
                        );
                    assert(0 <= k < upto);
                }
            }
        }
        assert forall|k: int| 0 <= k < upto implies ctx.reloc_step(
            pass,
            o,
            s,
            x,
            base,
            #[trigger] ctx.rels(o, s)[k],
        ) is Ok && agree(
            y,
            ctx.reloc_step(pass, o, s, x, base, ctx.rels(o, s)[k]).unwrap(),
            base + ctx.rels(o, s)[k].Offset,
            ctx.span(pass, o, ctx.rels(o, s)[k]),
        ) by {
            if k < upto - 1 {
                let sk = ctx.reloc_step(pass, o, s, x, base, rels[k]).unwrap();
                lemma_step_bounds(ctx, pass, o, s, x, base, rels[k]);
                assert forall|q: int|
                    base + rels[k].Offset <= q < base + rels[k].Offset + ctx.span(
                        pass,
                        o,
                        rels[k],
                    ) implies y[q] == sk[q] by {
                    lemma_spans(ctx, pass, o, rels[k]);
                    lemma_spans(ctx, pass, o, last);
                    if ctx.span(pass, o, last) > 0 {
                        assert(rels[k].Offset + ctx.any_span(o, rels[k]) <= rels[upto - 1].Offset
                            || rels[upto - 1].Offset + ctx.any_span(o, rels[upto - 1])
                            <= rels[k].Offset);
                    }
                    assert(y[q] == prev[q]);
                }
            }
        }
    }
}

/// A relocation writes in a pass no more than it writes at all.
proof fn lemma_spans(ctx: Context, pass: int, o: int, rel: Rela)
    requires
        1 <= pass <= 3,
        pass == 3 && is_high(rel) ==> ctx.writes(1, o, rel),
    ensures
        0 <= ctx.span(pass, o, rel) <= ctx.any_span(o, rel) || (pass == 2 && !is_low(rel)),
        ctx.span(pass, o, rel) > 0 ==> ctx.span(pass, o, rel) <= ctx.any_span(o, rel),
        0 <= ctx.span(pass, o, rel),
{
}

/// A step that succeeds has its place inside the buffer.
proof fn lemma_step_bounds(ctx: Context, pass: int, o: int, s: int, x: Seq<u8>, base: int, rel: Rela)
    requires
        1 <= pass <= 3,
        0 <= base,
        ctx.reloc_step(pass, o, s, x, base, rel) is Ok,
    ensures
        base + rel.Offset + ctx.span(pass, o, rel) <= x.len() || ctx.span(pass, o, rel) == 0,
        pass == 2 && is_low(rel) ==> ctx.rel_symbol(o, rel) is Some && base + ctx.rel_symbol(
            o,
            rel,
        ).unwrap().Value + 4 <= x.len(),
{
}

/// Whether a step succeeds depends on the length of the buffer only.
proof fn lemma_step_ok(ctx: Context, pass: int, o: int, s: int, x: Seq<u8>, y: Seq<u8>, base: int, rel: Rela)
    requires
        1 <= pass <= 3,
        0 <= base,
        x.len() == y.len(),
        ctx.reloc_step(pass, o, s, x, base, rel) is Ok,
    ensures
        ctx.reloc_step(pass, o, s, y, base, rel) is Ok,
        ctx.reloc_step(pass, o, s, y, base, rel).unwrap().len() == y.len(),
{
    lemma_step_bounds(ctx, pass, o, s, x, base, rel);
    assert(ctx.reloc_step(pass, o, s, y, base, rel) is Ok);
    lemma_step_local(ctx, pass, o, s, y, y, base, rel);
}

/// Whether a pass succeeds depends on the length of the buffer only.
proof fn lemma_pass_ok(ctx: Context, pass: int, o: int, s: int, x: Seq<u8>, y: Seq<u8>, base: int, upto: int)
    requires
        1 <= pass <= 3,
        0 <= base,
        x.len() == y.len(),
        0 <= upto <= ctx.rels(o, s).len(),
        ctx.reloc_pass(pass, o, s, x, base, upto) is Ok,
    ensures
        ctx.reloc_pass(pass, o, s, y, base, upto) is Ok,
        ctx.reloc_pass(pass, o, s, y, base, upto).unwrap().len() == y.len(),
        ctx.reloc_pass(pass, o, s, x, base, upto).unwrap().len() == x.len(),
    decreases upto,
{
    if upto > 0 {
        lemma_pass_ok(ctx, pass, o, s, x, y, base, upto - 1);
        let xp = ctx.reloc_pass(pass, o, s, x, base, upto - 1).unwrap();
        let yp = ctx.reloc_pass(pass, o, s, y, base, upto - 1).unwrap();
        let rel = ctx.rels(o, s)[upto - 1];
        lemma_step_ok(ctx, pass, o, s, xp, yp, base, rel);
        lemma_step_ok(ctx, pass, o, s, xp, xp, base, rel);
    }
}

/// What the first pass puts at the place of a high part does not depend
/// on what was there.
proof fn lemma_high_const(ctx: Context, o: int, s: int, x: Seq<u8>, y: Seq<u8>, base: int, rel: Rela)
    requires
        0 <= base,
        x.len() == y.len(),
        is_high(rel),
        ctx.writes(1, o, rel),
        ctx.reloc_step(1, o, s, x, base, rel) is Ok,
    ensures
        ctx.reloc_step(1, o, s, y, base, rel) is Ok,
        agree(
            ctx.reloc_step(1, o, s, x, base, rel).unwrap(),
            ctx.reloc_step(1, o, s, y, base, rel).unwrap(),
            base + rel.Offset,
            4,
        ),
{
    reveal(step1);
    lemma_bytes_len(0, 0, 0);
    let sym = ctx.rel_symbol(o, rel).unwrap();
    let sa = wrap_add(sym.spec_addr(&ctx), rel.Addend);
    let p = wrap_add(ctx.section_addr(o, s), rel.Offset);
    let v = if rel.Type == abi::R_RISCV_TLS_GOT_HI20 {
        low32(wrap_sub(wrap_add(ctx.got_tp_addr(sym), rel.Addend), p))
    } else {
        low32(wrap_sub(sa, p))
    };
    lemma_bytes_len(0, v, 0);
    lemma_overwrite_local(x, y, base + rel.Offset, bytes_of_u32(v));
}

/// A step of the first pass done twice puts at its place what doing it
/// once puts there.
proof fn lemma_first_twice(ctx: Context, o: int, s: int, x: Seq<u8>, base: int, rel: Rela)
    requires
        0 <= base,
        ctx.reloc_step(1, o, s, x, base, rel) is Ok,
    ensures
        ctx.reloc_step(1, o, s, ctx.reloc_step(1, o, s, x, base, rel).unwrap(), base, rel) is Ok,
        agree(
            ctx.reloc_step(
                1,
                o,
                s,
                ctx.reloc_step(1, o, s, x, base, rel).unwrap(),
                base,
                rel,
            ).unwrap(),
            ctx.reloc_step(1, o, s, x, base, rel).unwrap(),
            base + rel.Offset,
            ctx.span(1, o, rel),
        ),
{
    let z = ctx.reloc_step(1, o, s, x, base, rel).unwrap();
    lemma_step_local(ctx, 1, o, s, x, x, base, rel);
    lemma_step_ok(ctx, 1, o, s, x, z, base, rel);
    if ctx.writes(1, o, rel) {
        let sym = ctx.rel_symbol(o, rel).unwrap();
        lemma_step1_local(
            x,
            x,
            base + rel.Offset,
            rel.Type,
            sym.spec_addr(&ctx),
            rel.Addend,
            wrap_add(ctx.section_addr(o, s), rel.Offset),
            ctx.got_tp_addr(sym),
            ctx.TpAddr,
        );
    }
}

/// A step of the second pass done twice puts at its place what doing it
/// once puts there, where it does not read its own place.
proof fn lemma_second_twice(ctx: Context, o: int, s: int, x: Seq<u8>, base: int, rel: Rela)
    requires
        0 <= base,
        is_low(rel),
        ctx.reloc_step(2, o, s, x, base, rel) is Ok,
        ctx.rel_symbol(o, rel).unwrap().Value + 4 <= rel.Offset || rel.Offset + 4 <= ctx.rel_symbol(
            o,
            rel,
        ).unwrap().Value,
    ensures
        ctx.reloc_step(2, o, s, ctx.reloc_step(2, o, s, x, base, rel).unwrap(), base, rel) is Ok,
        agree(
            ctx.reloc_step(
                2,
                o,
                s,
                ctx.reloc_step(2, o, s, x, base, rel).unwrap(),
                base,
                rel,
            ).unwrap(),
            ctx.reloc_step(2, o, s, x, base, rel).unwrap(),
            base + rel.Offset,
            4,
        ),
{
    let z = ctx.reloc_step(2, o, s, x, base, rel).unwrap();
    let at = base + rel.Offset;
    let from = base + ctx.rel_symbol(o, rel).unwrap().Value;
    lemma_step_local(ctx, 2, o, s, x, x, base, rel);
    lemma_step_ok(ctx, 2, o, s, x, z, base, rel);
    assert(z[from] == x[from] && z[from + 1] == x[from + 1] && z[from + 2] == x[from + 2] && z[from
        + 3] == x[from + 3]);
    let val = spec_u32_le(x, from);
    assert(spec_u32_le(z, from) == val);
    if rel.Type == abi::R_RISCV_PCREL_LO12_I {
        lemma_patched_twice(x, at, ITYPE_KEEP, spec_itype(val));
    } else {
        lemma_patched_twice(x, at, STYPE_KEEP, spec_stype(val));
    }
}

/// Whether `b1`, `b2` and `f` are what the three passes make of `b`, and
/// `g1`, `g2` and `g3` what they make of `f`.
pub open spec fn chain(
    ctx: Context,
    o: int,
    s: int,
    base: int,
    b: Seq<u8>,
    b1: Seq<u8>,
    b2: Seq<u8>,
    f: Seq<u8>,
    g1: Seq<u8>,
    g2: Seq<u8>,
    g3: Seq<u8>,
) -> bool {
    let n = ctx.rels(o, s).len() as int;
    &&& ctx.tidy(o, s, base)
    &&& ctx.reloc_pass(1, o, s, b, base, n) == Ok::<Seq<u8>, LinkError>(b1)
    &&& ctx.reloc_pass(2, o, s, b1, base, n) == Ok::<Seq<u8>, LinkError>(b2)
    &&& ctx.reloc_pass(3, o, s, b2, base, n) == Ok::<Seq<u8>, LinkError>(f)
    &&& ctx.reloc_pass(1, o, s, f, base, n) == Ok::<Seq<u8>, LinkError>(g1)
    &&& ctx.reloc_pass(2, o, s, g1, base, n) == Ok::<Seq<u8>, LinkError>(g2)
    &&& ctx.reloc_pass(3, o, s, g2, base, n) == Ok::<Seq<u8>, LinkError>(g3)
    &&& b1.len() == b.len()
    &&& b2.len() == b.len()
    &&& f.len() == b.len()
    &&& g1.len() == b.len()
    &&& g2.len() == b.len()
    &&& g3.len() == b.len()
}

/// A byte at the place of one relocation is written in a pass by that
/// relocation or by none.
proof fn lemma_untouched(ctx: Context, pass: int, o: int, s: int, base: int, k: int, q: int)
    requires
        1 <= pass <= 3,
        ctx.tidy(o, s, base),
        0 <= k < ctx.rels(o, s).len(),
        base + ctx.rels(o, s)[k].Offset <= q < base + ctx.rels(o, s)[k].Offset + ctx.any_span(
            o,
            ctx.rels(o, s)[k],
        ),
        ctx.span(pass, o, ctx.rels(o, s)[k]) == 0,
    ensures
        !ctx.touched(pass, o, s, base, ctx.rels(o, s).len() as int, q),
{
    let rels = ctx.rels(o, s);
    let n = rels.len() as int;
    if ctx.touched(pass, o, s, base, n, q) {
        let j = choose|j: int|
            0 <= j < n && base + (#[trigger] ctx.rels(o, s)[j]).Offset <= q < base + ctx.rels(
                o,
                s,
            )[j].Offset + ctx.span(pass, o, ctx.rels(o, s)[j]);
        lemma_spans(ctx, pass, o, rels[j]);
        if j < k {
            assert(rels[j].Offset + ctx.any_span(o, rels[j]) <= rels[k].Offset || rels[k].Offset
                + ctx.any_span(o, rels[k]) <= rels[j].Offset);
        } else if k < j {
            assert(rels[k].Offset + ctx.any_span(o, rels[k]) <= rels[j].Offset || rels[j].Offset
                + ctx.any_span(o, rels[j]) <= rels[k].Offset);
        }
    }
}

proof fn lemma_high_start(
    ctx: Context,
    o: int,
    s: int,
    base: int,
    b: Seq<u8>,
    b1: Seq<u8>,
    b2: Seq<u8>,
    f: Seq<u8>,
    g1: Seq<u8>,
    g2: Seq<u8>,
    g3: Seq<u8>,
    h: int,
)
    requires
        chain(ctx, o, s, base, b, b1, b2, f, g1, g2, g3),
        0 <= h < ctx.rels(o, s).len(),
        is_high(ctx.rels(o, s)[h]),
    ensures
        agree(g1, b1, base + ctx.rels(o, s)[h].Offset, 4),
        agree(g2, b2, base + ctx.rels(o, s)[h].Offset, 4),
        agree(b2, b1, base + ctx.rels(o, s)[h].Offset, 4),
        base + ctx.rels(o, s)[h].Offset + 4 <= b.len(),
{
    let rels = ctx.rels(o, s);
    let n = rels.len() as int;
    let rel = rels[h];
    let at = base + rel.Offset;
    lemma_pass_pointwise(ctx, 1, o, s, b, base, n);
    lemma_pass_pointwise(ctx, 1, o, s, f, base, n);
    lemma_pass_pointwise(ctx, 2, o, s, b1, base, n);
    lemma_pass_pointwise(ctx, 2, o, s, g1, base, n);
    assert(ctx.writes(1, o, rel));
    lemma_step_bounds(ctx, 1, o, s, b, base, rel);
    lemma_high_const(ctx, o, s, b, f, base, rel);
    assert forall|q: int| at <= q < at + 4 implies g2[q] == g1[q] && b2[q] == b1[q] by {
        lemma_untouched(ctx, 2, o, s, base, h, q);
    }
}

proof fn lemma_high_window(
    ctx: Context,
    o: int,
    s: int,
    base: int,
    b: Seq<u8>,
    b1: Seq<u8>,
    b2: Seq<u8>,
    f: Seq<u8>,
    g1: Seq<u8>,
    g2: Seq<u8>,
    g3: Seq<u8>,
    h: int,
)
    requires
        chain(ctx, o, s, base, b, b1, b2, f, g1, g2, g3),
        0 <= h < ctx.rels(o, s).len(),
        is_high(ctx.rels(o, s)[h]),
    ensures
        agree(g3, f, base + ctx.rels(o, s)[h].Offset, 4),
{
    let rels = ctx.rels(o, s);
    let n = rels.len() as int;
    let rel = rels[h];
    lemma_high_start(ctx, o, s, base, b, b1, b2, f, g1, g2, g3, h);
    lemma_pass_pointwise(ctx, 3, o, s, b2, base, n);
    lemma_pass_pointwise(ctx, 3, o, s, g2, base, n);
    assert(ctx.reloc_step(3, o, s, b2, base, rels[h]) is Ok);
    lemma_step_local(ctx, 3, o, s, b2, g2, base, rel);
}

proof fn lemma_low_window(
    ctx: Context,
    o: int,
    s: int,
    base: int,
    b: Seq<u8>,
    b1: Seq<u8>,
    b2: Seq<u8>,
    f: Seq<u8>,
    g1: Seq<u8>,
    g2: Seq<u8>,
    g3: Seq<u8>,
    k: int,
)
    requires
        chain(ctx, o, s, base, b, b1, b2, f, g1, g2, g3),
        0 <= k < ctx.rels(o, s).len(),
        is_low(ctx.rels(o, s)[k]),
    ensures
        agree(g3, f, base + ctx.rels(o, s)[k].Offset, 4),
{
    let rels = ctx.rels(o, s);
    let n = rels.len() as int;
    let rel = rels[k];
    let at = base + rel.Offset;
    lemma_pass_pointwise(ctx, 1, o, s, f, base, n);
    lemma_pass_pointwise(ctx, 2, o, s, b1, base, n);
    lemma_pass_pointwise(ctx, 2, o, s, g1, base, n);
    lemma_pass_pointwise(ctx, 3, o, s, b2, base, n);
    lemma_pass_pointwise(ctx, 3, o, s, g2, base, n);
    assert(ctx.reloc_step(2, o, s, b1, base, rels[k]) is Ok);
    assert(ctx.reloc_step(2, o, s, g1, base, rels[k]) is Ok);
    let z = ctx.reloc_step(2, o, s, b1, base, rel).unwrap();
    lemma_step_bounds(ctx, 2, o, s, b1, base, rel);
    assert(ctx.pairs_up(o, s, k));
    let h = choose|h: int|
        0 <= h < ctx.rels(o, s).len() && is_high(#[trigger] ctx.rels(o, s)[h]) && ctx.rels(
            o,
            s,
        )[h].Offset == ctx.rel_symbol(o, ctx.rels(o, s)[k]).unwrap().Value;
    let from = base + rels[h].Offset;
    assert(ctx.writes(1, o, rels[h]));
    if h < k {
        assert(rels[h].Offset + ctx.any_span(o, rels[h]) <= rels[k].Offset || rels[k].Offset
            + ctx.any_span(o, rels[k]) <= rels[h].Offset);
    } else {
        assert(rels[k].Offset + ctx.any_span(o, rels[k]) <= rels[h].Offset || rels[h].Offset
            + ctx.any_span(o, rels[h]) <= rels[k].Offset);
    }
    lemma_high_start(ctx, o, s, base, b, b1, b2, f, g1, g2, g3, h);
    lemma_step_local(ctx, 2, o, s, b1, b1, base, rel);
    assert forall|q: int| at <= q < at + 4 implies g1[q] == f[q] && f[q] == b2[q] && g3[q]
        == g2[q] by {
        lemma_untouched(ctx, 1, o, s, base, k, q);
        lemma_untouched(ctx, 3, o, s, base, k, q);
    }
    assert(agree(g1, z, at, 4));
    assert(agree(g1, z, from, 4));
    lemma_step_local(ctx, 2, o, s, g1, z, base, rel);
    lemma_second_twice(ctx, o, s, b1, base, rel);
}

proof fn lemma_plain_window(
    ctx: Context,
    o: int,
    s: int,
    base: int,
    b: Seq<u8>,
    b1: Seq<u8>,
    b2: Seq<u8>,
    f: Seq<u8>,
    g1: Seq<u8>,
    g2: Seq<u8>,
    g3: Seq<u8>,
    k: int,
)
    requires
        chain(ctx, o, s, base, b, b1, b2, f, g1, g2, g3),
        0 <= k < ctx.rels(o, s).len(),
        ctx.writes(1, o, ctx.rels(o, s)[k]),
        !is_high(ctx.rels(o, s)[k]),
    ensures
        agree(g3, f, base + ctx.rels(o, s)[k].Offset, ctx.span(1, o, ctx.rels(o, s)[k])),
{
    let rels = ctx.rels(o, s);
    let n = rels.len() as int;
    let rel = rels[k];
    let at = base + rel.Offset;
    let w = ctx.span(1, o, rel);
    lemma_pass_pointwise(ctx, 1, o, s, b, base, n);
    lemma_pass_pointwise(ctx, 1, o, s, f, base, n);
    lemma_pass_pointwise(ctx, 2, o, s, b1, base, n);
    lemma_pass_pointwise(ctx, 2, o, s, g1, base, n);
    lemma_pass_pointwise(ctx, 3, o, s, b2, base, n);
    lemma_pass_pointwise(ctx, 3, o, s, g2, base, n);
    assert(ctx.reloc_step(1, o, s, b, base, rels[k]) is Ok);
    assert(ctx.reloc_step(1, o, s, f, base, rels[k]) is Ok);
    let z = ctx.reloc_step(1, o, s, b, base, rel).unwrap();
    lemma_step_bounds(ctx, 1, o, s, b, base, rel);
    lemma_step_local(ctx, 1, o, s, b, b, base, rel);
    assert forall|q: int| at <= q < at + w implies f[q] == b2[q] && b2[q] == b1[q] && g3[q]
        == g2[q] && g2[q] == g1[q] by {
        lemma_untouched(ctx, 2, o, s, base, k, q);
        lemma_untouched(ctx, 3, o, s, base, k, q);
    }
    assert(agree(f, z, at, w));
    lemma_step_local(ctx, 1, o, s, f, z, base, rel);
    lemma_first_twice(ctx, o, s, b, base, rel);
}

/// Applying the relocations of a section to a buffer that they were
/// applied to already changes nothing, where the relocations keep out of
/// each other's way: the first pass stores the high parts anew, the second
/// pass reads them as it did before, and the third pass makes the same
/// instructions of them.
pub proof fn lemma_relocation_idempotent(ctx: Context, o: int, s: int, b: Seq<u8>, base: int)
    requires
        ctx.tidy(o, s, base),
        ctx.relocated(o, s, b, base) is Ok,
    ensures
        ctx.relocated(o, s, ctx.relocated(o, s, b, base).unwrap(), base) == ctx.relocated(
            o,
            s,
            b,
            base,
        ),
{
    let rels = ctx.rels(o, s);
    let n = rels.len() as int;
    let b1 = ctx.reloc_pass(1, o, s, b, base, n).unwrap();
    let b2 = ctx.reloc_pass(2, o, s, b1, base, n).unwrap();
    let f = ctx.reloc_pass(3, o, s, b2, base, n).unwrap();
    lemma_pass_ok(ctx, 1, o, s, b, b, base, n);
    lemma_pass_ok(ctx, 2, o, s, b1, b1, base, n);
    lemma_pass_ok(ctx, 3, o, s, b2, b2, base, n);
    lemma_pass_ok(ctx, 1, o, s, b, f, base, n);
    let g1 = ctx.reloc_pass(1, o, s, f, base, n).unwrap();
    lemma_pass_ok(ctx, 2, o, s, b1, g1, base, n);
    let g2 = ctx.reloc_pass(2, o, s, g1, base, n).unwrap();
    lemma_pass_ok(ctx, 3, o, s, b2, g2, base, n);
    let g3 = ctx.reloc_pass(3, o, s, g2, base, n).unwrap();
    assert(chain(ctx, o, s, base, b, b1, b2, f, g1, g2, g3));
    lemma_pass_pointwise(ctx, 1, o, s, f, base, n);
    lemma_pass_pointwise(ctx, 2, o, s, g1, base, n);
    lemma_pass_pointwise(ctx, 3, o, s, g2, base, n);
    assert forall|q: int| 0 <= q < f.len() implies g3[q] == f[q] by {
        if ctx.touched(3, o, s, base, n, q) {
            let h = choose|h: int|
                0 <= h < n && base + (#[trigger] ctx.rels(o, s)[h]).Offset <= q < base + ctx.rels(
                    o,
                    s,
                )[h].Offset + ctx.span(3, o, ctx.rels(o, s)[h]);
            lemma_high_window(ctx, o, s, base, b, b1, b2, f, g1, g2, g3, h);
        } else if ctx.touched(2, o, s, base, n, q) {
            let k = choose|k: int|
                0 <= k < n && base + (#[trigger] ctx.rels(o, s)[k]).Offset <= q < base + ctx.rels(
                    o,
                    s,
                )[k].Offset + ctx.span(2, o, ctx.rels(o, s)[k]);
            lemma_low_window(ctx, o, s, base, b, b1, b2, f, g1, g2, g3, k);
        } else if ctx.touched(1, o, s, base, n, q) {
            let k = choose|k: int|
                0 <= k < n && base + (#[trigger] ctx.rels(o, s)[k]).Offset <= q < base + ctx.rels(
                    o,
                    s,
                )[k].Offset + ctx.span(1, o, ctx.rels(o, s)[k]);
            if is_high(rels[k]) {
                assert(base + rels[k].Offset <= q < base + rels[k].Offset + ctx.span(
                    3,
                    o,
                    rels[k],
                ));
                assert(ctx.touched(3, o, s, base, n, q));
            }
            lemma_plain_window(ctx, o, s, base, b, b1, b2, f, g1, g2, g3, k);
        } else {
        }
    }
    assert(g3 =~= f);
}

impl Context {
    /// Whether every relocation of the section at `s` of the object at
    /// `o` writes inside the bytes of the section only, in every pass.
    pub open spec fn contained(&self, o: int, s: int) -> bool {
        forall|k: int, pass: int|
            0 <= k < self.rels(o, s).len() && 1 <= pass <= 3 ==> self.rels(o, s)[k].Offset
                + #[trigger] self.span(pass, o, self.rels(o, s)[k])
                <= self.Objs@[o].Sections@[s].unwrap().Contents@.len()
    }
}

/// A pass whose relocations write inside the bytes of the section only
/// leaves every byte outside of the section as it is.
proof fn lemma_pass_inside(ctx: Context, pass: int, o: int, s: int, x: Seq<u8>, base: int, upto: int)
    requires
        1 <= pass <= 3,
        0 <= base,
        ctx.contained(o, s),
        0 <= upto <= ctx.rels(o, s).len(),
        ctx.reloc_pass(pass, o, s, x, base, upto) is Ok,
    ensures
        ctx.reloc_pass(pass, o, s, x, base, upto).unwrap().len() == x.len(),
        forall|q: int|
            0 <= q < x.len() && !(base <= q < base
                + ctx.Objs@[o].Sections@[s].unwrap().Contents@.len()) ==> ctx.reloc_pass(
                pass,
                o,
                s,
                x,
                base,
                upto,
            ).unwrap()[q] == x[q],
    decreases upto,
{
    if upto > 0 {
        lemma_pass_inside(ctx, pass, o, s, x, base, upto - 1);
        let prev = ctx.reloc_pass(pass, o, s, x, base, upto - 1).unwrap();
        let rel = ctx.rels(o, s)[upto - 1];
        assert(rel.Offset + ctx.span(pass, o, rel)
            <= ctx.Objs@[o].Sections@[s].unwrap().Contents@.len());
        lemma_step_local(ctx, pass, o, s, prev, prev, base, rel);
    }
}

/// Writing a section into a buffer that it was written into already
/// changes nothing, where its relocations write inside its bytes only:
/// the second writing puts the bytes of the section there anew and
/// applies the relocations to the same bytes as the first.
pub proof fn lemma_written_twice(ctx: Context, o: int, s: int, buf: Seq<u8>, base: int)
    requires
        0 <= base,
        ctx.contained(o, s),
        ctx.section_written(o, s, buf, base) is Ok,
    ensures
        ctx.section_written(o, s, ctx.section_written(o, s, buf, base).unwrap(), base)
            == ctx.section_written(o, s, buf, base),
{
    let sec = ctx.Objs@[o].Sections@[s].unwrap();
    let h = ctx.Objs@[o].spec_shdr(s);
    let c = overwrite(buf, base, sec.Contents@);
    let w = ctx.section_written(o, s, buf, base).unwrap();
    if h.Type == abi::SHT_NOBITS || sec.ShSize == 0 {
    } else if h.Flags & abi::SHF_ALLOC != 0 {
        let n = ctx.rels(o, s).len() as int;
        let b1 = ctx.reloc_pass(1, o, s, c, base, n).unwrap();
        let b2 = ctx.reloc_pass(2, o, s, b1, base, n).unwrap();
        lemma_pass_inside(ctx, 1, o, s, c, base, n);
        lemma_pass_inside(ctx, 2, o, s, b1, base, n);
        lemma_pass_inside(ctx, 3, o, s, b2, base, n);
        assert(w.len() == buf.len());
        assert(overwrite(w, base, sec.Contents@) =~= c);
    } else {
        assert(overwrite(w, base, sec.Contents@) =~= c);
    }
}

} // verus!
