//! Arithmetic on alignments and bit fields, and little-endian reads and
//! writes of fixed-width integers.
use vstd::prelude::*;

verus! {

/// The least multiple of `align` that is not below `val`; `val` itself where
/// `align` is zero.
pub open spec fn align_up(val: int, align: int) -> int {
    if align <= 0 {
        val
    } else if val % align == 0 {
        val
    } else {
        val + (align - val % align)
    }
}

/// `align_up` yields a multiple of the alignment, at least `val` and less
/// than one alignment above it.
pub proof fn lemma_align_up(val: int, align: int)
    requires
        0 <= val,
        0 < align,
    ensures
        align_up(val, align) % align == 0,
        val <= align_up(val, align) < val + align,
{
    let r = align_up(val, align);
    assert(r % align == 0 && val <= r < val + align) by (nonlinear_arith)
        requires
            0 <= val,
            0 < align,
            r == if val % align == 0 { val } else { val + (align - val % align) },
    ;
}

/// No multiple of the alignment lies between `val` and `align_up(val, align)`.
pub proof fn lemma_align_up_least(val: int, align: int, m: int)
    requires
        0 <= val,
        0 < align,
        val <= m,
        m % align == 0,
    ensures
        align_up(val, align) <= m,
{
    let r = align_up(val, align);
    lemma_align_up(val, align);
    if m < r {
        assert(false) by (nonlinear_arith)
            requires
                0 < align,
                m % align == 0,
                r % align == 0,
                0 < r - m < align,
        {
            assert((r - m) % align == 0);
        }
    }
}

/// Rounds `val` up to the next multiple of `align`. An alignment of zero
/// leaves `val` as it is.
pub fn AlignTo(val: u64, align: u64) -> (r: u64)
    requires
        align_up(val as int, align as int) <= u64::MAX,
    ensures
        r == align_up(val as int, align as int),
{
    if align == 0 {
        val
    } else {
        let rem: u64 = val % align;
        if rem == 0 {
            val
        } else {
            val + (align - rem)
        }
    }
}

/// `AlignTo` for callers that cannot rule out an overflow: `None` where the
/// rounded value does not fit in 64 bits.
pub fn AlignToChecked(val: u64, align: u64) -> (r: Option<u64>)
    ensures
        r is Some <==> align_up(val as int, align as int) <= u64::MAX,
        r is Some ==> r.unwrap() == align_up(val as int, align as int),
{
    if align == 0 {
        Some(val)
    } else {
        let rem: u64 = val % align;
        if rem == 0 {
            Some(val)
        } else if align - rem <= u64::MAX - val {
            Some(val + (align - rem))
        } else {
            None
        }
    }
}

/// Bit `pos` of `val`, as 0 or 1.
pub open spec fn spec_bit(val: u32, pos: u32) -> u32 {
    (val >> pos) & 1
}

/// Bits `hi` down to `lo` of `val`, moved to the low end.
pub open spec fn spec_bits(val: u32, hi: u32, lo: u32) -> u32 {
    (val >> lo) & (0xffff_ffffu32 >> ((31 - (hi - lo)) as u32))
}

/// Bit `pos` of `val`, as 0 or 1.
pub fn Bit(val: u32, pos: u32) -> (r: u32)
    requires
        pos < 32,
    ensures
        r == spec_bit(val, pos),
        r <= 1,
{
    assert(((val >> pos) & 1) <= 1) by (bit_vector);
    (val >> pos) & 1
}

/// Bits `hi` down to `lo` of `val`, moved to the low end.
pub fn Bits(val: u32, hi: u32, lo: u32) -> (r: u32)
    requires
        lo <= hi < 32,
    ensures
        r == spec_bits(val, hi, lo),
{
    (val >> lo) & (0xffff_ffffu32 >> (31 - (hi - lo)))
}

/// Whether at most one bit of `n` is set.
pub open spec fn spec_has_single_bit(n: u64) -> bool {
    n == 0 || n & ((n - 1) as u64) == 0
}

/// Whether `n` is zero or a power of two.
pub fn hasSingleBit(n: u64) -> (r: bool)
    ensures
        r == spec_has_single_bit(n),
{
    n == 0 || n & (n - 1) == 0
}

/// The 16-bit little-endian number at `off` in `s`.
pub open spec fn spec_u16_le(s: Seq<u8>, off: int) -> u16 {
    (s[off] as int + 0x100 * (s[off + 1] as int)) as u16
}

/// The 32-bit little-endian number at `off` in `s`.
pub open spec fn spec_u32_le(s: Seq<u8>, off: int) -> u32 {
    (spec_u16_le(s, off) as int + 0x1_0000 * (spec_u16_le(s, off + 2) as int)) as u32
}

/// The 64-bit little-endian number at `off` in `s`.
pub open spec fn spec_u64_le(s: Seq<u8>, off: int) -> u64 {
    (spec_u32_le(s, off) as int + 0x1_0000_0000 * (spec_u32_le(s, off + 4) as int)) as u64
}

/// The two bytes that hold `v`, low byte first.
pub open spec fn bytes_of_u16(v: u16) -> Seq<u8> {
    seq![(v % 0x100) as u8, (v / 0x100) as u8]
}

/// The four bytes that hold `v`, low byte first.
pub open spec fn bytes_of_u32(v: u32) -> Seq<u8> {
    bytes_of_u16((v % 0x1_0000) as u16) + bytes_of_u16((v / 0x1_0000) as u16)
}

/// The eight bytes that hold `v`, low byte first.
pub open spec fn bytes_of_u64(v: u64) -> Seq<u8> {
    bytes_of_u32((v % 0x1_0000_0000) as u32) + bytes_of_u32((v / 0x1_0000_0000) as u32)
}

/// `s` with the bytes from `off` on replaced by `b`.
pub open spec fn overwrite(s: Seq<u8>, off: int, b: Seq<u8>) -> Seq<u8> {
    Seq::new(s.len(), |i: int| if off <= i < off + b.len() { b[i - off] } else { s[i] })
}

/// Writing `a` and, right behind it, `b` is writing `a + b`.
pub proof fn lemma_overwrite_append(s: Seq<u8>, off: int, a: Seq<u8>, b: Seq<u8>)
    requires
        0 <= off,
        off + a.len() + b.len() <= s.len(),
    ensures
        overwrite(overwrite(s, off, a), off + a.len(), b) =~= overwrite(s, off, a + b),
{
}

/// How many bytes each number takes.
pub proof fn lemma_bytes_len(a: u16, b: u32, c: u64)
    ensures
        bytes_of_u16(a).len() == 2,
        bytes_of_u32(b).len() == 4,
        bytes_of_u64(c).len() == 8,
{
}

/// Reading back what was written gives the number written.
pub proof fn lemma_u16_round_trip(v: u16)
    ensures
        bytes_of_u16(v).len() == 2,
        spec_u16_le(bytes_of_u16(v), 0) == v,
{
}

/// Reading back what was written gives the number written.
pub proof fn lemma_u32_round_trip(v: u32)
    ensures
        bytes_of_u32(v).len() == 4,
        spec_u32_le(bytes_of_u32(v), 0) == v,
{
    let lo = (v % 0x1_0000) as u16;
    let hi = (v / 0x1_0000) as u16;
    lemma_u16_round_trip(lo);
    lemma_u16_round_trip(hi);
    let b = bytes_of_u32(v);
    assert(b[0] == bytes_of_u16(lo)[0] && b[1] == bytes_of_u16(lo)[1]);
    assert(b[2] == bytes_of_u16(hi)[0] && b[3] == bytes_of_u16(hi)[1]);
}

/// Reading back what was written gives the number written.
pub proof fn lemma_u64_round_trip(v: u64)
    ensures
        bytes_of_u64(v).len() == 8,
        spec_u64_le(bytes_of_u64(v), 0) == v,
{
    let lo = (v % 0x1_0000_0000) as u32;
    let hi = (v / 0x1_0000_0000) as u32;
    lemma_u32_round_trip(lo);
    lemma_u32_round_trip(hi);
    let b = bytes_of_u64(v);
    let bl = bytes_of_u32(lo);
    let bh = bytes_of_u32(hi);
    assert(b[0] == bl[0] && b[1] == bl[1] && b[2] == bl[2] && b[3] == bl[3]);
    assert(b[4] == bh[0] && b[5] == bh[1] && b[6] == bh[2] && b[7] == bh[3]);
    assert(spec_u32_le(b, 0) == spec_u32_le(bl, 0));
    assert(spec_u32_le(b, 4) == spec_u32_le(bh, 0));
}

/// Reads a 16-bit little-endian number.
pub fn ReadU16(data: &[u8], off: usize) -> (r: u16)
    requires
        off + 2 <= data.len(),
    ensures
        r == spec_u16_le(data@, off as int),
{
    (data[off] as u16) + 0x100 * (data[off + 1] as u16)
}

/// Reads a 32-bit little-endian number.
pub fn ReadU32(data: &[u8], off: usize) -> (r: u32)
    requires
        off + 4 <= data.len(),
    ensures
        r == spec_u32_le(data@, off as int),
{
    (ReadU16(data, off) as u32) + 0x1_0000 * (ReadU16(data, off + 2) as u32)
}

/// Reads a 64-bit little-endian number.
pub fn ReadU64(data: &[u8], off: usize) -> (r: u64)
    requires
        off + 8 <= data.len(),
    ensures
        r == spec_u64_le(data@, off as int),
{
    (ReadU32(data, off) as u64) + 0x1_0000_0000 * (ReadU32(data, off + 4) as u64)
}

/// Copies `src` into `buf` from `off` on; the rest of `buf` stays.
pub fn WriteBytes(buf: &mut Vec<u8>, off: usize, src: &[u8])
    requires
        off + src.len() <= old(buf).len(),
    ensures
        final(buf)@ == overwrite(old(buf)@, off as int, src@),
{
    let n: usize = src.len();
    let mut i: usize = 0;
    while i < n
        invariant
            i <= n,
            n == src.len(),
            off + n <= buf.len(),
            buf.len() == old(buf).len(),
            forall|j: int| 0 <= j < buf.len() ==> buf@[j] == (if off <= j < off + i {
                src@[j - off]
            } else {
                old(buf)@[j]
            }),
        decreases n - i,
    {
        buf[off + i] = src[i];
        i = i + 1;
    }
    assert(buf@ =~= overwrite(old(buf)@, off as int, src@));
}

/// Writes `v` as two little-endian bytes at `off`.
pub fn WriteU16(buf: &mut Vec<u8>, off: usize, v: u16)
    requires
        off + 2 <= old(buf).len(),
    ensures
        final(buf)@ == overwrite(old(buf)@, off as int, bytes_of_u16(v)),
{
    buf[off] = (v % 0x100) as u8;
    buf[off + 1] = (v / 0x100) as u8;
    assert(buf@ =~= overwrite(old(buf)@, off as int, bytes_of_u16(v)));
}

/// Writes `v` as four little-endian bytes at `off`.
pub fn WriteU32(buf: &mut Vec<u8>, off: usize, v: u32)
    requires
        off + 4 <= old(buf).len(),
    ensures
        final(buf)@ == overwrite(old(buf)@, off as int, bytes_of_u32(v)),
{
    WriteU16(buf, off, (v % 0x1_0000) as u16);
    WriteU16(buf, off + 2, (v / 0x1_0000) as u16);
    assert(buf@ =~= overwrite(old(buf)@, off as int, bytes_of_u32(v)));
}

/// Writes `v` as eight little-endian bytes at `off`.
pub fn WriteU64(buf: &mut Vec<u8>, off: usize, v: u64)
    requires
        off + 8 <= old(buf).len(),
    ensures
        final(buf)@ == overwrite(old(buf)@, off as int, bytes_of_u64(v)),
{
    WriteU32(buf, off, (v % 0x1_0000_0000) as u32);
    WriteU32(buf, off + 4, (v / 0x1_0000_0000) as u32);
    assert(buf@ =~= overwrite(old(buf)@, off as int, bytes_of_u64(v)));
}

/// Bits `size` down to 0 of `val`, read as a two's-complement number and
/// widened to 64 bits.
pub open spec fn spec_sign_extend(val: u64, size: u32) -> u64 {
    let mask: u64 = u64::MAX >> ((63 - size) as u64);
    if (val >> (size as u64)) & 1 == 1 {
        (val & mask) | !mask
    } else {
        val & mask
    }
}

/// Bits `size` down to 0 of `val`, read as a two's-complement number and
/// widened to 64 bits.
pub fn SignExtend(val: u64, size: u32) -> (r: u64)
    requires
        size <= 63,
    ensures
        r == spec_sign_extend(val, size),
{
    let mask: u64 = u64::MAX >> (63 - size);
    if (val >> size) & 1 == 1 {
        (val & mask) | !mask
    } else {
        val & mask
    }
}

/// A value survives sign extension from 12 bits exactly where it lies in
/// the range of a signed 12-bit number, taken modulo 2^64.
pub proof fn lemma_sign_extend_12(val: u64)
    ensures
        spec_sign_extend(val, 11) == val <==> (val < 0x800 || val >= 0xffff_ffff_ffff_f800),
{
    assert(spec_sign_extend(val, 11) == val <==> (val < 0x800 || val >= 0xffff_ffff_ffff_f800))
        by (bit_vector);
}

/// Whether two runs of bytes hold the same bytes.
pub fn BytesEq(a: &[u8], b: &[u8]) -> (r: bool)
    ensures
        r == (a@ == b@),
{
    if a.len() != b.len() {
        return false;
    }
    let n: usize = a.len();
    let mut i: usize = 0;
    while i < n
        invariant
            i <= n,
            n == a.len(),
            n == b.len(),
            forall|j: int| 0 <= j < i ==> a@[j] == b@[j],
        decreases n - i,
    {
        if a[i] != b[i] {
            return false;
        }
        i = i + 1;
    }
    assert(a@ =~= b@);
    true
}

/// Whether `s` begins with `prefix`.
pub open spec fn starts_with(s: Seq<u8>, prefix: Seq<u8>) -> bool {
    prefix.len() <= s.len() && s.subrange(0, prefix.len() as int) == prefix
}

/// Whether `s` begins with `prefix`.
pub fn StartsWith(s: &[u8], prefix: &[u8]) -> (r: bool)
    ensures
        r == starts_with(s@, prefix@),
{
    if prefix.len() > s.len() {
        return false;
    }
    let n: usize = prefix.len();
    let mut i: usize = 0;
    while i < n
        invariant
            i <= n,
            n == prefix.len(),
            n <= s.len(),
            forall|j: int| 0 <= j < i ==> s@[j] == prefix@[j],
        decreases n - i,
    {
        if s[i] != prefix[i] {
            assert(s@.subrange(0, n as int)[i as int] != prefix@[i as int]);
            return false;
        }
        i = i + 1;
    }
    assert(s@.subrange(0, n as int) =~= prefix@);
    true
}

/// The bytes of `data` from `off` on, `size` of them; `None` where they do
/// not all lie inside `data`.
pub fn Slice(data: &[u8], off: u64, size: u64) -> (r: Option<Vec<u8>>)
    ensures
        r is Some <==> off + size <= data.len(),
        r is Some ==> r.unwrap()@ == data@.subrange(off as int, off + size),
{
    let len: usize = data.len();
    if off > len as u64 || size > len as u64 - off {
        return None;
    }
    let start: usize = off as usize;
    let n: usize = size as usize;
    let mut out: Vec<u8> = Vec::with_capacity(n);
    let mut i: usize = 0;
    while i < n
        invariant
            i <= n,
            start + n <= data.len(),
            out.len() == i,
            forall|j: int| 0 <= j < i ==> out@[j] == data@[start + j],
        decreases n - i,
    {
        out.push(data[start + i]);
        i = i + 1;
    }
    assert(out@ =~= data@.subrange(off as int, off + size));
    Some(out)
}

/// Whether `b` is an ASCII decimal digit.
pub open spec fn is_digit(b: u8) -> bool {
    0x30 <= b <= 0x39
}

/// The first position at or after `from` that holds no space; the length of
/// `s` where only spaces follow.
pub open spec fn skip_spaces(s: Seq<u8>, from: int) -> int
    decreases s.len() - from,
{
    if from >= s.len() || s[from] != 0x20 {
        from
    } else {
        skip_spaces(s, from + 1)
    }
}

/// The first position at or after `from` that holds no digit; the length of
/// `s` where only digits follow.
pub open spec fn digits_end(s: Seq<u8>, from: int) -> int
    decreases s.len() - from,
{
    if from >= s.len() || !is_digit(s[from]) {
        from
    } else {
        digits_end(s, from + 1)
    }
}

/// The number that the decimal digits `digits` write.
pub open spec fn decimal_value(digits: Seq<u8>) -> nat
    decreases digits.len(),
{
    if digits.len() == 0 {
        0
    } else {
        decimal_value(digits.drop_last()) * 10 + (digits.last() - 0x30) as nat
    }
}

/// Where the digits of the number in `s` start.
pub open spec fn number_start(s: Seq<u8>) -> int {
    skip_spaces(s, 0)
}

/// Where the digits of the number in `s` end.
pub open spec fn number_end(s: Seq<u8>) -> int {
    digits_end(s, number_start(s))
}

/// Whether `s` writes a decimal number: spaces, at least one digit, and
/// directly after the digits a space or the end.
pub open spec fn is_number(s: Seq<u8>) -> bool {
    &&& number_start(s) < number_end(s)
    &&& (number_end(s) == s.len() || s[number_end(s)] == 0x20)
}

/// The number that `s` writes.
pub open spec fn number_value(s: Seq<u8>) -> nat {
    decimal_value(s.subrange(number_start(s), number_end(s)))
}

proof fn lemma_skip_spaces(s: Seq<u8>, from: int)
    requires
        0 <= from <= s.len(),
    ensures
        from <= skip_spaces(s, from) <= s.len(),
    decreases s.len() - from,
{
    if from < s.len() && s[from] == 0x20 {
        lemma_skip_spaces(s, from + 1);
    }
}

proof fn lemma_digits_end(s: Seq<u8>, from: int)
    requires
        0 <= from <= s.len(),
    ensures
        from <= digits_end(s, from) <= s.len(),
    decreases s.len() - from,
{
    if from < s.len() && is_digit(s[from]) {
        lemma_digits_end(s, from + 1);
    }
}

/// A longer run of digits never writes a smaller number.
proof fn lemma_decimal_value_grows(s: Seq<u8>, a: int, b: int, c: int)
    requires
        0 <= a <= b <= c <= s.len(),
    ensures
        decimal_value(s.subrange(a, b)) <= decimal_value(s.subrange(a, c)),
    decreases c - b,
{
    if b < c {
        lemma_decimal_value_grows(s, a, b, c - 1);
        assert(s.subrange(a, c).drop_last() =~= s.subrange(a, c - 1));
    }
}

/// Reads the decimal number that `s` writes: spaces, digits, and after the
/// digits a space or the end. `None` where `s` writes no number or one that
/// 64 bits cannot hold.
pub fn atoi(s: &[u8]) -> (r: Option<u64>)
    ensures
        r is Some <==> is_number(s@) && number_value(s@) <= u64::MAX,
        r is Some ==> r.unwrap() == number_value(s@),
{
    let n: usize = s.len();
    let mut i: usize = 0;
    while i < n && s[i] == 0x20
        invariant
            i <= n,
            n == s.len(),
            skip_spaces(s@, 0) == skip_spaces(s@, i as int),
        decreases n - i,
    {
        i = i + 1;
    }
    let start: usize = i;
    let mut val: u64 = 0;
    assert(s@.subrange(start as int, start as int) =~= Seq::<u8>::empty());
    while i < n && s[i] >= 0x30 && s[i] <= 0x39
        invariant
            start <= i <= n,
            n == s.len(),
            start == number_start(s@),
            digits_end(s@, start as int) == digits_end(s@, i as int),
            val == decimal_value(s@.subrange(start as int, i as int)),
        decreases n - i,
    {
        let d: u64 = (s[i] - 0x30) as u64;
        proof {
            assert(s@.subrange(start as int, i + 1).drop_last() =~= s@.subrange(
                start as int,
                i as int,
            ));
            lemma_digits_end(s@, i + 1);
            lemma_decimal_value_grows(s@, start as int, i + 1, number_end(s@));
        }
        if val > (u64::MAX - d) / 10 {
            return None;
        }
        val = val * 10 + d;
        i = i + 1;
    }
    if i == start || (i < n && s[i] != 0x20) {
        return None;
    }
    Some(val)
}

/// A copy of `s`.
pub fn ToVec(s: &[u8]) -> (r: Vec<u8>)
    ensures
        r@ == s@,
{
    let n: usize = s.len();
    let mut out: Vec<u8> = Vec::with_capacity(n);
    let mut i: usize = 0;
    while i < n
        invariant
            i <= n,
            n == s.len(),
            out@ == s@.subrange(0, i as int),
        decreases n - i,
    {
        out.push(s[i]);
        assert(out@ =~= s@.subrange(0, i + 1));
        i = i + 1;
    }
    assert(s@.subrange(0, n as int) =~= s@);
    out
}

/// The least power of two that is not below `val`, for a `val` that is not
/// itself zero or a power of two: one bit above the highest bit of `val`.
pub open spec fn spec_bit_ceil(val: u64) -> u64 {
    if spec_has_single_bit(val) {
        val
    } else {
        1u64 << ((64 - vstd::std_specs::bits::u64_leading_zeros(val)) as u64)
    }
}

/// `val` where it is zero or a power of two; else the power of two one bit
/// above its highest bit, or `None` where 64 bits do not hold that.
pub fn BitCeil(val: u64) -> (r: Option<u64>)
    ensures
        r is Some <==> spec_has_single_bit(val) || vstd::std_specs::bits::u64_leading_zeros(val) > 0,
        r is Some ==> r.unwrap() == spec_bit_ceil(val),
{
    if hasSingleBit(val) {
        return Some(val);
    }
    proof {
        vstd::std_specs::bits::axiom_u64_leading_zeros(val);
    }
    let lz: u32 = val.leading_zeros();
    if lz == 0 {
        return None;
    }
    Some(1u64 << (64 - lz))
}

} // verus!
