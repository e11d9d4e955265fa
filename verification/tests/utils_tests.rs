use rvld::utils::{
    atoi, AlignTo, AlignToChecked, Bit, BitCeil, Bits, BytesEq, ReadU16, ReadU32, ReadU64,
    SignExtend, Slice, StartsWith, ToVec, WriteBytes, WriteU16, WriteU32, WriteU64, hasSingleBit,
};

#[test]
fn align_to_rounds_up() {
    assert_eq!(AlignTo(0, 8), 0);
    assert_eq!(AlignTo(1, 8), 8);
    assert_eq!(AlignTo(8, 8), 8);
    assert_eq!(AlignTo(9, 8), 16);
    assert_eq!(AlignTo(13, 0), 13);
    assert_eq!(AlignTo(0x200001, 4096), 0x201000);
    // an alignment that is no power of two still gives a multiple
    assert_eq!(AlignTo(10, 12), 12);
    assert_eq!(AlignTo(13, 12), 24);
}

#[test]
fn align_to_checked_reports_overflow() {
    assert_eq!(AlignToChecked(u64::MAX, 8), None);
    assert_eq!(AlignToChecked(u64::MAX - 7, 8), Some(u64::MAX - 7));
    assert_eq!(AlignToChecked(u64::MAX, 0), Some(u64::MAX));
    assert_eq!(AlignToChecked(17, 16), Some(32));
}

#[test]
fn aligned_values_are_multiples() {
    for val in [0u64, 1, 7, 8, 9, 63, 64, 65, 4095, 4096, 4097] {
        for align in [1u64, 2, 4, 8, 16, 4096, 3, 12] {
            let r = AlignTo(val, align);
            assert_eq!(r % align, 0);
            assert!(r >= val);
            assert!(r < val + align);
        }
    }
}

#[test]
fn atoi_reads_padded_decimal() {
    assert_eq!(atoi(b"123       "), Some(123));
    assert_eq!(atoi(b"  42"), Some(42));
    assert_eq!(atoi(b"0"), Some(0));
    assert_eq!(atoi(b"12 34"), Some(12));
    assert_eq!(atoi(b"12x"), None);
    assert_eq!(atoi(b""), None);
    assert_eq!(atoi(b"    "), None);
    assert_eq!(atoi(b"-1"), None);
    assert_eq!(atoi(b"18446744073709551615"), Some(u64::MAX));
    assert_eq!(atoi(b"18446744073709551616"), None);
}

#[test]
fn bit_and_bits_pick_fields() {
    assert_eq!(Bit(0b1000, 3), 1);
    assert_eq!(Bit(0b1000, 2), 0);
    assert_eq!(Bit(0x8000_0000, 31), 1);
    assert_eq!(Bits(0xabcd_1234, 15, 8), 0x12);
    assert_eq!(Bits(0xabcd_1234, 31, 0), 0xabcd_1234);
    assert_eq!(Bits(0xabcd_1234, 3, 3), 0);
    assert_eq!(Bits(0xabcd_1234, 2, 2), 1);
    assert_eq!(Bits(0xfff, 11, 5), 0x7f);
}

#[test]
fn single_bit_and_bit_ceil() {
    assert!(hasSingleBit(0));
    assert!(hasSingleBit(1));
    assert!(hasSingleBit(4096));
    assert!(hasSingleBit(1 << 63));
    assert!(!hasSingleBit(3));
    assert!(!hasSingleBit(4097));
    assert_eq!(BitCeil(0), Some(0));
    assert_eq!(BitCeil(1), Some(1));
    assert_eq!(BitCeil(3), Some(4));
    assert_eq!(BitCeil(5), Some(8));
    assert_eq!(BitCeil(4096), Some(4096));
    assert_eq!(BitCeil(4097), Some(8192));
    assert_eq!(BitCeil((1 << 63) + 1), None);
}

#[test]
fn sign_extend_widens_two_complement() {
    assert_eq!(SignExtend(0x7ff, 11), 0x7ff);
    assert_eq!(SignExtend(0x800, 11), 0xffff_ffff_ffff_f800);
    assert_eq!(SignExtend(0xfff, 11), u64::MAX);
    assert_eq!(SignExtend(0x1234_5800, 11), 0xffff_ffff_ffff_f800);
    assert_eq!(SignExtend(0x80, 7), 0xffff_ffff_ffff_ff80);
    assert_eq!(SignExtend(u64::MAX, 63), u64::MAX);
    assert_eq!(SignExtend(1, 0), u64::MAX);
}

#[test]
fn sign_extension_from_12_bits_keeps_small_values_only() {
    for v in [0u64, 1, 0x7ff, 0xffff_ffff_ffff_f800, u64::MAX] {
        assert_eq!(SignExtend(v, 11), v);
    }
    for v in [0x800u64, 0x1000, 0xffff_ffff_ffff_f7ff, 1 << 40] {
        assert_ne!(SignExtend(v, 11), v);
    }
}

#[test]
fn little_endian_reads() {
    let b = [0x01u8, 0x02, 0x03, 0x04, 0x05, 0x06, 0x07, 0x08, 0x09];
    assert_eq!(ReadU16(&b, 0), 0x0201);
    assert_eq!(ReadU16(&b, 7), 0x0908);
    assert_eq!(ReadU32(&b, 1), 0x0504_0302);
    assert_eq!(ReadU64(&b, 1), 0x0908_0706_0504_0302);
    assert_eq!(ReadU64(&[0xff; 8], 0), u64::MAX);
}

#[test]
fn little_endian_writes_round_trip() {
    let mut buf = vec![0xeeu8; 16];
    WriteU16(&mut buf, 1, 0xbeef);
    assert_eq!(&buf[0..4], &[0xee, 0xef, 0xbe, 0xee]);
    WriteU32(&mut buf, 4, 0xdead_beef);
    assert_eq!(&buf[4..8], &[0xef, 0xbe, 0xad, 0xde]);
    WriteU64(&mut buf, 8, 0x0102_0304_0506_0708);
    assert_eq!(&buf[8..16], &[8, 7, 6, 5, 4, 3, 2, 1]);
    assert_eq!(ReadU16(&buf, 1), 0xbeef);
    assert_eq!(ReadU32(&buf, 4), 0xdead_beef);
    assert_eq!(ReadU64(&buf, 8), 0x0102_0304_0506_0708);
    assert_eq!(buf[0], 0xee);
    assert_eq!(buf[3], 0xee);
}

#[test]
fn write_bytes_replaces_a_window() {
    let mut buf = vec![0u8; 6];
    WriteBytes(&mut buf, 2, &[7, 8, 9]);
    assert_eq!(buf, vec![0, 0, 7, 8, 9, 0]);
    WriteBytes(&mut buf, 6, &[]);
    assert_eq!(buf, vec![0, 0, 7, 8, 9, 0]);
}

#[test]
fn byte_string_helpers() {
    assert!(BytesEq(b"abc", b"abc"));
    assert!(!BytesEq(b"abc", b"abd"));
    assert!(!BytesEq(b"abc", b"ab"));
    assert!(BytesEq(b"", b""));
    assert!(StartsWith(b".text.hot", b".text."));
    assert!(StartsWith(b"x", b""));
    assert!(!StartsWith(b".tex", b".text"));
    assert_eq!(ToVec(b"xyz"), b"xyz".to_vec());
    assert_eq!(Slice(b"hello", 1, 3), Some(b"ell".to_vec()));
    assert_eq!(Slice(b"hello", 5, 0), Some(vec![]));
    assert_eq!(Slice(b"hello", 3, 3), None);
    assert_eq!(Slice(b"hello", 6, 0), None);
    assert_eq!(Slice(b"hello", u64::MAX, 2), None);
}
