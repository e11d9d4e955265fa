use rvld::linker::gotsection::{
    btype, cbtype, cjtype, itype, jtype, setRs1, stype, utype, writeBtype, writeItype, writeJtype,
    writeStype, writeUtype,
};
use rvld::utils::{ReadU32, WriteU32};

fn imm_i(w: u32) -> u32 {
    w >> 20
}

fn imm_s(w: u32) -> u32 {
    ((w >> 25) << 5) | ((w >> 7) & 0x1f)
}

fn imm_b(w: u32) -> u32 {
    ((w >> 31) << 12) | (((w >> 25) & 0x3f) << 5) | (((w >> 8) & 0xf) << 1) | (((w >> 7) & 1) << 11)
}

fn imm_j(w: u32) -> u32 {
    ((w >> 31) << 20) | (((w >> 21) & 0x3ff) << 1) | (((w >> 20) & 1) << 11) | (((w >> 12) & 0xff) << 12)
}

#[test]
fn immediates_have_the_documented_layout() {
    assert_eq!(itype(0x123), 0x1230_0000);
    assert_eq!(itype(0xfff), 0xfff0_0000);
    assert_eq!(stype(0xfff), 0xfe00_0f80);
    assert_eq!(stype(0x01f), 0x0000_0f80);
    assert_eq!(stype(0xfe0), 0xfe00_0000);
    assert_eq!(btype(0x1000), 0x8000_0000);
    assert_eq!(btype(0x0800), 0x0000_0080);
    assert_eq!(btype(0x07e0), 0x7e00_0000);
    assert_eq!(btype(0x001e), 0x0000_0f00);
    assert_eq!(utype(0x1234_5678), 0x1234_5000);
    assert_eq!(utype(0x1234_5800), 0x1234_6000);
    assert_eq!(utype(0xffff_ffff), 0);
    assert_eq!(jtype(0x10_0000), 0x8000_0000);
    assert_eq!(jtype(0x0_0800), 0x0010_0000);
    assert_eq!(jtype(0x0_07fe), 0x7fe0_0000);
    assert_eq!(jtype(0xf_f000), 0x000f_f000);
    assert_eq!(jtype(8), 0x0080_0000);
}

#[test]
fn immediates_read_back() {
    for v in [0u32, 1, 2, 8, 0x7fe, 0x800, 0xabc, 0xfff, 0x1ffe, 0x1f_fffe, 0xdead_beef] {
        assert_eq!(imm_i(itype(v)), v & 0xfff);
        assert_eq!(imm_s(stype(v)), v & 0xfff);
        assert_eq!(imm_b(btype(v)), v & 0x1ffe);
        assert_eq!(imm_j(jtype(v)), v & 0x1f_fffe);
    }
}

#[test]
fn high_and_low_part_add_up() {
    for v in [0u32, 1, 0x7ff, 0x800, 0xfff, 0x1000, 0x1234_5678, 0x1234_5800, 0xffff_fffc, 0x8000_0000] {
        let lo = ((v & 0xfff) ^ 0x800).wrapping_sub(0x800);
        assert_eq!(utype(v).wrapping_add(lo), v);
        assert_eq!(utype(v) & 0xfff, 0);
    }
}

#[test]
fn compressed_immediates() {
    assert_eq!(cbtype(1 << 8), 1 << 12);
    assert_eq!(cbtype(1 << 4), 1 << 11);
    assert_eq!(cbtype(1 << 3), 1 << 10);
    assert_eq!(cbtype(1 << 7), 1 << 6);
    assert_eq!(cbtype(1 << 6), 1 << 5);
    assert_eq!(cbtype(1 << 2), 1 << 4);
    assert_eq!(cbtype(1 << 1), 1 << 3);
    assert_eq!(cbtype(1 << 5), 1 << 2);
    assert_eq!(cbtype(1), 0);
    assert_eq!(cjtype(1 << 11), 1 << 12);
    assert_eq!(cjtype(1 << 4), 1 << 11);
    assert_eq!(cjtype(1 << 9), 1 << 10);
    assert_eq!(cjtype(1 << 8), 1 << 9);
    assert_eq!(cjtype(1 << 10), 1 << 8);
    assert_eq!(cjtype(1 << 6), 1 << 7);
    assert_eq!(cjtype(1 << 7), 1 << 6);
    assert_eq!(cjtype(1 << 3), 1 << 5);
    assert_eq!(cjtype(1 << 2), 1 << 4);
    assert_eq!(cjtype(1 << 1), 1 << 3);
    assert_eq!(cjtype(1 << 5), 1 << 2);
    assert_eq!(cjtype(0xffe), 0x1ffc);
}

fn patched(start: u32, f: fn(&mut Vec<u8>, usize, u32), val: u32) -> u32 {
    let mut buf = vec![0xaau8; 12];
    WriteU32(&mut buf, 4, start);
    f(&mut buf, 4, val);
    assert_eq!(&buf[0..4], &[0xaa; 4]);
    assert_eq!(&buf[8..12], &[0xaa; 4]);
    ReadU32(&buf, 4)
}

#[test]
fn writers_keep_the_other_fields() {
    // addi a0, a0, 0 takes a new immediate and keeps registers and opcode
    assert_eq!(patched(0x0005_0513, writeItype, 0x7ff), 0x7ff5_0513);
    assert_eq!(patched(0xfff5_0513, writeItype, 0), 0x0005_0513);
    // sw a1, 0(a0)
    assert_eq!(patched(0x00b5_2023, writeStype, 0xfff), 0xfeb5_2fa3);
    assert_eq!(patched(0xfeb5_2fa3, writeStype, 0), 0x00b5_2023);
    // beq a0, a1, 0
    assert_eq!(patched(0x00b5_0063, writeBtype, 0x1ffe), 0xfeb5_0fe3);
    // auipc ra, 0
    assert_eq!(patched(0x0000_0097, writeUtype, 0x1234_5678), 0x1234_5097);
    assert_eq!(patched(0xffff_f097, writeUtype, 0x800), 0x0000_1097);
    // jal ra, 0
    assert_eq!(patched(0x0000_00ef, writeJtype, 0x1f_fffe), 0xffff_f0ef);
    assert_eq!(patched(0xffff_f0ef, writeJtype, 8), 0x0080_00ef);
}

#[test]
fn writers_are_idempotent() {
    let fs: [fn(&mut Vec<u8>, usize, u32); 5] = [writeItype, writeStype, writeBtype, writeUtype, writeJtype];
    for f in fs {
        for v in [0u32, 8, 0xfff, 0x1234_5678] {
            let once = patched(0x1357_9bdf, f, v);
            assert_eq!(patched(once, f, v), once);
        }
    }
}

#[test]
fn set_rs1_replaces_one_register() {
    let mut buf = vec![0u8; 4];
    WriteU32(&mut buf, 0, 0xffff_ffff);
    setRs1(&mut buf, 0, 0);
    assert_eq!(ReadU32(&buf, 0), 0xfff0_7fff);
    setRs1(&mut buf, 0, 4);
    assert_eq!(ReadU32(&buf, 0), 0xfff2_7fff);
    WriteU32(&mut buf, 0, 0x8005_0513);
    setRs1(&mut buf, 0, 31);
    assert_eq!(ReadU32(&buf, 0), 0x800f_8513);
}
