use rvld::linker::context::Context;
use rvld::linker::elf::{Ehdr, MachineType, Phdr};
use rvld::linker::error::LinkError;
use rvld::linker::file::{File, NewInputFile, ReadInputFiles};
use rvld::linker::gotsection::{GotSection, SymbolLoc};
use rvld::linker::link::{Arrange, Emit, Gather, Link, UpdateShdrs};
use rvld::linker::inputsections::InputSection;
use rvld::linker::passes::{ConvertCommonSymbols, RegisterSectionPieces, ResolveSymbols};
use rvld::linker::symbol::SymbolId;

struct Sec {
    name: &'static str,
    ty: u32,
    flags: u64,
    data: Vec<u8>,
    size: u64,
    link: u32,
    info: u32,
    align: u64,
    entsize: u64,
}

fn sec(name: &'static str, ty: u32, flags: u64, data: Vec<u8>, align: u64) -> Sec {
    let size = data.len() as u64;
    Sec { name, ty, flags, data, size, link: 0, info: 0, align, entsize: 0 }
}

struct SymDef {
    name: &'static str,
    info: u8,
    shndx: u16,
    value: u64,
    size: u64,
}

fn symtab(syms: &[SymDef]) -> (Vec<u8>, Vec<u8>) {
    let mut tab = vec![0u8; 24];
    let mut strs = vec![0u8];
    for s in syms {
        let off = strs.len() as u32;
        strs.extend_from_slice(s.name.as_bytes());
        strs.push(0);
        tab.extend_from_slice(&off.to_le_bytes());
        tab.push(s.info);
        tab.push(0);
        tab.extend_from_slice(&s.shndx.to_le_bytes());
        tab.extend_from_slice(&s.value.to_le_bytes());
        tab.extend_from_slice(&s.size.to_le_bytes());
    }
    (tab, strs)
}

fn rela(offset: u64, sym: u32, ty: u32, addend: i64) -> Vec<u8> {
    let mut v = Vec::new();
    v.extend_from_slice(&offset.to_le_bytes());
    v.extend_from_slice(&ty.to_le_bytes());
    v.extend_from_slice(&sym.to_le_bytes());
    v.extend_from_slice(&addend.to_le_bytes());
    v
}

// Sections of the object get the indices 1, 2, ...; the section names come last.
fn build_elf(secs: Vec<Sec>, flags: u32) -> Vec<u8> {
    let mut names = vec![0u8];
    let mut name_offs = Vec::new();
    for s in &secs {
        name_offs.push(names.len() as u32);
        names.extend_from_slice(s.name.as_bytes());
        names.push(0);
    }
    let shstr_off = names.len() as u32;
    names.extend_from_slice(b".shstrtab\0");

    let mut out = vec![0u8; 64];
    let mut offsets = Vec::new();
    for s in &secs {
        while out.len() % 8 != 0 {
            out.push(0);
        }
        offsets.push(out.len() as u64);
        out.extend_from_slice(&s.data);
    }
    while out.len() % 8 != 0 {
        out.push(0);
    }
    let names_at = out.len() as u64;
    out.extend_from_slice(&names);
    while out.len() % 8 != 0 {
        out.push(0);
    }
    let shoff = out.len() as u64;
    let shnum = secs.len() as u16 + 2;

    let mut shdr = |name: u32, ty: u32, flags: u64, off: u64, size: u64, link: u32, info: u32, align: u64, ent: u64| {
        let mut h = Vec::new();
        h.extend_from_slice(&name.to_le_bytes());
        h.extend_from_slice(&ty.to_le_bytes());
        h.extend_from_slice(&flags.to_le_bytes());
        h.extend_from_slice(&0u64.to_le_bytes());
        h.extend_from_slice(&off.to_le_bytes());
        h.extend_from_slice(&size.to_le_bytes());
        h.extend_from_slice(&link.to_le_bytes());
        h.extend_from_slice(&info.to_le_bytes());
        h.extend_from_slice(&align.to_le_bytes());
        h.extend_from_slice(&ent.to_le_bytes());
        h
    };
    let mut table = Vec::new();
    table.extend(shdr(0, 0, 0, 0, 0, 0, 0, 0, 0));
    for (i, s) in secs.iter().enumerate() {
        table.extend(shdr(name_offs[i], s.ty, s.flags, offsets[i], s.size, s.link, s.info, s.align, s.entsize));
    }
    table.extend(shdr(shstr_off, 3, 0, names_at, names.len() as u64, 0, 0, 1, 0));
    out.extend_from_slice(&table);

    out[0..4].copy_from_slice(&[0x7f, 0x45, 0x4c, 0x46]);
    out[4] = 2;
    out[5] = 1;
    out[6] = 1;
    out[16..18].copy_from_slice(&1u16.to_le_bytes());
    out[18..20].copy_from_slice(&243u16.to_le_bytes());
    out[20..24].copy_from_slice(&1u32.to_le_bytes());
    out[40..48].copy_from_slice(&shoff.to_le_bytes());
    out[48..52].copy_from_slice(&flags.to_le_bytes());
    out[52..54].copy_from_slice(&64u16.to_le_bytes());
    out[58..60].copy_from_slice(&64u16.to_le_bytes());
    out[60..62].copy_from_slice(&shnum.to_le_bytes());
    out[62..64].copy_from_slice(&(shnum - 1).to_le_bytes());
    out
}

// An object with .text (1), .rela.text (2), .symtab (3), .strtab (4) and what `more` adds from 5 on.
fn object(text: Vec<u8>, relocs: Vec<u8>, syms: &[SymDef], first_global: u32, more: Vec<Sec>) -> Vec<u8> {
    let (tab, strs) = symtab(syms);
    let mut secs = vec![sec(".text", 1, 0x6, text, 4)];
    let mut r = sec(".rela.text", 4, 0, relocs, 8);
    r.link = 3;
    r.info = 1;
    r.entsize = 24;
    secs.push(r);
    let mut t = sec(".symtab", 2, 0, tab, 8);
    t.link = 4;
    t.info = first_global;
    t.entsize = 24;
    secs.push(t);
    secs.push(sec(".strtab", 3, 0, strs, 1));
    secs.extend(more);
    build_elf(secs, 0)
}

fn words(ws: &[u32]) -> Vec<u8> {
    let mut v = Vec::new();
    for w in ws {
        v.extend_from_slice(&w.to_le_bytes());
    }
    v
}

fn archive(members: &[(&str, Vec<u8>)]) -> Vec<u8> {
    let mut out = b"!<arch>\n".to_vec();
    for (name, data) in members {
        if out.len() % 2 == 1 {
            out.push(b'\n');
        }
        let mut h = format!("{}/", name).into_bytes();
        h.resize(16, b' ');
        let mut date = b"0".to_vec();
        date.resize(12, b' ');
        h.extend(date);
        h.extend(b"0     ");
        h.extend(b"0     ");
        h.extend(b"644     ");
        let mut sz = format!("{}", data.len()).into_bytes();
        sz.resize(10, b' ');
        h.extend(sz);
        h.extend(b"`\n");
        assert_eq!(h.len(), 60);
        out.extend(h);
        out.extend_from_slice(data);
    }
    out
}

fn new_ctx() -> Context {
    let mut ctx = Context::new();
    ctx.Args.Emulation = MachineType::MachineTypeRISCV64;
    ctx
}

fn file(name: &str, bytes: Vec<u8>) -> File {
    File::new(name.as_bytes().to_vec(), bytes, None)
}

fn read_u32(b: &[u8], at: usize) -> u32 {
    u32::from_le_bytes([b[at], b[at + 1], b[at + 2], b[at + 3]])
}

fn jimm(word: u32) -> u32 {
    ((word >> 31) << 20) | (((word >> 21) & 0x3ff) << 1) | (((word >> 20) & 1) << 11) | (((word >> 12) & 0xff) << 12)
}

fn output_section<'a>(ctx: &'a Context, name: &str) -> Option<&'a rvld::linker::output::OutputSection> {
    ctx.OutputSections.iter().find(|o| o.Chunk.Name == name.as_bytes())
}

fn global<'a>(ctx: &'a Context, name: &str) -> Option<&'a rvld::linker::symbol::Symbol> {
    ctx.SymbolMap.iter().find(|s| s.Name == name.as_bytes())
}

#[test]
fn single_object_with_jal() {
    // _start: jal x0, .L1 ; nop ; .L1: nop
    let text = words(&[0x0000_006f, 0x0000_0013, 0x0000_0013]);
    let syms = [
        SymDef { name: ".L1", info: 0x00, shndx: 1, value: 8, size: 0 },
        SymDef { name: "_start", info: 0x12, shndx: 1, value: 0, size: 12 },
    ];
    let a = object(text, rela(0, 1, 17, 0), &syms, 2, vec![]);
    let mut ctx = new_ctx();
    assert_eq!(Link(&mut ctx, vec![file("a.o", a)]), Ok(()));
    let buf = &ctx.Buf;
    assert_eq!(&buf[0..4], &[0x7f, 0x45, 0x4c, 0x46]);
    let ehdr = Ehdr::Read(buf).unwrap();
    assert_eq!(ehdr.Type, 2);
    assert_eq!(ehdr.Machine, 243);
    let text_sec = output_section(&ctx, ".text").unwrap();
    assert_eq!(ehdr.Entry, text_sec.Chunk.Shdr.Addr);
    assert!(ehdr.Entry >= 0x200000 + 64);
    assert_eq!(ehdr.Entry % 4, 0);
    let at = text_sec.Chunk.Shdr.Offset as usize;
    assert_eq!(text_sec.Chunk.Shdr.Offset, ehdr.Entry - 0x200000);
    let word = read_u32(buf, at);
    assert_eq!(word & 0xfff, 0x06f);
    assert_eq!(jimm(word), 8);
    assert_eq!(read_u32(buf, at + 4), 0x13);
}

#[test]
fn call_across_objects() {
    let a = object(
        words(&[0x0000_8067]),
        vec![],
        &[SymDef { name: "foo", info: 0x12, shndx: 1, value: 0, size: 4 }],
        1,
        vec![],
    );
    let b = object(
        words(&[0x0000_0097, 0x0000_80e7]),
        rela(0, 2, 18, 0),
        &[
            SymDef { name: "_start", info: 0x12, shndx: 1, value: 0, size: 8 },
            SymDef { name: "foo", info: 0x10, shndx: 0, value: 0, size: 0 },
        ],
        1,
        vec![],
    );
    let mut ctx = new_ctx();
    assert_eq!(Link(&mut ctx, vec![file("a.o", a), file("b.o", b)]), Ok(()));
    // both objects and the linker's own survive
    assert_eq!(ctx.Objs.len(), 3);
    assert!(ctx.Objs.iter().all(|o| o.inputFile.IsAlive));
    let text = output_section(&ctx, ".text").unwrap();
    let foo = global(&ctx, "foo").unwrap().GetAddr(&ctx);
    assert_eq!(foo, text.Chunk.Shdr.Addr);
    let site = text.Chunk.Shdr.Addr + 4;
    let at = text.Chunk.Shdr.Offset as usize + 4;
    let hi = read_u32(&ctx.Buf, at);
    let lo = read_u32(&ctx.Buf, at + 4);
    assert_eq!(hi & 0xfff, 0x097);
    assert_eq!(lo & 0xfffff, 0x080e7);
    let upper = hi & 0xffff_f000;
    let lower = ((lo as i32) >> 20) as u32;
    assert_eq!(upper.wrapping_add(lower), foo.wrapping_sub(site) as u32);
    assert_eq!(upper.wrapping_add(lower), (-4i32) as u32);
}

#[test]
fn archive_member_pulled_in_only_when_needed() {
    let a = object(
        words(&[0x0000_0097, 0x0000_80e7]),
        rela(0, 2, 18, 0),
        &[
            SymDef { name: "_start", info: 0x12, shndx: 1, value: 0, size: 8 },
            SymDef { name: "puts", info: 0x10, shndx: 0, value: 0, size: 0 },
        ],
        1,
        vec![],
    );
    let b = object(
        words(&[0x0000_0013]),
        vec![],
        &[SymDef { name: "helper", info: 0x12, shndx: 1, value: 0, size: 4 }],
        1,
        vec![],
    );
    let c = object(
        words(&[0x0000_8067]),
        vec![],
        &[SymDef { name: "puts", info: 0x12, shndx: 1, value: 0, size: 4 }],
        1,
        vec![],
    );
    let d = object(
        words(&[0x0000_8067]),
        vec![],
        &[SymDef { name: "unused", info: 0x12, shndx: 1, value: 0, size: 4 }],
        1,
        vec![],
    );
    let lib = archive(&[("c.o", c), ("d.o", d)]);
    let mut ctx = new_ctx();
    assert_eq!(Link(&mut ctx, vec![file("a.o", a), file("b.o", b), file("libc.a", lib)]), Ok(()));
    let names: Vec<Vec<u8>> = ctx.Objs.iter().map(|o| o.Name().clone()).collect();
    assert!(names.contains(&b"a.o".to_vec()));
    assert!(names.contains(&b"b.o".to_vec()));
    assert!(names.contains(&b"c.o".to_vec()));
    assert!(!names.contains(&b"d.o".to_vec()));
    assert_eq!(ctx.SymbolMap.iter().filter(|s| s.Name == b"puts").count(), 1);
    let puts = global(&ctx, "puts").unwrap();
    let definer = puts.File.unwrap();
    assert_eq!(ctx.Objs[definer].Name(), &b"c.o".to_vec());
    // what d.o defined has no definer left
    assert_eq!(global(&ctx, "unused").unwrap().File, None);
    // the archive member knows its archive
    assert_eq!(ctx.Objs[definer].inputFile.File.Parent, Some(b"libc.a".to_vec()));
}

fn with_strings(name: &'static str) -> Vec<u8> {
    let mut s = sec(".rodata.str1.1", 1, 0x32, b"hello\0".to_vec(), 1);
    s.entsize = 1;
    // auipc a0, 0 ; addi a0, a0, 0
    object(
        words(&[0x0000_0517, 0x0005_0513]),
        [rela(0, 1, 23, 0), rela(4, 2, 24, 0)].concat(),
        &[
            SymDef { name: ".LC0", info: 0x00, shndx: 5, value: 0, size: 0 },
            SymDef { name: ".Lpcrel", info: 0x00, shndx: 1, value: 0, size: 0 },
            SymDef { name, info: 0x12, shndx: 1, value: 0, size: 8 },
        ],
        3,
        vec![s],
    )
}

#[test]
fn equal_strings_are_merged() {
    let mut ctx = new_ctx();
    let files = vec![file("a.o", with_strings("_start")), file("b.o", with_strings("other"))];
    assert_eq!(Link(&mut ctx, files), Ok(()));
    let merged: Vec<_> = ctx.MergedSections.iter().filter(|m| m.Chunk.Name == b".rodata.str").collect();
    assert_eq!(merged.len(), 1);
    let m = merged[0];
    assert_eq!(m.Map.len(), 1);
    assert_eq!(m.Map[0].Key, b"hello\0".to_vec());
    assert_eq!(m.Chunk.Shdr.Size, 6);
    let at = m.Chunk.Shdr.Offset as usize + m.Map[0].Frag.Offset as usize;
    assert_eq!(&ctx.Buf[at..at + 6], b"hello\0");
    let hay = &ctx.Buf[..];
    let count = hay.windows(6).filter(|w| *w == b"hello\0").count();
    assert_eq!(count, 1);
    // both loads point at the one string
    let target = m.Chunk.Shdr.Addr + m.Map[0].Frag.Offset as u64;
    let text = output_section(&ctx, ".text").unwrap();
    for k in 0..2u64 {
        let site = text.Chunk.Shdr.Addr + 8 * k;
        let at = (text.Chunk.Shdr.Offset + 8 * k) as usize;
        let hi = read_u32(&ctx.Buf, at);
        let lo = read_u32(&ctx.Buf, at + 4);
        assert_eq!(hi & 0xfff, 0x517);
        assert_eq!(lo & 0xfffff, 0x50513);
        let upper = hi & 0xffff_f000;
        let lower = ((lo as i32) >> 20) as u32;
        assert_eq!(upper.wrapping_add(lower), target.wrapping_sub(site) as u32);
    }
}

#[test]
fn common_symbol_gets_a_section() {
    let a = object(
        words(&[0x0000_0537, 0x0005_0513]),
        [rela(0, 2, 26, 0), rela(4, 2, 27, 0)].concat(),
        &[
            SymDef { name: "_start", info: 0x12, shndx: 1, value: 0, size: 8 },
            SymDef { name: "x", info: 0x11, shndx: 0xfff2, value: 4, size: 4 },
        ],
        1,
        vec![],
    );
    let mut ctx = new_ctx();
    assert_eq!(Link(&mut ctx, vec![file("a.o", a)]), Ok(()));
    let common = output_section(&ctx, ".common").unwrap();
    assert_eq!(common.Chunk.Shdr.Type, 8);
    assert!(common.Chunk.Shdr.Size >= 4);
    assert_eq!(common.Chunk.Shdr.Addr % 4, 0);
    let x = global(&ctx, "x").unwrap();
    let addr = x.GetAddr(&ctx);
    assert!(addr >= common.Chunk.Shdr.Addr);
    assert!(addr < common.Chunk.Shdr.Addr + common.Chunk.Shdr.Size);
    // lui a0, %hi(x) ; addi a0, a0, %lo(x)
    let text = output_section(&ctx, ".text").unwrap();
    let at = text.Chunk.Shdr.Offset as usize;
    let hi = read_u32(&ctx.Buf, at);
    let lo = read_u32(&ctx.Buf, at + 4);
    let upper = hi & 0xffff_f000;
    let lower = ((lo as i32) >> 20) as u32;
    assert_eq!(upper.wrapping_add(lower), addr as u32);
    assert_eq!(hi & 0xfff, 0x537);
}

#[test]
fn thread_local_segment_and_got_slot() {
    let tdata = sec(".tdata", 1, 0x403, vec![1, 2, 3, 4, 5, 6, 7, 8], 8);
    let a = object(
        words(&[0x0000_0517, 0x0005_3503]),
        rela(0, 2, 21, 0),
        &[
            SymDef { name: "_start", info: 0x12, shndx: 1, value: 0, size: 8 },
            SymDef { name: "tvar", info: 0x16, shndx: 5, value: 0, size: 8 },
        ],
        1,
        vec![tdata],
    );
    let mut ctx = new_ctx();
    assert_eq!(Link(&mut ctx, vec![file("a.o", a)]), Ok(()));
    let tls: Vec<&Phdr> = ctx.Phdr.Phdrs.iter().filter(|p| p.Type == 7).collect();
    assert_eq!(tls.len(), 1);
    assert_eq!(ctx.TpAddr, tls[0].VAddr);
    assert_eq!(tls[0].MemSize, 8);
    assert_eq!(tls[0].FileSize, 8);
    let tdata_sec = output_section(&ctx, ".tdata").unwrap();
    assert_eq!(tls[0].VAddr, tdata_sec.Chunk.Shdr.Addr);

    // the relocation asks for a slot; give it one and look at what the slot holds
    let text_idx = 1;
    InputSection::ScanRelocations(&mut ctx, 0, text_idx);
    let id = ctx.Objs[0].inputFile.Symbols[2];
    let flagged = match id {
        SymbolId::Global(g) => ctx.SymbolMap[g].Flags,
        SymbolId::Local(k) => ctx.Objs[0].inputFile.LocalSymbols[k].Flags,
    };
    assert_eq!(flagged & 1, 1);
    assert_eq!(GotSection::AddGotTpSymbol(&mut ctx, SymbolLoc { Obj: 0, Id: id }), Ok(()));
    let entries = GotSection::GetEntries(&ctx);
    assert_eq!(entries.len(), 1);
    assert_eq!(entries[0].Idx, 0);
    let addr = global(&ctx, "tvar").unwrap().GetAddr(&ctx);
    assert_eq!(entries[0].Val, addr.wrapping_sub(ctx.TpAddr));
    assert_eq!(ctx.Got.Chunk.Shdr.Size, 8);
}

#[test]
fn link_rejects_other_emulation() {
    let mut ctx = Context::new();
    assert_eq!(Link(&mut ctx, vec![]), Err(LinkError::Cli));
}

#[test]
fn link_rejects_unknown_file() {
    let mut ctx = new_ctx();
    assert_eq!(Link(&mut ctx, vec![file("x", b"garbage".to_vec())]), Err(LinkError::Format));
}

#[test]
fn link_rejects_wrong_machine() {
    let mut a = object(words(&[0x13]), vec![], &[SymDef { name: "_start", info: 0x12, shndx: 1, value: 0, size: 4 }], 1, vec![]);
    a[18] = 62;
    a[19] = 0;
    let mut ctx = new_ctx();
    assert_eq!(Link(&mut ctx, vec![file("a.o", a)]), Err(LinkError::Compatibility));
}

#[test]
fn link_rejects_local_common() {
    let a = object(
        words(&[0x13]),
        vec![],
        &[
            SymDef { name: "c", info: 0x01, shndx: 0xfff2, value: 4, size: 4 },
            SymDef { name: "_start", info: 0x12, shndx: 1, value: 0, size: 4 },
        ],
        2,
        vec![],
    );
    let mut ctx = new_ctx();
    assert_eq!(Link(&mut ctx, vec![file("a.o", a)]), Err(LinkError::Resolution));
}

#[test]
fn header_counts_match_tables() {
    let a = object(words(&[0x13]), vec![], &[SymDef { name: "_start", info: 0x12, shndx: 1, value: 0, size: 4 }], 1, vec![]);
    let mut ctx = new_ctx();
    assert_eq!(Link(&mut ctx, vec![file("a.o", a)]), Ok(()));
    let e = Ehdr::Read(&ctx.Buf).unwrap();
    assert_eq!(e.ShNum as u64 * e.ShEntSize as u64, ctx.Shdr.Chunk.Shdr.Size);
    assert_eq!(e.PhNum as u64 * e.PhEntSize as u64, ctx.Phdr.Chunk.Shdr.Size);
    assert_eq!(e.PhOff, 64);
    assert_eq!(e.PhNum as usize, ctx.Phdr.Phdrs.len());
    // the first program header describes the table itself
    let phdr = Phdr::Read(&ctx.Buf, 64);
    assert_eq!(phdr.Type, 6);
    assert_eq!(phdr.Flags, 4);
    assert_eq!(phdr.Offset, 64);
    assert_eq!(phdr.VAddr, 0x200040);
    // the text is loaded by a segment that is readable and executable
    let load: Vec<&Phdr> = ctx.Phdr.Phdrs.iter().filter(|p| p.Type == 1).collect();
    assert!(load.iter().any(|p| p.Flags == 5));
    assert!(load.iter().all(|p| p.Align >= 4096));
}

#[test]
fn the_phases_in_turn_are_the_link() {
    let text = words(&[0x0000_006f, 0x0000_0013, 0x0000_0013]);
    let syms = [
        SymDef { name: ".L1", info: 0x00, shndx: 1, value: 8, size: 0 },
        SymDef { name: "_start", info: 0x12, shndx: 1, value: 0, size: 12 },
    ];
    let one = object(text, rela(0, 1, 17, 0), &syms, 2, vec![]);
    let mut a = new_ctx();
    let mut b = new_ctx();
    assert_eq!(Link(&mut a, vec![file("a.o", one.clone())]), Ok(()));
    assert_eq!(Gather(&mut b, vec![file("a.o", one)]), Ok(()));
    assert!(b.Chunks.is_empty());
    assert_eq!(Arrange(&mut b), Ok(()));
    assert!(b.Buf.is_empty());
    assert_eq!(Emit(&mut b), Ok(()));
    assert_eq!(a.Buf, b.Buf);
    assert!(!a.Buf.is_empty());
}

#[test]
fn a_failing_phase_ends_the_link_with_its_error() {
    let junk = vec![1u8, 2, 3, 4, 5, 6, 7, 8];
    let mut a = new_ctx();
    let mut b = new_ctx();
    let r = Link(&mut a, vec![file("junk", junk.clone())]);
    assert_eq!(r, Err(LinkError::Format));
    assert_eq!(Gather(&mut b, vec![file("junk", junk)]), r);
    assert!(a.Buf.is_empty());
    assert!(a.Chunks.is_empty());
}

#[test]
fn headers_are_brought_up_to_date_chunk_by_chunk() {
    let text = words(&[0x0000_0013]);
    let syms = [SymDef { name: "_start", info: 0x12, shndx: 1, value: 0, size: 4 }];
    let one = object(text, vec![], &syms, 1, vec![]);
    let mut ctx = new_ctx();
    assert_eq!(Gather(&mut ctx, vec![file("a.o", one)]), Ok(()));
    assert_eq!(Arrange(&mut ctx), Ok(()));
    assert_eq!(ctx.Phdr.Chunk.Shdr.Size, 0);
    assert_eq!(ctx.Shdr.Chunk.Shdr.Size, 0);
    assert_eq!(UpdateShdrs(&mut ctx), Ok(()));
    assert_eq!(ctx.Shdr.Chunk.Shdr.Size, 64);
    assert_eq!(ctx.Phdr.Chunk.Shdr.Size, 56 * ctx.Phdr.Phdrs.len() as u64);
    assert!(!ctx.Phdr.Phdrs.is_empty());
}

#[test]
fn symbols_are_bound_to_the_object_that_defines_them() {
    let a = object(
        words(&[0x0000_8067]),
        vec![],
        &[SymDef { name: "foo", info: 0x12, shndx: 1, value: 0, size: 4 }],
        1,
        vec![],
    );
    let b = object(
        words(&[0x0000_0097, 0x0000_80e7]),
        rela(0, 2, 18, 0),
        &[
            SymDef { name: "_start", info: 0x12, shndx: 1, value: 0, size: 8 },
            SymDef { name: "foo", info: 0x10, shndx: 0, value: 0, size: 0 },
        ],
        1,
        vec![],
    );
    let mut ctx = new_ctx();
    assert_eq!(ReadInputFiles(&mut ctx, vec![file("a.o", a), file("b.o", b)]), Ok(()));
    // what was read is parsed: sections and symbols are there, nothing is bound yet
    assert_eq!(ctx.Objs.len(), 2);
    assert_eq!(ctx.Objs[0].Sections.len(), 6);
    assert!(ctx.Objs[0].Sections[1].is_some());
    assert_eq!(ctx.Objs[1].inputFile.Symbols.len(), 3);
    assert!(ctx.SymbolMap.iter().all(|s| s.File.is_none() && s.Value == 0));
    ResolveSymbols(&mut ctx);
    let names: Vec<Vec<u8>> = ctx.Objs.iter().map(|o| o.Name().clone()).collect();
    assert_eq!(names, vec![b"a.o".to_vec(), b"b.o".to_vec()]);
    assert!(ctx.Objs.iter().all(|o| o.inputFile.IsAlive));
    assert_eq!(global(&ctx, "foo").unwrap().File, Some(0));
    assert_eq!(global(&ctx, "foo").unwrap().InputSection, Some(1));
    assert_eq!(global(&ctx, "_start").unwrap().File, Some(1));
}

#[test]
fn members_that_nothing_needs_are_dropped() {
    let a = object(
        words(&[0x0000_0097, 0x0000_80e7]),
        rela(0, 2, 18, 0),
        &[
            SymDef { name: "_start", info: 0x12, shndx: 1, value: 0, size: 8 },
            SymDef { name: "puts", info: 0x10, shndx: 0, value: 0, size: 0 },
        ],
        1,
        vec![],
    );
    let b = object(
        words(&[0x0000_0013]),
        vec![],
        &[SymDef { name: "helper", info: 0x12, shndx: 1, value: 0, size: 4 }],
        1,
        vec![],
    );
    let c = object(
        words(&[0x0000_8067]),
        vec![],
        &[SymDef { name: "puts", info: 0x12, shndx: 1, value: 0, size: 4 }],
        1,
        vec![],
    );
    let d = object(
        words(&[0x0000_8067]),
        vec![],
        &[SymDef { name: "unused", info: 0x12, shndx: 1, value: 0, size: 4 }],
        1,
        vec![],
    );
    let lib = archive(&[("c.o", c), ("d.o", d)]);
    let mut ctx = new_ctx();
    assert_eq!(
        ReadInputFiles(&mut ctx, vec![file("a.o", a), file("b.o", b), file("libc.a", lib)]),
        Ok(())
    );
    let alive: Vec<bool> = ctx.Objs.iter().map(|o| o.inputFile.IsAlive).collect();
    assert_eq!(alive, vec![true, true, false, false]);
    ResolveSymbols(&mut ctx);
    let names: Vec<Vec<u8>> = ctx.Objs.iter().map(|o| o.Name().clone()).collect();
    assert_eq!(names, vec![b"a.o".to_vec(), b"b.o".to_vec(), b"c.o".to_vec()]);
    assert!(ctx.Objs.iter().all(|o| o.inputFile.IsAlive));
    assert_eq!(global(&ctx, "puts").unwrap().File, Some(2));
    assert_eq!(global(&ctx, "unused").unwrap().File, None);
}

#[test]
fn a_common_symbol_gets_a_section_of_its_size_and_alignment() {
    let a = object(
        words(&[0x0000_0537, 0x0005_0513]),
        [rela(0, 2, 26, 0), rela(4, 2, 27, 0)].concat(),
        &[
            SymDef { name: "_start", info: 0x12, shndx: 1, value: 0, size: 8 },
            SymDef { name: "x", info: 0x11, shndx: 0xfff2, value: 4, size: 4 },
        ],
        1,
        vec![],
    );
    let mut ctx = new_ctx();
    assert_eq!(ReadInputFiles(&mut ctx, vec![file("a.o", a)]), Ok(()));
    ResolveSymbols(&mut ctx);
    let had = ctx.Objs[0].Sections.len();
    ConvertCommonSymbols(&mut ctx);
    let obj = &ctx.Objs[0];
    assert_eq!(obj.Sections.len(), had + 1);
    assert_eq!(obj.inputFile.ElfSections2.len(), 1);
    let h = obj.inputFile.ElfSections2[0];
    assert_eq!((h.Type, h.Flags, h.Size, h.AddrAlign), (8, 3, 4, 4));
    let sec = obj.Sections[had].as_ref().unwrap();
    assert_eq!(sec.ShSize, 4);
    assert_eq!(sec.P2Align, 2);
    assert!(sec.IsAlive);
    assert!(sec.Contents.is_empty());
    let out = &ctx.OutputSections[sec.OutputSection];
    assert_eq!(out.Chunk.Name, b".common".to_vec());
    assert_eq!(out.Chunk.Shdr.Type, 8);
    let x = global(&ctx, "x").unwrap();
    assert_eq!(x.File, Some(0));
    assert_eq!(x.InputSection, Some(had));
    assert_eq!(x.SectionFragment, None);
    assert_eq!(x.Value, 0);
    assert_eq!(x.SymIdx, 2);
    // a second run finds nothing left to do
    ConvertCommonSymbols(&mut ctx);
    assert_eq!(ctx.Objs[0].Sections.len(), had + 1);
}

#[test]
fn pieces_are_registered_with_the_alignment_of_their_section() {
    let mut s = sec(".rodata.str1.8", 1, 0x32, b"hello\0".to_vec(), 8);
    s.entsize = 1;
    let a = object(
        words(&[0x0000_0517, 0x0005_0513]),
        [rela(0, 1, 23, 0), rela(4, 2, 24, 0)].concat(),
        &[
            SymDef { name: ".LC0", info: 0x00, shndx: 5, value: 0, size: 0 },
            SymDef { name: ".Lpcrel", info: 0x00, shndx: 1, value: 0, size: 0 },
            SymDef { name: "_start", info: 0x12, shndx: 1, value: 0, size: 8 },
        ],
        3,
        vec![s],
    );
    let mut ctx = new_ctx();
    assert_eq!(ReadInputFiles(&mut ctx, vec![file("a.o", a)]), Ok(()));
    ResolveSymbols(&mut ctx);
    let before: Vec<(Option<usize>, u64)> =
        ctx.SymbolMap.iter().map(|g| (g.InputSection, g.Value)).collect();
    assert_eq!(RegisterSectionPieces(&mut ctx), Ok(()));
    let ms = ctx.Objs[0].MergeableSections[5].as_ref().unwrap();
    assert_eq!(ms.P2Align, 3);
    assert_eq!(ms.Fragments.len(), ms.Strs.len());
    assert_eq!(ms.Fragments.len(), 1);
    let entry = &ctx.MergedSections[ms.Parent].Map[ms.Fragments[0]];
    assert_eq!(entry.Key, b"hello\0".to_vec());
    assert_eq!(entry.Frag.P2Align, 3);
    // the local symbol in the piece is bound to the fragment, at its offset in the piece
    let lc0 = &ctx.Objs[0].inputFile.LocalSymbols[1];
    assert_eq!(lc0.InputSection, None);
    assert_eq!(lc0.SectionFragment.map(|f| (f.Section, f.Index)), Some((ms.Parent, ms.Fragments[0])));
    assert_eq!(lc0.Value, 0);
    // symbols of other sections stay as they are
    let after: Vec<(Option<usize>, u64)> =
        ctx.SymbolMap.iter().map(|g| (g.InputSection, g.Value)).collect();
    assert_eq!(before, after);
}

#[test]
fn a_file_that_is_opened_has_its_headers_and_nothing_else() {
    let a = object(
        words(&[0x0000_8067]),
        vec![],
        &[SymDef { name: "foo", info: 0x12, shndx: 1, value: 0, size: 4 }],
        1,
        vec![],
    );
    let f = NewInputFile(file("a.o", a.clone())).unwrap();
    assert_eq!(f.File.Contents, a);
    assert_eq!(f.Ehdr.Machine, 243);
    assert_eq!(f.ElfSections.len(), 6);
    assert_eq!(f.ElfSections[1].Type, 1);
    assert!(f.Shstrtab.starts_with(b"\0"));
    assert!(f.ElfSections2.is_empty() && f.ElfSyms.is_empty() && f.SymbolStrTab.is_empty());
    assert!(f.Symbols.is_empty() && f.LocalSymbols.is_empty());
    assert_eq!(f.FirstGlobal, 0);
    assert!(!f.IsAlive);
    assert_eq!(NewInputFile(file("junk", vec![0x7f, 0x45, 0x4c, 0x46])).err(), Some(LinkError::Format));
}

#[test]
fn a_new_context_has_its_four_chunks() {
    let ctx = Context::new();
    let e = ctx.Ehdr.Chunk.Shdr;
    assert_eq!((e.Flags, e.Size, e.AddrAlign, e.Type), (2, 64, 8, 0));
    let p = ctx.Phdr.Chunk.Shdr;
    assert_eq!((p.Flags, p.Size, p.AddrAlign), (2, 0, 8));
    assert!(ctx.Phdr.Phdrs.is_empty());
    let s = ctx.Shdr.Chunk.Shdr;
    assert_eq!((s.Flags, s.Size, s.AddrAlign), (0, 0, 8));
    let g = ctx.Got.Chunk.Shdr;
    assert_eq!(ctx.Got.Chunk.Name, b".got".to_vec());
    assert_eq!((g.Type, g.Flags, g.Size, g.AddrAlign), (1, 3, 0, 0));
    assert!(ctx.Got.GotTpSyms.is_empty());
}
