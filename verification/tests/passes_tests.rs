use rvld::linker::context::Context;
use rvld::linker::elf::{Ehdr, MachineType, Phdr};
use rvld::linker::link::CreateInternalFile;
use rvld::linker::mergedsection::MergedSection;
use rvld::linker::output::{GetEntryAddr, GetFlags, GetOutputName, OutputEhdr, OutputPhdr, OutputShdr};
use rvld::linker::passes::{MarkLiveObjects, ResolveSymbols};
use rvld::linker::relocation::{ApplyStep1, Low32, Position};
use rvld::linker::symbol::Symbol;
use rvld::linker::error::LinkError;
use rvld::linker::file::File;
use rvld::linker::link::Link;
use rvld::linker::inputsections::InputSection;

struct Sec {
    name: &'static str,
    ty: u32,
    flags: u64,
    data: Vec<u8>,
    size: u64,
    link: u32,
    info: u32,
    align: u64,
    entsize: u64,
}

fn sec(name: &'static str, ty: u32, flags: u64, data: Vec<u8>, align: u64) -> Sec {
    let size = data.len() as u64;
    Sec { name, ty, flags, data, size, link: 0, info: 0, align, entsize: 0 }
}

struct SymDef {
    name: &'static str,
    info: u8,
    shndx: u16,
    value: u64,
    size: u64,
}

fn symtab(syms: &[SymDef]) -> (Vec<u8>, Vec<u8>) {
    let mut tab = vec![0u8; 24];
    let mut strs = vec![0u8];
    for s in syms {
        let off = strs.len() as u32;
        strs.extend_from_slice(s.name.as_bytes());
        strs.push(0);
        tab.extend_from_slice(&off.to_le_bytes());
        tab.push(s.info);
        tab.push(0);
        tab.extend_from_slice(&s.shndx.to_le_bytes());
        tab.extend_from_slice(&s.value.to_le_bytes());
        tab.extend_from_slice(&s.size.to_le_bytes());
    }
    (tab, strs)
}

fn rela(offset: u64, sym: u32, ty: u32, addend: i64) -> Vec<u8> {
    let mut v = Vec::new();
    v.extend_from_slice(&offset.to_le_bytes());
    v.extend_from_slice(&ty.to_le_bytes());
    v.extend_from_slice(&sym.to_le_bytes());
    v.extend_from_slice(&addend.to_le_bytes());
    v
}

// Sections of the object get the indices 1, 2, ...; the section names come last.
fn build_elf(secs: Vec<Sec>, flags: u32) -> Vec<u8> {
    let mut names = vec![0u8];
    let mut name_offs = Vec::new();
    for s in &secs {
        name_offs.push(names.len() as u32);
        names.extend_from_slice(s.name.as_bytes());
        names.push(0);
    }
    let shstr_off = names.len() as u32;
    names.extend_from_slice(b".shstrtab\0");

    let mut out = vec![0u8; 64];
    let mut offsets = Vec::new();
    for s in &secs {
        while out.len() % 8 != 0 {
            out.push(0);
        }
        offsets.push(out.len() as u64);
        out.extend_from_slice(&s.data);
    }
    while out.len() % 8 != 0 {
        out.push(0);
    }
    let names_at = out.len() as u64;
    out.extend_from_slice(&names);
    while out.len() % 8 != 0 {
        out.push(0);
    }
    let shoff = out.len() as u64;
    let shnum = secs.len() as u16 + 2;

    let mut shdr = |name: u32, ty: u32, flags: u64, off: u64, size: u64, link: u32, info: u32, align: u64, ent: u64| {
        let mut h = Vec::new();
        h.extend_from_slice(&name.to_le_bytes());
        h.extend_from_slice(&ty.to_le_bytes());
        h.extend_from_slice(&flags.to_le_bytes());
        h.extend_from_slice(&0u64.to_le_bytes());
        h.extend_from_slice(&off.to_le_bytes());
        h.extend_from_slice(&size.to_le_bytes());
        h.extend_from_slice(&link.to_le_bytes());
        h.extend_from_slice(&info.to_le_bytes());
        h.extend_from_slice(&align.to_le_bytes());
        h.extend_from_slice(&ent.to_le_bytes());
        h
    };
    let mut table = Vec::new();
    table.extend(shdr(0, 0, 0, 0, 0, 0, 0, 0, 0));
    for (i, s) in secs.iter().enumerate() {
        table.extend(shdr(name_offs[i], s.ty, s.flags, offsets[i], s.size, s.link, s.info, s.align, s.entsize));
    }
    table.extend(shdr(shstr_off, 3, 0, names_at, names.len() as u64, 0, 0, 1, 0));
    out.extend_from_slice(&table);

    out[0..4].copy_from_slice(&[0x7f, 0x45, 0x4c, 0x46]);
    out[4] = 2;
    out[5] = 1;
    out[6] = 1;
    out[16..18].copy_from_slice(&1u16.to_le_bytes());
    out[18..20].copy_from_slice(&243u16.to_le_bytes());
    out[20..24].copy_from_slice(&1u32.to_le_bytes());
    out[40..48].copy_from_slice(&shoff.to_le_bytes());
    out[48..52].copy_from_slice(&flags.to_le_bytes());
    out[52..54].copy_from_slice(&64u16.to_le_bytes());
    out[58..60].copy_from_slice(&64u16.to_le_bytes());
    out[60..62].copy_from_slice(&shnum.to_le_bytes());
    out[62..64].copy_from_slice(&(shnum - 1).to_le_bytes());
    out
}

// An object with .text (1), .rela.text (2), .symtab (3), .strtab (4) and what `more` adds from 5 on.
fn object(text: Vec<u8>, relocs: Vec<u8>, syms: &[SymDef], first_global: u32, more: Vec<Sec>) -> Vec<u8> {
    let (tab, strs) = symtab(syms);
    let mut secs = vec![sec(".text", 1, 0x6, text, 4)];
    let mut r = sec(".rela.text", 4, 0, relocs, 8);
    r.link = 3;
    r.info = 1;
    r.entsize = 24;
    secs.push(r);
    let mut t = sec(".symtab", 2, 0, tab, 8);
    t.link = 4;
    t.info = first_global;
    t.entsize = 24;
    secs.push(t);
    secs.push(sec(".strtab", 3, 0, strs, 1));
    secs.extend(more);
    build_elf(secs, 0)
}

fn words(ws: &[u32]) -> Vec<u8> {
    let mut v = Vec::new();
    for w in ws {
        v.extend_from_slice(&w.to_le_bytes());
    }
    v
}

fn archive(members: &[(&str, Vec<u8>)]) -> Vec<u8> {
    let mut out = b"!<arch>\n".to_vec();
    for (name, data) in members {
        if out.len() % 2 == 1 {
            out.push(b'\n');
        }
        let mut h = format!("{}/", name).into_bytes();
        h.resize(16, b' ');
        let mut date = b"0".to_vec();
        date.resize(12, b' ');
        h.extend(date);
        h.extend(b"0     ");
        h.extend(b"0     ");
        h.extend(b"644     ");
        let mut sz = format!("{}", data.len()).into_bytes();
        sz.resize(10, b' ');
        h.extend(sz);
        h.extend(b"`\n");
        assert_eq!(h.len(), 60);
        out.extend(h);
        out.extend_from_slice(data);
    }
    out
}

fn new_ctx() -> Context {
    let mut ctx = Context::new();
    ctx.Args.Emulation = MachineType::MachineTypeRISCV64;
    ctx
}

fn file(name: &str, bytes: Vec<u8>) -> File {
    File::new(name.as_bytes().to_vec(), bytes, None)
}

fn read_u32(b: &[u8], at: usize) -> u32 {
    u32::from_le_bytes([b[at], b[at + 1], b[at + 2], b[at + 3]])
}

fn jimm(word: u32) -> u32 {
    ((word >> 31) << 20) | (((word >> 21) & 0x3ff) << 1) | (((word >> 20) & 1) << 11) | (((word >> 12) & 0xff) << 12)
}

fn output_section<'a>(ctx: &'a Context, name: &str) -> Option<&'a rvld::linker::output::OutputSection> {
    ctx.OutputSections.iter().find(|o| o.Chunk.Name == name.as_bytes())
}

fn global<'a>(ctx: &'a Context, name: &str) -> Option<&'a rvld::linker::symbol::Symbol> {
    ctx.SymbolMap.iter().find(|s| s.Name == name.as_bytes())
}

fn with_strings(name: &'static str) -> Vec<u8> {
    let mut s = sec(".rodata.str1.1", 1, 0x32, b"hello\0".to_vec(), 1);
    s.entsize = 1;
    // auipc a0, 0 ; addi a0, a0, 0
    object(
        words(&[0x0000_0517, 0x0005_0513]),
        [rela(0, 1, 23, 0), rela(4, 2, 24, 0)].concat(),
        &[
            SymDef { name: ".LC0", info: 0x00, shndx: 5, value: 0, size: 0 },
            SymDef { name: ".Lpcrel", info: 0x00, shndx: 1, value: 0, size: 0 },
            SymDef { name, info: 0x12, shndx: 1, value: 0, size: 8 },
        ],
        3,
        vec![s],
    )
}


#[test]
fn low_part_needs_its_high_part() {
    // the symbol of the low part lies in another section
    let data = sec(".data", 1, 3, vec![0; 8], 8);
    let a = object(
        words(&[0x0000_0517, 0x0005_0513]),
        [rela(0, 1, 23, 0), rela(4, 1, 24, 0)].concat(),
        &[
            SymDef { name: "d", info: 0x00, shndx: 5, value: 0, size: 0 },
            SymDef { name: "_start", info: 0x12, shndx: 1, value: 0, size: 8 },
        ],
        2,
        vec![data],
    );
    let mut ctx = new_ctx();
    assert_eq!(Link(&mut ctx, vec![file("a.o", a)]), Err(LinkError::Resolution));
}

#[test]
fn a_symbol_outside_every_piece_is_rejected() {
    let mut s = sec(".rodata.str1.1", 1, 0x32, vec![], 1);
    s.entsize = 1;
    let a = object(
        words(&[0x13]),
        vec![],
        &[
            SymDef { name: ".LC0", info: 0x00, shndx: 5, value: 0, size: 0 },
            SymDef { name: "_start", info: 0x12, shndx: 1, value: 0, size: 4 },
        ],
        2,
        vec![s],
    );
    let mut ctx = new_ctx();
    assert_eq!(Link(&mut ctx, vec![file("a.o", a)]), Err(LinkError::Resolution));
}

#[test]
fn an_unterminated_string_section_is_rejected() {
    let mut s = sec(".rodata.str1.1", 1, 0x32, b"abc".to_vec(), 1);
    s.entsize = 1;
    let a = object(words(&[0x13]), vec![], &[SymDef { name: "_start", info: 0x12, shndx: 1, value: 0, size: 4 }], 1, vec![s]);
    let mut ctx = new_ctx();
    assert_eq!(Link(&mut ctx, vec![file("a.o", a)]), Err(LinkError::Format));
}

#[test]
fn a_relocation_outside_the_output_is_rejected() {
    let a = object(
        words(&[0x13]),
        rela(1 << 40, 1, 17, 0),
        &[SymDef { name: "_start", info: 0x12, shndx: 1, value: 0, size: 4 }],
        1,
        vec![],
    );
    let mut ctx = new_ctx();
    assert_eq!(Link(&mut ctx, vec![file("a.o", a)]), Err(LinkError::Format));
}

#[test]
fn the_first_definer_keeps_the_symbol() {
    let def = |word: u32| {
        object(words(&[word]), vec![], &[SymDef { name: "foo", info: 0x12, shndx: 1, value: 0, size: 4 }], 1, vec![])
    };
    let mut ctx = new_ctx();
    assert_eq!(Link(&mut ctx, vec![file("a.o", def(0x13)), file("b.o", def(0x8067))]), Ok(()));
    let foo = global(&ctx, "foo").unwrap();
    assert_eq!(foo.File, Some(0));
    assert_eq!(ctx.Objs[0].Name(), &b"a.o".to_vec());
    let text = output_section(&ctx, ".text").unwrap();
    assert_eq!(foo.GetAddr(&ctx), text.Chunk.Shdr.Addr);
    assert_eq!(text.Chunk.Shdr.Size, 8);
    assert_eq!(text.Members.len(), 2);
}

fn refers(own: &'static str, other: Option<&'static str>) -> Vec<u8> {
    let mut syms = vec![SymDef { name: own, info: 0x12, shndx: 1, value: 0, size: 8 }];
    let mut relocs = vec![];
    if let Some(o) = other {
        syms.push(SymDef { name: o, info: 0x10, shndx: 0, value: 0, size: 0 });
        relocs = rela(0, 2, 18, 0);
    }
    object(words(&[0x0000_0097, 0x0000_80e7]), relocs, &syms, 1, vec![])
}

#[test]
fn liveness_follows_chains_through_archives() {
    let lib = archive(&[
        ("z.o", refers("lonely", Some("f2"))),
        ("y.o", refers("f2", None)),
        ("x.o", refers("f1", Some("f2"))),
        ("w.o", refers("other", None)),
    ]);
    let mut ctx = new_ctx();
    assert_eq!(Link(&mut ctx, vec![file("lib.a", lib), file("a.o", refers("_start", Some("f1")))]), Ok(()));
    let names: Vec<String> = ctx.Objs.iter().map(|o| String::from_utf8(o.Name().clone()).unwrap()).collect();
    assert_eq!(names, vec!["y.o", "x.o", "a.o", ""]);
    // symbols name the new places of their definers
    assert_eq!(global(&ctx, "f2").unwrap().File, Some(0));
    assert_eq!(global(&ctx, "f1").unwrap().File, Some(1));
    assert_eq!(global(&ctx, "_start").unwrap().File, Some(2));
    assert_eq!(global(&ctx, "lonely").unwrap().File, None);
    assert_eq!(global(&ctx, "other").unwrap().File, None);
    for o in 0..ctx.Objs.len() {
        for sym in &ctx.Objs[o].inputFile.LocalSymbols {
            assert_eq!(sym.File, Some(o));
        }
    }
    // the three texts follow each other in the order of the objects
    let text = output_section(&ctx, ".text").unwrap();
    assert_eq!(text.Chunk.Shdr.Size, 24);
    let base = text.Chunk.Shdr.Addr;
    assert_eq!(global(&ctx, "f2").unwrap().GetAddr(&ctx), base);
    assert_eq!(global(&ctx, "f1").unwrap().GetAddr(&ctx), base + 8);
    assert_eq!(global(&ctx, "_start").unwrap().GetAddr(&ctx), base + 16);
    // every global name is there once
    let mut seen: Vec<&Vec<u8>> = ctx.SymbolMap.iter().map(|s| &s.Name).collect();
    seen.sort();
    seen.dedup();
    assert_eq!(seen.len(), ctx.SymbolMap.len());
}

#[test]
fn symbols_know_their_definers() {
    let mut ctx = new_ctx();
    assert_eq!(Link(&mut ctx, vec![file("a.o", many_relocations())]), Ok(()));
    let var = global(&ctx, "var").unwrap();
    assert!(var.FileAlive(&ctx));
    let esym = var.ElfSym(&ctx);
    assert_eq!((esym.Shndx, esym.Val, esym.Size, esym.Info), (5, 8, 8, 0x11));
    assert_eq!(var.SymIdx, 3);
    assert!(!Symbol::new(b"nobody").FileAlive(&ctx));
    let text = ctx.Objs[0].Sections[1].as_ref().unwrap();
    assert_eq!(text.GetRels().len(), 7);
    assert_eq!(text.RelsecIdx, 2);
    assert_eq!((text.GetRels()[1].Type, text.GetRels()[1].Sym, text.GetRels()[1].Addend), (26, 3, 4));
    let data = ctx.Objs[0].Sections[5].as_ref().unwrap();
    assert_eq!((data.GetRels().len(), data.RelsecIdx), (3, 6));
    assert!(ctx.Objs[0].Sections[2].is_none());
    assert_eq!(var.GetGotTpAddr(&ctx), ctx.Got.Chunk.Shdr.Addr);
}

#[test]
fn an_archive_alone_links_nothing() {
    let lib = archive(&[("x.o", refers("f1", None))]);
    let mut ctx = new_ctx();
    assert_eq!(Link(&mut ctx, vec![file("lib.a", lib)]), Ok(()));
    assert_eq!(ctx.Objs.len(), 1);
    assert!(output_section(&ctx, ".text").unwrap().Members.is_empty());
}

#[test]
fn an_archive_member_has_to_be_an_object() {
    let lib = archive(&[("x.txt", b"hello".to_vec())]);
    let mut ctx = new_ctx();
    assert_eq!(Link(&mut ctx, vec![file("lib.a", lib)]), Err(LinkError::Format));
}

fn many_relocations() -> Vec<u8> {
    // 0: beq a0,a1,.  4: lui a0,0  8: addi a0,a0,0  12: sw a1,0(a0)  16: lw a0,0(tp)  20: nop
    let text = words(&[0x00b5_0063, 0x0000_0537, 0x0005_0513, 0x00b5_2023, 0x0002_2503, 0x0000_0013]);
    let relocs = [
        rela(0, 1, 16, 0),
        rela(4, 3, 26, 4),
        rela(8, 3, 27, 4),
        rela(12, 3, 28, 4),
        rela(16, 4, 30, 0),
        rela(20, 0, 0, 0),
        rela(20, 3, 51, 0),
    ]
    .concat();
    let data = sec(".data", 1, 3, vec![0; 24], 8);
    let mut reld = sec(".rela.data", 4, 0, [rela(0, 3, 2, 8), rela(8, 3, 1, 0), rela(16, 5, 2, 0)].concat(), 8);
    reld.link = 3;
    reld.info = 5;
    let tdata = sec(".tdata", 1, 0x403, vec![9; 16], 8);
    object(
        text,
        relocs,
        &[
            SymDef { name: ".L1", info: 0x00, shndx: 1, value: 20, size: 0 },
            SymDef { name: "_start", info: 0x12, shndx: 1, value: 0, size: 24 },
            SymDef { name: "var", info: 0x11, shndx: 5, value: 8, size: 8 },
            SymDef { name: "tvar", info: 0x16, shndx: 7, value: 8, size: 8 },
            SymDef { name: "fixed", info: 0x10, shndx: 0xfff1, value: 0x1234_5678_9abc_def0, size: 0 },
        ],
        2,
        vec![data, reld, tdata],
    )
}

#[test]
fn every_relocation_kind_writes_its_field() {
    let mut ctx = new_ctx();
    assert_eq!(Link(&mut ctx, vec![file("a.o", many_relocations())]), Ok(()));
    let text = output_section(&ctx, ".text").unwrap();
    let data = output_section(&ctx, ".data").unwrap();
    let at = text.Chunk.Shdr.Offset as usize;
    let var = global(&ctx, "var").unwrap().GetAddr(&ctx);
    assert_eq!(var, data.Chunk.Shdr.Addr + 8);
    let w = |k: usize| read_u32(&ctx.Buf, at + 4 * k);
    // the branch goes 20 bytes ahead
    let b = w(0);
    assert_eq!(b & 0x01ff_f07f, 0x00b5_0063);
    let imm = ((b >> 31) << 12) | (((b >> 25) & 0x3f) << 5) | (((b >> 8) & 0xf) << 1) | (((b >> 7) & 1) << 11);
    assert_eq!(imm, 20);
    // lui and addi together give var + 4
    let target = (var + 4) as u32;
    assert_eq!(w(1) & 0xfff, 0x537);
    assert_eq!(w(1) & 0xffff_f000, target.wrapping_add(0x800) & 0xffff_f000);
    assert_eq!(w(2) >> 20, target & 0xfff);
    assert_eq!(w(2) & 0xf_ffff, 0x5_0513);
    // the store has the low part in its two fields
    let s = w(3);
    assert_eq!(((s >> 25) << 5) | ((s >> 7) & 0x1f), target & 0xfff);
    assert_eq!(s & 0x01ff_f07f, 0x00b5_2023);
    // the thread-local load is relative to the thread pointer, through tp
    let tvar = global(&ctx, "tvar").unwrap().GetAddr(&ctx);
    assert_eq!(tvar - ctx.TpAddr, 8);
    assert_eq!(w(4) >> 20, 8);
    assert_eq!((w(4) >> 15) & 0x1f, 4);
    assert_eq!(w(4) & 0x7fff, 0x2503);
    assert_eq!(w(5), 0x13);
    // the data holds a 64-bit address, a 32-bit address and an absolute value
    let d = data.Chunk.Shdr.Offset as usize;
    let word64 = |k: usize| u64::from_le_bytes(ctx.Buf[d + k..d + k + 8].try_into().unwrap());
    assert_eq!(word64(0), var + 8);
    assert_eq!(read_u32(&ctx.Buf, d + 8), var as u32);
    assert_eq!(read_u32(&ctx.Buf, d + 12), 0);
    assert_eq!(word64(16), 0x1234_5678_9abc_def0);
}

#[test]
fn relocating_twice_changes_nothing() {
    for obj in [many_relocations(), with_strings("_start")] {
        let mut ctx = new_ctx();
        assert_eq!(Link(&mut ctx, vec![file("a.o", obj)]), Ok(()));
        let text = output_section(&ctx, ".text").unwrap();
        let base = text.Chunk.Shdr.Offset as usize;
        let m = text.Members[0];
        let mut again = ctx.Buf.clone();
        assert_eq!(InputSection::ApplyRelocAlloc(&ctx, m.Obj, m.Sec, &mut again, base), Ok(()));
        assert_eq!(again, ctx.Buf);
        assert_eq!(InputSection::WriteTo(&ctx, m.Obj, m.Sec, &mut again, base), Ok(()));
        assert_eq!(again, ctx.Buf);
    }
}

#[test]
fn chunks_are_aligned_and_sections_are_named_by_the_rule() {
    let mut ctx = new_ctx();
    let files = vec![file("a.o", many_relocations()), file("b.o", with_strings("f")), file("c.o", refers("g", Some("f")))];
    assert_eq!(Link(&mut ctx, files), Ok(()));
    let mut placed = vec![ctx.Ehdr.Chunk.Shdr, ctx.Phdr.Chunk.Shdr, ctx.Shdr.Chunk.Shdr];
    placed.extend(ctx.OutputSections.iter().filter(|o| !o.Members.is_empty()).map(|o| o.Chunk.Shdr));
    placed.extend(ctx.MergedSections.iter().filter(|m| m.Chunk.Shdr.Size > 0).map(|m| m.Chunk.Shdr));
    assert_eq!(placed.len(), ctx.Chunks.len());
    for h in &placed {
        assert!(h.AddrAlign > 0);
        assert_eq!(h.Offset % h.AddrAlign, 0);
        if h.Flags & 2 != 0 {
            assert_eq!(h.Addr % h.AddrAlign, 0);
            assert!(h.Addr >= 0x200000);
        }
    }
    assert_eq!(ctx.Ehdr.Chunk.Shdr.Addr, 0x200000);
    assert_eq!(ctx.Ehdr.Chunk.Shdr.Offset, 0);
    assert_eq!(ctx.Shdr.Chunk.Shdr.Offset + ctx.Shdr.Chunk.Shdr.Size, ctx.Buf.len() as u64);
    for obj in &ctx.Objs {
        for (s, slot) in obj.Sections.iter().enumerate() {
            if let Some(isec) = slot {
                let shdr = isec.Shdr(obj);
                let name = isec.Name(obj).unwrap();
                let out = &ctx.OutputSections[isec.OutputSection];
                assert_eq!(out.Chunk.Name, GetOutputName(&name, shdr.Flags));
                assert_eq!(out.Chunk.Shdr.Type, shdr.Type);
                assert_eq!(isec.Shndx, s);
                if isec.IsAlive {
                    assert!(isec.Offset + isec.ShSize <= out.Chunk.Shdr.Size);
                    assert_eq!(isec.Offset % (1 << isec.P2Align), 0);
                    assert_eq!(isec.GetAddr(&ctx), out.Chunk.Shdr.Addr + isec.Offset);
                }
            }
        }
    }
}

#[test]
fn sections_that_are_not_loaded_come_through() {
    let mut comment = sec(".comment", 1, 0x30, b"GCC\0".to_vec(), 1);
    comment.entsize = 1;
    let note = sec(".note.x", 7, 2, vec![1, 2, 3, 4], 4);
    let a = object(words(&[0x13]), vec![], &[SymDef { name: "_start", info: 0x12, shndx: 1, value: 0, size: 4 }], 1, vec![sec(".debug", 1, 0, b"dbg".to_vec(), 1), note, comment]);
    let mut ctx = new_ctx();
    assert_eq!(Link(&mut ctx, vec![file("a.o", a)]), Ok(()));
    let dbg = output_section(&ctx, ".debug").unwrap();
    assert_eq!(dbg.Chunk.Shdr.Addr, 0);
    let at = dbg.Chunk.Shdr.Offset as usize;
    assert_eq!(&ctx.Buf[at..at + 3], b"dbg");
    // the loaded note has a segment of its own, ahead of the text
    let note = output_section(&ctx, ".note.x").unwrap();
    let text = output_section(&ctx, ".text").unwrap();
    assert!(note.Chunk.Shdr.Addr < text.Chunk.Shdr.Addr);
    assert!(text.Chunk.Shdr.Offset < dbg.Chunk.Shdr.Offset);
    let notes: Vec<&Phdr> = ctx.Phdr.Phdrs.iter().filter(|p| p.Type == 4).collect();
    assert_eq!(notes.len(), 1);
    assert_eq!((notes[0].VAddr, notes[0].FileSize, notes[0].Flags), (note.Chunk.Shdr.Addr, 4, 4));
    // the mergeable comment became a merged section that is not loaded
    let merged = ctx.MergedSections.iter().find(|m| m.Chunk.Name == b".comment").unwrap();
    assert_eq!((merged.Chunk.Shdr.Flags, merged.Chunk.Shdr.Size, merged.Chunk.Shdr.Addr), (0, 4, 0));
    let at = merged.Chunk.Shdr.Offset as usize;
    assert_eq!(&ctx.Buf[at..at + 4], b"GCC\0");
}

#[test]
fn flags_of_the_objects_are_joined() {
    let plain = object(words(&[0x13]), vec![], &[SymDef { name: "_start", info: 0x12, shndx: 1, value: 0, size: 4 }], 1, vec![]);
    let mut rvc = object(words(&[0x13]), vec![], &[SymDef { name: "f", info: 0x12, shndx: 1, value: 0, size: 4 }], 1, vec![]);
    rvc[48] = 0x05;
    let mut ctx = new_ctx();
    assert_eq!(Link(&mut ctx, vec![file("a.o", plain), file("b.o", rvc)]), Ok(()));
    assert_eq!(GetFlags(&ctx), 5);
    assert_eq!(Ehdr::Read(&ctx.Buf).unwrap().Flags, 5);
    assert_eq!(GetEntryAddr(&ctx), output_section(&ctx, ".text").unwrap().Chunk.Shdr.Addr);
    assert_eq!(GetEntryAddr(&Context::new()), 0);
    assert_eq!(GetFlags(&Context::new()), 0);
}

#[test]
fn writers_need_room() {
    let ctx = Context::new();
    let mut small = vec![0u8; 10];
    assert_eq!(OutputEhdr::CopyBuf(&ctx, &mut small), Err(LinkError::TooLarge));
    assert_eq!(small, vec![0u8; 10]);
    let mut exact = vec![0xffu8; 64];
    assert_eq!(OutputEhdr::CopyBuf(&ctx, &mut exact), Ok(()));
    assert_eq!(&exact[0..8], &[0x7f, 0x45, 0x4c, 0x46, 2, 1, 1, 0]);
    assert_eq!(&exact[16..20], &[2, 0, 243, 0]);
    assert_eq!(OutputShdr::CopyBuf(&ctx, &mut small), Err(LinkError::TooLarge));
    let mut p = OutputPhdr::new();
    p.Phdrs.push(Phdr { Type: 1, Flags: 5, Offset: 0, VAddr: 0, PAddr: 0, FileSize: 0, MemSize: 0, Align: 1 });
    assert_eq!(p.CopyBuf(&mut small), Err(LinkError::TooLarge));
    p.Chunk.Shdr.Offset = 8;
    let mut room = vec![0u8; 64];
    assert_eq!(p.CopyBuf(&mut room), Ok(()));
    assert_eq!(&room[8..16], &[1, 0, 0, 0, 5, 0, 0, 0]);
    let mut m = MergedSection::new(b".rodata.str", 2, 1);
    m.Insert(0, b"0123456789ab", 0);
    assert_eq!(m.AssignOffsets(), Ok(()));
    assert_eq!(m.CopyBuf(&mut small), Err(LinkError::TooLarge));
    let mut fits = vec![0u8; 12];
    assert_eq!(m.CopyBuf(&mut fits), Ok(()));
    assert_eq!(fits, b"0123456789ab".to_vec());
}

#[test]
fn the_internal_object_is_alive_and_empty() {
    let mut ctx = new_ctx();
    CreateInternalFile(&mut ctx);
    assert_eq!(ctx.Objs.len(), 1);
    let o = &ctx.Objs[0];
    assert!(o.IsAlive());
    assert!(o.Sections.is_empty());
    assert_eq!(o.inputFile.FirstGlobal, 1);
    assert_eq!(o.inputFile.LocalSymbols.len(), 1);
    assert_eq!(o.inputFile.LocalSymbols[0].File, Some(0));
    MarkLiveObjects(&mut ctx);
    ResolveSymbols(&mut ctx);
    assert_eq!(ctx.Objs.len(), 1);
}

#[test]
fn positions_are_checked() {
    assert_eq!(Position(10, 2, 4, 4), Some(6));
    assert_eq!(Position(10, 2, 5, 4), None);
    assert_eq!(Position(10, 11, 0, 0), None);
    assert_eq!(Position(10, 10, 0, 0), Some(10));
    assert_eq!(Position(10, 0, u64::MAX, 1), None);
    assert_eq!(Low32(0x1_2345_6789), 0x2345_6789);
}

#[test]
fn first_pass_steps_write_what_the_table_says() {
    let insn = |start: u32, ty: u32, s: u64, a: u64, p: u64| {
        let mut buf = vec![0u8; 8];
        buf[0..4].copy_from_slice(&start.to_le_bytes());
        ApplyStep1(&mut buf, 0, ty, s, a, p, 0x5000, 0x3000);
        (read_u32(&buf, 0), read_u32(&buf, 4))
    };
    assert_eq!(insn(0xffff_ffff, 1, 0x1_0000_0010, 2, 0), (0x12, 0));
    assert_eq!(insn(0, 2, 0x1_0000_0010, 2, 0), (0x12, 1));
    assert_eq!(insn(0x0000_006f, 17, 0x1008, 0, 0x1000).0, 0x0080_006f);
    assert_eq!(insn(0x0000_006f, 17, 0x1000, 0, 0x1008).0, 0xff9f_f06f);
    assert_eq!(insn(0x00b5_0063, 16, 0x1010, 0, 0x1000).0, 0x00b5_0863);
    // a call splits the distance into a high and a low part
    let mut buf = words(&[0x0000_0097, 0x0000_80e7]);
    ApplyStep1(&mut buf, 0, 18, 0x12345, 0, 0x1000, 0, 0);
    assert_eq!((read_u32(&buf, 0), read_u32(&buf, 4)), (0x0001_1097, 0x3450_80e7));
    // a slot of the table relative to the place, stored whole for the last pass
    assert_eq!(insn(0x0000_0517, 21, 0, 8, 0x1000).0, 0x5000 + 8 - 0x1000);
    assert_eq!(insn(0x0000_0517, 23, 0x2000, 4, 0x1000).0, 0x1004);
    assert_eq!(insn(0x0000_0537, 26, 0x1234_5678, 0, 0).0, 0x1234_5537);
    // a low part that is the whole value needs no base register
    assert_eq!(insn(0x0005_0513, 27, 0x7ff, 0, 0).0, 0x7ff0_0513);
    assert_eq!(insn(0x0005_0513, 27, 0x1801, 0, 0).0, 0x8015_0513);
    assert_eq!(insn(0x00b5_2023, 28, 0x7ff, 0, 0).0, 0x7eb0_2fa3);
    // relative to the thread pointer, through tp where the value is small
    assert_eq!(insn(0x0005_0513, 30, 0x3010, 0, 0).0, 0x0102_0513);
    assert_eq!(insn(0x00b5_2023, 31, 0x3010, 0, 0).0, 0x00b2_2823);
    // kinds of the later passes and unknown kinds are left alone
    assert_eq!(insn(0xdead_beef, 24, 1, 2, 3), (0xdead_beef, 0));
    assert_eq!(insn(0xdead_beef, 99, 1, 2, 3), (0xdead_beef, 0));
}
