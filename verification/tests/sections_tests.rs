use rvld::linker::chunker::{
    isTbss, Chunker, IsAllocShdr, IsBssShdr, IsNoteShdr, IsTbssShdr, IsTlsShdr, PhdrFlagsOf,
};
use rvld::linker::context::Context;
use rvld::linker::elf::{Phdr, Shdr};
use rvld::linker::error::LinkError;
use rvld::linker::inputsections::{
    FindNull, FindNullFrom, MergeableSection, P2AlignOf, SectionFragment, SplitContents,
};
use rvld::linker::layout::{PlaceShdrs, RankOf, SortByRank};
use rvld::linker::mergedsection::{BytesBefore, MergedSection};
use rvld::linker::output::{
    BuildPhdrs, Chunk, ChunkId, DefinePhdr, GetOutputName, GetOutputSection, OutputEhdr,
    OutputPhdr, OutputSection, OutputShdr, Prefix, PushPhdr, TpAddrOf,
};
use rvld::linker::symbol::{FragmentRef, Symbol};

fn name(n: &str, flags: u64) -> String {
    String::from_utf8(GetOutputName(n.as_bytes(), flags)).unwrap()
}

#[test]
fn output_names_follow_the_prefix_rule() {
    assert_eq!(name(".text", 6), ".text");
    assert_eq!(name(".text.hot", 6), ".text");
    assert_eq!(name(".text.", 6), ".text");
    assert_eq!(name(".textual", 6), ".textual");
    assert_eq!(name(".data.rel.ro.local", 3), ".data.rel.ro");
    assert_eq!(name(".data.rel.ro", 3), ".data.rel.ro");
    assert_eq!(name(".data.rel", 3), ".data");
    assert_eq!(name(".data.x", 3), ".data");
    assert_eq!(name(".rodata.x", 2), ".rodata");
    assert_eq!(name(".bss.rel.ro.x", 3), ".bss.rel.ro");
    assert_eq!(name(".bss.x", 3), ".bss");
    assert_eq!(name(".init_array.0", 3), ".init_array");
    assert_eq!(name(".fini_array.0", 3), ".fini_array");
    assert_eq!(name(".tbss.x", 0x403), ".tbss");
    assert_eq!(name(".tdata.x", 0x403), ".tdata");
    assert_eq!(name(".gcc_except_table.f", 2), ".gcc_except_table");
    assert_eq!(name(".ctors.1", 3), ".ctors");
    assert_eq!(name(".dtors.1", 3), ".dtors");
    assert_eq!(name(".comment", 0), ".comment");
    assert_eq!(name("", 0), "");
}

#[test]
fn mergeable_read_only_data_goes_to_its_own_sections() {
    assert_eq!(name(".rodata.str1.1", 0x32), ".rodata.str");
    assert_eq!(name(".rodata", 0x32), ".rodata.str");
    assert_eq!(name(".rodata.cst8", 0x12), ".rodata.cst");
    assert_eq!(name(".rodata", 0x12), ".rodata.cst");
    assert_eq!(name(".rodata.str1.1", 0x22), ".rodata");
    assert_eq!(name(".rodatax", 0x32), ".rodatax");
    assert_eq!(name(".data.str", 0x32), ".data");
}

#[test]
fn prefixes_stand_in_their_order() {
    assert_eq!(Prefix(0), b".text.".to_vec());
    assert_eq!(Prefix(1), b".data.rel.ro.".to_vec());
    assert_eq!(Prefix(2), b".data.".to_vec());
    assert_eq!(Prefix(3), b".rodata.".to_vec());
    assert_eq!(Prefix(4), b".bss.rel.ro.".to_vec());
    assert_eq!(Prefix(5), b".bss.".to_vec());
    assert_eq!(Prefix(6), b".init_array.".to_vec());
    assert_eq!(Prefix(7), b".fini_array.".to_vec());
    assert_eq!(Prefix(8), b".tbss.".to_vec());
    assert_eq!(Prefix(9), b".tdata.".to_vec());
    assert_eq!(Prefix(10), b".gcc_except_table.".to_vec());
    assert_eq!(Prefix(11), b".ctors.".to_vec());
    assert_eq!(Prefix(12), b".dtors.".to_vec());
}

#[test]
fn output_sections_are_found_or_made() {
    let mut ctx = Context::new();
    let a = GetOutputSection(&mut ctx, b".text.a", 1, 6);
    let b = GetOutputSection(&mut ctx, b".text.b", 1, 6);
    let c = GetOutputSection(&mut ctx, b".text", 1, 6 | 0x200 | 0x80);
    assert_eq!((a, b, c), (0, 0, 0));
    assert_eq!(ctx.OutputSections.len(), 1);
    assert_eq!(ctx.OutputSections[0].Chunk.Name, b".text".to_vec());
    assert_eq!(ctx.OutputSections[0].Chunk.Shdr.Flags, 6);
    assert_eq!(ctx.OutputSections[0].Idx, 0);
    let d = GetOutputSection(&mut ctx, b".text", 1, 2);
    let e = GetOutputSection(&mut ctx, b".text", 8, 6);
    let f = GetOutputSection(&mut ctx, b".data", 1, 3);
    assert_eq!((d, e, f), (1, 2, 3));
    assert_eq!(ctx.OutputSections[3].Idx, 3);
    assert!(ctx.OutputSections.iter().all(|o| o.Members.is_empty()));
}

#[test]
fn merged_sections_are_found_or_made() {
    let mut ctx = Context::new();
    let a = MergedSection::GetInstance(&mut ctx, b".rodata.str1.1", 1, 0x32);
    let b = MergedSection::GetInstance(&mut ctx, b".rodata.str1.8", 1, 0x32 | 0x200);
    let c = MergedSection::GetInstance(&mut ctx, b".rodata.cst8", 1, 0x12);
    assert_eq!((a, b, c), (0, 0, 1));
    assert_eq!(ctx.MergedSections[0].Chunk.Name, b".rodata.str".to_vec());
    assert_eq!(ctx.MergedSections[0].Chunk.Shdr.Flags, 2);
    assert_eq!(ctx.MergedSections[1].Chunk.Name, b".rodata.cst".to_vec());
}

#[test]
fn fresh_chunks() {
    let c = Chunk::new();
    assert!(c.Name.is_empty());
    assert_eq!(c.Shdr.AddrAlign, 1);
    assert_eq!(c.Shndx, 0);
    let e = OutputEhdr::new();
    assert_eq!((e.Chunk.Shdr.Flags, e.Chunk.Shdr.Size, e.Chunk.Shdr.AddrAlign), (2, 64, 8));
    let p = OutputPhdr::new();
    assert_eq!((p.Chunk.Shdr.Flags, p.Chunk.Shdr.Size, p.Chunk.Shdr.AddrAlign), (2, 0, 8));
    assert!(p.Phdrs.is_empty());
    let s = OutputShdr::new();
    assert_eq!((s.Chunk.Shdr.Flags, s.Chunk.Shdr.AddrAlign), (0, 8));
    let o = OutputSection::new(b".x".to_vec(), 1, 3, 9);
    assert_eq!(o.Chunk.Name, b".x".to_vec());
    assert_eq!((o.Chunk.Shdr.Type, o.Chunk.Shdr.Flags, o.Idx), (1, 3, 9));
    let m = MergedSection::new(b".rodata.str", 2, 1);
    assert_eq!((m.Chunk.Shdr.Type, m.Chunk.Shdr.Flags), (1, 2));
    let f = SectionFragment::new(3);
    assert_eq!((f.OutputSection, f.Offset, f.P2Align, f.IsAlive), (3, u32::MAX, 0, false));
    let ms = MergeableSection::new();
    assert!(ms.Strs.is_empty() && ms.FragOffset.is_empty() && ms.Fragments.is_empty());
    let sym = Symbol::new(b"foo");
    assert_eq!(sym.Name, b"foo".to_vec());
    assert_eq!((sym.File, sym.InputSection, sym.SectionFragment, sym.Value), (None, None, None, 0));
}

#[test]
fn a_symbol_lies_in_a_section_or_in_a_fragment() {
    let mut sym = Symbol::new(b"s");
    sym.SetInputSection(Some(3));
    assert_eq!((sym.InputSection, sym.SectionFragment), (Some(3), None));
    let fr = FragmentRef { Section: 1, Index: 2 };
    sym.SetSectionFragment(Some(fr));
    assert_eq!((sym.InputSection, sym.SectionFragment), (None, Some(fr)));
    sym.SetInputSection(None);
    assert_eq!((sym.InputSection, sym.SectionFragment), (None, None));
}

fn h(ty: u32, flags: u64) -> Shdr {
    Shdr { Type: ty, Flags: flags, ..Shdr::default() }
}

#[test]
fn header_predicates() {
    assert_eq!(PhdrFlagsOf(&h(1, 2)), 4);
    assert_eq!(PhdrFlagsOf(&h(1, 3)), 6);
    assert_eq!(PhdrFlagsOf(&h(1, 6)), 5);
    assert_eq!(PhdrFlagsOf(&h(1, 7)), 7);
    assert!(IsAllocShdr(&h(1, 2)) && !IsAllocShdr(&h(1, 1)));
    assert!(IsTlsShdr(&h(1, 0x400)) && !IsTlsShdr(&h(1, 3)));
    assert!(IsBssShdr(&h(8, 3)) && !IsBssShdr(&h(8, 0x403)) && !IsBssShdr(&h(1, 3)));
    assert!(IsTbssShdr(&h(8, 0x403)) && !IsTbssShdr(&h(8, 3)) && !IsTbssShdr(&h(1, 0x403)));
    assert!(IsNoteShdr(&h(7, 2)) && !IsNoteShdr(&h(7, 0)) && !IsNoteShdr(&h(1, 2)));
}

#[test]
fn chunks_answer_through_the_trait() {
    let mut o = OutputSection::new(b".tbss".to_vec(), 8, 0x403, 0);
    o.Chunk.Shndx = 5;
    assert_eq!(o.GetName(), &b".tbss".to_vec());
    assert_eq!(o.GetShndx(), 5);
    assert_eq!(o.GetShdr().Type, 8);
    assert_eq!(o.toPhdrFlags(), 6);
    assert!(o.isTls());
    assert!(!o.isBss());
    assert!(!o.isNote());
    assert!(isTbss(&o));
    let e = OutputEhdr::new();
    assert_eq!(e.toPhdrFlags(), 4);
    assert!(!e.isTls() && !e.isBss() && !e.isNote() && !isTbss(&e));
    let c = Chunk::new();
    assert_eq!(c.GetShdr().AddrAlign, 1);
    let m = MergedSection::new(b".rodata.str", 2, 7);
    assert!(m.isNote());
}

#[test]
fn alignments_as_logarithms() {
    assert_eq!(P2AlignOf(0), 0);
    assert_eq!(P2AlignOf(1), 0);
    assert_eq!(P2AlignOf(2), 1);
    assert_eq!(P2AlignOf(8), 3);
    assert_eq!(P2AlignOf(4096), 12);
    assert_eq!(P2AlignOf(12), 2);
    assert_eq!(P2AlignOf(1 << 63), 63);
}

#[test]
fn terminators_are_found_by_character_size() {
    assert_eq!(FindNull(b"foo\0bar\0", 1), Some(3));
    assert_eq!(FindNull(b"\0", 1), Some(0));
    assert_eq!(FindNull(b"foo", 1), None);
    assert_eq!(FindNull(b"", 1), None);
    assert_eq!(FindNull(b"foo\0", 0), None);
    assert_eq!(FindNull(b"f\0\0\0o\0\0\0\0\0\0\0", 4), Some(8));
    // a run of zeros that does not start at a character is no terminator
    assert_eq!(FindNull(b"f\0\0\0\0o\0\0", 4), None);
    assert_eq!(FindNull(b"ab\0\0\0", 2), Some(2));
    assert_eq!(FindNullFrom(b"foo\0bar\0", 1, 4), Some(7));
    assert_eq!(FindNullFrom(b"foo\0bar\0", 1, 8), None);
}

#[test]
fn strings_are_cut_behind_their_terminators() {
    let (pieces, offsets) = SplitContents(b"hello\0\0world\0", true, 1).unwrap();
    assert_eq!(pieces, vec![b"hello\0".to_vec(), b"\0".to_vec(), b"world\0".to_vec()]);
    assert_eq!(offsets, vec![0, 6, 7]);
    let (pieces, offsets) = SplitContents(b"a\0\0\0bc\0\0", true, 2).unwrap();
    assert_eq!(pieces, vec![b"a\0\0\0".to_vec(), b"bc\0\0".to_vec()]);
    assert_eq!(offsets, vec![0, 4]);
    assert_eq!(SplitContents(b"", true, 1).unwrap().0.len(), 0);
    assert_eq!(SplitContents(b"abc", true, 1).err(), Some(LinkError::Format));
    assert_eq!(SplitContents(b"abc\0", true, 0).err(), Some(LinkError::Format));
    assert_eq!(SplitContents(b"abc\0d", true, 1).err(), Some(LinkError::Format));
}

#[test]
fn constants_are_cut_by_size() {
    let (pieces, offsets) = SplitContents(&[1, 2, 3, 4, 5, 6, 7, 8], false, 4).unwrap();
    assert_eq!(pieces, vec![vec![1, 2, 3, 4], vec![5, 6, 7, 8]]);
    assert_eq!(offsets, vec![0, 4]);
    assert_eq!(SplitContents(&[1, 2, 3, 4, 5], false, 4).err(), Some(LinkError::Format));
    assert_eq!(SplitContents(&[1, 2], false, 4).err(), Some(LinkError::Format));
    assert_eq!(SplitContents(&[1, 2], false, 0).err(), Some(LinkError::Format));
    assert_eq!(SplitContents(&[], false, 4).unwrap().0.len(), 0);
}

#[test]
fn fragments_are_found_by_offset() {
    let mut ms = MergeableSection::new();
    assert_eq!(ms.GetFragment(0), (None, 0));
    ms.Parent = 2;
    ms.FragOffset = vec![0, 6, 7];
    ms.Fragments = vec![10, 11, 12];
    assert_eq!(ms.GetFragment(0), (Some(FragmentRef { Section: 2, Index: 10 }), 0));
    assert_eq!(ms.GetFragment(5), (Some(FragmentRef { Section: 2, Index: 10 }), 5));
    assert_eq!(ms.GetFragment(6), (Some(FragmentRef { Section: 2, Index: 11 }), 0));
    assert_eq!(ms.GetFragment(9), (Some(FragmentRef { Section: 2, Index: 12 }), 2));
}

#[test]
fn equal_pieces_share_a_fragment() {
    let mut m = MergedSection::new(b".rodata.str", 2, 1);
    let a = m.Insert(0, b"hello\0", 0);
    let b = m.Insert(0, b"world\0", 2);
    let c = m.Insert(0, b"hello\0", 3);
    let d = m.Insert(0, b"hello\0", 1);
    assert_eq!((a, b, c, d), (0, 1, 0, 0));
    assert_eq!(m.Map.len(), 2);
    assert_eq!(m.Map[0].Frag.P2Align, 3);
    assert_eq!(m.Map[1].Frag.P2Align, 2);
    assert_eq!(m.Map[0].Frag.Offset, u32::MAX);
    assert_eq!(m.Find(b"world\0"), Some(1));
    assert_eq!(m.Find(b"world"), None);
}

#[test]
fn fragments_are_laid_out_by_alignment_length_and_bytes() {
    let mut m = MergedSection::new(b".rodata.str", 2, 1);
    m.Insert(0, b"zz\0", 0);
    m.Insert(0, b"a\0", 0);
    m.Insert(0, b"abcdefgh\0", 3);
    m.Insert(0, b"ab\0", 0);
    m.Insert(0, b"q\0", 2);
    assert_eq!(m.AssignOffsets(), Ok(()));
    let off = |k: &[u8]| m.Map[m.Find(k).unwrap()].Frag.Offset;
    // alignment 8 first, then 4, then the unaligned by length and bytes
    assert_eq!(off(b"abcdefgh\0"), 0);
    assert_eq!(off(b"q\0"), 12);
    assert_eq!(off(b"a\0"), 14);
    assert_eq!(off(b"ab\0"), 16);
    assert_eq!(off(b"zz\0"), 19);
    assert_eq!(m.Chunk.Shdr.Size, 24);
    assert_eq!(m.Chunk.Shdr.AddrAlign, 8);
    assert!(BytesBefore(b"b", b"aa"));
    assert!(BytesBefore(b"ab", b"ac"));
    assert!(!BytesBefore(b"ab", b"ab"));
    assert!(!BytesBefore(b"ac", b"ab"));
}

#[test]
fn an_empty_merged_section_has_no_size() {
    let mut m = MergedSection::new(b".rodata.cst", 2, 1);
    assert_eq!(m.AssignOffsets(), Ok(()));
    assert_eq!(m.Chunk.Shdr.Size, 0);
    assert_eq!(m.Chunk.Shdr.AddrAlign, 1);
}

#[test]
fn ranks_order_the_output() {
    let s = Shdr::default();
    assert_eq!(RankOf(ChunkId::Ehdr, &s), 0);
    assert_eq!(RankOf(ChunkId::Phdr, &s), 1);
    assert_eq!(RankOf(ChunkId::Shdr, &s), u32::MAX);
    assert_eq!(RankOf(ChunkId::Output(0), &h(7, 2)), 2);
    assert_eq!(RankOf(ChunkId::Output(0), &h(7, 0)), u32::MAX - 1);
    assert_eq!(RankOf(ChunkId::Output(0), &h(1, 0)), u32::MAX - 1);
    let text = RankOf(ChunkId::Output(0), &h(1, 6));
    let rodata = RankOf(ChunkId::Merged(0), &h(1, 2));
    let tdata = RankOf(ChunkId::Output(0), &h(1, 0x403));
    let tbss = RankOf(ChunkId::Output(0), &h(8, 0x403));
    let data = RankOf(ChunkId::Output(0), &h(1, 3));
    let bss = RankOf(ChunkId::Output(0), &h(8, 3));
    assert_eq!((text, rodata, tdata, tbss, data, bss), (32, 96, 192, 208, 224, 240));
    assert!(2 < text && text < rodata && rodata < tdata && tdata < tbss && tbss < data && data < bss);
    assert!(bss < u32::MAX - 1);
}

#[test]
fn sorting_by_rank_is_stable() {
    assert_eq!(SortByRank(&vec![]), Vec::<usize>::new());
    assert_eq!(SortByRank(&vec![5]), vec![0]);
    assert_eq!(SortByRank(&vec![3, 1, 2]), vec![1, 2, 0]);
    assert_eq!(SortByRank(&vec![2, 1, 2, 1, 0, 2]), vec![4, 1, 3, 0, 2, 5]);
    assert_eq!(SortByRank(&vec![0, 1, u32::MAX, 96, 32, u32::MAX - 1]), vec![0, 1, 4, 3, 5, 2]);
}

fn placed(ty: u32, flags: u64, size: u64, align: u64) -> Shdr {
    Shdr { Type: ty, Flags: flags, Size: size, AddrAlign: align, ..Shdr::default() }
}

#[test]
fn chunks_are_placed_one_behind_the_other() {
    let mut s = vec![
        placed(0, 2, 64, 8),        // file header
        placed(0, 2, 112, 8),       // program headers
        placed(1, 6, 10, 4),        // .text
        placed(1, 2, 5, 16),        // .rodata
        placed(8, 0x403, 32, 8),    // .tbss
        placed(8, 3, 100, 8),       // .bss
        placed(1, 0, 7, 1),         // .comment
        placed(0, 0, 64, 8),        // section headers
    ];
    assert_eq!(PlaceShdrs(&mut s), Ok(0x178));
    let addrs: Vec<u64> = s.iter().map(|h| h.Addr).collect();
    let offs: Vec<u64> = s.iter().map(|h| h.Offset).collect();
    assert_eq!(addrs, vec![0x200000, 0x200040, 0x2000b0, 0x2000c0, 0x2000c8, 0x2000c8, 0, 0]);
    assert_eq!(offs, vec![0, 0x40, 0xb0, 0xc0, 0xc8, 0xc8, 0x12c, 0x138]);
}

#[test]
fn placement_respects_alignment() {
    let mut s = vec![
        placed(0, 2, 64, 8),
        placed(1, 6, 3, 4096),
        placed(1, 3, 9, 32),
        placed(1, 0, 5, 16),
        placed(1, 0, 5, 0),
        placed(0, 0, 64, 8),
    ];
    let size = PlaceShdrs(&mut s).unwrap();
    for hdr in &s {
        if hdr.AddrAlign > 0 {
            assert_eq!(hdr.Offset % hdr.AddrAlign, 0);
            if hdr.Flags & 2 != 0 {
                assert_eq!(hdr.Addr % hdr.AddrAlign, 0);
            }
        }
    }
    assert_eq!(s[1].Addr, 0x201000);
    assert_eq!(s[1].Offset, 0x1000);
    assert_eq!(s[2].Addr, 0x201020);
    assert_eq!(s[3].Offset, 0x1030);
    assert_eq!(s[4].Offset, 0x1035);
    assert_eq!(s[5].Offset, 0x1040);
    assert_eq!(size, 0x1080);
    assert_eq!(PlaceShdrs(&mut vec![]), Ok(0));
    let mut huge = vec![placed(1, 2, u64::MAX, 8)];
    assert_eq!(PlaceShdrs(&mut huge), Err(LinkError::TooLarge));
}

#[test]
fn segments_follow_the_chunks() {
    let text = Shdr { Addr: 0x201000, Offset: 0x1000, ..placed(1, 6, 0x20, 4) };
    let p = DefinePhdr(1, 5, 4096, &text);
    assert_eq!(p, Phdr { Type: 1, Flags: 5, Offset: 0x1000, VAddr: 0x201000, PAddr: 0x201000, FileSize: 0x20, MemSize: 0x20, Align: 4096 });
    let mut q = p;
    let more = Shdr { Addr: 0x201040, Offset: 0x1040, ..placed(1, 6, 0x10, 8192) };
    PushPhdr(&mut q, &more);
    assert_eq!((q.FileSize, q.MemSize, q.Align), (0x50, 0x50, 8192));
    let bss = Shdr { Addr: 0x201060, ..placed(8, 6, 0x100, 8) };
    PushPhdr(&mut q, &bss);
    assert_eq!((q.FileSize, q.MemSize, q.Align), (0x50, 0x160, 8192));
    let nobits = DefinePhdr(1, 6, 4096, &placed(8, 3, 0x40, 16));
    assert_eq!((nobits.FileSize, nobits.MemSize), (0, 0x40));
}

#[test]
fn program_headers_are_built_from_the_chunks() {
    let at = |hdr: Shdr, addr: u64| Shdr { Addr: addr, Offset: addr - 0x200000, ..hdr };
    let phdr = at(placed(0, 2, 280, 8), 0x200040);
    let shdrs = vec![
        at(placed(0, 2, 64, 8), 0x200000),
        phdr,
        at(placed(7, 2, 0x20, 4), 0x200158),
        at(placed(7, 2, 0x10, 4), 0x200178),
        at(placed(1, 6, 0x100, 4), 0x200188),
        at(placed(1, 2, 0x40, 8), 0x200288),
        at(placed(1, 0x403, 0x10, 8), 0x2002c8),
        at(placed(8, 0x403, 0x20, 8), 0x2002d8),
        at(placed(1, 3, 0x30, 8), 0x2002d8),
        at(placed(8, 3, 0x50, 8), 0x200308),
        placed(1, 0, 0x10, 1),
    ];
    let ps = BuildPhdrs(&phdr, &shdrs);
    let kinds: Vec<u32> = ps.iter().map(|p| p.Type).collect();
    assert_eq!(kinds, vec![6, 4, 1, 1, 1, 1, 7]);
    assert_eq!((ps[0].Flags, ps[0].VAddr, ps[0].FileSize, ps[0].Align), (4, 0x200040, 280, 8));
    // the two notes make one segment
    assert_eq!((ps[1].VAddr, ps[1].FileSize, ps[1].MemSize, ps[1].Align), (0x200158, 0x30, 0x30, 4));
    // headers and notes are readable only; the text ends that segment
    assert_eq!((ps[2].Flags, ps[2].VAddr, ps[2].MemSize), (4, 0x200000, 0x188));
    assert_eq!((ps[3].Flags, ps[3].VAddr, ps[3].MemSize, ps[3].Align), (5, 0x200188, 0x100, 4096));
    assert_eq!((ps[4].Flags, ps[4].VAddr, ps[4].MemSize), (4, 0x200288, 0x40));
    // writable data with the zero-initialized data at its end
    assert_eq!((ps[5].Flags, ps[5].VAddr, ps[5].FileSize, ps[5].MemSize), (6, 0x2002c8, 0x40, 0x90));
    assert_eq!((ps[6].Flags, ps[6].VAddr, ps[6].FileSize, ps[6].MemSize), (6, 0x2002c8, 0x10, 0x30));
    assert_eq!(TpAddrOf(&shdrs, 1), 0x2002c8);
    assert_eq!(TpAddrOf(&shdrs[..6].to_vec(), 1), 1);
}
