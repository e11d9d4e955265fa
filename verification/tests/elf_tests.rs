use rvld::linker::archive::{ArHdr, ReadArchiveMembers};
use rvld::linker::elf::{
    checkMagic, Ehdr, ElfGetName, FileType, MachineType, Phdr, ReadRelas, ReadSyms, ReadU32s, Rela,
    Shdr, Sym,
};
use rvld::linker::error::LinkError;
use rvld::linker::file::{
    checkArMagic, CheckFileCompatibility, File, FindLibrary, GetMachineType, InputFile,
    LibraryPath, NewInputFile,
};

fn header() -> Vec<u8> {
    let mut h = vec![0u8; 64];
    h[0..4].copy_from_slice(&[0x7f, 0x45, 0x4c, 0x46]);
    h[4] = 2;
    h[5] = 1;
    h[6] = 1;
    h[16] = 1;
    h[18] = 243;
    h
}

// A relocatable with the empty section and a table of section names.
fn tiny_object() -> Vec<u8> {
    let mut f = header();
    let names = b"\0.shstrtab\0";
    f.extend_from_slice(names);
    while f.len() % 8 != 0 {
        f.push(0);
    }
    let shoff = f.len() as u64;
    f[40..48].copy_from_slice(&shoff.to_le_bytes());
    f[58] = 64;
    f[60] = 2;
    f[62] = 1;
    f.extend_from_slice(&[0u8; 64]);
    let mut sh = vec![0u8; 64];
    sh[0] = 1;
    sh[4] = 3;
    sh[24] = 64;
    sh[32] = names.len() as u8;
    f.extend_from_slice(&sh);
    f
}

#[test]
fn magic_is_recognized() {
    assert!(checkMagic(&[0x7f, 0x45, 0x4c, 0x46]));
    assert!(checkMagic(&[0x7f, 0x45, 0x4c, 0x46, 0, 1]));
    assert!(!checkMagic(&[0x7f, 0x45, 0x4c]));
    assert!(!checkMagic(&[0x7f, 0x45, 0x4c, 0x47]));
    assert!(!checkMagic(&[]));
    assert!(checkArMagic(b"!<arch>\n"));
    assert!(!checkArMagic(b"!<arch>"));
}

#[test]
fn file_header_is_validated() {
    let h = header();
    let e = Ehdr::Read(&h).unwrap();
    assert_eq!(e.Type, 1);
    assert_eq!(e.Machine, 243);
    assert_eq!(e.Ident[4], 2);
    assert_eq!(Ehdr::Read(&h[..63]).err(), Some(LinkError::Format));
    let mut bad = h.clone();
    bad[0] = 0;
    assert_eq!(Ehdr::Read(&bad).err(), Some(LinkError::Format));
    let mut bad = h.clone();
    bad[4] = 1;
    assert_eq!(Ehdr::Read(&bad).err(), Some(LinkError::Format));
    let mut bad = h.clone();
    bad[5] = 2;
    assert_eq!(Ehdr::Read(&bad).err(), Some(LinkError::Format));
}

#[test]
fn file_header_round_trips() {
    let mut h = header();
    for (i, b) in h.iter_mut().enumerate().skip(16) {
        *b = i as u8;
    }
    let e = Ehdr::Read(&h).unwrap();
    assert_eq!(e.Entry, 0x1f1e_1d1c_1b1a_1918);
    assert_eq!(e.PhOff, 0x2726_2524_2322_2120);
    assert_eq!(e.ShOff, 0x2f2e_2d2c_2b2a_2928);
    assert_eq!(e.Flags, 0x3332_3130);
    assert_eq!(e.ShStrndx, 0x3f3e);
    let mut out = vec![0u8; 70];
    e.Write(&mut out, 3);
    assert_eq!(&out[3..67], &h[..]);
    assert_eq!(&out[..3], &[0, 0, 0]);
    assert_eq!(&out[67..], &[0, 0, 0]);
}

#[test]
fn section_header_round_trips() {
    let h = Shdr {
        Name: 1,
        Type: 2,
        Flags: 3,
        Addr: 0x0102_0304_0506_0708,
        Offset: 5,
        Size: 6,
        Link: 7,
        Info: 8,
        AddrAlign: 9,
        EntSize: 10,
    };
    let mut buf = vec![0xffu8; 66];
    h.Write(&mut buf, 1);
    assert_eq!(buf[0], 0xff);
    assert_eq!(buf[65], 0xff);
    assert_eq!(buf[1], 1);
    assert_eq!(buf[5], 2);
    assert_eq!(&buf[17..25], &[8, 7, 6, 5, 4, 3, 2, 1]);
    assert_eq!(Shdr::Read(&buf, 1), h);
    assert_eq!(Shdr::default().Size, 0);
}

#[test]
fn program_header_round_trips() {
    let p = Phdr { Type: 1, Flags: 5, Offset: 0x1000, VAddr: 0x201000, PAddr: 0x201000, FileSize: 16, MemSize: 32, Align: 4096 };
    let mut buf = vec![0u8; 56];
    p.Write(&mut buf, 0);
    assert_eq!(&buf[0..8], &[1, 0, 0, 0, 5, 0, 0, 0]);
    assert_eq!(Phdr::Read(&buf, 0), p);
}

#[test]
fn symbols_and_relocations_are_decoded() {
    let mut b = vec![0u8; 48];
    b[24..28].copy_from_slice(&7u32.to_le_bytes());
    b[28] = 0x16;
    b[29] = 2;
    b[30..32].copy_from_slice(&0xfff2u16.to_le_bytes());
    b[32..40].copy_from_slice(&4u64.to_le_bytes());
    b[40..48].copy_from_slice(&8u64.to_le_bytes());
    let syms = ReadSyms(&b);
    assert_eq!(syms.len(), 2);
    assert_eq!(syms[1], Sym { Name: 7, Info: 0x16, Other: 2, Shndx: 0xfff2, Val: 4, Size: 8 });
    assert!(syms[1].IsCommon());
    assert!(!syms[1].IsAbs());
    assert!(!syms[1].IsUndef());
    assert!(syms[0].IsUndef());
    assert_eq!(syms[1].Type(), 6);
    assert_eq!(syms[1].Bind(), 1);
    assert!(Sym { Shndx: 0xfff1, ..syms[0] }.IsAbs());
    // a trailing part of an entry is left out
    assert_eq!(ReadSyms(&b[..47]).len(), 1);

    let mut r = vec![0u8; 24];
    r[0..8].copy_from_slice(&0x10u64.to_le_bytes());
    r[8..12].copy_from_slice(&17u32.to_le_bytes());
    r[12..16].copy_from_slice(&3u32.to_le_bytes());
    r[16..24].copy_from_slice(&(-4i64).to_le_bytes());
    assert_eq!(ReadRelas(&r), vec![Rela { Offset: 0x10, Type: 17, Sym: 3, Addend: (-4i64) as u64 }]);
    assert_eq!(Rela::Read(&r, 0).Sym, 3);
    assert_eq!(ReadU32s(&[1, 0, 0, 0, 2, 0, 0, 0, 9]), vec![1, 2]);
}

#[test]
fn names_end_at_the_first_zero() {
    let tab = b"\0.text\0.data\0";
    assert_eq!(ElfGetName(tab, 1), Ok(b".text".to_vec()));
    assert_eq!(ElfGetName(tab, 7), Ok(b".data".to_vec()));
    assert_eq!(ElfGetName(tab, 3), Ok(b"ext".to_vec()));
    assert_eq!(ElfGetName(tab, 0), Ok(vec![]));
    assert_eq!(ElfGetName(tab, 13), Err(LinkError::Format));
    assert_eq!(ElfGetName(tab, 14), Err(LinkError::Format));
    assert_eq!(ElfGetName(b"abc", 0), Err(LinkError::Format));
}

#[test]
fn machine_names() {
    assert_eq!(MachineType::MachineTypeRISCV64.String(), "riscv64");
    assert_eq!(MachineType::MachineTypeNone.String(), "unknown");
}

#[test]
fn files_are_classified_by_their_first_bytes() {
    let f = File::new(b"a.o".to_vec(), header(), None);
    assert_eq!(f.Type, FileType::FileTypeObject);
    assert_eq!(f.Name, b"a.o".to_vec());
    assert_eq!(f.Parent, None);
    assert_eq!(File::new(vec![], vec![], None).Type, FileType::FileTypeEmpty);
    assert_eq!(File::new(vec![], b"!<arch>\nrest".to_vec(), None).Type, FileType::FileTypeArchive);
    assert_eq!(File::new(vec![], b"hello".to_vec(), None).Type, FileType::FileTypeUnknown);
    let mut exe = header();
    exe[16] = 2;
    assert_eq!(File::new(vec![], exe, None).Type, FileType::FileTypeUnknown);
    assert_eq!(File::new(vec![], header()[..17].to_vec(), None).Type, FileType::FileTypeUnknown);
}

#[test]
fn machine_type_and_compatibility() {
    let obj = File::new(vec![], header(), None);
    assert_eq!(GetMachineType(&obj), MachineType::MachineTypeRISCV64);
    let mut other = header();
    other[18] = 62;
    let x86 = File::new(vec![], other, None);
    assert_eq!(GetMachineType(&x86), MachineType::MachineTypeNone);
    let mut narrow = header();
    narrow[4] = 1;
    assert_eq!(GetMachineType(&File::new(vec![], narrow, None)), MachineType::MachineTypeNone);
    let ar = File::new(vec![], b"!<arch>\n".to_vec(), None);
    assert_eq!(GetMachineType(&ar), MachineType::MachineTypeNone);
    assert_eq!(CheckFileCompatibility(MachineType::MachineTypeRISCV64, &obj), Ok(()));
    assert_eq!(CheckFileCompatibility(MachineType::MachineTypeRISCV64, &x86), Err(LinkError::Compatibility));
    assert_eq!(CheckFileCompatibility(MachineType::MachineTypeNone, &obj), Err(LinkError::Compatibility));
}

#[test]
fn input_file_reads_its_section_headers() {
    let f = InputFile::new(File::new(b"t.o".to_vec(), tiny_object(), None)).unwrap();
    assert_eq!(f.ElfSections.len(), 2);
    assert_eq!(f.ElfSections[1].Type, 3);
    assert_eq!(f.Shstrtab, b"\0.shstrtab\0".to_vec());
    assert!(!f.IsAlive);
    assert_eq!(f.FindSection(3), Some(1));
    assert_eq!(f.FindSection(0), Some(0));
    assert_eq!(f.FindSection(2), None);
    assert_eq!(f.GetBytesFromIdx(1), Ok(b"\0.shstrtab\0".to_vec()));
    assert_eq!(f.GetBytesFromIdx(2), Err(LinkError::Format));
    let far = Shdr { Offset: 1 << 40, Size: 1, ..f.ElfSections[1] };
    assert_eq!(f.GetBytesFromShdr(&far), Err(LinkError::Format));
    assert_eq!(f.GetEhdr().Machine, 243);
}

#[test]
fn input_file_rejects_broken_files() {
    let good = tiny_object();
    let fails = |bytes: Vec<u8>| {
        InputFile::new(File::new(vec![], bytes, None)).err() == Some(LinkError::Format)
    };
    assert!(fails(good[..40].to_vec()));
    let mut bad = good.clone();
    bad[1] = 0;
    assert!(fails(bad));
    // the table of section headers lies behind the end
    let mut bad = good.clone();
    bad[40..48].copy_from_slice(&(good.len() as u64).to_le_bytes());
    assert!(fails(bad));
    // more section headers than the file holds
    let mut bad = good.clone();
    bad[60] = 3;
    assert!(fails(bad));
    // the section of names does not exist
    let mut bad = good.clone();
    bad[62] = 2;
    assert!(fails(bad));
    // the section of names lies outside the file
    let mut bad = good.clone();
    let at = good.len() - 64 + 32;
    bad[at + 2] = 1;
    assert!(fails(bad));
    assert!(NewInputFile(File::new(vec![], good, None)).is_ok());
}

#[test]
fn extended_section_count_comes_from_the_first_header() {
    let mut f = tiny_object();
    f[60] = 0;
    f[61] = 0;
    let shoff = u64::from_le_bytes(f[40..48].try_into().unwrap()) as usize;
    f[shoff + 32] = 2;
    let parsed = InputFile::new(File::new(vec![], f.clone(), None)).unwrap();
    assert_eq!(parsed.ElfSections.len(), 2);
    // and the index of the section names from its link field
    f[62] = 0xff;
    f[63] = 0xff;
    f[shoff + 40] = 1;
    let parsed = InputFile::new(File::new(vec![], f, None)).unwrap();
    assert_eq!(parsed.Shstrtab, b"\0.shstrtab\0".to_vec());
}

#[test]
fn symbols_are_appended() {
    let mut f = InputFile::new(File::new(vec![], tiny_object(), None)).unwrap();
    let all = Shdr { Offset: 0, Size: 48, ..Shdr::default() };
    assert_eq!(f.FillUpElfSyms(&all), Ok(()));
    assert_eq!(f.ElfSyms.len(), 2);
    assert_eq!(f.FillUpElfSyms(&all), Ok(()));
    assert_eq!(f.ElfSyms.len(), 4);
    let far = Shdr { Offset: 1 << 40, Size: 24, ..Shdr::default() };
    assert_eq!(f.FillUpElfSyms(&far), Err(LinkError::Format));
    assert_eq!(f.ElfSyms.len(), 4);
}

fn ar_header(name: &[u8], size: usize) -> Vec<u8> {
    let mut h = name.to_vec();
    h.resize(16, b' ');
    h.extend_from_slice(b"0           0     0     644     ");
    let mut sz = format!("{}", size).into_bytes();
    sz.resize(10, b' ');
    h.extend(sz);
    h.extend_from_slice(b"`\n");
    h
}

#[test]
fn archive_header_fields() {
    let h = ArHdr::Read(&ar_header(b"foo.o/", 123), 0).unwrap();
    assert_eq!(h.Name.len(), 16);
    assert_eq!(h.Size, b"123       ".to_vec());
    assert_eq!(h.GetSize(), Ok(123));
    assert!(!h.IsStrtab());
    assert!(!h.IsSymtab());
    assert_eq!(h.ReadName(b""), Ok(b"foo.o".to_vec()));
    assert!(ArHdr::Read(&ar_header(b"//", 0), 0).unwrap().IsStrtab());
    assert!(ArHdr::Read(&ar_header(b"/", 0), 0).unwrap().IsSymtab());
    assert!(ArHdr::Read(&ar_header(b"/SYM64/", 0), 0).unwrap().IsSymtab());
    let long = ArHdr::Read(&ar_header(b"/5", 0), 0).unwrap();
    assert_eq!(long.ReadName(b"a.o/\nlonger_name.o/\nc.o/\n"), Ok(b"longer_name.o".to_vec()));
    assert_eq!(long.ReadName(b"a.o/"), Err(LinkError::Format));
    let mut bad = ar_header(b"foo.o/", 1);
    bad[59] = b' ';
    assert_eq!(ArHdr::Read(&bad, 0).err(), Some(LinkError::Format));
    assert_eq!(ArHdr::Read(&bad[..59], 0).err(), Some(LinkError::Format));
    let mut bad = ar_header(b"foo.o/", 1);
    bad[48] = b'x';
    assert_eq!(ArHdr::Read(&bad, 0).unwrap().GetSize(), Err(LinkError::Format));
    let nameless = ArHdr::Read(&ar_header(b"no_slash", 0), 0).unwrap();
    assert_eq!(nameless.ReadName(b""), Err(LinkError::Format));
}

#[test]
fn archive_members_are_read_in_order() {
    let mut ar = b"!<arch>\n".to_vec();
    ar.extend(ar_header(b"/", 3));
    ar.extend_from_slice(b"sym\n");
    let table = b"a_rather_long_name.o/\n";
    ar.extend(ar_header(b"//", table.len()));
    ar.extend_from_slice(table);
    ar.extend(ar_header(b"x.o/", 3));
    ar.extend_from_slice(b"abc\n");
    ar.extend(ar_header(b"/0", 4));
    ar.extend_from_slice(b"defg");
    let file = File::new(b"lib.a".to_vec(), ar.clone(), None);
    let members = ReadArchiveMembers(&file).unwrap();
    assert_eq!(members.len(), 2);
    assert_eq!(members[0].Name, b"x.o".to_vec());
    assert_eq!(members[0].Contents, b"abc".to_vec());
    assert_eq!(members[0].Parent, Some(b"lib.a".to_vec()));
    assert_eq!(members[0].Type, FileType::FileTypeUnknown);
    assert_eq!(members[1].Name, b"a_rather_long_name.o".to_vec());
    assert_eq!(members[1].Contents, b"defg".to_vec());

    assert_eq!(ReadArchiveMembers(&File::new(vec![], b"!<arch>\n".to_vec(), None)).unwrap().len(), 0);
    // a member that reaches behind the end
    let cut = File::new(vec![], ar[..ar.len() - 1].to_vec(), None);
    assert_eq!(ReadArchiveMembers(&cut).err(), Some(LinkError::Format));
    // a corrupt header
    let mut bad = ar.clone();
    bad[8 + 58] = b'x';
    assert_eq!(ReadArchiveMembers(&File::new(vec![], bad, None)).err(), Some(LinkError::Format));
    // no archive at all
    assert_eq!(ReadArchiveMembers(&File::new(vec![], b"hello".to_vec(), None)).err(), Some(LinkError::Format));
}

#[test]
fn libraries_are_looked_up_in_order() {
    assert_eq!(LibraryPath(b"/usr/lib", b"c"), b"/usr/lib/libc.a".to_vec());
    assert_eq!(LibraryPath(b"", b""), b"/lib.a".to_vec());
    let f1 = File::new(b"one".to_vec(), vec![], None);
    let f2 = File::new(b"two".to_vec(), vec![], None);
    let r = FindLibrary(vec![None, Some(f1), Some(f2)]).unwrap();
    assert_eq!(r.Name, b"one".to_vec());
    assert_eq!(FindLibrary(vec![None, None]).err(), Some(LinkError::MissingLibrary));
    assert_eq!(FindLibrary(vec![]).err(), Some(LinkError::MissingLibrary));
}
