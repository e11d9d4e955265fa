//! The fixed-width records of ELF, read from and written to little-endian
//! bytes.
use vstd::prelude::*;
use crate::linker::abi;
use crate::linker::error::LinkError;
use crate::utils::{
    ReadU16,
    ReadU32,
    ReadU64,
    WriteU16,
    WriteU32,
    WriteU64,
    WriteBytes,
    starts_with,
    spec_u16_le,
    spec_u32_le,
    spec_u64_le,
    bytes_of_u16,
    bytes_of_u32,
    bytes_of_u64,
    overwrite,
    lemma_overwrite_append,
    lemma_bytes_len,
};

verus! {

/// The size of a file header in bytes.
pub const EHDR_SIZE: usize = 64;

/// The size of a section header in bytes.
pub const SHDR_SIZE: usize = 64;

/// The size of a program header in bytes.
pub const PHDR_SIZE: usize = 56;

/// The size of a symbol table entry in bytes.
pub const SYM_SIZE: usize = 24;

/// The size of a relocation with addend in bytes.
pub const RELA_SIZE: usize = 24;

/// Where the image of the executable starts in memory.
pub const IMAGE_BASE: u64 = 0x200000;

/// The size of a page, to which load segments are aligned at least.
pub const PAGESIZE: u64 = 4096;

/// Symbol flag: the symbol needs a slot that holds its address relative to
/// the thread pointer.
pub const NEEDS_GOT_TP: u32 = 1;

/// The four bytes every ELF file starts with.
pub open spec fn MAGIC() -> Seq<u8> {
    seq![0x7fu8, 0x45u8, 0x4cu8, 0x46u8]
}

/// Whether `s` starts with the ELF magic.
pub fn checkMagic(s: &[u8]) -> (r: bool)
    ensures
        r == starts_with(s@, MAGIC()),
{
    let r = s.len() >= 4 && s[0] == 0x7f && s[1] == 0x45 && s[2] == 0x4c && s[3] == 0x46;
    proof {
        if s.len() >= 4 {
            let p = s@.subrange(0, 4);
            assert(p[0] == s@[0] && p[1] == s@[1] && p[2] == s@[2] && p[3] == s@[3]);
            if r {
                assert(p =~= MAGIC());
            }
        }
    }
    r
}

/// The file header.
#[derive(Clone, Copy, Debug)]
pub struct Ehdr {
    pub Ident: [u8; 16],
    pub Type: u16,
    pub Machine: u16,
    pub Version: u32,
    pub Entry: u64,
    pub PhOff: u64,
    pub ShOff: u64,
    pub Flags: u32,
    pub EhSize: u16,
    pub PhEntSize: u16,
    pub PhNum: u16,
    pub ShEntSize: u16,
    pub ShNum: u16,
    pub ShStrndx: u16,
}

/// A section header. Offsets and sizes are byte counts.
#[derive(Clone, Copy, Debug, PartialEq, Eq, Structural)]
pub struct Shdr {
    pub Name: u32,
    pub Type: u32,
    pub Flags: u64,
    pub Addr: u64,
    pub Offset: u64,
    pub Size: u64,
    pub Link: u32,
    pub Info: u32,
    pub AddrAlign: u64,
    pub EntSize: u64,
}

/// A program header.
#[derive(Clone, Copy, Debug, PartialEq, Eq, Structural)]
pub struct Phdr {
    pub Type: u32,
    pub Flags: u32,
    pub Offset: u64,
    pub VAddr: u64,
    pub PAddr: u64,
    pub FileSize: u64,
    pub MemSize: u64,
    pub Align: u64,
}

/// A symbol table entry.
#[derive(Clone, Copy, Debug, PartialEq, Eq, Structural)]
pub struct Sym {
    pub Name: u32,
    pub Info: u8,
    pub Other: u8,
    pub Shndx: u16,
    pub Val: u64,
    pub Size: u64,
}

/// A relocation with addend. `Type` is the low half of the info word, `Sym`
/// the high half; `Addend` is the two's-complement addend.
#[derive(Clone, Copy, Debug, PartialEq, Eq, Structural)]
pub struct Rela {
    pub Offset: u64,
    pub Type: u32,
    pub Sym: u32,
    pub Addend: u64,
}

/// What kind of file a run of bytes is.
#[derive(Clone, Copy, Debug, PartialEq, Eq, Structural)]
pub enum FileType {
    FileTypeUnknown,
    FileTypeEmpty,
    FileTypeObject,
    FileTypeArchive,
}

/// The machines that the linker knows.
#[derive(Clone, Copy, Debug, PartialEq, Eq, Structural)]
pub enum MachineType {
    MachineTypeNone,
    MachineTypeRISCV64,
}

impl MachineType {
    /// The name of the machine for messages.
    pub fn String(&self) -> (r: String)
        ensures
            r@ == (if *self == MachineType::MachineTypeRISCV64 {
                "riscv64"@
            } else {
                "unknown"@
            }),
    {
        match self {
            MachineType::MachineTypeRISCV64 => "riscv64".to_string(),
            _ => "unknown".to_string(),
        }
    }
}

impl Default for Shdr {
    fn default() -> (r: Shdr)
        ensures
            r == Shdr::zero(),
    {
        Shdr {
            Name: 0,
            Type: 0,
            Flags: 0,
            Addr: 0,
            Offset: 0,
            Size: 0,
            Link: 0,
            Info: 0,
            AddrAlign: 0,
            EntSize: 0,
        }
    }
}

impl Ehdr {
    /// Whether `e` is what the first 64 bytes of `s` hold.
    pub open spec fn decodes(s: Seq<u8>, e: Ehdr) -> bool {
        &&& e.Ident@ == s.subrange(0, 16)
        &&& e.Type == spec_u16_le(s, 16)
        &&& e.Machine == spec_u16_le(s, 18)
        &&& e.Version == spec_u32_le(s, 20)
        &&& e.Entry == spec_u64_le(s, 24)
        &&& e.PhOff == spec_u64_le(s, 32)
        &&& e.ShOff == spec_u64_le(s, 40)
        &&& e.Flags == spec_u32_le(s, 48)
        &&& e.EhSize == spec_u16_le(s, 52)
        &&& e.PhEntSize == spec_u16_le(s, 54)
        &&& e.PhNum == spec_u16_le(s, 56)
        &&& e.ShEntSize == spec_u16_le(s, 58)
        &&& e.ShNum == spec_u16_le(s, 60)
        &&& e.ShStrndx == spec_u16_le(s, 62)
    }

    /// Whether `s` starts with a header this linker accepts: long enough,
    /// the magic, 64-bit class, little-endian data.
    pub open spec fn acceptable(s: Seq<u8>) -> bool {
        &&& s.len() >= 64
        &&& starts_with(s, MAGIC())
        &&& s[4] == abi::ELFCLASS64
        &&& s[5] == abi::ELFDATA2LSB
    }

    /// The 64 bytes that hold this header.
    pub open spec fn bytes(self) -> Seq<u8> {
        self.Ident@ + bytes_of_u16(self.Type) + bytes_of_u16(self.Machine) + bytes_of_u32(
            self.Version,
        ) + bytes_of_u64(self.Entry) + bytes_of_u64(self.PhOff) + bytes_of_u64(self.ShOff)
            + bytes_of_u32(self.Flags) + bytes_of_u16(self.EhSize) + bytes_of_u16(self.PhEntSize)
            + bytes_of_u16(self.PhNum) + bytes_of_u16(self.ShEntSize) + bytes_of_u16(self.ShNum)
            + bytes_of_u16(self.ShStrndx)
    }

    /// Reads and validates the file header at the start of `data`.
    pub fn Read(data: &[u8]) -> (r: Result<Ehdr, LinkError>)
        ensures
            r is Ok <==> Ehdr::acceptable(data@),
            r is Ok ==> Ehdr::decodes(data@, r.unwrap()),
            r is Err ==> r == Err::<Ehdr, LinkError>(LinkError::Format),
    {
        if data.len() < EHDR_SIZE || !checkMagic(data) || data[abi::EI_CLASS] != abi::ELFCLASS64
            || data[abi::EI_DATA] != abi::ELFDATA2LSB {
            return Err(LinkError::Format);
        }
        let mut id: [u8; 16] = [0u8; 16];
        let mut i: usize = 0;
        while i < 16
            invariant
                i <= 16,
                data.len() >= 64,
                forall|j: int| 0 <= j < i ==> id@[j] == data@[j],
            decreases 16 - i,
        {
            id[i] = data[i];
            i = i + 1;
        }
        assert(id@ =~= data@.subrange(0, 16));
        Ok(
            Ehdr {
                Ident: id,
                Type: ReadU16(data, 16),
                Machine: ReadU16(data, 18),
                Version: ReadU32(data, 20),
                Entry: ReadU64(data, 24),
                PhOff: ReadU64(data, 32),
                ShOff: ReadU64(data, 40),
                Flags: ReadU32(data, 48),
                EhSize: ReadU16(data, 52),
                PhEntSize: ReadU16(data, 54),
                PhNum: ReadU16(data, 56),
                ShEntSize: ReadU16(data, 58),
                ShNum: ReadU16(data, 60),
                ShStrndx: ReadU16(data, 62),
            },
        )
    }

    /// Writes the 64 bytes of this header at `off`.
    pub fn Write(&self, buf: &mut Vec<u8>, off: usize)
        requires
            off + 64 <= old(buf).len(),
        ensures
            final(buf)@ == overwrite(old(buf)@, off as int, self.bytes()),
    {
        let id: [u8; 16] = self.Ident;
        WriteBytes(buf, off, id.as_slice());
        let ghost acc: Seq<u8> = self.Ident@;
        proof { lemma_bytes_len(0, 0, 0); }
        WriteU16(buf, off + 16, self.Type);
        proof {
            lemma_bytes_len(self.Type, 0, 0);
            lemma_overwrite_append(old(buf)@, off as int, acc, bytes_of_u16(self.Type));
            acc = acc + bytes_of_u16(self.Type);
        }
        assert(buf@ == overwrite(old(buf)@, off as int, acc));
        WriteU16(buf, off + 18, self.Machine);
        proof {
            lemma_bytes_len(self.Machine, 0, 0);
            lemma_overwrite_append(old(buf)@, off as int, acc, bytes_of_u16(self.Machine));
            acc = acc + bytes_of_u16(self.Machine);
        }
        assert(buf@ == overwrite(old(buf)@, off as int, acc));
        WriteU32(buf, off + 20, self.Version);
        proof {
            lemma_bytes_len(0, self.Version, 0);
            lemma_overwrite_append(old(buf)@, off as int, acc, bytes_of_u32(self.Version));
            acc = acc + bytes_of_u32(self.Version);
        }
        assert(buf@ == overwrite(old(buf)@, off as int, acc));
        WriteU64(buf, off + 24, self.Entry);
        proof {
            lemma_bytes_len(0, 0, self.Entry);
            lemma_overwrite_append(old(buf)@, off as int, acc, bytes_of_u64(self.Entry));
            acc = acc + bytes_of_u64(self.Entry);
        }
        assert(buf@ == overwrite(old(buf)@, off as int, acc));
        WriteU64(buf, off + 32, self.PhOff);
        proof {
            lemma_bytes_len(0, 0, self.PhOff);
            lemma_overwrite_append(old(buf)@, off as int, acc, bytes_of_u64(self.PhOff));
            acc = acc + bytes_of_u64(self.PhOff);
        }
        assert(buf@ == overwrite(old(buf)@, off as int, acc));
        WriteU64(buf, off + 40, self.ShOff);
        proof {
            lemma_bytes_len(0, 0, self.ShOff);
            lemma_overwrite_append(old(buf)@, off as int, acc, bytes_of_u64(self.ShOff));
            acc = acc + bytes_of_u64(self.ShOff);
        }
        assert(buf@ == overwrite(old(buf)@, off as int, acc));
        WriteU32(buf, off + 48, self.Flags);
        proof {
            lemma_bytes_len(0, self.Flags, 0);
            lemma_overwrite_append(old(buf)@, off as int, acc, bytes_of_u32(self.Flags));
            acc = acc + bytes_of_u32(self.Flags);
        }
        assert(buf@ == overwrite(old(buf)@, off as int, acc));
        WriteU16(buf, off + 52, self.EhSize);
        proof {
            lemma_bytes_len(self.EhSize, 0, 0);
            lemma_overwrite_append(old(buf)@, off as int, acc, bytes_of_u16(self.EhSize));
            acc = acc + bytes_of_u16(self.EhSize);
        }
        assert(buf@ == overwrite(old(buf)@, off as int, acc));
        WriteU16(buf, off + 54, self.PhEntSize);
        proof {
            lemma_bytes_len(self.PhEntSize, 0, 0);
            lemma_overwrite_append(old(buf)@, off as int, acc, bytes_of_u16(self.PhEntSize));
            acc = acc + bytes_of_u16(self.PhEntSize);
        }
        assert(buf@ == overwrite(old(buf)@, off as int, acc));
        WriteU16(buf, off + 56, self.PhNum);
        proof {
            lemma_bytes_len(self.PhNum, 0, 0);
            lemma_overwrite_append(old(buf)@, off as int, acc, bytes_of_u16(self.PhNum));
            acc = acc + bytes_of_u16(self.PhNum);
        }
        assert(buf@ == overwrite(old(buf)@, off as int, acc));
        WriteU16(buf, off + 58, self.ShEntSize);
        proof {
            lemma_bytes_len(self.ShEntSize, 0, 0);
            lemma_overwrite_append(old(buf)@, off as int, acc, bytes_of_u16(self.ShEntSize));
            acc = acc + bytes_of_u16(self.ShEntSize);
        }
        assert(buf@ == overwrite(old(buf)@, off as int, acc));
        WriteU16(buf, off + 60, self.ShNum);
        proof {
            lemma_bytes_len(self.ShNum, 0, 0);
            lemma_overwrite_append(old(buf)@, off as int, acc, bytes_of_u16(self.ShNum));
            acc = acc + bytes_of_u16(self.ShNum);
        }
        assert(buf@ == overwrite(old(buf)@, off as int, acc));
        WriteU16(buf, off + 62, self.ShStrndx);
        proof {
            lemma_bytes_len(self.ShStrndx, 0, 0);
            lemma_overwrite_append(old(buf)@, off as int, acc, bytes_of_u16(self.ShStrndx));
            acc = acc + bytes_of_u16(self.ShStrndx);
        }
        assert(buf@ == overwrite(old(buf)@, off as int, acc));
        assert(acc =~= self.bytes());
    }
}

impl Shdr {
    /// The header with every field zero.
    pub open spec fn zero() -> Shdr {
        Shdr {
            Name: 0,
            Type: 0,
            Flags: 0,
            Addr: 0,
            Offset: 0,
            Size: 0,
            Link: 0,
            Info: 0,
            AddrAlign: 0,
            EntSize: 0,
        }
    }

    /// The section header that the 64 bytes at `off` in `s` hold.
    pub open spec fn decode(s: Seq<u8>, off: int) -> Shdr {
        Shdr {
            Name: spec_u32_le(s, off),
            Type: spec_u32_le(s, off + 4),
            Flags: spec_u64_le(s, off + 8),
            Addr: spec_u64_le(s, off + 16),
            Offset: spec_u64_le(s, off + 24),
            Size: spec_u64_le(s, off + 32),
            Link: spec_u32_le(s, off + 40),
            Info: spec_u32_le(s, off + 44),
            AddrAlign: spec_u64_le(s, off + 48),
            EntSize: spec_u64_le(s, off + 56),
        }
    }

    /// The 64 bytes that hold this header.
    pub open spec fn bytes(self) -> Seq<u8> {
        bytes_of_u32(self.Name) + bytes_of_u32(self.Type) + bytes_of_u64(self.Flags)
            + bytes_of_u64(self.Addr) + bytes_of_u64(self.Offset) + bytes_of_u64(self.Size)
            + bytes_of_u32(self.Link) + bytes_of_u32(self.Info) + bytes_of_u64(self.AddrAlign)
            + bytes_of_u64(self.EntSize)
    }

    /// Reads the section header at `off`.
    pub fn Read(data: &[u8], off: usize) -> (r: Shdr)
        requires
            off + 64 <= data.len(),
        ensures
            r == Shdr::decode(data@, off as int),
    {
        Shdr {
            Name: ReadU32(data, off),
            Type: ReadU32(data, off + 4),
            Flags: ReadU64(data, off + 8),
            Addr: ReadU64(data, off + 16),
            Offset: ReadU64(data, off + 24),
            Size: ReadU64(data, off + 32),
            Link: ReadU32(data, off + 40),
            Info: ReadU32(data, off + 44),
            AddrAlign: ReadU64(data, off + 48),
            EntSize: ReadU64(data, off + 56),
        }
    }

    /// Writes the 64 bytes of this header at `off`.
    pub fn Write(&self, buf: &mut Vec<u8>, off: usize)
        requires
            off + 64 <= old(buf).len(),
        ensures
            final(buf)@ == overwrite(old(buf)@, off as int, self.bytes()),
    {
        WriteU32(buf, off, self.Name);
        let ghost acc: Seq<u8> = bytes_of_u32(self.Name);
        proof { lemma_bytes_len(0, 0, 0); }
        WriteU32(buf, off + 4, self.Type);
        proof {
            lemma_bytes_len(0, self.Type, 0);
            lemma_overwrite_append(old(buf)@, off as int, acc, bytes_of_u32(self.Type));
            acc = acc + bytes_of_u32(self.Type);
        }
        assert(buf@ == overwrite(old(buf)@, off as int, acc));
        WriteU64(buf, off + 8, self.Flags);
        proof {
            lemma_bytes_len(0, 0, self.Flags);
            lemma_overwrite_append(old(buf)@, off as int, acc, bytes_of_u64(self.Flags));
            acc = acc + bytes_of_u64(self.Flags);
        }
        assert(buf@ == overwrite(old(buf)@, off as int, acc));
        WriteU64(buf, off + 16, self.Addr);
        proof {
            lemma_bytes_len(0, 0, self.Addr);
            lemma_overwrite_append(old(buf)@, off as int, acc, bytes_of_u64(self.Addr));
            acc = acc + bytes_of_u64(self.Addr);
        }
        assert(buf@ == overwrite(old(buf)@, off as int, acc));
        WriteU64(buf, off + 24, self.Offset);
        proof {
            lemma_bytes_len(0, 0, self.Offset);
            lemma_overwrite_append(old(buf)@, off as int, acc, bytes_of_u64(self.Offset));
            acc = acc + bytes_of_u64(self.Offset);
        }
        assert(buf@ == overwrite(old(buf)@, off as int, acc));
        WriteU64(buf, off + 32, self.Size);
        proof {
            lemma_bytes_len(0, 0, self.Size);
            lemma_overwrite_append(old(buf)@, off as int, acc, bytes_of_u64(self.Size));
            acc = acc + bytes_of_u64(self.Size);
        }
        assert(buf@ == overwrite(old(buf)@, off as int, acc));
        WriteU32(buf, off + 40, self.Link);
        proof {
            lemma_bytes_len(0, self.Link, 0);
            lemma_overwrite_append(old(buf)@, off as int, acc, bytes_of_u32(self.Link));
            acc = acc + bytes_of_u32(self.Link);
        }
        assert(buf@ == overwrite(old(buf)@, off as int, acc));
        WriteU32(buf, off + 44, self.Info);
        proof {
            lemma_bytes_len(0, self.Info, 0);
            lemma_overwrite_append(old(buf)@, off as int, acc, bytes_of_u32(self.Info));
            acc = acc + bytes_of_u32(self.Info);
        }
        assert(buf@ == overwrite(old(buf)@, off as int, acc));
        WriteU64(buf, off + 48, self.AddrAlign);
        proof {
            lemma_bytes_len(0, 0, self.AddrAlign);
            lemma_overwrite_append(old(buf)@, off as int, acc, bytes_of_u64(self.AddrAlign));
            acc = acc + bytes_of_u64(self.AddrAlign);
        }
        assert(buf@ == overwrite(old(buf)@, off as int, acc));
        WriteU64(buf, off + 56, self.EntSize);
        proof {
            lemma_bytes_len(0, 0, self.EntSize);
            lemma_overwrite_append(old(buf)@, off as int, acc, bytes_of_u64(self.EntSize));
            acc = acc + bytes_of_u64(self.EntSize);
        }
        assert(buf@ == overwrite(old(buf)@, off as int, acc));
        assert(acc =~= self.bytes());
    }
}

impl Phdr {
    /// The program header that the 56 bytes at `off` in `s` hold.
    pub open spec fn decode(s: Seq<u8>, off: int) -> Phdr {
        Phdr {
            Type: spec_u32_le(s, off),
            Flags: spec_u32_le(s, off + 4),
            Offset: spec_u64_le(s, off + 8),
            VAddr: spec_u64_le(s, off + 16),
            PAddr: spec_u64_le(s, off + 24),
            FileSize: spec_u64_le(s, off + 32),
            MemSize: spec_u64_le(s, off + 40),
            Align: spec_u64_le(s, off + 48),
        }
    }

    /// The 56 bytes that hold this header.
    pub open spec fn bytes(self) -> Seq<u8> {
        bytes_of_u32(self.Type) + bytes_of_u32(self.Flags) + bytes_of_u64(self.Offset)
            + bytes_of_u64(self.VAddr) + bytes_of_u64(self.PAddr) + bytes_of_u64(self.FileSize)
            + bytes_of_u64(self.MemSize) + bytes_of_u64(self.Align)
    }

    /// Reads the program header at `off`.
    pub fn Read(data: &[u8], off: usize) -> (r: Phdr)
        requires
            off + 56 <= data.len(),
        ensures
            r == Phdr::decode(data@, off as int),
    {
        Phdr {
            Type: ReadU32(data, off),
            Flags: ReadU32(data, off + 4),
            Offset: ReadU64(data, off + 8),
            VAddr: ReadU64(data, off + 16),
            PAddr: ReadU64(data, off + 24),
            FileSize: ReadU64(data, off + 32),
            MemSize: ReadU64(data, off + 40),
            Align: ReadU64(data, off + 48),
        }
    }

    /// Writes the 56 bytes of this header at `off`.
    pub fn Write(&self, buf: &mut Vec<u8>, off: usize)
        requires
            off + 56 <= old(buf).len(),
        ensures
            final(buf)@ == overwrite(old(buf)@, off as int, self.bytes()),
    {
        WriteU32(buf, off, self.Type);
        let ghost acc: Seq<u8> = bytes_of_u32(self.Type);
        proof { lemma_bytes_len(0, 0, 0); }
        WriteU32(buf, off + 4, self.Flags);
        proof {
            lemma_bytes_len(0, self.Flags, 0);
            lemma_overwrite_append(old(buf)@, off as int, acc, bytes_of_u32(self.Flags));
            acc = acc + bytes_of_u32(self.Flags);
        }
        assert(buf@ == overwrite(old(buf)@, off as int, acc));
        WriteU64(buf, off + 8, self.Offset);
        proof {
            lemma_bytes_len(0, 0, self.Offset);
            lemma_overwrite_append(old(buf)@, off as int, acc, bytes_of_u64(self.Offset));
            acc = acc + bytes_of_u64(self.Offset);
        }
        assert(buf@ == overwrite(old(buf)@, off as int, acc));
        WriteU64(buf, off + 16, self.VAddr);
        proof {
            lemma_bytes_len(0, 0, self.VAddr);
            lemma_overwrite_append(old(buf)@, off as int, acc, bytes_of_u64(self.VAddr));
            acc = acc + bytes_of_u64(self.VAddr);
        }
        assert(buf@ == overwrite(old(buf)@, off as int, acc));
        WriteU64(buf, off + 24, self.PAddr);
        proof {
            lemma_bytes_len(0, 0, self.PAddr);
            lemma_overwrite_append(old(buf)@, off as int, acc, bytes_of_u64(self.PAddr));
            acc = acc + bytes_of_u64(self.PAddr);
        }
        assert(buf@ == overwrite(old(buf)@, off as int, acc));
        WriteU64(buf, off + 32, self.FileSize);
        proof {
            lemma_bytes_len(0, 0, self.FileSize);
            lemma_overwrite_append(old(buf)@, off as int, acc, bytes_of_u64(self.FileSize));
            acc = acc + bytes_of_u64(self.FileSize);
        }
        assert(buf@ == overwrite(old(buf)@, off as int, acc));
        WriteU64(buf, off + 40, self.MemSize);
        proof {
            lemma_bytes_len(0, 0, self.MemSize);
            lemma_overwrite_append(old(buf)@, off as int, acc, bytes_of_u64(self.MemSize));
            acc = acc + bytes_of_u64(self.MemSize);
        }
        assert(buf@ == overwrite(old(buf)@, off as int, acc));
        WriteU64(buf, off + 48, self.Align);
        proof {
            lemma_bytes_len(0, 0, self.Align);
            lemma_overwrite_append(old(buf)@, off as int, acc, bytes_of_u64(self.Align));
            acc = acc + bytes_of_u64(self.Align);
        }
        assert(buf@ == overwrite(old(buf)@, off as int, acc));
        assert(acc =~= self.bytes());
    }
}

impl Sym {
    /// The symbol that the 24 bytes at `off` in `s` hold.
    pub open spec fn decode(s: Seq<u8>, off: int) -> Sym {
        Sym {
            Name: spec_u32_le(s, off),
            Info: s[off + 4],
            Other: s[off + 5],
            Shndx: spec_u16_le(s, off + 6),
            Val: spec_u64_le(s, off + 8),
            Size: spec_u64_le(s, off + 16),
        }
    }

    /// Reads the symbol at `off`.
    pub fn Read(data: &[u8], off: usize) -> (r: Sym)
        requires
            off + 24 <= data.len(),
        ensures
            r == Sym::decode(data@, off as int),
    {
        Sym {
            Name: ReadU32(data, off),
            Info: data[off + 4],
            Other: data[off + 5],
            Shndx: ReadU16(data, off + 6),
            Val: ReadU64(data, off + 8),
            Size: ReadU64(data, off + 16),
        }
    }

    /// The symbol is absolute: relocation leaves its value alone.
    pub fn IsAbs(&self) -> (r: bool)
        ensures
            r == (self.Shndx == abi::SHN_ABS),
    {
        self.Shndx == abi::SHN_ABS
    }

    /// The symbol is a reference that another object has to define.
    pub fn IsUndef(&self) -> (r: bool)
        ensures
            r == (self.Shndx == abi::SHN_UNDEF),
    {
        self.Shndx == abi::SHN_UNDEF
    }

    /// The symbol is a tentative definition.
    pub fn IsCommon(&self) -> (r: bool)
        ensures
            r == (self.Shndx == abi::SHN_COMMON),
    {
        self.Shndx == abi::SHN_COMMON
    }

    /// The type of the symbol: the low four bits of `Info`.
    pub fn Type(&self) -> (r: u8)
        ensures
            r == self.Info & 0xf,
            r == self.Info % 16,
    {
        let info: u8 = self.Info;
        assert(info & 0xf == info % 16) by (bit_vector);
        self.Info & 0xf
    }

    /// The binding of the symbol: the high four bits of `Info`.
    pub fn Bind(&self) -> (r: u8)
        ensures
            r == self.Info >> 4,
            r == self.Info / 16,
    {
        let info: u8 = self.Info;
        assert(info >> 4 == info / 16) by (bit_vector);
        self.Info >> 4
    }
}

impl Rela {
    /// The relocation that the 24 bytes at `off` in `s` hold.
    pub open spec fn decode(s: Seq<u8>, off: int) -> Rela {
        Rela {
            Offset: spec_u64_le(s, off),
            Type: spec_u32_le(s, off + 8),
            Sym: spec_u32_le(s, off + 12),
            Addend: spec_u64_le(s, off + 16),
        }
    }

    /// Reads the relocation at `off`.
    pub fn Read(data: &[u8], off: usize) -> (r: Rela)
        requires
            off + 24 <= data.len(),
        ensures
            r == Rela::decode(data@, off as int),
    {
        Rela {
            Offset: ReadU64(data, off),
            Type: ReadU32(data, off + 8),
            Sym: ReadU32(data, off + 12),
            Addend: ReadU64(data, off + 16),
        }
    }
}

/// The position of the first zero byte of `s` at or after `from`; the length
/// of `s` where there is none.
pub open spec fn first_zero(s: Seq<u8>, from: int) -> int
    decreases s.len() - from,
{
    if from >= s.len() {
        s.len() as int
    } else if s[from] == 0 {
        from
    } else {
        first_zero(s, from + 1)
    }
}

/// The name at `offset` in a string table: the bytes up to, not counting,
/// the next zero byte.
pub open spec fn spec_elf_name(strtab: Seq<u8>, offset: int) -> Seq<u8> {
    strtab.subrange(offset, first_zero(strtab, offset))
}

/// `first_zero` lies between `from` and the end, points at a zero byte where
/// it is not the end, and passes no zero byte on its way.
pub proof fn lemma_first_zero(s: Seq<u8>, from: int)
    requires
        0 <= from <= s.len(),
    ensures
        from <= first_zero(s, from) <= s.len(),
        first_zero(s, from) < s.len() ==> s[first_zero(s, from)] == 0,
        forall|k: int| from <= k < first_zero(s, from) ==> s[k] != 0,
    decreases s.len() - from,
{
    if from < s.len() && s[from] != 0 {
        lemma_first_zero(s, from + 1);
    }
}

/// The name at `offset` in the string table `strtab`. An offset behind the
/// table, or a name that no zero byte ends, is a format error.
pub fn ElfGetName(strtab: &[u8], offset: usize) -> (r: Result<Vec<u8>, LinkError>)
    ensures
        r is Ok <==> offset <= strtab.len() && first_zero(strtab@, offset as int) < strtab.len(),
        r is Ok ==> r.unwrap()@ == spec_elf_name(strtab@, offset as int),
        r is Err ==> r == Err::<Vec<u8>, LinkError>(LinkError::Format),
{
    if offset > strtab.len() {
        return Err(LinkError::Format);
    }
    let mut out: Vec<u8> = Vec::new();
    let mut i: usize = offset;
    while i < strtab.len() && strtab[i] != 0
        invariant
            offset <= i <= strtab.len(),
            out@ == strtab@.subrange(offset as int, i as int),
            first_zero(strtab@, offset as int) == first_zero(strtab@, i as int),
        decreases strtab.len() - i,
    {
        out.push(strtab[i]);
        assert(out@ =~= strtab@.subrange(offset as int, i + 1));
        i = i + 1;
    }
    if i >= strtab.len() {
        Err(LinkError::Format)
    } else {
        Ok(out)
    }
}

/// The symbols that `bytes` hold: one for every full 24 bytes.
pub open spec fn spec_syms(bytes: Seq<u8>) -> Seq<Sym> {
    Seq::new((bytes.len() / 24) as nat, |i: int| Sym::decode(bytes, 24 * i))
}

/// The relocations that `bytes` hold: one for every full 24 bytes.
pub open spec fn spec_relas(bytes: Seq<u8>) -> Seq<Rela> {
    Seq::new((bytes.len() / 24) as nat, |i: int| Rela::decode(bytes, 24 * i))
}

/// The 32-bit numbers that `bytes` hold: one for every full 4 bytes.
pub open spec fn spec_u32s(bytes: Seq<u8>) -> Seq<u32> {
    Seq::new((bytes.len() / 4) as nat, |i: int| spec_u32_le(bytes, 4 * i))
}

/// Reads a symbol table.
pub fn ReadSyms(bytes: &[u8]) -> (r: Vec<Sym>)
    ensures
        r@ == spec_syms(bytes@),
{
    let n: usize = bytes.len() / SYM_SIZE;
    let mut out: Vec<Sym> = Vec::with_capacity(n);
    let mut i: usize = 0;
    while i < n
        invariant
            i <= n,
            n == bytes.len() / 24,
            out@.len() == i,
            forall|j: int| 0 <= j < i ==> out@[j] == Sym::decode(bytes@, 24 * j),
        decreases n - i,
    {
        out.push(Sym::Read(bytes, i * SYM_SIZE));
        i = i + 1;
    }
    assert(out@ =~= spec_syms(bytes@));
    out
}

/// Reads a table of relocations.
pub fn ReadRelas(bytes: &[u8]) -> (r: Vec<Rela>)
    ensures
        r@ == spec_relas(bytes@),
{
    let n: usize = bytes.len() / RELA_SIZE;
    let mut out: Vec<Rela> = Vec::with_capacity(n);
    let mut i: usize = 0;
    while i < n
        invariant
            i <= n,
            n == bytes.len() / 24,
            out@.len() == i,
            forall|j: int| 0 <= j < i ==> out@[j] == Rela::decode(bytes@, 24 * j),
        decreases n - i,
    {
        out.push(Rela::Read(bytes, i * RELA_SIZE));
        i = i + 1;
    }
    assert(out@ =~= spec_relas(bytes@));
    out
}

/// Reads a table of 32-bit numbers.
pub fn ReadU32s(bytes: &[u8]) -> (r: Vec<u32>)
    ensures
        r@ == spec_u32s(bytes@),
{
    let n: usize = bytes.len() / 4;
    let mut out: Vec<u32> = Vec::with_capacity(n);
    let mut i: usize = 0;
    while i < n
        invariant
            i <= n,
            n == bytes.len() / 4,
            out@.len() == i,
            forall|j: int| 0 <= j < i ==> out@[j] == spec_u32_le(bytes@, 4 * j),
        decreases n - i,
    {
        out.push(ReadU32(bytes, i * 4));
        i = i + 1;
    }
    assert(out@ =~= spec_u32s(bytes@));
    out
}

impl Ehdr {
    /// The header with every field zero.
    pub fn zero() -> (r: Ehdr)
        ensures
            r.Ident@ == Seq::new(16, |i: int| 0u8),
            r.Type == 0,
            r.Machine == 0,
            r.Version == 0,
            r.Entry == 0,
            r.PhOff == 0,
            r.ShOff == 0,
            r.Flags == 0,
            r.EhSize == 0,
            r.PhEntSize == 0,
            r.PhNum == 0,
            r.ShEntSize == 0,
            r.ShNum == 0,
            r.ShStrndx == 0,
    {
        let id: [u8; 16] = [0u8; 16];
        assert(id@ =~= Seq::new(16, |i: int| 0u8));
        Ehdr {
            Ident: id,
            Type: 0,
            Machine: 0,
            Version: 0,
            Entry: 0,
            PhOff: 0,
            ShOff: 0,
            Flags: 0,
            EhSize: 0,
            PhEntSize: 0,
            PhNum: 0,
            ShEntSize: 0,
            ShNum: 0,
            ShStrndx: 0,
        }
    }
}

} // verus!
