//! What every unit of the output can be asked, whatever its kind.
use vstd::prelude::*;
use crate::linker::abi;
use crate::linker::context::Context;
use crate::linker::elf::Shdr;
use crate::linker::gotsection::GotSection;
use crate::linker::mergedsection::MergedSection;
use crate::linker::output::{Chunk, ChunkId, OutputEhdr, OutputPhdr, OutputSection, OutputShdr};

verus! {

/// Whether a section with the header `h` occupies memory when the program
/// runs.
pub open spec fn is_alloc(h: Shdr) -> bool {
    h.Flags & abi::SHF_ALLOC != 0
}

/// Whether a section with the header `h` holds thread-local data.
pub open spec fn is_tls(h: Shdr) -> bool {
    h.Flags & abi::SHF_TLS != 0
}

/// Whether a section with the header `h` is zero-initialized data that is
/// not thread-local: it takes memory but no bytes of the file.
pub open spec fn is_bss(h: Shdr) -> bool {
    h.Type == abi::SHT_NOBITS && !is_tls(h)
}

/// Whether a section with the header `h` is zero-initialized thread-local
/// data.
pub open spec fn is_tbss(h: Shdr) -> bool {
    h.Type == abi::SHT_NOBITS && is_tls(h)
}

/// Whether a section with the header `h` is a note that is loaded.
pub open spec fn is_note(h: Shdr) -> bool {
    h.Type == abi::SHT_NOTE && is_alloc(h)
}

/// The access flags of the segment that a section with the header `h`
/// goes to: readable, writable where the section is, executable where the
/// section is.
pub open spec fn spec_phdr_flags(h: Shdr) -> u32 {
    if h.Flags & abi::SHF_WRITE != 0 {
        if h.Flags & abi::SHF_EXECINSTR != 0 {
            7
        } else {
            6
        }
    } else {
        if h.Flags & abi::SHF_EXECINSTR != 0 {
            5
        } else {
            4
        }
    }
}

/// The access flags of the segment that a section with the header `h`
/// goes to.
pub fn PhdrFlagsOf(h: &Shdr) -> (r: u32)
    ensures
        r == spec_phdr_flags(*h),
{
    let mut ret: u32 = abi::PF_R;
    if h.Flags & abi::SHF_WRITE != 0 {
        ret = ret + abi::PF_W;
    }
    if h.Flags & abi::SHF_EXECINSTR != 0 {
        ret = ret + abi::PF_X;
    }
    ret
}

/// Whether a section with the header `h` occupies memory when the program
/// runs.
pub fn IsAllocShdr(h: &Shdr) -> (r: bool)
    ensures
        r == is_alloc(*h),
{
    h.Flags & abi::SHF_ALLOC != 0
}

/// Whether a section with the header `h` holds thread-local data.
pub fn IsTlsShdr(h: &Shdr) -> (r: bool)
    ensures
        r == is_tls(*h),
{
    h.Flags & abi::SHF_TLS != 0
}

/// Whether a section with the header `h` is zero-initialized data that is
/// not thread-local.
pub fn IsBssShdr(h: &Shdr) -> (r: bool)
    ensures
        r == is_bss(*h),
{
    h.Type == abi::SHT_NOBITS && h.Flags & abi::SHF_TLS == 0
}

/// Whether a section with the header `h` is zero-initialized thread-local
/// data.
pub fn IsTbssShdr(h: &Shdr) -> (r: bool)
    ensures
        r == is_tbss(*h),
{
    h.Type == abi::SHT_NOBITS && h.Flags & abi::SHF_TLS != 0
}

/// Whether a section with the header `h` is a note that is loaded.
pub fn IsNoteShdr(h: &Shdr) -> (r: bool)
    ensures
        r == is_note(*h),
{
    h.Type == abi::SHT_NOTE && h.Flags & abi::SHF_ALLOC != 0
}

/// A unit of the output: something with a name, a section header and a
/// place in the table of section headers.
pub trait Chunker {
    /// The name, header and index of the unit.
    spec fn chunk(&self) -> Chunk;

    fn GetShdr(&self) -> (r: Shdr)
        ensures
            r == self.chunk().Shdr,
    ;

    fn GetName(&self) -> (r: &Vec<u8>)
        ensures
            *r == self.chunk().Name,
    ;

    fn GetShndx(&self) -> (r: usize)
        ensures
            r == self.chunk().Shndx,
    ;

    /// The access flags of the segment that the unit goes to.
    fn toPhdrFlags(&self) -> (r: u32)
        ensures
            r == spec_phdr_flags(self.chunk().Shdr),
    {
        let h = self.GetShdr();
        PhdrFlagsOf(&h)
    }

    /// Whether the unit holds thread-local data.
    fn isTls(&self) -> (r: bool)
        ensures
            r == is_tls(self.chunk().Shdr),
    {
        let h = self.GetShdr();
        IsTlsShdr(&h)
    }

    /// Whether the unit is zero-initialized data that is not thread-local.
    fn isBss(&self) -> (r: bool)
        ensures
            r == is_bss(self.chunk().Shdr),
    {
        let h = self.GetShdr();
        IsBssShdr(&h)
    }

    /// Whether the unit is a note that is loaded.
    fn isNote(&self) -> (r: bool)
        ensures
            r == is_note(self.chunk().Shdr),
    {
        let h = self.GetShdr();
        IsNoteShdr(&h)
    }
}

impl Chunker for Chunk {
    open spec fn chunk(&self) -> Chunk {
        *self
    }

    fn GetShdr(&self) -> (r: Shdr) {
        self.Shdr
    }

    fn GetName(&self) -> (r: &Vec<u8>) {
        &self.Name
    }

    fn GetShndx(&self) -> (r: usize) {
        self.Shndx
    }
}

impl Chunker for OutputEhdr {
    open spec fn chunk(&self) -> Chunk {
        self.Chunk
    }

    fn GetShdr(&self) -> (r: Shdr) {
        self.Chunk.Shdr
    }

    fn GetName(&self) -> (r: &Vec<u8>) {
        &self.Chunk.Name
    }

    fn GetShndx(&self) -> (r: usize) {
        self.Chunk.Shndx
    }
}

impl Chunker for OutputShdr {
    open spec fn chunk(&self) -> Chunk {
        self.Chunk
    }

    fn GetShdr(&self) -> (r: Shdr) {
        self.Chunk.Shdr
    }

    fn GetName(&self) -> (r: &Vec<u8>) {
        &self.Chunk.Name
    }

    fn GetShndx(&self) -> (r: usize) {
        self.Chunk.Shndx
    }
}

impl Chunker for OutputPhdr {
    open spec fn chunk(&self) -> Chunk {
        self.Chunk
    }

    fn GetShdr(&self) -> (r: Shdr) {
        self.Chunk.Shdr
    }

    fn GetName(&self) -> (r: &Vec<u8>) {
        &self.Chunk.Name
    }

    fn GetShndx(&self) -> (r: usize) {
        self.Chunk.Shndx
    }
}

impl Chunker for OutputSection {
    open spec fn chunk(&self) -> Chunk {
        self.Chunk
    }

    fn GetShdr(&self) -> (r: Shdr) {
        self.Chunk.Shdr
    }

    fn GetName(&self) -> (r: &Vec<u8>) {
        &self.Chunk.Name
    }

    fn GetShndx(&self) -> (r: usize) {
        self.Chunk.Shndx
    }
}

impl Chunker for MergedSection {
    open spec fn chunk(&self) -> Chunk {
        self.Chunk
    }

    fn GetShdr(&self) -> (r: Shdr) {
        self.Chunk.Shdr
    }

    fn GetName(&self) -> (r: &Vec<u8>) {
        &self.Chunk.Name
    }

    fn GetShndx(&self) -> (r: usize) {
        self.Chunk.Shndx
    }
}

impl Chunker for GotSection {
    open spec fn chunk(&self) -> Chunk {
        self.Chunk
    }

    fn GetShdr(&self) -> (r: Shdr) {
        self.Chunk.Shdr
    }

    fn GetName(&self) -> (r: &Vec<u8>) {
        &self.Chunk.Name
    }

    fn GetShndx(&self) -> (r: usize) {
        self.Chunk.Shndx
    }
}

/// Whether the unit is zero-initialized thread-local data.
pub fn isTbss<C: Chunker>(chunk: &C) -> (r: bool)
    ensures
        r == is_tbss(chunk.chunk().Shdr),
{
    let h = chunk.GetShdr();
    IsTbssShdr(&h)
}

impl Context {
    /// Whether the context holds the chunk `id`.
    pub open spec fn has_chunk(&self, id: ChunkId) -> bool {
        match id {
            ChunkId::Output(i) => i < self.OutputSections@.len(),
            ChunkId::Merged(m) => m < self.MergedSections@.len(),
            _ => true,
        }
    }

    /// The name, header and index of the chunk `id`.
    pub open spec fn chunk_of(&self, id: ChunkId) -> Chunk {
        match id {
            ChunkId::Ehdr => self.Ehdr.Chunk,
            ChunkId::Phdr => self.Phdr.Chunk,
            ChunkId::Shdr => self.Shdr.Chunk,
            ChunkId::Got => self.Got.Chunk,
            ChunkId::Output(i) => self.OutputSections@[i as int].Chunk,
            ChunkId::Merged(m) => self.MergedSections@[m as int].Chunk,
        }
    }

    /// The section headers of the chunks, in the order of the list of
    /// chunks.
    pub open spec fn chunk_shdrs(&self) -> Seq<Shdr> {
        Seq::new(self.Chunks@.len(), |k: int| self.chunk_of(self.Chunks@[k]).Shdr)
    }

    /// The section header of the chunk `id`.
    pub fn ChunkShdr(&self, id: ChunkId) -> (r: Shdr)
        requires
            self.has_chunk(id),
        ensures
            r == self.chunk_of(id).Shdr,
    {
        match id {
            ChunkId::Ehdr => self.Ehdr.GetShdr(),
            ChunkId::Phdr => self.Phdr.GetShdr(),
            ChunkId::Shdr => self.Shdr.GetShdr(),
            ChunkId::Got => self.Got.GetShdr(),
            ChunkId::Output(i) => self.OutputSections[i].GetShdr(),
            ChunkId::Merged(m) => self.MergedSections[m].GetShdr(),
        }
    }

    /// The index of the chunk `id` in the table of section headers.
    pub fn ChunkShndx(&self, id: ChunkId) -> (r: usize)
        requires
            self.has_chunk(id),
        ensures
            r == self.chunk_of(id).Shndx,
    {
        match id {
            ChunkId::Ehdr => self.Ehdr.GetShndx(),
            ChunkId::Phdr => self.Phdr.GetShndx(),
            ChunkId::Shdr => self.Shdr.GetShndx(),
            ChunkId::Got => self.Got.GetShndx(),
            ChunkId::Output(i) => self.OutputSections[i].GetShndx(),
            ChunkId::Merged(m) => self.MergedSections[m].GetShndx(),
        }
    }

    /// The section headers of the chunks, in the order of the list of
    /// chunks.
    pub fn ChunkShdrs(&self) -> (r: Vec<Shdr>)
        requires
            self.chunks_ok(),
        ensures
            r@ == self.chunk_shdrs(),
    {
        let n: usize = self.Chunks.len();
        let mut out: Vec<Shdr> = Vec::with_capacity(n);
        let mut k: usize = 0;
        while k < n
            invariant
                k <= n,
                n == self.Chunks@.len(),
                self.chunks_ok(),
                out@.len() == k,
                forall|j: int| 0 <= j < k ==> out@[j] == self.chunk_of(self.Chunks@[j]).Shdr,
            decreases n - k,
        {
            let id = self.Chunks[k];
            assert(self.has_chunk(id));
            out.push(self.ChunkShdr(id));
            k = k + 1;
        }
        assert(out@ =~= self.chunk_shdrs());
        out
    }
}

} // verus!
