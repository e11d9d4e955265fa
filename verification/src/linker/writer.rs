//! Writing the chunks into the output buffer.
use vstd::prelude::*;
use crate::linker::abi;
use crate::linker::context::{Context, lemma_wf_parts};
use crate::linker::elf::{Ehdr, Phdr, Shdr, MAGIC};
use crate::linker::error::LinkError;
use crate::linker::inputsections::InputSection;
use crate::linker::mergedsection::{MergedEntry, MergedSection};
use crate::linker::output::{
    ChunkId, GetEntryAddr, GetFlags, OutputEhdr, OutputPhdr, OutputSection, OutputShdr,
    spec_entry_addr, spec_flags,
};
use crate::linker::relocation::Position;
use crate::utils::{WriteBytes, overwrite, starts_with, bytes_of_u16, bytes_of_u32, bytes_of_u64};

verus! {

impl Context {
    /// Whether the tables of program headers and of section headers have
    /// few enough entries for the file header to count them.
    pub open spec fn header_counts_fit(&self) -> bool {
        self.Phdr.Chunk.Shdr.Size / 56 <= 0xffff && self.Shdr.Chunk.Shdr.Size / 64 <= 0xffff
    }

    /// Whether `e` is the file header of the output: a 64-bit
    /// little-endian executable for RISC-V that starts at the address of
    /// `.text`, with the tables of headers where their chunks are and as
    /// long as their chunks are.
    pub open spec fn is_output_ehdr(&self, e: Ehdr) -> bool {
        &&& e.Ident@ == MAGIC() + seq![2u8, 1u8, 1u8, 0u8, 0u8, 0u8, 0u8, 0u8, 0u8, 0u8, 0u8, 0u8]
        &&& e.Type == abi::ET_EXEC
        &&& e.Machine == abi::EM_RISCV
        &&& e.Version == 1
        &&& e.Entry == spec_entry_addr(self.OutputSections@, 0)
        &&& e.PhOff == self.Phdr.Chunk.Shdr.Offset
        &&& e.ShOff == self.Shdr.Chunk.Shdr.Offset
        &&& e.Flags == spec_flags(self.Objs@, self.Objs@.len() as int)
        &&& e.EhSize == 64
        &&& e.PhEntSize == 56
        &&& e.PhNum == self.Phdr.Chunk.Shdr.Size / 56
        &&& e.ShEntSize == 64
        &&& e.ShNum == self.Shdr.Chunk.Shdr.Size / 64
        &&& e.ShStrndx == 0
    }
}

impl OutputEhdr {
    /// The file header of the output. Tables of headers with more than
    /// 65535 entries do not fit.
    pub fn Build(ctx: &Context) -> (r: Result<Ehdr, LinkError>)
        ensures
            r is Ok <==> ctx.header_counts_fit(),
            r is Ok ==> ctx.is_output_ehdr(r.unwrap()),
            r is Err ==> r == Err::<Ehdr, LinkError>(LinkError::TooLarge),
    {
        let phnum: u64 = ctx.Phdr.Chunk.Shdr.Size / 56;
        let shnum: u64 = ctx.Shdr.Chunk.Shdr.Size / 64;
        if phnum > 0xffff || shnum > 0xffff {
            return Err(LinkError::TooLarge);
        }
        let mut e = Ehdr::zero();
        let mut id: [u8; 16] = [0u8; 16];
        id[0] = 0x7f;
        id[1] = 0x45;
        id[2] = 0x4c;
        id[3] = 0x46;
        id[abi::EI_CLASS] = abi::ELFCLASS64;
        id[abi::EI_DATA] = abi::ELFDATA2LSB;
        id[abi::EI_VERSION] = abi::EV_CURRENT;
        id[abi::EI_OSABI] = 0;
        id[abi::EI_ABIVERSION] = 0;
        assert(id@ =~= MAGIC() + seq![2u8, 1u8, 1u8, 0u8, 0u8, 0u8, 0u8, 0u8, 0u8, 0u8, 0u8, 0u8]);
        e.Ident = id;
        e.Type = abi::ET_EXEC;
        e.Machine = abi::EM_RISCV;
        e.Version = abi::EV_CURRENT as u32;
        e.Entry = GetEntryAddr(ctx);
        e.PhOff = ctx.Phdr.Chunk.Shdr.Offset;
        e.ShOff = ctx.Shdr.Chunk.Shdr.Offset;
        e.Flags = GetFlags(ctx);
        e.EhSize = 64;
        e.PhEntSize = 56;
        e.PhNum = phnum as u16;
        e.ShEntSize = 64;
        e.ShNum = shnum as u16;
        Ok(e)
    }

    /// Writes the file header of the output at the start of `buf`. A
    /// buffer of less than 64 bytes, or tables of headers with more than
    /// 65535 entries, are an error and leave `buf` as it is.
    pub fn CopyBuf(ctx: &Context, buf: &mut Vec<u8>) -> (r: Result<(), LinkError>)
        ensures
            final(buf)@.len() == old(buf)@.len(),
            r is Ok <==> ctx.header_counts_fit() && old(buf)@.len() >= 64,
            r is Ok ==> final(buf)@ == overwrite(old(buf)@, 0, ctx.ehdr_bytes()),
            r is Ok ==> starts_with(final(buf)@, MAGIC()),
            r is Err ==> r == Err::<(), LinkError>(LinkError::TooLarge) && final(buf)@ == old(buf)@,
    {
        if buf.len() < 64 {
            return Err(LinkError::TooLarge);
        }
        let e = match OutputEhdr::Build(ctx) {
            Ok(e) => e,
            Err(x) => {
                return Err(LinkError::TooLarge);
            },
        };
        e.Write(buf, 0);
        proof {
            lemma_ehdr_bytes(*ctx, e);
            let b = e.bytes();
            assert(b.len() >= 16);
            assert(buf@.subrange(0, 4) =~= MAGIC()) by {
                assert(b[0] == e.Ident@[0] && b[1] == e.Ident@[1] && b[2] == e.Ident@[2] && b[3]
                    == e.Ident@[3]);
            }
        }
        Ok(())
    }
}

/// The section header table describes as many bytes as the file header
/// says: where the size of a table of headers is a whole number of
/// entries, the number of entries in the file header times the size of an
/// entry is the size of the chunk, for section headers and for program
/// headers alike.
pub proof fn lemma_header_counts(ctx: Context, e: Ehdr)
    requires
        ctx.is_output_ehdr(e),
        ctx.header_counts_fit(),
        ctx.Shdr.Chunk.Shdr.Size % 64 == 0,
        ctx.Phdr.Chunk.Shdr.Size % 56 == 0,
    ensures
        e.ShNum * e.ShEntSize == ctx.Shdr.Chunk.Shdr.Size,
        e.PhNum * e.PhEntSize == ctx.Phdr.Chunk.Shdr.Size,
{
}

/// The bytes `buf` after the first `upto` of the program headers `phdrs`
/// were written from `base` on, one behind the other.
pub open spec fn phdrs_written(buf: Seq<u8>, base: int, phdrs: Seq<Phdr>, upto: int) -> Seq<u8>
    decreases upto,
{
    if upto <= 0 {
        buf
    } else {
        overwrite(
            phdrs_written(buf, base, phdrs, upto - 1),
            base + 56 * (upto - 1),
            phdrs[upto - 1].bytes(),
        )
    }
}

impl OutputPhdr {
    /// Writes the program headers into `buf` at the file offset of their
    /// table, one behind the other. Headers that do not fit in `buf` are
    /// an error and leave `buf` as it is.
    pub fn CopyBuf(&self, buf: &mut Vec<u8>) -> (r: Result<(), LinkError>)
        ensures
            final(buf)@.len() == old(buf)@.len(),
            r is Ok <==> self.Chunk.Shdr.Offset + 56 * self.Phdrs@.len() <= old(buf)@.len(),
            r is Ok ==> final(buf)@ == phdrs_written(
                old(buf)@,
                self.Chunk.Shdr.Offset as int,
                self.Phdrs@,
                self.Phdrs@.len() as int,
            ),
            r is Err ==> r == Err::<(), LinkError>(LinkError::TooLarge) && final(buf)@ == old(buf)@,
    {
        let n: usize = self.Phdrs.len();
        let len: usize = buf.len();
        if self.Chunk.Shdr.Offset > len as u64 {
            return Err(LinkError::TooLarge);
        }
        let base: usize = self.Chunk.Shdr.Offset as usize;
        if n > (len - base) / 56 {
            return Err(LinkError::TooLarge);
        }
        let mut k: usize = 0;
        while k < n
            invariant
                k <= n,
                n == self.Phdrs@.len(),
                base == self.Chunk.Shdr.Offset,
                base + 56 * n <= len,
                buf@.len() == len,
                len == old(buf)@.len(),
                buf@ == phdrs_written(old(buf)@, base as int, self.Phdrs@, k as int),
            decreases n - k,
        {
            self.Phdrs[k].Write(buf, base + 56 * k);
            k = k + 1;
        }
        Ok(())
    }
}

impl Context {
    /// The bytes `buf` after the section headers of the first `upto`
    /// chunks were written into the table at `base`: the header of every
    /// chunk with an index above 0, at the place of its index.
    pub open spec fn shdrs_written(&self, buf: Seq<u8>, base: int, upto: int) -> Seq<u8>
        decreases upto,
    {
        if upto <= 0 {
            buf
        } else {
            let prev = self.shdrs_written(buf, base, upto - 1);
            let c = self.chunk_of(self.Chunks@[upto - 1]);
            if c.Shndx > 0 {
                overwrite(prev, base + 64 * c.Shndx, c.Shdr.bytes())
            } else {
                prev
            }
        }
    }

    /// Whether the header of every one of the first `upto` chunks with an
    /// index above 0 lies inside a buffer of `len` bytes that holds the
    /// table at `base`.
    pub open spec fn shdrs_fit(&self, len: int, base: int, upto: int) -> bool {
        forall|k: int|
            0 <= k < upto && (#[trigger] self.chunk_of(self.Chunks@[k])).Shndx > 0 ==> base + 64
                * self.chunk_of(self.Chunks@[k]).Shndx + 64 <= len
    }
}

impl OutputShdr {
    /// Writes the table of section headers into `buf` at its file offset:
    /// a header of zeros at index 0, and the header of every chunk that
    /// has an index above 0 at that index. Stops at the first header that
    /// does not fit in `buf`.
    pub fn CopyBuf(ctx: &Context, buf: &mut Vec<u8>) -> (r: Result<(), LinkError>)
        requires
            ctx.wf(),
        ensures
            final(buf)@.len() == old(buf)@.len(),
            r is Ok <==> ctx.Shdr.Chunk.Shdr.Offset + 64 <= old(buf)@.len() && ctx.shdrs_fit(
                old(buf)@.len() as int,
                ctx.Shdr.Chunk.Shdr.Offset as int,
                ctx.Chunks@.len() as int,
            ),
            r is Ok ==> final(buf)@ == ctx.shdrs_written(
                overwrite(old(buf)@, ctx.Shdr.Chunk.Shdr.Offset as int, Shdr::zero().bytes()),
                ctx.Shdr.Chunk.Shdr.Offset as int,
                ctx.Chunks@.len() as int,
            ),
            r is Err ==> r == Err::<(), LinkError>(LinkError::TooLarge),
    {
        proof {
            lemma_wf_parts(*ctx);
        }
        let len: usize = buf.len();
        let base: usize = match Position(len, 0, ctx.Shdr.Chunk.Shdr.Offset, 64) {
            Some(v) => v,
            None => {
                return Err(LinkError::TooLarge);
            },
        };
        let zero = Shdr::default();
        zero.Write(buf, base);
        let ghost start = buf@;
        let n: usize = ctx.Chunks.len();
        let mut k: usize = 0;
        while k < n
            invariant
                k <= n,
                n == ctx.Chunks@.len(),
                ctx.chunks_ok(),
                base == ctx.Shdr.Chunk.Shdr.Offset,
                base + 64 <= len,
                buf@.len() == len,
                len == old(buf)@.len(),
                start == overwrite(old(buf)@, base as int, Shdr::zero().bytes()),
                ctx.shdrs_fit(len as int, base as int, k as int),
                buf@ == ctx.shdrs_written(start, base as int, k as int),
            decreases n - k,
        {
            let id = ctx.Chunks[k];
            assert(ctx.has_chunk(id));
            let x: usize = ctx.ChunkShndx(id);
            if x > 0 {
                if x > (len - base) / 64 || (len - base) - 64 * x < 64 {
                    assert(!ctx.shdrs_fit(len as int, base as int, n as int)) by {
                        if ctx.shdrs_fit(len as int, base as int, n as int) {
                            assert(ctx.chunk_of(ctx.Chunks@[k as int]).Shndx > 0);
                        }
                    }
                    return Err(LinkError::TooLarge);
                }
                let h = ctx.ChunkShdr(id);
                h.Write(buf, base + 64 * x);
            }
            k = k + 1;
        }
        Ok(())
    }
}

/// The bytes `buf` after the first `upto` entries of `map` were written
/// into the merged section at `base`, each at its offset.
pub open spec fn fragments_written(buf: Seq<u8>, base: int, map: Seq<MergedEntry>, upto: int) -> Seq<
    u8,
>
    decreases upto,
{
    if upto <= 0 {
        buf
    } else {
        overwrite(
            fragments_written(buf, base, map, upto - 1),
            base + map[upto - 1].Frag.Offset,
            map[upto - 1].Key@,
        )
    }
}

/// Whether the first `upto` entries of `map` lie inside a buffer of `len`
/// bytes that holds their section at `base`.
pub open spec fn fragments_fit(len: int, base: int, map: Seq<MergedEntry>, upto: int) -> bool {
    forall|k: int|
        0 <= k < upto ==> base + (#[trigger] map[k]).Frag.Offset + map[k].Key@.len() <= len
}

impl MergedSection {
    /// Writes the pieces of the merged section into `buf`, each at its
    /// offset behind the file offset of the section. Stops at the first
    /// piece that does not fit in `buf`.
    pub fn CopyBuf(&self, buf: &mut Vec<u8>) -> (r: Result<(), LinkError>)
        ensures
            final(buf)@.len() == old(buf)@.len(),
            r is Ok <==> fragments_fit(
                old(buf)@.len() as int,
                self.Chunk.Shdr.Offset as int,
                self.Map@,
                self.Map@.len() as int,
            ),
            r is Ok ==> final(buf)@ == fragments_written(
                old(buf)@,
                self.Chunk.Shdr.Offset as int,
                self.Map@,
                self.Map@.len() as int,
            ),
            r is Err ==> r == Err::<(), LinkError>(LinkError::TooLarge),
    {
        let n: usize = self.Map.len();
        let len: usize = buf.len();
        let ghost base = self.Chunk.Shdr.Offset as int;
        let mut k: usize = 0;
        while k < n
            invariant
                k <= n,
                n == self.Map@.len(),
                base == self.Chunk.Shdr.Offset,
                buf@.len() == len,
                len == old(buf)@.len(),
                fragments_fit(len as int, base, self.Map@, k as int),
                buf@ == fragments_written(old(buf)@, base, self.Map@, k as int),
            decreases n - k,
        {
            let e = &self.Map[k];
            let klen: usize = e.Key.len();
            let at: Option<usize> = if self.Chunk.Shdr.Offset > len as u64 {
                None
            } else {
                Position(len, self.Chunk.Shdr.Offset as usize, e.Frag.Offset as u64, klen)
            };
            match at {
                Some(p) => {
                    WriteBytes(buf, p, e.Key.as_slice());
                },
                None => {
                    assert(!fragments_fit(len as int, base, self.Map@, n as int)) by {
                        if fragments_fit(len as int, base, self.Map@, n as int) {
                            assert(base + self.Map@[k as int].Frag.Offset
                                + self.Map@[k as int].Key@.len() <= len);
                        }
                    }
                    return Err(LinkError::TooLarge);
                },
            }
            k = k + 1;
        }
        Ok(())
    }
}

impl Context {
    /// The bytes `buf` after the first `upto` members of the output
    /// section at `i` were written, each at its offset behind the file
    /// offset of the section; the error of the first that fails.
    pub open spec fn members_written(&self, i: int, buf: Seq<u8>, upto: int) -> Result<
        Seq<u8>,
        LinkError,
    >
        decreases upto,
    {
        if upto <= 0 {
            Ok(buf)
        } else {
            match self.members_written(i, buf, upto - 1) {
                Err(e) => Err(e),
                Ok(b) => {
                    let m = self.OutputSections@[i].Members@[upto - 1];
                    let sec = self.Objs@[m.Obj as int].Sections@[m.Sec as int].unwrap();
                    let base = self.OutputSections@[i].Chunk.Shdr.Offset + sec.Offset;
                    if base > b.len() {
                        Err(LinkError::TooLarge)
                    } else {
                        self.section_written(m.Obj as int, m.Sec as int, b, base)
                    }
                },
            }
        }
    }

    /// The bytes `buf` after the output section at `i` was written: as
    /// they are for a section without bits in the file; else with every
    /// member written.
    pub open spec fn output_written(&self, i: int, buf: Seq<u8>) -> Result<Seq<u8>, LinkError> {
        if self.OutputSections@[i].Chunk.Shdr.Type == abi::SHT_NOBITS {
            Ok(buf)
        } else {
            self.members_written(i, buf, self.OutputSections@[i].Members@.len() as int)
        }
    }
}

proof fn lemma_members_fail(ctx: Context, i: int, buf: Seq<u8>, k: int, n: int)
    requires
        0 <= k <= n,
        ctx.members_written(i, buf, k) is Err,
    ensures
        ctx.members_written(i, buf, n) == ctx.members_written(i, buf, k),
    decreases n - k,
{
    if k < n {
        lemma_members_fail(ctx, i, buf, k, n - 1);
    }
}

impl OutputSection {
    /// Writes the output section at `i` into `buf`: every member at its
    /// offset behind the file offset of the section, with its relocations
    /// applied. A section without bits in the file writes nothing. Stops
    /// at the first member that fails.
    pub fn CopyBuf(ctx: &Context, i: usize, buf: &mut Vec<u8>) -> (r: Result<(), LinkError>)
        requires
            ctx.wf(),
            i < ctx.OutputSections@.len(),
        ensures
            final(buf)@.len() == old(buf)@.len(),
            match ctx.output_written(i as int, old(buf)@) {
                Ok(b) => r is Ok && final(buf)@ == b,
                Err(e) => r == Err::<(), LinkError>(e),
            },
    {
        proof {
            lemma_wf_parts(*ctx);
        }
        let osec = &ctx.OutputSections[i];
        if osec.Chunk.Shdr.Type == abi::SHT_NOBITS {
            return Ok(());
        }
        let n: usize = osec.Members.len();
        let len: usize = buf.len();
        let mut k: usize = 0;
        while k < n
            invariant
                k <= n,
                i < ctx.OutputSections@.len(),
                n == ctx.OutputSections@[i as int].Members@.len(),
                *osec == ctx.OutputSections@[i as int],
                osec.Chunk.Shdr.Type != abi::SHT_NOBITS,
                ctx.wf(),
                ctx.outputs_ok(),
                buf@.len() == len,
                len == old(buf)@.len(),
                ctx.members_written(i as int, old(buf)@, k as int) == Ok::<Seq<u8>, LinkError>(buf@),
            decreases n - k,
        {
            let m = osec.Members[k];
            assert(ctx.section_exists(m.Obj as int, m.Sec as int));
            let off: u64 = match &ctx.Objs[m.Obj].Sections[m.Sec] {
                Some(sec) => sec.Offset,
                None => 0,
            };
            let start: u64 = osec.Chunk.Shdr.Offset;
            if start > len as u64 || off > len as u64 - start {
                proof {
                    assert(ctx.members_written(i as int, old(buf)@, k + 1) == Err::<
                        Seq<u8>,
                        LinkError,
                    >(LinkError::TooLarge));
                    lemma_members_fail(*ctx, i as int, old(buf)@, k + 1, n as int);
                }
                return Err(LinkError::TooLarge);
            }
            let base: usize = (start + off) as usize;
            let ghost before = buf@;
            match InputSection::WriteTo(ctx, m.Obj, m.Sec, buf, base) {
                Ok(()) => {},
                Err(e) => {
                    proof {
                        assert(ctx.members_written(i as int, old(buf)@, k + 1)
                            == ctx.section_written(m.Obj as int, m.Sec as int, before, base as int));
                        lemma_members_fail(*ctx, i as int, old(buf)@, k + 1, n as int);
                    }
                    return Err(e);
                },
            }
            k = k + 1;
        }
        Ok(())
    }
}

impl Context {
    /// The 64 bytes of the file header of the output.
    pub open spec fn ehdr_bytes(&self) -> Seq<u8> {
        MAGIC() + seq![2u8, 1u8, 1u8, 0u8, 0u8, 0u8, 0u8, 0u8, 0u8, 0u8, 0u8, 0u8] + bytes_of_u16(
            abi::ET_EXEC,
        ) + bytes_of_u16(abi::EM_RISCV) + bytes_of_u32(1) + bytes_of_u64(
            spec_entry_addr(self.OutputSections@, 0),
        ) + bytes_of_u64(self.Phdr.Chunk.Shdr.Offset) + bytes_of_u64(self.Shdr.Chunk.Shdr.Offset)
            + bytes_of_u32(spec_flags(self.Objs@, self.Objs@.len() as int)) + bytes_of_u16(64)
            + bytes_of_u16(56) + bytes_of_u16((self.Phdr.Chunk.Shdr.Size / 56) as u16)
            + bytes_of_u16(64) + bytes_of_u16((self.Shdr.Chunk.Shdr.Size / 64) as u16)
            + bytes_of_u16(0)
    }

    /// The bytes `buf` after the chunk `id` was written; the error where
    /// the chunk does not fit or a relocation fails.
    pub open spec fn chunk_written(&self, id: ChunkId, buf: Seq<u8>) -> Result<Seq<u8>, LinkError> {
        match id {
            ChunkId::Ehdr => if self.header_counts_fit() && buf.len() >= 64 {
                Ok(overwrite(buf, 0, self.ehdr_bytes()))
            } else {
                Err(LinkError::TooLarge)
            },
            ChunkId::Phdr => if self.Phdr.Chunk.Shdr.Offset + 56 * self.Phdr.Phdrs@.len()
                <= buf.len() {
                Ok(
                    phdrs_written(
                        buf,
                        self.Phdr.Chunk.Shdr.Offset as int,
                        self.Phdr.Phdrs@,
                        self.Phdr.Phdrs@.len() as int,
                    ),
                )
            } else {
                Err(LinkError::TooLarge)
            },
            ChunkId::Shdr => if self.Shdr.Chunk.Shdr.Offset + 64 <= buf.len() && self.shdrs_fit(
                buf.len() as int,
                self.Shdr.Chunk.Shdr.Offset as int,
                self.Chunks@.len() as int,
            ) {
                Ok(
                    self.shdrs_written(
                        overwrite(buf, self.Shdr.Chunk.Shdr.Offset as int, Shdr::zero().bytes()),
                        self.Shdr.Chunk.Shdr.Offset as int,
                        self.Chunks@.len() as int,
                    ),
                )
            } else {
                Err(LinkError::TooLarge)
            },
            ChunkId::Got => Ok(buf),
            ChunkId::Output(i) => self.output_written(i as int, buf),
            ChunkId::Merged(m) => if fragments_fit(
                buf.len() as int,
                self.MergedSections@[m as int].Chunk.Shdr.Offset as int,
                self.MergedSections@[m as int].Map@,
                self.MergedSections@[m as int].Map@.len() as int,
            ) {
                Ok(
                    fragments_written(
                        buf,
                        self.MergedSections@[m as int].Chunk.Shdr.Offset as int,
                        self.MergedSections@[m as int].Map@,
                        self.MergedSections@[m as int].Map@.len() as int,
                    ),
                )
            } else {
                Err(LinkError::TooLarge)
            },
        }
    }

    /// The bytes `buf` after the first `upto` chunks of the list of chunks
    /// were written, in their order; the error of the first that fails.
    pub open spec fn chunks_written(&self, buf: Seq<u8>, upto: int) -> Result<Seq<u8>, LinkError>
        decreases upto,
    {
        if upto <= 0 {
            Ok(buf)
        } else {
            match self.chunks_written(buf, upto - 1) {
                Err(e) => Err(e),
                Ok(b) => self.chunk_written(self.Chunks@[upto - 1], b),
            }
        }
    }
}

/// The file header of an output is determined by the output: two headers
/// of the same context have the same bytes.
pub proof fn lemma_ehdr_bytes(ctx: Context, e: Ehdr)
    requires
        ctx.is_output_ehdr(e),
    ensures
        e.bytes() == ctx.ehdr_bytes(),
{
    assert(e.bytes() =~= ctx.ehdr_bytes());
}

/// Writing chunks that fail at one chunk fails as a whole, with the error
/// of that chunk.
pub proof fn lemma_chunks_fail(ctx: Context, buf: Seq<u8>, k: int, n: int)
    requires
        0 <= k <= n,
        ctx.chunks_written(buf, k) is Err,
    ensures
        ctx.chunks_written(buf, n) == ctx.chunks_written(buf, k),
    decreases n - k,
{
    if k < n {
        lemma_chunks_fail(ctx, buf, k, n - 1);
    }
}

} // verus!
