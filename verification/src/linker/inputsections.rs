//! Input sections, and the splitting of mergeable sections into pieces.
use vstd::prelude::*;
use crate::linker::abi;
use crate::linker::elf::{Rela, Shdr};
use crate::linker::error::LinkError;
use crate::linker::context::{
    Context, lemma_sections_same, merged_key, output_key, sections_added,
};
use crate::linker::mergedsection::MergedSection;
use crate::linker::output::merged_flags;
use crate::linker::file::in_file;
use crate::linker::file::section_bytes;
use crate::linker::objectfile::Objectfile;
use crate::linker::output::{GetOutputSection, spec_output_name, output_flags};
use crate::linker::symbol::{FragmentRef, wrap_add};
use crate::utils::Slice;

verus! {

/// The sentinel for "no relocation section" and "no offset assigned yet".
pub const NONE_IDX: usize = usize::MAX;

/// A section of one input object. `Shndx` is its position in the object,
/// `OutputSection` the position in the context of the output section it
/// goes to, `Offset` its place in that output section once sizes are
/// computed, `RelsecIdx` the position in the object of the section that
/// holds its relocations.
#[derive(Debug)]
pub struct InputSection {
    pub Contents: Vec<u8>,
    pub Shndx: usize,
    pub ShSize: u64,
    pub IsAlive: bool,
    pub P2Align: u8,
    pub Offset: u64,
    pub OutputSection: usize,
    pub RelsecIdx: usize,
    pub Rels: Vec<Rela>,
}

/// A mergeable input section, split into pieces. `Parent` is the position
/// in the context of the merged section that the pieces go to; piece `k` is
/// `Strs[k]`, started at `FragOffset[k]` in the section, and is fragment
/// `Fragments[k]` of the parent once the pieces are registered.
#[derive(Debug)]
pub struct MergeableSection {
    pub Parent: usize,
    pub P2Align: u8,
    pub Strs: Vec<Vec<u8>>,
    pub FragOffset: Vec<u32>,
    pub Fragments: Vec<usize>,
}

/// One deduplicated piece of a merged section. `OutputSection` is the
/// position in the context of the merged section that owns it, `Offset` its
/// place in that section once offsets are assigned.
#[derive(Clone, Copy, Debug, PartialEq, Eq, Structural)]
pub struct SectionFragment {
    pub OutputSection: usize,
    pub Offset: u32,
    pub P2Align: u8,
    pub IsAlive: bool,
}

/// The base-2 logarithm of the largest power of two that divides `align`;
/// 0 for an alignment of 0.
pub open spec fn spec_p2align(align: u64) -> u8 {
    if align == 0 {
        0
    } else {
        vstd::std_specs::bits::u64_trailing_zeros(align) as u8
    }
}

/// The base-2 logarithm of the largest power of two that divides `align`;
/// 0 for an alignment of 0.
pub fn P2AlignOf(align: u64) -> (r: u8)
    ensures
        r == spec_p2align(align),
        r < 64,
{
    if align == 0 {
        return 0;
    }
    proof {
        vstd::std_specs::bits::axiom_u64_trailing_zeros(align);
    }
    align.trailing_zeros() as u8
}

impl SectionFragment {
    /// A fragment of the merged section at `m` that has no offset yet.
    pub fn new(m: usize) -> (r: SectionFragment)
        ensures
            r == (SectionFragment { OutputSection: m, Offset: u32::MAX, P2Align: 0, IsAlive: false }),
    {
        SectionFragment { OutputSection: m, Offset: u32::MAX, P2Align: 0, IsAlive: false }
    }
}

impl MergeableSection {
    /// The invariant of the pieces: as many offsets as pieces, the first
    /// piece at 0, every piece directly behind the one before it.
    pub open spec fn pieces_wf(&self) -> bool {
        &&& self.Strs@.len() == self.FragOffset@.len()
        &&& forall|k: int|
            0 <= k < self.Strs@.len() ==> (#[trigger] self.FragOffset@[k]) as int == pieces_len(
                self.Strs@,
                k,
            )
    }

    /// A mergeable section without pieces.
    pub fn new() -> (r: MergeableSection)
        ensures
            r.Parent == 0,
            r.P2Align == 0,
            r.Strs@.len() == 0,
            r.FragOffset@.len() == 0,
            r.Fragments@.len() == 0,
            r.pieces_wf(),
    {
        MergeableSection {
            Parent: 0,
            P2Align: 0,
            Strs: Vec::new(),
            FragOffset: Vec::new(),
            Fragments: Vec::new(),
        }
    }

    /// The position of the piece that holds the byte at `offset` of the
    /// section: the last piece that starts at or before it.
    pub open spec fn piece_of(&self, offset: u32) -> Option<int> {
        let pos = first_above(self.FragOffset@, offset, 0);
        if pos == 0 {
            None
        } else {
            Some(pos - 1)
        }
    }

    /// The fragment that holds the byte at `offset` of the section, and how
    /// far into the fragment that byte lies. No fragment where the section
    /// has no piece that starts at or before `offset`.
    pub fn GetFragment(&self, offset: u32) -> (r: (Option<FragmentRef>, u32))
        requires
            self.Fragments@.len() == self.FragOffset@.len(),
        ensures
            self.piece_of(offset) is None ==> r.0 is None && r.1 == 0,
            self.piece_of(offset) matches Some(k) ==> {
                &&& 0 <= k < self.Fragments@.len()
                &&& r.0 == Some(FragmentRef { Section: self.Parent, Index: self.Fragments@[k] })
                &&& r.1 == offset - self.FragOffset@[k]
                &&& self.FragOffset@[k] <= offset
            },
    {
        let n: usize = self.FragOffset.len();
        let mut pos: usize = 0;
        while pos < n && !(offset < self.FragOffset[pos])
            invariant
                pos <= n,
                n == self.FragOffset@.len(),
                first_above(self.FragOffset@, offset, 0) == first_above(
                    self.FragOffset@,
                    offset,
                    pos as int,
                ),
                forall|j: int| 0 <= j < pos ==> self.FragOffset@[j] <= offset,
            decreases n - pos,
        {
            pos = pos + 1;
        }
        if pos == 0 {
            return (None, 0);
        }
        let idx: usize = pos - 1;
        (
            Some(FragmentRef { Section: self.Parent, Index: self.Fragments[idx] }),
            offset - self.FragOffset[idx],
        )
    }
}

/// The first position at or after `from` whose offset lies above `offset`;
/// the length of `offsets` where there is none.
pub open spec fn first_above(offsets: Seq<u32>, offset: u32, from: int) -> int
    decreases offsets.len() - from,
{
    if from >= offsets.len() || offset < offsets[from] {
        from
    } else {
        first_above(offsets, offset, from + 1)
    }
}

/// How many bytes the first `k` pieces hold together.
pub open spec fn pieces_len(pieces: Seq<Vec<u8>>, k: int) -> int
    decreases k,
{
    if k <= 0 {
        0
    } else {
        pieces_len(pieces, k - 1) + pieces[k - 1]@.len()
    }
}

/// Whether the `n` bytes of `s` from `from` on are all zero.
pub open spec fn all_zero(s: Seq<u8>, from: int, n: int) -> bool {
    forall|k: int| from <= k < from + n ==> s[k] == 0
}

/// Where the terminator of the string that starts at `from` stands: the
/// first run of `ent` zero bytes at a distance from `from` that is a
/// multiple of `ent`. `None` where the data ends before one is found.
pub open spec fn spec_find_null(s: Seq<u8>, ent: int, from: int) -> Option<int>
    decreases s.len() - from,
{
    if ent <= 0 || from < 0 || from + ent > s.len() {
        None
    } else if all_zero(s, from, ent) {
        Some(from)
    } else {
        spec_find_null(s, ent, from + ent)
    }
}

/// Whether the `n` bytes of `data` from `from` on are all zero.
fn AllZero(data: &[u8], from: usize, n: usize) -> (r: bool)
    requires
        from + n <= data.len(),
    ensures
        r == all_zero(data@, from as int, n as int),
{
    let mut k: usize = 0;
    while k < n
        invariant
            k <= n,
            from + n <= data.len(),
            forall|j: int| from <= j < from + k ==> data@[j] == 0,
        decreases n - k,
    {
        if data[from + k] != 0 {
            return false;
        }
        k = k + 1;
    }
    true
}

/// Where the string that starts `data` ends: the offset of the first
/// character of `entSize` bytes that is all zero. `None` where no character
/// is, or where `entSize` is 0.
pub fn FindNull(data: &[u8], entSize: usize) -> (r: Option<usize>)
    ensures
        r is Some <==> spec_find_null(data@, entSize as int, 0) is Some,
        r is Some ==> r.unwrap() == spec_find_null(data@, entSize as int, 0).unwrap(),
{
    FindNullFrom(data, entSize, 0)
}

/// Where the string that starts at `from` in `data` ends, as an offset
/// into `data`.
pub fn FindNullFrom(data: &[u8], entSize: usize, from: usize) -> (r: Option<usize>)
    ensures
        r is Some <==> spec_find_null(data@, entSize as int, from as int) is Some,
        r is Some ==> r.unwrap() == spec_find_null(data@, entSize as int, from as int).unwrap(),
        r is Some ==> from <= r.unwrap() && r.unwrap() + entSize <= data.len(),
{
    if entSize == 0 {
        return None;
    }
    let n: usize = data.len();
    let mut i: usize = from;
    while i <= n && n - i >= entSize
        invariant
            from <= i,
            n == data.len(),
            entSize > 0,
            spec_find_null(data@, entSize as int, from as int) == spec_find_null(
                data@,
                entSize as int,
                i as int,
            ),
        decreases n - i,
    {
        if AllZero(data, i, entSize) {
            return Some(i);
        }
        i = i + entSize;
    }
    None
}

/// Whether `pieces` and `offsets` are `data` cut into pieces: the pieces
/// follow each other without gap from the first byte to the last, and each
/// is what the kind of section asks for. In a section of strings a piece
/// runs up to and through the first terminator behind its start; in a
/// section of constants a piece is `ent` bytes.
pub open spec fn is_split(
    data: Seq<u8>,
    strings: bool,
    ent: int,
    pieces: Seq<Vec<u8>>,
    offsets: Seq<u32>,
) -> bool {
    &&& pieces.len() == offsets.len()
    &&& pieces_len(pieces, pieces.len() as int) == data.len()
    &&& forall|k: int|
        0 <= k < pieces.len() ==> {
            &&& (#[trigger] offsets[k]) as int == pieces_len(pieces, k)
            &&& pieces[k]@ == data.subrange(offsets[k] as int, offsets[k] + pieces[k]@.len())
            &&& offsets[k] + pieces[k]@.len() <= data.len()
            &&& if strings {
                spec_find_null(data, ent, offsets[k] as int) == Some(
                    offsets[k] + pieces[k]@.len() - ent,
                )
            } else {
                pieces[k]@.len() == ent
            }
        }
}

/// Whether `data` can be cut into pieces: the character size is not 0; a
/// section of strings ends in a terminator, a section of constants holds a
/// whole number of them; and every piece starts below 2^32.
pub open spec fn splits(data: Seq<u8>, strings: bool, ent: int, from: int) -> bool
    decreases data.len() - from,
{
    if ent <= 0 || from < 0 {
        false
    } else if from >= data.len() {
        true
    } else if from > u32::MAX {
        false
    } else if strings {
        let end = spec_find_null(data, ent, from);
        if end is Some && from <= end.unwrap() && end.unwrap() + ent <= data.len() {
            splits(data, strings, ent, end.unwrap() + ent)
        } else {
            false
        }
    } else {
        from + ent <= data.len() && splits(data, strings, ent, from + ent)
    }
}

proof fn lemma_find_null_bounds(s: Seq<u8>, ent: int, from: int)
    requires
        spec_find_null(s, ent, from) is Some,
    ensures
        from <= spec_find_null(s, ent, from).unwrap(),
        spec_find_null(s, ent, from).unwrap() + ent <= s.len(),
        ent > 0,
    decreases s.len() - from,
{
    if !all_zero(s, from, ent) {
        lemma_find_null_bounds(s, ent, from + ent);
    }
}

/// Cuts the bytes of a mergeable section into pieces: strings with their
/// terminator where `strings` is set, else constants of `entSize` bytes.
/// Returns the pieces and where each starts. A section that cannot be cut
/// is a format error.
pub fn SplitContents(data: &[u8], strings: bool, entSize: u64) -> (r: Result<
    (Vec<Vec<u8>>, Vec<u32>),
    LinkError,
>)
    ensures
        r is Ok <==> splits(data@, strings, entSize as int, 0),
        r is Ok ==> is_split(data@, strings, entSize as int, r.unwrap().0@, r.unwrap().1@),
        r is Err ==> r == Err::<(Vec<Vec<u8>>, Vec<u32>), LinkError>(LinkError::Format),
{
    let n: usize = data.len();
    if entSize == 0 || entSize > n as u64 {
        if n == 0 && entSize != 0 {
            let pieces: Vec<Vec<u8>> = Vec::new();
            let offsets: Vec<u32> = Vec::new();
            return Ok((pieces, offsets));
        }
        proof {
            if entSize != 0 {
                if strings {
                    if spec_find_null(data@, entSize as int, 0) is Some {
                        lemma_find_null_bounds(data@, entSize as int, 0);
                    }
                }
            }
        }
        return Err(LinkError::Format);
    }
    let ent: usize = entSize as usize;
    let mut pieces: Vec<Vec<u8>> = Vec::new();
    let mut offsets: Vec<u32> = Vec::new();
    let mut pos: usize = 0;
    while pos < n
        invariant
            pos <= n,
            n == data.len(),
            0 < ent <= n,
            ent == entSize,
            pieces@.len() == offsets@.len(),
            pieces_len(pieces@, pieces@.len() as int) == pos,
            splits(data@, strings, ent as int, 0) == splits(data@, strings, ent as int, pos as int),
            forall|k: int|
                0 <= k < pieces@.len() ==> {
                    &&& (#[trigger] offsets@[k]) as int == pieces_len(pieces@, k)
                    &&& pieces@[k]@ == data@.subrange(
                        offsets@[k] as int,
                        offsets@[k] + pieces@[k]@.len(),
                    )
                    &&& offsets@[k] + pieces@[k]@.len() <= data@.len()
                    &&& if strings {
                        spec_find_null(data@, ent as int, offsets@[k] as int) == Some(
                            offsets@[k] + pieces@[k]@.len() - ent,
                        )
                    } else {
                        pieces@[k]@.len() == ent
                    }
                },
        decreases n - pos,
    {
        if pos as u64 > u32::MAX as u64 {
            return Err(LinkError::Format);
        }
        let end: usize = if strings {
            match FindNullFrom(data, ent, pos) {
                Some(e) => e + ent,
                None => {
                    return Err(LinkError::Format);
                },
            }
        } else {
            if n - pos < ent {
                return Err(LinkError::Format);
            }
            pos + ent
        };
        let piece = Slice(data, pos as u64, (end - pos) as u64).unwrap();
        let ghost old_pieces = pieces@;
        pieces.push(piece);
        offsets.push(pos as u32);
        proof {
            let m = old_pieces.len() as int;
            assert forall|k: int| 0 <= k <= m implies pieces_len(pieces@, k) == pieces_len(
                old_pieces,
                k,
            ) by {
                lemma_pieces_len_prefix(old_pieces, pieces@, k);
            }
            assert(pieces_len(pieces@, m + 1) == pieces_len(pieces@, m) + pieces@[m]@.len());
        }
        pos = end;
    }
    Ok((pieces, offsets))
}

/// The length of the first `k` pieces depends on those pieces only.
pub proof fn lemma_pieces_len_prefix(a: Seq<Vec<u8>>, b: Seq<Vec<u8>>, k: int)
    requires
        k <= a.len(),
        k <= b.len(),
        forall|j: int| 0 <= j < k ==> a[j] == b[j],
    ensures
        pieces_len(a, k) == pieces_len(b, k),
    decreases k,
{
    if k > 0 {
        lemma_pieces_len_prefix(a, b, k - 1);
    }
}

impl InputSection {
    /// The address of the section in the output: the address of its output
    /// section plus its offset in it, wrapping around at 2^64.
    pub fn GetAddr(&self, ctx: &Context) -> (r: u64)
        requires
            self.OutputSection < ctx.OutputSections@.len(),
        ensures
            r == wrap_add(
                ctx.OutputSections@[self.OutputSection as int].Chunk.Shdr.Addr,
                self.Offset,
            ),
    {
        ctx.OutputSections[self.OutputSection].Chunk.Shdr.Addr.wrapping_add(self.Offset)
    }
}

impl SectionFragment {
    /// The address of the fragment in the output: the address of its merged
    /// section plus its offset in it, wrapping around at 2^64.
    pub fn GetAddr(&self, ctx: &Context) -> (r: u64)
        requires
            self.OutputSection < ctx.MergedSections@.len(),
        ensures
            r == wrap_add(
                ctx.MergedSections@[self.OutputSection as int].Chunk.Shdr.Addr,
                self.Offset as u64,
            ),
    {
        ctx.MergedSections[self.OutputSection].Chunk.Shdr.Addr.wrapping_add(self.Offset as u64)
    }
}

/// Whether the section with the header `h` can be taken from a file with
/// the bytes `contents`: it is not compressed, and its bytes lie inside the
/// file unless it occupies none.
pub open spec fn section_loadable(contents: Seq<u8>, h: Shdr) -> bool {
    h.Flags & abi::SHF_COMPRESSED == 0 && (h.Type == abi::SHT_NOBITS || in_file(contents, h))
}

/// The bytes of the section with the header `h`: none for a section that
/// occupies no space in the file.
pub open spec fn section_contents(contents: Seq<u8>, h: Shdr) -> Seq<u8> {
    if h.Type == abi::SHT_NOBITS {
        Seq::empty()
    } else {
        section_bytes(contents, h)
    }
}

/// The last section among the first `upto` of `shdrs` that holds
/// relocations with addends for the section at `s`.
pub open spec fn rela_for(shdrs: Seq<Shdr>, s: int, upto: int) -> Option<int>
    decreases upto,
{
    if upto <= 0 {
        None
    } else if shdrs[upto - 1].Type == abi::SHT_RELA && shdrs[upto - 1].Info == s {
        Some(upto - 1)
    } else {
        rela_for(shdrs, s, upto - 1)
    }
}

impl InputSection {
    /// Whether the section has the position `shndx` and the bytes, size and
    /// alignment that the header at `shndx` of `obj` gives.
    pub open spec fn is_loaded(&self, obj: Objectfile, shndx: int) -> bool {
        let h = obj.spec_shdr(shndx);
        &&& self.Shndx == shndx
        &&& self.Contents@ == section_contents(obj.inputFile.File.Contents@, h)
        &&& self.ShSize == h.Size
        &&& self.P2Align == spec_p2align(h.AddrAlign)
        &&& self.P2Align < 64
    }

    /// Whether this is the section at `shndx` of `obj` as `new` makes it:
    /// alive, with the bytes, size and alignment that its header gives, and
    /// without offset and relocations.
    pub open spec fn is_taken_from(&self, obj: Objectfile, shndx: int) -> bool {
        &&& self.is_loaded(obj, shndx)
        &&& self.IsAlive
        &&& self.Offset == u64::MAX
        &&& self.RelsecIdx == NONE_IDX
        &&& self.Rels@.len() == 0
    }

    /// Whether the section has the relocations that the first `upto`
    /// sections of `obj` hold for the section at `shndx`: those of the last
    /// relocation section that names it, none where no section does.
    pub open spec fn relocs_loaded(&self, obj: Objectfile, shndx: int, upto: int) -> bool {
        match rela_for(obj.inputFile.ElfSections@, shndx, upto) {
            Some(j) => self.RelsecIdx == j && self.Rels@ == crate::linker::elf::spec_relas(
                section_bytes(obj.inputFile.File.Contents@, obj.inputFile.ElfSections@[j]),
            ),
            None => self.RelsecIdx == NONE_IDX && self.Rels@.len() == 0,
        }
    }

    /// The header of the section in its object `obj`.
    pub fn Shdr(&self, obj: &Objectfile) -> (r: Shdr)
        requires
            self.Shndx < obj.inputFile.ElfSections@.len() + obj.inputFile.ElfSections2@.len(),
        ensures
            r == obj.spec_shdr(self.Shndx as int),
    {
        obj.SectionShdr(self.Shndx)
    }

    /// The name of the section in its object `obj`: what the table of
    /// section names holds for a section of the file, `.tls_common` or
    /// `.common` for a section that was made up for a common symbol.
    pub fn Name(&self, obj: &Objectfile) -> (r: Result<Vec<u8>, LinkError>)
        requires
            self.Shndx < obj.inputFile.ElfSections@.len() + obj.inputFile.ElfSections2@.len(),
        ensures
            r is Ok <==> (self.Shndx < obj.inputFile.ElfSections@.len()
                ==> crate::linker::objectfile::name_readable(
                obj.inputFile.Shstrtab@,
                obj.inputFile.ElfSections@[self.Shndx as int].Name as int,
            )),
            r is Ok ==> r.unwrap()@ == obj.section_name(self.Shndx as int),
            r is Err ==> r == Err::<Vec<u8>, LinkError>(LinkError::Format),
    {
        if self.Shndx < obj.inputFile.ElfSections.len() {
            crate::linker::elf::ElfGetName(
                obj.inputFile.Shstrtab.as_slice(),
                obj.inputFile.ElfSections[self.Shndx].Name as usize,
            )
        } else if obj.SectionShdr(self.Shndx).Flags & abi::SHF_TLS != 0 {
            let v: Vec<u8> = vec![0x2eu8, 0x74, 0x6c, 0x73, 0x5f, 0x63, 0x6f, 0x6d, 0x6d, 0x6f, 0x6e];
            assert(v@ =~= crate::linker::objectfile::TLS_COMMON_NAME());
            Ok(v)
        } else {
            let v: Vec<u8> = vec![0x2eu8, 0x63, 0x6f, 0x6d, 0x6d, 0x6f, 0x6e];
            assert(v@ =~= crate::linker::objectfile::COMMON_NAME());
            Ok(v)
        }
    }

    /// The relocations of the section.
    pub fn GetRels(&self) -> (r: &Vec<Rela>)
        ensures
            r == &self.Rels,
    {
        &self.Rels
    }

    /// Takes the section at `shndx` of `obj`, whose name is `name`, and
    /// assigns it to the output section that its name, type and flags ask
    /// for, which is made where the context does not have it. A compressed
    /// section, or one whose bytes do not lie inside the file, is a format
    /// error and leaves the context as it is.
    pub fn new(ctx: &mut Context, name: &[u8], obj: &Objectfile, shndx: usize) -> (r: Result<
        InputSection,
        LinkError,
    >)
        requires
            old(ctx).wf(),
            shndx < obj.inputFile.ElfSections@.len() + obj.inputFile.ElfSections2@.len(),
        ensures
            sections_added(*old(ctx), *final(ctx)),
            r is Ok <==> section_loadable(
                obj.inputFile.File.Contents@,
                obj.spec_shdr(shndx as int),
            ),
            r is Err ==> r == Err::<InputSection, LinkError>(LinkError::Format) && *final(ctx)
                == *old(ctx),
            r is Ok ==> {
                let sec = r.unwrap();
                let h = obj.spec_shdr(shndx as int);
                &&& final(ctx).wf()
                &&& final(ctx).grows_from(*old(ctx))
                &&& *final(ctx) == (Context { OutputSections: final(ctx).OutputSections, ..*old(ctx) })
                &&& sec.is_taken_from(*obj, shndx as int)
                &&& sec.OutputSection < final(ctx).OutputSections@.len()
                &&& output_key(final(ctx).OutputSections@[sec.OutputSection as int]) == (
                    spec_output_name(name@, h.Flags),
                    h.Type,
                    output_flags(h.Flags),
                )
            },
    {
        proof {
            lemma_sections_same(*ctx, *ctx);
        }
        let shdr = obj.SectionShdr(shndx);
        if shdr.Flags & abi::SHF_COMPRESSED != 0 {
            return Err(LinkError::Format);
        }
        let contents: Vec<u8> = if shdr.Type == abi::SHT_NOBITS {
            Vec::new()
        } else {
            match Slice(obj.inputFile.File.Contents.as_slice(), shdr.Offset, shdr.Size) {
                Some(b) => b,
                None => {
                    return Err(LinkError::Format);
                },
            }
        };
        assert(contents@ =~= section_contents(obj.inputFile.File.Contents@, shdr));
        let osec: usize = GetOutputSection(ctx, name, shdr.Type, shdr.Flags);
        proof {
            if osec >= old(ctx).OutputSections@.len() {
                assert forall|i: int| 0 <= i < old(ctx).OutputSections@.len() implies output_key(
                    #[trigger] final(ctx).OutputSections@[i],
                ) == output_key(old(ctx).OutputSections@[i]) by {
                    assert(final(ctx).OutputSections@.subrange(
                        0,
                        old(ctx).OutputSections@.len() as int,
                    )[i] == final(ctx).OutputSections@[i]);
                }
            }
        }
        Ok(
            InputSection {
                Contents: contents,
                Shndx: shndx,
                ShSize: shdr.Size,
                IsAlive: true,
                P2Align: P2AlignOf(shdr.AddrAlign),
                Offset: u64::MAX,
                OutputSection: osec,
                RelsecIdx: NONE_IDX,
                Rels: Vec::new(),
            },
        )
    }
}

impl MergeableSection {
    /// Whether these are the pieces of the section at `shndx` of `obj`,
    /// not yet registered: the bytes of the section cut into strings or
    /// constants as its flags say, with the alignment of the section, and
    /// a parent with the name, type and flags that the section asks for.
    pub open spec fn is_split_of(&self, ctx: &Context, obj: Objectfile, shndx: int) -> bool {
        let h = obj.spec_shdr(shndx);
        let sec = obj.Sections@[shndx].unwrap();
        &&& self.Parent < ctx.MergedSections@.len()
        &&& merged_key(ctx.MergedSections@[self.Parent as int]) == (
            spec_output_name(obj.section_name(shndx), h.Flags),
            h.Type,
            merged_flags(h.Flags),
        )
        &&& self.P2Align == sec.P2Align
        &&& is_split(
            sec.Contents@,
            h.Flags & abi::SHF_STRINGS != 0,
            h.EntSize as int,
            self.Strs@,
            self.FragOffset@,
        )
        &&& self.Fragments@.len() == 0
    }
}

/// Cuts the mergeable section at `shndx` of `obj` into pieces and finds
/// the merged section that they go to, which is made where the context
/// does not have it. A section that cannot be cut is a format error and
/// leaves the context as it is.
pub fn SplitSection(ctx: &mut Context, obj: &Objectfile, shndx: usize) -> (r: Result<
    MergeableSection,
    LinkError,
>)
    requires
        old(ctx).wf(),
        obj.has_section(shndx as int),
        obj.Sections@.len() == obj.inputFile.ElfSections@.len() + obj.inputFile.ElfSections2@.len(),
        obj.Sections@[shndx as int].unwrap().Shndx == shndx,
        obj.Sections@[shndx as int].unwrap().P2Align < 64,
        shndx < obj.inputFile.ElfSections@.len() ==> crate::linker::objectfile::name_readable(
            obj.inputFile.Shstrtab@,
            obj.inputFile.ElfSections@[shndx as int].Name as int,
        ),
    ensures
        sections_added(*old(ctx), *final(ctx)),
        r is Ok <==> splits(
            obj.Sections@[shndx as int].unwrap().Contents@,
            obj.spec_shdr(shndx as int).Flags & abi::SHF_STRINGS != 0,
            obj.spec_shdr(shndx as int).EntSize as int,
            0,
        ),
        r is Err ==> r == Err::<MergeableSection, LinkError>(LinkError::Format) && *final(ctx)
            == *old(ctx),
        r is Ok ==> {
            &&& final(ctx).wf()
            &&& final(ctx).grows_from(*old(ctx))
            &&& *final(ctx) == (Context { MergedSections: final(ctx).MergedSections, ..*old(ctx) })
            &&& r.unwrap().is_split_of(final(ctx), *obj, shndx as int)
            &&& final(ctx).mergeable_ok(r.unwrap())
        },
{
    proof {
        lemma_sections_same(*ctx, *ctx);
    }
    let sec = match &obj.Sections[shndx] {
        Some(s) => s,
        None => {
            return Err(LinkError::Format);
        },
    };
    let shdr = sec.Shdr(obj);
    let (pieces, offsets) = match SplitContents(
        sec.Contents.as_slice(),
        shdr.Flags & abi::SHF_STRINGS != 0,
        shdr.EntSize,
    ) {
        Ok(p) => p,
        Err(e) => {
            return Err(LinkError::Format);
        },
    };
    let name = match sec.Name(obj) {
        Ok(n) => n,
        Err(e) => {
            return Err(LinkError::Format);
        },
    };
    let parent: usize = MergedSection::GetInstance(ctx, name.as_slice(), shdr.Type, shdr.Flags);
    proof {
        if parent >= old(ctx).MergedSections@.len() {
            let n = old(ctx).MergedSections@.len() as int;
            assert forall|i: int| 0 <= i < n implies old(ctx).MergedSections@[i] == (
            #[trigger] final(ctx).MergedSections@[i]) by {
                assert(final(ctx).MergedSections@.subrange(0, n)[i] == final(ctx).MergedSections@[i]);
            }
        }
    }
    Ok(
        MergeableSection {
            Parent: parent,
            P2Align: sec.P2Align,
            Strs: pieces,
            FragOffset: offsets,
            Fragments: Vec::new(),
        },
    )
}

} // verus!
