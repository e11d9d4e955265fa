//! The `ar` archive format: a magic line, then members, each behind a
//! header of 60 ASCII bytes and starting at an even offset.
use vstd::prelude::*;
use crate::linker::error::LinkError;
use crate::linker::file::{File, classify};
use crate::utils::{Slice, StartsWith, ToVec, starts_with, atoi, is_number, number_value};

verus! {

/// The size of a member header in bytes.
pub const ARHDR_SIZE: usize = 60;

/// The header in front of each archive member; every field is ASCII text.
#[derive(Debug)]
pub struct ArHdr {
    pub Name: Vec<u8>,
    pub Date: Vec<u8>,
    pub Uid: Vec<u8>,
    pub Gid: Vec<u8>,
    pub Mode: Vec<u8>,
    pub Size: Vec<u8>,
    pub Fmag: Vec<u8>,
}

/// The two bytes that end a member header: a backquote and a line feed.
pub open spec fn ARFMAG() -> Seq<u8> {
    seq![0x60u8, 0x0au8]
}

/// The position of the first `/` followed by a line feed at or after `from`
/// in `s`; the length of `s` where there is none.
pub open spec fn long_name_end(s: Seq<u8>, from: int) -> int
    decreases s.len() - from,
{
    if from + 1 >= s.len() {
        s.len() as int
    } else if s[from] == 0x2f && s[from + 1] == 0x0a {
        from
    } else {
        long_name_end(s, from + 1)
    }
}

/// The position of the first `/` at or after `from` in `s`; the length of
/// `s` where there is none.
pub open spec fn first_slash(s: Seq<u8>, from: int) -> int
    decreases s.len() - from,
{
    if from >= s.len() {
        s.len() as int
    } else if s[from] == 0x2f {
        from
    } else {
        first_slash(s, from + 1)
    }
}

/// The name field of the table of long file names starts with `// `.
pub open spec fn ar_is_strtab(name: Seq<u8>) -> bool {
    starts_with(name, seq![0x2fu8, 0x2fu8, 0x20u8])
}

/// The name field of a symbol table starts with `/ ` or with `/SYM64/ `.
pub open spec fn ar_is_symtab(name: Seq<u8>) -> bool {
    starts_with(name, seq![0x2fu8, 0x20u8]) || starts_with(
        name,
        seq![0x2fu8, 0x53u8, 0x59u8, 0x4du8, 0x36u8, 0x34u8, 0x2fu8, 0x20u8],
    )
}

/// Whether the name field `name` refers into the table of long names.
pub open spec fn ar_has_long_name(name: Seq<u8>) -> bool {
    name.len() > 0 && name[0] == 0x2f
}

/// Where in the table of long names the name that `name` refers to starts.
pub open spec fn ar_long_name_start(name: Seq<u8>) -> nat {
    number_value(name.subrange(1, name.len() as int))
}

/// Whether the file name behind the name field `name` can be read, given
/// the table of long names.
pub open spec fn ar_name_readable(name: Seq<u8>, strtab: Seq<u8>) -> bool {
    if ar_has_long_name(name) {
        &&& is_number(name.subrange(1, name.len() as int))
        &&& ar_long_name_start(name) <= strtab.len()
        &&& long_name_end(strtab, ar_long_name_start(name) as int) < strtab.len()
    } else {
        first_slash(name, 0) < name.len()
    }
}

/// The file name behind the name field `name`: for `/<offset>`, the bytes
/// of `strtab` from that offset up to the next `/` before a line feed; else
/// the name field up to its first `/`.
pub open spec fn ar_name(name: Seq<u8>, strtab: Seq<u8>) -> Seq<u8> {
    if ar_has_long_name(name) {
        strtab.subrange(
            ar_long_name_start(name) as int,
            long_name_end(strtab, ar_long_name_start(name) as int),
        )
    } else {
        name.subrange(0, first_slash(name, 0))
    }
}

/// Where the member header at or after `pos` starts: members start at even
/// offsets.
pub open spec fn member_start(pos: int) -> int {
    if pos % 2 == 1 {
        pos + 1
    } else {
        pos
    }
}

/// Whether a well-formed member header with a body that fits stands at
/// `p` in `data`.
pub open spec fn member_at(data: Seq<u8>, p: int) -> bool {
    &&& p + 60 <= data.len()
    &&& data.subrange(p + 58, p + 60) == ARFMAG()
    &&& is_number(data.subrange(p + 48, p + 58))
    &&& p + 60 + number_value(data.subrange(p + 48, p + 58)) <= data.len()
}

/// Where the body of the member whose header is at `p` ends.
pub open spec fn member_end(data: Seq<u8>, p: int) -> int {
    p + 60 + number_value(data.subrange(p + 48, p + 58))
}

/// The members of the archive `data` from `pos` on, each as its file name
/// and its bytes, given the table of long names read so far. Symbol tables
/// are passed over; a table of long names replaces `strtab` for the members
/// behind it. `None` where a header is corrupt, a body does not fit or a
/// name cannot be read.
pub open spec fn spec_members(data: Seq<u8>, pos: int, strtab: Seq<u8>) -> Option<
    Seq<(Seq<u8>, Seq<u8>)>,
>
    decreases data.len() - pos,
{
    if pos < 0 || data.len() - pos <= 1 {
        Some(Seq::empty())
    } else {
        let p = member_start(pos);
        if !member_at(data, p) {
            None
        } else {
            let name = data.subrange(p, p + 16);
            let body = data.subrange(p + 60, member_end(data, p));
            let next = member_end(data, p);
            if ar_is_symtab(name) {
                spec_members(data, next, strtab)
            } else if ar_is_strtab(name) {
                spec_members(data, next, body)
            } else if !ar_name_readable(name, strtab) {
                None
            } else {
                match spec_members(data, next, strtab) {
                    None => None,
                    Some(rest) => Some(seq![(ar_name(name, strtab), body)] + rest),
                }
            }
        }
    }
}

/// Whether `files` are the members `members`, each with the archive named
/// `parent` as its parent.
pub open spec fn files_are(files: Seq<File>, members: Seq<(Seq<u8>, Seq<u8>)>, parent: Seq<u8>) -> bool {
    &&& files.len() == members.len()
    &&& forall|i: int|
        0 <= i < files.len() ==> {
            &&& (#[trigger] files[i]).Name@ == members[i].0
            &&& files[i].Contents@ == members[i].1
            &&& files[i].Type == classify(members[i].1)
            &&& files[i].Parent is Some
            &&& files[i].Parent.unwrap()@ == parent
        }
}

/// Reads the members of the archive `file`, in the order in which they
/// stand in it. Each member is a file of its own whose bytes are a copy of
/// its body.
pub fn ReadArchiveMembers(file: &File) -> (r: Result<Vec<File>, LinkError>)
    ensures
        r is Ok <==> starts_with(file.Contents@, crate::linker::file::AR_IDENT()) && spec_members(
            file.Contents@,
            8,
            Seq::empty(),
        ) is Some,
        r is Ok ==> files_are(
            r.unwrap()@,
            spec_members(file.Contents@, 8, Seq::empty()).unwrap(),
            file.Name@,
        ),
        r is Err ==> r == Err::<Vec<File>, LinkError>(LinkError::Format),
{
    let data: &[u8] = file.Contents.as_slice();
    if !crate::linker::file::checkArMagic(data) {
        return Err(LinkError::Format);
    }
    let len: usize = data.len();
    let mut pos: usize = 8;
    let mut strtab: Vec<u8> = Vec::new();
    let mut files: Vec<File> = Vec::new();
    let ghost all = spec_members(data@, 8, Seq::empty());
    let ghost mut done: Seq<(Seq<u8>, Seq<u8>)> = Seq::empty();
    assert(strtab@ =~= Seq::<u8>::empty());
    while len - pos > 1
        invariant
            8 <= pos <= len,
            len == data.len(),
            data@ == file.Contents@,
            all == spec_members(data@, 8, Seq::empty()),
            files_are(files@, done, file.Name@),
            all == (match spec_members(data@, pos as int, strtab@) {
                None => None,
                Some(rest) => Some(done + rest),
            }),
        decreases len - pos,
    {
        let p: usize = if pos % 2 == 1 {
            pos + 1
        } else {
            pos
        };
        let hdr = match ArHdr::Read(data, p) {
            Ok(h) => h,
            Err(e) => {
                return Err(LinkError::Format);
            },
        };
        let size: u64 = match hdr.GetSize() {
            Ok(v) => v,
            Err(e) => {
                return Err(LinkError::Format);
            },
        };
        let dataStart: usize = p + ARHDR_SIZE;
        if size > (len - dataStart) as u64 {
            return Err(LinkError::Format);
        }
        let next: usize = dataStart + size as usize;
        let body: Vec<u8> = Slice(data, dataStart as u64, size).unwrap();
        if hdr.IsSymtab() {
            pos = next;
        } else if hdr.IsStrtab() {
            strtab = body;
            pos = next;
        } else {
            let name = match hdr.ReadName(strtab.as_slice()) {
                Ok(n) => n,
                Err(e) => {
                    return Err(LinkError::Format);
                },
            };
            let parent = ToVec(file.Name.as_slice());
            let ghost entry = (name@, body@);
            let f = File::new(name, body, Some(parent));
            files.push(f);
            proof {
                let rest = spec_members(data@, next as int, strtab@);
                if rest is Some {
                    assert(done + (seq![entry] + rest.unwrap()) =~= done.push(entry)
                        + rest.unwrap());
                }
                done = done.push(entry);
            }
            pos = next;
        }
    }
    proof {
        assert(spec_members(data@, pos as int, strtab@) == Some(
            Seq::<(Seq<u8>, Seq<u8>)>::empty(),
        ));
        assert(done + Seq::<(Seq<u8>, Seq<u8>)>::empty() =~= done);
    }
    Ok(files)
}

impl ArHdr {
    /// The header that the 60 bytes at `off` in `s` hold.
    pub open spec fn decodes(s: Seq<u8>, off: int, h: ArHdr) -> bool {
        &&& h.Name@ == s.subrange(off, off + 16)
        &&& h.Date@ == s.subrange(off + 16, off + 28)
        &&& h.Uid@ == s.subrange(off + 28, off + 34)
        &&& h.Gid@ == s.subrange(off + 34, off + 40)
        &&& h.Mode@ == s.subrange(off + 40, off + 48)
        &&& h.Size@ == s.subrange(off + 48, off + 58)
        &&& h.Fmag@ == s.subrange(off + 58, off + 60)
    }

    /// Reads the member header at `off`. A header that does not fit or does
    /// not end in the header magic is a format error.
    pub fn Read(data: &[u8], off: usize) -> (r: Result<ArHdr, LinkError>)
        ensures
            r is Ok <==> off + 60 <= data.len() && data@.subrange(off + 58, off + 60) == ARFMAG(),
            r is Ok ==> ArHdr::decodes(data@, off as int, r.unwrap()),
            r is Err ==> r == Err::<ArHdr, LinkError>(LinkError::Format),
    {
        if off > data.len() || data.len() - off < ARHDR_SIZE {
            return Err(LinkError::Format);
        }
        let o: u64 = off as u64;
        let h = ArHdr {
            Name: Slice(data, o, 16).unwrap(),
            Date: Slice(data, o + 16, 12).unwrap(),
            Uid: Slice(data, o + 28, 6).unwrap(),
            Gid: Slice(data, o + 34, 6).unwrap(),
            Mode: Slice(data, o + 40, 8).unwrap(),
            Size: Slice(data, o + 48, 10).unwrap(),
            Fmag: Slice(data, o + 58, 2).unwrap(),
        };
        if h.Fmag[0] != 0x60 || h.Fmag[1] != 0x0a {
            proof {
                if h.Fmag@ == ARFMAG() {
                    assert(ARFMAG()[0] == 0x60 && ARFMAG()[1] == 0x0a);
                }
            }
            return Err(LinkError::Format);
        }
        assert(h.Fmag@ =~= ARFMAG());
        Ok(h)
    }

    /// The member is the table of long file names: its name field starts
    /// with `// `.
    pub fn IsStrtab(&self) -> (r: bool)
        ensures
            r == ar_is_strtab(self.Name@),
    {
        let n = &self.Name;
        let r = n.len() >= 3 && n[0] == 0x2f && n[1] == 0x2f && n[2] == 0x20;
        proof {
            let pre = seq![0x2fu8, 0x2fu8, 0x20u8];
            if n.len() >= 3 {
                let p = n@.subrange(0, 3);
                assert(p[0] == n@[0] && p[1] == n@[1] && p[2] == n@[2]);
                if r {
                    assert(p =~= pre);
                }
            }
        }
        r
    }

    /// The member is a symbol table: its name field starts with `/ ` or
    /// with `/SYM64/ `.
    pub fn IsSymtab(&self) -> (r: bool)
        ensures
            r == ar_is_symtab(self.Name@),
    {
        let short: [u8; 2] = [0x2f, 0x20];
        let long: [u8; 8] = [0x2f, 0x53, 0x59, 0x4d, 0x36, 0x34, 0x2f, 0x20];
        assert(short@ =~= seq![0x2fu8, 0x20u8]);
        assert(long@ =~= seq![0x2fu8, 0x53u8, 0x59u8, 0x4du8, 0x36u8, 0x34u8, 0x2fu8, 0x20u8]);
        StartsWith(self.Name.as_slice(), short.as_slice()) || StartsWith(
            self.Name.as_slice(),
            long.as_slice(),
        )
    }

    /// The size of the member in bytes, as the decimal text of the size
    /// field gives it.
    pub fn GetSize(&self) -> (r: Result<u64, LinkError>)
        ensures
            r is Ok <==> is_number(self.Size@) && number_value(self.Size@) <= u64::MAX,
            r is Ok ==> r.unwrap() == number_value(self.Size@),
            r is Err ==> r == Err::<u64, LinkError>(LinkError::Format),
    {
        match atoi(self.Size.as_slice()) {
            Some(v) => Ok(v),
            None => Err(LinkError::Format),
        }
    }

    /// The file name of this member. `strtab` is the table of long names
    /// that came before it in the archive, empty where none did.
    pub fn ReadName(&self, strtab: &[u8]) -> (r: Result<Vec<u8>, LinkError>)
        ensures
            r is Ok <==> ar_name_readable(self.Name@, strtab@),
            r is Ok ==> r.unwrap()@ == ar_name(self.Name@, strtab@),
            r is Err ==> r == Err::<Vec<u8>, LinkError>(LinkError::Format),
    {
        if self.Name.len() > 0 && self.Name[0] == 0x2f {
            let digits = Slice(self.Name.as_slice(), 1, (self.Name.len() - 1) as u64).unwrap();
            assert(digits@ == self.Name@.subrange(1, self.Name@.len() as int));
            let tablen: usize = strtab.len();
            let start: usize = match atoi(digits.as_slice()) {
                Some(v) => {
                    if v > strtab.len() as u64 {
                        return Err(LinkError::Format);
                    }
                    v as usize
                },
                None => {
                    assert(tablen <= u64::MAX);
                    return Err(LinkError::Format);
                },
            };
            let mut i: usize = start;
            let mut out: Vec<u8> = Vec::new();
            while strtab.len() - i > 1 && !(strtab[i] == 0x2f && strtab[i + 1] == 0x0a)
                invariant
                    start <= i <= strtab.len(),
                    out@ == strtab@.subrange(start as int, i as int),
                    long_name_end(strtab@, start as int) == long_name_end(strtab@, i as int),
                decreases strtab.len() - i,
            {
                out.push(strtab[i]);
                assert(out@ =~= strtab@.subrange(start as int, i + 1));
                i = i + 1;
            }
            if strtab.len() - i <= 1 {
                Err(LinkError::Format)
            } else {
                Ok(out)
            }
        } else {
            let mut i: usize = 0;
            let mut out: Vec<u8> = Vec::new();
            while i < self.Name.len() && self.Name[i] != 0x2f
                invariant
                    i <= self.Name.len(),
                    out@ == self.Name@.subrange(0, i as int),
                    first_slash(self.Name@, 0) == first_slash(self.Name@, i as int),
                decreases self.Name.len() - i,
            {
                out.push(self.Name[i]);
                assert(out@ =~= self.Name@.subrange(0, i + 1));
                i = i + 1;
            }
            if i >= self.Name.len() {
                Err(LinkError::Format)
            } else {
                Ok(out)
            }
        }
    }
}

} // verus!
