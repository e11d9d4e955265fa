//! Merged sections: the pieces of mergeable input sections, each kept
//! once.
use vstd::prelude::*;
use crate::linker::error::LinkError;
use crate::linker::inputsections::SectionFragment;
use crate::linker::context::{Context, lemma_sections_same, merged_key, sections_added};
use crate::linker::output::{Chunk, GetOutputName, spec_output_name, merged_flags, MERGED_FLAGS_IGNORED};
use crate::linker::elf::Shdr;
use crate::utils::{BytesEq, ToVec, AlignToChecked, align_up, lemma_align_up};

verus! {

/// A piece of a merged section: its bytes, and where it goes.
#[derive(Debug)]
pub struct MergedEntry {
    pub Key: Vec<u8>,
    pub Frag: SectionFragment,
}

/// A section of the output that holds each distinct piece once. `Map`
/// takes the bytes of a piece to its fragment; no two entries have the same
/// bytes.
#[derive(Debug)]
pub struct MergedSection {
    pub Chunk: Chunk,
    pub Map: Vec<MergedEntry>,
}

/// No two entries hold the same bytes.
pub open spec fn keys_unique(map: Seq<MergedEntry>) -> bool {
    forall|i: int, j: int| 0 <= i < j < map.len() ==> map[i].Key@ != map[j].Key@
}

impl MergedSection {
    /// The invariant of a merged section: every piece is there once, and
    /// every alignment is the logarithm of a power of two that 64 bits
    /// hold.
    pub open spec fn wf(&self) -> bool {
        &&& keys_unique(self.Map@)
        &&& forall|i: int| 0 <= i < self.Map@.len() ==> (#[trigger] self.Map@[i]).Frag.P2Align < 64
    }

    /// A merged section without pieces.
    pub fn new(name: &[u8], flags: u64, ty: u32) -> (r: MergedSection)
        ensures
            r.Chunk.Name@ == name@,
            r.Chunk.Shndx == 0,
            r.Chunk.Shdr == (Shdr { Type: ty, Flags: flags, AddrAlign: 1, ..Shdr::zero() }),
            r.Map@.len() == 0,
            r.wf(),
    {
        let mut c = Chunk::new();
        c.Name = ToVec(name);
        c.Shdr.Flags = flags;
        c.Shdr.Type = ty;
        MergedSection { Chunk: c, Map: Vec::new() }
    }

    /// The position of the entry with the bytes `key`, if there is one.
    pub fn Find(&self, key: &[u8]) -> (r: Option<usize>)
        ensures
            r is Some ==> r.unwrap() < self.Map@.len() && self.Map@[r.unwrap() as int].Key@ == key@,
            r is None ==> forall|i: int| 0 <= i < self.Map@.len() ==> self.Map@[i].Key@ != key@,
    {
        let n: usize = self.Map.len();
        let mut i: usize = 0;
        while i < n
            invariant
                i <= n,
                n == self.Map@.len(),
                forall|j: int| 0 <= j < i ==> self.Map@[j].Key@ != key@,
            decreases n - i,
        {
            if BytesEq(self.Map[i].Key.as_slice(), key) {
                return Some(i);
            }
            i = i + 1;
        }
        None
    }

    /// Whether `after` is this merged section after a piece with the bytes
    /// `key` and the alignment `p2align` was registered and got the
    /// fragment at `r`: a piece whose bytes were there got the fragment
    /// that was there, which took the larger of the two alignments; else
    /// a new fragment without offset came at the end. No other entry
    /// changed. `own` is the position of this merged section in the
    /// context.
    pub open spec fn inserted(
        &self,
        own: usize,
        key: Seq<u8>,
        p2align: u8,
        r: usize,
        after: MergedSection,
    ) -> bool {
        &&& after.wf()
        &&& after.Chunk == self.Chunk
        &&& r < after.Map@.len()
        &&& after.Map@[r as int].Key@ == key
        &&& (exists|i: int| 0 <= i < self.Map@.len() && self.Map@[i].Key@ == key) ==> {
            &&& after.Map@.len() == self.Map@.len()
            &&& after.Map@[r as int].Frag == (SectionFragment {
                P2Align: if self.Map@[r as int].Frag.P2Align > p2align {
                    self.Map@[r as int].Frag.P2Align
                } else {
                    p2align
                },
                ..self.Map@[r as int].Frag
            })
        }
        &&& !(exists|i: int| 0 <= i < self.Map@.len() && self.Map@[i].Key@ == key) ==> {
            &&& after.Map@.len() == self.Map@.len() + 1
            &&& r == self.Map@.len()
            &&& after.Map@[r as int].Frag == (SectionFragment {
                P2Align: p2align,
                ..SectionFragment { OutputSection: own, Offset: u32::MAX, P2Align: 0, IsAlive: false }
            })
        }
        &&& forall|i: int|
            0 <= i < self.Map@.len() ==> (#[trigger] after.Map@[i]).Key@ == self.Map@[i].Key@
        &&& forall|i: int| 0 <= i < self.Map@.len() && i != r ==> after.Map@[i] == self.Map@[i]
    }

    /// Registers a piece with the bytes `key` and the alignment `p2align`
    /// and returns the position of its fragment. `own` is the position of
    /// this merged section in the context. A piece whose bytes are there
    /// already gets the fragment that is there, which takes the larger of
    /// the two alignments; else a new fragment without offset is added at
    /// the end. No other entry changes.
    pub fn Insert(&mut self, own: usize, key: &[u8], p2align: u8) -> (r: usize)
        requires
            old(self).wf(),
            p2align < 64,
        ensures
            old(self).inserted(own, key@, p2align, r, *final(self)),
    {
        let idx: usize = match self.Find(key) {
            Some(i) => i,
            None => {
                self.Map.push(MergedEntry { Key: ToVec(key), Frag: SectionFragment::new(own) });
                self.Map.len() - 1
            },
        };
        if self.Map[idx].Frag.P2Align < p2align {
            self.Map[idx].Frag.P2Align = p2align;
        }
        idx
    }
}

/// A piece that is registered again gets the fragment that it got
/// before: the position is the same, no entry is added, and the fragment
/// takes the larger of the alignment that it had and the new one.
pub proof fn lemma_insert_again(
    m0: MergedSection,
    m1: MergedSection,
    m2: MergedSection,
    own: usize,
    key: Seq<u8>,
    a1: u8,
    a2: u8,
    r1: usize,
    r2: usize,
)
    requires
        m0.inserted(own, key, a1, r1, m1),
        m1.inserted(own, key, a2, r2, m2),
    ensures
        r2 == r1,
        m2.Map@.len() == m1.Map@.len(),
        m2.Map@[r2 as int].Frag == (SectionFragment {
            P2Align: if m1.Map@[r1 as int].Frag.P2Align > a2 {
                m1.Map@[r1 as int].Frag.P2Align
            } else {
                a2
            },
            ..m1.Map@[r1 as int].Frag
        }),
{
    assert(0 <= r1 < m1.Map@.len() && m1.Map@[r1 as int].Key@ == key);
    assert(m2.Map@[r1 as int].Key@ == m1.Map@[r1 as int].Key@);
    lemma_same_key_same_fragment(m2, r1 as int, r2 as int);
}

/// Two entries of a merged section with the same bytes are one entry:
/// equal pieces share their fragment, and with it the section and the
/// offset they end up at.
pub proof fn lemma_same_key_same_fragment(m: MergedSection, i: int, j: int)
    requires
        m.wf(),
        0 <= i < m.Map@.len(),
        0 <= j < m.Map@.len(),
        m.Map@[i].Key@ == m.Map@[j].Key@,
    ensures
        i == j,
{
}

/// The position of the merged section with the given name, type and
/// flags, if there is one.
fn FindMergedSection(secs: &Vec<MergedSection>, name: &[u8], ty: u32, flags: u64) -> (r: Option<
    usize,
>)
    ensures
        r is Some ==> r.unwrap() < secs@.len() && merged_key(secs@[r.unwrap() as int]) == (
            name@,
            ty,
            flags,
        ),
        r is None ==> forall|i: int| 0 <= i < secs@.len() ==> merged_key(secs@[i]) != (name@, ty, flags),
{
    let n: usize = secs.len();
    let mut i: usize = 0;
    while i < n
        invariant
            i <= n,
            n == secs@.len(),
            forall|j: int| 0 <= j < i ==> merged_key(secs@[j]) != (name@, ty, flags),
        decreases n - i,
    {
        if BytesEq(secs[i].Chunk.Name.as_slice(), name) && secs[i].Chunk.Shdr.Type == ty
            && secs[i].Chunk.Shdr.Flags == flags {
            return Some(i);
        }
        i = i + 1;
    }
    None
}

impl MergedSection {
    /// The position of the merged section that the pieces of a mergeable
    /// input section with the name `name`, the type `ty` and the flags
    /// `flags` go to. The section is made and appended where the context
    /// has none with that name, type and flags; the name is normalized and
    /// the group, merge, strings and compressed flags are left out before
    /// the comparison. Nothing else in the context changes.
    pub fn GetInstance(ctx: &mut Context, name: &[u8], ty: u32, flags: u64) -> (r: usize)
        requires
            old(ctx).wf(),
        ensures
            final(ctx).wf(),
            final(ctx).grows_from(*old(ctx)),
            *final(ctx) == (Context { MergedSections: final(ctx).MergedSections, ..*old(ctx) }),
            r < final(ctx).MergedSections@.len(),
            merged_key(final(ctx).MergedSections@[r as int]) == (
                spec_output_name(name@, flags),
                ty,
                merged_flags(flags),
            ),
            sections_added(*old(ctx), *final(ctx)),
            r < old(ctx).MergedSections@.len() ==> final(ctx).MergedSections@ == old(ctx).MergedSections@,
            r >= old(ctx).MergedSections@.len() ==> {
                &&& r == old(ctx).MergedSections@.len()
                &&& final(ctx).MergedSections@.len() == r + 1
                &&& final(ctx).MergedSections@.subrange(0, r as int) == old(ctx).MergedSections@
                &&& final(ctx).MergedSections@[r as int].Map@.len() == 0
                &&& final(ctx).MergedSections@[r as int].Chunk.Shndx == 0
                &&& final(ctx).MergedSections@[r as int].Chunk.Shdr == (Shdr {
                    Type: ty,
                    Flags: merged_flags(flags),
                    AddrAlign: 1,
                    ..Shdr::zero()
                })
                &&& forall|i: int|
                    0 <= i < r ==> merged_key(old(ctx).MergedSections@[i]) != (
                        spec_output_name(name@, flags),
                        ty,
                        merged_flags(flags),
                    )
            },
    {
        proof {
            reveal(Context::wf);
            reveal(sections_added);
            lemma_sections_same(*ctx, *ctx);
        }
        let out_name = GetOutputName(name, flags);
        let out_flags: u64 = flags & !MERGED_FLAGS_IGNORED;
        match FindMergedSection(&ctx.MergedSections, out_name.as_slice(), ty, out_flags) {
            Some(i) => i,
            None => {
                let idx: usize = ctx.MergedSections.len();
                let msec = MergedSection::new(out_name.as_slice(), out_flags, ty);
                ctx.MergedSections.push(msec);
                proof {
                    assert(final(ctx).MergedSections@.subrange(0, idx as int) =~= old(ctx).MergedSections@);
                    assert(final(ctx).OutputSections@.subrange(
                        0,
                        old(ctx).OutputSections@.len() as int,
                    ) =~= old(ctx).OutputSections@);
                    assert forall|i: int| 0 <= i < idx implies old(ctx).MergedSections@[i] == (
                    #[trigger] final(ctx).MergedSections@[i]) by {
                        assert(final(ctx).MergedSections@.subrange(0, idx as int)[i] == final(ctx).MergedSections@[i]);
                    }
                    assert forall|o: int| 0 <= o < ctx.Objs@.len() implies #[trigger] ctx.object_ok(
                        o,
                    ) by {
                        assert(old(ctx).object_ok(o));
                    }
                }
                idx
            },
        }
    }
}

/// The first position at or after `from` where `a` and `b` differ; the
/// end of the shorter where they do not.
pub open spec fn first_diff(a: Seq<u8>, b: Seq<u8>, from: int) -> int
    decreases a.len() - from,
{
    if from < 0 || from >= a.len() || from >= b.len() {
        from
    } else if a[from] != b[from] {
        from
    } else {
        first_diff(a, b, from + 1)
    }
}

/// Whether the bytes `a` sort before the bytes `b`: the shorter first, and
/// of two of the same length the one with the smaller byte where they first
/// differ.
pub open spec fn bytes_before(a: Seq<u8>, b: Seq<u8>) -> bool {
    a.len() < b.len() || (a.len() == b.len() && first_diff(a, b, 0) < a.len() && a[first_diff(
        a,
        b,
        0,
    )] < b[first_diff(a, b, 0)])
}

/// Whether the entry `x` is laid out before the entry `y`: the larger
/// alignment first, then the shorter piece, then the smaller bytes.
pub open spec fn entry_before(x: MergedEntry, y: MergedEntry) -> bool {
    x.Frag.P2Align > y.Frag.P2Align || (x.Frag.P2Align == y.Frag.P2Align && bytes_before(
        x.Key@,
        y.Key@,
    ))
}

proof fn lemma_first_diff_sym(a: Seq<u8>, b: Seq<u8>, from: int)
    requires
        a.len() == b.len(),
    ensures
        first_diff(a, b, from) == first_diff(b, a, from),
        from <= first_diff(a, b, from) || from < 0 || from >= a.len(),
    decreases a.len() - from,
{
    if 0 <= from < a.len() && a[from] == b[from] {
        lemma_first_diff_sym(a, b, from + 1);
    }
}

/// Of two entries at most one is laid out before the other.
pub proof fn lemma_entry_before_asym(x: MergedEntry, y: MergedEntry)
    ensures
        !(entry_before(x, y) && entry_before(y, x)),
{
    if x.Key@.len() == y.Key@.len() {
        lemma_first_diff_sym(x.Key@, y.Key@, 0);
    }
}

/// Whether the bytes `a` sort before the bytes `b`.
pub fn BytesBefore(a: &[u8], b: &[u8]) -> (r: bool)
    ensures
        r == bytes_before(a@, b@),
{
    if a.len() != b.len() {
        return a.len() < b.len();
    }
    let n: usize = a.len();
    let mut i: usize = 0;
    while i < n && a[i] == b[i]
        invariant
            i <= n,
            n == a.len(),
            n == b.len(),
            first_diff(a@, b@, 0) == first_diff(a@, b@, i as int),
        decreases n - i,
    {
        i = i + 1;
    }
    i < n && a[i] < b[i]
}

/// Whether `order` names the entry at `f`.
pub open spec fn names(order: Seq<usize>, f: int) -> bool {
    exists|k: int| 0 <= k < order.len() && #[trigger] order[k] == f
}

/// Whether `order` names every entry of `map` once, and no entry stands
/// directly behind one that is laid out after it.
pub open spec fn is_order(order: Seq<usize>, map: Seq<MergedEntry>) -> bool {
    &&& order.len() == map.len()
    &&& forall|k: int| 0 <= k < order.len() ==> (#[trigger] order[k]) < map.len()
    &&& forall|a: int, b: int| 0 <= a < b < order.len() ==> order[a] != order[b]
    &&& forall|f: int| 0 <= f < map.len() ==> #[trigger] names(order, f)
    &&& forall|k: int|
        0 <= k && k + 1 < order.len() ==> !entry_before(
            map[(#[trigger] order[k + 1]) as int],
            map[order[k] as int],
        )
}

/// Two to the power `p`.
pub open spec fn pow2(p: u8) -> int {
    (1u64 << (p as u64)) as int
}

/// Where the first `k` entries in the order `order` end: each starts at
/// the next multiple of its alignment behind the one before it.
pub open spec fn run_end(map: Seq<MergedEntry>, order: Seq<usize>, k: int) -> int
    decreases k,
{
    if k <= 0 {
        0
    } else {
        align_up(run_end(map, order, k - 1), pow2(map[order[k - 1] as int].Frag.P2Align))
            + map[order[k - 1] as int].Key@.len()
    }
}

/// Where the entry at position `k` of the order `order` starts.
pub open spec fn run_start(map: Seq<MergedEntry>, order: Seq<usize>, k: int) -> int {
    align_up(run_end(map, order, k), pow2(map[order[k] as int].Frag.P2Align))
}

/// The largest alignment among the first `upto` entries, as a logarithm.
pub open spec fn max_p2align(map: Seq<MergedEntry>, upto: int) -> u8
    decreases upto,
{
    if upto <= 0 {
        0
    } else {
        let m = max_p2align(map, upto - 1);
        if map[upto - 1].Frag.P2Align > m {
            map[upto - 1].Frag.P2Align
        } else {
            m
        }
    }
}

/// Whether the entries laid out in the order `order` fit: every offset in
/// 32 bits, the size of the section in 64.
pub open spec fn layout_fits(map: Seq<MergedEntry>, order: Seq<usize>) -> bool {
    &&& forall|k: int| 0 <= k < order.len() ==> #[trigger] run_start(map, order, k) <= u32::MAX
    &&& align_up(
        run_end(map, order, order.len() as int),
        pow2(max_p2align(map, map.len() as int)),
    ) <= u64::MAX
}

/// Whether `after` is `before` with other offsets: the same pieces with
/// the same alignments.
pub open spec fn offsets_changed(before: Seq<MergedEntry>, after: Seq<MergedEntry>) -> bool {
    &&& after.len() == before.len()
    &&& forall|f: int|
        0 <= f < before.len() ==> #[trigger] after[f] == (MergedEntry {
            Frag: SectionFragment { Offset: after[f].Frag.Offset, ..before[f].Frag },
            ..before[f]
        })
}

/// The order in which the entries of `map` are laid out.
fn SortEntries(map: &Vec<MergedEntry>) -> (order: Vec<usize>)
    ensures
        is_order(order@, map@),
{
    let n: usize = map.len();
    let mut order: Vec<usize> = Vec::with_capacity(n);
    let mut i: usize = 0;
    while i < n
        invariant
            i <= n,
            n == map@.len(),
            order@.len() == i,
            forall|k: int| 0 <= k < i ==> (#[trigger] order@[k]) < i,
            forall|a: int, b: int| 0 <= a < b < i ==> order@[a] != order@[b],
            forall|f: int| 0 <= f < i ==> #[trigger] names(order@, f),
            forall|k: int|
                0 <= k && k + 1 < i ==> !entry_before(
                    map@[(#[trigger] order@[k + 1]) as int],
                    map@[order@[k] as int],
                ),
        decreases n - i,
    {
        let ghost before = order@;
        order.push(i);
        let mut j: usize = i;
        proof {
            assert forall|f: int| 0 <= f < i + 1 implies #[trigger] names(order@, f) by {
                if f < i {
                    assert(names(before, f));
                    let k = choose|k: int| 0 <= k < before.len() && #[trigger] before[k] == f;
                    assert(order@[k] == f);
                } else {
                    assert(order@[i as int] == f);
                }
            }
        }
        while j > 0 && EntryBefore(&map[order[j]], &map[order[j - 1]])
            invariant
                j <= i < n,
                n == map@.len(),
                order@.len() == i + 1,
                order@[j as int] == i,
                forall|k: int| 0 <= k < i + 1 ==> (#[trigger] order@[k]) < i + 1,
                forall|a: int, b: int| 0 <= a < b < i + 1 ==> order@[a] != order@[b],
                forall|f: int| 0 <= f < i + 1 ==> #[trigger] names(order@, f),
                forall|k: int|
                    0 <= k && k + 1 < i + 1 && k + 1 != j ==> !entry_before(
                        map@[(#[trigger] order@[k + 1]) as int],
                        map@[order@[k] as int],
                    ),
                0 < j < i ==> !entry_before(map@[order@[j + 1] as int], map@[order@[j - 1] as int]),
            decreases j,
        {
            let ghost prev = order@;
            let x: usize = order[j - 1];
            order[j - 1] = i;
            order[j] = x;
            proof {
                lemma_entry_before_asym(map@[i as int], map@[x as int]);
                assert forall|f: int| 0 <= f < i + 1 implies #[trigger] names(order@, f) by {
                    assert(names(prev, f));
                    let k = choose|k: int| 0 <= k < prev.len() && #[trigger] prev[k] == f;
                    if k == j {
                        assert(order@[j - 1] == f);
                    } else if k == j - 1 {
                        assert(order@[j as int] == f);
                    } else {
                        assert(order@[k] == f);
                    }
                }
                assert forall|k: int|
                    0 <= k && k + 1 < i + 1 && k + 1 != j - 1 implies !entry_before(
                    map@[(#[trigger] order@[k + 1]) as int],
                    map@[order@[k] as int],
                ) by {
                    if k + 1 == j {
                    } else if k == j {
                        assert(prev[k + 1] == order@[k + 1]);
                    } else {
                        assert(prev[k + 1] == order@[k + 1]);
                        assert(prev[k] == order@[k]);
                    }
                }
                if 0 < j - 1 {
                    assert(prev[(j - 2) + 1] == x);
                }
            }
            j = j - 1;
        }
        i = i + 1;
    }
    order
}

/// Whether the entry `x` is laid out before the entry `y`.
pub fn EntryBefore(x: &MergedEntry, y: &MergedEntry) -> (r: bool)
    ensures
        r == entry_before(*x, *y),
{
    if x.Frag.P2Align != y.Frag.P2Align {
        x.Frag.P2Align > y.Frag.P2Align
    } else {
        BytesBefore(x.Key.as_slice(), y.Key.as_slice())
    }
}

/// A power of two with an exponent below 64 is at least 1.
pub proof fn lemma_pow2_positive(p: u8)
    requires
        p < 64,
    ensures
        pow2(p) >= 1,
{
    let q: u64 = p as u64;
    assert((1u64 << q) >= 1) by (bit_vector)
        requires
            q < 64,
    ;
}

/// Whether the entries of `after` have the offsets that laying out `map`
/// in the order `order` gives, and `shdr` the size and the alignment of the
/// whole.
pub open spec fn laid_out(
    after: Seq<MergedEntry>,
    shdr: Shdr,
    map: Seq<MergedEntry>,
    order: Seq<usize>,
) -> bool {
    &&& forall|k: int|
        0 <= k < order.len() ==> (#[trigger] after[order[k] as int]).Frag.Offset == run_start(
            map,
            order,
            k,
        )
    &&& shdr.Size == align_up(
        run_end(map, order, order.len() as int),
        pow2(max_p2align(map, map.len() as int)),
    )
    &&& shdr.AddrAlign == pow2(max_p2align(map, map.len() as int))
}

proof fn lemma_run_frame(a: Seq<MergedEntry>, b: Seq<MergedEntry>, order: Seq<usize>, k: int)
    requires
        offsets_changed(a, b),
        0 <= k <= order.len(),
        forall|j: int| 0 <= j < order.len() ==> (#[trigger] order[j]) < a.len(),
    ensures
        run_end(a, order, k) == run_end(b, order, k),
        k < order.len() ==> run_start(a, order, k) == run_start(b, order, k),
    decreases k,
{
    if k > 0 {
        lemma_run_frame(a, b, order, k - 1);
        assert(b[order[k - 1] as int].Key == a[order[k - 1] as int].Key);
    }
    if k < order.len() {
        assert(b[order[k] as int].Key == a[order[k] as int].Key);
    }
}

impl MergedSection {
    /// Gives every fragment of the section its offset and the section its
    /// size and alignment. The fragments are laid out by falling alignment,
    /// then by rising length, then by rising bytes; each starts at the next
    /// multiple of its alignment behind the one before it. The section is
    /// aligned as its most aligned fragment, and its size is a multiple of
    /// that alignment. Where an offset does not fit in 32 bits or the size
    /// not in 64, the section header stays as it is.
    #[verifier::rlimit(100)]
    pub fn AssignOffsets(&mut self) -> (r: Result<(), LinkError>)
        requires
            old(self).wf(),
        ensures
            final(self).wf(),
            final(self).Chunk.Name == old(self).Chunk.Name,
            final(self).Chunk.Shndx == old(self).Chunk.Shndx,
            final(self).Chunk.Shdr == (Shdr {
                Size: final(self).Chunk.Shdr.Size,
                AddrAlign: final(self).Chunk.Shdr.AddrAlign,
                ..old(self).Chunk.Shdr
            }),
            offsets_changed(old(self).Map@, final(self).Map@),
            exists|order: Seq<usize>|
                #![trigger is_order(order, old(self).Map@)]
                {
                    &&& is_order(order, old(self).Map@)
                    &&& r is Ok <==> layout_fits(old(self).Map@, order)
                    &&& r is Ok ==> laid_out(
                        final(self).Map@,
                        final(self).Chunk.Shdr,
                        old(self).Map@,
                        order,
                    )
                },
            r is Err ==> r == Err::<(), LinkError>(LinkError::TooLarge) && final(self).Chunk
                == old(self).Chunk,
    {
        let order = SortEntries(&self.Map);
        let n: usize = self.Map.len();
        let ghost map0 = self.Map@;
        let mut widest: u8 = 0;
        let mut c: usize = 0;
        while c < n
            invariant
                c <= n,
                n == self.Map@.len(),
                *self == *old(self),
                self.wf(),
                widest == max_p2align(self.Map@, c as int),
                widest < 64,
            decreases n - c,
        {
            if self.Map[c].Frag.P2Align > widest {
                widest = self.Map[c].Frag.P2Align;
            }
            c = c + 1;
        }
        let mut offset: u64 = 0;
        let mut k: usize = 0;
        while k < n
            invariant
                k <= n,
                n == map0.len(),
                map0 == old(self).Map@,
                old(self).wf(),
                is_order(order@, map0),
                self.Chunk == old(self).Chunk,
                offsets_changed(map0, self.Map@),
                offset == run_end(map0, order@, k as int),
                forall|j: int| 0 <= j < k ==> #[trigger] run_start(map0, order@, j) <= u32::MAX,
                forall|j: int|
                    0 <= j < k ==> (#[trigger] self.Map@[order@[j] as int]).Frag.Offset == run_start(
                        map0,
                        order@,
                        j,
                    ),
                widest == max_p2align(map0, n as int),
                widest < 64,
            decreases n - k,
        {
            let f: usize = order[k];
            let p: u8 = self.Map[f].Frag.P2Align;
            proof {
                assert(map0[f as int].Frag.P2Align < 64);
                lemma_pow2_positive(p);
                lemma_align_up(offset as int, pow2(p));
            }
            let start: u64 = match AlignToChecked(offset, 1u64 << (p as u64)) {
                Some(v) => v,
                None => {
                    assert(run_start(map0, order@, k as int) > u32::MAX);
                    proof {
                        lemma_offsets_wf(*old(self), *self);
                    }
                    return Err(LinkError::TooLarge);
                },
            };
            if start > u32::MAX as u64 {
                assert(run_start(map0, order@, k as int) > u32::MAX);
                proof {
                    lemma_offsets_wf(*old(self), *self);
                }
                return Err(LinkError::TooLarge);
            }
            let len: usize = self.Map[f].Key.len();
            let ghost before = self.Map@;
            self.Map[f].Frag.Offset = start as u32;
            if len as u64 > u64::MAX - start {
                proof {
                    lemma_offsets_wf(*old(self), *self);
                    assert(run_end(map0, order@, k + 1) > u64::MAX);
                    if k + 1 < n {
                        let q = map0[order@[k + 1] as int].Frag.P2Align;
                        lemma_pow2_positive(q);
                        lemma_align_up(run_end(map0, order@, k + 1), pow2(q));
                        assert(run_start(map0, order@, k + 1) > u32::MAX);
                    } else {
                        lemma_pow2_positive(widest);
                        lemma_align_up(run_end(map0, order@, n as int), pow2(widest));
                    }
                }
                return Err(LinkError::TooLarge);
            }
            offset = start + len as u64;
            proof {
                assert forall|j: int| 0 <= j < k + 1 implies (
                #[trigger] self.Map@[order@[j] as int]).Frag.Offset == run_start(
                    map0,
                    order@,
                    j,
                ) by {
                    if j < k {
                        assert(order@[j] != order@[k as int]);
                        assert(self.Map@[order@[j] as int] == before[order@[j] as int]);
                    }
                }
            }
            k = k + 1;
        }
        proof {
            lemma_pow2_positive(widest);
            lemma_offsets_wf(*old(self), *self);
        }
        let size: u64 = match AlignToChecked(offset, 1u64 << (widest as u64)) {
            Some(v) => v,
            None => {
                return Err(LinkError::TooLarge);
            },
        };
        self.Chunk.Shdr.Size = size;
        self.Chunk.Shdr.AddrAlign = 1u64 << (widest as u64);
        proof {
            lemma_offsets_wf(*old(self), *self);
        }
        Ok(())
    }
}

/// A merged section stays in order where only offsets change.
proof fn lemma_offsets_wf(old: MergedSection, new: MergedSection)
    requires
        old.wf(),
        offsets_changed(old.Map@, new.Map@),
    ensures
        new.wf(),
{
    assert forall|i: int, j: int| 0 <= i < j < new.Map@.len() implies new.Map@[i].Key@
        != new.Map@[j].Key@ by {
        assert(old.Map@[i].Key@ != old.Map@[j].Key@);
        assert(new.Map@[i].Key == old.Map@[i].Key);
        assert(new.Map@[j].Key == old.Map@[j].Key);
    }
    assert forall|i: int| 0 <= i < new.Map@.len() implies (#[trigger] new.Map@[i]).Frag.P2Align
        < 64 by {
        assert(old.Map@[i].Frag.P2Align < 64);
    }
}

} // verus!
