//! The coordinate index: per reference, the chunks of each bin and a linear
//! table of smallest offsets per window.
use vstd::prelude::*;
use crate::bins::{candidate_bin, region_to_bins, MAX_POSITION, WINDOW};
use crate::codec::{le_u32, le_u64, read_u32, read_u64};
use crate::record::{Corruption, Error};
use crate::voffset::VirtualOffset;

verus! {

/// A half-open range `[begin, end)` of the decompressed stream.
#[derive(Clone, Copy, Debug, PartialEq, Eq, Structural)]
pub struct Chunk {
    pub begin: VirtualOffset,
    pub end: VirtualOffset,
}

/// The chunks filed under one bin.
#[derive(Debug)]
pub struct Bin {
    pub id: u32,
    pub chunks: Vec<Chunk>,
}

/// The index of one reference.
#[derive(Debug)]
pub struct Reference {
    pub bins: Vec<Bin>,
    /// Entry `k`: smallest offset of a record overlapping window `k`.
    pub linear: Vec<VirtualOffset>,
}

/// The whole index.
#[derive(Debug)]
pub struct Index {
    pub references: Vec<Reference>,
}

/// Magic prefix of an index stream.
pub const INDEX_MAGIC: [u8; 4] = [66, 65, 73, 1];

/// Reads a little-endian `u32` at `*p` and moves past it.
pub fn take_u32(b: &Vec<u8>, p: &mut usize) -> (r: Result<u32, Error>)
    requires
        *old(p) <= b@.len(),
    ensures
        *final(p) <= b@.len(),
        *old(p) + 4 <= b@.len() ==> r == Ok::<u32, Error>(le_u32(b@, *old(p) as int) as u32)
            && *final(p) == *old(p) + 4,
        *old(p) + 4 > b@.len() ==> r == Err::<u32, Error>(Error::Truncated),
{
    if b.len() - *p < 4 {
        return Err(Error::Truncated);
    }
    let v = read_u32(b, *p);
    *p = *p + 4;
    Ok(v)
}

/// Reads a little-endian `u64` at `*p` and moves past it.
pub fn take_u64(b: &Vec<u8>, p: &mut usize) -> (r: Result<u64, Error>)
    requires
        *old(p) <= b@.len(),
    ensures
        *final(p) <= b@.len(),
        *old(p) + 8 <= b@.len() ==> r == Ok::<u64, Error>(le_u64(b@, *old(p) as int) as u64)
            && *final(p) == *old(p) + 8,
        *old(p) + 8 > b@.len() ==> r == Err::<u64, Error>(Error::Truncated),
{
    if b.len() - *p < 8 {
        return Err(Error::Truncated);
    }
    let v = read_u64(b, *p);
    *p = *p + 8;
    Ok(v)
}

/// Is `c` inside `d`?
pub open spec fn covers(d: Chunk, c: Chunk) -> bool {
    d.begin.raw <= c.begin.raw && c.end.raw <= d.end.raw
}

/// The offset below which no record of a window starting at `start` lies.
pub open spec fn min_offset_spec(r: Reference, start: int) -> u64 {
    let w = start / WINDOW as int;
    if w < r.linear@.len() {
        r.linear@[w].raw
    } else {
        0
    }
}

/// `c` cut to start no earlier than `min`.
pub open spec fn clamp(c: Chunk, min: u64) -> Chunk {
    Chunk {
        begin: VirtualOffset { raw: if c.begin.raw < min { min } else { c.begin.raw } },
        end: c.end,
    }
}

/// Chunks ordered by begin, each well formed, and apart by at least a block.
pub open spec fn disjoint_sorted(s: Seq<Chunk>) -> bool {
    &&& forall|k: int| 0 <= k < s.len() ==> #[trigger] s[k].begin.raw <= s[k].end.raw
    &&& forall|k: int|
        0 <= k < s.len() - 1 ==> #[trigger] (s[k].end.raw / 65536) < s[k + 1].begin.raw / 65536
}

/// Is `c` a chunk of reference `ref_id` filed under a bin overlapping
/// `[start, end)`, ending after the linear index's offset for `start`, and cut
/// to begin no earlier than that offset?
pub open spec fn relevant_chunk(idx: Index, ref_id: u32, start: u32, end: u32, c: Chunk) -> bool {
    &&& ref_id < idx.references@.len()
    &&& {
        let rf = idx.references@[ref_id as int];
        let min = min_offset_spec(rf, start as int);
        exists|j: int, k: int|
            0 <= j < rf.bins@.len() && 0 <= k < rf.bins@[j].chunks@.len() && candidate_bin(
                rf.bins@[j].id as int,
                start as int,
                end as int,
            ) && rf.bins@[j].chunks@[k].end.raw > min && c == clamp(
                #[trigger] rf.bins@[j].chunks@[k],
                min,
            )
    }
}

/// Does `d` begin where a relevant chunk begins and end where one ends?
pub open spec fn drawn_from_relevant(idx: Index, ref_id: u32, start: u32, end: u32, d: Chunk) -> bool {
    &&& exists|c: Chunk| relevant_chunk(idx, ref_id, start, end, c) && d.begin == c.begin
    &&& exists|c: Chunk| relevant_chunk(idx, ref_id, start, end, c) && d.end == c.end
}

/// `cs` is sorted and disjoint, each chunk begins where a relevant chunk
/// begins and ends where one ends, and it holds every chunk of reference `ref_id`
/// filed under a bin overlapping `[start, end)` that ends after the linear
/// index's offset for `start`, cut to begin no earlier than that offset.
pub open spec fn chunks_cover(idx: Index, ref_id: u32, start: u32, end: u32, cs: Seq<Chunk>) -> bool {
    &&& disjoint_sorted(cs)
    &&& forall|m: int| 0 <= m < cs.len() ==> drawn_from_relevant(idx, ref_id, start, end, #[trigger] cs[m])
    &&& ref_id >= idx.references@.len() ==> cs.len() == 0
    &&& ref_id < idx.references@.len() ==> {
        let rf = idx.references@[ref_id as int];
        let min = min_offset_spec(rf, start as int);
        forall|j: int, k: int|
            0 <= j < rf.bins@.len() && 0 <= k < rf.bins@[j].chunks@.len() && candidate_bin(
                rf.bins@[j].id as int,
                start as int,
                end as int,
            ) && rf.bins@[j].chunks@[k].end.raw > min ==> exists|m: int|
                0 <= m < cs.len() && covers(cs[m], clamp(#[trigger] rf.bins@[j].chunks@[k], min))
    }
}

/// A bin as plain values: its id and its chunks.
pub type BinView = (u32, Seq<Chunk>);

/// A reference as plain values: its bins and its linear table.
pub type RefView = (Seq<BinView>, Seq<VirtualOffset>);

pub open spec fn bin_view(x: Bin) -> BinView {
    (x.id, x.chunks@)
}

pub open spec fn ref_view(x: Reference) -> RefView {
    (x.bins@.map_values(|y: Bin| bin_view(y)), x.linear@)
}

/// `acc` followed by what `r` parsed, keeping where it ended.
pub open spec fn prepend_seq<T>(acc: Seq<T>, r: Result<(Seq<T>, int), Error>) -> Result<(Seq<T>, int), Error> {
    match r {
        Ok(t) => Ok((acc + t.0, t.1)),
        Err(e) => Err(e),
    }
}

proof fn lemma_prepend_empty<T>(r: Result<(Seq<T>, int), Error>)
    ensures
        prepend_seq(Seq::<T>::empty(), r) == r,
{
    if let Ok(t) = r {
        assert(Seq::<T>::empty() + t.0 =~= t.0);
    }
}

proof fn lemma_prepend_zero<T>(acc: Seq<T>, r: Result<(Seq<T>, int), Error>)
    requires
        r matches Ok(t) && t.0.len() == 0,
    ensures
        prepend_seq(acc, r) == Ok::<(Seq<T>, int), Error>((acc, r->Ok_0.1)),
{
    assert(acc + r->Ok_0.0 =~= acc);
}

proof fn lemma_prepend_step<T>(acc: Seq<T>, x: T, r: Result<(Seq<T>, int), Error>)
    ensures
        prepend_seq(acc.push(x), r) == prepend_seq(
            acc,
            match r {
                Ok(t) => Ok((seq![x] + t.0, t.1)),
                Err(e) => Err(e),
            },
        ),
{
    if let Ok(t) = r {
        assert(acc.push(x) + t.0 =~= acc + (seq![x] + t.0));
    }
}

/// `n` chunks from `p`; `Truncated` when the bytes end early, `BadSize` when a
/// chunk ends before it begins.
pub open spec fn chunks_parse(b: Seq<u8>, p: int, n: nat) -> Result<(Seq<Chunk>, int), Error>
    decreases n,
{
    if n == 0 {
        Ok((Seq::empty(), p))
    } else if p < 0 || b.len() - p < 16 {
        Err(Error::Truncated)
    } else if le_u64(b, p) > le_u64(b, p + 8) {
        Err(Error::Corrupted(Corruption::BadSize))
    } else {
        match chunks_parse(b, p + 16, (n - 1) as nat) {
            Ok(t) => Ok(
                (
                    seq![
                        Chunk {
                            begin: VirtualOffset { raw: le_u64(b, p) as u64 },
                            end: VirtualOffset { raw: le_u64(b, p + 8) as u64 },
                        },
                    ] + t.0,
                    t.1,
                ),
            ),
            Err(e) => Err(e),
        }
    }
}

/// `n` entries of a linear table from `p`.
pub open spec fn linear_parse(b: Seq<u8>, p: int, n: nat) -> Result<(Seq<VirtualOffset>, int), Error>
    decreases n,
{
    if n == 0 {
        Ok((Seq::empty(), p))
    } else if p < 0 || b.len() - p < 8 {
        Err(Error::Truncated)
    } else {
        match linear_parse(b, p + 8, (n - 1) as nat) {
            Ok(t) => Ok((seq![VirtualOffset { raw: le_u64(b, p) as u64 }] + t.0, t.1)),
            Err(e) => Err(e),
        }
    }
}

/// `n` bins from `p`, each an id, a chunk count and its chunks.
pub open spec fn bins_parse(b: Seq<u8>, p: int, n: nat) -> Result<(Seq<BinView>, int), Error>
    decreases n,
{
    if n == 0 {
        Ok((Seq::empty(), p))
    } else if p < 0 || b.len() - p < 8 {
        Err(Error::Truncated)
    } else {
        match chunks_parse(b, p + 8, le_u32(b, p + 4) as nat) {
            Ok(c) => match bins_parse(b, c.1, (n - 1) as nat) {
                Ok(t) => Ok((seq![(le_u32(b, p) as u32, c.0)] + t.0, t.1)),
                Err(e) => Err(e),
            },
            Err(e) => Err(e),
        }
    }
}

/// `n` references from `p`, each its bins and its linear table.
pub open spec fn refs_idx_parse(b: Seq<u8>, p: int, n: nat) -> Result<(Seq<RefView>, int), Error>
    decreases n,
{
    if n == 0 {
        Ok((Seq::empty(), p))
    } else if p < 0 || b.len() - p < 4 {
        Err(Error::Truncated)
    } else {
        match bins_parse(b, p + 4, le_u32(b, p) as nat) {
            Ok(bs) => if bs.1 < 0 || b.len() - bs.1 < 4 {
                Err(Error::Truncated)
            } else {
                match linear_parse(b, bs.1 + 4, le_u32(b, bs.1) as nat) {
                    Ok(ls) => match refs_idx_parse(b, ls.1, (n - 1) as nat) {
                        Ok(t) => Ok((seq![(bs.0, ls.0)] + t.0, t.1)),
                        Err(e) => Err(e),
                    },
                    Err(e) => Err(e),
                }
            },
            Err(e) => Err(e),
        }
    }
}

/// The references that an index stream describes, or why it cannot be read.
pub open spec fn index_parse(b: Seq<u8>) -> Result<(Seq<RefView>, int), Error> {
    if b.len() < 4 {
        Err(Error::Truncated)
    } else if b.subrange(0, 4) != INDEX_MAGIC@ {
        Err(Error::Corrupted(Corruption::InvalidMagic))
    } else if b.len() < 8 {
        Err(Error::Truncated)
    } else {
        refs_idx_parse(b, 8, le_u32(b, 4) as nat)
    }
}

impl Index {
    /// The references as plain values.
    pub open spec fn view_spec(&self) -> Seq<RefView> {
        self.references@.map_values(|x: Reference| ref_view(x))
    }

    /// Every chunk begins no later than it ends.
    pub open spec fn wf(&self) -> bool {
        forall|i: int, j: int, k: int|
            0 <= i < self.references@.len() && 0 <= j < self.references@[i].bins@.len() && 0 <= k
                < self.references@[i].bins@[j].chunks@.len() ==> #[trigger] self.references@[i].bins@[j].chunks@[k].begin.raw
                <= self.references@[i].bins@[j].chunks@[k].end.raw
    }

    /// Reads an index stream: magic, reference count, and per reference its
    /// bins with their chunks and its linear table.
    pub fn from_bytes(b: &Vec<u8>) -> (r: Result<Index, Error>)
        ensures
            b@.len() < 4 ==> r == Err::<Index, Error>(Error::Truncated),
            b@.len() >= 4 && b@.subrange(0, 4) != INDEX_MAGIC@ ==> r == Err::<Index, Error>(
                Error::Corrupted(Corruption::InvalidMagic),
            ),
            match index_parse(b@) {
                Err(e) => r == Err::<Index, Error>(e),
                Ok(t) => r matches Ok(idx) && idx.wf() && idx.view_spec() == t.0,
            },
    {
        if b.len() < 4 {
            return Err(Error::Truncated);
        }
        let magic = INDEX_MAGIC;
        if b[0] != magic[0] || b[1] != magic[1] || b[2] != magic[2] || b[3] != magic[3] {
            proof {
                assert(b@.subrange(0, 4)[0] == b@[0]);
            }
            return Err(Error::Corrupted(Corruption::InvalidMagic));
        }
        assert(b@.subrange(0, 4) =~= INDEX_MAGIC@);
        let mut p: usize = 4;
        let n_ref = take_u32(b, &mut p)?;
        let mut references: Vec<Reference> = Vec::new();
        let mut i: u32 = 0;
        proof {
            lemma_prepend_empty(refs_idx_parse(b@, p as int, n_ref as nat));
            assert(references@.map_values(|x: Reference| ref_view(x)) =~= Seq::<RefView>::empty());
        }
        while i < n_ref
            invariant
                b@.subrange(0, 4) == INDEX_MAGIC@,
                p <= b@.len(),
                i <= n_ref,
                (Index { references }).wf(),
                index_parse(b@) == prepend_seq(
                    references@.map_values(|x: Reference| ref_view(x)),
                    refs_idx_parse(b@, p as int, (n_ref - i) as nat),
                ),
            decreases n_ref - i,
        {
            let ghost p_ref = p;
            let ghost k_ref = (n_ref - i) as nat;
            let ghost acc_ref = references@.map_values(|x: Reference| ref_view(x));
            let n_bin = take_u32(b, &mut p)?;
            let ghost p_bins = p;
            let mut bins: Vec<Bin> = Vec::new();
            let mut j: u32 = 0;
            proof {
                lemma_prepend_empty(bins_parse(b@, p as int, n_bin as nat));
                assert(bins@.map_values(|x: Bin| bin_view(x)) =~= Seq::<BinView>::empty());
            }
            while j < n_bin
                invariant
                    b@.subrange(0, 4) == INDEX_MAGIC@,
                    i < n_ref,
                    k_ref == n_ref - i,
                    p_ref + 4 <= b@.len(),
                    p_bins == p_ref + 4,
                    n_bin == le_u32(b@, p_ref as int),
                    index_parse(b@) == prepend_seq(acc_ref, refs_idx_parse(b@, p_ref as int, k_ref)),
                    p <= b@.len(),
                    j <= n_bin,
                    forall|jj: int, k: int|
                        0 <= jj < bins@.len() && 0 <= k < bins@[jj].chunks@.len() ==> #[trigger] bins@[jj].chunks@[k].begin.raw
                            <= bins@[jj].chunks@[k].end.raw,
                    bins_parse(b@, p_bins as int, n_bin as nat) == prepend_seq(
                        bins@.map_values(|x: Bin| bin_view(x)),
                        bins_parse(b@, p as int, (n_bin - j) as nat),
                    ),
                decreases n_bin - j,
            {
                let ghost p_bin = p;
                let ghost acc_bin = bins@.map_values(|x: Bin| bin_view(x));
                let id = take_u32(b, &mut p)?;
                let n_chunk = take_u32(b, &mut p)?;
                let ghost p_chunks = p;
                let mut chunks: Vec<Chunk> = Vec::new();
                let mut k: u32 = 0;
                proof {
                    lemma_prepend_empty(chunks_parse(b@, p as int, n_chunk as nat));
                    assert(chunks@ =~= Seq::<Chunk>::empty());
                }
                while k < n_chunk
                    invariant
                        b@.subrange(0, 4) == INDEX_MAGIC@,
                        i < n_ref,
                        k_ref == n_ref - i,
                        p_ref + 4 <= b@.len(),
                        p_bins == p_ref + 4,
                        n_bin == le_u32(b@, p_ref as int),
                        index_parse(b@) == prepend_seq(acc_ref, refs_idx_parse(b@, p_ref as int, k_ref)),
                        j < n_bin,
                        p_bin + 8 <= b@.len(),
                        p_chunks == p_bin + 8,
                        id == le_u32(b@, p_bin as int),
                        n_chunk == le_u32(b@, p_bin + 4),
                        bins_parse(b@, p_bins as int, n_bin as nat) == prepend_seq(
                            acc_bin,
                            bins_parse(b@, p_bin as int, (n_bin - j) as nat),
                        ),
                        p <= b@.len(),
                        k <= n_chunk,
                        forall|m: int| 0 <= m < chunks@.len() ==> #[trigger] chunks@[m].begin.raw <= chunks@[m].end.raw,
                        chunks_parse(b@, p_chunks as int, n_chunk as nat) == prepend_seq(
                            chunks@,
                            chunks_parse(b@, p as int, (n_chunk - k) as nat),
                        ),
                    decreases n_chunk - k,
                {
                    let ghost p_c = p;
                    let begin = take_u64(b, &mut p)?;
                    let end = take_u64(b, &mut p)?;
                    if begin > end {
                        return Err(Error::Corrupted(Corruption::BadSize));
                    }
                    let c = Chunk { begin: VirtualOffset::from_raw(begin), end: VirtualOffset::from_raw(end) };
                    proof {
                        lemma_prepend_step(chunks@, c, chunks_parse(b@, p as int, (n_chunk - k - 1) as nat));
                    }
                    chunks.push(c);
                    k = k + 1;
                }
                let ghost cv = chunks@;
                let ghost old_bins = bins@;
                proof {
                    lemma_prepend_step(acc_bin, (id, cv), bins_parse(b@, p as int, (n_bin - j - 1) as nat));
                }
                bins.push(Bin { id, chunks });
                proof {
                    assert(bins@.map_values(|x: Bin| bin_view(x)) =~= acc_bin.push((id, cv)));
                    assert forall|jj: int, k: int|
                        0 <= jj < bins@.len() && 0 <= k < bins@[jj].chunks@.len() implies #[trigger] bins@[jj].chunks@[k].begin.raw
                            <= bins@[jj].chunks@[k].end.raw by {
                        if jj < old_bins.len() {
                            assert(bins@[jj] == old_bins[jj]);
                        }
                    }
                }
                j = j + 1;
            }
            let ghost bv = bins@.map_values(|x: Bin| bin_view(x));
            proof {
                lemma_prepend_zero(bv, bins_parse(b@, p as int, 0));
            }
            let n_intv = take_u32(b, &mut p)?;
            let ghost p_lin = p;
            let mut linear: Vec<VirtualOffset> = Vec::new();
            let mut k: u32 = 0;
            proof {
                lemma_prepend_empty(linear_parse(b@, p as int, n_intv as nat));
                assert(linear@ =~= Seq::<VirtualOffset>::empty());
            }
            while k < n_intv
                invariant
                    b@.subrange(0, 4) == INDEX_MAGIC@,
                    i < n_ref,
                    k_ref == n_ref - i,
                    p_ref + 4 <= b@.len(),
                    p_bins == p_ref + 4,
                    n_bin == le_u32(b@, p_ref as int),
                    index_parse(b@) == prepend_seq(acc_ref, refs_idx_parse(b@, p_ref as int, k_ref)),
                    p_lin >= 4,
                    bins_parse(b@, p_bins as int, n_bin as nat) == Ok::<(Seq<BinView>, int), Error>((bv, p_lin - 4)),
                    n_intv == le_u32(b@, p_lin - 4),
                    p <= b@.len(),
                    k <= n_intv,
                    linear_parse(b@, p_lin as int, n_intv as nat) == prepend_seq(
                        linear@,
                        linear_parse(b@, p as int, (n_intv - k) as nat),
                    ),
                decreases n_intv - k,
            {
                let v = take_u64(b, &mut p)?;
                let vo = VirtualOffset::from_raw(v);
                proof {
                    lemma_prepend_step(linear@, vo, linear_parse(b@, p as int, (n_intv - k - 1) as nat));
                }
                linear.push(vo);
                k = k + 1;
            }
            let ghost lv = linear@;
            proof {
                lemma_prepend_zero(lv, linear_parse(b@, p as int, 0));
                lemma_prepend_step(acc_ref, (bv, lv), refs_idx_parse(b@, p as int, (n_ref - i - 1) as nat));
            }
            let ghost old_refs = references@;
            let ghost old_idx = Index { references };
            let ghost new_bins = bins@;
            references.push(Reference { bins, linear });
            proof {
                assert(references@.map_values(|x: Reference| ref_view(x)) =~= acc_ref.push((bv, lv)));
                let idx = Index { references };
                assert forall|a: int, jj: int, k: int|
                    0 <= a < idx.references@.len() && 0 <= jj < idx.references@[a].bins@.len() && 0 <= k
                        < idx.references@[a].bins@[jj].chunks@.len() implies #[trigger] idx.references@[a].bins@[jj].chunks@[k].begin.raw
                        <= idx.references@[a].bins@[jj].chunks@[k].end.raw by {
                    if a < old_refs.len() {
                        assert(idx.references@[a] == old_refs[a]);
                        assert(old_idx.references@[a].bins@[jj].chunks@[k].begin.raw
                            <= old_idx.references@[a].bins@[jj].chunks@[k].end.raw);
                    } else {
                        assert(idx.references@[a].bins@ == new_bins);
                        assert(new_bins[jj].chunks@[k].begin.raw <= new_bins[jj].chunks@[k].end.raw);
                    }
                }
            }
            i = i + 1;
        }
        proof {
            lemma_prepend_zero(references@.map_values(|x: Reference| ref_view(x)), refs_idx_parse(b@, p as int, 0));
        }
        Ok(Index { references })
    }

    /// The chunks that may hold records of `[start, end)` on reference
    /// `ref_id`: those of the bins overlapping the interval that end after the
    /// linear index's offset for `start`, cut to begin no earlier than it,
    /// sorted and merged where they meet within a block.
    #[verifier::rlimit(100)]
    pub fn fetch_chunks(&self, ref_id: u32, start: u32, end: u32) -> (r: Vec<Chunk>)
        requires
            self.wf(),
            start < end <= MAX_POSITION,
        ensures
            chunks_cover(*self, ref_id, start, end, r@),
    {
        if ref_id as usize >= self.references.len() {
            return Vec::new();
        }
        let rf = &self.references[ref_id as usize];
        let ghost ri = ref_id as int;
        assert(forall|j: int, k: int|
            0 <= j < rf.bins@.len() && 0 <= k < rf.bins@[j].chunks@.len() ==> #[trigger] rf.bins@[j].chunks@[k].begin.raw
                <= rf.bins@[j].chunks@[k].end.raw) by {
            assert forall|j: int, k: int|
                0 <= j < rf.bins@.len() && 0 <= k < rf.bins@[j].chunks@.len() implies #[trigger] rf.bins@[j].chunks@[k].begin.raw
                <= rf.bins@[j].chunks@[k].end.raw by {
                assert(self.references@[ri].bins@[j].chunks@[k] == rf.bins@[j].chunks@[k]);
            }
        }
        let bins = region_to_bins(start, end);
        let w = (start / WINDOW) as usize;
        let min: u64 = if w < rf.linear.len() {
            rf.linear[w].raw
        } else {
            0
        };
        assert(min == min_offset_spec(*rf, start as int));
        // Candidates, each cut to begin at `min` at the earliest.
        let mut cands: Vec<Chunk> = Vec::new();
        let mut j: usize = 0;
        while j < rf.bins.len()
            invariant
                j <= rf.bins@.len(),
                ref_id < self.references@.len(),
                *rf == self.references@[ref_id as int],
                min == min_offset_spec(*rf, start as int),
                forall|m: int| 0 <= m < cands@.len() ==> relevant_chunk(*self, ref_id, start, end, #[trigger] cands@[m]),
                forall|m: int| 0 <= m < cands@.len() ==> #[trigger] cands@[m].begin.raw <= cands@[m].end.raw,
                forall|jj: int, k: int|
                    0 <= jj < rf.bins@.len() && 0 <= k < rf.bins@[jj].chunks@.len() ==> #[trigger] rf.bins@[jj].chunks@[k].begin.raw
                        <= rf.bins@[jj].chunks@[k].end.raw,
                forall|jj: int, k: int|
                    0 <= jj < j && 0 <= k < rf.bins@[jj].chunks@.len() && candidate_bin(
                        rf.bins@[jj].id as int,
                        start as int,
                        end as int,
                    ) && rf.bins@[jj].chunks@[k].end.raw > min ==> cands@.contains(
                        clamp(#[trigger] rf.bins@[jj].chunks@[k], min),
                    ),
                forall|b: u16| bins@.contains(b) <==> candidate_bin(b as int, start as int, end as int),
            decreases rf.bins@.len() - j,
        {
            let bin = &rf.bins[j];
            let wanted = bin.id <= 0xffff && contains_bin(&bins, bin.id as u16);
            let mut k: usize = 0;
            while k < bin.chunks.len()
                invariant
                    k <= bin.chunks@.len(),
                    *bin == rf.bins@[j as int],
                    j < rf.bins@.len(),
                    wanted == (bin.id <= 0xffff && bins@.contains(bin.id as u16)),
                    ref_id < self.references@.len(),
                    *rf == self.references@[ref_id as int],
                    min == min_offset_spec(*rf, start as int),
                    forall|b: u16| bins@.contains(b) <==> candidate_bin(b as int, start as int, end as int),
                    forall|m: int| 0 <= m < cands@.len() ==> relevant_chunk(*self, ref_id, start, end, #[trigger] cands@[m]),
                    forall|m: int| 0 <= m < cands@.len() ==> #[trigger] cands@[m].begin.raw <= cands@[m].end.raw,
                    forall|jj: int, kk: int|
                        0 <= jj < rf.bins@.len() && 0 <= kk < rf.bins@[jj].chunks@.len() ==> #[trigger] rf.bins@[jj].chunks@[kk].begin.raw
                            <= rf.bins@[jj].chunks@[kk].end.raw,
                    forall|jj: int, kk: int|
                        0 <= jj < j && 0 <= kk < rf.bins@[jj].chunks@.len() && candidate_bin(
                            rf.bins@[jj].id as int,
                            start as int,
                            end as int,
                        ) && rf.bins@[jj].chunks@[kk].end.raw > min ==> cands@.contains(
                            clamp(#[trigger] rf.bins@[jj].chunks@[kk], min),
                        ),
                    forall|kk: int|
                        0 <= kk < k && wanted && bin.chunks@[kk].end.raw > min ==> cands@.contains(
                            clamp(#[trigger] bin.chunks@[kk], min),
                        ),
                decreases bin.chunks@.len() - k,
            {
                let c = bin.chunks[k];
                if wanted && c.end.raw > min {
                    let begin = if c.begin.raw < min {
                        min
                    } else {
                        c.begin.raw
                    };
                    let cut = Chunk { begin: VirtualOffset { raw: begin }, end: c.end };
                    assert(rf.bins@[j as int].chunks@[k as int] == c);
                    let ghost old_c = cands@;
                    cands.push(cut);
                    proof {
                        assert(cands@[cands@.len() - 1] == cut);
                        assert(cut == clamp(c, min));
                        assert(candidate_bin(bin.id as int, start as int, end as int));
                        assert(relevant_chunk(*self, ref_id, start, end, cut)) by {
                            assert(cut == clamp(rf.bins@[j as int].chunks@[k as int], min));
                        }
                        assert forall|m: int| 0 <= m < cands@.len() implies relevant_chunk(*self, ref_id, start, end, #[trigger] cands@[m]) by {
                            if m < old_c.len() {
                                assert(cands@[m] == old_c[m]);
                            }
                        }
                        assert forall|x: Chunk| old_c.contains(x) implies cands@.contains(x) by {
                            let q = choose|q: int| 0 <= q < old_c.len() && old_c[q] == x;
                            assert(cands@[q] == x);
                        }
                    }
                }
                k = k + 1;
            }
            proof {
                assert forall|jj: int, kk: int|
                    0 <= jj < j + 1 && 0 <= kk < rf.bins@[jj].chunks@.len() && candidate_bin(
                        rf.bins@[jj].id as int,
                        start as int,
                        end as int,
                    ) && rf.bins@[jj].chunks@[kk].end.raw > min implies cands@.contains(
                    clamp(#[trigger] rf.bins@[jj].chunks@[kk], min),
                ) by {
                    if jj == j {
                        assert(candidate_bin(bin.id as int, start as int, end as int));
                        assert(bin.id <= 0xffff);
                        assert(bins@.contains(bin.id as u16));
                    }
                }
            }
            j = j + 1;
        }
        let sorted = sort_chunks(cands);
        let merged = merge_chunks(&sorted);
        assert forall|jj: int, k: int|
            0 <= jj < rf.bins@.len() && 0 <= k < rf.bins@[jj].chunks@.len() && candidate_bin(
                rf.bins@[jj].id as int,
                start as int,
                end as int,
            ) && rf.bins@[jj].chunks@[k].end.raw > min implies exists|m: int|
            0 <= m < merged@.len() && covers(merged@[m], clamp(#[trigger] rf.bins@[jj].chunks@[k], min)) by {
            let c = clamp(rf.bins@[jj].chunks@[k], min);
            assert(sorted@.contains(c));
            let i = choose|i: int| 0 <= i < sorted@.len() && sorted@[i] == c;
            assert(covers(sorted@[i], c));
        }
        assert forall|q: int| 0 <= q < merged@.len() implies drawn_from_relevant(*self, ref_id, start, end, #[trigger] merged@[q]) by {
            assert(has_begin(sorted@, merged@[q].begin) && has_end(sorted@, merged@[q].end));
            let m1 = choose|m: int| 0 <= m < sorted@.len() && #[trigger] sorted@[m].begin == merged@[q].begin;
            let m2 = choose|m: int| 0 <= m < sorted@.len() && #[trigger] sorted@[m].end == merged@[q].end;
            assert(cands@.contains(sorted@[m1]));
            assert(cands@.contains(sorted@[m2]));
            let i1 = choose|i: int| 0 <= i < cands@.len() && cands@[i] == sorted@[m1];
            let i2 = choose|i: int| 0 <= i < cands@.len() && cands@[i] == sorted@[m2];
            assert(relevant_chunk(*self, ref_id, start, end, cands@[i1]));
            assert(relevant_chunk(*self, ref_id, start, end, cands@[i2]));
        }
        merged
    }
}

fn contains_bin(bins: &Vec<u16>, b: u16) -> (r: bool)
    ensures
        r == bins@.contains(b),
{
    let mut i: usize = 0;
    while i < bins.len()
        invariant
            i <= bins@.len(),
            forall|k: int| 0 <= k < i ==> bins@[k] != b,
        decreases bins@.len() - i,
    {
        if bins[i] == b {
            return true;
        }
        i = i + 1;
    }
    false
}

/// The chunks ordered by begin.
fn sort_chunks(v: Vec<Chunk>) -> (r: Vec<Chunk>)
    requires
        forall|m: int| 0 <= m < v@.len() ==> #[trigger] v@[m].begin.raw <= v@[m].end.raw,
    ensures
        forall|m: int| 0 <= m < r@.len() ==> #[trigger] r@[m].begin.raw <= r@[m].end.raw,
        forall|a: int, b: int| 0 <= a < b < r@.len() ==> r@[a].begin.raw <= r@[b].begin.raw,
        forall|c: Chunk| v@.contains(c) ==> r@.contains(c),
        forall|q: int| 0 <= q < r@.len() ==> v@.contains(#[trigger] r@[q]),
{
    let mut r: Vec<Chunk> = Vec::new();
    let mut i: usize = 0;
    while i < v.len()
        invariant
            i <= v@.len(),
            forall|m: int| 0 <= m < v@.len() ==> #[trigger] v@[m].begin.raw <= v@[m].end.raw,
            forall|m: int| 0 <= m < r@.len() ==> #[trigger] r@[m].begin.raw <= r@[m].end.raw,
            forall|a: int, b: int| 0 <= a < b < r@.len() ==> r@[a].begin.raw <= r@[b].begin.raw,
            forall|m: int| 0 <= m < i ==> r@.contains(#[trigger] v@[m]),
            forall|q: int| 0 <= q < r@.len() ==> v@.contains(#[trigger] r@[q]),
        decreases v@.len() - i,
    {
        let c = v[i];
        let mut p: usize = 0;
        while p < r.len() && r[p].begin.raw <= c.begin.raw
            invariant
                p <= r@.len(),
                forall|m: int| 0 <= m < p ==> #[trigger] r@[m].begin.raw <= c.begin.raw,
            decreases r@.len() - p,
        {
            p = p + 1;
        }
        let ghost before = r@;
        r.insert(p, c);
        assert(r@ == before.insert(p as int, c));
        assert(r@[p as int] == c);
        assert forall|m: int| 0 <= m < i + 1 implies r@.contains(#[trigger] v@[m]) by {
            if m < i {
                let q = choose|q: int| 0 <= q < before.len() && before[q] == v@[m];
                if q < p {
                    assert(r@[q] == v@[m]);
                } else {
                    assert(r@[q + 1] == v@[m]);
                }
            } else {
                assert(r@[p as int] == v@[m]);
            }
        }
        assert forall|q: int| 0 <= q < r@.len() implies v@.contains(#[trigger] r@[q]) by {
            if q < p {
                assert(r@[q] == before[q]);
            } else if q == p {
                assert(v@[i as int] == r@[q]);
            } else {
                assert(r@[q] == before[q - 1]);
            }
        }
        i = i + 1;
    }
    assert forall|c: Chunk| v@.contains(c) implies r@.contains(c) by {
        let m = choose|m: int| 0 <= m < v@.len() && v@[m] == c;
        assert(r@.contains(v@[m]));
    }
    r
}

/// Does some chunk of `v` begin at `x`?
pub open spec fn has_begin(v: Seq<Chunk>, x: VirtualOffset) -> bool {
    exists|m: int| 0 <= m < v.len() && #[trigger] v[m].begin == x
}

/// Does some chunk of `v` end at `x`?
pub open spec fn has_end(v: Seq<Chunk>, x: VirtualOffset) -> bool {
    exists|m: int| 0 <= m < v.len() && #[trigger] v[m].end == x
}

/// Merges neighbouring chunks of a sorted list that meet within a block.
fn merge_chunks(v: &Vec<Chunk>) -> (r: Vec<Chunk>)
    requires
        forall|m: int| 0 <= m < v@.len() ==> #[trigger] v@[m].begin.raw <= v@[m].end.raw,
        forall|a: int, b: int| 0 <= a < b < v@.len() ==> v@[a].begin.raw <= v@[b].begin.raw,
    ensures
        disjoint_sorted(r@),
        forall|m: int| 0 <= m < v@.len() ==> exists|q: int| 0 <= q < r@.len() && covers(r@[q], #[trigger] v@[m]),
        forall|q: int| 0 <= q < r@.len() ==> has_begin(v@, #[trigger] r@[q].begin) && has_end(v@, r@[q].end),
{
    let mut r: Vec<Chunk> = Vec::new();
    let mut i: usize = 0;
    while i < v.len()
        invariant
            i <= v@.len(),
            forall|m: int| 0 <= m < v@.len() ==> #[trigger] v@[m].begin.raw <= v@[m].end.raw,
            forall|a: int, b: int| 0 <= a < b < v@.len() ==> v@[a].begin.raw <= v@[b].begin.raw,
            disjoint_sorted(r@),
            i > 0 ==> r@.len() > 0,
            r@.len() > 0 ==> exists|m: int| 0 <= m < i && r@.last().begin == #[trigger] v@[m].begin,
            forall|m: int| 0 <= m < i ==> exists|q: int| 0 <= q < r@.len() && covers(r@[q], #[trigger] v@[m]),
            forall|q: int| 0 <= q < r@.len() ==> has_begin(v@, #[trigger] r@[q].begin) && has_end(v@, r@[q].end),
        decreases v@.len() - i,
    {
        let c = v[i];
        let n = r.len();
        let ghost before = r@;
        if n > 0 && r[n - 1].end.raw / 65536 >= c.begin.raw / 65536 {
            let last = r[n - 1];
            let end = if c.end.raw > last.end.raw {
                c.end
            } else {
                last.end
            };
            r.set(n - 1, Chunk { begin: last.begin, end });
            assert forall|m: int| 0 <= m < i + 1 implies exists|q: int| 0 <= q < r@.len() && covers(r@[q], #[trigger] v@[m]) by {
                if m < i {
                    let q = choose|q: int| 0 <= q < before.len() && covers(before[q], v@[m]);
                    assert(covers(r@[q], v@[m]));
                } else {
                    let mm = choose|mm: int| 0 <= mm < i && before.last().begin == #[trigger] v@[mm].begin;
                    assert(covers(r@[n - 1], v@[m]));
                }
            }
            assert(r@.last().begin == before.last().begin);
            assert forall|q: int| 0 <= q < r@.len() implies has_begin(v@, #[trigger] r@[q].begin) && has_end(v@, r@[q].end) by {
                if q < n - 1 {
                    assert(r@[q] == before[q]);
                } else {
                    assert(r@[q].begin == before[q].begin);
                    if c.end.raw > last.end.raw {
                        assert(r@[q].end == v@[i as int].end);
                    } else {
                        assert(r@[q].end == before[q].end);
                    }
                }
            }
        } else {
            r.push(c);
            assert forall|m: int| 0 <= m < i + 1 implies exists|q: int| 0 <= q < r@.len() && covers(r@[q], #[trigger] v@[m]) by {
                if m < i {
                    let q = choose|q: int| 0 <= q < before.len() && covers(before[q], v@[m]);
                    assert(covers(r@[q], v@[m]));
                } else {
                    assert(covers(r@[n as int], v@[m]));
                }
            }
            assert(r@.last().begin == v@[i as int].begin);
            assert forall|q: int| 0 <= q < r@.len() implies has_begin(v@, #[trigger] r@[q].begin) && has_end(v@, r@[q].end) by {
                if q < n {
                    assert(r@[q] == before[q]);
                } else {
                    assert(r@[q] == v@[i as int]);
                }
            }
        }
        i = i + 1;
    }
    r
}

} // verus!
