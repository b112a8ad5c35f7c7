//! Pileup: transposes coordinate-sorted records into per-position columns of
//! the records that cover each reference position.
use vstd::prelude::*;
use std::rc::Rc;
use crate::codec::copy_range;
use crate::region::lemma_reverse_drop_last;
use crate::record::{
    has_ref_op,
    consumes_query, consumes_query_spec, consumes_ref, consumes_ref_spec, lemma_len_prefix_mono,
    lemma_query_len_nonneg, lemma_ref_len_nonneg, lemma_take_step, lemma_trailing_clip_after, lemma_trailing_clip_bounds,
    query_len, ref_len, all_wf, trailing_soft_clip, CigarOp, Corruption, Error, Record, OP_HARD_CLIP,
    OP_SOFT_CLIP, MAX_COORD,
};

verus! {

/// How a record's sequence lines up with one reference position.
#[derive(Clone, Copy, Debug, PartialEq, Eq, Structural)]
pub enum AlnType {
    /// The position is deleted in the record.
    Deletion,
    /// A single base matches (or mismatches) the position.
    Match,
    /// A single base followed by an insertion of the given length.
    Insertion(u32),
}

/// The classification of an aligned stretch of `len` query bases.
pub open spec fn aln_type_of(len: int) -> AlnType {
    if len == 0 {
        AlnType::Deletion
    } else if len == 1 {
        AlnType::Match
    } else {
        AlnType::Insertion((len - 1) as u32)
    }
}

/// Lexicographic order on `(ref_id, ref_pos)`.
pub open spec fn pos_lt(a: (u32, u32), b: (u32, u32)) -> bool {
    a.0 < b.0 || (a.0 == b.0 && a.1 < b.1)
}

pub open spec fn pos_le(a: (u32, u32), b: (u32, u32)) -> bool {
    pos_lt(a, b) || a == b
}

/// The query end reached from `qe` by taking in the query-only operations
/// from index `i` on, stopping at a reference operation or at `limit`.
pub open spec fn scan_insertion(c: Seq<CigarOp>, i: int, qe: int, limit: int) -> int
    decreases c.len() - i,
{
    if i < 0 || i >= c.len() || qe >= limit || consumes_ref_spec(c[i].op) {
        qe
    } else if consumes_query_spec(c[i].op) {
        scan_insertion(c, i + 1, qe + c[i].len, limit)
    } else {
        scan_insertion(c, i + 1, qe, limit)
    }
}

/// Where a cursor goes after the last base of an operation: the first
/// operation from `i` on with reference bases, and the query position there,
/// walking over query-only operations; `None` when the cigar ends or the query
/// reaches `aln_end` first.
pub open spec fn next_ref_base(c: Seq<CigarOp>, i: int, qs: int, aln_end: int) -> Option<(int, int)>
    decreases c.len() - i,
{
    if i < 0 || i >= c.len() || qs >= aln_end {
        None
    } else if consumes_ref_spec(c[i].op) && c[i].len > 0 {
        Some((i, qs))
    } else {
        next_ref_base(
            c,
            i + 1,
            qs + if !consumes_ref_spec(c[i].op) && consumes_query_spec(c[i].op) {
                c[i].len as int
            } else {
                0
            },
            aln_end,
        )
    }
}

/// A record that covers a reference position, with the part of its query
/// aligned to that position.
#[derive(Debug)]
pub struct PileupEntry {
    record: Rc<Record>,
    query_start: u32,
    query_end: u32,
    aln_query_end: u32,
    ref_pos: u32,
    cigar_index: usize,
    cigar_remaining: u32,
}

impl PileupEntry {
    pub closed spec fn record_spec(&self) -> Record {
        *self.record
    }

    pub closed spec fn query_start_spec(&self) -> u32 {
        self.query_start
    }

    pub closed spec fn query_end_spec(&self) -> u32 {
        self.query_end
    }

    pub closed spec fn ref_pos_spec(&self) -> u32 {
        self.ref_pos
    }

    /// Does the alignment go on to another reference position after this one?
    pub closed spec fn continues(&self) -> bool {
        self.cigar_remaining > 1 || next_ref_base(
            self.record.cigar@,
            self.cigar_index + 1,
            self.query_start + if consumes_query_spec(self.record.cigar@[self.cigar_index as int].op) {
                1int
            } else {
                0
            },
            self.aln_query_end as int,
        ) is Some
    }

    /// Reference id and position of the entry.
    pub open spec fn pos(&self) -> (u32, u32) {
        (self.record_spec().ref_id as u32, self.ref_pos_spec())
    }

    /// The query end that the cursor state determines.
    spec fn expected_query_end(&self) -> int {
        let c = self.record.cigar@;
        let op = c[self.cigar_index as int].op;
        if !consumes_query_spec(op) {
            self.query_start as int
        } else if self.cigar_remaining == 1 {
            let q = scan_insertion(
                c,
                self.cigar_index + 1,
                self.query_start + 1,
                self.aln_query_end as int,
            );
            if q < self.aln_query_end {
                q
            } else {
                self.aln_query_end as int
            }
        } else {
            self.query_start + 1
        }
    }

    /// The cursor state before `query_end` is derived from it.
    spec fn cursor_wf(&self) -> bool {
        let r = *self.record;
        let c = r.cigar@;
        let i = self.cigar_index as int;
        &&& r.wf()
        &&& r.is_mapped_spec()
        &&& i < c.len()
        &&& consumes_ref_spec(c[i].op)
        &&& 0 < self.cigar_remaining <= c[i].len
        &&& self.ref_pos == r.start + ref_len(c.take(i)) + (c[i].len - self.cigar_remaining)
        &&& self.query_start == query_len(c.take(i)) + if consumes_query_spec(c[i].op) {
            c[i].len - self.cigar_remaining
        } else {
            0
        }
        &&& self.aln_query_end == r.aligned_query_end_spec()
    }

    /// The entry's invariant.
    pub closed spec fn wf(&self) -> bool {
        &&& self.cursor_wf()
        &&& self.query_end == self.expected_query_end()
        &&& self.query_start <= self.query_end <= self.aln_query_end
    }

    proof fn lemma_cursor_bounds(&self)
        requires
            self.cursor_wf(),
        ensures
            self.query_start <= self.aln_query_end,
            consumes_query_spec(self.record.cigar@[self.cigar_index as int].op)
                ==> self.query_start < self.aln_query_end,
            self.ref_pos < MAX_COORD,
            self.aln_query_end <= query_len(self.record.cigar@),
    {
        lemma_trailing_clip_bounds(self.record.cigar@);
        let r = *self.record;
        let c = r.cigar@;
        let i = self.cigar_index as int;
        lemma_take_step(c, i);
        lemma_trailing_clip_after(c, i);
        lemma_len_prefix_mono(c, i + 1, c.len() as int);
        assert(c.take(c.len() as int) =~= c);
    }

    /// Reference id and position of the entry.
    fn position(&self) -> (r: (u32, u32))
        requires
            self.wf(),
        ensures
            r == self.pos(),
    {
        (self.record.ref_id as u32, self.ref_pos)
    }

    /// An entry only stands at a position that its record's alignment
    /// covers: from the record's start up to, not including, its end.
    pub proof fn lemma_within_alignment(&self)
        requires
            self.wf(),
        ensures
            self.record_spec().start <= self.ref_pos_spec() < self.record_spec().end_spec(),
            self.pos().0 as int == self.record_spec().ref_id,
    {
        let r = *self.record;
        let c = r.cigar@;
        let i = self.cigar_index as int;
        lemma_take_step(c, i);
        lemma_ref_len_nonneg(c.take(i));
        lemma_len_prefix_mono(c, i + 1, c.len() as int);
        assert(c.take(c.len() as int) =~= c);
        assert(has_ref_op(c)) by {
            assert(consumes_ref_spec(c[i].op));
        }
    }

    /// A copy of the entry that shares its record.
    pub fn snapshot(&self) -> (r: PileupEntry)
        ensures
            r == *self,
    {
        PileupEntry {
            record: Rc::clone(&self.record),
            query_start: self.query_start,
            query_end: self.query_end,
            aln_query_end: self.aln_query_end,
            ref_pos: self.ref_pos,
            cigar_index: self.cigar_index,
            cigar_remaining: self.cigar_remaining,
        }
    }

    /// Starts walking a mapped record at its first aligned reference base.
    fn new(record: Rc<Record>) -> (r: PileupEntry)
        requires
            record.wf(),
            record.is_mapped_spec(),
            ref_len(record.cigar@) > 0,
        ensures
            r.wf(),
            r.record_spec() == *record,
            r.ref_pos_spec() == record.start,
    {
        let ghost c = record.cigar@;
        let mut cigar_index: usize = 0;
        let mut query_pos: u32 = 0;
        let mut found = false;
        proof {
            lemma_query_len_nonneg(c);
        }
        while !found && cigar_index < record.cigar.len()
            invariant
                c == record.cigar@,
                cigar_index <= c.len(),
                ref_len(c.take(cigar_index as int)) == 0,
                found ==> cigar_index < c.len() && consumes_ref_spec(c[cigar_index as int].op)
                    && c[cigar_index as int].len > 0,
                query_pos == query_len(c.take(cigar_index as int)),
                query_pos <= query_len(c),
                record.wf(),
                ref_len(c) > 0,
            decreases c.len() - cigar_index + if found { 0int } else { 1 },
        {
            let op = record.cigar[cigar_index];
            if consumes_ref(op.op) && op.len > 0 {
                found = true;
            } else {
                proof {
                    lemma_take_step(c, cigar_index as int);
                    lemma_len_prefix_mono(c, cigar_index + 1, c.len() as int);
                    assert(c.take(c.len() as int) =~= c);
                }
                if consumes_query(op.op) {
                    query_pos = query_pos + op.len;
                }
                cigar_index = cigar_index + 1;
            }
        }
        proof {
            if !found {
                assert(c.take(c.len() as int) =~= c);
            }
        }
        let cigar_remaining = record.cigar[cigar_index].len;
        let aln_query_end = record.aligned_query_end();
        let ref_pos = record.start as u32;
        proof {
            lemma_ref_len_nonneg(c.take(cigar_index as int));
        }
        let mut res = PileupEntry {
            record,
            query_start: query_pos,
            query_end: query_pos,
            aln_query_end,
            ref_pos,
            cigar_index,
            cigar_remaining,
        };
        res.update_query_end();
        res
    }

    /// Derives `query_end` from the cursor: the query base at the position,
    /// followed by the insertion that comes after the last base of an operation.
    fn update_query_end(&mut self)
        requires
            old(self).cursor_wf(),
        ensures
            final(self).wf(),
            final(self).record == old(self).record,
            final(self).ref_pos == old(self).ref_pos,
            final(self).cigar_index == old(self).cigar_index,
            final(self).cigar_remaining == old(self).cigar_remaining,
            final(self).query_start == old(self).query_start,
            final(self).aln_query_end == old(self).aln_query_end,
    {
        proof {
            self.lemma_cursor_bounds();
        }
        let op = self.record.cigar[self.cigar_index].op;
        if !consumes_query(op) {
            self.query_end = self.query_start;
        } else if self.cigar_remaining == 1 {
            let ghost c = self.record.cigar@;
            let ghost limit = self.aln_query_end as int;
            let mut query_end: u64 = self.query_start as u64 + 1;
            let mut i: usize = self.cigar_index + 1;
            let mut stop = false;
            while !stop && i < self.record.cigar.len() && query_end < self.aln_query_end as u64
                invariant
                    c == self.record.cigar@,
                    limit == self.aln_query_end,
                    limit <= 0xffff_ffff,
                    self.cigar_index < i <= c.len(),
                    query_end <= limit + 0xffff_ffff,
                    self.query_start + 1 <= query_end,
                    stop ==> i < c.len() && consumes_ref_spec(c[i as int].op),
                    scan_insertion(c, self.cigar_index + 1, self.query_start + 1, limit)
                        == scan_insertion(c, i as int, query_end as int, limit),
                decreases c.len() - i + if stop { 0int } else { 1 },
            {
                let next = self.record.cigar[i];
                if consumes_ref(next.op) {
                    stop = true;
                } else {
                    if consumes_query(next.op) {
                        query_end = query_end + next.len as u64;
                    }
                    i = i + 1;
                }
            }
            assert(scan_insertion(c, self.cigar_index + 1, self.query_start + 1, limit)
                == query_end);
            if query_end < self.aln_query_end as u64 {
                self.query_end = query_end as u32;
            } else {
                self.query_end = self.aln_query_end;
            }
        } else {
            self.query_end = self.query_start + 1;
        }
    }

    /// Moves the cursor to the next reference position. Returns false when
    /// the alignment has no further reference base to visit.
    fn move_forward(&mut self) -> (r: bool)
        requires
            old(self).wf(),
        ensures
            final(self).record == old(self).record,
            r ==> final(self).wf(),
            final(self).ref_pos == old(self).ref_pos + 1,
            r == old(self).continues(),
            !r ==> final(self).cigar_index == final(self).record.cigar@.len()
                || final(self).query_start >= final(self).aln_query_end,
            old(self).cigar_remaining > 1 ==> r && final(self).cigar_index == old(self).cigar_index
                && final(self).cigar_remaining == old(self).cigar_remaining - 1,
            old(self).cigar_remaining == 1 ==> {
                let w = next_ref_base(
                    old(self).record.cigar@,
                    old(self).cigar_index + 1,
                    old(self).query_start + if consumes_query_spec(
                        old(self).record.cigar@[old(self).cigar_index as int].op,
                    ) {
                        1int
                    } else {
                        0
                    },
                    old(self).aln_query_end as int,
                );
                &&& r == w is Some
                &&& w matches Some(t) ==> final(self).cigar_index == t.0 && final(self).query_start
                    == t.1
            },
    {
        proof {
            self.lemma_cursor_bounds();
        }
        let ghost c = self.record.cigar@;
        let ghost st = self.record.start as int;
        let op = self.record.cigar[self.cigar_index].op;
        self.cigar_remaining = self.cigar_remaining - 1;
        if consumes_ref(op) {
            self.ref_pos = self.ref_pos + 1;
        }
        if consumes_query(op) {
            self.query_start = self.query_start + 1;
        }
        proof {
            lemma_take_step(c, self.cigar_index as int);
        }
        let ghost aln = self.aln_query_end as int;
        let ghost w = next_ref_base(c, self.cigar_index + 1, self.query_start as int, aln);
        while self.cigar_remaining == 0
            invariant
                aln == self.aln_query_end,
                old(self).cigar_remaining >= 1,
                old(self).cigar_remaining == 1 ==> w == next_ref_base(
                    old(self).record.cigar@,
                    old(self).cigar_index + 1,
                    old(self).query_start + if consumes_query_spec(
                        old(self).record.cigar@[old(self).cigar_index as int].op,
                    ) {
                        1int
                    } else {
                        0
                    },
                    old(self).aln_query_end as int,
                ),
                old(self).cigar_remaining > 1 ==> self.cigar_remaining > 0 && self.cigar_index
                    == old(self).cigar_index && self.cigar_remaining == old(self).cigar_remaining - 1,
                self.cigar_remaining == 0 ==> next_ref_base(
                    c,
                    self.cigar_index + 1,
                    self.query_start as int,
                    aln,
                ) == w,
                self.cigar_remaining > 0 && old(self).cigar_remaining == 1 ==> w == Some(
                    (self.cigar_index as int, self.query_start as int),
                ),
                c == self.record.cigar@,
                st == self.record.start,
                self.record == old(self).record,
                self.ref_pos == old(self).ref_pos + 1,
                self.aln_query_end == old(self).aln_query_end,
                self.aln_query_end == self.record.aligned_query_end_spec(),
                self.record.wf(),
                self.record.is_mapped_spec(),
                self.cigar_index < c.len(),
                self.cigar_remaining == 0 ==> self.ref_pos == st + ref_len(
                    c.take(self.cigar_index + 1),
                ) && self.query_start == query_len(c.take(self.cigar_index + 1)),
                self.cigar_remaining > 0 ==> consumes_ref_spec(c[self.cigar_index as int].op)
                    && self.cigar_remaining <= c[self.cigar_index as int].len && self.ref_pos == st
                    + ref_len(c.take(self.cigar_index as int)) + (c[self.cigar_index as int].len
                    - self.cigar_remaining) && self.query_start == query_len(
                    c.take(self.cigar_index as int),
                ) + if consumes_query_spec(c[self.cigar_index as int].op) {
                    c[self.cigar_index as int].len - self.cigar_remaining
                } else {
                    0
                },
            decreases c.len() - self.cigar_index,
        {
            self.cigar_index = self.cigar_index + 1;
            if self.cigar_index == self.record.cigar.len() || self.query_start >= self.aln_query_end {
                return false;
            }
            proof {
                lemma_take_step(c, self.cigar_index as int);
                lemma_len_prefix_mono(c, self.cigar_index + 1, c.len() as int);
                assert(c.take(c.len() as int) =~= c);
            }
            let next = self.record.cigar[self.cigar_index];
            if consumes_ref(next.op) {
                self.cigar_remaining = next.len;
            } else if consumes_query(next.op) {
                self.query_start = self.query_start + next.len;
            }
        }
        self.update_query_end();
        true
    }

    /// The record this entry walks.
    pub fn record(&self) -> (r: &Rc<Record>)
        ensures
            **r == self.record_spec(),
    {
        &self.record
    }

    /// 0-based index in the record's sequence of the first base aligned to
    /// the position; for a deletion, the index after the last aligned base
    /// before it.
    pub fn query_start(&self) -> (r: u32)
        ensures
            r == self.query_start_spec(),
    {
        self.query_start
    }

    /// 0-based index after the last query base aligned to the position
    /// (equal to `query_start` for a deletion).
    pub fn query_end(&self) -> (r: u32)
        ensures
            r == self.query_end_spec(),
    {
        self.query_end
    }

    /// Number of query bases aligned to the position.
    pub fn len(&self) -> (r: u32)
        requires
            self.wf(),
        ensures
            r == self.query_end_spec() - self.query_start_spec(),
    {
        self.query_end - self.query_start
    }

    /// Deletion, match, or match followed by an insertion, by the number of
    /// query bases aligned to the position.
    pub fn aln_type(&self) -> (r: AlnType)
        requires
            self.wf(),
        ensures
            r == aln_type_of(self.query_end_spec() - self.query_start_spec()),
            self.query_end_spec() - self.query_start_spec() == 0 <==> r == AlnType::Deletion,
            self.query_end_spec() - self.query_start_spec() == 1 <==> r == AlnType::Match,
            forall|n: u32|
                self.query_end_spec() - self.query_start_spec() == n + 1 && n > 0 <==> r
                    == AlnType::Insertion(n),
    {
        let len = self.len();
        if len == 0 {
            AlnType::Deletion
        } else if len == 1 {
            AlnType::Match
        } else {
            AlnType::Insertion(len - 1)
        }
    }

    /// The bases aligned to the position, when the record stores its sequence.
    pub fn sequence(&self) -> (r: Option<Vec<u8>>)
        requires
            self.wf(),
        ensures
            self.record_spec().sequence@.len() == 0 <==> r is None,
            r matches Some(v) ==> v@ == self.record_spec().sequence@.subrange(
                self.query_start_spec() as int,
                self.query_end_spec() as int,
            ),
    {
        if self.record.sequence.len() > 0 {
            proof {
                self.lemma_cursor_bounds();
            }
            Some(copy_range(&self.record.sequence, self.query_start as usize, self.query_end as usize))
        } else {
            None
        }
    }

    /// Raw qualities of the bases aligned to the position, when the record
    /// stores them.
    pub fn qualities(&self) -> (r: Option<Vec<u8>>)
        requires
            self.wf(),
        ensures
            !(self.record_spec().qualities@.len() > 0 && self.record_spec().qualities@[0] != 0xff)
                <==> r is None,
            r matches Some(v) ==> v@ == self.record_spec().qualities@.subrange(
                self.query_start_spec() as int,
                self.query_end_spec() as int,
            ),
    {
        if self.record.qualities_available() {
            proof {
                self.lemma_cursor_bounds();
            }
            Some(copy_range(&self.record.qualities, self.query_start as usize, self.query_end as usize))
        } else {
            None
        }
    }
}

/// Lexicographic order on byte strings.
pub open spec fn bytes_le(a: Seq<u8>, b: Seq<u8>) -> bool
    decreases a.len(),
{
    if a.len() == 0 {
        true
    } else if b.len() == 0 {
        false
    } else if a[0] != b[0] {
        a[0] < b[0]
    } else {
        bytes_le(a.skip(1), b.skip(1))
    }
}

proof fn lemma_bytes_le_total(a: Seq<u8>, b: Seq<u8>)
    ensures
        bytes_le(a, b) || bytes_le(b, a),
    decreases a.len(),
{
    if a.len() > 0 && b.len() > 0 && a[0] == b[0] {
        lemma_bytes_le_total(a.skip(1), b.skip(1));
    }
}

proof fn lemma_bytes_le_trans(a: Seq<u8>, b: Seq<u8>, c: Seq<u8>)
    requires
        bytes_le(a, b),
        bytes_le(b, c),
    ensures
        bytes_le(a, c),
    decreases a.len(),
{
    if a.len() > 0 && b.len() > 0 && c.len() > 0 && a[0] == b[0] && b[0] == c[0] {
        lemma_bytes_le_trans(a.skip(1), b.skip(1), c.skip(1));
    }
}

fn bytes_le_exec(a: &Vec<u8>, b: &Vec<u8>) -> (r: bool)
    ensures
        r == bytes_le(a@, b@),
{
    let mut i: usize = 0;
    assert(a@.skip(0) =~= a@);
    assert(b@.skip(0) =~= b@);
    while i < a.len() && i < b.len()
        invariant
            i <= a@.len(),
            i <= b@.len(),
            bytes_le(a@, b@) == bytes_le(a@.skip(i as int), b@.skip(i as int)),
        decreases a@.len() - i,
    {
        assert(a@.skip(i as int)[0] == a@[i as int]);
        assert(b@.skip(i as int)[0] == b@[i as int]);
        if a[i] != b[i] {
            return a[i] < b[i];
        }
        assert(a@.skip(i as int).skip(1) =~= a@.skip(i + 1));
        assert(b@.skip(i as int).skip(1) =~= b@.skip(i + 1));
        i = i + 1;
    }
    a.len() <= b.len()
}

/// `new[q]` is `old[idx[q]]`, and entries of equal sort key keep their old
/// relative order.
pub open spec fn stable_order(old: Seq<PileupEntry>, new: Seq<PileupEntry>, idx: Seq<int>) -> bool {
    &&& idx.len() == new.len()
    &&& forall|q: int| 0 <= q < idx.len() ==> 0 <= #[trigger] idx[q] < old.len() && new[q] == old[idx[q]]
    &&& forall|a: int, b: int|
        0 <= a < b < idx.len() && entry_le(new[b], new[a]) ==> idx[a] < idx[b]
}

/// Order of entries in a sorted column: by alignment start, then by name.
pub open spec fn entry_le(a: PileupEntry, b: PileupEntry) -> bool {
    let ra = a.record_spec();
    let rb = b.record_spec();
    ra.start < rb.start || (ra.start == rb.start && bytes_le(ra.name@, rb.name@))
}

proof fn lemma_entry_le_total_trans(a: PileupEntry, b: PileupEntry, c: PileupEntry)
    ensures
        entry_le(a, b) || entry_le(b, a),
        entry_le(a, b) && entry_le(b, c) ==> entry_le(a, c),
{
    lemma_bytes_le_total(a.record_spec().name@, b.record_spec().name@);
    if entry_le(a, b) && entry_le(b, c) && a.record_spec().start == c.record_spec().start {
        lemma_bytes_le_trans(a.record_spec().name@, b.record_spec().name@, c.record_spec().name@);
    }
}

/// The records covering one reference position.
#[derive(Debug)]
pub struct PileupColumn {
    entries: Vec<PileupEntry>,
    ref_id: u32,
    ref_pos: u32,
}

fn entry_le_exec(a: &PileupEntry, b: &PileupEntry) -> (r: bool)
    ensures
        r == entry_le(*a, *b),
{
    let ra = &a.record;
    let rb = &b.record;
    ra.start < rb.start || (ra.start == rb.start && bytes_le_exec(&ra.name, &rb.name))
}

impl PileupColumn {
    pub closed spec fn entries_spec(&self) -> Seq<PileupEntry> {
        self.entries@
    }

    pub closed spec fn pos(&self) -> (u32, u32) {
        (self.ref_id, self.ref_pos)
    }

    /// The column's entries, each of them at the column's position.
    pub closed spec fn wf(&self) -> bool {
        forall|k: int|
            0 <= k < self.entries@.len() ==> #[trigger] self.entries@[k].wf() && self.entries@[
                k
            ].pos() == self.pos()
    }

    /// The entries of this column.
    pub fn entries(&self) -> (r: &[PileupEntry])
        ensures
            r@ == self.entries_spec(),
    {
        self.entries.as_slice()
    }

    /// Orders the entries by the start of their alignment, then by record name.
    pub fn sort(&mut self)
        requires
            old(self).wf(),
        ensures
            final(self).wf(),
            final(self).pos() == old(self).pos(),
            final(self).entries_spec().len() == old(self).entries_spec().len(),
            forall|a: int, b: int|
                0 <= a < b < final(self).entries_spec().len() ==> entry_le(
                    final(self).entries_spec()[a],
                    final(self).entries_spec()[b],
                ),
            forall|e: PileupEntry| old(self).entries_spec().contains(e) ==> final(self).entries_spec().contains(e),
            forall|e: PileupEntry| final(self).entries_spec().contains(e) ==> old(self).entries_spec().contains(e),
            final(self).entries_spec().to_multiset() == old(self).entries_spec().to_multiset(),
            exists|idx: Seq<int>|
                #[trigger] stable_order(old(self).entries_spec(), final(self).entries_spec(), idx),
    {
        let mut input: Vec<PileupEntry> = Vec::new();
        std::mem::swap(&mut input, &mut self.entries);
        let ghost orig = input@;
        let mut sorted: Vec<PileupEntry> = Vec::new();
        let ghost mut idx: Seq<int> = Seq::empty();
        let mut i: usize = 0;
        proof {
            assert(orig.take(0) =~= Seq::<PileupEntry>::empty());
            assert(sorted@ =~= Seq::<PileupEntry>::empty());
        }
        while i < input.len()
            invariant
                input@ == orig,
                i <= orig.len(),
                sorted@.len() == i,
                idx.len() == i,
                forall|a: int, b: int| 0 <= a < b < sorted@.len() ==> entry_le(sorted@[a], sorted@[b]),
                forall|q: int| 0 <= q < i ==> 0 <= #[trigger] idx[q] < i && sorted@[q] == orig[idx[q]],
                forall|a: int, b: int|
                    0 <= a < b < i && entry_le(sorted@[b], sorted@[a]) ==> idx[a] < idx[b],
                sorted@.to_multiset() == orig.take(i as int).to_multiset(),
            decreases orig.len() - i,
        {
            let c = input[i].snapshot();
            let mut p: usize = 0;
            while p < sorted.len() && entry_le_exec(&sorted[p], &c)
                invariant
                    p <= sorted@.len(),
                    forall|m: int| 0 <= m < p ==> entry_le(#[trigger] sorted@[m], c),
                decreases sorted@.len() - p,
            {
                p = p + 1;
            }
            let ghost before = sorted@;
            let ghost idx0 = idx;
            sorted.insert(p, c);
            assert(sorted@ == before.insert(p as int, c));
            proof {
                idx = idx0.insert(p as int, i as int);
                vstd::seq_lib::to_multiset_insert(before, p as int, c);
                assert(orig.take(i + 1) =~= orig.take(i as int).push(orig[i as int]));
                orig.take(i as int).to_multiset_ensures();
                assert forall|a: int, b: int| 0 <= a < b < sorted@.len() implies entry_le(sorted@[a], sorted@[b]) by {
                    if b == p {
                        assert(sorted@[a] == before[a]);
                    } else if a == p {
                        assert(sorted@[b] == before[b - 1]);
                        lemma_entry_le_total_trans(before[p as int], c, c);
                        lemma_entry_le_total_trans(c, before[p as int], before[b - 1]);
                    } else {
                        let aa = if a < p { a } else { a - 1 };
                        let bb = if b < p { b } else { b - 1 };
                        assert(sorted@[a] == before[aa]);
                        assert(sorted@[b] == before[bb]);
                    }
                }
                assert forall|q: int| 0 <= q < i + 1 implies 0 <= #[trigger] idx[q] < i + 1 && sorted@[q] == orig[idx[q]] by {
                    if q < p {
                        assert(idx[q] == idx0[q]);
                    } else if q > p {
                        assert(idx[q] == idx0[q - 1]);
                    }
                }
                assert forall|a: int, b: int|
                    0 <= a < b < i + 1 && entry_le(sorted@[b], sorted@[a]) implies idx[a] < idx[b] by {
                    if b == p {
                        assert(idx[a] == idx0[a]);
                    } else if a == p {
                        assert(sorted@[b] == before[b - 1]);
                        assert(idx[b] == idx0[b - 1]);
                        lemma_entry_le_total_trans(before[p as int], before[b - 1], c);
                    } else {
                        let aa = if a < p { a } else { a - 1 };
                        let bb = if b < p { b } else { b - 1 };
                        assert(sorted@[a] == before[aa]);
                        assert(sorted@[b] == before[bb]);
                        assert(idx[a] == idx0[aa]);
                        assert(idx[b] == idx0[bb]);
                    }
                }
            }
            i = i + 1;
        }
        proof {
            assert(orig.take(orig.len() as int) =~= orig);
            sorted@.to_multiset_ensures();
            orig.to_multiset_ensures();
            assert forall|e: PileupEntry| orig.contains(e) implies sorted@.contains(e) by {
                assert(orig.to_multiset().count(e) > 0);
            }
            assert forall|e: PileupEntry| sorted@.contains(e) implies orig.contains(e) by {
                assert(sorted@.to_multiset().count(e) > 0);
            }
        }
        self.entries = sorted;
        proof {
            assert forall|k: int| 0 <= k < self.entries@.len() implies #[trigger] self.entries@[k].wf()
                && self.entries@[k].pos() == self.pos() by {
                assert(sorted@[k] == orig[idx[k]]);
                assert(old(self).entries@[idx[k]].wf());
            }
            assert(stable_order(orig, sorted@, idx));
        }
    }

    /// 0-based reference id.
    pub fn ref_id(&self) -> (r: u32)
        ensures
            r == self.pos().0,
    {
        self.ref_id
    }

    /// 0-based reference position.
    pub fn ref_pos(&self) -> (r: u32)
        ensures
            r == self.pos().1,
    {
        self.ref_pos
    }
}

/// Streams the columns of coordinate-sorted records.
pub struct Pileup {
    /// Records still to be read, the next one last.
    pending: Vec<Result<Record, Error>>,
    entries: Vec<PileupEntry>,
    error: Option<Error>,
    exhausted: bool,
    last_ref_id: u32,
    last_ref_pos: u32,
    emitted: Ghost<Option<(u32, u32)>>,
    /// Every record and error the pileup was given, after filtering.
    source: Ghost<Seq<Result<Record, Error>>>,
}

/// Records that enter a pileup: errors, and mapped records that pass the filter.
pub open spec fn admitted(items: Seq<Result<Record, Error>>, keep: Seq<bool>) -> Seq<
    Result<Record, Error>,
>
    decreases items.len(),
{
    if items.len() == 0 {
        Seq::empty()
    } else {
        let rest = admitted(items.drop_last(), keep.drop_last());
        match items.last() {
            Ok(r) => if r.is_mapped_spec() && keep.last() {
                rest.push(items.last())
            } else {
                rest
            },
            Err(_) => rest.push(items.last()),
        }
    }
}

/// The error that reading `items` in order from last position `last` runs
/// into first: an error item, a record before the position read last, or a
/// record without reference bases; `None` when every item reads cleanly.
pub open spec fn first_bad(last: (u32, u32), items: Seq<Result<Record, Error>>) -> Option<Error>
    decreases items.len(),
{
    if items.len() == 0 {
        None
    } else {
        match items[0] {
            Err(e) => Some(e),
            Ok(rec) => if pos_lt((rec.ref_id as u32, rec.start as u32), last) {
                Some(Error::InvalidData)
            } else if ref_len(rec.cigar@) == 0 {
                Some(Error::Corrupted(Corruption::BadCigar))
            } else {
                first_bad((rec.ref_id as u32, rec.start as u32), items.skip(1))
            },
        }
    }
}

/// Reference positions an entry has still to visit, its current one included.
pub open spec fn entry_work(e: PileupEntry) -> int {
    e.record_spec().start + ref_len(e.record_spec().cigar@) - e.ref_pos_spec()
}

/// Reference positions the live entries have still to visit.
pub open spec fn live_work(s: Seq<PileupEntry>) -> int
    decreases s.len(),
{
    if s.len() == 0 {
        0
    } else {
        live_work(s.drop_last()) + entry_work(s.last())
    }
}

/// Reference bases of the records still queued.
pub open spec fn queued_work(items: Seq<Result<Record, Error>>) -> int
    decreases items.len(),
{
    if items.len() == 0 {
        0
    } else {
        queued_work(items.skip(1)) + match items[0] {
            Ok(r) => ref_len(r.cigar@),
            Err(_) => 0,
        }
    }
}

proof fn lemma_queued_work_nonneg(items: Seq<Result<Record, Error>>)
    ensures
        queued_work(items) >= 0,
    decreases items.len(),
{
    if items.len() > 0 {
        lemma_queued_work_nonneg(items.skip(1));
        if let Ok(r) = items[0] {
            lemma_ref_len_nonneg(r.cigar@);
        }
    }
}

proof fn lemma_live_work_pos(s: Seq<PileupEntry>)
    requires
        forall|k: int| 0 <= k < s.len() ==> #[trigger] s[k].wf(),
    ensures
        live_work(s) >= s.len(),
    decreases s.len(),
{
    if s.len() > 0 {
        lemma_live_work_pos(s.drop_last());
        s.last().lemma_within_alignment();
        assert(s[s.len() - 1].wf());
        assert(has_ref_op(s.last().record_spec().cigar@));
    }
}

/// Does `s` hold an entry for `rec` standing at its start?
pub open spec fn has_start_entry(s: Seq<PileupEntry>, rec: Record) -> bool {
    exists|k: int|
        0 <= k < s.len() && (#[trigger] s[k]).record_spec() == rec && s[k].ref_pos_spec() == rec.start
}

/// Does `s` hold an entry for `e`'s record one position after `e`?
pub open spec fn has_successor(s: Seq<PileupEntry>, e: PileupEntry) -> bool {
    exists|q: int|
        0 <= q < s.len() && (#[trigger] s[q]).record_spec() == e.record_spec() && s[q].ref_pos_spec()
            == e.ref_pos_spec() + 1
}

/// Every record of a pileup's queue is mapped.
pub open spec fn all_mapped(items: Seq<Result<Record, Error>>) -> bool {
    forall|k: int|
        0 <= k < items.len() ==> (#[trigger] items[k] matches Ok(r) ==> r.is_mapped_spec())
}

/// Only the choices at mapped records decide what enters a pileup.
proof fn lemma_admitted_keep(items: Seq<Result<Record, Error>>, a: Seq<bool>, b: Seq<bool>)
    requires
        a.len() == items.len(),
        b.len() == items.len(),
        forall|k: int|
            0 <= k < items.len() ==> (#[trigger] items[k] matches Ok(rec) ==> rec.is_mapped_spec()
                ==> a[k] == b[k]),
    ensures
        admitted(items, a) == admitted(items, b),
    decreases items.len(),
{
    if items.len() > 0 {
        let n = items.len() - 1;
        assert forall|k: int| 0 <= k < n implies (#[trigger] items.drop_last()[k] matches Ok(rec)
            ==> rec.is_mapped_spec() ==> a.drop_last()[k] == b.drop_last()[k]) by {
            assert(items[k] == items.drop_last()[k]);
        }
        lemma_admitted_keep(items.drop_last(), a.drop_last(), b.drop_last());
        assert(items[n] == items.last());
    }
}

impl Pileup {
    /// Position of the most recently emitted column.
    pub closed spec fn last_emitted(&self) -> Option<(u32, u32)> {
        self.emitted@
    }

    /// Records and errors still to be read, in input order.
    pub closed spec fn pending_spec(&self) -> Seq<Result<Record, Error>> {
        self.pending@.reverse()
    }

    /// Reference positions the pileup has still to emit, counted with
    /// repetition: a bound on the number of columns to come.
    pub closed spec fn work(&self) -> int {
        live_work(self.entries@) + queued_work(self.pending@.reverse())
    }

    /// Every record and error the pileup was given, after filtering.
    pub closed spec fn source(&self) -> Seq<Result<Record, Error>> {
        self.source@
    }

    /// Position of the record read last.
    pub closed spec fn last_read(&self) -> (u32, u32) {
        (self.last_ref_id, self.last_ref_pos)
    }

    /// The error waiting to be reported, if any.
    pub closed spec fn latched(&self) -> Option<Error> {
        self.error
    }

    /// The entries whose records still cover positions ahead.
    pub closed spec fn live(&self) -> Seq<PileupEntry> {
        self.entries@
    }

    /// Has the input been used up (or an error latched)?
    pub closed spec fn is_exhausted(&self) -> bool {
        self.exhausted
    }

    /// Has the pileup reported its end (or its error)?
    pub closed spec fn finished(&self) -> bool {
        self.exhausted && self.entries@.len() == 0 && self.error is None
    }

    pub closed spec fn wf(&self) -> bool {
        &&& all_wf(self.pending@)
        &&& all_mapped(self.pending@)
        &&& forall|k: int| 0 <= k < self.pending@.len() ==> self.source@.contains(#[trigger] self.pending@[k])
        &&& forall|k: int|
            0 <= k < self.entries@.len() ==> self.source@.contains(
                Ok(#[trigger] self.entries@[k].record_spec()),
            )
        &&& forall|k: int| 0 <= k < self.entries@.len() ==> #[trigger] self.entries@[k].wf()
        &&& forall|k: int|
            0 <= k < self.entries@.len() ==> #[trigger] self.entries@[k].pos().0
                <= self.last_ref_id
        &&& self.emitted@ matches Some(p) ==> {
            &&& forall|k: int|
                #![trigger self.entries@[k]]
                0 <= k < self.entries@.len() ==> pos_lt(p, self.entries@[k].pos())
            &&& !self.exhausted ==> pos_lt(p, (self.last_ref_id, self.last_ref_pos))
        }
        &&& self.error is Some ==> self.exhausted
        &&& !self.exhausted && self.entries@.len() > 0 ==> exists|k: int|
            0 <= k < self.entries@.len() && #[trigger] self.entries@[k].pos() == (
                self.last_ref_id,
                self.last_ref_pos,
            )
    }

    /// A pileup over all mapped records of `records`.
    pub fn new(records: Vec<Result<Record, Error>>) -> (r: Pileup)
        requires
            all_wf(records@),
        ensures
            r.wf(),
            r.last_emitted() is None,
            r.live().len() == 0,
            !r.is_exhausted(),
            r.latched() is None,
            r.work() == queued_work(r.pending_spec()),
            r.source() == r.pending_spec(),
            r.pending_spec() == admitted(records@, Seq::new(records@.len(), |k: int| true)),
    {
        let ghost items = records@;
        let r = Self::with_filter(records, |_r: &Record| -> (b: bool) ensures b { true });
        proof {
            let keep = choose|keep: Seq<bool>|
                {
                    &&& keep.len() == items.len()
                    &&& forall|k: int|
                        0 <= k < items.len() ==> (#[trigger] items[k] matches Ok(rec)
                            ==> rec.is_mapped_spec() ==> keep[k])
                    &&& r.pending_spec() == admitted(items, keep)
                };
            lemma_admitted_keep(items, keep, Seq::new(items.len(), |k: int| true));
        }
        r
    }

    /// A pileup over the mapped records of `records` that pass `read_filter`.
    pub fn with_filter<F: Fn(&Record) -> bool>(records: Vec<Result<Record, Error>>, read_filter: F) -> (r: Pileup)
        requires
            all_wf(records@),
            forall|rec: &Record| #[trigger] read_filter.requires((rec,)),
        ensures
            r.wf(),
            r.last_emitted() is None,
            r.live().len() == 0,
            !r.is_exhausted(),
            r.latched() is None,
            r.work() == queued_work(r.pending_spec()),
            r.source() == r.pending_spec(),
            exists|keep: Seq<bool>|
                {
                    &&& keep.len() == records@.len()
                    &&& forall|k: int|
                        0 <= k < records@.len() ==> (#[trigger] records@[k] matches Ok(rec)
                            ==> rec.is_mapped_spec() ==> read_filter.ensures((&rec,), keep[k]))
                    &&& r.pending_spec() == admitted(records@, keep)
                },
    {
        let n = records.len();
        let mut admitted_items: Vec<Result<Record, Error>> = Vec::new();
        let ghost mut keep: Seq<bool> = Seq::empty();
        let mut input = records;
        let mut reversed: Vec<Result<Record, Error>> = Vec::new();
        while input.len() > 0
            invariant
                all_wf(input@),
                all_wf(reversed@),
                input@ + reversed@.reverse() == records@,
            decreases input@.len(),
        {
            let item = input.pop().unwrap();
            reversed.push(item);
            proof {
                assert(input@ + reversed@.reverse() =~= records@);
            }
        }
        let mut i: usize = 0;
        while reversed.len() > 0
            invariant
                all_wf(reversed@),
                all_wf(admitted_items@),
                all_mapped(admitted_items@),
                i + reversed@.len() == records@.len(),
                records@.len() == n,
                keep.len() == i,
                records@ == records@.take(i as int) + reversed@.reverse(),
                admitted_items@ == admitted(records@.take(i as int), keep),
                forall|k: int|
                    0 <= k < i ==> (#[trigger] records@[k] matches Ok(rec) ==> rec.is_mapped_spec()
                        ==> read_filter.ensures((&rec,), keep[k])),
                forall|rec: &Record| #[trigger] read_filter.requires((rec,)),
            decreases reversed@.len(),
        {
            let item = reversed.pop().unwrap();
            let ghost old_keep = keep;
            assert(records@[i as int] == item);
            match item {
                Ok(rec) => {
                    let pass = if rec.is_mapped() {
                        read_filter(&rec)
                    } else {
                        false
                    };
                    proof {
                        keep = keep.push(pass);
                    }
                    if pass {
                        admitted_items.push(Ok(rec));
                    }
                },
                Err(e) => {
                    proof {
                        keep = keep.push(true);
                    }
                    admitted_items.push(Err(e));
                },
            }
            proof {
                let t = records@.take(i + 1);
                assert(t.drop_last() =~= records@.take(i as int));
                assert(keep.drop_last() =~= old_keep);
            }
            i = i + 1;
        }
        assert(records@.take(i as int) =~= records@);
        let mut pending: Vec<Result<Record, Error>> = Vec::new();
        while admitted_items.len() > 0
            invariant
                all_wf(admitted_items@),
                all_wf(pending@),
                all_mapped(admitted_items@),
                all_mapped(pending@),
                admitted_items@ + pending@.reverse() == admitted(records@, keep),
            decreases admitted_items@.len(),
        {
            let item = admitted_items.pop().unwrap();
            pending.push(item);
            proof {
                assert(admitted_items@ + pending@.reverse() =~= admitted(records@, keep));
            }
        }
        assert(pending@.reverse() =~= admitted(records@, keep));
        assert forall|k: int| 0 <= k < pending@.len() implies pending@.reverse().contains(#[trigger] pending@[k]) by {
            assert(pending@.reverse()[pending@.len() - 1 - k] == pending@[k]);
        }
        Pileup {
            pending,
            entries: Vec::new(),
            error: None,
            exhausted: false,
            last_ref_id: 0,
            last_ref_pos: 0,
            emitted: Ghost(None),
            source: Ghost(pending@.reverse()),
        }
    }

    /// Smallest position among the live entries.
    fn min_position(&self) -> (r: Option<(u32, u32)>)
        requires
            forall|k: int| 0 <= k < self.entries@.len() ==> #[trigger] self.entries@[k].wf(),
        ensures
            r is None <==> self.entries@.len() == 0,
            r matches Some(t) ==> {
                &&& exists|k: int|
                    0 <= k < self.entries@.len() && #[trigger] self.entries@[k].pos() == t
                &&& forall|k: int|
                    0 <= k < self.entries@.len() ==> pos_le(t, #[trigger] self.entries@[k].pos())
            },
    {
        if self.entries.len() == 0 {
            return None;
        }
        assert(self.entries@[0].wf());
        let mut best: (u32, u32) = self.entries[0].position();
        let mut i: usize = 1;
        while i < self.entries.len()
            invariant
                1 <= i <= self.entries@.len(),
                forall|k: int| 0 <= k < self.entries@.len() ==> #[trigger] self.entries@[k].wf(),
                exists|k: int| 0 <= k < i && #[trigger] self.entries@[k].pos() == best,
                forall|k: int| 0 <= k < i ==> pos_le(best, #[trigger] self.entries@[k].pos()),
            decreases self.entries@.len() - i,
        {
            assert(self.entries@[i as int].wf());
            let p = self.entries[i].position();
            if p.0 < best.0 || (p.0 == best.0 && p.1 < best.1) {
                best = p;
            }
            i = i + 1;
        }
        Some(best)
    }

    /// Must another record be read before the column at `target` is complete?
    fn wants_record(&self, target: Option<(u32, u32)>) -> (r: bool)
        ensures
            r == (!self.exhausted && match target {
                None => true,
                Some(t) => !pos_lt(t, (self.last_ref_id, self.last_ref_pos)),
            }),
    {
        if self.exhausted {
            return false;
        }
        match target {
            None => true,
            Some(t) => !(t.0 < self.last_ref_id || (t.0 == self.last_ref_id && t.1
                < self.last_ref_pos)),
        }
    }

    /// Takes the next record of the queue into the live entries, checking
    /// that the input is sorted; latches an error instead when it is not, when
    /// the queue holds an error, or when the record covers no reference base.
    fn read_next(&mut self)
        requires
            old(self).wf(),
        ensures
            final(self).wf(),
            final(self).emitted == old(self).emitted,
            final(self).source == old(self).source,
            old(self).exhausted ==> *final(self) == *old(self),
            !old(self).exhausted ==> final(self).pending@.len() < old(self).pending@.len()
                || final(self).exhausted,
            final(self).pending@.len() <= old(self).pending@.len(),
            !old(self).exhausted && old(self).pending@.len() == 0 ==> final(self).exhausted
                && final(self).error is None && final(self).entries@ == old(self).entries@,
            !old(self).exhausted && old(self).pending@.len() > 0 ==> {
                &&& final(self).pending@ == old(self).pending@.drop_last()
                &&& match old(self).pending@.last() {
                    Err(e) => final(self).error == Some(e) && final(self).exhausted
                        && final(self).entries@ == old(self).entries@,
                    Ok(rec) => if pos_lt(
                        (rec.ref_id as u32, rec.start as u32),
                        (old(self).last_ref_id, old(self).last_ref_pos),
                    ) {
                        final(self).error == Some(Error::InvalidData) && final(self).exhausted
                            && final(self).entries@ == old(self).entries@
                    } else if ref_len(rec.cigar@) == 0 {
                        final(self).error == Some(Error::Corrupted(Corruption::BadCigar))
                            && final(self).exhausted && final(self).entries@ == old(self).entries@
                    } else {
                        &&& final(self).error is None
                        &&& !final(self).exhausted
                        &&& final(self).last_ref_id == rec.ref_id as u32
                        &&& final(self).last_ref_pos == rec.start as u32
                        &&& final(self).entries@.len() == old(self).entries@.len() + 1
                        &&& final(self).entries@.drop_last() == old(self).entries@
                        &&& final(self).entries@.last().record_spec() == rec
                        &&& final(self).entries@.last().ref_pos_spec() == rec.start
                    },
                }
            },
    {
        if self.exhausted || self.error.is_some() {
            return;
        }
        match self.pending.pop() {
            None => {
                self.exhausted = true;
            },
            Some(Err(e)) => {
                self.error = Some(e);
                self.exhausted = true;
            },
            Some(Ok(record)) => {
                assert(self.pending@.len() < old(self).pending@.len());
                assert(old(self).pending@[old(self).pending@.len() - 1] == Ok::<Record, Error>(record));
                let rec_ref_id = record.ref_id as u32;
                let rec_start = record.start as u32;
                if rec_ref_id < self.last_ref_id || (rec_ref_id == self.last_ref_id && rec_start
                    < self.last_ref_pos) {
                    self.error = Some(Error::InvalidData);
                    self.exhausted = true;
                } else if record.reference_len() == 0 {
                    self.error = Some(Error::Corrupted(Corruption::BadCigar));
                    self.exhausted = true;
                } else {
                    self.last_ref_id = rec_ref_id;
                    self.last_ref_pos = rec_start;
                    let entry = PileupEntry::new(Rc::new(record));
                    self.entries.push(entry);
                    assert forall|k: int| 0 <= k < self.entries@.len() implies #[trigger] self.entries@[k].wf()
                        && self.entries@[k].pos().0 <= self.last_ref_id by {
                        if k < self.entries@.len() - 1 {
                            assert(self.entries@[k] == old(self).entries@[k]);
                        }
                    }
                    assert(self.entries@[self.entries@.len() - 1].pos() == (
                        self.last_ref_id,
                        self.last_ref_pos,
                    ));
                    assert(self.entries@.drop_last() =~= old(self).entries@);
                }
            },
        }
    }

    /// The next column: the smallest position that a live entry covers, with
    /// every entry covering it. Returns `None` once the input is used up and
    /// no entry is live; returns a latched error once, after which it ends.
    pub fn next(&mut self) -> (r: Option<Result<PileupColumn, Error>>)
        requires
            old(self).wf(),
        ensures
            final(self).wf(),
            old(self).finished() ==> r is None,
            !(r matches Some(Ok(_))) ==> final(self).finished() && final(self).last_emitted()
                == old(self).last_emitted(),
            r matches Some(Ok(col)) ==> {
                &&& col.wf()
                &&& col.entries_spec().len() > 0
                &&& final(self).last_emitted() == Some(col.pos())
                &&& old(self).last_emitted() matches Some(p) ==> pos_lt(p, col.pos())
            },
            old(self).latched() matches Some(e) ==> r == Some(Err::<PileupColumn, Error>(e)),
            r matches Some(Err(e)) ==> old(self).latched() == Some(e) || (old(self).latched() is None
                && first_bad(old(self).last_read(), old(self).pending_spec()) == Some(e)),
            old(self).latched() is None && first_bad(old(self).last_read(), old(self).pending_spec())
                is None && (old(self).live().len() > 0 || (!old(self).is_exhausted()
                && old(self).pending_spec().len() > 0)) ==> r matches Some(Ok(_)),
            final(self).work() <= old(self).work(),
            r matches Some(Ok(_)) ==> final(self).work() < old(self).work(),
            final(self).source() == old(self).source(),
            r matches Some(Ok(col)) ==> forall|k: int|
                0 <= k < col.entries_spec().len() && (#[trigger] col.entries_spec()[k]).continues()
                    ==> has_successor(final(self).live(), col.entries_spec()[k]),
            r matches Some(Ok(col)) ==> forall|j: int|
                0 <= j < old(self).pending_spec().len() - final(self).pending_spec().len() ==> (
                #[trigger] old(self).pending_spec()[j] matches Ok(rec) ==> if (
                    rec.ref_id as u32,
                    rec.start as u32,
                ) == col.pos() {
                    has_start_entry(col.entries_spec(), rec)
                } else {
                    has_start_entry(final(self).live(), rec)
                }),
            r matches Some(Ok(col)) ==> forall|k: int|
                0 <= k < col.entries_spec().len() ==> old(self).source().contains(
                    Ok(#[trigger] col.entries_spec()[k].record_spec()),
                ),
            final(self).work() >= 0,
            r matches Some(Ok(col)) ==> final(self).is_exhausted() || pos_lt(
                col.pos(),
                final(self).last_read(),
            ),
            r matches Some(Ok(col)) ==> forall|k: int|
                0 <= k < old(self).live().len() && #[trigger] old(self).live()[k].pos() != col.pos()
                    ==> final(self).live().contains(old(self).live()[k]),
            r is None ==> old(self).live().len() == 0 && (old(self).is_exhausted()
                || old(self).pending_spec().len() == 0),
            r matches Some(Ok(col)) ==> {
                &&& old(self).live().len() > 0 ==> exists|k: int|
                    0 <= k < old(self).live().len() && #[trigger] old(self).live()[k].pos()
                        == col.pos()
                &&& forall|k: int|
                    #![trigger old(self).live()[k]]
                    0 <= k < old(self).live().len() ==> pos_le(
                        col.pos(),
                        old(self).live()[k].pos(),
                    ) && (old(self).live()[k].pos() == col.pos()
                        ==> col.entries_spec().contains(old(self).live()[k]))
            },
    {
        proof {
            lemma_live_work_pos(self.entries@);
            lemma_queued_work_nonneg(self.pending@.reverse());
        }
        if self.error.is_some() {
            let e = self.error.unwrap();
            self.error = None;
            self.entries.clear();
            self.exhausted = true;
            assert(self.entries@ =~= Seq::<PileupEntry>::empty());
            return Some(Err(e));
        }
        let mut target = self.min_position();
        while self.wants_record(target)
            invariant
                self.wf(),
                self.error is None,
                self.emitted == old(self).emitted,
                old(self).finished() ==> self.finished(),
                target is None <==> self.entries@.len() == 0,
                old(self).error is None,
                self.work() == old(self).work(),
                self.source == old(self).source,
                self.pending@.len() <= old(self).pending@.len(),
                self.pending@.reverse() == old(self).pending@.reverse().skip(
                    old(self).pending@.len() - self.pending@.len(),
                ),
                forall|j: int|
                    0 <= j < old(self).pending@.len() - self.pending@.len() ==> (
                    #[trigger] old(self).pending@.reverse()[j] matches Ok(rec) ==> has_start_entry(
                        self.entries@,
                        rec,
                    )),
                first_bad((old(self).last_ref_id, old(self).last_ref_pos), old(self).pending@.reverse())
                    == first_bad((self.last_ref_id, self.last_ref_pos), self.pending@.reverse()),
                self.entries@.len() >= old(self).entries@.len(),
                self.entries@.subrange(0, old(self).entries@.len() as int) == old(self).entries@,
                self.entries@.len() == old(self).entries@.len() ==> (old(self).exhausted
                    || old(self).pending@.len() == 0 || (self.pending@.len()
                    == old(self).pending@.len() && !self.exhausted)),
                old(self).entries@.len() > 0 ==> (target matches Some(t) && exists|k: int|
                    0 <= k < old(self).entries@.len() && #[trigger] old(self).entries@[k].pos()
                        == t),
                target matches Some(t) ==> {
                    &&& exists|k: int|
                        0 <= k < self.entries@.len() && #[trigger] self.entries@[k].pos() == t
                    &&& forall|k: int|
                        0 <= k < self.entries@.len() ==> pos_le(t, #[trigger] self.entries@[k].pos())
                },
            decreases self.pending@.len() + if self.exhausted { 0int } else { 1 },
        {
            let ghost before = *self;
            let ghost tb = target;
            proof {
                if before.entries@.len() > 0 {
                    let t = tb->Some_0;
                    let k = choose|k: int|
                        0 <= k < before.entries@.len() && #[trigger] before.entries@[k].pos() == (
                            before.last_ref_id,
                            before.last_ref_pos,
                        );
                    assert(pos_le(t, before.entries@[k].pos()));
                }
            }
            self.read_next();
            proof {
                if before.pending@.len() > 0 {
                    lemma_reverse_drop_last(before.pending@);
                    assert(before.pending@.reverse()[0] == before.pending@.last());
                }
                lemma_live_work_pos(before.entries@);
                lemma_queued_work_nonneg(before.pending@.reverse());
                if before.pending@.len() > 0 {
                    lemma_queued_work_nonneg(before.pending@.reverse().skip(1));
                    if let Ok(rec) = before.pending@.reverse()[0] {
                        lemma_ref_len_nonneg(rec.cigar@);
                    }
                }
                if self.error is None && self.entries@.len() > before.entries@.len() {
                    assert(self.entries@.drop_last() == before.entries@);
                }
                let d = old(self).pending@.len() - before.pending@.len();
                assert(old(self).pending@.reverse().skip(0) =~= old(self).pending@.reverse());
                if self.error is None && before.pending@.len() > 0 {
                    assert(old(self).pending@.reverse().skip(d).skip(1) =~= old(self).pending@.reverse().skip(d + 1));
                    assert(old(self).pending@.reverse()[d] == before.pending@.reverse()[0]);
                    assert forall|j: int|
                        0 <= j < old(self).pending@.len() - self.pending@.len() implies (
                        #[trigger] old(self).pending@.reverse()[j] matches Ok(rec) ==> has_start_entry(
                            self.entries@,
                            rec,
                        )) by {
                        if j < d {
                            if let Ok(rec) = old(self).pending@.reverse()[j] {
                                let k = choose|k: int|
                                    0 <= k < before.entries@.len() && (#[trigger] before.entries@[k]).record_spec() == rec
                                        && before.entries@[k].ref_pos_spec() == rec.start;
                                assert(self.entries@[k] == before.entries@[k]);
                            }
                        } else {
                            assert(self.entries@[self.entries@.len() - 1].record_spec() == before.pending@.reverse()[0]->Ok_0);
                        }
                    }
                }
                let fb = first_bad((before.last_ref_id, before.last_ref_pos), before.pending@.reverse());
                if self.error is Some {
                    assert(self.error == fb);
                } else {
                    assert(first_bad((self.last_ref_id, self.last_ref_pos), self.pending@.reverse()) == fb);
                }
            }
            if self.error.is_some() {
                let e = self.error.unwrap();
                self.error = None;
                self.entries.clear();
                assert(self.entries@ =~= Seq::<PileupEntry>::empty());
                return Some(Err(e));
            }
            target = self.min_position();
            proof {
                assert(self.entries@.subrange(0, old(self).entries@.len() as int) =~= old(self).entries@) by {
                    if self.entries@.len() > before.entries@.len() {
                        assert(self.entries@.drop_last() == before.entries@);
                        assert forall|k: int| 0 <= k < old(self).entries@.len() implies self.entries@[k]
                            == old(self).entries@[k] by {
                            assert(self.entries@[k] == self.entries@.drop_last()[k]);
                            assert(before.entries@.subrange(0, old(self).entries@.len() as int)[k]
                                == before.entries@[k]);
                        }
                    }
                }
                if old(self).entries@.len() > 0 {
                    let t = target->Some_0;
                    let t0 = tb->Some_0;
                    let k0 = choose|k: int|
                        0 <= k < old(self).entries@.len() && #[trigger] old(self).entries@[k].pos() == t0;
                    assert(self.entries@[k0] == old(self).entries@[k0]);
                    assert(before.entries@[k0] == old(self).entries@[k0]);
                    let kt = choose|k: int| 0 <= k < self.entries@.len() && #[trigger] self.entries@[k].pos() == t;
                    if kt < before.entries@.len() {
                        assert(self.entries@[kt] == before.entries@[kt]);
                    }
                    assert(pos_le(t, self.entries@[k0].pos()));
                    assert(t == t0);
                }
            }
        }
        let t = match target {
            None => {
                return None;
            },
            Some(t) => t,
        };
        let mut live: Vec<PileupEntry> = Vec::new();
        std::mem::swap(&mut live, &mut self.entries);
        let ghost live0 = live@;
        assert(forall|k: int| 0 <= k < live0.len() ==> pos_le(t, #[trigger] live0[k].pos()));
        let ghost n_old = old(self).entries@.len() as int;
        let mut column: Vec<PileupEntry> = Vec::new();
        let mut kept: Vec<PileupEntry> = Vec::new();
        while live.len() > 0
            invariant
                forall|k: int|
                    0 <= k < live@.len() ==> #[trigger] live@[k].wf() && pos_le(t, live@[k].pos())
                        && live@[k].pos().0 <= self.last_ref_id,
                forall|k: int|
                    #![trigger kept@[k]]
                    0 <= k < kept@.len() ==> kept@[k].wf() && pos_lt(t, kept@[k].pos())
                        && kept@[k].pos().0 <= self.last_ref_id,
                forall|k: int|
                    0 <= k < column@.len() ==> #[trigger] column@[k].wf() && column@[k].pos() == t,
                column@.len() > 0 || exists|k: int| 0 <= k < live@.len() && #[trigger] live@[k].pos() == t,
                live@ == live0.take(live@.len() as int),
                live@.len() <= live0.len(),
                forall|k: int|
                    #![trigger live0[k]]
                    live@.len() <= k < live0.len() && live0[k].pos() == t ==> column@.contains(
                        live0[k],
                    ),
                forall|k: int|
                    #![trigger live0[k]]
                    live@.len() <= k < live0.len() && live0[k].pos() != t ==> kept@.contains(
                        live0[k],
                    ),
                live_work(kept@) + live_work(live@) + column@.len() <= live_work(live0),
                forall|k: int|
                    0 <= k < column@.len() && (#[trigger] column@[k]).continues() ==> has_successor(
                        kept@,
                        column@[k],
                    ),
                forall|rec: Record|
                    #![trigger has_start_entry(live0, rec)]
                    has_start_entry(live0, rec) && (rec.ref_id as u32, rec.start as u32) == t
                        ==> has_start_entry(column@, rec) || has_start_entry(live@, rec),
                forall|rec: Record|
                    #![trigger has_start_entry(live0, rec)]
                    has_start_entry(live0, rec) && (rec.ref_id as u32, rec.start as u32) != t
                        ==> has_start_entry(kept@, rec) || has_start_entry(live@, rec),
                forall|k: int| 0 <= k < live0.len() ==> self.source@.contains(Ok(#[trigger] live0[k].record_spec())),
                forall|k: int| 0 <= k < kept@.len() ==> self.source@.contains(Ok(#[trigger] kept@[k].record_spec())),
                forall|k: int| 0 <= k < column@.len() ==> self.source@.contains(Ok(#[trigger] column@[k].record_spec())),
                !self.exhausted && live0.len() > 0 ==> exists|k: int|
                    0 <= k < live0.len() && #[trigger] live0[k].pos() == (
                        self.last_ref_id,
                        self.last_ref_pos,
                    ),
                !self.exhausted ==> pos_lt(t, (self.last_ref_id, self.last_ref_pos)),
                forall|k: int|
                    live@.len() <= k < live0.len() && #[trigger] live0[k].pos() == (
                        self.last_ref_id,
                        self.last_ref_pos,
                    ) && !self.exhausted ==> kept@.contains(live0[k]),
            decreases live@.len(),
        {
            let ghost before = live@;
            let mut e = live.pop().unwrap();
            assert(e == before[before.len() - 1]);
            assert(before[before.len() - 1].wf());
            assert(forall|k: int| 0 <= k < live@.len() ==> live@[k] == before[k]);
            let p = e.position();
            proof {
                if p != t && column@.len() == 0 {
                    let k = choose|k: int| 0 <= k < before.len() && #[trigger] before[k].pos() == t;
                    assert(live@[k].pos() == t);
                }
            }
            let ghost kept_before = kept@;
            let ghost column_before = column@;
            let ghost e0 = e;
            proof {
                assert(before.drop_last() == live@);
                e.lemma_within_alignment();
            }
            proof {
                assert(live@ =~= live0.take(live@.len() as int));
                assert(e == live0[live@.len() as int]);
            }
            if p.0 == t.0 && p.1 == t.1 {
                column.push(e.snapshot());
                if e.move_forward() {
                    assert(e.pos() == (t.0, (t.1 + 1) as u32));
                    kept.push(e);
                }
            } else {
                kept.push(e);
            }
            proof {
                assert forall|x: PileupEntry| column_before.contains(x) implies column@.contains(x) by {
                    let q = choose|q: int| 0 <= q < column_before.len() && column_before[q] == x;
                    assert(column@[q] == x);
                }
                assert forall|x: PileupEntry| kept_before.contains(x) implies kept@.contains(x) by {
                    let q = choose|q: int| 0 <= q < kept_before.len() && kept_before[q] == x;
                    assert(kept@[q] == x);
                }
                if p == t {
                    assert(column@[column@.len() - 1] == live0[live@.len() as int]);
                } else {
                    assert(kept@[kept@.len() - 1] == e);
                }
            }
            proof {
                if kept@.len() > kept_before.len() {
                    assert(kept@.drop_last() == kept_before);
                }
                assert forall|k: int|
                    0 <= k < column@.len() && (#[trigger] column@[k]).continues() implies has_successor(
                    kept@,
                    column@[k],
                ) by {
                    if k < column_before.len() {
                        assert(column@[k] == column_before[k]);
                        let q = choose|q: int|
                            0 <= q < kept_before.len() && (#[trigger] kept_before[q]).record_spec()
                                == column_before[k].record_spec() && kept_before[q].ref_pos_spec()
                                == column_before[k].ref_pos_spec() + 1;
                        assert(kept@[q] == kept_before[q]);
                    } else {
                        assert(column@[k] == e0);
                        assert(kept@[kept@.len() - 1].record_spec() == e0.record_spec());
                    }
                }
                assert forall|rec: Record|
                    #![trigger has_start_entry(live0, rec)]
                    has_start_entry(live0, rec) && (rec.ref_id as u32, rec.start as u32) == t
                        implies has_start_entry(column@, rec) || has_start_entry(live@, rec) by {
                    if has_start_entry(column_before, rec) {
                        let q = choose|q: int|
                            0 <= q < column_before.len() && (#[trigger] column_before[q]).record_spec() == rec
                                && column_before[q].ref_pos_spec() == rec.start;
                        assert(column@[q] == column_before[q]);
                    } else {
                        let k = choose|k: int|
                            0 <= k < before.len() && (#[trigger] before[k]).record_spec() == rec
                                && before[k].ref_pos_spec() == rec.start;
                        if k < live@.len() {
                            assert(live@[k] == before[k]);
                        } else {
                            assert(before[k] == e0);
                            assert(e0.wf());
                            assert(e0.pos() == t);
                            assert(column@[column@.len() - 1] == e0);
                        }
                    }
                }
                assert forall|rec: Record|
                    #![trigger has_start_entry(live0, rec)]
                    has_start_entry(live0, rec) && (rec.ref_id as u32, rec.start as u32) != t
                        implies has_start_entry(kept@, rec) || has_start_entry(live@, rec) by {
                    if has_start_entry(kept_before, rec) {
                        let q = choose|q: int|
                            0 <= q < kept_before.len() && (#[trigger] kept_before[q]).record_spec() == rec
                                && kept_before[q].ref_pos_spec() == rec.start;
                        assert(kept@[q] == kept_before[q]);
                    } else {
                        let k = choose|k: int|
                            0 <= k < before.len() && (#[trigger] before[k]).record_spec() == rec
                                && before[k].ref_pos_spec() == rec.start;
                        if k < live@.len() {
                            assert(live@[k] == before[k]);
                        } else {
                            assert(before[k] == e0);
                            assert(e0.wf());
                            assert(e0.pos() != t);
                            assert(kept@[kept@.len() - 1] == e0);
                        }
                    }
                }
            }
            assert forall|k: int| #![trigger kept@[k]] 0 <= k < kept@.len() implies kept@[k].wf() && pos_lt(
                t,
                kept@[k].pos(),
            ) && kept@[k].pos().0 <= self.last_ref_id by {
                if k < kept_before.len() {
                    assert(kept@[k] == kept_before[k]);
                }
            }
        }
        proof {
            assert forall|k: int|
                #![trigger old(self).entries@[k]]
                0 <= k < old(self).entries@.len() implies pos_le(t, old(self).entries@[k].pos()) && (
                old(self).entries@[k].pos() == t ==> column@.contains(old(self).entries@[k])) by {
                assert(live0.subrange(0, n_old)[k] == live0[k]);
                assert(live0[k] == old(self).entries@[k]);
                assert(pos_le(t, live0[k].pos()));
            }
            if old(self).entries@.len() > 0 {
                let k = choose|k: int|
                    0 <= k < old(self).entries@.len() && #[trigger] old(self).entries@[k].pos() == t;
                assert(old(self).live()[k].pos() == t);
            }
            assert forall|k: int|
                0 <= k < old(self).live().len() && #[trigger] old(self).live()[k].pos() != t implies kept@.contains(
                old(self).live()[k]) by {
                assert(live0.subrange(0, n_old)[k] == live0[k]);
                assert(live0[k] == old(self).entries@[k]);
            }
            assert forall|k: int|
                #![trigger old(self).live()[k]]
                0 <= k < old(self).live().len() implies pos_le(t, old(self).live()[k].pos()) && (
                old(self).live()[k].pos() == t ==> column@.contains(old(self).live()[k])) by {
                assert(old(self).live()[k] == old(self).entries@[k]);
            }
            if !self.exhausted && live0.len() > 0 {
                let k = choose|k: int|
                    0 <= k < live0.len() && #[trigger] live0[k].pos() == (
                        self.last_ref_id,
                        self.last_ref_pos,
                    );
                assert(kept@.contains(live0[k]));
                let q = choose|q: int| 0 <= q < kept@.len() && kept@[q] == live0[k];
                assert(kept@[q].pos() == (self.last_ref_id, self.last_ref_pos));
            }
        }
        self.entries = kept;
        self.emitted = Ghost(Some(t));
        assert(forall|k: int| #![trigger self.entries@[k]] 0 <= k < self.entries@.len() ==> pos_lt(t, self.entries@[k].pos()));
        let ghost cv = column@;
        let col = PileupColumn { entries: column, ref_id: t.0, ref_pos: t.1 };
        assert forall|k: int| 0 <= k < col.entries@.len() implies #[trigger] col.entries@[k].wf()
            && col.entries@[k].pos() == col.pos() by {
            assert(col.entries@[k] == cv[k]);
            assert(cv[k].wf());
            assert(cv[k].pos() == t);
        }
        assert(col.entries_spec().len() > 0);
        assert(col.wf());
        assert(self.last_emitted() == Some(col.pos()));
        proof {
            lemma_live_work_pos(self.entries@);
            lemma_queued_work_nonneg(self.pending@.reverse());
        }
        Some(Ok(col))
    }
}

} // verus!
