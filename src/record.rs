//! Alignment records and the cigar arithmetic that the fetch and pileup
//! engines read from them.
use vstd::prelude::*;

verus! {

/// Cigar operation codes as stored in the binary format.
pub const OP_MATCH: u8 = 0;
pub const OP_INSERTION: u8 = 1;
pub const OP_DELETION: u8 = 2;
pub const OP_SKIPPED: u8 = 3;
pub const OP_SOFT_CLIP: u8 = 4;
pub const OP_HARD_CLIP: u8 = 5;
pub const OP_PADDING: u8 = 6;
pub const OP_SEQ_MATCH: u8 = 7;
pub const OP_SEQ_MISMATCH: u8 = 8;

/// Flag bit that marks an unmapped record.
pub const FLAG_UNMAPPED: u16 = 4;

/// The format stores the number of cigar operations in 16 bits.
pub const MAX_CIGAR_OPS: usize = 65535;

/// Largest coordinate or query length the format can hold.
pub const MAX_COORD: u32 = 0x7fff_ffff;

/// Errors while reading records.
#[derive(Clone, Copy, Debug, PartialEq, Eq, Structural)]
pub enum Error {
    /// The stream ended cleanly at a record boundary.
    NoMoreRecords,
    /// The stream ended inside a record or a block.
    Truncated,
    /// A structural invariant of the data does not hold.
    Corrupted(Corruption),
    /// Caller-supplied arguments violate the contract.
    InvalidInput(InputError),
    /// The input of a pileup is not coordinate-sorted.
    InvalidData,
}

/// What was found corrupted.
#[derive(Clone, Copy, Debug, PartialEq, Eq, Structural)]
pub enum Corruption {
    /// The record's bin is larger than the largest bin.
    BinTooLarge,
    /// The record's alignment ends before it starts.
    EndBeforeStart,
    /// A magic prefix does not match.
    InvalidMagic,
    /// Declared sizes do not fit the data.
    BadSize,
    /// A cigar that cannot describe an alignment.
    BadCigar,
}

/// Which argument check failed.
#[derive(Clone, Copy, Debug, PartialEq, Eq, Structural)]
pub enum InputError {
    /// `start > end`.
    StartAfterEnd,
    /// The reference id is not in the header.
    ReferenceOutOfBounds,
    /// `end` lies past the reference's length.
    EndAfterReferenceLength,
}

/// One cigar operation: a length and an operation code.
#[derive(Clone, Copy, Debug, PartialEq, Eq, Structural)]
pub struct CigarOp {
    pub len: u32,
    pub op: u8,
}

pub open spec fn consumes_ref_spec(op: u8) -> bool {
    op == OP_MATCH || op == OP_DELETION || op == OP_SKIPPED || op == OP_SEQ_MATCH
        || op == OP_SEQ_MISMATCH
}

pub open spec fn consumes_query_spec(op: u8) -> bool {
    op == OP_MATCH || op == OP_INSERTION || op == OP_SOFT_CLIP || op == OP_SEQ_MATCH
        || op == OP_SEQ_MISMATCH
}

/// Does the operation code advance along the reference?
pub fn consumes_ref(op: u8) -> (r: bool)
    ensures
        r == consumes_ref_spec(op),
{
    op == OP_MATCH || op == OP_DELETION || op == OP_SKIPPED || op == OP_SEQ_MATCH
        || op == OP_SEQ_MISMATCH
}

/// Does the operation code advance along the query?
pub fn consumes_query(op: u8) -> (r: bool)
    ensures
        r == consumes_query_spec(op),
{
    op == OP_MATCH || op == OP_INSERTION || op == OP_SOFT_CLIP || op == OP_SEQ_MATCH
        || op == OP_SEQ_MISMATCH
}

/// Reference bases covered by the operations of `c`.
pub open spec fn ref_len(c: Seq<CigarOp>) -> int
    decreases c.len(),
{
    if c.len() == 0 {
        0
    } else {
        ref_len(c.drop_last()) + if consumes_ref_spec(c.last().op) {
            c.last().len as int
        } else {
            0
        }
    }
}

/// Query bases covered by the operations of `c`.
pub open spec fn query_len(c: Seq<CigarOp>) -> int
    decreases c.len(),
{
    if c.len() == 0 {
        0
    } else {
        query_len(c.drop_last()) + if consumes_query_spec(c.last().op) {
            c.last().len as int
        } else {
            0
        }
    }
}

/// Does some operation of `c` advance along the reference?
pub open spec fn has_ref_op(c: Seq<CigarOp>) -> bool {
    exists|i: int| 0 <= i < c.len() && #[trigger] consumes_ref_spec(c[i].op)
}

/// Soft-clipped bases at the right end of `c` (hard clips are passed over).
pub open spec fn trailing_soft_clip(c: Seq<CigarOp>) -> int
    decreases c.len(),
{
    if c.len() == 0 {
        0
    } else if c.last().op == OP_SOFT_CLIP {
        trailing_soft_clip(c.drop_last()) + c.last().len as int
    } else if c.last().op == OP_HARD_CLIP {
        trailing_soft_clip(c.drop_last())
    } else {
        0
    }
}

pub proof fn lemma_ref_len_nonneg(c: Seq<CigarOp>)
    ensures
        ref_len(c) >= 0,
    decreases c.len(),
{
    if c.len() > 0 {
        lemma_ref_len_nonneg(c.drop_last());
    }
}

pub proof fn lemma_query_len_nonneg(c: Seq<CigarOp>)
    ensures
        query_len(c) >= 0,
    decreases c.len(),
{
    if c.len() > 0 {
        lemma_query_len_nonneg(c.drop_last());
    }
}

/// Prefix sums grow with the prefix.
pub proof fn lemma_len_prefix_mono(c: Seq<CigarOp>, i: int, j: int)
    requires
        0 <= i <= j <= c.len(),
    ensures
        ref_len(c.take(i)) <= ref_len(c.take(j)),
        query_len(c.take(i)) <= query_len(c.take(j)),
    decreases j - i,
{
    if i < j {
        lemma_len_prefix_mono(c, i, j - 1);
        assert(c.take(j).drop_last() =~= c.take(j - 1));
    }
}

/// The prefix of length `i + 1` adds operation `i` to the prefix of length `i`.
pub proof fn lemma_take_step(c: Seq<CigarOp>, i: int)
    requires
        0 <= i < c.len(),
    ensures
        ref_len(c.take(i + 1)) == ref_len(c.take(i)) + if consumes_ref_spec(c[i].op) {
            c[i].len as int
        } else {
            0
        },
        query_len(c.take(i + 1)) == query_len(c.take(i)) + if consumes_query_spec(c[i].op) {
            c[i].len as int
        } else {
            0
        },
{
    assert(c.take(i + 1).drop_last() =~= c.take(i));
}

/// Trailing soft clips lie after any operation that is no clip.
pub proof fn lemma_trailing_clip_after(c: Seq<CigarOp>, i: int)
    requires
        0 <= i < c.len(),
        c[i].op != OP_SOFT_CLIP,
        c[i].op != OP_HARD_CLIP,
    ensures
        trailing_soft_clip(c) <= query_len(c) - query_len(c.take(i + 1)),
    decreases c.len(),
{
    if i == c.len() - 1 {
        assert(c.take(i + 1) =~= c);
    } else {
        let d = c.drop_last();
        assert(d[i] == c[i]);
        lemma_trailing_clip_after(d, i);
        assert(d.take(i + 1) =~= c.take(i + 1));
        lemma_len_prefix_mono(c, i + 1, c.len() as int);
        assert(c.take(c.len() as int) =~= c);
    }
}

/// The soft clip at the right end is part of the query.
pub proof fn lemma_trailing_clip_bounds(c: Seq<CigarOp>)
    ensures
        0 <= trailing_soft_clip(c) <= query_len(c),
    decreases c.len(),
{
    lemma_query_len_nonneg(c);
    if c.len() > 0 {
        lemma_trailing_clip_bounds(c.drop_last());
    }
}

/// Every record of the input meets the format's limits.
pub open spec fn all_wf(items: Seq<Result<Record, Error>>) -> bool {
    forall|k: int| 0 <= k < items.len() ==> (#[trigger] items[k] matches Ok(r) ==> r.wf())
}

/// A record of the container, with the fields that the core reads.
#[derive(Clone, Debug)]
pub struct Record {
    /// Reference id, or -1 when unmapped.
    pub ref_id: i32,
    /// 0-based leftmost position, or -1 when unmapped.
    pub start: i32,
    pub mapq: u8,
    pub bin: u16,
    pub flag: u16,
    pub cigar: Vec<CigarOp>,
    /// Read name, without the trailing zero byte.
    pub name: Vec<u8>,
    /// One letter per base; empty when the sequence is not stored.
    pub sequence: Vec<u8>,
    /// Raw qualities (without +33); empty when not stored.
    pub qualities: Vec<u8>,
}

impl Record {
    /// The alignment end that `calculate_end` returns.
    pub open spec fn end_spec(&self) -> int {
        if has_ref_op(self.cigar@) {
            self.start as int + ref_len(self.cigar@)
        } else {
            -1
        }
    }

    pub open spec fn is_mapped_spec(&self) -> bool {
        self.flag & FLAG_UNMAPPED == 0
    }

    pub open spec fn aligned_query_end_spec(&self) -> int {
        query_len(self.cigar@) - trailing_soft_clip(self.cigar@)
    }

    /// Limits that the binary format places on a record.
    pub open spec fn wf(&self) -> bool {
        &&& self.cigar@.len() <= MAX_CIGAR_OPS
        &&& self.start >= -1
        &&& self.start as int + ref_len(self.cigar@) <= MAX_COORD
        &&& query_len(self.cigar@) <= MAX_COORD
        &&& self.is_mapped_spec() ==> self.ref_id >= 0 && self.start >= 0
        &&& self.is_mapped_spec() ==> self.sequence@.len() == 0 || self.sequence@.len()
            == query_len(self.cigar@)
        &&& self.is_mapped_spec() ==> self.qualities@.len() == 0 || self.qualities@.len()
            == query_len(self.cigar@)
    }

    /// An empty, unmapped record.
    pub fn new() -> (r: Record)
        ensures
            r.ref_id == -1,
            r.start == -1,
            !r.is_mapped_spec(),
            r.cigar@.len() == 0,
            r.wf(),
    {
        assert((4u16 & 4u16) != 0u16) by (bit_vector);
        let r = Record {
            ref_id: -1,
            start: -1,
            mapq: 0,
            bin: 4680,
            flag: FLAG_UNMAPPED,
            cigar: Vec::new(),
            name: Vec::new(),
            sequence: Vec::new(),
            qualities: Vec::new(),
        };
        assert(r.cigar@ =~= Seq::<CigarOp>::empty());
        r
    }

    pub fn is_mapped(&self) -> (r: bool)
        ensures
            r == self.is_mapped_spec(),
    {
        self.flag & FLAG_UNMAPPED == 0
    }

    /// Are qualities stored for this record?
    pub fn qualities_available(&self) -> (r: bool)
        ensures
            r == (self.qualities@.len() > 0 && self.qualities@[0] != 0xff),
    {
        self.qualities.len() > 0 && self.qualities[0] != 0xff
    }

    /// `start` plus the reference bases of the cigar, or -1 when no operation
    /// advances along the reference.
    pub fn calculate_end(&self) -> (r: i64)
        requires
            self.cigar@.len() <= MAX_CIGAR_OPS,
        ensures
            r == self.end_spec(),
    {
        let mut sum: u64 = 0;
        let mut found = false;
        let mut i: usize = 0;
        while i < self.cigar.len()
            invariant
                i <= self.cigar@.len() <= MAX_CIGAR_OPS,
                sum == ref_len(self.cigar@.take(i as int)),
                sum <= i * 0xffff_ffff,
                found == exists|k: int| 0 <= k < i && #[trigger] consumes_ref_spec(self.cigar@[k].op),
            decreases self.cigar@.len() - i,
        {
            proof {
                lemma_take_step(self.cigar@, i as int);
            }
            let c = self.cigar[i];
            if consumes_ref(c.op) {
                sum = sum + c.len as u64;
                found = true;
            }
            i = i + 1;
        }
        assert(self.cigar@.take(i as int) =~= self.cigar@);
        if found {
            self.start as i64 + sum as i64
        } else {
            -1
        }
    }

    /// Reference bases covered by the cigar.
    pub fn reference_len(&self) -> (r: u64)
        requires
            self.cigar@.len() <= MAX_CIGAR_OPS,
        ensures
            r == ref_len(self.cigar@),
    {
        let mut sum: u64 = 0;
        let mut i: usize = 0;
        while i < self.cigar.len()
            invariant
                i <= self.cigar@.len() <= MAX_CIGAR_OPS,
                sum == ref_len(self.cigar@.take(i as int)),
                sum <= i * 0xffff_ffff,
            decreases self.cigar@.len() - i,
        {
            proof {
                lemma_take_step(self.cigar@, i as int);
            }
            let c = self.cigar[i];
            if consumes_ref(c.op) {
                sum = sum + c.len as u64;
            }
            i = i + 1;
        }
        assert(self.cigar@.take(i as int) =~= self.cigar@);
        sum
    }

    /// Query bases covered by the cigar.
    pub fn query_length(&self) -> (r: u64)
        requires
            self.cigar@.len() <= MAX_CIGAR_OPS,
        ensures
            r == query_len(self.cigar@),
    {
        let mut sum: u64 = 0;
        let mut i: usize = 0;
        while i < self.cigar.len()
            invariant
                i <= self.cigar@.len() <= MAX_CIGAR_OPS,
                sum == query_len(self.cigar@.take(i as int)),
                sum <= i * 0xffff_ffff,
            decreases self.cigar@.len() - i,
        {
            proof {
                lemma_take_step(self.cigar@, i as int);
            }
            let c = self.cigar[i];
            if consumes_query(c.op) {
                sum = sum + c.len as u64;
            }
            i = i + 1;
        }
        assert(self.cigar@.take(i as int) =~= self.cigar@);
        sum
    }

    /// Query position after the last aligned base: the query bases of the
    /// cigar without the soft clip at its right end.
    pub fn aligned_query_end(&self) -> (r: u32)
        requires
            self.wf(),
        ensures
            r == self.aligned_query_end_spec(),
    {
        let mut total: u64 = 0;
        let mut i: usize = 0;
        while i < self.cigar.len()
            invariant
                i <= self.cigar@.len() <= MAX_CIGAR_OPS,
                total == query_len(self.cigar@.take(i as int)),
                total <= i * 0xffff_ffff,
            decreases self.cigar@.len() - i,
        {
            proof {
                lemma_take_step(self.cigar@, i as int);
            }
            let c = self.cigar[i];
            if consumes_query(c.op) {
                total = total + c.len as u64;
            }
            i = i + 1;
        }
        assert(self.cigar@.take(i as int) =~= self.cigar@);
        proof {
            lemma_trailing_clip_bounds(self.cigar@);
        }
        let mut clip: u64 = 0;
        let mut j: usize = self.cigar.len();
        let mut done = false;
        while j > 0 && !done
            invariant
                j <= self.cigar@.len() <= MAX_CIGAR_OPS,
                !done ==> trailing_soft_clip(self.cigar@) == clip + trailing_soft_clip(
                    self.cigar@.take(j as int),
                ),
                done ==> trailing_soft_clip(self.cigar@) == clip,
                trailing_soft_clip(self.cigar@) <= query_len(self.cigar@) <= MAX_COORD,
            decreases j + if done { 0int } else { 1 },
        {
            let c = self.cigar[j - 1];
            assert(self.cigar@.take(j as int).drop_last() =~= self.cigar@.take(j - 1));
            proof {
                lemma_trailing_clip_bounds(self.cigar@.take(j - 1));
            }
            if c.op == OP_SOFT_CLIP {
                clip = clip + c.len as u64;
                j = j - 1;
            } else if c.op == OP_HARD_CLIP {
                j = j - 1;
            } else {
                done = true;
            }
        }
        assert(self.cigar@.take(0) =~= Seq::<CigarOp>::empty());
        (total - clip) as u32
    }
}

} // verus!
