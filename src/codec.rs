//! Little-endian integers and the binary record layout of the decompressed
//! container stream.
use vstd::prelude::*;
use crate::record::{
    consumes_query, consumes_ref, lemma_take_step, query_len, ref_len, CigarOp, Corruption, Error,
    Record, all_wf, FLAG_UNMAPPED, MAX_COORD,
};

verus! {

pub open spec fn le_u16(b: Seq<u8>, i: int) -> int {
    b[i] + b[i + 1] * 256
}

pub open spec fn le_u32(b: Seq<u8>, i: int) -> int {
    b[i] + b[i + 1] * 0x100 + b[i + 2] * 0x1_0000 + b[i + 3] * 0x100_0000
}

pub open spec fn le_u64(b: Seq<u8>, i: int) -> int {
    le_u32(b, i) + le_u32(b, i + 4) * 0x1_0000_0000
}

pub open spec fn le_i32(b: Seq<u8>, i: int) -> int {
    if le_u32(b, i) >= 0x8000_0000 {
        le_u32(b, i) - 0x1_0000_0000
    } else {
        le_u32(b, i)
    }
}

pub fn read_u16(b: &Vec<u8>, i: usize) -> (r: u16)
    requires
        i + 2 <= b@.len(),
    ensures
        r == le_u16(b@, i as int),
{
    let len = b.len();
    assert(i + 2 <= len);
    b[i] as u16 + b[i + 1] as u16 * 256
}

pub fn read_u32(b: &Vec<u8>, i: usize) -> (r: u32)
    requires
        i + 4 <= b@.len(),
    ensures
        r == le_u32(b@, i as int),
{
    let len = b.len();
    assert(i + 4 <= len);
    b[i] as u32 + b[i + 1] as u32 * 0x100 + b[i + 2] as u32 * 0x1_0000 + b[i + 3] as u32
        * 0x100_0000
}

pub fn read_u64(b: &Vec<u8>, i: usize) -> (r: u64)
    requires
        i + 8 <= b@.len(),
    ensures
        r == le_u64(b@, i as int),
{
    let len = b.len();
    assert(i + 8 <= len);
    let lo = read_u32(b, i);
    let hi = read_u32(b, i + 4);
    lo as u64 + hi as u64 * 0x1_0000_0000
}

pub fn read_i32(b: &Vec<u8>, i: usize) -> (r: i32)
    requires
        i + 4 <= b@.len(),
    ensures
        r == le_i32(b@, i as int),
{
    let u = read_u32(b, i);
    if u >= 0x8000_0000 {
        (u as i64 - 0x1_0000_0000) as i32
    } else {
        u as i32
    }
}

/// The ASCII letter that a 4-bit base code stands for (`=ACMGRSVTWYHKDBN`).
pub open spec fn base_letter(code: int) -> u8 {
    let table = seq![
        61u8, 65u8, 67u8, 77u8, 71u8, 82u8, 83u8, 86u8, 84u8, 87u8, 89u8, 72u8, 75u8, 68u8, 66u8,
        78u8
    ];
    table[code % 16]
}

fn letter_of(code: u8) -> (r: u8)
    requires
        code < 16,
    ensures
        r == base_letter(code as int),
{
    let table: [u8; 16] = [
        61u8, 65u8, 67u8, 77u8, 71u8, 82u8, 83u8, 86u8, 84u8, 87u8, 89u8, 72u8, 75u8, 68u8, 66u8,
        78u8,
    ];
    proof {
        assert(table@ =~= seq![
            61u8, 65u8, 67u8, 77u8, 71u8, 82u8, 83u8, 86u8, 84u8, 87u8, 89u8, 72u8, 75u8, 68u8, 66u8,
            78u8
        ]);
    }
    table[code as usize]
}

/// The letter of base `k` of a sequence packed two bases to a byte from `at`.
pub open spec fn packed_base(b: Seq<u8>, at: int, k: int) -> u8 {
    let byte = b[at + k / 2] as int;
    if k % 2 == 0 {
        base_letter(byte / 16)
    } else {
        base_letter(byte % 16)
    }
}

/// The cigar operation that a stored 32-bit word holds.
pub open spec fn cigar_op_of(word: int) -> CigarOp {
    CigarOp { len: (word / 16) as u32, op: (word % 16) as u8 }
}

/// Where the fields of the record starting at `pos` lie: fixed fields at
/// `pos + 4`, then name, cigar, sequence and qualities.
pub open spec fn name_offset(b: Seq<u8>, pos: int) -> int {
    pos + 36
}

pub open spec fn cigar_offset(b: Seq<u8>, pos: int) -> int {
    name_offset(b, pos) + b[pos + 12]
}

pub open spec fn seq_offset(b: Seq<u8>, pos: int) -> int {
    cigar_offset(b, pos) + 4 * le_u16(b, pos + 16)
}

pub open spec fn qual_offset(b: Seq<u8>, pos: int) -> int {
    seq_offset(b, pos) + (le_u32(b, pos + 20) + 1) / 2
}

/// End of the record's data as its field sizes give it.
pub open spec fn data_end(b: Seq<u8>, pos: int) -> int {
    qual_offset(b, pos) + le_u32(b, pos + 20)
}

/// The cigar that the record at `pos` stores.
pub open spec fn cigar_of(b: Seq<u8>, pos: int) -> Seq<CigarOp> {
    Seq::new(
        le_u16(b, pos + 16) as nat,
        |k: int| cigar_op_of(le_u32(b, cigar_offset(b, pos) + 4 * k)),
    )
}

/// Why the bytes at `pos` hold no well-formed record, checked in this
/// order; `None` when they hold one.
pub open spec fn record_check(b: Seq<u8>, pos: int) -> Option<Error> {
    let bs = le_u32(b, pos);
    let l_name = b[pos + 12] as int;
    let n_cigar = le_u16(b, pos + 16);
    let l_seq = le_u32(b, pos + 20);
    let ref_id = le_i32(b, pos + 4);
    let start = le_i32(b, pos + 8);
    let mapped = (le_u16(b, pos + 18) as u16) & FLAG_UNMAPPED == 0;
    let c = cigar_of(b, pos);
    if pos == b.len() {
        Some(Error::NoMoreRecords)
    } else if b.len() - pos < 4 || b.len() - pos - 4 < bs {
        Some(Error::Truncated)
    } else if bs < 32 || 32 + l_name + 4 * n_cigar + (l_seq + 1) / 2 + l_seq > bs {
        Some(Error::Corrupted(Corruption::BadSize))
    } else if exists|k: int| 0 <= k < n_cigar && #[trigger] le_u32(b, cigar_offset(b, pos) + 4 * k) % 16 > 8 {
        Some(Error::Corrupted(Corruption::BadCigar))
    } else if start < -1 || (mapped && (ref_id < 0 || start < 0)) {
        Some(Error::Corrupted(Corruption::BadSize))
    } else if ref_len(c) > MAX_COORD || start + ref_len(c) > MAX_COORD || query_len(c) > MAX_COORD {
        Some(Error::Corrupted(Corruption::BadCigar))
    } else if mapped && l_seq > 0 && l_seq != query_len(c) {
        Some(Error::Corrupted(Corruption::BadSize))
    } else {
        None
    }
}

/// The record that the bytes at `pos` describe, field by field.
pub open spec fn decodes_to(b: Seq<u8>, pos: int, r: Record) -> bool {
    let l_name = b[pos + 12] as int;
    let n_cigar = le_u16(b, pos + 16);
    let l_seq = le_u32(b, pos + 20);
    &&& r.ref_id == le_i32(b, pos + 4)
    &&& r.start == le_i32(b, pos + 8)
    &&& r.mapq == b[pos + 13]
    &&& r.bin == le_u16(b, pos + 14)
    &&& r.flag == le_u16(b, pos + 18)
    &&& r.cigar@.len() == n_cigar
    &&& forall|k: int|
        0 <= k < n_cigar ==> #[trigger] r.cigar@[k] == cigar_op_of(
            le_u32(b, cigar_offset(b, pos) + 4 * k),
        )
    &&& l_name > 0 ==> r.name@ == b.subrange(name_offset(b, pos), name_offset(b, pos) + l_name - 1)
    &&& l_name == 0 ==> r.name@.len() == 0
    &&& r.sequence@.len() == l_seq
    &&& forall|k: int| 0 <= k < l_seq ==> #[trigger] r.sequence@[k] == packed_base(b, seq_offset(b, pos), k)
    &&& r.qualities@ == b.subrange(qual_offset(b, pos), qual_offset(b, pos) + l_seq)
}

/// A copy of `v[from..to]`.
pub fn copy_range(v: &Vec<u8>, from: usize, to: usize) -> (r: Vec<u8>)
    requires
        from <= to <= v@.len(),
    ensures
        r@ == v@.subrange(from as int, to as int),
{
    let mut r: Vec<u8> = Vec::new();
    let mut i: usize = from;
    while i < to
        invariant
            from <= i <= to <= v@.len(),
            r@ == v@.subrange(from as int, i as int),
        decreases to - i,
    {
        r.push(v[i]);
        i = i + 1;
        assert(r@ =~= v@.subrange(from as int, i as int));
    }
    r
}

/// Reads the length-prefixed record that starts at `pos`, and returns it with
/// the position after it.
pub fn decode_record(b: &Vec<u8>, pos: usize) -> (r: Result<(Record, usize), Error>)
    requires
        pos <= b@.len(),
    ensures
        pos == b@.len() <==> r == Err::<(Record, usize), Error>(Error::NoMoreRecords),
        pos < b@.len() && pos + 4 > b@.len() ==> r == Err::<(Record, usize), Error>(
            Error::Truncated,
        ),
        pos + 4 <= b@.len() && pos + 4 + le_u32(b@, pos as int) > b@.len() ==> r == Err::<
            (Record, usize),
            Error,
        >(Error::Truncated),
        match record_check(b@, pos as int) {
            None => r is Ok,
            Some(e) => r == Err::<(Record, usize), Error>(e),
        },
        r matches Ok((rec, next)) ==> {
            &&& next == pos + 4 + le_u32(b@, pos as int)
            &&& pos + 36 <= next <= b@.len()
            &&& data_end(b@, pos as int) <= next
            &&& decodes_to(b@, pos as int, rec)
            &&& rec.wf()
        },
{
    let n = b.len();
    if pos == n {
        return Err(Error::NoMoreRecords);
    }
    if n - pos < 4 {
        return Err(Error::Truncated);
    }
    let block_size = read_u32(b, pos) as usize;
    if n - pos - 4 < block_size {
        return Err(Error::Truncated);
    }
    let next = pos + 4 + block_size;
    if block_size < 32 {
        return Err(Error::Corrupted(Corruption::BadSize));
    }
    let ref_id = read_i32(b, pos + 4);
    let start = read_i32(b, pos + 8);
    let l_name = b[pos + 12];
    let mapq = b[pos + 13];
    let bin = read_u16(b, pos + 14);
    let n_cigar = read_u16(b, pos + 16);
    let flag = read_u16(b, pos + 18);
    let l_seq = read_u32(b, pos + 20);
    let rel_cigar: u64 = 32 + l_name as u64;
    let rel_seq = rel_cigar + 4 * n_cigar as u64;
    let rel_qual = rel_seq + (l_seq as u64 + 1) / 2;
    let rel_end = rel_qual + l_seq as u64;
    if rel_end > block_size as u64 {
        return Err(Error::Corrupted(Corruption::BadSize));
    }
    let name_at = pos + 36;
    let cigar_at = pos + 4 + rel_cigar as usize;
    let seq_at = pos + 4 + rel_seq as usize;
    let qual_at = pos + 4 + rel_qual as usize;
    assert(cigar_at == cigar_offset(b@, pos as int));
    assert(seq_at == seq_offset(b@, pos as int));
    assert(qual_at == qual_offset(b@, pos as int));
    let name = if l_name > 0 {
        copy_range(b, name_at, name_at + l_name as usize - 1)
    } else {
        Vec::new()
    };
    let mut cigar: Vec<CigarOp> = Vec::new();
    let mut k: usize = 0;
    while k < n_cigar as usize
        invariant
            k <= n_cigar,
            n == b@.len(),
            pos + 4 <= b@.len(),
            next == pos + 4 + le_u32(b@, pos as int),
            next <= b@.len(),
            cigar_at + 4 * n_cigar <= b@.len(),
            cigar@.len() == k,
            forall|j: int| 0 <= j < k ==> #[trigger] cigar@[j] == cigar_op_of(le_u32(b@, cigar_at + 4 * j)),
            forall|j: int| 0 <= j < k ==> #[trigger] le_u32(b@, cigar_at + 4 * j) % 16 <= 8,
            cigar_at == cigar_offset(b@, pos as int),
            n_cigar == le_u16(b@, pos + 16),
            pos + 4 + 32 + b@[pos + 12] + 4 * n_cigar <= next,
            block_size == le_u32(b@, pos as int),
            block_size >= 32,
            l_seq == le_u32(b@, pos + 20),
            l_name == b@[pos + 12],
            32 + l_name + 4 * n_cigar + (l_seq + 1) / 2 + l_seq <= block_size,
            next == pos + 4 + block_size,
        decreases n_cigar - k,
    {
        let word = read_u32(b, cigar_at + 4 * k);
        let op = (word % 16) as u8;
        if op > 8 {
            assert(le_u32(b@, cigar_offset(b@, pos as int) + 4 * k) % 16 > 8);
            return Err(Error::Corrupted(Corruption::BadCigar));
        }
        cigar.push(CigarOp { len: word / 16, op });
        k = k + 1;
    }
    let mut sequence: Vec<u8> = Vec::new();
    let mut k: usize = 0;
    while k < l_seq as usize
        invariant
            k <= l_seq,
            n == b@.len(),
            pos + 4 <= b@.len(),
            next == pos + 4 + le_u32(b@, pos as int),
            next <= b@.len(),
            seq_at + (l_seq + 1) / 2 <= b@.len(),
            sequence@.len() == k,
            forall|j: int| 0 <= j < k ==> #[trigger] sequence@[j] == packed_base(b@, seq_at as int, j),
        decreases l_seq - k,
    {
        let byte = b[seq_at + k / 2];
        let code = if k % 2 == 0 {
            byte / 16
        } else {
            byte % 16
        };
        sequence.push(letter_of(code));
        k = k + 1;
    }
    let qualities = copy_range(b, qual_at, qual_at + l_seq as usize);
    assert(cigar@ =~= cigar_of(b@, pos as int));
    assert(!exists|j: int|
        0 <= j < n_cigar && #[trigger] le_u32(b@, cigar_offset(b@, pos as int) + 4 * j) % 16 > 8);
    let rec = Record { ref_id, start, mapq, bin, flag, cigar, name, sequence, qualities };
    let mapped = rec.is_mapped();
    if start < -1 || (mapped && (ref_id < 0 || start < 0)) {
        return Err(Error::Corrupted(Corruption::BadSize));
    }
    let ref_bases = rec.reference_len();
    let query_bases = rec.query_length();
    if ref_bases > MAX_COORD as u64 || start as i64 + ref_bases as i64 > MAX_COORD as i64
        || query_bases > MAX_COORD as u64 {
        return Err(Error::Corrupted(Corruption::BadCigar));
    }
    if mapped && l_seq > 0 && l_seq as u64 != query_bases {
        return Err(Error::Corrupted(Corruption::BadSize));
    }
    Ok((rec, next))
}

/// `items` is what reading record after record from `pos` gives: each record
/// decodes from where the previous one ended, an error (never the clean end)
/// can only close the list, and when none does, the records fill the data
/// exactly.
pub open spec fn decoded_from(b: Seq<u8>, pos: int, items: Seq<Result<Record, Error>>) -> bool {
    &&& forall|k: int|
        0 <= k < items.len() ==> (#[trigger] items[k] matches Err(e) ==> k == items.len() - 1 && e
            != Error::NoMoreRecords)
    &&& exists|ps: Seq<int>|
        {
            &&& ps.len() == items.len() + 1
            &&& ps[0] == pos
            &&& forall|k: int|
                0 <= k < items.len() ==> (#[trigger] items[k] matches Ok(rec) ==> record_check(b, ps[k]) is None
                    && decodes_to(b, ps[k], rec) && ps[k + 1] == ps[k] + 4 + le_u32(b, ps[k]))
            &&& forall|k: int|
                0 <= k < items.len() ==> (#[trigger] items[k] matches Err(e) ==> record_check(
                    b,
                    ps[k],
                ) == Some(e))
            &&& (items.len() == 0 || items.last() is Ok) ==> ps.last() == b.len()
        }
}

/// Reads records from `pos` on until the data ends or a record cannot be
/// read; that error, other than the clean end, closes the list.
pub fn decode_records(b: &Vec<u8>, pos: usize) -> (r: Vec<Result<Record, Error>>)
    requires
        pos <= b@.len(),
    ensures
        all_wf(r@),
        forall|k: int| 0 <= k < r@.len() ==> (#[trigger] r@[k] matches Err(e) ==> k == r@.len() - 1
            && e != Error::NoMoreRecords),
        decoded_from(b@, pos as int, r@),
{
    let mut out: Vec<Result<Record, Error>> = Vec::new();
    let mut p = pos;
    let ghost mut ps: Seq<int> = seq![pos as int];
    loop
        invariant
            p <= b@.len(),
            all_wf(out@),
            forall|k: int| 0 <= k < out@.len() ==> #[trigger] out@[k] is Ok,
            ps.len() == out@.len() + 1,
            ps[0] == pos,
            ps.last() == p,
            forall|k: int|
                0 <= k < out@.len() ==> (#[trigger] out@[k] matches Ok(rec) ==> record_check(b@, ps[k])
                    is None && decodes_to(b@, ps[k], rec) && ps[k + 1] == ps[k] + 4 + le_u32(
                    b@,
                    ps[k],
                )),
        decreases b@.len() - p,
    {
        match decode_record(b, p) {
            Ok((rec, next)) => {
                let ghost old_out = out@;
                let ghost old_ps = ps;
                out.push(Ok(rec));
                proof {
                    ps = ps.push(next as int);
                    assert forall|k: int|
                        0 <= k < out@.len() implies (#[trigger] out@[k] matches Ok(rec) ==> record_check(
                        b@,
                        ps[k],
                    ) is None && decodes_to(b@, ps[k], rec) && ps[k + 1] == ps[k] + 4 + le_u32(
                        b@,
                        ps[k],
                    )) by {
                        if k < old_out.len() {
                            assert(out@[k] == old_out[k]);
                            assert(ps[k] == old_ps[k]);
                            assert(ps[k + 1] == old_ps[k + 1]);
                        }
                    }
                }
                p = next;
            },
            Err(Error::NoMoreRecords) => {
                proof {
                    assert(p == b@.len());
                    assert(out@.len() == 0 || out@.last() is Ok) by {
                        if out@.len() > 0 {
                            assert(out@[out@.len() - 1] is Ok);
                        }
                    }
                    assert(ps.last() == b@.len());
                }
                return out;
            },
            Err(e) => {
                let ghost old_out = out@;
                let ghost old_ps = ps;
                out.push(Err(e));
                proof {
                    ps = ps.push(p as int);
                    assert forall|k: int|
                        0 <= k < out@.len() implies (#[trigger] out@[k] matches Ok(rec) ==> record_check(
                        b@,
                        ps[k],
                    ) is None && decodes_to(b@, ps[k], rec) && ps[k + 1] == ps[k] + 4 + le_u32(
                        b@,
                        ps[k],
                    )) by {
                        if k < old_out.len() {
                            assert(out@[k] == old_out[k]);
                            assert(ps[k] == old_ps[k]);
                            assert(ps[k + 1] == old_ps[k + 1]);
                        }
                    }
                    assert(ps[0] == pos);
                    assert(out@.last() == Err::<Record, Error>(e));
                    assert({
                        &&& ps.len() == out@.len() + 1
                        &&& ps[0] == pos
                        &&& forall|k: int|
                            0 <= k < out@.len() ==> (#[trigger] out@[k] matches Ok(rec) ==> record_check(
                                b@,
                                ps[k],
                            ) is None && decodes_to(b@, ps[k], rec) && ps[k + 1] == ps[k] + 4
                                + le_u32(b@, ps[k]))
                        &&& forall|k: int|
                            0 <= k < out@.len() ==> (#[trigger] out@[k] matches Err(e) ==> record_check(
                                b@,
                                ps[k],
                            ) == Some(e))
                        &&& (out@.len() == 0 || out@.last() is Ok) ==> ps.last() == b@.len()
                    });
                }
                return out;
            },
        }
    }
}

} // verus!
