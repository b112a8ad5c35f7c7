//! The container's decompressed blocks, its header, and the byte view over a
//! list of chunks.
use vstd::prelude::*;
use crate::codec::{le_u16, le_u32, read_u16, read_u32};
use crate::index::{take_u32, Chunk};
use crate::record::{Corruption, Error, MAX_COORD};

verus! {

/// Magic prefix of the decompressed container stream.
pub const CONTAINER_MAGIC: [u8; 4] = [66, 65, 77, 1];

/// Largest decompressed payload of one block.
pub const MAX_BLOCK_SIZE: usize = 65536;

/// Where the parts of one compressed block lie in the file.
#[derive(Clone, Copy, Debug, PartialEq, Eq, Structural)]
pub struct BlockFrame {
    /// Start of the deflated payload.
    pub cdata_start: usize,
    /// End of the deflated payload.
    pub cdata_end: usize,
    /// CRC-32 of the inflated payload, as stored.
    pub crc32: u32,
    /// Size of the inflated payload, as stored.
    pub inflated_size: u32,
    /// Start of the next block.
    pub next: usize,
}

/// Why the bytes at `pos` hold no well-formed block frame, checked in this
/// order; `None` when they hold one.
pub open spec fn frame_check(b: Seq<u8>, pos: int) -> Option<Error> {
    let xlen = le_u16(b, pos + 10);
    let total = le_u16(b, pos + 16) + 1;
    if b.len() - pos < 18 {
        Some(Error::Truncated)
    } else if b[pos] != 31 || b[pos + 1] != 139 || b[pos + 2] != 8 || b[pos + 3] != 4 {
        Some(Error::Corrupted(Corruption::InvalidMagic))
    } else if b[pos + 12] != 66 || b[pos + 13] != 67 || le_u16(b, pos + 14) != 2 {
        Some(Error::Corrupted(Corruption::BadSize))
    } else if b.len() - pos < total {
        Some(Error::Truncated)
    } else if 12 + xlen + 8 > total {
        Some(Error::Corrupted(Corruption::BadSize))
    } else if le_u32(b, pos + total - 4) > MAX_BLOCK_SIZE {
        Some(Error::Corrupted(Corruption::BadSize))
    } else {
        None
    }
}

/// Reads the framing of the compressed block at `pos`: the gzip header with
/// its `BC` extra field giving the block size, and the CRC and size trailer.
pub fn block_frame(b: &Vec<u8>, pos: usize) -> (r: Result<BlockFrame, Error>)
    requires
        pos <= b@.len(),
    ensures
        pos + 18 > b@.len() ==> r == Err::<BlockFrame, Error>(Error::Truncated),
        match frame_check(b@, pos as int) {
            None => r is Ok,
            Some(e) => r == Err::<BlockFrame, Error>(e),
        },
        r matches Ok(f) ==> {
            &&& pos + 18 <= b@.len()
            &&& b@[pos as int] == 31 && b@[pos + 1] == 139 && b@[pos + 2] == 8 && b@[pos + 3] == 4
            &&& b@[pos + 12] == 66 && b@[pos + 13] == 67 && le_u16(b@, pos + 14) == 2
            &&& f.next == pos + le_u16(b@, pos + 16) + 1
            &&& f.cdata_start == pos + 12 + le_u16(b@, pos + 10)
            &&& f.cdata_end == f.next - 8
            &&& f.cdata_start <= f.cdata_end
            &&& f.next <= b@.len()
            &&& f.crc32 == le_u32(b@, f.next - 8)
            &&& f.inflated_size == le_u32(b@, f.next - 4)
            &&& f.inflated_size <= MAX_BLOCK_SIZE
        },
{
    if b.len() - pos < 18 {
        return Err(Error::Truncated);
    }
    if b[pos] != 31 || b[pos + 1] != 139 || b[pos + 2] != 8 || b[pos + 3] != 4 {
        return Err(Error::Corrupted(Corruption::InvalidMagic));
    }
    if b[pos + 12] != 66 || b[pos + 13] != 67 || read_u16(b, pos + 14) != 2 {
        return Err(Error::Corrupted(Corruption::BadSize));
    }
    let xlen = read_u16(b, pos + 10) as usize;
    let bsize = read_u16(b, pos + 16) as usize;
    let total = bsize + 1;
    if b.len() - pos < total {
        return Err(Error::Truncated);
    }
    let next = pos + total;
    if 12 + xlen + 8 > total {
        return Err(Error::Corrupted(Corruption::BadSize));
    }
    let crc32 = read_u32(b, next - 8);
    let inflated_size = read_u32(b, next - 4);
    if inflated_size as usize > MAX_BLOCK_SIZE {
        return Err(Error::Corrupted(Corruption::BadSize));
    }
    Ok(BlockFrame { cdata_start: pos + 12 + xlen, cdata_end: next - 8, crc32, inflated_size, next })
}

/// One block: where it starts in the compressed file, and its payload once
/// inflated.
#[derive(Debug)]
pub struct Block {
    pub coffset: u64,
    pub data: Vec<u8>,
}

/// The inflated blocks of a container, in file order.
#[derive(Debug)]
pub struct Container {
    blocks: Vec<Block>,
}

/// The bytes from in-block offset `u` of block `i` on, up to `end`: to the end
/// of each block before the one at `end`'s block offset, and within that one
/// up to `end`'s in-block offset.
pub open spec fn span_bytes(blocks: Seq<Block>, i: int, u: int, end: int) -> Seq<u8>
    decreases blocks.len() - i,
{
    if i < 0 || i >= blocks.len() {
        Seq::empty()
    } else {
        let d = blocks[i].data@;
        let from = if u < d.len() {
            u
        } else {
            d.len() as int
        };
        if blocks[i].coffset == end / 65536 {
            let eu = end % 65536;
            let to = if eu < from {
                from
            } else if eu > d.len() {
                d.len() as int
            } else {
                eu
            };
            d.subrange(from, to)
        } else {
            d.subrange(from, d.len() as int) + span_bytes(blocks, i + 1, 0, end)
        }
    }
}

/// Index of the block starting at `coffset`.
pub open spec fn block_at(blocks: Seq<Block>, coffset: int) -> Option<int> {
    if exists|i: int| 0 <= i < blocks.len() && blocks[i].coffset == coffset {
        Some(choose|i: int| 0 <= i < blocks.len() && blocks[i].coffset == coffset)
    } else {
        None
    }
}

/// The bytes of one chunk; `None` when its first block is missing.
pub open spec fn chunk_bytes(blocks: Seq<Block>, c: Chunk) -> Option<Seq<u8>> {
    if c.begin.raw >= c.end.raw {
        Some(Seq::empty())
    } else {
        match block_at(blocks, (c.begin.raw / 65536) as int) {
            Some(i) => Some(span_bytes(blocks, i, (c.begin.raw % 65536) as int, c.end.raw as int)),
            None => None,
        }
    }
}

/// The bytes of a list of chunks, one after the other.
pub open spec fn chunks_bytes(blocks: Seq<Block>, cs: Seq<Chunk>) -> Option<Seq<u8>>
    decreases cs.len(),
{
    if cs.len() == 0 {
        Some(Seq::empty())
    } else {
        match (chunks_bytes(blocks, cs.drop_last()), chunk_bytes(blocks, cs.last())) {
            (Some(a), Some(b)) => Some(a + b),
            _ => None,
        }
    }
}

/// All payloads, one after the other.
pub open spec fn all_bytes(blocks: Seq<Block>) -> Seq<u8>
    decreases blocks.len(),
{
    if blocks.len() == 0 {
        Seq::empty()
    } else {
        all_bytes(blocks.drop_last()) + blocks.last().data@
    }
}

fn append(out: &mut Vec<u8>, d: &Vec<u8>, from: usize, to: usize)
    requires
        from <= to <= d@.len(),
    ensures
        final(out)@ == old(out)@ + d@.subrange(from as int, to as int),
{
    let mut k = from;
    let ghost start = out@;
    while k < to
        invariant
            from <= k <= to <= d@.len(),
            out@ == start + d@.subrange(from as int, k as int),
        decreases to - k,
    {
        out.push(d[k]);
        k = k + 1;
        assert(out@ =~= start + d@.subrange(from as int, k as int));
    }
}

impl Container {
    pub closed spec fn blocks_spec(&self) -> Seq<Block> {
        self.blocks@
    }

    /// Block offsets strictly increase.
    pub closed spec fn wf(&self) -> bool {
        forall|a: int, b: int|
            0 <= a < b < self.blocks@.len() ==> self.blocks@[a].coffset < self.blocks@[b].coffset
    }

    /// A container of the given blocks; `None` unless their offsets strictly
    /// increase.
    pub fn new(blocks: Vec<Block>) -> (r: Option<Container>)
        ensures
            r matches Some(c) ==> c.wf() && c.blocks_spec() == blocks@,
            r is None <==> exists|a: int, b: int|
                0 <= a < b < blocks@.len() && blocks@[a].coffset >= blocks@[b].coffset,
    {
        let mut i: usize = 1;
        while i < blocks.len()
            invariant
                1 <= i,
                forall|a: int, b: int|
                    0 <= a < b < blocks@.len() && b < i ==> blocks@[a].coffset < blocks@[b].coffset,
            decreases blocks@.len() - i,
        {
            if blocks[i - 1].coffset >= blocks[i].coffset {
                return None;
            }
            assert forall|a: int, b: int|
                0 <= a < b < blocks@.len() && b < i + 1 implies blocks@[a].coffset < blocks@[b].coffset by {
                if b == i && a < i - 1 {
                    assert(blocks@[a].coffset < blocks@[i - 1].coffset);
                }
            }
            i = i + 1;
        }
        Some(Container { blocks })
    }

    fn find_block(&self, coffset: u64) -> (r: Option<usize>)
        requires
            self.wf(),
        ensures
            r matches Some(i) ==> i < self.blocks@.len() && block_at(self.blocks@, coffset as int)
                == Some(i as int),
            r is None ==> block_at(self.blocks@, coffset as int) is None,
    {
        let mut i: usize = 0;
        while i < self.blocks.len()
            invariant
                self.wf(),
                i <= self.blocks@.len(),
                forall|k: int| 0 <= k < i ==> self.blocks@[k].coffset != coffset,
            decreases self.blocks@.len() - i,
        {
            if self.blocks[i].coffset == coffset {
                let ghost c = choose|k: int|
                    0 <= k < self.blocks@.len() && self.blocks@[k].coffset == coffset;
                assert(c == i) by {
                    if c < i {
                    } else if c > i {
                        assert(self.blocks@[i as int].coffset < self.blocks@[c].coffset);
                    }
                }
                return Some(i);
            }
            i = i + 1;
        }
        None
    }

    /// The decompressed stream without chunk boundaries.
    pub fn read_all(&self) -> (r: Vec<u8>)
        ensures
            r@ == all_bytes(self.blocks_spec()),
    {
        let mut out: Vec<u8> = Vec::new();
        let mut i: usize = 0;
        while i < self.blocks.len()
            invariant
                i <= self.blocks@.len(),
                out@ == all_bytes(self.blocks@.take(i as int)),
            decreases self.blocks@.len() - i,
        {
            let d = &self.blocks[i].data;
            append(&mut out, d, 0, d.len());
            assert(d@.subrange(0, d@.len() as int) =~= d@);
            assert(self.blocks@.take(i + 1).drop_last() =~= self.blocks@.take(i as int));
            i = i + 1;
        }
        assert(self.blocks@.take(i as int) =~= self.blocks@);
        out
    }

    /// The bytes of the chunks, one after the other, switching blocks where a
    /// chunk crosses a block's end. Fails with `Truncated` where the block
    /// that a chunk begins in is missing.
    pub fn read_chunks(&self, chunks: &Vec<Chunk>) -> (r: Result<Vec<u8>, Error>)
        requires
            self.wf(),
        ensures
            chunks_bytes(self.blocks_spec(), chunks@) matches Some(bytes) ==> r matches Ok(v) && v@
                == bytes,
            chunks_bytes(self.blocks_spec(), chunks@) is None ==> r == Err::<Vec<u8>, Error>(
                Error::Truncated,
            ),
    {
        let mut out: Vec<u8> = Vec::new();
        let mut j: usize = 0;
        while j < chunks.len()
            invariant
                self.wf(),
                j <= chunks@.len(),
                chunks_bytes(self.blocks@, chunks@.take(j as int)) == Some(out@),
            decreases chunks@.len() - j,
        {
            let c = chunks[j];
            assert(chunks@.take(j + 1).drop_last() =~= chunks@.take(j as int));
            assert(chunks@.take(j + 1).last() == c);
            if c.begin.raw < c.end.raw {
                let first = match self.find_block(c.begin.coffset()) {
                    Some(i) => i,
                    None => {
                        proof {
                            lemma_chunks_none(self.blocks@, chunks@, j as int + 1);
                        }
                        return Err(Error::Truncated);
                    },
                };
                let ghost start = out@;
                let mut i = first;
                let mut u = c.begin.uoffset() as usize;
                let end_c = c.end.coffset();
                let end_u = c.end.uoffset() as usize;
                let mut done = false;
                while !done && i < self.blocks.len()
                    invariant
                        i <= self.blocks@.len(),
                        end_c == c.end.raw / 65536,
                        end_u == c.end.raw % 65536,
                        u <= MAX_BLOCK_SIZE,
                        !done ==> start + span_bytes(self.blocks@, first as int, (c.begin.raw % 65536) as int, c.end.raw as int)
                            == out@ + span_bytes(self.blocks@, i as int, u as int, c.end.raw as int),
                        done ==> start + span_bytes(self.blocks@, first as int, (c.begin.raw % 65536) as int, c.end.raw as int)
                            == out@,
                    decreases self.blocks@.len() - i + if done { 0int } else { 1 },
                {
                    let d = &self.blocks[i].data;
                    let len = d.len();
                    let from = if u < len {
                        u
                    } else {
                        len
                    };
                    if self.blocks[i].coffset == end_c {
                        let to = if end_u < from {
                            from
                        } else if end_u > len {
                            len
                        } else {
                            end_u
                        };
                        append(&mut out, d, from, to);
                        done = true;
                    } else {
                        let ghost before = out@;
                        append(&mut out, d, from, len);
                        assert(out@ + span_bytes(self.blocks@, i + 1, 0, c.end.raw as int) =~= before
                            + span_bytes(self.blocks@, i as int, u as int, c.end.raw as int));
                        i = i + 1;
                        u = 0;
                    }
                }
                assert(start + span_bytes(self.blocks@, first as int, (c.begin.raw % 65536) as int, c.end.raw as int)
                    == out@) by {
                    if !done {
                        assert(span_bytes(self.blocks@, i as int, u as int, c.end.raw as int) =~= Seq::<u8>::empty());
                        assert(out@ + Seq::<u8>::empty() =~= out@);
                    }
                }
                proof {
                    assert(block_at(self.blocks@, (c.begin.raw / 65536) as int) == Some(first as int));
                }
            } else {
                assert(out@ + Seq::<u8>::empty() =~= out@);
            }
            j = j + 1;
        }
        assert(chunks@.take(j as int) =~= chunks@);
        Ok(out)
    }
}

proof fn lemma_chunks_none(blocks: Seq<Block>, cs: Seq<Chunk>, n: int)
    requires
        0 < n <= cs.len(),
        chunk_bytes(blocks, cs[n - 1]) is None,
    ensures
        chunks_bytes(blocks, cs) is None,
    decreases cs.len(),
{
    if n < cs.len() {
        lemma_chunks_none(blocks, cs.drop_last(), n);
    } else {
        assert(cs.last() == cs[n - 1]);
    }
}

} // verus!
