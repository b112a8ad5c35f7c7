//! Virtual offsets: a compressed block's position packed with a position
//! inside that block's decompressed payload.
use vstd::prelude::*;

verus! {

/// Largest compressed-block offset that fits beside a 16-bit in-block offset.
pub const MAX_COFFSET: u64 = 0xffff_ffff_ffff;

/// A packed `(coffset << 16) | uoffset` position.
#[derive(Clone, Copy, Debug, PartialEq, Eq, Structural)]
pub struct VirtualOffset {
    pub raw: u64,
}

/// The packed value of a pair.
pub open spec fn pack_spec(coffset: u64, uoffset: u16) -> u64 {
    ((coffset as int) * 65536 + uoffset as int) as u64
}

/// The block offset of a packed value.
pub open spec fn coffset_spec(v: u64) -> u64 {
    v / 65536
}

/// The in-block offset of a packed value.
pub open spec fn uoffset_spec(v: u64) -> u16 {
    (v % 65536) as u16
}

impl VirtualOffset {
    /// Packs a block offset and an in-block offset.
    pub fn new(coffset: u64, uoffset: u16) -> (r: VirtualOffset)
        requires
            coffset <= MAX_COFFSET,
        ensures
            r.raw == pack_spec(coffset, uoffset),
            r.raw as int == coffset as int * 65536 + uoffset as int,
            coffset_spec(r.raw) == coffset,
            uoffset_spec(r.raw) == uoffset,
    {
        let raw: u64 = coffset * 65536 + uoffset as u64;
        VirtualOffset { raw }
    }

    /// Wraps a packed value, as stored in an index.
    pub fn from_raw(raw: u64) -> (r: VirtualOffset)
        ensures
            r.raw == raw,
    {
        VirtualOffset { raw }
    }

    /// Offset of the compressed block in the underlying stream.
    pub fn coffset(&self) -> (r: u64)
        ensures
            r == coffset_spec(self.raw),
            r <= MAX_COFFSET,
    {
        self.raw / 65536
    }

    /// Offset inside the block's decompressed payload.
    pub fn uoffset(&self) -> (r: u16)
        ensures
            r == uoffset_spec(self.raw),
    {
        (self.raw % 65536) as u16
    }
}

/// Splitting a packed value and packing the parts again gives the value back.
pub proof fn lemma_pack_unpack(v: u64)
    ensures
        coffset_spec(v) <= MAX_COFFSET,
        pack_spec(coffset_spec(v), uoffset_spec(v)) == v,
{
}

/// Packing a pair and splitting the result gives the pair back.
pub proof fn lemma_unpack_pack(coffset: u64, uoffset: u16)
    requires
        coffset <= MAX_COFFSET,
    ensures
        coffset_spec(pack_spec(coffset, uoffset)) == coffset,
        uoffset_spec(pack_spec(coffset, uoffset)) == uoffset,
{
}

} // verus!
