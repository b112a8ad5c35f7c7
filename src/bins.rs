//! The index's hierarchical binning: six levels, from the whole reference
//! (2^29 bases) down to windows of 2^14 bases.
use vstd::prelude::*;

verus! {

/// Largest bin id of the scheme.
pub const MAX_BIN: u16 = 37449;

/// Positions the scheme can place: `[0, 2^29)`.
pub const MAX_POSITION: u32 = 0x2000_0000;

/// Width of a linear-index window and of the finest bins.
pub const WINDOW: u32 = 16384;

/// Bases covered by one bin of level `l`.
pub open spec fn level_size(l: int) -> int {
    if l == 0 {
        0x2000_0000
    } else if l == 1 {
        0x400_0000
    } else if l == 2 {
        0x80_0000
    } else if l == 3 {
        0x10_0000
    } else if l == 4 {
        0x2_0000
    } else {
        0x4000
    }
}

/// Id of the first bin of level `l`.
pub open spec fn level_offset(l: int) -> int {
    if l == 0 {
        0
    } else if l == 1 {
        1
    } else if l == 2 {
        9
    } else if l == 3 {
        73
    } else if l == 4 {
        585
    } else {
        4681
    }
}

/// The level a bin id belongs to.
pub open spec fn bin_level(b: int) -> int {
    if b < 1 {
        0
    } else if b < 9 {
        1
    } else if b < 73 {
        2
    } else if b < 585 {
        3
    } else if b < 4681 {
        4
    } else {
        5
    }
}

/// The interval `[min_start, max_end)` that bin `b` covers.
pub open spec fn bin_region_spec(b: int) -> (int, int) {
    let l = bin_level(b);
    ((b - level_offset(l)) * level_size(l), (b - level_offset(l) + 1) * level_size(l))
}

/// The smallest bin that holds `[beg, end)`.
pub open spec fn reg2bin_spec(beg: int, end: int) -> int {
    let e = end - 1;
    if beg / level_size(5) == e / level_size(5) {
        level_offset(5) + beg / level_size(5)
    } else if beg / level_size(4) == e / level_size(4) {
        level_offset(4) + beg / level_size(4)
    } else if beg / level_size(3) == e / level_size(3) {
        level_offset(3) + beg / level_size(3)
    } else if beg / level_size(2) == e / level_size(2) {
        level_offset(2) + beg / level_size(2)
    } else if beg / level_size(1) == e / level_size(1) {
        level_offset(1) + beg / level_size(1)
    } else {
        0
    }
}

/// Is `b` one of the bins that the traversal visits for `[beg, end)`: on each
/// level, the bins from the one holding `beg` to the one holding `end - 1`?
pub open spec fn candidate_bin(b: int, beg: int, end: int) -> bool {
    let l = bin_level(b);
    &&& 0 <= b <= MAX_BIN
    &&& level_offset(l) + beg / level_size(l) <= b <= level_offset(l) + (end - 1) / level_size(l)
}

/// The smallest bin that holds the half-open interval `[beg, end)`.
pub fn reg2bin(beg: u32, end: u32) -> (r: u16)
    requires
        beg < end <= MAX_POSITION,
    ensures
        r == reg2bin_spec(beg as int, end as int),
        r <= MAX_BIN,
{
    let e = end - 1;
    if beg / 0x4000 == e / 0x4000 {
        (4681 + beg / 0x4000) as u16
    } else if beg / 0x2_0000 == e / 0x2_0000 {
        (585 + beg / 0x2_0000) as u16
    } else if beg / 0x10_0000 == e / 0x10_0000 {
        (73 + beg / 0x10_0000) as u16
    } else if beg / 0x80_0000 == e / 0x80_0000 {
        (9 + beg / 0x80_0000) as u16
    } else if beg / 0x400_0000 == e / 0x400_0000 {
        (1 + beg / 0x400_0000) as u16
    } else {
        0
    }
}

/// The interval `[min_start, max_end)` that a bin covers.
pub fn bin_to_region(bin: u16) -> (r: (i32, i32))
    requires
        bin <= MAX_BIN,
    ensures
        r.0 == bin_region_spec(bin as int).0,
        r.1 == bin_region_spec(bin as int).1,
{
    let b = bin as i32;
    if b < 1 {
        (0, 0x2000_0000)
    } else if b < 9 {
        ((b - 1) * 0x400_0000, (b - 1 + 1) * 0x400_0000)
    } else if b < 73 {
        ((b - 9) * 0x80_0000, (b - 9 + 1) * 0x80_0000)
    } else if b < 585 {
        ((b - 73) * 0x10_0000, (b - 73 + 1) * 0x10_0000)
    } else if b < 4681 {
        ((b - 585) * 0x2_0000, (b - 585 + 1) * 0x2_0000)
    } else {
        ((b - 4681) * 0x4000, (b - 4681 + 1) * 0x4000)
    }
}

proof fn lemma_div_bounds(x: int, d: int)
    requires
        0 <= x,
        0 < d,
    ensures
        (x / d) * d <= x < (x / d + 1) * d,
        0 <= x / d,
{
    vstd::arithmetic::div_mod::lemma_fundamental_div_mod(x, d);
    vstd::arithmetic::div_mod::lemma_mod_bound(x, d);
    assert((x / d + 1) * d == (x / d) * d + d) by (nonlinear_arith);
    assert((x / d) * d == d * (x / d)) by (nonlinear_arith);
    assert(x / d >= 0) by (nonlinear_arith) requires 0 <= x, 0 < d;
}

/// The region of the bin of an interval holds the interval.
pub proof fn lemma_bin_region_covers(s: int, e: int)
    requires
        0 <= s < e <= MAX_POSITION,
    ensures
        0 <= reg2bin_spec(s, e) <= MAX_BIN,
        bin_region_spec(reg2bin_spec(s, e)).0 <= s,
        bin_region_spec(reg2bin_spec(s, e)).1 >= e,
{
    let l: int = if s / level_size(5) == (e - 1) / level_size(5) {
        5
    } else if s / level_size(4) == (e - 1) / level_size(4) {
        4
    } else if s / level_size(3) == (e - 1) / level_size(3) {
        3
    } else if s / level_size(2) == (e - 1) / level_size(2) {
        2
    } else if s / level_size(1) == (e - 1) / level_size(1) {
        1
    } else {
        0
    };
    lemma_div_bounds(s, level_size(l));
    lemma_div_bounds(e - 1, level_size(l));
    if l == 0 {
        assert(reg2bin_spec(s, e) == 0);
    } else {
        assert(s / level_size(l) == (e - 1) / level_size(l));
        assert(reg2bin_spec(s, e) == level_offset(l) + s / level_size(l));
        assert(bin_level(level_offset(l) + s / level_size(l)) == l);
    }
}

/// Appends the bins of level `l` that overlap `[beg, end)`.
fn push_level(bins: &mut Vec<u16>, offset: u32, shift_size: u32, beg: u32, end: u32)
    requires
        beg < end <= MAX_POSITION,
        shift_size > 0,
        offset as int + (end - 1) as int / shift_size as int <= MAX_BIN,
    ensures
        final(bins)@ == old(bins)@ + Seq::new(
            ((end - 1) as int / shift_size as int - beg as int / shift_size as int + 1) as nat,
            |k: int| (offset + beg as int / shift_size as int + k) as u16,
        ),
{
    let first = beg / shift_size;
    let last = (end - 1) / shift_size;
    let ghost start = bins@;
    proof {
        vstd::arithmetic::div_mod::lemma_div_is_ordered(beg as int, (end - 1) as int, shift_size as int);
    }
    let mut k: u32 = first;
    while k <= last
        invariant
            first <= k <= last + 1,
            last == (end - 1) as int / shift_size as int,
            first == beg as int / shift_size as int,
            offset as int + last <= MAX_BIN,
            bins@ == start + Seq::new((k - first) as nat, |j: int| (offset + first + j) as u16),
        decreases last + 1 - k,
    {
        bins.push((offset + k) as u16);
        k = k + 1;
        assert(bins@ =~= start + Seq::new((k - first) as nat, |j: int| (offset + first + j) as u16));
    }
}

/// Every bin whose region overlaps `[beg, end)`, level by level.
pub fn region_to_bins(beg: u32, end: u32) -> (r: Vec<u16>)
    requires
        beg < end <= MAX_POSITION,
    ensures
        forall|b: u16| r@.contains(b) <==> candidate_bin(b as int, beg as int, end as int),
{
    let mut bins: Vec<u16> = Vec::new();
    bins.push(0);
    push_level(&mut bins, 1, 0x400_0000, beg, end);
    push_level(&mut bins, 9, 0x80_0000, beg, end);
    push_level(&mut bins, 73, 0x10_0000, beg, end);
    push_level(&mut bins, 585, 0x2_0000, beg, end);
    push_level(&mut bins, 4681, 0x4000, beg, end);
    proof {
        let t = end as int - 1;
        let bg = beg as int;
        lemma_div_bounds(bg, 0x400_0000);
        lemma_div_bounds(t, 0x400_0000);
        lemma_div_bounds(bg, 0x80_0000);
        lemma_div_bounds(t, 0x80_0000);
        lemma_div_bounds(bg, 0x10_0000);
        lemma_div_bounds(t, 0x10_0000);
        lemma_div_bounds(bg, 0x2_0000);
        lemma_div_bounds(t, 0x2_0000);
        lemma_div_bounds(bg, 0x4000);
        lemma_div_bounds(t, 0x4000);
        assert forall|b: u16| bins@.contains(b) implies candidate_bin(b as int, bg, end as int) by {
            let k = choose|k: int| 0 <= k < bins@.len() && bins@[k] == b;
        }
        assert forall|b: u16| candidate_bin(b as int, bg, end as int) implies bins@.contains(b) by {
            let l = bin_level(b as int);
            let j = b as int - level_offset(l) - bg / level_size(l);
            let base = 1 + if l >= 2 { t / level_size(1) - bg / level_size(1) + 1 } else { 0 }
                + if l >= 3 { t / level_size(2) - bg / level_size(2) + 1 } else { 0 }
                + if l >= 4 { t / level_size(3) - bg / level_size(3) + 1 } else { 0 }
                + if l >= 5 { t / level_size(4) - bg / level_size(4) + 1 } else { 0 };
            if l == 0 {
                assert(bins@[0] == b);
            } else {
                assert(bins@[base + j] == b);
            }
        }
    }
    bins
}

} // verus!
