//! Bytes packed into 64-bit words.
//!
//! A word holds eight bytes. Lane `k` occupies bits `8k` to `8k + 8`, so the
//! byte at position `p` of a run of words is lane `p mod 8` of word `p / 8`.
use vstd::prelude::*;

verus! {

/// The byte in lane `k` of `word`.
pub open spec fn lane(word: u64, k: u64) -> u8 {
    ((word >> ((8 * k) as u64)) & 0xff) as u8
}

/// `word` with lane `k` replaced by `byte` and the other lanes kept.
pub open spec fn with_lane(word: u64, k: u64, byte: u8) -> u64 {
    (word & !(0xffu64 << ((8 * k) as u64))) | ((byte as u64) << ((8 * k) as u64))
}

/// Replacing one lane changes that lane and no other.
pub proof fn lemma_with_lane(word: u64, k: u64, byte: u8, j: u64)
    requires
        k < 8,
        j < 8,
    ensures
        lane(with_lane(word, k, byte), j) == if j == k {
            byte
        } else {
            lane(word, j)
        },
{
    assert(k < 8 && j < 8 ==> ((((word & !(0xffu64 << ((8 * k) as u64))) | ((byte as u64) << ((8
        * k) as u64))) >> ((8 * j) as u64)) & 0xff) as u8 == if j == k {
        byte
    } else {
        ((word >> ((8 * j) as u64)) & 0xff) as u8
    }) by (bit_vector);
}

/// Read lane `k` of `word`.
pub fn get_lane(word: u64, k: u64) -> (byte: u8)
    requires
        k < 8,
    ensures
        byte == lane(word, k),
{
    let shift: u64 = 8 * k;
    ((word >> shift) & 0xff) as u8
}

/// Replace lane `k` of `word` by `byte`.
pub fn set_lane(word: u64, k: u64, byte: u8) -> (updated: u64)
    requires
        k < 8,
    ensures
        updated == with_lane(word, k, byte),
{
    let shift: u64 = 8 * k;
    let mask: u64 = 0xffu64 << shift;
    let cleared: u64 = word & !mask;
    cleared | ((byte as u64) << shift)
}

} // verus!
