//! The fixed byte layout of a region and the arithmetic it rests on.
//!
//! A region starts with a header page of 4096 bytes. The pages behind it hold
//! the descriptor ring, then the data ring, then whatever the caller keeps in
//! the tail. All of them are addressed here as 64-bit words.
use vstd::prelude::*;

verus! {

/// Bytes in a page.
pub const PAGE_BYTES: u64 = 4096;

/// 64-bit words in a page.
pub const PAGE_WORDS: usize = 512;

/// Descriptors in a page: each takes two words.
pub const PAGE_DESCRIPTORS: u64 = 256;

/// The most pages whose bytes can still be counted in a 64-bit word.
pub const MAX_PAGES: u64 = 0xf_ffff_ffff_ffff;

/// Word of the header that holds the layout magic.
pub const HEADER_VERSION: usize = 0;

/// Word of the header that holds the descriptor count minus one.
pub const HEADER_ENTRY_MASK: usize = 1;

/// Word of the header that holds the data ring's size in bytes minus one.
pub const HEADER_PAGE_MASK: usize = 2;

/// Word of the header that holds the logical offset of the next byte.
pub const HEADER_WRITE_OFFSET: usize = 3;

/// Two to the power 63, the largest power of two a word can hold.
pub const HIGHEST_BIT: u64 = 0x8000_0000_0000_0000;

/// Whether `n` is a power of two. Zero is not.
pub open spec fn is_power_of_two(n: u64) -> bool {
    n != 0 && n & ((n - 1) as u64) == 0
}

/// Whether `p` is the largest power of two that does not exceed `v`.
pub open spec fn is_fitting_power_of_two(p: u64, v: u64) -> bool {
    is_power_of_two(p) && p <= v && v - p < p
}

/// Pages needed to hold `count` units when a page holds `per_page` of them.
pub open spec fn pages_for(count: int, per_page: int) -> int {
    count / per_page + if count % per_page != 0 { 1int } else { 0int }
}

/// Masking with a power of two minus one is the remainder by that power.
pub proof fn lemma_mask_is_remainder(x: u64, n: u64)
    requires
        is_power_of_two(n),
    ensures
        x & ((n - 1) as u64) == x % n,
    decreases n,
{
    if n == 1 {
        assert(x & 0u64 == 0) by (bit_vector);
    } else {
        let half: u64 = n / 2;
        let rest: u64 = x / 2;
        assert(n != 0 && n != 1 && n & ((n - 1) as u64) == 0 ==> {
            let half = n / 2;
            half != 0 && half & ((half - 1) as u64) == 0 && n == 2 * half
        }) by (bit_vector);
        lemma_mask_is_remainder(rest, half);
        assert(n != 0 && n != 1 && n & ((n - 1) as u64) == 0 ==> x & ((n - 1) as u64) == 2 * ((x
            / 2) & ((n / 2 - 1) as u64)) + (x & 1)) by (bit_vector);
        assert(x & 1 == x % 2) by (bit_vector);
        vstd::arithmetic::div_mod::lemma_mod_breakdown(x as int, 2, half as int);
    }
}

/// Every power of two that fits a word divides two to the power 63.
pub proof fn lemma_power_of_two_divides_highest(n: u64)
    requires
        is_power_of_two(n),
    ensures
        HIGHEST_BIT % n == 0,
{
    assert(n != 0 && n & ((n - 1) as u64) == 0 ==> 0x8000_0000_0000_0000u64 % n == 0)
        by (bit_vector);
}

/// The largest power of two below a value is unique, and a power of two is its own.
pub proof fn lemma_fitting_power_of_two_unique(p: u64, q: u64, v: u64)
    requires
        is_fitting_power_of_two(p, v),
        is_fitting_power_of_two(q, v),
    ensures
        p == q,
{
    assert(p != 0 && p & ((p - 1) as u64) == 0 && q != 0 && q & ((q - 1) as u64) == 0 && p <= v
        && q <= v && ((v - p) as u64) < p && ((v - q) as u64) < q ==> p == q) by (bit_vector);
}

/// Reducing a sum modulo two to the power 64 does not change its remainder
/// by a power of two.
pub proof fn lemma_wrapped_remainder(total: int, n: u64)
    requires
        is_power_of_two(n),
        0 <= total,
    ensures
        (total % 0x1_0000_0000_0000_0000) % (n as int) == total % (n as int),
{
    lemma_power_of_two_divides_highest(n);
    let q: int = (HIGHEST_BIT / n) as int;
    assert(HIGHEST_BIT as int == n as int * q) by {
        vstd::arithmetic::div_mod::lemma_fundamental_div_mod(HIGHEST_BIT as int, n as int);
    }
    assert(0x1_0000_0000_0000_0000 == n as int * (2 * q)) by (nonlinear_arith)
        requires
            0x8000_0000_0000_0000 == n as int * q,
    ;
    assert(q > 0) by (nonlinear_arith)
        requires
            0x8000_0000_0000_0000 == n as int * q,
            n > 0,
    ;
    vstd::arithmetic::div_mod::lemma_mod_mod(total, n as int, 2 * q);
}

/// Whether `n` is a power of two.
pub fn is_pow2(n: u64) -> (r: bool)
    ensures
        r == is_power_of_two(n),
{
    n != 0 && n & (n - 1) == 0
}

/// The largest power of two that does not exceed `value`.
pub fn fitting_power_of_two(value: u64) -> (p: u64)
    requires
        value > 0,
    ensures
        is_fitting_power_of_two(p, value),
{
    let zeros: u32 = value.leading_zeros();
    proof {
        vstd::std_specs::bits::axiom_u64_leading_zeros(value);
    }
    let shift: u64 = zeros as u64;
    let p: u64 = HIGHEST_BIT >> shift;
    proof {
        let top: u64 = (63 - shift) as u64;
        assert((value >> top) & 1u64 != 0u64);
        assert(shift < 64 && top == 63 - shift && (value >> top) & 1u64 != 0u64 && (shift == 0
            || value >> ((64 - shift) as u64) == 0) ==> {
            let p = 0x8000_0000_0000_0000u64 >> shift;
            p != 0 && p & ((p - 1) as u64) == 0 && p <= value && ((value - p) as u64) < p
        }) by (bit_vector);
    }
    p
}

} // verus!
