//! Arithmetic of logical offsets and their places in a ring.
use vstd::prelude::*;
use crate::model::{wrap, HeadModel};
use crate::layout::lemma_wrapped_remainder;

verus! {

/// Two numbers less than a whole ring apart are at different places of the
/// ring.
pub proof fn lemma_distinct_places(x: int, y: int, size: int)
    requires
        size > 0,
        0 < y - x < size,
    ensures
        x % size != y % size,
{
    vstd::arithmetic::div_mod::lemma_fundamental_div_mod(x, size);
    vstd::arithmetic::div_mod::lemma_fundamental_div_mod(y, size);
    if x % size == y % size {
        let k = y / size - x / size;
        assert(y - x == size * k) by (nonlinear_arith)
            requires
                x == size * (x / size) + x % size,
                y == size * (y / size) + y % size,
                x % size == y % size,
                k == y / size - x / size,
        ;
        assert(false) by (nonlinear_arith)
            requires
                y - x == size * k,
                0 < y - x < size,
                size > 0,
        ;
    }
}

/// A number that fits a word is its own reduction to a word.
pub proof fn lemma_wrap_small(total: int)
    requires
        0 <= total <= u64::MAX,
    ensures
        wrap(total) == total,
{
    vstd::arithmetic::div_mod::lemma_small_mod(total as nat, 0x1_0000_0000_0000_0000);
}

/// Counting on by one and reducing to a word is reducing to a word and
/// counting on by one, around the end of the word.
pub proof fn lemma_wrap_next(total: int)
    requires
        0 <= total,
    ensures
        wrap(total + 1) == if wrap(total) == u64::MAX {
            0
        } else {
            wrap(total) + 1
        },
{
    let size: int = 0x1_0000_0000_0000_0000;
    let turns = total / size;
    let rest = total % size;
    vstd::arithmetic::div_mod::lemma_fundamental_div_mod(total, size);
    if rest + 1 < size {
        vstd::arithmetic::div_mod::lemma_fundamental_div_mod_converse(
            total + 1,
            size,
            turns,
            rest + 1,
        );
    } else {
        assert(total + 1 == (turns + 1) * size + 0) by (nonlinear_arith)
            requires
                total == size * turns + rest,
                rest + 1 == size,
        ;
        vstd::arithmetic::div_mod::lemma_fundamental_div_mod_converse(
            total + 1,
            size,
            turns + 1,
            0,
        );
    }
}

/// The place in the data ring of a sum reduced to a word is the place of
/// the sum.
pub proof fn lemma_position_of_sum(model: HeadModel, total: int)
    requires
        model.inv(),
        0 <= total,
    ensures
        model.position(wrap(total)) == total % model.data(),
        0 <= model.position(wrap(total)) < model.data(),
{
    lemma_wrapped_remainder(total, (model.cache.page_mask + 1) as u64);
    vstd::arithmetic::div_mod::lemma_mod_bound(total, model.data());
}

/// The place of logical offset `x` in a ring of `size` bytes.
pub open spec fn place(x: int, size: int) -> int {
    x % size
}

/// Whether the places of `[a, a + m)` and `[b, b + n)` in a ring of `size`
/// bytes have nothing in common.
pub open spec fn places_disjoint(a: int, m: int, b: int, n: int, size: int) -> bool {
    forall|x: int, y: int|
        a <= x < a + m && b <= y < b + n ==> #[trigger] place(x, size) != #[trigger] place(
            y,
            size,
        )
}

/// Ranges that follow each other within one turn of the ring have no place
/// in common.
pub proof fn lemma_ranges_in_window(a: int, m: int, b: int, n: int, size: int)
    requires
        size > 0,
        a + m <= b,
        b + n <= a + size,
    ensures
        places_disjoint(a, m, b, n, size),
        places_disjoint(b, n, a, m, size),
{
    assert forall|x: int, y: int| a <= x < a + m && b <= y < b + n implies #[trigger] place(
        x,
        size,
    ) != #[trigger] place(y, size) by {
        lemma_distinct_places(x, y, size);
    }
    assert forall|y: int, x: int| b <= y < b + n && a <= x < a + m implies #[trigger] place(
        y,
        size,
    ) != #[trigger] place(x, size) by {
        lemma_distinct_places(x, y, size);
    }
}

} // verus!
