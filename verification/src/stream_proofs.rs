//! What streaming bytes into the data ring does to the bytes of the ring
//! and to the rest of the region.
use vstd::prelude::*;
use crate::model::{
    lemma_byte_word_bounds,
    lemma_position_bounds,
    lemma_write_bytes_frame,
    wrap,
    HeadModel,
};
use crate::lanes::lemma_with_lane;
use crate::layout::PAGE_WORDS;
use crate::ring_arith::{lemma_distinct_places, lemma_position_of_sum, place};

verus! {

impl HeadModel {
    /// Whether word `at` belongs to the data span.
    pub open spec fn in_data_span(self, at: int) -> bool {
        self.data_base() <= at < self.data_base() + PAGE_WORDS * self.spans.data_pages
    }

    /// Whether place `pos` of the data ring is that of one of the `len`
    /// bytes from logical offset `start` on.
    pub open spec fn covers(self, start: int, len: int, pos: int) -> bool {
        exists|x: int| start <= x < start + len && #[trigger] place(x, self.data()) == pos
    }

    /// Whether `after` differs from this head at most in the bytes of the
    /// data ring at the places of `[start, start + len)`.
    pub open spec fn differs_within(self, after: HeadModel, start: int, len: int) -> bool {
        &&& after.cache == self.cache
        &&& after.spans == self.spans
        &&& after.words.len() == self.words.len()
        &&& forall|at: int|
            0 <= at < self.words.len() && !self.in_data_span(at) ==> #[trigger] after.words[at]
                == self.words[at]
        &&& forall|pos: int|
            0 <= pos < self.data() && !self.covers(start, len, pos)
                ==> #[trigger] after.byte_at_position(pos) == self.byte_at_position(pos)
    }
}

/// Writing a byte sets the byte at its place and changes nothing else.
pub proof fn lemma_write_at_effect(model: HeadModel, idx: u64, byte: u8)
    requires
        model.wf(),
    ensures
        model.write_at(idx, byte).byte_at_position(model.position(idx)) == byte,
        forall|pos: int|
            0 <= pos < model.data() && pos != model.position(idx) ==> #[trigger] model.write_at(
                idx,
                byte,
            ).byte_at_position(pos) == model.byte_at_position(pos),
        forall|at: int|
            0 <= at < model.words.len() && !model.in_data_span(at) ==> #[trigger] model.write_at(
                idx,
                byte,
            ).words[at] == model.words[at],
{
    let after = model.write_at(idx, byte);
    let p = model.position(idx);
    lemma_position_bounds(model, idx);
    lemma_byte_word_bounds(model, p);
    let target = model.byte_word(p);
    lemma_with_lane(model.words[target], (p % 8) as u64, byte, (p % 8) as u64);
    assert forall|pos: int| 0 <= pos < model.data() && pos != p implies #[trigger] after.byte_at_position(
        pos,
    ) == model.byte_at_position(pos) by {
        lemma_byte_word_bounds(model, pos);
        if model.byte_word(pos) == target {
            assert(pos / 8 == p / 8);
            assert(pos % 8 != p % 8);
            lemma_with_lane(model.words[target], (p % 8) as u64, byte, (pos % 8) as u64);
        }
    }
}

/// Streaming in no more bytes than the data ring holds puts every byte at
/// its place, and changes nothing but the bytes at these places.
pub proof fn lemma_write_bytes_effect(model: HeadModel, start: u64, bytes: Seq<u8>)
    requires
        model.wf(),
        bytes.len() <= model.data(),
    ensures
        forall|x: int|
            start <= x < start + bytes.len() ==> model.write_bytes(start, bytes).byte_at_position(
                #[trigger] place(x, model.data()),
            ) == bytes[x - start],
        model.differs_within(model.write_bytes(start, bytes), start as int, bytes.len() as int),
        model.write_bytes(start, bytes).wf(),
    decreases bytes.len(),
{
    let size = model.data();
    let after = model.write_bytes(start, bytes);
    lemma_write_bytes_frame(model, start, bytes);
    if bytes.len() == 0 {
    } else {
        let shorter = bytes.drop_last();
        let before = model.write_bytes(start, shorter);
        let last = start + bytes.len() - 1;
        lemma_write_bytes_effect(model, start, shorter);
        lemma_write_bytes_frame(model, start, shorter);
        lemma_write_at_effect(before, wrap(last), bytes.last());
        lemma_position_of_sum(before, last);
        assert(before.position(wrap(last)) == place(last, size));
        assert forall|x: int| start <= x < start + bytes.len() implies after.byte_at_position(
            #[trigger] place(x, size),
        ) == bytes[x - start] by {
            vstd::arithmetic::div_mod::lemma_mod_bound(x, size);
            if x < last {
                lemma_distinct_places(x, last, size);
                assert(before.byte_at_position(place(x, size)) == shorter[x - start]);
            }
        }
        assert forall|pos: int| 0 <= pos < size && !model.covers(
            start as int,
            bytes.len() as int,
            pos,
        ) implies #[trigger] after.byte_at_position(pos) == model.byte_at_position(pos) by {
            assert(place(last, size) != pos);
            assert(!model.covers(start as int, shorter.len() as int, pos)) by {
                if model.covers(start as int, shorter.len() as int, pos) {
                    let x = choose|x: int|
                        start <= x < start + shorter.len() && #[trigger] place(x, size) == pos;
                    assert(start <= x < start + bytes.len() && place(x, size) == pos);
                }
            }
        }
        assert forall|at: int| 0 <= at < model.words.len() && !model.in_data_span(
            at,
        ) implies #[trigger] after.words[at] == model.words[at] by {
            assert(before.words[at] == model.words[at]);
            assert(!before.in_data_span(at));
        }
    }
}

} // verus!
