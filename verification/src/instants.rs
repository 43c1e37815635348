//! What the region holds at every instant of a commit.
//!
//! A commit is a run of writes to single words, and an observer may look at
//! the region between any two of them. At each of these instants, every
//! descriptor that is valid describes data that is whole: either it was
//! valid before the commit began and its data is as it was then, or it is
//! the descriptor of the commit itself, and the data is the payload.
use vstd::prelude::*;
use crate::layout::{HEADER_WRITE_OFFSET, PAGE_WORDS};
use crate::memory::Store;
use crate::model::{
    lemma_byte_word_bounds,
    lemma_descriptor_bounds,
    lemma_invalidate_heads_frame,
    lemma_pages_fit,
    lemma_slot_bounds,
    lemma_stream_step,
    lemma_stream_stores_relaxed,
    lemma_write_bytes_frame,
    length_word,
    offset_word,
    wrap,
    HeadModel,
};
use crate::ring_arith::{lemma_distinct_places, lemma_wrap_small, place};
use crate::snapshot::Snapshot;
use crate::stream_proofs::lemma_write_bytes_effect;
use crate::tracking::{
    lemma_commit_consistent,
    lemma_drop_oldest_consistent,
    lemma_invalidate_heads_consistent,
    lemma_stream_consistent,
    lemma_valid_snapshots_apart,
};

verus! {

/// The words of a region after `stores` were made to it, one after the
/// other.
pub open spec fn replay(words: Seq<u64>, stores: Seq<Store<u64>>) -> Seq<u64>
    decreases stores.len(),
{
    if stores.len() == 0 {
        words
    } else {
        replay(words, stores.drop_last()).update(stores.last().index, stores.last().value)
    }
}

impl HeadModel {
    /// The bytes that `snapshot` describes, as the data ring holds them.
    pub open spec fn data_of(self, snapshot: Snapshot) -> Seq<u8> {
        Seq::new(
            snapshot.length as nat,
            |i: int| self.byte_at_position(place(snapshot.offset + i, self.data())),
        )
    }

    /// The head as an observer finds it after the first `count` writes of
    /// a commit of `bytes`.
    pub open spec fn during_commit(self, bytes: Seq<u8>, count: int) -> HeadModel {
        self.with_words(replay(self.words, self.commit_stores_of(bytes).take(count)))
    }

    /// Whether `after` holds every valid descriptor of its first slots as
    /// this head holds it, with the same data.
    pub open spec fn keeps_whole(self, after: HeadModel) -> bool {
        forall|slot: int|
            0 <= slot < self.entries() && (#[trigger] after.descriptor(slot)).length != 0 ==> {
                &&& after.descriptor(slot) == self.descriptor(slot)
                &&& after.data_of(after.descriptor(slot)) == self.data_of(self.descriptor(slot))
            }
    }
}

/// Replaying one run of writes after another is replaying both.
pub proof fn lemma_replay_concat(words: Seq<u64>, first: Seq<Store<u64>>, second: Seq<Store<u64>>)
    ensures
        replay(words, first + second) == replay(replay(words, first), second),
    decreases second.len(),
{
    if second.len() == 0 {
        assert(first + second =~= first);
    } else {
        lemma_replay_concat(words, first, second.drop_last());
        assert((first + second).drop_last() =~= first + second.drop_last());
        assert((first + second).last() == second.last());
    }
}

/// Replaying a single write is updating the word it names.
pub proof fn lemma_replay_one(words: Seq<u64>, store: Store<u64>)
    ensures
        replay(words, seq![store]) == words.update(store.index, store.value),
{
    assert(seq![store].drop_last() =~= Seq::<Store<u64>>::empty());
    assert(replay(words, seq![store].drop_last()) == words);
}

/// A head that differs from another in words outside the data span only,
/// and in none that hold a descriptor it keeps valid, holds its valid
/// descriptors whole.
proof fn lemma_keeps_whole_by_words(model: HeadModel, after: HeadModel)
    requires
        model.wf(),
        model.separated(),
        after.cache.page_mask == model.cache.page_mask,
        after.cache.entry_mask == model.cache.entry_mask,
        after.spans == model.spans,
        after.words.len() == model.words.len(),
        forall|at: int|
            0 <= at < model.words.len() && model.in_data_span(at) ==> #[trigger] after.words[at]
                == model.words[at],
        forall|slot: int|
            0 <= slot < model.entries() && (#[trigger] after.descriptor(slot)).length != 0
                ==> after.descriptor(slot) == model.descriptor(slot),
    ensures
        model.keeps_whole(after),
{
    assert forall|slot: int|
        0 <= slot < model.entries() && (#[trigger] after.descriptor(slot)).length
            != 0 implies after.data_of(after.descriptor(slot)) == model.data_of(
        model.descriptor(slot),
    ) by {
        let found = after.descriptor(slot);
        assert forall|i: int| 0 <= i < found.length implies after.data_of(found)[i]
            == model.data_of(found)[i] by {
            let pos = place(found.offset + i, model.data());
            vstd::arithmetic::div_mod::lemma_mod_bound(found.offset + i, model.data());
            lemma_byte_word_bounds(model, pos);
        }
        assert(after.data_of(found) =~= model.data_of(found));
    }
}

/// At every instant while room is made, the region holds every valid
/// descriptor as it was, and nothing else has changed but lengths of
/// descriptors.
#[verifier::rlimit(40)]
pub proof fn lemma_instants_of_invalidation(model: HeadModel, end: u64, count: int)
    requires
        model.consistent(),
        model.cache.page_write_offset <= end,
        end < model.cache.page_write_offset + model.data(),
        0 <= count <= model.invalidate_stores(end).len(),
    ensures
        replay(model.words, model.invalidate_stores(end).take(count)).len() == model.words.len(),
        forall|at: int|
            0 <= at < model.words.len() && !(PAGE_WORDS <= at < PAGE_WORDS + PAGE_WORDS
                * model.spans.sequence_pages) ==> #[trigger] replay(
                model.words,
                model.invalidate_stores(end).take(count),
            )[at] == model.words[at],
        forall|slot: int|
            0 <= slot < model.entries() && (#[trigger] model.with_words(
                replay(model.words, model.invalidate_stores(end).take(count)),
            ).descriptor(slot)).length != 0 ==> model.with_words(
                replay(model.words, model.invalidate_stores(end).take(count)),
            ).descriptor(slot) == model.descriptor(slot),
        count == model.invalidate_stores(end).len() ==> replay(
            model.words,
            model.invalidate_stores(end).take(count),
        ) == model.invalidate_heads_to(end).words,
    decreases model.entries_behind(),
{
    let trace = model.invalidate_stores(end);
    if !model.must_drop(end) {
        assert(trace.take(count) =~= Seq::<Store<u64>>::empty());
    } else if count == 0 {
        assert(trace.take(0) =~= Seq::<Store<u64>>::empty());
    } else {
        let oldest = model.cache.entry_read_offset;
        let slot_of_oldest = model.slot_of(oldest);
        let next = model.drop_oldest();
        let first = model.invalidate_store(oldest);
        let rest = next.invalidate_stores(end);
        assert(trace == seq![first] + rest);
        lemma_drop_oldest_consistent(model);
        lemma_slot_bounds(model, oldest);
        lemma_descriptor_bounds(model, slot_of_oldest);
        lemma_pages_fit(model);
        lemma_instants_of_invalidation(next, end, count - 1);
        assert(trace.take(count) =~= seq![first] + rest.take(count - 1));
        lemma_replay_concat(model.words, seq![first], rest.take(count - 1));
        lemma_replay_one(model.words, first);
        assert(replay(model.words, seq![first]) == next.words);
        let mid = replay(model.words, trace.take(count));
        assert(mid == replay(next.words, rest.take(count - 1)));
        assert forall|slot: int|
            0 <= slot < model.entries() && (#[trigger] model.with_words(mid).descriptor(
                slot,
            )).length != 0 implies model.with_words(mid).descriptor(slot) == model.descriptor(
            slot,
        ) by {
            lemma_descriptor_bounds(model, slot);
            assert(next.with_words(mid).descriptor(slot) == model.with_words(mid).descriptor(slot));
            assert(next.descriptor(slot).length != 0);
        }
        assert forall|at: int|
            0 <= at < model.words.len() && !(PAGE_WORDS <= at < PAGE_WORDS + PAGE_WORDS
                * model.spans.sequence_pages) implies #[trigger] mid[at] == model.words[at] by {
            assert(mid[at] == next.words[at]);
        }
    }
}

/// The writes that stream a prefix of the data are a prefix of the writes
/// that stream all of it, and replaying them gives the region with the
/// prefix written.
pub proof fn lemma_instants_of_streaming(model: HeadModel, start: u64, bytes: Seq<u8>, count: int)
    requires
        0 <= count <= bytes.len(),
    ensures
        model.stream_stores(start, bytes).len() == bytes.len(),
        model.stream_stores(start, bytes).take(count) == model.stream_stores(
            start,
            bytes.take(count),
        ),
        replay(model.words, model.stream_stores(start, bytes.take(count))) == model.write_bytes(
            start,
            bytes.take(count),
        ).words,
    decreases bytes.len() + count,
{
    lemma_stream_stores_relaxed(model, start, bytes);
    if count == bytes.len() {
        assert(bytes.take(count) =~= bytes);
        assert(model.stream_stores(start, bytes).take(count) =~= model.stream_stores(start, bytes));
    } else {
        lemma_instants_of_streaming(model, start, bytes.drop_last(), count);
        assert(bytes.drop_last().take(count) =~= bytes.take(count));
        assert(model.stream_stores(start, bytes).take(count) =~= model.stream_stores(
            start,
            bytes.drop_last(),
        ).take(count));
    }
    if count > 0 {
        let shorter = bytes.take(count - 1);
        lemma_instants_of_streaming(model, start, bytes, count - 1);
        lemma_stream_step(model, start, bytes, count - 1);
        let last = model.write_bytes(start, shorter).write_at_store(
            wrap(start + count - 1),
            bytes[count - 1],
        );
        assert(model.stream_stores(start, bytes.take(count)).drop_last() =~= model.stream_stores(
            start,
            shorter,
        ));
    } else {
        assert(bytes.take(0) =~= Seq::<u8>::empty());
    }
}

/// While data is streamed into the room that was made for it, the region
/// holds every descriptor as it was, and every valid one with its data.
pub proof fn lemma_stream_keeps_whole(model: HeadModel, bytes: Seq<u8>)
    requires
        model.consistent(),
        model.cache.page_write_offset + bytes.len() <= model.cache.page_read_offset,
        bytes.len() < model.data(),
    ensures
        model.keeps_whole(model.write_bytes(model.cache.page_write_offset, bytes)),
        forall|slot: int|
            0 <= slot < model.entries() ==> #[trigger] model.write_bytes(
                model.cache.page_write_offset,
                bytes,
            ).descriptor(slot) == model.descriptor(slot),
{
    let start = model.cache.page_write_offset;
    let size = model.data();
    let after = model.write_bytes(start, bytes);
    lemma_write_bytes_effect(model, start, bytes);
    lemma_write_bytes_frame(model, start, bytes);
    lemma_pages_fit(model);
    assert forall|slot: int| 0 <= slot < model.entries() implies #[trigger] after.descriptor(slot)
        == model.descriptor(slot) by {
        lemma_descriptor_bounds(model, slot);
        assert(!model.in_data_span(offset_word(slot)));
        assert(!model.in_data_span(length_word(slot)));
    }
    assert forall|slot: int|
        0 <= slot < model.entries() && (#[trigger] after.descriptor(slot)).length
            != 0 implies after.data_of(after.descriptor(slot)) == model.data_of(
        model.descriptor(slot),
    ) by {
        let found = model.descriptor(slot);
        let entry = choose|entry: int| #[trigger]
            model.tracks(entry) && entry % model.entries() == slot;
        assert(model.live(entry));
        assert(model.end_of(entry) <= start);
        assert(model.cache.page_read_offset - size <= found.offset);
        assert forall|i: int| 0 <= i < found.length implies after.data_of(found)[i]
            == model.data_of(found)[i] by {
            let x = found.offset + i;
            let pos = place(x, size);
            vstd::arithmetic::div_mod::lemma_mod_bound(x, size);
            assert(!model.covers(start as int, bytes.len() as int, pos)) by {
                if model.covers(start as int, bytes.len() as int, pos) {
                    let y = choose|y: int|
                        start <= y < start + bytes.len() && #[trigger] place(y, size) == pos;
                    lemma_distinct_places(x, y, size);
                }
            }
        }
        assert(after.data_of(found) =~= model.data_of(found));
    }
}

/// Holding descriptors whole carries over: if a second head holds the
/// valid descriptors of a first whole, and a third those of the second,
/// then the third holds those of the first whole.
proof fn lemma_keeps_whole_twice(first: HeadModel, second: HeadModel, third: HeadModel)
    requires
        first.entries() == second.entries(),
        first.keeps_whole(second),
        second.keeps_whole(third),
    ensures
        first.keeps_whole(third),
{
    assert forall|slot: int|
        0 <= slot < first.entries() && (#[trigger] third.descriptor(slot)).length != 0 implies {
        &&& third.descriptor(slot) == first.descriptor(slot)
        &&& third.data_of(third.descriptor(slot)) == first.data_of(first.descriptor(slot))
    } by {
        assert(second.descriptor(slot).length != 0);
    }
}

impl HeadModel {
    /// Whether every valid descriptor of `after` is whole: it is one that
    /// this head holds valid, with the same data, or it is the descriptor
    /// of a commit of `bytes` to this head, and its data is the payload.
    pub open spec fn keeps_or_commits(self, after: HeadModel, bytes: Seq<u8>) -> bool {
        forall|slot: int|
            0 <= slot < self.entries() && (#[trigger] after.descriptor(slot)).length != 0 ==> {
                let found = after.descriptor(slot);
                ||| {
                    &&& found == self.descriptor(slot)
                    &&& after.data_of(found) == self.data_of(found)
                }
                ||| {
                    &&& slot == self.slot_of(self.cache.entry_write_offset)
                    &&& found == (Snapshot {
                        offset: self.cache.page_write_offset,
                        length: bytes.len() as u64,
                    })
                    &&& after.data_of(found) == bytes
                }
            }
    }
}

/// Once room is made for a write, the region holds every descriptor that
/// is still valid as it was, with its data.
proof fn lemma_freed_keeps_whole(model: HeadModel, end: u64)
    requires
        model.consistent(),
        model.cache.page_write_offset <= end,
        end < model.cache.page_write_offset + model.data(),
    ensures
        model.keeps_whole(model.invalidate_heads_to(end)),
        replay(model.words, model.invalidate_stores(end)) == model.invalidate_heads_to(end).words,
{
    let freed = model.invalidate_heads_to(end);
    let making_room = model.invalidate_stores(end);
    lemma_invalidate_heads_consistent(model, end);
    lemma_invalidate_heads_frame(model, end);
    lemma_instants_of_invalidation(model, end, making_room.len() as int);
    assert(making_room.take(making_room.len() as int) =~= making_room);
    lemma_pages_fit(model);
    assert forall|at: int|
        0 <= at < model.words.len() && model.in_data_span(at) implies #[trigger] freed.words[at]
            == model.words[at] by {}
    lemma_keeps_whole_by_words(model, freed);
}

/// While room is made, every valid descriptor is one that was valid
/// before, with its data.
proof fn lemma_instant_making_room(model: HeadModel, bytes: Seq<u8>, count: int)
    requires
        model.consistent(),
        bytes.len() <= model.cache.page_mask,
        model.has_room(bytes.len() as int),
        0 <= count <= model.invalidate_stores(
            wrap(model.cache.page_write_offset + bytes.len()),
        ).len(),
    ensures
        model.keeps_whole(model.during_commit(bytes, count)),
{
    let start = model.cache.page_write_offset;
    let end = wrap(start + bytes.len());
    lemma_wrap_small(start + bytes.len());
    let making_room = model.invalidate_stores(end);
    let trace = model.commit_stores_of(bytes);
    let mid = model.during_commit(bytes, count);
    assert(trace.take(count) =~= making_room.take(count));
    lemma_instants_of_invalidation(model, end, count);
    lemma_pages_fit(model);
    assert forall|at: int|
        0 <= at < model.words.len() && model.in_data_span(at) implies #[trigger] mid.words[at]
            == model.words[at] by {}
    lemma_keeps_whole_by_words(model, mid);
}

/// The region after room was made and the first `written` bytes of the
/// payload were streamed in is the replay of the writes made so far, and
/// holds every valid descriptor as it was before the commit, with its
/// data.
proof fn lemma_instant_streaming(model: HeadModel, bytes: Seq<u8>, written: int)
    requires
        model.consistent(),
        bytes.len() <= model.cache.page_mask,
        model.has_room(bytes.len() as int),
        0 <= written <= bytes.len(),
    ensures
        ({
            let start = model.cache.page_write_offset;
            let end = wrap(start + bytes.len());
            let freed = model.invalidate_heads_to(end);
            let partly = freed.write_bytes(start, bytes.take(written));
            &&& replay(
                model.words,
                model.invalidate_stores(end) + freed.stream_stores(start, bytes).take(written),
            ) == partly.words
            &&& model.keeps_whole(partly)
            &&& partly.wf()
            &&& partly.spans == model.spans
            &&& partly.cache.page_mask == model.cache.page_mask
            &&& partly.cache.entry_mask == model.cache.entry_mask
            &&& partly.words.len() == model.words.len()
            &&& freed.stream_stores(start, bytes).len() == bytes.len()
        }),
{
    let start = model.cache.page_write_offset;
    let end = wrap(start + bytes.len());
    lemma_wrap_small(start + bytes.len());
    let making_room = model.invalidate_stores(end);
    let freed = model.invalidate_heads_to(end);
    let streaming = freed.stream_stores(start, bytes);
    let prefix = bytes.take(written);
    let partly = freed.write_bytes(start, prefix);
    lemma_invalidate_heads_consistent(model, end);
    lemma_invalidate_heads_frame(model, end);
    lemma_freed_keeps_whole(model, end);
    lemma_instants_of_streaming(freed, start, bytes, written);
    lemma_stream_keeps_whole(freed, prefix);
    lemma_write_bytes_frame(freed, start, prefix);
    lemma_keeps_whole_twice(model, freed, partly);
    lemma_replay_concat(model.words, making_room, streaming.take(written));
}

/// At every instant of a commit, every valid descriptor describes data
/// that is whole: it was valid before the commit began and its data is
/// what it was then, or it is the descriptor of the commit and its data
/// is the payload.
#[verifier::rlimit(40)]
pub proof fn lemma_commit_every_instant(model: HeadModel, bytes: Seq<u8>, count: int)
    requires
        model.consistent(),
        bytes.len() <= model.cache.page_mask,
        model.has_room(bytes.len() as int),
        0 <= count <= model.commit_stores_of(bytes).len(),
    ensures
        model.keeps_or_commits(model.during_commit(bytes, count), bytes),
{
    let start = model.cache.page_write_offset;
    let end = wrap(start + bytes.len());
    let making_room = model.invalidate_stores(end);
    let freed = model.invalidate_heads_to(end);
    let streaming = freed.stream_stores(start, bytes);
    let trace = model.commit_stores_of(bytes);
    let mid = model.during_commit(bytes, count);
    lemma_instant_streaming(model, bytes, 0);
    if count <= making_room.len() {
        lemma_instant_making_room(model, bytes, count);
    } else if count <= making_room.len() + bytes.len() {
        let written = count - making_room.len();
        lemma_instant_streaming(model, bytes, written);
        let partly = freed.write_bytes(start, bytes.take(written));
        assert(trace.take(count) =~= making_room + streaming.take(written));
        assert(mid.words == partly.words);
        assert forall|slot: int|
            0 <= slot < model.entries() && (#[trigger] mid.descriptor(slot)).length != 0 implies {
            &&& mid.descriptor(slot) == model.descriptor(slot)
            &&& mid.data_of(mid.descriptor(slot)) == model.data_of(model.descriptor(slot))
        } by {
            assert(mid.descriptor(slot) == partly.descriptor(slot));
            assert(mid.data_of(mid.descriptor(slot)) =~= partly.data_of(partly.descriptor(slot)));
        }
    } else {
        lemma_instant_publishing(model, bytes, count - making_room.len() - bytes.len());
    }
}

/// While the descriptor of a commit is published, every valid descriptor
/// is one that was valid before, with its data, or, once its length is
/// written, the descriptor of the commit with the payload as its data.
#[verifier::rlimit(40)]
proof fn lemma_instant_publishing(model: HeadModel, bytes: Seq<u8>, done: int)
    requires
        model.consistent(),
        bytes.len() <= model.cache.page_mask,
        model.has_room(bytes.len() as int),
        1 <= done <= 3,
    ensures
        model.commit_stores_of(bytes).len() == model.invalidate_stores(
            wrap(model.cache.page_write_offset + bytes.len()),
        ).len() + bytes.len() + 3,
        model.keeps_or_commits(
            model.during_commit(
                bytes,
                model.invalidate_stores(wrap(model.cache.page_write_offset + bytes.len())).len()
                    + bytes.len() + done,
            ),
            bytes,
        ),
{
    let start = model.cache.page_write_offset;
    let index = model.cache.entry_write_offset;
    let size = model.data();
    let end = wrap(start + bytes.len());
    lemma_wrap_small(start + bytes.len());
    let making_room = model.invalidate_stores(end);
    let freed = model.invalidate_heads_to(end);
    let streaming = freed.stream_stores(start, bytes);
    let streamed = model.reserve(bytes);
    let snap = Snapshot { offset: start, length: bytes.len() as u64 };
    let publishing = streamed.commit_stores(index, snap);
    let trace = model.commit_stores_of(bytes);
    let count = making_room.len() + bytes.len() + done;
    let mid = model.during_commit(bytes, count);
    let target = model.slot_of(index);
    let partly = freed.write_bytes(start, bytes);
    lemma_instant_streaming(model, bytes, bytes.len() as int);
    assert(bytes.take(bytes.len() as int) =~= bytes);
    assert(streaming.take(bytes.len() as int) =~= streaming);
    assert(publishing.len() == 3);
    assert(trace == (making_room + streaming) + publishing);
    assert(trace.take(count) =~= (making_room + streaming) + publishing.take(done));
    lemma_replay_concat(model.words, making_room + streaming, publishing.take(done));
    lemma_invalidate_heads_consistent(model, end);
    lemma_invalidate_heads_frame(model, end);
    lemma_stream_consistent(freed, bytes);
    assert(streamed.words == partly.words);
    lemma_slot_bounds(streamed, index);
    lemma_descriptor_bounds(streamed, target);
    lemma_pages_fit(model);
    lemma_write_bytes_effect(freed, start, bytes);
    // The slot of the commit holds no valid descriptor before the length
    // is written: no tracked entry lives in it.
    assert(streamed.descriptor(target).length == 0) by {
        if streamed.descriptor(target).length != 0 {
            let entry = choose|entry: int| #[trigger]
                streamed.tracks(entry) && entry % streamed.entries() == target;
            lemma_distinct_places(entry, index as int, streamed.entries());
        }
    }
    let with_offset = partly.words.update(offset_word(target), start);
    let with_length = with_offset.update(length_word(target), bytes.len() as u64);
    let with_cursor = with_length.update(
        HEADER_WRITE_OFFSET as int,
        streamed.cache.page_write_offset,
    );
    assert(publishing.take(1) =~= seq![publishing[0]]);
    lemma_replay_one(partly.words, publishing[0]);
    assert(publishing.take(2).drop_last() =~= publishing.take(1));
    assert(publishing.take(3).drop_last() =~= publishing.take(2));
    assert(replay(partly.words, publishing.take(1)) == with_offset);
    assert(replay(partly.words, publishing.take(2)) == with_length);
    assert(replay(partly.words, publishing.take(3)) == with_cursor);
    assert forall|pos: int| 0 <= pos < size implies #[trigger] mid.byte_at_position(pos)
        == partly.byte_at_position(pos) by {
        lemma_byte_word_bounds(partly, pos);
    }
    assert forall|slot: int|
        0 <= slot < model.entries() && (#[trigger] mid.descriptor(slot)).length != 0 implies {
        let found = mid.descriptor(slot);
        ||| {
            &&& found == model.descriptor(slot)
            &&& mid.data_of(found) == model.data_of(found)
        }
        ||| {
            &&& slot == target
            &&& found == snap
            &&& mid.data_of(found) == bytes
        }
    } by {
        let found = mid.descriptor(slot);
        lemma_descriptor_bounds(streamed, slot);
        if slot == target {
            assert(done >= 2);
            assert(found == snap);
            assert forall|i: int| 0 <= i < bytes.len() implies mid.data_of(found)[i]
                == bytes[i] by {
                let x = start + i;
                vstd::arithmetic::div_mod::lemma_mod_bound(x, size);
                assert(partly.byte_at_position(place(x, size)) == bytes[x - start]);
            }
            assert(mid.data_of(found) =~= bytes);
        } else {
            assert(found == partly.descriptor(slot));
            assert(mid.data_of(found) =~= partly.data_of(found));
        }
    }
}

impl HeadModel {
    /// The words of the region after the first `count` writes of a commit
    /// of `bytes`, by the part of the commit that is under way: room is
    /// being made, data is being streamed in, or the descriptor is being
    /// published.
    pub open spec fn words_during(self, bytes: Seq<u8>, count: int) -> Seq<u64> {
        let start = self.cache.page_write_offset;
        let end = wrap(start + bytes.len());
        let making_room = self.invalidate_stores(end);
        let freed = self.invalidate_heads_to(end);
        let target = self.slot_of(self.cache.entry_write_offset);
        let done = count - making_room.len() - bytes.len();
        if count <= making_room.len() {
            replay(self.words, making_room.take(count))
        } else if done <= 0 {
            freed.write_bytes(start, bytes.take(count - making_room.len())).words
        } else {
            let streamed = freed.write_bytes(start, bytes).words;
            let with_offset = streamed.update(offset_word(target), start);
            let with_length = with_offset.update(length_word(target), bytes.len() as u64);
            if done == 1 {
                with_offset
            } else if done == 2 {
                with_length
            } else {
                with_length.update(HEADER_WRITE_OFFSET as int, wrap(start + bytes.len()))
            }
        }
    }
}

/// The region at an instant of a commit is what the part of the commit
/// that is under way has made of it.
#[verifier::rlimit(40)]
pub proof fn lemma_during_commit_words(model: HeadModel, bytes: Seq<u8>, count: int)
    requires
        model.consistent(),
        bytes.len() <= model.cache.page_mask,
        model.has_room(bytes.len() as int),
        0 <= count <= model.commit_stores_of(bytes).len(),
    ensures
        model.commit_stores_of(bytes).len() == model.invalidate_stores(
            wrap(model.cache.page_write_offset + bytes.len()),
        ).len() + bytes.len() + 3,
        model.during_commit(bytes, count).words == model.words_during(bytes, count),
{
    let start = model.cache.page_write_offset;
    let index = model.cache.entry_write_offset;
    let end = wrap(start + bytes.len());
    lemma_wrap_small(start + bytes.len());
    let making_room = model.invalidate_stores(end);
    let freed = model.invalidate_heads_to(end);
    let streaming = freed.stream_stores(start, bytes);
    let streamed = model.reserve(bytes);
    let snap = Snapshot { offset: start, length: bytes.len() as u64 };
    let publishing = streamed.commit_stores(index, snap);
    let trace = model.commit_stores_of(bytes);
    let target = model.slot_of(index);
    lemma_instant_streaming(model, bytes, bytes.len() as int);
    assert(bytes.take(bytes.len() as int) =~= bytes);
    assert(publishing.len() == 3);
    assert(trace == (making_room + streaming) + publishing);
    lemma_invalidate_heads_frame(model, end);
    if count <= making_room.len() {
        assert(trace.take(count) =~= making_room.take(count));
    } else if count <= making_room.len() + bytes.len() {
        let written = count - making_room.len();
        lemma_instant_streaming(model, bytes, written);
        assert(trace.take(count) =~= making_room + streaming.take(written));
    } else {
        let done = count - making_room.len() - bytes.len();
        let partly = freed.write_bytes(start, bytes);
        assert(streaming.take(bytes.len() as int) =~= streaming);
        assert(trace.take(count) =~= (making_room + streaming) + publishing.take(done));
        lemma_replay_concat(model.words, making_room + streaming, publishing.take(done));
        assert(streamed.words == partly.words);
        assert(streamed.cache.page_write_offset == wrap(start + bytes.len()));
        assert(streamed.slot_of(index) == target);
        assert(publishing.take(1) =~= seq![publishing[0]]);
        lemma_replay_one(partly.words, publishing[0]);
        assert(publishing.take(2).drop_last() =~= publishing.take(1));
        assert(publishing.take(3).drop_last() =~= publishing.take(2));
        let with_offset = partly.words.update(offset_word(target), start);
        let with_length = with_offset.update(length_word(target), bytes.len() as u64);
        assert(replay(partly.words, publishing.take(1)) == with_offset);
        assert(replay(partly.words, publishing.take(2)) == with_length);
    }
}

/// A valid descriptor that a slot did not hold when the commit began is
/// the descriptor of the commit, and its length has been written.
#[verifier::rlimit(40)]
pub proof fn lemma_new_descriptor_is_late(model: HeadModel, bytes: Seq<u8>, count: int, slot: int)
    requires
        model.consistent(),
        bytes.len() <= model.cache.page_mask,
        model.has_room(bytes.len() as int),
        0 <= count <= model.commit_stores_of(bytes).len(),
        0 <= slot < model.entries(),
        model.during_commit(bytes, count).descriptor(slot).length != 0,
        model.during_commit(bytes, count).descriptor(slot) != model.descriptor(slot),
    ensures
        slot == model.slot_of(model.cache.entry_write_offset),
        model.during_commit(bytes, count).descriptor(slot) == (Snapshot {
            offset: model.cache.page_write_offset,
            length: bytes.len() as u64,
        }),
        count >= model.invalidate_stores(wrap(model.cache.page_write_offset + bytes.len())).len()
            + bytes.len() + 2,
{
    let mid = model.during_commit(bytes, count);
    let index = model.cache.entry_write_offset;
    let target = model.slot_of(index);
    let start = model.cache.page_write_offset;
    let end = wrap(start + bytes.len());
    lemma_wrap_small(start + bytes.len());
    let room = model.invalidate_stores(end).len() as int;
    lemma_commit_every_instant(model, bytes, count);
    lemma_during_commit_words(model, bytes, count);
    lemma_invalidate_heads_consistent(model, end);
    lemma_invalidate_heads_frame(model, end);
    let freed = model.invalidate_heads_to(end);
    lemma_stream_consistent(freed, bytes);
    lemma_write_bytes_frame(freed, start, bytes);
    let streamed = model.reserve(bytes);
    lemma_slot_bounds(model, index);
    lemma_descriptor_bounds(model, target);
    lemma_pages_fit(model);
    assert(streamed.descriptor(target).length == 0) by {
        if streamed.descriptor(target).length != 0 {
            let entry = choose|entry: int| #[trigger]
                streamed.tracks(entry) && entry % streamed.entries() == target;
            lemma_distinct_places(entry, index as int, streamed.entries());
        }
    }
    let found = mid.descriptor(slot);
    assert(model.keeps_or_commits(mid, bytes));
    assert(found.length != 0);
    assert(slot == target && found == (Snapshot { offset: start, length: bytes.len() as u64 }));
    if count <= room {
        lemma_instants_of_invalidation(model, end, count);
        assert(mid == model.with_words(
            replay(model.words, model.invalidate_stores(end).take(count)),
        ));
        // Nothing but descriptors of before is valid while room is made.
        assert(found == model.descriptor(slot));
    } else if count <= room + bytes.len() {
        lemma_instant_streaming(model, bytes, count - room);
        let partly = freed.write_bytes(start, bytes.take(count - room));
        assert(mid.words == partly.words);
        assert(partly.descriptor(slot) == found);
        // Nothing but descriptors of before is valid while data is streamed.
        assert(found == model.descriptor(slot));
    } else if count == room + bytes.len() + 1 {
        // With the offset written and the length not yet, the slot of the
        // commit holds nothing valid.
        assert(mid.words[length_word(target)] == streamed.words[length_word(target)]);
        assert(found.length == 0);
    }
}

/// At every instant of a commit, any two valid descriptors describe data
/// that shares no byte of the data ring.
#[verifier::rlimit(40)]
pub proof fn lemma_apart_at_every_instant(
    model: HeadModel,
    bytes: Seq<u8>,
    count: int,
    one: int,
    other: int,
)
    requires
        model.consistent(),
        bytes.len() <= model.cache.page_mask,
        model.has_room(bytes.len() as int),
        0 <= count <= model.commit_stores_of(bytes).len(),
        0 <= one < model.entries(),
        0 <= other < model.entries(),
        one != other,
        model.during_commit(bytes, count).descriptor(one).length != 0,
        model.during_commit(bytes, count).descriptor(other).length != 0,
    ensures
        model.apart(
            model.during_commit(bytes, count).descriptor(one),
            model.during_commit(bytes, count).descriptor(other),
        ),
{
    let mid = model.during_commit(bytes, count);
    let done = model.committed(bytes);
    let target = model.slot_of(model.cache.entry_write_offset);
    let start = model.cache.page_write_offset;
    let end = wrap(start + bytes.len());
    lemma_wrap_small(start + bytes.len());
    let first = mid.descriptor(one);
    let second = mid.descriptor(other);
    if first == model.descriptor(one) && second == model.descriptor(other) {
        lemma_valid_snapshots_apart(model, one, other);
    } else {
        // One of the two is the descriptor of the commit: its length is
        // written, and with it the region holds the descriptors that it
        // holds when the commit is done.
        if first != model.descriptor(one) {
            lemma_new_descriptor_is_late(model, bytes, count, one);
        } else {
            lemma_new_descriptor_is_late(model, bytes, count, other);
        }
        lemma_during_commit_words(model, bytes, count);
        lemma_commit_consistent(model, bytes);
        lemma_invalidate_heads_consistent(model, end);
        lemma_invalidate_heads_frame(model, end);
        let freed = model.invalidate_heads_to(end);
        lemma_write_bytes_frame(freed, start, bytes);
        lemma_slot_bounds(model, model.cache.entry_write_offset);
        lemma_descriptor_bounds(model, one);
        lemma_descriptor_bounds(model, other);
        lemma_descriptor_bounds(model, target);
        lemma_pages_fit(model);
        assert(done.cache.entry_mask == model.cache.entry_mask);
        assert(done.cache.page_mask == model.cache.page_mask);
        assert(done.descriptor(one) == first);
        assert(done.descriptor(other) == second);
        lemma_valid_snapshots_apart(done, one, other);
    }
}

} // verus!
