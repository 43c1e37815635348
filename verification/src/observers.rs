//! What an observer may conclude from a copy of the region that it made
//! while the writer was committing.
//!
//! The observer notes which snapshots are valid before it starts to copy.
//! It then reads the words of the region one by one, each at some instant
//! of the commits that are under way. Whether the copy holds the data of a
//! snapshot whole depends on the order of its reads: it does if the
//! descriptor of the snapshot was read valid, both words at one instant,
//! and no word of the data was read later than that.
use vstd::prelude::*;
use crate::instants::{
    lemma_commit_every_instant,
    lemma_during_commit_words,
    lemma_instants_of_invalidation,
    lemma_replay_concat,
    lemma_replay_one,
    lemma_stream_keeps_whole,
    replay,
};
use crate::memory::Store;
use crate::model::{
    lemma_byte_word_bounds,
    lemma_descriptor_bounds,
    lemma_invalidate_heads_frame,
    lemma_pages_fit,
    lemma_slot_bounds,
    length_word,
    offset_word,
    wrap,
    HeadModel,
};
use crate::ring_arith::lemma_wrap_small;
use crate::commits::lemma_commits_consistent;
use crate::ring_arith::place;
use crate::snapshot::Snapshot;

use crate::tracking::{lemma_drop_oldest_consistent, lemma_invalidate_heads_consistent};

verus! {

impl HeadModel {
    /// Whether `slot` holds, in `words`, a valid descriptor of data that
    /// starts before logical offset `bound`.
    pub open spec fn holds_before(self, words: Seq<u64>, slot: int, bound: int) -> bool {
        &&& self.with_words(words).descriptor(slot).length != 0
        &&& self.with_words(words).descriptor(slot).offset < bound
    }
}

/// While room is made, a descriptor that is still valid at an instant was
/// valid, and the same, at every instant before it.
pub proof fn lemma_invalidation_never_returns(
    model: HeadModel,
    end: u64,
    earlier: int,
    later: int,
    slot: int,
)
    requires
        model.consistent(),
        model.cache.page_write_offset <= end,
        end < model.cache.page_write_offset + model.data(),
        0 <= earlier <= later <= model.invalidate_stores(end).len(),
        0 <= slot < model.entries(),
        model.with_words(
            replay(model.words, model.invalidate_stores(end).take(later)),
        ).descriptor(slot).length != 0,
    ensures
        model.with_words(
            replay(model.words, model.invalidate_stores(end).take(earlier)),
        ).descriptor(slot) == model.descriptor(slot),
    decreases model.entries_behind(),
{
    let trace = model.invalidate_stores(end);
    lemma_instants_of_invalidation(model, end, later);
    if earlier == 0 {
        assert(trace.take(0) =~= Seq::<Store<u64>>::empty());
    } else {
        let oldest = model.cache.entry_read_offset;
        let next = model.drop_oldest();
        let first = model.invalidate_store(oldest);
        let rest = next.invalidate_stores(end);
        assert(trace == seq![first] + rest);
        lemma_drop_oldest_consistent(model);
        lemma_slot_bounds(model, oldest);
        lemma_descriptor_bounds(model, model.slot_of(oldest));
        lemma_descriptor_bounds(model, slot);
        lemma_pages_fit(model);
        assert(trace.take(earlier) =~= seq![first] + rest.take(earlier - 1));
        assert(trace.take(later) =~= seq![first] + rest.take(later - 1));
        lemma_replay_concat(model.words, seq![first], rest.take(earlier - 1));
        lemma_replay_concat(model.words, seq![first], rest.take(later - 1));
        lemma_replay_one(model.words, first);
        assert(replay(model.words, seq![first]) == next.words);
        let at_later = replay(next.words, rest.take(later - 1));
        let at_earlier = replay(next.words, rest.take(earlier - 1));
        assert(next.with_words(at_later).descriptor(slot) == model.with_words(
            at_later,
        ).descriptor(slot));
        assert(next.with_words(at_earlier).descriptor(slot) == model.with_words(
            at_earlier,
        ).descriptor(slot));
        lemma_instants_of_invalidation(next, end, later - 1);
        assert(next.descriptor(slot).length != 0);
        lemma_invalidation_never_returns(next, end, earlier - 1, later - 1, slot);
    }
}

/// During a commit, a descriptor of data that starts before the write
/// cursor and is valid at an instant was valid, and the same, at every
/// instant of the commit before it: what the writer takes back does not
/// return.
#[verifier::rlimit(40)]
pub proof fn lemma_commit_never_returns(
    model: HeadModel,
    bytes: Seq<u8>,
    earlier: int,
    later: int,
    slot: int,
)
    requires
        model.consistent(),
        model.takes(bytes),
        0 <= earlier <= later <= model.commit_stores_of(bytes).len(),
        0 <= slot < model.entries(),
        model.holds_before(
            model.during_commit(bytes, later).words,
            slot,
            model.cache.page_write_offset as int,
        ),
    ensures
        model.during_commit(bytes, earlier).descriptor(slot) == model.descriptor(slot),
        model.during_commit(bytes, later).descriptor(slot) == model.descriptor(slot),
{
    let start = model.cache.page_write_offset;
    let index = model.cache.entry_write_offset;
    let end = wrap(start + bytes.len());
    lemma_wrap_small(start + bytes.len());
    let making_room = model.invalidate_stores(end);
    let freed = model.invalidate_heads_to(end);
    let target = model.slot_of(index);
    let room = making_room.len() as int;
    lemma_during_commit_words(model, bytes, earlier);
    lemma_during_commit_words(model, bytes, later);
    lemma_invalidate_heads_consistent(model, end);
    lemma_invalidate_heads_frame(model, end);
    lemma_instants_of_invalidation(model, end, room);
    assert(making_room.take(room) =~= making_room);
    lemma_slot_bounds(model, index);
    lemma_descriptor_bounds(model, slot);
    lemma_descriptor_bounds(model, target);
    lemma_pages_fit(model);
    let at_later = model.during_commit(bytes, later);
    let at_earlier = model.during_commit(bytes, earlier);
    // Whatever part of the commit is under way at the later instant, the
    // descriptor was still valid when room had been made.
    assert(freed.descriptor(slot).length != 0 || later <= room) by {
        if later > room {
            let written = if later <= room + bytes.len() {
                later - room
            } else {
                bytes.len() as int
            };
            lemma_stream_keeps_whole(freed, bytes.take(written));
            let partly = freed.write_bytes(start, bytes.take(written));
            assert(partly.descriptor(slot) == freed.descriptor(slot));
            if later > room + bytes.len() {
                assert(bytes.take(written) =~= bytes);
                assert(partly.words.len() == model.words.len()) by {
                    crate::model::lemma_write_bytes_frame(freed, start, bytes);
                }
                if slot != target {
                    assert(at_later.descriptor(slot) == partly.descriptor(slot));
                }
            } else {
                assert(at_later.descriptor(slot) == partly.descriptor(slot));
            }
        }
    }
    if later <= room {
        lemma_invalidation_never_returns(model, end, earlier, later, slot);
        lemma_invalidation_never_returns(model, end, later, later, slot);
    } else {
        assert(model.with_words(freed.words).descriptor(slot) == freed.descriptor(slot));
        lemma_invalidation_never_returns(model, end, room, room, slot);
        assert(freed.descriptor(slot) == model.descriptor(slot));
        let written_later = if later <= room + bytes.len() {
            later - room
        } else {
            bytes.len() as int
        };
        lemma_stream_keeps_whole(freed, bytes.take(written_later));
        crate::model::lemma_write_bytes_frame(freed, start, bytes.take(written_later));
        if later > room + bytes.len() {
            assert(bytes.take(written_later) =~= bytes);
        }
        assert(slot != target || later <= room + bytes.len());
        let partly_later = freed.write_bytes(start, bytes.take(written_later));
        assert(partly_later.descriptor(slot) == freed.descriptor(slot));
        assert(at_later.descriptor(slot) == partly_later.descriptor(slot)) by {
            assert(at_later.words[offset_word(slot)] == partly_later.words[offset_word(slot)]);
            assert(at_later.words[length_word(slot)] == partly_later.words[length_word(slot)]);
        }
        assert(at_later.descriptor(slot) == model.descriptor(slot));
        if earlier <= room {
            lemma_invalidation_never_returns(model, end, earlier, room, slot);
        } else {
            let written = if earlier <= room + bytes.len() {
                earlier - room
            } else {
                bytes.len() as int
            };
            lemma_stream_keeps_whole(freed, bytes.take(written));
            crate::model::lemma_write_bytes_frame(freed, start, bytes.take(written));
            if earlier > room + bytes.len() {
                assert(bytes.take(written) =~= bytes);
            }
            let partly = freed.write_bytes(start, bytes.take(written));
            assert(partly.descriptor(slot) == freed.descriptor(slot));
            assert(at_earlier.descriptor(slot) == partly.descriptor(slot)) by {
                assert(at_earlier.words[offset_word(slot)] == partly.words[offset_word(slot)]);
                assert(at_earlier.words[length_word(slot)] == partly.words[length_word(slot)]);
            }
        }
    }
}

impl HeadModel {
    /// The words of the region at every instant while the `payloads` are
    /// committed one after the other: at the start, and after every single
    /// write.
    pub open spec fn trajectory(self, payloads: Seq<Seq<u8>>) -> Seq<Seq<u64>>
        decreases payloads.len(),
    {
        if payloads.len() == 0 {
            seq![self.words]
        } else {
            let before = self.after_commits(payloads.drop_last());
            self.trajectory(payloads.drop_last()) + Seq::new(
                before.commit_stores_of(payloads.last()).len(),
                |count: int| before.during_commit(payloads.last(), count + 1).words,
            )
        }
    }

    /// Whether `slot` holds in `words` the descriptor that it holds in this
    /// head, with the same data.
    pub open spec fn whole_in(self, words: Seq<u64>, slot: int) -> bool {
        &&& self.with_words(words).descriptor(slot) == self.descriptor(slot)
        &&& self.with_words(words).data_of(self.descriptor(slot)) == self.data_of(
            self.descriptor(slot),
        )
    }

    /// Whether a descriptor that was valid when the commits began, and
    /// that some slot still holds valid at an instant, was held by that
    /// slot, with its data whole, at every instant up to then.
    pub open spec fn never_returns(self, payloads: Seq<Seq<u8>>) -> bool {
        forall|earlier: int, later: int, slot: int|
            #![trigger self.trajectory(payloads)[earlier], self.holds_before(self.trajectory(payloads)[later], slot, self.cache.page_write_offset as int)]
            0 <= earlier <= later < self.trajectory(payloads).len() && 0 <= slot < self.entries()
                && self.holds_before(
                self.trajectory(payloads)[later],
                slot,
                self.cache.page_write_offset as int,
            ) ==> self.whole_in(self.trajectory(payloads)[earlier], slot)
    }
}

/// The region at the last instant of a sequence of commits is the region
/// after the commits.
pub proof fn lemma_trajectory_ends(model: HeadModel, payloads: Seq<Seq<u8>>)
    requires
        model.consistent(),
        model.takes_all(payloads),
    ensures
        model.trajectory(payloads).len() >= 1,
        model.trajectory(payloads).last() == model.after_commits(payloads).words,
    decreases payloads.len(),
{
    if payloads.len() > 0 {
        let before = model.after_commits(payloads.drop_last());
        let bytes = payloads.last();
        lemma_trajectory_ends(model, payloads.drop_last());
        lemma_commits_consistent(model, payloads.drop_last());
        let length = before.commit_stores_of(bytes).len() as int;
        lemma_during_commit_words(before, bytes, length);
        let start = before.cache.page_write_offset;
        let end = wrap(start + bytes.len());
        lemma_wrap_small(start + bytes.len());
        lemma_invalidate_heads_consistent(before, end);
        lemma_invalidate_heads_frame(before, end);
        let freed = before.invalidate_heads_to(end);
        crate::model::lemma_write_bytes_frame(freed, start, bytes);
        assert(bytes.take(bytes.len() as int) =~= bytes);
        assert(before.during_commit(bytes, length).words == before.committed(bytes).words);
    }
}

/// Through any sequence of commits that are taken, a descriptor that was
/// valid when the commits began and that its slot holds valid at an
/// instant was held by that slot, with its data whole, at every instant
/// up to then.
#[verifier::rlimit(40)]
pub proof fn lemma_never_returns(model: HeadModel, payloads: Seq<Seq<u8>>)
    requires
        model.consistent(),
        model.takes_all(payloads),
    ensures
        model.never_returns(payloads),
    decreases payloads.len(),
{
    let bound = model.cache.page_write_offset as int;
    let all = model.trajectory(payloads);
    if payloads.len() == 0 {
        assert forall|earlier: int, later: int, slot: int|
            #![trigger all[earlier], model.holds_before(all[later], slot, bound)]
            0 <= earlier <= later < all.len() && 0 <= slot < model.entries()
                && model.holds_before(all[later], slot, bound) implies model.whole_in(
            all[earlier],
            slot,
        ) by {
            assert(all[earlier] == model.words);
            assert(model.with_words(model.words) == model);
        }
    } else {
        let shorter = payloads.drop_last();
        let bytes = payloads.last();
        let before = model.after_commits(shorter);
        let past = model.trajectory(shorter);
        lemma_never_returns(model, shorter);
        lemma_trajectory_ends(model, shorter);
        lemma_commits_consistent(model, shorter);
        let length = before.commit_stores_of(bytes).len() as int;
        assert forall|earlier: int, later: int, slot: int|
            #![trigger all[earlier], model.holds_before(all[later], slot, bound)]
            0 <= earlier <= later < all.len() && 0 <= slot < model.entries()
                && model.holds_before(all[later], slot, bound) implies model.whole_in(
            all[earlier],
            slot,
        ) by {
            if later < past.len() {
                assert(all[later] == past[later]);
                assert(all[earlier] == past[earlier]);
                assert(model.holds_before(past[later], slot, bound));
            } else {
                let count = later - past.len() + 1;
                assert(all[later] == before.during_commit(bytes, count).words);
                lemma_step_back(model, before, bytes, count, slot);
                let last = past.len() - 1;
                assert(model.holds_before(past[last], slot, bound));
                assert(model.whole_in(past[last], slot));
                if earlier < past.len() {
                    assert(all[earlier] == past[earlier]);
                    assert(model.whole_in(past[earlier], slot));
                } else {
                    let sooner = earlier - past.len() + 1;
                    assert(all[earlier] == before.during_commit(bytes, sooner).words);
                    lemma_whole_between(model, before, bytes, sooner, count, slot);
                }
            }
        }
    }
}

/// A descriptor of data from before a sequence of commits that a slot
/// holds valid at an instant of the next commit was held by that slot
/// when the commit began.
proof fn lemma_step_back(
    model: HeadModel,
    before: HeadModel,
    bytes: Seq<u8>,
    count: int,
    slot: int,
)
    requires
        model.wf(),
        before.consistent(),
        before.takes(bytes),
        before.cache.entry_mask == model.cache.entry_mask,
        before.cache.page_mask == model.cache.page_mask,
        before.spans == model.spans,
        before.cache.page_write_offset >= model.cache.page_write_offset,
        0 <= count <= before.commit_stores_of(bytes).len(),
        0 <= slot < model.entries(),
        model.holds_before(
            before.during_commit(bytes, count).words,
            slot,
            model.cache.page_write_offset as int,
        ),
    ensures
        model.holds_before(before.words, slot, model.cache.page_write_offset as int),
        before.during_commit(bytes, count).descriptor(slot) == before.descriptor(slot),
{
    let at = before.during_commit(bytes, count);
    assert(model.with_words(at.words).descriptor(slot) == at.descriptor(slot));
    assert(model.with_words(before.words).descriptor(slot) == before.descriptor(slot));
    lemma_commit_never_returns(before, bytes, 0, count, slot);
    assert(before.commit_stores_of(bytes).take(0) =~= Seq::<Store<u64>>::empty());
    assert(before.during_commit(bytes, 0).words == before.words);
}

/// A descriptor of data from before a sequence of commits that a slot
/// holds valid at an instant of the next commit was held by that slot,
/// with its data whole, at every instant of that commit up to then.
proof fn lemma_whole_between(
    model: HeadModel,
    before: HeadModel,
    bytes: Seq<u8>,
    sooner: int,
    count: int,
    slot: int,
)
    requires
        model.wf(),
        before.consistent(),
        before.takes(bytes),
        before.cache.entry_mask == model.cache.entry_mask,
        before.cache.page_mask == model.cache.page_mask,
        before.spans == model.spans,
        before.words.len() == model.words.len(),
        before.cache.page_write_offset >= model.cache.page_write_offset,
        0 <= sooner <= count <= before.commit_stores_of(bytes).len(),
        0 <= slot < model.entries(),
        model.holds_before(
            before.during_commit(bytes, count).words,
            slot,
            model.cache.page_write_offset as int,
        ),
        model.whole_in(before.words, slot),
    ensures
        model.whole_in(before.during_commit(bytes, sooner).words, slot),
{
    let at = before.during_commit(bytes, count);
    let at_sooner = before.during_commit(bytes, sooner);
    assert(model.with_words(at.words).descriptor(slot) == at.descriptor(slot));
    assert(model.with_words(at_sooner.words).descriptor(slot) == at_sooner.descriptor(slot));
    assert(model.with_words(before.words).descriptor(slot) == before.descriptor(slot));
    lemma_commit_never_returns(before, bytes, sooner, count, slot);
    lemma_commit_every_instant(before, bytes, sooner);
    let found = model.descriptor(slot);
    assert(at_sooner.descriptor(slot) == found);
    assert(at_sooner.data_of(found) == before.data_of(found));
    assert(model.with_words(at_sooner.words).data_of(found) =~= at_sooner.data_of(found));
    assert(model.with_words(before.words).data_of(found) =~= before.data_of(found));
}

impl HeadModel {
    /// Whether `copy` was read from the region while the `payloads` were
    /// committed, in such a way that the descriptor in `slot` can vouch
    /// for its data: both words of the descriptor were read at the
    /// instant `seen`, and every word of the data ring was read at an
    /// instant, `when` says which, that was not later.
    pub open spec fn read_in_order(
        self,
        payloads: Seq<Seq<u8>>,
        copy: Seq<u64>,
        slot: int,
        seen: int,
        when: spec_fn(int) -> int,
    ) -> bool {
        let all = self.trajectory(payloads);
        &&& copy.len() == self.words.len()
        &&& 0 <= seen < all.len()
        &&& copy[offset_word(slot)] == all[seen][offset_word(slot)]
        &&& copy[length_word(slot)] == all[seen][length_word(slot)]
        &&& forall|at: int|
            0 <= at < self.words.len() && self.in_data_span(at) ==> {
                &&& 0 <= #[trigger] when(at) <= seen
                &&& copy[at] == all[when(at)][at]
            }
    }
}

/// A copy that was made while the writer was committing holds the data
/// of a snapshot whole if the snapshot was valid before the copy began,
/// is valid in the copy, and the copy read its descriptor no earlier than
/// any of the data: the bytes of the snapshot in the copy are the bytes
/// the region held for it when the copy began.
#[verifier::rlimit(40)]
pub proof fn lemma_copy_holds_whole(
    model: HeadModel,
    payloads: Seq<Seq<u8>>,
    copy: Seq<u64>,
    slot: int,
    seen: int,
    when: spec_fn(int) -> int,
    before: int,
)
    requires
        model.consistent(),
        model.takes_all(payloads),
        0 <= slot < model.entries(),
        0 <= before < model.entries(),
        model.read_in_order(payloads, copy, slot, seen, when),
        model.with_words(copy).descriptor(slot).length != 0,
        model.descriptor(before) == model.with_words(copy).descriptor(slot),
    ensures
        model.with_words(copy).descriptor(slot) == model.descriptor(slot),
        model.with_words(copy).data_of(model.descriptor(slot)) == model.data_of(
            model.descriptor(slot),
        ),
{
    let all = model.trajectory(payloads);
    let bound = model.cache.page_write_offset as int;
    let found = model.with_words(copy).descriptor(slot);
    let size = model.data();
    // What was valid before the copy began lies before the write cursor.
    let entry = choose|entry: int| #[trigger]
        model.tracks(entry) && entry % model.entries() == before;
    assert(model.live(entry));
    assert(model.end_of(entry) <= bound);
    assert(found.offset < bound);
    assert(model.with_words(all[seen]).descriptor(slot) == found);
    assert(model.holds_before(all[seen], slot, bound));
    lemma_never_returns(model, payloads);
    assert(model.whole_in(all[seen], slot));
    assert(found == model.descriptor(slot));
    assert forall|i: int| 0 <= i < found.length implies model.with_words(copy).data_of(found)[i]
        == model.data_of(found)[i] by {
        let pos = place(found.offset + i, size);
        vstd::arithmetic::div_mod::lemma_mod_bound(found.offset + i, size);
        lemma_byte_word_bounds(model, pos);
        let at = model.byte_word(pos);
        assert(model.in_data_span(at));
        let instant = when(at);
        assert(0 <= instant <= seen);
        assert(model.whole_in(all[instant], slot));
        assert(model.with_words(all[instant]).data_of(found)[i] == model.data_of(found)[i]);
        assert(copy[at] == all[instant][at]);
    }
    assert(model.with_words(copy).data_of(found) =~= model.data_of(found));
}

/// A snapshot that an observer found valid before and in a copy made in
/// order holds, in the copy, the payload that was committed for it.
///
/// The payload was committed, then the `earlier` payloads. The observer
/// found the snapshot of the payload in its slot and began to copy while
/// the `later` payloads were committed. If a slot of the copy holds the
/// snapshot, and the copy read that descriptor no earlier than any of the
/// data, then the bytes of the snapshot in the copy are the payload.
pub proof fn lemma_copy_holds_payload(
    model: HeadModel,
    payload: Seq<u8>,
    earlier: Seq<Seq<u8>>,
    later: Seq<Seq<u8>>,
    copy: Seq<u64>,
    slot: int,
    seen: int,
    when: spec_fn(int) -> int,
)
    requires
        model.consistent(),
        model.takes(payload),
        payload.len() > 0,
        model.committed(payload).takes_all(earlier),
        model.committed(payload).after_commits(earlier).takes_all(later),
        model.committed(payload).after_commits(earlier).descriptor(
            model.slot_of(model.cache.entry_write_offset),
        ) == (Snapshot { offset: model.cache.page_write_offset, length: payload.len() as u64 }),
        0 <= slot < model.entries(),
        model.committed(payload).after_commits(earlier).read_in_order(
            later,
            copy,
            slot,
            seen,
            when,
        ),
        model.with_words(copy).descriptor(slot) == (Snapshot {
            offset: model.cache.page_write_offset,
            length: payload.len() as u64,
        }),
    ensures
        model.committed(payload).after_commits(earlier).with_words(copy).data_of(
            Snapshot { offset: model.cache.page_write_offset, length: payload.len() as u64 },
        ) == payload,
{
    let first = model.committed(payload);
    let start = first.after_commits(earlier);
    let before = model.slot_of(model.cache.entry_write_offset);
    crate::tracking::lemma_commit_consistent(model, payload);
    crate::commits::lemma_commit_cursor(model, payload);
    lemma_commits_consistent(first, earlier);
    crate::commits::lemma_commits_round_trip(model, payload, earlier);
    lemma_slot_bounds(model, model.cache.entry_write_offset);
    assert(start.entries() == model.entries());
    assert(start.with_words(copy).descriptor(slot) == model.with_words(copy).descriptor(slot));
    lemma_copy_holds_whole(start, later, copy, slot, seen, when, before);
}

} // verus!
