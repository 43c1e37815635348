//! The entries a writer tracks, and why the snapshots it keeps valid never
//! share a byte of the data ring.
//!
//! A writer that starts on an empty descriptor ring knows every valid
//! descriptor: each was published by it, after the entries before it, and
//! none is older than its read cursor. The data of these entries lies, in
//! the order they were written, within one turn of the data ring behind
//! the write cursor. This is what the writer's bookkeeping maintains, and
//! what makes it safe to write up to the read cursor.
use vstd::prelude::*;
use crate::model::{
    lemma_descriptor_bounds,
    lemma_invalidate_at_frame,
    lemma_invalidate_heads_frame,
    lemma_pages_fit,
    lemma_slot_bounds,
    lemma_write_bytes_frame,
    length_word,
    wrap,
    HeadCache,
    HeadModel,
};
use crate::layout::{HEADER_ENTRY_MASK, PAGE_WORDS};
use crate::ring_arith::{
    lemma_distinct_places,
    lemma_ranges_in_window,
    lemma_wrap_small,
    place,
    places_disjoint,
};
use crate::snapshot::Snapshot;
use crate::stream_proofs::lemma_write_bytes_effect;

verus! {

impl HeadModel {
    /// Whether the writer tracks the entry: it was published and has not
    /// been passed by the read cursor.
    pub open spec fn tracks(self, entry: int) -> bool {
        self.cache.entry_read_offset <= entry < self.cache.entry_write_offset
    }

    /// The descriptor in the slot of the entry.
    pub open spec fn snapshot_of(self, entry: int) -> Snapshot {
        self.descriptor(entry % self.entries())
    }

    /// Whether the entry is tracked and its descriptor is valid.
    pub open spec fn live(self, entry: int) -> bool {
        self.tracks(entry) && self.snapshot_of(entry).length != 0
    }

    /// The logical offset behind the data of the entry.
    pub open spec fn end_of(self, entry: int) -> int {
        self.snapshot_of(entry).offset + self.snapshot_of(entry).length
    }

    /// Whether the data of every live entry ends at or before `bound`.
    pub open spec fn settled_before(self, bound: int) -> bool {
        forall|entry: int| #[trigger] self.live(entry) ==> self.end_of(entry) <= bound
    }

    /// Whether the bookkeeping of the writer matches the region.
    ///
    /// The head is configured and its rings do not share pages. No cursor
    /// has wrapped. The tracked entries fit the descriptor ring, and every
    /// valid descriptor belongs to one of them. The data of the live
    /// entries lies in the order of the entries between one data ring before
    /// the read cursor and the write cursor, and the write cursor has not
    /// passed the read cursor.
    pub open spec fn consistent(self) -> bool {
        &&& self.wf()
        &&& self.separated()
        &&& self.header(HEADER_ENTRY_MASK as int) == self.cache.entry_mask
        &&& self.cache.entry_read_offset <= self.cache.entry_write_offset
        &&& self.cache.entry_write_offset - self.cache.entry_read_offset <= self.entries()
        &&& self.cache.page_write_offset <= self.cache.page_read_offset
        &&& self.cache.page_read_offset <= self.cache.page_write_offset + self.data()
        &&& self.cache.page_write_offset + self.data() <= u64::MAX
        &&& forall|slot: int|
            0 <= slot < self.entries() && (#[trigger] self.descriptor(slot)).length != 0
                ==> exists|entry: int| #[trigger]
                self.tracks(entry) && entry % self.entries() == slot
        &&& forall|entry: int| #[trigger]
            self.live(entry) ==> self.cache.page_read_offset - self.data() <= self.snapshot_of(
                entry,
            ).offset
        &&& self.settled_before(self.cache.page_write_offset as int)
        &&& forall|older: int, newer: int|
            #![trigger self.live(older), self.live(newer)]
            self.live(older) && self.live(newer) && older < newer ==> self.end_of(older)
                <= self.snapshot_of(newer).offset
    }

    /// Whether `after` has the cursors, the spans, the header and the
    /// descriptors of this head.
    pub open spec fn same_descriptors(self, after: HeadModel) -> bool {
        &&& after.cache == self.cache
        &&& after.spans == self.spans
        &&& after.words.len() == self.words.len()
        &&& forall|at: int|
            0 <= at < PAGE_WORDS + PAGE_WORDS * self.spans.sequence_pages
                ==> #[trigger] after.words[at] == self.words[at]
    }

    /// Whether the data ranges of two snapshots share no place of the data
    /// ring.
    pub open spec fn apart(self, one: Snapshot, other: Snapshot) -> bool {
        places_disjoint(
            one.offset as int,
            one.length as int,
            other.offset as int,
            other.length as int,
            self.data(),
        )
    }

    /// Whether any two valid descriptors describe data that shares no
    /// place of the data ring.
    pub open spec fn all_apart(self) -> bool {
        forall|one: int, other: int|
            0 <= one < self.entries() && 0 <= other < self.entries() && one != other
                && (#[trigger] self.descriptor(one)).length != 0 && (#[trigger] self.descriptor(
                other,
            )).length != 0 ==> self.apart(self.descriptor(one), self.descriptor(other))
    }
}

/// A head that differs from a consistent one neither in its cursors nor in
/// its header and descriptors is consistent.
pub proof fn lemma_same_descriptors_consistent(model: HeadModel, after: HeadModel)
    requires
        model.consistent(),
        model.same_descriptors(after),
    ensures
        after.consistent(),
        forall|bound: int| model.settled_before(bound) ==> after.settled_before(bound),
{
    lemma_pages_fit(model);
    assert forall|slot: int| 0 <= slot < model.entries() implies #[trigger] after.descriptor(slot)
        == model.descriptor(slot) by {
        lemma_descriptor_bounds(model, slot);
    }
    assert forall|entry: int| after.live(entry) == model.live(entry) && after.snapshot_of(entry)
        == model.snapshot_of(entry) by {
        vstd::arithmetic::div_mod::lemma_mod_bound(entry, model.entries());
    }
    assert forall|slot: int|
        0 <= slot < after.entries() && (#[trigger] after.descriptor(slot)).length
            != 0 implies exists|entry: int| #[trigger]
        after.tracks(entry) && entry % after.entries() == slot by {
        assert(model.descriptor(slot).length != 0);
        let entry = choose|entry: int| #[trigger]
            model.tracks(entry) && entry % model.entries() == slot;
        assert(after.tracks(entry));
    }
    assert forall|entry: int| #[trigger] after.live(entry) implies after.cache.page_read_offset
        - after.data() <= after.snapshot_of(entry).offset by {
        assert(model.live(entry));
    }
    assert(after.settled_before(after.cache.page_write_offset as int)) by {
        assert forall|entry: int| #[trigger] after.live(entry) implies after.end_of(entry)
            <= after.cache.page_write_offset by {
            assert(model.live(entry));
        }
    }
    assert forall|older: int, newer: int|
        #![trigger after.live(older), after.live(newer)]
        after.live(older) && after.live(newer) && older < newer implies after.end_of(older)
            <= after.snapshot_of(newer).offset by {
        assert(model.live(older) && model.live(newer));
    }
    assert forall|bound: int| model.settled_before(bound) implies after.settled_before(bound) by {
        assert forall|entry: int| #[trigger] after.live(entry) implies after.end_of(entry)
            <= bound by {
            assert(model.live(entry));
        }
    }
}

/// The valid descriptors of a consistent head describe data that shares
/// no byte of the data ring.
pub proof fn lemma_consistent_apart(model: HeadModel)
    requires
        model.consistent(),
    ensures
        model.all_apart(),
{
    assert forall|one: int, other: int|
        0 <= one < model.entries() && 0 <= other < model.entries() && one != other
            && (#[trigger] model.descriptor(one)).length != 0 && (#[trigger] model.descriptor(
            other,
        )).length != 0 implies model.apart(model.descriptor(one), model.descriptor(other)) by {
        lemma_valid_snapshots_apart(model, one, other);
    }
}

/// Any two valid descriptors of a consistent head describe data that
/// shares no byte of the data ring.
pub proof fn lemma_valid_snapshots_apart(model: HeadModel, one: int, other: int)
    requires
        model.consistent(),
        0 <= one < model.entries(),
        0 <= other < model.entries(),
        one != other,
        model.descriptor(one).length != 0,
        model.descriptor(other).length != 0,
    ensures
        model.apart(model.descriptor(one), model.descriptor(other)),
{
    let first = choose|entry: int| #[trigger]
        model.tracks(entry) && entry % model.entries() == one;
    let second = choose|entry: int| #[trigger]
        model.tracks(entry) && entry % model.entries() == other;
    assert(model.live(first));
    assert(model.live(second));
    let a = model.descriptor(one);
    let b = model.descriptor(other);
    if first < second {
        assert(model.end_of(first) <= model.snapshot_of(second).offset);
        assert(model.end_of(second) <= model.cache.page_write_offset);
        lemma_ranges_in_window(
            a.offset as int,
            a.length as int,
            b.offset as int,
            b.length as int,
            model.data(),
        );
    } else {
        assert(second < first);
        assert(model.end_of(second) <= model.snapshot_of(first).offset);
        assert(model.end_of(first) <= model.cache.page_write_offset);
        lemma_ranges_in_window(
            b.offset as int,
            b.length as int,
            a.offset as int,
            a.length as int,
            model.data(),
        );
    }
}

impl HeadModel {
    /// The head after the entry at the read cursor was invalidated and both
    /// read cursors moved past it.
    pub open spec fn drop_oldest(self) -> HeadModel {
        let length = self.descriptor(self.slot_of(self.cache.entry_read_offset)).length;
        HeadModel {
            cache: HeadCache {
                entry_read_offset: wrap(self.cache.entry_read_offset + 1),
                page_read_offset: wrap(self.cache.page_read_offset + length),
                ..self.cache
            },
            ..self.invalidate_at(self.cache.entry_read_offset)
        }
    }

    /// Whether the cursors can take a commit of `n` bytes without wrapping.
    pub open spec fn has_room(self, n: int) -> bool {
        &&& self.cache.page_write_offset + n + self.data() <= u64::MAX
        &&& self.cache.entry_write_offset < u64::MAX
    }
}

/// Dropping the oldest tracked entry keeps a consistent head consistent,
/// and touches nothing but the length of that entry.
#[verifier::rlimit(40)]
pub proof fn lemma_drop_oldest_consistent(model: HeadModel)
    requires
        model.consistent(),
        model.cache.entry_read_offset < model.cache.entry_write_offset,
    ensures
        model.drop_oldest().consistent(),
        model.drop_oldest().cache.page_write_offset == model.cache.page_write_offset,
        model.drop_oldest().cache.entry_write_offset == model.cache.entry_write_offset,
        model.drop_oldest().cache.entry_read_offset == model.cache.entry_read_offset + 1,
        model.drop_oldest().cache.page_read_offset >= model.cache.page_read_offset,
        model.drop_oldest().spans == model.spans,
        model.drop_oldest().words.len() == model.words.len(),
        forall|at: int|
            0 <= at < model.words.len() && at != length_word(
                model.slot_of(model.cache.entry_read_offset),
            ) ==> #[trigger] model.drop_oldest().words[at] == model.words[at],
{
    let oldest = model.cache.entry_read_offset;
    let slot = model.slot_of(oldest);
    let length = model.descriptor(slot).length;
    let after = model.drop_oldest();
    let size = model.entries();
    lemma_slot_bounds(model, oldest);
    lemma_descriptor_bounds(model, slot);
    lemma_invalidate_at_frame(model, oldest);
    lemma_wrap_small(oldest + 1);
    assert(model.tracks(oldest as int));
    if length != 0 {
        assert(model.live(oldest as int));
        assert(model.end_of(oldest as int) <= model.cache.page_write_offset);
    }
    lemma_wrap_small(model.cache.page_read_offset + length);
    assert forall|other: int| 0 <= other < size && other != slot implies #[trigger] after.descriptor(
        other,
    ) == model.descriptor(other) by {
        lemma_descriptor_bounds(model, other);
    }
    assert(after.descriptor(slot).length == 0);
    assert forall|entry: int| #[trigger] after.live(entry) implies model.live(entry) && entry
        != oldest && after.snapshot_of(entry) == model.snapshot_of(entry) by {
        vstd::arithmetic::div_mod::lemma_mod_bound(entry, size);
    }
    assert forall|other: int|
        0 <= other < after.entries() && (#[trigger] after.descriptor(other)).length
            != 0 implies exists|entry: int| #[trigger]
        after.tracks(entry) && entry % after.entries() == other by {
        assert(other != slot);
        assert(model.descriptor(other).length != 0);
        let entry = choose|entry: int| #[trigger]
            model.tracks(entry) && entry % model.entries() == other;
        assert(entry != oldest);
        assert(after.tracks(entry));
    }
    assert forall|entry: int| #[trigger] after.live(entry) implies after.cache.page_read_offset
        - after.data() <= after.snapshot_of(entry).offset by {
        assert(model.live(entry));
        if length != 0 {
            assert(model.live(oldest as int) && model.live(entry) && oldest < entry);
            assert(model.end_of(oldest as int) <= model.snapshot_of(entry).offset);
        }
    }
    assert(after.settled_before(after.cache.page_write_offset as int)) by {
        assert forall|entry: int| #[trigger] after.live(entry) implies after.end_of(entry)
            <= after.cache.page_write_offset by {
            assert(model.live(entry));
        }
    }
    assert forall|older: int, newer: int|
        #![trigger after.live(older), after.live(newer)]
        after.live(older) && after.live(newer) && older < newer implies after.end_of(older)
            <= after.snapshot_of(newer).offset by {
        assert(model.live(older) && model.live(newer));
    }
}

/// Making room in the data ring keeps a consistent head consistent. The
/// read cursor ends at or behind the end of the write, and nothing but
/// lengths of descriptors has changed.
pub proof fn lemma_invalidate_heads_consistent(model: HeadModel, end: u64)
    requires
        model.consistent(),
        model.cache.page_write_offset <= end,
        end < model.cache.page_write_offset + model.data(),
    ensures
        model.invalidate_heads_to(end).consistent(),
        model.invalidate_heads_to(end).cache.page_read_offset >= end,
        model.invalidate_heads_to(end).cache.entry_write_offset - model.invalidate_heads_to(
            end,
        ).cache.entry_read_offset < model.entries(),
        model.invalidate_heads_to(end).cache.page_write_offset == model.cache.page_write_offset,
        model.invalidate_heads_to(end).cache.entry_write_offset == model.cache.entry_write_offset,
        model.invalidate_heads_to(end).spans == model.spans,
        model.invalidate_heads_to(end).words.len() == model.words.len(),
        forall|at: int|
            0 <= at < model.words.len() && !(PAGE_WORDS <= at < PAGE_WORDS + PAGE_WORDS
                * model.spans.sequence_pages) ==> #[trigger] model.invalidate_heads_to(
                end,
            ).words[at] == model.words[at],
        forall|slot: int|
            0 <= slot < model.entries() && (#[trigger] model.invalidate_heads_to(end).descriptor(
                slot,
            )).length != 0 ==> model.invalidate_heads_to(end).descriptor(slot) == model.descriptor(
                slot,
            ),
    decreases model.entries_behind(),
{
    if !model.must_drop(end) {
        let after = model.invalidate_heads_to(end);
        assert forall|slot: int|
            0 <= slot < after.entries() && (#[trigger] after.descriptor(slot)).length
                != 0 implies exists|entry: int| #[trigger]
            after.tracks(entry) && entry % after.entries() == slot by {
            assert(model.descriptor(slot).length != 0);
            let entry = choose|entry: int| #[trigger]
                model.tracks(entry) && entry % model.entries() == slot;
            assert(after.tracks(entry));
        }
        assert forall|entry: int| after.live(entry) == model.live(entry) && after.snapshot_of(
            entry,
        ) == model.snapshot_of(entry) by {}
        if model.cache.page_read_offset < end {
            assert forall|entry: int| !(#[trigger] after.live(entry)) by {}
        }
        assert(after.settled_before(after.cache.page_write_offset as int)) by {
            assert forall|entry: int| #[trigger] after.live(entry) implies after.end_of(entry)
                <= after.cache.page_write_offset by {
                assert(model.live(entry));
            }
        }
        assert forall|entry: int| #[trigger] after.live(entry) implies after.cache.page_read_offset
            - after.data() <= after.snapshot_of(entry).offset by {
            assert(model.live(entry));
        }
        assert forall|older: int, newer: int|
            #![trigger after.live(older), after.live(newer)]
            after.live(older) && after.live(newer) && older < newer implies after.end_of(older)
                <= after.snapshot_of(newer).offset by {
            assert(model.live(older) && model.live(newer));
        }
    } else {
        let next = model.drop_oldest();
        lemma_drop_oldest_consistent(model);
        lemma_invalidate_heads_consistent(next, end);
        let slot = model.slot_of(model.cache.entry_read_offset);
        lemma_slot_bounds(model, model.cache.entry_read_offset);
        lemma_descriptor_bounds(model, slot);
        let last = next.invalidate_heads_to(end);
        assert(last == model.invalidate_heads_to(end));
        assert forall|other: int|
            0 <= other < model.entries() && (#[trigger] last.descriptor(other)).length
                != 0 implies last.descriptor(other) == model.descriptor(other) by {
            lemma_descriptor_bounds(model, other);
            assert(next.descriptor(other).length != 0);
        }
    }
}

/// Streaming into the room that was made keeps a consistent head
/// consistent, and the data of every live entry as it was.
#[verifier::rlimit(40)]
pub proof fn lemma_stream_consistent(model: HeadModel, bytes: Seq<u8>)
    requires
        model.consistent(),
        model.cache.page_write_offset + bytes.len() <= model.cache.page_read_offset,
        model.cache.page_write_offset + bytes.len() + model.data() <= u64::MAX,
        bytes.len() < model.data(),
    ensures
        model.copy_from_slice(bytes).consistent(),
        model.copy_from_slice(bytes).settled_before(model.cache.page_write_offset as int),
        model.copy_from_slice(bytes).cache.page_write_offset == model.cache.page_write_offset
            + bytes.len(),
        model.copy_from_slice(bytes).cache.page_read_offset == model.cache.page_read_offset,
        model.copy_from_slice(bytes).cache.entry_read_offset == model.cache.entry_read_offset,
        model.copy_from_slice(bytes).cache.entry_write_offset == model.cache.entry_write_offset,
        forall|slot: int|
            0 <= slot < model.entries() ==> #[trigger] model.copy_from_slice(bytes).descriptor(
                slot,
            ) == model.descriptor(slot),
{
    let start = model.cache.page_write_offset;
    let written = model.write_bytes(start, bytes);
    let after = model.copy_from_slice(bytes);
    lemma_write_bytes_effect(model, start, bytes);
    lemma_write_bytes_frame(model, start, bytes);
    lemma_wrap_small(start + bytes.len());
    lemma_pages_fit(model);
    assert(model.same_descriptors(written)) by {
        assert forall|at: int|
            0 <= at < PAGE_WORDS + PAGE_WORDS * model.spans.sequence_pages
                implies #[trigger] written.words[at] == model.words[at] by {
            assert(!model.in_data_span(at));
        }
    }
    lemma_same_descriptors_consistent(model, written);
    assert forall|slot: int| 0 <= slot < model.entries() implies #[trigger] after.descriptor(slot)
        == model.descriptor(slot) by {
        lemma_descriptor_bounds(model, slot);
    }
    assert forall|entry: int| after.live(entry) == written.live(entry) && after.snapshot_of(entry)
        == written.snapshot_of(entry) by {}
    assert forall|slot: int|
        0 <= slot < after.entries() && (#[trigger] after.descriptor(slot)).length
            != 0 implies exists|entry: int| #[trigger]
        after.tracks(entry) && entry % after.entries() == slot by {
        assert(written.descriptor(slot).length != 0);
        let entry = choose|entry: int| #[trigger]
            written.tracks(entry) && entry % written.entries() == slot;
        assert(after.tracks(entry));
    }
    assert forall|entry: int| #[trigger] after.live(entry) implies after.cache.page_read_offset
        - after.data() <= after.snapshot_of(entry).offset by {
        assert(written.live(entry));
    }
    assert(after.settled_before(start as int)) by {
        assert forall|entry: int| #[trigger] after.live(entry) implies after.end_of(entry)
            <= start by {
            assert(written.live(entry));
        }
    }
    assert(after.settled_before(after.cache.page_write_offset as int)) by {
        assert forall|entry: int| #[trigger] after.live(entry) implies after.end_of(entry)
            <= after.cache.page_write_offset by {
            assert(written.live(entry));
        }
    }
    assert forall|older: int, newer: int|
        #![trigger after.live(older), after.live(newer)]
        after.live(older) && after.live(newer) && older < newer implies after.end_of(older)
            <= after.snapshot_of(newer).offset by {
        assert(written.live(older) && written.live(newer));
    }
}

/// Publishing an entry whose data lies behind that of every live entry,
/// within the room the writer has, in a slot that no tracked entry holds,
/// keeps a consistent head consistent.
#[verifier::rlimit(40)]
pub proof fn lemma_publish_consistent(model: HeadModel, snap: Snapshot)
    requires
        model.consistent(),
        model.cache.entry_write_offset - model.cache.entry_read_offset < model.entries(),
        model.cache.entry_write_offset < u64::MAX,
        model.settled_before(snap.offset as int),
        model.cache.page_read_offset - model.data() <= snap.offset,
        snap.offset + snap.length <= model.cache.page_write_offset,
    ensures
        model.commit(model.cache.entry_write_offset, snap).consistent(),
        model.commit(model.cache.entry_write_offset, snap).descriptor(
            model.slot_of(model.cache.entry_write_offset),
        ) == snap,
        forall|slot: int|
            0 <= slot < model.entries() && slot != model.slot_of(model.cache.entry_write_offset)
                ==> #[trigger] model.commit(model.cache.entry_write_offset, snap).descriptor(slot)
                == model.descriptor(slot),
{
    let index = model.cache.entry_write_offset;
    let slot = model.slot_of(index);
    let after = model.commit(index, snap);
    let size = model.entries();
    lemma_slot_bounds(model, index);
    lemma_descriptor_bounds(model, slot);
    lemma_pages_fit(model);
    lemma_wrap_small(index + 1);
    assert(after.words.len() == model.words.len());
    assert(after.descriptor(slot) == snap);
    assert forall|other: int| 0 <= other < size && other != slot implies #[trigger] after.descriptor(
        other,
    ) == model.descriptor(other) by {
        lemma_descriptor_bounds(model, other);
    }
    assert forall|entry: int| model.tracks(entry) implies entry % size != slot by {
        lemma_distinct_places(entry, index as int, size);
    }
    assert forall|entry: int| #[trigger] after.live(entry) implies if entry == index {
        after.snapshot_of(entry) == snap
    } else {
        model.live(entry) && after.snapshot_of(entry) == model.snapshot_of(entry)
    } by {
        vstd::arithmetic::div_mod::lemma_mod_bound(entry, size);
        if entry != index {
            assert(model.tracks(entry));
        }
    }
    assert forall|other: int|
        0 <= other < after.entries() && (#[trigger] after.descriptor(other)).length
            != 0 implies exists|entry: int| #[trigger]
        after.tracks(entry) && entry % after.entries() == other by {
        if other == slot {
            assert(after.tracks(index as int));
        } else {
            assert(model.descriptor(other).length != 0);
            let entry = choose|entry: int| #[trigger]
                model.tracks(entry) && entry % model.entries() == other;
            assert(after.tracks(entry));
        }
    }
    assert forall|entry: int| #[trigger] after.live(entry) implies after.cache.page_read_offset
        - after.data() <= after.snapshot_of(entry).offset by {
        if entry != index {
            assert(model.live(entry));
        }
    }
    assert(after.settled_before(after.cache.page_write_offset as int)) by {
        assert forall|entry: int| #[trigger] after.live(entry) implies after.end_of(entry)
            <= after.cache.page_write_offset by {
            if entry != index {
                assert(model.live(entry));
            }
        }
    }
    assert forall|older: int, newer: int|
        #![trigger after.live(older), after.live(newer)]
        after.live(older) && after.live(newer) && older < newer implies after.end_of(older)
            <= after.snapshot_of(newer).offset by {
        if newer == index {
            assert(model.live(older));
        } else {
            assert(model.live(older) && model.live(newer));
        }
    }
}

/// A commit keeps a consistent head consistent, as long as the cursors do
/// not wrap.
pub proof fn lemma_commit_consistent(model: HeadModel, bytes: Seq<u8>)
    requires
        model.consistent(),
        bytes.len() <= model.cache.page_mask,
        model.has_room(bytes.len() as int),
    ensures
        model.reserve(bytes).consistent(),
        model.reserve(bytes).commit(
            model.cache.entry_write_offset,
            Snapshot { offset: model.cache.page_write_offset, length: bytes.len() as u64 },
        ).consistent(),
{
    let start = model.cache.page_write_offset;
    let end = wrap(start + bytes.len());
    lemma_wrap_small(start + bytes.len());
    lemma_invalidate_heads_consistent(model, end);
    lemma_invalidate_heads_frame(model, end);
    let freed = model.invalidate_heads_to(end);
    lemma_stream_consistent(freed, bytes);
    let streamed = freed.copy_from_slice(bytes);
    assert(streamed == model.reserve(bytes));
    lemma_publish_consistent(
        streamed,
        Snapshot { offset: start, length: bytes.len() as u64 },
    );
}

/// What was committed is what the returned snapshot reads: after a commit
/// the data ring holds the payload, byte for byte, at the places of the
/// new snapshot.
pub proof fn lemma_commit_round_trip(model: HeadModel, bytes: Seq<u8>)
    requires
        model.wf(),
        model.separated(),
        bytes.len() <= model.cache.page_mask,
    ensures
        forall|i: int|
            0 <= i < bytes.len() ==> #[trigger] model.committed(bytes).byte_at(
                wrap(model.cache.page_write_offset + i),
            ) == bytes[i],
        forall|before: Seq<u8>, after: Seq<u8>|
            before.len() >= bytes.len() && #[trigger] model.committed(bytes).reads(
                Snapshot { offset: model.cache.page_write_offset, length: bytes.len() as u64 },
                before,
                after,
            ) ==> after.take(bytes.len() as int) == bytes,
{
    let start = model.cache.page_write_offset;
    let end = wrap(start + bytes.len());
    let freed = model.invalidate_heads_to(end);
    lemma_invalidate_heads_frame(model, end);
    let written = freed.write_bytes(start, bytes);
    lemma_write_bytes_effect(freed, start, bytes);
    lemma_write_bytes_frame(freed, start, bytes);
    let streamed = freed.copy_from_slice(bytes);
    let index = model.cache.entry_write_offset;
    let done = model.committed(bytes);
    lemma_slot_bounds(streamed, index);
    lemma_descriptor_bounds(streamed, streamed.slot_of(index));
    lemma_pages_fit(model);
    assert(done.words.len() == model.words.len());
    assert forall|pos: int| 0 <= pos < model.data() implies #[trigger] done.byte_at_position(pos)
        == written.byte_at_position(pos) by {
        crate::model::lemma_byte_word_bounds(written, pos);
    }
    assert forall|i: int| 0 <= i < bytes.len() implies #[trigger] done.byte_at(
        wrap(start + i),
    ) == bytes[i] by {
        crate::ring_arith::lemma_position_of_sum(done, start + i);
        assert(done.position(wrap(start + i)) == place(start + i, model.data()));
    }
    assert forall|before: Seq<u8>, after: Seq<u8>|
        before.len() >= bytes.len() && #[trigger] done.reads(
            Snapshot { offset: start, length: bytes.len() as u64 },
            before,
            after,
        ) implies after.take(bytes.len() as int) == bytes by {
        assert(after.take(bytes.len() as int) =~= bytes);
    }
}

/// A commit leaves every other snapshot that is valid afterwards as it
/// was: its descriptor and every byte of its data.
#[verifier::rlimit(40)]
pub proof fn lemma_commit_keeps_valid(model: HeadModel, bytes: Seq<u8>, slot: int)
    requires
        model.consistent(),
        bytes.len() <= model.cache.page_mask,
        model.has_room(bytes.len() as int),
        0 <= slot < model.entries(),
        slot != model.slot_of(model.cache.entry_write_offset),
        model.committed(bytes).descriptor(slot).length != 0,
    ensures
        model.committed(bytes).descriptor(slot) == model.descriptor(slot),
        forall|x: int|
            model.descriptor(slot).offset <= x < model.descriptor(slot).offset + model.descriptor(
                slot,
            ).length ==> model.committed(bytes).byte_at_position(
                #[trigger] place(x, model.data()),
            ) == model.byte_at_position(place(x, model.data())),
{
    let start = model.cache.page_write_offset;
    let end = wrap(start + bytes.len());
    let size = model.data();
    lemma_wrap_small(start + bytes.len());
    lemma_invalidate_heads_consistent(model, end);
    lemma_invalidate_heads_frame(model, end);
    let freed = model.invalidate_heads_to(end);
    lemma_stream_consistent(freed, bytes);
    let streamed = freed.copy_from_slice(bytes);
    let written = freed.write_bytes(start, bytes);
    lemma_write_bytes_effect(freed, start, bytes);
    let snap = Snapshot { offset: start, length: bytes.len() as u64 };
    lemma_publish_consistent(streamed, snap);
    let done = model.committed(bytes);
    assert(done == streamed.commit(streamed.cache.entry_write_offset, snap));
    assert(streamed.slot_of(streamed.cache.entry_write_offset) == model.slot_of(
        model.cache.entry_write_offset,
    ));
    assert(done.descriptor(slot) == streamed.descriptor(slot));
    assert(streamed.descriptor(slot) == freed.descriptor(slot));
    assert(freed.descriptor(slot) == model.descriptor(slot));
    let kept = model.descriptor(slot);
    let entry = choose|entry: int| #[trigger]
        freed.tracks(entry) && entry % freed.entries() == slot;
    assert(freed.live(entry));
    assert(freed.end_of(entry) <= start);
    assert(freed.cache.page_read_offset - size <= kept.offset);
    lemma_pages_fit(model);
    lemma_slot_bounds(streamed, streamed.cache.entry_write_offset);
    lemma_descriptor_bounds(streamed, streamed.slot_of(streamed.cache.entry_write_offset));
    assert forall|pos: int| 0 <= pos < size implies #[trigger] done.byte_at_position(pos)
        == written.byte_at_position(pos) by {
        crate::model::lemma_byte_word_bounds(written, pos);
    }
    assert forall|pos: int| 0 <= pos < size implies #[trigger] freed.byte_at_position(pos)
        == model.byte_at_position(pos) by {
        crate::model::lemma_byte_word_bounds(model, pos);
    }
    assert forall|x: int| kept.offset <= x < kept.offset + kept.length implies done.byte_at_position(
        #[trigger] place(x, size),
    ) == model.byte_at_position(place(x, size)) by {
        let pos = place(x, size);
        vstd::arithmetic::div_mod::lemma_mod_bound(x, size);
        assert(!freed.covers(start as int, bytes.len() as int, pos)) by {
            if freed.covers(start as int, bytes.len() as int, pos) {
                let y = choose|y: int|
                    start <= y < start + bytes.len() && #[trigger] place(y, size) == pos;
                lemma_distinct_places(x, y, size);
            }
        }
        assert(written.byte_at_position(pos) == freed.byte_at_position(pos));
    }
}

/// Invalidating a descriptor twice is invalidating it once: a descriptor
/// that is invalid has length zero, and invalidating it changes nothing.
pub proof fn lemma_invalidate_idempotent(model: HeadModel, idx: u64)
    requires
        model.wf(),
    ensures
        model.invalidate_at(idx).descriptor(model.slot_of(idx)).length == 0,
        model.invalidate_at(idx).invalidate_at(idx) == model.invalidate_at(idx),
        model.descriptor(model.slot_of(idx)).length == 0 ==> model.invalidate_at(idx) == model,
{
    lemma_slot_bounds(model, idx);
    lemma_descriptor_bounds(model, model.slot_of(idx));
    let once = model.invalidate_at(idx);
    assert(once.invalidate_at(idx).words =~= once.words);
    if model.descriptor(model.slot_of(idx)).length == 0 {
        assert(once.words =~= model.words);
    }
}

/// Replacing data of an entry that is reserved but not yet published
/// keeps a consistent head consistent, and every live entry as it was:
/// its descriptor and every byte of its data.
pub proof fn lemma_replace_consistent(model: HeadModel, offset: u64, length: u64, data: Seq<u8>)
    requires
        model.consistent(),
        model.settled_before(offset as int),
        offset + length <= model.cache.page_write_offset,
        length < model.data(),
        data.len() <= length,
    ensures
        model.write_bytes(offset, data).consistent(),
        model.write_bytes(offset, data).settled_before(offset as int),
        forall|slot: int|
            0 <= slot < model.entries() ==> #[trigger] model.write_bytes(offset, data).descriptor(
                slot,
            ) == model.descriptor(slot),
        forall|entry: int, x: int|
            #![trigger model.live(entry), place(x, model.data())]
            model.live(entry) && model.snapshot_of(entry).offset <= x < model.end_of(entry)
                ==> model.write_bytes(offset, data).byte_at_position(place(x, model.data()))
                == model.byte_at_position(place(x, model.data())),
{
    let after = model.write_bytes(offset, data);
    let size = model.data();
    lemma_write_bytes_effect(model, offset, data);
    lemma_write_bytes_frame(model, offset, data);
    lemma_pages_fit(model);
    assert(model.same_descriptors(after)) by {
        assert forall|at: int|
            0 <= at < PAGE_WORDS + PAGE_WORDS * model.spans.sequence_pages
                implies #[trigger] after.words[at] == model.words[at] by {
            assert(!model.in_data_span(at));
        }
    }
    lemma_same_descriptors_consistent(model, after);
    assert forall|slot: int| 0 <= slot < model.entries() implies #[trigger] after.descriptor(slot)
        == model.descriptor(slot) by {
        lemma_descriptor_bounds(model, slot);
    }
    assert forall|entry: int, x: int|
        #![trigger model.live(entry), place(x, size)]
        model.live(entry) && model.snapshot_of(entry).offset <= x < model.end_of(
            entry,
        ) implies after.byte_at_position(place(x, size)) == model.byte_at_position(
        place(x, size),
    ) by {
        let pos = place(x, size);
        vstd::arithmetic::div_mod::lemma_mod_bound(x, size);
        assert(model.end_of(entry) <= offset);
        assert(model.cache.page_read_offset - size <= model.snapshot_of(entry).offset);
        assert(!model.covers(offset as int, data.len() as int, pos)) by {
            if model.covers(offset as int, data.len() as int, pos) {
                let y = choose|y: int|
                    offset <= y < offset + data.len() && #[trigger] place(y, size) == pos;
                lemma_distinct_places(x, y, size);
            }
        }
    }
}

/// Writing to the tail keeps a consistent head consistent, and the
/// descriptors and every byte of the data ring as they were.
pub proof fn lemma_tail_store_consistent(model: HeadModel, idx: int, value: u64)
    requires
        model.consistent(),
        0 <= idx < model.tail_len(),
    ensures
        model.with_words(model.words.update(model.tail_word(idx), value)).consistent(),
        forall|bound: int|
            model.settled_before(bound) ==> model.with_words(
                model.words.update(model.tail_word(idx), value),
            ).settled_before(bound),
        forall|pos: int|
            0 <= pos < model.data() ==> #[trigger] model.with_words(
                model.words.update(model.tail_word(idx), value),
            ).byte_at_position(pos) == model.byte_at_position(pos),
{
    let after = model.with_words(model.words.update(model.tail_word(idx), value));
    lemma_pages_fit(model);
    assert(model.same_descriptors(after));
    lemma_same_descriptors_consistent(model, after);
    assert forall|pos: int| 0 <= pos < model.data() implies #[trigger] after.byte_at_position(pos)
        == model.byte_at_position(pos) by {
        crate::model::lemma_byte_word_bounds(model, pos);
    }
}

/// Giving up an entry keeps a consistent head consistent, and the
/// descriptors and every byte of the data ring as they were.
pub proof fn lemma_abort_consistent(model: HeadModel)
    requires
        model.consistent(),
    ensures
        model.abort().consistent(),
        forall|slot: int|
            0 <= slot < model.entries() ==> #[trigger] model.abort().descriptor(slot)
                == model.descriptor(slot),
        forall|pos: int|
            0 <= pos < model.data() ==> #[trigger] model.abort().byte_at_position(pos)
                == model.byte_at_position(pos),
{
    let after = model.abort();
    lemma_pages_fit(model);
    assert forall|slot: int| 0 <= slot < model.entries() implies #[trigger] after.descriptor(slot)
        == model.descriptor(slot) by {
        lemma_descriptor_bounds(model, slot);
    }
    assert forall|pos: int| 0 <= pos < model.data() implies #[trigger] after.byte_at_position(pos)
        == model.byte_at_position(pos) by {
        crate::model::lemma_byte_word_bounds(model, pos);
    }
    assert forall|entry: int| after.live(entry) == model.live(entry) && after.snapshot_of(entry)
        == model.snapshot_of(entry) by {
        vstd::arithmetic::div_mod::lemma_mod_bound(entry, model.entries());
    }
    assert forall|slot: int|
        0 <= slot < after.entries() && (#[trigger] after.descriptor(slot)).length
            != 0 implies exists|entry: int| #[trigger]
        after.tracks(entry) && entry % after.entries() == slot by {
        assert(model.descriptor(slot).length != 0);
        let entry = choose|entry: int| #[trigger]
            model.tracks(entry) && entry % model.entries() == slot;
        assert(after.tracks(entry));
    }
    assert forall|entry: int| #[trigger] after.live(entry) implies after.cache.page_read_offset
        - after.data() <= after.snapshot_of(entry).offset by {
        assert(model.live(entry));
    }
    assert(after.settled_before(after.cache.page_write_offset as int)) by {
        assert forall|entry: int| #[trigger] after.live(entry) implies after.end_of(entry)
            <= after.cache.page_write_offset by {
            assert(model.live(entry));
        }
    }
    assert forall|older: int, newer: int|
        #![trigger after.live(older), after.live(newer)]
        after.live(older) && after.live(newer) && older < newer implies after.end_of(older)
            <= after.snapshot_of(newer).offset by {
        assert(model.live(older) && model.live(newer));
    }
}

impl HeadModel {
    /// Whether no valid descriptor describes data that shares a place of
    /// the data ring with the bytes from logical offset `start` up to
    /// `end`.
    pub open spec fn is_free(self, start: int, end: int) -> bool {
        forall|slot: int|
            0 <= slot < self.entries() && (#[trigger] self.descriptor(slot)).length != 0
                ==> places_disjoint(
                self.descriptor(slot).offset as int,
                self.descriptor(slot).length as int,
                start,
                end - start,
                self.data(),
            )
    }

    /// Whether a hook that was handed this head, with an entry reserved at
    /// logical offset `offset`, left `after` in a state that the entry can
    /// be published or given up in: the cursors are where they were, the
    /// bookkeeping matches the region, and no valid descriptor describes
    /// data of the entry.
    pub open spec fn hook_kept(self, after: HeadModel, offset: int) -> bool {
        &&& after.cache == self.cache
        &&& after.consistent()
        &&& after.settled_before(offset)
    }
}

/// Once room is made for a write, no valid descriptor describes data at
/// a place that the write covers.
pub proof fn lemma_room_is_free(model: HeadModel, end: u64)
    requires
        model.consistent(),
        model.cache.page_write_offset <= end,
        end < model.cache.page_write_offset + model.data(),
    ensures
        model.invalidate_heads_to(end).consistent(),
        model.invalidate_heads_to(end).cache.page_read_offset >= end,
        model.invalidate_heads_to(end).is_free(model.cache.page_write_offset as int, end as int),
{
    let freed = model.invalidate_heads_to(end);
    let start = model.cache.page_write_offset as int;
    lemma_invalidate_heads_consistent(model, end);
    lemma_invalidate_heads_frame(model, end);
    assert forall|slot: int|
        0 <= slot < freed.entries() && (#[trigger] freed.descriptor(slot)).length
            != 0 implies places_disjoint(
        freed.descriptor(slot).offset as int,
        freed.descriptor(slot).length as int,
        start,
        end - start,
        freed.data(),
    ) by {
        let found = freed.descriptor(slot);
        let entry = choose|entry: int| #[trigger]
            freed.tracks(entry) && entry % freed.entries() == slot;
        assert(freed.live(entry));
        assert(freed.end_of(entry) <= start);
        assert(freed.cache.page_read_offset - freed.data() <= found.offset);
        lemma_ranges_in_window(
            found.offset as int,
            found.length as int,
            start,
            end - start,
            freed.data(),
        );
    }
}

/// A commit keeps a consistent head consistent whatever its hook decides,
/// if the hook kept the head it was handed.
pub proof fn lemma_hook_consistent(model: HeadModel, bytes: Seq<u8>, after: HeadModel)
    requires
        model.consistent(),
        bytes.len() <= model.cache.page_mask,
        model.has_room(bytes.len() as int),
        model.reserve(bytes).hook_kept(after, model.cache.page_write_offset as int),
    ensures
        after.commit(
            model.cache.entry_write_offset,
            Snapshot { offset: model.cache.page_write_offset, length: bytes.len() as u64 },
        ).consistent(),
        after.abort().consistent(),
{
    let start = model.cache.page_write_offset;
    let end = wrap(start + bytes.len());
    lemma_wrap_small(start + bytes.len());
    lemma_invalidate_heads_consistent(model, end);
    lemma_invalidate_heads_frame(model, end);
    let freed = model.invalidate_heads_to(end);
    lemma_stream_consistent(freed, bytes);
    lemma_publish_consistent(after, Snapshot { offset: start, length: bytes.len() as u64 });
    lemma_abort_consistent(after);
}

} // verus!
