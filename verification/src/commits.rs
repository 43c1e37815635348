//! What holds of a writer after any number of commits.
use vstd::prelude::*;

use crate::model::{
    lemma_descriptor_bounds,
    lemma_invalidate_heads_frame,
    lemma_slot_bounds,
    lemma_write_bytes_frame,
    wrap,
    HeadModel,
};
use crate::ring_arith::{lemma_wrap_small, place};
use crate::snapshot::{ConfigureFileView, Snapshot};
use crate::tracking::{
    lemma_commit_consistent,
    lemma_commit_keeps_valid,
    lemma_commit_round_trip,
    lemma_invalidate_heads_consistent,
    lemma_stream_consistent,
    lemma_valid_snapshots_apart,
};

verus! {

impl HeadModel {
    /// Whether a commit of `bytes` goes through: the payload fits the data
    /// ring and no cursor wraps.
    pub open spec fn takes(self, bytes: Seq<u8>) -> bool {
        &&& bytes.len() <= self.cache.page_mask
        &&& self.has_room(bytes.len() as int)
    }

    /// The head after the `payloads` were committed one after the other.
    pub open spec fn after_commits(self, payloads: Seq<Seq<u8>>) -> HeadModel
        decreases payloads.len(),
    {
        if payloads.len() == 0 {
            self
        } else {
            self.after_commits(payloads.drop_last()).committed(payloads.last())
        }
    }

    /// Whether each of the `payloads` is taken when its turn comes.
    pub open spec fn takes_all(self, payloads: Seq<Seq<u8>>) -> bool
        decreases payloads.len(),
    {
        payloads.len() == 0 || (self.takes_all(payloads.drop_last()) && self.after_commits(
            payloads.drop_last(),
        ).takes(payloads.last()))
    }
}

/// A commit moves the write cursor behind the payload and keeps the sizes
/// of the rings.
pub proof fn lemma_commit_cursor(model: HeadModel, bytes: Seq<u8>)
    requires
        model.consistent(),
        model.takes(bytes),
    ensures
        model.committed(bytes).cache.page_write_offset == model.cache.page_write_offset
            + bytes.len(),
        model.committed(bytes).cache.entry_mask == model.cache.entry_mask,
        model.committed(bytes).cache.page_mask == model.cache.page_mask,
        model.committed(bytes).spans == model.spans,
        model.committed(bytes).words.len() == model.words.len(),
        model.committed(bytes).descriptor(model.slot_of(model.cache.entry_write_offset)) == (
        Snapshot { offset: model.cache.page_write_offset, length: bytes.len() as u64 }),
{
    let start = model.cache.page_write_offset;
    let end = wrap(start + bytes.len());
    lemma_wrap_small(start + bytes.len());
    lemma_invalidate_heads_consistent(model, end);
    lemma_invalidate_heads_frame(model, end);
    let freed = model.invalidate_heads_to(end);
    lemma_stream_consistent(freed, bytes);
    lemma_write_bytes_frame(freed, start, bytes);
    let streamed = model.reserve(bytes);
    lemma_slot_bounds(streamed, model.cache.entry_write_offset);
    lemma_descriptor_bounds(streamed, streamed.slot_of(model.cache.entry_write_offset));
}

/// After any sequence of commits that are taken, the bookkeeping of the
/// writer matches the region, and any two valid descriptors describe
/// data that shares no byte of the data ring.
pub proof fn lemma_commits_consistent(model: HeadModel, payloads: Seq<Seq<u8>>)
    requires
        model.consistent(),
        model.takes_all(payloads),
    ensures
        model.after_commits(payloads).consistent(),
        model.after_commits(payloads).cache.entry_mask == model.cache.entry_mask,
        model.after_commits(payloads).cache.page_mask == model.cache.page_mask,
        model.after_commits(payloads).cache.page_write_offset >= model.cache.page_write_offset,
        model.after_commits(payloads).spans == model.spans,
        model.after_commits(payloads).words.len() == model.words.len(),
        forall|one: int, other: int|
            0 <= one < model.entries() && 0 <= other < model.entries() && one != other
                && (#[trigger] model.after_commits(payloads).descriptor(one)).length != 0
                && (#[trigger] model.after_commits(payloads).descriptor(other)).length != 0
                ==> model.after_commits(payloads).apart(
                model.after_commits(payloads).descriptor(one),
                model.after_commits(payloads).descriptor(other),
            ),
    decreases payloads.len(),
{
    if payloads.len() > 0 {
        lemma_commits_consistent(model, payloads.drop_last());
        let before = model.after_commits(payloads.drop_last());
        lemma_commit_consistent(before, payloads.last());
        lemma_commit_cursor(before, payloads.last());
    }
    let after = model.after_commits(payloads);
    assert forall|one: int, other: int|
        0 <= one < model.entries() && 0 <= other < model.entries() && one != other
            && (#[trigger] after.descriptor(one)).length != 0 && (#[trigger] after.descriptor(
            other,
        )).length != 0 implies after.apart(after.descriptor(one), after.descriptor(other)) by {
        lemma_valid_snapshots_apart(after, one, other);
    }
}

/// Whatever a region holds when a writer is configured over it with a
/// write offset at least one data ring before the end of its word: after
/// any sequence of commits that are taken, any two valid descriptors
/// describe data that shares no byte of the data ring.
pub proof fn lemma_configured_commits_apart(
    model: HeadModel,
    cfg: ConfigureFileView,
    payloads: Seq<Seq<u8>>,
)
    requires
        model.inv(),
        model.accepts(cfg),
        cfg.initial_offset + cfg.data <= u64::MAX,
        model.configure(cfg).take_over().takes_all(payloads),
    ensures
        model.configure(cfg).take_over().after_commits(payloads).consistent(),
        model.configure(cfg).take_over().after_commits(payloads).all_apart(),
{
    let start = model.configure(cfg).take_over();
    crate::recovery_proofs::lemma_configure_consistent(model, cfg);
    lemma_commits_consistent(start, payloads);
    crate::tracking::lemma_consistent_apart(start.after_commits(payloads));
}

/// A payload that was committed is read back through its snapshot for as
/// long as the snapshot is valid: after any sequence of further commits
/// that leave the descriptor in its slot, the data ring holds the payload
/// at the places of the snapshot.
#[verifier::rlimit(40)]
pub proof fn lemma_commits_round_trip(model: HeadModel, payload: Seq<u8>, later: Seq<Seq<u8>>)
    requires
        model.consistent(),
        model.takes(payload),
        model.committed(payload).takes_all(later),
        payload.len() > 0,
        model.committed(payload).after_commits(later).descriptor(
            model.slot_of(model.cache.entry_write_offset),
        ) == (Snapshot { offset: model.cache.page_write_offset, length: payload.len() as u64 }),
    ensures
        model.committed(payload).after_commits(later).data_of(
            Snapshot { offset: model.cache.page_write_offset, length: payload.len() as u64 },
        ) == payload,
    decreases later.len(),
{
    let snapshot = Snapshot {
        offset: model.cache.page_write_offset,
        length: payload.len() as u64,
    };
    let slot = model.slot_of(model.cache.entry_write_offset);
    let first = model.committed(payload);
    let last = first.after_commits(later);
    lemma_commit_consistent(model, payload);
    lemma_commit_cursor(model, payload);
    lemma_slot_bounds(model, model.cache.entry_write_offset);
    if later.len() == 0 {
        lemma_commit_round_trip(model, payload);
        assert forall|i: int| 0 <= i < payload.len() implies last.data_of(snapshot)[i]
            == payload[i] by {
            crate::ring_arith::lemma_position_of_sum(last, model.cache.page_write_offset + i);
            assert(last.byte_at(wrap(model.cache.page_write_offset + i)) == payload[i]);
        }
        assert(last.data_of(snapshot) =~= payload);
    } else {
        let before = first.after_commits(later.drop_last());
        lemma_commits_consistent(first, later.drop_last());
        lemma_commit_cursor(before, later.last());
        lemma_slot_bounds(before, before.cache.entry_write_offset);
        // The last commit did not go to the slot of the snapshot: its
        // descriptor starts behind the payload.
        assert(slot != before.slot_of(before.cache.entry_write_offset));
        lemma_commit_keeps_valid(before, later.last(), slot);
        assert(before.descriptor(slot) == snapshot);
        lemma_commits_round_trip(model, payload, later.drop_last());
        assert forall|i: int| 0 <= i < payload.len() implies last.data_of(snapshot)[i]
            == before.data_of(snapshot)[i] by {
            let x = snapshot.offset + i;
            assert(last.byte_at_position(place(x, before.data())) == before.byte_at_position(
                place(x, before.data()),
            ));
        }
        assert(last.data_of(snapshot) =~= before.data_of(snapshot));
    }
}

} // verus!
