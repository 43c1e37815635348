//! Taking over the entries of a writer that came before.
//!
//! A region that is configured again may hold valid descriptors. The
//! writer visits every slot of the descriptor ring once, in the order of
//! the entries from a slot it starts at, and tracks the valid descriptors
//! that fit its bookkeeping: the data of each lies behind the data of the
//! one kept before it, within one data ring before the write cursor. A
//! valid descriptor that does not fit is invalidated. The visit starts
//! behind the slot of the valid descriptor whose data starts last, so that
//! the entries of a writer that wrote them in order are visited in that
//! order.
use vstd::prelude::*;
use crate::layout::HEADER_ENTRY_MASK;
use crate::model::{
    lemma_descriptor_bounds,
    lemma_pages_fit,
    length_word,
    offset_word,
    wrap,
    HeadCache,
    HeadModel,
};
use crate::ring_arith::{lemma_distinct_places, lemma_ranges_in_window, lemma_wrap_small};
use crate::snapshot::Snapshot;

verus! {

/// How far a writer has got in taking over entries.
pub struct Adopted {
    /// The words of the region, with the descriptors that do not fit
    /// invalidated.
    pub words: Seq<u64>,
    /// Whether an entry was kept.
    pub any: bool,
    /// The oldest entry that was kept.
    pub oldest: int,
    /// The logical offset the data of the oldest entry starts at.
    pub floor: int,
    /// The newest entry that was kept.
    pub newest: int,
    /// The logical offset behind the data of the newest entry that was
    /// kept; before any is kept, the lowest offset an entry may start at.
    pub end: int,
}

/// Whether the entry is among the first `count` from entry `first` on.
pub open spec fn visited(first: int, count: int, entry: int) -> bool {
    first <= entry < first + count
}

impl HeadModel {
    /// The lowest logical offset that data within one data ring before
    /// the write cursor may start at.
    pub open spec fn lowest(self) -> int {
        if self.cache.page_write_offset >= self.data() {
            self.cache.page_write_offset - self.data()
        } else {
            0
        }
    }

    /// Whether a valid descriptor fits behind what was kept up to `end`.
    pub open spec fn fits_behind(self, found: Snapshot, end: int) -> bool {
        end <= found.offset && found.offset + found.length <= self.cache.page_write_offset
    }

    /// The state of taking over after the first `count` entries from
    /// entry `first` on were visited.
    pub open spec fn adopted(self, first: int, count: int) -> Adopted
        decreases count,
    {
        if count <= 0 {
            Adopted {
                words: self.words,
                any: false,
                oldest: 0,
                floor: 0,
                newest: 0,
                end: self.lowest(),
            }
        } else {
            let before = self.adopted(first, count - 1);
            let entry = first + count - 1;
            let slot = entry % self.entries();
            let found = self.descriptor(slot);
            if found.length == 0 {
                before
            } else if self.fits_behind(found, before.end) {
                Adopted {
                    words: before.words,
                    any: true,
                    oldest: if before.any {
                        before.oldest
                    } else {
                        entry
                    },
                    floor: if before.any {
                        before.floor
                    } else {
                        found.offset as int
                    },
                    newest: entry,
                    end: found.offset + found.length,
                }
            } else {
                Adopted { words: before.words.update(length_word(slot), 0), ..before }
            }
        }
    }

    /// The head after the entries from entry `first` on were taken over.
    ///
    /// The read cursors are set to the oldest entry that was kept and one
    /// data ring behind the start of its data, the write cursor of the
    /// descriptor ring behind the newest. Without an entry that was kept
    /// the cursors of the descriptor ring are at zero and all of the data
    /// ring is free.
    pub open spec fn adopt(self, first: int) -> HeadModel {
        let all = self.adopted(first, self.entries());
        HeadModel {
            cache: if all.any {
                HeadCache {
                    entry_read_offset: all.oldest as u64,
                    entry_write_offset: (all.newest + 1) as u64,
                    page_read_offset: wrap(all.floor + self.data()),
                    ..self.cache
                }
            } else {
                HeadCache {
                    entry_read_offset: 0,
                    entry_write_offset: 0,
                    page_read_offset: wrap(self.cache.page_write_offset + self.data()),
                    ..self.cache
                }
            },
            words: all.words,
            ..self
        }
    }

    /// The slot, among the first `count`, of the valid descriptor whose
    /// data starts at the greatest logical offset, and the first of them
    /// if there are more; none without a valid descriptor.
    pub open spec fn latest(self, count: int) -> Option<int>
        decreases count,
    {
        if count <= 0 {
            None
        } else {
            let before = self.latest(count - 1);
            let found = self.descriptor(count - 1);
            if found.length != 0 && (before is None || self.descriptor(before->0).offset
                < found.offset) {
                Some(count - 1)
            } else {
                before
            }
        }
    }

    /// The entry that taking over starts at: the one behind the slot of
    /// the latest valid descriptor, or the first without one.
    pub open spec fn adoption_start(self) -> int {
        match self.latest(self.entries()) {
            Some(slot) => (slot + 1) % self.entries(),
            None => 0,
        }
    }

    /// The head after the entries that the region holds were taken over.
    pub open spec fn take_over(self) -> HeadModel {
        self.adopt(self.adoption_start())
    }

    /// Whether the entry was visited among the first `count` from `first`
    /// and kept.
    pub open spec fn keeps_entry(self, first: int, count: int, entry: int) -> bool {
        &&& first <= entry < first + count
        &&& self.with_words(self.adopted(first, count).words).descriptor(
            entry % self.entries(),
        ).length != 0
    }

    /// What holds of the state of taking over after `count` entries.
    pub open spec fn adopted_well(self, first: int, count: int) -> bool {
        let state = self.adopted(first, count);
        let kept = self.with_words(state.words);
        &&& state.words.len() == self.words.len()
        &&& self.lowest() <= state.end <= self.cache.page_write_offset
        &&& forall|at: int|
            0 <= at < self.words.len() && state.words[at] != self.words[at] ==> exists|entry: int|
                first <= entry < first + count && at == #[trigger] length_word(
                    entry % self.entries(),
                )
        &&& forall|entry: int| #[trigger]
            visited(first, count, entry) ==> {
                ||| kept.descriptor(entry % self.entries()).length == 0
                ||| kept.descriptor(entry % self.entries()) == self.descriptor(
                    entry % self.entries(),
                )
            }
        &&& forall|entry: int| #[trigger]
            self.keeps_entry(first, count, entry) ==> {
                let found = kept.descriptor(entry % self.entries());
                &&& state.any
                &&& state.oldest <= entry <= state.newest
                &&& state.floor <= found.offset
                &&& found.offset + found.length <= state.end
            }
        &&& forall|older: int, newer: int|
            #![trigger self.keeps_entry(first, count, older), self.keeps_entry(first, count, newer)]
            self.keeps_entry(first, count, older) && self.keeps_entry(first, count, newer) && older
                < newer ==> kept.descriptor(older % self.entries()).offset + kept.descriptor(
                older % self.entries(),
            ).length <= kept.descriptor(newer % self.entries()).offset
        &&& state.any ==> {
            &&& first <= state.oldest <= state.newest < first + count
            &&& self.lowest() <= state.floor <= self.cache.page_write_offset
            &&& state.floor <= state.end
        }
    }
}

/// The entries that are visited before the ring comes round live in
/// different slots.
proof fn lemma_visited_slots(model: HeadModel, first: int, one: int, other: int)
    requires
        model.wf(),
        0 <= first,
        first <= one < other < first + model.entries(),
    ensures
        0 <= one % model.entries() < model.entries(),
        0 <= other % model.entries() < model.entries(),
        one % model.entries() != other % model.entries(),
{
    vstd::arithmetic::div_mod::lemma_mod_bound(one, model.entries());
    vstd::arithmetic::div_mod::lemma_mod_bound(other, model.entries());
    lemma_distinct_places(one, other, model.entries());
}

/// Taking over keeps what it has kept in order, within one data ring
/// before the write cursor, and changes nothing but lengths of
/// descriptors that do not fit.
#[verifier::rlimit(60)]
pub proof fn lemma_adopted_well(model: HeadModel, first: int, count: int)
    requires
        model.wf(),
        0 <= first,
        0 <= count <= model.entries(),
    ensures
        model.adopted_well(first, count),
    decreases count,
{
    let size = model.entries();
    if count > 0 {
        lemma_adopted_well(model, first, count - 1);
        let before = model.adopted(first, count - 1);
        let state = model.adopted(first, count);
        let entry = first + count - 1;
        let slot = entry % size;
        let found = model.descriptor(slot);
        let kept_before = model.with_words(before.words);
        let kept = model.with_words(state.words);
        vstd::arithmetic::div_mod::lemma_mod_bound(entry, size);
        lemma_descriptor_bounds(model, slot);
        lemma_pages_fit(model);
        // The slot of the entry has not been visited before.
        assert(kept_before.descriptor(slot) == found) by {
            if before.words[offset_word(slot)] != model.words[offset_word(slot)] {
                let other = choose|other: int|
                    first <= other < first + count - 1 && offset_word(slot) == #[trigger] length_word(
                        other % size,
                    );
                lemma_visited_slots(model, first, other, entry);
            }
            if before.words[length_word(slot)] != model.words[length_word(slot)] {
                let other = choose|other: int|
                    first <= other < first + count - 1 && length_word(slot) == #[trigger] length_word(
                        other % size,
                    );
                lemma_visited_slots(model, first, other, entry);
            }
        }
        assert forall|other: int| #[trigger]
            visited(first, count - 1, other) implies kept.descriptor(other % size)
            == kept_before.descriptor(other % size) by {
            lemma_visited_slots(model, first, other, entry);
            lemma_descriptor_bounds(model, other % size);
        }
        assert forall|other: int| #[trigger]
            visited(first, count - 1, other) implies model.keeps_entry(first, count, other)
            == model.keeps_entry(first, count - 1, other) by {}
        assert forall|at: int|
            0 <= at < model.words.len() && state.words[at]
                != model.words[at] implies exists|other: int|
            first <= other < first + count && at == #[trigger] length_word(other % size) by {
            if before.words[at] != model.words[at] {
                let other = choose|other: int|
                    first <= other < first + count - 1 && at == #[trigger] length_word(
                        other % size,
                    );
                assert(first <= other < first + count && at == length_word(other % size));
            } else {
                assert(at == length_word(entry % size));
            }
        }
        assert forall|other: int| #[trigger] visited(first, count, other) implies {
            ||| kept.descriptor(other % size).length == 0
            ||| kept.descriptor(other % size) == model.descriptor(other % size)
        } by {
            if other < entry {
                assert(visited(first, count - 1, other));
                assert(kept.descriptor(other % size) == kept_before.descriptor(other % size));
            }
        }
        assert forall|other: int| #[trigger]
            model.keeps_entry(first, count, other) implies {
            let here = kept.descriptor(other % size);
            &&& state.any
            &&& state.oldest <= other <= state.newest
            &&& state.floor <= here.offset
            &&& here.offset + here.length <= state.end
        } by {
            if other < entry {
                assert(visited(first, count - 1, other));
                assert(model.keeps_entry(first, count - 1, other));
            }
        }
        assert forall|older: int, newer: int|
            #![trigger model.keeps_entry(first, count, older), model.keeps_entry(first, count, newer)]
            model.keeps_entry(first, count, older) && model.keeps_entry(first, count, newer)
                && older < newer implies kept.descriptor(older % size).offset + kept.descriptor(
            older % size,
        ).length <= kept.descriptor(newer % size).offset by {
            assert(visited(first, count - 1, older));
            assert(model.keeps_entry(first, count - 1, older));
            if newer < entry {
                assert(visited(first, count - 1, newer));
                assert(model.keeps_entry(first, count - 1, newer));
            }
        }
    }
}

/// Every slot of the descriptor ring is that of one of the entries that
/// are visited.
proof fn lemma_slot_is_visited(model: HeadModel, first: int, slot: int) -> (entry: int)
    requires
        model.wf(),
        0 <= first,
        0 <= slot < model.entries(),
    ensures
        visited(first, model.entries(), entry),
        entry % model.entries() == slot,
{
    let size = model.entries();
    let ahead = (slot - first) % size;
    vstd::arithmetic::div_mod::lemma_mod_bound(slot - first, size);
    vstd::arithmetic::div_mod::lemma_add_mod_noop_right(first, slot - first, size);
    vstd::arithmetic::div_mod::lemma_small_mod(slot as nat, size as nat);
    first + ahead
}

/// After the entries of a writer that came before were taken over, the
/// bookkeeping of the writer matches the region.
#[verifier::rlimit(60)]
pub proof fn lemma_adopt_consistent(model: HeadModel, first: int)
    requires
        model.wf(),
        model.separated(),
        model.header(HEADER_ENTRY_MASK as int) == model.cache.entry_mask,
        model.cache.page_write_offset + model.data() <= u64::MAX,
        0 <= first < model.entries(),
    ensures
        model.adopt(first).consistent(),
        model.adopt(first).cache.page_write_offset == model.cache.page_write_offset,
{
    let size = model.entries();
    let all = model.adopted(first, size);
    let after = model.adopt(first);
    let kept = model.with_words(all.words);
    lemma_adopted_well(model, first, size);
    lemma_pages_fit(model);
    assert(size <= 0x8000_0000_0000_0000) by {
        let entries: u64 = (model.cache.entry_mask + 1) as u64;
        assert(entries != 0 && entries & ((entries - 1) as u64) == 0 ==> entries
            <= 0x8000_0000_0000_0000) by (bit_vector);
    }
    assert(after.words[HEADER_ENTRY_MASK as int] == model.words[HEADER_ENTRY_MASK as int]);
    assert forall|slot: int| 0 <= slot < size implies #[trigger] after.descriptor(slot)
        == kept.descriptor(slot) by {}
    if all.any {
        lemma_wrap_small(all.floor + model.data());
    } else {
        lemma_wrap_small(model.cache.page_write_offset + model.data());
    }
    assert forall|entry: int| #[trigger] after.live(entry) implies model.keeps_entry(
        first,
        size,
        entry,
    ) by {
        assert(all.any);
    }
    assert forall|slot: int|
        0 <= slot < after.entries() && (#[trigger] after.descriptor(slot)).length
            != 0 implies exists|entry: int| #[trigger]
        after.tracks(entry) && entry % after.entries() == slot by {
        let entry = lemma_slot_is_visited(model, first, slot);
        assert(model.keeps_entry(first, size, entry));
        assert(after.tracks(entry));
    }
    assert forall|entry: int| #[trigger] after.live(entry) implies after.cache.page_read_offset
        - after.data() <= after.snapshot_of(entry).offset by {
        assert(model.keeps_entry(first, size, entry));
    }
    assert(after.settled_before(after.cache.page_write_offset as int)) by {
        assert forall|entry: int| #[trigger] after.live(entry) implies after.end_of(entry)
            <= after.cache.page_write_offset by {
            assert(model.keeps_entry(first, size, entry));
        }
    }
    assert forall|older: int, newer: int|
        #![trigger after.live(older), after.live(newer)]
        after.live(older) && after.live(newer) && older < newer implies after.end_of(older)
            <= after.snapshot_of(newer).offset by {
        assert(model.keeps_entry(first, size, older));
        assert(model.keeps_entry(first, size, newer));
    }
}

/// The slot of the entry that is visited next holds what it held before
/// taking over began.
pub proof fn lemma_unvisited_slot(model: HeadModel, first: int, count: int)
    requires
        model.wf(),
        0 <= first,
        0 <= count < model.entries(),
    ensures
        model.adopted_well(first, count),
        0 <= (first + count) % model.entries() < model.entries(),
        model.with_words(model.adopted(first, count).words).descriptor(
            (first + count) % model.entries(),
        ) == model.descriptor((first + count) % model.entries()),
{
    let size = model.entries();
    let entry = first + count;
    let slot = entry % size;
    let before = model.adopted(first, count);
    lemma_adopted_well(model, first, count);
    vstd::arithmetic::div_mod::lemma_mod_bound(entry, size);
    lemma_descriptor_bounds(model, slot);
    lemma_pages_fit(model);
    if before.words[offset_word(slot)] != model.words[offset_word(slot)] {
        let other = choose|other: int|
            first <= other < first + count && offset_word(slot) == #[trigger] length_word(
                other % size,
            );
        lemma_visited_slots(model, first, other, entry);
    }
    if before.words[length_word(slot)] != model.words[length_word(slot)] {
        let other = choose|other: int|
            first <= other < first + count && length_word(slot) == #[trigger] length_word(
                other % size,
            );
        lemma_visited_slots(model, first, other, entry);
    }
}

/// The latest valid descriptor among the first slots is in one of them.
pub proof fn lemma_latest_bounds(model: HeadModel, count: int)
    ensures
        model.latest(count) matches Some(slot) ==> 0 <= slot < count,
    decreases count,
{
    if count > 0 {
        lemma_latest_bounds(model, count - 1);
    }
}

/// Taking over starts at an entry of the first turn of the ring.
pub proof fn lemma_adoption_start(model: HeadModel)
    requires
        model.wf(),
    ensures
        0 <= model.adoption_start() < model.entries(),
{
    lemma_latest_bounds(model, model.entries());
    match model.latest(model.entries()) {
        Some(slot) => {
            vstd::arithmetic::div_mod::lemma_mod_bound(slot + 1, model.entries());
        },
        None => {},
    }
}

/// A head that was configured and has taken over what the region held
/// keeps its bookkeeping, as long as its cursors do not wrap: whatever
/// the region held, no two descriptors that are valid afterwards describe
/// data that shares a byte.
pub proof fn lemma_take_over_consistent(model: HeadModel)
    requires
        model.wf(),
        model.separated(),
        model.header(HEADER_ENTRY_MASK as int) == model.cache.entry_mask,
        model.cache.page_write_offset + model.data() <= u64::MAX,
    ensures
        model.take_over().consistent(),
{
    lemma_adoption_start(model);
    lemma_adopt_consistent(model, model.adoption_start());
}

/// Taking over changes nothing but lengths of descriptors, which it sets
/// to zero: the header, the offsets of the descriptors, the data and the
/// write cursor of the data ring stay as they are.
pub proof fn lemma_take_over_frame(model: HeadModel)
    requires
        model.wf(),
    ensures
        model.take_over().words.len() == model.words.len(),
        model.take_over().spans == model.spans,
        model.take_over().cache.entry_mask == model.cache.entry_mask,
        model.take_over().cache.page_mask == model.cache.page_mask,
        model.take_over().cache.page_write_offset == model.cache.page_write_offset,
        forall|at: int|
            0 <= at < model.words.len() && model.take_over().words[at] != model.words[at]
                ==> model.take_over().words[at] == 0 && exists|slot: int|
                0 <= slot < model.entries() && at == #[trigger] length_word(slot),
{
    let first = model.adoption_start();
    let size = model.entries();
    let after = model.take_over();
    lemma_adoption_start(model);
    lemma_adopted_well(model, first, size);
    assert forall|at: int|
        0 <= at < model.words.len() && after.words[at] != model.words[at] implies after.words[at]
        == 0 && exists|slot: int| 0 <= slot < size && at == #[trigger] length_word(slot) by {
        let entry = choose|entry: int|
            first <= entry < first + size && at == #[trigger] length_word(entry % size);
        vstd::arithmetic::div_mod::lemma_mod_bound(entry, size);
        assert(visited(first, size, entry));
        assert(0 <= entry % size < size && at == length_word(entry % size));
    }
}

/// A valid descriptor that is left after taking over was there before.
pub proof fn lemma_take_over_valid(model: HeadModel, slot: int)
    requires
        model.wf(),
        0 <= slot < model.entries(),
        model.take_over().descriptor(slot).length != 0,
    ensures
        model.take_over().descriptor(slot) == model.descriptor(slot),
{
    lemma_take_over_frame(model);
    lemma_descriptor_bounds(model, slot);
    let after = model.take_over();
    if after.words[offset_word(slot)] != model.words[offset_word(slot)] {
        let other = choose|other: int|
            0 <= other < model.entries() && offset_word(slot) == #[trigger] length_word(other);
    }
}

impl HeadModel {
    /// Whether this head is set up over the region that the writer `prior`
    /// left: over the same words, with rings of the same sizes at the same
    /// places, and with the write cursor where `prior` had it.
    pub open spec fn succeeds(self, prior: HeadModel) -> bool {
        &&& self.wf()
        &&& self.words == prior.words
        &&& self.spans == prior.spans
        &&& self.cache.entry_mask == prior.cache.entry_mask
        &&& self.cache.page_mask == prior.cache.page_mask
        &&& self.cache.page_write_offset == prior.cache.page_write_offset
    }

    /// Whether every valid descriptor that is visited from entry `first`
    /// on belongs to the live entry of `prior` that lies `shift` entries
    /// from the one it is visited as.
    pub open spec fn in_step(self, prior: HeadModel, first: int, shift: int) -> bool {
        forall|entry: int| #[trigger]
            visited(first, self.entries(), entry) && self.descriptor(
                entry % self.entries(),
            ).length != 0 ==> prior.live(entry + shift) && prior.snapshot_of(entry + shift)
                == self.descriptor(entry % self.entries())
    }
}

/// The latest valid descriptor is valid, and no valid descriptor has data
/// that starts behind the start of its data.
proof fn lemma_latest_is_last(model: HeadModel, count: int)
    ensures
        match model.latest(count) {
            Some(slot) => {
                &&& 0 <= slot < count
                &&& model.descriptor(slot).length != 0
                &&& forall|other: int|
                    0 <= other < count && (#[trigger] model.descriptor(other)).length != 0
                        ==> model.descriptor(other).offset <= model.descriptor(slot).offset
            },
            None => forall|other: int|
                0 <= other < count ==> (#[trigger] model.descriptor(other)).length == 0,
        },
    decreases count,
{
    if count > 0 {
        lemma_latest_is_last(model, count - 1);
    }
}

/// The entries of a writer that came before are visited in their order.
proof fn lemma_visit_in_step(prior: HeadModel, model: HeadModel) -> (shift: int)
    requires
        prior.consistent(),
        model.succeeds(prior),
    ensures
        model.in_step(prior, model.adoption_start(), shift),
{
    let size = model.entries();
    let first = model.adoption_start();
    lemma_latest_is_last(model, size);
    lemma_adoption_start(model);
    match model.latest(size) {
        None => { 0 },
        Some(last) => {
            assert(prior.entries() == size);
            assert(prior.descriptor(last) == model.descriptor(last));
            let newest = choose|entry: int| #[trigger]
                prior.tracks(entry) && entry % size == last;
            assert(prior.live(newest));
            let turns = newest / size + (last + 1) / size - 1;
            let shift = size * turns;
            vstd::arithmetic::div_mod::lemma_fundamental_div_mod(newest, size);
            vstd::arithmetic::div_mod::lemma_fundamental_div_mod(last + 1, size);
            assert(shift == newest + 1 - first - size) by (nonlinear_arith)
                requires
                    shift == size * turns,
                    turns == newest / size + (last + 1) / size - 1,
                    newest == size * (newest / size) + last,
                    last + 1 == size * ((last + 1) / size) + first,
            ;
            assert forall|entry: int| #[trigger]
                visited(first, size, entry) && model.descriptor(entry % size).length
                    != 0 implies prior.live(entry + shift) && prior.snapshot_of(entry + shift)
                == model.descriptor(entry % size) by {
                let slot = entry % size;
                vstd::arithmetic::div_mod::lemma_mod_bound(entry, size);
                assert(prior.descriptor(slot) == model.descriptor(slot));
                let owner = choose|owner: int| #[trigger]
                    prior.tracks(owner) && owner % size == slot;
                assert(prior.live(owner));
                // No live entry is newer than that of the latest descriptor.
                if newest < owner {
                    assert(prior.end_of(newest) <= prior.snapshot_of(owner).offset);
                    assert(model.descriptor(slot).offset <= model.descriptor(last).offset);
                }
                vstd::arithmetic::div_mod::lemma_mod_multiples_vanish(turns, entry, size);
                assert((entry + shift) % size == slot);
                if owner < entry + shift {
                    lemma_distinct_places(owner, entry + shift, size);
                } else if entry + shift < owner {
                    lemma_distinct_places(entry + shift, owner, size);
                }
            }
            shift
        },
    }
}

/// Visiting the entries of a writer that came before in their order
/// changes nothing, and what is still to be visited starts behind what
/// was kept.
proof fn lemma_adopted_keeps(prior: HeadModel, model: HeadModel, shift: int, count: int)
    requires
        prior.consistent(),
        model.succeeds(prior),
        model.in_step(prior, model.adoption_start(), shift),
        0 <= count <= model.entries(),
    ensures
        model.adopted(model.adoption_start(), count).words == model.words,
        forall|entry: int| #[trigger]
            visited(model.adoption_start(), model.entries(), entry) && model.adoption_start()
                + count <= entry && model.descriptor(entry % model.entries()).length != 0
                ==> model.adopted(model.adoption_start(), count).end <= model.descriptor(
                entry % model.entries(),
            ).offset,
    decreases count,
{
    let size = model.entries();
    let first = model.adoption_start();
    let state = model.adopted(first, count);
    if count > 0 {
        lemma_adopted_keeps(prior, model, shift, count - 1);
        let before = model.adopted(first, count - 1);
        let here = first + count - 1;
        let found = model.descriptor(here % size);
        assert(visited(first, size, here));
        if found.length != 0 {
            assert(prior.live(here + shift));
            assert(prior.end_of(here + shift) <= prior.cache.page_write_offset);
            assert(model.fits_behind(found, before.end));
            assert forall|entry: int| #[trigger]
                visited(first, size, entry) && first + count <= entry && model.descriptor(
                    entry % size,
                ).length != 0 implies state.end <= model.descriptor(entry % size).offset by {
                assert(prior.live(entry + shift));
                assert(prior.end_of(here + shift) <= prior.snapshot_of(entry + shift).offset);
            }
        }
    } else {
        assert forall|entry: int| #[trigger]
            visited(first, size, entry) && first + count <= entry && model.descriptor(
                entry % size,
            ).length != 0 implies state.end <= model.descriptor(entry % size).offset by {
            assert(prior.live(entry + shift));
        }
    }
}

/// A writer that is set up over the region that a writer before it left,
/// with the same rings and the write cursor where that writer had it,
/// takes over every valid descriptor: the region stays as it is.
pub proof fn lemma_take_over_keeps(prior: HeadModel, model: HeadModel)
    requires
        prior.consistent(),
        model.succeeds(prior),
    ensures
        model.take_over().words == model.words,
{
    let shift = lemma_visit_in_step(prior, model);
    lemma_adopted_keeps(prior, model, shift, model.entries());
}

/// Whatever the region held: after taking over, any two valid
/// descriptors describe data that shares no place of the data ring.
pub proof fn lemma_take_over_apart(model: HeadModel)
    requires
        model.wf(),
    ensures
        model.take_over().all_apart(),
{
    let size = model.entries();
    let first = model.adoption_start();
    let all = model.adopted(first, size);
    let kept = model.with_words(all.words);
    let after = model.take_over();
    lemma_adoption_start(model);
    lemma_adopted_well(model, first, size);
    assert forall|one: int, other: int|
        0 <= one < size && 0 <= other < size && one != other && (#[trigger] after.descriptor(
            one,
        )).length != 0 && (#[trigger] after.descriptor(other)).length != 0 implies after.apart(
        after.descriptor(one),
        after.descriptor(other),
    ) by {
        let a = kept.descriptor(one);
        let b = kept.descriptor(other);
        let older = lemma_slot_is_visited(model, first, one);
        let newer = lemma_slot_is_visited(model, first, other);
        assert(model.keeps_entry(first, size, older));
        assert(model.keeps_entry(first, size, newer));
        if older < newer {
            lemma_ranges_in_window(
                a.offset as int,
                a.length as int,
                b.offset as int,
                b.length as int,
                model.data(),
            );
        } else {
            lemma_ranges_in_window(
                b.offset as int,
                b.length as int,
                a.offset as int,
                a.length as int,
                model.data(),
            );
        }
    }
}

} // verus!
