//! What recovery finds in a region: the configuration that was written to
//! it, and the descriptors that are valid in it.
use vstd::prelude::*;
use crate::model::{lemma_pages_fit, length_word, offset_word, HeadModel};
use crate::layout::{
    is_fitting_power_of_two,
    is_power_of_two,
    lemma_fitting_power_of_two_unique,
    pages_for,
    HEADER_ENTRY_MASK,
    HEADER_PAGE_MASK,
    HEADER_VERSION,
    PAGE_DESCRIPTORS,
    PAGE_WORDS,
};
use crate::snapshot::{Collect, ConfigureFile, ConfigureFileView, Snapshot};

verus! {

impl HeadModel {
    /// Whether the head is laid over the whole region and not yet cut to
    /// rings: both rings are addressed through all pages.
    pub open spec fn is_raw(self) -> bool {
        &&& self.spans.sequence_pages == self.pages()
        &&& self.spans.data_first == 0
        &&& self.spans.data_pages == self.pages()
    }

    /// Whether the header holds a complete configuration whose rings have
    /// sizes that are powers of two and fit the region.
    pub open spec fn holds_configuration(self) -> bool {
        &&& !self.is_fallback()
        &&& self.discoverable()
        &&& self.header(HEADER_VERSION as int) == ConfigureFile::MAGIC_VERSION
        &&& is_power_of_two((self.header(HEADER_ENTRY_MASK as int) + 1) as u64)
        &&& is_power_of_two((self.header(HEADER_PAGE_MASK as int) + 1) as u64)
        &&& self.header(HEADER_PAGE_MASK as int) + 1 <= self.data_space()
    }
}

/// A power of two that does not exceed a value does not exceed the largest
/// such power.
pub proof fn lemma_fitting_power_of_two_largest(p: u64, q: u64, v: u64)
    requires
        is_fitting_power_of_two(p, v),
        is_power_of_two(q),
        q <= v,
    ensures
        q <= p,
{
    assert(p != 0 && p & ((p - 1) as u64) == 0 && q != 0 && q & ((q - 1) as u64) == 0 && p <= v
        && q <= v && ((v - p) as u64) < p ==> q <= p) by (bit_vector);
}

/// Discovery followed by configuration with what was discovered leaves
/// the header as it was, on a region that holds a configuration.
pub proof fn lemma_discover_configure_identity(model: HeadModel, cfg: ConfigureFileView)
    requires
        model.inv(),
        model.is_raw(),
        model.holds_configuration(),
        model.discovers(cfg),
    ensures
        cfg.entries == model.header(HEADER_ENTRY_MASK as int) + 1,
        cfg.data == model.header(HEADER_PAGE_MASK as int) + 1,
        model.accepts(cfg),
        model.configure(cfg).words == model.words,
        forall|field: int|
            0 <= field < PAGE_WORDS ==> model.configure(cfg).take_over().words[field]
                == model.words[field],
{
    let stored_entries: u64 = (model.header(HEADER_ENTRY_MASK as int) + 1) as u64;
    let stored_data: u64 = (model.header(HEADER_PAGE_MASK as int) + 1) as u64;
    lemma_pages_fit(model);
    crate::model::lemma_pages_bytes(model);
    assert(is_fitting_power_of_two(stored_entries, stored_entries));
    lemma_fitting_power_of_two_unique(cfg.entries, stored_entries, stored_entries);
    let available = choose|available: u64|
        {
            &&& #[trigger] is_fitting_power_of_two(available, model.data_space() as u64)
            &&& cfg.data == if available <= model.header(HEADER_PAGE_MASK as int) {
                available
            } else {
                stored_data
            }
        };
    lemma_fitting_power_of_two_largest(available, stored_data, model.data_space() as u64);
    assert(cfg.data == stored_data);
    let set = model.set_up(cfg);
    assert(set.sequence_need() == pages_for(stored_entries as int, PAGE_DESCRIPTORS as int));
    assert(set.data_need() <= model.spans.data_pages - set.sequence_need()) by {
        let have = model.spans.data_pages - set.sequence_need();
        assert(stored_data <= have * 4096);
    }
    assert(model.configure(cfg).words =~= model.words);
    lemma_configure_wf(model, cfg);
    crate::adoption::lemma_take_over_frame(model.configure(cfg));
    assert forall|field: int| 0 <= field < PAGE_WORDS implies model.configure(
        cfg,
    ).take_over().words[field] == model.words[field] by {
        if model.configure(cfg).take_over().words[field] != model.words[field] {
            let slot = choose|slot: int|
                0 <= slot < model.configure(cfg).entries() && field == #[trigger] length_word(slot);
        }
    }
}

/// Configuration gives a head whose rings have their sizes and their
/// places in the region, and whose header tells the size of the
/// descriptor ring.
pub proof fn lemma_configure_wf(model: HeadModel, cfg: ConfigureFileView)
    requires
        model.inv(),
        model.accepts(cfg),
    ensures
        model.configure(cfg).wf(),
        model.configure(cfg).separated(),
        model.configure(cfg).header(HEADER_ENTRY_MASK as int) == model.configure(
            cfg,
        ).cache.entry_mask,
        model.configure(cfg).cache.page_write_offset == cfg.initial_offset,
        model.configure(cfg).data() == cfg.data,
        model.configure(cfg).entries() == cfg.entries,
{
    lemma_pages_fit(model);
}

/// A writer that is configured over a region, whatever the region holds,
/// starts with bookkeeping that matches the region, unless the write
/// offset is within one data ring of the end of its word: the data of no
/// two valid descriptors shares a byte, and every commit keeps it so.
pub proof fn lemma_configure_consistent(model: HeadModel, cfg: ConfigureFileView)
    requires
        model.inv(),
        model.accepts(cfg),
        cfg.initial_offset + cfg.data <= u64::MAX,
    ensures
        model.configure(cfg).take_over().consistent(),
{
    lemma_configure_wf(model, cfg);
    crate::adoption::lemma_take_over_consistent(model.configure(cfg));
}

/// An enumeration yields exactly the descriptors with a length that is
/// not zero: a snapshot is among those found in the first slots if and
/// only if one of these slots holds it and it is valid.
pub proof fn lemma_valid_exact(model: HeadModel, upto: int, snapshot: Snapshot)
    ensures
        model.valid_upto(upto).contains(snapshot) <==> snapshot.length != 0 && exists|slot: int|
            0 <= slot < upto && #[trigger] model.descriptor(slot) == snapshot,
    decreases upto,
{
    if upto <= 0 {
        assert(!model.valid_upto(upto).contains(snapshot));
    } else {
        lemma_valid_exact(model, upto - 1, snapshot);
        let rest = model.valid_upto(upto - 1);
        let found = model.descriptor(upto - 1);
        if found.length != 0 {
            assert(model.valid_upto(upto) == rest.push(found));
            if rest.push(found).contains(snapshot) {
                let at = choose|at: int| 0 <= at < rest.push(found).len() && rest.push(found)[at]
                    == snapshot;
                if at < rest.len() {
                    assert(rest[at] == snapshot);
                    assert(rest.contains(snapshot));
                } else {
                    assert(found == snapshot);
                }
            }
            if snapshot.length != 0 && exists|slot: int|
                0 <= slot < upto && #[trigger] model.descriptor(slot) == snapshot {
                let slot = choose|slot: int|
                    0 <= slot < upto && #[trigger] model.descriptor(slot) == snapshot;
                if slot < upto - 1 {
                    assert(rest.contains(snapshot));
                    let at = choose|at: int| 0 <= at < rest.len() && rest[at] == snapshot;
                    assert(rest.push(found)[at] == snapshot);
                } else {
                    assert(rest.push(found)[rest.len() as int] == snapshot);
                }
            }
        } else {
            if snapshot.length != 0 && exists|slot: int|
                0 <= slot < upto && #[trigger] model.descriptor(slot) == snapshot {
                let slot = choose|slot: int|
                    0 <= slot < upto && #[trigger] model.descriptor(slot) == snapshot;
                assert(slot < upto - 1);
            }
        }
    }
}

/// Retaining changes nothing but lengths of descriptors it visits: the
/// offsets, the header and every byte of data stay.
pub proof fn lemma_retain_frame<C: Collect<Snapshot>>(model: HeadModel, sink: &C, upto: int)
    requires
        0 <= upto,
        PAGE_WORDS + 2 * upto <= model.words.len(),
    ensures
        model.retain_upto(sink, upto).cache == model.cache,
        model.retain_upto(sink, upto).spans == model.spans,
        model.retain_upto(sink, upto).words.len() == model.words.len(),
        forall|at: int|
            0 <= at < model.words.len() && !(exists|slot: int|
                0 <= slot < upto && at == #[trigger] length_word(slot))
                ==> #[trigger] model.retain_upto(sink, upto).words[at] == model.words[at],
        forall|slot: int|
            0 <= slot < upto ==> #[trigger] model.retain_upto(sink, upto).descriptor(slot) == if sink.keeps(
                model.descriptor(slot),
            ) {
                model.descriptor(slot)
            } else {
                Snapshot { offset: model.descriptor(slot).offset, length: 0 }
            },
{
    let after = model.retain_upto(sink, upto);
    assert forall|at: int|
        0 <= at < model.words.len() && !(exists|slot: int|
            0 <= slot < upto && at == #[trigger] length_word(slot))
            implies #[trigger] after.words[at] == model.words[at] by {
        if model.is_dropped(sink, upto, at) {
            let slot = (at - PAGE_WORDS) / 2;
            assert(0 <= slot < upto && at == length_word(slot));
        }
    }
    assert forall|slot: int| 0 <= slot < upto implies #[trigger] after.descriptor(slot) == if sink.keeps(
        model.descriptor(slot),
    ) {
        model.descriptor(slot)
    } else {
        Snapshot { offset: model.descriptor(slot).offset, length: 0 }
    } by {
        assert(!model.is_dropped(sink, upto, offset_word(slot)));
        assert((length_word(slot) - PAGE_WORDS) / 2 == slot);
    }
}

/// What is still valid after retaining is what was valid before and the
/// sink asked to keep, in the same order.
pub proof fn lemma_retain_valid<C: Collect<Snapshot>>(
    model: HeadModel,
    sink: &C,
    upto: int,
    seen: int,
)
    requires
        0 <= seen <= upto,
        PAGE_WORDS + 2 * upto <= model.words.len(),
    ensures
        model.retain_upto(sink, upto).valid_upto(seen) == model.valid_upto(seen).filter(
            |snapshot: Snapshot| sink.keeps(snapshot),
        ),
    decreases seen,
{
    let keep = |snapshot: Snapshot| sink.keeps(snapshot);
    let after = model.retain_upto(sink, upto);
    if seen == 0 {
        assert(model.valid_upto(0).filter(keep) =~= Seq::<Snapshot>::empty());
    } else {
        lemma_retain_valid(model, sink, upto, seen - 1);
        lemma_retain_frame(model, sink, upto);
        let rest = model.valid_upto(seen - 1);
        let found = model.descriptor(seen - 1);
        assert(after.descriptor(seen - 1) == if sink.keeps(found) {
            found
        } else {
            Snapshot { offset: found.offset, length: 0 }
        });
        if found.length != 0 {
            assert(model.valid_upto(seen) == rest.push(found));
            assert(rest.push(found).drop_last() =~= rest);
            reveal(Seq::filter);
            assert(rest.push(found).filter(keep) == if keep(found) {
                rest.filter(keep).push(found)
            } else {
                rest.filter(keep)
            });
        }
    }
}

} // verus!
