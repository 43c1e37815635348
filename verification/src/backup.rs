//! Backups of a region that a writer keeps writing to.
//!
//! A backup copies the whole region while the writer runs. To know what
//! the copy is worth, the valid descriptors are enumerated twice: in the
//! region before the copy is made, and in the copy. A descriptor that was
//! valid before the copy began certifies that its data was written by
//! then. A descriptor that is still valid in the copy certifies that the
//! writer had not taken it back when the copy read it. Only snapshots
//! with both certificates are kept in the copy; if none is left the copy
//! is of no use.
use vstd::prelude::*;
use crate::model::{lemma_pages_fit, HeadModel};
use crate::layout::PAGE_WORDS;
use crate::memory::{extends_with, lemma_extends_self, MemoryOrder, WordStore};
use crate::recovery_proofs::{lemma_retain_frame, lemma_retain_valid};
use crate::snapshot::{Collect, ConfigureFile, Retain, Snapshot};
use crate::writer::File;

verus! {

/// What is to become of a copy.
#[derive(Clone, Copy, Debug, PartialEq, Eq, Structural)]
pub enum BackupAction {
    /// No snapshot in the copy is known to be whole: drop the copy.
    Discard,
    /// The copy holds at least one snapshot that is known to be whole: put
    /// it in the place of the backup.
    Persist,
}

/// The first half of a backup: what was valid before the copy was made.
pub struct Sandwich {
    seen: Vec<Snapshot>,
}

impl View for Sandwich {
    type V = Seq<Snapshot>;

    closed spec fn view(&self) -> Seq<Snapshot> {
        self.seen@
    }
}

impl HeadModel {
    /// Whether a configuration can be recovered from the head, and that
    /// `cfg` is it.
    pub open spec fn recovers(self, cfg: ConfigureFile) -> bool {
        self.discoverable() && self.discovers(cfg@) && self.accepts(cfg@)
    }

    /// Whether nothing can be recovered from the head.
    pub open spec fn is_blank(self) -> bool {
        !self.discoverable() || forall|cfg: ConfigureFile|
            self.discovers(cfg@) ==> !self.accepts(cfg@)
    }
}

impl Sandwich {
    /// Enumerate what is valid in `live`, before it is copied.
    ///
    /// A region that no configuration can be recovered from has nothing
    /// valid.
    pub fn before_copy<M: WordStore<u64>>(live: &mut File<M>) -> (first: Self)
        requires
            old(live)@.inv(),
        ensures
            final(live)@ == old(live)@,
            final(live).stores() == old(live).stores(),
            old(live)@.is_blank() ==> first@.len() == 0,
            forall|cfg: ConfigureFile|
                old(live)@.recovers(cfg) ==> first@ == old(live)@.valid_upto(cfg@.entries as int),
    {
        let mut seen: Vec<Snapshot> = Vec::new();
        let mut cfg = ConfigureFile::default();
        let ghost before = live@;
        match live.recover(&mut cfg) {
            Some(recovery) => {
                recovery.valid(&mut seen);
                proof {
                    assert forall|other: ConfigureFile| before.recovers(other) implies seen@
                        == before.valid_upto(other@.entries as int) by {
                        crate::layout::lemma_fitting_power_of_two_unique(
                            other@.entries,
                            cfg@.entries,
                            (before.header(crate::layout::HEADER_ENTRY_MASK as int) + 1) as u64,
                        );
                        assert(seen@ =~= before.valid_upto(cfg@.entries as int));
                    }
                }
            },
            None => {
                proof {
                    if before.discoverable() {
                        assert forall|other: ConfigureFile| before.discovers(other@) implies 
                            !before.accepts(other@) by {
                            lemma_discovery_unique(before, other@, cfg@);
                        }
                    }
                }
            },
        }
        Sandwich { seen }
    }

    /// Keep in `copy` the snapshots that were valid before the copy was
    /// made, and say what is to become of the copy.
    ///
    /// Every descriptor of the copy that is valid but was not seen before
    /// is invalidated; nothing else in the copy changes. What is left
    /// valid is returned. The copy is worth keeping if that is anything at
    /// all.
    #[verifier::rlimit(40)]
    pub fn after_copy<M: WordStore<u64>>(&self, copy: &mut File<M>) -> (outcome: (
        BackupAction,
        Vec<Snapshot>,
    ))
        requires
            old(copy)@.inv(),
        ensures
            final(copy)@.inv(),
            extends_with(old(copy).stores(), final(copy).stores(), MemoryOrder::Relaxed),
            outcome.0 == if outcome.1@.len() == 0 {
                BackupAction::Discard
            } else {
                BackupAction::Persist
            },
            old(copy)@.is_blank() ==> final(copy)@ == old(copy)@ && outcome.1@.len() == 0,
            forall|cfg: ConfigureFile|
                old(copy)@.recovers(cfg) ==> {
                    &&& final(copy)@ == old(copy)@.retain_by(&self.seen(), cfg@.entries as int)
                    &&& outcome.1@ == old(copy)@.valid_upto(cfg@.entries as int).filter(
                        |snapshot: Snapshot| self@.contains(snapshot),
                    )
                    &&& outcome.1@ == final(copy)@.valid_upto(cfg@.entries as int)
                },
    {
        let mut kept: Vec<Snapshot> = Vec::new();
        let mut cfg = ConfigureFile::default();
        let ghost before = copy@;
        proof {
            lemma_extends_self(copy.stores());
        }
        match copy.recover(&mut cfg) {
            Some(recovery) => {
                let mut recovery = recovery;
                proof {
                    lemma_pages_fit(before);
                    let sink = Retain::keeping(&self.seen);
                    let n = cfg@.entries as int;
                    assert(PAGE_WORDS + 2 * n <= before.words.len()) by {
                        let need = before.set_up(cfg@).sequence_need();
                        assert(n <= need * 256);
                    }
                    lemma_retain_valid(before, &sink, n, n);
                    lemma_retain_frame(before, &sink, n);
                    assert(before.valid_upto(n).filter(|snapshot: Snapshot| sink.keeps(snapshot))
                        == before.valid_upto(n).filter(
                        |snapshot: Snapshot| self@.contains(snapshot),
                    )) by {
                        assert((|snapshot: Snapshot| sink.keeps(snapshot)) =~= (|
                            snapshot: Snapshot,
                        | self@.contains(snapshot)));
                    }
                }
                recovery.retain(&self.seen);
                recovery.valid(&mut kept);
                proof {
                    assert forall|other: ConfigureFile| before.recovers(other) implies other@.entries
                        == cfg@.entries by {
                        lemma_discovery_unique(before, other@, cfg@);
                    }
                    assert(kept@ =~= recovery.file@.valid_upto(cfg@.entries as int));
                }
            },
            None => {
                proof {
                    if before.discoverable() {
                        assert forall|other: ConfigureFile| before.discovers(other@) implies 
                            !before.accepts(other@) by {
                            lemma_discovery_unique(before, other@, cfg@);
                        }
                    }
                }
            },
        }
        let action = if kept.len() == 0 {
            BackupAction::Discard
        } else {
            BackupAction::Persist
        };
        (action, kept)
    }

    /// The snapshots that were valid before the copy was made.
    pub closed spec fn seen(&self) -> Vec<Snapshot> {
        self.seen
    }

    /// The snapshots that were valid before the copy was made.
    pub fn snapshots(&self) -> (seen: &Vec<Snapshot>)
        ensures
            seen@ == self@,
    {
        &self.seen
    }
}

/// A head is discovered as one configuration only.
pub proof fn lemma_discovery_unique(
    model: HeadModel,
    one: crate::snapshot::ConfigureFileView,
    other: crate::snapshot::ConfigureFileView,
)
    requires
        model.discovers(one),
        model.discovers(other),
    ensures
        one == other,
{
    let stored: u64 = (model.header(crate::layout::HEADER_ENTRY_MASK as int) + 1) as u64;
    crate::layout::lemma_fitting_power_of_two_unique(one.entries, other.entries, stored);
    let space = model.data_space() as u64;
    let a = choose|available: u64|
        {
            &&& #[trigger] crate::layout::is_fitting_power_of_two(available, space)
            &&& one.data == if available <= model.header(crate::layout::HEADER_PAGE_MASK as int) {
                available
            } else {
                (model.header(crate::layout::HEADER_PAGE_MASK as int) + 1) as u64
            }
        };
    let b = choose|available: u64|
        {
            &&& #[trigger] crate::layout::is_fitting_power_of_two(available, space)
            &&& other.data == if available <= model.header(crate::layout::HEADER_PAGE_MASK as int) {
                available
            } else {
                (model.header(crate::layout::HEADER_PAGE_MASK as int) + 1) as u64
            }
        };
    crate::layout::lemma_fitting_power_of_two_unique(a, b, space);
}

/// What a filter keeps is what was there and passes the filter.
pub proof fn lemma_filter_exact(all: Seq<Snapshot>, keep: spec_fn(Snapshot) -> bool, one: Snapshot)
    ensures
        all.filter(keep).contains(one) <==> all.contains(one) && keep(one),
    decreases all.len(),
{
    reveal(Seq::filter);
    if all.len() == 0 {
        assert(!all.filter(keep).contains(one));
    } else {
        let rest = all.drop_last();
        lemma_filter_exact(rest, keep, one);
        if all.contains(one) {
            let at = choose|at: int| 0 <= at < all.len() && all[at] == one;
            if at < rest.len() {
                assert(rest[at] == one);
                assert(rest.contains(one));
            }
        }
        if rest.contains(one) {
            let at = choose|at: int| 0 <= at < rest.len() && rest[at] == one;
            assert(all[at] == one);
        }
        if keep(all.last()) {
            let kept = rest.filter(keep);
            assert(all.filter(keep) == kept.push(all.last()));
            if kept.push(all.last()).contains(one) {
                let at = choose|at: int|
                    0 <= at < kept.push(all.last()).len() && kept.push(all.last())[at] == one;
                if at < kept.len() {
                    assert(kept[at] == one);
                    assert(kept.contains(one));
                } else {
                    assert(all[all.len() - 1] == one);
                }
            }
            if kept.contains(one) {
                let at = choose|at: int| 0 <= at < kept.len() && kept[at] == one;
                assert(kept.push(all.last())[at] == one);
            }
            if all.last() == one {
                assert(kept.push(all.last())[kept.len() as int] == one);
            }
        } else {
            assert(all.filter(keep) == rest.filter(keep));
        }
    }
}

/// A snapshot that the second half of a backup keeps was valid before the
/// copy was made, is valid in the copy, and stays valid in it. The second
/// half changes no byte of the data ring of the copy: the data of what is
/// kept is what the copy took from the region.
#[verifier::rlimit(40)]
pub proof fn lemma_sandwich_sound<C: Collect<Snapshot>>(
    copy: HeadModel,
    cfg: crate::snapshot::ConfigureFileView,
    seen: Seq<Snapshot>,
    sink: &C,
    snapshot: Snapshot,
)
    requires
        copy.inv(),
        copy.accepts(cfg),
        forall|other: Snapshot| sink.keeps(other) == seen.contains(other),
        copy.valid_upto(cfg.entries as int).filter(
            |other: Snapshot| seen.contains(other),
        ).contains(snapshot),
    ensures
        seen.contains(snapshot),
        copy.valid_upto(cfg.entries as int).contains(snapshot),
        copy.retain_upto(sink, cfg.entries as int).valid_upto(cfg.entries as int).contains(
            snapshot,
        ),
        forall|idx: u64| #[trigger]
            copy.retain_upto(sink, cfg.entries as int).alternate(cfg).byte_at(idx)
                == copy.alternate(cfg).byte_at(idx),
{
    let n = cfg.entries as int;
    let after = copy.retain_upto(sink, n);
    let keep = |other: Snapshot| seen.contains(other);
    lemma_pages_fit(copy);
    assert(PAGE_WORDS + 2 * n <= copy.words.len()) by {
        let need = copy.set_up(cfg).sequence_need();
        assert(n <= need * 256);
    }
    lemma_filter_exact(copy.valid_upto(n), keep, snapshot);
    lemma_retain_valid(copy, sink, n, n);
    lemma_retain_frame(copy, sink, n);
    assert((|other: Snapshot| sink.keeps(other)) =~= keep);
    let before_head = copy.alternate(cfg);
    let after_head = after.alternate(cfg);
    assert(before_head.wf());
    assert forall|idx: u64| #[trigger] after_head.byte_at(idx) == before_head.byte_at(idx) by {
        crate::model::lemma_position_bounds(before_head, idx);
        let pos = before_head.position(idx);
        crate::model::lemma_byte_word_bounds(before_head, pos);
        let at = before_head.byte_word(pos);
        assert(!(exists|slot: int| 0 <= slot < n && at == #[trigger] crate::model::length_word(
            slot,
        ))) by {
            let need = copy.set_up(cfg).sequence_need();
            assert(at >= PAGE_WORDS + PAGE_WORDS * need);
        }
        assert(after.words[at] == copy.words[at]);
    }
}

} // verus!
