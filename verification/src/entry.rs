//! An entry being written: reserved, streamed, and then committed or dropped.
use vstd::prelude::*;
use crate::head::{Head, WriteHead};
use crate::model::{wrap, HeadCache, HeadModel};
use crate::layout::HEADER_WRITE_OFFSET;
use crate::memory::{
    extends_with,
    lemma_extends_push,
    lemma_extends_self,
    MemoryOrder,
    Store,
    WordStore,
};
use crate::snapshot::{CommitFailure, Snapshot};

verus! {

/// An entry of the descriptor ring that is being written.
///
/// The entry borrows the head for as long as it lives, so at most one is
/// in flight. Dropping it without a commit publishes nothing; what was
/// streamed stays reserved.
pub struct Entry<'lt, M> {
    /// The entry number the commit will publish under.
    pub index: u64,
    /// The logical offset the data of the entry starts at.
    pub offset: u64,
    /// Bytes streamed into the entry so far.
    pub length: u64,
    /// The head the entry writes through.
    pub head: &'lt mut WriteHead<M>,
}

impl HeadModel {
    /// The write that records in the header how far the data ring was
    /// written when an entry is given up.
    pub open spec fn abort_store(self) -> Store<u64> {
        Store {
            index: HEADER_WRITE_OFFSET as int,
            value: self.cache.page_write_offset,
            order: MemoryOrder::Relaxed,
        }
    }

    /// The head after an entry was given up: nothing is published, and
    /// the write offset, which stays behind what was reserved, is stored
    /// to the header.
    pub open spec fn abort(self) -> HeadModel {
        self.with_words(
            self.words.update(HEADER_WRITE_OFFSET as int, self.cache.page_write_offset),
        )
    }

    /// The head after `snap` was committed as entry `index`: the descriptor
    /// is published, the write offset is stored to the header, and the write
    /// cursor of the descriptor ring moves on.
    pub open spec fn commit(self, index: u64, snap: Snapshot) -> HeadModel {
        let published = self.insert_at(index, snap);
        HeadModel {
            cache: HeadCache { entry_write_offset: wrap(index + 1), ..self.cache },
            words: published.words.update(
                HEADER_WRITE_OFFSET as int,
                self.cache.page_write_offset,
            ),
            ..self
        }
    }
}

impl<M: WordStore<u64>> WriteHead<M> {
    /// Start an entry at the write cursors.
    pub fn entry(&mut self) -> (entry: Entry<'_, M>)
        ensures
            entry.index == old(self)@.cache.entry_write_offset,
            entry.offset == old(self)@.cache.page_write_offset,
            entry.length == 0,
            entry.head@ == old(self)@,
            entry.head.stores() == old(self).stores(),
            final(self)@ == final(entry.head)@,
            final(self).stores() == final(entry.head).stores(),
    {
        let index: u64 = self.cache().entry_write_offset;
        let offset: u64 = self.cache().page_write_offset;
        Entry { head: self, length: 0, index, offset }
    }
}

impl<'lt, M: WordStore<u64>> Entry<'lt, M> {
    /// The logical offset that a payload of `n` bytes would end at.
    pub fn new_write_offset(&self, n: usize) -> (end: Option<u64>)
        ensures
            end == old(self.head)@.new_write_offset(n as int),
    {
        self.head.new_write_offset(n)
    }

    /// Invalidate the oldest entries until the data ring may be written up
    /// to logical offset `end`.
    pub fn invalidate_heads(&mut self, end: u64)
        requires
            old(self).head@.wf(),
        ensures
            final(self).head@ == old(self).head@.invalidate_heads_to(end),
            final(self).head@.wf(),
            final(self).head.stores() == old(self).head.stores() + old(
                self,
            ).head@.invalidate_stores(end),
            final(self).index == old(self).index,
            final(self).offset == old(self).offset,
            final(self).length == old(self).length,
            *final(final(self).head) == *final(old(self).head),
    {
        self.head.invalidate_heads_to(end);
    }

    /// Stream `data` into the entry.
    pub fn copy_from_slice(&mut self, data: &[u8])
        requires
            old(self).head@.wf(),
            old(self).length + data@.len() <= u64::MAX,
        ensures
            final(self).head@ == old(self).head@.copy_from_slice(data@),
            final(self).head@.wf(),
            final(self).head.stores() == old(self).head.stores() + old(
                self,
            ).head@.stream_stores(old(self).head@.cache.page_write_offset, data@),
            final(self).index == old(self).index,
            final(self).offset == old(self).offset,
            final(self).length == old(self).length + data@.len(),
            *final(final(self).head) == *final(old(self).head),
    {
        let count: u64 = self.head.copy_from_slice(data);
        self.length += count;
    }

    /// Consume the entry, putting it into the descriptor ring.
    ///
    /// The offset is stored before the length, both with release ordering,
    /// so that an observer who sees the length sees the offset. The write
    /// offset goes to the header afterwards. Returns the entry number.
    pub fn commit(self) -> (index: u64)
        requires
            old(self.head)@.wf(),
        ensures
            index == self.index,
            final(self.head)@ == old(self.head)@.commit(
                self.index,
                Snapshot { offset: self.offset, length: self.length },
            ),
            final(self.head)@.wf(),
            final(self.head).stores() == old(self.head).stores() + old(self.head)@.commit_stores(
                self.index,
                Snapshot { offset: self.offset, length: self.length },
            ),
    {
        self.head.publish(self.index, Snapshot { length: self.length, offset: self.offset });
        self.index
    }

    /// Consume the entry without publishing it.
    ///
    /// What was reserved for the entry stays reserved: the write offset is
    /// stored to the header as it stands, so that the bytes are lost also
    /// to whoever recovers the region.
    pub fn abort(self)
        requires
            old(self.head)@.wf(),
        ensures
            final(self.head)@ == old(self.head)@.abort(),
            final(self.head)@.wf(),
            final(self.head).stores() == old(self.head).stores().push(
                old(self.head)@.abort_store(),
            ),
    {
        self.head.abandon();
    }
}

/// The words of the region behind the data ring, which belong to the caller.
pub struct Tail<'lt, M> {
    /// The head the tail is reached through.
    pub head: &'lt mut WriteHead<M>,
}

impl<'lt, M: WordStore<u64>> Tail<'lt, M> {
    /// Number of words in the tail.
    pub fn len(&self) -> (len: usize)
        requires
            old(self.head)@.inv(),
        ensures
            len == old(self.head)@.tail_len(),
    {
        self.head.tail_len()
    }

    /// Read word `idx` of the tail.
    pub fn load(&self, idx: usize, order: MemoryOrder) -> (word: u64)
        requires
            old(self.head)@.inv(),
            idx < old(self.head)@.tail_len(),
        ensures
            word == old(self.head)@.words[old(self.head)@.tail_word(idx as int)],
    {
        self.head.tail_load(idx, order)
    }

    /// Overwrite word `idx` of the tail.
    pub fn store(&mut self, idx: usize, value: u64, order: MemoryOrder)
        requires
            old(self).head@.inv(),
            idx < old(self).head@.tail_len(),
        ensures
            final(self).head@ == old(self).head@.with_words(
                old(self).head@.words.update(old(self).head@.tail_word(idx as int), value),
            ),
            final(self).head@.inv(),
            final(self).head.stores() == old(self).head.stores().push(
                Store { index: old(self).head@.tail_word(idx as int), value, order },
            ),
            *final(final(self).head) == *final(old(self).head),
    {
        self.head.tail_store(idx, value, order);
    }
}

/// An unfinished entry in a writer's ring, which can be atomically committed.
///
/// The data of the entry is in the data ring, but no descriptor points at
/// it yet. The holder may replace the data and use the tail before deciding
/// whether the entry is to be published.
pub struct PreparedTransaction<'lt, M> {
    /// The logical offset the data of the entry starts at.
    pub offset: u64,
    /// The length of the data that was reserved.
    pub length: u64,
    /// The head the entry was written through.
    pub head: &'lt mut WriteHead<M>,
}

impl<'lt, M: WordStore<u64>> PreparedTransaction<'lt, M> {
    /// Overwrite the start of the reserved data with `data`, which must not
    /// be longer than what was reserved.
    #[verifier::rlimit(40)]
    pub fn replace(&mut self, data: &[u8])
        requires
            old(self).head@.wf(),
            data@.len() <= old(self).length,
        ensures
            final(self).head@ == old(self).head@.write_bytes(old(self).offset, data@),
            final(self).head@.wf(),
            extends_with(
                old(self).head.stores(),
                final(self).head.stores(),
                MemoryOrder::Relaxed,
            ),
            final(self).offset == old(self).offset,
            final(self).length == old(self).length,
            *final(final(self).head) == *final(old(self).head),
    {
        let start: u64 = self.offset;
        let mut n: u64 = start;
        let mut i: usize = 0;
        let ghost before = self.head@;
        proof {
            lemma_extends_self(self.head.stores());
        }
        while i < data.len()
            invariant
                i <= data.len(),
                n == wrap(start + i),
                self.head@ == before.write_bytes(start, data@.take(i as int)),
                self.head@.wf(),
                extends_with(old(self).head.stores(), self.head.stores(), MemoryOrder::Relaxed),
                self.offset == old(self).offset,
                self.length == old(self).length,
                *final(self.head) == *final(old(self).head),
            decreases data.len() - i,
        {
            proof {
                assert(data@.take(i + 1).drop_last() =~= data@.take(i as int));
                crate::model::lemma_write_at_frame(self.head@, n, data@[i as int]);
                crate::ring_arith::lemma_wrap_next(start + i);
                lemma_extends_push(
                    old(self).head.stores(),
                    self.head.stores(),
                    self.head@.write_at_store(n, data@[i as int]),
                );
            }
            self.head.write_at(n, data[i]);
            n = n.wrapping_add(1);
            i += 1;
        }
        proof {
            assert(data@.take(data@.len() as int) =~= data@);
        }
    }

    /// The words behind the data ring.
    pub fn tail(&mut self) -> (tail: Tail<'_, M>)
        ensures
            tail.head@ == old(self).head@,
            tail.head.stores() == old(self).head.stores(),
            final(self).head@ == final(tail.head)@,
            final(self).head.stores() == final(tail.head).stores(),
            final(self).offset == old(self).offset,
            final(self).length == old(self).length,
            *final(final(self).head) == *final(old(self).head),
    {
        Tail { head: &mut *self.head }
    }
}

impl HeadModel {
    /// The head after a successful commit of `bytes`.
    pub open spec fn committed(self, bytes: Seq<u8>) -> HeadModel {
        self.reserve(bytes).commit(
            self.cache.entry_write_offset,
            Snapshot { offset: self.cache.page_write_offset, length: bytes.len() as u64 },
        )
    }

    /// The writes that reserve room for `bytes` and stream them in: the
    /// invalidations first, then the data, all relaxed.
    pub open spec fn reserve_stores(self, bytes: Seq<u8>) -> Seq<Store<u64>> {
        let end = wrap(self.cache.page_write_offset + bytes.len());
        self.invalidate_stores(end) + self.invalidate_heads_to(end).stream_stores(
            self.cache.page_write_offset,
            bytes,
        )
    }

    /// The writes of a successful commit of `bytes`, in the order they are
    /// made: the invalidations that make room, the data, and then, last of
    /// all, the release of the offset, the release of the length, and the
    /// write offset for the header.
    pub open spec fn commit_stores_of(self, bytes: Seq<u8>) -> Seq<Store<u64>> {
        self.reserve_stores(bytes) + self.reserve(bytes).commit_stores(
            self.cache.entry_write_offset,
            Snapshot { offset: self.cache.page_write_offset, length: bytes.len() as u64 },
        )
    }

    /// The head after room was made for `bytes` and they were streamed in
    /// at the write cursor.
    pub open spec fn reserve(self, bytes: Seq<u8>) -> HeadModel {
        self.invalidate_heads_to(wrap(self.cache.page_write_offset + bytes.len())).copy_from_slice(
            bytes,
        )
    }

    /// Whether a write of `n` bytes is turned away for want of capacity:
    /// the payload is larger than the mask of the data ring allows, the
    /// region holds no rings at all, or a cursor would have to wrap around
    /// the end of its word.
    pub open spec fn refuses(self, n: int) -> bool {
        !self.wf() || n > self.cache.page_mask || !self.has_room(n)
    }
}

impl<M: WordStore<u64>> Head<M> {
    /// Whether both rings fit the spans they are addressed through.
    pub fn is_ready(&self) -> (ready: bool)
        requires
            self@.inv(),
        ensures
            ready == self@.wf(),
    {
        proof {
            self.lemma_view();
        }
        self.head.can_hold()
    }

    /// Write `data` as a new entry, and publish it if `intermediate` agrees.
    ///
    /// Room is made by invalidating the oldest entries, the data is
    /// streamed in, and `intermediate` is called with the entry that is
    /// reserved but not yet published. If it returns a value the entry is
    /// committed, and its number is returned with the value. If it returns
    /// none nothing is published, but the cursors stay where the
    /// reservation left them and the write offset is stored to the header:
    /// the reserved bytes are lost.
    #[verifier::rlimit(40)]
    pub fn write_with<T, F: FnOnce(PreparedTransaction<'_, M>) -> Option<T>>(
        &mut self,
        data: &[u8],
        intermediate: F,
    ) -> (result: Result<(u64, T), CommitFailure>)
        requires
            old(self)@.inv(),
            !old(self)@.refuses(data@.len() as int) ==> forall|tx: PreparedTransaction<'_, M>|
                {
                    &&& tx.head@ == old(self)@.reserve(data@)
                    &&& tx.head.stores() == old(self).stores() + old(self)@.reserve_stores(data@)
                    &&& tx.offset == old(self)@.cache.page_write_offset
                    &&& tx.length == data@.len()
                } ==> #[trigger] call_requires(intermediate, (tx,)),
            !old(self)@.refuses(data@.len() as int) ==> forall|
                tx: PreparedTransaction<'_, M>,
                keep: Option<T>,
            |
                {
                    &&& tx.head@ == old(self)@.reserve(data@)
                    &&& tx.head.stores() == old(self).stores() + old(self)@.reserve_stores(data@)
                    &&& tx.offset == old(self)@.cache.page_write_offset
                    &&& tx.length == data@.len()
                    &&& #[trigger] call_ensures(intermediate, (tx,), keep)
                } ==> final(tx.head)@.wf(),
        ensures
            old(self)@.refuses(data@.len() as int) ==> {
                &&& result == Err::<(u64, T), CommitFailure>(CommitFailure::Capacity)
                &&& final(self)@ == old(self)@
                &&& final(self).stores() == old(self).stores()
            },
            !old(self)@.refuses(data@.len() as int) ==> exists|
                tx: PreparedTransaction<'_, M>,
                keep: Option<T>,
            |
                {
                    &&& tx.head@ == old(self)@.reserve(data@)
                    &&& tx.head.stores() == old(self).stores() + old(self)@.reserve_stores(data@)
                    &&& tx.offset == old(self)@.cache.page_write_offset
                    &&& tx.length == data@.len()
                    &&& #[trigger] call_ensures(intermediate, (tx,), keep)
                    &&& match keep {
                        Some(value) => {
                            &&& result == Ok::<(u64, T), CommitFailure>(
                                (old(self)@.cache.entry_write_offset, value),
                            )
                            &&& final(self)@ == final(tx.head)@.commit(
                                old(self)@.cache.entry_write_offset,
                                Snapshot { offset: tx.offset, length: tx.length },
                            )
                            &&& final(self).stores() == final(tx.head).stores()
                                + final(tx.head)@.commit_stores(
                                old(self)@.cache.entry_write_offset,
                                Snapshot { offset: tx.offset, length: tx.length },
                            )
                        },
                        None => {
                            &&& result == Err::<(u64, T), CommitFailure>(CommitFailure::Aborted)
                            &&& final(self)@ == final(tx.head)@.abort()
                            &&& final(self).stores() == final(tx.head).stores().push(
                                final(tx.head)@.abort_store(),
                            )
                        },
                    }
                    &&& old(self)@.consistent() && tx.head@.hook_kept(
                        final(tx.head)@,
                        tx.offset as int,
                    ) ==> final(self)@.consistent()
                },
            final(self)@.inv(),
    {
        proof {
            self.lemma_view();
        }
        if !self.head.can_hold() {
            return Err(CommitFailure::Capacity);
        }
        let end_ptr: u64 = match self.head.new_write_offset(data.len()) {
            Some(end) => end,
            None => {
                return Err(CommitFailure::Capacity);
            },
        };
        if !self.head.has_room(data.len()) {
            return Err(CommitFailure::Capacity);
        }
        let mut entry = self.head.entry();
        entry.invalidate_heads(end_ptr);
        proof {
            crate::model::lemma_invalidate_heads_frame(old(self)@, end_ptr);
        }
        entry.copy_from_slice(data);
        proof {
            assert(entry.head.stores() =~= old(self).stores() + old(self)@.reserve_stores(data@));
        }
        let keep: Option<T> = intermediate(
            PreparedTransaction {
                offset: entry.offset,
                length: entry.length,
                head: &mut *entry.head,
            },
        );
        proof {
            if old(self)@.consistent() && old(self)@.reserve(data@).hook_kept(
                entry.head@,
                old(self)@.cache.page_write_offset as int,
            ) {
                crate::tracking::lemma_hook_consistent(old(self)@, data@, entry.head@);
            }
        }
        let result: Result<(u64, T), CommitFailure> = match keep {
            Some(value) => Ok((entry.commit(), value)),
            None => {
                entry.abort();
                Err(CommitFailure::Aborted)
            },
        };
        proof {
            self.lemma_view();
        }
        result
    }

    /// Write `data` as a new entry and publish it.
    pub fn write(&mut self, data: &[u8]) -> (result: Result<u64, CommitFailure>)
        requires
            old(self)@.inv(),
        ensures
            old(self)@.refuses(data@.len() as int) ==> {
                &&& result == Err::<u64, CommitFailure>(CommitFailure::Capacity)
                &&& final(self)@ == old(self)@
                &&& final(self).stores() == old(self).stores()
            },
            !old(self)@.refuses(data@.len() as int) ==> {
                &&& result == Ok::<u64, CommitFailure>(old(self)@.cache.entry_write_offset)
                &&& final(self)@ == old(self)@.committed(data@)
                &&& old(self)@.consistent() ==> final(self)@.consistent()
                &&& final(self).stores() == old(self).stores() + old(self)@.commit_stores_of(
                    data@,
                )
            },
            final(self)@.inv(),
    {
        let hook = |tx: PreparedTransaction<'_, M>| -> (keep: Option<()>)
            requires
                old(tx.head)@.wf(),
            ensures
                keep == Some(()),
                *final(tx.head) == *old(tx.head),
            { Some(()) };
        proof {
            if self@.wf() {
                crate::model::lemma_reserve_wf(self@, data@);
            }
            if self@.consistent() && !self@.refuses(data@.len() as int) {
                crate::tracking::lemma_commit_consistent(self@, data@);
            }
        }
        let result = match self.write_with(data, hook) {
            Ok((index, _)) => Ok(index),
            Err(failure) => Err(failure),
        };
        proof {
            if !old(self)@.refuses(data@.len() as int) {
                assert(self.stores() =~= old(self).stores() + old(self)@.commit_stores_of(data@));
            }
        }
        result
    }
}

} // verus!
