//! The head of a snapshot log over a region: the word-level operations of
//! the protocol, and the operations of a file that are built from them.
use vstd::prelude::*;
use crate::entry::Tail;
use crate::lanes::{get_lane, set_lane};
use crate::layout::{
    fitting_power_of_two,
    is_fitting_power_of_two,
    is_pow2,
    is_power_of_two,
    lemma_mask_is_remainder,
    pages_for,
    HEADER_ENTRY_MASK,
    HEADER_PAGE_MASK,
    HEADER_VERSION,
    HEADER_WRITE_OFFSET,
    MAX_PAGES,
    PAGE_BYTES,
    PAGE_DESCRIPTORS,
    PAGE_WORDS,
};
use crate::memory::{
    extends_with,
    lemma_extends_by,
    lemma_extends_push,
    lemma_extends_self,
    MemoryOrder,
    Store,
    WordStore,
};
use crate::model::{
    lemma_descriptor_bounds,
    lemma_invalidate_stores_relaxed,
    lemma_stream_step,
    lemma_stream_stores_relaxed,
    lemma_pages_bytes,
    lemma_pages_fit,
    lemma_slot_bounds,
    lemma_write_at_frame,
    lemma_write_bytes_frame,
    length_word,
    offset_word,
    wrap,
    HeadCache,
    HeadModel,
    Spans,
};
use crate::snapshot::{Collect, ConfigureFile, Retain, RetainSnapshot, Snapshot};

verus! {

/// The head of a snapshot log over a region of 64-bit words.
pub struct WriteHead<M> {
    cache: HeadCache,
    spans: Spans,
    mem: M,
}

impl<M: WordStore<u64>> View for WriteHead<M> {
    type V = HeadModel;

    closed spec fn view(&self) -> HeadModel {
        HeadModel { cache: self.cache, spans: self.spans, words: self.mem.words() }
    }
}

impl<M: WordStore<u64>> WriteHead<M> {
    /// Every write made to the region, in the order they were made.
    pub closed spec fn stores(&self) -> Seq<Store<u64>> {
        self.mem.stores()
    }

    /// A head over the whole of `mem`, not yet configured.
    ///
    /// Both rings are addressed through all pages behind the header, and the
    /// tail is empty. A region too small for a header gives a head without
    /// pages.
    pub fn new(mem: M) -> (head: Self)
        ensures
            head@.words == mem.words(),
            head@.cache == HeadCache::zeroed(),
            head@.spans.sequence_pages == head@.pages(),
            head@.spans.data_first == 0,
            head@.spans.data_pages == head@.pages(),
            head@.spans.tail_first == 0,
            head@.spans.tail_pages == 0,
            head@.inv(),
            head.stores() == mem.stores(),
    {
        assert(1u64 & 0u64 == 0) by (bit_vector);
        let len: usize = mem.len();
        let pages: usize = if len >= PAGE_WORDS {
            let whole: usize = (len - PAGE_WORDS) / PAGE_WORDS;
            if whole as u64 <= MAX_PAGES {
                whole
            } else {
                MAX_PAGES as usize
            }
        } else {
            0
        };
        WriteHead {
            cache: HeadCache::new(),
            spans: Spans {
                sequence_pages: pages,
                data_first: 0,
                data_pages: pages,
                tail_first: 0,
                tail_pages: 0,
            },
            mem,
        }
    }

    /// Give up the head and return the region.
    pub fn into_memory(self) -> (mem: M)
        ensures
            mem.words() == self@.words,
            mem.stores() == self.stores(),
    {
        self.mem
    }

    /// The writer's cursors and masks.
    pub fn cache(&self) -> (cache: HeadCache)
        ensures
            cache == self@.cache,
    {
        self.cache
    }

    /// The pages this head addresses.
    pub fn spans(&self) -> (spans: Spans)
        ensures
            spans == self@.spans,
    {
        self.spans
    }

    /// Read a field of the header.
    pub fn header(&self, field: usize, order: MemoryOrder) -> (value: u64)
        requires
            field < PAGE_WORDS,
        ensures
            value == self@.header(field as int),
    {
        if self.mem.len() >= PAGE_WORDS {
            self.mem.load(field, order)
        } else if field == HEADER_VERSION {
            ConfigureFile::MAGIC_VERSION
        } else {
            0
        }
    }

    /// Index of the offset word of the descriptor of entry `idx`; the length
    /// word follows it.
    fn get_entry_atomic(&self, idx: u64) -> (at: usize)
        requires
            self@.wf(),
        ensures
            at == offset_word(self@.slot_of(idx)),
            at + 1 == length_word(self@.slot_of(idx)),
            at + 1 < self@.words.len(),
            0 <= self@.slot_of(idx) < self@.entries(),
    {
        let slot: u64 = idx & self.cache.entry_mask;
        proof {
            lemma_mask_is_remainder(idx, (self.cache.entry_mask + 1) as u64);
            lemma_pages_fit(self@);
            assert(slot == self@.slot_of(idx));
            assert(slot < self@.entries()) by {
                vstd::arithmetic::div_mod::lemma_mod_bound(idx as int, self@.entries());
            }
            assert(slot < self@.spans.sequence_pages * 256);
        }
        let page: u64 = slot / PAGE_DESCRIPTORS;
        let entry: u64 = slot % PAGE_DESCRIPTORS;
        assert(page < self@.spans.sequence_pages);
        assert(page < self@.pages());
        let page_at: usize = page as usize;
        let entry_at: usize = entry as usize;
        assert(512 * page_at + 2 * entry_at == 2 * slot) by {
            vstd::arithmetic::div_mod::lemma_fundamental_div_mod(slot as int, 256);
        }
        assert(512 + 512 * page_at + 512 <= self@.words.len());
        PAGE_WORDS + page_at * PAGE_WORDS + 2 * entry_at
    }

    /// Where the byte at logical offset `idx` lives in a head with the given
    /// cache: the page of the data ring, the word within that page, and the
    /// bit the byte starts at.
    fn idx_at(cache: &HeadCache, idx: u64, Ghost(model): Ghost<HeadModel>) -> (at: (
        usize,
        usize,
        u32,
    ))
        requires
            model.wf(),
            model.cache == *cache,
        ensures
            at.0 == model.position(idx) / 4096,
            at.1 == (model.position(idx) / 8) % 512,
            at.2 == 8 * (model.position(idx) % 8),
            at.0 < model.spans.data_pages,
            at.1 < PAGE_WORDS,
            0 <= model.position(idx) < model.data(),
            model.byte_word(model.position(idx)) == PAGE_WORDS + PAGE_WORDS * (
            model.spans.data_first + at.0) + at.1,
    {
        let pos: u64 = idx & cache.page_mask;
        proof {
            lemma_mask_is_remainder(idx, (cache.page_mask + 1) as u64);
            assert(pos == model.position(idx));
            assert(pos < model.data()) by {
                vstd::arithmetic::div_mod::lemma_mod_bound(idx as int, model.data());
            }
            assert(pos < model.spans.data_pages * 4096);
        }
        let offset: u64 = pos % 8;
        let word: u64 = pos / 8;
        let shift: u64 = 8 * offset;
        let in_page: u64 = word % (PAGE_WORDS as u64);
        let page: u64 = word / (PAGE_WORDS as u64);
        assert(page == pos / 4096) by {
            vstd::arithmetic::div_mod::lemma_div_denominator(pos as int, 8, 512);
        }
        assert(page < model.spans.data_pages);
        let data_idx: usize = in_page as usize;
        let page_idx: usize = page as usize;
        assert(512 * page_idx + data_idx == pos / 8) by {
            vstd::arithmetic::div_mod::lemma_fundamental_div_mod(word as int, 512);
        }
        (page_idx, data_idx, shift as u32)
    }

    /// Index of the word `data_idx` of page `page_idx` of the data ring of a
    /// head with the given spans.
    fn data_word(spans: &Spans, page_idx: usize, data_idx: usize, Ghost(model): Ghost<
        HeadModel,
    >) -> (at: usize)
        requires
            model.inv(),
            model.spans == *spans,
            page_idx < model.spans.data_pages,
            data_idx < PAGE_WORDS,
        ensures
            at == PAGE_WORDS + PAGE_WORDS * (model.spans.data_first + page_idx) + data_idx,
            at < model.words.len(),
    {
        proof {
            lemma_pages_fit(model);
        }
        let page: usize = spans.data_first + page_idx;
        assert(page < model.pages());
        assert(512 + 512 * page + 512 <= model.words.len());
        PAGE_WORDS + page * PAGE_WORDS + data_idx
    }

    /// Set the byte at logical offset `idx`.
    ///
    /// The word is read, the lane of the byte is replaced and the word is
    /// stored again, all relaxed.
    pub(crate) fn write_at(&mut self, idx: u64, byte: u8)
        requires
            old(self)@.wf(),
        ensures
            final(self)@ == old(self)@.write_at(idx, byte),
            final(self).stores() == old(self).stores().push(
                old(self)@.write_at_store(idx, byte),
            ),
    {
        let (page_idx, data_idx, shift) = Self::idx_at(&self.cache, idx, Ghost(self@));
        let at: usize = Self::data_word(&self.spans, page_idx, data_idx, Ghost(self@));
        let old_word: u64 = self.mem.load(at, MemoryOrder::Relaxed);
        let new_word: u64 = set_lane(old_word, (shift / 8) as u64, byte);
        self.mem.store(at, new_word, MemoryOrder::Relaxed);
    }

    /// The byte at logical offset `idx` of the data ring that `cache` and
    /// `spans` lay over `mem`, read relaxed.
    fn read_at_in(mem: &M, cache: &HeadCache, spans: &Spans, idx: u64) -> (byte: u8)
        requires
            (HeadModel { cache: *cache, spans: *spans, words: mem.words() }).wf(),
        ensures
            byte == (HeadModel { cache: *cache, spans: *spans, words: mem.words() }).byte_at(idx),
    {
        let ghost model = HeadModel { cache: *cache, spans: *spans, words: mem.words() };
        let (page_idx, data_idx, shift) = Self::idx_at(cache, idx, Ghost(model));
        let at: usize = Self::data_word(spans, page_idx, data_idx, Ghost(model));
        let word: u64 = mem.load(at, MemoryOrder::Relaxed);
        get_lane(word, (shift / 8) as u64)
    }

    /// The byte at logical offset `idx`, read relaxed.
    pub(crate) fn read_at(&self, idx: u64) -> (byte: u8)
        requires
            self@.wf(),
        ensures
            byte == self@.byte_at(idx),
    {
        Self::read_at_in(&self.mem, &self.cache, &self.spans, idx)
    }

    /// Copy the bytes of `snapshot` into `into`, as many as both hold, from
    /// the data ring that `cache` and `spans` lay over `mem`.
    #[verifier::rlimit(40)]
    fn read_in(mem: &M, cache: &HeadCache, spans: &Spans, snapshot: &Snapshot, into: &mut [u8])
        requires
            (HeadModel { cache: *cache, spans: *spans, words: mem.words() }).wf(),
        ensures
            (HeadModel { cache: *cache, spans: *spans, words: mem.words() }).reads(
                *snapshot,
                old(into)@,
                final(into)@,
            ),
    {
        let ghost model = HeadModel { cache: *cache, spans: *spans, words: mem.words() };
        let mut i: usize = 0;
        while i < into.len() && (i as u64) < snapshot.length
            invariant
                i <= into@.len(),
                i <= snapshot.length,
                into@.len() == old(into)@.len(),
                model == (HeadModel { cache: *cache, spans: *spans, words: mem.words() }),
                model.wf(),
                forall|j: int|
                    0 <= j < into@.len() ==> into@[j] == if j < i {
                        model.byte_at(wrap(snapshot.offset + j))
                    } else {
                        old(into)@[j]
                    },
            decreases into@.len() - i,
        {
            let idx: u64 = snapshot.offset.wrapping_add(i as u64);
            let byte: u8 = Self::read_at_in(mem, cache, spans, idx);
            into[i] = byte;
            i += 1;
        }
    }

    /// Invalidate the descriptor of entry `idx` and return the length it held.
    ///
    /// Invalidating a descriptor that is already invalid returns zero and
    /// changes nothing.
    fn invalidate_at(&mut self, idx: u64) -> (length: u64)
        requires
            old(self)@.wf(),
        ensures
            length == old(self)@.descriptor(old(self)@.slot_of(idx)).length,
            final(self)@ == old(self)@.invalidate_at(idx),
            length == 0 ==> final(self)@ == old(self)@,
            final(self).stores() == old(self).stores().push(old(self)@.invalidate_store(idx)),
    {
        let at: usize = self.get_entry_atomic(idx);
        let length: u64 = self.mem.swap(at + 1, 0, MemoryOrder::Relaxed);
        proof {
            if length == 0 {
                assert(final(self)@.words =~= old(self)@.words);
            }
        }
        length
    }

    /// Publish `snap` as entry `idx`: first the offset, then the length,
    /// both with release ordering. A length that is not zero is what makes
    /// the descriptor valid to an observer.
    fn insert_at(&mut self, idx: u64, snap: Snapshot)
        requires
            old(self)@.wf(),
        ensures
            final(self)@ == old(self)@.insert_at(idx, snap),
            final(self).stores() == old(self).stores() + old(self)@.insert_stores(idx, snap),
    {
        let at: usize = self.get_entry_atomic(idx);
        self.mem.store(at, snap.offset, MemoryOrder::Release);
        self.mem.store(at + 1, snap.length, MemoryOrder::Release);
        proof {
            assert(self.stores() =~= old(self).stores() + old(self)@.insert_stores(idx, snap));
        }
    }

    /// Publish `snap` as entry `index`, store the write offset to the header
    /// and move the write cursor of the descriptor ring behind the entry.
    pub(crate) fn publish(&mut self, index: u64, snap: Snapshot)
        requires
            old(self)@.wf(),
        ensures
            final(self)@.cache == (HeadCache {
                entry_write_offset: wrap(index + 1),
                ..old(self)@.cache
            }),
            final(self)@.spans == old(self)@.spans,
            final(self)@.words == old(self)@.insert_at(index, snap).words.update(
                HEADER_WRITE_OFFSET as int,
                old(self)@.cache.page_write_offset,
            ),
            final(self)@.wf(),
            final(self).stores() == old(self).stores() + old(self)@.commit_stores(index, snap),
    {
        proof {
            lemma_slot_bounds(self@, index);
            lemma_descriptor_bounds(self@, self@.slot_of(index));
        }
        self.insert_at(index, snap);
        self.mem.store(HEADER_WRITE_OFFSET, self.cache.page_write_offset, MemoryOrder::Relaxed);
        self.cache.entry_write_offset = index.wrapping_add(1);
        proof {
            assert(self.stores() =~= old(self).stores() + old(self)@.commit_stores(index, snap));
        }
    }

    /// Store the write offset to the header, relaxed, without publishing
    /// anything.
    pub(crate) fn abandon(&mut self)
        requires
            old(self)@.wf(),
        ensures
            final(self)@ == old(self)@.abort(),
            final(self)@.wf(),
            final(self).stores() == old(self).stores().push(old(self)@.abort_store()),
    {
        proof {
            lemma_pages_fit(self@);
        }
        self.mem.store(HEADER_WRITE_OFFSET, self.cache.page_write_offset, MemoryOrder::Relaxed);
    }

    /// The descriptor of entry `idx`, read relaxed.
    pub(crate) fn entry_at_relaxed(&self, idx: u64) -> (snap: Snapshot)
        requires
            self@.wf(),
        ensures
            snap == self@.descriptor(self@.slot_of(idx)),
    {
        let at: usize = self.get_entry_atomic(idx);
        Snapshot {
            offset: self.mem.load(at, MemoryOrder::Relaxed),
            length: self.mem.load(at + 1, MemoryOrder::Relaxed),
        }
    }
}

impl<M: WordStore<u64>> WriteHead<M> {
    /// Set the number of descriptors the cache is set up for.
    pub fn pre_configure_entries(&mut self, num: u64)
        requires
            old(self)@.inv(),
            is_power_of_two(num),
        ensures
            final(self)@ == old(self)@.with_cache(
                HeadCache { entry_mask: (num - 1) as u64, ..old(self)@.cache },
            ),
            final(self)@.inv(),
            final(self).stores() == old(self).stores(),
    {
        self.cache.entry_mask = num - 1;
    }

    /// Set the size in bytes of the data ring the cache is set up for.
    pub fn pre_configure_pages(&mut self, num: u64)
        requires
            old(self)@.inv(),
            is_power_of_two(num),
        ensures
            final(self)@ == old(self)@.with_cache(
                HeadCache { page_mask: (num - 1) as u64, ..old(self)@.cache },
            ),
            final(self)@.inv(),
            final(self).stores() == old(self).stores(),
    {
        self.cache.page_mask = num - 1;
    }

    /// Set the logical offset the next byte is written at.
    pub fn pre_configure_write(&mut self, offset: u64)
        requires
            old(self)@.inv(),
        ensures
            final(self)@ == old(self)@.with_cache(
                HeadCache { page_write_offset: offset, ..old(self)@.cache },
            ),
            final(self)@.inv(),
            final(self).stores() == old(self).stores(),
    {
        self.cache.page_write_offset = offset;
    }

    /// Whether both rings fit the spans they are addressed through.
    pub fn can_hold(&self) -> (fits: bool)
        requires
            self@.inv(),
        ensures
            fits == self@.wf(),
    {
        proof {
            lemma_pages_bytes(self@);
            lemma_pages_fit(self@);
        }
        let entries: u64 = self.cache.entry_mask + 1;
        let data: u64 = self.cache.page_mask + 1;
        let sequence: u64 = self.spans.sequence_pages as u64;
        let pages: u64 = self.spans.data_pages as u64;
        entries <= sequence * PAGE_DESCRIPTORS && data <= pages * PAGE_BYTES
    }

    /// Whether the rings the cache is set up for fit the pages of this head.
    pub fn can_configure(&self) -> (fits: bool)
        requires
            self@.inv(),
        ensures
            fits == self@.can_configure(),
    {
        let psequence: u64 = Self::pages_needed(self.cache.entry_mask, PAGE_DESCRIPTORS);
        let pdata: u64 = Self::pages_needed(self.cache.page_mask, PAGE_BYTES);
        let have_sequence: u64 = self.spans.sequence_pages as u64;
        let have_data: u64 = self.spans.data_pages as u64;
        psequence <= have_sequence && psequence <= have_data && pdata <= have_data - psequence
    }

    /// Pages needed for `mask + 1` units when a page holds `per_page` of them.
    fn pages_needed(mask: u64, per_page: u64) -> (need: u64)
        requires
            mask < u64::MAX,
            per_page == PAGE_DESCRIPTORS || per_page == PAGE_BYTES,
        ensures
            need == pages_for(mask + 1, per_page as int),
            1 <= need,
    {
        let count: u64 = mask + 1;
        let whole: u64 = count / per_page;
        if count % per_page != 0 {
            whole + 1
        } else {
            whole
        }
    }

    /// Cut the spans to the configured rings and write the configuration to
    /// the header.
    ///
    /// The masks and the write offset are stored relaxed. The magic is
    /// stored last, with release ordering: it is the one commit of the
    /// configuration.
    pub fn configure_pages(&mut self)
        requires
            old(self)@.inv(),
            old(self)@.can_configure(),
        ensures
            final(self)@ == old(self)@.configure_pages(),
            final(self)@.wf(),
            final(self)@.separated(),
            final(self).stores() == old(self).stores() + old(self)@.configure_stores(),
    {
        proof {
            lemma_pages_fit(self@);
        }
        let psequence: u64 = Self::pages_needed(self.cache.entry_mask, PAGE_DESCRIPTORS);
        let pdata: u64 = Self::pages_needed(self.cache.page_mask, PAGE_BYTES);
        let psequence: usize = psequence as usize;
        let pdata: usize = pdata as usize;
        let first: usize = self.spans.data_first + psequence;
        let data: u64 = self.cache.page_mask + 1;
        self.cache.page_read_offset = self.cache.page_write_offset.wrapping_add(data);
        self.spans = Spans {
            sequence_pages: psequence,
            data_first: first,
            data_pages: pdata,
            tail_first: first + pdata,
            tail_pages: self.spans.data_pages - psequence - pdata,
        };
        self.mem.store(HEADER_ENTRY_MASK, self.cache.entry_mask, MemoryOrder::Relaxed);
        self.mem.store(HEADER_PAGE_MASK, self.cache.page_mask, MemoryOrder::Relaxed);
        self.mem.store(HEADER_WRITE_OFFSET, self.cache.page_write_offset, MemoryOrder::Relaxed);
        self.mem.store(HEADER_VERSION, ConfigureFile::MAGIC_VERSION, MemoryOrder::Release);
        proof {
            assert(self.stores() =~= old(self).stores() + old(self)@.configure_stores());
        }
    }

    /// Whether the cursors can take a commit of `n` bytes without wrapping
    /// around the end of their words.
    pub fn has_room(&self, n: usize) -> (room: bool)
        requires
            self@.inv(),
        ensures
            room == self@.has_room(n as int),
    {
        if self.cache.entry_write_offset == u64::MAX {
            return false;
        }
        match self.cache.page_write_offset.checked_add(n as u64) {
            Some(end) => match end.checked_add(self.cache.page_mask) {
                Some(top) => top < u64::MAX,
                None => false,
            },
            None => false,
        }
    }

    /// The logical offset that a payload of `n` bytes would end at.
    ///
    /// There is none if the payload is larger than the mask of the data
    /// ring allows.
    pub fn new_write_offset(&self, n: usize) -> (end: Option<u64>)
        ensures
            end == self@.new_write_offset(n as int),
    {
        let len: u64 = n as u64;
        if len <= self.cache.page_mask {
            Some(self.cache.page_write_offset.wrapping_add(len))
        } else {
            None
        }
    }

    /// Stream `data` into the data ring at the write cursor and move the
    /// cursor behind it. Returns the number of bytes written.
    #[verifier::rlimit(40)]
    pub fn copy_from_slice(&mut self, data: &[u8]) -> (count: u64)
        requires
            old(self)@.wf(),
        ensures
            final(self)@ == old(self)@.copy_from_slice(data@),
            count == data@.len(),
            final(self)@.wf(),
            final(self).stores() == old(self).stores() + old(self)@.stream_stores(
                old(self)@.cache.page_write_offset,
                data@,
            ),
            extends_with(old(self).stores(), final(self).stores(), MemoryOrder::Relaxed),
    {
        let start: u64 = self.cache.page_write_offset;
        let mut n: u64 = start;
        let mut i: usize = 0;
        proof {
            assert(self.stores() =~= old(self).stores() + old(self)@.stream_stores(
                start,
                data@.take(0),
            ));
        }
        while i < data.len()
            invariant
                i <= data.len(),
                n == wrap(start + i),
                self@ == old(self)@.write_bytes(start, data@.take(i as int)),
                self@.wf(),
                self.stores() == old(self).stores() + old(self)@.stream_stores(
                    start,
                    data@.take(i as int),
                ),
            decreases data.len() - i,
        {
            proof {
                lemma_write_at_frame(self@, n, data@[i as int]);
                lemma_stream_step(old(self)@, start, data@, i as int);
                crate::ring_arith::lemma_wrap_next(start + i);
            }
            let ghost before = self.stores();
            let ghost streamed = old(self)@.stream_stores(start, data@.take(i as int));
            self.write_at(n, data[i]);
            proof {
                let next = self@;
                assert(self.stores() == (old(self).stores() + streamed).push(
                    old(self)@.write_bytes(start, data@.take(i as int)).write_at_store(
                        n,
                        data@[i as int],
                    ),
                ));
                assert(self.stores() =~= old(self).stores() + old(self)@.stream_stores(
                    start,
                    data@.take(i + 1),
                ));
            }
            n = n.wrapping_add(1);
            i += 1;
        }
        proof {
            assert(data@.take(data@.len() as int) =~= data@);
            lemma_write_bytes_frame(old(self)@, start, data@);
            lemma_stream_stores_relaxed(old(self)@, start, data@);
            lemma_extends_by(
                old(self).stores(),
                old(self)@.stream_stores(start, data@),
                MemoryOrder::Relaxed,
            );
        }
        self.cache.page_write_offset = n;
        i as u64
    }

    /// Copy the bytes of `snapshot` into `into`, as many as both hold.
    ///
    /// The bytes are read relaxed, and nothing checks that the snapshot is
    /// valid: bytes of `into` behind the length of the snapshot are left as
    /// they were.
    pub fn read(&self, snapshot: &Snapshot, into: &mut [u8])
        requires
            self@.wf(),
        ensures
            self@.reads(*snapshot, old(into)@, final(into)@),
    {
        Self::read_in(&self.mem, &self.cache, &self.spans, snapshot, into)
    }
}

impl<M: WordStore<u64>> WriteHead<M> {
    /// Invalidate the oldest entries until the data ring may be written up
    /// to logical offset `end` and the descriptor ring has a slot for the
    /// entry that is to be written.
    #[verifier::rlimit(40)]
    pub fn invalidate_heads_to(&mut self, end: u64)
        requires
            old(self)@.wf(),
        ensures
            final(self)@ == old(self)@.invalidate_heads_to(end),
            final(self)@.wf(),
            final(self).stores() == old(self).stores() + old(self)@.invalidate_stores(end),
            extends_with(old(self).stores(), final(self).stores(), MemoryOrder::Relaxed),
            old(self)@.consistent() && old(self)@.cache.page_write_offset <= end < old(
                self,
            )@.cache.page_write_offset + old(self)@.data() ==> {
                &&& final(self)@.consistent()
                &&& final(self)@.cache.page_read_offset >= end
                &&& final(self)@.is_free(old(self)@.cache.page_write_offset as int, end as int)
            },
    {
        proof {
            if self@.consistent() && self@.cache.page_write_offset <= end
                < self@.cache.page_write_offset + self@.data() {
                crate::tracking::lemma_room_is_free(self@, end);
            }
            lemma_invalidate_stores_relaxed(self@, end);
            lemma_extends_by(self.stores(), self@.invalidate_stores(end), MemoryOrder::Relaxed);
        }
        let ghost trace = self.stores() + self@.invalidate_stores(end);
        let mut entry: u64 = self.cache.entry_read_offset;
        let mut data: u64 = self.cache.page_read_offset;
        let ghost goal = self@.invalidate_heads_to(end);
        loop
            invariant
                self@.wf(),
                self@.cache == old(self)@.cache,
                self@.spans == old(self)@.spans,
                goal == self@.with_cache(
                    HeadCache {
                        entry_read_offset: entry,
                        page_read_offset: data,
                        ..self@.cache
                    },
                ).invalidate_heads_to(end),
                trace == self.stores() + self@.with_cache(
                    HeadCache {
                        entry_read_offset: entry,
                        page_read_offset: data,
                        ..self@.cache
                    },
                ).invalidate_stores(end),
            ensures
                trace == self.stores(),
                self@.wf(),
                goal == self@.with_cache(
                    HeadCache {
                        entry_read_offset: entry,
                        page_read_offset: data,
                        ..self@.cache
                    },
                ),
            decreases
                self@.with_cache(
                    HeadCache {
                        entry_read_offset: entry,
                        page_read_offset: data,
                        ..self@.cache
                    },
                ).entries_behind(),
        {
            if entry == self.cache.entry_write_offset {
                if data < end {
                    data = end;
                }
                break ;
            }
            let behind: u64 = self.cache.entry_write_offset.wrapping_sub(entry);
            if data >= end && behind <= self.cache.entry_mask {
                break ;
            }
            proof {
                lemma_slot_bounds(self@, entry);
                lemma_descriptor_bounds(self@, self@.slot_of(entry));
            }
            let ghost before = self.stores();
            let ghost current = self@.with_cache(
                HeadCache { entry_read_offset: entry, page_read_offset: data, ..self@.cache },
            );
            let length: u64 = self.invalidate_at(entry);
            entry = entry.wrapping_add(1);
            data = data.wrapping_add(length);
            proof {
                let next = self@.with_cache(
                    HeadCache { entry_read_offset: entry, page_read_offset: data, ..self@.cache },
                );
                assert(current.invalidate_stores(end) == seq![current.invalidate_store(
                    current.cache.entry_read_offset,
                )] + next.invalidate_stores(end));
                assert(trace =~= self.stores() + next.invalidate_stores(end));
            }
        }
        self.cache.entry_read_offset = entry;
        self.cache.page_read_offset = data;
    }
}

impl<M: WordStore<u64>> WriteHead<M> {
    /// Number of slots in the descriptor span.
    fn span_slots(&self) -> (count: usize)
        requires
            self@.inv(),
        ensures
            count == self@.spans.sequence_pages * PAGE_DESCRIPTORS,
            PAGE_WORDS + 2 * count <= self@.words.len() || count == 0,
    {
        proof {
            lemma_pages_fit(self@);
        }
        self.spans.sequence_pages * (PAGE_DESCRIPTORS as usize)
    }

    /// Hand every valid descriptor in the slots up to `max`, and within the
    /// first `count`, to `extend` in slot order, and invalidate those it does
    /// not ask to keep. Every access uses `order`.
    #[verifier::rlimit(40)]
    pub(crate) fn sweep<C: Collect<Snapshot>>(
        &mut self,
        max: u64,
        count: usize,
        extend: &mut C,
        order: MemoryOrder,
    )
        requires
            old(self)@.inv(),
            PAGE_WORDS + 2 * count <= old(self)@.words.len() || count == 0,
        ensures
            final(self)@ == old(self)@.retain_upto(
                old(extend),
                HeadModel::sweep_bound(max, count as int),
            ),
            final(extend).taken() == old(extend).taken() + old(self)@.valid_upto(
                HeadModel::sweep_bound(max, count as int),
            ),
            forall|other: Snapshot| final(extend).keeps(other) == old(extend).keeps(other),
            final(self)@.inv(),
            extends_with(old(self).stores(), final(self).stores(), order),
            forall|i: int|
                old(self).stores().len() <= i < final(self).stores().len() ==> (
                #[trigger] final(self).stores()[i]).value == 0,
    {
        let mut idx: usize = 0;
        proof {
            lemma_extends_self(self.stores());
            assert(self@.words =~= old(self)@.retain_upto(old(extend), 0).words);
            assert(extend.taken() =~= old(extend).taken() + old(self)@.valid_upto(0));
        }
        while idx < count && idx as u64 <= max
            invariant
                idx <= count,
                idx <= max + 1,
                PAGE_WORDS + 2 * count <= self@.words.len() || count == 0,
                old(self)@.inv(),
                self@ == old(self)@.retain_upto(old(extend), idx as int),
                extend.taken() == old(extend).taken() + old(self)@.valid_upto(idx as int),
                forall|other: Snapshot| extend.keeps(other) == old(extend).keeps(other),
                extends_with(old(self).stores(), self.stores(), order),
                forall|i: int|
                    old(self).stores().len() <= i < self.stores().len() ==> (
                    #[trigger] self.stores()[i]).value == 0,
            decreases count - idx,
        {
            let at: usize = PAGE_WORDS + 2 * idx;
            let ghost found = old(self)@.descriptor(idx as int);
            proof {
                lemma_extends_push(
                    old(self).stores(),
                    self.stores(),
                    Store { index: at + 1, value: 0, order },
                );
            }
            assert(!old(self)@.is_dropped(old(extend), idx as int, at as int));
            assert(!old(self)@.is_dropped(old(extend), idx as int, at + 1));
            let length: u64 = self.mem.load(at + 1, order);
            if length != 0 {
                let offset: u64 = self.mem.load(at, order);
                let snap = Snapshot { length, offset };
                assert(snap == found);
                if !extend.insert_one(snap) {
                    self.mem.store(at + 1, 0, order);
                }
            }
            idx += 1;
            proof {
                assert(self@.words =~= old(self)@.retain_upto(old(extend), idx as int).words) by {
                    assert forall|w: int| 0 <= w < self@.words.len() implies self@.words[w]
                        == old(self)@.retain_upto(old(extend), idx as int).words[w] by {
                        if w == at + 1 {
                        } else {
                            assert(old(self)@.is_dropped(old(extend), idx as int, w) == old(
                                self,
                            )@.is_dropped(old(extend), idx - 1, w));
                        }
                    }
                }
                assert(extend.taken() =~= old(extend).taken() + old(self)@.valid_upto(idx as int));
            }
        }
    }

    /// Hand every valid descriptor to `extend`, in slot order, and
    /// invalidate those it does not ask to keep.
    ///
    /// The slots visited are those up to the entry mask stored in the
    /// header. Every access uses `order`.
    pub fn iter_valid<C: Collect<Snapshot>>(&mut self, extend: &mut C, order: MemoryOrder)
        requires
            old(self)@.inv(),
        ensures
            final(self)@ == old(self)@.retain(old(extend)),
            final(extend).taken() == old(extend).taken() + old(self)@.valid(),
            forall|other: Snapshot| final(extend).keeps(other) == old(extend).keeps(other),
            final(self)@.inv(),
            extends_with(old(self).stores(), final(self).stores(), order),
    {
        let max: u64 = self.header(HEADER_ENTRY_MASK, order);
        let count: usize = self.span_slots();
        self.sweep(max, count, extend, order);
    }

    /// Append every valid descriptor in the slots up to `max`, and within
    /// the first `count`, to `into`, reading relaxed and changing nothing.
    pub(crate) fn collect(&self, max: u64, count: usize, into: &mut Vec<Snapshot>)
        requires
            self@.inv(),
            PAGE_WORDS + 2 * count <= self@.words.len() || count == 0,
        ensures
            final(into)@ == old(into)@ + self@.valid_upto(
                HeadModel::sweep_bound(max, count as int),
            ),
    {
        let mut idx: usize = 0;
        proof {
            assert(into@ =~= old(into)@ + self@.valid_upto(0));
        }
        while idx < count && idx as u64 <= max
            invariant
                idx <= count,
                idx <= max + 1,
                PAGE_WORDS + 2 * count <= self@.words.len() || count == 0,
                self@.inv(),
                into@ == old(into)@ + self@.valid_upto(idx as int),
            decreases count - idx,
        {
            let at: usize = PAGE_WORDS + 2 * idx;
            let length: u64 = self.mem.load(at + 1, MemoryOrder::Relaxed);
            if length != 0 {
                let offset: u64 = self.mem.load(at, MemoryOrder::Relaxed);
                into.push(Snapshot { length, offset });
            }
            idx += 1;
            proof {
                assert(into@ =~= old(into)@ + self@.valid_upto(idx as int));
            }
        }
    }

    /// Append every valid descriptor to `into`, in slot order, reading
    /// relaxed and changing nothing.
    pub fn valid_in_head(&self, into: &mut Vec<Snapshot>)
        requires
            self@.inv(),
        ensures
            final(into)@ == old(into)@ + self@.valid(),
    {
        let max: u64 = self.header(HEADER_ENTRY_MASK, MemoryOrder::Relaxed);
        let count: usize = self.span_slots();
        self.collect(max, count, into);
    }

    /// Invalidate every valid descriptor that `retain` does not ask to keep.
    pub fn retain_in_head<R: RetainSnapshot>(&mut self, retain: &R)
        requires
            old(self)@.inv(),
        ensures
            final(self)@ == old(self)@.retain_by(retain, old(self)@.sweep_end()),
            final(self)@.inv(),
            extends_with(old(self).stores(), final(self).stores(), MemoryOrder::Relaxed),
    {
        let mut sink = Retain::new(retain);
        self.iter_valid(&mut sink, MemoryOrder::Relaxed);
    }
}

impl<M: WordStore<u64>> WriteHead<M> {
    /// Whether a configuration can be read from the header.
    pub fn is_discoverable(&self) -> (able: bool)
        requires
            self@.inv(),
        ensures
            able == self@.discoverable(),
    {
        let entry_mask: u64 = self.header(HEADER_ENTRY_MASK, MemoryOrder::Relaxed);
        let data_mask: u64 = self.header(HEADER_PAGE_MASK, MemoryOrder::Relaxed);
        if entry_mask >= usize::MAX as u64 || data_mask >= usize::MAX as u64 {
            return false;
        }
        let psequence: u64 = Self::pages_needed(entry_mask, PAGE_DESCRIPTORS);
        psequence < self.spans.data_pages as u64
    }

    /// Read the configuration the header describes.
    pub fn discover(&self, cfg: &mut ConfigureFile)
        requires
            self@.inv(),
            self@.discoverable(),
        ensures
            self@.discovers(final(cfg)@),
    {
        let entry_mask: u64 = self.header(HEADER_ENTRY_MASK, MemoryOrder::Relaxed);
        let data_mask: u64 = self.header(HEADER_PAGE_MASK, MemoryOrder::Relaxed);
        let page_write_offset: u64 = self.header(HEADER_WRITE_OFFSET, MemoryOrder::Relaxed);
        let layout_version: u64 = self.header(HEADER_VERSION, MemoryOrder::Relaxed);
        let pages: u64 = self.spans.data_pages as u64;
        let psequence: u64 = Self::pages_needed(entry_mask, PAGE_DESCRIPTORS);
        proof {
            lemma_pages_bytes(self@);
            assert((pages - psequence) * 4096 <= self@.pages() * 4096);
        }
        let data_space: u64 = (pages - psequence) * PAGE_BYTES;
        let available_entries: u64 = fitting_power_of_two(entry_mask + 1);
        let available_data: u64 = fitting_power_of_two(data_space);
        let data: u64 = if available_data <= data_mask {
            available_data
        } else {
            data_mask + 1
        };
        *cfg = ConfigureFile::from_parts(available_entries, data, page_write_offset, layout_version);
        proof {
            assert(data_space == self@.data_space());
            assert(is_fitting_power_of_two(available_data, self@.data_space() as u64));
        }
    }

    /// Whether this head can be configured as `cfg` says.
    pub fn accepts(&self, cfg: &ConfigureFile) -> (fits: bool)
        requires
            self@.inv(),
        ensures
            fits == self@.accepts(cfg@),
    {
        if !cfg.is_initialized() || !is_pow2(cfg.entries()) || !is_pow2(cfg.data()) {
            return false;
        }
        let psequence: u64 = Self::pages_needed(cfg.entries() - 1, PAGE_DESCRIPTORS);
        let pdata: u64 = Self::pages_needed(cfg.data() - 1, PAGE_BYTES);
        let have_sequence: u64 = self.spans.sequence_pages as u64;
        let have_data: u64 = self.spans.data_pages as u64;
        psequence <= have_sequence && psequence <= have_data && pdata <= have_data - psequence
    }

    /// The cache and the spans of the head an observer lays over the region
    /// to read it as `cfg` says.
    pub(crate) fn alternate(&self, cfg: &ConfigureFile) -> (frame: (HeadCache, Spans))
        requires
            self@.inv(),
            self@.accepts(cfg@),
        ensures
            frame.0 == self@.alternate(cfg@).cache,
            frame.1 == self@.alternate(cfg@).spans,
            self@.alternate(cfg@).wf(),
            self@.alternate(cfg@).separated(),
    {
        proof {
            lemma_pages_fit(self@);
        }
        let psequence: usize = Self::pages_needed(cfg.entries() - 1, PAGE_DESCRIPTORS) as usize;
        let pdata: usize = Self::pages_needed(cfg.data() - 1, PAGE_BYTES) as usize;
        let first: usize = self.spans.data_first + psequence;
        let cache = HeadCache {
            entry_mask: cfg.entries() - 1,
            page_mask: cfg.data() - 1,
            page_write_offset: cfg.initial_offset(),
            page_read_offset: cfg.initial_offset().wrapping_add(cfg.data()),
            entry_read_offset: self.cache.entry_read_offset,
            entry_write_offset: self.cache.entry_write_offset,
        };
        let spans = Spans {
            sequence_pages: psequence,
            data_first: first,
            data_pages: pdata,
            tail_first: first + pdata,
            tail_pages: self.spans.data_pages - psequence - pdata,
        };
        (cache, spans)
    }

    /// Number of words in the user tail.
    pub fn tail_len(&self) -> (len: usize)
        requires
            self@.inv(),
        ensures
            len == self@.tail_len(),
    {
        proof {
            lemma_pages_fit(self@);
        }
        self.spans.tail_pages * PAGE_WORDS
    }

    /// Read word `idx` of the user tail.
    pub fn tail_load(&self, idx: usize, order: MemoryOrder) -> (word: u64)
        requires
            self@.inv(),
            idx < self@.tail_len(),
        ensures
            word == self@.words[self@.tail_word(idx as int)],
    {
        proof {
            lemma_pages_fit(self@);
        }
        self.mem.load(PAGE_WORDS + self.spans.tail_first * PAGE_WORDS + idx, order)
    }

    /// Overwrite word `idx` of the user tail.
    pub fn tail_store(&mut self, idx: usize, value: u64, order: MemoryOrder)
        requires
            old(self)@.inv(),
            idx < old(self)@.tail_len(),
        ensures
            final(self)@ == old(self)@.with_words(
                old(self)@.words.update(old(self)@.tail_word(idx as int), value),
            ),
            final(self)@.inv(),
            final(self).stores() == old(self).stores().push(
                Store { index: old(self)@.tail_word(idx as int), value, order },
            ),
    {
        proof {
            lemma_pages_fit(self@);
        }
        self.mem.store(PAGE_WORDS + self.spans.tail_first * PAGE_WORDS + idx, value, order);
    }
}

/// A head together with the region it owns.
pub struct Head<M> {
    pub(crate) head: WriteHead<M>,
}

impl<M: WordStore<u64>> View for Head<M> {
    type V = HeadModel;

    closed spec fn view(&self) -> HeadModel {
        self.head@
    }
}

impl<M: WordStore<u64>> Head<M> {
    /// Every write made to the region, in the order they were made.
    pub closed spec fn stores(&self) -> Seq<Store<u64>> {
        self.head.stores()
    }

    /// The view of a head is that of the head it wraps.
    pub(crate) proof fn lemma_view(&self)
        ensures
            self@ == self.head@,
            self.stores() == self.head.stores(),
    {
    }

    /// A head over the whole of `file`, not yet configured.
    ///
    /// A region too small to hold a header is not an error here: the head
    /// then has no pages, and every write through it fails for want of
    /// capacity.
    pub fn from_map(file: M) -> (head: Self)
        ensures
            head@.words == file.words(),
            head@.cache == HeadCache::zeroed(),
            head@.spans.sequence_pages == head@.pages(),
            head@.spans.data_first == 0,
            head@.spans.data_pages == head@.pages(),
            head@.spans.tail_first == 0,
            head@.spans.tail_pages == 0,
            head@.inv(),
            head.stores() == file.stores(),
    {
        Head { head: WriteHead::new(file) }
    }

    /// Give up the head and return the region.
    pub fn into_map(self) -> (file: M)
        ensures
            file.words() == self@.words,
            file.stores() == self.stores(),
    {
        self.head.into_memory()
    }

    /// Whether a configuration can be read from the header.
    pub fn is_discoverable(&self) -> (able: bool)
        requires
            self@.inv(),
        ensures
            able == self@.discoverable(),
    {
        self.head.is_discoverable()
    }

    /// Read the configuration the header describes into `cfg`.
    pub fn discover(&self, cfg: &mut ConfigureFile)
        requires
            self@.inv(),
            self@.discoverable(),
        ensures
            self@.discovers(final(cfg)@),
    {
        self.head.discover(cfg)
    }

    /// Whether this head can be configured as `cfg` says.
    pub fn accepts(&self, cfg: &ConfigureFile) -> (fits: bool)
        requires
            self@.inv(),
        ensures
            fits == self@.accepts(cfg@),
    {
        self.head.accepts(cfg)
    }

    /// Configure the head as `cfg` says, write the configuration to the
    /// header, and take over the entries that the region holds.
    ///
    /// The bookkeeping of the head matches the region afterwards, unless
    /// the write offset is so close to the end of its word that nothing
    /// can be written any more.
    pub fn configure(&mut self, cfg: &ConfigureFile)
        requires
            old(self)@.inv(),
            old(self)@.accepts(cfg@),
        ensures
            final(self)@ == old(self)@.configure(cfg@).take_over(),
            final(self)@.wf(),
            final(self)@.separated(),
            extends_with(
                old(self).stores() + old(self)@.set_up(cfg@).configure_stores(),
                final(self).stores(),
                MemoryOrder::Relaxed,
            ),
            cfg@.initial_offset + cfg@.data <= u64::MAX ==> final(self)@.consistent(),
            final(self)@.all_apart(),
    {
        Self::configure_head(&mut self.head, cfg);
        proof {
            lemma_pages_fit(self.head@);
            crate::adoption::lemma_take_over_apart(self.head@);
            if cfg@.initial_offset + cfg@.data <= u64::MAX {
                crate::adoption::lemma_take_over_consistent(self.head@);
            }
        }
        self.head.take_over();
    }

    /// Configure `head` as `cfg` says.
    fn configure_head(head: &mut WriteHead<M>, cfg: &ConfigureFile)
        requires
            old(head)@.inv(),
            old(head)@.accepts(cfg@),
        ensures
            final(head)@ == old(head)@.configure(cfg@),
            final(head)@.wf(),
            final(head)@.separated(),
            final(head).stores() == old(head).stores() + old(head)@.set_up(cfg@).configure_stores(),
    {
        head.pre_configure_entries(cfg.entries());
        head.pre_configure_pages(cfg.data());
        head.pre_configure_write(cfg.initial_offset());
        head.configure_pages();
    }

    /// The words behind the data ring.
    pub fn tail(&mut self) -> (tail: Tail<'_, M>)
        ensures
            tail.head@ == old(self)@,
            tail.head.stores() == old(self).stores(),
            final(self)@ == final(tail.head)@,
            final(self).stores() == final(tail.head).stores(),
    {
        Tail { head: &mut self.head }
    }

    /// Append every valid descriptor to `into`, in slot order.
    pub fn valid(&self, into: &mut Vec<Snapshot>)
        requires
            self@.inv(),
        ensures
            final(into)@ == old(into)@ + self@.valid(),
    {
        self.head.valid_in_head(into)
    }

    /// Copy the bytes of `snapshot` into `into`, as many as both hold.
    pub fn read(&self, snapshot: &Snapshot, into: &mut [u8])
        requires
            self@.wf(),
        ensures
            self@.reads(*snapshot, old(into)@, final(into)@),
    {
        self.head.read(snapshot, into)
    }

    /// Copy the bytes of `snapshot` into `into`, reading the region as `cfg`
    /// says.
    pub fn read_at(&self, snapshot: &Snapshot, into: &mut [u8], cfg: &ConfigureFile)
        requires
            self@.inv(),
            self@.accepts(cfg@),
        ensures
            self@.alternate(cfg@).reads(*snapshot, old(into)@, final(into)@),
    {
        let (cache, spans) = self.head.alternate(cfg);
        assert(self@.alternate(cfg@) == (HeadModel { cache, spans, words: self.head.mem.words() }));
        WriteHead::read_in(&self.head.mem, &cache, &spans, snapshot, into)
    }

    /// Append every valid descriptor to `into`, reading the region as `cfg`
    /// says: the slots visited are those of its descriptor ring.
    pub fn valid_at(&self, into: &mut Vec<Snapshot>, cfg: &ConfigureFile)
        requires
            self@.inv(),
            self@.accepts(cfg@),
        ensures
            final(into)@ == old(into)@ + self@.valid_upto(cfg@.entries as int),
    {
        let (cache, spans) = self.head.alternate(cfg);
        proof {
            lemma_pages_fit(self@);
        }
        let count: usize = spans.sequence_pages * (PAGE_DESCRIPTORS as usize);
        self.head.collect(cfg.entries() - 1, count, into);
    }

    /// Invalidate every valid descriptor that `retain` does not ask to keep,
    /// reading the region as `cfg` says.
    pub fn retain_at<R: RetainSnapshot>(&mut self, retain: &R, cfg: &ConfigureFile)
        requires
            old(self)@.inv(),
            old(self)@.accepts(cfg@),
        ensures
            final(self)@ == old(self)@.retain_by(retain, cfg@.entries as int),
            final(self)@.inv(),
            extends_with(old(self).stores(), final(self).stores(), MemoryOrder::Relaxed),
    {
        let (cache, spans) = self.head.alternate(cfg);
        proof {
            lemma_pages_fit(self@);
        }
        let count: usize = spans.sequence_pages * (PAGE_DESCRIPTORS as usize);
        let mut sink = Retain::new(retain);
        self.head.sweep(cfg.entries() - 1, count, &mut sink, MemoryOrder::Relaxed);
    }

    /// The descriptor of entry `idx`, with everything the writer published
    /// before it visible afterwards.
    pub fn entry_at(&self, idx: u64) -> (snapshot: Snapshot)
        requires
            self@.wf(),
        ensures
            snapshot == self@.descriptor(self@.slot_of(idx)),
    {
        let snapshot = self.head.entry_at_relaxed(idx);
        self.head.mem.fence(MemoryOrder::Acquire);
        snapshot
    }
}

impl<M: WordStore<u64>> WriteHead<M> {
    /// The entry that taking over starts at: the one behind the slot of
    /// the valid descriptor whose data starts last.
    #[verifier::rlimit(40)]
    pub fn adoption_start(&self) -> (first: u64)
        requires
            self@.wf(),
        ensures
            first == self@.adoption_start(),
            first <= self@.cache.entry_mask,
    {
        let mask: u64 = self.cache.entry_mask;
        let mut found: bool = false;
        let mut latest: u64 = 0;
        let mut greatest: u64 = 0;
        let mut slot: u64 = 0;
        while slot <= mask
            invariant
                slot <= mask + 1,
                mask == self@.cache.entry_mask,
                self@.wf(),
                found == self@.latest(slot as int).is_some(),
                found ==> self@.latest(slot as int) == Some(latest as int) && latest < slot
                    && greatest == self@.descriptor(latest as int).offset,
            decreases mask + 1 - slot,
        {
            proof {
                vstd::arithmetic::div_mod::lemma_small_mod(slot as nat, self@.entries() as nat);
            }
            let at: usize = self.get_entry_atomic(slot);
            let length: u64 = self.mem.load(at + 1, MemoryOrder::Relaxed);
            if length != 0 {
                let offset: u64 = self.mem.load(at, MemoryOrder::Relaxed);
                if !found || greatest < offset {
                    found = true;
                    latest = slot;
                    greatest = offset;
                }
            }
            slot += 1;
        }
        proof {
            crate::adoption::lemma_adoption_start(self@);
            if found {
                lemma_mask_is_remainder((latest + 1) as u64, (mask + 1) as u64);
            }
        }
        if found {
            (latest + 1) & mask
        } else {
            0
        }
    }

    /// Take over the entries that the region holds, from entry `first`
    /// on: track the valid descriptors that fit the bookkeeping, and
    /// invalidate, relaxed, those that do not.
    #[verifier::rlimit(60)]
    pub fn adopt(&mut self, first: u64)
        requires
            old(self)@.wf(),
            first <= old(self)@.cache.entry_mask,
        ensures
            final(self)@ == old(self)@.adopt(first as int),
            final(self)@.wf(),
            final(self)@.separated() == old(self)@.separated(),
            extends_with(old(self).stores(), final(self).stores(), MemoryOrder::Relaxed),
    {
        let mask: u64 = self.cache.entry_mask;
        let write: u64 = self.cache.page_write_offset;
        let data: u64 = self.cache.page_mask + 1;
        let mut end: u64 = if write >= data {
            write - data
        } else {
            0
        };
        let mut any: bool = false;
        let mut oldest: u64 = 0;
        let mut floor: u64 = 0;
        let mut newest: u64 = 0;
        let mut count: u64 = 0;
        proof {
            lemma_extends_self(self.stores());
            let entries: u64 = (mask + 1) as u64;
            assert(entries != 0 && entries & ((entries - 1) as u64) == 0 ==> entries
                <= 0x8000_0000_0000_0000) by (bit_vector);
        }
        while count <= mask
            invariant
                count <= mask + 1,
                mask < 0x8000_0000_0000_0000,
                first <= mask,
                mask == old(self)@.cache.entry_mask,
                write == old(self)@.cache.page_write_offset,
                old(self)@.wf(),
                self@.wf(),
                self@.cache == old(self)@.cache,
                self@.spans == old(self)@.spans,
                self@.words == old(self)@.adopted(first as int, count as int).words,
                any == old(self)@.adopted(first as int, count as int).any,
                end == old(self)@.adopted(first as int, count as int).end,
                any ==> {
                    &&& oldest == old(self)@.adopted(first as int, count as int).oldest
                    &&& floor == old(self)@.adopted(first as int, count as int).floor
                    &&& newest == old(self)@.adopted(first as int, count as int).newest
                    &&& newest < first + count
                },
                extends_with(old(self).stores(), self.stores(), MemoryOrder::Relaxed),
            decreases mask + 1 - count,
        {
            let entry: u64 = first + count;
            proof {
                crate::adoption::lemma_unvisited_slot(old(self)@, first as int, count as int);
                assert(self@ == old(self)@.with_words(
                    old(self)@.adopted(first as int, count as int).words,
                ));
            }
            let at: usize = self.get_entry_atomic(entry);
            let length: u64 = self.mem.load(at + 1, MemoryOrder::Relaxed);
            if length != 0 {
                let offset: u64 = self.mem.load(at, MemoryOrder::Relaxed);
                let fits: bool = end <= offset && match offset.checked_add(length) {
                    Some(behind) => behind <= write,
                    None => false,
                };
                if fits {
                    if !any {
                        any = true;
                        oldest = entry;
                        floor = offset;
                    }
                    newest = entry;
                    end = offset + length;
                } else {
                    proof {
                        lemma_extends_push(
                            old(self).stores(),
                            self.stores(),
                            Store { index: at + 1, value: 0, order: MemoryOrder::Relaxed },
                        );
                    }
                    self.mem.store(at + 1, 0, MemoryOrder::Relaxed);
                }
            }
            count += 1;
        }
        if any {
            self.cache.entry_read_offset = oldest;
            self.cache.entry_write_offset = newest + 1;
            self.cache.page_read_offset = floor.wrapping_add(data);
        } else {
            self.cache.entry_read_offset = 0;
            self.cache.entry_write_offset = 0;
            self.cache.page_read_offset = write.wrapping_add(data);
        }
        proof {
            crate::adoption::lemma_adopted_well(
                old(self)@,
                first as int,
                old(self)@.entries(),
            );
        }
    }

    /// Take over the entries that the region holds.
    pub fn take_over(&mut self)
        requires
            old(self)@.wf(),
        ensures
            final(self)@ == old(self)@.take_over(),
            final(self)@.wf(),
            final(self)@.separated() == old(self)@.separated(),
            extends_with(old(self).stores(), final(self).stores(), MemoryOrder::Relaxed),
    {
        let first: u64 = self.adoption_start();
        self.adopt(first);
    }
}

} // verus!
