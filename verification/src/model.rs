//! A head as contracts speak of it: the writer's cursors, the spans of the
//! region they address, and what each operation of the protocol does to
//! the words of the region.
use vstd::prelude::*;
use crate::lanes::{lane, with_lane};
use crate::layout::{
    is_fitting_power_of_two,
    is_power_of_two,
    pages_for,
    HEADER_ENTRY_MASK,
    HEADER_PAGE_MASK,
    HEADER_VERSION,
    HEADER_WRITE_OFFSET,
    MAX_PAGES,
    PAGE_BYTES,
    PAGE_DESCRIPTORS,
    PAGE_WORDS,
};
use crate::memory::{MemoryOrder, Store};
use crate::snapshot::{Collect, ConfigureFile, ConfigureFileView, Retain, RetainSnapshot, Snapshot};

verus! {

/// The writer's private mirror of the header and of its cursors.
///
/// Offsets are logical: they count entries and bytes since the log began and
/// are reduced by the masks only when a slot or a byte is addressed.
#[derive(Clone, Copy, Debug)]
pub struct HeadCache {
    /// Number of descriptors minus one.
    pub entry_mask: u64,
    /// The oldest entry that has not been invalidated by the writer.
    pub entry_read_offset: u64,
    /// The entry the next commit publishes.
    pub entry_write_offset: u64,
    /// Size of the data ring in bytes minus one.
    pub page_mask: u64,
    /// The logical offset of the next byte to write.
    pub page_write_offset: u64,
    /// The logical offset up to which the data ring may be written without
    /// touching the data of a descriptor the writer has not invalidated.
    pub page_read_offset: u64,
}

impl HeadCache {
    /// The cache with both masks and all cursors at zero.
    pub open spec fn zeroed() -> HeadCache {
        HeadCache {
            entry_mask: 0,
            entry_read_offset: 0,
            entry_write_offset: 0,
            page_mask: 0,
            page_write_offset: 0,
            page_read_offset: 0,
        }
    }

    /// A cache with both masks and all cursors at zero.
    pub fn new() -> (cache: Self)
        ensures
            cache == Self::zeroed(),
    {
        HeadCache {
            entry_mask: 0,
            entry_read_offset: 0,
            entry_write_offset: 0,
            page_mask: 0,
            page_write_offset: 0,
            page_read_offset: 0,
        }
    }
}

/// The pages behind the header that a head addresses, counted from the first
/// page after the header.
///
/// The descriptor ring always starts at that first page.
#[derive(Clone, Copy, Debug)]
pub struct Spans {
    /// Pages of the descriptor ring.
    pub sequence_pages: usize,
    /// First page of the data ring.
    pub data_first: usize,
    /// Pages of the data ring.
    pub data_pages: usize,
    /// First page of the user tail.
    pub tail_first: usize,
    /// Pages of the user tail.
    pub tail_pages: usize,
}

/// A head as contracts speak of it: cursors, spans and the words of the region.
pub struct HeadModel {
    pub cache: HeadCache,
    pub spans: Spans,
    pub words: Seq<u64>,
}

/// The value of `total` reduced to a 64-bit word.
pub open spec fn wrap(total: int) -> u64 {
    (total % 0x1_0000_0000_0000_0000) as u64
}

/// Index of the word that holds the offset of the descriptor in `slot`.
pub open spec fn offset_word(slot: int) -> int {
    PAGE_WORDS + 2 * slot
}

/// Index of the word that holds the length of the descriptor in `slot`.
pub open spec fn length_word(slot: int) -> int {
    PAGE_WORDS + 2 * slot + 1
}

impl HeadModel {
    /// Whole pages of the region behind the header page, as far as their
    /// bytes can be counted in a word.
    pub open spec fn pages(self) -> int {
        if self.words.len() >= PAGE_WORDS {
            let whole = (self.words.len() - PAGE_WORDS) / (PAGE_WORDS as int);
            if whole <= MAX_PAGES {
                whole
            } else {
                MAX_PAGES as int
            }
        } else {
            0
        }
    }

    /// Whether the region is too small to hold even the header.
    pub open spec fn is_fallback(self) -> bool {
        self.words.len() < PAGE_WORDS
    }

    /// The header field in word `field`. A region without a header reads as
    /// a configured one with no descriptors and no data.
    pub open spec fn header(self, field: int) -> u64 {
        if !self.is_fallback() {
            self.words[field]
        } else if field == HEADER_VERSION {
            ConfigureFile::MAGIC_VERSION
        } else {
            0
        }
    }

    /// The region is addressable, every span lies within it, and both ring
    /// sizes the cache is set up for are powers of two.
    pub open spec fn inv(self) -> bool {
        &&& self.words.len() <= usize::MAX
        &&& self.spans.sequence_pages <= self.pages()
        &&& self.spans.data_first + self.spans.data_pages <= self.pages()
        &&& self.spans.tail_first + self.spans.tail_pages <= self.pages()
        &&& self.cache.entry_mask < u64::MAX
        &&& self.cache.page_mask < u64::MAX
        &&& is_power_of_two((self.cache.entry_mask + 1) as u64)
        &&& is_power_of_two((self.cache.page_mask + 1) as u64)
    }

    /// Number of descriptors the cache is set up for.
    pub open spec fn entries(self) -> int {
        self.cache.entry_mask + 1
    }

    /// Size in bytes of the data ring the cache is set up for.
    pub open spec fn data(self) -> int {
        self.cache.page_mask + 1
    }

    /// The head is sound and each ring fits the span it is addressed through.
    pub open spec fn wf(self) -> bool {
        &&& self.inv()
        &&& self.entries() <= self.spans.sequence_pages * PAGE_DESCRIPTORS
        &&& self.data() <= self.spans.data_pages * PAGE_BYTES
    }

    /// The descriptor ring, the data ring and the tail follow each other
    /// without sharing a page.
    pub open spec fn separated(self) -> bool {
        &&& self.spans.sequence_pages <= self.spans.data_first
        &&& self.spans.data_first + self.spans.data_pages <= self.spans.tail_first
    }

    /// The slot of the descriptor ring that entry `idx` lives in.
    pub open spec fn slot_of(self, idx: u64) -> int {
        idx as int % self.entries()
    }

    /// The descriptor that `slot` holds.
    pub open spec fn descriptor(self, slot: int) -> Snapshot {
        Snapshot { offset: self.words[offset_word(slot)], length: self.words[length_word(slot)] }
    }

    /// The position in the data ring of the byte at logical offset `idx`.
    pub open spec fn position(self, idx: u64) -> int {
        idx as int % self.data()
    }

    /// Index of the first word of the data ring.
    pub open spec fn data_base(self) -> int {
        PAGE_WORDS + PAGE_WORDS * self.spans.data_first
    }

    /// Index of the word that holds the byte at position `pos` of the data ring.
    pub open spec fn byte_word(self, pos: int) -> int {
        self.data_base() + pos / 8
    }

    /// The byte at position `pos` of the data ring.
    pub open spec fn byte_at_position(self, pos: int) -> u8 {
        lane(self.words[self.byte_word(pos)], (pos % 8) as u64)
    }

    /// The byte at logical offset `idx`.
    pub open spec fn byte_at(self, idx: u64) -> u8 {
        self.byte_at_position(self.position(idx))
    }

    /// Index of the first word of the user tail.
    pub open spec fn tail_base(self) -> int {
        PAGE_WORDS + PAGE_WORDS * self.spans.tail_first
    }

    /// Number of words in the user tail.
    pub open spec fn tail_len(self) -> int {
        PAGE_WORDS * self.spans.tail_pages
    }

    /// The same head over other words.
    pub open spec fn with_words(self, words: Seq<u64>) -> HeadModel {
        HeadModel { words, ..self }
    }

    /// The same head with another cache.
    pub open spec fn with_cache(self, cache: HeadCache) -> HeadModel {
        HeadModel { cache, ..self }
    }

    /// The head after the byte at logical offset `idx` was set to `byte`.
    pub open spec fn write_at(self, idx: u64, byte: u8) -> HeadModel {
        let pos = self.position(idx);
        let at = self.byte_word(pos);
        self.with_words(self.words.update(at, with_lane(self.words[at], (pos % 8) as u64, byte)))
    }

    /// The head after the descriptor of entry `idx` was invalidated.
    pub open spec fn invalidate_at(self, idx: u64) -> HeadModel {
        self.with_words(self.words.update(length_word(self.slot_of(idx)), 0))
    }

    /// The write that sets the byte at logical offset `idx`: a relaxed
    /// store of the whole word the byte lies in.
    pub open spec fn write_at_store(self, idx: u64, byte: u8) -> Store<u64> {
        let pos = self.position(idx);
        let at = self.byte_word(pos);
        Store {
            index: at,
            value: with_lane(self.words[at], (pos % 8) as u64, byte),
            order: MemoryOrder::Relaxed,
        }
    }

    /// The write that invalidates the descriptor of entry `idx`: a relaxed
    /// write of zero to its length.
    pub open spec fn invalidate_store(self, idx: u64) -> Store<u64> {
        Store { index: length_word(self.slot_of(idx)), value: 0, order: MemoryOrder::Relaxed }
    }

    /// The writes that publish `snap` as entry `idx`: first the offset,
    /// then the length, both with release ordering.
    pub open spec fn insert_stores(self, idx: u64, snap: Snapshot) -> Seq<Store<u64>> {
        let slot = self.slot_of(idx);
        seq![
            Store { index: offset_word(slot), value: snap.offset, order: MemoryOrder::Release },
            Store { index: length_word(slot), value: snap.length, order: MemoryOrder::Release },
        ]
    }

    /// The head after `snap` was published as entry `idx`.
    pub open spec fn insert_at(self, idx: u64, snap: Snapshot) -> HeadModel {
        let slot = self.slot_of(idx);
        self.with_words(
            self.words.update(offset_word(slot), snap.offset).update(
                length_word(slot),
                snap.length,
            ),
        )
    }
}

impl HeadModel {
    /// Pages the descriptor ring takes once configured.
    pub open spec fn sequence_need(self) -> int {
        pages_for(self.entries(), PAGE_DESCRIPTORS as int)
    }

    /// Pages the data ring takes once configured.
    pub open spec fn data_need(self) -> int {
        pages_for(self.data(), PAGE_BYTES as int)
    }

    /// Whether the rings the cache is set up for fit the pages of this head:
    /// the descriptor ring at the front of the current spans, the data ring
    /// behind it.
    pub open spec fn can_configure(self) -> bool {
        &&& self.sequence_need() <= self.spans.sequence_pages
        &&& self.sequence_need() + self.data_need() <= self.spans.data_pages
    }

    /// The head after its spans were cut to the configured rings and the
    /// configuration was written to the header.
    ///
    /// The descriptor ring keeps the front of its span. The data ring starts
    /// behind as many pages of its old span, and the rest of that span
    /// becomes the tail. The read cursor is set a whole data ring ahead of
    /// the write cursor: nothing is tracked yet, so all of the ring is free.
    pub open spec fn configure_pages(self) -> HeadModel {
        let first = self.spans.data_first + self.sequence_need();
        HeadModel {
            cache: HeadCache {
                page_read_offset: wrap(self.cache.page_write_offset + self.data()),
                ..self.cache
            },
            spans: Spans {
                sequence_pages: self.sequence_need() as usize,
                data_first: first as usize,
                data_pages: self.data_need() as usize,
                tail_first: (first + self.data_need()) as usize,
                tail_pages: (self.spans.data_pages - self.sequence_need()
                    - self.data_need()) as usize,
            },
            words: self.words.update(
                HEADER_ENTRY_MASK as int,
                self.cache.entry_mask,
            ).update(HEADER_PAGE_MASK as int, self.cache.page_mask).update(
                HEADER_WRITE_OFFSET as int,
                self.cache.page_write_offset,
            ).update(HEADER_VERSION as int, ConfigureFile::MAGIC_VERSION),
        }
    }

    /// The writes that put the configuration into the header: the masks
    /// and the write offset relaxed, and the magic last, with release
    /// ordering.
    pub open spec fn configure_stores(self) -> Seq<Store<u64>> {
        seq![
            Store {
                index: HEADER_ENTRY_MASK as int,
                value: self.cache.entry_mask,
                order: MemoryOrder::Relaxed,
            },
            Store {
                index: HEADER_PAGE_MASK as int,
                value: self.cache.page_mask,
                order: MemoryOrder::Relaxed,
            },
            Store {
                index: HEADER_WRITE_OFFSET as int,
                value: self.cache.page_write_offset,
                order: MemoryOrder::Relaxed,
            },
            Store {
                index: HEADER_VERSION as int,
                value: ConfigureFile::MAGIC_VERSION,
                order: MemoryOrder::Release,
            },
        ]
    }

    /// The writes of a commit of `snap` as entry `index`: the descriptor
    /// is published, then the write offset is stored to the header, relaxed.
    pub open spec fn commit_stores(self, index: u64, snap: Snapshot) -> Seq<Store<u64>> {
        self.insert_stores(index, snap).push(
            Store {
                index: HEADER_WRITE_OFFSET as int,
                value: self.cache.page_write_offset,
                order: MemoryOrder::Relaxed,
            },
        )
    }

    /// The head after `bytes` were written from logical offset `start` on,
    /// byte by byte.
    pub open spec fn write_bytes(self, start: u64, bytes: Seq<u8>) -> HeadModel
        decreases bytes.len(),
    {
        if bytes.len() == 0 {
            self
        } else {
            self.write_bytes(start, bytes.drop_last()).write_at(
                wrap(start + bytes.len() - 1),
                bytes.last(),
            )
        }
    }

    /// The writes that put `bytes` into the data ring from logical offset
    /// `start` on: for every byte a relaxed store of the word it lies in.
    pub open spec fn stream_stores(self, start: u64, bytes: Seq<u8>) -> Seq<Store<u64>>
        decreases bytes.len(),
    {
        if bytes.len() == 0 {
            Seq::empty()
        } else {
            self.stream_stores(start, bytes.drop_last()).push(
                self.write_bytes(start, bytes.drop_last()).write_at_store(
                    wrap(start + bytes.len() - 1),
                    bytes.last(),
                ),
            )
        }
    }

    /// The head after `bytes` were streamed in at the write cursor, which
    /// moves behind them.
    pub open spec fn copy_from_slice(self, bytes: Seq<u8>) -> HeadModel {
        let written = self.write_bytes(self.cache.page_write_offset, bytes);
        written.with_cache(
            HeadCache {
                page_write_offset: wrap(self.cache.page_write_offset + bytes.len()),
                ..self.cache
            },
        )
    }

    /// Whether reading `snapshot` into a buffer that held `before` leaves
    /// `after`: the bytes of the snapshot as far as both reach, and behind
    /// them what the buffer held.
    pub open spec fn reads(self, snapshot: Snapshot, before: Seq<u8>, after: Seq<u8>) -> bool {
        &&& after.len() == before.len()
        &&& forall|i: int|
            0 <= i < before.len() ==> after[i] == if i < snapshot.length {
                self.byte_at(wrap(snapshot.offset + i))
            } else {
                before[i]
            }
    }

    /// The logical offset that `n` more bytes would end at, if a payload of
    /// that size may be written at all.
    pub open spec fn new_write_offset(self, n: int) -> Option<u64> {
        if n <= self.cache.page_mask {
            Some(wrap(self.cache.page_write_offset + n))
        } else {
            None
        }
    }
}

impl HeadModel {
    /// Entries from the read cursor up to the write cursor, counted the way
    /// the cursors move: forward, wrapping with the word.
    pub open spec fn entries_behind(self) -> int {
        if self.cache.entry_read_offset <= self.cache.entry_write_offset {
            self.cache.entry_write_offset - self.cache.entry_read_offset
        } else {
            0x1_0000_0000_0000_0000 - self.cache.entry_read_offset
                + self.cache.entry_write_offset
        }
    }

    /// Whether the entry at the read cursor has to go before a write that
    /// ends at logical offset `end` is published: there is such an entry,
    /// and the read cursor of the data ring is short of `end`, or the
    /// descriptor ring is full and the slot of the new entry is that of
    /// the oldest.
    pub open spec fn must_drop(self, end: u64) -> bool {
        &&& self.cache.entry_read_offset != self.cache.entry_write_offset
        &&& (self.cache.page_read_offset < end || self.entries_behind() >= self.entries())
    }

    /// The head after the oldest entries were invalidated to make room for
    /// a write that ends at logical offset `end`.
    ///
    /// While the read cursor of the data ring is short of `end`, or the
    /// descriptor ring has no slot left for a new entry, the entry at the
    /// read cursor of the descriptor ring is invalidated and the data
    /// cursor moves on by the length that entry held. When no entry is left
    /// and the data cursor is still short, it is set to `end`.
    pub open spec fn invalidate_heads_to(self, end: u64) -> HeadModel
        decreases self.entries_behind(),
    {
        if !self.must_drop(end) {
            if self.cache.page_read_offset < end {
                self.with_cache(HeadCache { page_read_offset: end, ..self.cache })
            } else {
                self
            }
        } else {
            let length = self.descriptor(self.slot_of(self.cache.entry_read_offset)).length;
            let next = HeadModel {
                cache: HeadCache {
                    entry_read_offset: wrap(self.cache.entry_read_offset + 1),
                    page_read_offset: wrap(self.cache.page_read_offset + length),
                    ..self.cache
                },
                ..self.invalidate_at(self.cache.entry_read_offset)
            };
            next.invalidate_heads_to(end)
        }
    }

    /// The writes that make room for a write that ends at logical offset
    /// `end`: for every entry that is invalidated a relaxed write of zero
    /// to its length, the oldest entry first.
    pub open spec fn invalidate_stores(self, end: u64) -> Seq<Store<u64>>
        decreases self.entries_behind(),
    {
        if !self.must_drop(end) {
            Seq::empty()
        } else {
            let length = self.descriptor(self.slot_of(self.cache.entry_read_offset)).length;
            let next = HeadModel {
                cache: HeadCache {
                    entry_read_offset: wrap(self.cache.entry_read_offset + 1),
                    page_read_offset: wrap(self.cache.page_read_offset + length),
                    ..self.cache
                },
                ..self.invalidate_at(self.cache.entry_read_offset)
            };
            seq![self.invalidate_store(self.cache.entry_read_offset)] + next.invalidate_stores(end)
        }
    }

    /// Slots an enumeration visits: those of the descriptor span, up to the
    /// entry mask the header holds.
    pub open spec fn sweep_end(self) -> int {
        let span = self.spans.sequence_pages * PAGE_DESCRIPTORS;
        let stored = self.header(HEADER_ENTRY_MASK as int) + 1;
        if stored < span {
            stored
        } else {
            span
        }
    }

    /// The valid descriptors among the first `upto` slots, in slot order.
    pub open spec fn valid_upto(self, upto: int) -> Seq<Snapshot>
        decreases upto,
    {
        if upto <= 0 {
            Seq::empty()
        } else {
            let rest = self.valid_upto(upto - 1);
            let found = self.descriptor(upto - 1);
            if found.length != 0 {
                rest.push(found)
            } else {
                rest
            }
        }
    }

    /// The valid descriptors an enumeration finds, in slot order.
    pub open spec fn valid(self) -> Seq<Snapshot> {
        self.valid_upto(self.sweep_end())
    }

    /// The smaller of the slots in `count` and the slots up to `max`.
    pub open spec fn sweep_bound(max: u64, count: int) -> int {
        if max + 1 < count {
            max + 1
        } else {
            count
        }
    }

    /// Whether the word at `at` is the length of a valid descriptor in one of
    /// the first `upto` slots that `sink` does not ask to keep.
    pub open spec fn is_dropped<C: Collect<Snapshot>>(self, sink: &C, upto: int, at: int) -> bool {
        let slot = (at - PAGE_WORDS) / 2;
        &&& at == length_word(slot)
        &&& 0 <= slot < upto
        &&& self.descriptor(slot).length != 0
        &&& !sink.keeps(self.descriptor(slot))
    }

    /// The head after every valid descriptor among the first `upto` slots
    /// that `sink` does not ask to keep was invalidated.
    pub open spec fn retain_upto<C: Collect<Snapshot>>(self, sink: &C, upto: int) -> HeadModel {
        self.with_words(
            Seq::new(
                self.words.len(),
                |at: int|
                    if self.is_dropped(sink, upto, at) {
                        0
                    } else {
                        self.words[at]
                    },
            ),
        )
    }

    /// The head after an enumeration into `sink`.
    pub open spec fn retain<C: Collect<Snapshot>>(self, sink: &C) -> HeadModel {
        self.retain_upto(sink, self.sweep_end())
    }

    /// The head after every valid descriptor among the first `upto` slots
    /// that `retain` does not ask to keep was invalidated.
    pub open spec fn retain_by<R: RetainSnapshot>(self, retain: &R, upto: int) -> HeadModel {
        self.retain_upto(&Retain::keeping(retain), upto)
    }
}

/// The whole pages behind the header lie within the region.
pub proof fn lemma_pages_fit(model: HeadModel)
    ensures
        0 <= model.pages(),
        model.pages() > 0 ==> PAGE_WORDS + PAGE_WORDS * model.pages() <= model.words.len(),
{
    if model.words.len() >= PAGE_WORDS {
        let rest: int = model.words.len() - PAGE_WORDS;
        assert(0 <= rest / 512 && 512 * (rest / 512) <= rest);
    }
}

/// The bytes of all pages a head addresses can be counted in a word.
pub proof fn lemma_pages_bytes(model: HeadModel)
    ensures
        model.pages() * PAGE_BYTES <= u64::MAX,
{
}

/// Every position of the data ring lies in a word of the data span.
pub proof fn lemma_byte_word_bounds(model: HeadModel, pos: int)
    requires
        model.wf(),
        0 <= pos < model.data(),
    ensures
        model.data_base() <= model.byte_word(pos) < model.data_base() + PAGE_WORDS
            * model.spans.data_pages,
        model.data_base() + PAGE_WORDS * model.spans.data_pages <= model.words.len(),
        0 <= pos % 8 < 8,
{
    lemma_pages_fit(model);
    assert(pos / 8 < 512 * model.spans.data_pages);
}

/// Every logical offset has a position in the data ring.
pub proof fn lemma_position_bounds(model: HeadModel, idx: u64)
    requires
        model.inv(),
    ensures
        0 <= model.position(idx) < model.data(),
{
    vstd::arithmetic::div_mod::lemma_mod_bound(idx as int, model.data());
}

/// Every entry has a slot in the descriptor ring.
pub proof fn lemma_slot_bounds(model: HeadModel, idx: u64)
    requires
        model.inv(),
    ensures
        0 <= model.slot_of(idx) < model.entries(),
{
    vstd::arithmetic::div_mod::lemma_mod_bound(idx as int, model.entries());
}

/// Both words of every slot lie in the descriptor span.
pub proof fn lemma_descriptor_bounds(model: HeadModel, slot: int)
    requires
        model.wf(),
        0 <= slot < model.entries(),
    ensures
        PAGE_WORDS <= offset_word(slot) < length_word(slot) < PAGE_WORDS + PAGE_WORDS
            * model.spans.sequence_pages,
        PAGE_WORDS + PAGE_WORDS * model.spans.sequence_pages <= model.words.len(),
{
    lemma_pages_fit(model);
}

/// Writing a byte keeps the cursors, the spans and the size of the region.
pub proof fn lemma_write_at_frame(model: HeadModel, idx: u64, byte: u8)
    requires
        model.wf(),
    ensures
        model.write_at(idx, byte).cache == model.cache,
        model.write_at(idx, byte).spans == model.spans,
        model.write_at(idx, byte).words.len() == model.words.len(),
        model.write_at(idx, byte).wf(),
{
    lemma_position_bounds(model, idx);
    lemma_byte_word_bounds(model, model.position(idx));
}

/// Writing bytes keeps the cursors, the spans and the size of the region.
pub proof fn lemma_write_bytes_frame(model: HeadModel, start: u64, bytes: Seq<u8>)
    requires
        model.wf(),
    ensures
        model.write_bytes(start, bytes).cache == model.cache,
        model.write_bytes(start, bytes).spans == model.spans,
        model.write_bytes(start, bytes).words.len() == model.words.len(),
        model.write_bytes(start, bytes).wf(),
    decreases bytes.len(),
{
    if bytes.len() > 0 {
        lemma_write_bytes_frame(model, start, bytes.drop_last());
        lemma_write_at_frame(
            model.write_bytes(start, bytes.drop_last()),
            wrap(start + bytes.len() - 1),
            bytes.last(),
        );
    }
}

/// Invalidating an entry keeps the cursors, the spans and the size of the
/// region.
pub proof fn lemma_invalidate_at_frame(model: HeadModel, idx: u64)
    requires
        model.wf(),
    ensures
        model.invalidate_at(idx).cache == model.cache,
        model.invalidate_at(idx).spans == model.spans,
        model.invalidate_at(idx).words.len() == model.words.len(),
        model.invalidate_at(idx).wf(),
{
    lemma_slot_bounds(model, idx);
    lemma_descriptor_bounds(model, model.slot_of(idx));
}

/// Making room keeps the masks, the write cursors, the spans and the size
/// of the region, and changes no word outside the descriptor ring.
pub proof fn lemma_invalidate_heads_frame(model: HeadModel, end: u64)
    requires
        model.wf(),
    ensures
        model.invalidate_heads_to(end).cache.entry_mask == model.cache.entry_mask,
        model.invalidate_heads_to(end).cache.page_mask == model.cache.page_mask,
        model.invalidate_heads_to(end).cache.entry_write_offset == model.cache.entry_write_offset,
        model.invalidate_heads_to(end).cache.page_write_offset == model.cache.page_write_offset,
        model.invalidate_heads_to(end).spans == model.spans,
        model.invalidate_heads_to(end).words.len() == model.words.len(),
        model.invalidate_heads_to(end).wf(),
        forall|at: int|
            0 <= at < model.words.len() && !(PAGE_WORDS <= at < PAGE_WORDS + PAGE_WORDS
                * model.spans.sequence_pages) ==> #[trigger] model.invalidate_heads_to(
                end,
            ).words[at] == model.words[at],
    decreases model.entries_behind(),
{
    if model.must_drop(end) {
        lemma_invalidate_at_frame(model, model.cache.entry_read_offset);
        lemma_slot_bounds(model, model.cache.entry_read_offset);
        lemma_descriptor_bounds(model, model.slot_of(model.cache.entry_read_offset));
        let length = model.descriptor(model.slot_of(model.cache.entry_read_offset)).length;
        let next = HeadModel {
            cache: HeadCache {
                entry_read_offset: wrap(model.cache.entry_read_offset + 1),
                page_read_offset: wrap(model.cache.page_read_offset + length),
                ..model.cache
            },
            ..model.invalidate_at(model.cache.entry_read_offset)
        };
        lemma_invalidate_heads_frame(next, end);
    }
}

/// Reserving room for a payload and streaming it in leaves a head that can
/// take writes.
pub proof fn lemma_reserve_wf(model: HeadModel, bytes: Seq<u8>)
    requires
        model.wf(),
    ensures
        model.reserve(bytes).wf(),
        model.reserve(bytes).spans == model.spans,
        model.reserve(bytes).words.len() == model.words.len(),
{
    let end = wrap(model.cache.page_write_offset + bytes.len());
    lemma_invalidate_heads_frame(model, end);
    let freed = model.invalidate_heads_to(end);
    lemma_write_bytes_frame(freed, freed.cache.page_write_offset, bytes);
}

impl HeadModel {
    /// The head with its cache set up for the rings and the write offset
    /// of `cfg`.
    pub open spec fn set_up(self, cfg: ConfigureFileView) -> HeadModel {
        self.with_cache(
            HeadCache {
                entry_mask: (cfg.entries - 1) as u64,
                page_mask: (cfg.data - 1) as u64,
                page_write_offset: cfg.initial_offset,
                ..self.cache
            },
        )
    }

    /// Whether `cfg` is complete, asks for rings whose sizes are powers of
    /// two, and these rings fit the pages of this head.
    pub open spec fn accepts(self, cfg: ConfigureFileView) -> bool {
        &&& cfg.layout_version == ConfigureFile::MAGIC_VERSION
        &&& is_power_of_two(cfg.entries)
        &&& is_power_of_two(cfg.data)
        &&& self.set_up(cfg).can_configure()
    }

    /// The head after it was configured as `cfg` says.
    pub open spec fn configure(self, cfg: ConfigureFileView) -> HeadModel {
        self.set_up(cfg).configure_pages()
    }

    /// The head an observer lays over the region to read it as `cfg` says,
    /// without writing to it.
    pub open spec fn alternate(self, cfg: ConfigureFileView) -> HeadModel {
        self.configure(cfg).with_words(self.words)
    }

    /// Whether the header holds masks that a configuration can be read from:
    /// both fit the machine, and behind the descriptor ring they describe
    /// the data span has at least a page left.
    pub open spec fn discoverable(self) -> bool {
        &&& self.header(HEADER_ENTRY_MASK as int) < usize::MAX
        &&& self.header(HEADER_PAGE_MASK as int) < usize::MAX
        &&& pages_for(self.header(HEADER_ENTRY_MASK as int) + 1, PAGE_DESCRIPTORS as int)
            < self.spans.data_pages
    }

    /// Bytes left for data behind the descriptor ring that the header
    /// describes.
    pub open spec fn data_space(self) -> int {
        (self.spans.data_pages - pages_for(
            self.header(HEADER_ENTRY_MASK as int) + 1,
            PAGE_DESCRIPTORS as int,
        )) * PAGE_BYTES
    }

    /// Whether `cfg` is what discovery reads from this head: the largest
    /// power of two of descriptors that the header accounts for, the largest
    /// power of two of data bytes that fit behind them, capped by the size
    /// the header holds, and the write offset and version as stored.
    pub open spec fn discovers(self, cfg: ConfigureFileView) -> bool {
        &&& is_fitting_power_of_two(
            cfg.entries,
            (self.header(HEADER_ENTRY_MASK as int) + 1) as u64,
        )
        &&& exists|available: u64|
            {
                &&& #[trigger] is_fitting_power_of_two(available, self.data_space() as u64)
                &&& cfg.data == if available <= self.header(HEADER_PAGE_MASK as int) {
                    available
                } else {
                    (self.header(HEADER_PAGE_MASK as int) + 1) as u64
                }
            }
        &&& cfg.initial_offset == self.header(HEADER_WRITE_OFFSET as int)
        &&& cfg.layout_version == self.header(HEADER_VERSION as int)
    }

    /// Index of word `idx` of the user tail.
    pub open spec fn tail_word(self, idx: int) -> int {
        self.tail_base() + idx
    }
}

/// Streaming one more byte is streaming the bytes before it and then
/// writing the byte.
pub proof fn lemma_stream_step(model: HeadModel, start: u64, bytes: Seq<u8>, i: int)
    requires
        0 <= i < bytes.len(),
    ensures
        model.write_bytes(start, bytes.take(i + 1)) == model.write_bytes(
            start,
            bytes.take(i),
        ).write_at(wrap(start + i), bytes[i]),
        model.stream_stores(start, bytes.take(i + 1)) == model.stream_stores(
            start,
            bytes.take(i),
        ).push(model.write_bytes(start, bytes.take(i)).write_at_store(wrap(start + i), bytes[i])),
{
    assert(bytes.take(i + 1).drop_last() =~= bytes.take(i));
    assert(bytes.take(i + 1).last() == bytes[i]);
}

/// Every write that streams data in is relaxed.
pub proof fn lemma_stream_stores_relaxed(model: HeadModel, start: u64, bytes: Seq<u8>)
    ensures
        model.stream_stores(start, bytes).len() == bytes.len(),
        forall|i: int|
            0 <= i < bytes.len() ==> (#[trigger] model.stream_stores(start, bytes)[i]).order
                == MemoryOrder::Relaxed,
    decreases bytes.len(),
{
    if bytes.len() > 0 {
        lemma_stream_stores_relaxed(model, start, bytes.drop_last());
    }
}

/// Every write that makes room is relaxed.
pub proof fn lemma_invalidate_stores_relaxed(model: HeadModel, end: u64)
    ensures
        forall|i: int|
            0 <= i < model.invalidate_stores(end).len() ==> (#[trigger] model.invalidate_stores(
                end,
            )[i]).order == MemoryOrder::Relaxed,
    decreases model.entries_behind(),
{
    if model.must_drop(end) {
        let length = model.descriptor(model.slot_of(model.cache.entry_read_offset)).length;
        let next = HeadModel {
            cache: HeadCache {
                entry_read_offset: wrap(model.cache.entry_read_offset + 1),
                page_read_offset: wrap(model.cache.page_read_offset + length),
                ..model.cache
            },
            ..model.invalidate_at(model.cache.entry_read_offset)
        };
        lemma_invalidate_stores_relaxed(next, end);
    }
}

} // verus!
