//! A ring of transaction descriptors over a region of 32-bit words.
//!
//! The producer writes a sequence of descriptors to the ring. Each comes
//! with a mark that is even while the producer owns the descriptor and odd
//! once it is frozen, and that only ever grows. A consumer that finds a
//! descriptor frozen, copies what it denotes, and finds the mark unchanged
//! afterwards knows that what it copied was not written to in between.
use vstd::prelude::*;
use crate::memory::{MemoryOrder, Store, WordStore};

verus! {

/// Words at the start of the region that the ring leaves alone.
pub const RING_HEADER_WORDS: usize = 64;

/// Words a descriptor takes.
pub const DESCRIPTOR_WORDS: usize = 8;

/// An error code from laying a ring over a region.
#[derive(Clone, Copy, Debug, PartialEq, Eq, Structural)]
pub struct MapError(pub i32);

/// What a ring is asked to hold.
pub struct RingOptions {
    /// Number of descriptors desired. Must be a power of two.
    pub nr_descriptors: u32,
}

/// How a ring lies in its region.
#[derive(Clone, Copy, Debug, PartialEq, Eq, Structural)]
pub struct Layout {
    /// Index of the first word of the first descriptor.
    pub index_descriptors: usize,
    /// Number of descriptors minus one.
    pub index_descriptors_mask: u32,
    /// Number of words the ring hands out as its tail.
    pub tail: usize,
}

/// User-facing descriptor parameter.
#[derive(Clone, Copy, Debug, PartialEq, Eq, Structural)]
pub struct Descriptor {
    pub payload: u64,
    pub start: u64,
    pub end: u64,
}

/// The index of a descriptor.
///
/// Always valid: the ring masks the index before use.
#[derive(Clone, Copy, Default, Debug, PartialEq, Eq, Structural)]
pub struct DescriptorIdx(pub u32);

/// Whether `n` is a power of two. Zero is not.
pub open spec fn is_power_of_two_u32(n: u32) -> bool {
    n != 0 && n & ((n - 1) as u32) == 0
}

/// The 64-bit value whose low half is `base` and whose high half is `top`.
pub open spec fn combine(base: u32, top: u32) -> u64 {
    (top as u64 * 0x1_0000_0000 + base as u64) as u64
}

/// The low half of `v`.
pub open spec fn low_half(v: u64) -> u32 {
    (v % 0x1_0000_0000) as u32
}

/// The high half of `v`.
pub open spec fn high_half(v: u64) -> u32 {
    (v / 0x1_0000_0000) as u32
}

/// The mark that follows `mark` and is even: the descriptor is owned by
/// the producer afterwards, whether it was frozen or not.
pub open spec fn next_open_mark(mark: u32) -> u32 {
    let frozen = if mark % 2 == 1 {
        mark as int
    } else {
        mark + 1
    };
    if frozen == u32::MAX {
        0
    } else {
        (frozen + 1) as u32
    }
}

/// The layout of a ring of `nr` descriptors in a region of `len` bytes, if
/// there is one.
pub open spec fn layout_of(len: int, nr: u32) -> Option<Layout> {
    if is_power_of_two_u32(nr) && nr * DESCRIPTOR_WORDS <= usize::MAX && len / 4
        >= RING_HEADER_WORDS + nr * DESCRIPTOR_WORDS {
        Some(
            Layout {
                index_descriptors: RING_HEADER_WORDS,
                index_descriptors_mask: (nr - 1) as u32,
                tail: (len / 4 - RING_HEADER_WORDS - nr * DESCRIPTOR_WORDS) as usize,
            },
        )
    } else {
        None
    }
}

/// A ring as contracts speak of it.
pub struct RingModel {
    pub words: Seq<u32>,
    pub position: u32,
    pub generation: u32,
    pub layout: Layout,
}

impl RingModel {
    /// Number of descriptors.
    pub open spec fn count(self) -> int {
        self.layout.index_descriptors_mask + 1
    }

    /// The ring lies within its region.
    pub open spec fn wf(self) -> bool {
        &&& self.words.len() <= usize::MAX
        &&& self.layout.index_descriptors + self.count() * DESCRIPTOR_WORDS <= self.words.len()
        &&& self.layout.tail <= self.words.len()
        &&& is_power_of_two_u32((self.layout.index_descriptors_mask + 1) as u32)
        &&& self.layout.index_descriptors_mask < u32::MAX
    }

    /// Index of the first word of the descriptor in `slot`.
    pub open spec fn base(self, slot: int) -> int {
        self.layout.index_descriptors + slot * DESCRIPTOR_WORDS
    }

    /// The slot that index `idx` names.
    pub open spec fn slot_of(self, idx: u32) -> int {
        idx as int % self.count()
    }

    /// The mark of the descriptor in `slot`.
    pub open spec fn mark(self, slot: int) -> u32 {
        self.words[self.base(slot)]
    }

    /// The timestamp of the descriptor in `slot`: its mark, with the
    /// generation stored beside it as the high half.
    pub open spec fn timestamp(self, slot: int) -> u64 {
        combine(self.words[self.base(slot)], self.words[self.base(slot) + 1])
    }

    /// Whether the descriptor in `slot` is frozen.
    pub open spec fn is_active(self, slot: int) -> bool {
        self.mark(slot) % 2 == 1
    }

    /// What the descriptor in `slot` holds.
    pub open spec fn descriptor(self, slot: int) -> Descriptor {
        let base = self.base(slot);
        Descriptor {
            payload: combine(self.words[base + 2], self.words[base + 3]),
            start: combine(self.words[base + 4], self.words[base + 5]),
            end: combine(self.words[base + 6], self.words[base + 7]),
        }
    }

    /// Whether `slot` holds the newest frozen descriptor: none has a later
    /// timestamp, and none before it has the same.
    pub open spec fn is_newest(self, slot: int) -> bool {
        &&& 0 <= slot < self.count()
        &&& self.is_active(slot)
        &&& forall|other: int|
            0 <= other < self.count() && self.is_active(other) ==> {
                &&& self.timestamp(other) <= self.timestamp(slot)
                &&& self.timestamp(other) == self.timestamp(slot) ==> slot <= other
            }
    }

    /// Whether no descriptor is frozen.
    pub open spec fn is_idle(self) -> bool {
        forall|slot: int| 0 <= slot < self.count() ==> !self.is_active(slot)
    }

    /// The ring after the descriptor that `idx` names was taken back by the
    /// producer.
    pub open spec fn invalidate(self, idx: u32) -> RingModel {
        let base = self.base(self.slot_of(idx));
        let old_mark = self.words[base];
        let new_mark = next_open_mark(old_mark);
        RingModel {
            words: self.words.update(base, new_mark),
            generation: if new_mark < old_mark && self.generation < 1 {
                1
            } else {
                self.generation
            },
            ..self
        }
    }

    /// The write that takes back the descriptor that `idx` names: its new
    /// mark, with release ordering.
    pub open spec fn invalidate_store(self, idx: u32) -> Store<u32> {
        let base = self.base(self.slot_of(idx));
        Store { index: base, value: next_open_mark(self.words[base]), order: MemoryOrder::Release }
    }

    /// The writes that fill and freeze the descriptor at the current
    /// position, once it was taken back: the payload, the start and the
    /// end relaxed, and the odd mark last, with release ordering.
    pub open spec fn freeze_stores(self, descriptor: Descriptor) -> Seq<Store<u32>> {
        let base = self.base(self.slot_of(self.position));
        let mark = next_open_mark(self.words[base]);
        seq![
            Store { index: base + 2, value: low_half(descriptor.payload), order: MemoryOrder::Relaxed },
            Store { index: base + 3, value: high_half(descriptor.payload), order: MemoryOrder::Relaxed },
            Store { index: base + 4, value: low_half(descriptor.start), order: MemoryOrder::Relaxed },
            Store { index: base + 5, value: high_half(descriptor.start), order: MemoryOrder::Relaxed },
            Store { index: base + 6, value: low_half(descriptor.end), order: MemoryOrder::Relaxed },
            Store { index: base + 7, value: high_half(descriptor.end), order: MemoryOrder::Relaxed },
            Store { index: base, value: (mark + 1) as u32, order: MemoryOrder::Release },
        ]
    }

    /// The ring after `descriptor` was pushed at the current position.
    pub open spec fn push(self, descriptor: Descriptor) -> RingModel {
        let opened = self.invalidate(self.position);
        let base = self.base(self.slot_of(self.position));
        let mark = opened.words[base];
        RingModel {
            words: opened.words.update(base + 2, low_half(descriptor.payload)).update(
                base + 3,
                high_half(descriptor.payload),
            ).update(base + 4, low_half(descriptor.start)).update(
                base + 5,
                high_half(descriptor.start),
            ).update(base + 6, low_half(descriptor.end)).update(
                base + 7,
                high_half(descriptor.end),
            ).update(base, (mark + 1) as u32),
            position: if self.position == u32::MAX {
                0
            } else {
                (self.position + 1) as u32
            },
            ..opened
        }
    }
}

/// Controller over a region that holds a ring of descriptors.
pub struct RingMapped<M> {
    mapping: M,
    position: u32,
    generation: u32,
    layout: Layout,
}

impl<M: WordStore<u32>> View for RingMapped<M> {
    type V = RingModel;

    closed spec fn view(&self) -> RingModel {
        RingModel {
            words: self.mapping.words(),
            position: self.position,
            generation: self.generation,
            layout: self.layout,
        }
    }
}

/// The words of a ring's region that it hands out for other use.
pub struct RingTail<'lt, M> {
    /// The ring the tail belongs to.
    pub ring: &'lt mut RingMapped<M>,
}

/// Join two halves into a 64-bit value.
fn recombine_u64(base: u32, top: u32) -> (v: u64)
    ensures
        v == combine(base, top),
{
    let wide_top: u64 = top as u64;
    let wide_base: u64 = base as u64;
    assert((wide_top << 32) | wide_base == wide_top * 0x1_0000_0000 + wide_base) by (bit_vector)
        requires
            wide_top <= 0xffff_ffff,
            wide_base <= 0xffff_ffff,
    ;
    (wide_top << 32) | wide_base
}

/// Split a 64-bit value into its low and its high half.
fn split_u64(v: u64) -> (halves: (u32, u32))
    ensures
        halves.0 == low_half(v),
        halves.1 == high_half(v),
        combine(halves.0, halves.1) == v,
{
    assert((v & 0xffff_ffff) == v % 0x1_0000_0000) by (bit_vector);
    assert((v >> 32) == v / 0x1_0000_0000) by (bit_vector);
    ((v & 0xffff_ffff) as u32, (v >> 32) as u32)
}

impl<M: WordStore<u32>> RingMapped<M> {
    /// Every write made to the region, in the order they were made.
    pub closed spec fn stores(&self) -> Seq<Store<u32>> {
        self.mapping.stores()
    }

    /// Lay a ring over `mapping`.
    pub fn wrap(mapping: M, opt: &RingOptions) -> (ring: Result<Self, MapError>)
        requires
            mapping.words().len() * 4 <= usize::MAX,
        ensures
            match ring {
                Ok(ring) => {
                    &&& layout_of((mapping.words().len() * 4) as int, opt.nr_descriptors) == Some(
                        ring@.layout,
                    )
                    &&& ring@.words == mapping.words()
                    &&& ring.stores() == mapping.stores()
                    &&& ring@.position == 0
                    &&& ring@.generation == 0
                    &&& ring@.wf()
                },
                Err(error) => {
                    &&& layout_of((mapping.words().len() * 4) as int, opt.nr_descriptors).is_none()
                    &&& error == MapError(11)
                },
            },
    {
        let size: usize = mapping.len() * 4;
        match Self::layout_for(size, opt) {
            Ok(layout) => Ok(RingMapped { mapping, layout, position: 0, generation: 0 }),
            Err(error) => Err(error),
        }
    }

    /// The layout of a ring with the given options in a region of `len`
    /// bytes.
    ///
    /// The descriptors follow the words the ring leaves alone; what the
    /// region holds beyond both is counted as the tail.
    pub fn layout_for(len: usize, options: &RingOptions) -> (layout: Result<Layout, MapError>)
        ensures
            match layout {
                Ok(layout) => layout_of(len as int, options.nr_descriptors) == Some(layout),
                Err(error) => layout_of(len as int, options.nr_descriptors).is_none() && error
                    == MapError(11),
            },
    {
        let usable_elements: usize = len / 4;
        let non_sharing_count: usize = RING_HEADER_WORDS;
        let nr: u32 = options.nr_descriptors;
        if nr == 0 || nr & (nr - 1) != 0 {
            return Err(MapError(11));
        }
        let descriptor_elements: usize = match (nr as usize).checked_mul(DESCRIPTOR_WORDS) {
            Some(elements) => elements,
            None => {
                return Err(MapError(11));
            },
        };
        let index_descriptors: usize = non_sharing_count;
        let usable_elements: usize = match usable_elements.checked_sub(non_sharing_count) {
            Some(elements) => elements,
            None => {
                return Err(MapError(11));
            },
        };
        let tail: usize = match usable_elements.checked_sub(descriptor_elements) {
            Some(elements) => elements,
            None => {
                return Err(MapError(11));
            },
        };
        Ok(Layout { index_descriptors, index_descriptors_mask: nr - 1, tail })
    }

    /// Index of the first word of the descriptor that `idx` names.
    fn descriptors(&self, idx: u32) -> (base: usize)
        requires
            self@.wf(),
        ensures
            base == self@.base(self@.slot_of(idx)),
            0 <= self@.slot_of(idx) < self@.count(),
            base + DESCRIPTOR_WORDS <= self@.words.len(),
    {
        let index: u32 = idx & self.layout.index_descriptors_mask;
        proof {
            let mask = self.layout.index_descriptors_mask;
            let n: u32 = (mask + 1) as u32;
            lemma_mask_is_remainder_u32(idx, n);
            vstd::arithmetic::div_mod::lemma_mod_bound(idx as int, n as int);
            assert(index * 8 + 8 <= self@.count() * 8) by (nonlinear_arith)
                requires
                    index < self@.count(),
            ;
        }
        self.layout.index_descriptors + (index as usize) * DESCRIPTOR_WORDS
    }

    /// Take back the descriptor that `idx` names and return the mark it had
    /// and the mark it has now.
    ///
    /// The new mark is even and later than the old one. If the mark wrapped
    /// around, the generation is raised so that timestamps keep growing.
    fn invalidate_inner(&mut self, idx: DescriptorIdx) -> (marks: (u32, u32))
        requires
            old(self)@.wf(),
        ensures
            final(self)@ == old(self)@.invalidate(idx.0),
            marks.0 == old(self)@.mark(old(self)@.slot_of(idx.0)),
            marks.1 == next_open_mark(marks.0),
            final(self)@.wf(),
            final(self).stores() == old(self).stores().push(old(self)@.invalidate_store(idx.0)),
    {
        let base: usize = self.descriptors(idx.0);
        let old_mark: u32 = self.mapping.load(base, MemoryOrder::Acquire);
        let new_mark: u32 = (old_mark | 1).wrapping_add(1);
        assert(old_mark | 1 == if old_mark % 2 == 1 {
            old_mark
        } else {
            (old_mark + 1) as u32
        }) by (bit_vector);
        self.mapping.store(base, new_mark, MemoryOrder::Release);
        if new_mark < old_mark {
            let new_gen: u32 = self.mapping.load(base, MemoryOrder::Acquire) + 1;
            if self.generation < new_gen {
                self.generation = new_gen;
            }
        }
        (old_mark, new_mark)
    }

    /// Mark a descriptor as no longer valid.
    ///
    /// Returns whether the descriptor was frozen before.
    pub fn invalidate(&mut self, idx: DescriptorIdx) -> (was_active: bool)
        requires
            old(self)@.wf(),
        ensures
            final(self)@ == old(self)@.invalidate(idx.0),
            was_active == old(self)@.is_active(old(self)@.slot_of(idx.0)),
            final(self)@.wf(),
            final(self).stores() == old(self).stores().push(old(self)@.invalidate_store(idx.0)),
    {
        let (old_mark, _) = self.invalidate_inner(idx);
        assert(old_mark & 1 == old_mark % 2) by (bit_vector);
        old_mark & 1 != 0
    }

    /// Write `descriptor` at the current position and freeze it.
    ///
    /// The descriptor is first taken back by the producer, then filled, and
    /// its mark is stored last, with release ordering. Returns the index of
    /// the descriptor; the next push goes to the position behind it.
    #[verifier::rlimit(40)]
    pub fn push(&mut self, descriptor: Descriptor) -> (idx: DescriptorIdx)
        requires
            old(self)@.wf(),
        ensures
            final(self)@ == old(self)@.push(descriptor),
            idx.0 == old(self)@.position,
            final(self)@.wf(),
            final(self).stores() == old(self).stores().push(
                old(self)@.invalidate_store(old(self)@.position),
            ) + old(self)@.freeze_stores(descriptor),
    {
        let (_, new_mark) = self.invalidate_inner(DescriptorIdx(self.position));
        let base: usize = self.descriptors(self.position);
        let payload = split_u64(descriptor.payload);
        let start = split_u64(descriptor.start);
        let end = split_u64(descriptor.end);
        self.mapping.store(base + 2, payload.0, MemoryOrder::Relaxed);
        self.mapping.store(base + 3, payload.1, MemoryOrder::Relaxed);
        self.mapping.store(base + 4, start.0, MemoryOrder::Relaxed);
        self.mapping.store(base + 5, start.1, MemoryOrder::Relaxed);
        self.mapping.store(base + 6, end.0, MemoryOrder::Relaxed);
        self.mapping.store(base + 7, end.1, MemoryOrder::Relaxed);
        assert(new_mark % 2 == 0 ==> new_mark | 1 == new_mark + 1) by (bit_vector);
        self.mapping.store(base, new_mark | 1, MemoryOrder::Release);
        let buf_idx = DescriptorIdx(self.position);
        self.position = self.position.wrapping_add(1);
        proof {
            assert(self@.words =~= old(self)@.push(descriptor).words);
            assert(self.stores() =~= old(self).stores().push(
                old(self)@.invalidate_store(old(self)@.position),
            ) + old(self)@.freeze_stores(descriptor));
        }
        buf_idx
    }

    /// Set the position to the most recent descriptor.
    ///
    /// Returns this descriptor on success. This is the main restore entry
    /// point. Without a frozen descriptor the ring is left as it was.
    #[verifier::rlimit(40)]
    pub fn restore(&mut self) -> (found: Option<Descriptor>)
        requires
            old(self)@.wf(),
        ensures
            final(self)@.words == old(self)@.words,
            final(self)@.layout == old(self)@.layout,
            final(self)@.wf(),
            final(self).stores() == old(self).stores(),
            match found {
                Some(descriptor) => {
                    &&& old(self)@.is_newest(final(self)@.position as int)
                    &&& descriptor == old(self)@.descriptor(final(self)@.position as int)
                    &&& final(self)@.generation == high_half(
                        old(self)@.timestamp(final(self)@.position as int),
                    )
                },
                None => {
                    &&& old(self)@.is_idle()
                    &&& final(self)@ == old(self)@
                },
            },
    {
        let mut max_ts: u64 = 0;
        let mask: u32 = self.layout.index_descriptors_mask;
        let mut index: u32 = 0;
        let mut position: u32 = self.position;
        while index <= mask
            invariant
                index <= mask + 1,
                mask == self@.layout.index_descriptors_mask,
                self@ == old(self)@,
                self.stores() == old(self).stores(),
                self@.wf(),
                max_ts == 0 ==> position == self@.position && forall|slot: int|
                    0 <= slot < index ==> !self@.is_active(slot),
                max_ts != 0 ==> {
                    &&& position < index
                    &&& self@.is_active(position as int)
                    &&& max_ts == self@.timestamp(position as int)
                    &&& forall|other: int|
                        0 <= other < index && self@.is_active(other) ==> {
                            &&& self@.timestamp(other) <= max_ts
                            &&& self@.timestamp(other) == max_ts ==> position <= other
                        }
                },
            decreases mask + 1 - index,
        {
            let base: usize = self.descriptors(index);
            proof {
                vstd::arithmetic::div_mod::lemma_small_mod(index as nat, self@.count() as nat);
            }
            let mark: u32 = self.mapping.load(base, MemoryOrder::Acquire);
            let top: u32 = self.mapping.load(base + 1, MemoryOrder::Acquire);
            let ts: u64 = recombine_u64(mark, top);
            assert(ts & 0x1 == ts % 2) by (bit_vector);
            assert(ts % 2 == mark % 2);
            if ts & 0x1 != 0 {
                if max_ts < ts {
                    position = index;
                    max_ts = ts;
                }
            }
            index += 1;
        }
        if max_ts > 0 {
            self.position = position;
            assert(max_ts >> 32 == max_ts / 0x1_0000_0000) by (bit_vector);
            self.generation = (max_ts >> 32) as u32;
            let base: usize = self.descriptors(position);
            proof {
                vstd::arithmetic::div_mod::lemma_small_mod(position as nat, self@.count() as nat);
            }
            let payload: u64 = recombine_u64(
                self.mapping.load(base + 2, MemoryOrder::Acquire),
                self.mapping.load(base + 3, MemoryOrder::Acquire),
            );
            let start: u64 = recombine_u64(
                self.mapping.load(base + 4, MemoryOrder::Acquire),
                self.mapping.load(base + 5, MemoryOrder::Acquire),
            );
            let end: u64 = recombine_u64(
                self.mapping.load(base + 6, MemoryOrder::Acquire),
                self.mapping.load(base + 7, MemoryOrder::Acquire),
            );
            Some(Descriptor { payload, start, end })
        } else {
            None
        }
    }

    /// Number of words in the tail.
    pub fn tail_len(&self) -> (len: usize)
        ensures
            len == self@.layout.tail,
    {
        self.layout.tail
    }

    /// Read word `idx` of the tail.
    pub fn tail_load(&self, idx: usize, order: MemoryOrder) -> (word: u32)
        requires
            self@.wf(),
            idx < self@.layout.tail,
        ensures
            word == self@.words[idx as int],
    {
        self.mapping.load(idx, order)
    }

    /// Overwrite word `idx` of the tail.
    pub fn tail_store(&mut self, idx: usize, value: u32, order: MemoryOrder)
        requires
            old(self)@.wf(),
            idx < old(self)@.layout.tail,
        ensures
            final(self)@ == (RingModel {
                words: old(self)@.words.update(idx as int, value),
                ..old(self)@
            }),
            final(self)@.wf(),
            final(self).stores() == old(self).stores().push(
                Store { index: idx as int, value, order },
            ),
    {
        self.mapping.store(idx, value, order);
    }

    /// Return the unused remaining part of memory.
    pub fn tail(&mut self) -> (tail: RingTail<'_, M>)
        ensures
            *tail.ring == *old(self),
            *final(self) == *final(tail.ring),
    {
        RingTail { ring: self }
    }

    /// Give up the ring and return the region.
    pub fn into_mapping(self) -> (mapping: M)
        ensures
            mapping.words() == self@.words,
            mapping.stores() == self.stores(),
    {
        self.mapping
    }
}

impl<'lt, M: WordStore<u32>> RingTail<'lt, M> {
    /// Number of words in the tail.
    pub fn len(&self) -> (len: usize)
        ensures
            len == old(self.ring)@.layout.tail,
    {
        self.ring.tail_len()
    }

    /// Read word `idx` of the tail.
    pub fn load(&self, idx: usize, order: MemoryOrder) -> (word: u32)
        requires
            old(self.ring)@.wf(),
            idx < old(self.ring)@.layout.tail,
        ensures
            word == old(self.ring)@.words[idx as int],
    {
        self.ring.tail_load(idx, order)
    }

    /// Overwrite word `idx` of the tail.
    pub fn store(&mut self, idx: usize, value: u32, order: MemoryOrder)
        requires
            old(self).ring@.wf(),
            idx < old(self).ring@.layout.tail,
        ensures
            final(self).ring@ == (RingModel {
                words: old(self).ring@.words.update(idx as int, value),
                ..old(self).ring@
            }),
            final(self).ring@.wf(),
            final(self).ring.stores() == old(self).ring.stores().push(
                Store { index: idx as int, value, order },
            ),
            *final(final(self).ring) == *final(old(self).ring),
    {
        self.ring.tail_store(idx, value, order);
    }
}

/// Masking with a power of two minus one is the remainder by that power.
pub proof fn lemma_mask_is_remainder_u32(x: u32, n: u32)
    requires
        is_power_of_two_u32(n),
    ensures
        x & ((n - 1) as u32) == x % n,
{
    let wide_x: u64 = x as u64;
    let wide_n: u64 = n as u64;
    assert(n != 0 && n & ((n - 1) as u32) == 0 ==> wide_n != 0 && wide_n & ((wide_n - 1) as u64)
        == 0 && (x & ((n - 1) as u32)) as u64 == wide_x & ((wide_n - 1) as u64)) by (bit_vector)
        requires
            wide_x == x as u64,
            wide_n == n as u64,
    ;
    crate::layout::lemma_mask_is_remainder(wide_x, wide_n);
}

} // verus!
