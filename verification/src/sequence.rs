//! A primitive sequential log: one value of bytes, kept in the tail of a
//! descriptor ring and published through a descriptor.
use vstd::prelude::*;
use crate::memory::{
    extends_with,
    lemma_extends_push,
    lemma_extends_self,
    MemoryOrder,
    Store,
    WordStore,
};
use crate::layout::is_power_of_two;
use crate::ring::{
    combine,
    high_half,
    low_half,
    Descriptor,
    DescriptorIdx,
    RingMapped,
    RingModel,
    RING_HEADER_WORDS,
};

verus! {

/// What a log is asked to hold.
pub struct SeqOptions {
    /// The total buffer size to use, in bytes.
    ///
    /// Must be a power of two, and at least 4.
    pub buffer: usize,
}

/// How a log lies in the tail of its ring.
#[derive(Clone, Copy, Debug, PartialEq, Eq, Structural)]
pub struct SeqLayout {
    /// Index of the first word of the buffer.
    pub data_offset: usize,
    /// Size of the buffer in bytes minus one.
    pub buffer_mask: u32,
    /// Number of words in front of the buffer that the log leaves alone.
    pub tail: usize,
}

/// Why a log could not be laid out, restored or written.
#[derive(Clone, Copy, Debug, PartialEq, Eq, Structural)]
pub enum SeqError {
    /// The layout can not be used as it does not fulfill the invariants.
    InvalidLayout,
    /// The layout is okay, but the ring used is too small to fit the layout.
    UnfittingLayout,
    /// The layout can not be represented by this architecture.
    BadArchitectureLayout,
    /// During `restore`, no snapshot was found to restore to.
    NoSnapshot,
    /// The capacity of the buffer could not fit the provided data.
    CapacityOverflow,
}

/// Whether `n` is a power of two. Zero is not.
pub open spec fn is_power_of_two_usize(n: usize) -> bool {
    n != 0 && n & ((n - 1) as usize) == 0
}

/// The layout of a log with a buffer of `buffer` bytes in a tail of `cnt`
/// words, or why there is none.
pub open spec fn seq_layout_of(cnt: int, buffer: usize) -> Result<SeqLayout, SeqError> {
    if !is_power_of_two_usize(buffer) || buffer < 4 {
        Err(SeqError::InvalidLayout)
    } else if buffer - 1 > u32::MAX {
        Err(SeqError::BadArchitectureLayout)
    } else if cnt < RING_HEADER_WORDS + buffer / 4 {
        Err(SeqError::UnfittingLayout)
    } else {
        Ok(
            SeqLayout {
                data_offset: (cnt - RING_HEADER_WORDS) as usize,
                buffer_mask: (buffer - 1) as u32,
                tail: (cnt - RING_HEADER_WORDS - buffer / 4) as usize,
            },
        )
    }
}

/// The word that holds `b0` in its lowest byte and `b3` in its highest.
pub open spec fn pack(b0: u8, b1: u8, b2: u8, b3: u8) -> u32 {
    (b0 as int + b1 as int * 0x100 + b2 as int * 0x1_0000 + b3 as int * 0x100_0000) as u32
}

/// Byte `k` of `word`, counted from the lowest.
pub open spec fn unpack(word: u32, k: int) -> u8 {
    if k == 0 {
        (word % 0x100) as u8
    } else if k == 1 {
        (word / 0x100 % 0x100) as u8
    } else if k == 2 {
        (word / 0x1_0000 % 0x100) as u8
    } else {
        (word / 0x100_0000 % 0x100) as u8
    }
}

/// Byte `at` of `bytes`, or zero behind their end.
pub open spec fn byte_or_zero(bytes: Seq<u8>, at: int) -> u8 {
    if 0 <= at < bytes.len() {
        bytes[at]
    } else {
        0
    }
}

/// The word that the four bytes of `bytes` from `at` on make, with zeros
/// for what lies behind the end.
pub open spec fn chunk(bytes: Seq<u8>, at: int) -> u32 {
    pack(
        byte_or_zero(bytes, at),
        byte_or_zero(bytes, at + 1),
        byte_or_zero(bytes, at + 2),
        byte_or_zero(bytes, at + 3),
    )
}

/// A log as contracts speak of it.
pub struct SeqModel {
    pub ring: RingModel,
    pub layout: SeqLayout,
    pub begin: u64,
    pub len: u32,
    pub descriptor: DescriptorIdx,
}

impl SeqModel {
    /// Size of the buffer in bytes.
    pub open spec fn buffer(self) -> int {
        self.layout.buffer_mask + 1
    }

    /// Index of the word that holds the byte at position `pos` of the log.
    pub open spec fn word_at(self, pos: int) -> int {
        self.layout.data_offset + (pos % self.buffer()) / 4
    }

    /// The ring is sound, the buffer starts within its tail, and the log
    /// starts at a position that fits half a word.
    pub open spec fn sound(self) -> bool {
        &&& self.ring.wf()
        &&& is_power_of_two((self.layout.buffer_mask + 1) as u64)
        &&& self.layout.data_offset <= self.ring.layout.tail
        &&& self.begin < 0x1_0000_0000
    }

    /// The log is sound and all of its buffer lies within the tail of the
    /// ring.
    pub open spec fn wf(self) -> bool {
        &&& self.sound()
        &&& self.layout.buffer_mask / 4 < self.ring.layout.tail - self.layout.data_offset
    }

    /// Whether the word of the byte at position `pos` of the log lies
    /// within the tail of the ring.
    pub open spec fn within(self, pos: int) -> bool {
        self.word_at(pos) < self.ring.layout.tail
    }

    /// Whether the words of the first `bytes` bytes of the value lie
    /// within the tail of the ring.
    pub open spec fn reaches(self, bytes: int) -> bool {
        forall|group: int|
            0 <= group && 4 * group < bytes ==> #[trigger] self.within(self.begin + 4 * group)
    }

    /// Whether a value of `bytes` bytes can be set: one that is not
    /// turned away for its length has its words within the tail of the
    /// ring.
    pub open spec fn can_set(self, bytes: int) -> bool {
        bytes <= self.layout.buffer_mask / 2 ==> self.reaches(bytes)
    }

    /// The words of the ring after the first `count` groups of four bytes
    /// of `bytes` were stored from the start of the log on.
    pub open spec fn store_chunks(self, bytes: Seq<u8>, count: int) -> Seq<u32>
        decreases count,
    {
        if count <= 0 {
            self.ring.words
        } else {
            self.store_chunks(bytes, count - 1).update(
                self.word_at(self.begin + 4 * (count - 1)),
                chunk(bytes, 4 * (count - 1)),
            )
        }
    }

    /// The descriptor that publishes a value of `len` bytes.
    pub open spec fn publishes(self, len: u32) -> Descriptor {
        Descriptor {
            start: 0,
            end: self.layout.tail as u64,
            payload: combine(len, low_half(self.begin)),
        }
    }

    /// The log after its value was set to `bytes`.
    ///
    /// The bytes are stored in groups of four, the last group filled up
    /// with zeros. Then a descriptor with the place and the length of the
    /// value is pushed to the ring, and the descriptor of the value before
    /// is taken back unless it is the one just pushed.
    pub open spec fn set(self, bytes: Seq<u8>) -> SeqModel {
        let stored = RingModel {
            words: self.store_chunks(bytes, (bytes.len() + 3) as int / 4),
            ..self.ring
        };
        let pushed = stored.push(self.publishes(bytes.len() as u32));
        let new_idx = DescriptorIdx(self.ring.position);
        SeqModel {
            ring: if new_idx != self.descriptor {
                pushed.invalidate(self.descriptor.0)
            } else {
                pushed
            },
            len: bytes.len() as u32,
            descriptor: new_idx,
            ..self
        }
    }

    /// Whether `after` is the history `before` with the writes of setting
    /// the value to `bytes` behind it: relaxed writes of the groups of
    /// four bytes, then the writes that take back, fill and freeze the
    /// descriptor, and last the write that takes back the descriptor of
    /// the value before, if there is one to take back.
    pub open spec fn sets(
        self,
        bytes: Seq<u8>,
        before: Seq<Store<u32>>,
        after: Seq<Store<u32>>,
    ) -> bool {
        let stored = RingModel {
            words: self.store_chunks(bytes, (bytes.len() + 3) as int / 4),
            ..self.ring
        };
        let published = stored.freeze_stores(self.publishes(bytes.len() as u32));
        let pushed = stored.push(self.publishes(bytes.len() as u32));
        exists|streamed: Seq<Store<u32>>|
            {
                &&& #[trigger] extends_with(before, streamed, MemoryOrder::Relaxed)
                &&& after == if DescriptorIdx(self.ring.position) != self.descriptor {
                    (streamed.push(stored.invalidate_store(stored.position)) + published).push(
                        pushed.invalidate_store(self.descriptor.0),
                    )
                } else {
                    streamed.push(stored.invalidate_store(stored.position)) + published
                }
            }
    }

    /// Number of whole groups of four bytes that a read into a buffer of
    /// `room` bytes takes from the log: as many as the buffer has room
    /// for, short of the last group of the value.
    pub open spec fn whole_groups(self, room: int) -> int {
        let of_value = if self.len <= 4 {
            0
        } else {
            (self.len - 1) / 4
        };
        if room / 4 < of_value {
            room / 4
        } else {
            of_value
        }
    }

    /// Number of bytes from the start of the value whose words a read into
    /// a buffer of `room` bytes loads: those of the whole groups and of the
    /// group that follows them.
    pub open spec fn read_span(self, room: int) -> int {
        if self.len == 0 {
            0
        } else {
            4 * self.whole_groups(room) + 1
        }
    }

    /// Whether reading the log into a buffer that held `before` leaves
    /// `after`.
    ///
    /// The whole groups go to the front of the buffer. The group that
    /// follows them goes, as far as there is room, to the bytes of the
    /// buffer behind its last whole group of four. All other bytes stay.
    pub open spec fn gets(self, before: Seq<u8>, after: Seq<u8>) -> bool {
        let groups = self.whole_groups(before.len() as int);
        let rest_at = before.len() / 4 * 4;
        let last = self.ring.words[self.word_at(self.begin + 4 * groups)];
        &&& after.len() == before.len()
        &&& forall|i: int|
            0 <= i < before.len() ==> #[trigger] after[i] == if i < 4 * groups {
                unpack(self.ring.words[self.word_at(self.begin + i / 4 * 4)], i % 4)
            } else if i >= rest_at && self.len != 0 {
                unpack(last, i - rest_at)
            } else {
                before[i]
            }
    }
}

/// A log over a ring.
pub struct SeqInner<M> {
    ring: RingMapped<M>,
    layout: SeqLayout,
    begin: u64,
    len: u32,
    descriptor: DescriptorIdx,
}

impl<M: WordStore<u32>> View for SeqInner<M> {
    type V = SeqModel;

    closed spec fn view(&self) -> SeqModel {
        SeqModel {
            ring: self.ring@,
            layout: self.layout,
            begin: self.begin,
            len: self.len,
            descriptor: self.descriptor,
        }
    }
}

/// A log whose whole buffer lies within the tail of its ring has the
/// words of every value there.
pub proof fn lemma_buffer_reaches(log: SeqModel, bytes: int)
    requires
        log.wf(),
    ensures
        log.reaches(bytes),
        log.can_set(bytes),
{
    assert forall|group: int| 0 <= group && 4 * group < bytes implies #[trigger] log.within(
        log.begin + 4 * group,
    ) by {
        let pos = log.begin + 4 * group;
        vstd::arithmetic::div_mod::lemma_mod_bound(pos, log.buffer());
    }
}

/// Make a word of four bytes, the first the lowest.
fn pack_word(b0: u8, b1: u8, b2: u8, b3: u8) -> (word: u32)
    ensures
        word == pack(b0, b1, b2, b3),
{
    let w0: u32 = b0 as u32;
    let w1: u32 = b1 as u32;
    let w2: u32 = b2 as u32;
    let w3: u32 = b3 as u32;
    assert(w0 | (w1 << 8) | (w2 << 16) | (w3 << 24) == w0 + w1 * 0x100 + w2 * 0x1_0000 + w3
        * 0x100_0000) by (bit_vector)
        requires
            w0 < 0x100,
            w1 < 0x100,
            w2 < 0x100,
            w3 < 0x100,
    ;
    w0 | (w1 << 8) | (w2 << 16) | (w3 << 24)
}

/// Byte `k` of a word, counted from the lowest.
fn unpack_word(word: u32, k: usize) -> (byte: u8)
    requires
        k < 4,
    ensures
        byte == unpack(word, k as int),
{
    assert((word & 0xff) == word % 0x100) by (bit_vector);
    assert(((word >> 8) & 0xff) == word / 0x100 % 0x100) by (bit_vector);
    assert(((word >> 16) & 0xff) == word / 0x1_0000 % 0x100) by (bit_vector);
    assert(((word >> 24) & 0xff) == word / 0x100_0000 % 0x100) by (bit_vector);
    if k == 0 {
        (word & 0xff) as u8
    } else if k == 1 {
        ((word >> 8) & 0xff) as u8
    } else if k == 2 {
        ((word >> 16) & 0xff) as u8
    } else {
        ((word >> 24) & 0xff) as u8
    }
}

/// Byte `at` of `bytes`, or zero behind their end.
fn byte_at(bytes: &[u8], at: usize) -> (byte: u8)
    ensures
        byte == byte_or_zero(bytes@, at as int),
{
    if at < bytes.len() {
        bytes[at]
    } else {
        0
    }
}

impl<M: WordStore<u32>> SeqInner<M> {
    /// Every write made to the region, in the order they were made.
    pub closed spec fn stores(&self) -> Seq<Store<u32>> {
        self.ring.stores()
    }

    /// Lay a log over the tail of `ring`.
    pub fn wrap(ring: RingMapped<M>, options: &SeqOptions) -> (log: Result<Self, SeqError>)
        requires
            ring@.wf(),
        ensures
            match log {
                Ok(log) => {
                    &&& seq_layout_of(ring@.layout.tail as int, options.buffer) == Ok::<
                        SeqLayout,
                        SeqError,
                    >(log@.layout)
                    &&& log@.ring == ring@
                    &&& log.stores() == ring.stores()
                    &&& log@.begin == 0
                    &&& log@.len == 0
                    &&& log@.descriptor == DescriptorIdx(0)
                    &&& log@.sound()
                    &&& (log@.wf() <==> options.buffer <= 4 * RING_HEADER_WORDS)
                },
                Err(error) => seq_layout_of(ring@.layout.tail as int, options.buffer) == Err::<
                    SeqLayout,
                    SeqError,
                >(error),
            },
    {
        let layout = match Self::layout_for(ring.tail_len(), options) {
            Ok(layout) => layout,
            Err(error) => {
                return Err(error);
            },
        };
        proof {
            let buffer = options.buffer;
            let wide: u64 = buffer as u64;
            assert(buffer != 0 && buffer & ((buffer - 1) as usize) == 0 && wide == buffer as u64
                ==> wide != 0 && wide & ((wide - 1) as u64) == 0) by (bit_vector);
        }
        Ok(SeqInner { ring, layout, begin: 0, len: 0, descriptor: DescriptorIdx(0) })
    }

    /// The layout of a log with the given options in a tail of `cnt` words.
    ///
    /// The buffer takes the last words of the tail that are counted in
    /// front of a stretch as long as the header of the ring.
    pub fn layout_for(cnt: usize, options: &SeqOptions) -> (layout: Result<SeqLayout, SeqError>)
        ensures
            layout == seq_layout_of(cnt as int, options.buffer),
    {
        let buffer: usize = options.buffer;
        if buffer == 0 || buffer & (buffer - 1) != 0 {
            return Err(SeqError::InvalidLayout);
        }
        if buffer < 4 {
            return Err(SeqError::InvalidLayout);
        }
        if buffer - 1 > u32::MAX as usize {
            return Err(SeqError::BadArchitectureLayout);
        }
        let buffer_mask: u32 = (buffer - 1) as u32;
        let non_sharing_count: usize = RING_HEADER_WORDS;
        let data_offset: usize = match cnt.checked_sub(non_sharing_count) {
            Some(offset) => offset,
            None => {
                return Err(SeqError::UnfittingLayout);
            },
        };
        let tail: usize = match data_offset.checked_sub(buffer / 4) {
            Some(tail) => tail,
            None => {
                return Err(SeqError::UnfittingLayout);
            },
        };
        Ok(SeqLayout { data_offset, tail, buffer_mask })
    }

    /// Number of the word, counted from the start of the buffer, that
    /// holds the byte at position `pos` of the log.
    fn word_of(&self, pos: u64) -> (word: usize)
        requires
            self@.sound(),
        ensures
            self@.layout.data_offset + word == self@.word_at(pos as int),
    {
        let mask: u64 = self.layout.buffer_mask as u64;
        let idx: u64 = pos & mask;
        proof {
            let wide: u64 = (mask + 1) as u64;
            crate::layout::lemma_mask_is_remainder(pos, wide);
            vstd::arithmetic::div_mod::lemma_mod_bound(pos as int, wide as int);
            assert(idx >> 2 == idx / 4) by (bit_vector);
        }
        (idx >> 2) as usize
    }

    /// Index of the word that holds the byte at position `pos` of the log.
    fn word_index(&self, pos: u64) -> (at: usize)
        requires
            self@.sound(),
            self@.within(pos as int),
        ensures
            at == self@.word_at(pos as int),
            at < self@.ring.layout.tail,
            at < self@.ring.words.len(),
    {
        self.layout.data_offset + self.word_of(pos)
    }

    /// Whether the words of the first `bytes` bytes of the value lie
    /// within the tail of the ring.
    pub fn reaches(&self, bytes: u32) -> (yes: bool)
        requires
            self@.sound(),
        ensures
            yes == self@.reaches(bytes as int),
    {
        let room: usize = self.ring.tail_len() - self.layout.data_offset;
        let mut group: u64 = 0;
        while 4 * group < bytes as u64
            invariant
                self@.sound(),
                room == self@.ring.layout.tail - self@.layout.data_offset,
                4 * group <= bytes + 3,
                forall|before: int|
                    0 <= before < group ==> #[trigger] self@.within(self@.begin + 4 * before),
            decreases bytes + 4 - 4 * group,
        {
            if self.word_of(self.begin + 4 * group) >= room {
                assert(!self@.within(self@.begin + 4 * group));
                return false;
            }
            group += 1;
        }
        true
    }

    /// Whether a value of `bytes` bytes can be set.
    pub fn can_set(&self, bytes: usize) -> (yes: bool)
        requires
            self@.sound(),
        ensures
            yes == self@.can_set(bytes as int),
    {
        if bytes > u32::MAX as usize {
            return true;
        }
        let len: u32 = bytes as u32;
        len > self.layout.buffer_mask / 2 || self.reaches(len)
    }

    /// Whether the value can be retrieved into a buffer of `room` bytes.
    pub fn can_get(&self, room: usize) -> (yes: bool)
        requires
            self@.sound(),
        ensures
            yes == self@.reaches(self@.read_span(room as int)),
    {
        if self.len == 0 {
            return self.reaches(0);
        }
        let of_value: u32 = if self.len <= 4 {
            0
        } else {
            (self.len - 1) / 4
        };
        let groups: u32 = if room / 4 < of_value as usize {
            (room / 4) as u32
        } else {
            of_value
        };
        self.reaches(4 * groups + 1)
    }

    /// Try to initialize this log based on the state of the region.
    ///
    /// If a prior value was found, the number of bytes it holds is
    /// returned. Without a frozen descriptor there is no snapshot, which
    /// may be taken as the sign to start from scratch.
    pub fn restore(&mut self) -> (len: Result<u32, SeqError>)
        requires
            old(self)@.sound(),
        ensures
            final(self)@.layout == old(self)@.layout,
            final(self)@.descriptor == old(self)@.descriptor,
            final(self)@.ring.words == old(self)@.ring.words,
            final(self)@.ring.layout == old(self)@.ring.layout,
            final(self)@.sound(),
            old(self)@.wf() ==> final(self)@.wf(),
            final(self).stores() == old(self).stores(),
            match len {
                Ok(len) => {
                    let slot = final(self)@.ring.position as int;
                    &&& old(self)@.ring.is_newest(slot)
                    &&& len == low_half(old(self)@.ring.descriptor(slot).payload)
                    &&& len <= old(self)@.layout.buffer_mask / 2
                    &&& final(self)@.len == len
                    &&& final(self)@.begin == high_half(old(self)@.ring.descriptor(slot).payload)
                },
                Err(error) => {
                    &&& final(self)@.begin == old(self)@.begin
                    &&& final(self)@.len == old(self)@.len
                    &&& if old(self)@.ring.is_idle() {
                        error == SeqError::NoSnapshot && final(self)@ == old(self)@
                    } else {
                        let slot = final(self)@.ring.position as int;
                        &&& error == SeqError::InvalidLayout
                        &&& old(self)@.ring.is_newest(slot)
                        &&& low_half(old(self)@.ring.descriptor(slot).payload) > old(
                            self,
                        )@.layout.buffer_mask / 2
                    }
                },
            },
    {
        let last_descriptor = match self.ring.restore() {
            Some(descriptor) => descriptor,
            None => {
                return Err(SeqError::NoSnapshot);
            },
        };
        let offset_len: u64 = last_descriptor.payload;
        assert(offset_len >> 32 == offset_len / 0x1_0000_0000) by (bit_vector);
        assert(offset_len & 0xffff_ffff == offset_len % 0x1_0000_0000) by (bit_vector);
        let begin: u64 = offset_len >> 32;
        let len: u32 = (offset_len & 0xffff_ffff) as u32;
        if len > self.layout.buffer_mask / 2 {
            return Err(SeqError::InvalidLayout);
        }
        self.begin = begin;
        self.len = len;
        Ok(self.len)
    }

    /// Change the current value.
    ///
    /// A value of more bytes than half the buffer is turned away, and
    /// nothing is written.
    #[verifier::rlimit(40)]
    pub fn set(&mut self, seq: &[u8]) -> (done: Result<(), SeqError>)
        requires
            old(self)@.sound(),
            old(self)@.can_set(seq@.len() as int),
        ensures
            final(self)@.sound(),
            old(self)@.wf() ==> final(self)@.wf(),
            match done {
                Ok(()) => {
                    &&& seq@.len() <= old(self)@.layout.buffer_mask / 2
                    &&& final(self)@ == old(self)@.set(seq@)
                    &&& old(self)@.sets(seq@, old(self).stores(), final(self).stores())
                },
                Err(error) => {
                    &&& error == SeqError::InvalidLayout
                    &&& seq@.len() > old(self)@.layout.buffer_mask / 2
                    &&& final(self)@ == old(self)@
                    &&& final(self).stores() == old(self).stores()
                },
            },
    {
        if seq.len() > u32::MAX as usize {
            return Err(SeqError::InvalidLayout);
        }
        let len: u32 = seq.len() as u32;
        if len > self.layout.buffer_mask / 2 {
            return Err(SeqError::InvalidLayout);
        }
        let begin: u64 = self.begin;
        let mut pos: u64 = begin;
        let groups: usize = (seq.len() + 3) / 4;
        let mut group: usize = 0;
        proof {
            lemma_extends_self(self.stores());
        }
        while group < groups
            invariant
                extends_with(old(self).stores(), self.stores(), MemoryOrder::Relaxed),
                group <= groups,
                groups == (seq@.len() + 3) / 4,
                seq@.len() <= u32::MAX,
                pos == begin + 4 * group,
                begin == old(self)@.begin,
                self@.sound(),
                old(self)@.wf() ==> self@.wf(),
                old(self)@.reaches(seq@.len() as int),
                self@ == (SeqModel {
                    ring: RingModel {
                        words: old(self)@.store_chunks(seq@, group as int),
                        ..old(self)@.ring
                    },
                    ..old(self)@
                }),
            decreases groups - group,
        {
            let at: usize = 4 * group;
            let val: u32 = pack_word(
                byte_at(seq, at),
                byte_at(seq, at + 1),
                byte_at(seq, at + 2),
                byte_at(seq, at + 3),
            );
            assert(old(self)@.within(begin + 4 * group));
            let index: usize = self.word_index(pos);
            proof {
                lemma_extends_push(
                    old(self).stores(),
                    self.stores(),
                    Store { index: index as int, value: val, order: MemoryOrder::Relaxed },
                );
            }
            self.ring.tail_store(index, val, MemoryOrder::Relaxed);
            pos += 4;
            group += 1;
        }
        let (len_low, begin_low) = (len, (begin & 0xffff_ffff) as u32);
        assert(begin & 0xffff_ffff == begin % 0x1_0000_0000) by (bit_vector);
        assert((begin << 32) | (len as u64) == (begin % 0x1_0000_0000) * 0x1_0000_0000
            + len as u64) by (bit_vector);
        let offset_len: u64 = (begin << 32) | (len as u64);
        let new_idx = self.ring.push(
            Descriptor { start: 0, end: self.layout.tail as u64, payload: offset_len },
        );
        self.begin = begin;
        self.len = len;
        if new_idx.0 != self.descriptor.0 {
            self.ring.invalidate(self.descriptor);
        }
        self.descriptor = new_idx;
        Ok(())
    }

    /// Retrieve the current value into `seq`, and return its length.
    ///
    /// The value is copied in groups of four bytes, see [`SeqModel::gets`]
    /// for where each of them goes.
    #[verifier::rlimit(40)]
    pub fn get(&self, seq: &mut [u8]) -> (len: Result<usize, SeqError>)
        requires
            self@.sound(),
            self@.reaches(self@.read_span(old(seq)@.len() as int)),
        ensures
            len == Ok::<usize, SeqError>(self@.len as usize),
            self@.gets(old(seq)@, final(seq)@),
    {
        let room: usize = seq.len();
        let chunks: usize = room / 4;
        let total: u32 = self.len;
        let mut start: u32 = 0;
        let mut taken: usize = 0;
        while total - start > 4 && taken < chunks
            invariant
                start <= total,
                total == self@.len,
                start == 4 * taken,
                taken <= chunks,
                chunks == room / 4,
                room == old(seq)@.len(),
                seq@.len() == room,
                self@.sound(),
                self@.reaches(self@.read_span(room as int)),
                taken <= self@.whole_groups(room as int),
                forall|i: int|
                    0 <= i < room ==> #[trigger] seq@[i] == if i < 4 * taken {
                        unpack(self@.ring.words[self@.word_at(self@.begin + i / 4 * 4)], i % 4)
                    } else {
                        old(seq)@[i]
                    },
            decreases total - start,
        {
            assert(self@.within(self@.begin + 4 * taken));
            let index: usize = self.word_index(self.begin + start as u64);
            let word: u32 = self.ring.tail_load(index, MemoryOrder::Relaxed);
            let at: usize = 4 * taken;
            seq[at] = unpack_word(word, 0);
            seq[at + 1] = unpack_word(word, 1);
            seq[at + 2] = unpack_word(word, 2);
            seq[at + 3] = unpack_word(word, 3);
            start = start + 4;
            taken += 1;
        }
        assert(taken == self@.whole_groups(room as int));
        if total - start > 0 {
            assert(self@.within(self@.begin + 4 * taken));
            let index: usize = self.word_index(self.begin + start as u64);
            let word: u32 = self.ring.tail_load(index, MemoryOrder::Relaxed);
            let rest_at: usize = chunks * 4;
            let mut k: usize = 0;
            while rest_at + k < room
                invariant
                    k <= 4,
                    rest_at == room / 4 * 4,
                    rest_at + k <= room,
                    seq@.len() == room,
                    room == old(seq)@.len(),
                    taken == self@.whole_groups(room as int),
                    4 * taken <= rest_at,
                    forall|i: int|
                        0 <= i < room ==> #[trigger] seq@[i] == if i < 4 * taken {
                            unpack(
                                self@.ring.words[self@.word_at(self@.begin + i / 4 * 4)],
                                i % 4,
                            )
                        } else if rest_at <= i < rest_at + k {
                            unpack(word, i - rest_at)
                        } else {
                            old(seq)@[i]
                        },
                decreases room - rest_at - k,
            {
                seq[rest_at + k] = unpack_word(word, k);
                k += 1;
            }
        }
        Ok(self.len as usize)
    }

    /// Give up the log and return its ring.
    pub fn into_ring(self) -> (ring: RingMapped<M>)
        ensures
            ring@ == self@.ring,
            ring.stores() == self.stores(),
    {
        self.ring
    }
}

} // verus!
