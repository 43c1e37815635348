use shm_snapshot::memory::{HeapWords, MemoryOrder};
use shm_snapshot::ring::{Descriptor, RingMapped, RingOptions};
use shm_snapshot::sequence::{SeqError, SeqInner, SeqLayout, SeqOptions};

fn region() -> HeapWords<u32> {
    HeapWords::filled(1 << 10, 0)
}

#[test]
fn simple_seq() {
    let ropt = RingOptions { nr_descriptors: 2 };
    let sopt = SeqOptions { buffer: 1 << 7 };

    let ring = RingMapped::wrap(region(), &ropt).unwrap();
    let mut seq = SeqInner::wrap(ring, &sopt).unwrap();

    const HELLO: &[u8] = b"Hello, world!";

    seq.set(HELLO).unwrap();
    let mut buffer = [0; HELLO.len()];
    let retrieved = seq.get(&mut buffer);
    assert_eq!(retrieved, Ok(HELLO.len()));
    assert_eq!(buffer, HELLO);

    let region = seq.into_ring().into_mapping();
    let ring = RingMapped::wrap(region, &ropt).unwrap();
    let mut seq = SeqInner::wrap(ring, &sopt).unwrap();
    assert_eq!(seq.restore(), Ok(HELLO.len() as u32));

    let mut buffer = [0; HELLO.len()];
    assert_eq!(seq.get(&mut buffer), Ok(HELLO.len()));
    assert_eq!(buffer, HELLO);
}

#[test]
fn seq_layout_takes_the_end_of_the_tail() {
    let layout = SeqInner::<HeapWords<u32>>::layout_for(1000, &SeqOptions { buffer: 128 });
    assert_eq!(layout, Ok(SeqLayout { data_offset: 936, buffer_mask: 127, tail: 904 }));
    let layout = SeqInner::<HeapWords<u32>>::layout_for(65, &SeqOptions { buffer: 4 });
    assert_eq!(layout, Ok(SeqLayout { data_offset: 1, buffer_mask: 3, tail: 0 }));
}

#[test]
fn seq_layout_errors() {
    let layout = |cnt: usize, buffer: usize| {
        SeqInner::<HeapWords<u32>>::layout_for(cnt, &SeqOptions { buffer })
    };
    assert_eq!(layout(1000, 0), Err(SeqError::InvalidLayout));
    assert_eq!(layout(1000, 100), Err(SeqError::InvalidLayout));
    assert_eq!(layout(1000, 2), Err(SeqError::InvalidLayout));
    assert_eq!(layout(1000, 1 << 33), Err(SeqError::BadArchitectureLayout));
    assert_eq!(layout(63, 128), Err(SeqError::UnfittingLayout));
    assert_eq!(layout(64 + 31, 128), Err(SeqError::UnfittingLayout));
    assert!(layout(64 + 32, 128).is_ok());
}

#[test]
fn restore_without_a_value_finds_no_snapshot() {
    let ring = RingMapped::wrap(region(), &RingOptions { nr_descriptors: 2 }).unwrap();
    let mut seq = SeqInner::wrap(ring, &SeqOptions { buffer: 128 }).unwrap();
    assert_eq!(seq.restore(), Err(SeqError::NoSnapshot));
    let mut buffer = [7u8; 4];
    assert_eq!(seq.get(&mut buffer), Ok(0));
    assert_eq!(buffer, [7u8; 4]);
}

#[test]
fn values_longer_than_half_the_buffer_are_turned_away() {
    let ring = RingMapped::wrap(region(), &RingOptions { nr_descriptors: 2 }).unwrap();
    let mut seq = SeqInner::wrap(ring, &SeqOptions { buffer: 128 }).unwrap();
    assert_eq!(seq.set(&[1u8; 64]), Err(SeqError::InvalidLayout));
    assert_eq!(seq.set(&[1u8; 63]), Ok(()));
    assert_eq!(seq.into_ring().into_mapping().into_vec()[880], 0x0101_0101);
}

#[test]
fn restore_turns_away_a_length_that_does_not_fit() {
    let ring = RingMapped::wrap(region(), &RingOptions { nr_descriptors: 2 }).unwrap();
    let mut seq = SeqInner::wrap(ring, &SeqOptions { buffer: 128 }).unwrap();
    seq.set(&[1u8; 40]).unwrap();
    let region = seq.into_ring().into_mapping();
    let ring = RingMapped::wrap(region, &RingOptions { nr_descriptors: 2 }).unwrap();
    let mut seq = SeqInner::wrap(ring, &SeqOptions { buffer: 64 }).unwrap();
    assert_eq!(seq.restore(), Err(SeqError::InvalidLayout));
}

#[test]
fn set_stores_groups_of_four_bytes_and_publishes_them() {
    let ring = RingMapped::wrap(region(), &RingOptions { nr_descriptors: 2 }).unwrap();
    let mut seq = SeqInner::wrap(ring, &SeqOptions { buffer: 128 }).unwrap();
    seq.set(&[1, 2, 3, 4, 5, 6]).unwrap();
    let words = seq.into_ring().into_mapping().into_vec();
    // The tail has 1024 - 64 - 16 words, the buffer its last 64.
    assert_eq!(words[944 - 64], 0x0403_0201);
    assert_eq!(words[944 - 63], 0x0000_0605);
    // The descriptor holds the length, the start and the end of what it covers.
    assert_eq!(&words[64..72], &[3, 0, 6, 0, 0, 0, 944 - 64 - 32, 0]);
}

#[test]
fn get_fills_whole_groups_and_then_the_rest_of_the_buffer() {
    let ring = RingMapped::wrap(region(), &RingOptions { nr_descriptors: 2 }).unwrap();
    let mut seq = SeqInner::wrap(ring, &SeqOptions { buffer: 128 }).unwrap();
    seq.set(&[1, 2, 3, 4, 5, 6, 7, 8, 9, 10]).unwrap();

    let mut exact = [0u8; 10];
    assert_eq!(seq.get(&mut exact), Ok(10));
    assert_eq!(exact, [1, 2, 3, 4, 5, 6, 7, 8, 9, 10]);

    // A short buffer takes the groups it has room for; what follows them
    // goes behind its last whole group.
    let mut short = [0u8; 6];
    assert_eq!(seq.get(&mut short), Ok(10));
    assert_eq!(short, [1, 2, 3, 4, 5, 6]);

    // A long buffer is filled up to the last group of the value, which
    // goes to the bytes behind the last whole group of the buffer.
    let mut long = [0u8; 14];
    assert_eq!(seq.get(&mut long), Ok(10));
    assert_eq!(long, [1, 2, 3, 4, 5, 6, 7, 8, 0, 0, 0, 0, 9, 10]);

    // The last group of a value goes nowhere if the buffer ends with a
    // whole group.
    seq.set(&[1, 2, 3, 4, 5, 6, 7, 8]).unwrap();
    let mut whole = [0u8; 8];
    assert_eq!(seq.get(&mut whole), Ok(8));
    assert_eq!(whole, [1, 2, 3, 4, 0, 0, 0, 0]);
}

#[test]
fn a_buffer_longer_than_its_stretch_holds_short_values() {
    // The buffer starts sixty-four words before the end of the tail, so
    // only its first 256 bytes have a word there.
    let ring = RingMapped::wrap(region(), &RingOptions { nr_descriptors: 2 }).unwrap();
    let mut seq = SeqInner::wrap(ring, &SeqOptions { buffer: 1024 }).unwrap();
    assert!(seq.reaches(0));
    assert!(seq.reaches(256));
    assert!(!seq.reaches(257));
    assert!(seq.can_set(256));
    assert!(!seq.can_set(257));
    assert!(!seq.can_set(511));
    // A value of more than half the buffer is turned away before any word
    // is touched.
    assert!(seq.can_set(512));
    assert_eq!(seq.set(&[1; 512]), Err(SeqError::InvalidLayout));

    let value: Vec<u8> = (0..250u8).collect();
    seq.set(&value).unwrap();
    assert!(seq.can_get(250));
    assert!(seq.can_get(0));
    let mut buffer = vec![0u8; 250];
    assert_eq!(seq.get(&mut buffer), Ok(250));
    assert_eq!(buffer, value);
}

#[test]
fn a_buffer_within_its_stretch_holds_every_value() {
    let ring = RingMapped::wrap(region(), &RingOptions { nr_descriptors: 2 }).unwrap();
    let seq = SeqInner::wrap(ring, &SeqOptions { buffer: 256 }).unwrap();
    assert!(seq.reaches(u32::MAX));
    assert!(seq.can_set(127));
    assert!(seq.can_set(usize::MAX));
    assert!(seq.can_get(0));
    assert!(seq.can_get(usize::MAX));
}

#[test]
fn a_long_value_is_read_as_far_as_its_words_reach() {
    let mut ring = RingMapped::wrap(region(), &RingOptions { nr_descriptors: 2 }).unwrap();
    // A value of 300 bytes from position 0 on, as another writer may have
    // left it.
    ring.push(Descriptor { payload: 300, start: 0, end: 0 });
    ring.tail_store(ring.tail_len() - 64, 0x0403_0201, MemoryOrder::Relaxed);
    let mut seq = SeqInner::wrap(ring, &SeqOptions { buffer: 1024 }).unwrap();
    assert_eq!(seq.restore(), Ok(300));
    // Sixty-four words lie behind the start of the buffer: a read of up to
    // sixty-three whole groups loads no other.
    assert!(seq.can_get(8));
    assert!(seq.can_get(255));
    assert!(!seq.can_get(256));
    assert!(!seq.can_get(300));
    let mut buffer = [9u8; 6];
    assert_eq!(seq.get(&mut buffer), Ok(300));
    assert_eq!(buffer, [1, 2, 3, 4, 0, 0]);
}
