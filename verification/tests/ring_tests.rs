use shm_snapshot::memory::{HeapWords, MemoryOrder};
use shm_snapshot::ring::{Descriptor, DescriptorIdx, Layout, MapError, RingMapped, RingOptions};

fn region() -> HeapWords<u32> {
    HeapWords::filled(1 << 10, 0)
}

#[test]
fn primitive_ring_ops() {
    let desc = Descriptor {
        start: 0,
        end: 0xabab,
        payload: 0xdead_beef,
    };

    let mut ring = RingMapped::wrap(region(), &RingOptions { nr_descriptors: 16 }).unwrap();

    ring.push(desc);

    let region = ring.into_mapping();

    let mut ring = RingMapped::wrap(region, &RingOptions { nr_descriptors: 16 }).unwrap();

    let found = ring.restore();
    assert_eq!(found, Some(desc));
}

#[test]
fn ring_layout_follows_the_header() {
    let layout = RingMapped::<HeapWords<u32>>::layout_for(4096, &RingOptions { nr_descriptors: 16 });
    assert_eq!(
        layout,
        Ok(Layout { index_descriptors: 64, index_descriptors_mask: 15, tail: 1024 - 64 - 128 })
    );
    let exact = RingMapped::<HeapWords<u32>>::layout_for(4 * (64 + 8), &RingOptions { nr_descriptors: 1 });
    assert_eq!(exact, Ok(Layout { index_descriptors: 64, index_descriptors_mask: 0, tail: 0 }));
}

#[test]
fn ring_layout_errors() {
    let layout = |len: usize, nr: u32| {
        RingMapped::<HeapWords<u32>>::layout_for(len, &RingOptions { nr_descriptors: nr })
    };
    assert_eq!(layout(4096, 0), Err(MapError(11)));
    assert_eq!(layout(4096, 12), Err(MapError(11)));
    assert_eq!(layout(100, 1), Err(MapError(11)));
    assert_eq!(layout(4 * (64 + 8) - 1, 1), Err(MapError(11)));
    assert_eq!(layout(4096, 128), Err(MapError(11)));
    assert!(RingMapped::wrap(HeapWords::filled(10, 0u32), &RingOptions { nr_descriptors: 2 }).is_err());
}

#[test]
fn restore_finds_nothing_in_an_empty_ring() {
    let mut ring = RingMapped::wrap(region(), &RingOptions { nr_descriptors: 4 }).unwrap();
    assert_eq!(ring.restore(), None);
}

#[test]
fn push_freezes_and_invalidate_takes_back() {
    let mut ring = RingMapped::wrap(region(), &RingOptions { nr_descriptors: 2 }).unwrap();
    let first = Descriptor { payload: 0x1_0000_0002, start: 3, end: 0xffff_ffff_0000_0004 };
    let second = Descriptor { payload: 5, start: 6, end: 7 };
    assert_eq!(ring.push(first), DescriptorIdx(0));
    assert_eq!(ring.push(second), DescriptorIdx(1));

    let words = ring.into_mapping().into_vec();
    // The mark went from 0 to 2 when the slot was taken, and to 3 when frozen.
    assert_eq!(&words[64..72], &[3, 0, 2, 1, 3, 0, 4, 0xffff_ffff]);
    assert_eq!(&words[72..80], &[3, 0, 5, 0, 6, 0, 7, 0]);

    let mut ring =
        RingMapped::wrap(HeapWords::from_vec(words), &RingOptions { nr_descriptors: 2 }).unwrap();
    // Both timestamps are the same: the first in the ring is restored.
    assert_eq!(ring.restore(), Some(first));
    assert!(ring.invalidate(DescriptorIdx(0)));
    assert!(!ring.invalidate(DescriptorIdx(0)));
    assert!(!ring.invalidate(DescriptorIdx(2)));
    assert_eq!(ring.restore(), Some(second));
    assert!(ring.invalidate(DescriptorIdx(1)));
    assert_eq!(ring.restore(), None);
    let words = ring.into_mapping().into_vec();
    assert_eq!(words[64], 8);
    assert_eq!(words[72], 4);
}

#[test]
fn restore_prefers_the_latest_mark() {
    let mut ring = RingMapped::wrap(region(), &RingOptions { nr_descriptors: 2 }).unwrap();
    let old = Descriptor { payload: 1, start: 0, end: 0 };
    let new = Descriptor { payload: 2, start: 0, end: 0 };
    let newest = Descriptor { payload: 3, start: 0, end: 0 };
    ring.push(old);
    ring.push(new);
    ring.push(newest);
    let mut ring =
        RingMapped::wrap(ring.into_mapping(), &RingOptions { nr_descriptors: 2 }).unwrap();
    assert_eq!(ring.restore(), Some(newest));
    // The next push goes to the slot that was restored.
    assert_eq!(ring.push(old), DescriptorIdx(0));
}

#[test]
fn mark_wraps_into_a_new_generation() {
    let mut words = vec![0u32; 1 << 10];
    words[64] = u32::MAX;
    let mut ring =
        RingMapped::wrap(HeapWords::from_vec(words), &RingOptions { nr_descriptors: 1 }).unwrap();
    assert!(ring.invalidate(DescriptorIdx(0)));
    let words = ring.into_mapping().into_vec();
    assert_eq!(words[64], 0);
}

#[test]
fn ring_tail_is_addressed_from_the_start() {
    let mut ring = RingMapped::wrap(region(), &RingOptions { nr_descriptors: 16 }).unwrap();
    assert_eq!(ring.tail_len(), 832);
    let mut tail = ring.tail();
    assert_eq!(tail.len(), 832);
    tail.store(831, 0xabcd, MemoryOrder::Relaxed);
    assert_eq!(tail.load(831, MemoryOrder::Relaxed), 0xabcd);
    assert_eq!(ring.into_mapping().into_vec()[831], 0xabcd);
}
