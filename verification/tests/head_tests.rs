use shm_snapshot::head::WriteHead;
use shm_snapshot::model::HeadCache;
use shm_snapshot::memory::{HeapWords, MemoryOrder};
use shm_snapshot::snapshot::{Retain, Snapshot};

/// A zeroed region of a header page, two pages for descriptors and four for data.
fn with_setup(method: impl FnOnce(WriteHead<HeapWords<u64>>)) {
    method(WriteHead::new(HeapWords::filled(512 * 7, 0)))
}

#[test]
fn initialize_inner_basic() {
    let mut valids: Vec<Snapshot> = vec![];
    with_setup(|mut head| {
        head.iter_valid(&mut valids, MemoryOrder::Relaxed);
        assert!(valids.is_empty());

        head.pre_configure_pages(0x80);
        head.pre_configure_entries(0x10);
        head.configure_pages();

        let mut entry = head.entry();
        const DATA: &[u8] = b"Hello, world!";
        let end_ptr = entry
            .new_write_offset(DATA.len())
            .expect("Invalid, can't determine end offset of data");
        entry.invalidate_heads(end_ptr);
        entry.copy_from_slice(DATA);
        entry.commit();

        head.iter_valid(&mut valids, MemoryOrder::Relaxed);
        assert_eq!(valids.len(), 1);
    });
}

#[test]
fn commit_not() {
    let mut valids: Vec<Snapshot> = vec![];
    with_setup(|mut head| {
        head.iter_valid(&mut valids, MemoryOrder::Relaxed);
        assert!(valids.is_empty());

        head.pre_configure_pages(0x80);
        head.pre_configure_entries(0x10);
        head.configure_pages();

        let mut entry = head.entry();
        entry.copy_from_slice(b"Hello, world!");
        drop(entry);

        head.iter_valid(&mut valids, MemoryOrder::Relaxed);
        assert_eq!(valids.len(), 0);

        let mut entry = head.entry();
        const DATA: &[u8] = b"Hello, world!";
        let end_ptr = entry
            .new_write_offset(DATA.len())
            .expect("Invalid, can't determine end offset of data");
        entry.invalidate_heads(end_ptr);
        entry.copy_from_slice(DATA);
        entry.commit();

        head.iter_valid(&mut valids, MemoryOrder::Relaxed);
        assert_eq!(valids.len(), 1);
        assert_eq!(valids[0], Snapshot { offset: 13, length: 13 });
        let mut buffer = [0u8; 13];
        head.read(&valids[0], &mut buffer);
        assert_eq!(&buffer, DATA);
    })
}

#[test]
fn configure_pages_cuts_the_spans() {
    with_setup(|mut head| {
        let spans = head.spans();
        assert_eq!((spans.sequence_pages, spans.data_first, spans.data_pages), (6, 0, 6));
        assert_eq!(spans.tail_pages, 0);
        assert!(head.can_hold());

        head.pre_configure_entries(0x200);
        head.pre_configure_pages(0x2000);
        head.pre_configure_write(40);
        assert!(head.can_configure());
        head.configure_pages();

        let spans = head.spans();
        assert_eq!((spans.sequence_pages, spans.data_first, spans.data_pages), (2, 2, 2));
        assert_eq!((spans.tail_first, spans.tail_pages), (4, 2));
        let cache: HeadCache = head.cache();
        assert_eq!(cache.entry_mask, 0x1ff);
        assert_eq!(cache.page_mask, 0x1fff);
        assert_eq!(cache.page_write_offset, 40);
        assert_eq!(cache.page_read_offset, 40 + 0x2000);
        assert_eq!(head.tail_len(), 1024);
        assert_eq!(head.header(0, MemoryOrder::Relaxed), 0x96c2_a6f4_b685_19b3);
        assert_eq!(head.header(1, MemoryOrder::Relaxed), 0x1ff);
        assert_eq!(head.header(2, MemoryOrder::Relaxed), 0x1fff);
        assert_eq!(head.header(3, MemoryOrder::Relaxed), 40);
    })
}

#[test]
fn rings_that_do_not_fit_cannot_be_configured() {
    with_setup(|mut head| {
        head.pre_configure_entries(0x800);
        assert!(!head.can_configure());
        head.pre_configure_entries(0x100);
        head.pre_configure_pages(0x8000);
        assert!(!head.can_configure());
        head.pre_configure_pages(0x4000);
        assert!(head.can_configure());
    })
}

#[test]
fn new_write_offset_checks_the_mask() {
    with_setup(|mut head| {
        head.pre_configure_pages(0x80);
        head.pre_configure_entries(0x10);
        head.pre_configure_write(100);
        head.configure_pages();
        assert_eq!(head.new_write_offset(0), Some(100));
        assert_eq!(head.new_write_offset(0x7f), Some(100 + 0x7f));
        assert_eq!(head.new_write_offset(0x80), None);
    })
}

#[test]
fn invalidating_twice_is_invalidating_once() {
    with_setup(|mut head| {
        head.pre_configure_pages(0x10);
        head.pre_configure_entries(2);
        head.configure_pages();
        for payload in [b"aaaaaaaa", b"bbbbbbbb"] {
            let mut entry = head.entry();
            let end = entry.new_write_offset(8).unwrap();
            entry.invalidate_heads(end);
            entry.copy_from_slice(payload);
            entry.commit();
        }
        // Room for eight more bytes takes the oldest entry ...
        head.invalidate_heads_to(24);
        let once = head.cache();
        assert_eq!((once.entry_read_offset, once.page_read_offset), (1, 24));
        let mut valids: Vec<Snapshot> = vec![];
        head.iter_valid(&mut valids, MemoryOrder::Relaxed);
        assert_eq!(valids, vec![Snapshot { offset: 8, length: 8 }]);
        // ... and asking again changes nothing.
        head.invalidate_heads_to(24);
        let twice = head.cache();
        assert_eq!((twice.entry_read_offset, twice.page_read_offset), (1, 24));
        // Without a tracked entry left the cursor is set to the end asked for.
        head.invalidate_heads_to(1000);
        let last = head.cache();
        assert_eq!((last.entry_read_offset, last.page_read_offset), (2, 1000));
        valids.clear();
        head.iter_valid(&mut valids, MemoryOrder::Relaxed);
        assert!(valids.is_empty());
    })
}

#[test]
fn retain_invalidates_what_is_not_kept() {
    with_setup(|mut head| {
        head.pre_configure_pages(0x40);
        head.pre_configure_entries(4);
        head.configure_pages();
        for payload in [b"aaaa", b"bbbb", b"cccc"] {
            let mut entry = head.entry();
            let end = entry.new_write_offset(4).unwrap();
            entry.invalidate_heads(end);
            entry.copy_from_slice(payload);
            entry.commit();
        }
        let keep = vec![Snapshot { offset: 4, length: 4 }, Snapshot { offset: 99, length: 1 }];
        head.retain_in_head(&keep);
        let mut valids: Vec<Snapshot> = vec![];
        head.valid_in_head(&mut valids);
        assert_eq!(valids, vec![Snapshot { offset: 4, length: 4 }]);
        let mut buffer = [0u8; 4];
        head.read(&Snapshot { offset: 8, length: 4 }, &mut buffer);
        assert_eq!(&buffer, b"cccc");

        let nothing: Vec<Snapshot> = vec![];
        let mut sink = Retain::new(&nothing);
        head.iter_valid(&mut sink, MemoryOrder::Relaxed);
        valids.clear();
        head.valid_in_head(&mut valids);
        assert!(valids.is_empty());
    })
}
