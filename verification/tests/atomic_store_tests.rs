use std::sync::atomic::{fence, AtomicU64, Ordering};
use std::sync::Arc;

use shm_snapshot::{ConfigureFile, File, MemoryOrder, Snapshot, WordStore};

/// A region of atomic words that two handles address at once, the way a
/// writer and an observer share a mapping.
struct SharedWords {
    cells: Arc<Vec<AtomicU64>>,
}

fn ordering(order: MemoryOrder) -> Ordering {
    match order {
        MemoryOrder::Relaxed => Ordering::Relaxed,
        MemoryOrder::Acquire => Ordering::Acquire,
        MemoryOrder::Release => Ordering::Release,
    }
}

impl WordStore<u64> for SharedWords {
    fn len(&self) -> usize {
        self.cells.len()
    }

    fn load(&self, idx: usize, order: MemoryOrder) -> u64 {
        self.cells[idx].load(ordering(order))
    }

    fn store(&mut self, idx: usize, value: u64, order: MemoryOrder) {
        self.cells[idx].store(value, ordering(order))
    }

    fn swap(&mut self, idx: usize, value: u64, order: MemoryOrder) -> u64 {
        self.cells[idx].swap(value, ordering(order))
    }

    fn fence(&self, order: MemoryOrder) {
        fence(ordering(order))
    }
}

#[test]
fn observer_reads_what_the_writer_commits_through_shared_atomics() {
    let cells: Arc<Vec<AtomicU64>> = Arc::new((0..512 * 4).map(|_| AtomicU64::new(0)).collect());
    let file = File::new(SharedWords { cells: cells.clone() });
    let mut cfg = ConfigureFile::default();
    cfg.or_insert_with(|cfg| {
        cfg.entries = 8;
        cfg.data = 64;
    });
    let mut writer = file.configure(&cfg);
    writer.commit(b"first").unwrap();
    writer.commit(b"second").unwrap();

    let mut observed = File::new(SharedWords { cells: cells.clone() });
    let mut found = ConfigureFile::default();
    let mut valid = vec![];
    let mut buffer = [0u8; 6];
    {
        let recovery = observed.recover(&mut found).unwrap();
        recovery.valid(&mut valid);
        recovery.read(&valid[1], &mut buffer);
    }
    assert_eq!(
        valid,
        vec![Snapshot { offset: 0, length: 5 }, Snapshot { offset: 5, length: 6 }]
    );
    assert_eq!(&buffer, b"second");
    assert_eq!(found.initial_offset, 11);
    assert_eq!(cells[0].load(Ordering::Acquire), 0x96c2_a6f4_b685_19b3);
}

/// A region that keeps a record of every write made to it.
struct Recorded {
    cells: Vec<u64>,
    writes: Vec<(usize, u64, MemoryOrder)>,
}

impl WordStore<u64> for Recorded {
    fn len(&self) -> usize {
        self.cells.len()
    }

    fn load(&self, idx: usize, _order: MemoryOrder) -> u64 {
        self.cells[idx]
    }

    fn store(&mut self, idx: usize, value: u64, order: MemoryOrder) {
        self.cells[idx] = value;
        self.writes.push((idx, value, order));
    }

    fn swap(&mut self, idx: usize, value: u64, order: MemoryOrder) -> u64 {
        self.writes.push((idx, value, order));
        std::mem::replace(&mut self.cells[idx], value)
    }

    fn fence(&self, _order: MemoryOrder) {}
}

fn recorded_writer(entries: u64, data: u64) -> shm_snapshot::Writer<Recorded> {
    let file = File::new(Recorded { cells: vec![0; 512 * 4], writes: vec![] });
    let mut cfg = ConfigureFile::default();
    cfg.or_insert_with(|cfg| {
        cfg.entries = entries;
        cfg.data = data;
        cfg.initial_offset = 16;
    });
    file.configure(&cfg)
}

#[test]
fn configuration_is_published_by_the_release_of_the_magic() {
    let writer = recorded_writer(4, 32);
    let region = writer.into_map();
    assert_eq!(
        region.writes,
        vec![
            (1, 3, MemoryOrder::Relaxed),
            (2, 31, MemoryOrder::Relaxed),
            (3, 16, MemoryOrder::Relaxed),
            (0, 0x96c2_a6f4_b685_19b3, MemoryOrder::Release),
        ]
    );
}

#[test]
fn descriptor_is_published_by_the_release_of_its_length() {
    let mut writer = recorded_writer(4, 32);
    writer.commit(b"abc").unwrap();
    let region = writer.into_map();
    let writes = &region.writes[4..];
    // Three relaxed writes of the word that holds the data, byte by byte,
    // then the descriptor, then the write offset for the header.
    assert_eq!(
        writes,
        &[
            (1026, 0x61, MemoryOrder::Relaxed),
            (1026, 0x6261, MemoryOrder::Relaxed),
            (1026, 0x63_6261, MemoryOrder::Relaxed),
            (512, 16, MemoryOrder::Release),
            (513, 3, MemoryOrder::Release),
            (3, 19, MemoryOrder::Relaxed),
        ]
    );
}

#[test]
fn invalidation_is_a_relaxed_swap_before_the_data_is_written() {
    let mut writer = recorded_writer(2, 8);
    writer.commit(b"12345").unwrap();
    writer.commit(b"6789").unwrap();
    let writes = writer.into_map().writes;
    // Four writes configure, five stream the first payload, three publish it.
    let second = &writes[12..];
    // The second payload needs room of the first: the length of the first
    // is swapped for zero before any byte is written.
    assert_eq!(second[0], (513, 0, MemoryOrder::Relaxed));
    assert!(second[1..5].iter().all(|write| write.0 >= 1024 && write.2 == MemoryOrder::Relaxed));
    assert_eq!(
        &second[5..],
        &[
            (514, 21, MemoryOrder::Release),
            (515, 4, MemoryOrder::Release),
            (3, 25, MemoryOrder::Relaxed),
        ]
    );
}

#[test]
fn refused_commit_writes_nothing() {
    let region = Recorded { cells: vec![0; 512 * 4], writes: vec![] };
    // A writer that was not configured holds rings of one descriptor and
    // one byte.
    let mut writer = File::new(region).into_writer_unguarded();
    assert!(writer.commit(b"12345").is_err());
    assert!(writer.into_map().writes.is_empty());
}

#[test]
fn dropped_commit_tells_the_header_and_publishes_nothing() {
    let mut writer = recorded_writer(4, 32);
    assert!(writer.commit_with(b"ab", |_tx| None::<()>).is_err());
    let region = writer.into_map();
    assert_eq!(
        &region.writes[4..],
        &[
            (1026, 0x61, MemoryOrder::Relaxed),
            (1026, 0x6261, MemoryOrder::Relaxed),
            (3, 18, MemoryOrder::Relaxed),
        ]
    );
}
