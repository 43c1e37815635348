use std::sync::atomic::{fence, AtomicU64, Ordering};
use std::sync::Arc;

use shm_snapshot::{
    BackupAction, ConfigureFile, File, HeapWords, MemoryOrder, RetainSnapshot, Sandwich, Snapshot,
    WordStore, Writer,
};

/// Keeps the snapshots that start at or behind an offset.
struct NotBefore(u64);

impl RetainSnapshot for NotBefore {
    fn contains(&self, snapshot: &Snapshot) -> bool {
        snapshot.offset >= self.0
    }
}

fn fresh_writer(entries: u64, data: u64) -> Writer<HeapWords<u64>> {
    let file = File::new(HeapWords::filled(512 * 5, 0));
    let mut cfg = ConfigureFile::default();
    cfg.or_insert_with(|cfg| {
        cfg.entries = entries;
        cfg.data = data;
    });
    file.configure(&cfg)
}

fn copy_of(words: &[u64]) -> File<HeapWords<u64>> {
    File::new(HeapWords::from_vec(words.to_vec()))
}

/// A region of atomic words that a writer and an observer address at once.
struct SharedWords {
    cells: Arc<Vec<AtomicU64>>,
}

fn ordering(order: MemoryOrder) -> Ordering {
    match order {
        MemoryOrder::Relaxed => Ordering::Relaxed,
        MemoryOrder::Acquire => Ordering::Acquire,
        MemoryOrder::Release => Ordering::Release,
    }
}

impl WordStore<u64> for SharedWords {
    fn len(&self) -> usize {
        self.cells.len()
    }

    fn load(&self, idx: usize, order: MemoryOrder) -> u64 {
        self.cells[idx].load(ordering(order))
    }

    fn store(&mut self, idx: usize, value: u64, order: MemoryOrder) {
        self.cells[idx].store(value, ordering(order))
    }

    fn swap(&mut self, idx: usize, value: u64, order: MemoryOrder) -> u64 {
        self.cells[idx].swap(value, ordering(order))
    }

    fn fence(&self, order: MemoryOrder) {
        fence(ordering(order))
    }
}

#[test]
fn sandwich_captures_one_snapshot() {
    let cells: Arc<Vec<AtomicU64>> = Arc::new((0..512 * 4).map(|_| AtomicU64::new(0)).collect());
    let mut cfg = ConfigureFile::default();
    cfg.or_insert_with(|cfg| {
        cfg.entries = 8;
        cfg.data = 0x40;
    });
    let mut writer = File::new(SharedWords { cells: cells.clone() }).configure(&cfg);
    writer.commit(b"tick one").unwrap();
    writer.commit(b"tick two").unwrap();

    // The backup starts: what is valid now was written before the copy.
    let mut live = File::new(SharedWords { cells: cells.clone() });
    let first = Sandwich::before_copy(&mut live);
    assert_eq!(
        first.snapshots(),
        &vec![Snapshot { offset: 0, length: 8 }, Snapshot { offset: 8, length: 8 }]
    );

    // The region is copied word by word, and the writer commits one more
    // payload with every few hundred words that are copied.
    let mut copied = vec![0u64; cells.len()];
    for (at, word) in copied.iter_mut().enumerate() {
        if at % 600 == 599 {
            writer.commit(b"tick during the copy").unwrap();
        }
        *word = cells[at].load(Ordering::Relaxed);
    }

    let mut copy = File::new(HeapWords::from_vec(copied));
    let (action, kept) = first.after_copy(&mut copy);
    assert_eq!(action, BackupAction::Persist);
    assert_eq!(kept, vec![Snapshot { offset: 0, length: 8 }, Snapshot { offset: 8, length: 8 }]);

    // The backup, opened as a region, holds what was kept and nothing else.
    let mut backup = File::new(HeapWords::from_vec(copy.into_map().into_vec()));
    let mut found = ConfigureFile::default();
    let mut valid = vec![];
    let mut one = [0u8; 8];
    let mut two = [0u8; 8];
    {
        let recovered = backup.recover(&mut found).unwrap();
        recovered.valid(&mut valid);
        recovered.read(&valid[0], &mut one);
        recovered.read(&valid[1], &mut two);
    }
    assert_eq!(valid, kept);
    assert_eq!(&one, b"tick one");
    assert_eq!(&two, b"tick two");
}

#[test]
fn sandwich_without_common_snapshot_is_discarded() {
    let mut writer = fresh_writer(4, 0x20);
    writer.commit(&[1u8; 8]).unwrap();
    let before = writer.into_map().into_vec();
    let mut live = copy_of(&before);
    let first = Sandwich::before_copy(&mut live);
    assert_eq!(first.snapshots().len(), 1);

    let mut writer = fresh_writer(4, 0x20);
    writer.commit(&[9u8; 4]).unwrap();
    let after = writer.into_map().into_vec();
    let mut copy = copy_of(&after);
    let (action, kept) = first.after_copy(&mut copy);
    assert_eq!(action, BackupAction::Discard);
    assert!(kept.is_empty());
    // The descriptor that was not seen before is taken out of the copy,
    // its data and the header stay.
    let words = copy.into_map().into_vec();
    assert_eq!((words[512], words[513]), (0, 0));
    let mut expected = after.clone();
    expected[513] = 0;
    assert_eq!(words, expected);
}

#[test]
fn sandwich_over_blank_regions() {
    let mut blank = File::new(HeapWords::filled(512 * 5, 0u64));
    let first = Sandwich::before_copy(&mut blank);
    assert!(first.snapshots().is_empty());

    let mut writer = fresh_writer(4, 0x20);
    writer.commit(&[1u8; 8]).unwrap();
    let mut copy = File::new(writer.into_map());
    let (action, kept) = first.after_copy(&mut copy);
    assert_eq!(action, BackupAction::Discard);
    assert!(kept.is_empty());

    let mut tiny = File::new(HeapWords::filled(3, 0u64));
    let (action, kept) = first.after_copy(&mut tiny);
    assert_eq!(action, BackupAction::Discard);
    assert!(kept.is_empty());
    assert_eq!(tiny.into_map().into_vec(), vec![0u64; 3]);
}

#[test]
fn retain_by_a_rule_of_the_caller() {
    let mut writer = fresh_writer(4, 0x20);
    for round in 0u8..3 {
        writer.commit(&[round; 4]).unwrap();
    }
    let mut file = File::new(writer.into_map());
    let mut cfg = ConfigureFile::default();
    let mut valid = vec![];
    {
        let mut recovery = file.recover(&mut cfg).unwrap();
        recovery.retain(&NotBefore(4));
        recovery.valid(&mut valid);
    }
    assert_eq!(valid, vec![Snapshot { offset: 4, length: 4 }, Snapshot { offset: 8, length: 4 }]);
}
