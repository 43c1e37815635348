use shm_snapshot::{
    CommitFailure, ConfigureFile, File, HeapWords, MemoryOrder, Snapshot, Writer,
};

/// A zeroed region of `pages` pages behind the header page.
fn region(pages: usize) -> HeapWords<u64> {
    HeapWords::filled(512 * (pages + 1), 0)
}

fn configuration(entries: u64, data: u64) -> ConfigureFile {
    let mut cfg = ConfigureFile::default();
    cfg.or_insert_with(|cfg| {
        cfg.entries = entries;
        cfg.data = data;
    });
    cfg
}

fn fresh_writer(pages: usize, entries: u64, data: u64) -> Writer<HeapWords<u64>> {
    let file = File::new(region(pages));
    let cfg = configuration(entries, data);
    assert!(file.accepts(&cfg));
    file.configure(&cfg)
}

fn valid_of(writer: &Writer<HeapWords<u64>>) -> Vec<Snapshot> {
    let mut valid = vec![];
    writer.valid(&mut valid);
    valid
}

fn read_all(writer: &Writer<HeapWords<u64>>, snapshot: &Snapshot) -> Vec<u8> {
    let mut buffer = vec![0u8; snapshot.length as usize];
    writer.read(snapshot, &mut buffer);
    buffer
}

fn overlap(one: &Snapshot, other: &Snapshot, data: u64) -> bool {
    (0..one.length).any(|i| {
        (0..other.length).any(|k| (one.offset + i) % data == (other.offset + k) % data)
    })
}

#[test]
fn fresh_configure_and_single_commit() {
    let mut writer = fresh_writer(4, 0x100, 0x800);
    let index = writer.commit(b"Hello, world").unwrap();
    assert_eq!(index.entry(), 0);
    let valid = valid_of(&writer);
    assert_eq!(valid, vec![Snapshot { offset: 0, length: 12 }]);
    assert_eq!(read_all(&writer, &valid[0]), b"Hello, world");
    assert_eq!(writer.entry_at(&index), Snapshot { offset: 0, length: 12 });
}

#[test]
fn after_no_writes() {
    let mut file = File::new(region(8));
    let mut cfg = ConfigureFile::default();
    assert!(file.recover(&mut cfg).is_none());
    cfg.or_insert_with(|cfg| {
        cfg.entries = 0x80;
        cfg.data = 0x100;
    });

    let mut writer = file.configure(&cfg);
    const GREETING: &[u8] = b"Hello, world";
    writer.commit(GREETING).unwrap();

    let restore_from = writer.into_map();

    let mut file = File::new(restore_from);
    let mut cfg = ConfigureFile::default();
    let mut valid_priors = vec![];
    {
        let recovered = file.recover(&mut cfg).expect("to recover the configuration");
        recovered.valid(&mut valid_priors);
    }
    cfg.or_insert_with(|cfg| {
        panic!("Failed to restore configuration {cfg:?}");
    });
    assert_eq!(valid_priors.len(), 1, "{:?}", &valid_priors);

    let _writer = file.configure(&cfg);
}

#[test]
fn recovery_after_clean_restart() {
    let mut writer = fresh_writer(4, 0x100, 0x800);
    writer.commit(b"Hello, world").unwrap();
    let map = writer.into_map();

    let mut file = File::new(map);
    let mut cfg = ConfigureFile::default();
    let mut valid = vec![];
    let mut buffer = [0u8; 12];
    {
        let recovered = file.recover(&mut cfg).expect("a configured region");
        recovered.valid(&mut valid);
        recovered.read(&valid[0], &mut buffer);
    }
    assert!(cfg.is_initialized());
    assert_eq!(cfg.entries, 0x100);
    assert_eq!(cfg.data, 0x800);
    assert_eq!(cfg.initial_offset, 12);
    assert_eq!(valid, vec![Snapshot { offset: 0, length: 12 }]);
    assert_eq!(&buffer, b"Hello, world");
}

#[test]
fn overflow_triggers_invalidation() {
    let mut writer = fresh_writer(4, 4, 0x20);
    for round in 0u8..4 {
        let index = writer.commit(&[round; 8]).unwrap();
        assert_eq!(index.entry(), round as u64);
    }
    assert_eq!(valid_of(&writer).len(), 4);
    let index = writer.commit(&[4u8; 8]).unwrap();
    assert_eq!(index.entry(), 4);

    let valid = valid_of(&writer);
    assert_eq!(
        valid,
        vec![
            Snapshot { offset: 32, length: 8 },
            Snapshot { offset: 8, length: 8 },
            Snapshot { offset: 16, length: 8 },
            Snapshot { offset: 24, length: 8 },
        ]
    );
    for (at, one) in valid.iter().enumerate() {
        for other in &valid[at + 1..] {
            assert!(!overlap(one, other, 0x20));
        }
    }
    assert_eq!(read_all(&writer, &valid[0]), [4u8; 8]);
    assert_eq!(read_all(&writer, &valid[1]), [1u8; 8]);
    assert_eq!(read_all(&writer, &valid[2]), [2u8; 8]);
    assert_eq!(read_all(&writer, &valid[3]), [3u8; 8]);
}

#[test]
fn aborted_commit_preserves_prior_state() {
    let mut writer = fresh_writer(4, 0x100, 0x800);
    writer.commit(b"Hello, world").unwrap();
    let before = valid_of(&writer);

    let result = writer.commit_with(b"dropped", |_tx| None::<()>);
    let error = result.unwrap_err();
    assert_eq!(error.kind(), CommitFailure::Aborted);
    assert_eq!(valid_of(&writer), before);
    assert_eq!(read_all(&writer, &before[0]), b"Hello, world");

    // The reserved bytes are lost: the next entry starts behind them.
    let index = writer.commit(b"next").unwrap();
    assert_eq!(index.entry(), 1);
    assert_eq!(writer.entry_at(&index), Snapshot { offset: 19, length: 4 });
}

#[test]
fn aborted_commit_advances_the_write_offset_in_the_header() {
    let mut writer = fresh_writer(4, 0x100, 0x800);
    writer.commit(b"Hello, world").unwrap();
    let words = writer.into_map().into_vec();
    assert_eq!(words[3], 12);

    let mut writer = File::new(HeapWords::from_vec(words)).configure(&{
        let mut cfg = configuration(0x100, 0x800);
        cfg.initial_offset = 12;
        cfg
    });
    assert!(writer.commit_with(b"dropped", |_tx| None::<()>).is_err());
    let words = writer.into_map().into_vec();
    assert_eq!(words[3], 19);
    assert!(words[3] > 12);

    // Whoever recovers the region is told that the bytes are taken.
    let mut file = File::new(HeapWords::from_vec(words));
    let mut cfg = ConfigureFile::default();
    let mut valid = vec![];
    {
        let recovered = file.recover(&mut cfg).unwrap();
        recovered.valid(&mut valid);
    }
    assert_eq!(cfg.initial_offset, 19);
    assert_eq!(valid, vec![Snapshot { offset: 0, length: 12 }]);
}

#[test]
fn oversize_rejection() {
    let mut writer = fresh_writer(4, 4, 0x100);
    let payload = [7u8; 0x100];
    let error = writer.commit(&payload).unwrap_err();
    assert_eq!(error.kind(), CommitFailure::Capacity);
    assert!(valid_of(&writer).is_empty());
    writer.commit(&payload[..0xff]).unwrap();
    assert_eq!(valid_of(&writer), vec![Snapshot { offset: 0, length: 0xff }]);
}

#[test]
fn zero_length_commit_is_accepted_and_invalid() {
    let mut writer = fresh_writer(4, 4, 0x20);
    let index = writer.commit(b"").unwrap();
    assert_eq!(index.entry(), 0);
    assert!(valid_of(&writer).is_empty());
    assert_eq!(writer.entry_at(&index), Snapshot { offset: 0, length: 0 });
}

#[test]
fn region_too_small_refuses_writes() {
    let file = File::new(HeapWords::filled(100, 0u64));
    let mut writer = file.into_writer_unguarded();
    assert!(!writer.is_ready());
    assert_eq!(writer.commit(b"x").unwrap_err().kind(), CommitFailure::Capacity);
    assert_eq!(writer.commit(b"").unwrap_err().kind(), CommitFailure::Capacity);
    assert!(valid_of(&writer).is_empty());
    assert_eq!(writer.tail().len(), 0);
}

#[test]
fn region_too_small_recovers_nothing() {
    let mut file = File::new(HeapWords::filled(512, 0u64));
    let mut cfg = ConfigureFile::default();
    assert!(file.recover(&mut cfg).is_none());
    assert_eq!(cfg.entries, 0);
    assert!(!file.accepts(&configuration(1, 1)));
    let file = File::new(HeapWords::filled(512 * 3, 0u64));
    assert!(file.accepts(&configuration(256, 4096)));
    assert!(!file.accepts(&configuration(512, 4096)));
    assert!(!file.accepts(&configuration(256, 8192)));
    assert!(!file.accepts(&configuration(3, 4096)));
    assert!(!file.accepts(&ConfigureFile::default()));
}

#[test]
fn uninitialized_region_is_discovered_as_such() {
    let mut file = File::new(region(3));
    let mut cfg = ConfigureFile::default();
    assert!(file.recover(&mut cfg).is_none());
    assert!(!cfg.is_initialized());
    // One descriptor is accounted for, and behind its page two pages are left.
    assert_eq!(cfg.entries, 1);
    assert_eq!(cfg.data, 1);
    assert_eq!(cfg.initial_offset, 0);
}

#[test]
fn discover_then_configure_keeps_the_header() {
    let mut writer = fresh_writer(6, 0x100, 0x1000);
    writer.commit(b"some data").unwrap();
    let words = writer.into_map().into_vec();

    let mut file = File::new(HeapWords::from_vec(words.clone()));
    let mut cfg = ConfigureFile::default();
    assert!(file.recover(&mut cfg).is_some());
    let again = file.configure(&cfg).into_map().into_vec();
    assert_eq!(&again[..512], &words[..512]);
    assert_eq!(again, words);
    assert_eq!(&words[..4], &[0x96c2_a6f4_b685_19b3, 0xff, 0xfff, 9]);
}

#[test]
fn bytes_are_packed_into_lanes() {
    let mut writer = fresh_writer(2, 1, 0x10);
    writer.commit(&[0x11, 0x22, 0x33, 0x44, 0x55, 0x66, 0x77, 0x88, 0x99]).unwrap();
    let words = writer.into_map().into_vec();
    // Header page, one page of descriptors, then the data ring.
    assert_eq!(words[512], 0);
    assert_eq!(words[513], 9);
    assert_eq!(words[1024], 0x8877_6655_4433_2211);
    assert_eq!(words[1025], 0x99);
}

#[test]
fn data_wraps_around_the_ring() {
    let mut writer = fresh_writer(2, 2, 0x10);
    writer.commit(&[1u8; 12]).unwrap();
    let index = writer.commit(b"wrapped!").unwrap();
    let snapshot = writer.entry_at(&index);
    assert_eq!(snapshot, Snapshot { offset: 12, length: 8 });
    assert_eq!(valid_of(&writer), vec![Snapshot { offset: 12, length: 8 }]);
    assert_eq!(read_all(&writer, &snapshot), b"wrapped!");
    let words = writer.into_map().into_vec();
    assert_eq!(words[1025] >> 32, u32::from_le_bytes(*b"wrap") as u64);
    assert_eq!(words[1024] & 0xffff_ffff, u32::from_le_bytes(*b"ped!") as u64);
}

#[test]
fn read_copies_no_more_than_the_snapshot_holds() {
    let mut writer = fresh_writer(4, 4, 0x20);
    writer.commit(b"abcdef").unwrap();
    let snapshot = Snapshot { offset: 0, length: 6 };
    let mut long = [b'.'; 9];
    writer.read(&snapshot, &mut long);
    assert_eq!(&long, b"abcdef...");
    let mut short = [b'.'; 3];
    writer.read(&snapshot, &mut short);
    assert_eq!(&short, b"abc");
}

#[test]
fn prepared_transaction_replaces_data_and_uses_tail() {
    let mut writer = fresh_writer(5, 4, 0x20);
    let (index, value) = writer
        .commit_with(b"12345678", |mut tx| {
            assert_eq!(tx.offset, 0);
            assert_eq!(tx.length, 8);
            tx.replace(b"abcd");
            let mut tail = tx.tail();
            assert_eq!(tail.len(), 3 * 512);
            tail.store(5, 0xfeed, MemoryOrder::Relaxed);
            Some(77u8)
        })
        .unwrap();
    assert_eq!(value, 77);
    let snapshot = writer.entry_at(&index);
    assert_eq!(snapshot, Snapshot { offset: 0, length: 8 });
    assert_eq!(read_all(&writer, &snapshot), b"abcd5678");
    assert_eq!(writer.tail().load(5, MemoryOrder::Relaxed), 0xfeed);
    assert_eq!(writer.tail().load(6, MemoryOrder::Relaxed), 0);
    let words = writer.into_map().into_vec();
    assert_eq!(words[512 * 3 + 5], 0xfeed);
}

#[test]
fn committed_payloads_read_back_until_invalidated() {
    let mut writer = fresh_writer(4, 8, 0x40);
    let mut committed: Vec<(Snapshot, Vec<u8>)> = vec![];
    for round in 0u8..40 {
        let payload: Vec<u8> = (0..(round % 13 + 1)).map(|i| round.wrapping_mul(7) ^ i).collect();
        let index = writer.commit(&payload).unwrap();
        committed.push((writer.entry_at(&index), payload));
        let valid = valid_of(&writer);
        for (at, one) in valid.iter().enumerate() {
            for other in &valid[at + 1..] {
                assert!(!overlap(one, other, 0x40), "{one:?} {other:?}");
            }
            let (_, payload) = committed
                .iter()
                .find(|(snapshot, _)| snapshot == one)
                .expect("only committed snapshots are valid");
            assert_eq!(&read_all(&writer, one), payload);
        }
        assert!(valid.contains(&committed.last().unwrap().0));
    }
}

#[test]
fn descriptor_ring_exhaustion_overwrites_the_oldest_slot() {
    let mut writer = fresh_writer(4, 4, 0x20);
    for round in 0u8..5 {
        writer.commit(&[round]).unwrap();
    }
    assert_eq!(
        valid_of(&writer),
        vec![
            Snapshot { offset: 4, length: 1 },
            Snapshot { offset: 1, length: 1 },
            Snapshot { offset: 2, length: 1 },
            Snapshot { offset: 3, length: 1 },
        ]
    );
}

#[test]
fn commit_error_has_a_message() {
    let mut writer = fresh_writer(4, 4, 0x20);
    let error = writer.commit(&[0u8; 0x20]).unwrap_err();
    assert_eq!(error.message(), "Failed to commit snapshot data");
}

/// A sequence of words that looks arbitrary and is the same in every run.
fn scrambled(seed: u64, len: usize) -> Vec<u64> {
    let mut state = seed;
    (0..len)
        .map(|_| {
            state = state.wrapping_mul(6364136223846793005).wrapping_add(1442695040888963407);
            let high = state >> 33;
            // Mostly small numbers, as a header would hold them; now and then anything.
            match high % 4 {
                0 => state,
                1 => high % 5000,
                2 => (1 << (high % 14)) - 1,
                _ => 0,
            }
        })
        .collect()
}

#[test]
fn regions_of_any_content_are_handled() {
    for seed in 0..200u64 {
        let len = [0usize, 1, 511, 512, 1023, 1024, 1536, 2048, 5000][seed as usize % 9];
        let mut words = scrambled(seed, len);
        if seed % 2 == 0 && len > 4 {
            words[0] = 0x96c2_a6f4_b685_19b3;
        }
        let mut file = File::new(HeapWords::from_vec(words));
        let mut cfg = ConfigureFile::default();
        let mut valid = vec![];
        if let Some(mut recovered) = file.recover(&mut cfg) {
            recovered.valid(&mut valid);
            for snapshot in &valid {
                assert_ne!(snapshot.length, 0);
                let mut buffer = [0u8; 40];
                recovered.read(snapshot, &mut buffer);
            }
            let keep: Vec<Snapshot> = valid.iter().copied().step_by(2).collect();
            recovered.retain(&keep);
            let mut kept = vec![];
            recovered.valid(&mut kept);
            assert!(kept.iter().all(|snapshot| keep.contains(snapshot)));
        }
        cfg.or_insert_with(|cfg| {
            cfg.entries = 8;
            cfg.data = 64;
            cfg.initial_offset = seed.wrapping_mul(0x1234_5678_9abc_def1);
        });
        let mut writer = if file.accepts(&cfg) {
            file.configure(&cfg)
        } else {
            file.into_writer_unguarded()
        };
        for round in 0..30usize {
            let payload = vec![round as u8; (round * 7 + seed as usize) % 70];
            match writer.commit(&payload) {
                Ok(index) => {
                    let snapshot = writer.entry_at(&index);
                    assert_eq!(snapshot.length as usize, payload.len());
                    assert_eq!(read_all(&writer, &snapshot), payload);
                }
                Err(error) => assert_eq!(error.kind(), CommitFailure::Capacity),
            }
        }
        let mut valid = vec![];
        writer.valid(&mut valid);
    }
}

#[test]
fn commits_that_would_wrap_a_cursor_are_refused() {
    let file = File::new(region(4));
    let mut cfg = configuration(4, 0x20);
    cfg.initial_offset = u64::MAX - 0x20 - 10;
    let mut writer = file.configure(&cfg);
    // Ten bytes are left before the offset of the byte behind a whole data
    // ring would not fit the word any more.
    let error = writer.commit(b"01234567890").unwrap_err();
    assert_eq!(error.kind(), CommitFailure::Capacity);
    assert!(valid_of(&writer).is_empty());
    let index = writer.commit(b"0123456789").unwrap();
    let snapshot = writer.entry_at(&index);
    assert_eq!(snapshot, Snapshot { offset: u64::MAX - 0x20 - 10, length: 10 });
    assert_eq!(read_all(&writer, &snapshot), b"0123456789");
    assert_eq!(writer.commit(b"0").unwrap_err().kind(), CommitFailure::Capacity);
    assert_eq!(writer.commit(b"").unwrap().entry(), 1);
}

#[test]
fn full_descriptor_ring_gives_up_its_oldest_entry() {
    // Four descriptors, eight bytes: the descriptors run out before the
    // bytes do.
    let mut writer = fresh_writer(4, 4, 8);
    for (round, size) in [1usize, 1, 1, 1, 3, 4].into_iter().enumerate() {
        writer.commit(&vec![round as u8; size]).unwrap();
        let valid = valid_of(&writer);
        for (at, one) in valid.iter().enumerate() {
            for other in &valid[at + 1..] {
                assert!(!overlap(one, other, 8), "{one:?} {other:?}");
            }
            // Every payload holds the number of its round, and the rounds
            // start at the offsets 0, 1, 2, 3, 4 and 7.
            let round = one.offset.min(5) as u8;
            assert_eq!(read_all(&writer, one), vec![round; one.length as usize]);
        }
    }
    // The sixth commit needs the bytes of the first three, and its
    // descriptor takes the slot of the second.
    assert_eq!(
        valid_of(&writer),
        vec![
            Snapshot { offset: 4, length: 3 },
            Snapshot { offset: 7, length: 4 },
            Snapshot { offset: 3, length: 1 },
        ]
    );
}

fn apart(valid: &[Snapshot], data: u64) -> bool {
    valid.iter().enumerate().all(|(at, one)| {
        valid[at + 1..].iter().all(|other| !overlap(one, other, data))
    })
}

#[test]
fn restart_takes_over_the_entries_of_the_region() {
    let mut writer = fresh_writer(4, 8, 8);
    for round in 0..3u8 {
        writer.commit(&[round]).unwrap();
    }
    let file = File::new(writer.into_map());
    let cfg = ConfigureFile::with_rings(8, 8, 3);
    assert!(cfg.is_initialized());
    assert!(file.accepts(&cfg));
    let mut writer = file.configure(&cfg);
    assert_eq!(
        valid_of(&writer),
        vec![
            Snapshot { offset: 0, length: 1 },
            Snapshot { offset: 1, length: 1 },
            Snapshot { offset: 2, length: 1 },
        ]
    );
    // Seven bytes from offset 3 on take the places 3 to 7, 0 and 1.
    let index = writer.commit(b"sevenly").unwrap();
    // The entries are counted from the slot behind the latest one, so the
    // three that were taken over are the entries 8 to 10.
    assert_eq!(index.entry(), 11);
    assert_eq!(writer.entry_at(&index), Snapshot { offset: 3, length: 7 });
    let valid = valid_of(&writer);
    assert!(apart(&valid, 8));
    assert_eq!(
        valid,
        vec![Snapshot { offset: 2, length: 1 }, Snapshot { offset: 3, length: 7 }]
    );
    assert_eq!(read_all(&writer, &valid[0]), [2]);
    assert_eq!(read_all(&writer, &valid[1]), b"sevenly");
}

#[test]
fn restart_continues_a_descriptor_ring_that_came_round() {
    let mut writer = fresh_writer(4, 4, 0x40);
    for round in 0..6u8 {
        writer.commit(&[round; 5]).unwrap();
    }
    let before = valid_of(&writer);
    assert_eq!(
        before,
        vec![
            Snapshot { offset: 20, length: 5 },
            Snapshot { offset: 25, length: 5 },
            Snapshot { offset: 10, length: 5 },
            Snapshot { offset: 15, length: 5 },
        ]
    );
    let mut file = File::new(writer.into_map());
    let mut cfg = ConfigureFile::default();
    assert!(file.recover(&mut cfg).is_some());
    assert_eq!(cfg.initial_offset, 30);
    let mut writer = file.configure(&cfg);
    assert_eq!(valid_of(&writer), before);
    // The ring is full: the next commit gives up the oldest entry, whose
    // data starts at offset 10, and takes its slot.
    writer.commit(&[6; 5]).unwrap();
    let valid = valid_of(&writer);
    assert_eq!(
        valid,
        vec![
            Snapshot { offset: 20, length: 5 },
            Snapshot { offset: 25, length: 5 },
            Snapshot { offset: 30, length: 5 },
            Snapshot { offset: 15, length: 5 },
        ]
    );
    for snapshot in &valid {
        let round = (snapshot.offset / 5) as u8;
        assert_eq!(read_all(&writer, snapshot), [round; 5]);
    }
}

#[test]
fn restart_invalidates_descriptors_that_do_not_fit() {
    let mut writer = fresh_writer(4, 8, 16);
    for round in 0..3u8 {
        writer.commit(&[round; 4]).unwrap();
    }
    let file = File::new(writer.into_map());
    // The write offset is set back behind the end of the second entry.
    let mut writer = file.configure(&ConfigureFile::with_rings(8, 16, 6));
    assert_eq!(valid_of(&writer), vec![Snapshot { offset: 0, length: 4 }]);
    writer.commit(&[9; 12]).unwrap();
    let valid = valid_of(&writer);
    assert!(apart(&valid, 16));
    assert_eq!(valid, vec![Snapshot { offset: 6, length: 12 }]);
}

#[test]
fn restart_over_any_descriptors_keeps_snapshots_apart() {
    for seed in 0..60u64 {
        let mut words = scrambled(seed, 1536);
        // Sixteen slots hold descriptors with small offsets and lengths,
        // some of them invalid.
        for slot in 0..16usize {
            words[512 + 2 * slot] %= 80;
            words[512 + 2 * slot + 1] %= 12;
        }
        let file = File::new(HeapWords::from_vec(words));
        let cfg = ConfigureFile::with_rings(16, 32, 40 + seed % 50);
        assert!(file.accepts(&cfg));
        let mut writer = file.configure(&cfg);
        assert!(apart(&valid_of(&writer), 32), "seed {seed}");
        for round in 0..40usize {
            let payload = vec![round as u8; (round * 5 + seed as usize) % 31];
            let index = writer.commit(&payload).unwrap();
            let snapshot = writer.entry_at(&index);
            assert_eq!(read_all(&writer, &snapshot), payload);
            assert!(apart(&valid_of(&writer), 32), "seed {seed} round {round}");
        }
    }
}
