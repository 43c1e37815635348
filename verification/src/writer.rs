//! The public face of a snapshot log: a file that can be recovered from,
//! and the writer it turns into.
use vstd::prelude::*;
use crate::entry::{PreparedTransaction, Tail};
use crate::head::Head;
use crate::model::{HeadCache, HeadModel};
use crate::memory::{extends_with, MemoryOrder, Store, WordStore};
use crate::snapshot::{
    CommitFailure,
    ConfigureFile,
    RetainSnapshot,
    Snapshot,
    SnapshotIndex,
    WriterCommitError,
};

verus! {

/// A region into which this writer adds new snapshots.
pub struct Writer<M> {
    pub(crate) head: Head<M>,
}

/// A read view of a region.
///
/// Can be used to recover data, or be turned into a [`Writer`].
pub struct File<M> {
    pub(crate) head: Head<M>,
}

/// A view onto a region that has a configured layout.
pub struct FileDiscovery<'lt, M> {
    /// The file that was recovered from.
    pub file: &'lt mut File<M>,
    /// The layout found in it.
    pub configuration: ConfigureFile,
}

impl<M: WordStore<u64>> View for File<M> {
    type V = HeadModel;

    closed spec fn view(&self) -> HeadModel {
        self.head@
    }
}

impl<M: WordStore<u64>> View for Writer<M> {
    type V = HeadModel;

    closed spec fn view(&self) -> HeadModel {
        self.head@
    }
}

impl<M: WordStore<u64>> File<M> {
    /// Every write made to the region, in the order they were made.
    pub closed spec fn stores(&self) -> Seq<Store<u64>> {
        self.head.stores()
    }

    /// A file over the whole of `map`, not yet configured.
    ///
    /// A region too small to hold a header gives a file without pages:
    /// nothing can be recovered from it and every write fails for want of
    /// capacity.
    pub fn new(map: M) -> (file: Self)
        ensures
            file@.words == map.words(),
            file@.cache == HeadCache::zeroed(),
            file@.spans.sequence_pages == file@.pages(),
            file@.spans.data_first == 0,
            file@.spans.data_pages == file@.pages(),
            file@.spans.tail_first == 0,
            file@.spans.tail_pages == 0,
            file@.inv(),
            file.stores() == map.stores(),
    {
        File { head: Head::from_map(map) }
    }

    /// Attempt to recover the configuration from existing data.
    ///
    /// What the header describes is written to `cfg`. If that is a complete
    /// configuration that this file can hold, a proxy is returned through
    /// which the entries can be reached. A header that no configuration can
    /// be read from leaves `cfg` as it was.
    pub fn recover(&mut self, cfg: &mut ConfigureFile) -> (found: Option<FileDiscovery<'_, M>>)
        requires
            old(self)@.inv(),
        ensures
            !old(self)@.discoverable() ==> found.is_none() && final(cfg)@ == old(cfg)@,
            old(self)@.discoverable() ==> old(self)@.discovers(final(cfg)@),
            found.is_some() <==> old(self)@.discoverable() && old(self)@.accepts(final(cfg)@),
            found.is_none() ==> final(self)@ == old(self)@ && final(self).stores() == old(
                self,
            ).stores(),
            match found {
                Some(discovery) => {
                    &&& discovery.file@ == old(self)@
                    &&& discovery.file.stores() == old(self).stores()
                    &&& discovery.configuration@ == final(cfg)@
                    &&& final(self)@ == final(discovery.file)@
                    &&& final(self).stores() == final(discovery.file).stores()
                },
                None => true,
            },
    {
        if !self.head.is_discoverable() {
            return None;
        }
        self.head.discover(cfg);
        if !self.head.accepts(cfg) {
            return None;
        }
        Some(FileDiscovery { file: self, configuration: *cfg })
    }

    /// Whether this file can be configured as `cfg` says: the configuration
    /// is complete, both ring sizes are powers of two, and the rings fit.
    pub fn accepts(&self, cfg: &ConfigureFile) -> (fits: bool)
        requires
            self@.inv(),
        ensures
            fits == self@.accepts(cfg@),
    {
        self.head.accepts(cfg)
    }

    /// Change the metadata of the file to what the configuration describes,
    /// and take over the entries that the file holds.
    ///
    /// The valid descriptors that fit the bookkeeping of a writer are
    /// tracked by the writer; the others are invalidated. Afterwards no
    /// two valid descriptors describe data that shares a byte, and the
    /// bookkeeping of the writer matches the region. The one exception to
    /// the latter is a write offset so close to the end of its word that
    /// the writer takes no commit at all.
    pub fn configure(self, cfg: &ConfigureFile) -> (writer: Writer<M>)
        requires
            self@.inv(),
            self@.accepts(cfg@),
        ensures
            writer@ == self@.configure(cfg@).take_over(),
            writer@.wf(),
            writer@.separated(),
            extends_with(
                self.stores() + self@.set_up(cfg@).configure_stores(),
                writer.stores(),
                MemoryOrder::Relaxed,
            ),
            cfg@.initial_offset + cfg@.data <= u64::MAX ==> writer@.consistent(),
            writer@.all_apart(),
    {
        let mut this = self;
        this.head.configure(cfg);
        this.into_writer_unguarded()
    }

    /// Convert this into a writer, without minding data consistency.
    pub fn into_writer_unguarded(self) -> (writer: Writer<M>)
        ensures
            writer@ == self@,
            writer.stores() == self.stores(),
    {
        Writer { head: self.head }
    }

    /// Give up the file and return the region.
    pub fn into_map(self) -> (map: M)
        ensures
            map.words() == self@.words,
            map.stores() == self.stores(),
    {
        self.head.into_map()
    }
}

impl<'lt, M: WordStore<u64>> FileDiscovery<'lt, M> {
    /// Whether the file can be read as the configuration says.
    pub open spec fn wf(&self) -> bool {
        &&& self.file@.inv()
        &&& self.file@.accepts(self.configuration@)
    }

    /// The head the discovery lays over the file.
    pub open spec fn head(&self) -> HeadModel {
        self.file@.alternate(self.configuration@)
    }

    /// Read data described by a snapshot, with the discovered layout.
    pub fn read(&self, snapshot: &Snapshot, buffer: &mut [u8])
        requires
            self.wf(),
        ensures
            self.head().reads(*snapshot, old(buffer)@, final(buffer)@),
    {
        self.file.head.read_at(snapshot, buffer, &self.configuration)
    }

    /// Append all valid entries of the file to `into`.
    ///
    /// They come in the order of their slots in the descriptor ring, which
    /// is not the order in which they were written.
    pub fn valid(&self, into: &mut Vec<Snapshot>)
        requires
            self.wf(),
        ensures
            final(into)@ == old(into)@ + old(self.file)@.valid_upto(
                self.configuration@.entries as int,
            ),
    {
        self.file.head.valid_at(into, &self.configuration)
    }

    /// Invalidate the entries that `retain` does not ask to keep.
    pub fn retain<R: RetainSnapshot>(&mut self, retain: &R)
        requires
            old(self).wf(),
        ensures
            final(self).file@ == old(self).file@.retain_by(
                retain,
                old(self).configuration@.entries as int,
            ),
            final(self).configuration == old(self).configuration,
            final(self).wf(),
            extends_with(
                old(self).file.stores(),
                final(self).file.stores(),
                MemoryOrder::Relaxed,
            ),
            *final(final(self).file) == *final(old(self).file),
    {
        self.file.head.retain_at(retain, &self.configuration);
    }
}

impl<M: WordStore<u64>> Writer<M> {
    /// Every write made to the region, in the order they were made.
    pub closed spec fn stores(&self) -> Seq<Store<u64>> {
        self.head.stores()
    }

    /// Insert some data into the log of the region.
    ///
    /// The commit fails for want of capacity if the payload is larger than
    /// the mask of the data ring, or if a cursor would have to wrap around
    /// the end of its word, and then nothing is written. A writer whose
    /// bookkeeping matches the region keeps it so.
    pub fn commit(&mut self, data: &[u8]) -> (result: Result<SnapshotIndex, WriterCommitError>)
        requires
            old(self)@.inv(),
        ensures
            final(self)@.inv(),
            match result {
                Ok(index) => {
                    &&& !old(self)@.refuses(data@.len() as int)
                    &&& index@ == old(self)@.cache.entry_write_offset
                    &&& final(self)@ == old(self)@.committed(data@)
                    &&& old(self)@.consistent() ==> final(self)@.consistent()
                    &&& final(self).stores() == old(self).stores() + old(
                        self,
                    )@.commit_stores_of(data@)
                },
                Err(error) => {
                    &&& old(self)@.refuses(data@.len() as int)
                    &&& error@ == CommitFailure::Capacity
                    &&& final(self)@ == old(self)@
                    &&& final(self).stores() == old(self).stores()
                },
            },
    {
        match self.head.write(data) {
            Ok(entry) => Ok(SnapshotIndex::new(entry)),
            Err(failure) => Err(WriterCommitError::new(failure)),
        }
    }

    /// Insert some data into the log of the region, with a hook.
    ///
    /// `intermediate` runs after the slot was reserved and the data was
    /// written, and before the entry is published. Through the entry it is
    /// handed it can replace the data and change the tail. If it returns
    /// none, the commit is dropped: nothing is published, what was
    /// reserved stays reserved, and the header is told so.
    pub fn commit_with<T, F: FnOnce(PreparedTransaction<'_, M>) -> Option<T>>(
        &mut self,
        data: &[u8],
        intermediate: F,
    ) -> (result: Result<(SnapshotIndex, T), WriterCommitError>)
        requires
            old(self)@.inv(),
            !old(self)@.refuses(data@.len() as int) ==> forall|tx: PreparedTransaction<'_, M>|
                {
                    &&& tx.head@ == old(self)@.reserve(data@)
                    &&& tx.head.stores() == old(self).stores() + old(self)@.reserve_stores(data@)
                    &&& tx.offset == old(self)@.cache.page_write_offset
                    &&& tx.length == data@.len()
                } ==> #[trigger] call_requires(intermediate, (tx,)),
            !old(self)@.refuses(data@.len() as int) ==> forall|
                tx: PreparedTransaction<'_, M>,
                keep: Option<T>,
            |
                {
                    &&& tx.head@ == old(self)@.reserve(data@)
                    &&& tx.head.stores() == old(self).stores() + old(self)@.reserve_stores(data@)
                    &&& tx.offset == old(self)@.cache.page_write_offset
                    &&& tx.length == data@.len()
                    &&& #[trigger] call_ensures(intermediate, (tx,), keep)
                } ==> final(tx.head)@.wf(),
        ensures
            final(self)@.inv(),
            old(self)@.refuses(data@.len() as int) ==> {
                &&& final(self)@ == old(self)@
                &&& final(self).stores() == old(self).stores()
                &&& match result {
                    Ok(_) => false,
                    Err(error) => error@ == CommitFailure::Capacity,
                }
            },
            !old(self)@.refuses(data@.len() as int) ==> exists|
                tx: PreparedTransaction<'_, M>,
                keep: Option<T>,
            |
                {
                    &&& tx.head@ == old(self)@.reserve(data@)
                    &&& tx.head.stores() == old(self).stores() + old(self)@.reserve_stores(data@)
                    &&& tx.offset == old(self)@.cache.page_write_offset
                    &&& tx.length == data@.len()
                    &&& #[trigger] call_ensures(intermediate, (tx,), keep)
                    &&& match keep {
                        Some(value) => {
                            &&& match result {
                                Ok(done) => done.0@ == old(self)@.cache.entry_write_offset
                                    && done.1 == value,
                                Err(_) => false,
                            }
                            &&& final(self)@ == final(tx.head)@.commit(
                                old(self)@.cache.entry_write_offset,
                                Snapshot { offset: tx.offset, length: tx.length },
                            )
                            &&& final(self).stores() == final(tx.head).stores()
                                + final(tx.head)@.commit_stores(
                                old(self)@.cache.entry_write_offset,
                                Snapshot { offset: tx.offset, length: tx.length },
                            )
                        },
                        None => {
                            &&& match result {
                                Ok(_) => false,
                                Err(error) => error@ == CommitFailure::Aborted,
                            }
                            &&& final(self)@ == final(tx.head)@.abort()
                            &&& final(self).stores() == final(tx.head).stores().push(
                                final(tx.head)@.abort_store(),
                            )
                        },
                    }
                    &&& old(self)@.consistent() && tx.head@.hook_kept(
                        final(tx.head)@,
                        tx.offset as int,
                    ) ==> final(self)@.consistent()
                },
    {
        match self.head.write_with(data, intermediate) {
            Ok((entry, value)) => Ok((SnapshotIndex::new(entry), value)),
            Err(failure) => Err(WriterCommitError::new(failure)),
        }
    }

    /// Whether the writer holds rings that data can be committed to and
    /// read from.
    pub fn is_ready(&self) -> (ready: bool)
        requires
            self@.inv(),
        ensures
            ready == self@.wf(),
    {
        self.head.is_ready()
    }

    /// Read data described by a snapshot.
    pub fn read(&self, snapshot: &Snapshot, buffer: &mut [u8])
        requires
            self@.wf(),
        ensures
            self@.reads(*snapshot, old(buffer)@, final(buffer)@),
    {
        self.head.read(snapshot, buffer);
    }

    /// Append all currently valid snapshot entries to `into`.
    pub fn valid(&self, into: &mut Vec<Snapshot>)
        requires
            self@.inv(),
        ensures
            final(into)@ == old(into)@ + self@.valid(),
    {
        self.head.valid(into)
    }

    /// The descriptor that the entry `index` lives in, as it stands.
    pub fn entry_at(&self, index: &SnapshotIndex) -> (snapshot: Snapshot)
        requires
            self@.wf(),
        ensures
            snapshot == self@.descriptor(self@.slot_of(index@)),
    {
        self.head.entry_at(index.entry())
    }

    /// Access the tail of the region.
    ///
    /// This is the part behind the header, the descriptor ring and the data
    /// ring. No entry points into it; it belongs to the caller.
    pub fn tail(&mut self) -> (tail: Tail<'_, M>)
        ensures
            tail.head@ == old(self)@,
            tail.head.stores() == old(self).stores(),
            final(self)@ == final(tail.head)@,
            final(self).stores() == final(tail.head).stores(),
    {
        self.head.tail()
    }

    /// Give up the writer and return the region.
    pub fn into_map(self) -> (map: M)
        ensures
            map.words() == self@.words,
            map.stores() == self.stores(),
    {
        self.head.into_map()
    }
}

} // verus!
