//! The plain values that describe a snapshot log: descriptors, indices,
//! configurations and errors.
use vstd::prelude::*;

verus! {

/// The descriptor of a singular snapshot.
#[derive(Copy, Clone, Debug, PartialEq, Eq, Hash, Structural)]
pub struct Snapshot {
    /// The logical offset of the data in the data ring.
    pub offset: u64,
    /// The length of the data in bytes. A descriptor with length zero is invalid.
    pub length: u64,
}

/// The index of a snapshot in the descriptor ring of a writer.
///
/// The ring masks the index before use, so every index names a slot. It does
/// not guarantee that the snapshot is, or will stay, valid.
#[derive(Debug)]
pub struct SnapshotIndex {
    entry: u64,
}

impl View for SnapshotIndex {
    type V = u64;

    closed spec fn view(&self) -> u64 {
        self.entry
    }
}

impl SnapshotIndex {
    /// The index of the entry `entry`.
    pub fn new(entry: u64) -> (index: Self)
        ensures
            index@ == entry,
    {
        SnapshotIndex { entry }
    }

    /// The entry number that was committed.
    pub fn entry(&self) -> (entry: u64)
        ensures
            entry == self@,
    {
        self.entry
    }
}

/// Why a commit did not publish a snapshot.
#[derive(Copy, Clone, Debug, PartialEq, Eq, Structural)]
pub enum CommitFailure {
    /// The payload does not fit the data ring.
    Capacity,
    /// The caller's hook asked for the commit to be dropped.
    Aborted,
}

/// An error from committing a snapshot.
#[derive(Debug)]
pub struct WriterCommitError {
    kind: CommitFailure,
}

impl View for WriterCommitError {
    type V = CommitFailure;

    closed spec fn view(&self) -> CommitFailure {
        self.kind
    }
}

impl WriterCommitError {
    /// An error of the given kind.
    pub fn new(kind: CommitFailure) -> (error: Self)
        ensures
            error@ == kind,
    {
        WriterCommitError { kind }
    }

    /// Why the commit failed.
    pub fn kind(&self) -> (kind: CommitFailure)
        ensures
            kind == self@,
    {
        self.kind
    }

    /// What to tell a user about the error.
    pub fn message(&self) -> (text: String)
        ensures
            text@ == "Failed to commit snapshot data"@,
    {
        "Failed to commit snapshot data".to_owned()
    }
}

/// What a [`ConfigureFile`] holds, as contracts speak of it.
pub struct ConfigureFileView {
    pub entries: u64,
    pub data: u64,
    pub initial_offset: u64,
    pub layout_version: u64,
}

/// The layout of a snapshot log in its region.
#[derive(Copy, Clone, Debug)]
pub struct ConfigureFile {
    /// The number of entries in the descriptor ring.
    pub entries: u64,
    /// The number of bytes in the data ring.
    pub data: u64,
    /// The logical offset of the next byte to write.
    pub initial_offset: u64,
    /// The version found in the region, or a number that is none.
    layout_version: u64,
}

impl View for ConfigureFile {
    type V = ConfigureFileView;

    closed spec fn view(&self) -> ConfigureFileView {
        ConfigureFileView {
            entries: self.entries,
            data: self.data,
            initial_offset: self.initial_offset,
            layout_version: self.layout_version,
        }
    }
}

impl ConfigureFile {
    /// The magic that marks a region as configured.
    pub const MAGIC_VERSION: u64 = 0x96c2_a6f4_b685_19b3;

    /// Whether the configuration carries the layout magic.
    pub open spec fn initialized(&self) -> bool {
        self@.layout_version == Self::MAGIC_VERSION
    }

    /// A complete configuration for rings of `entries` descriptors and
    /// `data` bytes, with the next byte to be written at logical offset
    /// `initial_offset`.
    pub fn with_rings(entries: u64, data: u64, initial_offset: u64) -> (cfg: Self)
        ensures
            cfg@ == (ConfigureFileView {
                entries,
                data,
                initial_offset,
                layout_version: Self::MAGIC_VERSION,
            }),
            cfg.initialized(),
    {
        ConfigureFile { entries, data, initial_offset, layout_version: Self::MAGIC_VERSION }
    }

    /// A configuration with every field given, as read from a region.
    pub(crate) fn from_parts(
        entries: u64,
        data: u64,
        initial_offset: u64,
        layout_version: u64,
    ) -> (cfg: Self)
        ensures
            cfg@ == (ConfigureFileView { entries, data, initial_offset, layout_version }),
    {
        ConfigureFile { entries, data, initial_offset, layout_version }
    }

    /// The number of entries in the descriptor ring.
    pub fn entries(&self) -> (entries: u64)
        ensures
            entries == self@.entries,
    {
        self.entries
    }

    /// The number of bytes in the data ring.
    pub fn data(&self) -> (data: u64)
        ensures
            data == self@.data,
    {
        self.data
    }

    /// The logical offset of the next byte to write.
    pub fn initial_offset(&self) -> (offset: u64)
        ensures
            offset == self@.initial_offset,
    {
        self.initial_offset
    }

    /// Is the configuration data complete?
    pub fn is_initialized(&self) -> (complete: bool)
        ensures
            complete == self.initialized(),
    {
        self.layout_version == Self::MAGIC_VERSION
    }

    /// Complete this configuration, if it is not already.
    ///
    /// A complete configuration is left alone and `replace` is not called.
    /// Otherwise `replace` fills in the fields and the result is marked with
    /// the layout magic.
    pub fn or_insert_with<F: FnOnce(&mut Self)>(&mut self, replace: F)
        requires
            !old(self).initialized() ==> forall|cfg: &mut Self|
                *cfg == *old(self) ==> #[trigger] call_requires(replace, (cfg,)),
        ensures
            final(self).initialized(),
            old(self).initialized() ==> *final(self) == *old(self),
            !old(self).initialized() ==> exists|cfg: &mut Self|
                {
                    &&& *cfg == *old(self)
                    &&& #[trigger] call_ensures(replace, (cfg,), ())
                    &&& final(self)@ == (ConfigureFileView {
                        layout_version: Self::MAGIC_VERSION,
                        ..final(cfg)@
                    })
                },
    {
        if !self.is_initialized() {
            replace(self);
            self.layout_version = Self::MAGIC_VERSION;
        }
    }
}

impl Default for ConfigureFile {
    fn default() -> (cfg: Self)
        ensures
            cfg@ == (ConfigureFileView {
                entries: 0,
                data: 0,
                initial_offset: 0,
                layout_version: 0,
            }),
    {
        ConfigureFile { entries: 0, data: 0, initial_offset: 0, layout_version: 0 }
    }
}

/// A value that can decide whether a snapshot should be considered valid.
///
/// Any change to the data range of a snapshot is preceded by the invalidation
/// of that snapshot. An observer that sees the same snapshot valid twice
/// therefore knows that its data did not change in between, and uses a value
/// of this kind to keep what it saw the first time.
pub trait RetainSnapshot {
    /// Whether the snapshot is to be kept.
    ///
    /// An implementation outside verified code does not say; nothing is
    /// known of its decisions then.
    open spec fn retains(&self, snapshot: Snapshot) -> bool {
        arbitrary()
    }

    /// Decide whether the snapshot is to be kept.
    fn contains(&self, snapshot: &Snapshot) -> (kept: bool)
        ensures
            kept == self.retains(*snapshot),
    ;
}

impl RetainSnapshot for Vec<Snapshot> {
    open spec fn retains(&self, snapshot: Snapshot) -> bool {
        self@.contains(snapshot)
    }

    fn contains(&self, snapshot: &Snapshot) -> (kept: bool) {
        let mut i: usize = 0;
        while i < self.len()
            invariant
                i <= self.len(),
                forall|j: int| 0 <= j < i ==> self@[j] != *snapshot,
            decreases self.len() - i,
        {
            if self[i].offset == snapshot.offset && self[i].length == snapshot.length {
                return true;
            }
            i += 1;
        }
        false
    }
}

/// A sink for the snapshots an enumeration finds.
///
/// The sink takes each snapshot in turn and answers whether the descriptor
/// it came from is to stay valid. Its answer for a snapshot does not depend
/// on what it has taken before.
pub trait Collect<T> {
    /// Whether the sink asks for the descriptor of `val` to be kept.
    open spec fn keeps(&self, val: T) -> bool {
        arbitrary()
    }

    /// Everything the sink has taken, in the order it came.
    open spec fn taken(&self) -> Seq<T> {
        arbitrary()
    }

    /// Hand one value to the sink.
    fn insert_one(&mut self, val: T) -> (kept: bool)
        ensures
            kept == old(self).keeps(val),
            final(self).taken() == old(self).taken().push(val),
            forall|other: T| final(self).keeps(other) == old(self).keeps(other),
    ;
}

/// A vector takes every value and keeps every descriptor.
impl<T> Collect<T> for Vec<T> {
    open spec fn keeps(&self, val: T) -> bool {
        true
    }

    open spec fn taken(&self) -> Seq<T> {
        self@
    }

    fn insert_one(&mut self, val: T) -> (kept: bool) {
        self.push(val);
        true
    }
}

/// A sink that takes no snapshot for itself and keeps the descriptors that
/// a [`RetainSnapshot`] asks for.
pub struct Retain<'a, R> {
    /// What decides.
    pub inner: &'a R,
    /// The snapshots handed to this sink so far.
    pub seen: Ghost<Seq<Snapshot>>,
}

impl<'a, R: RetainSnapshot> Retain<'a, R> {
    /// The sink that keeps what `inner` asks for and has taken nothing yet.
    pub open spec fn keeping(inner: &'a R) -> Self {
        Retain { inner, seen: Ghost(Seq::empty()) }
    }

    /// A sink that keeps what `inner` asks for and has taken nothing yet.
    pub fn new(inner: &'a R) -> (sink: Self)
        ensures
            sink == Self::keeping(inner),
    {
        Retain { inner, seen: Ghost(Seq::empty()) }
    }
}

impl<'a, R: RetainSnapshot> Collect<Snapshot> for Retain<'a, R> {
    open spec fn keeps(&self, val: Snapshot) -> bool {
        self.inner.retains(val)
    }

    open spec fn taken(&self) -> Seq<Snapshot> {
        self.seen@
    }

    fn insert_one(&mut self, val: Snapshot) -> (kept: bool) {
        self.seen = Ghost(self.seen@.push(val));
        self.inner.contains(&val)
    }
}

} // verus!
