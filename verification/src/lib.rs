//! A crash-consistent snapshot log inside a region of shared memory.
//!
//! A producer writes a sequence of opaque byte snapshots into a region that
//! outlives it; after a restart the next process lays the same log over
//! the region and recovers what was committed. The region is shared with
//! observers that take backups of it while the producer runs, without any
//! lock: all exchange goes through writes of single words in a fixed order.
//!
//! - [`memory`] is the region as the log sees it: words that are loaded and
//!   stored with explicit orderings.
//! - [`layout`] and [`lanes`] fix where header, descriptors and data bytes
//!   lie.
//! - [`model`] describes a head of the log as contracts speak of it, and
//!   [`head`], [`entry`] and [`writer`] implement the protocol against it.
//! - [`adoption`] is how a writer takes over the entries that a region
//!   holds when it is configured.
//! - [`tracking`], [`commits`], [`stream_proofs`] and [`recovery_proofs`]
//!   state and prove what the protocol guarantees from one commit to the
//!   next; [`instants`] and [`observers`] what it guarantees to someone who
//!   looks at the region, or copies it, while a commit is under way.
//! - [`backup`] decides what a copy of the region is worth.
//! - [`listen`] reads the file descriptors a service manager passes.
//! - [`ring`] and [`sequence`] are a descriptor ring over 32-bit words and
//!   a log of one value built on it.
pub mod adoption;
pub mod backup;
pub mod commits;
pub mod entry;
pub mod head;
pub mod instants;
pub mod lanes;
pub mod layout;
pub mod listen;
pub mod memory;
pub mod model;
pub mod observers;
pub mod recovery_proofs;
pub mod ring;
pub mod ring_arith;
pub mod sequence;
pub mod snapshot;
pub mod stream_proofs;
pub mod tracking;
pub mod writer;

pub use backup::{BackupAction, Sandwich};
pub use entry::{Entry, PreparedTransaction, Tail};
pub use head::{Head, WriteHead};
pub use model::{HeadCache, Spans};
pub use listen::{EnvValue, Error, ListenFd, ListenInit, Stat};
pub use memory::{HeapWords, MemoryOrder, WordStore};
pub use ring::{Descriptor, DescriptorIdx, MapError, RingMapped, RingOptions};
pub use sequence::{SeqError, SeqInner, SeqOptions};
pub use snapshot::{
    CommitFailure,
    ConfigureFile,
    RetainSnapshot,
    Snapshot,
    SnapshotIndex,
    WriterCommitError,
};
pub use writer::{File, FileDiscovery, Writer};
