//! Index-facing traits and the commit-iteration plumbing: read and
//! write handles, commit scans, and the covering types they use.

use vstd::prelude::*;

use crate::base::{Cutoff, Diff, OrdKey};
use crate::dlog_entry::OpView;
use crate::entry::Entry;
use crate::Result;

verus! {

/// Convenience marker grouping thread-safe trait conditions.
pub trait ThreadSafe: 'static + Send {

}

/// Replay callbacks dispatched when reloading an index from the log.
/// Each successful callback records the log index and operation it
/// was handed, so a replay driver can state exactly which callbacks
/// fired, in which order, with which arguments. An implementation
/// that does not track its callbacks may keep the default, empty
/// record.
pub trait Replay<K: OrdKey, V: Diff> {
    /// The callbacks dispatched so far, oldest first: the log index
    /// and the operation each one carried.
    open spec fn replayed(&self) -> Seq<(u64, OpView<<K as View>::V, <V as View>::V>)> {
        Seq::empty()
    }

    /// Replay a `set` from the log onto the index.
    fn set_index(&mut self, key: K, value: V, index: u64) -> (r: Result<Entry<K, V>>)
        ensures
            r is Ok ==> final(self).replayed() == old(self).replayed().push(
                (index, OpView::SetKV { key: key@, value: value@ }),
            ),
    ;

    /// Replay a `set-cas` from the log onto the index.
    fn set_cas_index(&mut self, key: K, value: V, cas: u64, index: u64) -> (r: Result<
        Entry<K, V>,
    >)
        ensures
            r is Ok ==> final(self).replayed() == old(self).replayed().push(
                (index, OpView::SetCAS { key: key@, value: value@, cas }),
            ),
    ;

    /// Replay a `delete` from the log onto the index.
    fn delete_index(&mut self, key: K, index: u64) -> (r: Result<Entry<K, V>>)
        ensures
            r is Ok ==> final(self).replayed() == old(self).replayed().push(
                (index, OpView::Delete { key: key@ }),
            ),
    ;
}

/// Write operations applied after the log accepted them.
pub trait WalWriter<K: OrdKey, V: Diff> {
    /// Set, carrying the log-assigned index.
    fn set_index(&mut self, key: K, value: V, index: u64) -> Result<Option<Entry<K, V>>>;

    /// Set under a compare-and-set guard, carrying the log index.
    fn set_cas_index(&mut self, key: K, value: V, cas: u64, index: u64) -> Result<
        Option<Entry<K, V>>,
    >;

    /// Delete, carrying the log-assigned index.
    fn delete_index(&mut self, key: &K, index: u64) -> Result<Option<Entry<K, V>>>;
}

/// Write operations of an index.
pub trait Writer<K: OrdKey, V: Diff> {
    /// Set `key` to `value`, returning the previous entry.
    fn set(&mut self, k: K, v: V) -> Result<Option<Entry<K, V>>>;

    /// Set under a compare-and-set guard.
    fn set_cas(&mut self, k: K, v: V, cas: u64) -> Result<Option<Entry<K, V>>>;

    /// Delete `key`, returning the previous entry.
    fn delete(&mut self, key: &K) -> Result<Option<Entry<K, V>>>;
}

/// Read operations of an index. The `_with_versions` variants also
/// materialize older versions where fetching them is costly.
pub trait Reader<K: OrdKey, V: Diff> {
    /// Get the latest entry for `key`.
    fn get(&mut self, key: &K) -> Result<Entry<K, V>>;

    /// All entries, in key order.
    fn iter(&mut self) -> Result<Vec<Entry<K, V>>>;

    /// Entries within the key range, in key order.
    fn range(&mut self, range: (core::ops::Bound<K>, core::ops::Bound<K>)) -> Result<
        Vec<Entry<K, V>>,
    >;

    /// Entries within the key range, highest key first.
    fn reverse(&mut self, range: (core::ops::Bound<K>, core::ops::Bound<K>)) -> Result<
        Vec<Entry<K, V>>,
    >;

    /// Get with all versions.
    fn get_with_versions(&mut self, key: &K) -> Result<Entry<K, V>>;

    /// Iterate with all versions.
    fn iter_with_versions(&mut self) -> Result<Vec<Entry<K, V>>>;

    /// Range with all versions.
    fn range_with_versions(&mut self, range: (core::ops::Bound<K>, core::ops::Bound<K>)) -> Result<
        Vec<Entry<K, V>>,
    >;

    /// Reverse range with all versions.
    fn reverse_with_versions(
        &mut self,
        range: (core::ops::Bound<K>, core::ops::Bound<K>),
    ) -> Result<Vec<Entry<K, V>>>;
}

/// Commit a batch of pre-sorted entries into a target index: the
/// target picks how to slice the source.
pub trait CommitIterator<K: OrdKey, V: Diff> {
    /// One full scan filtered to the seqno range.
    fn scan(&mut self, within: (core::ops::Bound<u64>, core::ops::Bound<u64>)) -> Result<
        Vec<Entry<K, V>>,
    >;

    /// Equally balanced partitions of the scan.
    fn scans(
        &mut self,
        n_shards: usize,
        within: (core::ops::Bound<u64>, core::ops::Bound<u64>),
    ) -> Result<Vec<Vec<Entry<K, V>>>>;

    /// Partitions following the given key ranges exactly.
    fn range_scans(
        &mut self,
        ranges: Vec<(core::ops::Bound<K>, core::ops::Bound<K>)>,
        within: (core::ops::Bound<u64>, core::ops::Bound<u64>),
    ) -> Result<Vec<Vec<Entry<K, V>>>>;
}

/// The interface every index of this crate offers.
pub trait Index<K: OrdKey, V: Diff>: Sized {
    /// Concurrent write handle type.
    type W: Writer<K, V>;

    /// Concurrent read handle type.
    type R: Reader<K, V>;

    /// Name of the index.
    fn to_name(&self) -> Result<String>;

    /// Application metadata committed into the index.
    fn to_metadata(&self) -> Result<Vec<u8>>;

    /// The current seqno.
    fn to_seqno(&self) -> Result<u64>;

    /// Set the starting seqno.
    fn set_seqno(&mut self, seqno: u64) -> Result<()>;

    /// A new read handle.
    fn to_reader(&mut self) -> Result<Self::R>;

    /// A new write handle.
    fn to_writer(&mut self) -> Result<Self::W>;

    /// Commit a sorted batch of entries.
    fn commit(&mut self, scanner: Vec<Entry<K, V>>, metadata: Vec<u8>) -> Result<()>;

    /// Purge versions below the cutoff; returns the entry count.
    fn compact(&mut self, cutoff: Cutoff) -> Result<usize>;

    /// Close, keeping persisted data.
    fn close(self) -> Result<()>;

    /// Close and clear persisted data.
    fn purge(self) -> Result<()>;
}

/// Factory of memory indexes over a predefined configuration.
pub trait WriteIndexFactory<K: OrdKey, V: Diff> {
    /// The index type this factory builds.
    type I: Index<K, V>;

    /// A fresh index named `name`.
    fn new(&self, name: &str) -> Result<Self::I>;

    /// Type name for identification.
    fn to_type(&self) -> String;
}

/// Factory of disk indexes over a predefined configuration.
pub trait DiskIndexFactory<K: OrdKey, V: Diff> {
    /// The index type this factory builds.
    type I: Index<K, V>;

    /// A fresh disk index under `dir`.
    fn new(&self, dir: &str, name: &str) -> Result<Self::I>;

    /// Open an existing disk index under `dir`.
    fn open(&self, dir: &str, name: &str) -> Result<Self::I>;

    /// Type name for identification.
    fn to_type(&self) -> String;
}

/// Self-validation of an index's internal state.
pub trait Validate<T> {
    /// Walk the whole state; costly.
    fn validate(&mut self) -> Result<T>;
}

/// Keys managed in a bitmapped Bloom filter.
pub trait Bloom: Sized {
    /// An empty bitmap.
    fn create() -> Self;

    /// Number of keys added.
    fn len(&self) -> Result<usize>;

    /// Add a key.
    fn add_key(&mut self, element: &Vec<u8>);

    /// Add a precomputed 32-bit digest.
    fn add_digest32(&mut self, digest: u32);

    /// Membership check; false positives allowed, no false negatives.
    fn contains(&self, element: &Vec<u8>) -> bool;

    /// Serialize the bitmap.
    fn to_vec(&self) -> Vec<u8>;

    /// Deserialize a bitmap.
    fn from_vec(buf: &[u8]) -> Result<Self>;

    /// Merge two bitmaps.
    fn or(&self, other: &Self) -> Result<Self>;
}

/// Piece-wise full-table scan for memory indexes: stable under
/// background mutation, never holding the index for long.
pub trait PiecewiseScan<K: OrdKey, V: Diff> {
    /// Entries above `from` whose modified seqno falls in `within`.
    fn pw_scan(
        &mut self,
        from: core::ops::Bound<K>,
        within: (core::ops::Bound<u64>, core::ops::Bound<u64>),
    ) -> Result<Vec<ScanEntry<K, V>>>;
}

/// JSON rendering for web surfaces.
pub trait ToJson {
    /// The JSON-encoded text.
    fn to_json(&self) -> String;
}

/// Entries yielded by a piece-wise scan: a found entry, or the key to
/// resume from after releasing the read lock.
pub enum ScanEntry<K: OrdKey, V: Diff> {
    /// Entry found, continue iterating.
    Found(Entry<K, V>),
    /// End of one piece; resume from this key.
    Retry(K),
}

/// Wraps a commit scanner together with the seqno range the target
/// index should filter by.
pub struct CommitIter<K: OrdKey, V: Diff, C: CommitIterator<K, V>> {
    scanner: C,
    start: core::ops::Bound<u64>,
    end: core::ops::Bound<u64>,
    key_kind: core::marker::PhantomData<K>,
    val_kind: core::marker::PhantomData<V>,
}

impl<K: OrdKey, V: Diff, C: CommitIterator<K, V>> CommitIter<K, V, C> {
    /// The seqno range this iterator filters by.
    pub closed spec fn within_spec(&self) -> (core::ops::Bound<u64>, core::ops::Bound<u64>) {
        (self.start, self.end)
    }

    /// Wrap `scanner` with the seqno range `within`.
    pub fn new(scanner: C, within: (core::ops::Bound<u64>, core::ops::Bound<u64>)) -> (r:
        CommitIter<K, V, C>)
        ensures
            r.within_spec() == within,
    {
        let (start, end) = within;
        CommitIter {
            scanner,
            start,
            end,
            key_kind: core::marker::PhantomData,
            val_kind: core::marker::PhantomData,
        }
    }

    /// The range supplied at construction.
    pub fn to_within(&self) -> (r: (core::ops::Bound<u64>, core::ops::Bound<u64>))
        ensures
            r == self.within_spec(),
    {
        (self.start, self.end)
    }

    /// Generate the actual iterator via the scanner's `scan`.
    pub fn scan(&mut self) -> Result<Vec<Entry<K, V>>> {
        let within = (self.start, self.end);
        self.scanner.scan(within)
    }

    /// Generate balanced partitions via the scanner's `scans`.
    pub fn scans(&mut self, n_shards: usize) -> Result<Vec<Vec<Entry<K, V>>>> {
        let within = (self.start, self.end);
        self.scanner.scans(n_shards, within)
    }

    /// Generate partitions for the given key ranges.
    pub fn range_scans(&mut self, rs: Vec<(core::ops::Bound<K>, core::ops::Bound<K>)>) -> Result<
        Vec<Vec<Entry<K, V>>>,
    > {
        let within = (self.start, self.end);
        self.scanner.range_scans(rs, within)
    }
}

} // verus!
