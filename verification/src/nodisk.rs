//! Factory-flavoured empty disk level, for wiring a memory-only
//! engine through the disk-index interfaces.

use vstd::prelude::*;

use crate::base::{Cutoff, Diff, OrdKey};
use crate::entry::Entry;
use crate::error::Error;
use crate::scans::{DiskIndexFactory, Index, Reader, Writer};
use crate::Result;

verus! {

/// Factory producing [`NoDisk`] instances.
pub struct NoDiskFactory;

/// A factory producing empty disk indexes.
pub fn nodisk_factory() -> (r: NoDiskFactory) {
    NoDiskFactory
}

/// Empty disk index.
pub struct NoDisk<K, V> {
    key_kind: core::marker::PhantomData<K>,
    val_kind: core::marker::PhantomData<V>,
}

impl<K: OrdKey, V: Diff> NoDisk<K, V> {
    /// The empty disk index.
    pub fn new() -> (r: NoDisk<K, V>) {
        NoDisk { key_kind: core::marker::PhantomData, val_kind: core::marker::PhantomData }
    }
}

impl<K: OrdKey, V: Diff> DiskIndexFactory<K, V> for NoDiskFactory {
    type I = NoDisk<K, V>;

    fn new(&self, _dir: &str, _name: &str) -> Result<NoDisk<K, V>> {
        Ok(NoDisk::new())
    }

    fn open(&self, _dir: &str, _name: &str) -> Result<NoDisk<K, V>> {
        Ok(NoDisk::new())
    }

    fn to_type(&self) -> String {
        "nodisk".to_owned()
    }
}

impl<K: OrdKey, V: Diff> Index<K, V> for NoDisk<K, V> {
    type W = NoDisk<K, V>;

    type R = NoDisk<K, V>;

    fn to_name(&self) -> Result<String> {
        Ok("nodisk".to_owned())
    }

    fn to_metadata(&self) -> Result<Vec<u8>> {
        Ok(Vec::new())
    }

    fn to_seqno(&self) -> Result<u64> {
        Ok(0)
    }

    fn set_seqno(&mut self, _seqno: u64) -> Result<()> {
        Ok(())
    }

    fn to_reader(&mut self) -> Result<NoDisk<K, V>> {
        Ok(NoDisk::new())
    }

    fn to_writer(&mut self) -> Result<NoDisk<K, V>> {
        Ok(NoDisk::new())
    }

    fn commit(&mut self, _scanner: Vec<Entry<K, V>>, _metadata: Vec<u8>) -> Result<()> {
        Ok(())
    }

    fn compact(&mut self, _cutoff: Cutoff) -> Result<usize> {
        Ok(0)
    }

    fn close(self) -> Result<()> {
        Ok(())
    }

    fn purge(self) -> Result<()> {
        Ok(())
    }
}

impl<K: OrdKey, V: Diff> Writer<K, V> for NoDisk<K, V> {
    /// Writing to the empty disk level is not supported.
    fn set(&mut self, _k: K, _v: V) -> Result<Option<Entry<K, V>>> {
        Err(Error::UnReachable)
    }

    fn set_cas(&mut self, _k: K, _v: V, _cas: u64) -> Result<Option<Entry<K, V>>> {
        Err(Error::UnReachable)
    }

    fn delete(&mut self, _key: &K) -> Result<Option<Entry<K, V>>> {
        Err(Error::UnReachable)
    }
}

impl<K: OrdKey, V: Diff> Reader<K, V> for NoDisk<K, V> {
    fn get(&mut self, _key: &K) -> Result<Entry<K, V>> {
        Err(Error::KeyNotFound)
    }

    fn iter(&mut self) -> Result<Vec<Entry<K, V>>> {
        Ok(Vec::new())
    }

    fn range(&mut self, _range: (core::ops::Bound<K>, core::ops::Bound<K>)) -> Result<
        Vec<Entry<K, V>>,
    > {
        Ok(Vec::new())
    }

    fn reverse(&mut self, _range: (core::ops::Bound<K>, core::ops::Bound<K>)) -> Result<
        Vec<Entry<K, V>>,
    > {
        Ok(Vec::new())
    }

    fn get_with_versions(&mut self, _key: &K) -> Result<Entry<K, V>> {
        Err(Error::KeyNotFound)
    }

    fn iter_with_versions(&mut self) -> Result<Vec<Entry<K, V>>> {
        Ok(Vec::new())
    }

    fn range_with_versions(&mut self, _range: (core::ops::Bound<K>, core::ops::Bound<K>)) -> Result<
        Vec<Entry<K, V>>,
    > {
        Ok(Vec::new())
    }

    fn reverse_with_versions(
        &mut self,
        _range: (core::ops::Bound<K>, core::ops::Bound<K>),
    ) -> Result<Vec<Entry<K, V>>> {
        Ok(Vec::new())
    }
}

} // verus!
