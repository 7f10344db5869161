//! The empty disk level: an index type for memory-only deployments
//! whose reads always miss and whose scans are always empty.

use vstd::prelude::*;

use crate::base::{Diff, OrdKey};
use crate::entry::Entry;
use crate::error::Error;
use crate::scans::Reader;
use crate::Result;

verus! {

/// Empty disk index for memory-only mode.
pub struct NoDisk<K, V> {
    key_kind: core::marker::PhantomData<K>,
    val_kind: core::marker::PhantomData<V>,
}

impl<K: OrdKey, V: Diff> NoDisk<K, V> {
    /// The empty disk index.
    pub fn new() -> (r: NoDisk<K, V>) {
        NoDisk { key_kind: core::marker::PhantomData, val_kind: core::marker::PhantomData }
    }
}

impl<K: OrdKey, V: Diff> Reader<K, V> for NoDisk<K, V> {
    /// Always misses.
    fn get(&mut self, _key: &K) -> Result<Entry<K, V>> {
        Err(Error::KeyNotFound)
    }

    /// Always empty.
    fn iter(&mut self) -> Result<Vec<Entry<K, V>>> {
        Ok(Vec::new())
    }

    /// Always empty.
    fn range(&mut self, _range: (core::ops::Bound<K>, core::ops::Bound<K>)) -> Result<
        Vec<Entry<K, V>>,
    > {
        Ok(Vec::new())
    }

    /// Always empty.
    fn reverse(&mut self, _range: (core::ops::Bound<K>, core::ops::Bound<K>)) -> Result<
        Vec<Entry<K, V>>,
    > {
        Ok(Vec::new())
    }

    /// Always misses.
    fn get_with_versions(&mut self, _key: &K) -> Result<Entry<K, V>> {
        Err(Error::KeyNotFound)
    }

    /// Always empty.
    fn iter_with_versions(&mut self) -> Result<Vec<Entry<K, V>>> {
        Ok(Vec::new())
    }

    /// Always empty.
    fn range_with_versions(&mut self, _range: (core::ops::Bound<K>, core::ops::Bound<K>)) -> Result<
        Vec<Entry<K, V>>,
    > {
        Ok(Vec::new())
    }

    /// Always empty.
    fn reverse_with_versions(
        &mut self,
        _range: (core::ops::Bound<K>, core::ops::Bound<K>),
    ) -> Result<Vec<Entry<K, V>>> {
        Ok(Vec::new())
    }
}

} // verus!
