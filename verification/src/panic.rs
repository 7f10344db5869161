//! Placeholder index for features an engine assembly does not
//! support: every operation answers with an error naming no support.

use vstd::prelude::*;

use crate::base::{Diff, OrdKey};
use crate::entry::Entry;
use crate::error::Error;
use crate::scans::{CommitIterator, Reader, Writer};
use crate::Result;

verus! {

/// Placeholder for unimplemented features; operations fail.
pub struct Panic {
    name: String,
}

impl Panic {
    /// A placeholder named after the engine component it stands for.
    pub fn new(name: &str) -> (r: Panic)
        ensures
            r.name_spec() == name@,
    {
        Panic { name: name.to_owned() }
    }

    /// The component name.
    pub closed spec fn name_spec(&self) -> Seq<char> {
        self.name@
    }

    /// The component name.
    pub fn id(&self) -> (r: String)
        ensures
            r@ == self.name_spec(),
    {
        self.name.clone()
    }
}

impl<K: OrdKey, V: Diff> Writer<K, V> for Panic {
    fn set(&mut self, _key: K, _value: V) -> Result<Option<Entry<K, V>>> {
        Err(Error::UnReachable)
    }

    fn set_cas(&mut self, _k: K, _v: V, _cas: u64) -> Result<Option<Entry<K, V>>> {
        Err(Error::UnReachable)
    }

    fn delete(&mut self, _key: &K) -> Result<Option<Entry<K, V>>> {
        Err(Error::UnReachable)
    }
}

impl<K: OrdKey, V: Diff> Reader<K, V> for Panic {
    fn get(&mut self, _key: &K) -> Result<Entry<K, V>> {
        Err(Error::UnReachable)
    }

    fn iter(&mut self) -> Result<Vec<Entry<K, V>>> {
        Err(Error::UnReachable)
    }

    fn range(&mut self, _range: (core::ops::Bound<K>, core::ops::Bound<K>)) -> Result<
        Vec<Entry<K, V>>,
    > {
        Err(Error::UnReachable)
    }

    fn reverse(&mut self, _range: (core::ops::Bound<K>, core::ops::Bound<K>)) -> Result<
        Vec<Entry<K, V>>,
    > {
        Err(Error::UnReachable)
    }

    fn get_with_versions(&mut self, _key: &K) -> Result<Entry<K, V>> {
        Err(Error::UnReachable)
    }

    fn iter_with_versions(&mut self) -> Result<Vec<Entry<K, V>>> {
        Err(Error::UnReachable)
    }

    fn range_with_versions(&mut self, _range: (core::ops::Bound<K>, core::ops::Bound<K>)) -> Result<
        Vec<Entry<K, V>>,
    > {
        Err(Error::UnReachable)
    }

    fn reverse_with_versions(
        &mut self,
        _range: (core::ops::Bound<K>, core::ops::Bound<K>),
    ) -> Result<Vec<Entry<K, V>>> {
        Err(Error::UnReachable)
    }
}

impl<K: OrdKey, V: Diff> CommitIterator<K, V> for Panic {
    fn scan(&mut self, _within: (core::ops::Bound<u64>, core::ops::Bound<u64>)) -> Result<
        Vec<Entry<K, V>>,
    > {
        Err(Error::UnReachable)
    }

    fn scans(
        &mut self,
        _n_shards: usize,
        _within: (core::ops::Bound<u64>, core::ops::Bound<u64>),
    ) -> Result<Vec<Vec<Entry<K, V>>>> {
        Err(Error::UnReachable)
    }

    fn range_scans(
        &mut self,
        _ranges: Vec<(core::ops::Bound<K>, core::ops::Bound<K>)>,
        _within: (core::ops::Bound<u64>, core::ops::Bound<u64>),
    ) -> Result<Vec<Vec<Entry<K, V>>>> {
        Err(Error::UnReachable)
    }
}

} // verus!
