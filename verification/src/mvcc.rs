//! Multi-version index facade: the single-writer tree plus
//! value-semantics snapshots for readers.
//!
//! Writers go through [`MvccWriter`], readers may take an
//! [`MvccSnapshot`]: an owned, immutable copy of the index state.
//! Because a snapshot owns its entries outright, everything it
//! observes is exactly the state up to the seqno at which it was
//! taken; later writes to the index cannot reach it.

use vstd::prelude::*;

use crate::base::{Diff, Footprint, OrdKey};
use crate::entry::{DeltaView, Entry, EntryView, ValueView};
use crate::error::Error;
use crate::llrb::{cas_valid, delete_rel, has_key, in_key_range, upsert_rel, Ev, Iter, Llrb};
use crate::vlog::PayloadView;
use crate::Result;

verus! {

/// Ordered in-memory index with snapshot support.
pub struct Mvcc<K: OrdKey, V: Diff> {
    inner: Llrb<K, V>,
}

/// Write handle into an [`Mvcc`] index.
pub struct MvccWriter<'a, K: OrdKey, V: Diff> {
    index: &'a mut Mvcc<K, V>,
}

impl<'a, K: OrdKey, V: Diff> MvccWriter<'a, K, V> {
    /// The entries of the index behind this handle.
    pub closed spec fn entries(&self) -> Seq<Ev<K, V>> {
        self.index.entries()
    }

    /// Well-formedness of the index behind this handle.
    pub closed spec fn wf(&self) -> bool {
        self.index.wf()
    }

    /// The seqno of the index behind this handle.
    pub closed spec fn seqno_spec(&self) -> u64 {
        self.index.seqno_spec()
    }

    /// Whether the index behind this handle is in lsm mode.
    pub closed spec fn lsm_spec(&self) -> bool {
        self.index.lsm_spec()
    }
}

/// An immutable snapshot of the index at a point in time.
pub struct MvccSnapshot<K: OrdKey, V: Diff> {
    entries: Vec<Entry<K, V>>,
    seqno: u64,
}

impl<K: OrdKey, V: Diff> Mvcc<K, V> {
    /// The in-order sequence of entries.
    pub closed spec fn entries(&self) -> Seq<Ev<K, V>> {
        self.inner.entries()
    }

    /// Well-formedness, inherited from the tree.
    pub closed spec fn wf(&self) -> bool {
        self.inner.wf()
    }

    pub closed spec fn lsm_spec(&self) -> bool {
        self.inner.lsm_spec()
    }

    pub closed spec fn name_spec(&self) -> Seq<char> {
        self.inner.name_spec()
    }

    pub closed spec fn seqno_spec(&self) -> u64 {
        self.inner.seqno_spec()
    }

    /// An empty index in non-lsm mode.
    pub fn new(name: &str) -> (r: Mvcc<K, V>)
        ensures
            r.wf(),
            r.entries() == Seq::<Ev<K, V>>::empty(),
            r.seqno_spec() == 0,
            !r.lsm_spec(),
            r.name_spec() == name@,
    {
        Mvcc { inner: Llrb::new(name) }
    }

    /// An empty index in lsm mode.
    pub fn new_lsm(name: &str) -> (r: Mvcc<K, V>)
        ensures
            r.wf(),
            r.entries() == Seq::<Ev<K, V>>::empty(),
            r.seqno_spec() == 0,
            r.lsm_spec(),
            r.name_spec() == name@,
    {
        Mvcc { inner: Llrb::new_lsm(name) }
    }

    /// The name this index was created with.
    pub fn id(&self) -> (r: String)
        ensures
            r@ == self.name_spec(),
    {
        self.inner.id()
    }

    /// The name this index was created with.
    pub fn to_name(&self) -> (r: String)
        ensures
            r@ == self.name_spec(),
    {
        self.inner.to_name()
    }

    /// Number of entries.
    pub fn len(&self) -> (r: usize)
        ensures
            self.wf() ==> r == self.entries().len(),
    {
        self.inner.len()
    }

    /// The current seqno.
    pub fn to_seqno(&self) -> (r: u64)
        ensures
            r == self.seqno_spec(),
    {
        self.inner.to_seqno()
    }

    /// The current seqno.
    pub fn get_seqno(&self) -> (r: u64)
        ensures
            r == self.seqno_spec(),
    {
        self.inner.get_seqno()
    }

    /// Set the current seqno.
    pub fn set_seqno(&mut self, seqno: u64)
        requires
            old(self).wf(),
            crate::llrb::seqnos_bounded::<K, V>(old(self).entries(), seqno),
        ensures
            final(self).wf(),
            final(self).seqno_spec() == seqno,
            final(self).entries() == old(self).entries(),
            final(self).lsm_spec() == old(self).lsm_spec(),
            final(self).name_spec() == old(self).name_spec(),
    {
        self.inner.set_seqno(seqno);
    }

    /// Get the latest entry for `key`.
    pub fn get(&self, key: &K) -> (r: Result<Entry<K, V>>)
        requires
            self.wf(),
        ensures
            match r {
                Ok(e) => exists|i: int|
                    0 <= i < self.entries().len() && (#[trigger] self.entries()[i]).key == key@
                        && e@ == self.entries()[i],
                Err(err) => err == Error::KeyNotFound && !has_key::<K, V>(self.entries(), key@),
            },
    {
        let r = self.inner.get(key);
        proof {
            assert(self.entries() == self.inner.entries());
            match &r {
                Ok(e) => {
                    let i = choose|i: int|
                        0 <= i < self.inner.entries().len() && (#[trigger] self.inner.entries()[
                            i
                        ]).key == key@ && e@ == self.inner.entries()[i];
                    assert(self.entries()[i] == self.inner.entries()[i]);
                },
                Err(_) => {},
            }
        }
        r
    }

    /// Iterate over all entries, in key order.
    pub fn iter(&self) -> (r: Result<Iter<K, V>>)
        requires
            self.wf(),
        ensures
            r matches Ok(it) ==> it.remaining() == self.entries(),
            r is Ok,
    {
        self.inner.iter()
    }

    /// Iterate over the entries within `range`, in key order.
    pub fn range(&self, range: (core::ops::Bound<K>, core::ops::Bound<K>)) -> (r: Result<
        Iter<K, V>,
    >)
        requires
            self.wf(),
        ensures
            r matches Ok(it) ==> it.remaining() == self.entries().filter(
                |e: Ev<K, V>| in_key_range::<K>(e.key, range.0, range.1),
            ),
            r is Ok,
    {
        self.inner.range(range)
    }

    /// Iterate over the entries within `range`, highest key first.
    pub fn reverse(&self, range: (core::ops::Bound<K>, core::ops::Bound<K>)) -> (r: Result<
        Iter<K, V>,
    >)
        requires
            self.wf(),
        ensures
            r matches Ok(it) ==> it.remaining() == self.entries().filter(
                |e: Ev<K, V>| in_key_range::<K>(e.key, range.0, range.1),
            ).reverse(),
            r is Ok,
    {
        self.inner.reverse(range)
    }

    /// Whether the red-black balance invariants hold of the tree.
    pub closed spec fn balanced(&self) -> bool {
        self.inner.balanced()
    }

    /// The tree's black height.
    pub closed spec fn black_height_spec(&self) -> int {
        self.inner.black_height_spec()
    }

    /// Check the red-black balance invariants: no two consecutive red
    /// links, equal black-height under every node.
    pub fn validate(&self) -> (r: Result<crate::llrb_util::Stats>)
        requires
            self.wf(),
        ensures
            r is Ok <==> self.balanced() && self.black_height_spec() <= usize::MAX,
            r matches Ok(stats) ==> stats.entries_spec() == self.entries().len() && (
            stats.blacks_spec() matches Some(b) && b == self.black_height_spec()),
    {
        self.inner.validate()
    }

    /// Take a snapshot of the index as of now. The snapshot owns its
    /// entries: whatever is written to the index afterwards, the
    /// snapshot keeps showing exactly the entries up to its seqno.
    pub fn snapshot(&self) -> (r: Result<MvccSnapshot<K, V>>)
        requires
            self.wf(),
        ensures
            r matches Ok(s) ==> s.entries_spec() == self.entries() && s.seqno_spec()
                == self.seqno_spec(),
            r is Ok,
    {
        let mut it = match self.inner.iter() {
            Ok(it) => it,
            Err(e) => {
                return Err(e);
            },
        };
        let mut entries: Vec<Entry<K, V>> = Vec::new();
        loop
            invariant
                entries.deep_view() + it.remaining() == self.entries(),
            ensures
                entries.deep_view() == self.entries(),
            decreases it.remaining().len(),
        {
            let ghost predv = entries.deep_view();
            let ghost prevv = entries@;
            match it.next() {
                None => {
                    proof {
                        assert(entries.deep_view() =~= entries.deep_view() + it.remaining());
                    }
                    break;
                },
                Some(e) => {
                    entries.push(e);
                    proof {
                        assert forall|j: int|
                            0 <= j < entries@.len() implies #[trigger] entries.deep_view()[j] == (
                        predv + seq![e@])[j] by {
                            assert(entries.deep_view()[j] == entries@[j].deep_view());
                            if j < prevv.len() {
                                assert(entries@[j] == prevv[j]);
                                assert(prevv[j].deep_view() == predv[j]);
                            }
                        }
                        assert(entries.deep_view() =~= predv + seq![e@]);
                        assert(entries.deep_view() + it.remaining() =~= self.entries());
                    }
                },
            }
        }
        Ok(MvccSnapshot { entries, seqno: self.to_seqno() })
    }

    /// A write handle borrowing this index.
    pub fn to_writer(&mut self) -> (w: MvccWriter<'_, K, V>)
        requires
            old(self).wf(),
        ensures
            w.wf(),
            w.entries() == old(self).entries(),
            w.seqno_spec() == old(self).seqno_spec(),
            w.lsm_spec() == old(self).lsm_spec(),
    {
        MvccWriter { index: self }
    }
}

impl<K: OrdKey, V: Diff + Footprint> Mvcc<K, V> where V::D: Footprint {
    /// Set `key` to `value`, assigning the next seqno; the effect on
    /// the entry sequence is exactly the tree's.
    pub fn set(&mut self, key: K, value: V) -> (r: Result<Option<Entry<K, V>>>)
        requires
            old(self).wf(),
            old(self).seqno_spec() < u64::MAX,
            old(self).entries().len() < usize::MAX,
        ensures
            final(self).wf(),
            r is Ok,
            final(self).seqno_spec() == old(self).seqno_spec() + 1,
            final(self).lsm_spec() == old(self).lsm_spec(),
            final(self).name_spec() == old(self).name_spec(),
            ({
                let ne = EntryView {
                    key: key@,
                    value: ValueView::<<V as View>::V>::U {
                        value: PayloadView::Native(value@),
                        seqno: (old(self).seqno_spec() + 1) as u64,
                    },
                    deltas: Seq::<DeltaView<<V::D as View>::V>>::empty(),
                };
                match r {
                    Ok(Some(olde)) => exists|i: int|
                        {
                            &&& 0 <= i < old(self).entries().len()
                            &&& (#[trigger] old(self).entries()[i]).key == key@
                            &&& olde@ == old(self).entries()[i]
                            &&& final(self).entries().len() == old(self).entries().len()
                            &&& (forall|j: int|
                                0 <= j < old(self).entries().len() && j != i ==> final(self).entries()[j] == old(self).entries()[j])
                            &&& upsert_rel::<K, V>(
                                old(self).entries()[i],
                                final(self).entries()[i],
                                ne,
                                old(self).lsm_spec(),
                            )
                        },
                    Ok(None) => !has_key::<K, V>(old(self).entries(), key@) && exists|i: int|
                        0 <= i <= old(self).entries().len() && final(self).entries() == old(self).entries().insert(i, ne),
                    Err(_) => false,
                }
            }),
    {
        let r = self.inner.set(key, value);
        proof {
            let es = old(self).inner.entries();
            assert(old(self).entries() == es);
            assert(final(self).entries() == final(self).inner.entries());
            let ne = EntryView {
                key: key@,
                value: ValueView::<<V as View>::V>::U {
                    value: PayloadView::Native(value@),
                    seqno: (old(self).seqno_spec() + 1) as u64,
                },
                deltas: Seq::<DeltaView<<V::D as View>::V>>::empty(),
            };
            match &r {
                Ok(Some(olde)) => {
                    let i = choose|i: int|
                        {
                            &&& 0 <= i < es.len()
                            &&& (#[trigger] es[i]).key == key@
                            &&& olde@ == es[i]
                            &&& final(self).inner.entries().len() == es.len()
                            &&& (forall|j: int|
                                0 <= j < es.len() && j != i ==> final(self).inner.entries()[j]
                                    == es[j])
                            &&& upsert_rel::<K, V>(
                                es[i],
                                final(self).inner.entries()[i],
                                ne,
                                old(self).lsm_spec(),
                            )
                        };
                    assert((#[trigger] old(self).entries()[i]).key == key@);
                },
                Ok(None) => {
                    let i = choose|i: int|
                        0 <= i <= es.len() && final(self).inner.entries() == #[trigger] es.insert(
                            i,
                            ne,
                        );
                    assert(final(self).entries() == old(self).entries().insert(i, ne));
                },
                Err(_) => {},
            }
        }
        r
    }

    /// Set `key` to `value` under a compare-and-set guard; on a
    /// mismatch nothing changes and `InvalidCAS` comes back.
    pub fn set_cas(&mut self, key: K, value: V, cas: u64) -> (r: Result<Option<Entry<K, V>>>)
        requires
            old(self).wf(),
            old(self).seqno_spec() < u64::MAX,
            old(self).entries().len() < usize::MAX,
        ensures
            final(self).wf(),
            final(self).lsm_spec() == old(self).lsm_spec(),
            final(self).name_spec() == old(self).name_spec(),
            r matches Err(err) ==> err == Error::InvalidCAS && !cas_valid::<K, V>(
                old(self).entries(),
                key@,
                cas,
            ) && final(self).entries() == old(self).entries() && final(self).seqno_spec() == old(self).seqno_spec(),
            r is Ok ==> cas_valid::<K, V>(old(self).entries(), key@, cas) && final(self).seqno_spec() == old(self).seqno_spec() + 1,
            ({
                let ne = EntryView {
                    key: key@,
                    value: ValueView::<<V as View>::V>::U {
                        value: PayloadView::Native(value@),
                        seqno: (old(self).seqno_spec() + 1) as u64,
                    },
                    deltas: Seq::<DeltaView<<V::D as View>::V>>::empty(),
                };
                match r {
                    Ok(Some(olde)) => exists|i: int|
                        {
                            &&& 0 <= i < old(self).entries().len()
                            &&& (#[trigger] old(self).entries()[i]).key == key@
                            &&& olde@ == old(self).entries()[i]
                            &&& final(self).entries().len() == old(self).entries().len()
                            &&& (forall|j: int|
                                0 <= j < old(self).entries().len() && j != i ==> final(self).entries()[j] == old(self).entries()[j])
                            &&& upsert_rel::<K, V>(
                                old(self).entries()[i],
                                final(self).entries()[i],
                                ne,
                                old(self).lsm_spec(),
                            )
                        },
                    Ok(None) => !has_key::<K, V>(old(self).entries(), key@) && exists|i: int|
                        0 <= i <= old(self).entries().len() && final(self).entries() == old(self).entries().insert(i, ne),
                    Err(_) => true,
                }
            }),
    {
        let r = self.inner.set_cas(key, value, cas);
        proof {
            let es = old(self).inner.entries();
            assert(old(self).entries() == es);
            assert(final(self).entries() == final(self).inner.entries());
            let ne = EntryView {
                key: key@,
                value: ValueView::<<V as View>::V>::U {
                    value: PayloadView::Native(value@),
                    seqno: (old(self).seqno_spec() + 1) as u64,
                },
                deltas: Seq::<DeltaView<<V::D as View>::V>>::empty(),
            };
            match &r {
                Ok(Some(olde)) => {
                    let i = choose|i: int|
                        {
                            &&& 0 <= i < es.len()
                            &&& (#[trigger] es[i]).key == key@
                            &&& olde@ == es[i]
                            &&& final(self).inner.entries().len() == es.len()
                            &&& (forall|j: int|
                                0 <= j < es.len() && j != i ==> final(self).inner.entries()[j]
                                    == es[j])
                            &&& upsert_rel::<K, V>(
                                es[i],
                                final(self).inner.entries()[i],
                                ne,
                                old(self).lsm_spec(),
                            )
                        };
                    assert((#[trigger] old(self).entries()[i]).key == key@);
                },
                Ok(None) => {
                    let i = choose|i: int|
                        0 <= i <= es.len() && final(self).inner.entries() == #[trigger] es.insert(
                            i,
                            ne,
                        );
                    assert(final(self).entries() == old(self).entries().insert(i, ne));
                },
                Err(_) => {},
            }
        }
        r
    }

    /// Delete `key`: in lsm mode the entry becomes a tombstone
    /// (created fresh when absent, back-to-back deletes collapse);
    /// otherwise it is physically removed. The effect is exactly the
    /// tree's.
    pub fn delete(&mut self, key: &K) -> (r: Result<Option<Entry<K, V>>>)
        requires
            old(self).wf(),
            old(self).seqno_spec() < u64::MAX,
            old(self).entries().len() < usize::MAX,
        ensures
            final(self).wf(),
            r is Ok,
            final(self).lsm_spec() == old(self).lsm_spec(),
            final(self).name_spec() == old(self).name_spec(),
            old(self).lsm_spec() ==> match r {
                Ok(Some(olde)) => exists|i: int|
                    {
                        &&& 0 <= i < old(self).entries().len()
                        &&& (#[trigger] old(self).entries()[i]).key == key@
                        &&& olde@ == old(self).entries()[i]
                        &&& final(self).entries().len() == old(self).entries().len()
                        &&& (forall|j: int|
                            0 <= j < old(self).entries().len() && j != i ==> final(self).entries()[j] == old(self).entries()[j])
                        &&& if crate::entry::value_is_deleted(old(self).entries()[i].value) {
                            final(self).entries()[i] == old(self).entries()[i] && final(self).seqno_spec() == old(self).seqno_spec()
                        } else {
                            delete_rel::<K, V>(
                                old(self).entries()[i],
                                final(self).entries()[i],
                                (old(self).seqno_spec() + 1) as u64,
                            ) && final(self).seqno_spec() == old(self).seqno_spec() + 1
                        }
                    },
                Ok(None) => !has_key::<K, V>(old(self).entries(), key@) && final(self).seqno_spec() == old(self).seqno_spec() + 1 && exists|i: int|
                    0 <= i <= old(self).entries().len() && final(self).entries()
                        == #[trigger] old(self).entries().insert(
                        i,
                        EntryView {
                            key: key@,
                            value: ValueView::<<V as View>::V>::D {
                                seqno: (old(self).seqno_spec() + 1) as u64,
                            },
                            deltas: Seq::empty(),
                        },
                    ),
                Err(_) => false,
            },
            !old(self).lsm_spec() ==> final(self).seqno_spec() == old(self).seqno_spec() + 1
                && match r {
                Ok(Some(olde)) => exists|i: int|
                    {
                        &&& 0 <= i < old(self).entries().len()
                        &&& (#[trigger] old(self).entries()[i]).key == key@
                        &&& olde@ == old(self).entries()[i]
                        &&& final(self).entries() == old(self).entries().remove(i)
                    },
                Ok(None) => final(self).entries() == old(self).entries() && !has_key::<K, V>(
                    old(self).entries(),
                    key@,
                ),
                Err(_) => false,
            },
    {
        let r = self.inner.delete(key);
        proof {
            let es = old(self).inner.entries();
            assert(old(self).entries() == es);
            assert(final(self).entries() == final(self).inner.entries());
            if old(self).lsm_spec() {
                match &r {
                    Ok(Some(olde)) => {
                        let i = choose|i: int|
                            {
                                &&& 0 <= i < es.len()
                                &&& (#[trigger] es[i]).key == key@
                                &&& olde@ == es[i]
                                &&& final(self).inner.entries().len() == es.len()
                                &&& (forall|j: int|
                                    0 <= j < es.len() && j != i ==> final(self).inner.entries()[j]
                                        == es[j])
                                &&& if crate::entry::value_is_deleted(es[i].value) {
                                    final(self).inner.entries()[i] == es[i] && final(self).inner.seqno_spec() == old(self).inner.seqno_spec()
                                } else {
                                    delete_rel::<K, V>(
                                        es[i],
                                        final(self).inner.entries()[i],
                                        (old(self).inner.seqno_spec() + 1) as u64,
                                    ) && final(self).inner.seqno_spec() == old(self).inner.seqno_spec() + 1
                                }
                            };
                        assert((#[trigger] old(self).entries()[i]).key == key@);
                    },
                    Ok(None) => {
                        let ne = EntryView {
                            key: key@,
                            value: ValueView::<<V as View>::V>::D {
                                seqno: (old(self).inner.seqno_spec() + 1) as u64,
                            },
                            deltas: Seq::empty(),
                        };
                        let i = choose|i: int|
                            0 <= i <= es.len() && final(self).inner.entries()
                                == #[trigger] es.insert(i, ne);
                        assert(final(self).entries() == old(self).entries().insert(i, ne));
                    },
                    Err(_) => {},
                }
            } else {
                match &r {
                    Ok(Some(olde)) => {
                        let i = choose|i: int|
                            {
                                &&& 0 <= i < es.len()
                                &&& (#[trigger] es[i]).key == key@
                                &&& olde@ == es[i]
                                &&& final(self).inner.entries() == es.remove(i)
                            };
                        assert((#[trigger] old(self).entries()[i]).key == key@);
                    },
                    _ => {},
                }
            }
        }
        r
    }
}

impl<'a, K: OrdKey, V: Diff + Footprint> MvccWriter<'a, K, V> where V::D: Footprint {
    /// Set through the handle; the effect on the index's entry
    /// sequence is exactly [`Mvcc::set`]'s.
    pub fn set(&mut self, key: K, value: V) -> (r: Result<Option<Entry<K, V>>>)
        requires
            old(self).wf(),
            old(self).seqno_spec() < u64::MAX,
            old(self).entries().len() < usize::MAX,
        ensures
            final(self).wf(),
            r is Ok,
            final(self).seqno_spec() == old(self).seqno_spec() + 1,
            final(self).lsm_spec() == old(self).lsm_spec(),
            ({
                let ne = EntryView {
                    key: key@,
                    value: ValueView::<<V as View>::V>::U {
                        value: PayloadView::Native(value@),
                        seqno: (old(self).seqno_spec() + 1) as u64,
                    },
                    deltas: Seq::<DeltaView<<V::D as View>::V>>::empty(),
                };
                match r {
                    Ok(Some(olde)) => exists|i: int|
                        {
                            &&& 0 <= i < old(self).entries().len()
                            &&& (#[trigger] old(self).entries()[i]).key == key@
                            &&& olde@ == old(self).entries()[i]
                            &&& final(self).entries().len() == old(self).entries().len()
                            &&& (forall|j: int|
                                0 <= j < old(self).entries().len() && j != i ==> final(self).entries()[j] == old(self).entries()[j])
                            &&& upsert_rel::<K, V>(
                                old(self).entries()[i],
                                final(self).entries()[i],
                                ne,
                                old(self).lsm_spec(),
                            )
                        },
                    Ok(None) => !has_key::<K, V>(old(self).entries(), key@) && exists|i: int|
                        0 <= i <= old(self).entries().len() && final(self).entries() == old(self).entries().insert(i, ne),
                    Err(_) => false,
                }
            }),
    {
        let r = self.index.set(key, value);
        proof {
            let es = old(self).index.entries();
            assert(old(self).entries() == es);
            assert(final(self).entries() == final(self).index.entries());
            let ne = EntryView {
                key: key@,
                value: ValueView::<<V as View>::V>::U {
                    value: PayloadView::Native(value@),
                    seqno: (old(self).seqno_spec() + 1) as u64,
                },
                deltas: Seq::<DeltaView<<V::D as View>::V>>::empty(),
            };
            match &r {
                Ok(Some(olde)) => {
                    let i = choose|i: int|
                        {
                            &&& 0 <= i < es.len()
                            &&& (#[trigger] es[i]).key == key@
                            &&& olde@ == es[i]
                            &&& final(self).index.entries().len() == es.len()
                            &&& (forall|j: int|
                                0 <= j < es.len() && j != i ==> final(self).index.entries()[j]
                                    == es[j])
                            &&& upsert_rel::<K, V>(
                                es[i],
                                final(self).index.entries()[i],
                                ne,
                                old(self).lsm_spec(),
                            )
                        };
                    assert((#[trigger] old(self).entries()[i]).key == key@);
                },
                Ok(None) => {
                    let i = choose|i: int|
                        0 <= i <= es.len() && final(self).index.entries() == #[trigger] es.insert(
                            i,
                            ne,
                        );
                    assert(final(self).entries() == old(self).entries().insert(i, ne));
                },
                Err(_) => {},
            }
        }
        r
    }

    /// Set through the handle under a compare-and-set guard; on a
    /// mismatch nothing changes and `InvalidCAS` comes back.
    pub fn set_cas(&mut self, key: K, value: V, cas: u64) -> (r: Result<Option<Entry<K, V>>>)
        requires
            old(self).wf(),
            old(self).seqno_spec() < u64::MAX,
            old(self).entries().len() < usize::MAX,
        ensures
            final(self).wf(),
            final(self).lsm_spec() == old(self).lsm_spec(),
            r matches Err(err) ==> err == Error::InvalidCAS && !cas_valid::<K, V>(
                old(self).entries(),
                key@,
                cas,
            ) && final(self).entries() == old(self).entries() && final(self).seqno_spec() == old(self).seqno_spec(),
            r is Ok ==> cas_valid::<K, V>(old(self).entries(), key@, cas) && final(self).seqno_spec() == old(self).seqno_spec() + 1,
            r matches Ok(None) ==> !has_key::<K, V>(old(self).entries(), key@) && final(self).entries().len() == old(self).entries().len() + 1,
    {
        let r = self.index.set_cas(key, value, cas);
        proof {
            let es = old(self).index.entries();
            assert(old(self).entries() == es);
            assert(final(self).entries() == final(self).index.entries());
            match &r {
                Ok(None) => {
                    let ne = EntryView {
                        key: key@,
                        value: ValueView::<<V as View>::V>::U {
                            value: PayloadView::Native(value@),
                            seqno: (old(self).seqno_spec() + 1) as u64,
                        },
                        deltas: Seq::<DeltaView<<V::D as View>::V>>::empty(),
                    };
                    let i = choose|i: int|
                        0 <= i <= es.len() && final(self).index.entries() == #[trigger] es.insert(
                            i,
                            ne,
                        );
                    assert(final(self).index.entries().len() == es.len() + 1);
                },
                _ => {},
            }
        }
        r
    }

    /// Delete through the handle; tombstone in lsm mode, physical
    /// removal otherwise, exactly as [`Mvcc::delete`].
    pub fn delete(&mut self, key: &K) -> (r: Result<Option<Entry<K, V>>>)
        requires
            old(self).wf(),
            old(self).seqno_spec() < u64::MAX,
            old(self).entries().len() < usize::MAX,
        ensures
            final(self).wf(),
            r is Ok,
            final(self).lsm_spec() == old(self).lsm_spec(),
            r matches Ok(Some(olde)) ==> has_key::<K, V>(old(self).entries(), key@),
            old(self).lsm_spec() ==> (r matches Ok(None) ==> !has_key::<K, V>(
                old(self).entries(),
                key@,
            ) && final(self).seqno_spec() == old(self).seqno_spec() + 1 && exists|i: int|
                0 <= i <= old(self).entries().len() && final(self).entries()
                    == #[trigger] old(self).entries().insert(
                    i,
                    EntryView {
                        key: key@,
                        value: ValueView::<<V as View>::V>::D {
                            seqno: (old(self).seqno_spec() + 1) as u64,
                        },
                        deltas: Seq::empty(),
                    },
                )),
            !old(self).lsm_spec() ==> final(self).seqno_spec() == old(self).seqno_spec() + 1 && (
            r matches Ok(None) ==> final(self).entries() == old(self).entries() && !has_key::<
                K,
                V,
            >(old(self).entries(), key@)) && (r matches Ok(Some(olde)) ==> exists|i: int|
                {
                    &&& 0 <= i < old(self).entries().len()
                    &&& (#[trigger] old(self).entries()[i]).key == key@
                    &&& olde@ == old(self).entries()[i]
                    &&& final(self).entries() == old(self).entries().remove(i)
                }),
    {
        let r = self.index.delete(key);
        proof {
            let es = old(self).index.entries();
            assert(old(self).entries() == es);
            assert(final(self).entries() == final(self).index.entries());
            if old(self).lsm_spec() {
                match &r {
                    Ok(None) => {
                        let ne = EntryView {
                            key: key@,
                            value: ValueView::<<V as View>::V>::D {
                                seqno: (old(self).index.seqno_spec() + 1) as u64,
                            },
                            deltas: Seq::empty(),
                        };
                        let i = choose|i: int|
                            0 <= i <= es.len() && final(self).index.entries()
                                == #[trigger] es.insert(i, ne);
                        assert(final(self).entries() == old(self).entries().insert(i, ne));
                    },
                    _ => {},
                }
            }
            match &r {
                Ok(Some(olde)) => {
                    if old(self).lsm_spec() {
                        let i = choose|i: int|
                            {
                                &&& 0 <= i < es.len()
                                &&& (#[trigger] es[i]).key == key@
                            };
                        assert((#[trigger] old(self).entries()[i]).key == key@);
                    } else {
                        let i = choose|i: int|
                            {
                                &&& 0 <= i < es.len()
                                &&& (#[trigger] es[i]).key == key@
                                &&& olde@ == es[i]
                                &&& final(self).index.entries() == es.remove(i)
                            };
                        assert((#[trigger] old(self).entries()[i]).key == key@);
                    }
                },
                _ => {},
            }
        }
        r
    }
}

impl<K: OrdKey, V: Diff> MvccSnapshot<K, V> {
    /// The entries this snapshot observed.
    pub closed spec fn entries_spec(&self) -> Seq<Ev<K, V>> {
        self.entries.deep_view()
    }

    /// The seqno at which this snapshot was taken.
    pub closed spec fn seqno_spec(&self) -> u64 {
        self.seqno
    }

    /// The seqno at which this snapshot was taken.
    pub fn to_seqno(&self) -> (r: u64)
        ensures
            r == self.seqno_spec(),
    {
        self.seqno
    }

    /// Number of entries the snapshot holds.
    pub fn len(&self) -> (r: usize)
        ensures
            r == self.entries_spec().len(),
    {
        self.entries.len()
    }

    /// The entry at position `i`, in key order.
    pub fn get_at(&self, i: usize) -> (r: Result<Entry<K, V>>)
        ensures
            i < self.entries_spec().len() ==> (r matches Ok(e) && e@ == self.entries_spec()[
                i as int
            ]),
            i >= self.entries_spec().len() ==> (r matches Err(err) && err == Error::KeyNotFound),
    {
        if i < self.entries.len() {
            proof {
                assert(self.entries.deep_view()[i as int] == self.entries@[i as int].deep_view());
            }
            Ok(self.entries[i].dup())
        } else {
            Err(Error::KeyNotFound)
        }
    }
}

} // verus!
