//! The entry model: a key, its current value and an ordered chain of
//! deltas, newest first, one per older version. This module holds the
//! version algebra the whole engine is built on: prepending a version,
//! deleting, purging by cutoff, filtering by seqno range, and merging
//! the version chains of two snapshots.

use vstd::prelude::*;

use crate::base::{Cutoff, Diff, Footprint, OrdKey};
use crate::error::Error;
use crate::vlog;
use crate::vlog::PayloadView;
use crate::Result;

verus! {

// ------------------------------------------------------------- views

/// The current value of an entry as specifications see it: an upsert
/// carrying a payload, or a tombstone; both carry the seqno of the
/// mutation that produced them.
pub enum ValueView<T> {
    U { value: PayloadView<T>, seqno: u64 },
    D { seqno: u64 },
}

/// One older version as specifications see it: an upsert delta or a
/// delete delta, with the seqno of the version it reconstructs.
pub enum DeltaView<T> {
    U { delta: PayloadView<T>, seqno: u64 },
    D { seqno: u64 },
}

/// The whole entry as specifications see it.
pub struct EntryView<KT, VT, DT> {
    pub key: KT,
    pub value: ValueView<VT>,
    pub deltas: Seq<DeltaView<DT>>,
}

/// The seqno a value carries.
pub open spec fn value_seqno<T>(v: ValueView<T>) -> u64 {
    match v {
        ValueView::U { seqno, .. } => seqno,
        ValueView::D { seqno } => seqno,
    }
}

/// Whether a value is a tombstone.
pub open spec fn value_is_deleted<T>(v: ValueView<T>) -> bool {
    v is D
}

/// The native payload of a value, if it is inline.
pub open spec fn value_native<T>(v: ValueView<T>) -> Option<T> {
    match v {
        ValueView::U { value: PayloadView::Native(x), .. } => Some(x),
        _ => None,
    }
}

/// Whether a value is a tombstone or carries an inline payload, so
/// the version algebra can work on it without a value-log fetch.
pub open spec fn value_is_resident<T>(v: ValueView<T>) -> bool {
    match v {
        ValueView::U { value, .. } => value is Native,
        ValueView::D { .. } => true,
    }
}

/// The seqno a delta carries.
pub open spec fn delta_seqno<T>(d: DeltaView<T>) -> u64 {
    match d {
        DeltaView::U { seqno, .. } => seqno,
        DeltaView::D { seqno } => seqno,
    }
}

/// Whether a delta marks a deleted version.
pub open spec fn delta_is_deleted<T>(d: DeltaView<T>) -> bool {
    d is D
}

/// Whether a delta is a delete or carries an inline payload.
pub open spec fn delta_is_resident<T>(d: DeltaView<T>) -> bool {
    match d {
        DeltaView::U { delta, .. } => delta is Native,
        DeltaView::D { .. } => true,
    }
}

/// Seqno strictly above `d`'s position: the value's seqno for the
/// first delta, the previous delta's seqno after that.
pub open spec fn chain_prev_seqno<VT, DT>(
    value: ValueView<VT>,
    deltas: Seq<DeltaView<DT>>,
    i: int,
) -> u64 {
    if i == 0 {
        value_seqno(value)
    } else {
        delta_seqno(deltas[i - 1])
    }
}

/// Seqnos strictly decrease along the chain:
/// `value.seqno > deltas[0].seqno > deltas[1].seqno > ...`.
pub open spec fn chain_sorted<VT, DT>(value: ValueView<VT>, deltas: Seq<DeltaView<DT>>) -> bool {
    forall|i: int|
        0 <= i < deltas.len() ==> delta_seqno(deltas[i]) < chain_prev_seqno(value, deltas, i)
}

/// Every version of the chain is resident: no value-log references.
pub open spec fn chain_resident<VT, DT>(value: ValueView<VT>, deltas: Seq<DeltaView<DT>>) -> bool {
    value_is_resident(value) && forall|i: int|
        0 <= i < deltas.len() ==> delta_is_resident(#[trigger] deltas[i])
}

/// Prepending one resident delta keeps a resident chain resident.
pub proof fn lemma_deltas_resident_prepend<DT>(
    pre_deltas: Seq<DeltaView<DT>>,
    post_deltas: Seq<DeltaView<DT>>,
)
    requires
        post_deltas.len() == pre_deltas.len() + 1,
        post_deltas.drop_first() == pre_deltas,
        delta_is_resident(post_deltas[0]),
        forall|i: int| 0 <= i < pre_deltas.len() ==> delta_is_resident(#[trigger] pre_deltas[i]),
    ensures
        forall|i: int|
            0 <= i < post_deltas.len() ==> delta_is_resident(#[trigger] post_deltas[i]),
{
    assert forall|i: int| 0 <= i < post_deltas.len() implies delta_is_resident(
        #[trigger] post_deltas[i],
    ) by {
        if i > 0 {
            assert(post_deltas.drop_first()[i - 1] == pre_deltas[i - 1]);
            assert(post_deltas[i] == pre_deltas[i - 1]);
        }
    }
}

/// The entry invariant: strictly decreasing seqnos along the chain.
pub open spec fn entry_sorted<KT, VT, DT>(e: EntryView<KT, VT, DT>) -> bool {
    chain_sorted(e.value, e.deltas)
}

/// Whether the whole entry is resident (no value-log references).
pub open spec fn entry_resident<KT, VT, DT>(e: EntryView<KT, VT, DT>) -> bool {
    chain_resident(e.value, e.deltas)
}

// ------------------------------------------------ version reconstruction

/// The value a delta reconstructs, given the native payload of the
/// version one step newer (`None` when that version is a tombstone).
/// Mirrors `next_value`.
pub open spec fn next_value_spec<V: Diff>(
    cur: Option<<V as View>::V>,
    delta: DeltaView<<V::D as View>::V>,
) -> ValueView<<V as View>::V> {
    match delta {
        DeltaView::D { seqno } => ValueView::D { seqno },
        DeltaView::U { delta: d, seqno } => match d {
            PayloadView::Native(dd) => match cur {
                None => ValueView::U {
                    value: PayloadView::Native(V::value_of_spec(dd)),
                    seqno,
                },
                Some(c) => ValueView::U {
                    value: PayloadView::Native(V::merge_spec(c, dd)),
                    seqno,
                },
            },
            _ => vstd::pervasive::arbitrary(),
        },
    }
}

/// All versions reachable from `value` through `deltas`, newest
/// first; the first element is `value` itself.
pub open spec fn versions_from<V: Diff>(
    value: ValueView<<V as View>::V>,
    deltas: Seq<DeltaView<<V::D as View>::V>>,
) -> Seq<ValueView<<V as View>::V>>
    decreases deltas.len(),
{
    if deltas.len() == 0 {
        seq![value]
    } else {
        seq![value] + versions_from::<V>(
            next_value_spec::<V>(value_native(value), deltas[0]),
            deltas.drop_first(),
        )
    }
}

/// The version list of an entry, newest first.
pub open spec fn entry_versions<V: Diff, KT>(
    e: EntryView<KT, <V as View>::V, <V::D as View>::V>,
) -> Seq<ValueView<<V as View>::V>> {
    versions_from::<V>(e.value, e.deltas)
}

// ------------------------------------------------------------- exec types

/// The current value of an entry: an upsert payload or a tombstone.
pub enum Value<V: Diff> {
    U { value: Box<vlog::Value<V>>, seqno: u64 },
    D { seqno: u64 },
}

/// One older version of an entry.
pub enum InnerDelta<V: Diff> {
    U { delta: vlog::Delta<V>, seqno: u64 },
    D { seqno: u64 },
}

/// An older version of an entry, with the seqno it reconstructs.
pub struct Delta<V: Diff> {
    data: InnerDelta<V>,
}

/// Whether a delta marks an upsert or a delete.
pub enum InnerDeltaKind {
    Upsert,
    Delete,
}

/// The primary record indexed by the engine: a key, the current
/// value, and the ordered chain of older versions, newest first.
pub struct Entry<K: OrdKey, V: Diff> {
    key: K,
    value: Value<V>,
    deltas: Vec<Delta<V>>,
}

impl<V: Diff> View for Value<V> {
    type V = ValueView<<V as View>::V>;

    closed spec fn view(&self) -> ValueView<<V as View>::V> {
        match self {
            Value::U { value, seqno } => ValueView::U { value: value@, seqno: *seqno },
            Value::D { seqno } => ValueView::D { seqno: *seqno },
        }
    }
}

impl<V: Diff> View for Delta<V> {
    type V = DeltaView<<V::D as View>::V>;

    closed spec fn view(&self) -> DeltaView<<V::D as View>::V> {
        match self.data {
            InnerDelta::U { delta, seqno } => DeltaView::U { delta: delta@, seqno },
            InnerDelta::D { seqno } => DeltaView::D { seqno },
        }
    }
}

impl<K: OrdKey, V: Diff> View for Entry<K, V> {
    type V = EntryView<<K as View>::V, <V as View>::V, <V::D as View>::V>;

    closed spec fn view(&self) -> EntryView<<K as View>::V, <V as View>::V, <V::D as View>::V> {
        EntryView { key: self.key@, value: self.value@, deltas: self.deltas.deep_view() }
    }
}

impl<V: Diff> DeepView for Value<V> {
    type V = ValueView<<V as View>::V>;

    open spec fn deep_view(&self) -> ValueView<<V as View>::V> {
        self@
    }
}

impl<V: Diff> DeepView for Delta<V> {
    type V = DeltaView<<V::D as View>::V>;

    open spec fn deep_view(&self) -> DeltaView<<V::D as View>::V> {
        self@
    }
}

impl<K: OrdKey, V: Diff> DeepView for Entry<K, V> {
    type V = EntryView<<K as View>::V, <V as View>::V, <V::D as View>::V>;

    open spec fn deep_view(&self) -> EntryView<<K as View>::V, <V as View>::V, <V::D as View>::V> {
        self@
    }
}

// ------------------------------------------------------------ Delta impls

impl<V: Diff> Delta<V> {
    /// An upsert delta at `seqno`.
    pub fn new_upsert(delta: vlog::Delta<V>, seqno: u64) -> (r: Delta<V>)
        ensures
            r@ == (DeltaView::U { delta: delta@, seqno }),
    {
        Delta { data: InnerDelta::U { delta, seqno } }
    }

    /// A delete delta at `seqno`.
    pub fn new_delete(seqno: u64) -> (r: Delta<V>)
        ensures
            r@ == (DeltaView::<<V::D as View>::V>::D { seqno }),
    {
        Delta { data: InnerDelta::D { seqno } }
    }

    /// The underlying difference value, `None` for a delete delta or
    /// a value-log reference.
    pub fn to_diff(&self) -> (r: Option<V::D>)
        ensures
            match r {
                Some(d) => self@ matches DeltaView::U { delta: PayloadView::Native(dd), .. }
                    && dd == d@,
                None => !(self@ matches DeltaView::U { delta: PayloadView::Native(_), .. }),
            },
    {
        match &self.data {
            InnerDelta::D { .. } => None,
            InnerDelta::U { delta, .. } => delta.to_native_delta(),
        }
    }

    /// Consuming variant of [`Delta::to_diff`].
    pub fn into_diff(self) -> (r: Option<V::D>)
        ensures
            match r {
                Some(d) => self@ matches DeltaView::U { delta: PayloadView::Native(dd), .. }
                    && dd == d@,
                None => !(self@ matches DeltaView::U { delta: PayloadView::Native(_), .. }),
            },
    {
        match self.data {
            InnerDelta::D { .. } => None,
            InnerDelta::U { delta, .. } => delta.to_native_delta(),
        }
    }

    /// The seqno of the version this delta reconstructs.
    pub fn to_seqno(&self) -> (r: u64)
        ensures
            r == delta_seqno(self@),
    {
        match &self.data {
            InnerDelta::U { seqno, .. } => *seqno,
            InnerDelta::D { seqno } => *seqno,
        }
    }

    /// The seqno together with the state of the version: `true` for
    /// an upsert, `false` for a delete.
    pub fn to_seqno_state(&self) -> (r: (bool, u64))
        ensures
            r.0 == !delta_is_deleted(self@),
            r.1 == delta_seqno(self@),
    {
        match &self.data {
            InnerDelta::U { seqno, .. } => (true, *seqno),
            InnerDelta::D { seqno } => (false, *seqno),
        }
    }

    /// The payload and seqno of an upsert delta.
    pub fn into_upserted(self) -> (r: Option<(vlog::Delta<V>, u64)>)
        ensures
            match r {
                Some(p) => self@ == (DeltaView::U { delta: p.0@, seqno: p.1 }),
                None => delta_is_deleted(self@),
            },
    {
        match self.data {
            InnerDelta::U { delta, seqno } => Some((delta, seqno)),
            InnerDelta::D { .. } => None,
        }
    }

    /// The seqno of a delete delta.
    pub fn into_deleted(self) -> (r: Option<u64>)
        ensures
            match r {
                Some(s) => self@ == DeltaView::<<V::D as View>::V>::D { seqno: s },
                None => !delta_is_deleted(self@),
            },
    {
        match self.data {
            InnerDelta::D { seqno } => Some(seqno),
            InnerDelta::U { .. } => None,
        }
    }

    /// Whether this delta's payload is a value-log reference.
    pub fn is_reference(&self) -> (r: bool)
        ensures
            r == (self@ matches DeltaView::U { delta: PayloadView::Reference { .. }, .. }),
    {
        match &self.data {
            InnerDelta::U { delta, .. } => delta.is_reference(),
            _ => false,
        }
    }

    /// Whether this delta marks a deleted version.
    pub fn is_deleted(&self) -> (r: bool)
        ensures
            r == delta_is_deleted(self@),
    {
        match &self.data {
            InnerDelta::D { .. } => true,
            InnerDelta::U { .. } => false,
        }
    }

    /// The kind, seqno and value-log reference of this delta; a
    /// native payload reports a zero reference.
    pub fn reference_parts(&self) -> (r: (InnerDeltaKind, u64, u64, u64))
        ensures
            delta_is_deleted(self@) ==> r.0 == InnerDeltaKind::Delete && r.1 == delta_seqno(
                self@,
            ),
            !delta_is_deleted(self@) ==> r.0 == InnerDeltaKind::Upsert && r.1 == delta_seqno(
                self@,
            ),
    {
        match &self.data {
            InnerDelta::D { seqno } => (InnerDeltaKind::Delete, *seqno, 0, 0),
            InnerDelta::U { delta, seqno } => match delta {
                vlog::Delta::Reference { fpos, length } => (
                    InnerDeltaKind::Upsert,
                    *seqno,
                    *fpos,
                    *length,
                ),
                _ => (InnerDeltaKind::Upsert, *seqno, 0, 0),
            },
        }
    }

    /// Whether this delta is a delete or carries an inline payload.
    pub fn is_resident(&self) -> (r: bool)
        ensures
            r == delta_is_resident(self@),
    {
        match &self.data {
            InnerDelta::D { .. } => true,
            InnerDelta::U { delta, .. } => match delta {
                vlog::Delta::Native { .. } => true,
                _ => false,
            },
        }
    }

    /// Copy this delta; the copy has the same view.
    pub fn dup(&self) -> (r: Delta<V>)
        ensures
            r@ == self@,
    {
        match &self.data {
            InnerDelta::D { seqno } => Delta { data: InnerDelta::D { seqno: *seqno } },
            InnerDelta::U { delta, seqno } => {
                let d = match delta {
                    vlog::Delta::Native { delta } => vlog::Delta::Native {
                        delta: V::clone_delta(delta),
                    },
                    vlog::Delta::Reference { fpos, length } => vlog::Delta::Reference {
                        fpos: *fpos,
                        length: *length,
                    },
                    vlog::Delta::Backup { file, fpos, length } => vlog::Delta::Backup {
                        file: file.clone(),
                        fpos: *fpos,
                        length: *length,
                    },
                };
                Delta { data: InnerDelta::U { delta: d, seqno: *seqno } }
            },
        }
    }
}

// ------------------------------------------------------------ Value impls

impl<V: Diff> Value<V> {
    /// An upsert at `seqno` carrying a boxed payload.
    pub fn new_upsert(v: Box<vlog::Value<V>>, seqno: u64) -> (r: Value<V>)
        ensures
            r@ == (ValueView::U { value: v@, seqno }),
    {
        Value::U { value: v, seqno }
    }

    /// An upsert at `seqno` carrying a native value.
    pub fn new_upsert_value(value: V, seqno: u64) -> (r: Value<V>)
        ensures
            r@ == (ValueView::U { value: PayloadView::Native(value@), seqno }),
    {
        Value::U { value: Box::new(vlog::Value::new_native(value)), seqno }
    }

    /// A tombstone at `seqno`.
    pub fn new_delete(seqno: u64) -> (r: Value<V>)
        ensures
            r@ == (ValueView::<<V as View>::V>::D { seqno }),
    {
        Value::D { seqno }
    }

    /// Clone of the native value, `None` for tombstones and
    /// value-log references.
    pub fn to_native_value(&self) -> (r: Option<V>)
        ensures
            match r {
                Some(v) => value_native(self@) == Some(v@),
                None => value_native(self@) is None,
            },
    {
        match self {
            Value::U { value, .. } => value.to_native_value(),
            Value::D { .. } => None,
        }
    }

    /// The seqno of the mutation that produced this value.
    pub fn to_seqno(&self) -> (r: u64)
        ensures
            r == value_seqno(self@),
    {
        match self {
            Value::U { seqno, .. } => *seqno,
            Value::D { seqno } => *seqno,
        }
    }

    /// Whether this value is a tombstone.
    pub fn is_deleted(&self) -> (r: bool)
        ensures
            r == value_is_deleted(self@),
    {
        match self {
            Value::U { .. } => false,
            Value::D { .. } => true,
        }
    }

    /// Whether this value's payload is a value-log reference.
    pub fn is_reference(&self) -> (r: bool)
        ensures
            r == (self@ matches ValueView::U { value: PayloadView::Reference { .. }, .. }),
    {
        match self {
            Value::U { value, .. } => value.is_reference(),
            _ => false,
        }
    }

    /// The value-log reference this value carries, if any.
    pub fn to_reference(&self) -> (r: Option<(u64, u64)>)
        ensures
            match r {
                Some(p) => self@ matches ValueView::U {
                    value: PayloadView::Reference { fpos, length },
                    ..
                } && p.0 == fpos && p.1 == length,
                None => !(self@ matches ValueView::U {
                    value: PayloadView::Reference { .. },
                    ..
                }),
            },
    {
        match self {
            Value::U { value, .. } => match &**value {
                vlog::Value::Reference { fpos, length } => Some((*fpos, *length)),
                _ => None,
            },
            _ => None,
        }
    }

    /// Whether this value is a tombstone or carries an inline
    /// payload.
    pub fn is_resident(&self) -> (r: bool)
        ensures
            r == value_is_resident(self@),
    {
        match self {
            Value::D { .. } => true,
            Value::U { value, .. } => match &**value {
                vlog::Value::Native { .. } => true,
                _ => false,
            },
        }
    }

    /// Copy this value; the copy has the same view.
    pub fn dup(&self) -> (r: Value<V>)
        ensures
            r@ == self@,
    {
        match self {
            Value::D { seqno } => Value::D { seqno: *seqno },
            Value::U { value, seqno } => {
                let v = match &**value {
                    vlog::Value::Native { value } => vlog::Value::Native {
                        value: value.clone_value(),
                    },
                    vlog::Value::Reference { fpos, length } => vlog::Value::Reference {
                        fpos: *fpos,
                        length: *length,
                    },
                    vlog::Value::Backup { file, fpos, length } => vlog::Value::Backup {
                        file: file.clone(),
                        fpos: *fpos,
                        length: *length,
                    },
                };
                Value::U { value: Box::new(v), seqno: *seqno }
            },
        }
    }
}

// ------------------------------------------------------------ Entry impls

impl<K: OrdKey, V: Diff> Entry<K, V> {
    /// A fresh entry with no older versions.
    pub fn new(key: K, value: Value<V>) -> (r: Entry<K, V>)
        ensures
            r@ == (EntryView {
                key: key@,
                value: value@,
                deltas: Seq::<DeltaView<<V::D as View>::V>>::empty(),
            }),
    {
        let r = Entry { key, value, deltas: Vec::new() };
        proof {
            assert(r@.deltas =~= Seq::<DeltaView<<V::D as View>::V>>::empty());
        }
        r
    }

    /// Replace the current value.
    pub fn set_value(&mut self, value: Value<V>)
        ensures
            final(self)@ == (EntryView { value: value@, ..old(self)@ }),
    {
        self.value = value;
    }

    /// Replace the delta chain.
    pub fn set_deltas(&mut self, deltas: Vec<Delta<V>>)
        ensures
            final(self)@ == (EntryView {
                deltas: deltas.deep_view(),
                ..old(self)@
            }),
    {
        self.deltas = deltas;
    }

    /// Copy this entry; the copy has the same view. The `copyval`
    /// flag is kept for callers that distinguish sharing from
    /// copying; values here are always owned, so both paths copy.
    pub fn mvcc_clone(&self, copyval: bool) -> (r: Entry<K, V>)
        ensures
            r@ == self@,
    {
        self.dup()
    }

    /// Copy this entry; the copy has the same view.
    pub fn dup(&self) -> (r: Entry<K, V>)
        ensures
            r@ == self@,
    {
        let key = self.key.clone_key();
        let value = self.value.dup();
        let mut deltas: Vec<Delta<V>> = Vec::new();
        let mut i: usize = 0;
        while i < self.deltas.len()
            invariant
                i <= self.deltas@.len(),
                deltas@.len() == i,
                deltas.deep_view() == self.deltas.deep_view().subrange(0, i as int),
            decreases self.deltas@.len() - i,
        {
            let d = self.deltas[i].dup();
            let ghost pre = deltas.deep_view();
            let ghost prev = deltas@;
            deltas.push(d);
            proof {
                assert forall|j: int| 0 <= j < i + 1 implies deltas.deep_view()[j]
                    == self.deltas.deep_view()[j] by {
                    assert(deltas.deep_view()[j] == deltas@[j].deep_view());
                    if j < i {
                        assert(deltas@[j] == prev[j]);
                        assert(prev[j].deep_view() == pre[j]);
                        assert(pre[j] == self.deltas.deep_view().subrange(0, i as int)[j]);
                    } else {
                        assert(deltas@[j] == d);
                        assert(self.deltas.deep_view()[j] == self.deltas@[j].deep_view());
                    }
                }
                assert(deltas.deep_view() =~= self.deltas.deep_view().subrange(0, i + 1));
            }
            i = i + 1;
        }
        proof {
            assert(self.deltas.deep_view().subrange(0, self.deltas@.len() as int)
                =~= self.deltas.deep_view());
        }
        let r = Entry { key, value, deltas };
        proof {
            assert(r@ =~= self@);
        }
        r
    }

    /// Borrow the key.
    pub fn as_key(&self) -> (r: &K)
        ensures
            r@ == self@.key,
    {
        &self.key
    }

    /// The key, cloned.
    pub fn to_key(&self) -> (r: K)
        ensures
            r@ == self@.key,
    {
        self.key.clone_key()
    }

    /// Borrow the delta chain.
    pub fn as_deltas(&self) -> (r: &Vec<Delta<V>>)
        ensures
            r.deep_view() == self@.deltas,
    {
        &self.deltas
    }

    /// How many older versions this entry carries.
    pub fn to_delta_count(&self) -> (r: usize)
        ensures
            r == self@.deltas.len(),
    {
        self.deltas.len()
    }

    /// Borrow the current value.
    pub fn as_value(&self) -> (r: &Value<V>)
        ensures
            r@ == self@.value,
    {
        &self.value
    }

    /// The delta chain, cloned.
    pub fn to_deltas(&self) -> (r: Vec<Delta<V>>)
        ensures
            r.deep_view() == self@.deltas,
    {
        let mut deltas: Vec<Delta<V>> = Vec::new();
        let mut i: usize = 0;
        while i < self.deltas.len()
            invariant
                i <= self.deltas@.len(),
                deltas@.len() == i,
                deltas.deep_view() == self.deltas.deep_view().subrange(0, i as int),
            decreases self.deltas@.len() - i,
        {
            let d = self.deltas[i].dup();
            let ghost pre = deltas.deep_view();
            let ghost prev = deltas@;
            deltas.push(d);
            proof {
                assert forall|j: int| 0 <= j < i + 1 implies deltas.deep_view()[j]
                    == self.deltas.deep_view()[j] by {
                    assert(deltas.deep_view()[j] == deltas@[j].deep_view());
                    if j < i {
                        assert(deltas@[j] == prev[j]);
                        assert(prev[j].deep_view() == pre[j]);
                        assert(pre[j] == self.deltas.deep_view().subrange(0, i as int)[j]);
                    } else {
                        assert(deltas@[j] == d);
                        assert(self.deltas.deep_view()[j] == self.deltas@[j].deep_view());
                    }
                }
                assert(deltas.deep_view() =~= self.deltas.deep_view().subrange(0, i + 1));
            }
            i = i + 1;
        }
        proof {
            assert(self.deltas.deep_view().subrange(0, self.deltas@.len() as int)
                =~= self.deltas.deep_view());
        }
        deltas
    }

    /// Clone of the current native value; `None` when deleted or when
    /// the value lives in the value-log.
    pub fn to_native_value(&self) -> (r: Option<V>)
        ensures
            match r {
                Some(v) => value_native(self@.value) == Some(v@),
                None => value_native(self@.value) is None,
            },
    {
        self.value.to_native_value()
    }

    /// The latest seqno that created, updated or deleted this entry.
    pub fn to_seqno(&self) -> (r: u64)
        ensures
            r == value_seqno(self@.value),
    {
        self.value.to_seqno()
    }

    /// The latest seqno and whether that mutation was an upsert.
    pub fn to_seqno_state(&self) -> (r: (bool, u64))
        ensures
            r.0 == !value_is_deleted(self@.value),
            r.1 == value_seqno(self@.value),
    {
        match &self.value {
            Value::U { seqno, .. } => (true, *seqno),
            Value::D { seqno } => (false, *seqno),
        }
    }

    /// Whether the latest version is a tombstone.
    pub fn is_deleted(&self) -> (r: bool)
        ensures
            r == value_is_deleted(self@.value),
    {
        self.value.is_deleted()
    }
}

// ------------------------------------------------------- purge model

/// Whether `seqno` falls at-or-below the purge bound: `Included(n)`
/// means `<= n` purgeable, `Excluded(n)` means `< n`, `Unbounded`
/// means all purgeable.
pub open spec fn bound_purgeable(seqno: u64, b: core::ops::Bound<u64>) -> bool {
    match b {
        core::ops::Bound::Included(c) => seqno <= c,
        core::ops::Bound::Excluded(c) => seqno < c,
        core::ops::Bound::Unbounded => true,
    }
}

/// The prefix of the delta chain whose versions are above the bound;
/// purging keeps exactly this prefix.
pub open spec fn deltas_above_bound<DT>(
    deltas: Seq<DeltaView<DT>>,
    b: core::ops::Bound<u64>,
) -> Seq<DeltaView<DT>>
    decreases deltas.len(),
{
    if deltas.len() == 0 {
        Seq::empty()
    } else if bound_purgeable(delta_seqno(deltas[0]), b) {
        Seq::empty()
    } else {
        seq![deltas[0]] + deltas_above_bound(deltas.drop_first(), b)
    }
}

/// What `purge` does, on the model: `None` means the entry is dropped
/// entirely.
pub open spec fn purge_spec<KT, VT, DT>(e: EntryView<KT, VT, DT>, cutoff: Cutoff) -> Option<
    EntryView<KT, VT, DT>,
> {
    let n = value_seqno(e.value);
    match cutoff {
        Cutoff::Mono => if value_is_deleted(e.value) {
            None
        } else {
            Some(EntryView { key: e.key, value: e.value, deltas: Seq::empty() })
        },
        Cutoff::Tombstone(b) => if value_is_deleted(e.value) && bound_purgeable(n, b) {
            None
        } else {
            Some(e)
        },
        Cutoff::Lsm(b) => if b == core::ops::Bound::Included(0u64) || b
            == core::ops::Bound::Excluded(0u64) {
            Some(e)
        } else if bound_purgeable(n, b) {
            None
        } else {
            Some(EntryView { key: e.key, value: e.value, deltas: deltas_above_bound(e.deltas, b) })
        },
    }
}

/// Purging in `Mono` mode is idempotent: applying it to its own
/// result changes nothing.
pub proof fn lemma_purge_mono_idempotent<KT, VT, DT>(e: EntryView<KT, VT, DT>)
    requires
        purge_spec(e, Cutoff::Mono) is Some,
    ensures
        purge_spec(purge_spec(e, Cutoff::Mono).unwrap(), Cutoff::Mono) == purge_spec(
            e,
            Cutoff::Mono,
        ),
{
    let e1 = purge_spec(e, Cutoff::Mono).unwrap();
    assert(e1.deltas =~= Seq::<DeltaView<DT>>::empty());
}

// -------------------------------------------------- footprint helpers

/// Footprint of a value's payload: the native payload's own
/// footprint where it is computable, zero for tombstones, references
/// and uncomputable payloads. An approximate measure.
pub open spec fn value_fp<V: Diff + Footprint>(v: ValueView<<V as View>::V>) -> int {
    match v {
        ValueView::U { value: PayloadView::Native(x), .. } => if V::footprint_ok_of(x) {
            V::footprint_of(x)
        } else {
            0
        },
        _ => 0,
    }
}

/// Footprint of a delta's payload, as [`value_fp`].
pub open spec fn delta_fp<V: Diff>(d: DeltaView<<V::D as View>::V>) -> int where V::D: Footprint {
    match d {
        DeltaView::U { delta: PayloadView::Native(x), .. } => if <V::D as Footprint>::footprint_ok_of(
            x,
        ) {
            <V::D as Footprint>::footprint_of(x)
        } else {
            0
        },
        _ => 0,
    }
}

/// A wide difference clamped into the `isize` range.
pub open spec fn clamped(x: int) -> int {
    if x > isize::MAX {
        isize::MAX as int
    } else if x < isize::MIN {
        isize::MIN as int
    } else {
        x
    }
}

/// A value footprint, or zero where it cannot be computed; footprints
/// are an approximate measure.
fn fp_or_zero<T: Footprint>(t: &T) -> (r: i128)
    ensures
        isize::MIN <= r <= isize::MAX,
        r == if T::footprint_ok_of(t@) {
            T::footprint_of(t@)
        } else {
            0
        },
{
    match t.footprint() {
        Ok(n) => n as i128,
        Err(_) => 0,
    }
}

/// Clamp a wide footprint difference into `isize`.
fn clamp_isize(x: i128) -> (r: isize)
    ensures
        r as int == clamped(x as int),
{
    if x > (isize::MAX as i128) {
        isize::MAX
    } else if x < (isize::MIN as i128) {
        isize::MIN
    } else {
        x as isize
    }
}

impl<V: Diff + Footprint> Value<V> {
    /// The footprint of the payload this value carries, zero for
    /// tombstones and references; an approximate measure.
    fn payload_footprint(&self) -> (r: i128)
        ensures
            isize::MIN <= r <= isize::MAX,
            r == value_fp::<V>(self@),
    {
        match self {
            Value::U { value, .. } => match &**value {
                vlog::Value::Native { value } => fp_or_zero(value),
                _ => 0,
            },
            Value::D { .. } => 0,
        }
    }
}

impl<V: Diff> Delta<V> where V::D: Footprint {
    /// The footprint of the payload this delta carries, zero for
    /// deletes and references; an approximate measure.
    fn payload_footprint(&self) -> (r: i128)
        ensures
            isize::MIN <= r <= isize::MAX,
            r == delta_fp::<V>(self@),
    {
        match &self.data {
            InnerDelta::U { delta, .. } => match delta {
                vlog::Delta::Native { delta } => fp_or_zero(delta),
                _ => 0,
            },
            InnerDelta::D { .. } => 0,
        }
    }
}

// -------------------------------------------------- version prepending

impl<K: OrdKey, V: Diff + Footprint> Entry<K, V> where V::D: Footprint {
    /// Apply a create/update carried by `nentry`. In lsm mode the
    /// previous value is preserved at the head of the delta chain; in
    /// non-lsm mode it is overwritten. Returns the approximate change
    /// in footprint.
    pub fn prepend_version(&mut self, nentry: Self, lsm: bool) -> (r: Result<isize>)
        requires
            lsm ==> value_is_resident(nentry@.value),
        ensures
            final(self)@.key == old(self)@.key,
            !lsm ==> r is Ok && final(self)@.value == nentry@.value && final(self)@.deltas == old(self)@.deltas,
            !lsm ==> (r matches Ok(n) && n as int == clamped(
                value_fp::<V>(nentry@.value) - value_fp::<V>(old(self)@.value),
            )),
            lsm ==> (r is Ok <==> value_is_resident(old(self)@.value)),
            lsm && r is Ok ==> final(self)@.value == nentry@.value && final(self)@.deltas.len()
                == old(self)@.deltas.len() + 1 && final(self)@.deltas.drop_first() == old(self)@.deltas && delta_seqno(final(self)@.deltas[0]) == value_seqno(old(self)@.value)
                && next_value_spec::<V>(value_native(nentry@.value), final(self)@.deltas[0]) == old(self)@.value && delta_is_resident(final(self)@.deltas[0]),
            lsm ==> (r matches Ok(n) ==> n as int == clamped(
                value_fp::<V>(nentry@.value) + delta_fp::<V>(final(self)@.deltas[0]) - value_fp::<
                    V,
                >(old(self)@.value),
            )),
            r is Err ==> final(self)@ == old(self)@,
            r matches Err(e) ==> e == Error::UnReachable,
    {
        if lsm {
            self.prepend_version_lsm(nentry)
        } else {
            self.prepend_version_nolsm(nentry)
        }
    }

    /// Overwrite the current value, keeping the delta chain.
    fn prepend_version_nolsm(&mut self, nentry: Self) -> (r: Result<isize>)
        ensures
            r is Ok,
            final(self)@.key == old(self)@.key,
            final(self)@.value == nentry@.value,
            final(self)@.deltas == old(self)@.deltas,
            r matches Ok(n) && n as int == clamped(
                value_fp::<V>(nentry@.value) - value_fp::<V>(old(self)@.value),
            ),
    {
        let oldfp = self.value.payload_footprint();
        let newfp = nentry.value.payload_footprint();
        self.value = nentry.value;
        Ok(clamp_isize(newfp - oldfp))
    }

    /// Preserve the current value as the newest delta, then install
    /// `nentry`'s value.
    fn prepend_version_lsm(&mut self, nentry: Self) -> (r: Result<isize>)
        requires
            value_is_resident(nentry@.value),
        ensures
            r is Ok <==> value_is_resident(old(self)@.value),
            final(self)@.key == old(self)@.key,
            r is Ok ==> final(self)@.value == nentry@.value && final(self)@.deltas.len() == old(self)@.deltas.len() + 1 && final(self)@.deltas.drop_first() == old(self)@.deltas
                && delta_seqno(final(self)@.deltas[0]) == value_seqno(old(self)@.value)
                && next_value_spec::<V>(value_native(nentry@.value), final(self)@.deltas[0]) == old(self)@.value && delta_is_resident(final(self)@.deltas[0]),
            r matches Ok(n) ==> n as int == clamped(
                value_fp::<V>(nentry@.value) + delta_fp::<V>(final(self)@.deltas[0]) - value_fp::<
                    V,
                >(old(self)@.value),
            ),
            r is Err ==> final(self)@ == old(self)@,
            r matches Err(e) ==> e == Error::UnReachable,
    {
        let delta: Delta<V> = match &self.value {
            Value::D { seqno } => Delta::new_delete(*seqno),
            Value::U { value, seqno } => match value.to_native_value() {
                None => {
                    return Err(Error::UnReachable);
                },
                Some(v) => match &nentry.value {
                    Value::D { .. } => {
                        proof {
                            V::lemma_delta_of_value(v@);
                        }
                        Delta::new_upsert(vlog::Delta::new_native(v.to_delta()), *seqno)
                    },
                    Value::U { value: nvalue, .. } => match nvalue.to_native_value() {
                        None => {
                            proof {
                                assert(false);
                            }
                            return Err(Error::UnReachable);
                        },
                        Some(nv) => Delta::new_upsert(
                            vlog::Delta::new_native(nv.diff(&v)),
                            *seqno,
                        ),
                    },
                },
            },
        };
        let dfp = delta.payload_footprint();
        let oldfp = self.value.payload_footprint();
        let newfp = nentry.value.payload_footprint();
        let ghost predeltas = self.deltas.deep_view();
        self.deltas.insert(0, delta);
        proof {
            assert(self.deltas.deep_view() =~= seq![delta@] + predeltas);
            assert(self.deltas.deep_view().drop_first() =~= predeltas);
        }
        let n = match self.prepend_version_nolsm(nentry) {
            Ok(_) => (),
            Err(_) => {
                proof {
                    assert(false);
                }
                return Err(Error::UnReachable);
            },
        };
        Ok(clamp_isize(newfp + dfp - oldfp))
    }

    /// Mark this entry deleted at `seqno`, preserving the previous
    /// version at the head of the delta chain (lsm or sticky mode
    /// only). Returns the approximate change in footprint.
    pub fn delete(&mut self, seqno: u64) -> (r: Result<isize>)
        ensures
            r is Ok <==> value_is_resident(old(self)@.value),
            final(self)@.key == old(self)@.key,
            r is Ok ==> final(self)@.value == (ValueView::<<V as View>::V>::D { seqno })
                && final(self)@.deltas.len() == old(self)@.deltas.len() + 1 && final(self)@.deltas.drop_first() == old(self)@.deltas && delta_seqno(final(self)@.deltas[0])
                == value_seqno(old(self)@.value) && next_value_spec::<V>(
                None,
                final(self)@.deltas[0],
            ) == old(self)@.value && delta_is_resident(final(self)@.deltas[0]),
            r matches Ok(n) ==> n as int == clamped(
                delta_fp::<V>(final(self)@.deltas[0]) - value_fp::<V>(old(self)@.value),
            ),
            r is Err ==> final(self)@ == old(self)@,
            r matches Err(e) ==> e == Error::UnReachable,
    {
        let delta: Delta<V> = match &self.value {
            Value::D { seqno } => Delta::new_delete(*seqno),
            Value::U { value, seqno } => match value.to_native_value() {
                None => {
                    return Err(Error::UnReachable);
                },
                Some(v) => {
                    proof {
                        V::lemma_delta_of_value(v@);
                    }
                    Delta::new_upsert(vlog::Delta::new_native(v.to_delta()), *seqno)
                },
            },
        };
        let dfp = delta.payload_footprint();
        let oldfp = self.value.payload_footprint();
        let ghost predeltas = self.deltas.deep_view();
        self.deltas.insert(0, delta);
        proof {
            assert(self.deltas.deep_view() =~= seq![delta@] + predeltas);
            assert(self.deltas.deep_view().drop_first() =~= predeltas);
        }
        self.value = Value::D { seqno };
        Ok(clamp_isize(dfp - oldfp))
    }
}

// --------------------------------------------------------------- purge

impl<K: OrdKey, V: Diff> Entry<K, V> {
    /// Drop versions according to the cutoff; `None` when the whole
    /// entry is purged.
    pub fn purge(self, cutoff: Cutoff) -> (r: Option<Entry<K, V>>)
        ensures
            match r {
                Some(out) => purge_spec(self@, cutoff) == Some(out@),
                None => purge_spec(self@, cutoff) is None,
            },
    {
        let n = self.to_seqno();
        match cutoff {
            Cutoff::Mono => {
                if self.is_deleted() {
                    None
                } else {
                    let mut e = self;
                    e.set_deltas(Vec::new());
                    proof {
                        assert(e@.deltas =~= Seq::<DeltaView<<V::D as View>::V>>::empty());
                    }
                    Some(e)
                }
            },
            Cutoff::Tombstone(b) => {
                if self.is_deleted() && bound_purgeable_exec(n, &b) {
                    None
                } else {
                    Some(self)
                }
            },
            Cutoff::Lsm(b) => {
                let empty = match b {
                    core::ops::Bound::Included(c) => c == 0,
                    core::ops::Bound::Excluded(c) => c == 0,
                    core::ops::Bound::Unbounded => false,
                };
                if empty {
                    Some(self)
                } else if bound_purgeable_exec(n, &b) {
                    None
                } else {
                    let mut e = self;
                    let mut keep: usize = 0;
                    let deltas = e.as_deltas();
                    let ghost ds = deltas.deep_view();
                    while keep < deltas.len() && !bound_purgeable_exec(
                        deltas[keep].to_seqno(),
                        &b,
                    )
                        invariant
                            keep <= deltas@.len(),
                            ds == deltas.deep_view(),
                            forall|j: int|
                                0 <= j < keep ==> !bound_purgeable(delta_seqno(ds[j]), b),
                        decreases deltas@.len() - keep,
                    {
                        keep = keep + 1;
                    }
                    proof {
                        lemma_deltas_above_bound_is_prefix(ds, b, keep as int);
                    }
                    let mut newdeltas = e.to_deltas();
                    newdeltas.truncate(keep);
                    proof {
                        assert(newdeltas.deep_view() =~= ds.subrange(0, keep as int)) by {
                            assert(newdeltas@.len() == keep);
                            assert(forall|j: int|
                                0 <= j < keep ==> newdeltas.deep_view()[j] == newdeltas@[j].deep_view());
                        }
                    }
                    e.set_deltas(newdeltas);
                    Some(e)
                }
            },
        }
    }
}

/// Executable form of [`bound_purgeable`].
pub fn bound_purgeable_exec(seqno: u64, b: &core::ops::Bound<u64>) -> (r: bool)
    ensures
        r == bound_purgeable(seqno, *b),
{
    match b {
        core::ops::Bound::Included(c) => seqno <= *c,
        core::ops::Bound::Excluded(c) => seqno < *c,
        core::ops::Bound::Unbounded => true,
    }
}

/// If the first `k` deltas are above the bound and the `k`-th (when
/// present) is not, the kept prefix is exactly the first `k`.
pub proof fn lemma_deltas_above_bound_is_prefix<DT>(
    deltas: Seq<DeltaView<DT>>,
    b: core::ops::Bound<u64>,
    k: int,
)
    requires
        0 <= k <= deltas.len(),
        forall|j: int| 0 <= j < k ==> !bound_purgeable(delta_seqno(deltas[j]), b),
        k < deltas.len() ==> bound_purgeable(delta_seqno(deltas[k]), b),
    ensures
        deltas_above_bound(deltas, b) == deltas.subrange(0, k),
    decreases deltas.len(),
{
    if deltas.len() == 0 {
        assert(deltas_above_bound(deltas, b) =~= deltas.subrange(0, 0));
    } else if k == 0 {
        assert(bound_purgeable(delta_seqno(deltas[0]), b));
        assert(deltas_above_bound(deltas, b) =~= deltas.subrange(0, 0));
    } else {
        let tail = deltas.drop_first();
        assert(forall|j: int| 0 <= j < k - 1 ==> tail[j] == deltas[j + 1]);
        lemma_deltas_above_bound_is_prefix(tail, b, k - 1);
        assert(deltas_above_bound(deltas, b) == seq![deltas[0]] + tail.subrange(0, k - 1));
        assert(seq![deltas[0]] + tail.subrange(0, k - 1) =~= deltas.subrange(0, k));
    }
}

// --------------------------------------------------------- versions law

/// Prepending a version puts exactly one new version in front of the
/// old list: the reconstruction of every older version is unchanged.
pub proof fn lemma_versions_after_prepend<V: Diff, KT>(
    pre: EntryView<KT, <V as View>::V, <V::D as View>::V>,
    post: EntryView<KT, <V as View>::V, <V::D as View>::V>,
)
    requires
        post.deltas.len() == pre.deltas.len() + 1,
        post.deltas.drop_first() == pre.deltas,
        next_value_spec::<V>(value_native(post.value), post.deltas[0]) == pre.value,
    ensures
        entry_versions::<V, KT>(post) == seq![post.value] + entry_versions::<V, KT>(pre),
{
    assert(versions_from::<V>(post.value, post.deltas) == seq![post.value] + versions_from::<V>(
        next_value_spec::<V>(value_native(post.value), post.deltas[0]),
        post.deltas.drop_first(),
    ));
}

/// A version list always starts with the current value and has one
/// element per version.
pub proof fn lemma_versions_from_len<V: Diff>(
    value: ValueView<<V as View>::V>,
    deltas: Seq<DeltaView<<V::D as View>::V>>,
)
    ensures
        versions_from::<V>(value, deltas).len() == deltas.len() + 1,
        versions_from::<V>(value, deltas)[0] == value,
    decreases deltas.len(),
{
    if deltas.len() > 0 {
        lemma_versions_from_len::<V>(
            next_value_spec::<V>(value_native(value), deltas[0]),
            deltas.drop_first(),
        );
    }
}

/// The view of an optional native value.
pub open spec fn opt_view<T: View>(o: Option<T>) -> Option<T::V> {
    match o {
        Some(v) => Some(v@),
        None => None,
    }
}

// ---------------------------------------------------------- next_value

/// Reconstruct the next older version from the current native value
/// (`None` when the current version is a tombstone) and its delta.
pub fn next_value<V: Diff>(value: Option<V>, delta: Delta<V>) -> (r: (Value<V>, Option<V>))
    requires
        delta@ matches DeltaView::U { delta: d, .. } ==> d is Native,
    ensures
        r.0@ == next_value_spec::<V>(opt_view(value), delta@),
        match r.1 {
            Some(v) => value_native(r.0@) == Some(v@),
            None => value_native(r.0@) is None,
        },
{
    let seqno0 = delta.to_seqno();
    match delta.into_upserted() {
        None => (Value::D { seqno: seqno0 }, None),
        Some((d, seqno)) => {
            let dd = match d.to_native_delta() {
                Some(dd) => dd,
                None => {
                    proof {
                        assert(false);
                    }
                    return vstd::pervasive::unreached();
                },
            };
            match value {
                None => {
                    let nv = V::from_delta(&dd);
                    let out = Value::new_upsert_value(nv.clone_value(), seqno);
                    (out, Some(nv))
                },
                Some(curval) => {
                    let nv = curval.merge(&dd);
                    let out = Value::new_upsert_value(nv.clone_value(), seqno);
                    (out, Some(nv))
                },
            }
        },
    }
}

// --------------------------------------------------------- VersionIter

/// Iterate from newest to oldest available version of an entry; each
/// item is a single-version entry. Stops early at the first payload
/// that lives in the value-log.
pub struct VersionIter<K: OrdKey, V: Diff> {
    rev: Vec<Entry<K, V>>,
}

impl<K: OrdKey, V: Diff> VersionIter<K, V> {
    /// The versions still to be yielded, next first.
    pub closed spec fn remaining(&self) -> Seq<
        EntryView<<K as View>::V, <V as View>::V, <V::D as View>::V>,
    > {
        self.rev.deep_view().reverse()
    }

    /// The next (newest remaining) version.
    pub fn next(&mut self) -> (r: Option<Entry<K, V>>)
        ensures
            match r {
                Some(e) => old(self).remaining().len() > 0 && e@ == old(self).remaining()[0]
                    && final(self).remaining() == old(self).remaining().drop_first(),
                None => old(self).remaining().len() == 0 && final(self).remaining() == old(
                    self,
                ).remaining(),
            },
    {
        let r = self.rev.pop();
        proof {
            if old(self).rev@.len() > 0 {
                assert(self.rev.deep_view() =~= old(self).rev.deep_view().drop_last());
                assert(self.rev.deep_view().reverse() =~= old(
                    self,
                ).rev.deep_view().reverse().drop_first());
                assert(old(self).rev.deep_view().last() == old(self).remaining()[0]);
            } else {
                assert(self.rev.deep_view() =~= old(self).rev.deep_view());
            }
        }
        r
    }
}

impl<K: OrdKey, V: Diff> Entry<K, V> {
    /// All available versions of this entry, newest first, each as a
    /// single-version entry. When every payload is resident the list
    /// is exactly the reconstruction of the whole chain.
    pub fn versions(&self) -> (it: VersionIter<K, V>)
        ensures
            entry_resident(self@) ==> {
                &&& it.remaining().len() == self@.deltas.len() + 1
                &&& forall|i: int|
                    0 <= i < it.remaining().len() ==> (#[trigger] it.remaining()[i]).value
                        == entry_versions::<V, <K as View>::V>(self@)[i] && it.remaining()[i].key
                        == self@.key && it.remaining()[i].deltas.len() == 0
            },
    {
        let ghost vs = entry_versions::<V, <K as View>::V>(self@);
        proof {
            lemma_versions_from_len::<V>(self@.value, self@.deltas);
        }
        let mut fwd: Vec<Entry<K, V>> = Vec::new();
        if !self.value.is_resident() {
            let it = VersionIter { rev: fwd };
            return it;
        }
        fwd.push(Entry::new(self.to_key(), self.value.dup()));
        let mut curval: Option<V> = self.to_native_value();
        let ghost curv = self.value@;
        let mut j: usize = 0;
        proof {
            assert(self@.deltas.skip(0) =~= self@.deltas);
            assert(fwd.deep_view()[0].value == vs[0]);
            assert(fwd.deep_view()[0].deltas =~= Seq::<DeltaView<<V::D as View>::V>>::empty());
        }
        while j < self.deltas.len()
            invariant
                j <= self@.deltas.len(),
                fwd@.len() == j + 1,
                versions_from::<V>(curv, self@.deltas.skip(j as int)) == vs.skip(j as int),
                curv == vs[j as int],
                value_is_resident(curv),
                match curval {
                    Some(v) => value_native(curv) == Some(v@),
                    None => value_native(curv) is None,
                },
                forall|i: int|
                    0 <= i <= j ==> (#[trigger] fwd.deep_view()[i]).value == vs[i]
                        && fwd.deep_view()[i].key == self@.key && fwd.deep_view()[i].deltas.len()
                        == 0,
                vs == entry_versions::<V, <K as View>::V>(self@),
                vs.len() == self@.deltas.len() + 1,
            decreases self@.deltas.len() - j,
        {
            let delta = self.deltas[j].dup();
            if !delta.is_resident() {
                let it = VersionIter { rev: reverse_entries(fwd) };
                proof {
                    assert(!delta_is_resident(self@.deltas[j as int]));
                }
                return it;
            }
            let ghost ds = self@.deltas;
            proof {
                assert(ds.skip(j as int)[0] == ds[j as int]);
                assert(ds.skip(j as int).drop_first() =~= ds.skip(j + 1));
                assert(versions_from::<V>(curv, ds.skip(j as int)) == seq![curv]
                    + versions_from::<V>(
                    next_value_spec::<V>(value_native(curv), ds[j as int]),
                    ds.skip(j + 1),
                ));
                assert(vs.skip(j as int).drop_first() =~= vs.skip(j + 1));
                lemma_versions_from_len::<V>(
                    next_value_spec::<V>(value_native(curv), ds[j as int]),
                    ds.skip(j + 1),
                );
            }
            let (value, nextval) = next_value(curval, delta);
            let ghost prevdv = fwd.deep_view();
            let ghost prevv = fwd@;
            let e = Entry::new(self.to_key(), value);
            fwd.push(e);
            proof {
                assert(vs.skip(j as int)[1] == vs[j + 1]);
                assert forall|i: int| 0 <= i <= j + 1 implies (#[trigger] fwd.deep_view()[i]).value
                    == vs[i] && fwd.deep_view()[i].key == self@.key && fwd.deep_view()[i].deltas.len()
                    == 0 by {
                    assert(fwd.deep_view()[i] == fwd@[i].deep_view());
                    if i <= j {
                        assert(fwd@[i] == prevv[i]);
                        assert(prevv[i].deep_view() == prevdv[i]);
                    } else {
                        assert(fwd@[i] == e);
                        assert(e@.deltas =~= Seq::<DeltaView<<V::D as View>::V>>::empty());
                    }
                }
                curv = next_value_spec::<V>(value_native(curv), self@.deltas[j as int]);
            }
            curval = nextval;
            j = j + 1;
        }
        proof {
            assert(forall|i: int|
                0 <= i < fwd.deep_view().len() ==> #[trigger] fwd.deep_view()[i]
                    == fwd@[i].deep_view());
        }
        let it = VersionIter { rev: reverse_entries(fwd) };
        proof {
            assert(it.remaining() =~= fwd.deep_view());
        }
        it
    }
}

/// Reverse a vector of entries.
fn reverse_entries<K: OrdKey, V: Diff>(v: Vec<Entry<K, V>>) -> (r: Vec<Entry<K, V>>)
    ensures
        r.deep_view() == v.deep_view().reverse(),
{
    let mut r: Vec<Entry<K, V>> = Vec::new();
    let mut i: usize = v.len();
    while i > 0
        invariant
            i <= v@.len(),
            r@.len() == v@.len() - i,
            forall|j: int|
                0 <= j < r@.len() ==> #[trigger] r.deep_view()[j] == v.deep_view()[v@.len() - 1
                    - j],
        decreases i,
    {
        i = i - 1;
        let e = v[i].dup();
        let ghost prevdv = r.deep_view();
        let ghost prevv = r@;
        r.push(e);
        proof {
            assert forall|j: int| 0 <= j < r@.len() implies #[trigger] r.deep_view()[j]
                == v.deep_view()[v@.len() - 1 - j] by {
                assert(r.deep_view()[j] == r@[j].deep_view());
                if j < prevv.len() {
                    assert(r@[j] == prevv[j]);
                    assert(prevv[j].deep_view() == prevdv[j]);
                } else {
                    assert(r@[j] == e);
                    assert(v.deep_view()[i as int] == v@[i as int].deep_view());
                }
            }
        }
    }
    proof {
        assert(r.deep_view() =~= v.deep_view().reverse());
    }
    r
}

// ------------------------------------------------------ sortedness laws

/// Prepending one version on top of a sorted chain keeps it sorted,
/// provided the new seqno is strictly newer.
pub proof fn lemma_chain_sorted_prepend<VT, DT>(
    oldv: ValueView<VT>,
    olds: Seq<DeltaView<DT>>,
    newv: ValueView<VT>,
    news: Seq<DeltaView<DT>>,
)
    requires
        chain_sorted(oldv, olds),
        news.len() == olds.len() + 1,
        news.drop_first() == olds,
        delta_seqno(news[0]) == value_seqno(oldv),
        value_seqno(newv) > value_seqno(oldv),
    ensures
        chain_sorted(newv, news),
{
    assert forall|i: int|
        0 <= i < news.len() implies delta_seqno(news[i]) < chain_prev_seqno(newv, news, i) by {
        if i == 0 {
        } else if i == 1 {
            assert(news[1] == olds[0]);
            assert(delta_seqno(olds[0]) < chain_prev_seqno(oldv, olds, 0));
        } else {
            assert(news[i] == olds[i - 1]);
            assert(news[i - 1] == olds[i - 2]);
            assert(delta_seqno(olds[i - 1]) < chain_prev_seqno(oldv, olds, i - 1));
        }
    }
}

/// Every version reconstructed from a resident chain is itself
/// resident (a native payload or a tombstone).
pub proof fn lemma_versions_resident<V: Diff>(
    value: ValueView<<V as View>::V>,
    deltas: Seq<DeltaView<<V::D as View>::V>>,
)
    requires
        chain_resident(value, deltas),
    ensures
        forall|i: int|
            0 <= i < versions_from::<V>(value, deltas).len() ==> value_is_resident(
                #[trigger] versions_from::<V>(value, deltas)[i],
            ),
    decreases deltas.len(),
{
    lemma_versions_from_len::<V>(value, deltas);
    if deltas.len() > 0 {
        let nv = next_value_spec::<V>(value_native(value), deltas[0]);
        assert(delta_is_resident(deltas[0]));
        assert(value_is_resident(nv));
        assert(forall|i: int|
            0 <= i < deltas.drop_first().len() ==> delta_is_resident(
                #[trigger] deltas.drop_first()[i],
            ));
        lemma_versions_resident::<V>(nv, deltas.drop_first());
        assert forall|i: int|
            1 <= i < versions_from::<V>(value, deltas).len() implies value_is_resident(
            #[trigger] versions_from::<V>(value, deltas)[i],
        ) by {
            assert(versions_from::<V>(value, deltas)[i] == versions_from::<V>(
                nv,
                deltas.drop_first(),
            )[i - 1]);
        }
    }
}

/// The oldest seqno a chain holds: the last delta's, or the value's
/// own when there is no history.
pub open spec fn chain_oldest_seqno<VT, DT>(value: ValueView<VT>, deltas: Seq<DeltaView<DT>>) -> u64 {
    chain_prev_seqno(value, deltas, deltas.len() as int)
}

/// Along a resident chain, the version at position `i` carries the
/// seqno of the chain link that produced it: the value's seqno at the
/// head, each delta's seqno after that.
pub proof fn lemma_versions_from_seqnos<V: Diff>(
    value: ValueView<<V as View>::V>,
    deltas: Seq<DeltaView<<V::D as View>::V>>,
)
    requires
        chain_resident(value, deltas),
    ensures
        forall|i: int|
            0 <= i <= deltas.len() ==> value_seqno(
                #[trigger] versions_from::<V>(value, deltas)[i],
            ) == chain_prev_seqno(value, deltas, i),
    decreases deltas.len(),
{
    lemma_versions_from_len::<V>(value, deltas);
    if deltas.len() > 0 {
        let nv = next_value_spec::<V>(value_native(value), deltas[0]);
        assert(delta_is_resident(deltas[0]));
        assert(value_seqno(nv) == delta_seqno(deltas[0]));
        let tail = deltas.drop_first();
        assert(value_is_resident(nv));
        assert(forall|i: int| 0 <= i < tail.len() ==> delta_is_resident(#[trigger] tail[i]));
        lemma_versions_from_seqnos::<V>(nv, tail);
        lemma_versions_from_len::<V>(nv, tail);
        assert forall|i: int|
            1 <= i <= deltas.len() implies value_seqno(
            #[trigger] versions_from::<V>(value, deltas)[i],
        ) == chain_prev_seqno(value, deltas, i) by {
            assert(versions_from::<V>(value, deltas)[i] == versions_from::<V>(nv, tail)[i - 1]);
            assert(value_seqno(versions_from::<V>(nv, tail)[i - 1]) == chain_prev_seqno(
                nv,
                tail,
                i - 1,
            ));
            if i == 1 {
            } else {
                assert(tail[i - 2] == deltas[i - 1]);
            }
        }
    }
}

/// When a cross-merge is owed to succeed: both entries resident and
/// sorted, and the newer chain's oldest version strictly above the
/// older chain's newest.
pub open spec fn xmerge_valid<V: Diff, KT>(
    a: EntryView<KT, <V as View>::V, <V::D as View>::V>,
    b: EntryView<KT, <V as View>::V, <V::D as View>::V>,
) -> bool {
    &&& entry_resident(a) && entry_resident(b)
    &&& entry_sorted(a) && entry_sorted(b)
    &&& chain_oldest_seqno(a.value, a.deltas) > value_seqno(b.value)
}

// --------------------------------------------------------------- xmerge

impl<K: OrdKey, V: Diff + Footprint> Entry<K, V> where V::D: Footprint {
    /// Whether every payload of this entry is resident.
    pub fn is_resident(&self) -> (r: bool)
        ensures
            r == entry_resident(self@),
    {
        if !self.value.is_resident() {
            return false;
        }
        let mut i: usize = 0;
        while i < self.deltas.len()
            invariant
                i <= self@.deltas.len(),
                value_is_resident(self@.value),
                forall|j: int| 0 <= j < i ==> delta_is_resident(#[trigger] self@.deltas[j]),
            decreases self@.deltas.len() - i,
        {
            if !self.deltas[i].is_resident() {
                proof {
                    assert(!delta_is_resident(self@.deltas[i as int]));
                    assert(!chain_resident(self@.value, self@.deltas));
                }
                return false;
            }
            i = i + 1;
        }
        true
    }

    /// Cross-merge the version chains of two entries for the same
    /// key, one strictly newer than the other. On success the result
    /// carries every version of both, newest first, and is sorted.
    #[verifier::rlimit(100)]
    #[verifier::spinoff_prover]
    pub fn xmerge(self, entry: Entry<K, V>) -> (r: Result<Entry<K, V>>)
        requires
            value_seqno(self@.value) != value_seqno(entry@.value),
        ensures
            r matches Ok(out) ==> {
                let a = if value_seqno(self@.value) > value_seqno(entry@.value) {
                    self@
                } else {
                    entry@
                };
                let b = if value_seqno(self@.value) > value_seqno(entry@.value) {
                    entry@
                } else {
                    self@
                };
                &&& out@.key == b.key
                &&& entry_resident(a) && entry_resident(b)
                &&& entry_resident(out@)
                &&& entry_versions::<V, <K as View>::V>(out@) == entry_versions::<
                    V,
                    <K as View>::V,
                >(a) + entry_versions::<V, <K as View>::V>(b)
                &&& entry_sorted(out@)
            },
            ({
                let a = if value_seqno(self@.value) > value_seqno(entry@.value) {
                    self@
                } else {
                    entry@
                };
                let b = if value_seqno(self@.value) > value_seqno(entry@.value) {
                    entry@
                } else {
                    self@
                };
                xmerge_valid::<V, <K as View>::V>(a, b)
            }) ==> r is Ok,
    {
        let swap = self.to_seqno() > entry.to_seqno();
        let (a, mut b) = if swap {
            (self, entry)
        } else {
            (entry, self)
        };
        let ghost good = xmerge_valid::<V, <K as View>::V>(a@, b@);
        if !a.is_resident() || !b.is_resident() {
            proof {
                assert(!good);
            }
            return Err(Error::UnExpectedFail);
        }
        if !b.chain_check() {
            proof {
                assert(!good);
            }
            return Err(Error::UnExpectedFail);
        }
        // collect the versions of `a`, newest first
        proof {
            lemma_versions_from_len::<V>(a@.value, a@.deltas);
            lemma_versions_resident::<V>(a@.value, a@.deltas);
        }
        let ghost avs = entry_versions::<V, <K as View>::V>(a@);
        let mut it = a.versions();
        let mut items: Vec<Entry<K, V>> = Vec::new();
        loop
            invariant
                items@.len() + it.remaining().len() == avs.len(),
                forall|i: int|
                    0 <= i < items@.len() ==> (#[trigger] items.deep_view()[i]).value == avs[i]
                        && items.deep_view()[i].key == a@.key && items.deep_view()[i].deltas.len()
                        == 0,
                forall|i: int|
                    0 <= i < it.remaining().len() ==> (#[trigger] it.remaining()[i]).value
                        == avs[items@.len() + i] && it.remaining()[i].key == a@.key
                        && it.remaining()[i].deltas.len() == 0,
                avs == entry_versions::<V, <K as View>::V>(a@),
            ensures
                items@.len() == avs.len(),
                forall|i: int|
                    0 <= i < items@.len() ==> (#[trigger] items.deep_view()[i]).value == avs[i]
                        && items.deep_view()[i].key == a@.key && items.deep_view()[i].deltas.len()
                        == 0,
            decreases it.remaining().len(),
        {
            let ghost prevdv = items.deep_view();
            let ghost prevv = items@;
            match it.next() {
                None => {
                    break;
                },
                Some(e) => {
                    items.push(e);
                    proof {
                        assert forall|i: int|
                            0 <= i < items@.len() implies (#[trigger] items.deep_view()[i]).value
                            == avs[i] && items.deep_view()[i].key == a@.key
                            && items.deep_view()[i].deltas.len() == 0 by {
                            assert(items.deep_view()[i] == items@[i].deep_view());
                            if i < prevv.len() {
                                assert(items@[i] == prevv[i]);
                                assert(prevv[i].deep_view() == prevdv[i]);
                            }
                        }
                    }
                },
            }
        }
        // validate: seqnos strictly decrease across the concatenation
        proof {
            lemma_versions_from_seqnos::<V>(a@.value, a@.deltas);
            if good {
                assert forall|j: int| 1 <= j < avs.len() implies value_seqno(#[trigger] avs[j])
                    < value_seqno(avs[j - 1]) by {
                    assert(value_seqno(avs[j]) == chain_prev_seqno(a@.value, a@.deltas, j));
                    assert(value_seqno(avs[j - 1]) == chain_prev_seqno(a@.value, a@.deltas, j - 1));
                    assert(delta_seqno(a@.deltas[j - 1]) < chain_prev_seqno(
                        a@.value,
                        a@.deltas,
                        j - 1,
                    ));
                }
                assert(value_seqno(avs[avs.len() - 1]) == chain_oldest_seqno(a@.value, a@.deltas));
            }
        }
        let mut i: usize = 1;
        while i < items.len()
            invariant
                1 <= i,
                i <= items@.len() || items@.len() == 0,
                items@.len() == avs.len(),
                forall|t: int|
                    0 <= t < items@.len() ==> (#[trigger] items.deep_view()[t]).value == avs[t],
                good ==> forall|j: int|
                    1 <= j < avs.len() ==> value_seqno(#[trigger] avs[j]) < value_seqno(
                        avs[j - 1],
                    ),
                good == xmerge_valid::<V, <K as View>::V>(a@, b@),
                a@ == (if value_seqno(self@.value) > value_seqno(entry@.value) {
                    self@
                } else {
                    entry@
                }),
                b@ == (if value_seqno(self@.value) > value_seqno(entry@.value) {
                    entry@
                } else {
                    self@
                }),
                forall|j: int|
                    1 <= j < i ==> value_seqno((#[trigger] items.deep_view()[j]).value)
                        < value_seqno(items.deep_view()[j - 1].value),
            decreases items@.len() - i,
        {
            if items[i].to_seqno() >= items[i - 1].to_seqno() {
                proof {
                    assert(items.deep_view()[i as int] == items@[i as int].deep_view());
                    assert(items.deep_view()[i - 1] == items@[i - 1].deep_view());
                    assert(value_seqno(avs[i as int]) >= value_seqno(avs[i - 1]));
                    assert(!good);
                }
                return Err(Error::UnExpectedFail);
            }
            i = i + 1;
        }
        if items.len() > 0 && items[items.len() - 1].to_seqno() <= b.to_seqno() {
            proof {
                assert(items.deep_view()[items@.len() - 1] == items@[items@.len()
                    - 1].deep_view());
                assert(value_seqno(avs[avs.len() - 1]) <= value_seqno(b@.value));
                assert(!good);
            }
            return Err(Error::UnExpectedFail);
        }
        // fold the versions of `a`, oldest first, on top of `b`
        let ghost bvs0 = entry_versions::<V, <K as View>::V>(b@);
        let ghost bkey = b@.key;
        proof {
            lemma_versions_from_len::<V>(b@.value, b@.deltas);
            lemma_versions_resident::<V>(a@.value, a@.deltas);
            assert forall|i: int| 0 <= i < avs.len() implies value_is_resident(
                #[trigger] avs[i],
            ) by {
                assert(avs[i] == versions_from::<V>(a@.value, a@.deltas)[i]);
            }
            assert forall|j: int| 1 <= j < avs.len() implies value_seqno(#[trigger] avs[j])
                < value_seqno(avs[j - 1]) by {
                assert(items.deep_view()[j].value == avs[j]);
                assert(items.deep_view()[j - 1].value == avs[j - 1]);
            }
            assert(bvs0[0] == b@.value);
            if avs.len() > 0 {
                assert(items.deep_view()[items@.len() - 1] == items@[items@.len() - 1].deep_view());
                assert(items.deep_view()[items@.len() - 1].value == avs[avs.len() - 1]);
            }
        }
        let mut k: usize = items.len();
        proof {
            assert(avs.skip(k as int) =~= Seq::<ValueView<<V as View>::V>>::empty());
            assert(avs.skip(k as int) + bvs0 =~= bvs0);
        }
        while k > 0
            invariant
                k <= items@.len(),
                items@.len() == avs.len(),
                forall|i: int|
                    0 <= i < items@.len() ==> (#[trigger] items.deep_view()[i]).value == avs[i],
                forall|i: int| 0 <= i < avs.len() ==> value_is_resident(#[trigger] avs[i]),
                forall|j: int|
                    1 <= j < avs.len() ==> value_seqno(#[trigger] avs[j]) < value_seqno(
                        avs[j - 1],
                    ),
                entry_versions::<V, <K as View>::V>(b@) == avs.skip(k as int) + bvs0,
                b@.key == bkey,
                value_is_resident(b@.value),
                entry_resident(b@),
                entry_sorted(b@),
                k < avs.len() ==> value_seqno(b@.value) == value_seqno(avs[k as int]),
                k == avs.len() ==> value_seqno(b@.value) == value_seqno(bvs0[0]),
                avs.len() > 0 ==> value_seqno(avs[avs.len() - 1]) > value_seqno(bvs0[0]),
                bvs0.len() > 0,
            decreases k,
        {
            let ghost k0 = k as int;
            k = k - 1;
            let ne = items[k].dup();
            proof {
                assert(ne@.value == items.deep_view()[k as int].value);
                assert(ne@.value == avs[k as int]);
                assert(value_is_resident(avs[k as int]));
            }
            let ghost preb = b@;
            let r = b.prepend_version(ne, true);
            proof {
                assert(r is Ok);
                assert(value_seqno(b@.value) > value_seqno(preb.value));
                lemma_versions_after_prepend::<V, <K as View>::V>(preb, b@);
                assert(seq![b@.value] + (avs.skip(k + 1) + bvs0) =~= avs.skip(k as int) + bvs0);
                lemma_chain_sorted_prepend(preb.value, preb.deltas, b@.value, b@.deltas);
                lemma_deltas_resident_prepend(preb.deltas, b@.deltas);
            }
        }
                proof {
            assert(avs.skip(0) =~= avs);
        }
        Ok(b)
    }

    /// Check that this entry's seqnos strictly decrease along the
    /// chain.
    pub fn chain_check(&self) -> (r: bool)
        ensures
            r == entry_sorted(self@),
    {
        let mut prev: u64 = self.to_seqno();
        let mut i: usize = 0;
        while i < self.deltas.len()
            invariant
                i <= self@.deltas.len(),
                prev == chain_prev_seqno(self@.value, self@.deltas, i as int),
                forall|j: int|
                    0 <= j < i ==> delta_seqno(#[trigger] self@.deltas[j]) < chain_prev_seqno(
                        self@.value,
                        self@.deltas,
                        j,
                    ),
            decreases self@.deltas.len() - i,
        {
            let s = self.deltas[i].to_seqno();
            if s >= prev {
                proof {
                    assert(!(delta_seqno(self@.deltas[i as int]) < chain_prev_seqno(
                        self@.value,
                        self@.deltas,
                        i as int,
                    )));
                }
                return false;
            }
            prev = s;
            i = i + 1;
        }
        true
    }
}

// ------------------------------------------------------- seqno filtering

/// Walk the chain, reconstructing versions, until one falls within
/// the upper bound; the result is that version together with the
/// deltas still below it. `None` when no version qualifies.
pub open spec fn skip_chain<V: Diff>(
    value: ValueView<<V as View>::V>,
    deltas: Seq<DeltaView<<V::D as View>::V>>,
    nb: core::ops::Bound<u64>,
) -> Option<(ValueView<<V as View>::V>, Seq<DeltaView<<V::D as View>::V>>)>
    decreases deltas.len(),
{
    if bound_purgeable(value_seqno(value), nb) {
        Some((value, deltas))
    } else if deltas.len() == 0 {
        None
    } else {
        skip_chain::<V>(
            next_value_spec::<V>(value_native(value), deltas[0]),
            deltas.drop_first(),
            nb,
        )
    }
}

/// What `skip_till` does, on the model: drop the entry when it lies
/// wholly outside `(ob, nb]`, keep it whole when its newest version
/// already satisfies the upper bound, otherwise walk forward to the
/// newest version inside the upper bound.
pub open spec fn skip_till_spec<V: Diff, KT>(
    e: EntryView<KT, <V as View>::V, <V::D as View>::V>,
    ob: core::ops::Bound<u64>,
    nb: core::ops::Bound<u64>,
) -> Option<EntryView<KT, <V as View>::V, <V::D as View>::V>> {
    let n = value_seqno(e.value);
    let below_start = match ob {
        core::ops::Bound::Included(o) => n < o,
        core::ops::Bound::Excluded(o) => n <= o,
        core::ops::Bound::Unbounded => false,
    };
    if below_start {
        None
    } else {
        let oldest = if e.deltas.len() > 0 {
            delta_seqno(e.deltas.last())
        } else {
            n
        };
        let above_end = match nb {
            core::ops::Bound::Included(c) => oldest > c,
            core::ops::Bound::Excluded(c) => oldest >= c,
            core::ops::Bound::Unbounded => false,
        };
        if above_end {
            None
        } else if bound_purgeable(n, nb) {
            Some(e)
        } else {
            match skip_chain::<V>(e.value, e.deltas, nb) {
                Some(p) => Some(EntryView { key: e.key, value: p.0, deltas: p.1 }),
                None => None,
            }
        }
    }
}

/// What `filter_within` does, on the model: skip versions newer than
/// the range, then purge versions older than it.
pub open spec fn filter_within_spec<V: Diff, KT>(
    e: EntryView<KT, <V as View>::V, <V::D as View>::V>,
    start: core::ops::Bound<u64>,
    end: core::ops::Bound<u64>,
) -> Option<EntryView<KT, <V as View>::V, <V::D as View>::V>> {
    match skip_till_spec::<V, KT>(e, start, end) {
        None => None,
        Some(e1) => match start {
            core::ops::Bound::Included(x) => purge_spec(
                e1,
                Cutoff::Lsm(core::ops::Bound::Excluded(x)),
            ),
            core::ops::Bound::Excluded(x) => purge_spec(
                e1,
                Cutoff::Lsm(core::ops::Bound::Included(x)),
            ),
            core::ops::Bound::Unbounded => Some(e1),
        },
    }
}

impl<K: OrdKey, V: Diff> Entry<K, V> {
    /// Skip versions newer than the upper bound, reconstructing the
    /// newest version that satisfies it; drop the entry when it lies
    /// wholly outside the range.
    fn skip_till(&self, ob: core::ops::Bound<u64>, nb: core::ops::Bound<u64>) -> (r: Option<
        Entry<K, V>,
    >)
        requires
            entry_resident(self@),
        ensures
            match r {
                Some(out) => skip_till_spec::<V, <K as View>::V>(self@, ob, nb) == Some(out@),
                None => skip_till_spec::<V, <K as View>::V>(self@, ob, nb) is None,
            },
    {
        let n = self.to_seqno();
        let below_start = match ob {
            core::ops::Bound::Included(o) => n < o,
            core::ops::Bound::Excluded(o) => n <= o,
            core::ops::Bound::Unbounded => false,
        };
        if below_start {
            return None;
        }
        let oldest = if self.deltas.len() > 0 {
            self.deltas[self.deltas.len() - 1].to_seqno()
        } else {
            n
        };
        let above_end = match nb {
            core::ops::Bound::Included(c) => oldest > c,
            core::ops::Bound::Excluded(c) => oldest >= c,
            core::ops::Bound::Unbounded => false,
        };
        if above_end {
            return None;
        }
        if bound_purgeable_exec(n, &nb) {
            return Some(self.dup());
        }
        // partial skip: reconstruct until a version satisfies `nb`
        let mut curval: Option<V> = self.to_native_value();
        let mut value: Value<V> = self.value.dup();
        let ghost curv = self@.value;
        let mut j: usize = 0;
        proof {
            assert(self@.deltas.skip(0) =~= self@.deltas);
        }
        while j < self.deltas.len() && !bound_purgeable_exec(value.to_seqno(), &nb)
            invariant
                j <= self@.deltas.len(),
                entry_resident(self@),
                curv == value@,
                value_is_resident(curv),
                match curval {
                    Some(v) => value_native(curv) == Some(v@),
                    None => value_native(curv) is None,
                },
                skip_chain::<V>(self@.value, self@.deltas, nb) == skip_chain::<V>(
                    curv,
                    self@.deltas.skip(j as int),
                    nb,
                ),
            decreases self@.deltas.len() - j,
        {
            let delta = self.deltas[j].dup();
            proof {
                assert(delta_is_resident(self@.deltas[j as int]));
                assert(self@.deltas.skip(j as int)[0] == self@.deltas[j as int]);
                assert(self@.deltas.skip(j as int).drop_first() =~= self@.deltas.skip(j + 1));
            }
            let (nv, nextval) = next_value(curval, delta);
            value = nv;
            curval = nextval;
            proof {
                curv = next_value_spec::<V>(value_native(curv), self@.deltas[j as int]);
            }
            j = j + 1;
        }
        if !bound_purgeable_exec(value.to_seqno(), &nb) {
            return None;
        }
        // collect the remaining deltas
        let mut deltas: Vec<Delta<V>> = Vec::new();
        let mut i: usize = j;
        while i < self.deltas.len()
            invariant
                j <= i <= self@.deltas.len(),
                deltas@.len() == i - j,
                forall|t: int|
                    0 <= t < deltas@.len() ==> #[trigger] deltas.deep_view()[t]
                        == self@.deltas[j + t],
            decreases self@.deltas.len() - i,
        {
            let d = self.deltas[i].dup();
            let ghost prevdv = deltas.deep_view();
            let ghost prevv = deltas@;
            deltas.push(d);
            proof {
                assert forall|t: int| 0 <= t < deltas@.len() implies #[trigger] deltas.deep_view()[t]
                    == self@.deltas[j + t] by {
                    assert(deltas.deep_view()[t] == deltas@[t].deep_view());
                    if t < prevv.len() {
                        assert(deltas@[t] == prevv[t]);
                        assert(prevv[t].deep_view() == prevdv[t]);
                    } else {
                        assert(deltas@[t] == d);
                    }
                }
            }
            i = i + 1;
        }
        let mut out = Entry::new(self.to_key(), value);
        out.set_deltas(deltas);
        proof {
            assert(out@.deltas =~= self@.deltas.skip(j as int));
        }
        Some(out)
    }

    /// Project this entry onto the versions whose seqno falls within
    /// the given range: skip newer versions, purge older ones.
    pub fn filter_within(
        &self,
        start: core::ops::Bound<u64>,
        end: core::ops::Bound<u64>,
    ) -> (r: Option<Entry<K, V>>)
        requires
            entry_resident(self@),
        ensures
            match r {
                Some(out) => filter_within_spec::<V, <K as View>::V>(self@, start, end) == Some(
                    out@,
                ),
                None => filter_within_spec::<V, <K as View>::V>(self@, start, end) is None,
            },
    {
        let entry = match self.skip_till(start, end) {
            Some(e) => e,
            None => {
                return None;
            },
        };
        match start {
            core::ops::Bound::Included(x) => entry.purge(
                Cutoff::Lsm(core::ops::Bound::Excluded(x)),
            ),
            core::ops::Bound::Excluded(x) => entry.purge(
                Cutoff::Lsm(core::ops::Bound::Included(x)),
            ),
            core::ops::Bound::Unbounded => Some(entry),
        }
    }
}

// ------------------------------------------------- filter range law

/// Whether `s` lies at or above the lower bound of a range.
pub open spec fn at_or_above(s: u64, start: core::ops::Bound<u64>) -> bool {
    match start {
        core::ops::Bound::Included(x) => s >= x,
        core::ops::Bound::Excluded(x) => s > x,
        core::ops::Bound::Unbounded => true,
    }
}

/// The top version a successful skip walk lands on satisfies the
/// upper bound.
proof fn lemma_skip_chain_top<V: Diff>(
    value: ValueView<<V as View>::V>,
    deltas: Seq<DeltaView<<V::D as View>::V>>,
    nb: core::ops::Bound<u64>,
)
    ensures
        skip_chain::<V>(value, deltas, nb) matches Some(p) ==> bound_purgeable(
            value_seqno(p.0),
            nb,
        ),
    decreases deltas.len(),
{
    if !bound_purgeable(value_seqno(value), nb) && deltas.len() > 0 {
        lemma_skip_chain_top::<V>(
            next_value_spec::<V>(value_native(value), deltas[0]),
            deltas.drop_first(),
            nb,
        );
    }
}

/// Every delta the purge keeps sits above the purge bound.
proof fn lemma_deltas_above_bound_members<DT>(deltas: Seq<DeltaView<DT>>, b: core::ops::Bound<u64>)
    ensures
        forall|t: int|
            0 <= t < deltas_above_bound(deltas, b).len() ==> !bound_purgeable(
                delta_seqno(#[trigger] deltas_above_bound(deltas, b)[t]),
                b,
            ),
    decreases deltas.len(),
{
    if deltas.len() > 0 && !bound_purgeable(delta_seqno(deltas[0]), b) {
        lemma_deltas_above_bound_members::<DT>(deltas.drop_first(), b);
        let kept = deltas_above_bound(deltas, b);
        assert forall|t: int|
            0 <= t < kept.len() implies !bound_purgeable(delta_seqno(#[trigger] kept[t]), b) by {
            if t > 0 {
                assert(kept[t] == deltas_above_bound(deltas.drop_first(), b)[t - 1]);
            }
        }
    }
}

/// Every version `filter_within` keeps falls within the requested
/// seqno range: the current value satisfies the upper bound and the
/// lower one, and every kept delta sits at or above the lower bound.
/// The lower bound `Excluded(0)` is excluded: the engine treats it as
/// the empty cutoff and purges nothing, so a version at seqno zero
/// would slip through.
pub proof fn lemma_filter_within_range<V: Diff, KT>(
    e: EntryView<KT, <V as View>::V, <V::D as View>::V>,
    start: core::ops::Bound<u64>,
    end: core::ops::Bound<u64>,
)
    requires
        start != core::ops::Bound::Excluded(0u64),
    ensures
        filter_within_spec::<V, KT>(e, start, end) matches Some(f) ==> bound_purgeable(
            value_seqno(f.value),
            end,
        ) && at_or_above(value_seqno(f.value), start) && (forall|t: int|
            0 <= t < f.deltas.len() ==> at_or_above(delta_seqno(#[trigger] f.deltas[t]), start)),
{
    match skip_till_spec::<V, KT>(e, start, end) {
        None => {},
        Some(e1) => {
            // the walk's landing point satisfies the upper bound
            let n = value_seqno(e.value);
            if bound_purgeable(n, end) {
                assert(e1 == e);
            } else {
                lemma_skip_chain_top::<V>(e.value, e.deltas, end);
            }
            assert(bound_purgeable(value_seqno(e1.value), end));
            match start {
                core::ops::Bound::Unbounded => {},
                core::ops::Bound::Included(x) => {
                    let cutoff = Cutoff::Lsm(core::ops::Bound::Excluded(x));
                    match purge_spec(e1, cutoff) {
                        None => {},
                        Some(f) => {
                            if x == 0 {
                            } else {
                                lemma_deltas_above_bound_members::<<V::D as View>::V>(
                                    e1.deltas,
                                    core::ops::Bound::Excluded(x),
                                );
                            }
                        },
                    }
                },
                core::ops::Bound::Excluded(x) => {
                    let cutoff = Cutoff::Lsm(core::ops::Bound::Included(x));
                    match purge_spec(e1, cutoff) {
                        None => {},
                        Some(f) => {
                            lemma_deltas_above_bound_members::<<V::D as View>::V>(
                                e1.deltas,
                                core::ops::Bound::Included(x),
                            );
                        },
                    }
                },
            }
        },
    }
}

} // verus!
