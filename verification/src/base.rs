//! Core traits and types shared by the memory index, the on-disk
//! B-tree and the write-ahead log: the ordering contract for keys, the
//! diff/merge contract for values, serialization, and the compaction
//! cutoff.

use vstd::prelude::*;

use crate::error::Error;
use crate::Result;

verus! {

/// `core::ops::Bound` carried in public signatures (seqno cutoffs and
/// key ranges); declared here so verified code can construct it and
/// match on it.
#[verifier::external_type_specification]
#[verifier::reject_recursive_types(T)]
pub struct ExBound<T>(core::ops::Bound<T>);

/// Three-way comparison result of two keys.
pub enum KeyCmp {
    Less,
    Equal,
    Greater,
}

/// Total order contract for key types.
///
/// The order is stated on the key's view, so that clones and
/// re-decoded keys compare the way the original did. Implementations
/// must prove the order total and provide an executable three-way
/// comparison that agrees with it.
pub trait OrdKey: View + Sized {
    /// Strict order on key views.
    spec fn lt_spec(a: Self::V, b: Self::V) -> bool;

    /// The order is transitive.
    proof fn lt_trans(a: Self::V, b: Self::V, c: Self::V)
        requires
            Self::lt_spec(a, b),
            Self::lt_spec(b, c),
        ensures
            Self::lt_spec(a, c),
    ;

    /// Any two keys are ordered or equal, and strictly ordered keys
    /// are distinct and not ordered the other way.
    proof fn lt_trichotomy(a: Self::V, b: Self::V)
        ensures
            Self::lt_spec(a, b) || a == b || Self::lt_spec(b, a),
            Self::lt_spec(a, b) ==> a != b && !Self::lt_spec(b, a),
            a == b ==> !Self::lt_spec(a, b),
    ;

    /// Executable three-way comparison agreeing with `lt_spec`.
    fn cmp_key(&self, other: &Self) -> (c: KeyCmp)
        ensures
            match c {
                KeyCmp::Less => Self::lt_spec(self@, other@),
                KeyCmp::Equal => self@ == other@,
                KeyCmp::Greater => Self::lt_spec(other@, self@),
            },
    ;

    /// Clone that keeps the view.
    fn clone_key(&self) -> (r: Self)
        ensures
            r@ == self@,
    ;
}

/// Contract for diffable values.
///
/// With `P` the old value, `C` the new one and `D` their difference:
/// `D = C - P` (diff) and `P = C - D` (merge); deltas recover older
/// versions from newer ones. All laws are stated on views.
pub trait Diff: View + Sized {
    /// The delta type produced between two consecutive versions.
    type D: View;

    /// What merging a delta into a newer value yields.
    spec fn merge_spec(v: Self::V, d: <Self::D as View>::V) -> Self::V;

    /// The delta that stands for a whole value (used when the prior
    /// version was the first one, or when deleting).
    spec fn delta_of_spec(v: Self::V) -> <Self::D as View>::V;

    /// The value recovered from a whole-value delta.
    spec fn value_of_spec(d: <Self::D as View>::V) -> Self::V;

    /// A whole-value delta recovers the value it was made from.
    proof fn lemma_delta_of_value(v: Self::V)
        ensures
            Self::value_of_spec(Self::delta_of_spec(v)) == v,
    ;

    /// Return the delta between two consecutive versions:
    /// `delta = new - old`; merging it into `new` recovers `old`.
    fn diff(&self, old: &Self) -> (d: Self::D)
        ensures
            Self::merge_spec(self@, d@) == old@,
    ;

    /// Merge a delta with the newer version to return the older one.
    fn merge(&self, delta: &Self::D) -> (v: Self)
        ensures
            v@ == Self::merge_spec(self@, delta@),
    ;

    /// Turn a value into a whole-value delta.
    fn to_delta(&self) -> (d: Self::D)
        ensures
            d@ == Self::delta_of_spec(self@),
    ;

    /// Turn a whole-value delta back into a value.
    fn from_delta(d: &Self::D) -> (v: Self)
        ensures
            v@ == Self::value_of_spec(d@),
    ;

    /// Clone that keeps the view.
    fn clone_value(&self) -> (r: Self)
        ensures
            r@ == self@,
    ;

    /// Clone a delta, keeping the view.
    fn clone_delta(d: &Self::D) -> (r: Self::D)
        ensures
            r@ == d@,
    ;
}

/// Memory/disk footprint of a type, an approximate measure, stated
/// on the value's view so callers can speak of it for stored state.
pub trait Footprint: View {
    /// The footprint a value with this view reports.
    spec fn footprint_of(v: Self::V) -> int;

    /// Whether the footprint is computable (fits the machine word).
    spec fn footprint_ok_of(v: Self::V) -> bool;

    /// Return the approximate size of the underlying value, in bytes.
    /// `isize` because callers compute footprint deltas.
    fn footprint(&self) -> (r: Result<isize>)
        ensures
            r matches Ok(n) ==> n == Self::footprint_of(self@),
            r is Ok <==> Self::footprint_ok_of(self@),
    ;
}

/// Byte-serialization contract for key and value types, stated on
/// views so a decoded value is pinned to the encoded bytes.
pub trait Serialize: View + Sized {
    /// The bytes a value encodes to.
    spec fn ser_spec(v: Self::V) -> Seq<u8>;

    /// The value a byte string decodes to, `None` when the bytes are
    /// not a valid encoding.
    spec fn deser_spec(bytes: Seq<u8>) -> Option<Self::V>;

    /// Decoding what was encoded gives the value back.
    proof fn lemma_ser_deser(v: Self::V)
        ensures
            Self::deser_spec(Self::ser_spec(v)) == Some(v),
    ;

    /// Whether a value with this view can be encoded at all.
    spec fn ser_ok(v: Self::V) -> bool;

    /// Append this value's encoding to `buf`; return the bytes added.
    fn encode(&self, buf: &mut Vec<u8>) -> (r: Result<usize>)
        ensures
            r matches Ok(n) ==> final(buf)@ == old(buf)@ + Self::ser_spec(self@) && n
                == Self::ser_spec(self@).len(),
            r is Err ==> final(buf)@ == old(buf)@,
            r is Ok <==> Self::ser_ok(self@),
    ;

    /// Decode `self` from the whole of `buf`; return the bytes read.
    fn decode(&mut self, buf: &[u8]) -> (r: Result<usize>)
        ensures
            r matches Ok(n) ==> n == buf@.len() && Self::deser_spec(buf@)
                == Some(final(self)@),
            r is Err ==> Self::deser_spec(buf@) is None,
    ;

    /// Decode a fresh value from the whole of `buf`.
    fn decode_new(buf: &[u8]) -> (r: Result<Self>)
        ensures
            r matches Ok(v) ==> Self::deser_spec(buf@) == Some(v@),
            r is Err ==> Self::deser_spec(buf@) is None,
    ;
}

/// Cutoff parameter to compaction: which versions may be purged.
#[derive(Clone, Copy, Debug, PartialEq)]
pub enum Cutoff {
    /// Non-lsm compaction: drop history, drop tombstoned entries.
    Mono,
    /// Drop entries that are tombstones within the bound.
    Tombstone(core::ops::Bound<u64>),
    /// Drop every version that falls within the bound.
    Lsm(core::ops::Bound<u64>),
}

impl Cutoff {
    /// Non-lsm cutoff.
    pub fn new_mono() -> (c: Cutoff)
        ensures
            c == Cutoff::Mono,
    {
        Cutoff::Mono
    }

    /// Tombstone cutoff at `b`.
    pub fn new_tombstone(b: core::ops::Bound<u64>) -> (c: Cutoff)
        ensures
            c == Cutoff::Tombstone(b),
    {
        Cutoff::Tombstone(b)
    }

    /// The empty tombstone cutoff, a no-op under `is_empty`.
    pub fn new_tombstone_empty() -> (c: Cutoff)
        ensures
            c == Cutoff::Lsm(core::ops::Bound::Excluded(0u64)),
            c.is_empty_spec(),
    {
        Cutoff::Lsm(core::ops::Bound::Excluded(0))
    }

    /// Lsm cutoff at `b`.
    pub fn new_lsm(b: core::ops::Bound<u64>) -> (c: Cutoff)
        ensures
            c == Cutoff::Lsm(b),
    {
        Cutoff::Lsm(b)
    }

    /// The empty lsm cutoff, a no-op under `is_empty`.
    pub fn new_lsm_empty() -> (c: Cutoff)
        ensures
            c == Cutoff::Lsm(core::ops::Bound::Excluded(0u64)),
            c.is_empty_spec(),
    {
        Cutoff::Lsm(core::ops::Bound::Excluded(0))
    }

    /// The seqno bound this cutoff carries; `Mono` carries the empty
    /// bound.
    pub fn to_bound(&self) -> (b: core::ops::Bound<u64>)
        ensures
            b == match *self {
                Cutoff::Mono => core::ops::Bound::Excluded(0u64),
                Cutoff::Lsm(bb) => bb,
                Cutoff::Tombstone(bb) => bb,
            },
    {
        match self {
            Cutoff::Mono => core::ops::Bound::Excluded(0),
            Cutoff::Lsm(b) => *b,
            Cutoff::Tombstone(b) => *b,
        }
    }

    /// Whether this cutoff purges nothing at all.
    pub open spec fn is_empty_spec(self) -> bool {
        match self {
            Cutoff::Mono => false,
            Cutoff::Lsm(b) => b == core::ops::Bound::Excluded(0u64),
            Cutoff::Tombstone(b) => b == core::ops::Bound::Excluded(0u64),
        }
    }

    /// Whether this cutoff purges nothing at all.
    pub fn is_empty(&self) -> (r: bool)
        ensures
            r == self.is_empty_spec(),
    {
        match self {
            Cutoff::Mono => false,
            Cutoff::Lsm(b) => match b {
                core::ops::Bound::Excluded(n) => *n == 0,
                _ => false,
            },
            Cutoff::Tombstone(b) => match b {
                core::ops::Bound::Excluded(n) => *n == 0,
                _ => false,
            },
        }
    }
}

} // verus!
