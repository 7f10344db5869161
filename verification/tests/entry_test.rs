use std::ops::Bound;

use rdms::base::{Cutoff, Diff};
use rdms::entry::{Entry, Value};
use rdms::vlog;

fn upsert_entry(key: i64, value: i64, seqno: u64) -> Entry<i64, i64> {
    Entry::new(key, Value::new_upsert_value(value, seqno))
}

// versions chain: set 10@1, 20@2, 30@3 on one entry
fn three_version_entry() -> Entry<i64, i64> {
    let mut e = upsert_entry(1, 10, 1);
    e.prepend_version(upsert_entry(1, 20, 2), true).unwrap();
    e.prepend_version(upsert_entry(1, 30, 3), true).unwrap();
    e
}

// Version reconstruction: the versions walk yields exactly the
// history, ending at the first-write value.
#[test]
fn test_version_reconstruction() {
    let e = three_version_entry();
    assert_eq!(e.to_seqno(), 3);
    assert_eq!(e.to_delta_count(), 2);
    let mut it = e.versions();
    let v0 = it.next().unwrap();
    assert_eq!(v0.to_native_value().unwrap(), 30);
    assert_eq!(v0.to_seqno(), 3);
    let v1 = it.next().unwrap();
    assert_eq!(v1.to_native_value().unwrap(), 20);
    assert_eq!(v1.to_seqno(), 2);
    let v2 = it.next().unwrap();
    assert_eq!(v2.to_native_value().unwrap(), 10);
    assert_eq!(v2.to_seqno(), 1);
    assert!(it.next().is_none());
}

// Merge inverse on the trivial diff: new.merge(new.diff(old)) == old.
#[test]
fn test_merge_inverse() {
    let new: i64 = 30;
    let old: i64 = 20;
    let d = new.diff(&old);
    assert_eq!(new.merge(&d), old);

    let new: Vec<u8> = b"new".to_vec();
    let old: Vec<u8> = b"old".to_vec();
    let d = new.diff(&old);
    assert_eq!(new.merge(&d), old);
}

// purge(Mono) applied twice equals once.
#[test]
fn test_purge_mono_idempotent() {
    let e = three_version_entry();
    let once = e.purge(Cutoff::new_mono()).unwrap();
    assert_eq!(once.to_delta_count(), 0);
    assert_eq!(once.to_native_value().unwrap(), 30);
    let twice = once.dup().purge(Cutoff::new_mono()).unwrap();
    assert_eq!(twice.to_delta_count(), 0);
    assert_eq!(twice.to_native_value().unwrap(), 30);
    assert_eq!(twice.to_seqno(), once.to_seqno());

    // a tombstoned entry is dropped entirely
    let mut e = three_version_entry();
    e.delete(4).unwrap();
    assert!(e.purge(Cutoff::new_mono()).is_none());
}

#[test]
fn test_purge_lsm() {
    let e = three_version_entry();
    // drop versions at-or-below 2
    let purged = e.purge(Cutoff::new_lsm(Bound::Included(2))).unwrap();
    assert_eq!(purged.to_delta_count(), 0);
    assert_eq!(purged.to_seqno(), 3);
    // everything at-or-below 3: whole entry goes
    let e = three_version_entry();
    assert!(e.purge(Cutoff::new_lsm(Bound::Included(3))).is_none());
    // the empty cutoff is a no-op
    let e = three_version_entry();
    let kept = e.purge(Cutoff::new_lsm_empty()).unwrap();
    assert_eq!(kept.to_delta_count(), 2);
}

// filter_within keeps exactly the versions whose seqno falls in the
// range.
#[test]
fn test_filter_within() {
    let e = three_version_entry();

    // (1, 3] keeps versions 3 and 2
    let f = e
        .filter_within(Bound::Excluded(1), Bound::Included(3))
        .unwrap();
    assert_eq!(f.to_seqno(), 3);
    assert_eq!(f.to_delta_count(), 1);
    assert_eq!(f.to_deltas()[0].to_seqno(), 2);

    // [1, 2] walks past version 3 and keeps 2 and 1
    let f = e
        .filter_within(Bound::Included(1), Bound::Included(2))
        .unwrap();
    assert_eq!(f.to_seqno(), 2);
    assert_eq!(f.to_native_value().unwrap(), 20);
    assert_eq!(f.to_delta_count(), 1);

    // [5, 9] holds nothing
    assert!(e
        .filter_within(Bound::Included(5), Bound::Included(9))
        .is_none());
}

// Cross-merge: versions {30,25,20} and {15,10} meld into one chain,
// newest first; overlapping ranges are rejected.
#[test]
fn test_xmerge_scenario() {
    let mut a = upsert_entry(1, 200, 20);
    a.prepend_version(upsert_entry(1, 250, 25), true).unwrap();
    a.prepend_version(upsert_entry(1, 300, 30), true).unwrap();

    let mut b = upsert_entry(1, 100, 10);
    b.prepend_version(upsert_entry(1, 150, 15), true).unwrap();

    let merged = a.xmerge(b).unwrap();
    assert_eq!(merged.to_seqno(), 30);
    assert_eq!(merged.to_native_value().unwrap(), 300);
    assert_eq!(merged.to_delta_count(), 4);
    let seqnos: Vec<u64> = merged.to_deltas().iter().map(|d| d.to_seqno()).collect();
    assert_eq!(seqnos, vec![25, 20, 15, 10]);

    let mut it = merged.versions();
    let values: Vec<i64> = {
        let mut v = vec![];
        while let Some(e) = it.next() {
            v.push(e.to_native_value().unwrap());
        }
        v
    };
    assert_eq!(values, vec![300, 250, 200, 150, 100]);

    // overlapping seqno ranges must be rejected
    let mut a = upsert_entry(1, 200, 20);
    a.prepend_version(upsert_entry(1, 300, 30), true).unwrap();
    let b = upsert_entry(1, 100, 25);
    assert!(a.xmerge(b).is_err());
}

// Deleting marks a tombstone and preserves the previous version.
#[test]
fn test_delete_entry() {
    let mut e = upsert_entry(7, 70, 1);
    e.delete(2).unwrap();
    assert!(e.is_deleted());
    assert_eq!(e.to_seqno(), 2);
    assert_eq!(e.to_delta_count(), 1);
    let mut it = e.versions();
    let v0 = it.next().unwrap();
    assert!(v0.is_deleted());
    let v1 = it.next().unwrap();
    assert_eq!(v1.to_native_value().unwrap(), 70);
}

// value-log records: appending a native value yields a reference that
// fetches back to the same value.
#[test]
fn test_vlog_roundtrip() {
    let mut buf: Vec<u8> = vec![];
    let v: vlog::Value<i64> = vlog::Value::new_native(4242);
    let r = v.append_to(&mut buf, 0).unwrap();
    match &r {
        vlog::Value::Reference { fpos, length } => {
            assert_eq!(*fpos, 0);
            assert_eq!(*length, 8);
        }
        _ => unreachable!(),
    }
    assert_eq!(buf.len(), 16);
    // header carries the value flag and the length
    assert_eq!(buf[0], 0x10);
    assert_eq!(buf[7], 8);

    let back: vlog::Value<i64> = vlog::fetch_value(&buf, 0, 8).unwrap();
    assert_eq!(back.to_native_value().unwrap(), 4242);
}

#[test]
fn test_cutoff() {
    assert!(Cutoff::new_lsm_empty().is_empty());
    assert!(Cutoff::new_tombstone_empty().is_empty());
    assert!(!Cutoff::new_mono().is_empty());
    assert_eq!(
        Cutoff::new_tombstone(Bound::Included(5)).to_bound(),
        Bound::Included(5)
    );
    assert_eq!(
        Cutoff::new_lsm(Bound::Excluded(9)).to_bound(),
        Bound::Excluded(9)
    );
}
