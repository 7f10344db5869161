use std::ops::Bound;

use rdms::mvcc::Mvcc;
use rdms::types::Empty;

#[test]
fn mvcc_test_test_id() {
    let mvcc: Mvcc<i32, Empty> = Mvcc::new("test-mvcc");
    assert_eq!(mvcc.to_name(), "test-mvcc".to_string());
}

#[test]
fn mvcc_test_test_seqno() {
    let mut mvcc: Mvcc<i32, Empty> = Mvcc::new("test-mvcc");
    assert_eq!(mvcc.to_seqno(), 0);
    mvcc.set_seqno(1234);
    assert_eq!(mvcc.to_seqno(), 1234);
}

#[test]
fn mvcc_test_test_len() {
    let mvcc: Mvcc<i32, Empty> = Mvcc::new("test-mvcc");
    assert_eq!(mvcc.len(), 0);
}

#[test]
fn mvcc_test_test_set() {
    let mut mvcc: Mvcc<i64, i64> = Mvcc::new("test-mvcc");

    {
        let mut w = mvcc.to_writer();
        for key in [2, 1, 3, 6, 5, 4, 8, 0, 9, 7] {
            assert!(w.set(key, 10).unwrap().is_none());
        }
    }

    assert_eq!(mvcc.len(), 10);
    assert!(mvcc.validate().is_ok());
    assert_eq!(mvcc.to_seqno(), 10);

    for i in 0..10i64 {
        let entry = mvcc.get(&i).unwrap();
        assert_eq!(entry.to_key(), i);
        assert_eq!(entry.to_native_value().unwrap(), 10);
    }
    let mut iter = mvcc.iter().unwrap();
    let mut n = 0;
    while let Some(e) = iter.next() {
        assert_eq!(e.to_key(), n);
        n += 1;
    }
    assert_eq!(n, 10);
}

// A snapshot keeps showing the state it was taken at, whatever is
// written afterwards.
#[test]
fn test_snapshot_stability() {
    let mut mvcc: Mvcc<i64, i64> = Mvcc::new("test-mvcc");
    mvcc.set(1, 100).unwrap();
    mvcc.set(2, 200).unwrap();

    let snap = mvcc.snapshot().unwrap();
    assert_eq!(snap.len(), 2);
    assert_eq!(snap.to_seqno(), 2);

    mvcc.set(3, 300).unwrap();
    mvcc.set(1, 111).unwrap();
    mvcc.delete(&2).unwrap();

    // the snapshot still shows exactly the first two writes
    assert_eq!(snap.len(), 2);
    assert_eq!(snap.to_seqno(), 2);
    let e0 = snap.get_at(0).unwrap();
    assert_eq!(e0.to_key(), 1);
    assert_eq!(e0.to_native_value().unwrap(), 100);
    let e1 = snap.get_at(1).unwrap();
    assert_eq!(e1.to_key(), 2);
    assert_eq!(e1.to_native_value().unwrap(), 200);

    // while the index moved on
    assert_eq!(mvcc.len(), 2);
    assert_eq!(mvcc.get(&1).unwrap().to_native_value().unwrap(), 111);
    assert!(mvcc.get(&2).is_err());
    assert_eq!(mvcc.get(&3).unwrap().to_native_value().unwrap(), 300);
}

#[derive(Clone, Default, Debug)]
struct RefValue {
    value: i64,
    seqno: u64,
    deleted: Option<u64>,
}

impl RefValue {
    fn get_seqno(&self) -> u64 {
        match self.deleted {
            None => self.seqno,
            Some(seqno) => seqno,
        }
    }
}

#[derive(Clone, Default, Debug)]
struct RefNode {
    key: i64,
    versions: Vec<RefValue>,
}

impl RefNode {
    fn get_seqno(&self) -> u64 {
        self.versions[0].get_seqno()
    }

    fn is_deleted(&self) -> bool {
        self.versions[0].deleted.is_some()
    }

    fn is_present(&self) -> bool {
        self.versions.len() > 0
    }
}

struct RefNodes {
    lsm: bool,
    seqno: u64,
    entries: Vec<RefNode>,
}

impl RefNodes {
    fn new(lsm: bool, capacity: usize) -> RefNodes {
        let mut entries: Vec<RefNode> = Vec::with_capacity(capacity);
        (0..capacity).for_each(|_| entries.push(Default::default()));
        RefNodes {
            lsm,
            seqno: 0,
            entries,
        }
    }

    fn get(&self, key: i64) -> Option<RefNode> {
        let off: usize = key.try_into().unwrap();
        let entry = self.entries[off].clone();
        if entry.versions.len() == 0 {
            None
        } else {
            Some(entry)
        }
    }

    fn iter<'a>(&'a self) -> impl Iterator<Item = &'a RefNode> {
        self.entries.iter().filter(|item| item.versions.len() > 0)
    }

    fn set(&mut self, key: i64, value: i64) -> Option<RefNode> {
        let refval = RefValue {
            value,
            seqno: self.seqno + 1,
            deleted: None,
        };
        let off: usize = key.try_into().unwrap();
        let entry = &mut self.entries[off];
        let refn = if entry.versions.len() > 0 {
            Some(entry.clone())
        } else {
            None
        };
        entry.key = key;
        if self.lsm || entry.versions.len() == 0 {
            entry.versions.insert(0, refval);
        } else {
            entry.versions[0] = refval;
        };
        self.seqno += 1;
        refn
    }

    fn set_cas(&mut self, key: i64, value: i64, cas: u64) -> Option<RefNode> {
        let refval = RefValue {
            value,
            seqno: self.seqno + 1,
            deleted: None,
        };
        let off: usize = key.try_into().unwrap();
        let entry = &mut self.entries[off];
        // a tombstone answers to cas == 0 (key seen absent) and to its
        // own delete seqno, matching the index's lsm rule
        let ok = if entry.versions.len() == 0 {
            cas == 0
        } else if entry.versions[0].deleted.is_some() {
            cas == 0 || cas == entry.versions[0].get_seqno()
        } else {
            cas == entry.versions[0].seqno
        };
        if ok {
            let refn = if entry.versions.len() > 0 {
                Some(entry.clone())
            } else {
                None
            };
            entry.key = key;
            if self.lsm || entry.versions.len() == 0 {
                entry.versions.insert(0, refval);
            } else {
                entry.versions[0] = refval;
            };
            self.seqno += 1;
            refn
        } else {
            None
        }
    }

    fn delete(&mut self, key: i64) -> Option<RefNode> {
        let off: usize = key.try_into().unwrap();
        let entry = &mut self.entries[off];

        if entry.is_present() {
            if self.lsm && entry.versions[0].deleted.is_none() {
                // an lsm delete prepends a tombstone version over the
                // live one
                let refn = entry.clone();
                let refval = RefValue {
                    value: 0,
                    seqno: 0,
                    deleted: Some(self.seqno + 1),
                };
                entry.versions.insert(0, refval);
                self.seqno += 1;
                Some(refn)
            } else if self.lsm {
                // deleting a tombstone again changes nothing
                Some(entry.clone())
            } else {
                let refn = entry.clone();
                entry.versions = vec![];
                self.seqno += 1;
                Some(refn)
            }
        } else {
            if self.lsm {
                let refval = RefValue {
                    value: 0,
                    seqno: 0,
                    deleted: Some(self.seqno + 1),
                };
                entry.versions.insert(0, refval);
                entry.key = key;
            }
            self.seqno += 1;
            None
        }
    }
}

fn check_node(entry: Option<rdms::entry::Entry<i64, i64>>, refn: Option<RefNode>) -> bool {
    if entry.is_none() && refn.is_none() {
        return false;
    } else if entry.is_none() {
        panic!("entry is none but not refn {:?}", refn.unwrap().key);
    } else if refn.is_none() {
        let entry = entry.as_ref().unwrap();
        panic!("refn is none but not entry {:?}", entry.to_key());
    }

    let entry = entry.unwrap();
    let refn = refn.unwrap();
    assert_eq!(entry.to_key(), refn.key, "key");

    let ver = &refn.versions[0];
    if !refn.is_deleted() {
        assert_eq!(entry.to_native_value().unwrap(), ver.value, "key {}", refn.key);
    }
    assert_eq!(entry.is_deleted(), refn.is_deleted(), "key {}", refn.key);
    assert_eq!(entry.to_seqno(), refn.get_seqno(), "key {}", refn.key);
    let (n_vers, refn_vers) = (entry.to_delta_count() + 1, refn.versions.len());
    assert_eq!(n_vers, refn_vers, "key {}", refn.key);
    true
}

#[test]
fn mvcc_test_test_cas_lsm() {
    let mut mvcc: Mvcc<i64, i64> = Mvcc::new_lsm("test-mvcc");
    let mut refns = RefNodes::new(true, 11);

    {
        let mut w = mvcc.to_writer();
        for key in [2, 1, 3, 6, 5, 4, 8, 0, 9, 7] {
            assert!(w.set(key, 100).unwrap().is_none());
            refns.set(key, 100);
        }

        let node = w.set_cas(0, 200, 8).ok().unwrap();
        let refn = refns.set_cas(0, 200, 8);
        check_node(node, refn);

        let node = w.set_cas(5, 200, 5).ok().unwrap();
        let refn = refns.set_cas(5, 200, 5);
        check_node(node, refn);

        let node = w.set_cas(6, 200, 4).ok().unwrap();
        let refn = refns.set_cas(6, 200, 4);
        check_node(node, refn);

        let node = w.set_cas(9, 200, 9).ok().unwrap();
        let refn = refns.set_cas(9, 200, 9);
        check_node(node, refn);

        let node = w.set_cas(0, 300, 11).ok().unwrap();
        let refn = refns.set_cas(0, 300, 11);
        check_node(node, refn);

        let node = w.set_cas(5, 300, 12).ok().unwrap();
        let refn = refns.set_cas(5, 300, 12);
        check_node(node, refn);

        let node = w.set_cas(9, 300, 14).ok().unwrap();
        let refn = refns.set_cas(9, 300, 14);
        check_node(node, refn);

        // create
        assert!(w.set_cas(10, 100, 0).ok().unwrap().is_none());
        assert!(refns.set_cas(10, 100, 0).is_none());
        // error create
        assert!(w.set_cas(10, 100, 0).err() == Some(rdms::Error::InvalidCAS));
        // error insert
        assert!(w.set_cas(9, 400, 14).err() == Some(rdms::Error::InvalidCAS));
    }

    assert_eq!(mvcc.len(), 11);
    assert!(mvcc.validate().is_ok());

    assert_eq!(refns.seqno, mvcc.to_seqno());
    for i in 0..11 {
        let entry = mvcc.get(&i);
        let refn = refns.get(i);
        check_node(entry.ok(), refn);
    }
    let mut iter = mvcc.iter().unwrap();
    let mut iter_ref = refns.iter();
    loop {
        if check_node(iter.next(), iter_ref.next().cloned()) == false {
            break;
        }
    }
}

#[test]
fn mvcc_test_test_delete() {
    let mut mvcc: Mvcc<i64, i64> = Mvcc::new("test-mvcc");
    let mut refns = RefNodes::new(false, 11);

    {
        let mut w = mvcc.to_writer();
        for key in [2, 1, 3, 6, 5, 4, 8, 0, 9, 7] {
            assert!(w.set(key, 100).unwrap().is_none());
            refns.set(key, 100);
        }

        // delete a missing node
        assert!(w.delete(&10).unwrap().is_none());
        assert!(refns.delete(10).is_none());
    }

    assert_eq!(mvcc.len(), 10);
    assert!(mvcc.validate().is_ok());
    assert_eq!(refns.seqno, mvcc.to_seqno());

    {
        let mut iter = mvcc.iter().unwrap();
        let mut iter_ref = refns.iter();
        loop {
            if check_node(iter.next(), iter_ref.next().cloned()) == false {
                break;
            }
        }
    }

    for i in 0..10 {
        let entry = mvcc.delete(&i).unwrap();
        let refn = refns.delete(i);
        check_node(entry, refn);
        assert!(mvcc.validate().is_ok());
    }
    assert_eq!(refns.seqno, mvcc.to_seqno());
    assert_eq!(mvcc.len(), 0);
    assert!(mvcc.iter().unwrap().next().is_none());
}

#[test]
fn mvcc_test_test_iter() {
    let mut mvcc: Mvcc<i64, i64> = Mvcc::new("test-mvcc");
    let mut refns = RefNodes::new(false, 10);

    for key in [2, 1, 3, 6, 5, 4, 8, 0, 9, 7] {
        assert!(mvcc.set(key, 10).unwrap().is_none());
        refns.set(key, 10);
    }

    assert_eq!(mvcc.len(), 10);
    assert!(mvcc.validate().is_ok());
    assert_eq!(refns.seqno, mvcc.to_seqno());

    let mut iter = mvcc.iter().unwrap();
    let mut iter_ref = refns.iter();
    loop {
        match (iter.next(), iter_ref.next()) {
            (None, None) => break,
            (entry, Some(refn)) => {
                check_node(entry, Some(refn.clone()));
            }
            _ => panic!("invalid"),
        };
    }
    assert!(iter.next().is_none());
    assert!(iter.next().is_none());
}

struct Lcg(u64);

impl Lcg {
    fn next(&mut self) -> u64 {
        self.0 = self
            .0
            .wrapping_mul(6364136223846793005)
            .wrapping_add(1442695040888963407);
        self.0 >> 16
    }
}

fn low_high(rng: &mut Lcg, size: usize) -> (Bound<i64>, Bound<i64>) {
    let size = size as u64;
    let low = (rng.next() % size) as i64;
    let high = (rng.next() % size) as i64;
    let low = match rng.next() % 3 {
        0 => Bound::Included(low),
        1 => Bound::Excluded(low),
        _ => Bound::Unbounded,
    };
    let high = match rng.next() % 3 {
        0 => Bound::Included(high),
        1 => Bound::Excluded(high),
        _ => Bound::Unbounded,
    };
    (low, high)
}

fn ref_in_range(key: i64, low: &Bound<i64>, high: &Bound<i64>) -> bool {
    let lo = match low {
        Bound::Included(l) => key >= *l,
        Bound::Excluded(l) => key > *l,
        Bound::Unbounded => true,
    };
    let hi = match high {
        Bound::Included(h) => key <= *h,
        Bound::Excluded(h) => key < *h,
        Bound::Unbounded => true,
    };
    lo && hi
}

#[test]
fn mvcc_test_test_crud() {
    let size: usize = 500;
    let mut mvcc: Mvcc<i64, i64> = Mvcc::new("test-mvcc");
    let mut refns = RefNodes::new(false, size);
    let mut rng = Lcg(13);

    for _ in 0..20_000 {
        let key = (rng.next() % size as u64) as i64;
        let value = rng.next() as i64;
        match rng.next() % 3 {
            0 => {
                let node = mvcc.set(key, value).unwrap();
                let refn = refns.set(key, value);
                check_node(node, refn);
            }
            1 => {
                let cas = {
                    let refn = &refns.entries[key as usize];
                    if refn.versions.len() > 0 {
                        refn.get_seqno()
                    } else {
                        0
                    }
                };
                let node = mvcc.set_cas(key, value, cas).unwrap();
                let refn = refns.set_cas(key, value, cas);
                check_node(node, refn);
            }
            _ => {
                let node = mvcc.delete(&key).unwrap();
                let refn = refns.delete(key);
                check_node(node, refn);
            }
        }
        assert!(mvcc.validate().is_ok());
    }

    assert_eq!(refns.seqno, mvcc.to_seqno());
    let mut iter = mvcc.iter().unwrap();
    let mut iter_ref = refns.iter();
    loop {
        if !check_node(iter.next(), iter_ref.next().cloned()) {
            break;
        }
    }

    for _ in 0..1_000 {
        let (low, high) = low_high(&mut rng, size);
        let expected: Vec<RefNode> = refns
            .iter()
            .filter(|n| ref_in_range(n.key, &low, &high))
            .cloned()
            .collect();

        let mut iter = mvcc.range((low, high)).unwrap();
        let mut iter_ref = expected.iter();
        loop {
            if !check_node(iter.next(), iter_ref.next().cloned()) {
                break;
            }
        }

        let mut iter = mvcc.reverse((low, high)).unwrap();
        let mut iter_ref = expected.iter().rev();
        loop {
            if !check_node(iter.next(), iter_ref.next().cloned()) {
                break;
            }
        }
    }
}

#[test]
fn mvcc_test_test_crud_lsm() {
    let size: usize = 300;
    let mut mvcc: Mvcc<i64, i64> = Mvcc::new_lsm("test-mvcc");
    let mut refns = RefNodes::new(true, size);
    let mut rng = Lcg(17);

    for _ in 0..10_000 {
        let key = (rng.next() % size as u64) as i64;
        let value = rng.next() as i64;
        match rng.next() % 3 {
            0 => {
                let node = mvcc.set(key, value).unwrap();
                let refn = refns.set(key, value);
                check_node(node, refn);
            }
            1 => {
                let cas = {
                    let refn = &refns.entries[key as usize];
                    if refn.versions.len() > 0 {
                        refn.get_seqno()
                    } else {
                        0
                    }
                };
                let node = mvcc.set_cas(key, value, cas).unwrap();
                let refn = refns.set_cas(key, value, cas);
                check_node(node, refn);
            }
            _ => {
                let node = mvcc.delete(&key).unwrap();
                let refn = refns.delete(key);
                check_node(node, refn);
            }
        }
        assert!(mvcc.validate().is_ok());
    }

    assert_eq!(refns.seqno, mvcc.to_seqno());
    let mut iter = mvcc.iter().unwrap();
    let mut iter_ref = refns.iter();
    loop {
        if !check_node(iter.next(), iter_ref.next().cloned()) {
            break;
        }
    }
}
