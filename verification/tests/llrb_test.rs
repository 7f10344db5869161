use std::ops::Bound;

use rdms::entry::Entry;
use rdms::llrb::Llrb;
use rdms::types::Empty;

#[derive(Clone, Default, Debug)]
struct RefValue {
    value: i64,
    seqno: u64,
    deleted: Option<u64>,
}

impl RefValue {
    fn get_seqno(&self) -> u64 {
        match self.deleted {
            None => self.seqno,
            Some(seqno) => {
                if seqno < self.seqno {
                    panic!("{} < {}", seqno, self.seqno);
                }
                seqno
            }
        }
    }
}

#[derive(Clone, Default, Debug)]
struct RefNode {
    key: i64,
    versions: Vec<RefValue>,
}

impl RefNode {
    fn get_seqno(&self) -> u64 {
        self.versions[0].get_seqno()
    }

    fn is_deleted(&self) -> bool {
        self.versions[0].deleted.is_some()
    }

    fn is_present(&self) -> bool {
        self.versions.len() > 0
    }
}

struct RefNodes {
    lsm: bool,
    seqno: u64,
    entries: Vec<RefNode>,
}

impl RefNodes {
    fn new(lsm: bool, capacity: usize) -> RefNodes {
        let mut entries: Vec<RefNode> = Vec::with_capacity(capacity);
        (0..capacity).for_each(|_| entries.push(Default::default()));
        RefNodes {
            lsm,
            seqno: 0,
            entries,
        }
    }

    fn get(&self, key: i64) -> Option<RefNode> {
        let off: usize = key.try_into().unwrap();
        let entry = self.entries[off].clone();
        if entry.versions.len() == 0 {
            None
        } else {
            Some(entry)
        }
    }

    fn iter<'a>(&'a self) -> impl Iterator<Item = &'a RefNode> {
        self.entries.iter().filter(|item| item.versions.len() > 0)
    }

    fn set(&mut self, key: i64, value: i64) -> Option<RefNode> {
        let refval = RefValue {
            value,
            seqno: self.seqno + 1,
            deleted: None,
        };
        let off: usize = key.try_into().unwrap();
        let entry = &mut self.entries[off];
        let refn = if entry.versions.len() > 0 {
            Some(entry.clone())
        } else {
            None
        };
        entry.key = key;
        if self.lsm || entry.versions.len() == 0 {
            entry.versions.insert(0, refval);
        } else {
            entry.versions[0] = refval;
        };
        self.seqno += 1;
        refn
    }

    fn set_cas(&mut self, key: i64, value: i64, cas: u64) -> Option<RefNode> {
        let refval = RefValue {
            value,
            seqno: self.seqno + 1,
            deleted: None,
        };
        let off: usize = key.try_into().unwrap();
        let entry = &mut self.entries[off];
        // a tombstone answers to cas == 0 (key seen absent) and to its
        // own delete seqno, matching the index's lsm rule
        let ok = if entry.versions.len() == 0 {
            cas == 0
        } else if entry.versions[0].deleted.is_some() {
            cas == 0 || cas == entry.versions[0].get_seqno()
        } else {
            cas == entry.versions[0].seqno
        };
        if ok {
            let refn = if entry.versions.len() > 0 {
                Some(entry.clone())
            } else {
                None
            };
            entry.key = key;
            if self.lsm || entry.versions.len() == 0 {
                entry.versions.insert(0, refval);
            } else {
                entry.versions[0] = refval;
            };
            self.seqno += 1;
            refn
        } else {
            None
        }
    }

    fn delete(&mut self, key: i64) -> Option<RefNode> {
        let off: usize = key.try_into().unwrap();
        let entry = &mut self.entries[off];

        if entry.is_present() {
            if self.lsm && entry.versions[0].deleted.is_none() {
                // an lsm delete prepends a tombstone version over the
                // live one
                let refn = entry.clone();
                let refval = RefValue {
                    value: 0,
                    seqno: 0,
                    deleted: Some(self.seqno + 1),
                };
                entry.versions.insert(0, refval);
                self.seqno += 1;
                Some(refn)
            } else if self.lsm {
                // deleting a tombstone again changes nothing
                Some(entry.clone())
            } else {
                let refn = entry.clone();
                entry.versions = vec![];
                self.seqno += 1;
                Some(refn)
            }
        } else {
            if self.lsm {
                let refval = RefValue {
                    value: 0,
                    seqno: 0,
                    deleted: Some(self.seqno + 1),
                };
                entry.versions.insert(0, refval);
                entry.key = key;
            }
            self.seqno += 1;
            None
        }
    }
}

fn check_node(entry: Option<Entry<i64, i64>>, refn: Option<RefNode>) -> bool {
    if entry.is_none() && refn.is_none() {
        return false;
    } else if entry.is_none() {
        panic!("entry is none but not refn {:?}", refn.unwrap().key);
    } else if refn.is_none() {
        let entry = entry.as_ref().unwrap();
        panic!("refn is none but not entry {:?}", entry.to_key());
    }

    let entry = entry.unwrap();
    let refn = refn.unwrap();
    assert_eq!(entry.to_key(), refn.key, "key");

    let ver = &refn.versions[0];
    if !refn.is_deleted() {
        assert_eq!(entry.to_native_value().unwrap(), ver.value, "key {}", refn.key);
    }
    assert_eq!(entry.is_deleted(), ver.deleted.is_some(), "key {}", refn.key);
    assert_eq!(entry.to_seqno(), refn.get_seqno(), "key {}", refn.key);
    assert_eq!(entry.is_deleted(), refn.is_deleted(), "key {}", refn.key);

    let (n_vers, refn_vers) = (entry.to_delta_count() + 1, refn.versions.len());
    assert_eq!(n_vers, refn_vers, "key {}", refn.key);

    let deltas = entry.to_deltas();
    let mut it = entry.versions();
    let mut i = 0;
    while let Some(v) = it.next() {
        let ver = &refn.versions[i];
        if ver.deleted.is_none() {
            assert_eq!(v.to_native_value().unwrap(), ver.value, "key {} i {}", refn.key, i);
        }
        if i > 0 {
            let dlt = &deltas[i - 1];
            assert_eq!(dlt.to_seqno(), ver.get_seqno(), "key {} i {}", refn.key, i);
            assert_eq!(
                dlt.is_deleted(),
                ver.deleted.is_some(),
                "key {} i {}",
                refn.key,
                i
            );
        }
        i += 1;
    }

    true
}

#[test]
fn llrb_test_test_id() {
    let llrb: Llrb<i32, Empty> = Llrb::new("test-llrb");
    assert_eq!(llrb.to_name(), "test-llrb".to_string());
}

#[test]
fn llrb_test_test_seqno() {
    let mut llrb: Llrb<i32, Empty> = Llrb::new("test-llrb");
    assert_eq!(llrb.to_seqno(), 0);
    llrb.set_seqno(1234);
    assert_eq!(llrb.to_seqno(), 1234);
}

#[test]
fn llrb_test_test_len() {
    let llrb: Llrb<i32, Empty> = Llrb::new("test-llrb");
    assert_eq!(llrb.len(), 0);
}

#[test]
fn llrb_test_test_set() {
    let mut llrb: Llrb<i64, i64> = Llrb::new("test-llrb");
    let mut refns = RefNodes::new(false, 10);

    for key in [2, 1, 3, 6, 5, 4, 8, 0, 9, 7] {
        assert!(llrb.set(key, 10).unwrap().is_none());
        refns.set(key, 10);
    }

    assert_eq!(llrb.len(), 10);
    assert!(llrb.validate().is_ok());

    assert_eq!(refns.seqno, llrb.to_seqno());
    for i in 0..10 {
        let entry = llrb.get(&i);
        let refn = refns.get(i);
        check_node(entry.ok(), refn);
    }
    let mut iter = llrb.iter().unwrap();
    let mut iter_ref = refns.iter();
    loop {
        if check_node(iter.next(), iter_ref.next().cloned()) == false {
            break;
        }
    }
}

#[test]
fn llrb_test_test_cas_lsm() {
    let mut llrb: Llrb<i64, i64> = Llrb::new_lsm("test-llrb");
    let mut refns = RefNodes::new(true, 11);

    for key in [2, 1, 3, 6, 5, 4, 8, 0, 9, 7] {
        assert!(llrb.set(key, 100).unwrap().is_none());
        refns.set(key, 100);
    }

    // repeated mutations on the same key
    let entry = llrb.set_cas(0, 200, 8).ok().unwrap();
    let refn = refns.set_cas(0, 200, 8);
    check_node(entry, refn);

    let entry = llrb.set_cas(5, 200, 5).ok().unwrap();
    let refn = refns.set_cas(5, 200, 5);
    check_node(entry, refn);

    let entry = llrb.set_cas(6, 200, 4).ok().unwrap();
    let refn = refns.set_cas(6, 200, 4);
    check_node(entry, refn);

    let entry = llrb.set_cas(9, 200, 9).ok().unwrap();
    let refn = refns.set_cas(9, 200, 9);
    check_node(entry, refn);

    let entry = llrb.set_cas(0, 300, 11).ok().unwrap();
    let refn = refns.set_cas(0, 300, 11);
    check_node(entry, refn);

    let entry = llrb.set_cas(5, 300, 12).ok().unwrap();
    let refn = refns.set_cas(5, 300, 12);
    check_node(entry, refn);

    let entry = llrb.set_cas(9, 300, 14).ok().unwrap();
    let refn = refns.set_cas(9, 300, 14);
    check_node(entry, refn);

    // create
    assert!(llrb.set_cas(10, 100, 0).ok().unwrap().is_none());
    assert!(refns.set_cas(10, 100, 0).is_none());
    // error create
    assert!(llrb.set_cas(10, 100, 0).err() == Some(rdms::Error::InvalidCAS));
    // error insert
    assert!(llrb.set_cas(9, 400, 14).err() == Some(rdms::Error::InvalidCAS));

    assert_eq!(llrb.len(), 11);
    assert!(llrb.validate().is_ok());

    assert_eq!(refns.seqno, llrb.to_seqno());
    for i in 0..11 {
        let entry = llrb.get(&i);
        let refn = refns.get(i);
        check_node(entry.ok(), refn);
    }
    let mut iter = llrb.iter().unwrap();
    let mut iter_ref = refns.iter();
    loop {
        if check_node(iter.next(), iter_ref.next().cloned()) == false {
            break;
        }
    }
}

#[test]
fn llrb_test_test_delete() {
    let mut llrb: Llrb<i64, i64> = Llrb::new("test-llrb");
    let mut refns = RefNodes::new(false, 11);

    for key in [2, 1, 3, 6, 5, 4, 8, 0, 9, 7] {
        assert!(llrb.set(key, 100).unwrap().is_none());
        refns.set(key, 100);
    }

    // delete a missing node
    assert!(llrb.delete(&10).unwrap().is_none());
    assert!(refns.delete(10).is_none());

    assert_eq!(llrb.len(), 10);
    assert!(llrb.validate().is_ok());
    assert_eq!(refns.seqno, llrb.to_seqno());

    {
        let mut iter = llrb.iter().unwrap();
        let mut iter_ref = refns.iter();
        loop {
            let entry = iter.next();
            let refn = iter_ref.next().cloned();
            if check_node(entry, refn) == false {
                break;
            }
        }
    }

    // delete all entries
    for i in 0..10 {
        let entry = llrb.delete(&i).unwrap();
        let refn = refns.delete(i);
        check_node(entry, refn);
        assert!(llrb.validate().is_ok());
    }
    assert_eq!(refns.seqno, llrb.to_seqno());
    assert_eq!(llrb.len(), 0);
    assert!(llrb.validate().is_ok());
    assert!(llrb.iter().unwrap().next().is_none());
}

#[test]
fn llrb_test_test_iter() {
    let mut llrb: Llrb<i64, i64> = Llrb::new("test-llrb");
    let mut refns = RefNodes::new(false, 10);

    for key in [2, 1, 3, 6, 5, 4, 8, 0, 9, 7] {
        assert!(llrb.set(key, 10).unwrap().is_none());
        refns.set(key, 10);
    }

    assert_eq!(llrb.len(), 10);
    assert!(llrb.validate().is_ok());
    assert_eq!(refns.seqno, llrb.to_seqno());

    let mut iter = llrb.iter().unwrap();
    let mut iter_ref = refns.iter();
    loop {
        match (iter.next(), iter_ref.next()) {
            (None, None) => break,
            (entry, Some(refn)) => {
                check_node(entry, Some(refn.clone()));
            }
            _ => panic!("invalid"),
        };
    }
    assert!(iter.next().is_none());
    assert!(iter.next().is_none());
}

#[test]
fn test_range_str() {
    let mut llrb: Llrb<String, i64> = Llrb::new("test-llrb");

    assert!(llrb.set("key1".to_string(), 10).unwrap().is_none());
    assert!(llrb.set("key2".to_string(), 11).unwrap().is_none());
    assert!(llrb.set("key3".to_string(), 12).unwrap().is_none());
    assert!(llrb.set("key4".to_string(), 13).unwrap().is_none());
    assert!(llrb.set("key5".to_string(), 14).unwrap().is_none());

    assert_eq!(llrb.len(), 5);
    assert!(llrb.validate().is_ok());

    for _ in 0..1_000 {
        let r = (
            Bound::Included("key2".to_string()),
            Bound::Included("key4".to_string()),
        );
        let mut iter = llrb.range(r).unwrap();
        let entry = iter.next().expect("expected entry for key2");
        assert_eq!(entry.to_key(), "key2");
        assert_eq!(entry.to_native_value().unwrap(), 11);
        let entry = iter.next().expect("expected entry for key3");
        assert_eq!(entry.to_key(), "key3");
        assert_eq!(entry.to_native_value().unwrap(), 12);
        let entry = iter.next().expect("expected entry for key4");
        assert_eq!(entry.to_key(), "key4");
        assert_eq!(entry.to_native_value().unwrap(), 13);
        assert!(iter.next().is_none());

        let r = (
            Bound::Included("key2".to_string()),
            Bound::Included("key4".to_string()),
        );
        let mut iter = llrb.reverse(r).unwrap();
        let entry = iter.next().expect("expected entry for key4");
        assert_eq!(entry.to_key(), "key4");
        assert_eq!(entry.to_native_value().unwrap(), 13);
        let entry = iter.next().expect("expected entry for key3");
        assert_eq!(entry.to_key(), "key3");
        assert_eq!(entry.to_native_value().unwrap(), 12);
        let entry = iter.next().expect("expected entry for key2");
        assert_eq!(entry.to_key(), "key2");
        assert_eq!(entry.to_native_value().unwrap(), 11);
        assert!(iter.next().is_none());
    }
}

// LSM versioning: set(2,10), set(2,20), set(2,30), delete(&2); the
// entry ends as a tombstone at seqno 4 whose versions reconstruct
// 30, 20, 10.
#[test]
fn test_lsm_versioning_scenario() {
    let mut llrb: Llrb<i64, i64> = Llrb::new_lsm("test-llrb");
    llrb.set(2, 10).unwrap();
    llrb.set(2, 20).unwrap();
    llrb.set(2, 30).unwrap();
    llrb.delete(&2).unwrap();

    let entry = llrb.get(&2).unwrap();
    assert!(entry.is_deleted());
    assert_eq!(entry.to_seqno(), 4);
    assert_eq!(entry.to_delta_count(), 3);
    let deltas = entry.to_deltas();
    assert_eq!(deltas[0].to_seqno(), 3);
    assert_eq!(deltas[1].to_seqno(), 2);
    assert_eq!(deltas[2].to_seqno(), 1);

    let mut it = entry.versions();
    let v0 = it.next().unwrap();
    assert!(v0.is_deleted());
    assert_eq!(v0.to_seqno(), 4);
    let v1 = it.next().unwrap();
    assert_eq!(v1.to_native_value().unwrap(), 30);
    let v2 = it.next().unwrap();
    assert_eq!(v2.to_native_value().unwrap(), 20);
    let v3 = it.next().unwrap();
    assert_eq!(v3.to_native_value().unwrap(), 10);
    assert!(it.next().is_none());
}

// CAS: set(1,100) -> seqno 1; set_cas(1,200,1) -> seqno 2;
// set_cas(1,300,1) -> InvalidCAS and seqno unchanged.
#[test]
fn test_cas_scenario() {
    let mut llrb: Llrb<i64, i64> = Llrb::new("test-llrb");
    llrb.set(1, 100).unwrap();
    assert_eq!(llrb.to_seqno(), 1);
    assert!(llrb.set_cas(1, 200, 1).is_ok());
    assert_eq!(llrb.to_seqno(), 2);
    assert_eq!(llrb.set_cas(1, 300, 1).err(), Some(rdms::Error::InvalidCAS));
    assert_eq!(llrb.to_seqno(), 2);
    assert_eq!(llrb.get(&1).unwrap().to_native_value().unwrap(), 200);
}

// Range: insert 0..=9 -> 10; range [3,7) yields 3,4,5,6 and the
// reverse yields 6,5,4,3.
#[test]
fn test_range_scenario() {
    let mut llrb: Llrb<i64, i64> = Llrb::new("test-llrb");
    for k in 0..=9i64 {
        llrb.set(k, 10).unwrap();
    }
    let mut iter = llrb
        .range((Bound::Included(3), Bound::Excluded(7)))
        .unwrap();
    let mut keys = vec![];
    while let Some(e) = iter.next() {
        keys.push(e.to_key());
    }
    assert_eq!(keys, vec![3, 4, 5, 6]);

    let mut iter = llrb
        .reverse((Bound::Included(3), Bound::Excluded(7)))
        .unwrap();
    let mut keys = vec![];
    while let Some(e) = iter.next() {
        keys.push(e.to_key());
    }
    assert_eq!(keys, vec![6, 5, 4, 3]);
}

// deterministic pseudo-random ranges, in place of a random source
struct Lcg(u64);

impl Lcg {
    fn next(&mut self) -> u64 {
        self.0 = self
            .0
            .wrapping_mul(6364136223846793005)
            .wrapping_add(1442695040888963407);
        self.0 >> 16
    }
}

fn low_high(rng: &mut Lcg, size: usize) -> (Bound<i64>, Bound<i64>) {
    let size = size as u64;
    let low = (rng.next() % size) as i64;
    let high = (rng.next() % size) as i64;
    let low = match rng.next() % 3 {
        0 => Bound::Included(low),
        1 => Bound::Excluded(low),
        _ => Bound::Unbounded,
    };
    let high = match rng.next() % 3 {
        0 => Bound::Included(high),
        1 => Bound::Excluded(high),
        _ => Bound::Unbounded,
    };
    (low, high)
}

fn ref_in_range(key: i64, low: &Bound<i64>, high: &Bound<i64>) -> bool {
    let lo = match low {
        Bound::Included(l) => key >= *l,
        Bound::Excluded(l) => key > *l,
        Bound::Unbounded => true,
    };
    let hi = match high {
        Bound::Included(h) => key <= *h,
        Bound::Excluded(h) => key < *h,
        Bound::Unbounded => true,
    };
    lo && hi
}

#[test]
fn llrb_test_test_range() {
    let mut llrb: Llrb<i64, i64> = Llrb::new("test-llrb");
    let mut refns = RefNodes::new(false, 10);

    for key in [2, 1, 3, 6, 5, 4, 8, 0, 9, 7] {
        assert!(llrb.set(key, 10).unwrap().is_none());
        refns.set(key, 10);
    }

    assert_eq!(llrb.len(), 10);
    assert!(llrb.validate().is_ok());
    assert_eq!(refns.seqno, llrb.to_seqno());

    let mut rng = Lcg(42);
    for _ in 0..1_000 {
        let (low, high) = low_high(&mut rng, llrb.len());

        let expected: Vec<i64> = (0..10).filter(|k| ref_in_range(*k, &low, &high)).collect();

        let mut iter = llrb.range((low, high)).unwrap();
        let mut got = vec![];
        while let Some(e) = iter.next() {
            got.push(e.to_key());
        }
        assert_eq!(got, expected, "range {:?} {:?}", low, high);

        let mut iter = llrb.reverse((low, high)).unwrap();
        let mut got = vec![];
        while let Some(e) = iter.next() {
            got.push(e.to_key());
        }
        let mut expected_rev = expected.clone();
        expected_rev.reverse();
        assert_eq!(got, expected_rev, "reverse {:?} {:?}", low, high);
    }
}

#[test]
fn test_key_not_found() {
    let llrb: Llrb<i64, i64> = Llrb::new("test-llrb");
    assert_eq!(llrb.get(&1).err(), Some(rdms::Error::KeyNotFound));
}

#[test]
fn llrb_test_test_crud() {
    let size: usize = 500;
    let mut llrb: Llrb<i64, i64> = Llrb::new("test-llrb");
    let mut refns = RefNodes::new(false, size);
    let mut rng = Lcg(7);

    for _ in 0..20_000 {
        let key = (rng.next() % size as u64) as i64;
        let value = rng.next() as i64;
        match rng.next() % 3 {
            0 => {
                let entry = llrb.set(key, value).unwrap();
                let refn = refns.set(key, value);
                check_node(entry, refn);
            }
            1 => {
                let cas = {
                    let refn = &refns.entries[key as usize];
                    if refn.versions.len() > 0 {
                        refn.get_seqno()
                    } else {
                        0
                    }
                };
                let entry = llrb.set_cas(key, value, cas).unwrap();
                let refn = refns.set_cas(key, value, cas);
                check_node(entry, refn);
            }
            _ => {
                let entry = llrb.delete(&key).unwrap();
                let refn = refns.delete(key);
                check_node(entry, refn);
            }
        }
        assert!(llrb.validate().is_ok());
    }

    assert_eq!(refns.seqno, llrb.to_seqno());
    let mut iter = llrb.iter().unwrap();
    let mut iter_ref = refns.iter();
    loop {
        if !check_node(iter.next(), iter_ref.next().cloned()) {
            break;
        }
    }

    for _ in 0..1_000 {
        let (low, high) = low_high(&mut rng, size);
        let expected: Vec<RefNode> = refns
            .iter()
            .filter(|n| ref_in_range(n.key, &low, &high))
            .cloned()
            .collect();

        let mut iter = llrb.range((low, high)).unwrap();
        let mut iter_ref = expected.iter();
        loop {
            if !check_node(iter.next(), iter_ref.next().cloned()) {
                break;
            }
        }

        let mut iter = llrb.reverse((low, high)).unwrap();
        let mut iter_ref = expected.iter().rev();
        loop {
            if !check_node(iter.next(), iter_ref.next().cloned()) {
                break;
            }
        }
    }
}

#[test]
fn llrb_test_test_crud_lsm() {
    let size: usize = 300;
    let mut llrb: Llrb<i64, i64> = Llrb::new_lsm("test-llrb");
    let mut refns = RefNodes::new(true, size);
    let mut rng = Lcg(11);

    for _ in 0..10_000 {
        let key = (rng.next() % size as u64) as i64;
        let value = rng.next() as i64;
        match rng.next() % 3 {
            0 => {
                let entry = llrb.set(key, value).unwrap();
                let refn = refns.set(key, value);
                check_node(entry, refn);
            }
            1 => {
                let cas = {
                    let refn = &refns.entries[key as usize];
                    if refn.versions.len() > 0 {
                        refn.get_seqno()
                    } else {
                        0
                    }
                };
                let entry = llrb.set_cas(key, value, cas).unwrap();
                let refn = refns.set_cas(key, value, cas);
                check_node(entry, refn);
            }
            _ => {
                let entry = llrb.delete(&key).unwrap();
                let refn = refns.delete(key);
                check_node(entry, refn);
            }
        }
        assert!(llrb.validate().is_ok());
    }

    assert_eq!(refns.seqno, llrb.to_seqno());
    let mut iter = llrb.iter().unwrap();
    let mut iter_ref = refns.iter();
    loop {
        if !check_node(iter.next(), iter_ref.next().cloned()) {
            break;
        }
    }

    for _ in 0..1_000 {
        let (low, high) = low_high(&mut rng, size);
        let expected: Vec<RefNode> = refns
            .iter()
            .filter(|n| ref_in_range(n.key, &low, &high))
            .cloned()
            .collect();

        let mut iter = llrb.range((low, high)).unwrap();
        let mut iter_ref = expected.iter();
        loop {
            if !check_node(iter.next(), iter_ref.next().cloned()) {
                break;
            }
        }

        let mut iter = llrb.reverse((low, high)).unwrap();
        let mut iter_ref = expected.iter().rev();
        loop {
            if !check_node(iter.next(), iter_ref.next().cloned()) {
                break;
            }
        }
    }
}
