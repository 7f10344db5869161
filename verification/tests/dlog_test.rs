use rdms::dlog_entry::{Entry, Op};
use rdms::wal::{
    batch_replay_needed, file_name_to_parts, journals_to_purge, parts_to_file_name,
    replay_batches, Batch, Writer, DEFAULT_NODE, NIL_TERM,
};

#[test]
fn test_batch() {
    // encode/decode config
    let mut buf = vec![];
    let config: Vec<Vec<u8>> = vec![b"node1".to_vec(), b"node2".to_vec()];
    let n = Batch::<i32, i32>::encode_config(&config, &mut buf).unwrap();
    assert_eq!(n, 22);
    let (config_out, m) = Batch::<i32, i32>::decode_config(&buf).unwrap();
    assert_eq!(config, config_out);
    assert_eq!(n, m);
    // encode/decode votedfor
    let mut buf = vec![];
    let n = Batch::<i32, i32>::encode_votedfor(&b"node1".to_vec(), &mut buf).unwrap();
    assert_eq!(n, 7);
    let (votedfor, m) = Batch::<i32, i32>::decode_votedfor(&buf).unwrap();
    assert_eq!(b"node1".to_vec(), votedfor);
    assert_eq!(n, m);

    // batch
    let mut batch: Batch<i32, i32> = Batch::new();

    let cnfg: Vec<Vec<u8>> = vec![DEFAULT_NODE.as_bytes().to_vec()];
    batch.set_config(cnfg.clone());
    match batch {
        Batch::Active { ref config, .. } => assert_eq!(&cnfg, config),
        _ => unreachable!(),
    }

    batch.set_term(111, DEFAULT_NODE.as_bytes().to_vec());
    match batch {
        Batch::Active {
            term, ref votedfor, ..
        } => {
            assert_eq!(term, 111);
            assert_eq!(votedfor, &DEFAULT_NODE.as_bytes().to_vec());
        }
        _ => unreachable!(),
    }

    batch.set_committed(1000);
    match batch {
        Batch::Active { committed, .. } => assert_eq!(committed, 1000),
        _ => unreachable!(),
    }

    batch.set_persisted(10000);
    match batch {
        Batch::Active { persisted, .. } => assert_eq!(persisted, 10000),
        _ => unreachable!(),
    }
    assert_eq!(batch.to_start_index(), None);
    assert_eq!(batch.to_last_index(), None);
    assert_eq!(batch.len(), 0);

    let (op1, op2, op3): (Op<i32, i32>, Op<i32, i32>, Op<i32, i32>) = (
        Op::new_set(10, 20),
        Op::new_set_cas(10, 30, 1),
        Op::new_delete(10),
    );
    batch.add_entry(Entry::new_term(op1, 111, 1));
    batch.add_entry(Entry::new_term(op2, 111, 2));
    batch.add_entry(Entry::new_term(op3, 111, 3));

    assert_eq!(batch.to_start_index(), Some(1));
    assert_eq!(batch.to_last_index(), Some(3));
    assert_eq!(batch.len(), 3);

    // encode / decode active
    let mut buf = vec![];
    let n = batch.encode_active(&mut buf).unwrap();
    assert_eq!(n, 224);
    let (batch_out, m) = Batch::<i32, i32>::decode_active(&buf).expect("failed decoder_active()");
    assert_eq!(n, m);
    match batch_out {
        Batch::Active {
            term: 111,
            committed: 1000,
            persisted: 10000,
            ref config,
            ref votedfor,
            ref entries,
        } => {
            assert_eq!(config, &vec![DEFAULT_NODE.as_bytes().to_vec()]);
            assert_eq!(votedfor, &DEFAULT_NODE.as_bytes().to_vec());
            assert_eq!(entries.len(), 3);
        }
        _ => unreachable!(),
    }
    assert_eq!(batch_out.into_entries().len(), 3);

    // decode refer
    let (batch_out, m) = Batch::<i32, i32>::decode_refer(&buf, 12345678).expect(
        "failed decoder_active()",
    );
    assert_eq!(n, m);
    match batch_out {
        Batch::Refer {
            fpos,
            length,
            start_index,
            last_index,
        } => {
            assert_eq!(fpos, 12345678);
            assert_eq!(length, 224);
            assert_eq!(start_index, 1);
            assert_eq!(last_index, 3);
        }
        _ => unreachable!(),
    }
}

#[test]
fn test_journal_file() {
    let file_path = parts_to_file_name("users", 1, 1);
    assert_eq!(file_path, "users-wal-shard-1-journal-1.wal".to_string());

    match file_name_to_parts(&file_path) {
        Some((name, shard_id, num)) => {
            assert_eq!(name, "users".to_string());
            assert_eq!(shard_id, 1);
            assert_eq!(num, 1);
        }
        None => unreachable!(),
    }

    let file_path = parts_to_file_name("accounts", 12, 345);
    assert_eq!(file_path, "accounts-wal-shard-12-journal-345.wal".to_string());
    match file_name_to_parts(&file_path) {
        Some((name, shard_id, num)) => {
            assert_eq!(name, "accounts".to_string());
            assert_eq!(shard_id, 12);
            assert_eq!(num, 345);
        }
        None => unreachable!(),
    }

    assert!(file_name_to_parts("users.wal").is_none());
    assert!(file_name_to_parts("users-wal-shard-x-journal-1.wal").is_none());
}

// purge_till deletes exactly the journals whose last index is below
// the bound; the active journal (no last index) never goes.
#[test]
fn test_purge_decision() {
    let last_indexes = vec![Some(213u64), Some(421), Some(610), None];
    let marks = journals_to_purge(&last_indexes, 214);
    assert_eq!(marks, vec![true, false, false, false]);
    let marks = journals_to_purge(&last_indexes, 213);
    assert_eq!(marks, vec![false, false, false, false]);
    let marks = journals_to_purge(&last_indexes, 611);
    assert_eq!(marks, vec![true, true, true, false]);
}

#[test]
fn test_replay_decision() {
    assert!(!batch_replay_needed(Some(213), 214));
    assert!(batch_replay_needed(Some(214), 214));
    assert!(batch_replay_needed(Some(215), 214));
    assert!(batch_replay_needed(None, 214));
}

// a mixed write sequence lands in shard batches with increasing
// indexes, and replays back in order through the batch codec
#[test]
fn test_writer_roundtrip() {
    let mut w: Writer<i32, i32> = Writer::new(1);
    for key in 1..=50i32 {
        let ix = w.set(key, key * 10).unwrap();
        assert_eq!(ix, key as u64);
    }
    for key in 1..=50i32 {
        let ix = w.set_cas(key, key * 100, key as u64).unwrap();
        assert_eq!(ix, 50 + key as u64);
    }
    for key in 1..=10i32 {
        let ix = w.delete(key).unwrap();
        assert_eq!(ix, 100 + key as u64);
    }
    let batches = w.take_batches();
    assert_eq!(batches.len(), 1);
    let batch = &batches[0];
    assert_eq!(batch.len(), 110);
    assert_eq!(batch.to_start_index(), Some(1));
    assert_eq!(batch.to_last_index(), Some(110));

    let mut buf = vec![];
    batch.encode_active(&mut buf).unwrap();
    let (decoded, _) = Batch::<i32, i32>::decode_active(&buf).unwrap();
    let entries = decoded.into_entries();
    assert_eq!(entries.len(), 110);
    for (i, e) in entries.iter().enumerate() {
        assert_eq!(e.to_index(), (i + 1) as u64);
    }
    match &entries[0] {
        Entry::Term { term, index, op } => {
            assert_eq!(*term, NIL_TERM);
            assert_eq!(*index, 1);
            match op {
                Op::SetKV { key: 1, value: 10 } => (),
                _ => unreachable!(),
            }
        }
        _ => unreachable!(),
    }
    match &entries[105] {
        Entry::Term { index, op, .. } => {
            assert_eq!(*index, 106);
            match op {
                Op::Delete { key: 6 } => (),
                _ => unreachable!(),
            }
        }
        _ => unreachable!(),
    }
}

// a batch whose bytes were tampered with fails the checksum check
#[test]
fn test_batch_corruption() {
    let mut batch: Batch<i32, i32> = Batch::new();
    batch.add_entry(Entry::new_term(Op::new_set(1, 2), NIL_TERM, 1));
    let mut buf = vec![];
    let n = batch.encode_active(&mut buf).unwrap();
    // flip one payload byte: the decoder must reject the batch
    buf[20] ^= 0xFF;
    assert!(Batch::<i32, i32>::decode_active(&buf).is_err());
    // truncation is rejected too
    assert!(Batch::<i32, i32>::decode_active(&buf[..n - 1]).is_err());
}

struct CollectingReplay {
    ops: Vec<(u64, Op<i32, i32>)>,
}

impl rdms::scans::Replay<i32, i32> for CollectingReplay {
    fn set_index(
        &mut self,
        key: i32,
        value: i32,
        index: u64,
    ) -> rdms::Result<rdms::entry::Entry<i32, i32>> {
        self.ops.push((index, Op::new_set(key, value)));
        Ok(rdms::entry::Entry::new(
            key,
            rdms::entry::Value::new_upsert_value(value, index),
        ))
    }

    fn set_cas_index(
        &mut self,
        key: i32,
        value: i32,
        cas: u64,
        index: u64,
    ) -> rdms::Result<rdms::entry::Entry<i32, i32>> {
        self.ops.push((index, Op::new_set_cas(key, value, cas)));
        Ok(rdms::entry::Entry::new(
            key,
            rdms::entry::Value::new_upsert_value(value, index),
        ))
    }

    fn delete_index(
        &mut self,
        key: i32,
        index: u64,
    ) -> rdms::Result<rdms::entry::Entry<i32, i32>> {
        self.ops.push((index, Op::new_delete(key)));
        Ok(rdms::entry::Entry::new(
            key,
            rdms::entry::Value::new_delete(index),
        ))
    }
}

// replay dispatches exactly the entries at or above the bound, in
// order, through the Replay callbacks
#[test]
fn test_replay_batches() {
    let mut w: Writer<i32, i32> = Writer::new(1);
    for key in 1..=20i32 {
        w.set(key, key * 10).unwrap();
    }
    for key in 1..=5i32 {
        w.delete(key).unwrap();
    }
    let batches = w.take_batches();

    // full replay
    let mut h = CollectingReplay { ops: vec![] };
    let mut round: Vec<Batch<i32, i32>> = Vec::new();
    for b in &batches {
        let mut buf = vec![];
        b.encode_active(&mut buf).unwrap();
        let (d, _) = Batch::<i32, i32>::decode_active(&buf).unwrap();
        round.push(d);
    }
    let n = replay_batches(round, &mut h, 1).unwrap();
    assert_eq!(n, 25);
    for (i, (ix, _)) in h.ops.iter().enumerate() {
        assert_eq!(*ix, (i + 1) as u64);
    }
    match &h.ops[0].1 {
        Op::SetKV { key: 1, value: 10 } => (),
        _ => unreachable!(),
    }
    match &h.ops[24].1 {
        Op::Delete { key: 5 } => (),
        _ => unreachable!(),
    }

    // replay from index 21: only the deletes
    let mut h = CollectingReplay { ops: vec![] };
    let mut round: Vec<Batch<i32, i32>> = Vec::new();
    for b in &batches {
        let mut buf = vec![];
        b.encode_active(&mut buf).unwrap();
        let (d, _) = Batch::<i32, i32>::decode_active(&buf).unwrap();
        round.push(d);
    }
    let n = replay_batches(round, &mut h, 21).unwrap();
    assert_eq!(n, 5);
    assert_eq!(h.ops[0].0, 21);
    match &h.ops[0].1 {
        Op::Delete { key: 1 } => (),
        _ => unreachable!(),
    }
}
