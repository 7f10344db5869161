use rdms::bubt_config::{read_meta_items, write_meta_items, Config, MARKER_BLOCK_SIZE};
use rdms::entry::{Entry, Value};
use rdms::robt_build::{Builder, Snap};
use rdms::robt_indx::{MBlock, ZBlock};
use rdms::Error;

#[test]
fn test_config_files() {
    let c = Config::new("/tmp", "users");
    assert_eq!(c.z_blocksize, MARKER_BLOCK_SIZE);
    assert_eq!(c.m_blocksize, MARKER_BLOCK_SIZE);
    let c = c.set_blocksize(8192, 4096, 4096);
    assert_eq!(c.m_blocksize, 8192);
    assert_eq!(c.z_blocksize, 4096);
    assert_eq!(Config::index_file("/tmp", "users"), "/tmp/bubt-users.indx");
    assert_eq!(Config::vlog_file("/tmp", "users"), "/tmp/bubt-users.vlog");
    let c = c.set_vlog(Some("/tmp/custom.vlog".to_string()), true);
    assert_eq!(c.vlog_file_w("/tmp", "users"), "/tmp/custom.vlog");
    let c = Config::new("/tmp", "users");
    assert_eq!(c.vlog_file_w("/tmp", "users"), "/tmp/bubt-users.vlog");
}

#[test]
fn test_meta_trailer_roundtrip() {
    let stats = b"some-stats".to_vec();
    let metadata = b"application metadata".to_vec();
    let mut buf = vec![0xEE; 100];
    let n = write_meta_items(&stats, &metadata, &mut buf).unwrap();
    assert_eq!(buf.len(), 100 + n);
    // trailer is a whole number of marker blocks
    assert_eq!(n % MARKER_BLOCK_SIZE, 0);
    let (stats2, metadata2, start) = read_meta_items(&buf).unwrap();
    assert_eq!(stats2, stats);
    assert_eq!(metadata2, metadata);
    assert_eq!(start, 100);
    // a corrupted marker block is rejected
    let mut bad = buf.clone();
    let blen = bad.len();
    bad[blen - 1] = 0;
    assert!(read_meta_items(&bad).is_err());
}

// Build/read round trip: keys 1..=300 with value key*10, 4 KiB
// blocks, no value-log; reading back yields the same 300 entries in
// order and every point lookup hits.
#[test]
fn test_bubt_roundtrip() {
    let config = Config::new("/tmp", "test-build").set_blocksize(4096, 4096, 4096);
    let mut builder: Builder<i64, i64> = Builder::initial(config).unwrap();
    for key in 1..=300i64 {
        let entry = Entry::new(key, Value::new_upsert_value(key * 10, key as u64));
        let skipped = builder.add_entry(entry).unwrap();
        assert!(!skipped);
    }
    let (index, vlog) = builder.build_end(b"meta".to_vec()).unwrap();
    assert!(vlog.is_empty());
    assert_eq!(index.len() % MARKER_BLOCK_SIZE, 0);

    let snap: Snap<i64, i64> = Snap::open_bytes(index, 4096, 4096).unwrap();
    assert_eq!(snap.to_metadata(), b"meta".to_vec());

    let entries = snap.iter().unwrap();
    assert_eq!(entries.len(), 300);
    for (i, e) in entries.iter().enumerate() {
        assert_eq!(e.to_key(), (i + 1) as i64);
        assert_eq!(e.to_native_value().unwrap(), ((i + 1) as i64) * 10);
        assert_eq!(e.to_seqno(), (i + 1) as u64);
    }

    for key in 1..=300i64 {
        let e = snap.get(&key).unwrap();
        assert_eq!(e.to_key(), key);
        assert_eq!(e.to_native_value().unwrap(), key * 10);
    }
    assert!(snap.get(&0).is_err());
    assert!(snap.get(&301).is_err());
}

// out-of-order keys fail the build
#[test]
fn test_bubt_monotone() {
    let config = Config::new("/tmp", "test-mono");
    let mut builder: Builder<i64, i64> = Builder::initial(config).unwrap();
    builder
        .add_entry(Entry::new(5, Value::new_upsert_value(50, 1)))
        .unwrap();
    assert!(builder
        .add_entry(Entry::new(5, Value::new_upsert_value(51, 2)))
        .is_err());
    assert!(builder
        .add_entry(Entry::new(3, Value::new_upsert_value(30, 3)))
        .is_err());
}

// tombstone purge at build: historical tombstones below the bound are
// skipped
#[test]
fn test_bubt_tomb_purge() {
    let config = Config::new("/tmp", "test-purge").set_tombstone_purge(10);
    let mut builder: Builder<i64, i64> = Builder::initial(config).unwrap();
    // a live entry stays
    let skipped = builder
        .add_entry(Entry::new(1, Value::new_upsert_value(10, 5)))
        .unwrap();
    assert!(!skipped);
    // an old tombstone goes
    let skipped = builder
        .add_entry(Entry::new(2, Value::new_delete(5)))
        .unwrap();
    assert!(skipped);
    // a recent tombstone stays
    let skipped = builder
        .add_entry(Entry::new(3, Value::new_delete(15)))
        .unwrap();
    assert!(!skipped);
}

#[test]
fn test_mblock_roundtrip_and_find() {
    let mut m = MBlock::new_encode(4096);
    m.insertz(&b"apple".to_vec(), 0).unwrap();
    m.insertm(&b"mango".to_vec(), 4096).unwrap();
    m.insertz(&b"zebra".to_vec(), 8192).unwrap();
    let block = m.finalize().unwrap();
    assert_eq!(block.len(), 4096);
    let d = MBlock::new_decode(block).unwrap();
    assert_eq!(d.len(), 3);
    let (k, f, z) = d.to_entry(1).unwrap();
    assert_eq!(k, b"mango".to_vec());
    assert_eq!(f, 4096);
    assert!(!z);
    // floor lookup: the last slot whose key is at or below the probe
    let (k, f, z) = d.find(&b"pear".to_vec()).unwrap();
    assert_eq!(k, b"mango".to_vec());
    assert_eq!(f, 4096);
    assert!(!z);
    // a probe below the first key falls back to the first slot
    let (k, _, _) = d.find(&b"aaa".to_vec()).unwrap();
    assert_eq!(k, b"apple".to_vec());
}

#[test]
fn test_mblock_overflow_variant() {
    let mut m = MBlock::new_encode(64);
    m.insertz(&vec![7u8; 30], 0).unwrap();
    match m.insertz(&vec![8u8; 30], 4096) {
        Err(Error::MBlockOverflow(_)) => (),
        r => panic!("expected an overflow error, got {:?}", r),
    }
}

#[test]
fn test_zblock_chunks_roundtrip() {
    let mut z = ZBlock::new_encode(4096);
    z.insert_chunk(&b"k1".to_vec(), vec![1, 2, 3]).unwrap();
    z.insert_chunk(&b"k2".to_vec(), vec![4, 5]).unwrap();
    // the first insert records the block's first key
    assert_eq!(z.as_first_key().unwrap().as_slice(), b"k1");
    let block = z.finalize().unwrap();
    assert_eq!(block.len(), 4096);
    // count, offset table (head is 4 + 4 * 2 = 12), chunks, padding
    assert_eq!(&block[0..4], &[0, 0, 0, 2]);
    assert_eq!(&block[4..8], &[0, 0, 0, 12]);
    assert_eq!(&block[8..12], &[0, 0, 0, 15]);
    assert_eq!(&block[12..15], &[1, 2, 3]);
    assert_eq!(&block[15..17], &[4, 5]);
    assert!(block[17..].iter().all(|b| *b == 0));
}

#[test]
fn test_zblock_overflow_variant() {
    let mut z = ZBlock::new_encode(32);
    z.insert_chunk(&b"k".to_vec(), vec![0u8; 10]).unwrap();
    match z.insert_chunk(&b"k2".to_vec(), vec![0u8; 10]) {
        Err(Error::ZBlockOverflow(_)) => (),
        r => panic!("expected an overflow error, got {:?}", r),
    }
}
