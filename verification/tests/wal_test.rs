use rdms::dlog_entry::{Entry, Op, OpType};

#[test]
fn test_entry() {
    let op: Op<i32, i32> = Op::new_set(10, 20);
    let _entry = Entry::new_term(op, 23, 45);
}

#[test]
fn test_entry_term() {
    let mut buf = vec![];
    let r_op: Op<i32, i32> = Op::new_set(10, 20);
    let (r_term, r_index) = (23, 45);
    let n = Entry::encode_term(&r_op, r_term, r_index, &mut buf).unwrap();
    assert_eq!(n, 48);

    let (op, term, index, m) = Entry::<i32, i32>::decode_term(&buf).unwrap();
    assert_eq!(m, 48);
    match op {
        Op::SetKV { key: 10, value: 20 } => (),
        _ => unreachable!(),
    }
    assert_eq!(r_term, term);
    assert_eq!(r_index, index);
}

#[test]
fn test_entry_client() {
    let mut buf = vec![];
    let r_op: Op<i32, i32> = Op::new_set(10, 20);
    let (r_term, r_index, r_id, r_ceqno) = (23, 45, 54, 65);
    let n = Entry::encode_client(&r_op, r_term, r_index, r_id, r_ceqno, &mut buf).unwrap();
    assert_eq!(n, 64);

    let (op, term, index, id, ceqno, m) = Entry::<i32, i32>::decode_client(&buf).unwrap();
    assert_eq!(m, 64);
    match op {
        Op::SetKV { key: 10, value: 20 } => (),
        _ => unreachable!(),
    }
    assert_eq!(r_term, term);
    assert_eq!(r_index, index);
    assert_eq!(r_id, id);
    assert_eq!(r_ceqno, ceqno);
}

#[test]
fn test_op_type() {
    let op_type: OpType = OpType::from_tag(1).unwrap();
    assert_eq!(op_type, OpType::SetKV);
    let op_type: OpType = OpType::from_tag(2).unwrap();
    assert_eq!(op_type, OpType::SetCAS);
    let op_type: OpType = OpType::from_tag(3).unwrap();
    assert_eq!(op_type, OpType::Delete);
}

#[test]
fn test_op() {
    let mut out = vec![];

    let op: Op<i32, i32> = Op::new_set(34, 43);
    op.encode(&mut out).unwrap();
    assert_eq!(Op::<i32, i32>::op_type(&out).unwrap(), OpType::SetKV);
    let (res, n) = Op::<i32, i32>::decode(&out).expect("op-set decode failed");
    assert_eq!(n, 24);
    match res {
        Op::SetKV { key: 34, value: 43 } => (),
        _ => unreachable!(),
    }

    let op: Op<i32, i32> = Op::new_set_cas(-34, -43, 100);
    out.resize(0, 0);
    op.encode(&mut out).unwrap();
    assert_eq!(Op::<i32, i32>::op_type(&out).unwrap(), OpType::SetCAS);
    let (res, n) = Op::<i32, i32>::decode(&out).expect("op-set-cas decode failed");
    assert_eq!(n, 32);
    match res {
        Op::SetCAS {
            key: -34,
            value: -43,
            cas: 100,
        } => (),
        _ => unreachable!(),
    }

    let op: Op<i32, i32> = Op::new_delete(34);
    out.resize(0, 0);
    op.encode(&mut out).unwrap();
    assert_eq!(Op::<i32, i32>::op_type(&out).unwrap(), OpType::Delete);
    let (res, n) = Op::<i32, i32>::decode(&out).expect("op-delete decode failed");
    assert_eq!(n, 12);
    match res {
        Op::Delete { key: 34 } => (),
        _ => unreachable!(),
    }
}

// decoders reject malformed buffers
#[test]
fn test_decode_failures() {
    // an unknown op tag
    let mut buf = vec![];
    let op: Op<i32, i32> = Op::new_set(1, 2);
    op.encode(&mut buf).unwrap();
    buf[3] = 9;
    assert!(Op::<i32, i32>::decode(&buf).is_err());
    // a truncated buffer
    assert!(Op::<i32, i32>::decode(&buf[..4]).is_err());
    assert!(Entry::<i32, i32>::decode_term(&buf[..4]).is_err());
}

#[test]
fn test_should_rotate_journal() {
    assert!(!rdms::wal::should_rotate_journal(30_000, 10_000, 40_000));
    assert!(rdms::wal::should_rotate_journal(30_001, 10_000, 40_000));
    assert!(rdms::wal::should_rotate_journal(0, 40_001, 40_000));
    assert!(!rdms::wal::should_rotate_journal(0, 0, 0));
}
