//! Write-ahead-log records: the tagged operation (`set`, `set-cas`,
//! `delete`) and the log entry that frames it (`term` or `client`),
//! with their big-endian byte formats.
//!
//! Operation layout: the first word holds a 24-bit op-type in its
//! high half and the 32-bit key length in its low half; `set` and
//! `set-cas` follow with a 64-bit value length, `set-cas` adds the
//! 64-bit cas; key bytes then value bytes close the record.

use vstd::prelude::*;

use crate::base::Serialize;
use crate::error::Error;
use crate::util::{append_u64, read_u64, u64_bytes, u64_of_bytes, lemma_u64_bytes_id};
use crate::Result;

verus! {

/// Tag of a log operation.
#[derive(Debug, PartialEq, Eq, Structural)]
pub enum OpType {
    SetKV,
    SetCAS,
    Delete,
}

impl OpType {
    /// The operation kind carried by a numeric tag; tags other than
    /// 1, 2, 3 have none.
    pub open spec fn of_tag_spec(tag: u64) -> Option<OpType> {
        if tag == 1 {
            Some(OpType::SetKV)
        } else if tag == 2 {
            Some(OpType::SetCAS)
        } else if tag == 3 {
            Some(OpType::Delete)
        } else {
            None
        }
    }

    /// Decode a numeric tag.
    pub fn from_tag(tag: u64) -> (r: Result<OpType>)
        ensures
            match r {
                Ok(t) => OpType::of_tag_spec(tag) == Some(t),
                Err(_) => OpType::of_tag_spec(tag) is None,
            },
    {
        if tag == 1 {
            Ok(OpType::SetKV)
        } else if tag == 2 {
            Ok(OpType::SetCAS)
        } else if tag == 3 {
            Ok(OpType::Delete)
        } else {
            Err(Error::DecodeFail(8))
        }
    }
}

/// A log operation on the host index.
pub enum Op<K, V> {
    SetKV { key: K, value: V },
    SetCAS { key: K, value: V, cas: u64 },
    Delete { key: K },
}

/// The view of an operation.
pub enum OpView<KT, VT> {
    SetKV { key: KT, value: VT },
    SetCAS { key: KT, value: VT, cas: u64 },
    Delete { key: KT },
}

impl<K: View, V: View> DeepView for Op<K, V> {
    type V = OpView<<K as View>::V, <V as View>::V>;

    open spec fn deep_view(&self) -> OpView<<K as View>::V, <V as View>::V> {
        self@
    }
}

impl<K: View, V: View> View for Op<K, V> {
    type V = OpView<<K as View>::V, <V as View>::V>;

    open spec fn view(&self) -> OpView<<K as View>::V, <V as View>::V> {
        match self {
            Op::SetKV { key, value } => OpView::SetKV { key: key@, value: value@ },
            Op::SetCAS { key, value, cas } => OpView::SetCAS {
                key: key@,
                value: value@,
                cas: *cas,
            },
            Op::Delete { key } => OpView::Delete { key: key@ },
        }
    }
}

// ------------------------------------------------------------ op format

/// Bytes of a `set` operation with the given key and value bytes.
pub open spec fn set_bytes(kb: Seq<u8>, vb: Seq<u8>) -> Seq<u8> {
    u64_bytes(((1u64 << 32) | (kb.len() as u64)) as u64) + u64_bytes(vb.len() as u64) + kb + vb
}

/// Bytes of a `set-cas` operation.
pub open spec fn set_cas_bytes(kb: Seq<u8>, vb: Seq<u8>, cas: u64) -> Seq<u8> {
    u64_bytes(((2u64 << 32) | (kb.len() as u64)) as u64) + u64_bytes(vb.len() as u64) + u64_bytes(
        cas,
    ) + kb + vb
}

/// Bytes of a `delete` operation.
pub open spec fn delete_bytes(kb: Seq<u8>) -> Seq<u8> {
    u64_bytes(((3u64 << 32) | (kb.len() as u64)) as u64) + kb
}

/// The bytes an operation encodes to.
pub open spec fn op_bytes<K: Serialize, V: Serialize>(
    op: OpView<<K as View>::V, <V as View>::V>,
) -> Seq<u8> {
    match op {
        OpView::SetKV { key, value } => set_bytes(K::ser_spec(key), V::ser_spec(value)),
        OpView::SetCAS { key, value, cas } => set_cas_bytes(
            K::ser_spec(key),
            V::ser_spec(value),
            cas,
        ),
        OpView::Delete { key } => delete_bytes(K::ser_spec(key)),
    }
}

/// Whether the operation's key and value can be encoded.
pub open spec fn op_ser_ok<K: Serialize, V: Serialize>(
    op: OpView<<K as View>::V, <V as View>::V>,
) -> bool {
    match op {
        OpView::SetKV { key, value } => K::ser_ok(key) && V::ser_ok(value),
        OpView::SetCAS { key, value, .. } => K::ser_ok(key) && V::ser_ok(value),
        OpView::Delete { key } => K::ser_ok(key),
    }
}

/// Whether the key and value of an operation fit the format's length
/// fields.
pub open spec fn op_fits<K: Serialize, V: Serialize>(
    op: OpView<<K as View>::V, <V as View>::V>,
) -> bool {
    match op {
        OpView::SetKV { key, value } => K::ser_spec(key).len() <= 0xFFFFFFFF && V::ser_spec(
            value,
        ).len() <= u64::MAX && K::ser_spec(key).len() + V::ser_spec(value).len() + 16
            <= usize::MAX,
        OpView::SetCAS { key, value, cas } => K::ser_spec(key).len() <= 0xFFFFFFFF && V::ser_spec(
            value,
        ).len() <= u64::MAX && K::ser_spec(key).len() + V::ser_spec(value).len() + 24
            <= usize::MAX,
        OpView::Delete { key } => K::ser_spec(key).len() <= 0xFFFFFFFF && K::ser_spec(key).len()
            + 8 <= usize::MAX,
    }
}

/// What a buffer prefix parses to as an operation: the operation view
/// and the bytes consumed.
pub open spec fn parse_op<K: Serialize, V: Serialize>(b: Seq<u8>) -> Option<
    (OpView<<K as View>::V, <V as View>::V>, int),
> {
    if b.len() < 8 {
        None
    } else {
        let hdr = u64_of_bytes(b.subrange(0, 8));
        let tag = (hdr >> 32) & 0x00FFFFFF;
        let klen = (hdr & 0xFFFFFFFF) as int;
        if tag == 1 {
            if b.len() < 16 || 16 + klen + (u64_of_bytes(b.subrange(8, 16)) as int) > b.len() {
                None
            } else {
                let vlen = u64_of_bytes(b.subrange(8, 16)) as int;
                match (
                    K::deser_spec(b.subrange(16, 16 + klen)),
                    V::deser_spec(b.subrange(16 + klen, 16 + klen + vlen)),
                ) {
                    (Some(k), Some(v)) => Some(
                        (OpView::SetKV { key: k, value: v }, 16 + klen + vlen),
                    ),
                    _ => None,
                }
            }
        } else if tag == 2 {
            if b.len() < 24 || 24 + klen + (u64_of_bytes(b.subrange(8, 16)) as int) > b.len() {
                None
            } else {
                let vlen = u64_of_bytes(b.subrange(8, 16)) as int;
                let cas = u64_of_bytes(b.subrange(16, 24));
                match (
                    K::deser_spec(b.subrange(24, 24 + klen)),
                    V::deser_spec(b.subrange(24 + klen, 24 + klen + vlen)),
                ) {
                    (Some(k), Some(v)) => Some(
                        (OpView::SetCAS { key: k, value: v, cas }, 24 + klen + vlen),
                    ),
                    _ => None,
                }
            }
        } else if tag == 3 {
            if 8 + klen > b.len() {
                None
            } else {
                match K::deser_spec(b.subrange(8, 8 + klen)) {
                    Some(k) => Some((OpView::Delete { key: k }, 8 + klen)),
                    None => None,
                }
            }
        } else {
            None
        }
    }
}

impl<K: Serialize, V: Serialize> Op<K, V> {
    /// A `set` operation.
    pub fn new_set(key: K, value: V) -> (r: Op<K, V>)
        ensures
            r@ == (OpView::SetKV { key: key@, value: value@ }),
    {
        Op::SetKV { key, value }
    }

    /// A `set-cas` operation.
    pub fn new_set_cas(key: K, value: V, cas: u64) -> (r: Op<K, V>)
        ensures
            r@ == (OpView::SetCAS { key: key@, value: value@, cas }),
    {
        Op::SetCAS { key, value, cas }
    }

    /// A `delete` operation.
    pub fn new_delete(key: K) -> (r: Op<K, V>)
        ensures
            r@ == (OpView::<<K as View>::V, <V as View>::V>::Delete { key: key@ }),
    {
        Op::Delete { key }
    }

    /// The operation tag at the head of an encoded buffer.
    pub fn op_type(buf: &[u8]) -> (r: Result<OpType>)
        ensures
            match r {
                Ok(t) => buf@.len() >= 8 && OpType::of_tag_spec(
                    (u64_of_bytes(buf@.subrange(0, 8)) >> 32) & 0x00FFFFFF,
                ) == Some(t),
                Err(_) => buf@.len() < 8 || OpType::of_tag_spec(
                    (u64_of_bytes(buf@.subrange(0, 8)) >> 32) & 0x00FFFFFF,
                ) is None,
            },
    {
        if buf.len() < 8 {
            return Err(Error::DecodeFail(8));
        }
        let hdr = read_u64(buf, 0);
        OpType::from_tag((hdr >> 32) & 0x00FFFFFF)
    }

    /// Append this operation's encoding to `buf`; return the bytes
    /// added.
    pub fn encode(&self, buf: &mut Vec<u8>) -> (r: Result<usize>)
        ensures
            r matches Ok(n) ==> op_fits::<K, V>(self@) && final(buf)@ == old(buf)@ + op_bytes::<
                K,
                V,
            >(self@) && n == op_bytes::<K, V>(self@).len(),
            r is Ok <==> op_ser_ok::<K, V>(self@) && op_fits::<K, V>(self@),
    {
        match self {
            Op::SetKV { key, value } => Self::encode_set(buf, key, value),
            Op::SetCAS { key, value, cas } => Self::encode_set_cas(buf, key, value, *cas),
            Op::Delete { key } => Self::encode_delete(buf, key),
        }
    }

    /// Encode a `set` operation.
    pub fn encode_set(buf: &mut Vec<u8>, key: &K, value: &V) -> (r: Result<usize>)
        ensures
            r matches Ok(n) ==> op_fits::<K, V>(
                OpView::<<K as View>::V, <V as View>::V>::SetKV { key: key@, value: value@ },
            ) && final(buf)@ == old(buf)@ + set_bytes(K::ser_spec(key@), V::ser_spec(value@)) && n
                == set_bytes(K::ser_spec(key@), V::ser_spec(value@)).len(),
            r is Ok <==> K::ser_ok(key@) && V::ser_ok(value@) && op_fits::<K, V>(
                OpView::<<K as View>::V, <V as View>::V>::SetKV { key: key@, value: value@ },
            ),
    {
        let mut kb: Vec<u8> = Vec::new();
        let kn = match key.encode(&mut kb) {
            Ok(n) => n,
            Err(_) => {
                return Err(Error::DecodeFail(0));
            },
        };
        let mut vb: Vec<u8> = Vec::new();
        let vn = match value.encode(&mut vb) {
            Ok(n) => n,
            Err(_) => {
                return Err(Error::DecodeFail(0));
            },
        };
        if (kb.len() as u64) > 0xFFFFFFFFu64 {
            return Err(Error::DecodeFail(0));
        }
        if kb.len() > usize::MAX - 16 || vb.len() > usize::MAX - 16 - kb.len() {
            return Err(Error::DecodeFail(0));
        }
        append_u64(buf, (1u64 << 32) | (kb.len() as u64));
        append_u64(buf, vb.len() as u64);
        append_bytes(buf, &kb);
        append_bytes(buf, &vb);
        proof {
            assert(final(buf)@ =~= old(buf)@ + set_bytes(K::ser_spec(key@), V::ser_spec(value@)));
        }
        Ok(16 + kb.len() + vb.len())
    }

    /// Encode a `set-cas` operation.
    pub fn encode_set_cas(buf: &mut Vec<u8>, key: &K, value: &V, cas: u64) -> (r: Result<usize>)
        ensures
            r matches Ok(n) ==> op_fits::<K, V>(
                OpView::<<K as View>::V, <V as View>::V>::SetCAS {
                    key: key@,
                    value: value@,
                    cas,
                },
            ) && final(buf)@ == old(buf)@ + set_cas_bytes(
                K::ser_spec(key@),
                V::ser_spec(value@),
                cas,
            ) && n == set_cas_bytes(K::ser_spec(key@), V::ser_spec(value@), cas).len(),
            r is Ok <==> K::ser_ok(key@) && V::ser_ok(value@) && op_fits::<K, V>(
                OpView::<<K as View>::V, <V as View>::V>::SetCAS {
                    key: key@,
                    value: value@,
                    cas,
                },
            ),
    {
        let mut kb: Vec<u8> = Vec::new();
        let kn = match key.encode(&mut kb) {
            Ok(n) => n,
            Err(_) => {
                return Err(Error::DecodeFail(0));
            },
        };
        let mut vb: Vec<u8> = Vec::new();
        let vn = match value.encode(&mut vb) {
            Ok(n) => n,
            Err(_) => {
                return Err(Error::DecodeFail(0));
            },
        };
        if (kb.len() as u64) > 0xFFFFFFFFu64 {
            return Err(Error::DecodeFail(0));
        }
        if kb.len() > usize::MAX - 24 || vb.len() > usize::MAX - 24 - kb.len() {
            return Err(Error::DecodeFail(0));
        }
        append_u64(buf, (2u64 << 32) | (kb.len() as u64));
        append_u64(buf, vb.len() as u64);
        append_u64(buf, cas);
        append_bytes(buf, &kb);
        append_bytes(buf, &vb);
        proof {
            assert(final(buf)@ =~= old(buf)@ + set_cas_bytes(
                K::ser_spec(key@),
                V::ser_spec(value@),
                cas,
            ));
        }
        Ok(24 + kb.len() + vb.len())
    }

    /// Encode a `delete` operation.
    pub fn encode_delete(buf: &mut Vec<u8>, key: &K) -> (r: Result<usize>)
        ensures
            r matches Ok(n) ==> op_fits::<K, V>(
                OpView::<<K as View>::V, <V as View>::V>::Delete { key: key@ },
            ) && final(buf)@ == old(buf)@ + delete_bytes(K::ser_spec(key@)) && n == delete_bytes(
                K::ser_spec(key@),
            ).len(),
            r is Ok <==> K::ser_ok(key@) && op_fits::<K, V>(
                OpView::<<K as View>::V, <V as View>::V>::Delete { key: key@ },
            ),
    {
        let mut kb: Vec<u8> = Vec::new();
        let kn = match key.encode(&mut kb) {
            Ok(n) => n,
            Err(_) => {
                return Err(Error::DecodeFail(0));
            },
        };
        if (kb.len() as u64) > 0xFFFFFFFFu64 {
            return Err(Error::DecodeFail(0));
        }
        if kb.len() > usize::MAX - 8 {
            return Err(Error::DecodeFail(0));
        }
        append_u64(buf, (3u64 << 32) | (kb.len() as u64));
        append_bytes(buf, &kb);
        proof {
            assert(final(buf)@ =~= old(buf)@ + delete_bytes(K::ser_spec(key@)));
        }
        Ok(8 + kb.len())
    }

    /// Decode an operation from the head of `buf`; return it with
    /// the bytes consumed.
    pub fn decode(buf: &[u8]) -> (r: Result<(Op<K, V>, usize)>)
        ensures
            match r {
                Ok(p) => parse_op::<K, V>(buf@) == Some((p.0@, p.1 as int)),
                Err(_) => parse_op::<K, V>(buf@) is None,
            },
    {
        if buf.len() < 8 {
            return Err(Error::DecodeFail(8));
        }
        let hdr = read_u64(buf, 0);
        let tag = (hdr >> 32) & 0x00FFFFFF;
        let klen_u = hdr & 0xFFFFFFFF;
        proof {
            assert(klen_u <= 0xFFFFFFFFu64) by (bit_vector)
                requires
                    klen_u == hdr & 0xFFFFFFFF,
            ;
        }
        let klen = klen_u as usize;
        if tag == 1 {
            if buf.len() < 16 {
                return Err(Error::DecodeFail(16));
            }
            let vlen_u = read_u64(buf, 8);
            if vlen_u > (usize::MAX as u64) - 16 {
                return Err(Error::DecodeFail(16));
            }
            let vlen = vlen_u as usize;
            if (klen as u64) > (usize::MAX as u64) - 16 - vlen_u || 16 + klen + vlen > buf.len() {
                return Err(Error::DecodeFail(16));
            }
            let kb = vstd::slice::slice_subrange(buf, 16, 16 + klen);
            let vb = vstd::slice::slice_subrange(buf, 16 + klen, 16 + klen + vlen);
            let key = match K::decode_new(kb) {
                Ok(k) => k,
                Err(e) => {
                    return Err(e);
                },
            };
            let value = match V::decode_new(vb) {
                Ok(v) => v,
                Err(e) => {
                    return Err(e);
                },
            };
            Ok((Op::SetKV { key, value }, 16 + klen + vlen))
        } else if tag == 2 {
            if buf.len() < 24 {
                return Err(Error::DecodeFail(24));
            }
            let vlen_u = read_u64(buf, 8);
            let cas = read_u64(buf, 16);
            if vlen_u > (usize::MAX as u64) - 24 {
                return Err(Error::DecodeFail(24));
            }
            let vlen = vlen_u as usize;
            if (klen as u64) > (usize::MAX as u64) - 24 - vlen_u || 24 + klen + vlen > buf.len() {
                return Err(Error::DecodeFail(24));
            }
            let kb = vstd::slice::slice_subrange(buf, 24, 24 + klen);
            let vb = vstd::slice::slice_subrange(buf, 24 + klen, 24 + klen + vlen);
            let key = match K::decode_new(kb) {
                Ok(k) => k,
                Err(e) => {
                    return Err(e);
                },
            };
            let value = match V::decode_new(vb) {
                Ok(v) => v,
                Err(e) => {
                    return Err(e);
                },
            };
            Ok((Op::SetCAS { key, value, cas }, 24 + klen + vlen))
        } else if tag == 3 {
            if (klen as u64) > (usize::MAX as u64) - 8 || 8 + klen > buf.len() {
                return Err(Error::DecodeFail(8));
            }
            let kb = vstd::slice::slice_subrange(buf, 8, 8 + klen);
            let key = match K::decode_new(kb) {
                Ok(k) => k,
                Err(e) => {
                    return Err(e);
                },
            };
            Ok((Op::Delete { key }, 8 + klen))
        } else {
            Err(Error::DecodeFail(8))
        }
    }
}

/// Append all of `src` to `buf`.
pub fn append_bytes(buf: &mut Vec<u8>, src: &Vec<u8>)
    ensures
        final(buf)@ == old(buf)@ + src@,
{
    let mut i: usize = 0;
    while i < src.len()
        invariant
            i <= src@.len(),
            buf@ == old(buf)@ + src@.subrange(0, i as int),
        decreases src@.len() - i,
    {
        buf.push(src[i]);
        proof {
            assert(buf@ =~= old(buf)@ + src@.subrange(0, i + 1));
        }
        i = i + 1;
    }
    proof {
        assert(old(buf)@ + src@.subrange(0, src@.len() as int) =~= old(buf)@ + src@);
    }
}

/// Encoding then decoding an operation gives it back.
pub proof fn lemma_op_roundtrip<K: Serialize, V: Serialize>(
    op: OpView<<K as View>::V, <V as View>::V>,
)
    requires
        op_fits::<K, V>(op),
    ensures
        parse_op::<K, V>(op_bytes::<K, V>(op)) == Some((op, op_bytes::<K, V>(op).len() as int)),
{
    let b = op_bytes::<K, V>(op);
    match op {
        OpView::SetKV { key, value } => {
            let kb = K::ser_spec(key);
            let vb = V::ser_spec(value);
            let hdr0 = ((1u64 << 32) | (kb.len() as u64)) as u64;
            assert(b.subrange(0, 8) =~= u64_bytes(hdr0));
            lemma_u64_bytes_id(hdr0);
            let kl = kb.len() as u64;
            assert(((hdr0 >> 32) & 0x00FFFFFF) == 1 && (hdr0 & 0xFFFFFFFF) == kl)
                by (bit_vector)
                requires
                    hdr0 == ((1u64 << 32) | kl) && kl <= 0xFFFFFFFFu64,
            ;
            assert(b.subrange(8, 16) =~= u64_bytes(vb.len() as u64));
            lemma_u64_bytes_id(vb.len() as u64);
            assert(b.subrange(16, 16 + kb.len() as int) =~= kb);
            assert(b.subrange(16 + kb.len() as int, 16 + kb.len() as int + vb.len() as int) =~= vb);
            K::lemma_ser_deser(key);
            V::lemma_ser_deser(value);
        },
        OpView::SetCAS { key, value, cas } => {
            let kb = K::ser_spec(key);
            let vb = V::ser_spec(value);
            let hdr0 = ((2u64 << 32) | (kb.len() as u64)) as u64;
            assert(b.subrange(0, 8) =~= u64_bytes(hdr0));
            lemma_u64_bytes_id(hdr0);
            let kl = kb.len() as u64;
            assert(((hdr0 >> 32) & 0x00FFFFFF) == 2 && (hdr0 & 0xFFFFFFFF) == kl)
                by (bit_vector)
                requires
                    hdr0 == ((2u64 << 32) | kl) && kl <= 0xFFFFFFFFu64,
            ;
            assert(b.subrange(8, 16) =~= u64_bytes(vb.len() as u64));
            lemma_u64_bytes_id(vb.len() as u64);
            assert(b.subrange(16, 24) =~= u64_bytes(cas));
            lemma_u64_bytes_id(cas);
            assert(b.subrange(24, 24 + kb.len() as int) =~= kb);
            assert(b.subrange(24 + kb.len() as int, 24 + kb.len() as int + vb.len() as int) =~= vb);
            K::lemma_ser_deser(key);
            V::lemma_ser_deser(value);
        },
        OpView::Delete { key } => {
            let kb = K::ser_spec(key);
            let hdr0 = ((3u64 << 32) | (kb.len() as u64)) as u64;
            assert(b.subrange(0, 8) =~= u64_bytes(hdr0));
            lemma_u64_bytes_id(hdr0);
            let kl = kb.len() as u64;
            assert(((hdr0 >> 32) & 0x00FFFFFF) == 3 && (hdr0 & 0xFFFFFFFF) == kl)
                by (bit_vector)
                requires
                    hdr0 == ((3u64 << 32) | kl) && kl <= 0xFFFFFFFFu64,
            ;
            assert(b.subrange(8, 8 + kb.len() as int) =~= kb);
            K::lemma_ser_deser(key);
        },
    }
}

// ---------------------------------------------------------- log entries

/// Kind of a log entry.
#[derive(Debug, PartialEq, Eq, Structural)]
pub enum EntryType {
    Term,
    Client,
}

/// A log entry: an operation framed with its term and monotonic
/// index, optionally carrying the client that issued it.
pub enum Entry<K, V> {
    Term { term: u64, index: u64, op: Op<K, V> },
    Client { term: u64, index: u64, id: u64, ceqno: u64, op: Op<K, V> },
}

/// The view of a log entry.
pub enum LogEntryView<KT, VT> {
    Term { term: u64, index: u64, op: OpView<KT, VT> },
    Client { term: u64, index: u64, id: u64, ceqno: u64, op: OpView<KT, VT> },
}

impl<K: View, V: View> DeepView for Entry<K, V> {
    type V = LogEntryView<<K as View>::V, <V as View>::V>;

    open spec fn deep_view(&self) -> LogEntryView<<K as View>::V, <V as View>::V> {
        self@
    }
}

impl<K: View, V: View> View for Entry<K, V> {
    type V = LogEntryView<<K as View>::V, <V as View>::V>;

    open spec fn view(&self) -> LogEntryView<<K as View>::V, <V as View>::V> {
        match self {
            Entry::Term { term, index, op } => LogEntryView::Term {
                term: *term,
                index: *index,
                op: op@,
            },
            Entry::Client { term, index, id, ceqno, op } => LogEntryView::Client {
                term: *term,
                index: *index,
                id: *id,
                ceqno: *ceqno,
                op: op@,
            },
        }
    }
}

/// Whether a log entry's operation encodes and the framed record
/// fits the machine word.
pub open spec fn entry_fits<K: Serialize, V: Serialize>(
    e: LogEntryView<<K as View>::V, <V as View>::V>,
) -> bool {
    match e {
        LogEntryView::Term { op, .. } => op_ser_ok::<K, V>(op) && op_fits::<K, V>(op)
            && op_bytes::<K, V>(op).len() + 24 <= usize::MAX,
        LogEntryView::Client { op, .. } => op_ser_ok::<K, V>(op) && op_fits::<K, V>(op)
            && op_bytes::<K, V>(op).len() + 40 <= usize::MAX,
    }
}

/// The bytes a log entry encodes to.
pub open spec fn entry_bytes<K: Serialize, V: Serialize>(
    e: LogEntryView<<K as View>::V, <V as View>::V>,
) -> Seq<u8> {
    match e {
        LogEntryView::Term { term, index, op } => u64_bytes(1) + u64_bytes(term) + u64_bytes(
            index,
        ) + op_bytes::<K, V>(op),
        LogEntryView::Client { term, index, id, ceqno, op } => u64_bytes(2) + u64_bytes(term)
            + u64_bytes(index) + u64_bytes(id) + u64_bytes(ceqno) + op_bytes::<K, V>(op),
    }
}

/// What a buffer prefix parses to as a log entry.
pub open spec fn parse_entry<K: Serialize, V: Serialize>(b: Seq<u8>) -> Option<
    (LogEntryView<<K as View>::V, <V as View>::V>, int),
> {
    if b.len() < 8 {
        None
    } else {
        let tag = u64_of_bytes(b.subrange(0, 8)) & 0xFF;
        if tag == 1 {
            if b.len() < 24 {
                None
            } else {
                let term = u64_of_bytes(b.subrange(8, 16));
                let index = u64_of_bytes(b.subrange(16, 24));
                match parse_op::<K, V>(b.skip(24)) {
                    Some(p) => Some((LogEntryView::Term { term, index, op: p.0 }, 24 + p.1)),
                    None => None,
                }
            }
        } else if tag == 2 {
            if b.len() < 40 {
                None
            } else {
                let term = u64_of_bytes(b.subrange(8, 16));
                let index = u64_of_bytes(b.subrange(16, 24));
                let id = u64_of_bytes(b.subrange(24, 32));
                let ceqno = u64_of_bytes(b.subrange(32, 40));
                match parse_op::<K, V>(b.skip(40)) {
                    Some(p) => Some(
                        (LogEntryView::Client { term, index, id, ceqno, op: p.0 }, 40 + p.1),
                    ),
                    None => None,
                }
            }
        } else {
            None
        }
    }
}

impl<K: Serialize, V: Serialize> Entry<K, V> {
    /// A `term` entry.
    pub fn new_term(op: Op<K, V>, term: u64, index: u64) -> (r: Entry<K, V>)
        ensures
            r@ == (LogEntryView::Term { term, index, op: op@ }),
    {
        Entry::Term { term, index, op }
    }

    /// A `client` entry.
    pub fn new_client(op: Op<K, V>, term: u64, index: u64, id: u64, ceqno: u64) -> (r: Entry<
        K,
        V,
    >)
        ensures
            r@ == (LogEntryView::Client { term, index, id, ceqno, op: op@ }),
    {
        Entry::Client { term, index, id, ceqno, op }
    }

    /// The kind tag at the head of an encoded buffer.
    pub fn entry_type(buf: &[u8]) -> (r: Result<EntryType>)
        ensures
            match r {
                Ok(t) => buf@.len() >= 8 && ((u64_of_bytes(buf@.subrange(0, 8)) & 0xFF == 1 && t
                    == EntryType::Term) || (u64_of_bytes(buf@.subrange(0, 8)) & 0xFF == 2 && t
                    == EntryType::Client)),
                Err(_) => buf@.len() < 8 || (u64_of_bytes(buf@.subrange(0, 8)) & 0xFF != 1
                    && u64_of_bytes(buf@.subrange(0, 8)) & 0xFF != 2),
            },
    {
        if buf.len() < 8 {
            return Err(Error::DecodeFail(8));
        }
        let hdr = read_u64(buf, 0);
        let tag = hdr & 0xFF;
        if tag == 1 {
            Ok(EntryType::Term)
        } else if tag == 2 {
            Ok(EntryType::Client)
        } else {
            Err(Error::DecodeFail(8))
        }
    }

    /// The monotonic index of this entry.
    pub fn to_index(&self) -> (r: u64)
        ensures
            r == match self@ {
                LogEntryView::Term { index, .. } => index,
                LogEntryView::Client { index, .. } => index,
            },
    {
        match self {
            Entry::Term { index, .. } => *index,
            Entry::Client { index, .. } => *index,
        }
    }

    /// Unwrap the operation.
    pub fn into_op(self) -> (r: Op<K, V>)
        ensures
            r@ == match self@ {
                LogEntryView::Term { op, .. } => op,
                LogEntryView::Client { op, .. } => op,
            },
    {
        match self {
            Entry::Term { op, .. } => op,
            Entry::Client { op, .. } => op,
        }
    }

    /// Append this entry's encoding to `buf`; return the bytes added.
    pub fn encode(&self, buf: &mut Vec<u8>) -> (r: Result<usize>)
        ensures
            r matches Ok(n) ==> final(buf)@ == old(buf)@ + entry_bytes::<K, V>(self@) && n
                == entry_bytes::<K, V>(self@).len(),
            r is Err ==> final(buf)@ == old(buf)@,
            r is Ok <==> entry_fits::<K, V>(self@),
    {
        match self {
            Entry::Term { term, index, op } => Self::encode_term(op, *term, *index, buf),
            Entry::Client { term, index, id, ceqno, op } => Self::encode_client(
                op,
                *term,
                *index,
                *id,
                *ceqno,
                buf,
            ),
        }
    }

    /// Encode a `term` entry.
    pub fn encode_term(op: &Op<K, V>, term: u64, index: u64, buf: &mut Vec<u8>) -> (r: Result<
        usize,
    >)
        ensures
            r matches Ok(n) ==> final(buf)@ == old(buf)@ + entry_bytes::<K, V>(
                LogEntryView::Term { term, index, op: op@ },
            ) && n == entry_bytes::<K, V>(LogEntryView::Term { term, index, op: op@ }).len(),
            r is Err ==> final(buf)@ == old(buf)@,
            r is Ok <==> entry_fits::<K, V>(LogEntryView::Term { term, index, op: op@ }),
    {
        let mut ob: Vec<u8> = Vec::new();
        let on = match op.encode(&mut ob) {
            Ok(n) => n,
            Err(e) => {
                return Err(e);
            },
        };
        if ob.len() > usize::MAX - 24 {
            return Err(Error::DecodeFail(0));
        }
        append_u64(buf, 1);
        append_u64(buf, term);
        append_u64(buf, index);
        append_bytes(buf, &ob);
        proof {
            assert(final(buf)@ =~= old(buf)@ + entry_bytes::<K, V>(
                LogEntryView::Term { term, index, op: op@ },
            ));
        }
        Ok(24 + ob.len())
    }

    /// Decode a `term` entry; return the operation, term, index and
    /// bytes consumed.
    pub fn decode_term(buf: &[u8]) -> (r: Result<(Op<K, V>, u64, u64, usize)>)
        ensures
            match r {
                Ok(p) => parse_entry::<K, V>(buf@) == Some(
                    (LogEntryView::Term { term: p.1, index: p.2, op: p.0@ }, p.3 as int),
                ),
                Err(_) => !(parse_entry::<K, V>(buf@) matches Some(
                    (LogEntryView::Term { .. }, _),
                )),
            },
    {
        let blen = buf.len();
        if blen < 24 {
            return Err(Error::DecodeFail(24));
        }
        let hdr = read_u64(buf, 0);
        if hdr & 0xFF != 1 {
            return Err(Error::DecodeFail(8));
        }
        let term = read_u64(buf, 8);
        let index = read_u64(buf, 16);
        let rest = vstd::slice::slice_subrange(buf, 24, buf.len());
        proof {
            assert(rest@ =~= buf@.skip(24));
        }
        let (op, on) = match Op::<K, V>::decode(rest) {
            Ok(p) => p,
            Err(e) => {
                return Err(e);
            },
        };
        if on > usize::MAX - 24 {
            proof {
                assert(false);
            }
            return Err(Error::DecodeFail(0));
        }
        Ok((op, term, index, 24 + on))
    }

    /// Encode a `client` entry.
    pub fn encode_client(
        op: &Op<K, V>,
        term: u64,
        index: u64,
        id: u64,
        ceqno: u64,
        buf: &mut Vec<u8>,
    ) -> (r: Result<usize>)
        ensures
            r matches Ok(n) ==> final(buf)@ == old(buf)@ + entry_bytes::<K, V>(
                LogEntryView::Client { term, index, id, ceqno, op: op@ },
            ) && n == entry_bytes::<K, V>(
                LogEntryView::Client { term, index, id, ceqno, op: op@ },
            ).len(),
            r is Err ==> final(buf)@ == old(buf)@,
            r is Ok <==> entry_fits::<K, V>(
                LogEntryView::Client { term, index, id, ceqno, op: op@ },
            ),
    {
        let mut ob: Vec<u8> = Vec::new();
        let on = match op.encode(&mut ob) {
            Ok(n) => n,
            Err(e) => {
                return Err(e);
            },
        };
        if ob.len() > usize::MAX - 40 {
            return Err(Error::DecodeFail(0));
        }
        append_u64(buf, 2);
        append_u64(buf, term);
        append_u64(buf, index);
        append_u64(buf, id);
        append_u64(buf, ceqno);
        append_bytes(buf, &ob);
        proof {
            assert(final(buf)@ =~= old(buf)@ + entry_bytes::<K, V>(
                LogEntryView::Client { term, index, id, ceqno, op: op@ },
            ));
        }
        Ok(40 + ob.len())
    }

    /// Decode a `client` entry; return the operation, term, index,
    /// client id, client seqno and bytes consumed.
    pub fn decode_client(buf: &[u8]) -> (r: Result<(Op<K, V>, u64, u64, u64, u64, usize)>)
        ensures
            match r {
                Ok(p) => parse_entry::<K, V>(buf@) == Some(
                    (
                        LogEntryView::Client {
                            term: p.1,
                            index: p.2,
                            id: p.3,
                            ceqno: p.4,
                            op: p.0@,
                        },
                        p.5 as int,
                    ),
                ),
                Err(_) => !(parse_entry::<K, V>(buf@) matches Some(
                    (LogEntryView::Client { .. }, _),
                )),
            },
    {
        let blen = buf.len();
        if blen < 40 {
            return Err(Error::DecodeFail(40));
        }
        let hdr = read_u64(buf, 0);
        if hdr & 0xFF != 2 {
            return Err(Error::DecodeFail(8));
        }
        let term = read_u64(buf, 8);
        let index = read_u64(buf, 16);
        let id = read_u64(buf, 24);
        let ceqno = read_u64(buf, 32);
        let rest = vstd::slice::slice_subrange(buf, 40, buf.len());
        proof {
            assert(rest@ =~= buf@.skip(40));
        }
        let (op, on) = match Op::<K, V>::decode(rest) {
            Ok(p) => p,
            Err(e) => {
                return Err(e);
            },
        };
        if on > usize::MAX - 40 {
            proof {
                assert(false);
            }
            return Err(Error::DecodeFail(0));
        }
        Ok((op, term, index, id, ceqno, 40 + on))
    }

    /// Decode a log entry from the head of `buf`; return it with the
    /// bytes consumed.
    pub fn decode(buf: &[u8]) -> (r: Result<(Entry<K, V>, usize)>)
        ensures
            match r {
                Ok(p) => parse_entry::<K, V>(buf@) == Some((p.0@, p.1 as int)),
                Err(_) => parse_entry::<K, V>(buf@) is None,
            },
    {
        let t = match Self::entry_type(buf) {
            Ok(t) => t,
            Err(e) => {
                return Err(e);
            },
        };
        match t {
            EntryType::Term => {
                let (op, term, index, n) = match Self::decode_term(buf) {
                    Ok(p) => p,
                    Err(e) => {
                        return Err(e);
                    },
                };
                Ok((Entry::Term { term, index, op }, n))
            },
            EntryType::Client => {
                let (op, term, index, id, ceqno, n) = match Self::decode_client(buf) {
                    Ok(p) => p,
                    Err(e) => {
                        return Err(e);
                    },
                };
                Ok((Entry::Client { term, index, id, ceqno, op }, n))
            },
        }
    }
}

/// Encoding then decoding a log entry gives it back.
#[verifier::rlimit(100)]
#[verifier::spinoff_prover]
pub proof fn lemma_entry_roundtrip<K: Serialize, V: Serialize>(
    e: LogEntryView<<K as View>::V, <V as View>::V>,
)
    requires
        match e {
            LogEntryView::Term { op, .. } => op_fits::<K, V>(op),
            LogEntryView::Client { op, .. } => op_fits::<K, V>(op),
        },
    ensures
        parse_entry::<K, V>(entry_bytes::<K, V>(e)) == Some(
            (e, entry_bytes::<K, V>(e).len() as int),
        ),
{
    let b = entry_bytes::<K, V>(e);
    match e {
        LogEntryView::Term { term, index, op } => {
            assert(b.subrange(0, 8) =~= u64_bytes(1));
            lemma_u64_bytes_id(1);
            assert((1u64 & 0xFF) == 1) by (bit_vector);
            assert(b.subrange(8, 16) =~= u64_bytes(term));
            lemma_u64_bytes_id(term);
            assert(b.subrange(16, 24) =~= u64_bytes(index));
            lemma_u64_bytes_id(index);
            assert(b.skip(24) =~= op_bytes::<K, V>(op));
            lemma_op_roundtrip::<K, V>(op);
        },
        LogEntryView::Client { term, index, id, ceqno, op } => {
            assert(b.subrange(0, 8) =~= u64_bytes(2));
            lemma_u64_bytes_id(2);
            assert((2u64 & 0xFF) == 2) by (bit_vector);
            assert(b.subrange(8, 16) =~= u64_bytes(term));
            lemma_u64_bytes_id(term);
            assert(b.subrange(16, 24) =~= u64_bytes(index));
            lemma_u64_bytes_id(index);
            assert(b.subrange(24, 32) =~= u64_bytes(id));
            lemma_u64_bytes_id(id);
            assert(b.subrange(32, 40) =~= u64_bytes(ceqno));
            lemma_u64_bytes_id(ceqno);
            assert(b.skip(40) =~= op_bytes::<K, V>(op));
            lemma_op_roundtrip::<K, V>(op);
        },
    }
}

} // verus!
