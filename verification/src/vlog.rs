//! Value-log payloads. A value (or delta) either lives inline
//! (`Native`), or as a `{fpos, length}` reference into an append-only
//! value-log, or as a `Backup` reference naming another file.
//!
//! A value-log record is length-prefixed: an 8-byte big-endian header
//! whose bit 60 is set for value records and clear for delta records,
//! low 60 bits holding the payload length, followed by the payload.

use vstd::prelude::*;
use vstd::slice::slice_subrange;

use crate::base::{Diff, Serialize};
use crate::error::Error;
use crate::util::{append_u64, u64_bytes};
use crate::Result;

verus! {

/// Marks a value-log record as a value record (bit 60).
pub const VALUE_FLAG: u64 = 0x1000000000000000;

/// Payloads as seen by specifications.
pub enum PayloadView<T> {
    Native(T),
    Reference { fpos: u64, length: u64 },
    Backup { file: Seq<char>, fpos: u64, length: u64 },
}

/// A value payload: inline, in the value-log, or in a named file.
pub enum Value<V: Diff> {
    Native { value: V },
    Reference { fpos: u64, length: u64 },
    Backup { file: String, fpos: u64, length: u64 },
}

/// A delta payload: inline, in the value-log, or in a named file.
pub enum Delta<V: Diff> {
    Native { delta: V::D },
    Reference { fpos: u64, length: u64 },
    Backup { file: String, fpos: u64, length: u64 },
}

impl<V: Diff> View for Value<V> {
    type V = PayloadView<<V as View>::V>;

    open spec fn view(&self) -> PayloadView<<V as View>::V> {
        match self {
            Value::Native { value } => PayloadView::Native(value@),
            Value::Reference { fpos, length } => PayloadView::Reference {
                fpos: *fpos,
                length: *length,
            },
            Value::Backup { file, fpos, length } => PayloadView::Backup {
                file: file@,
                fpos: *fpos,
                length: *length,
            },
        }
    }
}

impl<V: Diff> View for Delta<V> {
    type V = PayloadView<<V::D as View>::V>;

    open spec fn view(&self) -> PayloadView<<V::D as View>::V> {
        match self {
            Delta::Native { delta } => PayloadView::Native(delta@),
            Delta::Reference { fpos, length } => PayloadView::Reference {
                fpos: *fpos,
                length: *length,
            },
            Delta::Backup { file, fpos, length } => PayloadView::Backup {
                file: file@,
                fpos: *fpos,
                length: *length,
            },
        }
    }
}

/// The bytes of a value record holding `payload`.
pub open spec fn value_record_bytes(payload: Seq<u8>) -> Seq<u8> {
    u64_bytes((payload.len() as u64) | VALUE_FLAG) + payload
}

/// The bytes of a delta record holding `payload`.
pub open spec fn delta_record_bytes(payload: Seq<u8>) -> Seq<u8> {
    u64_bytes(payload.len() as u64) + payload
}

impl<V: Diff> Value<V> {
    /// Wrap a native value.
    pub fn new_native(value: V) -> (r: Value<V>)
        ensures
            r@ == PayloadView::Native(value@),
    {
        Value::Native { value }
    }

    /// Reference a record in the value-log.
    pub fn new_reference(fpos: u64, length: u64) -> (r: Value<V>)
        ensures
            r@ == (PayloadView::<<V as View>::V>::Reference { fpos, length }),
    {
        Value::Reference { fpos, length }
    }

    /// The native value, if it is inline.
    pub open spec fn native_spec(self) -> Option<<V as View>::V> {
        match self@ {
            PayloadView::Native(v) => Some(v),
            _ => None,
        }
    }

    /// Clone of the native value, `None` when it lives elsewhere.
    pub fn to_native_value(&self) -> (r: Option<V>)
        ensures
            match r {
                Some(v) => self.native_spec() == Some(v@),
                None => self.native_spec() is None,
            },
    {
        match self {
            Value::Native { value } => Some(value.clone_value()),
            _ => None,
        }
    }

    /// Whether this payload is a value-log reference.
    pub fn is_reference(&self) -> (r: bool)
        ensures
            r == (self@ matches PayloadView::Reference { .. }),
    {
        match self {
            Value::Reference { .. } => true,
            _ => false,
        }
    }
}

impl<V: Diff + Serialize> Value<V> {
    /// Append a native value as a value record to the in-memory
    /// value-log `buf` (which begins at absolute position `base`) and
    /// return the reference that now stands for it. References pass
    /// through unchanged.
    pub fn append_to(self, buf: &mut Vec<u8>, base: u64) -> (r: Result<Value<V>>)
        requires
            !(self@ matches PayloadView::Backup { .. }),
            base + old(buf)@.len() + 8 + 0x1000000000000000u64 <= u64::MAX,
        ensures
            match self@ {
                PayloadView::Native(v) => {
                    if V::ser_spec(v).len() < 0x1000000000000000 {
                        match r {
                            Ok(out) => final(buf)@ == old(buf)@ + value_record_bytes(V::ser_spec(v))
                                && out@ == (PayloadView::<<V as View>::V>::Reference {
                                fpos: (base + old(buf)@.len()) as u64,
                                length: V::ser_spec(v).len() as u64,
                            }),
                            Err(_) => true,
                        }
                    } else {
                        r is Err
                    }
                },
                PayloadView::Reference { fpos, length } => r matches Ok(out) && out@ == self@
                    && final(buf)@ == old(buf)@,
                PayloadView::Backup { .. } => true,
            },
            r is Ok <==> match self@ {
                PayloadView::Native(v) => V::ser_ok(v) && V::ser_spec(v).len()
                    < 0x1000000000000000,
                PayloadView::Reference { .. } => true,
                PayloadView::Backup { .. } => false,
            },
    {
        match self {
            Value::Native { value } => {
                let fpos: u64 = base + (buf.len() as u64);
                let mut payload: Vec<u8> = Vec::new();
                let n = match value.encode(&mut payload) {
                    Ok(n) => n,
                    Err(e) => {
                        return Err(e);
                    },
                };
                if !((payload.len() as u64) < 0x1000000000000000u64) {
                    return Err(Error::UnReachable);
                }
                let length: u64 = payload.len() as u64;
                append_u64(buf, length | VALUE_FLAG);
                let mut i: usize = 0;
                while i < payload.len()
                    invariant
                        i <= payload@.len(),
                        buf@ == old(buf)@ + u64_bytes(length | VALUE_FLAG) + payload@.subrange(
                            0,
                            i as int,
                        ),
                    decreases payload@.len() - i,
                {
                    buf.push(payload[i]);
                    proof {
                        assert(buf@ =~= old(buf)@ + u64_bytes(length | VALUE_FLAG)
                            + payload@.subrange(0, i + 1));
                    }
                    i = i + 1;
                }
                proof {
                    assert(payload@.subrange(0, payload@.len() as int) =~= payload@);
                    assert(buf@ =~= old(buf)@ + value_record_bytes(payload@));
                }
                Ok(Value::Reference { fpos, length })
            },
            Value::Reference { fpos, length } => Ok(Value::Reference { fpos, length }),
            Value::Backup { .. } => Err(Error::UnReachable),
        }
    }
}

impl<V: Diff> Delta<V> {
    /// Wrap a native delta.
    pub fn new_native(delta: V::D) -> (r: Delta<V>)
        ensures
            r@ == PayloadView::Native(delta@),
    {
        Delta::Native { delta }
    }

    /// Reference a record in the value-log.
    pub fn new_reference(fpos: u64, length: u64) -> (r: Delta<V>)
        ensures
            r@ == (PayloadView::<<V::D as View>::V>::Reference { fpos, length }),
    {
        Delta::Reference { fpos, length }
    }

    /// The native delta, if it is inline.
    pub open spec fn native_spec(self) -> Option<<V::D as View>::V> {
        match self@ {
            PayloadView::Native(d) => Some(d),
            _ => None,
        }
    }

    /// Clone of the native delta, `None` when it lives elsewhere.
    pub fn to_native_delta(&self) -> (r: Option<V::D>)
        ensures
            match r {
                Some(d) => self.native_spec() == Some(d@),
                None => self.native_spec() is None,
            },
    {
        match self {
            Delta::Native { delta } => Some(V::clone_delta(delta)),
            _ => None,
        }
    }

    /// Whether this payload is a value-log reference.
    pub fn is_reference(&self) -> (r: bool)
        ensures
            r == (self@ matches PayloadView::Reference { .. }),
    {
        match self {
            Delta::Reference { .. } => true,
            _ => false,
        }
    }
}

impl<V: Diff> Delta<V> where V::D: Serialize {
    /// Append a native delta as a delta record to the in-memory
    /// value-log `buf` (which begins at absolute position `base`) and
    /// return the reference that now stands for it. References pass
    /// through unchanged.
    pub fn append_to(self, buf: &mut Vec<u8>, base: u64) -> (r: Result<Delta<V>>)
        requires
            !(self@ matches PayloadView::Backup { .. }),
            base + old(buf)@.len() + 8 + 0x1000000000000000u64 <= u64::MAX,
        ensures
            match self@ {
                PayloadView::Native(d) => {
                    if <V::D as Serialize>::ser_spec(d).len() < 0x1000000000000000 {
                        match r {
                            Ok(out) => final(buf)@ == old(buf)@ + delta_record_bytes(
                                <V::D as Serialize>::ser_spec(d),
                            ) && out@ == (PayloadView::<<V::D as View>::V>::Reference {
                                fpos: (base + old(buf)@.len()) as u64,
                                length: <V::D as Serialize>::ser_spec(d).len() as u64,
                            }),
                            Err(_) => true,
                        }
                    } else {
                        r is Err
                    }
                },
                PayloadView::Reference { fpos, length } => r matches Ok(out) && out@ == self@
                    && final(buf)@ == old(buf)@,
                PayloadView::Backup { .. } => true,
            },
            r is Ok <==> match self@ {
                PayloadView::Native(d) => <V::D as Serialize>::ser_ok(d) && <V::D as Serialize>::ser_spec(
                    d,
                ).len() < 0x1000000000000000,
                PayloadView::Reference { .. } => true,
                PayloadView::Backup { .. } => false,
            },
    {
        match self {
            Delta::Native { delta } => {
                let fpos: u64 = base + (buf.len() as u64);
                let mut payload: Vec<u8> = Vec::new();
                let n = match delta.encode(&mut payload) {
                    Ok(n) => n,
                    Err(e) => {
                        return Err(e);
                    },
                };
                if !((payload.len() as u64) < 0x1000000000000000u64) {
                    return Err(Error::UnReachable);
                }
                let length: u64 = payload.len() as u64;
                append_u64(buf, length);
                let mut i: usize = 0;
                while i < payload.len()
                    invariant
                        i <= payload@.len(),
                        buf@ == old(buf)@ + u64_bytes(length) + payload@.subrange(0, i as int),
                    decreases payload@.len() - i,
                {
                    buf.push(payload[i]);
                    proof {
                        assert(buf@ =~= old(buf)@ + u64_bytes(length) + payload@.subrange(
                            0,
                            i + 1,
                        ));
                    }
                    i = i + 1;
                }
                proof {
                    assert(payload@.subrange(0, payload@.len() as int) =~= payload@);
                    assert(buf@ =~= old(buf)@ + delta_record_bytes(payload@));
                }
                Ok(Delta::Reference { fpos, length })
            },
            Delta::Reference { fpos, length } => Ok(Delta::Reference { fpos, length }),
            Delta::Backup { .. } => Err(Error::UnReachable),
        }
    }
}

/// Read a value payload back out of the value-log bytes, given the
/// reference's position and length. The payload begins after the
/// 8-byte record header.
pub fn fetch_value<V: Diff + Serialize>(vlog: &[u8], fpos: u64, length: u64) -> (r: Result<
    Value<V>,
>)
    ensures
        match r {
            Ok(v) => fpos + 8 + length <= vlog@.len() && (exists|vv: <V as View>::V|
                V::deser_spec(vlog@.subrange(fpos + 8, fpos + 8 + length)) == Some(vv) && v@
                    == PayloadView::Native(vv)),
            Err(_) => fpos + 8 + length > vlog@.len() || V::deser_spec(
                vlog@.subrange(fpos + 8, fpos + 8 + length),
            ) is None,
        },
{
    let need: u128 = (fpos as u128) + 8 + (length as u128);
    if need > (vlog.len() as u128) {
        return Err(Error::PartialRead(0, 0));
    }
    let start: usize = (fpos as usize) + 8;
    let end: usize = start + (length as usize);
    let bytes = slice_subrange(vlog, start, end);
    let value: V = match V::decode_new(bytes) {
        Ok(v) => v,
        Err(e) => {
            return Err(e);
        },
    };
    Ok(Value::Native { value })
}

} // verus!
