//! Key/value contracts for byte-string values: `Vec<u8>` with the
//! trivial diff (the delta of two versions is the older byte string).

use vstd::prelude::*;

use crate::base::{Diff, Footprint, Serialize};
use crate::Result;

verus! {

impl Diff for Vec<u8> {
    type D = Vec<u8>;

    open spec fn merge_spec(v: Seq<u8>, d: Seq<u8>) -> Seq<u8> {
        d
    }

    open spec fn delta_of_spec(v: Seq<u8>) -> Seq<u8> {
        v
    }

    open spec fn value_of_spec(d: Seq<u8>) -> Seq<u8> {
        d
    }

    proof fn lemma_delta_of_value(v: Seq<u8>) {
    }

    /// `delta = new - old`: with the trivial diff the delta is the old
    /// value itself.
    fn diff(&self, old: &Self) -> (d: Self::D) {
        clone_bytes(old)
    }

    /// `old = new - delta`: the delta is the old value.
    fn merge(&self, delta: &Self::D) -> (v: Self) {
        clone_bytes(delta)
    }

    fn to_delta(&self) -> (d: Self::D) {
        clone_bytes(self)
    }

    fn from_delta(d: &Self::D) -> (v: Self) {
        clone_bytes(d)
    }

    fn clone_value(&self) -> (r: Self) {
        clone_bytes(self)
    }

    fn clone_delta(d: &Self::D) -> (r: Self::D) {
        clone_bytes(d)
    }
}

/// Copy a byte vector; the copy holds the same bytes.
pub fn clone_bytes(v: &Vec<u8>) -> (r: Vec<u8>)
    ensures
        r@ == v@,
{
    let mut r: Vec<u8> = Vec::new();
    let mut i: usize = 0;
    while i < v.len()
        invariant
            i <= v@.len(),
            r@ == v@.subrange(0, i as int),
        decreases v@.len() - i,
    {
        r.push(v[i]);
        proof {
            assert(r@ =~= v@.subrange(0, i + 1));
        }
        i = i + 1;
    }
    proof {
        assert(v@.subrange(0, v@.len() as int) =~= v@);
    }
    r
}

impl Footprint for Vec<u8> {
    open spec fn footprint_of(v: Seq<u8>) -> int {
        v.len() as int
    }

    open spec fn footprint_ok_of(v: Seq<u8>) -> bool {
        v.len() <= isize::MAX
    }

    fn footprint(&self) -> (r: Result<isize>) {
        if self.len() <= (isize::MAX as usize) {
            Ok(self.len() as isize)
        } else {
            Err(crate::error::Error::UnReachable)
        }
    }
}

impl Serialize for Vec<u8> {
    open spec fn ser_spec(v: Seq<u8>) -> Seq<u8> {
        v
    }

    open spec fn deser_spec(bytes: Seq<u8>) -> Option<Seq<u8>> {
        Some(bytes)
    }

    proof fn lemma_ser_deser(v: Seq<u8>) {
    }

    open spec fn ser_ok(v: Seq<u8>) -> bool {
        true
    }

    fn encode(&self, buf: &mut Vec<u8>) -> (r: Result<usize>) {
        let mut i: usize = 0;
        while i < self.len()
            invariant
                i <= self@.len(),
                buf@ == old(buf)@ + self@.subrange(0, i as int),
            decreases self@.len() - i,
        {
            buf.push(self[i]);
            proof {
                assert(buf@ =~= old(buf)@ + self@.subrange(0, i + 1));
            }
            i = i + 1;
        }
        proof {
            assert(old(buf)@ + self@.subrange(0, self@.len() as int) =~= old(buf)@ + self@);
        }
        Ok(self.len())
    }

    fn decode(&mut self, buf: &[u8]) -> (r: Result<usize>) {
        let mut r: Vec<u8> = Vec::new();
        let mut i: usize = 0;
        while i < buf.len()
            invariant
                i <= buf@.len(),
                r@ == buf@.subrange(0, i as int),
            decreases buf@.len() - i,
        {
            r.push(buf[i]);
            proof {
                assert(r@ =~= buf@.subrange(0, i + 1));
            }
            i = i + 1;
        }
        proof {
            assert(buf@.subrange(0, buf@.len() as int) =~= buf@);
        }
        *self = r;
        Ok(buf.len())
    }

    fn decode_new(buf: &[u8]) -> (r: Result<Self>) {
        let mut v: Vec<u8> = Vec::new();
        let mut i: usize = 0;
        while i < buf.len()
            invariant
                i <= buf@.len(),
                v@ == buf@.subrange(0, i as int),
            decreases buf@.len() - i,
        {
            v.push(buf[i]);
            proof {
                assert(v@ =~= buf@.subrange(0, i + 1));
            }
            i = i + 1;
        }
        proof {
            assert(buf@.subrange(0, buf@.len() as int) =~= buf@);
        }
        Ok(v)
    }
}

} // verus!
