//! Implementations of the key/value contracts for the plain types the
//! indexes are used with: fixed-width integers, `String` keys and the
//! unit value `Empty`.

use vstd::prelude::*;
use vstd::string::StrSliceExecFns;

use crate::base::{Diff, Footprint, KeyCmp, OrdKey, Serialize};
use crate::util::{
    append_u32, append_u64, lemma_u32_bytes_id, lemma_u64_bytes_id, read_u32, read_u64, u32_bytes,
    u32_of_bytes, u64_bytes, u64_of_bytes,
};
use crate::Result;

verus! {

/// Unit value type for key-only indexes.
#[derive(Clone, Copy, Debug, PartialEq, Eq, Structural)]
pub struct Empty;

impl View for Empty {
    type V = Empty;

    open spec fn view(&self) -> Empty {
        Empty
    }
}

// ---------------------------------------------------------------- order

/// Strict order of two characters by code point.
pub open spec fn char_lt(a: char, b: char) -> bool {
    (a as u32) < (b as u32)
}

/// Characters with equal code points are equal.
pub proof fn lemma_char_eq(x: char, y: char)
    requires
        (x as u32) == (y as u32),
    ensures
        x == y,
{
    vstd::utf8::char_u32_cast(x, x as u32);
    vstd::utf8::char_u32_cast(y, y as u32);
}

/// Lexicographic strict order on character sequences.
pub open spec fn str_lt(a: Seq<char>, b: Seq<char>) -> bool
    decreases a.len(),
{
    if b.len() == 0 {
        false
    } else if a.len() == 0 {
        true
    } else if char_lt(a[0], b[0]) {
        true
    } else if a[0] == b[0] {
        str_lt(a.subrange(1, a.len() as int), b.subrange(1, b.len() as int))
    } else {
        false
    }
}

/// The lexicographic order is transitive.
pub proof fn lemma_str_lt_trans(a: Seq<char>, b: Seq<char>, c: Seq<char>)
    requires
        str_lt(a, b),
        str_lt(b, c),
    ensures
        str_lt(a, c),
    decreases a.len(),
{
    if c.len() == 0 {
        assert(false);
    } else if b.len() == 0 {
        assert(false);
    } else if a.len() == 0 {
    } else {
        if char_lt(a[0], b[0]) {
            if char_lt(b[0], c[0]) {
            } else {
                assert(b[0] == c[0]);
            }
        } else {
            assert(a[0] == b[0]);
            if char_lt(b[0], c[0]) {
            } else {
                assert(b[0] == c[0]);
                lemma_str_lt_trans(
                    a.subrange(1, a.len() as int),
                    b.subrange(1, b.len() as int),
                    c.subrange(1, c.len() as int),
                );
            }
        }
    }
}

/// Any two character sequences are ordered or equal, and the order is
/// asymmetric.
pub proof fn lemma_str_lt_trichotomy(a: Seq<char>, b: Seq<char>)
    ensures
        str_lt(a, b) || a == b || str_lt(b, a),
        str_lt(a, b) ==> a != b && !str_lt(b, a),
    decreases a.len() + b.len(),
{
    if a.len() == 0 && b.len() == 0 {
        assert(a =~= b);
    } else if a.len() == 0 || b.len() == 0 {
    } else {
        if char_lt(a[0], b[0]) {
        } else if char_lt(b[0], a[0]) {
            assert(a[0] != b[0]);
        } else {
            assert((a[0] as u32) == (b[0] as u32));
            lemma_char_eq(a[0], b[0]);
            let at = a.subrange(1, a.len() as int);
            let bt = b.subrange(1, b.len() as int);
            lemma_str_lt_trichotomy(at, bt);
            if at =~= bt {
                assert(a =~= b) by {
                    assert(a.len() == b.len());
                    assert(forall|i: int|
                        1 <= i < a.len() ==> a[i] == at[i - 1] && b[i] == bt[i - 1]);
                }
            }
        }
    }
}

/// If the first `i` characters agree and `a` is smaller at `i`, then
/// `a` is lexicographically smaller.
pub proof fn lemma_str_lt_from_diff(a: Seq<char>, b: Seq<char>, i: int)
    requires
        0 <= i < a.len(),
        i < b.len(),
        forall|j: int| 0 <= j < i ==> a[j] == b[j],
        char_lt(a[i], b[i]),
    ensures
        str_lt(a, b),
    decreases i,
{
    if i == 0 {
    } else {
        let at = a.subrange(1, a.len() as int);
        let bt = b.subrange(1, b.len() as int);
        assert(forall|j: int| 0 <= j < i - 1 ==> at[j] == bt[j]);
        assert(at[i - 1] == a[i] && bt[i - 1] == b[i]);
        lemma_str_lt_from_diff(at, bt, i - 1);
        assert(a[0] == b[0]);
    }
}

/// A proper prefix is lexicographically smaller.
pub proof fn lemma_str_lt_prefix(a: Seq<char>, b: Seq<char>)
    requires
        a.len() < b.len(),
        forall|j: int| 0 <= j < a.len() ==> a[j] == b[j],
    ensures
        str_lt(a, b),
    decreases a.len(),
{
    if a.len() == 0 {
    } else {
        let at = a.subrange(1, a.len() as int);
        let bt = b.subrange(1, b.len() as int);
        assert(forall|j: int| 0 <= j < at.len() ==> at[j] == bt[j]);
        lemma_str_lt_prefix(at, bt);
        assert(a[0] == b[0]);
    }
}

impl OrdKey for String {
    open spec fn lt_spec(a: Seq<char>, b: Seq<char>) -> bool {
        str_lt(a, b)
    }

    proof fn lt_trans(a: Seq<char>, b: Seq<char>, c: Seq<char>) {
        lemma_str_lt_trans(a, b, c);
    }

    proof fn lt_trichotomy(a: Seq<char>, b: Seq<char>) {
        lemma_str_lt_trichotomy(a, b);
        lemma_str_lt_trichotomy(b, a);
    }

    fn cmp_key(&self, other: &Self) -> (c: KeyCmp) {
        let a = self.as_str();
        let b = other.as_str();
        let n1 = a.unicode_len();
        let n2 = b.unicode_len();
        let mut i: usize = 0;
        while i < n1 && i < n2
            invariant
                i <= n1,
                i <= n2,
                n1 == a@.len(),
                n2 == b@.len(),
                a@ == self@,
                b@ == other@,
                forall|j: int| 0 <= j < i ==> a@[j] == b@[j],
            decreases n1 - i,
        {
            let ca = a.get_char(i);
            let cb = b.get_char(i);
            if (ca as u32) < (cb as u32) {
                proof {
                    lemma_str_lt_from_diff(self@, other@, i as int);
                }
                return KeyCmp::Less;
            } else if (cb as u32) < (ca as u32) {
                proof {
                    lemma_str_lt_from_diff(other@, self@, i as int);
                }
                return KeyCmp::Greater;
            }
            proof {
                assert((ca as u32) == (cb as u32));
                lemma_char_eq(ca, cb);
            }
            i = i + 1;
        }
        if n1 < n2 {
            proof {
                lemma_str_lt_prefix(self@, other@);
            }
            KeyCmp::Less
        } else if n2 < n1 {
            proof {
                lemma_str_lt_prefix(other@, self@);
            }
            KeyCmp::Greater
        } else {
            proof {
                assert(self@ =~= other@);
            }
            KeyCmp::Equal
        }
    }

    fn clone_key(&self) -> (r: Self) {
        self.clone()
    }
}

impl Footprint for String {
    open spec fn footprint_of(v: Seq<char>) -> int {
        v.len() as int
    }

    open spec fn footprint_ok_of(v: Seq<char>) -> bool {
        v.len() <= isize::MAX
    }

    fn footprint(&self) -> (r: Result<isize>) {
        let n = self.as_str().unicode_len();
        if n <= (isize::MAX as usize) {
            Ok(n as isize)
        } else {
            Err(crate::error::Error::UnReachable)
        }
    }
}

// ---------------------------------------------------- integer key types

impl OrdKey for i32 {
    open spec fn lt_spec(a: i32, b: i32) -> bool {
        a < b
    }

    proof fn lt_trans(a: i32, b: i32, c: i32) {
    }

    proof fn lt_trichotomy(a: i32, b: i32) {
    }

    fn cmp_key(&self, other: &Self) -> (c: KeyCmp) {
        if *self < *other {
            KeyCmp::Less
        } else if *self == *other {
            KeyCmp::Equal
        } else {
            KeyCmp::Greater
        }
    }

    fn clone_key(&self) -> (r: Self) {
        *self
    }
}

impl OrdKey for i64 {
    open spec fn lt_spec(a: i64, b: i64) -> bool {
        a < b
    }

    proof fn lt_trans(a: i64, b: i64, c: i64) {
    }

    proof fn lt_trichotomy(a: i64, b: i64) {
    }

    fn cmp_key(&self, other: &Self) -> (c: KeyCmp) {
        if *self < *other {
            KeyCmp::Less
        } else if *self == *other {
            KeyCmp::Equal
        } else {
            KeyCmp::Greater
        }
    }

    fn clone_key(&self) -> (r: Self) {
        *self
    }
}

impl OrdKey for u64 {
    open spec fn lt_spec(a: u64, b: u64) -> bool {
        a < b
    }

    proof fn lt_trans(a: u64, b: u64, c: u64) {
    }

    proof fn lt_trichotomy(a: u64, b: u64) {
    }

    fn cmp_key(&self, other: &Self) -> (c: KeyCmp) {
        if *self < *other {
            KeyCmp::Less
        } else if *self == *other {
            KeyCmp::Equal
        } else {
            KeyCmp::Greater
        }
    }

    fn clone_key(&self) -> (r: Self) {
        *self
    }
}

// ------------------------------------------------------- trivial diffs

impl Diff for i32 {
    type D = i32;

    open spec fn merge_spec(v: i32, d: i32) -> i32 {
        d
    }

    open spec fn delta_of_spec(v: i32) -> i32 {
        v
    }

    open spec fn value_of_spec(d: i32) -> i32 {
        d
    }

    proof fn lemma_delta_of_value(v: i32) {
    }

    fn diff(&self, old: &Self) -> (d: Self::D) {
        *old
    }

    fn merge(&self, delta: &Self::D) -> (v: Self) {
        *delta
    }

    fn to_delta(&self) -> (d: Self::D) {
        *self
    }

    fn from_delta(d: &Self::D) -> (v: Self) {
        *d
    }

    fn clone_value(&self) -> (r: Self) {
        *self
    }

    fn clone_delta(d: &Self::D) -> (r: Self::D) {
        *d
    }
}

impl Diff for i64 {
    type D = i64;

    open spec fn merge_spec(v: i64, d: i64) -> i64 {
        d
    }

    open spec fn delta_of_spec(v: i64) -> i64 {
        v
    }

    open spec fn value_of_spec(d: i64) -> i64 {
        d
    }

    proof fn lemma_delta_of_value(v: i64) {
    }

    fn diff(&self, old: &Self) -> (d: Self::D) {
        *old
    }

    fn merge(&self, delta: &Self::D) -> (v: Self) {
        *delta
    }

    fn to_delta(&self) -> (d: Self::D) {
        *self
    }

    fn from_delta(d: &Self::D) -> (v: Self) {
        *d
    }

    fn clone_value(&self) -> (r: Self) {
        *self
    }

    fn clone_delta(d: &Self::D) -> (r: Self::D) {
        *d
    }
}

impl Diff for Empty {
    type D = Empty;

    open spec fn merge_spec(v: Empty, d: Empty) -> Empty {
        Empty
    }

    open spec fn delta_of_spec(v: Empty) -> Empty {
        Empty
    }

    open spec fn value_of_spec(d: Empty) -> Empty {
        Empty
    }

    proof fn lemma_delta_of_value(v: Empty) {
    }

    fn diff(&self, old: &Self) -> (d: Self::D) {
        Empty
    }

    fn merge(&self, delta: &Self::D) -> (v: Self) {
        Empty
    }

    fn to_delta(&self) -> (d: Self::D) {
        Empty
    }

    fn from_delta(d: &Self::D) -> (v: Self) {
        Empty
    }

    fn clone_value(&self) -> (r: Self) {
        Empty
    }

    fn clone_delta(d: &Self::D) -> (r: Self::D) {
        Empty
    }
}

// ---------------------------------------------------------- footprints

impl Footprint for i32 {
    open spec fn footprint_of(v: i32) -> int {
        4
    }

    open spec fn footprint_ok_of(v: i32) -> bool {
        true
    }

    fn footprint(&self) -> (r: Result<isize>) {
        Ok(4)
    }
}

impl Footprint for i64 {
    open spec fn footprint_of(v: i64) -> int {
        8
    }

    open spec fn footprint_ok_of(v: i64) -> bool {
        true
    }

    fn footprint(&self) -> (r: Result<isize>) {
        Ok(8)
    }
}

impl Footprint for u64 {
    open spec fn footprint_of(v: u64) -> int {
        8
    }

    open spec fn footprint_ok_of(v: u64) -> bool {
        true
    }

    fn footprint(&self) -> (r: Result<isize>) {
        Ok(8)
    }
}

impl Footprint for Empty {
    open spec fn footprint_of(v: Empty) -> int {
        0
    }

    open spec fn footprint_ok_of(v: Empty) -> bool {
        true
    }

    fn footprint(&self) -> (r: Result<isize>) {
        Ok(0)
    }
}

// -------------------------------------------------------- serialization

impl Serialize for i32 {
    open spec fn ser_spec(v: i32) -> Seq<u8> {
        u32_bytes(v as u32)
    }

    open spec fn deser_spec(bytes: Seq<u8>) -> Option<i32> {
        if bytes.len() == 4 {
            Some(u32_of_bytes(bytes) as i32)
        } else {
            None
        }
    }

    proof fn lemma_ser_deser(v: i32) {
        lemma_u32_bytes_id(v as u32);
        assert(((v as u32) as i32) == v) by (bit_vector);
    }

    open spec fn ser_ok(v: i32) -> bool {
        true
    }

    fn encode(&self, buf: &mut Vec<u8>) -> (r: Result<usize>) {
        append_u32(buf, *self as u32);
        Ok(4)
    }

    fn decode(&mut self, buf: &[u8]) -> (r: Result<usize>) {
        if buf.len() == 4 {
            let x = read_u32(buf, 0);
            proof {
                assert(buf@.subrange(0, 4) =~= buf@);
            }
            *self = x as i32;
            Ok(4)
        } else {
            Err(crate::error::Error::DecodeFail(4))
        }
    }

    fn decode_new(buf: &[u8]) -> (r: Result<Self>) {
        if buf.len() == 4 {
            let x = read_u32(buf, 0);
            proof {
                assert(buf@.subrange(0, 4) =~= buf@);
            }
            Ok(x as i32)
        } else {
            Err(crate::error::Error::DecodeFail(4))
        }
    }
}

impl Serialize for i64 {
    open spec fn ser_spec(v: i64) -> Seq<u8> {
        u64_bytes(v as u64)
    }

    open spec fn deser_spec(bytes: Seq<u8>) -> Option<i64> {
        if bytes.len() == 8 {
            Some(u64_of_bytes(bytes) as i64)
        } else {
            None
        }
    }

    proof fn lemma_ser_deser(v: i64) {
        lemma_u64_bytes_id(v as u64);
        assert(((v as u64) as i64) == v) by (bit_vector);
    }

    open spec fn ser_ok(v: i64) -> bool {
        true
    }

    fn encode(&self, buf: &mut Vec<u8>) -> (r: Result<usize>) {
        append_u64(buf, *self as u64);
        Ok(8)
    }

    fn decode(&mut self, buf: &[u8]) -> (r: Result<usize>) {
        if buf.len() == 8 {
            let x = read_u64(buf, 0);
            proof {
                assert(buf@.subrange(0, 8) =~= buf@);
            }
            *self = x as i64;
            Ok(8)
        } else {
            Err(crate::error::Error::DecodeFail(8))
        }
    }

    fn decode_new(buf: &[u8]) -> (r: Result<Self>) {
        if buf.len() == 8 {
            let x = read_u64(buf, 0);
            proof {
                assert(buf@.subrange(0, 8) =~= buf@);
            }
            Ok(x as i64)
        } else {
            Err(crate::error::Error::DecodeFail(8))
        }
    }
}

impl Serialize for u64 {
    open spec fn ser_spec(v: u64) -> Seq<u8> {
        u64_bytes(v)
    }

    open spec fn deser_spec(bytes: Seq<u8>) -> Option<u64> {
        if bytes.len() == 8 {
            Some(u64_of_bytes(bytes))
        } else {
            None
        }
    }

    proof fn lemma_ser_deser(v: u64) {
        lemma_u64_bytes_id(v);
    }

    open spec fn ser_ok(v: u64) -> bool {
        true
    }

    fn encode(&self, buf: &mut Vec<u8>) -> (r: Result<usize>) {
        append_u64(buf, *self);
        Ok(8)
    }

    fn decode(&mut self, buf: &[u8]) -> (r: Result<usize>) {
        if buf.len() == 8 {
            let x = read_u64(buf, 0);
            proof {
                assert(buf@.subrange(0, 8) =~= buf@);
            }
            *self = x;
            Ok(8)
        } else {
            Err(crate::error::Error::DecodeFail(8))
        }
    }

    fn decode_new(buf: &[u8]) -> (r: Result<Self>) {
        if buf.len() == 8 {
            let x = read_u64(buf, 0);
            proof {
                assert(buf@.subrange(0, 8) =~= buf@);
            }
            Ok(x)
        } else {
            Err(crate::error::Error::DecodeFail(8))
        }
    }
}

impl Serialize for Empty {
    open spec fn ser_spec(v: Empty) -> Seq<u8> {
        Seq::empty()
    }

    open spec fn deser_spec(bytes: Seq<u8>) -> Option<Empty> {
        if bytes.len() == 0 {
            Some(Empty)
        } else {
            None
        }
    }

    proof fn lemma_ser_deser(v: Empty) {
    }

    open spec fn ser_ok(v: Empty) -> bool {
        true
    }

    fn encode(&self, buf: &mut Vec<u8>) -> (r: Result<usize>) {
        proof {
            assert(buf@ + Seq::<u8>::empty() =~= buf@);
        }
        Ok(0)
    }

    fn decode(&mut self, buf: &[u8]) -> (r: Result<usize>) {
        if buf.len() == 0 {
            Ok(0)
        } else {
            Err(crate::error::Error::DecodeFail(0))
        }
    }

    fn decode_new(buf: &[u8]) -> (r: Result<Self>) {
        if buf.len() == 0 {
            Ok(Empty)
        } else {
            Err(crate::error::Error::DecodeFail(0))
        }
    }
}

} // verus!
