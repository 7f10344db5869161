//! Single-writer in-memory index over a left-leaning red-black tree.
//!
//! The tree's specification is its in-order sequence of entry views:
//! every mutation is stated as an update of that sorted sequence. The
//! binary-search-tree property is carried as sortedness of the
//! in-order sequence, which the rebalancing rotations preserve by
//! construction. The red-black *balance* properties are checked at
//! run time by [`Llrb::validate`], exactly as callers of the index
//! use them.
//!
//! **LSM mode**: nothing is overwritten; every mutation of a key adds
//! a version to its entry until purged. Back-to-back deletes collapse
//! into one.

use vstd::prelude::*;

use crate::base::{Diff, KeyCmp, OrdKey};
use crate::entry::{
    chain_resident, chain_sorted, delta_seqno, entry_resident, entry_sorted, next_value_spec,
    value_is_deleted, value_is_resident, value_native, value_seqno, DeltaView, Entry, EntryView,
    Value, ValueView,
};
use crate::error::Error;
use crate::vlog::PayloadView;
use crate::Result;

verus! {

/// Shorthand for the view of an entry of this index.
pub type Ev<K, V> = EntryView<
    <K as View>::V,
    <V as View>::V,
    <<V as Diff>::D as View>::V,
>;

// ------------------------------------------------------------ sequences

/// Keys strictly increase along the sequence.
pub open spec fn keys_sorted<K: OrdKey, V: Diff>(es: Seq<Ev<K, V>>) -> bool {
    forall|i: int, j: int|
        0 <= i < j < es.len() ==> K::lt_spec((#[trigger] es[i]).key, (#[trigger] es[j]).key)
}

/// Every entry is internally sorted and resident.
pub open spec fn entries_ok<K: OrdKey, V: Diff>(es: Seq<Ev<K, V>>) -> bool {
    forall|i: int|
        0 <= i < es.len() ==> entry_sorted(#[trigger] es[i]) && entry_resident(es[i])
}

/// Every version in the sequence carries a seqno at most `s`.
pub open spec fn seqnos_bounded<K: OrdKey, V: Diff>(es: Seq<Ev<K, V>>, s: u64) -> bool {
    forall|i: int| 0 <= i < es.len() ==> value_seqno((#[trigger] es[i]).value) <= s
}

/// Whether some entry of `es` has key `k`.
pub open spec fn has_key<K: OrdKey, V: Diff>(es: Seq<Ev<K, V>>, k: <K as View>::V) -> bool {
    exists|i: int| 0 <= i < es.len() && (#[trigger] es[i]).key == k
}

/// In lsm mode an update preserves the old value as the newest delta;
/// otherwise it overwrites it.
pub open spec fn upsert_rel<K: OrdKey, V: Diff>(
    pre: Ev<K, V>,
    post: Ev<K, V>,
    ne: Ev<K, V>,
    lsm: bool,
) -> bool {
    &&& post.key == pre.key
    &&& post.value == ne.value
    &&& if lsm {
        &&& post.deltas.len() == pre.deltas.len() + 1
        &&& post.deltas.drop_first() == pre.deltas
        &&& delta_seqno(post.deltas[0]) == value_seqno(pre.value)
        &&& next_value_spec::<V>(value_native(ne.value), post.deltas[0]) == pre.value
    } else {
        post.deltas == pre.deltas
    }
}

// ----------------------------------------------------------------- node

struct Node<K: OrdKey, V: Diff> {
    entry: Entry<K, V>,
    black: bool,
    left: Option<Box<Node<K, V>>>,
    right: Option<Box<Node<K, V>>>,
}

impl<K: OrdKey, V: Diff> Node<K, V> {
    /// In-order sequence of entry views of this subtree.
    spec fn entries(self) -> Seq<Ev<K, V>>
        decreases self,
    {
        opt_entries(self.left) + seq![self.entry@] + opt_entries(self.right)
    }
}

/// In-order sequence of entry views of an optional subtree.
spec fn opt_entries<K: OrdKey, V: Diff>(o: Option<Box<Node<K, V>>>) -> Seq<Ev<K, V>>
    decreases o,
{
    match o {
        None => Seq::empty(),
        Some(n) => n.entries(),
    }
}

/// Whether the link to a node is red.
fn is_red<K: OrdKey, V: Diff>(node: Option<&Box<Node<K, V>>>) -> (r: bool)
    ensures
        r == (match node {
            Some(n) => !n.black,
            None => false,
        }),
{
    match node {
        Some(n) => !n.black,
        None => false,
    }
}

// ------------------------------------------------------ sortedness lemmas

/// Split sortedness of an in-order concatenation into its parts.
proof fn lemma_sorted_parts<K: OrdKey, V: Diff>(ls: Seq<Ev<K, V>>, e: Ev<K, V>, rs: Seq<Ev<K, V>>)
    requires
        keys_sorted::<K, V>(ls + seq![e] + rs),
    ensures
        keys_sorted::<K, V>(ls),
        keys_sorted::<K, V>(rs),
        forall|i: int| 0 <= i < ls.len() ==> K::lt_spec((#[trigger] ls[i]).key, e.key),
        forall|i: int| 0 <= i < rs.len() ==> K::lt_spec(e.key, (#[trigger] rs[i]).key),
{
    let all = ls + seq![e] + rs;
    assert(all[ls.len() as int] == e);
    assert forall|i: int| 0 <= i < ls.len() implies K::lt_spec((#[trigger] ls[i]).key, e.key) by {
        assert(all[i] == ls[i]);
    }
    assert forall|i: int| 0 <= i < rs.len() implies K::lt_spec(e.key, (#[trigger] rs[i]).key) by {
        assert(all[ls.len() + 1 + i] == rs[i]);
    }
    assert forall|i: int, j: int|
        0 <= i < j < ls.len() implies K::lt_spec((#[trigger] ls[i]).key, (#[trigger] ls[j]).key) by {
        assert(all[i] == ls[i] && all[j] == ls[j]);
    }
    assert forall|i: int, j: int|
        0 <= i < j < rs.len() implies K::lt_spec((#[trigger] rs[i]).key, (#[trigger] rs[j]).key) by {
        assert(all[ls.len() + 1 + i] == rs[i] && all[ls.len() + 1 + j] == rs[j]);
    }
}

/// A key smaller than `e.key` cannot sit in `seq![e] + rs` of a
/// sorted concatenation; one larger cannot sit in `ls + seq![e]`.
proof fn lemma_key_side<K: OrdKey, V: Diff>(
    ls: Seq<Ev<K, V>>,
    e: Ev<K, V>,
    rs: Seq<Ev<K, V>>,
    k: <K as View>::V,
)
    requires
        keys_sorted::<K, V>(ls + seq![e] + rs),
    ensures
        K::lt_spec(k, e.key) ==> !has_key::<K, V>(rs, k) && k != e.key,
        K::lt_spec(e.key, k) ==> !has_key::<K, V>(ls, k) && k != e.key,
{
    lemma_sorted_parts::<K, V>(ls, e, rs);
    if K::lt_spec(k, e.key) {
        K::lt_trichotomy(k, e.key);
        assert forall|i: int| 0 <= i < rs.len() implies (#[trigger] rs[i]).key != k by {
            K::lt_trans(k, e.key, rs[i].key);
            K::lt_trichotomy(k, rs[i].key);
        }
    }
    if K::lt_spec(e.key, k) {
        K::lt_trichotomy(e.key, k);
        assert forall|i: int| 0 <= i < ls.len() implies (#[trigger] ls[i]).key != k by {
            K::lt_trans(ls[i].key, e.key, k);
            K::lt_trichotomy(ls[i].key, k);
        }
    }
}

// ------------------------------------------------------------------ get

/// Search an optional subtree for `key`.
fn get_node<'a, K: OrdKey, V: Diff>(node: &'a Option<Box<Node<K, V>>>, key: &K) -> (r: Option<
    &'a Entry<K, V>,
>)
    requires
        keys_sorted::<K, V>(opt_entries(*node)),
    ensures
        match r {
            Some(e) => exists|i: int|
                0 <= i < opt_entries(*node).len() && (#[trigger] opt_entries(*node)[i]).key
                    == key@ && e@ == opt_entries(*node)[i],
            None => !has_key::<K, V>(opt_entries(*node), key@),
        },
    decreases node,
{
    match node {
        None => None,
        Some(n) => {
            let ghost ls = opt_entries(n.left);
            let ghost rs = opt_entries(n.right);
            let ghost e = n.entry@;
            proof {
                assert(opt_entries(*node) == ls + seq![e] + rs);
                lemma_sorted_parts::<K, V>(ls, e, rs);
            }
            match key.cmp_key(n.entry.as_key()) {
                KeyCmp::Equal => {
                    proof {
                        assert(opt_entries(*node)[ls.len() as int] == e);
                    }
                    Some(&n.entry)
                },
                KeyCmp::Less => {
                    proof {
                        lemma_key_side::<K, V>(ls, e, rs, key@);
                    }
                    let r = get_node(&n.left, key);
                    proof {
                        match r {
                            Some(ee) => {
                                let i = choose|i: int|
                                    0 <= i < ls.len() && (#[trigger] ls[i]).key == key@ && ee@
                                        == ls[i];
                                assert(opt_entries(*node)[i] == ls[i]);
                            },
                            None => {
                                assert forall|i: int|
                                    0 <= i < opt_entries(*node).len() implies (
                                #[trigger] opt_entries(*node)[i]).key != key@ by {
                                    if i < ls.len() {
                                        assert(opt_entries(*node)[i] == ls[i]);
                                    } else if i == ls.len() {
                                    } else {
                                        assert(opt_entries(*node)[i] == rs[i - ls.len() - 1]);
                                    }
                                }
                            },
                        }
                    }
                    r
                },
                KeyCmp::Greater => {
                    proof {
                        lemma_key_side::<K, V>(ls, e, rs, key@);
                    }
                    let r = get_node(&n.right, key);
                    proof {
                        match r {
                            Some(ee) => {
                                let i = choose|i: int|
                                    0 <= i < rs.len() && (#[trigger] rs[i]).key == key@ && ee@
                                        == rs[i];
                                assert(opt_entries(*node)[ls.len() + 1 + i] == rs[i]);
                            },
                            None => {
                                assert forall|i: int|
                                    0 <= i < opt_entries(*node).len() implies (
                                #[trigger] opt_entries(*node)[i]).key != key@ by {
                                    if i < ls.len() {
                                        assert(opt_entries(*node)[i] == ls[i]);
                                    } else if i == ls.len() {
                                    } else {
                                        assert(opt_entries(*node)[i] == rs[i - ls.len() - 1]);
                                    }
                                }
                            },
                        }
                    }
                    r
                },
            }
        },
    }
}

// --------------------------------------------------------- seq plumbing

/// Inserting on the left of a concatenation inserts into it.
proof fn lemma_insert_left<A>(ls: Seq<A>, ms: Seq<A>, x: A, i: int)
    requires
        0 <= i <= ls.len(),
    ensures
        ls.insert(i, x) + ms =~= (ls + ms).insert(i, x),
{
}

/// Inserting on the right of a concatenation inserts into it.
proof fn lemma_insert_right<A>(ls: Seq<A>, rs: Seq<A>, x: A, i: int)
    requires
        0 <= i <= rs.len(),
    ensures
        ls + rs.insert(i, x) =~= (ls + rs).insert(ls.len() + i, x),
{
}

// ------------------------------------------------------------ rotations

impl<K: OrdKey, V: Diff> Node<K, V> {
    /// Rotate the red right link to the left; in-order entries are
    /// unchanged.
    fn rotate_left(mut self: Box<Node<K, V>>) -> (r: Box<Node<K, V>>)
        requires
            self.right is Some,
        ensures
            r.entries() == self.entries(),
            r.left is Some,
            r.right == self.right.unwrap().right,
    {
        let ghost pre = self.entries();
        let ghost l0 = self.left;
        let ghost e0 = self.entry@;
        let ghost x0 = *self.right.unwrap();
        proof {
            assert(opt_entries(self.right) == x0.entries());
            assert(x0.entries() == opt_entries(x0.left) + seq![x0.entry@] + opt_entries(x0.right));
        }
        let mut x = match self.right.take() {
            Some(x) => x,
            None => {
                proof {
                    assert(false);
                }
                return vstd::pervasive::unreached();
            },
        };
        self.right = x.left.take();
        x.black = self.black;
        self.black = false;
        proof {
            assert(self.entries() == opt_entries(l0) + seq![e0] + opt_entries(x0.left));
        }
        x.left = Some(self);
        proof {
            assert(x.entries() == (opt_entries(l0) + seq![e0] + opt_entries(x0.left)) + seq![
                x0.entry@
            ] + opt_entries(x0.right));
            assert(x.entries() =~= pre);
        }
        x
    }

    /// Rotate the red left link to the right; in-order entries are
    /// unchanged.
    fn rotate_right(mut self: Box<Node<K, V>>) -> (r: Box<Node<K, V>>)
        requires
            self.left is Some,
        ensures
            r.entries() == self.entries(),
            r.right is Some,
            r.left == self.left.unwrap().left,
    {
        let ghost pre = self.entries();
        let ghost r0 = self.right;
        let ghost e0 = self.entry@;
        let ghost x0 = *self.left.unwrap();
        proof {
            assert(opt_entries(self.left) == x0.entries());
            assert(x0.entries() == opt_entries(x0.left) + seq![x0.entry@] + opt_entries(x0.right));
        }
        let mut x = match self.left.take() {
            Some(x) => x,
            None => {
                proof {
                    assert(false);
                }
                return vstd::pervasive::unreached();
            },
        };
        self.left = x.right.take();
        x.black = self.black;
        self.black = false;
        proof {
            assert(self.entries() == opt_entries(x0.right) + seq![e0] + opt_entries(r0));
        }
        x.right = Some(self);
        proof {
            assert(x.entries() == opt_entries(x0.left) + seq![x0.entry@] + (opt_entries(x0.right)
                + seq![e0] + opt_entries(r0)));
            assert(x.entries() =~= pre);
        }
        x
    }

    /// Flip the colors of this node and both children; in-order
    /// entries are unchanged.
    fn flip(&mut self)
        requires
            old(self).left is Some,
            old(self).right is Some,
        ensures
            final(self).entries() == old(self).entries(),
            final(self).left is Some,
            final(self).right is Some,
    {
        let ghost pre = self.entries();
        let ghost l0 = *old(self).left.unwrap();
        let ghost r0 = *old(self).right.unwrap();
        proof {
            assert(opt_entries(old(self).left) == l0.entries());
            assert(l0.entries() == opt_entries(l0.left) + seq![l0.entry@] + opt_entries(l0.right));
            assert(opt_entries(old(self).right) == r0.entries());
            assert(r0.entries() == opt_entries(r0.left) + seq![r0.entry@] + opt_entries(r0.right));
        }
        self.black = !self.black;
        let mut l = match self.left.take() {
            Some(l) => l,
            None => {
                proof {
                    assert(false);
                }
                return ;
            },
        };
        l.black = !l.black;
        self.left = Some(l);
        let mut r = match self.right.take() {
            Some(r) => r,
            None => {
                proof {
                    assert(false);
                }
                return ;
            },
        };
        r.black = !r.black;
        self.right = Some(r);
        proof {
            assert(opt_entries(self.left) == opt_entries(l0.left) + seq![l0.entry@] + opt_entries(
                l0.right,
            ));
            assert(opt_entries(self.right) == opt_entries(r0.left) + seq![r0.entry@] + opt_entries(
                r0.right,
            ));
            assert(self.entries() =~= pre);
        }
    }

    /// Restore the left-leaning shape after a mutation below this
    /// node; in-order entries are unchanged.
    fn walkuprot_23(self: Box<Node<K, V>>) -> (r: Box<Node<K, V>>)
        ensures
            r.entries() == self.entries(),
    {
        let mut node = self;
        if is_red(node.right.as_ref()) && !is_red(node.left.as_ref()) {
            node = node.rotate_left();
        }
        let left_red = is_red(node.left.as_ref());
        let left_left_red = match &node.left {
            Some(l) => is_red(l.left.as_ref()),
            None => false,
        };
        if left_red && left_left_red {
            node = node.rotate_right();
        }
        if is_red(node.left.as_ref()) && is_red(node.right.as_ref()) {
            node.flip();
        }
        node
    }

    /// Restore shape on the way out of a delete; in-order entries are
    /// unchanged.
    fn fixup(self: Box<Node<K, V>>) -> (r: Box<Node<K, V>>)
        ensures
            r.entries() == self.entries(),
    {
        let mut node = self;
        if is_red(node.right.as_ref()) {
            node = node.rotate_left();
        }
        let left_red = is_red(node.left.as_ref());
        let left_left_red = match &node.left {
            Some(l) => is_red(l.left.as_ref()),
            None => false,
        };
        if left_red && left_left_red {
            node = node.rotate_right();
        }
        if is_red(node.left.as_ref()) && is_red(node.right.as_ref()) {
            node.flip();
        }
        node
    }

    /// Borrow a red link from the right side while descending left;
    /// in-order entries are unchanged.
    fn move_red_left(self: Box<Node<K, V>>) -> (r: Box<Node<K, V>>)
        requires
            self.left is Some,
            self.right is Some,
        ensures
            r.entries() == self.entries(),
            r.left is Some,
    {
        let mut node = self;
        node.flip();
        let right_left_red = match &node.right {
            Some(rr) => is_red(rr.left.as_ref()),
            None => false,
        };
        if right_left_red {
            let rr = match node.right.take() {
                Some(rr) => rr,
                None => {
                    proof {
                        assert(false);
                    }
                    return vstd::pervasive::unreached();
                },
            };
            node.right = Some(rr.rotate_right());
            node = node.rotate_left();
            node.flip();
        }
        node
    }

    /// Borrow a red link from the left side while descending right;
    /// in-order entries are unchanged.
    fn move_red_right(self: Box<Node<K, V>>) -> (r: Box<Node<K, V>>)
        requires
            self.left is Some,
            self.right is Some,
        ensures
            r.entries() == self.entries(),
            r.right is Some,
    {
        let mut node = self;
        node.flip();
        let left_left_red = match &node.left {
            Some(l) => is_red(l.left.as_ref()),
            None => false,
        };
        if left_left_red {
            node = node.rotate_right();
            node.flip();
        }
        node
    }
}

// --------------------------------------------------------------- upsert

impl<K: OrdKey, V: Diff + crate::base::Footprint> Node<K, V> where V::D: crate::base::Footprint {
    /// Insert or update `nentry` in the subtree. Returns the new
    /// subtree and the previous entry for the key, if any.
    #[verifier::rlimit(100)]
    #[verifier::spinoff_prover]
    fn upsert(node: Option<Box<Node<K, V>>>, nentry: Entry<K, V>, lsm: bool) -> (r: (
        Option<Box<Node<K, V>>>,
        Option<Entry<K, V>>,
    ))
        requires
            keys_sorted::<K, V>(opt_entries(node)),
            entries_ok::<K, V>(opt_entries(node)),
            nentry@.deltas.len() == 0,
            nentry@.value matches ValueView::U { value: PayloadView::Native(_), .. },
            seqnos_below::<K, V>(opt_entries(node), value_seqno(nentry@.value)),
        ensures
            keys_sorted::<K, V>(opt_entries(r.0)),
            entries_ok::<K, V>(opt_entries(r.0)),
            seqnos_bounded::<K, V>(opt_entries(r.0), value_seqno(nentry@.value)),
            match r.1 {
                Some(olde) => exists|i: int|
                    {
                        &&& 0 <= i < opt_entries(node).len()
                        &&& (#[trigger] opt_entries(node)[i]).key == nentry@.key
                        &&& olde@ == opt_entries(node)[i]
                        &&& opt_entries(r.0).len() == opt_entries(node).len()
                        &&& (forall|j: int|
                            0 <= j < opt_entries(node).len() && j != i ==> opt_entries(r.0)[j]
                                == opt_entries(node)[j])
                        &&& upsert_rel::<K, V>(
                            opt_entries(node)[i],
                            opt_entries(r.0)[i],
                            nentry@,
                            lsm,
                        )
                    },
                None => !has_key::<K, V>(opt_entries(node), nentry@.key) && exists|i: int|
                    0 <= i <= opt_entries(node).len() && opt_entries(r.0) == opt_entries(
                        node,
                    ).insert(i, nentry@),
            },
        decreases node,
    {
        match node {
            None => {
                let ghost nev = nentry@;
                let n: Box<Node<K, V>> = Box::new(Node {
                    entry: nentry,
                    black: false,
                    left: None,
                    right: None,
                });
                proof {
                    assert(opt_entries(Some(n)) =~= Seq::empty().insert(0, nev));
                    assert(opt_entries::<K, V>(None) =~= Seq::<Ev<K, V>>::empty());
                    assert(entry_sorted(nev) && entry_resident(nev)) by {
                        assert(nev.deltas.len() == 0);
                        assert(value_is_resident(nev.value));
                        assert(chain_sorted(nev.value, nev.deltas));
                        assert(chain_resident(nev.value, nev.deltas));
                    }
                    assert(opt_entries(Some(n))[0] == nev);
                    assert(opt_entries(Some(n)).len() == 1);
                    assert forall|i: int| 0 <= i < opt_entries(Some(n)).len() implies entry_sorted(
                        #[trigger] opt_entries(Some(n))[i],
                    ) && entry_resident(opt_entries(Some(n))[i]) by {
                        assert(opt_entries(Some(n))[i] == nev);
                    }
                    assert(entries_ok::<K, V>(opt_entries(Some(n))));
                }
                (Some(n), None)
            },
            Some(mut n) => {
                let ghost pre = n.entries();
                let ghost ls = opt_entries(n.left);
                let ghost rs = opt_entries(n.right);
                let ghost e0 = n.entry@;
                proof {
                    assert(pre == ls + seq![e0] + rs);
                    lemma_sorted_parts::<K, V>(ls, e0, rs);
                    lemma_key_side::<K, V>(ls, e0, rs, nentry@.key);
                    lemma_entries_ok_split::<K, V>(ls, e0, rs);
                    assert(forall|i: int|
                        0 <= i < ls.len() ==> pre[i] == (#[trigger] ls[i]));
                    assert(forall|i: int|
                        0 <= i < rs.len() ==> pre[ls.len() + 1 + i] == (#[trigger] rs[i]));
                    assert(pre[ls.len() as int] == e0);
                }
                match nentry.as_key().cmp_key(n.entry.as_key()) {
                    KeyCmp::Greater => {
                        let right = n.right.take();
                        let ghost nev = nentry@;
                        let (right, olde) = Node::upsert(right, nentry, lsm);
                        let ghost rs2 = opt_entries(right);
                        n.right = right;
                        proof {
                            assert(n.entries() == ls + seq![e0] + rs2);
                        }
                        let out = n.walkuprot_23();
                        proof {
                            let es2 = out.entries();
                            assert(es2 == ls + seq![e0] + rs2);
                            lemma_entries_ok_parts::<K, V>(ls, e0, rs2);
                            match olde {
                                Some(_) => {
                                    let i = choose|i: int|
                                        {
                                            &&& 0 <= i < rs.len()
                                            &&& (#[trigger] rs[i]).key == nev.key
                                            &&& rs2.len() == rs.len()
                                            &&& (forall|j: int|
                                                0 <= j < rs.len() && j != i ==> rs2[j] == rs[j])
                                            &&& upsert_rel::<K, V>(rs[i], rs2[i], nev, lsm)
                                        };
                                    assert(pre[ls.len() + 1 + i] == rs[i]);
                                    assert(es2[ls.len() + 1 + i] == rs2[i]);
                                    assert(forall|j: int|
                                        0 <= j < pre.len() && j != ls.len() + 1 + i
                                            ==> #[trigger] es2[j] == pre[j]);
                                    lemma_sorted_same_keys::<K, V>(pre, es2);
                                },
                                None => {
                                    let i = choose|i: int|
                                        0 <= i <= rs.len() && rs2 == rs.insert(i, nev);
                                    lemma_insert_right::<Ev<K, V>>(ls + seq![e0], rs, nev, i);
                                    assert(ls + seq![e0] + rs.insert(i, nev) =~= (ls + seq![e0]
                                        + rs).insert(ls.len() + 1 + i, nev));
                                    let m = ls.len() + 1 + i;
                                    assert forall|j: int| 0 <= j < m implies K::lt_spec(
                                        (#[trigger] pre[j]).key,
                                        nev.key,
                                    ) by {
                                        if j < ls.len() {
                                            assert(pre[j] == ls[j]);
                                            K::lt_trans(ls[j].key, e0.key, nev.key);
                                        } else if j == ls.len() {
                                        } else {
                                            let t = j - ls.len() - 1;
                                            assert(pre[j] == rs[t]);
                                            assert(rs2[t] == rs[t] && rs2[i] == nev);
                                        }
                                    }
                                    assert forall|j: int| m <= j < pre.len() implies K::lt_spec(
                                        nev.key,
                                        (#[trigger] pre[j]).key,
                                    ) by {
                                        let t = j - ls.len() - 1;
                                        assert(pre[j] == rs[t]);
                                        assert(rs2[t + 1] == rs[t] && rs2[i] == nev);
                                    }
                                    lemma_sorted_insert::<K, V>(pre, es2, m, nev);
                                },
                            }
                        }
                        (Some(out), olde)
                    },
                    KeyCmp::Less => {
                        let left = n.left.take();
                        let ghost nev = nentry@;
                        let (left, olde) = Node::upsert(left, nentry, lsm);
                        let ghost ls2 = opt_entries(left);
                        n.left = left;
                        proof {
                            assert(n.entries() == ls2 + seq![e0] + rs);
                        }
                        let out = n.walkuprot_23();
                        proof {
                            let es2 = out.entries();
                            assert(es2 == ls2 + seq![e0] + rs);
                            lemma_entries_ok_parts::<K, V>(ls2, e0, rs);
                            match olde {
                                Some(_) => {
                                    let i = choose|i: int|
                                        {
                                            &&& 0 <= i < ls.len()
                                            &&& (#[trigger] ls[i]).key == nev.key
                                            &&& ls2.len() == ls.len()
                                            &&& (forall|j: int|
                                                0 <= j < ls.len() && j != i ==> ls2[j] == ls[j])
                                            &&& upsert_rel::<K, V>(ls[i], ls2[i], nev, lsm)
                                        };
                                    assert(pre[i] == ls[i]);
                                    assert(es2[i] == ls2[i]);
                                    assert(forall|j: int|
                                        0 <= j < pre.len() && j != i ==> #[trigger] es2[j]
                                            == pre[j]);
                                    lemma_sorted_same_keys::<K, V>(pre, es2);
                                },
                                None => {
                                    let i = choose|i: int|
                                        0 <= i <= ls.len() && ls2 == ls.insert(i, nev);
                                    lemma_insert_left::<Ev<K, V>>(ls, seq![e0] + rs, nev, i);
                                    assert(ls.insert(i, nev) + (seq![e0] + rs) =~= (ls + (seq![e0]
                                        + rs)).insert(i, nev));
                                    assert(ls2 + seq![e0] + rs =~= ls.insert(i, nev) + (seq![e0]
                                        + rs));
                                    assert(ls + (seq![e0] + rs) =~= pre);
                                    assert(es2 =~= pre.insert(i, nev));
                                    assert forall|j: int| 0 <= j < i implies K::lt_spec(
                                        (#[trigger] pre[j]).key,
                                        nev.key,
                                    ) by {
                                        assert(pre[j] == ls[j]);
                                        assert(ls2[j] == ls[j] && ls2[i] == nev);
                                    }
                                    assert forall|j: int| i <= j < pre.len() implies K::lt_spec(
                                        nev.key,
                                        (#[trigger] pre[j]).key,
                                    ) by {
                                        if j < ls.len() {
                                            assert(pre[j] == ls[j]);
                                            assert(ls2[j + 1] == ls[j] && ls2[i] == nev);
                                        } else if j == ls.len() {
                                        } else {
                                            assert(pre[j] == rs[j - ls.len() - 1]);
                                            K::lt_trans(nev.key, e0.key, rs[j - ls.len() - 1].key);
                                        }
                                    }
                                    lemma_sorted_insert::<K, V>(pre, es2, i, nev);
                                },
                            }
                        }
                        (Some(out), olde)
                    },
                    KeyCmp::Equal => {
                        let olde = n.entry.dup();
                        proof {
                            assert(entry_resident(e0)) by {
                                assert(pre[ls.len() as int] == e0);
                            }
                        }
                        let res = n.entry.prepend_version(nentry, lsm);
                        proof {
                            assert(res is Ok);
                            if lsm {
                                crate::entry::lemma_chain_sorted_prepend(
                                    e0.value,
                                    e0.deltas,
                                    n.entry@.value,
                                    n.entry@.deltas,
                                );
                            }
                        }
                        let ghost e2 = n.entry@;
                        proof {
                            assert(n.entries() == ls + seq![e2] + rs);
                            assert(entry_sorted(e2)) by {
                                if !lsm {
                                    assert(e2.deltas == e0.deltas);
                                    assert forall|t: int|
                                        0 <= t < e2.deltas.len() implies delta_seqno(
                                        e2.deltas[t],
                                    ) < crate::entry::chain_prev_seqno(e2.value, e2.deltas, t) by {
                                        assert(delta_seqno(e0.deltas[t])
                                            < crate::entry::chain_prev_seqno(
                                            e0.value,
                                            e0.deltas,
                                            t,
                                        ));
                                    }
                                }
                            }
                            assert(entry_resident(e2)) by {
                                if lsm {
                                    assert forall|t: int|
                                        0 <= t < e2.deltas.len() implies crate::entry::delta_is_resident(
                                        #[trigger] e2.deltas[t],
                                    ) by {
                                        if t > 0 {
                                            assert(e2.deltas[t] == e2.deltas.drop_first()[t - 1]);
                                            assert(crate::entry::delta_is_resident(
                                                e0.deltas[t - 1],
                                            ));
                                        }
                                    }
                                } else {
                                    assert(e2.deltas == e0.deltas);
                                    assert forall|t: int|
                                        0 <= t < e2.deltas.len() implies crate::entry::delta_is_resident(
                                        #[trigger] e2.deltas[t],
                                    ) by {
                                        assert(crate::entry::delta_is_resident(e0.deltas[t]));
                                    }
                                }
                            }
                        }
                        let out = n.walkuprot_23();
                        proof {
                            let es2 = out.entries();
                            assert(es2 == ls + seq![e2] + rs);
                            lemma_entries_ok_parts::<K, V>(ls, e2, rs);
                            assert(es2[ls.len() as int] == e2);
                            assert(forall|j: int|
                                0 <= j < pre.len() && j != ls.len() ==> #[trigger] es2[j]
                                    == pre[j]);
                            assert(upsert_rel::<K, V>(e0, e2, nentry@, lsm));
                            lemma_sorted_same_keys::<K, V>(pre, es2);
                        }
                        (Some(out), Some(olde))
                    },
                }
            },
        }
    }
}

/// Every seqno in the sequence is strictly below `s`.
pub open spec fn seqnos_below<K: OrdKey, V: Diff>(es: Seq<Ev<K, V>>, s: u64) -> bool {
    forall|i: int| 0 <= i < es.len() ==> value_seqno((#[trigger] es[i]).value) < s
}

/// `entries_ok` splits over an in-order concatenation.
proof fn lemma_entries_ok_parts<K: OrdKey, V: Diff>(
    ls: Seq<Ev<K, V>>,
    e: Ev<K, V>,
    rs: Seq<Ev<K, V>>,
)
    requires
        entries_ok::<K, V>(ls),
        entries_ok::<K, V>(rs),
        entry_sorted(e),
        entry_resident(e),
    ensures
        entries_ok::<K, V>(ls + seq![e] + rs),
{
    let all = ls + seq![e] + rs;
    assert forall|i: int|
        0 <= i < all.len() implies entry_sorted(#[trigger] all[i]) && entry_resident(all[i]) by {
        if i < ls.len() {
            assert(all[i] == ls[i]);
        } else if i == ls.len() {
            assert(all[i] == e);
        } else {
            assert(all[i] == rs[i - ls.len() - 1]);
        }
    }
}

/// `entries_ok` of a concatenation gives it for each part.
proof fn lemma_entries_ok_split<K: OrdKey, V: Diff>(
    ls: Seq<Ev<K, V>>,
    e: Ev<K, V>,
    rs: Seq<Ev<K, V>>,
)
    requires
        entries_ok::<K, V>(ls + seq![e] + rs),
    ensures
        entries_ok::<K, V>(ls),
        entries_ok::<K, V>(rs),
        entry_sorted(e),
        entry_resident(e),
{
    let all = ls + seq![e] + rs;
    assert(all[ls.len() as int] == e);
    assert forall|i: int|
        0 <= i < ls.len() implies entry_sorted(#[trigger] ls[i]) && entry_resident(ls[i]) by {
        assert(all[i] == ls[i]);
    }
    assert forall|i: int|
        0 <= i < rs.len() implies entry_sorted(#[trigger] rs[i]) && entry_resident(rs[i]) by {
        assert(all[ls.len() + 1 + i] == rs[i]);
    }
}

/// Two sequences of equal length with pairwise-equal keys are both
/// sorted or both not.
proof fn lemma_sorted_same_keys<K: OrdKey, V: Diff>(a: Seq<Ev<K, V>>, b: Seq<Ev<K, V>>)
    requires
        keys_sorted::<K, V>(a),
        a.len() == b.len(),
        forall|i: int| 0 <= i < a.len() ==> (#[trigger] b[i]).key == a[i].key,
    ensures
        keys_sorted::<K, V>(b),
{
}

/// Inserting an element keeps a sorted sequence sorted when it lands
/// between its neighbours.
proof fn lemma_sorted_insert<K: OrdKey, V: Diff>(
    a: Seq<Ev<K, V>>,
    b: Seq<Ev<K, V>>,
    i: int,
    x: Ev<K, V>,
)
    requires
        keys_sorted::<K, V>(a),
        0 <= i <= a.len(),
        b == a.insert(i, x),
        forall|j: int| 0 <= j < i ==> K::lt_spec((#[trigger] a[j]).key, x.key),
        forall|j: int| i <= j < a.len() ==> K::lt_spec(x.key, (#[trigger] a[j]).key),
    ensures
        keys_sorted::<K, V>(b),
{
    assert forall|p: int, q: int|
        0 <= p < q < b.len() implies K::lt_spec((#[trigger] b[p]).key, (#[trigger] b[q]).key) by {
        if p < i && q < i {
            assert(b[p] == a[p] && b[q] == a[q]);
        } else if p < i && q == i {
            assert(b[p] == a[p]);
        } else if p < i && q > i {
            assert(b[p] == a[p] && b[q] == a[q - 1]);
        } else if p == i && q > i {
            assert(b[q] == a[q - 1]);
        } else if p > i && q > i {
            assert(b[p] == a[p - 1] && b[q] == a[q - 1]);
        }
    }
}

// --------------------------------------------------------------- delete

/// Deleting in lsm mode turns the current value into a tombstone and
/// preserves it as the newest delta.
pub open spec fn delete_rel<K: OrdKey, V: Diff>(pre: Ev<K, V>, post: Ev<K, V>, seqno: u64) -> bool {
    &&& post.key == pre.key
    &&& post.value == ValueView::<<V as View>::V>::D { seqno }
    &&& post.deltas.len() == pre.deltas.len() + 1
    &&& post.deltas.drop_first() == pre.deltas
    &&& delta_seqno(post.deltas[0]) == value_seqno(pre.value)
    &&& next_value_spec::<V>(None, post.deltas[0]) == pre.value
}

/// Removing an element keeps a sorted sequence sorted.
proof fn lemma_sorted_remove<K: OrdKey, V: Diff>(a: Seq<Ev<K, V>>, i: int)
    requires
        keys_sorted::<K, V>(a),
        entries_ok::<K, V>(a),
        0 <= i < a.len(),
    ensures
        keys_sorted::<K, V>(a.remove(i)),
        entries_ok::<K, V>(a.remove(i)),
{
    let b = a.remove(i);
    assert forall|p: int, q: int|
        0 <= p < q < b.len() implies K::lt_spec((#[trigger] b[p]).key, (#[trigger] b[q]).key) by {
        let p0 = if p < i { p } else { p + 1 };
        let q0 = if q < i { q } else { q + 1 };
        assert(b[p] == a[p0] && b[q] == a[q0]);
    }
    assert forall|p: int|
        0 <= p < b.len() implies entry_sorted(#[trigger] b[p]) && entry_resident(b[p]) by {
        let p0 = if p < i { p } else { p + 1 };
        assert(b[p] == a[p0]);
    }
}

/// Sortedness of an in-order concatenation from its parts.
proof fn lemma_sorted_join<K: OrdKey, V: Diff>(ls: Seq<Ev<K, V>>, e: Ev<K, V>, rs: Seq<Ev<K, V>>)
    requires
        keys_sorted::<K, V>(ls),
        keys_sorted::<K, V>(rs),
        forall|i: int| 0 <= i < ls.len() ==> K::lt_spec((#[trigger] ls[i]).key, e.key),
        forall|i: int| 0 <= i < rs.len() ==> K::lt_spec(e.key, (#[trigger] rs[i]).key),
    ensures
        keys_sorted::<K, V>(ls + seq![e] + rs),
{
    let all = ls + seq![e] + rs;
    assert forall|p: int, q: int|
        0 <= p < q < all.len() implies K::lt_spec((#[trigger] all[p]).key, (#[trigger] all[q]).key)
        by {
        if p < ls.len() {
            assert(all[p] == ls[p]);
        } else if p == ls.len() {
            assert(all[p] == e);
        } else {
            assert(all[p] == rs[p - ls.len() - 1]);
        }
        if q < ls.len() {
            assert(all[q] == ls[q]);
        } else if q == ls.len() {
            assert(all[q] == e);
        } else {
            assert(all[q] == rs[q - ls.len() - 1]);
        }
        if p < ls.len() && q > ls.len() {
            K::lt_trans(ls[p].key, e.key, rs[q - ls.len() - 1].key);
        }
    }
}

impl<K: OrdKey, V: Diff + crate::base::Footprint> Node<K, V> where V::D: crate::base::Footprint {
    /// Delete in lsm mode: mark the entry as a tombstone, creating a
    /// fresh tombstoned entry when the key is absent; a delete of an
    /// already-deleted entry is a no-op.
    #[verifier::rlimit(100)]
    #[verifier::spinoff_prover]
    fn delete_lsm(node: Option<Box<Node<K, V>>>, key: &K, seqno: u64) -> (r: (
        Option<Box<Node<K, V>>>,
        Option<Entry<K, V>>,
    ))
        requires
            keys_sorted::<K, V>(opt_entries(node)),
            entries_ok::<K, V>(opt_entries(node)),
            seqnos_below::<K, V>(opt_entries(node), seqno),
        ensures
            keys_sorted::<K, V>(opt_entries(r.0)),
            entries_ok::<K, V>(opt_entries(r.0)),
            seqnos_bounded::<K, V>(opt_entries(r.0), seqno),
            match r.1 {
                Some(olde) => exists|i: int|
                    {
                        &&& 0 <= i < opt_entries(node).len()
                        &&& (#[trigger] opt_entries(node)[i]).key == key@
                        &&& olde@ == opt_entries(node)[i]
                        &&& opt_entries(r.0).len() == opt_entries(node).len()
                        &&& (forall|j: int|
                            0 <= j < opt_entries(node).len() && j != i ==> opt_entries(r.0)[j]
                                == opt_entries(node)[j])
                        &&& if value_is_deleted(opt_entries(node)[i].value) {
                            opt_entries(r.0)[i] == opt_entries(node)[i]
                        } else {
                            delete_rel::<K, V>(opt_entries(node)[i], opt_entries(r.0)[i], seqno)
                        }
                    },
                None => !has_key::<K, V>(opt_entries(node), key@) && exists|i: int|
                    0 <= i <= opt_entries(node).len() && opt_entries(r.0) == opt_entries(
                        node,
                    ).insert(
                        i,
                        EntryView {
                            key: key@,
                            value: ValueView::<<V as View>::V>::D { seqno },
                            deltas: Seq::empty(),
                        },
                    ),
            },
        decreases node,
    {
        match node {
            None => {
                let e = Entry::new(key.clone_key(), Value::new_delete(seqno));
                let ghost nev = e@;
                let n: Box<Node<K, V>> = Box::new(Node {
                    entry: e,
                    black: false,
                    left: None,
                    right: None,
                });
                proof {
                    assert(opt_entries(Some(n)) =~= Seq::empty().insert(0, nev));
                    assert(opt_entries::<K, V>(None) =~= Seq::<Ev<K, V>>::empty());
                    assert(opt_entries(Some(n))[0] == nev);
                    assert(entry_sorted(nev) && entry_resident(nev)) by {
                        assert(nev.deltas.len() == 0);
                    }
                    assert forall|i: int| 0 <= i < opt_entries(Some(n)).len() implies entry_sorted(
                        #[trigger] opt_entries(Some(n))[i],
                    ) && entry_resident(opt_entries(Some(n))[i]) by {
                        assert(opt_entries(Some(n))[i] == nev);
                    }
                }
                (Some(n), None)
            },
            Some(mut n) => {
                let ghost pre = n.entries();
                let ghost ls = opt_entries(n.left);
                let ghost rs = opt_entries(n.right);
                let ghost e0 = n.entry@;
                proof {
                    assert(pre == ls + seq![e0] + rs);
                    lemma_sorted_parts::<K, V>(ls, e0, rs);
                    lemma_key_side::<K, V>(ls, e0, rs, key@);
                    lemma_entries_ok_split::<K, V>(ls, e0, rs);
                    assert(forall|i: int| 0 <= i < ls.len() ==> pre[i] == (#[trigger] ls[i]));
                    assert(forall|i: int|
                        0 <= i < rs.len() ==> pre[ls.len() + 1 + i] == (#[trigger] rs[i]));
                    assert(pre[ls.len() as int] == e0);
                }
                match key.cmp_key(n.entry.as_key()) {
                    KeyCmp::Less => {
                        let left = n.left.take();
                        let (left, olde) = Node::delete_lsm(left, key, seqno);
                        let ghost ls2 = opt_entries(left);
                        n.left = left;
                        proof {
                            assert(n.entries() == ls2 + seq![e0] + rs);
                        }
                        let out = n.walkuprot_23();
                        proof {
                            let es2 = out.entries();
                            assert(es2 == ls2 + seq![e0] + rs);
                            lemma_entries_ok_parts::<K, V>(ls2, e0, rs);
                            match olde {
                                Some(_) => {
                                    let i = choose|i: int|
                                        {
                                            &&& 0 <= i < ls.len()
                                            &&& (#[trigger] ls[i]).key == key@
                                            &&& ls2.len() == ls.len()
                                            &&& (forall|j: int|
                                                0 <= j < ls.len() && j != i ==> ls2[j] == ls[j])
                                        };
                                    assert(pre[i] == ls[i]);
                                    assert(es2[i] == ls2[i]);
                                    assert(forall|j: int|
                                        0 <= j < pre.len() && j != i ==> #[trigger] es2[j]
                                            == pre[j]);
                                    lemma_sorted_same_keys::<K, V>(pre, es2);
                                },
                                None => {
                                    let nev = EntryView {
                                        key: key@,
                                        value: ValueView::<<V as View>::V>::D { seqno },
                                        deltas: Seq::empty(),
                                    };
                                    let i = choose|i: int|
                                        0 <= i <= ls.len() && ls2 == ls.insert(i, nev);
                                    lemma_insert_left::<Ev<K, V>>(ls, seq![e0] + rs, nev, i);
                                    assert(ls.insert(i, nev) + (seq![e0] + rs) =~= (ls + (seq![e0]
                                        + rs)).insert(i, nev));
                                    assert(ls2 + seq![e0] + rs =~= ls.insert(i, nev) + (seq![e0]
                                        + rs));
                                    assert(ls + (seq![e0] + rs) =~= pre);
                                    assert(es2 =~= pre.insert(i, nev));
                                    assert forall|j: int| 0 <= j < i implies K::lt_spec(
                                        (#[trigger] pre[j]).key,
                                        nev.key,
                                    ) by {
                                        assert(pre[j] == ls[j]);
                                        assert(ls2[j] == ls[j] && ls2[i] == nev);
                                    }
                                    assert forall|j: int| i <= j < pre.len() implies K::lt_spec(
                                        nev.key,
                                        (#[trigger] pre[j]).key,
                                    ) by {
                                        if j < ls.len() {
                                            assert(pre[j] == ls[j]);
                                            assert(ls2[j + 1] == ls[j] && ls2[i] == nev);
                                        } else if j == ls.len() {
                                        } else {
                                            assert(pre[j] == rs[j - ls.len() - 1]);
                                            K::lt_trans(nev.key, e0.key, rs[j - ls.len() - 1].key);
                                        }
                                    }
                                    lemma_sorted_insert::<K, V>(pre, es2, i, nev);
                                },
                            }
                        }
                        (Some(out), olde)
                    },
                    KeyCmp::Greater => {
                        let right = n.right.take();
                        let (right, olde) = Node::delete_lsm(right, key, seqno);
                        let ghost rs2 = opt_entries(right);
                        n.right = right;
                        proof {
                            assert(n.entries() == ls + seq![e0] + rs2);
                        }
                        let out = n.walkuprot_23();
                        proof {
                            let es2 = out.entries();
                            assert(es2 == ls + seq![e0] + rs2);
                            lemma_entries_ok_parts::<K, V>(ls, e0, rs2);
                            match olde {
                                Some(_) => {
                                    let i = choose|i: int|
                                        {
                                            &&& 0 <= i < rs.len()
                                            &&& (#[trigger] rs[i]).key == key@
                                            &&& rs2.len() == rs.len()
                                            &&& (forall|j: int|
                                                0 <= j < rs.len() && j != i ==> rs2[j] == rs[j])
                                        };
                                    assert(pre[ls.len() + 1 + i] == rs[i]);
                                    assert(es2[ls.len() + 1 + i] == rs2[i]);
                                    assert(forall|j: int|
                                        0 <= j < pre.len() && j != ls.len() + 1 + i
                                            ==> #[trigger] es2[j] == pre[j]);
                                    lemma_sorted_same_keys::<K, V>(pre, es2);
                                },
                                None => {
                                    let nev = EntryView {
                                        key: key@,
                                        value: ValueView::<<V as View>::V>::D { seqno },
                                        deltas: Seq::empty(),
                                    };
                                    let i = choose|i: int|
                                        0 <= i <= rs.len() && rs2 == rs.insert(i, nev);
                                    lemma_insert_right::<Ev<K, V>>(ls + seq![e0], rs, nev, i);
                                    assert(ls + seq![e0] + rs.insert(i, nev) =~= (ls + seq![e0]
                                        + rs).insert(ls.len() + 1 + i, nev));
                                    let m = ls.len() + 1 + i;
                                    assert forall|j: int| 0 <= j < m implies K::lt_spec(
                                        (#[trigger] pre[j]).key,
                                        nev.key,
                                    ) by {
                                        if j < ls.len() {
                                            assert(pre[j] == ls[j]);
                                            K::lt_trans(ls[j].key, e0.key, nev.key);
                                        } else if j == ls.len() {
                                        } else {
                                            let t = j - ls.len() - 1;
                                            assert(pre[j] == rs[t]);
                                            assert(rs2[t] == rs[t] && rs2[i] == nev);
                                        }
                                    }
                                    assert forall|j: int| m <= j < pre.len() implies K::lt_spec(
                                        nev.key,
                                        (#[trigger] pre[j]).key,
                                    ) by {
                                        let t = j - ls.len() - 1;
                                        assert(pre[j] == rs[t]);
                                        assert(rs2[t + 1] == rs[t] && rs2[i] == nev);
                                    }
                                    lemma_sorted_insert::<K, V>(pre, es2, m, nev);
                                },
                            }
                        }
                        (Some(out), olde)
                    },
                    KeyCmp::Equal => {
                        let olde = n.entry.dup();
                        let deleted = n.entry.is_deleted();
                        if !deleted {
                            let res = n.entry.delete(seqno);
                            proof {
                                assert(res is Ok);
                                crate::entry::lemma_chain_sorted_prepend(
                                    e0.value,
                                    e0.deltas,
                                    n.entry@.value,
                                    n.entry@.deltas,
                                );
                            }
                        }
                        let ghost e2 = n.entry@;
                        proof {
                            assert(n.entries() == ls + seq![e2] + rs);
                            assert(entry_sorted(e2) && entry_resident(e2)) by {
                                if deleted {
                                    assert(e2 == e0);
                                } else {
                                    assert forall|t: int|
                                        0 <= t < e2.deltas.len() implies crate::entry::delta_is_resident(
                                        #[trigger] e2.deltas[t],
                                    ) by {
                                        if t > 0 {
                                            assert(e2.deltas[t] == e2.deltas.drop_first()[t - 1]);
                                            assert(crate::entry::delta_is_resident(
                                                e0.deltas[t - 1],
                                            ));
                                        }
                                    }
                                }
                            }
                        }
                        let out = n.walkuprot_23();
                        proof {
                            let es2 = out.entries();
                            assert(es2 == ls + seq![e2] + rs);
                            lemma_entries_ok_parts::<K, V>(ls, e2, rs);
                            assert(es2[ls.len() as int] == e2);
                            assert(forall|j: int|
                                0 <= j < pre.len() && j != ls.len() ==> #[trigger] es2[j]
                                    == pre[j]);
                            lemma_sorted_same_keys::<K, V>(pre, es2);
                        }
                        (Some(out), Some(olde))
                    },
                }
            },
        }
    }
}

impl<K: OrdKey, V: Diff> Node<K, V> {
    /// Remove and return the leftmost entry of the subtree.
    fn delete_min(node: Option<Box<Node<K, V>>>) -> (r: (
        Option<Box<Node<K, V>>>,
        Option<Entry<K, V>>,
    ))
        requires
            keys_sorted::<K, V>(opt_entries(node)),
            entries_ok::<K, V>(opt_entries(node)),
        ensures
            keys_sorted::<K, V>(opt_entries(r.0)),
            entries_ok::<K, V>(opt_entries(r.0)),
            match r.1 {
                Some(e) => opt_entries(node).len() > 0 && e@ == opt_entries(node)[0]
                    && opt_entries(r.0) == opt_entries(node).drop_first(),
                None => opt_entries(node).len() == 0 && opt_entries(r.0) == opt_entries(node),
            },
        decreases opt_entries(node).len(),
    {
        match node {
            None => (None, None),
            Some(mut n) => {
                let ghost pre = n.entries();
                let ghost ls = opt_entries(n.left);
                let ghost rs = opt_entries(n.right);
                let ghost e0 = n.entry@;
                proof {
                    assert(pre == ls + seq![e0] + rs);
                    lemma_sorted_parts::<K, V>(ls, e0, rs);
                    lemma_entries_ok_split::<K, V>(ls, e0, rs);
                }
                if n.left.is_none() {
                    let right = n.right.take();
                    let e = match n.entry_into() {
                        e => e,
                    };
                    proof {
                        assert(ls =~= Seq::<Ev<K, V>>::empty());
                        assert(pre.drop_first() =~= rs);
                        assert(pre[0] == e0);
                    }
                    return (right, Some(e));
                }
                let left_red = is_red(n.left.as_ref());
                let left_left_red = match &n.left {
                    Some(l) => is_red(l.left.as_ref()),
                    None => false,
                };
                if !left_red && !left_left_red {
                    n = n.move_red_left_total();
                }
                let ghost ls_now = opt_entries(n.left);
                let ghost rs_now = opt_entries(n.right);
                let ghost e_now = n.entry@;
                proof {
                    assert(n.entries() == pre);
                    assert(n.entries() == ls_now + seq![e_now] + rs_now);
                    lemma_sorted_parts::<K, V>(ls_now, e_now, rs_now);
                    lemma_entries_ok_split::<K, V>(ls_now, e_now, rs_now);
                }
                let left = n.left.take();
                let (left, olde) = Node::delete_min(left);
                let ghost ls2 = opt_entries(left);
                n.left = left;
                proof {
                    assert(n.entries() == ls2 + seq![e_now] + rs_now);
                }
                let out = n.fixup();
                proof {
                    let es2 = out.entries();
                    assert(es2 == ls2 + seq![e_now] + rs_now);
                    match olde {
                        Some(_) => {
                            assert(ls2 == ls_now.drop_first());
                            assert(es2 =~= pre.drop_first()) by {
                                assert(forall|j: int|
                                    0 <= j < es2.len() ==> #[trigger] es2[j] == pre[j + 1]);
                            }
                            lemma_sorted_remove::<K, V>(pre, 0);
                            assert(pre.remove(0) =~= pre.drop_first());
                            assert(pre[0] == ls_now[0]);
                        },
                        None => {
                            assert(ls_now.len() == 0);
                            assert(pre.len() > 0);
                            assert(false) by {
                                assert(ls.len() > 0);
                                assert(pre.len() == ls_now.len() + 1 + rs_now.len());
                                assert(pre.len() == ls.len() + 1 + rs.len());
                            }
                        },
                    }
                }
                (Some(out), olde)
            },
        }
    }

    /// Take this node's entry, dropping the node.
    fn entry_into(self: Box<Node<K, V>>) -> (r: Entry<K, V>)
        ensures
            r@ == self.entry@,
    {
        let n = *self;
        n.entry
    }

    /// `move_red_left` made total: when a child link is missing the
    /// node is returned unchanged (a balanced tree always has both
    /// children here).
    fn move_red_left_total(self: Box<Node<K, V>>) -> (r: Box<Node<K, V>>)
        ensures
            r.entries() == self.entries(),
            r.left == self.left || r.left is Some,
    {
        if self.left.is_some() && self.right.is_some() {
            self.move_red_left()
        } else {
            self
        }
    }

    /// `move_red_right` made total, as with
    /// [`Node::move_red_left_total`].
    fn move_red_right_total(self: Box<Node<K, V>>) -> (r: Box<Node<K, V>>)
        ensures
            r.entries() == self.entries(),
    {
        if self.left.is_some() && self.right.is_some() {
            self.move_red_right()
        } else {
            self
        }
    }
}

// ---------------------------------------------------- physical removal

impl<K: OrdKey, V: Diff> Node<K, V> {
    /// Physically remove `key` from the subtree (non-lsm mode). The
    /// red-borrowing moves run first, keyed on the incoming root;
    /// the descent then follows a fresh comparison against the root
    /// they produced, which on a balanced tree walks the same path
    /// the classic algorithm does.
    #[verifier::rlimit(100)]
    #[verifier::spinoff_prover]
    fn do_delete(node: Option<Box<Node<K, V>>>, key: &K) -> (r: (
        Option<Box<Node<K, V>>>,
        Option<Entry<K, V>>,
    ))
        requires
            keys_sorted::<K, V>(opt_entries(node)),
            entries_ok::<K, V>(opt_entries(node)),
        ensures
            keys_sorted::<K, V>(opt_entries(r.0)),
            entries_ok::<K, V>(opt_entries(r.0)),
            match r.1 {
                Some(olde) => exists|i: int|
                    {
                        &&& 0 <= i < opt_entries(node).len()
                        &&& (#[trigger] opt_entries(node)[i]).key == key@
                        &&& olde@ == opt_entries(node)[i]
                        &&& opt_entries(r.0) == opt_entries(node).remove(i)
                    },
                None => opt_entries(r.0) == opt_entries(node) && !has_key::<K, V>(
                    opt_entries(node),
                    key@,
                ),
            },
        decreases opt_entries(node).len(),
    {
        let mut n = match node {
            None => {
                return (None, None);
            },
            Some(n) => n,
        };
        let ghost pre0 = n.entries();
        proof {
            assert(opt_entries(node) == pre0);
        }
        // rebalancing moves, keyed on the incoming root
        let less0 = match key.cmp_key(n.entry.as_key()) {
            KeyCmp::Less => true,
            _ => false,
        };
        if less0 {
            if n.left.is_some() {
                let left_red = is_red(n.left.as_ref());
                let left_left_red = match &n.left {
                    Some(l) => is_red(l.left.as_ref()),
                    None => false,
                };
                if !left_red && !left_left_red {
                    n = n.move_red_left_total();
                }
            }
        } else {
            if is_red(n.left.as_ref()) {
                n = n.rotate_right();
            }
            let right_some = n.right.is_some();
            let right_red = is_red(n.right.as_ref());
            let right_left_red = match &n.right {
                Some(rr) => is_red(rr.left.as_ref()),
                None => false,
            };
            if right_some && !right_red && !right_left_red {
                n = n.move_red_right_total();
            }
        }
        proof {
            assert(n.entries() == pre0);
        }
        // descend by a fresh comparison against the produced root
        let ghost ls = opt_entries(n.left);
        let ghost rs = opt_entries(n.right);
        let ghost e0 = n.entry@;
        proof {
            assert(pre0 == ls + seq![e0] + rs);
            lemma_sorted_parts::<K, V>(ls, e0, rs);
            lemma_key_side::<K, V>(ls, e0, rs, key@);
            lemma_entries_ok_split::<K, V>(ls, e0, rs);
            assert(forall|i: int| 0 <= i < ls.len() ==> pre0[i] == (#[trigger] ls[i]));
            assert(forall|i: int|
                0 <= i < rs.len() ==> pre0[ls.len() + 1 + i] == (#[trigger] rs[i]));
            assert(pre0[ls.len() as int] == e0);
        }
        match key.cmp_key(n.entry.as_key()) {
            KeyCmp::Less => {
                let left = n.left.take();
                let (left, olde) = Node::do_delete(left, key);
                let ghost ls2 = opt_entries(left);
                n.left = left;
                proof {
                    assert(n.entries() == ls2 + seq![e0] + rs);
                }
                let out = n.fixup();
                proof {
                    let es2 = out.entries();
                    assert(es2 == ls2 + seq![e0] + rs);
                    match olde {
                        Some(_) => {
                            let i = choose|i: int|
                                0 <= i < ls.len() && (#[trigger] ls[i]).key == key@ && ls2
                                    == ls.remove(i);
                            assert(es2 =~= pre0.remove(i)) by {
                                assert(forall|j: int|
                                    0 <= j < i ==> #[trigger] es2[j] == pre0[j]);
                                assert(forall|j: int|
                                    i <= j < es2.len() ==> #[trigger] es2[j] == pre0[j + 1]);
                            }
                            lemma_sorted_remove::<K, V>(pre0, i);
                            assert(exists|i: int|
                                {
                                    &&& 0 <= i < pre0.len()
                                    &&& (#[trigger] pre0[i]).key == key@
                                    &&& olde.unwrap()@ == pre0[i]
                                    &&& es2 == pre0.remove(i)
                                });
                        },
                        None => {
                            assert(es2 =~= pre0);
                            assert forall|i: int|
                                0 <= i < pre0.len() implies (#[trigger] pre0[i]).key != key@ by {
                                if i < ls.len() {
                                    assert(pre0[i] == ls[i]);
                                } else if i == ls.len() {
                                } else {
                                    assert(pre0[i] == rs[i - ls.len() - 1]);
                                }
                            }
                        },
                    }
                }
                (Some(out), olde)
            },
            KeyCmp::Greater => {
                let right = n.right.take();
                let (right, olde) = Node::do_delete(right, key);
                let ghost rs2 = opt_entries(right);
                n.right = right;
                proof {
                    assert(n.entries() == ls + seq![e0] + rs2);
                }
                let out = n.fixup();
                proof {
                    let es2 = out.entries();
                    assert(es2 == ls + seq![e0] + rs2);
                    match olde {
                        Some(_) => {
                            let i = choose|i: int|
                                0 <= i < rs.len() && (#[trigger] rs[i]).key == key@ && rs2
                                    == rs.remove(i);
                            assert(es2 =~= pre0.remove(ls.len() + 1 + i)) by {
                                assert(forall|j: int|
                                    0 <= j < ls.len() + 1 + i ==> #[trigger] es2[j] == pre0[j]);
                                assert(forall|j: int|
                                    ls.len() + 1 + i <= j < es2.len() ==> #[trigger] es2[j]
                                        == pre0[j + 1]);
                            }
                            lemma_sorted_remove::<K, V>(pre0, ls.len() + 1 + i);
                            assert(exists|i: int|
                                {
                                    &&& 0 <= i < pre0.len()
                                    &&& (#[trigger] pre0[i]).key == key@
                                    &&& olde.unwrap()@ == pre0[i]
                                    &&& es2 == pre0.remove(i)
                                });
                        },
                        None => {
                            assert(es2 =~= pre0);
                            assert forall|i: int|
                                0 <= i < pre0.len() implies (#[trigger] pre0[i]).key != key@ by {
                                if i < ls.len() {
                                    assert(pre0[i] == ls[i]);
                                } else if i == ls.len() {
                                    K::lt_trichotomy(key@, e0.key);
                                } else {
                                    assert(pre0[i] == rs[i - ls.len() - 1]);
                                }
                            }
                        },
                    }
                }
                (Some(out), olde)
            },
            KeyCmp::Equal => {
                if n.right.is_none() {
                    proof {
                        assert(rs.len() == 0);
                        assert(pre0.remove(ls.len() as int) =~= ls);
                        assert(exists|i: int|
                            {
                                &&& 0 <= i < pre0.len()
                                &&& (#[trigger] pre0[i]).key == key@
                                &&& e0 == pre0[i]
                                &&& ls == pre0.remove(i)
                            });
                    }
                    let left = n.left.take();
                    let e = n.entry_into();
                    return (left, Some(e));
                }
                let right = n.right.take();
                let (right, minent) = Node::delete_min(right);
                let ghost rs2 = opt_entries(right);
                let mine = match minent {
                    Some(m) => m,
                    None => {
                        proof {
                            assert(false);
                        }
                        return vstd::pervasive::unreached();
                    },
                };
                let olde = n.entry.dup();
                n.entry = mine;
                n.right = right;
                proof {
                    assert(n.entries() == ls + seq![rs[0]] + rs.drop_first());
                }
                let out = n.fixup();
                proof {
                    let es2 = out.entries();
                    assert(es2 == ls + seq![rs[0]] + rs.drop_first());
                    assert(es2 =~= pre0.remove(ls.len() as int)) by {
                        assert(forall|j: int| 0 <= j < ls.len() ==> #[trigger] es2[j] == pre0[j]);
                        assert(forall|j: int|
                            ls.len() <= j < es2.len() ==> #[trigger] es2[j] == pre0[j + 1]);
                    }
                    lemma_sorted_remove::<K, V>(pre0, ls.len() as int);
                    assert(exists|i: int|
                        {
                            &&& 0 <= i < pre0.len()
                            &&& (#[trigger] pre0[i]).key == key@
                            &&& olde@ == pre0[i]
                            &&& es2 == pre0.remove(i)
                        });
                }
                (Some(out), Some(olde))
            },
        }
    }
}

// ------------------------------------------------------------- balance

/// No red node has a red child.
spec fn no_red_red<K: OrdKey, V: Diff>(node: Option<Box<Node<K, V>>>) -> bool
    decreases node,
{
    match node {
        None => true,
        Some(n) => {
            &&& (!n.black ==> (match n.left {
                Some(l) => l.black,
                None => true,
            }) && (match n.right {
                Some(r) => r.black,
                None => true,
            }))
            &&& no_red_red(n.left)
            &&& no_red_red(n.right)
        },
    }
}

/// The number of black nodes on every root-to-leaf path, when it is
/// the same on all of them.
spec fn black_height<K: OrdKey, V: Diff>(node: Option<Box<Node<K, V>>>) -> int
    decreases node,
{
    match node {
        None => 0,
        Some(n) => black_height(n.left) + if n.black {
            1int
        } else {
            0int
        },
    }
}

/// Both subtrees of every node carry equally many blacks.
spec fn black_balanced<K: OrdKey, V: Diff>(node: Option<Box<Node<K, V>>>) -> bool
    decreases node,
{
    match node {
        None => true,
        Some(n) => {
            &&& black_height(n.left) == black_height(n.right)
            &&& black_balanced(n.left)
            &&& black_balanced(n.right)
        },
    }
}

impl<K: OrdKey, V: Diff> Node<K, V> {
    /// Walk the subtree checking the red-black invariants, collecting
    /// the leaf-depth distribution; returns the black height.
    fn validate_tree(
        node: &Option<Box<Node<K, V>>>,
        fromred: bool,
        depth: usize,
        depths: &mut crate::llrb_util::Depth,
    ) -> (r: Result<usize>)
        ensures
            r is Ok <==> no_red_red(*node) && black_balanced(*node) && (fromred ==> (
            match node {
                Some(n) => n.black,
                None => true,
            })) && black_height(*node) <= usize::MAX,
            r matches Ok(nb) ==> nb == black_height(*node),
        decreases node,
    {
        let n = match node {
            None => {
                if depth < usize::MAX {
                    depths.sample(depth);
                }
                return Ok(0);
            },
            Some(n) => n,
        };
        let red = !n.black;
        if fromred && red {
            return Err(Error::UnReachable);
        }
        let d2 = if depth < usize::MAX {
            depth + 1
        } else {
            depth
        };
        let lb = match Node::validate_tree(&n.left, red, d2, depths) {
            Ok(lb) => lb,
            Err(e) => {
                return Err(e);
            },
        };
        let rb = match Node::validate_tree(&n.right, red, d2, depths) {
            Ok(rb) => rb,
            Err(e) => {
                return Err(e);
            },
        };
        if lb != rb {
            return Err(Error::UnReachable);
        }
        if n.black && lb == usize::MAX {
            return Err(Error::UnReachable);
        }
        Ok(
            if n.black {
                lb + 1
            } else {
                lb
            },
        )
    }

    /// In-order copy of the subtree's entries, appended to `out`.
    fn collect_entries(node: &Option<Box<Node<K, V>>>, out: &mut Vec<Entry<K, V>>)
        ensures
            final(out).deep_view() == old(out).deep_view() + opt_entries(*node),
        decreases node,
    {
        match node {
            None => {
                proof {
                    assert(out.deep_view() =~= out.deep_view() + opt_entries(*node));
                }
            },
            Some(n) => {
                Node::collect_entries(&n.left, out);
                push_entry(out, n.entry.dup());
                Node::collect_entries(&n.right, out);
                proof {
                    assert(final(out).deep_view() =~= old(out).deep_view() + n.entries());
                }
            },
        }
    }
}

/// Append one entry to a vector of entries.
fn push_entry<K: OrdKey, V: Diff>(out: &mut Vec<Entry<K, V>>, e: Entry<K, V>)
    ensures
        final(out).deep_view() == old(out).deep_view() + seq![e@],
{
    let ghost pre = out.deep_view();
    let ghost prev = out@;
    out.push(e);
    proof {
        assert forall|j: int| 0 <= j < out@.len() implies #[trigger] out.deep_view()[j] == (pre
            + seq![e@])[j] by {
            assert(out.deep_view()[j] == out@[j].deep_view());
            if j < prev.len() {
                assert(out@[j] == prev[j]);
                assert(prev[j].deep_view() == pre[j]);
            }
        }
        assert(out.deep_view() =~= pre + seq![e@]);
    }
}

// ------------------------------------------------------------ key range

/// Whether `k` lies within the half-open/closed range `(low, high)`.
pub open spec fn in_key_range<K: OrdKey>(
    k: <K as View>::V,
    low: core::ops::Bound<K>,
    high: core::ops::Bound<K>,
) -> bool {
    &&& match low {
        core::ops::Bound::Included(l) => !K::lt_spec(k, l@),
        core::ops::Bound::Excluded(l) => K::lt_spec(l@, k),
        core::ops::Bound::Unbounded => true,
    }
    &&& match high {
        core::ops::Bound::Included(h) => !K::lt_spec(h@, k),
        core::ops::Bound::Excluded(h) => K::lt_spec(k, h@),
        core::ops::Bound::Unbounded => true,
    }
}

/// Executable form of [`in_key_range`].
fn key_in_range<K: OrdKey, V: Diff>(
    key: &K,
    low: &core::ops::Bound<K>,
    high: &core::ops::Bound<K>,
) -> (r: bool)
    ensures
        r == in_key_range::<K>(key@, *low, *high),
{
    let lo_ok = match low {
        core::ops::Bound::Included(l) => match key.cmp_key(l) {
            KeyCmp::Less => false,
            _ => true,
        },
        core::ops::Bound::Excluded(l) => match l.cmp_key(key) {
            KeyCmp::Less => true,
            _ => false,
        },
        core::ops::Bound::Unbounded => true,
    };
    if !lo_ok {
        proof {
            match low {
                core::ops::Bound::Included(l) => {
                    K::lt_trichotomy(key@, l@);
                },
                core::ops::Bound::Excluded(l) => {
                    K::lt_trichotomy(l@, key@);
                },
                core::ops::Bound::Unbounded => {},
            }
        }
        return false;
    }
    let hi_ok = match high {
        core::ops::Bound::Included(h) => match h.cmp_key(key) {
            KeyCmp::Less => false,
            _ => true,
        },
        core::ops::Bound::Excluded(h) => match key.cmp_key(h) {
            KeyCmp::Less => true,
            _ => false,
        },
        core::ops::Bound::Unbounded => true,
    };
    proof {
        match low {
            core::ops::Bound::Included(l) => {
                K::lt_trichotomy(key@, l@);
            },
            core::ops::Bound::Excluded(l) => {
                K::lt_trichotomy(l@, key@);
            },
            core::ops::Bound::Unbounded => {},
        }
        match high {
            core::ops::Bound::Included(h) => {
                K::lt_trichotomy(h@, key@);
            },
            core::ops::Bound::Excluded(h) => {
                K::lt_trichotomy(key@, h@);
            },
            core::ops::Bound::Unbounded => {},
        }
    }
    hi_ok
}

// -------------------------------------------------------------- iterator

/// Iterator over entries of the index, front to back.
pub struct Iter<K: OrdKey, V: Diff> {
    rev: Vec<Entry<K, V>>,
}

impl<K: OrdKey, V: Diff> Iter<K, V> {
    /// The entries still to be yielded, next first.
    pub closed spec fn remaining(&self) -> Seq<Ev<K, V>> {
        self.rev.deep_view().reverse()
    }

    /// The next entry, if any.
    pub fn next(&mut self) -> (r: Option<Entry<K, V>>)
        ensures
            match r {
                Some(e) => old(self).remaining().len() > 0 && e@ == old(self).remaining()[0]
                    && final(self).remaining() == old(self).remaining().drop_first(),
                None => old(self).remaining().len() == 0 && final(self).remaining() == old(self).remaining(),
            },
    {
        let r = self.rev.pop();
        proof {
            if old(self).rev@.len() > 0 {
                assert(self.rev.deep_view() =~= old(self).rev.deep_view().drop_last());
                assert(self.rev.deep_view().reverse() =~= old(self).rev.deep_view().reverse().drop_first());
                assert(old(self).rev.deep_view().last() == old(self).remaining()[0]);
            } else {
                assert(self.rev.deep_view() =~= old(self).rev.deep_view());
            }
        }
        r
    }
}

/// Wrap a front-first vector of entries as an iterator.
fn entries_into_iter<K: OrdKey, V: Diff>(fwd: Vec<Entry<K, V>>) -> (it: Iter<K, V>)
    ensures
        it.remaining() == fwd.deep_view(),
{
    let it = Iter { rev: reverse_entry_vec(fwd) };
    proof {
        assert(it.remaining() =~= it.rev.deep_view().reverse());
    }
    it
}

/// Reverse a vector of entries.
fn reverse_entry_vec<K: OrdKey, V: Diff>(v: Vec<Entry<K, V>>) -> (r: Vec<Entry<K, V>>)
    ensures
        r.deep_view() == v.deep_view().reverse(),
{
    let mut r: Vec<Entry<K, V>> = Vec::new();
    let mut i: usize = v.len();
    while i > 0
        invariant
            i <= v@.len(),
            r@.len() == v@.len() - i,
            forall|j: int|
                0 <= j < r@.len() ==> #[trigger] r.deep_view()[j] == v.deep_view()[v@.len() - 1
                    - j],
        decreases i,
    {
        i = i - 1;
        let e = v[i].dup();
        let ghost prevdv = r.deep_view();
        let ghost prevv = r@;
        r.push(e);
        proof {
            assert forall|j: int| 0 <= j < r@.len() implies #[trigger] r.deep_view()[j]
                == v.deep_view()[v@.len() - 1 - j] by {
                assert(r.deep_view()[j] == r@[j].deep_view());
                if j < prevv.len() {
                    assert(r@[j] == prevv[j]);
                    assert(prevv[j].deep_view() == prevdv[j]);
                } else {
                    assert(v.deep_view()[i as int] == v@[i as int].deep_view());
                }
            }
        }
    }
    proof {
        assert(r.deep_view() =~= v.deep_view().reverse());
    }
    r
}

// ----------------------------------------------------------- the index

/// The single-writer ordered in-memory index.
pub struct Llrb<K: OrdKey, V: Diff> {
    name: String,
    lsm: bool,
    root: Option<Box<Node<K, V>>>,
    seqno: u64,
    n_count: usize,
}

impl<K: OrdKey, V: Diff> Llrb<K, V> {
    /// The in-order sequence of entries: the index's specification.
    pub closed spec fn entries(&self) -> Seq<Ev<K, V>> {
        opt_entries(self.root)
    }

    /// Whether the index was created in lsm mode.
    pub closed spec fn lsm_spec(&self) -> bool {
        self.lsm
    }

    /// The index's name.
    pub closed spec fn name_spec(&self) -> Seq<char> {
        self.name@
    }

    /// The current seqno.
    pub closed spec fn seqno_spec(&self) -> u64 {
        self.seqno
    }

    /// Well-formedness: entries sorted by key, each entry internally
    /// sorted and resident, no version newer than the index seqno,
    /// and the count agreeing with the entries.
    pub closed spec fn wf(&self) -> bool {
        &&& keys_sorted::<K, V>(self.entries())
        &&& entries_ok::<K, V>(self.entries())
        &&& seqnos_bounded::<K, V>(self.entries(), self.seqno)
        &&& self.n_count == self.entries().len()
    }

    /// Whether the red-black balance invariants hold; checked at run
    /// time by [`Llrb::validate`].
    pub closed spec fn balanced(&self) -> bool {
        no_red_red(self.root) && black_balanced(self.root)
    }

    /// The tree's black height.
    pub closed spec fn black_height_spec(&self) -> int {
        black_height(self.root)
    }

    /// An empty index in non-lsm mode.
    pub fn new(name: &str) -> (r: Llrb<K, V>)
        ensures
            r.wf(),
            r.entries() == Seq::<Ev<K, V>>::empty(),
            r.seqno_spec() == 0,
            !r.lsm_spec(),
            r.name_spec() == name@,
    {
        let r = Llrb { name: name.to_owned(), lsm: false, root: None, seqno: 0, n_count: 0 };
        proof {
            assert(r.entries() =~= Seq::<Ev<K, V>>::empty());
        }
        r
    }

    /// An empty index in lsm mode: mutations add versions instead of
    /// overwriting, until purged.
    pub fn new_lsm(name: &str) -> (r: Llrb<K, V>)
        ensures
            r.wf(),
            r.entries() == Seq::<Ev<K, V>>::empty(),
            r.seqno_spec() == 0,
            r.lsm_spec(),
            r.name_spec() == name@,
    {
        let r = Llrb { name: name.to_owned(), lsm: true, root: None, seqno: 0, n_count: 0 };
        proof {
            assert(r.entries() =~= Seq::<Ev<K, V>>::empty());
        }
        r
    }

    /// Whether this index runs in lsm mode.
    pub fn is_lsm(&self) -> (r: bool)
        ensures
            r == self.lsm_spec(),
    {
        self.lsm
    }

    /// The name this index was created with.
    pub fn id(&self) -> (r: String)
        ensures
            r@ == self.name_spec(),
    {
        self.name.clone()
    }

    /// The name this index was created with.
    pub fn to_name(&self) -> (r: String)
        ensures
            r@ == self.name_spec(),
    {
        self.id()
    }

    /// Number of entries.
    pub fn len(&self) -> (r: usize)
        ensures
            self.wf() ==> r == self.entries().len(),
    {
        self.n_count
    }

    /// The current seqno.
    pub fn get_seqno(&self) -> (r: u64)
        ensures
            r == self.seqno_spec(),
    {
        self.seqno
    }

    /// The current seqno.
    pub fn to_seqno(&self) -> (r: u64)
        ensures
            r == self.seqno_spec(),
    {
        self.seqno
    }

    /// Set the current seqno; the caller owns the consequences, and
    /// every version already in the index must be at or below it.
    pub fn set_seqno(&mut self, seqno: u64)
        requires
            old(self).wf(),
            seqnos_bounded::<K, V>(old(self).entries(), seqno),
        ensures
            final(self).wf(),
            final(self).seqno_spec() == seqno,
            final(self).entries() == old(self).entries(),
            final(self).lsm_spec() == old(self).lsm_spec(),
            final(self).name_spec() == old(self).name_spec(),
    {
        self.seqno = seqno;
    }

    /// Get the latest entry for `key`.
    pub fn get(&self, key: &K) -> (r: Result<Entry<K, V>>)
        requires
            self.wf(),
        ensures
            match r {
                Ok(e) => exists|i: int|
                    0 <= i < self.entries().len() && (#[trigger] self.entries()[i]).key == key@
                        && e@ == self.entries()[i],
                Err(err) => err == Error::KeyNotFound && !has_key::<K, V>(self.entries(), key@),
            },
    {
        match get_node(&self.root, key) {
            Some(e) => Ok(e.dup()),
            None => Err(Error::KeyNotFound),
        }
    }

    /// Iterate over all entries, in key order.
    pub fn iter(&self) -> (r: Result<Iter<K, V>>)
        requires
            self.wf(),
        ensures
            r matches Ok(it) ==> it.remaining() == self.entries(),
            r is Ok,
    {
        let mut fwd: Vec<Entry<K, V>> = Vec::new();
        Node::collect_entries(&self.root, &mut fwd);
        proof {
            assert(fwd.deep_view() =~= self.entries());
        }
        Ok(entries_into_iter(fwd))
    }

    /// Iterate over the entries whose keys fall within `range`, in
    /// key order.
    pub fn range(&self, range: (core::ops::Bound<K>, core::ops::Bound<K>)) -> (r: Result<
        Iter<K, V>,
    >)
        requires
            self.wf(),
        ensures
            r matches Ok(it) ==> it.remaining() == self.entries().filter(
                |e: Ev<K, V>| in_key_range::<K>(e.key, range.0, range.1),
            ),
            r is Ok,
    {
        let (low, high) = range;
        let mut fwd: Vec<Entry<K, V>> = Vec::new();
        Node::collect_entries(&self.root, &mut fwd);
        proof {
            assert(fwd.deep_view() =~= self.entries());
        }
        let picked = filter_entries(fwd, &low, &high);
        Ok(entries_into_iter(picked))
    }

    /// Iterate over the entries whose keys fall within `range`, from
    /// the highest key down.
    pub fn reverse(&self, range: (core::ops::Bound<K>, core::ops::Bound<K>)) -> (r: Result<
        Iter<K, V>,
    >)
        requires
            self.wf(),
        ensures
            r matches Ok(it) ==> it.remaining() == self.entries().filter(
                |e: Ev<K, V>| in_key_range::<K>(e.key, range.0, range.1),
            ).reverse(),
            r is Ok,
    {
        let (low, high) = range;
        let mut fwd: Vec<Entry<K, V>> = Vec::new();
        Node::collect_entries(&self.root, &mut fwd);
        proof {
            assert(fwd.deep_view() =~= self.entries());
        }
        let picked = filter_entries(fwd, &low, &high);
        let rev = reverse_entry_vec(picked);
        let it = Iter { rev: reverse_entry_vec(rev) };
        proof {
            assert(it.remaining() =~= it.rev.deep_view().reverse());
        }
        Ok(it)
    }

    /// Walk the whole tree checking the red-black invariants: no two
    /// consecutive red links, equal black-height under every node.
    /// Key order and per-entry invariants hold by construction.
    pub fn validate(&self) -> (r: Result<crate::llrb_util::Stats>)
        requires
            self.wf(),
        ensures
            r is Ok <==> self.balanced() && self.black_height_spec() <= usize::MAX,
            r matches Ok(stats) ==> stats.entries_spec() == self.entries().len() && (
            stats.blacks_spec() matches Some(b) && b == self.black_height_spec()),
    {
        let mut depths = crate::llrb_util::Depth::new();
        let blacks = match Node::validate_tree(&self.root, false, 0, &mut depths) {
            Ok(b) => b,
            Err(e) => {
                return Err(e);
            },
        };
        let mut stats = crate::llrb_util::Stats::new(self.n_count, node_byte_size::<K, V>());
        stats.set_blacks(blacks);
        stats.set_depths(depths);
        Ok(stats)
    }

    /// Quick statistics: entry count and node size only; the
    /// black-height and depth distribution stay unset, only
    /// [`Llrb::validate`] computes them. The node size is taken from
    /// the trusted size-of call and carries no specification.
    pub fn stats(&self) -> (r: crate::llrb_util::Stats)
        requires
            self.wf(),
        ensures
            r.entries_spec() == self.entries().len(),
            r.blacks_spec() is None,
            r.depths_spec() is None,
    {
        crate::llrb_util::Stats::new(self.n_count, node_byte_size::<K, V>())
    }
}

/// Relies on `core::mem::size_of` for the in-memory node size
/// reported in statistics.
#[verifier::external_body]
fn node_byte_size<K: OrdKey, V: Diff>() -> usize {
    core::mem::size_of::<Node<K, V>>()
}

/// Filter a vector of entries by key range, keeping order.
fn filter_entries<K: OrdKey, V: Diff>(
    v: Vec<Entry<K, V>>,
    low: &core::ops::Bound<K>,
    high: &core::ops::Bound<K>,
) -> (r: Vec<Entry<K, V>>)
    ensures
        r.deep_view() == v.deep_view().filter(
            |e: Ev<K, V>| in_key_range::<K>(e.key, *low, *high),
        ),
{
    let ghost pred = |e: Ev<K, V>| in_key_range::<K>(e.key, *low, *high);
    let mut r: Vec<Entry<K, V>> = Vec::new();
    let mut i: usize = 0;
    proof {
        reveal_with_fuel(Seq::filter, 2);
        assert(v.deep_view().take(0) =~= Seq::<Ev<K, V>>::empty());
        assert(Seq::<Ev<K, V>>::empty().filter(pred) =~= Seq::<Ev<K, V>>::empty());
    }
    while i < v.len()
        invariant
            i <= v@.len(),
            r.deep_view() == v.deep_view().take(i as int).filter(pred),
            pred == (|e: Ev<K, V>| in_key_range::<K>(e.key, *low, *high)),
        decreases v@.len() - i,
    {
        let ghost pretake = v.deep_view().take(i as int);
        proof {
            reveal_with_fuel(Seq::filter, 2);
            assert(v.deep_view().take(i + 1).drop_last() =~= pretake);
            assert(v.deep_view().take(i + 1).last() == v.deep_view()[i as int]);
            assert(v.deep_view()[i as int] == v@[i as int].deep_view());
        }
        if key_in_range::<K, V>(v[i].as_key(), low, high) {
            push_entry(&mut r, v[i].dup());
        }
        proof {
            assert(v.deep_view().take(i + 1) =~= pretake.push(v.deep_view()[i as int]));
        }
        i = i + 1;
    }
    proof {
        assert(v.deep_view().take(v@.len() as int) =~= v.deep_view());
    }
    r
}

/// In a well-formed index the in-order entries carry strictly
/// ascending keys, so iteration order is fixed and each key appears
/// at most once.
pub proof fn lemma_keys_sorted<K: OrdKey, V: Diff>(index: &Llrb<K, V>)
    requires
        index.wf(),
    ensures
        forall|i: int, j: int|
            0 <= i < j < index.entries().len() ==> K::lt_spec(
                (#[trigger] index.entries()[i]).key,
                (#[trigger] index.entries()[j]).key,
            ),
        forall|i: int, j: int|
            0 <= i < j < index.entries().len() ==> (#[trigger] index.entries()[i]).key != (
            #[trigger] index.entries()[j]).key,
{
    assert forall|i: int, j: int|
        0 <= i < j < index.entries().len() implies (#[trigger] index.entries()[i]).key != (
    #[trigger] index.entries()[j]).key by {
        K::lt_trichotomy(index.entries()[i].key, index.entries()[j].key);
    }
}

/// In a well-formed index every stored entry is resident and carries
/// a strictly decreasing seqno chain, so a caller holding an entry
/// read from the index can reconstruct its versions.
pub proof fn lemma_entries_resident<K: OrdKey, V: Diff>(index: &Llrb<K, V>)
    requires
        index.wf(),
    ensures
        forall|i: int|
            0 <= i < index.entries().len() ==> entry_resident(#[trigger] index.entries()[i])
                && entry_sorted(index.entries()[i]),
{
}

/// Seqno monotonicity: every entry in a well-formed index carries a
/// strictly decreasing seqno chain,
/// `value.seqno > deltas[0].seqno > deltas[1].seqno > ...`.
pub proof fn lemma_seqno_monotonicity<K: OrdKey, V: Diff>(index: &Llrb<K, V>, i: int)
    requires
        index.wf(),
        0 <= i < index.entries().len(),
    ensures
        entry_sorted(index.entries()[i]),
        forall|t: int|
            0 <= t < index.entries()[i].deltas.len() ==> delta_seqno(
                #[trigger] index.entries()[i].deltas[t],
            ) < crate::entry::chain_prev_seqno(
                index.entries()[i].value,
                index.entries()[i].deltas,
                t,
            ),
{
    assert(entry_sorted(index.entries()[i]));
}

// ------------------------------------------------------------ mutations

/// Whether `cas` matches the current state of `k` in `es`: the seqno
/// of its entry, `0` for an absent key, and either for a tombstone.
/// The tombstone rule is deliberate: an lsm delete keeps the key in
/// the index, so a writer that last saw the key absent (`cas == 0`)
/// and one that saw the tombstone (`cas ==` its seqno) are both
/// allowed to write over it.
pub open spec fn cas_valid<K: OrdKey, V: Diff>(
    es: Seq<Ev<K, V>>,
    k: <K as View>::V,
    cas: u64,
) -> bool {
    if has_key::<K, V>(es, k) {
        exists|i: int|
            0 <= i < es.len() && (#[trigger] es[i]).key == k && (if value_is_deleted(
                es[i].value,
            ) {
                cas == 0 || cas == value_seqno(es[i].value)
            } else {
                cas == value_seqno(es[i].value)
            })
    } else {
        cas == 0
    }
}

/// In a key-sorted sequence each key appears at most once.
proof fn lemma_unique_key<K: OrdKey, V: Diff>(es: Seq<Ev<K, V>>, i: int, j: int)
    requires
        keys_sorted::<K, V>(es),
        0 <= i < es.len(),
        0 <= j < es.len(),
        es[i].key == es[j].key,
    ensures
        i == j,
{
    if i < j {
        K::lt_trichotomy(es[i].key, es[j].key);
    } else if j < i {
        K::lt_trichotomy(es[j].key, es[i].key);
    }
}

impl<K: OrdKey, V: Diff> Node<K, V> {
    /// Force a subtree root black; in-order entries are unchanged.
    fn set_black(node: Option<Box<Node<K, V>>>) -> (r: Option<Box<Node<K, V>>>)
        ensures
            opt_entries(r) == opt_entries(node),
    {
        match node {
            None => None,
            Some(mut n) => {
                let ghost pre = n.entries();
                n.black = true;
                proof {
                    assert(n.entries() =~= pre);
                }
                Some(n)
            },
        }
    }
}

impl<K: OrdKey, V: Diff + crate::base::Footprint> Llrb<K, V> where V::D: crate::base::Footprint {
    /// Set `key` to `value`, assigning the next seqno. Returns the
    /// previous entry, if any. In lsm mode the previous value is
    /// preserved as a version.
    pub fn set(&mut self, key: K, value: V) -> (r: Result<Option<Entry<K, V>>>)
        requires
            old(self).wf(),
            old(self).seqno_spec() < u64::MAX,
            old(self).entries().len() < usize::MAX,
        ensures
            final(self).wf(),
            r is Ok,
            final(self).seqno_spec() == old(self).seqno_spec() + 1,
            final(self).lsm_spec() == old(self).lsm_spec(),
            final(self).name_spec() == old(self).name_spec(),
            ({
                let ne = EntryView {
                    key: key@,
                    value: ValueView::<<V as View>::V>::U {
                        value: PayloadView::Native(value@),
                        seqno: (old(self).seqno_spec() + 1) as u64,
                    },
                    deltas: Seq::<DeltaView<<V::D as View>::V>>::empty(),
                };
                match r {
                    Ok(Some(olde)) => exists|i: int|
                        {
                            &&& 0 <= i < old(self).entries().len()
                            &&& (#[trigger] old(self).entries()[i]).key == key@
                            &&& olde@ == old(self).entries()[i]
                            &&& final(self).entries().len() == old(self).entries().len()
                            &&& (forall|j: int|
                                0 <= j < old(self).entries().len() && j != i ==> final(self).entries()[j] == old(self).entries()[j])
                            &&& upsert_rel::<K, V>(
                                old(self).entries()[i],
                                final(self).entries()[i],
                                ne,
                                old(self).lsm_spec(),
                            )
                        },
                    Ok(None) => !has_key::<K, V>(old(self).entries(), key@) && exists|i: int|
                        0 <= i <= old(self).entries().len() && final(self).entries() == old(self).entries().insert(i, ne),
                    Err(_) => false,
                }
            }),
    {
        let seqno = self.seqno + 1;
        let nentry = Entry::new(key, Value::new_upsert_value(value, seqno));
        let root = self.root.take();
        let (root, olde) = Node::upsert(root, nentry, self.lsm);
        let root = Node::set_black(root);
        self.root = root;
        self.seqno = seqno;
        if olde.is_none() {
            self.n_count = self.n_count + 1;
        }
        Ok(olde)
    }

    /// Set `key` to `value` only when `cas` matches the key's current
    /// seqno (`0` demands the key be absent or deleted). On a
    /// mismatch nothing changes and `InvalidCAS` is returned.
    pub fn set_cas(&mut self, key: K, value: V, cas: u64) -> (r: Result<Option<Entry<K, V>>>)
        requires
            old(self).wf(),
            old(self).seqno_spec() < u64::MAX,
            old(self).entries().len() < usize::MAX,
        ensures
            final(self).wf(),
            final(self).lsm_spec() == old(self).lsm_spec(),
            final(self).name_spec() == old(self).name_spec(),
            r matches Err(err) ==> err == Error::InvalidCAS && !cas_valid::<K, V>(
                old(self).entries(),
                key@,
                cas,
            ) && final(self).entries() == old(self).entries() && final(self).seqno_spec() == old(self).seqno_spec(),
            r is Ok ==> cas_valid::<K, V>(old(self).entries(), key@, cas) && final(self).seqno_spec() == old(self).seqno_spec() + 1,
            ({
                let ne = EntryView {
                    key: key@,
                    value: ValueView::<<V as View>::V>::U {
                        value: PayloadView::Native(value@),
                        seqno: (old(self).seqno_spec() + 1) as u64,
                    },
                    deltas: Seq::<DeltaView<<V::D as View>::V>>::empty(),
                };
                match r {
                    Ok(Some(olde)) => exists|i: int|
                        {
                            &&& 0 <= i < old(self).entries().len()
                            &&& (#[trigger] old(self).entries()[i]).key == key@
                            &&& olde@ == old(self).entries()[i]
                            &&& final(self).entries().len() == old(self).entries().len()
                            &&& (forall|j: int|
                                0 <= j < old(self).entries().len() && j != i ==> final(self).entries()[j] == old(self).entries()[j])
                            &&& upsert_rel::<K, V>(
                                old(self).entries()[i],
                                final(self).entries()[i],
                                ne,
                                old(self).lsm_spec(),
                            )
                        },
                    Ok(None) => !has_key::<K, V>(old(self).entries(), key@) && exists|i: int|
                        0 <= i <= old(self).entries().len() && final(self).entries() == old(self).entries().insert(i, ne),
                    Err(_) => true,
                }
            }),
    {
        let ghost es = self.entries();
        let ok = match get_node(&self.root, &key) {
            Some(e) => {
                let s = e.to_seqno();
                let del = e.is_deleted();
                let pass = if del {
                    cas == 0 || cas == s
                } else {
                    cas == s
                };
                proof {
                    let i = choose|i: int|
                        0 <= i < es.len() && (#[trigger] es[i]).key == key@ && e@ == es[i];
                    if pass {
                        assert(cas_valid::<K, V>(es, key@, cas));
                    } else {
                        assert forall|j: int|
                            0 <= j < es.len() && (#[trigger] es[j]).key == key@ implies !(
                        if value_is_deleted(es[j].value) {
                            cas == 0 || cas == value_seqno(es[j].value)
                        } else {
                            cas == value_seqno(es[j].value)
                        }) by {
                            lemma_unique_key::<K, V>(es, i, j);
                        }
                    }
                }
                pass
            },
            None => cas == 0,
        };
        if !ok {
            return Err(Error::InvalidCAS);
        }
        self.set(key, value)
    }

    /// Delete `key`. In lsm mode the entry is marked as a tombstone
    /// (created fresh when absent, collapsing back-to-back deletes);
    /// otherwise the entry is physically removed.
    pub fn delete(&mut self, key: &K) -> (r: Result<Option<Entry<K, V>>>)
        requires
            old(self).wf(),
            old(self).seqno_spec() < u64::MAX,
            old(self).entries().len() < usize::MAX,
        ensures
            final(self).wf(),
            r is Ok,
            final(self).lsm_spec() == old(self).lsm_spec(),
            final(self).name_spec() == old(self).name_spec(),
            old(self).lsm_spec() ==> match r {
                Ok(Some(olde)) => exists|i: int|
                    {
                        &&& 0 <= i < old(self).entries().len()
                        &&& (#[trigger] old(self).entries()[i]).key == key@
                        &&& olde@ == old(self).entries()[i]
                        &&& final(self).entries().len() == old(self).entries().len()
                        &&& (forall|j: int|
                            0 <= j < old(self).entries().len() && j != i ==> final(self).entries()[j] == old(self).entries()[j])
                        &&& if value_is_deleted(old(self).entries()[i].value) {
                            final(self).entries()[i] == old(self).entries()[i] && final(self).seqno_spec() == old(self).seqno_spec()
                        } else {
                            delete_rel::<K, V>(
                                old(self).entries()[i],
                                final(self).entries()[i],
                                (old(self).seqno_spec() + 1) as u64,
                            ) && final(self).seqno_spec() == old(self).seqno_spec() + 1
                        }
                    },
                Ok(None) => !has_key::<K, V>(old(self).entries(), key@) && final(self).seqno_spec() == old(self).seqno_spec() + 1 && exists|i: int|
                    0 <= i <= old(self).entries().len() && final(self).entries()
                        == #[trigger] old(self).entries().insert(
                        i,
                        EntryView {
                            key: key@,
                            value: ValueView::<<V as View>::V>::D {
                                seqno: (old(self).seqno_spec() + 1) as u64,
                            },
                            deltas: Seq::empty(),
                        },
                    ),
                Err(_) => false,
            },
            !old(self).lsm_spec() ==> final(self).seqno_spec() == old(self).seqno_spec() + 1
                && match r {
                Ok(Some(olde)) => exists|i: int|
                    {
                        &&& 0 <= i < old(self).entries().len()
                        &&& (#[trigger] old(self).entries()[i]).key == key@
                        &&& olde@ == old(self).entries()[i]
                        &&& final(self).entries() == old(self).entries().remove(i)
                    },
                Ok(None) => final(self).entries() == old(self).entries() && !has_key::<K, V>(
                    old(self).entries(),
                    key@,
                ),
                Err(_) => false,
            },
    {
        let seqno = self.seqno + 1;
        if self.lsm {
            let root = self.root.take();
            let (root, olde) = Node::delete_lsm(root, key, seqno);
            let root = Node::set_black(root);
            self.root = root;
            match &olde {
                None => {
                    self.n_count = self.n_count + 1;
                    self.seqno = seqno;
                },
                Some(e) => {
                    if !e.is_deleted() {
                        self.seqno = seqno;
                    } else {
                        proof {
                            let es = old(self).entries();
                            let i = choose|i: int|
                                {
                                    &&& 0 <= i < es.len()
                                    &&& (#[trigger] es[i]).key == key@
                                    &&& e@ == es[i]
                                    &&& self.entries().len() == es.len()
                                    &&& (forall|j: int|
                                        0 <= j < es.len() && j != i ==> self.entries()[j]
                                            == es[j])
                                    &&& if value_is_deleted(es[i].value) {
                                        self.entries()[i] == es[i]
                                    } else {
                                        delete_rel::<K, V>(es[i], self.entries()[i], seqno)
                                    }
                                };
                            assert(value_is_deleted(es[i].value));
                            assert(self.entries() =~= es);
                        }
                    }
                },
            }
            return Ok(olde);
        }
        let root = self.root.take();
        let (root, olde) = Node::do_delete(root, key);
        let root = Node::set_black(root);
        self.root = root;
        if olde.is_some() {
            self.n_count = self.n_count - 1;
        }
        self.seqno = seqno;
        Ok(olde)
    }
}

} // verus!
