//! AVL tree map: a binary search tree that rotates after each insert and
//! delete to keep the heights of every node's subtrees within one.
//!
//! Four rotation cases: LL (rotate right), RR (rotate left), LR (rotate the
//! left child left, then right) and RL (rotate the right child right, then
//! left).  Each node stores its height.
use vstd::prelude::*;
use core::cmp::Ordering;
use vstd::std_specs::cmp::{OrdSpec, PartialOrdSpec, PartialEqSpec};
use crate::sort::order::{nat_int, lawful_ord, lemma_lawful_ord_total, lemma_lawful_ord_ops, ord_of, lemma_preorder_facts, le_by};

verus! {

type Link<K, V> = Option<Box<Node<K, V>>>;

struct Node<K, V> {
    key: K,
    value: V,
    height: usize,
    left: Link<K, V>,
    right: Link<K, V>,
}

/// AVL tree map ordered by key.
pub struct AvlTree<K, V> {
    root: Link<K, V>,
}

/// `a` orders strictly before `b`.
pub open spec fn key_lt<K: Ord>(a: K, b: K) -> bool {
    a.cmp_spec(&b) == Ordering::Less
}

/// Strict key order is a strict total order for a lawful `Ord`.
pub proof fn lemma_key_lt<K: Ord>()
    requires
        lawful_ord::<K>(),
    ensures
        forall|a: K, b: K| #[trigger] key_lt(a, b) ==> !key_lt(b, a) && a != b,
        forall|a: K, b: K, c: K| #[trigger] key_lt(a, b) && #[trigger] key_lt(b, c) ==> key_lt(a, c),
        forall|a: K, b: K| a != b ==> #[trigger] key_lt(a, b) || key_lt(b, a),
        forall|a: K, b: K| #[trigger] a.cmp_spec(&b) == Ordering::Greater <==> key_lt(b, a),
        forall|a: K, b: K| #[trigger] a.cmp_spec(&b) == Ordering::Equal <==> a == b,
{
    lemma_lawful_ord_total::<K>();
    let ord = ord_of::<K>();
    assert forall|a: K, b: K| #[trigger] key_lt(a, b) implies !key_lt(b, a) && a != b by {
        lemma_preorder_facts(ord, a, b);
        lemma_preorder_facts(ord, a, a);
    }
    assert forall|a: K, b: K, c: K| #[trigger] key_lt(a, b) && #[trigger] key_lt(b, c) implies key_lt(a, c) by {
        lemma_preorder_facts(ord, a, b);
        lemma_preorder_facts(ord, b, c);
        lemma_preorder_facts(ord, a, c);
        assert(le_by(ord, a, b) && le_by(ord, b, c));
        if a.cmp_spec(&c) == Ordering::Equal {
            assert(a == c);
        }
    }
    assert forall|a: K, b: K| a != b implies #[trigger] key_lt(a, b) || key_lt(b, a) by {
        lemma_preorder_facts(ord, a, b);
    }
    assert forall|a: K, b: K| #[trigger] a.cmp_spec(&b) == Ordering::Greater <==> key_lt(b, a) by {
        lemma_preorder_facts(ord, a, b);
    }
}

/// The entries of a subtree.
spec fn map_of<K, V>(t: Link<K, V>) -> Map<K, V>
    decreases t,
{
    match t {
        None => Map::empty(),
        Some(n) => map_of(n.left).union_prefer_right(map_of(n.right)).insert(n.key, n.value),
    }
}

/// Height of a subtree, counted in nodes.
spec fn ht<K, V>(t: Link<K, V>) -> nat
    decreases t,
{
    match t {
        None => 0,
        Some(n) => 1 + if ht(n.left) >= ht(n.right) { ht(n.left) } else { ht(n.right) },
    }
}

/// Number of nodes.
spec fn size<K, V>(t: Link<K, V>) -> nat
    decreases t,
{
    match t {
        None => 0,
        Some(n) => 1 + size(n.left) + size(n.right),
    }
}

/// Keys left of a node are smaller, keys right of it larger, everywhere.
spec fn ordered<K: Ord, V>(t: Link<K, V>) -> bool
    decreases t,
{
    match t {
        None => true,
        Some(n) => {
            &&& ordered(n.left)
            &&& ordered(n.right)
            &&& forall|k: K| #[trigger] map_of(n.left).contains_key(k) ==> key_lt(k, n.key)
            &&& forall|k: K| #[trigger] map_of(n.right).contains_key(k) ==> key_lt(n.key, k)
        },
    }
}

/// Every stored height is the subtree's height.
spec fn heights_ok<K, V>(t: Link<K, V>) -> bool
    decreases t,
{
    match t {
        None => true,
        Some(n) => n.height == ht(t) && heights_ok(n.left) && heights_ok(n.right),
    }
}

/// The heights of every node's two subtrees differ by at most one.
spec fn balanced<K, V>(t: Link<K, V>) -> bool
    decreases t,
{
    match t {
        None => true,
        Some(n) => {
            &&& balanced(n.left)
            &&& balanced(n.right)
            &&& ht(n.left) <= ht(n.right) + 1
            &&& ht(n.right) <= ht(n.left) + 1
        },
    }
}

/// The fewest nodes a tree of height `h` has when the two subtrees of
/// every node differ in height by at most one.
pub open spec fn min_nodes(h: nat) -> nat
    decreases h,
{
    if h == 0 {
        0
    } else if h == 1 {
        1
    } else {
        1 + min_nodes((h - 1) as nat) + min_nodes((h - 2) as nat)
    }
}

proof fn lemma_min_nodes_monotone(a: nat, b: nat)
    requires
        a <= b,
    ensures
        min_nodes(a) <= min_nodes(b),
    decreases b,
{
    if a < b {
        lemma_min_nodes_monotone(a, (b - 1) as nat);
        if b >= 2 {
            assert(min_nodes(b) == 1 + min_nodes((b - 1) as nat) + min_nodes((b - 2) as nat));
        }
    }
}

/// A balanced subtree has at least `min_nodes` of its height.
proof fn lemma_balanced_size<K, V>(t: Link<K, V>)
    requires
        balanced(t),
    ensures
        size(t) >= min_nodes(ht(t)),
    decreases t,
{
    if let Some(n) = t {
        lemma_balanced_size(n.left);
        lemma_balanced_size(n.right);
        let h = ht(t);
        let hl = ht(n.left);
        let hr = ht(n.right);
        if h >= 2 {
            assert(min_nodes(h) == 1 + min_nodes((h - 1) as nat) + min_nodes((h - 2) as nat));
            if hl >= hr {
                lemma_min_nodes_monotone((h - 2) as nat, hr);
            } else {
                lemma_min_nodes_monotone((h - 2) as nat, hl);
            }
        }
    }
}

/// The height of the taller of two subtrees.
spec fn taller<K, V>(a: Link<K, V>, b: Link<K, V>) -> nat {
    if ht(a) >= ht(b) { ht(a) } else { ht(b) }
}

/// In-order entries of a subtree.
spec fn entries_of<K, V>(t: Link<K, V>) -> Seq<(K, V)>
    decreases t,
{
    match t {
        None => Seq::empty(),
        Some(n) => entries_of(n.left) + seq![(n.key, n.value)] + entries_of(n.right),
    }
}

/// A valid subtree: ordered, with correct heights, small enough to count.
spec fn good<K: Ord, V>(t: Link<K, V>) -> bool {
    ordered(t) && heights_ok(t) && size(t) < usize::MAX
}

/// Like `good`, except that the root's own stored height may be stale.
spec fn loose<K: Ord, V>(t: Link<K, V>) -> bool {
    &&& ordered(t)
    &&& size(t) < usize::MAX
    &&& match t {
        None => true,
        Some(n) => heights_ok(n.left) && heights_ok(n.right),
    }
}

proof fn lemma_ht_le_size<K, V>(t: Link<K, V>)
    ensures
        ht(t) <= size(t),
    decreases t,
{
    if let Some(n) = t {
        lemma_ht_le_size(n.left);
        lemma_ht_le_size(n.right);
    }
}

proof fn lemma_map_finite<K, V>(t: Link<K, V>)
    ensures
        map_of(t).dom().finite(),
    decreases t,
{
    if let Some(n) = t {
        lemma_map_finite(n.left);
        lemma_map_finite(n.right);
        let l = map_of(n.left);
        let r = map_of(n.right);
        vstd::set::axiom_set_union_finite(l.dom(), r.dom());
        assert(l.union_prefer_right(r).dom() =~= l.dom() + r.dom());
    }
}

/// An ordered subtree has one entry per node.
proof fn lemma_size_len<K: Ord, V>(t: Link<K, V>)
    requires
        lawful_ord::<K>(),
        ordered(t),
    ensures
        map_of(t).dom().finite(),
        map_of(t).len() == size(t),
    decreases t,
{
    lemma_map_finite(t);
    if let Some(n) = t {
        lemma_key_lt::<K>();
        lemma_size_len(n.left);
        lemma_size_len(n.right);
        let l = map_of(n.left);
        let r = map_of(n.right);
        assert(l.dom().disjoint(r.dom())) by {
            assert forall|k: K| l.dom().contains(k) implies !r.dom().contains(k) by {
                if r.dom().contains(k) {
                    assert(key_lt(k, n.key) && key_lt(n.key, k));
                }
            }
        }
        vstd::set_lib::lemma_set_disjoint_lens(l.dom(), r.dom());
        assert(l.union_prefer_right(r).dom() =~= l.dom() + r.dom());
        assert(!l.union_prefer_right(r).dom().contains(n.key)) by {
            if l.dom().contains(n.key) {
                assert(key_lt(n.key, n.key));
            }
            if r.dom().contains(n.key) {
                assert(key_lt(n.key, n.key));
            }
        }
    }
}

/// A rotation keeps the entries.
proof fn lemma_rotate_map<K: Ord, V>(a: Map<K, V>, b: Map<K, V>, c: Map<K, V>, lk: K, lv: V, nk: K, nv: V)
    requires
        lawful_ord::<K>(),
        key_lt(lk, nk),
        forall|k: K| #[trigger] a.contains_key(k) ==> key_lt(k, lk),
        forall|k: K| #[trigger] b.contains_key(k) ==> key_lt(lk, k) && key_lt(k, nk),
        forall|k: K| #[trigger] c.contains_key(k) ==> key_lt(nk, k),
    ensures
        a.union_prefer_right(b).insert(lk, lv).union_prefer_right(c).insert(nk, nv)
            == a.union_prefer_right(b.union_prefer_right(c).insert(nk, nv)).insert(lk, lv),
{
    lemma_key_lt::<K>();
    let x = a.union_prefer_right(b).insert(lk, lv).union_prefer_right(c).insert(nk, nv);
    let y = a.union_prefer_right(b.union_prefer_right(c).insert(nk, nv)).insert(lk, lv);
    assert forall|k: K| #[trigger] x.contains_key(k) <==> y.contains_key(k) by {}
    assert forall|k: K| x.contains_key(k) implies #[trigger] x[k] == y[k] by {
        if k == nk {
            assert(!a.contains_key(nk));
        } else if k == lk {
            assert(!c.contains_key(lk));
        } else if c.contains_key(k) {
            assert(!a.contains_key(k));
        } else if b.contains_key(k) {
        }
    }
    assert(x =~= y);
}

impl<K: Ord, V> Node<K, V> {
    fn new(key: K, value: V) -> (n: Self)
        ensures
            n.key == key,
            n.value == value,
            n.height == 1,
            n.left is None,
            n.right is None,
    {
        Node { key, value, height: 1, left: None, right: None }
    }

    fn link_height(link: &Link<K, V>) -> (h: usize)
        requires
            heights_ok(*link),
        ensures
            h == ht(*link),
    {
        match link {
            None => 0,
            Some(n) => n.height,
        }
    }

    fn update_height(&mut self)
        requires
            heights_ok(old(self).left),
            heights_ok(old(self).right),
            size(Some(Box::new(*old(self)))) < usize::MAX,
        ensures
            final(self).key == old(self).key,
            final(self).value == old(self).value,
            final(self).left == old(self).left,
            final(self).right == old(self).right,
            heights_ok(Some(Box::new(*final(self)))),
    {
        proof {
            lemma_ht_le_size(self.left);
            lemma_ht_le_size(self.right);
        }
        let l = Self::link_height(&self.left);
        let r = Self::link_height(&self.right);
        self.height = 1 + if l >= r { l } else { r };
    }

    /// The balance state: `Greater` when the left side is more than one
    /// taller, `Less` when the right side is, `Equal` otherwise.
    fn balance(&self) -> (o: Ordering)
        requires
            heights_ok(self.left),
            heights_ok(self.right),
        ensures
            (o == Ordering::Greater) == (ht(self.left) > ht(self.right) + 1),
            (o == Ordering::Less) == (ht(self.right) > ht(self.left) + 1),
    {
        let left_height = Self::link_height(&self.left);
        let right_height = Self::link_height(&self.right);
        if left_height > right_height && left_height - right_height > 1 {
            Ordering::Greater
        } else if right_height > left_height && right_height - left_height > 1 {
            Ordering::Less
        } else {
            Ordering::Equal
        }
    }

    /// Right rotation: the left child becomes the root.
    fn rotate_right(node: Box<Self>) -> (r: Box<Self>)
        requires
            lawful_ord::<K>(),
            loose(Some(node)),
            node.left is Some,
        ensures
            good(Some(r)),
            map_of(Some(r)) == map_of(Some(node)),
            size(Some(r)) == size(Some(node)),
            r.left == node.left.unwrap().left,
            r.right is Some,
            r.right.unwrap().left == node.left.unwrap().right,
            r.right.unwrap().right == node.right,
    {
        let ghost orig: Link<K, V> = Some(node);
        let mut node = node;
        let ghost n0 = *node;
        match node.left.take() {
            None => {
                return node;
            },
            Some(left) => {
                let mut left = left;
                let ghost l0 = *left;
                proof {
                    lemma_key_lt::<K>();
                    assert(heights_ok(n0.left) && heights_ok(n0.right));
                    assert(heights_ok(l0.left) && heights_ok(l0.right));
                    assert(ordered(orig));
                    assert(ordered(n0.left));
                    assert(ordered(l0.left) && ordered(l0.right));
                    assert(size(orig) == 1 + size(n0.left) + size(n0.right));
                    assert(size(n0.left) == 1 + size(l0.left) + size(l0.right));
                }
                node.left = left.right.take();
                node.update_height();
                let ghost s1 = *node;
                left.right = Some(node);
                proof {
                    assert(size(Some(Box::new(s1))) == 1 + size(l0.right) + size(n0.right));
                    assert(size(Some(Box::new(*left))) == size(orig));
                }
                left.update_height();
                proof {
                    let a = map_of(l0.left);
                    let b = map_of(l0.right);
                    let c = map_of(n0.right);
                    assert(map_of(n0.left) == a.union_prefer_right(b).insert(l0.key, l0.value));
                    assert forall|k: K| #[trigger] map_of(Some(Box::new(s1))).contains_key(k) implies key_lt(l0.key, k) by {
                        if k != n0.key && !c.contains_key(k) {
                            assert(b.contains_key(k));
                        } else if k == n0.key {
                            assert(map_of(n0.left).contains_key(l0.key));
                        } else {
                            assert(map_of(n0.left).contains_key(l0.key));
                        }
                    }
                    assert forall|k: K| #[trigger] b.contains_key(k) implies key_lt(k, n0.key) by {
                        assert(map_of(n0.left).contains_key(k));
                    }
                    assert forall|k: K| #[trigger] a.contains_key(k) implies key_lt(k, l0.key) by {}
                    assert forall|k: K| #[trigger] b.contains_key(k) implies key_lt(l0.key, k) && key_lt(k, n0.key) by {
                        assert(map_of(n0.left).contains_key(k));
                    }
                    assert(key_lt(l0.key, n0.key)) by {
                        assert(map_of(n0.left).contains_key(l0.key));
                    }
                    lemma_rotate_map(a, b, c, l0.key, l0.value, n0.key, n0.value);
                    assert(s1.left == l0.right && s1.right == n0.right && s1.key == n0.key && s1.value == n0.value);
                    assert(map_of(Some(Box::new(s1))) == b.union_prefer_right(c).insert(n0.key, n0.value));
                    assert(left.left == l0.left && left.key == l0.key && left.value == l0.value);
                    assert(map_of(Some(left)) == a.union_prefer_right(map_of(Some(Box::new(s1)))).insert(l0.key, l0.value));
                    assert(map_of(orig) == map_of(n0.left).union_prefer_right(c).insert(n0.key, n0.value));
                    assert(map_of(Some(left)) == map_of(orig));
                    assert(ordered(Some(Box::new(s1))));
                    assert(ordered(Some(left)));
                }
                left
            },
        }
    }

    /// Left rotation: the right child becomes the root.
    fn rotate_left(node: Box<Self>) -> (r: Box<Self>)
        requires
            lawful_ord::<K>(),
            loose(Some(node)),
            node.right is Some,
        ensures
            good(Some(r)),
            map_of(Some(r)) == map_of(Some(node)),
            size(Some(r)) == size(Some(node)),
            r.right == node.right.unwrap().right,
            r.left is Some,
            r.left.unwrap().right == node.right.unwrap().left,
            r.left.unwrap().left == node.left,
    {
        let ghost orig: Link<K, V> = Some(node);
        let mut node = node;
        let ghost n0 = *node;
        match node.right.take() {
            None => {
                return node;
            },
            Some(right) => {
                let mut right = right;
                let ghost r0 = *right;
                proof {
                    lemma_key_lt::<K>();
                    assert(heights_ok(n0.left) && heights_ok(n0.right));
                    assert(heights_ok(r0.left) && heights_ok(r0.right));
                    assert(ordered(orig));
                    assert(ordered(n0.right));
                    assert(ordered(r0.left) && ordered(r0.right));
                    assert(size(orig) == 1 + size(n0.left) + size(n0.right));
                    assert(size(n0.right) == 1 + size(r0.left) + size(r0.right));
                }
                node.right = right.left.take();
                node.update_height();
                let ghost s1 = *node;
                right.left = Some(node);
                proof {
                    assert(size(Some(Box::new(s1))) == 1 + size(n0.left) + size(r0.left));
                    assert(size(Some(Box::new(*right))) == size(orig));
                }
                right.update_height();
                proof {
                    let a = map_of(n0.left);
                    let b = map_of(r0.left);
                    let c = map_of(r0.right);
                    assert(map_of(n0.right) == b.union_prefer_right(c).insert(r0.key, r0.value));
                    assert forall|k: K| #[trigger] map_of(Some(Box::new(s1))).contains_key(k) implies key_lt(k, r0.key) by {
                        if k != n0.key && !a.contains_key(k) {
                            assert(b.contains_key(k));
                        } else {
                            assert(map_of(n0.right).contains_key(r0.key));
                        }
                    }
                    assert forall|k: K| #[trigger] b.contains_key(k) implies key_lt(n0.key, k) by {
                        assert(map_of(n0.right).contains_key(k));
                    }
                    assert forall|k: K| #[trigger] a.contains_key(k) implies key_lt(k, n0.key) by {}
                    assert forall|k: K| #[trigger] b.contains_key(k) implies key_lt(n0.key, k) && key_lt(k, r0.key) by {
                        assert(map_of(n0.right).contains_key(k));
                    }
                    assert forall|k: K| #[trigger] c.contains_key(k) implies key_lt(r0.key, k) by {}
                    assert(key_lt(n0.key, r0.key)) by {
                        assert(map_of(n0.right).contains_key(r0.key));
                    }
                    lemma_rotate_map(a, b, c, n0.key, n0.value, r0.key, r0.value);
                    assert(s1.left == n0.left && s1.right == r0.left && s1.key == n0.key && s1.value == n0.value);
                    assert(map_of(Some(Box::new(s1))) == a.union_prefer_right(b).insert(n0.key, n0.value));
                    assert(right.right == r0.right && right.key == r0.key && right.value == r0.value);
                    assert(map_of(Some(right)) == map_of(Some(Box::new(s1))).union_prefer_right(c).insert(r0.key, r0.value));
                    assert(map_of(orig) == a.union_prefer_right(map_of(n0.right)).insert(n0.key, n0.value));
                    assert(map_of(Some(right)) == map_of(orig));
                    assert(ordered(Some(Box::new(s1))));
                    assert(ordered(Some(right)));
                }
                right
            },
        }
    }

    /// Restores the height and, when one side is more than one taller,
    /// rotates (LL, LR, RR or RL).
    fn rebalance(node: Box<Self>) -> (r: Box<Self>)
        requires
            lawful_ord::<K>(),
            loose(Some(node)),
            balanced(node.left),
            balanced(node.right),
            ht(node.left) <= ht(node.right) + 2,
            ht(node.right) <= ht(node.left) + 2,
        ensures
            good(Some(r)),
            map_of(Some(r)) == map_of(Some(node)),
            size(Some(r)) == size(Some(node)),
            balanced(Some(r)),
            taller(node.left, node.right) <= ht(Some(r)) <= taller(node.left, node.right) + 1,
            ht(node.left) <= ht(node.right) + 1 && ht(node.right) <= ht(node.left) + 1
                ==> ht(Some(r)) == taller(node.left, node.right) + 1,
    {
        let ghost orig: Link<K, V> = Some(node);
        let mut node = node;
        proof {
            assert(size(Some(Box::new(*node))) == size(orig));
        }
        node.update_height();
        let b = node.balance();
        match b {
            Ordering::Greater => {
                let lr = match &node.left {
                    Some(left) => {
                        proof {
                            assert(heights_ok(left.left) && heights_ok(left.right));
                        }
                        Self::link_height(&left.left) < Self::link_height(&left.right)
                    },
                    None => false,
                };
                let ghost lt0 = node.left;
                if lr {
                    match node.left.take() {
                        Some(l) => {
                            let ghost n1 = *node;
                            proof {
                                assert(ordered(Some(l)) && size(Some(l)) < size(orig));
                                assert(heights_ok(l.left) && heights_ok(l.right));
                                assert(l.right is Some);
                            }
                            let l2 = Self::rotate_left(l);
                            node.left = Some(l2);
                            proof {
                                assert(map_of(node.left) == map_of(orig->0.left));
                                assert(size(Some(node)) == size(orig));
                                assert(map_of(Some(node)) == map_of(orig));
                            }
                        },
                        None => {},
                    }
                }
                let ghost n2 = *node;
                let r = Self::rotate_right(node);
                proof {
                    let c = n2.right;
                    let lt = lt0.unwrap();
                    assert(ht(lt0) == ht(c) + 2);
                    assert(balanced(lt.left) && balanced(lt.right));
                    if lr {
                        let m = lt.right.unwrap();
                        assert(ht(lt.right) == ht(c) + 1);
                        assert(ht(lt.left) == ht(c));
                        assert(balanced(m.left) && balanced(m.right));
                        let l2 = n2.left.unwrap();
                        assert(l2.left.unwrap().left == lt.left);
                        assert(l2.left.unwrap().right == m.left);
                        assert(l2.right == m.right);
                        assert(r.left == l2.left);
                        assert(ht(r.left) == ht(c) + 1);
                        assert(balanced(r.left));
                        assert(ht(r.right) == ht(c) + 1);
                        assert(balanced(r.right));
                    } else {
                        assert(n2.left == lt0);
                        assert(ht(lt.left) == ht(c) + 1);
                        assert(r.left == lt.left);
                        assert(ht(r.right) == 1 + taller(lt.right, c));
                        assert(balanced(r.right));
                    }
                }
                r
            },
            Ordering::Less => {
                let rl = match &node.right {
                    Some(right) => {
                        proof {
                            assert(heights_ok(right.left) && heights_ok(right.right));
                        }
                        Self::link_height(&right.left) > Self::link_height(&right.right)
                    },
                    None => false,
                };
                let ghost rt0 = node.right;
                if rl {
                    match node.right.take() {
                        Some(r) => {
                            proof {
                                assert(ordered(Some(r)) && size(Some(r)) < size(orig));
                                assert(heights_ok(r.left) && heights_ok(r.right));
                                assert(r.left is Some);
                            }
                            let r2 = Self::rotate_right(r);
                            node.right = Some(r2);
                            proof {
                                assert(map_of(node.right) == map_of(orig->0.right));
                                assert(size(Some(node)) == size(orig));
                                assert(map_of(Some(node)) == map_of(orig));
                            }
                        },
                        None => {},
                    }
                }
                let ghost n2 = *node;
                let r = Self::rotate_left(node);
                proof {
                    let a = n2.left;
                    let rt = rt0.unwrap();
                    assert(ht(rt0) == ht(a) + 2);
                    assert(balanced(rt.left) && balanced(rt.right));
                    if rl {
                        let m = rt.left.unwrap();
                        assert(ht(rt.left) == ht(a) + 1);
                        assert(ht(rt.right) == ht(a));
                        assert(balanced(m.left) && balanced(m.right));
                        let r2 = n2.right.unwrap();
                        assert(r2.right.unwrap().right == rt.right);
                        assert(r2.right.unwrap().left == m.right);
                        assert(r2.left == m.left);
                        assert(r.right == r2.right);
                        assert(ht(r.right) == ht(a) + 1);
                        assert(balanced(r.right));
                        assert(ht(r.left) == ht(a) + 1);
                        assert(balanced(r.left));
                    } else {
                        assert(n2.right == rt0);
                        assert(ht(rt.right) == ht(a) + 1);
                        assert(r.right == rt.right);
                        assert(ht(r.left) == 1 + taller(a, rt.left));
                        assert(balanced(r.left));
                    }
                }
                r
            },
            Ordering::Equal => node,
        }
    }

    /// Inserts or overwrites `key`, rebalancing on the way back up.
    fn insert(node: Link<K, V>, key: K, value: V) -> (r: Link<K, V>)
        requires
            lawful_ord::<K>(),
            good(node),
            balanced(node),
            size(node) + 1 < usize::MAX,
        ensures
            good(r),
            balanced(r),
            ht(node) <= ht(r) <= ht(node) + 1,
            map_of(r) == map_of(node).insert(key, value),
            size(r) <= size(node) + 1,
        decreases node,
    {
        proof {
            lemma_key_lt::<K>();
            lemma_lawful_ord_ops::<K>();
        }
        match node {
            None => {
                let n = Box::new(Self::new(key, value));
                proof {
                    assert(n.left is None && n.right is None);
                    assert(map_of(n.left) =~= Map::<K, V>::empty());
                    assert(map_of(n.right) =~= Map::<K, V>::empty());
                    assert(Map::<K, V>::empty().union_prefer_right(Map::<K, V>::empty()) =~= Map::<K, V>::empty());
                    assert(map_of(Some(n)) =~= Map::<K, V>::empty().insert(key, value));
                    assert(ht(n.left) == 0 && ht(n.right) == 0 && size(n.left) == 0 && size(n.right) == 0);
                    assert(heights_ok(Some(n)));
                    assert(ordered(Some(n)));
                }
                Some(n)
            },
            Some(n) => {
                let ghost n0 = *n;
                let mut n = n;
                let ghost l = map_of(n0.left);
                let ghost rr = map_of(n0.right);
                proof {
                    assert(good(n0.left) && good(n0.right));
                }
                match key.cmp(&n.key) {
                    Ordering::Equal => {
                        n.value = value;
                        proof {
                            assert(key == n0.key);
                            assert(map_of(Some(n)) =~= map_of(Some(Box::new(n0))).insert(key, value));
                        }
                    },
                    Ordering::Less => {
                        let left = n.left.take();
                        n.left = Self::insert(left, key, value);
                        proof {
                            assert(key_lt(key, n0.key));
                            assert forall|k: K| #[trigger] map_of(n.left).contains_key(k) implies key_lt(k, n0.key) by {
                                if k != key {
                                    assert(l.contains_key(k));
                                }
                            }
                            assert(!rr.contains_key(key)) by {
                                if rr.contains_key(key) {
                                    assert(key_lt(n0.key, key));
                                }
                            }
                            assert(map_of(Some(n)) =~= map_of(Some(Box::new(n0))).insert(key, value));
                        }
                    },
                    Ordering::Greater => {
                        let right = n.right.take();
                        n.right = Self::insert(right, key, value);
                        proof {
                            assert(key_lt(n0.key, key));
                            assert forall|k: K| #[trigger] map_of(n.right).contains_key(k) implies key_lt(n0.key, k) by {
                                if k != key {
                                    assert(rr.contains_key(k));
                                }
                            }
                            assert(!l.contains_key(key)) by {
                                if l.contains_key(key) {
                                    assert(key_lt(key, n0.key));
                                }
                            }
                            assert(map_of(Some(n)) =~= map_of(Some(Box::new(n0))).insert(key, value));
                        }
                    },
                }
                Some(Self::rebalance(n))
            },
        }
    }

    /// The value stored for `key`.
    fn get<'a>(node: &'a Link<K, V>, key: &K) -> (r: Option<&'a V>)
        requires
            lawful_ord::<K>(),
            ordered(*node),
        ensures
            r == if map_of(*node).contains_key(*key) { Some(&map_of(*node)[*key]) } else { None },
        decreases *node,
    {
        proof {
            lemma_key_lt::<K>();
            lemma_lawful_ord_ops::<K>();
        }
        match node {
            None => None,
            Some(n) => {
                let ghost l = map_of(n.left);
                let ghost rr = map_of(n.right);
                match key.cmp(&n.key) {
                    Ordering::Equal => Some(&n.value),
                    Ordering::Less => {
                        proof {
                            if rr.contains_key(*key) {
                                assert(key_lt(n.key, *key));
                            }
                        }
                        Self::get(&n.left, key)
                    },
                    Ordering::Greater => {
                        proof {
                            if l.contains_key(*key) {
                                assert(key_lt(*key, n.key));
                            }
                        }
                        Self::get(&n.right, key)
                    },
                }
            },
        }
    }

    /// Detaches the node with the smallest key; returns it and what is left.
    fn extract_min(node: Box<Self>) -> (r: (Box<Self>, Link<K, V>))
        requires
            lawful_ord::<K>(),
            good(Some(node)),
            balanced(Some(node)),
        ensures
            good(r.1),
            balanced(r.1),
            ht(r.1) <= ht(Some(node)) <= ht(r.1) + 1,
            map_of(Some(node)).contains_key(r.0.key),
            map_of(Some(node))[r.0.key] == r.0.value,
            forall|k: K| #[trigger] map_of(Some(node)).contains_key(k) && k != r.0.key ==> key_lt(r.0.key, k),
            map_of(r.1) == map_of(Some(node)).remove(r.0.key),
            size(r.1) + 1 == size(Some(node)),
        decreases node,
    {
        proof {
            lemma_key_lt::<K>();
            lemma_lawful_ord_ops::<K>();
        }
        let ghost orig: Link<K, V> = Some(node);
        let ghost n0 = *node;
        let mut node = node;
        let ghost l = map_of(n0.left);
        let ghost rr = map_of(n0.right);
        proof {
            assert(good(n0.left) && good(n0.right));
        }
        match node.left.take() {
            None => {
                let right = node.right.take();
                proof {
                    assert(l =~= Map::<K, V>::empty());
                    assert(!rr.contains_key(n0.key)) by {
                        if rr.contains_key(n0.key) {
                            assert(key_lt(n0.key, n0.key));
                        }
                    }
                    assert(map_of(right) =~= map_of(orig).remove(n0.key));
                }
                (node, right)
            },
            Some(left) => {
                let (min, new_left) = Self::extract_min(left);
                node.left = new_left;
                proof {
                    let mk = min.key;
                    assert(l.contains_key(mk));
                    assert(key_lt(mk, n0.key));
                    assert forall|k: K| #[trigger] map_of(node.left).contains_key(k) implies key_lt(k, n0.key) by {
                        assert(l.contains_key(k));
                    }
                    assert(!rr.contains_key(mk)) by {
                        if rr.contains_key(mk) {
                            assert(key_lt(n0.key, mk));
                        }
                    }
                    assert(map_of(Some(node)) =~= map_of(orig).remove(mk));
                    assert(size(Some(node)) + 1 == size(orig));
                    assert forall|k: K| #[trigger] map_of(orig).contains_key(k) && k != mk implies key_lt(mk, k) by {
                        if rr.contains_key(k) {
                            assert(key_lt(n0.key, k));
                        } else if k == n0.key {
                        } else {
                            assert(l.contains_key(k));
                        }
                    }
                }
                (min, Some(Self::rebalance(node)))
            },
        }
    }

    /// Removes `key`; returns what is left and the removed value.
    fn remove(node: Link<K, V>, key: &K) -> (r: (Link<K, V>, Option<V>))
        requires
            lawful_ord::<K>(),
            good(node),
            balanced(node),
        ensures
            good(r.0),
            balanced(r.0),
            ht(r.0) <= ht(node) <= ht(r.0) + 1,
            map_of(r.0) == map_of(node).remove(*key),
            r.1 == if map_of(node).contains_key(*key) { Some(map_of(node)[*key]) } else { None },
            size(r.0) <= size(node),
        decreases node,
    {
        proof {
            lemma_key_lt::<K>();
            lemma_lawful_ord_ops::<K>();
        }
        match node {
            None => {
                proof {
                    assert(Map::<K, V>::empty().remove(*key) =~= Map::<K, V>::empty());
                }
                (None, None)
            },
            Some(n) => {
                let ghost orig: Link<K, V> = Some(n);
                let ghost n0 = *n;
                let mut n = n;
                let ghost l = map_of(n0.left);
                let ghost rr = map_of(n0.right);
                proof {
                    assert(good(n0.left) && good(n0.right));
                }
                match key.cmp(&n.key) {
                    Ordering::Less => {
                        let left = n.left.take();
                        let (new_left, removed) = Self::remove(left, key);
                        n.left = new_left;
                        proof {
                            assert(!rr.contains_key(*key)) by {
                                if rr.contains_key(*key) {
                                    assert(key_lt(n0.key, *key));
                                }
                            }
                            assert forall|k: K| #[trigger] map_of(n.left).contains_key(k) implies key_lt(k, n0.key) by {
                                assert(l.contains_key(k));
                            }
                            assert(map_of(Some(n)) =~= map_of(orig).remove(*key));
                        }
                        (Some(Self::rebalance(n)), removed)
                    },
                    Ordering::Greater => {
                        let right = n.right.take();
                        let (new_right, removed) = Self::remove(right, key);
                        n.right = new_right;
                        proof {
                            assert(!l.contains_key(*key)) by {
                                if l.contains_key(*key) {
                                    assert(key_lt(*key, n0.key));
                                }
                            }
                            assert forall|k: K| #[trigger] map_of(n.right).contains_key(k) implies key_lt(n0.key, k) by {
                                assert(rr.contains_key(k));
                            }
                            assert(map_of(Some(n)) =~= map_of(orig).remove(*key));
                        }
                        (Some(Self::rebalance(n)), removed)
                    },
                    Ordering::Equal => {
                        proof {
                            assert(*key == n0.key);
                            assert(!l.contains_key(n0.key)) by {
                                if l.contains_key(n0.key) {
                                    assert(key_lt(n0.key, n0.key));
                                }
                            }
                            assert(!rr.contains_key(n0.key)) by {
                                if rr.contains_key(n0.key) {
                                    assert(key_lt(n0.key, n0.key));
                                }
                            }
                            assert(map_of(orig).remove(*key) =~= l.union_prefer_right(rr));
                        }
                        let removed_value = n.value;
                        let left = n.left.take();
                        let right = n.right.take();
                        match right {
                            None => {
                                proof {
                                    assert(l.union_prefer_right(rr) =~= l);
                                }
                                (left, Some(removed_value))
                            },
                            Some(right) => {
                                match left {
                                    None => {
                                        proof {
                                            assert(l.union_prefer_right(rr) =~= rr);
                                        }
                                        (Some(right), Some(removed_value))
                                    },
                                    Some(left) => {
                                        let (mut successor, new_right) = Self::extract_min(right);
                                        let ghost sk = successor.key;
                                        successor.left = Some(left);
                                        successor.right = new_right;
                                        proof {
                                            assert(rr.contains_key(sk));
                                            assert(key_lt(n0.key, sk));
                                            assert forall|k: K| #[trigger] l.contains_key(k) implies key_lt(k, sk) by {
                                                assert(key_lt(k, n0.key));
                                            }
                                            assert forall|k: K| #[trigger] map_of(successor.right).contains_key(k) implies key_lt(sk, k) by {
                                                assert(rr.contains_key(k) && k != sk);
                                            }
                                            assert(map_of(Some(successor)) =~= l.union_prefer_right(rr));
                                            assert(size(Some(successor)) + 1 == size(orig));
                                        }
                                        (Some(Self::rebalance(successor)), Some(removed_value))
                                    },
                                }
                            },
                        }
                    },
                }
            },
        }
    }
}


/// Facts about the in-order entries of an ordered subtree: one per node,
/// each an entry of the map, every key listed, keys strictly ascending.
proof fn lemma_entries<K: Ord, V>(t: Link<K, V>)
    requires
        lawful_ord::<K>(),
        ordered(t),
    ensures
        entries_of(t).len() == size(t),
        forall|i: int| 0 <= i < entries_of(t).len() ==> #[trigger] map_of(t).contains_key(entries_of(t)[i].0)
            && map_of(t)[entries_of(t)[i].0] == entries_of(t)[i].1,
        forall|k: K| #[trigger] map_of(t).contains_key(k) ==> exists|i: int| 0 <= i < entries_of(t).len() && entries_of(t)[i].0 == k,
        forall|i: int, j: int| 0 <= i < j < entries_of(t).len() ==> key_lt(#[trigger] entries_of(t)[i].0, #[trigger] entries_of(t)[j].0),
    decreases t,
{
    if let Some(n) = t {
        lemma_key_lt::<K>();
        lemma_entries(n.left);
        lemma_entries(n.right);
        let l = entries_of(n.left);
        let r = entries_of(n.right);
        let e = entries_of(t);
        let lm = map_of(n.left);
        let rm = map_of(n.right);
        assert(e == l + seq![(n.key, n.value)] + r);
        assert forall|i: int| 0 <= i < e.len() implies #[trigger] map_of(t).contains_key(e[i].0) && map_of(t)[e[i].0] == e[i].1 by {
            if i < l.len() {
                assert(e[i] == l[i]);
                assert(lm.contains_key(l[i].0));
                assert(key_lt(l[i].0, n.key));
                if rm.contains_key(l[i].0) {
                    assert(key_lt(n.key, l[i].0));
                }
            } else if i > l.len() {
                assert(e[i] == r[i - l.len() - 1]);
                assert(rm.contains_key(r[i - l.len() - 1].0));
                assert(key_lt(n.key, r[i - l.len() - 1].0));
            }
        }
        assert forall|k: K| #[trigger] map_of(t).contains_key(k) implies exists|i: int| 0 <= i < e.len() && e[i].0 == k by {
            if k == n.key {
                assert(e[nat_int(l.len())].0 == k);
            } else if rm.contains_key(k) {
                let i = choose|i: int| 0 <= i < r.len() && r[i].0 == k;
                assert(e[i + l.len() + 1] == r[i]);
            } else {
                let i = choose|i: int| 0 <= i < l.len() && l[i].0 == k;
                assert(e[i] == l[i]);
            }
        }
        assert forall|i: int, j: int| 0 <= i < j < e.len() implies key_lt(#[trigger] e[i].0, #[trigger] e[j].0) by {
            let li = nat_int(l.len());
            if j < li {
                assert(e[i] == l[i] && e[j] == l[j]);
            } else if i > li {
                assert(e[i] == r[i - li - 1] && e[j] == r[j - li - 1]);
            } else {
                if i < li {
                    assert(e[i] == l[i]);
                    assert(lm.contains_key(l[i].0));
                }
                if j > li {
                    assert(e[j] == r[j - li - 1]);
                    assert(rm.contains_key(r[j - li - 1].0));
                }
            }
        }
    }
}

impl<K, V> View for AvlTree<K, V> {
    type V = Map<K, V>;

    /// The entries.
    closed spec fn view(&self) -> Map<K, V> {
        map_of(self.root)
    }
}

/// In-order walk over the tree, holding the nodes whose left subtree is
/// done but which have not been yielded yet.  O(log n) stack.
pub struct Iter<'a, K, V> {
    stack: Vec<&'a Node<K, V>>,
}

/// What an iterator still has to yield: for each stacked node from the
/// top, the node and then its right subtree.
spec fn pending<K, V>(stack: Seq<&Node<K, V>>) -> Seq<(K, V)>
    decreases stack.len(),
{
    if stack.len() == 0 {
        Seq::empty()
    } else {
        let n = stack.last();
        seq![(n.key, n.value)] + entries_of(n.right) + pending(stack.drop_last())
    }
}

impl<'a, K, V> Iter<'a, K, V> {
    /// The entries still to come, in order.
    pub closed spec fn remaining(&self) -> Seq<(K, V)> {
        pending(self.stack@)
    }

    fn new(root: &'a Link<K, V>) -> (it: Self)
        ensures
            it.remaining() == entries_of(*root),
    {
        let mut iter = Iter { stack: Vec::new() };
        iter.push_left_spine(root);
        proof {
            assert(entries_of(*root) + Seq::<(K, V)>::empty() =~= entries_of(*root));
        }
        iter
    }

    /// Pushes a node and all its left descendants.
    fn push_left_spine(&mut self, link: &'a Link<K, V>)
        ensures
            final(self).remaining() == entries_of(*link) + old(self).remaining(),
    {
        let ghost start = *link;
        let mut link = link;
        loop
            invariant
                entries_of(*link) + pending(self.stack@) == entries_of(start) + pending(old(self).stack@),
            ensures
                pending(self.stack@) == entries_of(start) + pending(old(self).stack@),
            decreases ht(*link),
        {
            match link {
                None => {
                    assert(entries_of(*link) + pending(self.stack@) =~= pending(self.stack@));
                    break;
                },
                Some(node) => {
                    let ghost s0 = self.stack@;
                    self.stack.push(node);
                    proof {
                        assert(self.stack@.drop_last() == s0);
                        assert(entries_of(node.left) + pending(self.stack@) =~= entries_of(*link) + pending(s0));
                    }
                    link = &node.left;
                },
            }
        }
    }

    /// The next entry in key order, or `None` at the end.
    pub fn next(&mut self) -> (r: Option<(&'a K, &'a V)>)
        ensures
            old(self).remaining().len() == 0 ==> r is None && final(self).remaining().len() == 0,
            old(self).remaining().len() > 0 ==> {
                &&& r is Some
                &&& (*r.unwrap().0, *r.unwrap().1) == old(self).remaining()[0]
                &&& final(self).remaining() == old(self).remaining().drop_first()
            },
    {
        match self.stack.pop() {
            None => None,
            Some(node) => {
                let ghost rest = self.stack@;
                self.push_left_spine(&node.right);
                proof {
                    let old_p = seq![(node.key, node.value)] + entries_of(node.right) + pending(rest);
                    assert(old_p.drop_first() =~= entries_of(node.right) + pending(rest));
                }
                Some((&node.key, &node.value))
            },
        }
    }
}

impl<K: Ord, V> AvlTree<K, V> {
    /// Ordered, with correct stored heights.
    pub closed spec fn wf(&self) -> bool {
        good(self.root) && balanced(self.root)
    }

    /// Height of the tree, in nodes.
    pub closed spec fn height(&self) -> nat {
        ht(self.root)
    }

    /// An empty tree.
    pub fn new() -> (t: Self)
        ensures
            t.wf(),
            t@ == Map::<K, V>::empty(),
            t.height() == 0,
    {
        AvlTree { root: None }
    }

    /// Inserts `key -> value`, overwriting the value of an existing key.
    /// O(log n).
    pub fn insert(&mut self, key: K, value: V)
        requires
            lawful_ord::<K>(),
            old(self).wf(),
            old(self)@.len() + 1 < usize::MAX,
        ensures
            final(self).wf(),
            final(self)@ == old(self)@.insert(key, value),
    {
        proof {
            lemma_size_len(self.root);
        }
        let root = self.root.take();
        self.root = Node::insert(root, key, value);
    }

    /// The value for `key`.  O(log n).
    pub fn get(&self, key: &K) -> (r: Option<&V>)
        requires
            lawful_ord::<K>(),
            self.wf(),
        ensures
            r == if self@.contains_key(*key) { Some(&self@[*key]) } else { None },
    {
        Node::get(&self.root, key)
    }

    /// Removes `key`, returning its value if it was present.  O(log n).
    pub fn remove(&mut self, key: &K) -> (r: Option<V>)
        requires
            lawful_ord::<K>(),
            old(self).wf(),
        ensures
            final(self).wf(),
            final(self)@ == old(self)@.remove(*key),
            r == if old(self)@.contains_key(*key) { Some(old(self)@[*key]) } else { None },
    {
        let root = self.root.take();
        let (new_root, removed) = Node::remove(root, key);
        self.root = new_root;
        removed
    }

    /// All entries in ascending key order.
    pub fn iter(&self) -> (r: Vec<(&K, &V)>)
        requires
            lawful_ord::<K>(),
            self.wf(),
        ensures
            r@.len() == self@.len(),
            forall|i: int| 0 <= i < r@.len() ==> #[trigger] self@.contains_key(*r@[i].0) && self@[*r@[i].0] == *r@[i].1,
            forall|i: int, j: int| 0 <= i < j < r@.len() ==> key_lt(*(#[trigger] r@[i]).0, *(#[trigger] r@[j]).0),
            forall|k: K| #[trigger] self@.contains_key(k) ==> exists|i: int| 0 <= i < r@.len() && *r@[i].0 == k,
    {
        let mut it = Iter::new(&self.root);
        let ghost all = entries_of(self.root);
        proof {
            lemma_entries(self.root);
            lemma_size_len(self.root);
        }
        let mut out: Vec<(&K, &V)> = Vec::new();
        loop
            invariant
                out@.len() + it.remaining().len() == all.len(),
                forall|i: int| 0 <= i < out@.len() ==> (*(#[trigger] out@[i]).0, *out@[i].1) == all[i],
                it.remaining() == all.skip(nat_int(out@.len())),
            ensures
                out@.len() == all.len(),
                forall|i: int| 0 <= i < out@.len() ==> (*(#[trigger] out@[i]).0, *out@[i].1) == all[i],
            decreases it.remaining().len(),
        {
            let ghost rem = it.remaining();
            match it.next() {
                None => {
                    break;
                },
                Some(p) => {
                    proof {
                        assert(rem[0] == all[nat_int(out@.len())]);
                        assert(rem.drop_first() =~= all.skip(nat_int(out@.len()) + 1));
                    }
                    out.push(p);
                },
            }
        }
        proof {
            assert forall|i: int| 0 <= i < out@.len() implies #[trigger] self@.contains_key(*out@[i].0) && self@[*out@[i].0] == *out@[i].1 by {
                assert((*out@[i].0, *out@[i].1) == all[i]);
            }
            assert forall|i: int, j: int| 0 <= i < j < out@.len() implies key_lt(*(#[trigger] out@[i]).0, *(#[trigger] out@[j]).0) by {
                assert((*out@[i].0, *out@[i].1) == all[i]);
                assert((*out@[j].0, *out@[j].1) == all[j]);
            }
            assert forall|k: K| #[trigger] self@.contains_key(k) implies exists|i: int| 0 <= i < out@.len() && *out@[i].0 == k by {
                let i = choose|i: int| 0 <= i < all.len() && all[i].0 == k;
                assert((*out@[i].0, *out@[i].1) == all[i]);
            }
        }
        out
    }

    /// A tree holds finitely many entries.
    pub proof fn lemma_finite(&self)
        ensures
            self@.dom().finite(),
    {
        lemma_map_finite(self.root);
    }

    /// Balance keeps the height logarithmic: a tree of height `h` holds at
    /// least `min_nodes(h)` entries, where `min_nodes` grows like the
    /// Fibonacci numbers.
    pub proof fn lemma_height_bound(&self)
        requires
            lawful_ord::<K>(),
            self.wf(),
        ensures
            self@.len() >= min_nodes(self.height()),
    {
        lemma_size_len(self.root);
        lemma_balanced_size(self.root);
    }

    /// Height of the tree (0 when empty), read from the root.  O(1).
    pub fn depth(&self) -> (d: usize)
        requires
            self.wf(),
        ensures
            d == self.height(),
    {
        Node::link_height(&self.root)
    }
}
} // verus!
