//! Splay tree of `i64`: a self-adjusting binary search tree.
//!
//! Every access splays the value it looks for (or the last node on the
//! way) to the root with zig, zig-zig and zig-zag rotations; frequently
//! used values stay near the root.  No balance information is stored.
//! Equal values are allowed.  Rotations never change the in-order sequence,
//! which stays ascending.
use vstd::prelude::*;
use vstd::multiset::Multiset;
use core::cmp::Ordering;
use std::collections::VecDeque;
use crate::sort::order::nat_int;

verus! {

broadcast use {vstd::seq_lib::group_to_multiset_ensures, vstd::multiset::group_multiset_axioms};

type Link = Option<Box<Node>>;

/// A node of a splay tree.
pub struct Node {
    pub val: i64,
    pub left: Option<Box<Node>>,
    pub right: Option<Box<Node>>,
}

/// Splay tree of `i64` values, duplicates allowed.
pub struct SplayTree {
    root: Link,
}

/// In-order values.
spec fn ino(t: Link) -> Seq<i64>
    decreases t,
{
    match t {
        None => Seq::empty(),
        Some(n) => ino(n.left) + seq![n.val] + ino(n.right),
    }
}

/// Ascending (equal neighbours allowed).
pub open spec fn ascending(s: Seq<i64>) -> bool {
    forall|i: int, j: int| 0 <= i < j < s.len() ==> s[i] <= s[j]
}

/// A sorted node splits into smaller-or-equal values on the left and
/// larger-or-equal on the right, each side sorted.
proof fn lemma_split(t: Link)
    requires
        t is Some,
        ascending(ino(t)),
    ensures
        ascending(ino(t->0.left)),
        ascending(ino(t->0.right)),
        forall|i: int| 0 <= i < ino(t->0.left).len() ==> #[trigger] ino(t->0.left)[i] <= t->0.val,
        forall|i: int| 0 <= i < ino(t->0.right).len() ==> t->0.val <= #[trigger] ino(t->0.right)[i],
        forall|x: i64| #[trigger] ino(t).contains(x) <==> (ino(t->0.left).contains(x) || x == t->0.val || ino(t->0.right).contains(x)),
{
    let n = t->0;
    let l = ino(n.left);
    let r = ino(n.right);
    let s = ino(t);
    assert(s == l + seq![n.val] + r);
    assert forall|i: int, j: int| 0 <= i < j < l.len() implies l[i] <= l[j] by {
        assert(s[i] == l[i] && s[j] == l[j]);
    }
    assert forall|i: int, j: int| 0 <= i < j < r.len() implies r[i] <= r[j] by {
        assert(s[i + l.len() + 1] == r[i] && s[j + l.len() + 1] == r[j]);
    }
    assert forall|i: int| 0 <= i < l.len() implies #[trigger] l[i] <= n.val by {
        assert(s[i] == l[i] && s[nat_int(l.len())] == n.val);
    }
    assert forall|i: int| 0 <= i < r.len() implies n.val <= #[trigger] r[i] by {
        assert(s[i + l.len() + 1] == r[i] && s[nat_int(l.len())] == n.val);
    }
    assert forall|x: i64| #[trigger] s.contains(x) <==> (l.contains(x) || x == n.val || r.contains(x)) by {
        if s.contains(x) {
            let k = choose|k: int| 0 <= k < s.len() && s[k] == x;
            if k < l.len() {
                assert(l[k] == x);
            } else if k > l.len() {
                assert(r[k - l.len() - 1] == x);
            }
        }
        if l.contains(x) {
            let k = choose|k: int| 0 <= k < l.len() && l[k] == x;
            assert(s[k] == x);
        }
        if x == n.val {
            assert(s[nat_int(l.len())] == x);
        }
        if r.contains(x) {
            let k = choose|k: int| 0 <= k < r.len() && r[k] == x;
            assert(s[k + l.len() + 1] == x);
        }
    }
}

impl Node {
    fn new(val: i64) -> (n: Self)
        ensures
            n.val == val,
            n.left is None,
            n.right is None,
    {
        Node { val, left: None, right: None }
    }
}

/// The left child becomes the root.
fn rotate_right(node: Box<Node>) -> (r: Box<Node>)
    requires
        node.left is Some,
    ensures
        ino(Some(r)) == ino(Some(node)),
        size(Some(r)) == size(Some(node)),
        r.val == node.left->0.val,
        r.left == node.left->0.left,
        r.right == Some(Box::new(Node { val: node.val, left: node.left->0.right, right: node.right })),
        *r == rot_right(*node),
{
    let ghost n0 = *node;
    let mut node = node;
    let mut left = node.left.take().unwrap();
    let ghost l0 = *left;
    node.left = left.right.take();
    let ghost m = *node;
    left.right = Some(node);
    proof {
        assert(ino(n0.left) == ino(l0.left) + seq![l0.val] + ino(l0.right));
        assert(ino(Some(Box::new(m))) == ino(l0.right) + seq![n0.val] + ino(n0.right));
        assert(size(n0.left) == 1 + size(l0.left) + size(l0.right));
        assert(size(Some(Box::new(m))) == 1 + size(l0.right) + size(n0.right));
        assert(ino(Some(left)) == ino(l0.left) + seq![l0.val] + ino(Some(Box::new(m))));
        assert(ino(Some(left)) =~= ino(Some(Box::new(n0))));
    }
    left
}

/// The right child becomes the root.
fn rotate_left(node: Box<Node>) -> (r: Box<Node>)
    requires
        node.right is Some,
    ensures
        ino(Some(r)) == ino(Some(node)),
        size(Some(r)) == size(Some(node)),
        r.val == node.right->0.val,
        r.right == node.right->0.right,
        r.left == Some(Box::new(Node { val: node.val, left: node.left, right: node.right->0.left })),
        *r == rot_left(*node),
{
    let ghost n0 = *node;
    let mut node = node;
    let mut right = node.right.take().unwrap();
    let ghost r0 = *right;
    node.right = right.left.take();
    let ghost m = *node;
    right.left = Some(node);
    proof {
        assert(ino(n0.right) == ino(r0.left) + seq![r0.val] + ino(r0.right));
        assert(ino(Some(Box::new(m))) == ino(n0.left) + seq![n0.val] + ino(r0.left));
        assert(size(n0.right) == 1 + size(r0.left) + size(r0.right));
        assert(size(Some(Box::new(m))) == 1 + size(n0.left) + size(r0.left));
        assert(ino(Some(right)) == ino(Some(Box::new(m))) + seq![r0.val] + ino(r0.right));
        assert(ino(Some(right)) =~= ino(Some(Box::new(n0))));
    }
    right
}

/// Every value of `s` is at most `x`.
spec fn all_le(s: Seq<i64>, x: i64) -> bool {
    forall|i: int| 0 <= i < s.len() ==> #[trigger] s[i] <= x
}

/// Every value of `s` is at least `x`.
spec fn all_ge(s: Seq<i64>, x: i64) -> bool {
    forall|i: int| 0 <= i < s.len() ==> x <= #[trigger] s[i]
}

proof fn lemma_all_le3(a: Seq<i64>, m: i64, b: Seq<i64>, x: i64)
    requires
        all_le(a, x),
        m <= x,
        all_le(b, x),
    ensures
        all_le(a + seq![m] + b, x),
{
    let s = a + seq![m] + b;
    assert forall|i: int| 0 <= i < s.len() implies #[trigger] s[i] <= x by {
        if i < a.len() {
            assert(s[i] == a[i]);
        } else if i > a.len() {
            assert(s[i] == b[i - a.len() - 1]);
        }
    }
}

proof fn lemma_all_ge3(a: Seq<i64>, m: i64, b: Seq<i64>, x: i64)
    requires
        all_ge(a, x),
        x <= m,
        all_ge(b, x),
    ensures
        all_ge(a + seq![m] + b, x),
{
    let s = a + seq![m] + b;
    assert forall|i: int| 0 <= i < s.len() implies x <= #[trigger] s[i] by {
        if i < a.len() {
            assert(s[i] == a[i]);
        } else if i > a.len() {
            assert(s[i] == b[i - a.len() - 1]);
        }
    }
}

proof fn lemma_all_le_weaken(s: Seq<i64>, x: i64, y: i64)
    requires
        all_le(s, x),
        x <= y,
    ensures
        all_le(s, y),
{
}

proof fn lemma_all_ge_weaken(s: Seq<i64>, x: i64, y: i64)
    requires
        all_ge(s, x),
        y <= x,
    ensures
        all_ge(s, y),
{
}

/// No value of `s` is `x` when all are below it.
proof fn lemma_absent_le(s: Seq<i64>, m: i64, x: i64)
    requires
        all_le(s, m),
        m < x,
    ensures
        !s.contains(x),
{
    if s.contains(x) {
        let k = choose|k: int| 0 <= k < s.len() && s[k] == x;
    }
}

/// No value of `s` is `x` when all are above it.
proof fn lemma_absent_ge(s: Seq<i64>, m: i64, x: i64)
    requires
        all_ge(s, m),
        x < m,
    ensures
        !s.contains(x),
{
    if s.contains(x) {
        let k = choose|k: int| 0 <= k < s.len() && s[k] == x;
    }
}

/// The root of `r` is next to `val` in key order: values left of a larger
/// root are at most `val`, values right of a smaller root at least `val`.
spec fn near(r: Link, val: i64) -> bool {
    &&& r is Some
    &&& val < r->0.val ==> all_le(ino(r->0.left), val)
    &&& r->0.val < val ==> all_ge(ino(r->0.right), val)
}

/// Number of nodes.
pub open spec fn size(t: Option<Box<Node>>) -> nat
    decreases t,
{
    match t {
        None => 0,
        Some(n) => 1 + size(n.left) + size(n.right),
    }
}

/// A right rotation: the left child becomes the root.
pub open spec fn rot_right(n: Node) -> Node {
    let l = n.left->0;
    Node { val: l.val, left: l.left, right: Some(Box::new(Node { val: n.val, left: l.right, right: n.right })) }
}

/// A left rotation: the right child becomes the root.
pub open spec fn rot_left(n: Node) -> Node {
    let r = n.right->0;
    Node { val: r.val, left: Some(Box::new(Node { val: n.val, left: n.left, right: r.left })), right: r.right }
}

/// The tree that splaying `val` in `t` gives.  Below the root on the
/// search side: zig (one rotation) when the child holds `val`; zig-zig
/// (rotate at the root first, then splay the grandchild's subtree and
/// rotate again) when the search goes the same way twice; zig-zag (splay
/// in the child, then rotate at the root) when it turns.
pub open spec fn splayed(t: Option<Box<Node>>, val: i64) -> Option<Box<Node>>
    decreases size(t),
{
    match t {
        None => None,
        Some(n) => if val == n.val {
            Some(n)
        } else if val < n.val {
            match n.left {
                None => Some(n),
                Some(l) => if val == l.val {
                    Some(Box::new(rot_right(*n)))
                } else if val < l.val {
                    if l.left is None {
                        Some(Box::new(rot_right(*n)))
                    } else {
                        let m = rot_right(*n);
                        proof {
                            assert(size(n.left) == 1 + size(l.left) + size(l.right));
                        }
                        Some(Box::new(rot_right(Node { val: m.val, left: splayed(l.left, val), right: m.right })))
                    }
                } else {
                    Some(Box::new(rot_right(Node { val: n.val, left: splayed(n.left, val), right: n.right })))
                },
            }
        } else {
            match n.right {
                None => Some(n),
                Some(r) => if val == r.val {
                    Some(Box::new(rot_left(*n)))
                } else if val > r.val {
                    if r.right is None {
                        Some(Box::new(rot_left(*n)))
                    } else {
                        let m = rot_left(*n);
                        proof {
                            assert(size(n.right) == 1 + size(r.left) + size(r.right));
                        }
                        Some(Box::new(rot_left(Node { val: m.val, left: m.left, right: splayed(r.right, val) })))
                    }
                } else {
                    Some(Box::new(rot_left(Node { val: n.val, left: n.left, right: splayed(n.right, val) })))
                },
            }
        },
    }
}

/// Zig-zig on the right: when `val` lies beyond the right child, the root
/// is rotated down first, then the right-right grandchild's subtree is
/// splayed and rotated up, so the old root ends up below its old child.
pub proof fn law_splay_zig_zig_right(n: Node, val: i64)
    requires
        n.val < val,
        n.right is Some,
        n.right->0.val < val,
        n.right->0.right is Some,
    ensures
        ({
            let r = n.right->0;
            let s = splayed(r.right, val);
            &&& s is Some
            &&& splayed(Some(Box::new(n)), val) == Some(Box::new(Node {
                val: s->0.val,
                left: Some(Box::new(Node {
                    val: r.val,
                    left: Some(Box::new(Node { val: n.val, left: n.left, right: r.left })),
                    right: s->0.left,
                })),
                right: s->0.right,
            }))
        }),
{
}

/// Zig-zig on the left, the mirror image of `law_splay_zig_zig_right`.
pub proof fn law_splay_zig_zig_left(n: Node, val: i64)
    requires
        val < n.val,
        n.left is Some,
        val < n.left->0.val,
        n.left->0.left is Some,
    ensures
        ({
            let l = n.left->0;
            let s = splayed(l.left, val);
            &&& s is Some
            &&& splayed(Some(Box::new(n)), val) == Some(Box::new(Node {
                val: s->0.val,
                left: s->0.left,
                right: Some(Box::new(Node {
                    val: l.val,
                    left: s->0.right,
                    right: Some(Box::new(Node { val: n.val, left: l.right, right: n.right })),
                })),
            }))
        }),
{
}

/// Zig-zag on the right: when `val` lies between the root and its right
/// child, the child's subtree is splayed and its new root is rotated up.
pub proof fn law_splay_zig_zag_right(n: Node, val: i64)
    requires
        n.val < val,
        n.right is Some,
        val < n.right->0.val,
    ensures
        ({
            let s = splayed(n.right, val);
            &&& s is Some
            &&& splayed(Some(Box::new(n)), val) == Some(Box::new(Node {
                val: s->0.val,
                left: Some(Box::new(Node { val: n.val, left: n.left, right: s->0.left })),
                right: s->0.right,
            }))
        }),
{
}

/// Zig-zag on the left, the mirror image of `law_splay_zig_zag_right`.
pub proof fn law_splay_zig_zag_left(n: Node, val: i64)
    requires
        val < n.val,
        n.left is Some,
        n.left->0.val < val,
    ensures
        ({
            let s = splayed(n.left, val);
            &&& s is Some
            &&& splayed(Some(Box::new(n)), val) == Some(Box::new(Node {
                val: s->0.val,
                left: s->0.left,
                right: Some(Box::new(Node { val: n.val, left: s->0.right, right: n.right })),
            }))
        }),
{
}

/// Zig: when the child on the search side holds `val`, one rotation brings
/// it to the root.
pub proof fn law_splay_zig(n: Node, val: i64)
    ensures
        n.val < val && n.right is Some && n.right->0.val == val ==> splayed(Some(Box::new(n)), val) == Some(Box::new(Node {
            val: val,
            left: Some(Box::new(Node { val: n.val, left: n.left, right: n.right->0.left })),
            right: n.right->0.right,
        })),
        val < n.val && n.left is Some && n.left->0.val == val ==> splayed(Some(Box::new(n)), val) == Some(Box::new(Node {
            val: val,
            left: n.left->0.left,
            right: Some(Box::new(Node { val: n.val, left: n.left->0.right, right: n.right })),
        })),
        n.val == val ==> splayed(Some(Box::new(n)), val) == Some(Box::new(n)),
{
}

/// Splitting a sorted node, in the terms used below.
proof fn lemma_parts(t: Link)
    requires
        t is Some,
        ascending(ino(t)),
    ensures
        ascending(ino(t->0.left)),
        ascending(ino(t->0.right)),
        all_le(ino(t->0.left), t->0.val),
        all_ge(ino(t->0.right), t->0.val),
        forall|x: i64| #[trigger] ino(t).contains(x) <==> (ino(t->0.left).contains(x) || x == t->0.val || ino(t->0.right).contains(x)),
{
    lemma_split(t);
}

/// Brings `val` to the root when it is in the tree; otherwise the last
/// node on the search path, which is next to `val` in key order.  The
/// in-order sequence is unchanged.
fn splay(node: Link, val: i64) -> (r: Link)
    ensures
        r == splayed(node, val),
        ino(r) == ino(node),
        r is Some <==> node is Some,
        ascending(ino(node)) && ino(node).contains(val) ==> r->0.val == val,
        ascending(ino(node)) && node is Some ==> near(r, val),
        ascending(ino(node)) && node is Some && all_le(ino(node), val) && !ino(node).contains(val) ==> r->0.right is None,
    decreases size(node), 1nat,
{
    match node {
        None => None,
        Some(n) => {
            proof {
                assert(ino(node)[nat_int(ino(n.left).len())] == n.val);
            }
            match val.cmp(&n.val) {
                Ordering::Equal => Some(n),
                Ordering::Less => splay_left(n, val),
                Ordering::Greater => splay_right(n, val),
            }
        },
    }
}

/// Splay step for `val` below the root: zig, zig-zig or zig-zag on the left.
fn splay_left(node: Box<Node>, val: i64) -> (r: Link)
    requires
        val < node.val,
    ensures
        r == splayed(Some(node), val),
        ino(r) == ino(Some(node)),
        r is Some,
        ascending(ino(Some(node))) && ino(Some(node)).contains(val) ==> r->0.val == val,
        ascending(ino(Some(node))) ==> near(r, val),
    decreases size(Some(node)), 0nat,
{
    let ghost t0: Link = Some(node);
    let ghost n0 = *node;
    let ghost sorted = ascending(ino(t0));
    proof {
        if sorted {
            lemma_parts(t0);
            lemma_absent_ge(ino(n0.right), n0.val, val);
        }
    }
    let mut node = node;
    let left = match node.left.take() {
        None => {
            proof {
                assert(ino(n0.left) =~= Seq::<i64>::empty());
            }
            return Some(node);
        },
        Some(l) => l,
    };
    let ghost l0 = *left;
    let ghost a = ino(l0.left);
    let ghost b = ino(l0.right);
    let ghost c = ino(n0.right);
    proof {
        assert(ino(n0.left) == a + seq![l0.val] + b);
        if sorted {
            lemma_parts(n0.left);
        }
    }
    match val.cmp(&left.val) {
        Ordering::Equal => {
            node.left = Some(left);
            let r = rotate_right(node);
            Some(r)
        },
        Ordering::Less => {
            node.left = Some(left);
            let mut node = rotate_right(node);
            let ghost m0 = *node;
            proof {
                assert(size(Some(Box::new(m0))) == size(t0)) by {
                    assert(size(n0.left) == 1 + size(l0.left) + size(l0.right));
                }
                if sorted {
                    lemma_absent_ge(b, l0.val, val);
                }
            }
            if node.left.is_some() {
                let ll = node.left.take();
                proof {
                    assert(size(ll) < size(t0));
                }
                node.left = splay(ll, val);
                let ghost m1 = *node;
                let r = rotate_right(node);
                proof {
                    let sp = m1.left->0;
                    assert(ino(Some(Box::new(m1))) == ino(Some(Box::new(m0))));
                    if sorted {
                        lemma_all_ge_weaken(b, l0.val, val);
                        lemma_all_ge_weaken(c, n0.val, val);
                        lemma_all_ge3(b, n0.val, c, val);
                        if sp.val < val {
                            lemma_all_ge3(ino(sp.right), l0.val, b + seq![n0.val] + c, val);
                            assert(ino(m0.right) == b + seq![n0.val] + c);
                            assert(m1.right == m0.right && m1.val == l0.val);
                            assert(ino(r.right) == ino(sp.right) + seq![m1.val] + ino(m1.right));
                            assert(ino(r.right) =~= ino(sp.right) + seq![l0.val] + (b + seq![n0.val] + c));
                        }
                    }
                }
                Some(r)
            } else {
                proof {
                    assert(a =~= Seq::<i64>::empty());
                }
                Some(node)
            }
        },
        Ordering::Greater => {
            node.left = Some(left);
            let l1 = node.left.take();
            node.left = splay(l1, val);
            let ghost m1 = *node;
            let r = rotate_right(node);
            proof {
                let sp = m1.left->0;
                if sorted {
                    lemma_all_ge_weaken(c, n0.val, val);
                    if sp.val < val {
                        lemma_all_ge3(ino(sp.right), n0.val, c, val);
                    }
                }
            }
            Some(r)
        },
    }
}

/// Splay step for `val` above the root: zig, zig-zig or zig-zag on the right.
fn splay_right(node: Box<Node>, val: i64) -> (r: Link)
    requires
        val > node.val,
    ensures
        r == splayed(Some(node), val),
        ino(r) == ino(Some(node)),
        r is Some,
        ascending(ino(Some(node))) && ino(Some(node)).contains(val) ==> r->0.val == val,
        ascending(ino(Some(node))) ==> near(r, val),
        ascending(ino(Some(node))) && all_le(ino(Some(node)), val) && !ino(Some(node)).contains(val) ==> r->0.right is None,
    decreases size(Some(node)), 0nat,
{
    let ghost t0: Link = Some(node);
    let ghost n0 = *node;
    let ghost sorted = ascending(ino(t0));
    proof {
        if sorted {
            lemma_parts(t0);
            lemma_absent_le(ino(n0.left), n0.val, val);
        }
    }
    let mut node = node;
    let right = match node.right.take() {
        None => {
            proof {
                assert(ino(n0.right) =~= Seq::<i64>::empty());
            }
            return Some(node);
        },
        Some(r) => r,
    };
    let ghost r0 = *right;
    let ghost a = ino(n0.left);
    let ghost b = ino(r0.left);
    let ghost c = ino(r0.right);
    proof {
        assert(ino(n0.right) == b + seq![r0.val] + c);
        if sorted {
            lemma_parts(n0.right);
        }
    }
    match val.cmp(&right.val) {
        Ordering::Equal => {
            node.right = Some(right);
            let r = rotate_left(node);
            Some(r)
        },
        Ordering::Greater => {
            node.right = Some(right);
            let mut node = rotate_left(node);
            let ghost m0 = *node;
            proof {
                assert(size(Some(Box::new(m0))) == size(t0)) by {
                    assert(size(n0.right) == 1 + size(r0.left) + size(r0.right));
                }
                if sorted {
                    lemma_absent_le(b, r0.val, val);
                }
            }
            if node.right.is_some() {
                let rr = node.right.take();
                proof {
                    assert(size(rr) < size(t0));
                }
                node.right = splay(rr, val);
                let ghost m1 = *node;
                let r = rotate_left(node);
                proof {
                    let sp = m1.right->0;
                    assert(ino(Some(Box::new(m1))) == ino(Some(Box::new(m0))));
                    if sorted {
                        lemma_all_le_weaken(a, n0.val, val);
                        lemma_all_le_weaken(b, r0.val, val);
                        lemma_all_le3(a, n0.val, b, val);
                        if val < sp.val {
                            lemma_all_le3(a + seq![n0.val] + b, r0.val, ino(sp.left), val);
                            assert(ino(m0.left) == a + seq![n0.val] + b);
                            assert(m1.left == m0.left && m1.val == r0.val);
                            assert(ino(r.left) == ino(m1.left) + seq![m1.val] + ino(sp.left));
                            assert(ino(r.left) =~= (a + seq![n0.val] + b) + seq![r0.val] + ino(sp.left));
                        }
                        if all_le(ino(t0), val) && !ino(t0).contains(val) {
                            assert(all_le(c, val)) by {
                                assert forall|i: int| 0 <= i < c.len() implies #[trigger] c[i] <= val by {
                                    assert(ino(t0)[nat_int(a.len()) + 1 + nat_int(b.len()) + 1 + i] == c[i]);
                                }
                            }
                        }
                    }
                }
                Some(r)
            } else {
                proof {
                    assert(c =~= Seq::<i64>::empty());
                }
                Some(node)
            }
        },
        Ordering::Less => {
            node.right = Some(right);
            let r1 = node.right.take();
            node.right = splay(r1, val);
            let ghost m1 = *node;
            let r = rotate_left(node);
            proof {
                let sp = m1.right->0;
                if sorted {
                    lemma_all_le_weaken(a, n0.val, val);
                    if val < sp.val {
                        lemma_all_le3(a, n0.val, ino(sp.left), val);
                    }
                    assert(ino(t0)[nat_int(a.len()) + 1 + nat_int(b.len())] == r0.val);
                }
            }
            Some(r)
        },
    }
}


/// Hangs `extra` below the rightmost node of `node`: the in-order
/// sequence is that of `node` followed by that of `extra`.
fn join_right(node: Box<Node>, extra: Link) -> (r: Box<Node>)
    ensures
        ino(Some(r)) == ino(Some(node)) + ino(extra),
    decreases size(Some(node)),
{
    let ghost n0 = *node;
    let mut node = node;
    match node.right.take() {
        None => {
            node.right = extra;
            proof {
                assert(ino(n0.right) =~= Seq::<i64>::empty());
                assert(ino(Some(node)) =~= ino(Some(Box::new(n0))) + ino(extra));
            }
            node
        },
        Some(rt) => {
            let j = join_right(rt, extra);
            node.right = Some(j);
            proof {
                assert(ino(Some(node)) =~= ino(Some(Box::new(n0))) + ino(extra));
            }
            node
        },
    }
}

proof fn lemma_asc_join(a: Seq<i64>, m: i64, b: Seq<i64>)
    requires
        ascending(a),
        ascending(b),
        all_le(a, m),
        all_ge(b, m),
    ensures
        ascending(a + seq![m] + b),
        ascending(a + b),
{
    let s = a + seq![m] + b;
    assert forall|i: int, j: int| 0 <= i < j < s.len() implies s[i] <= s[j] by {
        if j < a.len() {
        } else if i >= a.len() + 1 {
            assert(s[i] == b[i - a.len() - 1] && s[j] == b[j - a.len() - 1]);
        } else if i < a.len() {
            assert(s[i] == a[i] && a[i] <= m);
            if j > a.len() {
                assert(s[j] == b[j - a.len() - 1]);
            }
        } else {
            assert(s[j] == b[j - a.len() - 1]);
        }
    }
    let t = a + b;
    assert forall|i: int, j: int| 0 <= i < j < t.len() implies t[i] <= t[j] by {
        if j < a.len() {
        } else if i >= a.len() {
            assert(t[i] == b[i - a.len()] && t[j] == b[j - a.len()]);
        } else {
            assert(t[i] == a[i] && a[i] <= m && t[j] == b[j - a.len()]);
        }
    }
}

/// The queue holding just the tree `t`, if any.
spec fn root_queue(t: Link) -> Seq<Node> {
    match t {
        Some(b) => seq![*b],
        None => Seq::empty(),
    }
}

/// The subtrees of `n` that are present, left first.
spec fn kids(n: Node) -> Seq<Node> {
    let l = match n.left { Some(b) => seq![*b], None => Seq::empty() };
    let r = match n.right { Some(b) => seq![*b], None => Seq::empty() };
    l + r
}

/// Total number of nodes in a queue of trees.
spec fn forest_size(q: Seq<Node>) -> nat
    decreases q.len(),
{
    if q.len() == 0 {
        0
    } else {
        size(Some(Box::new(q[0]))) + forest_size(q.drop_first())
    }
}

proof fn lemma_forest_concat(a: Seq<Node>, b: Seq<Node>)
    ensures
        forest_size(a + b) == forest_size(a) + forest_size(b),
    decreases a.len(),
{
    if a.len() > 0 {
        assert((a + b).drop_first() =~= a.drop_first() + b);
        lemma_forest_concat(a.drop_first(), b);
    } else {
        assert(a + b =~= b);
    }
}

proof fn lemma_forest_step(q: Seq<Node>)
    requires
        q.len() > 0,
    ensures
        forest_size(q.drop_first() + kids(q[0])) < forest_size(q),
{
    lemma_forest_concat(q.drop_first(), kids(q[0]));
    let n = q[0];
    let l = match n.left { Some(b) => seq![*b], None => Seq::<Node>::empty() };
    let r = match n.right { Some(b) => seq![*b], None => Seq::<Node>::empty() };
    lemma_forest_concat(l, r);
    reveal_with_fuel(forest_size, 2);
    assert(l.len() == 1 ==> l.drop_first() =~= Seq::<Node>::empty());
    assert(r.len() == 1 ==> r.drop_first() =~= Seq::<Node>::empty());
}

/// Level order of the trees in `q`: the front tree's root, then its
/// subtrees queued at the back.
spec fn level_order(q: Seq<Node>) -> Seq<i64>
    decreases forest_size(q),
{
    if q.len() == 0 {
        Seq::empty()
    } else {
        proof {
            lemma_forest_step(q);
        }
        seq![q[0].val] + level_order(q.drop_first() + kids(q[0]))
    }
}

fn inorder_walk(node: &Link, result: &mut Vec<i64>)
    ensures
        final(result)@ == old(result)@ + ino(*node),
    decreases *node,
{
    if let Some(n) = node {
        inorder_walk(&n.left, result);
        result.push(n.val);
        inorder_walk(&n.right, result);
        proof {
            assert(final(result)@ =~= old(result)@ + ino(*node));
        }
    } else {
        assert(old(result)@ + ino(*node) =~= old(result)@);
    }
}

impl View for SplayTree {
    type V = Seq<i64>;

    /// The values in ascending order (the in-order sequence).
    closed spec fn view(&self) -> Seq<i64> {
        ino(self.root)
    }
}

impl SplayTree {
    /// The values, in order, are ascending.
    pub open spec fn wf(&self) -> bool {
        ascending(self@)
    }

    /// The value at the root, if any.
    pub closed spec fn root_spec(&self) -> Option<i64> {
        match self.root {
            Some(n) => Some(n.val),
            None => None,
        }
    }

    /// The level order of the tree.
    pub closed spec fn levels(&self) -> Seq<i64> {
        level_order(root_queue(self.root))
    }

    /// The level order starts at the root, and is empty just when the tree is.
    pub proof fn lemma_levels_root(&self)
        ensures
            self.levels().len() == 0 <==> self.root_spec() is None,
            self.levels().len() > 0 ==> self.root_spec() == Some(self.levels()[0]),
    {
    }

    /// An empty tree.
    pub fn new() -> (t: Self)
        ensures
            t.wf(),
            t@ == Seq::<i64>::empty(),
    {
        SplayTree { root: None }
    }

    /// Inserts `val` (equal values allowed) and makes it the root.
    /// O(log n) amortized.
    pub fn insert(&mut self, val: i64)
        requires
            old(self).wf(),
        ensures
            final(self).wf(),
            final(self)@.to_multiset() == old(self)@.to_multiset().insert(val),
            final(self).root_spec() == Some(val),
    {
        let ghost s0 = ino(self.root);
        self.root = splay(self.root.take(), val);
        let root = match self.root.take() {
            None => {
                self.root = Some(Box::new(Node::new(val)));
                proof {
                    assert(s0 =~= Seq::<i64>::empty());
                    assert(ino(self.root) =~= seq![val]);
                    assert(seq![val].to_multiset() =~= Multiset::<i64>::empty().insert(val));
                }
                return;
            },
            Some(r) => r,
        };
        let ghost sp = *root;
        let ghost sl = ino(sp.left);
        let ghost sr = ino(sp.right);
        proof {
            lemma_parts(Some(root));
            assert(s0 == sl + seq![sp.val] + sr);
        }
        let mut root = root;
        let mut new_node = Box::new(Node::new(val));
        match val.cmp(&root.val) {
            Ordering::Less => {
                new_node.left = root.left.take();
                new_node.right = Some(root);
                proof {
                    let rt = Node { val: sp.val, left: None, right: sp.right };
                    assert(ino(rt.left) =~= Seq::<i64>::empty());
                    assert(ino(Some(Box::new(rt))) =~= seq![sp.val] + sr);
                    assert(ino(Some(new_node)) =~= sl + seq![val] + (seq![sp.val] + sr));
                    lemma_all_ge3(Seq::empty(), sp.val, sr, val);
                    assert(Seq::<i64>::empty() + seq![sp.val] + sr =~= seq![sp.val] + sr);
                    lemma_asc_join(Seq::empty(), sp.val, sr);
                    lemma_asc_join(sl, val, seq![sp.val] + sr);
                    vstd::seq_lib::lemma_multiset_commutative(sl + seq![val], seq![sp.val] + sr);
                    vstd::seq_lib::lemma_multiset_commutative(sl, seq![val]);
                    vstd::seq_lib::lemma_multiset_commutative(sl + seq![sp.val], sr);
                    vstd::seq_lib::lemma_multiset_commutative(sl, seq![sp.val]);
                    vstd::seq_lib::lemma_multiset_commutative(seq![sp.val], sr);
                }
            },
            _ => {
                new_node.right = root.right.take();
                new_node.left = Some(root);
                proof {
                    let lt = Node { val: sp.val, left: sp.left, right: None };
                    assert(ino(lt.right) =~= Seq::<i64>::empty());
                    assert(ino(Some(Box::new(lt))) =~= sl + seq![sp.val]);
                    assert(ino(Some(new_node)) =~= (sl + seq![sp.val]) + seq![val] + sr);
                    lemma_all_le3(sl, sp.val, Seq::empty(), val);
                    assert(sl + seq![sp.val] + Seq::<i64>::empty() =~= sl + seq![sp.val]);
                    lemma_asc_join(sl, sp.val, Seq::empty());
                    if val == sp.val {
                        assert(all_ge(sr, val));
                    } else {
                        assert(near(Some(Box::new(sp)), val));
                        assert(all_ge(sr, val));
                    }
                    lemma_asc_join(sl + seq![sp.val], val, sr);
                    vstd::seq_lib::lemma_multiset_commutative(sl + seq![sp.val] + seq![val], sr);
                    vstd::seq_lib::lemma_multiset_commutative(sl + seq![sp.val], seq![val]);
                    vstd::seq_lib::lemma_multiset_commutative(sl + seq![sp.val], sr);
                }
            },
        }
        self.root = Some(new_node);
    }

    /// Whether `val` is in the tree.  Splays it (or the last node on the
    /// way) to the root; the values are unchanged.  O(log n) amortized.
    pub fn search(&mut self, val: i64) -> (r: bool)
        requires
            old(self).wf(),
        ensures
            final(self).wf(),
            final(self)@ == old(self)@,
            r == old(self)@.contains(val),
            r ==> final(self).root_spec() == Some(val),
    {
        self.root = splay(self.root.take(), val);
        match &self.root {
            Some(n) => {
                proof {
                    lemma_parts(self.root);
                }
                n.val == val
            },
            None => false,
        }
    }

    /// Removes one occurrence of `val`, if present.  Splays it to the root,
    /// then joins the two subtrees under the largest value of the left one.
    /// O(log n) amortized.
    pub fn delete(&mut self, val: i64)
        requires
            old(self).wf(),
        ensures
            final(self).wf(),
            !old(self)@.contains(val) ==> final(self)@ == old(self)@,
            old(self)@.contains(val) ==> final(self)@.to_multiset() == old(self)@.to_multiset().remove(val),
    {
        let ghost s0 = ino(self.root);
        self.root = splay(self.root.take(), val);
        let root = match self.root.take() {
            None => {
                return;
            },
            Some(r) => r,
        };
        if root.val != val {
            proof {
                lemma_parts(Some(root));
            }
            self.root = Some(root);
            return;
        }
        let ghost sp = *root;
        let ghost sl = ino(sp.left);
        let ghost sr = ino(sp.right);
        proof {
            lemma_parts(Some(root));
            assert(s0 == sl + seq![val] + sr);
            vstd::seq_lib::lemma_multiset_commutative(sl + seq![val], sr);
            vstd::seq_lib::lemma_multiset_commutative(sl, seq![val]);
            vstd::seq_lib::lemma_multiset_commutative(sl, sr);
            assert((sl + sr).to_multiset() =~= s0.to_multiset().remove(val));
            lemma_asc_join(sl, val, sr);
        }
        let root = *root;
        let Node { val: _, left, right } = root;
        match left {
            None => {
                proof {
                    assert(sl =~= Seq::<i64>::empty());
                    assert(sl + sr =~= sr);
                }
                self.root = right;
            },
            Some(l) => {
                match right {
                    None => {
                        proof {
                            assert(sr =~= Seq::<i64>::empty());
                            assert(sl + sr =~= sl);
                        }
                        self.root = Some(l);
                    },
                    Some(r) => {
                        let lt = splay(Some(l), i64::MAX);
                        let new_root = lt.unwrap();
                        let new_root = join_right(new_root, Some(r));
                        proof {
                            assert(ino(Some(new_root)) =~= sl + sr);
                        }
                        self.root = Some(new_root);
                    },
                }
            },
        }
    }

    /// The values in ascending order.  O(n).
    pub fn inorder(&self) -> (r: Vec<i64>)
        ensures
            r@ == self@,
    {
        let mut result = Vec::new();
        inorder_walk(&self.root, &mut result);
        assert(result@ =~= ino(self.root));
        result
    }

    /// The values level by level, left to right.  O(n).
    pub fn bfs(&self) -> (r: Vec<i64>)
        ensures
            r@ == self.levels(),
            r@.len() == 0 <==> self.root_spec() is None,
            r@.len() > 0 ==> self.root_spec() == Some(r@[0]),
    {
        proof {
            self.lemma_levels_root();
        }
        let mut result: Vec<i64> = Vec::new();
        let mut queue: VecDeque<&Node> = VecDeque::new();
        if let Some(node) = &self.root {
            queue.push_back(&**node);
        }
        let ghost q0 = root_queue(self.root);
        assert(queue@.map_values(|r: &Node| *r) =~= q0);
        loop
            invariant
                result@ + level_order(queue@.map_values(|r: &Node| *r)) == level_order(q0),
            ensures
                result@ == level_order(q0),
            decreases forest_size(queue@.map_values(|r: &Node| *r)),
        {
            let ghost q = queue@.map_values(|r: &Node| *r);
            match queue.pop_front() {
                None => {
                    assert(q =~= Seq::<Node>::empty());
                    assert(result@ + Seq::<i64>::empty() =~= result@);
                    break;
                },
                Some(node) => {
                    proof {
                        lemma_forest_step(q);
                        assert(q[0] == *node);
                        assert(queue@.map_values(|r: &Node| *r) =~= q.drop_first());
                    }
                    let ghost result0 = result@;
                    result.push(node.val);
                    if let Some(left) = &node.left {
                        queue.push_back(&**left);
                    }
                    if let Some(right) = &node.right {
                        queue.push_back(&**right);
                    }
                    proof {
                        assert(queue@.map_values(|r: &Node| *r) =~= q.drop_first() + kids(q[0]));
                        let rest = level_order(q.drop_first() + kids(q[0]));
                        assert(result@ + rest =~= result0 + (seq![q[0].val] + rest));
                    }
                },
            }
        }
        result
    }

    /// The value at the root, if any.
    pub fn root_val(&self) -> (r: Option<i64>)
        ensures
            r == self.root_spec(),
    {
        match &self.root {
            Some(n) => Some(n.val),
            None => None,
        }
    }
}
} // verus!
