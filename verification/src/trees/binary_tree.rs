//! Binary search tree of `i64`: insert, search, in-order and level-order
//! traversal, depth.
//!
//! Smaller values go left, equal and larger values go right, so an
//! in-order walk lists the values in ascending order.
use vstd::prelude::*;
use vstd::multiset::Multiset;
use std::collections::VecDeque;

verus! {

broadcast use {vstd::seq_lib::group_to_multiset_ensures, vstd::multiset::group_multiset_axioms};

pub type Link = Option<Box<TreeNode>>;

/// A node and its two subtrees.
pub struct TreeNode {
    pub val: i64,
    pub left: Link,
    pub right: Link,
}

/// The values of `t`, left subtree first, then the node, then the right.
pub open spec fn inorder_of(t: Link) -> Seq<i64>
    decreases t,
{
    match t {
        None => Seq::empty(),
        Some(n) => inorder_of(n.left) + seq![n.val] + inorder_of(n.right),
    }
}

/// Every value left of a node is smaller than it, every value right of it
/// is at least it.
pub open spec fn is_bst(t: Link) -> bool
    decreases t,
{
    match t {
        None => true,
        Some(n) => {
            &&& is_bst(n.left)
            &&& is_bst(n.right)
            &&& forall|i: int| 0 <= i < inorder_of(n.left).len() ==> #[trigger] inorder_of(n.left)[i] < n.val
            &&& forall|i: int| 0 <= i < inorder_of(n.right).len() ==> n.val <= #[trigger] inorder_of(n.right)[i]
        },
    }
}

/// Number of nodes on the longest root-to-leaf path.
pub open spec fn height(t: Link) -> nat
    decreases t,
{
    match t {
        None => 0,
        Some(n) => 1 + if height(n.left) >= height(n.right) { height(n.left) } else { height(n.right) },
    }
}

/// Number of nodes.
pub open spec fn size(t: Link) -> nat
    decreases t,
{
    match t {
        None => 0,
        Some(n) => 1 + size(n.left) + size(n.right),
    }
}

/// The subtrees of `n` that are present, left first.
pub open spec fn kids(n: TreeNode) -> Seq<TreeNode> {
    let l = match n.left { Some(b) => seq![*b], None => Seq::empty() };
    let r = match n.right { Some(b) => seq![*b], None => Seq::empty() };
    l + r
}

/// The queue holding just the tree `t`, if any.
pub open spec fn root_queue(t: Link) -> Seq<TreeNode> {
    match t {
        Some(b) => seq![*b],
        None => Seq::empty(),
    }
}

/// Total number of nodes in a queue of trees.
pub open spec fn forest_size(q: Seq<TreeNode>) -> nat
    decreases q.len(),
{
    if q.len() == 0 {
        0
    } else {
        size(Some(Box::new(q[0]))) + forest_size(q.drop_first())
    }
}

/// Level order of the trees in `q`: take the front tree's root, queue its
/// subtrees at the back, repeat.
pub open spec fn level_order(q: Seq<TreeNode>) -> Seq<i64>
    decreases forest_size(q),
{
    if q.len() == 0 {
        Seq::empty()
    } else {
        proof {
            lemma_forest_step(q);
        }
        seq![q[0].val] + level_order(q.drop_first() + kids(q[0]))
    }
}

pub proof fn lemma_forest_concat(a: Seq<TreeNode>, b: Seq<TreeNode>)
    ensures
        forest_size(a + b) == forest_size(a) + forest_size(b),
    decreases a.len(),
{
    if a.len() > 0 {
        assert((a + b).drop_first() =~= a.drop_first() + b);
        lemma_forest_concat(a.drop_first(), b);
    } else {
        assert(a + b =~= b);
    }
}

pub proof fn lemma_forest_step(q: Seq<TreeNode>)
    requires
        q.len() > 0,
    ensures
        forest_size(q.drop_first() + kids(q[0])) < forest_size(q),
{
    lemma_forest_concat(q.drop_first(), kids(q[0]));
    let n = q[0];
    let l = match n.left { Some(b) => seq![*b], None => Seq::<TreeNode>::empty() };
    let r = match n.right { Some(b) => seq![*b], None => Seq::<TreeNode>::empty() };
    lemma_forest_concat(l, r);
    reveal_with_fuel(forest_size, 2);
    assert(l.len() == 1 ==> l.drop_first() =~= Seq::<TreeNode>::empty());
    assert(r.len() == 1 ==> r.drop_first() =~= Seq::<TreeNode>::empty());
}

/// In-order listing of a BST is ascending.
pub proof fn lemma_bst_inorder_sorted(t: Link)
    requires
        is_bst(t),
    ensures
        forall|i: int, j: int| 0 <= i < j < inorder_of(t).len() ==> inorder_of(t)[i] <= inorder_of(t)[j],
    decreases t,
{
    match t {
        None => {},
        Some(n) => {
            lemma_bst_inorder_sorted(n.left);
            lemma_bst_inorder_sorted(n.right);
            let l = inorder_of(n.left);
            let r = inorder_of(n.right);
            let s = inorder_of(t);
            assert(s == l + seq![n.val] + r);
            assert forall|i: int, j: int| 0 <= i < j < s.len() implies s[i] <= s[j] by {
                if j < l.len() {
                } else if j == l.len() {
                    assert(l[i] < n.val);
                } else if i < l.len() {
                    assert(l[i] < n.val);
                    assert(n.val <= r[j - l.len() - 1]);
                } else if i == l.len() {
                    assert(n.val <= r[j - l.len() - 1]);
                }
            }
        },
    }
}

impl TreeNode {
    /// A leaf holding `val`.
    pub fn new(val: i64) -> (n: Self)
        ensures
            n.val == val,
            n.left is None,
            n.right is None,
    {
        TreeNode { val, left: None, right: None }
    }
}

/// `t` with `v` added as a new leaf at the end of its search path:
/// left of every node it is smaller than, right of every other node.
pub open spec fn with_leaf(t: Link, v: i64) -> Link
    decreases t,
{
    match t {
        None => Some(Box::new(TreeNode { val: v, left: None, right: None })),
        Some(n) => if v < n.val {
            Some(Box::new(TreeNode { val: n.val, left: with_leaf(n.left, v), right: n.right }))
        } else {
            Some(Box::new(TreeNode { val: n.val, left: n.left, right: with_leaf(n.right, v) }))
        },
    }
}

/// Inserts `val`: smaller values go left, others right.  O(height).
pub fn bst_insert(root: &mut Link, val: i64)
    ensures
        *final(root) == with_leaf(*old(root), val),
        is_bst(*old(root)) ==> is_bst(*final(root)),
        inorder_of(*final(root)).to_multiset() == inorder_of(*old(root)).to_multiset().insert(val),
    decreases *old(root),
{
    match root.take() {
        None => {
            *root = Some(Box::new(TreeNode::new(val)));
            proof {
                assert(inorder_of(*root) =~= seq![val]);
                assert(inorder_of(*old(root)) =~= Seq::<i64>::empty());
                assert(seq![val].to_multiset() =~= Multiset::<i64>::empty().insert(val));
            }
        },
        Some(mut node) => {
            let ghost n0 = *node;
            if val < node.val {
                bst_insert(&mut node.left, val);
            } else {
                bst_insert(&mut node.right, val);
            }
            *root = Some(node);
            proof {
                let l0 = inorder_of(n0.left);
                let r0 = inorder_of(n0.right);
                let l1 = inorder_of(node.left);
                let r1 = inorder_of(node.right);
                vstd::seq_lib::lemma_multiset_commutative(l0 + seq![n0.val], r0);
                vstd::seq_lib::lemma_multiset_commutative(l0, seq![n0.val]);
                vstd::seq_lib::lemma_multiset_commutative(l1 + seq![n0.val], r1);
                vstd::seq_lib::lemma_multiset_commutative(l1, seq![n0.val]);
                assert(inorder_of(*old(root)) == l0 + seq![n0.val] + r0);
                assert(inorder_of(*root) == l1 + seq![n0.val] + r1);
                assert(inorder_of(*root).to_multiset() =~= inorder_of(*old(root)).to_multiset().insert(val));
                if is_bst(*old(root)) {
                    if val < n0.val {
                        assert forall|i: int| 0 <= i < l1.len() implies #[trigger] l1[i] < n0.val by {
                            vstd::seq_lib::to_multiset_contains(l1, l1[i]);
                            if l1[i] != val {
                                assert(l0.to_multiset().contains(l1[i]));
                                vstd::seq_lib::to_multiset_contains(l0, l1[i]);
                                let k = choose|k: int| 0 <= k < l0.len() && l0[k] == l1[i];
                                assert(l0[k] < n0.val);
                            }
                        }
                    } else {
                        assert forall|i: int| 0 <= i < r1.len() implies n0.val <= #[trigger] r1[i] by {
                            vstd::seq_lib::to_multiset_contains(r1, r1[i]);
                            if r1[i] != val {
                                assert(r0.to_multiset().contains(r1[i]));
                                vstd::seq_lib::to_multiset_contains(r0, r1[i]);
                                let k = choose|k: int| 0 <= k < r0.len() && r0[k] == r1[i];
                                assert(n0.val <= r0[k]);
                            }
                        }
                    }
                }
            }
        },
    }
}

/// Whether `val` is in the tree.  O(height).
pub fn bst_search(root: &Link, val: i64) -> (r: bool)
    requires
        is_bst(*root),
    ensures
        r == inorder_of(*root).contains(val),
    decreases *root,
{
    match root {
        None => false,
        Some(node) => {
            let ghost l = inorder_of(node.left);
            let ghost rr = inorder_of(node.right);
            proof {
                assert(inorder_of(*root) == l + seq![node.val] + rr);
            }
            if val == node.val {
                proof {
                    assert(inorder_of(*root)[l.len() as int] == val);
                }
                true
            } else if val < node.val {
                let found = bst_search(&node.left, val);
                proof {
                    if inorder_of(*root).contains(val) {
                        let k = choose|k: int| 0 <= k < inorder_of(*root).len() && inorder_of(*root)[k] == val;
                        if k > l.len() {
                            assert(node.val <= rr[k - l.len() - 1]);
                        }
                        assert(l[k] == val);
                    }
                    if found {
                        let k = choose|k: int| 0 <= k < l.len() && l[k] == val;
                        assert(inorder_of(*root)[k] == val);
                    }
                }
                found
            } else {
                let found = bst_search(&node.right, val);
                proof {
                    if inorder_of(*root).contains(val) {
                        let k = choose|k: int| 0 <= k < inorder_of(*root).len() && inorder_of(*root)[k] == val;
                        if k < l.len() {
                            assert(l[k] < node.val);
                        }
                        assert(rr[k - l.len() - 1] == val);
                    }
                    if found {
                        let k = choose|k: int| 0 <= k < rr.len() && rr[k] == val;
                        assert(inorder_of(*root)[k + l.len() + 1] == val);
                    }
                }
                found
            }
        },
    }
}

fn walk(node: &Link, result: &mut Vec<i64>)
    ensures
        final(result)@ == old(result)@ + inorder_of(*node),
    decreases *node,
{
    if let Some(n) = node {
        walk(&n.left, result);
        result.push(n.val);
        walk(&n.right, result);
        proof {
            assert(final(result)@ =~= old(result)@ + inorder_of(*node));
        }
    } else {
        assert(old(result)@ + inorder_of(*node) =~= old(result)@);
    }
}

/// The values in in-order (left, node, right): ascending for a BST.  O(n).
pub fn inorder(root: &Link) -> (r: Vec<i64>)
    ensures
        r@ == inorder_of(*root),
{
    let mut result = Vec::new();
    walk(root, &mut result);
    assert(result@ =~= inorder_of(*root));
    result
}

/// The values level by level, left to right (breadth-first).  O(n).
pub fn bfs(root: &Link) -> (r: Vec<i64>)
    ensures
        r@ == level_order(root_queue(*root)),
{
    let mut result: Vec<i64> = Vec::new();
    let mut queue: VecDeque<&TreeNode> = VecDeque::new();
    if let Some(node) = root {
        queue.push_back(&**node);
    }
    let ghost q0 = root_queue(*root);
    assert(queue@.map_values(|r: &TreeNode| *r) =~= q0);
    loop
        invariant
            result@ + level_order(queue@.map_values(|r: &TreeNode| *r)) == level_order(q0),
        ensures
            result@ == level_order(q0),
        decreases forest_size(queue@.map_values(|r: &TreeNode| *r)),
    {
        let ghost q = queue@.map_values(|r: &TreeNode| *r);
        match queue.pop_front() {
            None => {
                assert(q =~= Seq::<TreeNode>::empty());
                assert(result@ + Seq::<i64>::empty() =~= result@);
                break;
            },
            Some(node) => {
                proof {
                    lemma_forest_step(q);
                    assert(q[0] == *node);
                    assert(queue@.map_values(|r: &TreeNode| *r) =~= q.drop_first());
                }
                let ghost result0 = result@;
                result.push(node.val);
                if let Some(left) = &node.left {
                    queue.push_back(&**left);
                }
                if let Some(right) = &node.right {
                    queue.push_back(&**right);
                }
                proof {
                    assert(queue@.map_values(|r: &TreeNode| *r) =~= q.drop_first() + kids(q[0]));
                    assert(level_order(q) == seq![q[0].val] + level_order(q.drop_first() + kids(q[0])));
                    let rest = level_order(q.drop_first() + kids(q[0]));
                    assert(result@ + rest =~= result0 + (seq![q[0].val] + rest));
                }
            },
        }
    }
    result
}

/// Length of the longest root-to-leaf path, in nodes.  O(n).
pub fn max_depth(root: &Link) -> (d: usize)
    requires
        height(*root) <= usize::MAX,
    ensures
        d == height(*root),
    decreases *root,
{
    match root {
        None => 0,
        Some(node) => {
            let l = max_depth(&node.left);
            let r = max_depth(&node.right);
            1 + if l >= r { l } else { r }
        },
    }
}

} // verus!
