//! Ordered sets: an unbalanced binary search tree with the three classic
//! traversals, and an AVL-balanced set built on the AVL map.  Both ignore
//! a value that is already present.
use vstd::prelude::*;
use core::cmp::Ordering;
use std::collections::VecDeque;
use crate::sort::order::{lawful_ord, lemma_lawful_ord_ops, nat_int};
use super::avl_tree::{AvlTree, key_lt, lemma_key_lt};

verus! {

/// The values a vector of references points at.
pub open spec fn derefs<T>(s: Seq<&T>) -> Seq<T> {
    s.map_values(|x: &T| *x)
}

/// Strictly ascending in the `Ord` order.
pub open spec fn strictly_sorted<T: Ord>(s: Seq<T>) -> bool {
    forall|i: int, j: int| 0 <= i < j < s.len() ==> key_lt(#[trigger] s[i], #[trigger] s[j])
}

/// A node of a search tree, as a tree's `shape` shows it.
pub struct BSTNode<T> {
    pub value: T,
    pub left: Option<Box<BSTNode<T>>>,
    pub right: Option<Box<BSTNode<T>>>,
}

/// The values of a subtree.
pub open spec fn elems<T>(t: Option<Box<BSTNode<T>>>) -> Set<T>
    decreases t,
{
    match t {
        None => Set::empty(),
        Some(n) => elems(n.left).union(elems(n.right)).insert(n.value),
    }
}

/// Search-tree order: smaller values left, larger right, all the way down.
pub open spec fn ordered<T: Ord>(t: Option<Box<BSTNode<T>>>) -> bool
    decreases t,
{
    match t {
        None => true,
        Some(n) => {
            &&& ordered(n.left)
            &&& ordered(n.right)
            &&& forall|x: T| #[trigger] elems(n.left).contains(x) ==> key_lt(x, n.value)
            &&& forall|x: T| #[trigger] elems(n.right).contains(x) ==> key_lt(n.value, x)
        },
    }
}

/// `t` with `v` added as a new leaf where a search for it ends; unchanged
/// when `v` is already there.
pub open spec fn with_leaf<T: Ord>(t: Option<Box<BSTNode<T>>>, v: T) -> Option<Box<BSTNode<T>>>
    decreases t,
{
    match t {
        None => Some(Box::new(BSTNode { value: v, left: None, right: None })),
        Some(n) => if key_lt(v, n.value) {
            Some(Box::new(BSTNode { value: n.value, left: with_leaf(n.left, v), right: n.right }))
        } else if key_lt(n.value, v) {
            Some(Box::new(BSTNode { value: n.value, left: n.left, right: with_leaf(n.right, v) }))
        } else {
            t
        },
    }
}

/// Left subtree, node, right subtree.
pub open spec fn in_seq<T>(t: Option<Box<BSTNode<T>>>) -> Seq<T>
    decreases t,
{
    match t {
        None => Seq::empty(),
        Some(n) => in_seq(n.left) + seq![n.value] + in_seq(n.right),
    }
}

/// Node, left subtree, right subtree.
pub open spec fn pre_seq<T>(t: Option<Box<BSTNode<T>>>) -> Seq<T>
    decreases t,
{
    match t {
        None => Seq::empty(),
        Some(n) => seq![n.value] + pre_seq(n.left) + pre_seq(n.right),
    }
}

pub open spec fn node_count<T>(t: Option<Box<BSTNode<T>>>) -> nat
    decreases t,
{
    match t {
        None => 0,
        Some(n) => 1 + node_count(n.left) + node_count(n.right),
    }
}

pub open spec fn kids<T>(n: BSTNode<T>) -> Seq<BSTNode<T>> {
    let l = match n.left { Some(b) => seq![*b], None => Seq::empty() };
    let r = match n.right { Some(b) => seq![*b], None => Seq::empty() };
    l + r
}

pub open spec fn root_queue<T>(t: Option<Box<BSTNode<T>>>) -> Seq<BSTNode<T>> {
    match t {
        Some(b) => seq![*b],
        None => Seq::empty(),
    }
}

pub open spec fn forest_size<T>(q: Seq<BSTNode<T>>) -> nat
    decreases q.len(),
{
    if q.len() == 0 {
        0
    } else {
        node_count(Some(Box::new(q[0]))) + forest_size(q.drop_first())
    }
}

pub proof fn lemma_forest_concat<T>(a: Seq<BSTNode<T>>, b: Seq<BSTNode<T>>)
    ensures
        forest_size(a + b) == forest_size(a) + forest_size(b),
    decreases a.len(),
{
    if a.len() > 0 {
        assert((a + b).drop_first() =~= a.drop_first() + b);
        lemma_forest_concat(a.drop_first(), b);
    } else {
        assert(a + b =~= b);
    }
}

pub proof fn lemma_forest_step<T>(q: Seq<BSTNode<T>>)
    requires
        q.len() > 0,
    ensures
        forest_size(q.drop_first() + kids(q[0])) < forest_size(q),
{
    lemma_forest_concat(q.drop_first(), kids(q[0]));
    let n = q[0];
    let l = match n.left { Some(b) => seq![*b], None => Seq::<BSTNode<T>>::empty() };
    let r = match n.right { Some(b) => seq![*b], None => Seq::<BSTNode<T>>::empty() };
    lemma_forest_concat(l, r);
    assert(kids(n) == l + r);
    assert(forest_size(Seq::<BSTNode<T>>::empty()) == 0);
    if l.len() > 0 {
        assert(l.drop_first() =~= Seq::<BSTNode<T>>::empty());
        assert(forest_size(l) == node_count(n.left));
    } else {
        assert(node_count(n.left) == 0);
    }
    if r.len() > 0 {
        assert(r.drop_first() =~= Seq::<BSTNode<T>>::empty());
        assert(forest_size(r) == node_count(n.right));
    } else {
        assert(node_count(n.right) == 0);
    }
    assert(node_count(Some(Box::new(n))) == 1 + node_count(n.left) + node_count(n.right));
}

/// Breadth-first order of the trees in queue `q`.
pub open spec fn level_seq<T>(q: Seq<BSTNode<T>>) -> Seq<T>
    decreases forest_size(q),
{
    if q.len() == 0 {
        Seq::empty()
    } else {
        proof {
            lemma_forest_step(q);
        }
        seq![q[0].value] + level_seq(q.drop_first() + kids(q[0]))
    }
}

/// An ordered subtree lists its values in ascending order, each once.
proof fn lemma_in_seq<T: Ord>(t: Option<Box<BSTNode<T>>>)
    requires
        lawful_ord::<T>(),
        ordered(t),
    ensures
        strictly_sorted(in_seq(t)),
        in_seq(t).to_set() == elems(t),
    decreases t,
{
    lemma_key_lt::<T>();
    match t {
        None => {
            assert(in_seq(t).to_set() =~= elems(t));
        },
        Some(n) => {
            lemma_in_seq(n.left);
            lemma_in_seq(n.right);
            let l = in_seq(n.left);
            let r = in_seq(n.right);
            let s = in_seq(t);
            assert(s == l + seq![n.value] + r);
            assert forall|i: int, j: int| 0 <= i < j < s.len() implies key_lt(#[trigger] s[i], #[trigger] s[j]) by {
                if i < l.len() {
                    assert(l.to_set().contains(l[i]));
                    assert(s[i] == l[i]);
                }
                if j > l.len() {
                    assert(r.to_set().contains(r[j - l.len() - 1]));
                    assert(s[j] == r[j - l.len() - 1]);
                }
                if i > l.len() {
                    assert(s[i] == r[i - l.len() - 1]);
                }
                if j < l.len() {
                    assert(s[j] == l[j]);
                }
            }
            assert forall|x: T| s.to_set().contains(x) <==> elems(t).contains(x) by {
                if s.to_set().contains(x) {
                    let i = choose|i: int| 0 <= i < s.len() && s[i] == x;
                    if i < l.len() {
                        assert(l[i] == x);
                        assert(l.to_set().contains(x));
                    } else if i > l.len() {
                        assert(r[i - l.len() - 1] == x);
                        assert(r.to_set().contains(x));
                    }
                }
                if elems(t).contains(x) {
                    if x == n.value {
                        assert(s[nat_int(l.len())] == x);
                    } else if elems(n.left).contains(x) {
                        assert(l.to_set().contains(x));
                        let i = choose|i: int| 0 <= i < l.len() && l[i] == x;
                        assert(s[i] == x);
                    } else {
                        assert(r.to_set().contains(x));
                        let i = choose|i: int| 0 <= i < r.len() && r[i] == x;
                        assert(s[l.len() + 1 + i] == x);
                    }
                }
            }
            assert(s.to_set() =~= elems(t));
        },
    }
}

/// Unbalanced binary search tree holding a set of values.
pub struct BST<T> {
    root: Option<Box<BSTNode<T>>>,
}

impl<T: Ord> View for BST<T> {
    type V = Set<T>;

    open spec fn view(&self) -> Set<T> {
        elems(self.shape())
    }
}

impl<T: Ord> BST<T> {
    /// The nodes of the tree.
    pub closed spec fn shape(&self) -> Option<Box<BSTNode<T>>> {
        self.root
    }

    /// In search-tree order.
    pub open spec fn wf(&self) -> bool {
        ordered(self.shape())
    }

    /// The values in pre-order: node, then left subtree, then right.
    pub open spec fn preorder(&self) -> Seq<T> {
        pre_seq(self.shape())
    }

    /// The values level by level, each level left to right.
    pub open spec fn levels(&self) -> Seq<T> {
        level_seq(root_queue(self.shape()))
    }

    /// An empty tree.  O(1).
    pub fn new() -> (t: Self)
        ensures
            t.wf(),
            t@ == Set::<T>::empty(),
            t.shape() is None,
    {
        BST { root: None }
    }

    fn insert_into(link: &mut Option<Box<BSTNode<T>>>, value: T)
        requires
            lawful_ord::<T>(),
            ordered(*old(link)),
        ensures
            ordered(*final(link)),
            elems(*final(link)) == elems(*old(link)).insert(value),
            *final(link) == with_leaf(*old(link), value),
        decreases *old(link),
    {
        proof {
            lemma_key_lt::<T>();
            lemma_lawful_ord_ops::<T>();
        }
        match link.take() {
            None => {
                *link = Some(Box::new(BSTNode { value, left: None, right: None }));
                proof {
                    assert(elems::<T>(None) =~= Set::<T>::empty());
                    assert(elems(*link) =~= Set::<T>::empty().insert(value));
                }
            },
            Some(mut node) => {
                let ghost n0 = *node;
                match value.cmp(&node.value) {
                    Ordering::Less => {
                        Self::insert_into(&mut node.left, value);
                        proof {
                            assert forall|x: T| #[trigger] elems(node.left).contains(x) implies key_lt(x, node.value) by {
                                if x != value {
                                    assert(elems(n0.left).contains(x));
                                }
                            }
                            assert(elems(Some(node)) =~= elems(Some(Box::new(n0))).insert(value));
                        }
                    },
                    Ordering::Greater => {
                        Self::insert_into(&mut node.right, value);
                        proof {
                            assert forall|x: T| #[trigger] elems(node.right).contains(x) implies key_lt(node.value, x) by {
                                if x != value {
                                    assert(elems(n0.right).contains(x));
                                }
                            }
                            assert(elems(Some(node)) =~= elems(Some(Box::new(n0))).insert(value));
                        }
                    },
                    Ordering::Equal => {
                        proof {
                            assert(elems(Some(node)) =~= elems(Some(Box::new(n0))).insert(value));
                        }
                    },
                }
                *link = Some(node);
            },
        }
    }

    /// Adds `value`; a value already present is left alone.  O(h).
    pub fn insert(&mut self, value: T)
        requires
            lawful_ord::<T>(),
            old(self).wf(),
        ensures
            final(self).wf(),
            final(self)@ == old(self)@.insert(value),
            final(self).shape() == with_leaf(old(self).shape(), value),
    {
        Self::insert_into(&mut self.root, value);
    }

    fn find(link: &Option<Box<BSTNode<T>>>, value: &T) -> (r: bool)
        requires
            lawful_ord::<T>(),
            ordered(*link),
        ensures
            r == elems(*link).contains(*value),
        decreases *link,
    {
        proof {
            lemma_key_lt::<T>();
            lemma_lawful_ord_ops::<T>();
        }
        match link {
            None => false,
            Some(node) => match value.cmp(&node.value) {
                Ordering::Equal => true,
                Ordering::Less => {
                    proof {
                        if elems(node.right).contains(*value) {
                            assert(key_lt(node.value, *value));
                        }
                    }
                    Self::find(&node.left, value)
                },
                Ordering::Greater => {
                    proof {
                        if elems(node.left).contains(*value) {
                            assert(key_lt(*value, node.value));
                        }
                    }
                    Self::find(&node.right, value)
                },
            },
        }
    }

    /// Whether `value` is in the tree.  O(h).
    pub fn contains(&self, value: &T) -> (r: bool)
        requires
            lawful_ord::<T>(),
            self.wf(),
        ensures
            r == self@.contains(*value),
    {
        Self::find(&self.root, value)
    }

    fn in_order_walk<'a>(link: &'a Option<Box<BSTNode<T>>>, result: &mut Vec<&'a T>)
        ensures
            derefs(final(result)@) == derefs(old(result)@) + in_seq(*link),
        decreases *link,
    {
        if let Some(node) = link {
            let ghost r0 = derefs(result@);
            Self::in_order_walk(&node.left, result);
            let ghost r1 = derefs(result@);
            result.push(&node.value);
            assert(derefs(result@) =~= r1.push(node.value));
            Self::in_order_walk(&node.right, result);
            assert(derefs(result@) =~= r0 + in_seq(*link));
        } else {
            assert(derefs(result@) =~= derefs(result@) + in_seq(*link));
        }
    }

    fn pre_order_walk<'a>(link: &'a Option<Box<BSTNode<T>>>, result: &mut Vec<&'a T>)
        ensures
            derefs(final(result)@) == derefs(old(result)@) + pre_seq(*link),
        decreases *link,
    {
        if let Some(node) = link {
            let ghost r0 = derefs(result@);
            result.push(&node.value);
            assert(derefs(result@) =~= r0.push(node.value));
            Self::pre_order_walk(&node.left, result);
            Self::pre_order_walk(&node.right, result);
            assert(derefs(result@) =~= r0 + pre_seq(*link));
        } else {
            assert(derefs(result@) =~= derefs(result@) + pre_seq(*link));
        }
    }

    /// The values in ascending order, each once.  O(n).
    pub fn in_order(&self) -> (r: Vec<&T>)
        requires
            lawful_ord::<T>(),
            self.wf(),
        ensures
            strictly_sorted(derefs(r@)),
            derefs(r@).to_set() == self@,
    {
        let mut result: Vec<&T> = Vec::new();
        Self::in_order_walk(&self.root, &mut result);
        proof {
            assert(derefs(result@) =~= in_seq(self.root));
            lemma_in_seq(self.root);
        }
        result
    }

    /// The values in pre-order: node, left subtree, right subtree.  O(n).
    pub fn pre_order(&self) -> (r: Vec<&T>)
        ensures
            derefs(r@) == self.preorder(),
    {
        let mut result: Vec<&T> = Vec::new();
        Self::pre_order_walk(&self.root, &mut result);
        assert(derefs(result@) =~= pre_seq(self.root));
        result
    }

    /// The values level by level, left to right (breadth-first).  O(n).
    pub fn level_order(&self) -> (r: Vec<&T>)
        ensures
            derefs(r@) == self.levels(),
    {
        let mut result: Vec<&T> = Vec::new();
        let mut queue: VecDeque<&BSTNode<T>> = VecDeque::new();
        if let Some(node) = &self.root {
            queue.push_back(&**node);
        }
        let ghost q0 = root_queue(self.root);
        assert(queue@.map_values(|r: &BSTNode<T>| *r) =~= q0);
        assert(derefs(result@) =~= Seq::<T>::empty());
        loop
            invariant
                derefs(result@) + level_seq(queue@.map_values(|r: &BSTNode<T>| *r)) == level_seq(q0),
            ensures
                derefs(result@) == level_seq(q0),
            decreases forest_size(queue@.map_values(|r: &BSTNode<T>| *r)),
        {
            let ghost q = queue@.map_values(|r: &BSTNode<T>| *r);
            match queue.pop_front() {
                None => {
                    assert(q =~= Seq::<BSTNode<T>>::empty());
                    assert(derefs(result@) + Seq::<T>::empty() =~= derefs(result@));
                    break;
                },
                Some(node) => {
                    proof {
                        lemma_forest_step(q);
                        assert(q[0] == *node);
                        assert(queue@.map_values(|r: &BSTNode<T>| *r) =~= q.drop_first());
                    }
                    let ghost result0 = derefs(result@);
                    result.push(&node.value);
                    if let Some(left) = &node.left {
                        queue.push_back(&**left);
                    }
                    if let Some(right) = &node.right {
                        queue.push_back(&**right);
                    }
                    proof {
                        assert(queue@.map_values(|r: &BSTNode<T>| *r) =~= q.drop_first() + kids(q[0]));
                        assert(level_seq(q) == seq![q[0].value] + level_seq(q.drop_first() + kids(q[0])));
                        let rest = level_seq(q.drop_first() + kids(q[0]));
                        assert(derefs(result@) =~= result0.push(node.value));
                        assert(derefs(result@) + rest =~= result0 + (seq![q[0].value] + rest));
                    }
                },
            }
        }
        result
    }
}

/// AVL-balanced set of values, kept in an AVL map with unit values.
pub struct AVLTree<T> {
    tree: AvlTree<T, ()>,
}

impl<T: Ord> View for AVLTree<T> {
    type V = Set<T>;

    closed spec fn view(&self) -> Set<T> {
        self.tree@.dom()
    }
}

impl<T: Ord> AVLTree<T> {
    /// The underlying map is well formed.
    pub closed spec fn wf(&self) -> bool {
        self.tree.wf()
    }

    /// An empty set.  O(1).
    pub fn new() -> (t: Self)
        ensures
            t.wf(),
            t@ == Set::<T>::empty(),
    {
        AVLTree { tree: AvlTree::new() }
    }

    /// Adds `value`; a value already present is left alone.  O(log n).
    pub fn insert(&mut self, value: T)
        requires
            lawful_ord::<T>(),
            old(self).wf(),
            old(self)@.len() + 1 < usize::MAX,
        ensures
            final(self).wf(),
            final(self)@ == old(self)@.insert(value),
    {
        if self.tree.get(&value).is_none() {
            self.tree.insert(value, ());
            proof {
                assert(self.tree@.dom() =~= old(self)@.insert(value));
            }
        } else {
            proof {
                assert(old(self)@.insert(value) =~= old(self)@);
            }
        }
    }

    /// Whether `value` is in the set.  O(log n).
    pub fn contains(&self, value: &T) -> (r: bool)
        requires
            lawful_ord::<T>(),
            self.wf(),
        ensures
            r == self@.contains(*value),
    {
        self.tree.get(value).is_some()
    }

    /// The values in ascending order, each once.  O(n).
    pub fn in_order(&self) -> (r: Vec<&T>)
        requires
            lawful_ord::<T>(),
            self.wf(),
        ensures
            strictly_sorted(derefs(r@)),
            derefs(r@).to_set() == self@,
    {
        let entries = self.tree.iter();
        let mut out: Vec<&T> = Vec::new();
        let mut i: usize = 0;
        while i < entries.len()
            invariant
                i <= entries@.len(),
                out@.len() == i,
                forall|j: int| 0 <= j < i ==> #[trigger] out@[j] == entries@[j].0,
            decreases entries@.len() - i,
        {
            out.push(entries[i].0);
            i = i + 1;
        }
        proof {
            let d = derefs(out@);
            assert forall|a: int, b: int| 0 <= a < b < d.len() implies key_lt(#[trigger] d[a], #[trigger] d[b]) by {
                assert(d[a] == *entries@[a].0);
                assert(d[b] == *entries@[b].0);
            }
            assert forall|x: T| d.to_set().contains(x) <==> self@.contains(x) by {
                if d.to_set().contains(x) {
                    let j = choose|j: int| 0 <= j < d.len() && d[j] == x;
                    assert(d[j] == *entries@[j].0);
                }
                if self@.contains(x) {
                    assert(self.tree@.contains_key(x));
                    let j = choose|j: int| 0 <= j < entries@.len() && *entries@[j].0 == x;
                    assert(d[j] == x);
                }
            }
            assert(d.to_set() =~= self@);
        }
        out
    }
}

} // verus!
