//! Trie (prefix tree) over keys that are sequences of `E`: insert, search,
//! prefix test, prefix count, delete.
//!
//! Each node keeps how many stored keys pass through it, so counting the
//! keys under a prefix is one walk down the prefix.  Delete only adjusts
//! the counts and the end marker; empty branches stay in place.
use vstd::prelude::*;
use vstd::string::StrSliceExecFns;
use vstd::std_specs::hash::obeys_key_model;
use std::collections::HashMap;
use std::hash::Hash;
use crate::sort::order::{int_of, clone_faithful};

verus! {

broadcast use vstd::std_specs::hash::group_hash_axioms;

struct Node<E> {
    children: HashMap<E, Node<E>>,
    is_end: bool,
    prefix_count: usize,
}

/// A set of keys, each a sequence of `E`.
#[verifier::reject_recursive_types(E)]
pub struct Trie<E> {
    root: Node<E>,
    words: Ghost<Set<Seq<E>>>,
}

/// Keys behave as the hash-map model needs and clone to equal values.
pub open spec fn lawful_elem<E: Clone>() -> bool {
    obeys_key_model::<E>() && clone_faithful::<E>()
}

/// The node reached from `n` along `p`, if every step exists.
spec fn node_at<E>(n: Node<E>, p: Seq<E>) -> Option<Node<E>>
    decreases p.len(),
{
    if p.len() == 0 {
        Some(n)
    } else if n.children@.contains_key(p[0]) {
        node_at(n.children@[p[0]], p.drop_first())
    } else {
        None
    }
}

/// The count stored at the node for `p`, 0 where there is none.
spec fn count_at<E>(n: Node<E>, p: Seq<E>) -> int {
    match node_at(n, p) {
        Some(m) => m.prefix_count as int,
        None => 0,
    }
}

/// The end marker at the node for `p`, false where there is none.
spec fn end_at<E>(n: Node<E>, p: Seq<E>) -> bool {
    match node_at(n, p) {
        Some(m) => m.is_end,
        None => false,
    }
}

/// The keys of `ws` that start with `p`.
pub open spec fn with_prefix<E>(ws: Set<Seq<E>>, p: Seq<E>) -> Set<Seq<E>> {
    ws.filter(|w: Seq<E>| p.is_prefix_of(w))
}

proof fn lemma_prefix_step<E>(q: Seq<E>, s: Seq<E>)
    requires
        q.len() > 0,
        s.len() > 0,
    ensures
        q.is_prefix_of(s) <==> (q[0] == s[0] && q.drop_first().is_prefix_of(s.drop_first())),
{
    if q.is_prefix_of(s) {
        assert(q.drop_first() =~= s.drop_first().subrange(0, q.len() - 1));
    }
    if q[0] == s[0] && q.drop_first().is_prefix_of(s.drop_first()) {
        assert(s.subrange(0, nat_int_len(q)) =~= q) by {
            assert forall|k: int| 0 <= k < q.len() implies s.subrange(0, nat_int_len(q))[k] == q[k] by {
                if k > 0 {
                    assert(s.drop_first().subrange(0, q.len() - 1)[k - 1] == q.drop_first()[k - 1]);
                }
            }
        }
    }
}

/// Length of a sequence as an `int`.
spec fn nat_int_len<E>(s: Seq<E>) -> int {
    s.len() as int
}

impl<E: Eq + Hash> Node<E> {
    fn new() -> (n: Self)
        ensures
            n.children@ == Map::<E, Node<E>>::empty(),
            !n.is_end,
            n.prefix_count == 0,
    {
        Node { children: HashMap::new(), is_end: false, prefix_count: 0 }
    }
}

proof fn lemma_empty_node<E>(n: Node<E>, q: Seq<E>)
    requires
        n.children@ == Map::<E, Node<E>>::empty(),
    ensures
        q.len() > 0 ==> node_at(n, q) is None,
        q.len() == 0 ==> node_at(n, q) == Some(n),
{
}

/// Stepping down one edge: the node for `e + q` below `n` is the node
/// for `q` below the child at `e`.
proof fn lemma_node_at_cons<E>(n: Node<E>, e: E, q: Seq<E>)
    ensures
        node_at(n, seq![e] + q) == if n.children@.contains_key(e) { node_at(n.children@[e], q) } else { None::<Node<E>> },
{
    let p = seq![e] + q;
    assert(p.drop_first() =~= q);
    assert(p[0] == e);
}

/// The child used for the next step, compared with the old tree: the
/// same nodes one level down, or a fresh empty node where there was none.
proof fn lemma_child_view<E>(n0: Node<E>, e: E, child: Node<E>, q: Seq<E>)
    requires
        n0.children@.contains_key(e) ==> child == n0.children@[e],
        !n0.children@.contains_key(e) ==> child.children@ == Map::<E, Node<E>>::empty() && !child.is_end
            && child.prefix_count == 0,
    ensures
        count_at(child, q) == count_at(n0, seq![e] + q),
        end_at(child, q) == end_at(n0, seq![e] + q),
        q.len() > 0 ==> node_at(child, q) == node_at(n0, seq![e] + q),
{
    lemma_node_at_cons(n0, e, q);
}

/// Adds 1 to the count of every node on the path `key[i..]` from `node`
/// (creating missing ones) and marks the last as a key end.
fn insert_rec<E: Eq + Hash + Clone>(node: &mut Node<E>, key: &[E], i: usize)
    requires
        lawful_elem::<E>(),
        i <= key@.len(),
        forall|q: Seq<E>| q.is_prefix_of(key@.skip(int_of(i))) ==> count_at(*old(node), q) + 1 < usize::MAX,
    ensures
        forall|q: Seq<E>| #![trigger node_at(*final(node), q)] q.is_prefix_of(key@.skip(int_of(i))) ==> {
            &&& node_at(*final(node), q) is Some
            &&& count_at(*final(node), q) == count_at(*old(node), q) + 1
            &&& q.len() < key@.len() - i ==> end_at(*final(node), q) == end_at(*old(node), q)
        },
        forall|q: Seq<E>| #![trigger node_at(*final(node), q)] !q.is_prefix_of(key@.skip(int_of(i))) ==> node_at(*final(node), q) == node_at(*old(node), q),
        end_at(*final(node), key@.skip(int_of(i))),
    decreases key@.len() - i,
{
    let ghost s = key@.skip(int_of(i));
    let ghost n0 = *node;
    proof {
        assert(Seq::<E>::empty().is_prefix_of(s));
        assert(node_at(n0, Seq::<E>::empty()) == Some(n0));
    }
    node.prefix_count = node.prefix_count + 1;
    if i == key.len() {
        node.is_end = true;
        proof {
            assert(s.len() == 0);
            assert forall|q: Seq<E>| #![trigger node_at(*node, q)] q.is_prefix_of(s) implies {
                &&& node_at(*node, q) is Some
                &&& count_at(*node, q) == count_at(n0, q) + 1
                &&& q.len() < key@.len() - i ==> end_at(*node, q) == end_at(n0, q)
            } by {
                assert(q.len() == 0);
            }
            assert forall|q: Seq<E>| #![trigger node_at(*node, q)] !q.is_prefix_of(s) implies node_at(*node, q) == node_at(n0, q) by {
                if q.len() == 0 {
                    assert(q.is_prefix_of(s));
                }
            }
        }
        return;
    }
    let e = key[i].clone();
    proof {
        assert(e == key@[int_of(i)]);
        assert(s[0] == e);
        assert(s.drop_first() =~= key@.skip(int_of(i) + 1));
    }
    let ghost n1 = *node;
    let mut child = match node.children.remove(&key[i]) {
        Some(c) => c,
        None => Node::new(),
    };
    let ghost c0 = child;
    proof {
        assert(n1.children@ == n0.children@);
        assert forall|q: Seq<E>| q.is_prefix_of(key@.skip(int_of(i) + 1)) implies count_at(c0, q) + 1 < usize::MAX by {
            let q2 = seq![e] + q;
            assert(q2.drop_first() =~= q);
            lemma_prefix_step(q2, s);
            lemma_child_view(n0, e, c0, q);
        }
    }
    insert_rec(&mut child, key, i + 1);
    let ghost c1 = child;
    node.children.insert(e, child);
    proof {
        let nn = *node;
        assert(nn.children@ == n0.children@.remove(e).insert(e, c1));
        let s1 = key@.skip(int_of(i) + 1);
        assert forall|q: Seq<E>| #![trigger node_at(nn, q)] q.is_prefix_of(s) implies {
            &&& node_at(nn, q) is Some
            &&& count_at(nn, q) == count_at(n0, q) + 1
            &&& q.len() < key@.len() - i ==> end_at(nn, q) == end_at(n0, q)
        } by {
            if q.len() > 0 {
                lemma_prefix_step(q, s);
                let r = q.drop_first();
                assert(q =~= seq![e] + r);
                lemma_node_at_cons(nn, e, r);
                lemma_child_view(n0, e, c0, r);
                assert(node_at(c1, r) is Some);
            }
        }
        assert forall|q: Seq<E>| #![trigger node_at(nn, q)] !q.is_prefix_of(s) implies node_at(nn, q) == node_at(n0, q) by {
            if q.len() == 0 {
                assert(q.is_prefix_of(s));
            } else {
                lemma_prefix_step(q, s);
                let r = q.drop_first();
                assert(q =~= seq![q[0]] + r);
                lemma_node_at_cons(nn, q[0], r);
                lemma_node_at_cons(n0, q[0], r);
                if q[0] == e {
                    assert(!r.is_prefix_of(s1));
                    lemma_child_view(n0, e, c0, r);
                }
            }
        }
        assert(end_at(nn, s)) by {
            let r = s.drop_first();
            assert(s =~= seq![e] + r);
            lemma_node_at_cons(nn, e, r);
        }
    }
}

/// Subtracts 1 from the count of every node on the path `key[i..]` from
/// `node` and clears the end mark of the last.
fn delete_rec<E: Eq + Hash + Clone>(node: &mut Node<E>, key: &[E], i: usize)
    requires
        lawful_elem::<E>(),
        i <= key@.len(),
        forall|q: Seq<E>| q.is_prefix_of(key@.skip(int_of(i))) ==> node_at(*old(node), q) is Some && count_at(*old(node), q) >= 1,
    ensures
        forall|q: Seq<E>| #![trigger node_at(*final(node), q)] q.is_prefix_of(key@.skip(int_of(i))) ==> {
            &&& node_at(*final(node), q) is Some
            &&& count_at(*final(node), q) == count_at(*old(node), q) - 1
            &&& q.len() < key@.len() - i ==> end_at(*final(node), q) == end_at(*old(node), q)
        },
        forall|q: Seq<E>| #![trigger node_at(*final(node), q)] !q.is_prefix_of(key@.skip(int_of(i))) ==> node_at(*final(node), q) == node_at(*old(node), q),
        !end_at(*final(node), key@.skip(int_of(i))),
    decreases key@.len() - i,
{
    let ghost s = key@.skip(int_of(i));
    let ghost n0 = *node;
    proof {
        assert(Seq::<E>::empty().is_prefix_of(s));
        assert(node_at(n0, Seq::<E>::empty()) == Some(n0));
    }
    node.prefix_count = node.prefix_count - 1;
    if i == key.len() {
        node.is_end = false;
        proof {
            assert(s.len() == 0);
            assert forall|q: Seq<E>| #![trigger node_at(*node, q)] q.is_prefix_of(s) implies {
                &&& node_at(*node, q) is Some
                &&& count_at(*node, q) == count_at(n0, q) - 1
                &&& q.len() < key@.len() - i ==> end_at(*node, q) == end_at(n0, q)
            } by {
                assert(q.len() == 0);
            }
            assert forall|q: Seq<E>| #![trigger node_at(*node, q)] !q.is_prefix_of(s) implies node_at(*node, q) == node_at(n0, q) by {
                if q.len() == 0 {
                    assert(q.is_prefix_of(s));
                }
            }
        }
        return;
    }
    let e = key[i].clone();
    proof {
        assert(e == key@[int_of(i)]);
        assert(s[0] == e);
        assert(s.drop_first() =~= key@.skip(int_of(i) + 1));
        let q1 = seq![e];
        assert(q1.is_prefix_of(s)) by {
            assert(s.subrange(0, 1) =~= q1);
        }
        lemma_node_at_cons(n0, e, Seq::empty());
        assert(q1 =~= seq![e] + Seq::<E>::empty());
        assert(n0.children@.contains_key(e));
    }
    let mut child = node.children.remove(&key[i]).unwrap();
    let ghost c0 = child;
    proof {
        assert forall|q: Seq<E>| q.is_prefix_of(key@.skip(int_of(i) + 1)) implies node_at(c0, q) is Some && count_at(c0, q) >= 1 by {
            let q2 = seq![e] + q;
            assert(q2.drop_first() =~= q);
            lemma_prefix_step(q2, s);
            lemma_node_at_cons(n0, e, q);
        }
    }
    delete_rec(&mut child, key, i + 1);
    let ghost c1 = child;
    node.children.insert(e, child);
    proof {
        let nn = *node;
        assert(nn.children@ == n0.children@.remove(e).insert(e, c1));
        let s1 = key@.skip(int_of(i) + 1);
        assert forall|q: Seq<E>| #![trigger node_at(nn, q)] q.is_prefix_of(s) implies {
            &&& node_at(nn, q) is Some
            &&& count_at(nn, q) == count_at(n0, q) - 1
            &&& q.len() < key@.len() - i ==> end_at(nn, q) == end_at(n0, q)
        } by {
            if q.len() > 0 {
                lemma_prefix_step(q, s);
                let r = q.drop_first();
                assert(q =~= seq![e] + r);
                lemma_node_at_cons(nn, e, r);
                lemma_node_at_cons(n0, e, r);
                assert(node_at(c1, r) is Some);
            }
        }
        assert forall|q: Seq<E>| #![trigger node_at(nn, q)] !q.is_prefix_of(s) implies node_at(nn, q) == node_at(n0, q) by {
            if q.len() == 0 {
                assert(q.is_prefix_of(s));
            } else {
                lemma_prefix_step(q, s);
                let r = q.drop_first();
                assert(q =~= seq![q[0]] + r);
                lemma_node_at_cons(nn, q[0], r);
                lemma_node_at_cons(n0, q[0], r);
                if q[0] == e {
                    assert(!r.is_prefix_of(s1));
                }
            }
        }
        assert(!end_at(nn, s)) by {
            let r = s.drop_first();
            assert(s =~= seq![e] + r);
            lemma_node_at_cons(nn, e, r);
        }
    }
}

/// A prefix of a path that exists exists.
proof fn lemma_prefix_exists<E>(n: Node<E>, p: Seq<E>, w: Seq<E>)
    requires
        node_at(n, w) is Some,
        p.is_prefix_of(w),
    ensures
        node_at(n, p) is Some,
    decreases p.len(),
{
    if p.len() > 0 {
        lemma_prefix_step(p, w);
        lemma_prefix_exists(n.children@[p[0]], p.drop_first(), w.drop_first());
    }
}

impl<E> View for Trie<E> {
    type V = Set<Seq<E>>;

    /// The stored keys.
    closed spec fn view(&self) -> Set<Seq<E>> {
        self.words@
    }
}

impl<E: Eq + Hash> Trie<E> {
    /// The end marks spell out the stored keys and every node's count is
    /// the number of stored keys through it.
    pub closed spec fn wf(&self) -> bool {
        &&& self.words@.finite()
        &&& self.words@.len() + 1 < usize::MAX
        &&& forall|w: Seq<E>| #[trigger] self.words@.contains(w) <==> end_at(self.root, w)
        &&& forall|p: Seq<E>| #[trigger] node_at(self.root, p) is Some ==> count_at(self.root, p) == with_prefix(self.words@, p).len()
    }

    /// A trie holds finitely many keys, fewer than `usize::MAX - 1`.
    pub proof fn lemma_finite(&self)
        requires
            self.wf(),
        ensures
            self@.finite(),
            self@.len() + 1 < usize::MAX,
    {
    }

    /// An empty trie.
    pub fn new() -> (t: Self)
        requires
            obeys_key_model::<E>(),
        ensures
            t.wf(),
            t@ == Set::<Seq<E>>::empty(),
    {
        let t = Trie { root: Node::new(), words: Ghost(Set::empty()) };
        proof {
            assert forall|w: Seq<E>| #[trigger] t.words@.contains(w) <==> end_at(t.root, w) by {
                lemma_empty_node(t.root, w);
            }
            assert forall|p: Seq<E>| #[trigger] node_at(t.root, p) is Some implies count_at(t.root, p) == with_prefix(t.words@, p).len() by {
                lemma_empty_node(t.root, p);
                assert(with_prefix(t.words@, p) =~= Set::<Seq<E>>::empty());
            }
        }
        t
    }

    /// The node at the end of `prefix`, if the path exists.
    fn find_node(&self, prefix: &[E]) -> (r: Option<&Node<E>>)
        requires
            obeys_key_model::<E>(),
        ensures
            r is Some <==> node_at(self.root, prefix@) is Some,
            r is Some ==> *r.unwrap() == node_at(self.root, prefix@).unwrap(),
    {
        let mut node = &self.root;
        let mut k: usize = 0;
        assert(prefix@.skip(0) =~= prefix@);
        while k < prefix.len()
            invariant
                obeys_key_model::<E>(),
                k <= prefix@.len(),
                node_at(self.root, prefix@) == node_at(*node, prefix@.skip(int_of(k))),
            decreases prefix@.len() - k,
        {
            let ghost rest = prefix@.skip(int_of(k));
            proof {
                assert(rest.drop_first() =~= prefix@.skip(int_of(k) + 1));
                assert(rest[0] == prefix@[int_of(k)]);
            }
            match node.children.get(&prefix[k]) {
                Some(c) => {
                    node = c;
                },
                None => {
                    return None;
                },
            }
            k = k + 1;
        }
        proof {
            assert(prefix@.skip(int_of(k)) =~= Seq::<E>::empty());
        }
        Some(node)
    }

    /// Whether `key` is stored.  O(L).
    pub fn search(&self, key: &[E]) -> (r: bool)
        requires
            obeys_key_model::<E>(),
            self.wf(),
        ensures
            r == self@.contains(key@),
    {
        match self.find_node(key) {
            Some(n) => n.is_end,
            None => false,
        }
    }

    /// Whether some stored key starts with `prefix`.  O(L).
    pub fn starts_with(&self, prefix: &[E]) -> (r: bool)
        requires
            obeys_key_model::<E>(),
            self.wf(),
        ensures
            r == exists|w: Seq<E>| #[trigger] self@.contains(w) && prefix@.is_prefix_of(w),
    {
        let r = match self.find_node(prefix) {
            Some(n) => n.prefix_count > 0,
            None => false,
        };
        proof {
            let ws = with_prefix(self.words@, prefix@);
            if exists|w: Seq<E>| #[trigger] self@.contains(w) && prefix@.is_prefix_of(w) {
                let w = choose|w: Seq<E>| #[trigger] self@.contains(w) && prefix@.is_prefix_of(w);
                assert(end_at(self.root, w));
                lemma_prefix_exists(self.root, prefix@, w);
                assert(ws.contains(w));
                self.words@.lemma_len_filter(|x: Seq<E>| prefix@.is_prefix_of(x));
            }
            if r {
                assert(ws.len() > 0);
                self.words@.lemma_len_filter(|x: Seq<E>| prefix@.is_prefix_of(x));
                let w = ws.choose();
                assert(ws.contains(w));
            }
        }
        r
    }

    /// How many stored keys start with `prefix`.  O(L).
    pub fn count_with_prefix(&self, prefix: &[E]) -> (r: usize)
        requires
            obeys_key_model::<E>(),
            self.wf(),
        ensures
            r == with_prefix(self@, prefix@).len(),
    {
        let r = match self.find_node(prefix) {
            Some(n) => n.prefix_count,
            None => 0,
        };
        proof {
            if node_at(self.root, prefix@) is None {
                let ws = with_prefix(self.words@, prefix@);
                self.words@.lemma_len_filter(|x: Seq<E>| prefix@.is_prefix_of(x));
                if ws.len() > 0 {
                    let w = ws.choose();
                    assert(ws.contains(w));
                    assert(self.words@.contains(w));
                    assert(end_at(self.root, w));
                    lemma_prefix_exists(self.root, prefix@, w);
                }
            }
        }
        r
    }
}

impl<E: Eq + Hash + Clone> Trie<E> {
    /// Stores `key`; true if it was not stored before.  O(L).
    pub fn insert(&mut self, key: &[E]) -> (r: bool)
        requires
            lawful_elem::<E>(),
            old(self).wf(),
            old(self)@.len() + 2 < usize::MAX,
        ensures
            final(self).wf(),
            r == !old(self)@.contains(key@),
            final(self)@ == old(self)@.insert(key@),
    {
        if self.search(key) {
            proof {
                assert(self.words@.insert(key@) =~= self.words@);
            }
            return false;
        }
        let ghost w0 = self.words@;
        let ghost r0 = self.root;
        proof {
            assert(key@.skip(0) =~= key@);
            assert forall|q: Seq<E>| q.is_prefix_of(key@.skip(int_of(0))) implies count_at(r0, q) + 1 < usize::MAX by {
                if node_at(r0, q) is Some {
                    let ws = with_prefix(w0, q);
                    w0.lemma_len_filter(|x: Seq<E>| q.is_prefix_of(x));
                    vstd::set_lib::lemma_len_subset(ws, w0);
                }
            }
        }
        insert_rec(&mut self.root, key, 0);
        proof {
            self.words@ = w0.insert(key@);
            let w1 = self.words@;
            let k = key@;
            assert forall|w: Seq<E>| #[trigger] w1.contains(w) <==> end_at(self.root, w) by {
                if w != k {
                    if w.is_prefix_of(k) {
                        assert(w.len() < k.len() || w =~= k);
                    }
                }
            }
            assert forall|p: Seq<E>| #[trigger] node_at(self.root, p) is Some implies count_at(self.root, p) == with_prefix(w1, p).len() by {
                w0.lemma_len_filter(|x: Seq<E>| p.is_prefix_of(x));
                if p.is_prefix_of(k) {
                    assert(with_prefix(w1, p) =~= with_prefix(w0, p).insert(k));
                    if node_at(r0, p) is None {
                        if with_prefix(w0, p).len() > 0 {
                            let w = with_prefix(w0, p).choose();
                            assert(with_prefix(w0, p).contains(w));
                            assert(w0.contains(w));
                            assert(end_at(r0, w));
                            lemma_prefix_exists(r0, p, w);
                        }
                    }
                } else {
                    assert(with_prefix(w1, p) =~= with_prefix(w0, p));
                }
            }
        }
        true
    }

    /// Removes `key`; true if it was stored.  O(L).
    pub fn delete(&mut self, key: &[E]) -> (r: bool)
        requires
            lawful_elem::<E>(),
            old(self).wf(),
        ensures
            final(self).wf(),
            r == old(self)@.contains(key@),
            final(self)@ == old(self)@.remove(key@),
    {
        if !self.search(key) {
            proof {
                assert(self.words@.remove(key@) =~= self.words@);
            }
            return false;
        }
        let ghost w0 = self.words@;
        let ghost r0 = self.root;
        proof {
            assert(key@.skip(0) =~= key@);
            assert forall|q: Seq<E>| q.is_prefix_of(key@.skip(int_of(0))) implies node_at(r0, q) is Some && count_at(r0, q) >= 1 by {
                assert(end_at(r0, key@));
                lemma_prefix_exists(r0, q, key@);
                w0.lemma_len_filter(|x: Seq<E>| q.is_prefix_of(x));
                assert(with_prefix(w0, q).contains(key@));
            }
        }
        delete_rec(&mut self.root, key, 0);
        proof {
            self.words@ = w0.remove(key@);
            let w1 = self.words@;
            let k = key@;
            assert forall|w: Seq<E>| #[trigger] w1.contains(w) <==> end_at(self.root, w) by {
                if w != k {
                    if w.is_prefix_of(k) {
                        assert(w.len() < k.len() || w =~= k);
                    }
                }
            }
            assert forall|p: Seq<E>| #[trigger] node_at(self.root, p) is Some implies count_at(self.root, p) == with_prefix(w1, p).len() by {
                w0.lemma_len_filter(|x: Seq<E>| p.is_prefix_of(x));
                if p.is_prefix_of(k) {
                    assert(with_prefix(w1, p) =~= with_prefix(w0, p).remove(k));
                    assert(with_prefix(w0, p).contains(k));
                } else {
                    assert(with_prefix(w1, p) =~= with_prefix(w0, p));
                }
            }
        }
        true
    }
}

/// The characters of `word`, in order.
fn chars_of(word: &str) -> (v: Vec<char>)
    ensures
        v@ == word@,
{
    let n = word.unicode_len();
    let mut v: Vec<char> = Vec::new();
    let mut i: usize = 0;
    while i < n
        invariant
            n == word@.len(),
            i <= n,
            v@ == word@.take(int_of(i)),
        decreases n - i,
    {
        v.push(word.get_char(i));
        proof {
            assert(word@.take(int_of(i) + 1) =~= word@.take(int_of(i)).push(word@[int_of(i)]));
        }
        i = i + 1;
    }
    assert(word@.take(int_of(n)) =~= word@);
    v
}

impl Trie<char> {
    /// `insert` on the characters of `word`.
    pub fn insert_str(&mut self, word: &str) -> (r: bool)
        requires
            lawful_elem::<char>(),
            old(self).wf(),
            old(self)@.len() + 2 < usize::MAX,
        ensures
            final(self).wf(),
            r == !old(self)@.contains(word@),
            final(self)@ == old(self)@.insert(word@),
    {
        let v = chars_of(word);
        self.insert(v.as_slice())
    }

    /// `search` on the characters of `word`.
    pub fn search_str(&self, word: &str) -> (r: bool)
        requires
            lawful_elem::<char>(),
            self.wf(),
        ensures
            r == self@.contains(word@),
    {
        let v = chars_of(word);
        self.search(v.as_slice())
    }

    /// `starts_with` on the characters of `prefix`.
    pub fn starts_with_str(&self, prefix: &str) -> (r: bool)
        requires
            lawful_elem::<char>(),
            self.wf(),
        ensures
            r == exists|w: Seq<char>| #[trigger] self@.contains(w) && prefix@.is_prefix_of(w),
    {
        let v = chars_of(prefix);
        self.starts_with(v.as_slice())
    }

    /// `count_with_prefix` on the characters of `prefix`.
    pub fn count_with_prefix_str(&self, prefix: &str) -> (r: usize)
        requires
            lawful_elem::<char>(),
            self.wf(),
        ensures
            r == with_prefix(self@, prefix@).len(),
    {
        let v = chars_of(prefix);
        self.count_with_prefix(v.as_slice())
    }

    /// `delete` on the characters of `word`.
    pub fn delete_str(&mut self, word: &str) -> (r: bool)
        requires
            lawful_elem::<char>(),
            old(self).wf(),
        ensures
            final(self).wf(),
            r == old(self)@.contains(word@),
            final(self)@ == old(self)@.remove(word@),
    {
        let v = chars_of(word);
        self.delete(v.as_slice())
    }
}

} // verus!
