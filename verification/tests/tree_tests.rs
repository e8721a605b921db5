use lib::trees::binary_tree::{Link, bst_insert, bst_search, inorder, bfs, max_depth};
use lib::trees::avl_tree::AvlTree;
use lib::trees::splay_tree::SplayTree;
use lib::trees::trie::Trie;
use lib::trees::expression_tree::{Expr, ExprType, Document, evaluate, optimize, count_nodes};
use lib::trees::ordered_sets::{BST, AVLTree};

fn build_bst() -> Link {
    //       4
    //      / \
    //     2   6
    //    / \ / \
    //   1  3 5  7
    let mut root = None;
    for v in [4, 2, 6, 1, 3, 5, 7] {
        bst_insert(&mut root, v);
    }
    root
}

// ZERO
#[test]
fn empty_tree() {
    let root: Link = None;
    assert!(!bst_search(&root, 1));
    assert_eq!(inorder(&root), vec![]);
    assert_eq!(bfs(&root), vec![]);
    assert_eq!(max_depth(&root), 0);
}

// ONE
#[test]
fn single_node() {
    let mut root = None;
    bst_insert(&mut root, 42);
    assert!(bst_search(&root, 42));
    assert_eq!(max_depth(&root), 1);
}

// MANY: insert, search, traversals
#[test]
fn insert_and_search() {
    let root = build_bst();
    assert!(bst_search(&root, 4));
    assert!(bst_search(&root, 1));
    assert!(bst_search(&root, 7));
    assert!(!bst_search(&root, 0));
    assert!(!bst_search(&root, 8));
}

#[test]
fn binary_tree_inorder_is_sorted() {
    let root = build_bst();
    assert_eq!(inorder(&root), vec![1, 2, 3, 4, 5, 6, 7]);
}

#[test]
fn bfs_level_order() {
    let root = build_bst();
    assert_eq!(bfs(&root), vec![4, 2, 6, 1, 3, 5, 7]);
}

// EDGE: depth
#[test]
fn depth() {
    let root = build_bst();
    assert_eq!(max_depth(&root), 3);
}


// ZERO
#[test]
fn avl_tree_empty() {
    let tree = AvlTree::<i32, &str>::new();
    assert_eq!(tree.get(&1), None);
    assert!(tree.iter().is_empty());
    assert_eq!(tree.depth(), 0);
}

// ONE
#[test]
fn avl_tree_single() {
    let mut tree = AvlTree::new();
    tree.insert(42, "answer");
    assert_eq!(tree.get(&42), Some(&"answer"));
    assert_eq!(tree.get(&0), None);
    assert_eq!(tree.depth(), 1);
}

// MANY: insert preserves BST order, get retrieves values
#[test]
fn iter_is_sorted() {
    let mut tree = AvlTree::new();
    for (k, v) in [
        (4, "d"),
        (2, "b"),
        (6, "f"),
        (1, "a"),
        (3, "c"),
        (5, "e"),
        (7, "g"),
    ] {
        tree.insert(k, v);
    }
    let keys: Vec<&i32> = tree.iter().into_iter().map(|(k, _)| k).collect();
    assert_eq!(keys, vec![&1, &2, &3, &4, &5, &6, &7]);
    assert_eq!(tree.get(&4), Some(&"d"));
    assert_eq!(tree.get(&7), Some(&"g"));
}

// Insert with existing key updates value
#[test]
fn insert_updates_value() {
    let mut tree = AvlTree::new();
    tree.insert(1, "old");
    tree.insert(1, "new");
    assert_eq!(tree.get(&1), Some(&"new"));
    assert_eq!(tree.iter().len(), 1);
}

// EDGE: inserting sorted sequence stays balanced
#[test]
fn sorted_insert_balanced() {
    let mut tree = AvlTree::new();
    for v in 1..=15 {
        tree.insert(v, v * 10);
    }
    assert_eq!(tree.iter().len(), 15);
    assert_eq!(tree.get(&5), Some(&50));
    assert!(tree.depth() <= 5);
}

// EDGE: reverse sorted insert stays balanced
#[test]
fn reverse_insert_balanced() {
    let mut tree = AvlTree::new();
    for v in (1..=15).rev() {
        tree.insert(v, v);
    }
    assert!(tree.depth() <= 5);
}

// LL rotation: insert 3, 2, 1
#[test]
fn ll_rotation() {
    let mut tree = AvlTree::new();
    for k in [3, 2, 1] {
        tree.insert(k, ());
    }
    // After LL rotation, root should be 2
    let keys: Vec<&i32> = tree.iter().into_iter().map(|(k, _)| k).collect();
    assert_eq!(keys, vec![&1, &2, &3]);
    assert_eq!(tree.depth(), 2);
}

// RR rotation: insert 1, 2, 3
#[test]
fn rr_rotation() {
    let mut tree = AvlTree::new();
    for k in [1, 2, 3] {
        tree.insert(k, ());
    }
    let keys: Vec<&i32> = tree.iter().into_iter().map(|(k, _)| k).collect();
    assert_eq!(keys, vec![&1, &2, &3]);
    assert_eq!(tree.depth(), 2);
}

// LR rotation: insert 3, 1, 2
#[test]
fn lr_rotation() {
    let mut tree = AvlTree::new();
    for k in [3, 1, 2] {
        tree.insert(k, ());
    }
    let keys: Vec<&i32> = tree.iter().into_iter().map(|(k, _)| k).collect();
    assert_eq!(keys, vec![&1, &2, &3]);
    assert_eq!(tree.depth(), 2);
}

// RL rotation: insert 1, 3, 2
#[test]
fn rl_rotation() {
    let mut tree = AvlTree::new();
    for k in [1, 3, 2] {
        tree.insert(k, ());
    }
    let keys: Vec<&i32> = tree.iter().into_iter().map(|(k, _)| k).collect();
    assert_eq!(keys, vec![&1, &2, &3]);
    assert_eq!(tree.depth(), 2);
}

// DELETE: leaf
#[test]
fn avl_tree_delete_leaf() {
    let mut tree = AvlTree::new();
    for v in [2, 1, 3] {
        tree.insert(v, v);
    }
    assert_eq!(tree.remove(&3), Some(3));
    assert_eq!(tree.get(&3), None);
    let keys: Vec<&i32> = tree.iter().into_iter().map(|(k, _)| k).collect();
    assert_eq!(keys, vec![&1, &2]);
}

// DELETE: node with one child
#[test]
fn delete_one_child() {
    let mut tree = AvlTree::new();
    for v in [3, 2, 4, 1] {
        tree.insert(v, v);
    }
    tree.remove(&2);
    let keys: Vec<&i32> = tree.iter().into_iter().map(|(k, _)| k).collect();
    assert_eq!(keys, vec![&1, &3, &4]);
}

// DELETE: node with two children
#[test]
fn delete_two_children() {
    let mut tree = AvlTree::new();
    for v in [4, 2, 6, 1, 3, 5, 7] {
        tree.insert(v, v);
    }
    tree.remove(&4);
    assert_eq!(tree.get(&4), None);
    let keys: Vec<&i32> = tree.iter().into_iter().map(|(k, _)| k).collect();
    assert_eq!(keys, vec![&1, &2, &3, &5, &6, &7]);
}

// DELETE: triggers rebalance
#[test]
fn delete_rebalances() {
    let mut tree = AvlTree::new();
    for v in [4, 2, 6, 1, 3, 5, 7] {
        tree.insert(v, v);
    }
    tree.remove(&1);
    tree.remove(&3);
    tree.remove(&2);
    assert!(tree.depth() <= 3);
    let keys: Vec<&i32> = tree.iter().into_iter().map(|(k, _)| k).collect();
    assert_eq!(keys, vec![&4, &5, &6, &7]);
}

// DELETE: nonexistent key is a no-op
#[test]
fn avl_tree_delete_missing() {
    let mut tree = AvlTree::new();
    tree.insert(1, "a");
    assert_eq!(tree.remove(&99), None);
    assert_eq!(tree.get(&1), Some(&"a"));
}

// EDGE: works with String keys
#[test]
fn avl_tree_string_keys() {
    let mut tree = AvlTree::new();
    tree.insert("banana".to_string(), 2);
    tree.insert("apple".to_string(), 1);
    tree.insert("cherry".to_string(), 3);
    assert_eq!(tree.get(&"banana".to_string()), Some(&2));
    let keys: Vec<&str> = tree.iter().into_iter().map(|(k, _)| k.as_str()).collect();
    assert_eq!(keys, vec!["apple", "banana", "cherry"]);
}


// ZERO
#[test]
fn splay_tree_empty() {
    let mut tree = SplayTree::new();
    assert!(!tree.search(1));
    assert_eq!(tree.inorder(), vec![]);
    assert_eq!(tree.bfs(), vec![]);
}

// ONE
#[test]
fn splay_tree_single() {
    let mut tree = SplayTree::new();
    tree.insert(42);
    assert!(tree.search(42));
    assert!(!tree.search(0));
}

// MANY: insert preserves BST order
#[test]
fn splay_tree_inorder_is_sorted() {
    let mut tree = SplayTree::new();
    for v in [4, 2, 6, 1, 3, 5, 7] {
        tree.insert(v);
    }
    assert_eq!(tree.inorder(), vec![1, 2, 3, 4, 5, 6, 7]);
}

// Search splays to root
#[test]
fn search_splays_to_root() {
    let mut tree = SplayTree::new();
    for v in [4, 2, 6, 1, 3, 5, 7] {
        tree.insert(v);
    }
    let _ = tree.search(1);
    assert_eq!(tree.root_val().unwrap(), 1);
}

// EDGE: sorted insert (worst case for naive BST)
#[test]
fn sorted_insert() {
    let mut tree = SplayTree::new();
    for v in 1..=15 {
        tree.insert(v);
    }
    assert_eq!(tree.inorder(), (1..=15).collect::<Vec<_>>());
}

// DELETE: leaf
#[test]
fn splay_tree_delete_leaf() {
    let mut tree = SplayTree::new();
    for v in [2, 1, 3] {
        tree.insert(v);
    }
    tree.delete(3);
    assert!(!tree.search(3));
    let inorder = tree.inorder();
    assert!(inorder.contains(&1));
    assert!(inorder.contains(&2));
}

// DELETE: node with two children
#[test]
fn delete_root() {
    let mut tree = SplayTree::new();
    for v in [4, 2, 6, 1, 3, 5, 7] {
        tree.insert(v);
    }
    tree.delete(4);
    assert!(!tree.search(4));
    assert_eq!(tree.inorder(), vec![1, 2, 3, 5, 6, 7]);
}

// DELETE: nonexistent value is a no-op
#[test]
fn splay_tree_delete_missing() {
    let mut tree = SplayTree::new();
    tree.insert(1);
    tree.delete(99);
    assert_eq!(tree.inorder(), vec![1]);
}

// EDGE: duplicates
#[test]
fn splay_tree_duplicates() {
    let mut tree = SplayTree::new();
    tree.insert(1);
    tree.insert(1);
    tree.insert(1);
    assert_eq!(tree.inorder(), vec![1, 1, 1]);
}

// Repeated access pattern — splay adapts
#[test]
fn repeated_access() {
    let mut tree = SplayTree::new();
    for v in 1..=100 {
        tree.insert(v);
    }
    // Accessing the same element repeatedly should keep it at root
    for _ in 0..10 {
        assert!(tree.search(50));
        assert_eq!(tree.root_val().unwrap(), 50);
    }
}


// ZERO
#[test]
fn empty_trie() {
    let trie = Trie::<char>::new();
    assert!(!trie.search_str("anything"));
    assert!(!trie.starts_with_str("a"));
    assert_eq!(trie.count_with_prefix_str(""), 0);
}

// ONE
#[test]
fn single_word() {
    let mut trie = Trie::new();
    trie.insert_str("hello");
    assert!(trie.search_str("hello"));
    assert!(!trie.search_str("hell")); // prefix exists, word doesn't
    assert!(trie.starts_with_str("hel"));
    assert_eq!(trie.count_with_prefix_str("hello"), 1);
}

// MANY + prefix counting
#[test]
fn multiple_words_with_shared_prefix() {
    let mut trie = Trie::new();
    trie.insert_str("hello");
    trie.insert_str("help");
    trie.insert_str("heap");
    assert_eq!(trie.count_with_prefix_str("hel"), 2); // hello, help
    assert_eq!(trie.count_with_prefix_str("he"), 3); // hello, help, heap
    assert_eq!(trie.count_with_prefix_str("z"), 0);
}

// EDGE: delete + prefix_count consistency
#[test]
fn delete_and_count() {
    let mut trie = Trie::new();
    trie.insert_str("hello");
    trie.insert_str("help");
    assert!(trie.delete_str("hello"));
    assert!(!trie.search_str("hello"));
    assert!(trie.search_str("help"));
    assert_eq!(trie.count_with_prefix_str("hel"), 1);
}

// EDGE: delete nonexistent
#[test]
fn delete_nonexistent() {
    let mut trie = Trie::new();
    trie.insert_str("hello");
    assert!(!trie.delete_str("world"));
    assert!(trie.search_str("hello"));
}

// EDGE: duplicate insert is idempotent
#[test]
fn duplicate_insert_idempotent() {
    let mut trie = Trie::new();
    trie.insert_str("hello");
    trie.insert_str("hello"); // no-op
    assert_eq!(trie.count_with_prefix_str("hello"), 1);
    assert!(trie.delete_str("hello"));
    assert_eq!(trie.count_with_prefix_str("hello"), 0);
}

// Generic: trie over bytes
#[test]
fn byte_trie() {
    let mut trie = Trie::new();
    trie.insert(b"hello");
    trie.insert(b"help");
    assert!(trie.search(b"hello"));
    assert!(!trie.search(b"hell"));
    assert_eq!(trie.count_with_prefix(b"hel"), 2);
}

// Generic: trie over field names (compound index prefix matching)
#[test]
fn field_name_trie() {
    let mut trie = Trie::new();
    // Index {a, b, c}
    trie.insert(&["a", "b", "c"]);
    // Index {a, b}
    trie.insert(&["a", "b"]);
    // Index {x, y}
    trie.insert(&["x", "y"]);

    assert!(trie.search(&["a", "b", "c"]));
    assert!(trie.search(&["a", "b"]));
    assert!(!trie.search(&["a"])); // prefix exists, but not inserted as a key
    assert!(trie.starts_with(&["a"]));
    assert_eq!(trie.count_with_prefix(&["a"]), 2); // {a,b} and {a,b,c}
    assert_eq!(trie.count_with_prefix(&["x"]), 1); // {x,y}
}


fn doc(pairs: &[(&str, i64)]) -> Document {
    pairs.iter().map(|(k, v)| (k.to_string(), *v)).collect()
}

// ONE: single leaf
#[test]
fn eval_missing_field() {
    let expr = Expr::eq("a", 5);
    assert!(!evaluate(&expr, &doc(&[("b", 5)])));
}

// MANY: AND and OR evaluation
#[test]
fn eval_and_or() {
    let and = Expr::and_expr(vec![Expr::eq("a", 5), Expr::gt("b", 3)]);
    assert!(evaluate(&and, &doc(&[("a", 5), ("b", 10)])));
    assert!(!evaluate(&and, &doc(&[("a", 5), ("b", 1)])));

    let or = Expr::or_expr(vec![Expr::eq("a", 5), Expr::eq("b", 10)]);
    assert!(evaluate(&or, &doc(&[("a", 5)])));
    assert!(!evaluate(&or, &doc(&[("a", 6), ("b", 9)])));
}

// EDGE: flatten nested AND
#[test]
fn optimize_flatten_and() {
    let expr = Expr::and_expr(vec![
        Expr::and_expr(vec![Expr::eq("a", 1), Expr::eq("b", 2)]),
        Expr::eq("c", 3),
    ]);
    let opt = optimize(expr);
    assert_eq!(opt.num_children(), 3);
    assert_eq!(count_nodes(&opt), 4);
}

// EDGE: short-circuit
#[test]
fn optimize_and_false_short_circuit() {
    let expr = Expr::and_expr(vec![Expr::eq("a", 1), Expr::always_false()]);
    assert_eq!(optimize(expr).expr_type, ExprType::AlwaysFalse);
}

// EDGE: unwrap single child
#[test]
fn optimize_unwrap_single_child() {
    let expr = Expr::and_expr(vec![Expr::eq("a", 1)]);
    assert_eq!(optimize(expr).expr_type, ExprType::Eq);
}

// EDGE: optimize preserves evaluation semantics
#[test]
fn optimize_preserves_semantics() {
    let expr = Expr::and_expr(vec![
        Expr::and_expr(vec![Expr::eq("a", 1), Expr::always_true()]),
        Expr::or_expr(vec![Expr::always_false(), Expr::gt("b", 5)]),
    ]);
    let d = doc(&[("a", 1), ("b", 10)]);
    let before = evaluate(&expr, &d);
    let opt = optimize(expr);
    assert_eq!(evaluate(&opt, &d), before);
    assert_eq!(count_nodes(&opt), 3);
}


// -- BST tests --

#[test]
fn bst_insert_and_contains() {
    let mut tree = BST::new();
    tree.insert(5);
    tree.insert(3);
    tree.insert(7);
    tree.insert(1);
    tree.insert(4);
    assert!(tree.contains(&5));
    assert!(tree.contains(&1));
    assert!(!tree.contains(&99));
}

#[test]
fn bst_in_order_is_sorted() {
    let mut tree = BST::new();
    for v in [5, 3, 7, 1, 4, 6, 8] {
        tree.insert(v);
    }
    assert_eq!(tree.in_order(), vec![&1, &3, &4, &5, &6, &7, &8]);
}

#[test]
fn bst_pre_order() {
    let mut tree = BST::new();
    for v in [5, 3, 7, 1, 4] {
        tree.insert(v);
    }
    // Root first, then left subtree, then right subtree
    assert_eq!(tree.pre_order(), vec![&5, &3, &1, &4, &7]);
}

#[test]
fn bst_level_order() {
    let mut tree = BST::new();
    for v in [5, 3, 7, 1, 4, 6, 8] {
        tree.insert(v);
    }
    // BFS: level 0 = [5], level 1 = [3,7], level 2 = [1,4,6,8]
    assert_eq!(tree.level_order(), vec![&5, &3, &7, &1, &4, &6, &8]);
}

// -- AVL tree tests --

#[test]
fn avl_insert_and_contains() {
    let mut tree = AVLTree::new();
    for v in [5, 3, 7, 1, 4, 6, 8] {
        tree.insert(v);
    }
    assert!(tree.contains(&5));
    assert!(tree.contains(&1));
    assert!(!tree.contains(&99));
}

#[test]
fn avl_sorted_input_stays_balanced() {
    // Sorted input is the worst case for an unbalanced BST (degenerates to
    // a linked list). AVL must rebalance via rotations.
    let mut tree = AVLTree::new();
    for v in 1..=15 {
        tree.insert(v);
    }
    // In-order must still be sorted
    let expected: Vec<i32> = (1..=15).collect();
    let expected_refs: Vec<&i32> = expected.iter().collect();
    assert_eq!(tree.in_order(), expected_refs);

    // All elements must be findable (proves tree is correctly linked)
    for v in 1..=15 {
        assert!(tree.contains(&v), "Missing {}", v);
    }
}

#[test]
fn avl_all_rotation_cases() {
    let mut tree = AVLTree::new();

    // Right-right case: insert 1, 2, 3 → triggers left rotation at 1
    tree.insert(1);
    tree.insert(2);
    tree.insert(3);
    assert_eq!(tree.in_order(), vec![&1, &2, &3]);

    // Left-left case: insert values that trigger right rotation
    let mut tree2 = AVLTree::new();
    tree2.insert(3);
    tree2.insert(2);
    tree2.insert(1);
    assert_eq!(tree2.in_order(), vec![&1, &2, &3]);

    // Left-right case: 3, 1, 2
    let mut tree3 = AVLTree::new();
    tree3.insert(3);
    tree3.insert(1);
    tree3.insert(2);
    assert_eq!(tree3.in_order(), vec![&1, &2, &3]);

    // Right-left case: 1, 3, 2
    let mut tree4 = AVLTree::new();
    tree4.insert(1);
    tree4.insert(3);
    tree4.insert(2);
    assert_eq!(tree4.in_order(), vec![&1, &2, &3]);
}

#[test]
fn splay_zig_zig_turns_left_chain_into_right_chain() {
    let mut tree = SplayTree::new();
    tree.insert(1);
    tree.insert(2);
    tree.insert(3);
    assert_eq!(tree.bfs(), vec![3, 2, 1]);
    assert!(tree.search(1));
    assert_eq!(tree.bfs(), vec![1, 2, 3]);
    assert_eq!(tree.inorder(), vec![1, 2, 3]);
}

#[test]
fn splay_delete_one_of_many_max_values() {
    let mut tree = SplayTree::new();
    tree.insert(1);
    tree.insert(i64::MAX);
    tree.insert(i64::MAX);
    tree.insert(5);
    tree.insert(i64::MAX);
    tree.delete(i64::MAX);
    assert_eq!(tree.inorder(), vec![1, 5, i64::MAX, i64::MAX]);
    tree.delete(i64::MAX);
    tree.delete(i64::MAX);
    assert_eq!(tree.inorder(), vec![1, 5]);
    assert!(!tree.search(i64::MAX));
}
