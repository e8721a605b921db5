use lib::bloom_filter::hash_value;
use lib::hash_maps::bloom_filter::BloomFilter;
use lib::hash_maps::hash_map::HashMap;
use lib::hash_maps::lru_cache::LRUCache;
use lib::mongo::filter_stage::FilterStage;
use lib::mongo::hash_agg_stage::HashAggStage;
use lib::mongo::hash_join_stage::HashJoinStage;
use lib::mongo::limit_skip_stage::LimitSkipStage;
use lib::mongo::stages::{collect_all, PlanState, Stage, VecScan};
use lib::sort::external_sort::{top_k, ExternalSorter};
use lib::sort::heap::Heap;
use lib::sort::heapsort::heapsort_by;
use lib::sort::insertion_sort::insertion_sort_by;
use lib::sort::k_way_merge::MergeIterator;
use lib::sort::merge_sort::merge_sort_by;
use lib::sort::quicksort::quicksort;
use lib::trees::avl_tree::AvlTree;
use lib::trees::expression_tree::{count_nodes, evaluate, optimize, Document, Expr, ExprType};
use lib::trees::ordered_sets::{AVLTree, BST};
use lib::trees::splay_tree::SplayTree;
use lib::trees::trie::Trie;

fn ties_input() -> Vec<(i32, i32)> {
    vec![(2, 0), (1, 1), (2, 2), (0, 3), (1, 4), (2, 5), (0, 6), (1, 7)]
}

fn ties_sorted() -> Vec<(i32, i32)> {
    vec![(0, 3), (0, 6), (1, 1), (1, 4), (1, 7), (2, 0), (2, 2), (2, 5)]
}

#[test]
fn merge_sort_keeps_equal_keys_in_order() {
    let mut arr = ties_input();
    merge_sort_by(&mut arr, |a, b| a.0.cmp(&b.0));
    assert_eq!(arr, ties_sorted());
}

#[test]
fn insertion_sort_keeps_equal_keys_in_order() {
    let mut arr = ties_input();
    insertion_sort_by(&mut arr, |a, b| a.0.cmp(&b.0));
    assert_eq!(arr, ties_sorted());
}

#[test]
fn heapsort_by_sorts_by_key() {
    let mut arr = ties_input();
    heapsort_by(&mut arr, |a, b| a.0.cmp(&b.0));
    let keys: Vec<i32> = arr.iter().map(|p| p.0).collect();
    assert_eq!(keys, vec![0, 0, 1, 1, 1, 2, 2, 2]);
}

#[test]
fn quicksort_many_values() {
    let mut arr: Vec<i64> = (0..200).map(|i| (i * 7919) % 101 - 50).collect();
    let mut expected = arr.clone();
    expected.sort();
    quicksort(&mut arr);
    assert_eq!(arr, expected);
}

#[test]
fn heap_pops_in_descending_order() {
    let mut h = Heap::from_vec(vec![4, 9, 1, 7, 3], i32::cmp);
    h.push(8);
    let mut out = Vec::new();
    while let Some(x) = h.pop() {
        out.push(x);
    }
    assert_eq!(out, vec![9, 8, 7, 4, 3, 1]);
}

#[test]
fn merge_of_three_streams_is_sorted() {
    let merged = MergeIterator::new(vec![vec![1, 4, 7], vec![2, 5, 8], vec![0, 3, 6, 9]]).into_vec();
    assert_eq!(merged, (0..10).collect::<Vec<i32>>());
}

#[test]
fn merge_next_yields_smallest_head() {
    let mut m = MergeIterator::new(vec![vec![5, 6], vec![1, 9]]);
    assert_eq!(m.next(), Some(1));
    assert_eq!(m.next(), Some(5));
    assert_eq!(m.next(), Some(6));
    assert_eq!(m.next(), Some(9));
    assert_eq!(m.next(), None);
}

#[test]
fn external_sort_counts_runs() {
    let sorter = ExternalSorter::new(4);
    let (result, stats) = sorter.sort(vec![10, 9, 8, 7, 6, 5, 4, 3, 2, 1]);
    assert_eq!(result, (1..=10).collect::<Vec<i32>>());
    assert_eq!(stats.total_items, 10);
    assert_eq!(stats.num_runs, 3);
    assert!(stats.spilled);
}

#[test]
fn top_k_zero_is_empty() {
    assert_eq!(top_k(vec![3, 1, 2], 0), Vec::<i32>::new());
}

#[test]
fn hash_map_many_inserts_and_removes() {
    let mut map = HashMap::new();
    for i in 0..500 {
        map.insert(i, i + 1);
    }
    for i in (0..500).step_by(2) {
        assert!(map.remove(&i));
    }
    assert_eq!(map.len(), 250);
    for i in 0..500 {
        if i % 2 == 0 {
            assert_eq!(map.get(&i), None);
        } else {
            assert_eq!(map.get(&i), Some(&(i + 1)));
        }
    }
    let mut keys: Vec<i32> = map.iter().into_iter().map(|(k, _)| *k).collect();
    keys.sort();
    assert_eq!(keys, (0..500).filter(|i| i % 2 == 1).collect::<Vec<i32>>());
}

#[test]
fn bloom_filter_has_no_false_negatives() {
    let mut bf = BloomFilter::with_num_bits(2048);
    for i in 0..300u64 {
        bf.insert(hash_value(&i));
    }
    for i in 0..300u64 {
        assert!(bf.maybe_contains(hash_value(&i)));
    }
}

#[test]
fn bloom_filter_zero_bits_is_one_empty_block() {
    let bf = BloomFilter::with_num_bits(0);
    for i in 0..50u64 {
        assert!(!bf.maybe_contains(hash_value(&i)));
    }
}

#[test]
fn hash_value_is_deterministic() {
    assert_eq!(hash_value(&12345u64), hash_value(&12345u64));
    assert_eq!(hash_value(&"key"), hash_value(&"key"));
}

#[test]
fn lru_never_exceeds_capacity() {
    let mut cache = LRUCache::new(4);
    for i in 0..50 {
        cache.put(i, i * 2);
        assert!(cache.len() <= 4);
    }
    for i in 46..50 {
        assert_eq!(cache.get(&i), Some(&(i * 2)));
    }
    assert!(!cache.contains(&45));
}

#[test]
fn avl_height_stays_logarithmic() {
    let mut tree = AvlTree::new();
    for v in 0..1000 {
        tree.insert(v, v);
    }
    // a balanced tree of height 15 has at least 1596 nodes
    assert!(tree.depth() <= 14);
    for v in 0..900 {
        assert_eq!(tree.remove(&v), Some(v));
    }
    // a balanced tree of height 8 has at least 88 nodes
    assert!(tree.depth() <= 7);
    let keys: Vec<i32> = tree.iter().into_iter().map(|(k, _)| *k).collect();
    assert_eq!(keys, (900..1000).collect::<Vec<i32>>());
}

#[test]
fn ordered_sets_ignore_duplicates() {
    let mut bst = BST::new();
    let mut avl = AVLTree::new();
    for v in [5, 3, 5, 8, 3, 1] {
        bst.insert(v);
        avl.insert(v);
    }
    assert_eq!(bst.in_order(), vec![&1, &3, &5, &8]);
    assert_eq!(avl.in_order(), vec![&1, &3, &5, &8]);
    assert_eq!(bst.level_order(), vec![&5, &3, &8, &1]);
    assert_eq!(bst.pre_order(), vec![&5, &3, &1, &8]);
}

#[test]
fn splay_insert_puts_value_at_root() {
    let mut tree = SplayTree::new();
    for v in [10, 5, 20, 15] {
        tree.insert(v);
        assert_eq!(tree.root_val(), Some(v));
    }
    assert!(!tree.search(7));
    assert_eq!(tree.inorder(), vec![5, 10, 15, 20]);
}

#[test]
fn trie_counts_after_deletes() {
    let mut trie = Trie::new();
    for w in ["car", "cart", "care", "cat", "dog"] {
        assert!(trie.insert_str(w));
    }
    assert_eq!(trie.count_with_prefix_str("ca"), 4);
    assert!(trie.delete_str("cart"));
    assert!(!trie.delete_str("cart"));
    assert_eq!(trie.count_with_prefix_str("car"), 2);
    assert!(trie.starts_with_str("car"));
    assert!(!trie.starts_with_str("cart"));
    assert_eq!(trie.count_with_prefix_str(""), 4);
}

fn doc(pairs: &[(&str, i64)]) -> Document {
    pairs.iter().map(|(k, v)| (k.to_string(), *v)).collect()
}

fn sample_expr() -> Box<Expr> {
    Expr::or_expr(vec![
        Expr::or_expr(vec![Expr::eq("a", 1), Expr::always_false()]),
        Expr::and_expr(vec![Expr::always_true(), Expr::gt("b", 2), Expr::and_expr(vec![Expr::eq("c", 3)])]),
    ])
}

#[test]
fn optimize_agrees_with_evaluate_on_many_documents() {
    let docs = vec![
        doc(&[]),
        doc(&[("a", 1)]),
        doc(&[("b", 3), ("c", 3)]),
        doc(&[("b", 3), ("c", 4)]),
        doc(&[("a", 2), ("b", 1), ("c", 3)]),
    ];
    let before: Vec<bool> = docs.iter().map(|d| evaluate(&sample_expr(), d)).collect();
    let opt = optimize(sample_expr());
    let after: Vec<bool> = docs.iter().map(|d| evaluate(&opt, d)).collect();
    assert_eq!(before, after);
    assert_eq!(before, vec![false, true, true, false, false]);
    assert_eq!(opt.expr_type, ExprType::Or);
    assert_eq!(opt.num_children(), 2);
    assert_eq!(count_nodes(&opt), 5);
    assert!(count_nodes(&opt) <= count_nodes(&sample_expr()));
}

#[test]
fn optimize_or_with_true_is_true() {
    let expr = Expr::or_expr(vec![Expr::eq("a", 1), Expr::always_true()]);
    assert_eq!(optimize(expr).expr_type, ExprType::AlwaysTrue);
    let empty_and = Expr::and_expr(vec![]);
    assert_eq!(optimize(empty_and).expr_type, ExprType::AlwaysTrue);
    let empty_or = Expr::or_expr(vec![]);
    assert_eq!(optimize(empty_or).expr_type, ExprType::AlwaysFalse);
}

#[test]
fn join_yields_inner_matches_in_inner_order() {
    let outer = VecScan::new(vec![1010, 2020]);
    let inner = VecScan::new(vec![1003, 2001, 1001, 1002]);
    let mut j = HashJoinStage::new(outer, inner, |r| r / 1000, |r| r / 1000, |r| r % 1000, |r| r % 1000);
    j.open(false);
    assert_eq!(collect_all(&mut j), vec![10003, 10001, 10002, 20001]);
    j.close();
    j.open(true);
    assert_eq!(collect_all(&mut j), vec![10003, 10001, 10002, 20001]);
}

#[test]
fn aggregation_orders_groups_by_key() {
    let scan = VecScan::new(vec![-25, 31, -21, 14, 39]);
    let mut agg = HashAggStage::new(scan, |r| r / 10, |r| r % 10);
    agg.open(false);
    // groups: -2 -> -5 + -1, 1 -> 4, 3 -> 1 + 9
    assert_eq!(collect_all(&mut agg), vec![-6, 4, 10]);
    agg.close();
    assert_eq!(agg.get_next(), (PlanState::Eof, None));
}

#[test]
fn filter_then_window() {
    let scan = VecScan::new((1..=20).collect());
    let evens = FilterStage::new(scan, |v| v % 2 == 0);
    let mut ls = LimitSkipStage::new(evens, 2, 3);
    ls.open(false);
    assert_eq!(collect_all(&mut ls), vec![6, 8, 10]);
    assert_eq!(ls.get_next(), (PlanState::Eof, None));
}
