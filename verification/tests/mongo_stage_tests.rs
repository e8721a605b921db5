use lib::mongo::stages::{Stage, VecScan, collect_all};
use lib::mongo::filter_stage::FilterStage;
use lib::mongo::limit_skip_stage::LimitSkipStage;
use lib::mongo::hash_agg_stage::HashAggStage;
use lib::mongo::hash_join_stage::HashJoinStage;

// ZERO
#[test]
fn filter_stage_empty_input() {
    let scan = VecScan::new(vec![]);
    let mut f = FilterStage::new(scan, |_| true);
    f.open(false);
    assert_eq!(collect_all(&mut f), vec![]);
}

// ONE
#[test]
fn single_match() {
    let scan = VecScan::new(vec![5]);
    let mut f = FilterStage::new(scan, |v| v > 3);
    f.open(false);
    assert_eq!(collect_all(&mut f), vec![5]);
}

// MANY
#[test]
fn filter_stage_basic() {
    let scan = VecScan::new(vec![1, 2, 3, 4, 5]);
    let mut f = FilterStage::new(scan, |v| v > 3);
    f.open(false);
    assert_eq!(collect_all(&mut f), vec![4, 5]);
}

// EDGE: predicate matches nothing
#[test]
fn no_match() {
    let scan = VecScan::new(vec![1, 2, 3]);
    let mut f = FilterStage::new(scan, |v| v > 100);
    f.open(false);
    assert_eq!(collect_all(&mut f), vec![]);
}

// EDGE: reopen resets
#[test]
fn filter_stage_reopen_resets() {
    let scan = VecScan::new(vec![1, 2, 3]);
    let mut f = FilterStage::new(scan, |v| v > 1);
    f.open(false);
    assert_eq!(collect_all(&mut f), vec![2, 3]);
    f.open(true);
    assert_eq!(collect_all(&mut f), vec![2, 3]);
}


// ZERO
#[test]
fn limit_skip_stage_empty_input() {
    let scan = VecScan::new(vec![]);
    let mut ls = LimitSkipStage::new(scan, 0, 10);
    ls.open(false);
    assert_eq!(collect_all(&mut ls), vec![]);
}

// MANY
#[test]
fn limit_skip_stage_basic() {
    let scan = VecScan::new(vec![10, 20, 30, 40, 50]);
    let mut ls = LimitSkipStage::new(scan, 1, 2);
    ls.open(false);
    assert_eq!(collect_all(&mut ls), vec![20, 30]);
}

#[test]
fn limit_skip_stage_limit_exceeds_input() {
    let scan = VecScan::new(vec![10, 20]);
    let mut ls = LimitSkipStage::new(scan, 0, 100);
    ls.open(false);
    assert_eq!(collect_all(&mut ls), vec![10, 20]);
}

#[test]
fn limit_skip_stage_skip_all() {
    let scan = VecScan::new(vec![10, 20, 30]);
    let mut ls = LimitSkipStage::new(scan, 10, 100);
    ls.open(false);
    assert_eq!(collect_all(&mut ls), vec![]);
}

#[test]
fn limit_skip_stage_reopen_resets() {
    let scan = VecScan::new(vec![1, 2, 3]);
    let mut ls = LimitSkipStage::new(scan, 0, 2);
    ls.open(false);
    assert_eq!(collect_all(&mut ls), vec![1, 2]);
    ls.open(true);
    assert_eq!(collect_all(&mut ls), vec![1, 2]);
}


// ZERO
#[test]
fn hash_agg_stage_empty_input() {
    let scan = VecScan::new(vec![]);
    let mut agg = HashAggStage::new(scan, |r| r, |r| r);
    agg.open(false);
    assert_eq!(collect_all(&mut agg), vec![]);
}

// ONE
#[test]
fn single_row() {
    let scan = VecScan::new(vec![15]); // key=1, val=5
    let mut agg = HashAggStage::new(scan, |r| r / 10, |r| r % 10);
    agg.open(false);
    assert_eq!(collect_all(&mut agg), vec![5]);
}

// MANY
#[test]
fn group_by_sum() {
    // key=row/10, val=row%10. Rows: (1,5),(1,3),(2,7),(2,1)
    let scan = VecScan::new(vec![15, 13, 27, 21]);
    let mut agg = HashAggStage::new(scan, |r| r / 10, |r| r % 10);
    agg.open(false);
    assert_eq!(collect_all(&mut agg), vec![8, 8]); // key1: 5+3, key2: 7+1
}

// EDGE: many rows, one group
#[test]
fn single_group() {
    let scan = VecScan::new(vec![11, 12, 13]);
    let mut agg = HashAggStage::new(scan, |r| r / 10, |r| r % 10);
    agg.open(false);
    assert_eq!(collect_all(&mut agg), vec![6]); // 1+2+3
}


fn kv(k: i64, v: i64) -> i64 {
    k * 1000 + v
}
fn key(r: i64) -> i64 {
    r / 1000
}
fn val(r: i64) -> i64 {
    r % 1000
}

// ZERO: both sides empty
#[test]
fn both_empty() {
    let outer = VecScan::new(vec![]);
    let inner = VecScan::new(vec![]);
    let mut j = HashJoinStage::new(outer, inner, key, key, val, val);
    j.open(false);
    assert_eq!(collect_all(&mut j), vec![]);
}

// MANY
#[test]
fn basic_join() {
    let outer = VecScan::new(vec![kv(1, 10), kv(2, 20), kv(3, 30)]);
    let inner = VecScan::new(vec![kv(2, 5), kv(3, 6), kv(4, 7)]);
    let mut j = HashJoinStage::new(outer, inner, key, key, val, val);
    j.open(false);
    let mut r = collect_all(&mut j);
    r.sort();
    assert_eq!(r, vec![kv(20, 5), kv(30, 6)]);
}

// EDGE: no matching keys
#[test]
fn no_matches() {
    let outer = VecScan::new(vec![kv(1, 10)]);
    let inner = VecScan::new(vec![kv(2, 20)]);
    let mut j = HashJoinStage::new(outer, inner, key, key, val, val);
    j.open(false);
    assert_eq!(collect_all(&mut j), vec![]);
}

// EDGE: multiple inner matches per key
#[test]
fn multiple_matches() {
    let outer = VecScan::new(vec![kv(1, 10)]);
    let inner = VecScan::new(vec![kv(1, 1), kv(1, 2)]);
    let mut j = HashJoinStage::new(outer, inner, key, key, val, val);
    j.open(false);
    let mut r = collect_all(&mut j);
    r.sort();
    assert_eq!(r, vec![kv(10, 1), kv(10, 2)]);
}

// EDGE: empty inner side
#[test]
fn empty_inner() {
    let outer = VecScan::new(vec![kv(1, 10)]);
    let inner = VecScan::new(vec![]);
    let mut j = HashJoinStage::new(outer, inner, key, key, val, val);
    j.open(false);
    assert_eq!(collect_all(&mut j), vec![]);
}
