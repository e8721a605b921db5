//! N-ary boolean expression tree in the style of a query matcher: AND and
//! OR nodes with any number of children, equality and greater-than leaves
//! on document fields, and constant leaves.
//!
//! `optimize` flattens nested AND/OR, unwraps single children, folds the
//! constants away, and never changes what an expression evaluates to.
use vstd::prelude::*;
use std::collections::HashMap;
use crate::sort::order::{int_of, nat_int};

verus! {

broadcast use {vstd::std_specs::hash::group_hash_axioms, vstd::string::group_string_axioms};

/// The kind of an expression node.
#[derive(Debug, Clone, Copy, PartialEq, Eq, Structural)]
pub enum ExprType {
    And,
    Or,
    Eq,
    Gt,
    AlwaysTrue,
    AlwaysFalse,
}

/// An expression node.
pub struct Expr {
    pub expr_type: ExprType,
    pub children: Vec<Box<Expr>>,
    pub field: Option<String>,
    pub value: Option<i64>,
}

/// A document: field name to value.
pub type Document = HashMap<String, i64>;

/// Leaves that compare a field carry both a field and a value, everywhere
/// in the tree.
pub open spec fn well_formed(e: Expr) -> bool
    decreases e,
{
    &&& (e.expr_type == ExprType::Eq || e.expr_type == ExprType::Gt) ==> e.field is Some && e.value is Some
    &&& forall|i: int| 0 <= i < e.children@.len() ==> well_formed(*#[trigger] e.children@[i])
}

/// What `e` says about document `d`.
pub open spec fn eval(e: Expr, d: Map<String, i64>) -> bool
    decreases e,
{
    match e.expr_type {
        ExprType::And => forall|i: int| 0 <= i < e.children@.len() ==> eval(*#[trigger] e.children@[i], d),
        ExprType::Or => exists|i: int| 0 <= i < e.children@.len() && eval(*#[trigger] e.children@[i], d),
        ExprType::Eq => d.contains_key(e.field.unwrap()) && d[e.field.unwrap()] == e.value.unwrap(),
        ExprType::Gt => d.contains_key(e.field.unwrap()) && d[e.field.unwrap()] > e.value.unwrap(),
        ExprType::AlwaysTrue => true,
        ExprType::AlwaysFalse => false,
    }
}

/// Each of the first `k` expressions of `s` holds on `d`.
pub open spec fn all_hold(s: Seq<Box<Expr>>, k: int, d: Map<String, i64>) -> bool {
    forall|i: int| 0 <= i < k ==> eval(*#[trigger] s[i], d)
}

/// One of the first `k` expressions of `s` holds on `d`.
pub open spec fn any_holds(s: Seq<Box<Expr>>, k: int, d: Map<String, i64>) -> bool {
    exists|i: int| 0 <= i < k && eval(*#[trigger] s[i], d)
}

/// Whether `t` is one of the two constant leaves.
pub open spec fn is_constant(t: ExprType) -> bool {
    t == ExprType::AlwaysTrue || t == ExprType::AlwaysFalse
}

/// The shape `optimize` leaves a tree in: an AND (OR) node has at least
/// two children, none of them a constant or another AND (OR) node, and
/// every subtree has that shape too.
pub open spec fn is_optimized(e: Expr) -> bool
    decreases e,
{
    &&& forall|i: int| 0 <= i < e.children@.len() ==> is_optimized(*#[trigger] e.children@[i])
    &&& e.expr_type == ExprType::And ==> {
        &&& e.children@.len() >= 2
        &&& forall|i: int| 0 <= i < e.children@.len() ==> (#[trigger] e.children@[i]).expr_type != ExprType::And
            && !is_constant(e.children@[i].expr_type)
    }
    &&& e.expr_type == ExprType::Or ==> {
        &&& e.children@.len() >= 2
        &&& forall|i: int| 0 <= i < e.children@.len() ==> (#[trigger] e.children@[i]).expr_type != ExprType::Or
            && !is_constant(e.children@[i].expr_type)
    }
}

/// Number of nodes of `e`.
pub open spec fn node_count(e: Expr) -> nat
    decreases e, 0nat,
{
    1 + nodes_in(e.children@, e.children@.len() as int)
}

/// Number of nodes in the first `k` trees of `s`.
pub open spec fn nodes_in(s: Seq<Box<Expr>>, k: int) -> nat
    decreases s, k,
{
    if k <= 0 || k > s.len() {
        0
    } else {
        nodes_in(s, k - 1) + node_count(*s[k - 1])
    }
}

/// An expression as a mathematical value: its kind, its children, and
/// the field and value a comparison leaf carries.
pub struct ExprView {
    pub kind: ExprType,
    pub kids: Seq<ExprView>,
    pub field: Option<String>,
    pub value: Option<i64>,
}

/// The value of an expression tree.
pub open spec fn view_of(e: Expr) -> ExprView
    decreases e, 0nat,
{
    ExprView { kind: e.expr_type, kids: views(e.children@, e.children@.len() as int), field: e.field, value: e.value }
}

/// The values of the first `k` trees of `s`.
pub open spec fn views(s: Seq<Box<Expr>>, k: int) -> Seq<ExprView>
    decreases s, k,
{
    if k <= 0 || k > s.len() {
        Seq::empty()
    } else {
        views(s, k - 1).push(view_of(*s[k - 1]))
    }
}

/// A node of kind `kind` with no children, field or value.
pub open spec fn leaf(kind: ExprType) -> ExprView {
    ExprView { kind, kids: Seq::empty(), field: None, value: None }
}

/// The normal forms of the first `k` expressions of `s`.
pub open spec fn norm_upto(s: Seq<ExprView>, k: int) -> Seq<ExprView>
    decreases s, k,
{
    if k <= 0 || k > s.len() {
        Seq::empty()
    } else {
        norm_upto(s, k - 1).push(norm(s[k - 1]))
    }
}

/// What the first `k` of the children `ks` give an `op` node: the children
/// of an `op` child, nothing for a `unit` child, any other child itself.
pub open spec fn spread(ks: Seq<ExprView>, k: int, op: ExprType, unit: ExprType) -> Seq<ExprView>
    decreases k,
{
    if k <= 0 || k > ks.len() {
        Seq::empty()
    } else {
        spread(ks, k - 1, op, unit) + if ks[k - 1].kind == op {
            ks[k - 1].kids
        } else if ks[k - 1].kind == unit {
            Seq::empty()
        } else {
            seq![ks[k - 1]]
        }
    }
}

/// An `op` node over the normalized children `ks`: `zero` when a child is
/// `zero`; otherwise the spread children, `unit` when there are none and
/// the only one when there is one.
pub open spec fn junction(ks: Seq<ExprView>, op: ExprType, unit: ExprType, zero: ExprType) -> ExprView {
    if exists|i: int| 0 <= i < ks.len() && (#[trigger] ks[i]).kind == zero {
        leaf(zero)
    } else {
        let flat = spread(ks, ks.len() as int, op, unit);
        if flat.len() == 0 {
            leaf(unit)
        } else if flat.len() == 1 {
            flat[0]
        } else {
            ExprView { kind: op, kids: flat, field: None, value: None }
        }
    }
}

/// The normal form of an expression: AND and OR flattened, their units
/// dropped, a zero child absorbing the node, a single child standing for
/// its parent; other nodes keep their kind and have their children
/// normalized.
pub open spec fn norm(v: ExprView) -> ExprView
    decreases v, 0nat,
{
    let ks = norm_upto(v.kids, v.kids.len() as int);
    if v.kind == ExprType::And {
        junction(ks, ExprType::And, ExprType::AlwaysTrue, ExprType::AlwaysFalse)
    } else if v.kind == ExprType::Or {
        junction(ks, ExprType::Or, ExprType::AlwaysFalse, ExprType::AlwaysTrue)
    } else {
        ExprView { kind: v.kind, kids: ks, field: v.field, value: v.value }
    }
}

/// `views` lists the value of each tree.
proof fn lemma_views(s: Seq<Box<Expr>>, k: int)
    requires
        0 <= k <= s.len(),
    ensures
        views(s, k).len() == k,
        forall|i: int| 0 <= i < k ==> #[trigger] views(s, k)[i] == view_of(*s[i]),
    decreases k,
{
    if k > 0 {
        lemma_views(s, k - 1);
    }
}

/// `norm_upto` lists the normal form of each expression.
proof fn lemma_norm_upto(s: Seq<ExprView>, k: int)
    requires
        0 <= k <= s.len(),
    ensures
        norm_upto(s, k).len() == k,
        forall|i: int| 0 <= i < k ==> #[trigger] norm_upto(s, k)[i] == norm(s[i]),
    decreases k,
{
    if k > 0 {
        lemma_norm_upto(s, k - 1);
    }
}

/// Sequences of trees with the same values pointwise have the same views.
proof fn lemma_views_ext(s: Seq<Box<Expr>>, t: Seq<ExprView>)
    requires
        s.len() == t.len(),
        forall|i: int| 0 <= i < s.len() ==> view_of(*#[trigger] s[i]) == t[i],
    ensures
        views(s, s.len() as int) == t,
{
    lemma_views(s, s.len() as int);
    assert(views(s, s.len() as int) =~= t);
}

/// The values of two sequences of trees laid end to end.
proof fn lemma_views_concat(a: Seq<Box<Expr>>, b: Seq<Box<Expr>>)
    ensures
        views(a + b, (a + b).len() as int) == views(a, a.len() as int) + views(b, b.len() as int),
{
    lemma_views(a, a.len() as int);
    lemma_views(b, b.len() as int);
    let t = views(a, a.len() as int) + views(b, b.len() as int);
    assert forall|i: int| 0 <= i < (a + b).len() implies view_of(*#[trigger] (a + b)[i]) == t[i] by {
        if i >= a.len() {
            assert((a + b)[i] == b[i - a.len()]);
        }
    }
    lemma_views_ext(a + b, t);
}

/// The values of a sequence of trees with one more at the end.
proof fn lemma_views_push(a: Seq<Box<Expr>>, x: Box<Expr>)
    ensures
        views(a.push(x), nat_int(a.len()) + 1) == views(a, nat_int(a.len())).push(view_of(*x)),
{
    lemma_views(a, nat_int(a.len()));
    let t = views(a, nat_int(a.len())).push(view_of(*x));
    assert forall|i: int| 0 <= i < a.push(x).len() implies view_of(*#[trigger] a.push(x)[i]) == t[i] by {
    }
    lemma_views_ext(a.push(x), t);
}

impl Expr {
    /// An AND node over `children`.
    pub fn and_expr(children: Vec<Box<Expr>>) -> (e: Box<Expr>)
        ensures
            e.expr_type == ExprType::And,
            e.children@ == children@,
            e.field is None,
            e.value is None,
    {
        Box::new(Expr { expr_type: ExprType::And, children, field: None, value: None })
    }

    /// An OR node over `children`.
    pub fn or_expr(children: Vec<Box<Expr>>) -> (e: Box<Expr>)
        ensures
            e.expr_type == ExprType::Or,
            e.children@ == children@,
            e.field is None,
            e.value is None,
    {
        Box::new(Expr { expr_type: ExprType::Or, children, field: None, value: None })
    }

    /// The leaf `field == value`.
    pub fn eq(field: &str, value: i64) -> (e: Box<Expr>)
        ensures
            e.expr_type == ExprType::Eq,
            e.children@.len() == 0,
            e.field is Some && e.field.unwrap()@ == field@,
            e.value == Some(value),
    {
        Box::new(Expr { expr_type: ExprType::Eq, children: Vec::new(), field: Some(field.to_string()), value: Some(value) })
    }

    /// The leaf `field > value`.
    pub fn gt(field: &str, value: i64) -> (e: Box<Expr>)
        ensures
            e.expr_type == ExprType::Gt,
            e.children@.len() == 0,
            e.field is Some && e.field.unwrap()@ == field@,
            e.value == Some(value),
    {
        Box::new(Expr { expr_type: ExprType::Gt, children: Vec::new(), field: Some(field.to_string()), value: Some(value) })
    }

    /// The leaf that always holds.
    pub fn always_true() -> (e: Box<Expr>)
        ensures
            e.expr_type == ExprType::AlwaysTrue,
            e.children@.len() == 0,
            e.field is None,
            e.value is None,
    {
        Box::new(Expr { expr_type: ExprType::AlwaysTrue, children: Vec::new(), field: None, value: None })
    }

    /// The leaf that never holds.
    pub fn always_false() -> (e: Box<Expr>)
        ensures
            e.expr_type == ExprType::AlwaysFalse,
            e.children@.len() == 0,
            e.field is None,
            e.value is None,
    {
        Box::new(Expr { expr_type: ExprType::AlwaysFalse, children: Vec::new(), field: None, value: None })
    }

    /// Number of direct children.
    pub fn num_children(&self) -> (n: usize)
        ensures
            n == self.children@.len(),
    {
        self.children.len()
    }
}

/// The value `doc` holds for `field` (`HashMap::get`).  A `String` key
/// hashes and compares by its characters, so the map answers with the
/// value stored under `field`, or `None` when there is none.
#[verifier::external_body]
fn field_value<'a>(doc: &'a Document, field: &String) -> (r: Option<&'a i64>)
    ensures
        match r {
            Some(v) => doc@.contains_key(*field) && *v == doc@[*field],
            None => !doc@.contains_key(*field),
        },
{
    doc.get(field)
}

/// Whether `expr` holds on `doc`.  AND needs every child, OR some child;
/// a field missing from the document matches no comparison.  O(n).
pub fn evaluate(expr: &Expr, doc: &Document) -> (r: bool)
    requires
        well_formed(*expr),
    ensures
        r == eval(*expr, doc@),
    decreases *expr,
{
    match expr.expr_type {
        ExprType::And => {
            let n = expr.children.len();
            let mut i: usize = 0;
            while i < n
                invariant
                    n == expr.children@.len(),
                    i <= n,
                    well_formed(*expr),
                    expr.expr_type == ExprType::And,
                    forall|j: int| 0 <= j < i ==> eval(*#[trigger] expr.children@[j], doc@),
                decreases n - i,
            {
                assert(well_formed(*expr.children@[int_of(i)]));
                if !evaluate(&expr.children[i], doc) {
                    return false;
                }
                i = i + 1;
            }
            true
        },
        ExprType::Or => {
            let n = expr.children.len();
            let mut i: usize = 0;
            while i < n
                invariant
                    n == expr.children@.len(),
                    i <= n,
                    well_formed(*expr),
                    expr.expr_type == ExprType::Or,
                    forall|j: int| 0 <= j < i ==> !eval(*#[trigger] expr.children@[j], doc@),
                decreases n - i,
            {
                assert(well_formed(*expr.children@[int_of(i)]));
                if evaluate(&expr.children[i], doc) {
                    return true;
                }
                i = i + 1;
            }
            false
        },
        ExprType::Eq => {
            let field = expr.field.as_ref().unwrap();
            let value = expr.value.unwrap();
            match field_value(doc, field) {
                Some(v) => *v == value,
                None => false,
            }
        },
        ExprType::Gt => {
            let field = expr.field.as_ref().unwrap();
            let value = expr.value.unwrap();
            match field_value(doc, field) {
                Some(v) => *v > value,
                None => false,
            }
        },
        ExprType::AlwaysTrue => true,
        ExprType::AlwaysFalse => false,
    }
}


/// A copy of an optional field name.
fn copy_field(f: &Option<String>) -> (r: Option<String>)
    ensures
        r == *f,
{
    match f {
        Some(s) => Some(s.clone()),
        None => None,
    }
}

/// The optimized form of `expr`, built without consuming it.
fn simplify(expr: &Expr) -> (r: Box<Expr>)
    ensures
        is_optimized(*r),
        well_formed(*expr) ==> well_formed(*r),
        forall|d: Map<String, i64>| eval(*r, d) == eval(*expr, d),
        node_count(*r) <= node_count(*expr),
        view_of(*r) == norm(view_of(*expr)),
    decreases *expr,
{
    let n = expr.children.len();
    let ghost ks = norm_upto(view_of(*expr).kids, int_of(n));
    proof {
        lemma_views(expr.children@, int_of(n));
        lemma_norm_upto(view_of(*expr).kids, int_of(n));
        assert forall|j: int| 0 <= j < n implies #[trigger] ks[j] == norm(view_of(*expr.children@[j])) by {
            assert(view_of(*expr).kids[j] == view_of(*expr.children@[j]));
        }
    }
    match expr.expr_type {
        ExprType::And => {
            let mut flat: Vec<Box<Expr>> = Vec::new();
            let mut i: usize = 0;
            while i < n
                invariant
                    n == expr.children@.len(),
                    i <= n,
                    expr.expr_type == ExprType::And,
                    forall|k: int| 0 <= k < flat@.len() ==> {
                        &&& is_optimized(*#[trigger] flat@[k])
                        &&& flat@[k].expr_type != ExprType::And
                        &&& !is_constant(flat@[k].expr_type)
                    },
                    well_formed(*expr) ==> forall|k: int| 0 <= k < flat@.len() ==> well_formed(*#[trigger] flat@[k]),
                    forall|d: Map<String, i64>| #[trigger] all_hold(flat@, nat_int(flat@.len()), d) == all_hold(expr.children@, int_of(i), d),
                    nodes_in(flat@, nat_int(flat@.len())) <= nodes_in(expr.children@, int_of(i)),
                    ks == norm_upto(view_of(*expr).kids, int_of(n)),
                    view_of(*expr).kids.len() == n,
                    ks.len() == n,
                    forall|j: int| 0 <= j < n ==> #[trigger] ks[j] == norm(view_of(*expr.children@[j])),
                    forall|j: int| 0 <= j < i ==> (#[trigger] ks[j]).kind != ExprType::AlwaysFalse,
                    views(flat@, nat_int(flat@.len())) == spread(ks, int_of(i), ExprType::And, ExprType::AlwaysTrue),
                decreases n - i,
            {
                let c = simplify(&expr.children[i]);
                assert(well_formed(*expr) ==> well_formed(*expr.children@[int_of(i)]));
                assert(view_of(*c) == ks[int_of(i)]);
                match c.expr_type {
                    ExprType::AlwaysFalse => {
                        proof {
                            assert(ks[int_of(i)].kind == ExprType::AlwaysFalse);
                            assert(view_of(*expr).kind == ExprType::And);
                        }
                        proof {
                            assert forall|d: Map<String, i64>| !eval(*expr, d) by {
                                assert(!eval(*expr.children@[int_of(i)], d));
                            }
                        }
                        let r = Expr::always_false();
                        proof {
                            assert(views(r.children@, 0) =~= Seq::<ExprView>::empty());
                            assert(view_of(*r) == leaf(ExprType::AlwaysFalse));
                            assert(view_of(*expr).kids.len() == n);
                            assert(norm(view_of(*expr)) == junction(ks, ExprType::And, ExprType::AlwaysTrue, ExprType::AlwaysFalse));
                        }
                        return r;
                    },
                    ExprType::AlwaysTrue => {
                        proof {
                            assert(spread(ks, i + 1, ExprType::And, ExprType::AlwaysTrue) =~= spread(ks, int_of(i), ExprType::And, ExprType::AlwaysTrue));
                            assert forall|d: Map<String, i64>| #[trigger] all_hold(flat@, nat_int(flat@.len()), d) == all_hold(expr.children@, i + 1, d) by {
                                assert(eval(*expr.children@[int_of(i)], d));
                                assert(all_hold(flat@, nat_int(flat@.len()), d) == all_hold(expr.children@, int_of(i), d));
                            }
                        }
                    },
                    ExprType::And => {
                        let ghost before = flat@;
                        let inner: Expr = *c;
                        let mut grand = inner.children;
                        let ghost g = grand@;
                        flat.append(&mut grand);
                        proof {
                            lemma_views_concat(before, g);
                            assert(flat@ == before + g);
                            assert(view_of(inner).kids == views(g, nat_int(g.len())));
                            assert(spread(ks, i + 1, ExprType::And, ExprType::AlwaysTrue) == spread(ks, int_of(i), ExprType::And, ExprType::AlwaysTrue) + ks[int_of(i)].kids);
                            lemma_nodes_in_concat(before, g, nat_int(g.len()));

                            assert forall|d: Map<String, i64>| #[trigger] all_hold(flat@, nat_int(flat@.len()), d) == all_hold(expr.children@, i + 1, d) by {
                                assert(all_hold(before, nat_int(before.len()), d) == all_hold(expr.children@, int_of(i), d));
                                assert(eval(*expr.children@[int_of(i)], d) == eval(inner, d));
                                if all_hold(flat@, nat_int(flat@.len()), d) {
                                    assert forall|k: int| 0 <= k < before.len() implies eval(*#[trigger] before[k], d) by {
                                        assert(flat@[k] == before[k]);
                                    }
                                    assert forall|k: int| 0 <= k < g.len() implies eval(*#[trigger] g[k], d) by {
                                        assert(flat@[before.len() + k] == g[k]);
                                    }
                                }
                                if all_hold(expr.children@, i + 1, d) {
                                    assert(eval(*expr.children@[int_of(i)], d));
                                    assert forall|k: int| 0 <= k < flat@.len() implies eval(*#[trigger] flat@[k], d) by {
                                        if k < before.len() {
                                            assert(flat@[k] == before[k]);
                                        } else {
                                            assert(flat@[k] == g[k - before.len()]);
                                        }
                                    }
                                }
                            }
                            assert forall|k: int| 0 <= k < flat@.len() implies {
                                &&& is_optimized(*#[trigger] flat@[k])
                                &&& flat@[k].expr_type != ExprType::And
                                &&& !is_constant(flat@[k].expr_type)
                            } by {
                                if k >= before.len() {
                                    assert(flat@[k] == g[k - before.len()]);
                                }
                            }
                            assert(well_formed(*expr) ==> forall|k: int| 0 <= k < flat@.len() ==> well_formed(*#[trigger] flat@[k])) by {
                                if well_formed(*expr) {
                                    assert forall|k: int| 0 <= k < flat@.len() implies well_formed(*#[trigger] flat@[k]) by {
                                        if k >= before.len() {
                                            assert(flat@[k] == g[k - before.len()]);
                                        }
                                    }
                                }
                            }
                        }
                    },
                    _ => {
                        let ghost before = flat@;
                        flat.push(c);
                        proof {
                            lemma_views_push(before, c);
                            assert(spread(ks, i + 1, ExprType::And, ExprType::AlwaysTrue) == spread(ks, int_of(i), ExprType::And, ExprType::AlwaysTrue) + seq![ks[int_of(i)]]);
                            assert(views(before, nat_int(before.len())).push(view_of(*c)) =~= views(before, nat_int(before.len())) + seq![ks[int_of(i)]]);
                            lemma_nodes_in_prefix(flat@, before, nat_int(before.len()));

                            assert forall|d: Map<String, i64>| #[trigger] all_hold(flat@, nat_int(flat@.len()), d) == all_hold(expr.children@, i + 1, d) by {
                                assert(all_hold(before, nat_int(before.len()), d) == all_hold(expr.children@, int_of(i), d));
                                assert(flat@[nat_int(before.len())] == c);
                                if all_hold(flat@, nat_int(flat@.len()), d) {
                                    assert forall|k: int| 0 <= k < before.len() implies eval(*#[trigger] before[k], d) by {
                                        assert(flat@[k] == before[k]);
                                    }
                                }
                                if all_hold(expr.children@, i + 1, d) {
                                    assert(eval(*expr.children@[int_of(i)], d));
                                    assert forall|k: int| 0 <= k < flat@.len() implies eval(*#[trigger] flat@[k], d) by {
                                        if k < before.len() {
                                            assert(flat@[k] == before[k]);
                                        }
                                    }
                                }
                            }
                        }
                    },
                }
                i = i + 1;
            }
            proof {
                assert(view_of(*expr).kids.len() == n);
                assert(norm(view_of(*expr)) == junction(ks, ExprType::And, ExprType::AlwaysTrue, ExprType::AlwaysFalse));
                assert(!(exists|j: int| 0 <= j < ks.len() && (#[trigger] ks[j]).kind == ExprType::AlwaysFalse));
                lemma_views(flat@, nat_int(flat@.len()));
            }
            if flat.len() == 0 {
                proof {
                    assert forall|d: Map<String, i64>| eval(*expr, d) by {
                        assert(all_hold(flat@, 0, d) == all_hold(expr.children@, int_of(n), d));
                    }
                }
                let r = Expr::always_true();
                r
            } else if flat.len() == 1 {
                let ghost f = flat@;
                let only = flat.pop().unwrap();
                proof {
                    assert(nodes_in(f, 0) == 0);

                    assert forall|d: Map<String, i64>| eval(*only, d) == eval(*expr, d) by {
                        assert(all_hold(f, 1, d) == all_hold(expr.children@, int_of(n), d));
                        assert(f[0] == only);
                    }
                }
                only
            } else {
                let ghost f = flat@;
                let r = Expr::and_expr(flat);
                proof {
                    assert forall|d: Map<String, i64>| eval(*r, d) == eval(*expr, d) by {
                        assert(all_hold(f, nat_int(f.len()), d) == all_hold(expr.children@, int_of(n), d));
                    }
                }
                r
            }
        },
        ExprType::Or => {
            let mut flat: Vec<Box<Expr>> = Vec::new();
            let mut i: usize = 0;
            while i < n
                invariant
                    n == expr.children@.len(),
                    i <= n,
                    expr.expr_type == ExprType::Or,
                    forall|k: int| 0 <= k < flat@.len() ==> {
                        &&& is_optimized(*#[trigger] flat@[k])
                        &&& flat@[k].expr_type != ExprType::Or
                        &&& !is_constant(flat@[k].expr_type)
                    },
                    well_formed(*expr) ==> forall|k: int| 0 <= k < flat@.len() ==> well_formed(*#[trigger] flat@[k]),
                    forall|d: Map<String, i64>| #[trigger] any_holds(flat@, nat_int(flat@.len()), d) == any_holds(expr.children@, int_of(i), d),
                    nodes_in(flat@, nat_int(flat@.len())) <= nodes_in(expr.children@, int_of(i)),
                    ks == norm_upto(view_of(*expr).kids, int_of(n)),
                    view_of(*expr).kids.len() == n,
                    ks.len() == n,
                    forall|j: int| 0 <= j < n ==> #[trigger] ks[j] == norm(view_of(*expr.children@[j])),
                    forall|j: int| 0 <= j < i ==> (#[trigger] ks[j]).kind != ExprType::AlwaysTrue,
                    views(flat@, nat_int(flat@.len())) == spread(ks, int_of(i), ExprType::Or, ExprType::AlwaysFalse),
                decreases n - i,
            {
                let c = simplify(&expr.children[i]);
                assert(well_formed(*expr) ==> well_formed(*expr.children@[int_of(i)]));
                assert(view_of(*c) == ks[int_of(i)]);
                match c.expr_type {
                    ExprType::AlwaysTrue => {
                        proof {
                            assert(ks[int_of(i)].kind == ExprType::AlwaysTrue);
                            assert(view_of(*expr).kind == ExprType::Or);
                        }
                        proof {
                            assert forall|d: Map<String, i64>| eval(*expr, d) by {
                                assert(eval(*expr.children@[int_of(i)], d));
                            }
                        }
                        let r = Expr::always_true();
                        proof {
                            assert(views(r.children@, 0) =~= Seq::<ExprView>::empty());
                            assert(view_of(*r) == leaf(ExprType::AlwaysTrue));
                            assert(view_of(*expr).kids.len() == n);
                            assert(norm(view_of(*expr)) == junction(ks, ExprType::Or, ExprType::AlwaysFalse, ExprType::AlwaysTrue));
                        }
                        return r;
                    },
                    ExprType::AlwaysFalse => {
                        proof {
                            assert(spread(ks, i + 1, ExprType::Or, ExprType::AlwaysFalse) =~= spread(ks, int_of(i), ExprType::Or, ExprType::AlwaysFalse));
                            assert forall|d: Map<String, i64>| #[trigger] any_holds(flat@, nat_int(flat@.len()), d) == any_holds(expr.children@, i + 1, d) by {
                                assert(!eval(*expr.children@[int_of(i)], d));
                                assert(any_holds(flat@, nat_int(flat@.len()), d) == any_holds(expr.children@, int_of(i), d));
                                if any_holds(expr.children@, i + 1, d) {
                                    let j = choose|j: int| 0 <= j < i + 1 && eval(*#[trigger] expr.children@[j], d);
                                    assert(j != i);
                                }
                            }
                        }
                    },
                    ExprType::Or => {
                        let ghost before = flat@;
                        let inner: Expr = *c;
                        let mut grand = inner.children;
                        let ghost g = grand@;
                        flat.append(&mut grand);
                        proof {
                            lemma_views_concat(before, g);
                            assert(flat@ == before + g);
                            assert(view_of(inner).kids == views(g, nat_int(g.len())));
                            assert(spread(ks, i + 1, ExprType::Or, ExprType::AlwaysFalse) == spread(ks, int_of(i), ExprType::Or, ExprType::AlwaysFalse) + ks[int_of(i)].kids);
                            lemma_nodes_in_concat(before, g, nat_int(g.len()));

                            assert forall|d: Map<String, i64>| #[trigger] any_holds(flat@, nat_int(flat@.len()), d) == any_holds(expr.children@, i + 1, d) by {
                                assert(any_holds(before, nat_int(before.len()), d) == any_holds(expr.children@, int_of(i), d));
                                assert(eval(*expr.children@[int_of(i)], d) == eval(inner, d));
                                if any_holds(flat@, nat_int(flat@.len()), d) {
                                    let k = choose|k: int| 0 <= k < flat@.len() && eval(*#[trigger] flat@[k], d);
                                    if k < before.len() {
                                        assert(flat@[k] == before[k]);
                                    } else {
                                        assert(flat@[k] == g[k - before.len()]);
                                        assert(eval(inner, d));
                                        assert(eval(*expr.children@[int_of(i)], d));
                                    }
                                }
                                if any_holds(expr.children@, i + 1, d) {
                                    let j = choose|j: int| 0 <= j < i + 1 && eval(*#[trigger] expr.children@[j], d);
                                    if j < i {
                                        let k = choose|k: int| 0 <= k < before.len() && eval(*#[trigger] before[k], d);
                                        assert(flat@[k] == before[k]);
                                    } else {
                                        assert(eval(inner, d));
                                        let k = choose|k: int| 0 <= k < g.len() && eval(*#[trigger] g[k], d);
                                        assert(flat@[before.len() + k] == g[k]);
                                    }
                                }
                            }
                            assert forall|k: int| 0 <= k < flat@.len() implies {
                                &&& is_optimized(*#[trigger] flat@[k])
                                &&& flat@[k].expr_type != ExprType::Or
                                &&& !is_constant(flat@[k].expr_type)
                            } by {
                                if k >= before.len() {
                                    assert(flat@[k] == g[k - before.len()]);
                                }
                            }
                            assert(well_formed(*expr) ==> forall|k: int| 0 <= k < flat@.len() ==> well_formed(*#[trigger] flat@[k])) by {
                                if well_formed(*expr) {
                                    assert forall|k: int| 0 <= k < flat@.len() implies well_formed(*#[trigger] flat@[k]) by {
                                        if k >= before.len() {
                                            assert(flat@[k] == g[k - before.len()]);
                                        }
                                    }
                                }
                            }
                        }
                    },
                    _ => {
                        let ghost before = flat@;
                        flat.push(c);
                        proof {
                            lemma_views_push(before, c);
                            assert(spread(ks, i + 1, ExprType::Or, ExprType::AlwaysFalse) == spread(ks, int_of(i), ExprType::Or, ExprType::AlwaysFalse) + seq![ks[int_of(i)]]);
                            assert(views(before, nat_int(before.len())).push(view_of(*c)) =~= views(before, nat_int(before.len())) + seq![ks[int_of(i)]]);
                            lemma_nodes_in_prefix(flat@, before, nat_int(before.len()));

                            assert forall|d: Map<String, i64>| #[trigger] any_holds(flat@, nat_int(flat@.len()), d) == any_holds(expr.children@, i + 1, d) by {
                                assert(any_holds(before, nat_int(before.len()), d) == any_holds(expr.children@, int_of(i), d));
                                assert(flat@[nat_int(before.len())] == c);
                                if any_holds(flat@, nat_int(flat@.len()), d) {
                                    let k = choose|k: int| 0 <= k < flat@.len() && eval(*#[trigger] flat@[k], d);
                                    if k < before.len() {
                                        assert(flat@[k] == before[k]);
                                    } else {
                                        assert(eval(*expr.children@[int_of(i)], d));
                                    }
                                }
                                if any_holds(expr.children@, i + 1, d) {
                                    let j = choose|j: int| 0 <= j < i + 1 && eval(*#[trigger] expr.children@[j], d);
                                    if j < i {
                                        let k = choose|k: int| 0 <= k < before.len() && eval(*#[trigger] before[k], d);
                                        assert(flat@[k] == before[k]);
                                    } else {
                                        assert(eval(*flat@[nat_int(before.len())], d));
                                    }
                                }
                            }
                        }
                    },
                }
                i = i + 1;
            }
            proof {
                assert(view_of(*expr).kids.len() == n);
                assert(norm(view_of(*expr)) == junction(ks, ExprType::Or, ExprType::AlwaysFalse, ExprType::AlwaysTrue));
                assert(!(exists|j: int| 0 <= j < ks.len() && (#[trigger] ks[j]).kind == ExprType::AlwaysTrue));
                lemma_views(flat@, nat_int(flat@.len()));
            }
            if flat.len() == 0 {
                let r = Expr::always_false();
                proof {
                    assert forall|d: Map<String, i64>| !eval(*expr, d) by {
                        assert(any_holds(flat@, 0, d) == any_holds(expr.children@, int_of(n), d));
                    }
                }
                r
            } else if flat.len() == 1 {
                let ghost f = flat@;
                let only = flat.pop().unwrap();
                proof {
                    assert(nodes_in(f, 0) == 0);

                    assert forall|d: Map<String, i64>| eval(*only, d) == eval(*expr, d) by {
                        assert(any_holds(f, 1, d) == any_holds(expr.children@, int_of(n), d));
                        assert(f[0] == only);
                    }
                }
                only
            } else {
                let ghost f = flat@;
                let r = Expr::or_expr(flat);
                proof {
                    assert forall|d: Map<String, i64>| eval(*r, d) == eval(*expr, d) by {
                        assert(any_holds(f, nat_int(f.len()), d) == any_holds(expr.children@, int_of(n), d));
                    }
                }
                r
            }
        },
        _ => {
            let mut kids: Vec<Box<Expr>> = Vec::new();
            let mut i: usize = 0;
            while i < n
                invariant
                    n == expr.children@.len(),
                    i <= n,
                    kids@.len() == i,
                    forall|k: int| 0 <= k < i ==> is_optimized(*#[trigger] kids@[k]),
                    well_formed(*expr) ==> forall|k: int| 0 <= k < i ==> well_formed(*#[trigger] kids@[k]),
                    nodes_in(kids@, int_of(i)) <= nodes_in(expr.children@, int_of(i)),
                    ks.len() == n,
                    forall|j: int| 0 <= j < n ==> #[trigger] ks[j] == norm(view_of(*expr.children@[j])),
                    forall|j: int| 0 <= j < i ==> view_of(*#[trigger] kids@[j]) == ks[j],
                decreases n - i,
            {
                let c = simplify(&expr.children[i]);
                assert(well_formed(*expr) ==> well_formed(*expr.children@[int_of(i)]));
                let ghost before = kids@;
                kids.push(c);
                proof {
                    lemma_nodes_in_prefix(kids@, before, int_of(i));
                }
                i = i + 1;
            }
            proof {
                lemma_views_ext(kids@, ks);
                assert(view_of(*expr).kids.len() == n);
            }
            let r = Box::new(Expr { expr_type: expr.expr_type, children: kids, field: copy_field(&expr.field), value: expr.value });
            r
        },
    }
}

/// Simplify `expr`:
///   1. flatten nested `AND(AND(a, b), c)` into `AND(a, b, c)`, and the same for OR;
///   2. an AND or OR left with a single child becomes that child;
///   3. an AND with an `AlwaysFalse` child becomes `AlwaysFalse`, an OR with an
///      `AlwaysTrue` child becomes `AlwaysTrue`;
///   4. `AlwaysTrue` children of an AND and `AlwaysFalse` children of an OR are
///      dropped (an AND left with none becomes `AlwaysTrue`, an OR `AlwaysFalse`).
/// The result evaluates as `expr` does on every document.  O(n).
pub fn optimize(expr: Box<Expr>) -> (r: Box<Expr>)
    ensures
        view_of(*r) == norm(view_of(*expr)),
        forall|d: Map<String, i64>| eval(*r, d) == eval(*expr, d),
        is_optimized(*r),
        well_formed(*expr) ==> well_formed(*r),
        node_count(*r) <= node_count(*expr),
{
    simplify(&expr)
}

/// Number of nodes in the tree.  O(n).
pub fn count_nodes(expr: &Expr) -> (n: usize)
    requires
        node_count(*expr) <= usize::MAX,
    ensures
        n == node_count(*expr),
    decreases *expr,
{
    let n = expr.children.len();
    let mut total: usize = 1;
    let mut i: usize = 0;
    while i < n
        invariant
            n == expr.children@.len(),
            i <= n,
            node_count(*expr) == 1 + nodes_in(expr.children@, int_of(n)),
            node_count(*expr) <= usize::MAX,
            total == 1 + nodes_in(expr.children@, int_of(i)),
        decreases n - i,
    {
        proof {
            lemma_nodes_in_monotone(expr.children@, i + 1, int_of(n));
        }
        let c = count_nodes(&expr.children[i]);
        total = total + c;
        i = i + 1;
    }
    total
}

/// `nodes_in` grows with the number of trees it counts.
proof fn lemma_nodes_in_monotone(s: Seq<Box<Expr>>, j: int, k: int)
    requires
        0 <= j <= k <= s.len(),
    ensures
        nodes_in(s, j) <= nodes_in(s, k),
    decreases k - j,
{
    if j < k {
        lemma_nodes_in_monotone(s, j, k - 1);
    }
}

/// `nodes_in` reads only the trees it counts.
proof fn lemma_nodes_in_prefix(s: Seq<Box<Expr>>, t: Seq<Box<Expr>>, k: int)
    requires
        0 <= k <= s.len(),
        k <= t.len(),
        forall|j: int| 0 <= j < k ==> s[j] == t[j],
    ensures
        nodes_in(s, k) == nodes_in(t, k),
    decreases k,
{
    if k > 0 {
        lemma_nodes_in_prefix(s, t, k - 1);
    }
}

/// The nodes of two sequences of trees laid end to end.
proof fn lemma_nodes_in_concat(a: Seq<Box<Expr>>, b: Seq<Box<Expr>>, k: int)
    requires
        0 <= k <= b.len(),
    ensures
        nodes_in(a + b, a.len() + k) == nodes_in(a, a.len() as int) + nodes_in(b, k),
    decreases k,
{
    if k == 0 {
        lemma_nodes_in_prefix(a + b, a, a.len() as int);
    } else {
        lemma_nodes_in_concat(a, b, k - 1);
        assert((a + b)[a.len() + k - 1] == b[k - 1]);
    }
}
} // verus!
