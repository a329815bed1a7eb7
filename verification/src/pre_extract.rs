use vstd::prelude::*;

use crate::dag::{distinct_trees, subexprs, subexprs_upto, walked_operands, TypeTags};
use crate::if_cond::{
    cond_step, cond_steps, extract_if_cond_shared, if_cond_extracted, if_cond_subs,
    if_cond_subs_seq,
};
use crate::node::{clone_node, node_view, nodes_view, Node, OpKind, Tree};
use crate::topo::{permutes, topo_order, topo_order_valdefs};
use crate::walk::{
    lemma_children_count, lemma_count_single, lemma_replaced_count, lemma_seq_elem_count,
    node_count, node_count_seq, replaced, tree_children,
};

verus! {

proof fn lemma_concat_bound(a: Seq<Tree>, b: Seq<Tree>, n: nat)
    requires
        forall|i: int| 0 <= i < a.len() ==> node_count(#[trigger] a[i]) <= n,
        forall|i: int| 0 <= i < b.len() ==> node_count(#[trigger] b[i]) <= n,
    ensures
        forall|i: int| 0 <= i < (a + b).len() ==> node_count(#[trigger] (a + b)[i]) <= n,
{
    assert forall|i: int| 0 <= i < (a + b).len() implies node_count(#[trigger] (a + b)[i]) <= n by {
        if i < a.len() {
            assert((a + b)[i] == a[i]);
        } else {
            assert((a + b)[i] == b[i - a.len()]);
        }
    }
}

/// Every candidate of `t` is no larger than `t`.
pub proof fn lemma_subexprs_size(t: Tree, ops: Seq<u32>, big: u32, scoped: bool)
    ensures
        forall|i: int|
            0 <= i < subexprs(t, ops, big, scoped).len() ==> node_count(
                #[trigger] subexprs(t, ops, big, scoped)[i],
            ) <= node_count(t),
    decreases t, 0int,
{
    lemma_children_count(t);
    let n = node_count(t);
    let head: Seq<Tree> = if crate::dag::collectible(t, ops, big) {
        seq![t]
    } else {
        Seq::empty()
    };
    let tail: Seq<Tree> = match t {
        Tree::ValDef { rhs, .. } => subexprs(*rhs, ops, big, scoped),
        Tree::Block { items, result } => subexprs_upto(items, items.len() as int, ops, big, scoped)
            + subexprs(*result, ops, big, scoped),
        Tree::If { cond, then_branch, else_branch } => if scoped {
            subexprs(*cond, ops, big, scoped)
        } else {
            subexprs(*cond, ops, big, scoped) + subexprs(*then_branch, ops, big, scoped) + subexprs(
                *else_branch,
                ops,
                big,
                scoped,
            )
        },
        Tree::Op { kind, payload, children } => subexprs_upto(
            children,
            walked_operands(kind, payload, children.len(), scoped) as int,
            ops,
            big,
            scoped,
        ),
        _ => Seq::empty(),
    };
    assert(subexprs(t, ops, big, scoped) == head + tail);
    match t {
        Tree::ValDef { rhs, .. } => {
            lemma_subexprs_size(*rhs, ops, big, scoped);
            lemma_count_single(*rhs);
        },
        Tree::Block { items, result } => {
            lemma_subexprs_upto_size(items, items.len() as int, ops, big, scoped);
            lemma_subexprs_size(*result, ops, big, scoped);
            assert(n == 1 + node_count_seq(items) + node_count(*result));
            lemma_concat_bound(
                subexprs_upto(items, items.len() as int, ops, big, scoped),
                subexprs(*result, ops, big, scoped),
                n,
            );
        },
        Tree::If { cond, then_branch, else_branch } => {
            lemma_subexprs_size(*cond, ops, big, scoped);
            lemma_subexprs_size(*then_branch, ops, big, scoped);
            lemma_subexprs_size(*else_branch, ops, big, scoped);
            let a = subexprs(*cond, ops, big, scoped);
            let b = subexprs(*then_branch, ops, big, scoped);
            let c = subexprs(*else_branch, ops, big, scoped);
            assert(node_count(*cond) < n);
            assert(node_count(*then_branch) < n);
            assert(node_count(*else_branch) < n);
            lemma_concat_bound(a, b, n);
            lemma_concat_bound(a + b, c, n);
        },
        Tree::Op { kind, payload, children } => {
            lemma_subexprs_upto_size(
                children,
                walked_operands(kind, payload, children.len(), scoped) as int,
                ops,
                big,
                scoped,
            );
        },
        _ => {},
    }
    lemma_concat_bound(head, tail, n);
}

pub proof fn lemma_subexprs_upto_size(s: Seq<Tree>, k: int, ops: Seq<u32>, big: u32, scoped: bool)
    ensures
        forall|i: int|
            0 <= i < subexprs_upto(s, k, ops, big, scoped).len() ==> node_count(
                #[trigger] subexprs_upto(s, k, ops, big, scoped)[i],
            ) <= node_count_seq(s),
    decreases s, k,
{
    if k > 0 && k <= s.len() {
        lemma_subexprs_upto_size(s, k - 1, ops, big, scoped);
        lemma_subexprs_size(s[k - 1], ops, big, scoped);
        lemma_seq_elem_count(s, k - 1);
        let a = subexprs_upto(s, k - 1, ops, big, scoped);
        let b = subexprs(s[k - 1], ops, big, scoped);
        assert(subexprs_upto(s, k, ops, big, scoped) == a + b);
        assert forall|i: int| 0 <= i < (a + b).len() implies node_count(#[trigger] (a + b)[i])
            <= node_count_seq(s) by {
            if i < a.len() {
                assert((a + b)[i] == a[i]);
            } else {
                assert((a + b)[i] == b[i - a.len()]);
            }
        }
    }
}

/// Every candidate an If condition in `t` offers is smaller than `t`.
pub proof fn lemma_if_cond_subs_size(t: Tree, ops: Seq<u32>, big: u32)
    ensures
        forall|i: int|
            0 <= i < if_cond_subs(t, ops, big).len() ==> node_count(#[trigger] if_cond_subs(t, ops, big)[i])
                < node_count(t),
    decreases t,
{
    lemma_children_count(t);
    let n = node_count(t);
    if n > 0 {
        let m = (n - 1) as nat;
        match t {
            Tree::ValDef { rhs, .. } => {
                lemma_if_cond_subs_size(*rhs, ops, big);
                lemma_count_single(*rhs);
                assert(if_cond_subs(t, ops, big) == if_cond_subs(*rhs, ops, big));
            },
            Tree::Block { items, result } => {
                lemma_if_cond_subs_seq_size(items, ops, big);
                lemma_if_cond_subs_size(*result, ops, big);
                assert(n == 1 + node_count_seq(items) + node_count(*result));
                lemma_concat_bound(if_cond_subs_seq(items, ops, big), if_cond_subs(*result, ops, big), m);
                assert(if_cond_subs(t, ops, big) == if_cond_subs_seq(items, ops, big) + if_cond_subs(
                    *result,
                    ops,
                    big,
                ));
            },
            Tree::If { cond, then_branch, else_branch } => {
                lemma_subexprs_size(*cond, ops, big, false);
                lemma_if_cond_subs_size(*then_branch, ops, big);
                lemma_if_cond_subs_size(*else_branch, ops, big);
                let a = subexprs(*cond, ops, big, false);
                let b = if_cond_subs(*then_branch, ops, big);
                let c = if_cond_subs(*else_branch, ops, big);
                assert(node_count(*cond) < n);
                assert(node_count(*then_branch) < n);
                assert(node_count(*else_branch) < n);
                lemma_concat_bound(a, b, m);
                lemma_concat_bound(a + b, c, m);
                assert(if_cond_subs(t, ops, big) == a + b + c);
            },
            Tree::Func { body, .. } => {
                lemma_if_cond_subs_size(*body, ops, big);
                lemma_count_single(*body);
                assert(if_cond_subs(t, ops, big) == if_cond_subs(*body, ops, big));
            },
            Tree::Op { children, .. } => {
                lemma_if_cond_subs_seq_size(children, ops, big);
                assert(if_cond_subs(t, ops, big) == if_cond_subs_seq(children, ops, big));
            },
            _ => {},
        }
    }
}

pub proof fn lemma_if_cond_subs_seq_size(s: Seq<Tree>, ops: Seq<u32>, big: u32)
    ensures
        forall|i: int|
            0 <= i < if_cond_subs_seq(s, ops, big).len() ==> node_count(
                #[trigger] if_cond_subs_seq(s, ops, big)[i],
            ) < node_count_seq(s),
    decreases s,
{
    if s.len() > 0 {
        lemma_if_cond_subs_seq_size(s.drop_last(), ops, big);
        lemma_if_cond_subs_size(s.last(), ops, big);
        let a = if_cond_subs_seq(s.drop_last(), ops, big);
        let b = if_cond_subs(s.last(), ops, big);
        assert(if_cond_subs_seq(s, ops, big) == a + b);
        assert forall|i: int| 0 <= i < (a + b).len() implies node_count(#[trigger] (a + b)[i])
            < node_count_seq(s) by {
            if i < a.len() {
                assert((a + b)[i] == a[i]);
            } else {
                assert((a + b)[i] == b[i - a.len()]);
            }
        }
    }
}

/// Every tree `distinct_trees` keeps comes from `s`.
pub proof fn lemma_distinct_from(s: Seq<Tree>)
    ensures
        forall|i: int|
            0 <= i < distinct_trees(s).len() ==> s.contains(#[trigger] distinct_trees(s)[i]),
    decreases s.len(),
{
    if s.len() > 0 {
        let d = s.drop_last();
        lemma_distinct_from(d);
        assert forall|i: int| 0 <= i < distinct_trees(s).len() implies s.contains(
            #[trigger] distinct_trees(s)[i],
        ) by {
            if i < distinct_trees(d).len() {
                let x = distinct_trees(d)[i];
                assert(d.contains(x));
                let j = choose|j: int| 0 <= j < d.len() && d[j] == x;
                assert(s[j] == x);
            } else {
                assert(s[s.len() - 1] == s.last());
            }
        }
    }
}

/// The candidates considered never enlarge the items or the result, and
/// every new ValDef defines one of them.
pub proof fn lemma_cond_steps_shape(
    st: (Seq<Tree>, Tree, Seq<Tree>, nat),
    cands: Seq<Tree>,
    k: int,
    nested: Set<u32>,
    ops: Seq<u32>,
    big: u32,
    eq: Seq<bool>,
)
    requires
        forall|j: int| 0 <= j < st.2.len() ==> (#[trigger] st.2[j] is ValDef) && cands.contains(*(st.2[j]->rhs)),
    ensures
        ({
            let r = cond_steps(st, cands, k, nested, ops, big, eq);
            &&& r.0.len() == st.0.len()
            &&& forall|p: int| 0 <= p < st.0.len() ==> node_count(#[trigger] r.0[p]) <= node_count(st.0[p])
            &&& node_count(r.1) <= node_count(st.1)
            &&& forall|j: int| 0 <= j < r.2.len() ==> (#[trigger] r.2[j] is ValDef) && cands.contains(*(r.2[j]->rhs))
        }),
    decreases k,
{
    if k > 0 && k <= cands.len() {
        lemma_cond_steps_shape(st, cands, k - 1, nested, ops, big, eq);
        let prev = cond_steps(st, cands, k - 1, nested, ops, big, eq);
        let sub = cands[k - 1];
        let r = cond_step(prev, sub, nested, ops, big, eq);
        assert(r == cond_steps(st, cands, k, nested, ops, big, eq));
        if r != prev {
            lemma_children_count(sub);
            let u = r.1;
            let use_node = Tree::ValUse { id: prev.3 as u32, tpe: crate::dag::type_of(sub, ops) };
            assert forall|p: int| 0 <= p < st.0.len() implies node_count(#[trigger] r.0[p]) <= node_count(
                st.0[p],
            ) by {
                lemma_replaced_count(prev.0[p], sub, use_node);
            }
            lemma_replaced_count(prev.1, sub, use_node);
            assert forall|j: int| 0 <= j < r.2.len() implies (#[trigger] r.2[j] is ValDef) && cands.contains(
                *(r.2[j]->rhs),
            ) by {
                if j == r.2.len() - 1 {
                    assert(cands[k - 1] == sub);
                } else {
                    assert(r.2[j] == prev.2[j]);
                }
            }
        }
    }
}

/// `BinOp`, `sigmaProp`, the collection operations and property reads
/// whose operands the extraction passes on to, threading the id counter.
pub open spec fn id_mapped_kind(k: OpKind) -> bool {
    match k {
        OpKind::BinOp | OpKind::BoolToSigmaProp | OpKind::Filter | OpKind::Exists | OpKind::ForAll
        | OpKind::SizeOf | OpKind::ExtractAmount | OpKind::PropertyCall | OpKind::Slice
        | OpKind::Fold | OpKind::SigmaAnd | OpKind::SigmaOr => true,
        _ => false,
    }
}

/// The extraction of If-condition candidates, top-down from each block
/// (`if_cond_extracted`, then the new ValDefs and the items in
/// `topo_order`, each processed in turn, then the result), passed on
/// through ValDefs, Ifs and the operands of `id_mapped_kind` operators;
/// with the next free id after it.
pub open spec fn pre_extracted(t: Tree, next: nat, ops: Seq<u32>, big: u32, eq: Seq<bool>) -> (
    Tree,
    nat,
)
    decreases node_count(t), 1int, 0int,
{
    match t {
        Tree::Block { items, result } => {
            let e = if_cond_extracted(items, *result, next, ops, big, eq);
            let fin = topo_order(e.2 + e.0);
            let p = pre_extracted_upto(fin, fin.len() as int, e.3, ops, big, eq, node_count(t));
            let r = if node_count(e.1) < node_count(t) {
                pre_extracted(e.1, p.1, ops, big, eq)
            } else {
                (e.1, p.1)
            };
            (Tree::Block { items: p.0, result: Box::new(r.0) }, r.1)
        },
        Tree::ValDef { id, rhs } => {
            let r = pre_extracted(*rhs, next, ops, big, eq);
            (Tree::ValDef { id, rhs: Box::new(r.0) }, r.1)
        },
        Tree::If { cond, then_branch, else_branch } => {
            let a = pre_extracted(*cond, next, ops, big, eq);
            let b = pre_extracted(*then_branch, a.1, ops, big, eq);
            let c = pre_extracted(*else_branch, b.1, ops, big, eq);
            (
                Tree::If {
                    cond: Box::new(a.0),
                    then_branch: Box::new(b.0),
                    else_branch: Box::new(c.0),
                },
                c.1,
            )
        },
        Tree::Op { kind, payload, children } => if id_mapped_kind(kind) {
            let p = pre_extracted_upto(children, children.len() as int, next, ops, big, eq, node_count(t));
            (Tree::Op { kind, payload, children: p.0 }, p.1)
        } else {
            (t, next)
        },
        _ => (t, next),
    }
}

/// `pre_extracted` over the first `k` trees of `s` in turn, each smaller
/// than `bound`.
pub open spec fn pre_extracted_upto(
    s: Seq<Tree>,
    k: int,
    next: nat,
    ops: Seq<u32>,
    big: u32,
    eq: Seq<bool>,
    bound: nat,
) -> (Seq<Tree>, nat)
    decreases bound, 0int, k,
{
    if k <= 0 || k > s.len() {
        (Seq::empty(), next)
    } else {
        let p = pre_extracted_upto(s, k - 1, next, ops, big, eq, bound);
        if node_count(s[k - 1]) < bound {
            let r = pre_extracted(s[k - 1], p.1, ops, big, eq);
            (p.0.push(r.0), r.1)
        } else {
            (p.0.push(s[k - 1]), p.1)
        }
    }
}


/// At a block, every If-condition candidate is smaller than the block by
/// at least two nodes.
pub proof fn lemma_block_cond_subs_size(items: Seq<Tree>, result: Tree, ops: Seq<u32>, big: u32)
    ensures
        ({
            let t = Tree::Block { items, result: Box::new(result) };
            forall|i: int|
                0 <= i < if_cond_subs(t, ops, big).len() ==> node_count(#[trigger] if_cond_subs(t, ops, big)[i])
                    + 2 <= node_count(t)
        }),
{
    let t = Tree::Block { items, result: Box::new(result) };
    lemma_if_cond_subs_seq_size(items, ops, big);
    lemma_if_cond_subs_size(result, ops, big);
    assert(node_count(t) == 1 + node_count_seq(items) + node_count(result));
    let a = if_cond_subs_seq(items, ops, big);
    let b = if_cond_subs(result, ops, big);
    assert(if_cond_subs(t, ops, big) == a + b);
    assert forall|i: int| 0 <= i < (a + b).len() implies node_count(#[trigger] (a + b)[i]) + 2 <= node_count(t) by {
        if i < a.len() {
            assert((a + b)[i] == a[i]);
        } else {
            assert((a + b)[i] == b[i - a.len()]);
        }
    }
}

/// The id counter never goes down.
pub proof fn lemma_pre_next(t: Tree, next: nat, ops: Seq<u32>, big: u32, eq: Seq<bool>)
    ensures
        next <= pre_extracted(t, next, ops, big, eq).1,
    decreases node_count(t), 1int, 0int,
{
    match t {
        Tree::Block { items, result } => {
            let e = if_cond_extracted(items, *result, next, ops, big, eq);
            let cands = distinct_trees(if_cond_subs(Tree::Block { items, result }, ops, big));
            crate::if_cond::lemma_cond_steps_next(
                (items, *result, Seq::empty(), next),
                cands,
                0,
                cands.len() as int,
                crate::if_cond::nested_ids(items, *result),
                ops,
                big,
                eq,
            );
            let fin = topo_order(e.2 + e.0);
            lemma_pre_upto_next(fin, fin.len() as int, e.3, ops, big, eq, node_count(t));
            let p = pre_extracted_upto(fin, fin.len() as int, e.3, ops, big, eq, node_count(t));
            if node_count(e.1) < node_count(t) {
                lemma_pre_next(e.1, p.1, ops, big, eq);
            }
        },
        Tree::ValDef { rhs, .. } => {
            lemma_pre_next(*rhs, next, ops, big, eq);
        },
        Tree::If { cond, then_branch, else_branch } => {
            let a = pre_extracted(*cond, next, ops, big, eq);
            let b = pre_extracted(*then_branch, a.1, ops, big, eq);
            lemma_pre_next(*cond, next, ops, big, eq);
            lemma_pre_next(*then_branch, a.1, ops, big, eq);
            lemma_pre_next(*else_branch, b.1, ops, big, eq);
        },
        Tree::Op { kind, children, .. } => {
            if id_mapped_kind(kind) {
                lemma_pre_upto_next(children, children.len() as int, next, ops, big, eq, node_count(t));
            }
        },
        _ => {},
    }
}

pub proof fn lemma_pre_upto_next(
    s: Seq<Tree>,
    k: int,
    next: nat,
    ops: Seq<u32>,
    big: u32,
    eq: Seq<bool>,
    bound: nat,
)
    ensures
        next <= pre_extracted_upto(s, k, next, ops, big, eq, bound).1,
        forall|j: int|
            0 <= j <= k <= s.len() ==> #[trigger] pre_extracted_upto(s, j, next, ops, big, eq, bound).1
                <= pre_extracted_upto(s, k, next, ops, big, eq, bound).1,
    decreases bound, 0int, k,
{
    if k > 0 && k <= s.len() {
        lemma_pre_upto_next(s, k - 1, next, ops, big, eq, bound);
        let p = pre_extracted_upto(s, k - 1, next, ops, big, eq, bound);
        if node_count(s[k - 1]) < bound {
            lemma_pre_next(s[k - 1], p.1, ops, big, eq);
        }
    }
}


fn is_id_mapped_kind(k: OpKind) -> (r: bool)
    ensures
        r == id_mapped_kind(k),
{
    match k {
        OpKind::BinOp | OpKind::BoolToSigmaProp | OpKind::Filter | OpKind::Exists | OpKind::ForAll
        | OpKind::SizeOf | OpKind::ExtractAmount | OpKind::PropertyCall | OpKind::Slice
        | OpKind::Fold | OpKind::SigmaAnd | OpKind::SigmaOr => true,
        _ => false,
    }
}

/// `pre_extracted_upto` over all of `v`, every tree of which is smaller
/// than `bound`.
fn pre_extract_seq(v: &Vec<Node>, next_id: &mut u32, tags: &TypeTags, Ghost(bound): Ghost<nat>) -> (r: Vec<Node>)
    requires
        forall|k: int| 0 <= k < v@.len() ==> node_count(#[trigger] nodes_view(v@)[k]) < bound,
        bound <= usize::MAX + 1,
        pre_extracted_upto(
            nodes_view(v@),
            v@.len() as int,
            *old(next_id) as nat,
            tags.op_types@,
            tags.big_int,
            tags.equality_ops@,
            bound,
        ).1 <= u32::MAX,
    ensures
        ({
            let p = pre_extracted_upto(
                nodes_view(v@),
                v@.len() as int,
                *old(next_id) as nat,
                tags.op_types@,
                tags.big_int,
                tags.equality_ops@,
                bound,
            );
            &&& nodes_view(r@) == p.0
            &&& *final(next_id) as nat == p.1
        }),
    decreases bound, 0int,
{
    let ghost s = nodes_view(v@);
    let ghost ops = tags.op_types@;
    let ghost big = tags.big_int;
    let ghost eq = tags.equality_ops@;
    let ghost n0 = *next_id as nat;
    proof {
        lemma_pre_upto_next(s, s.len() as int, n0, ops, big, eq, bound);
    }
    let mut out: Vec<Node> = Vec::new();
    let mut i: usize = 0;
    assert(nodes_view(out@) =~= Seq::<Tree>::empty());
    while i < v.len()
        invariant
            0 <= i <= v@.len(),
            s == nodes_view(v@),
            ops == tags.op_types@,
            big == tags.big_int,
            eq == tags.equality_ops@,
            bound <= usize::MAX + 1,
            forall|k: int| 0 <= k < v@.len() ==> node_count(#[trigger] s[k]) < bound,
            pre_extracted_upto(s, s.len() as int, n0, ops, big, eq, bound).1 <= u32::MAX,
            forall|j: int|
                0 <= j <= s.len() ==> #[trigger] pre_extracted_upto(s, j, n0, ops, big, eq, bound).1
                    <= pre_extracted_upto(s, s.len() as int, n0, ops, big, eq, bound).1,
            (nodes_view(out@), *next_id as nat) == pre_extracted_upto(s, i as int, n0, ops, big, eq, bound),
        decreases v.len() - i,
    {
        assert(s[i as int] == node_view(v@[i as int]));
        assert(node_count(s[i as int]) < bound);
        assert(pre_extracted_upto(s, i + 1, n0, ops, big, eq, bound).1 <= u32::MAX);
        let ghost before = nodes_view(out@);
        let x = pre_extract_ref(&v[i], next_id, tags);
        out.push(x);
        assert(nodes_view(out@) =~= before.push(x@));
        i += 1;
    }
    out
}

/// The extraction, as `pre_extracted` says.
fn pre_extract_ref(expr: &Node, next_id: &mut u32, tags: &TypeTags) -> (r: Node)
    requires
        node_count(expr@) <= usize::MAX,
        pre_extracted(expr@, *old(next_id) as nat, tags.op_types@, tags.big_int, tags.equality_ops@).1
            <= u32::MAX,
    ensures
        ({
            let p = pre_extracted(expr@, *old(next_id) as nat, tags.op_types@, tags.big_int, tags.equality_ops@);
            &&& r@ == p.0
            &&& *final(next_id) as nat == p.1
        }),
    decreases node_count(expr@), 1int,
{
    let ghost t = expr@;
    let ghost ops = tags.op_types@;
    let ghost big = tags.big_int;
    let ghost eq = tags.equality_ops@;
    let ghost n0 = *next_id as nat;
    proof {
        lemma_children_count(t);
    }
    match expr {
        Node::Block { items, result } => {
            let ghost s = nodes_view(items@);
            let ghost rv = node_view(**result);
            assert(t == Tree::Block { items: s, result: Box::new(rv) });
            assert(node_count(t) == 1 + node_count_seq(s) + node_count(rv));
            let ghost e = if_cond_extracted(s, rv, n0, ops, big, eq);
            let ghost cands = distinct_trees(if_cond_subs(t, ops, big));
            let ghost fin_v = topo_order(e.2 + e.0);
            let ghost p = pre_extracted_upto(fin_v, fin_v.len() as int, e.3, ops, big, eq, node_count(t));
            proof {
                crate::if_cond::lemma_cond_steps_next(
                    (s, rv, Seq::empty(), n0),
                    cands,
                    0,
                    cands.len() as int,
                    crate::if_cond::nested_ids(s, rv),
                    ops,
                    big,
                    eq,
                );
                lemma_pre_upto_next(fin_v, fin_v.len() as int, e.3, ops, big, eq, node_count(t));
                if node_count(e.1) < node_count(t) {
                    lemma_pre_next(e.1, p.1, ops, big, eq);
                }
            }
            let ghost start = *next_id;
            let (defs, (items2, result2)) = extract_if_cond_shared(
                crate::node::clone_nodes(items),
                clone_node(result),
                next_id,
                tags,
            );
            proof {
                lemma_cond_steps_shape(
                    (s, rv, Seq::empty(), n0),
                    cands,
                    cands.len() as int,
                    crate::if_cond::nested_ids(s, rv),
                    ops,
                    big,
                    eq,
                );
                lemma_distinct_from(if_cond_subs(t, ops, big));
                lemma_block_cond_subs_size(s, rv, ops, big);
            }
            let mut combined = defs;
            let mut rest = items2;
            let ghost dv = nodes_view(combined@);
            let ghost iv = nodes_view(rest@);
            combined.append(&mut rest);
            assert(nodes_view(combined@) =~= dv + iv);
            let fin = topo_order_valdefs(combined);
            proof {
                assert forall|k: int| 0 <= k < fin@.len() implies node_count(#[trigger] nodes_view(fin@)[k])
                    < node_count(t) by {
                    let perm = choose|perm: Seq<int>|
                        perm.len() == (dv + iv).len() && nodes_view(fin@).len() == (dv + iv).len()
                            && perm.no_duplicates() && (forall|q: int|
                            0 <= q < perm.len() ==> 0 <= #[trigger] perm[q] < (dv + iv).len()) && (
                        forall|q: int|
                            0 <= q < nodes_view(fin@).len() ==> #[trigger] nodes_view(fin@)[q] == (dv
                                + iv)[perm[q]]);
                    let idx = perm[k];
                    assert(nodes_view(fin@)[k] == (dv + iv)[idx]);
                    if idx < dv.len() {
                        let d = dv[idx];
                        assert((dv + iv)[idx] == d);
                        assert(d is ValDef && cands.contains(*(d->rhs)));
                        let c = *(d->rhs);
                        let j = choose|j: int| 0 <= j < cands.len() && cands[j] == c;
                        assert(if_cond_subs(t, ops, big).contains(cands[j]));
                        let q = choose|q: int| 0 <= q < if_cond_subs(t, ops, big).len() && if_cond_subs(t, ops, big)[q] == c;
                        assert(node_count(if_cond_subs(t, ops, big)[q]) + 2 <= node_count(t));
                        lemma_count_single(c);
                        lemma_children_count(d);
                    } else {
                        let p2 = idx - dv.len();
                        assert((dv + iv)[idx] == iv[p2]);
                        assert(node_count(iv[p2]) <= node_count(s[p2]));
                        lemma_seq_elem_count(s, p2);
                    }
                }
            }
            let new_items = pre_extract_seq(&fin, next_id, tags, Ghost(node_count(t)));
            assert(node_count(result2@) <= node_count(rv));
            let new_result = pre_extract_ref(&result2, next_id, tags);
            Node::Block { items: new_items, result: Box::new(new_result) }
        },
        Node::ValDef { id, rhs } => {
            assert(t == Tree::ValDef { id: *id, rhs: Box::new(node_view(**rhs)) });
            let r = pre_extract_ref(rhs, next_id, tags);
            Node::ValDef { id: *id, rhs: Box::new(r) }
        },
        Node::If { cond, then_branch, else_branch } => {
            let ghost cv = node_view(**cond);
            let ghost tv = node_view(**then_branch);
            let ghost ev = node_view(**else_branch);
            assert(t == Tree::If { cond: Box::new(cv), then_branch: Box::new(tv), else_branch: Box::new(ev) });
            let ghost a = pre_extracted(cv, n0, ops, big, eq);
            let ghost b = pre_extracted(tv, a.1, ops, big, eq);
            proof {
                lemma_pre_next(tv, a.1, ops, big, eq);
                lemma_pre_next(ev, b.1, ops, big, eq);
            }
            let c = pre_extract_ref(cond, next_id, tags);
            let th = pre_extract_ref(then_branch, next_id, tags);
            let el = pre_extract_ref(else_branch, next_id, tags);
            Node::If { cond: Box::new(c), then_branch: Box::new(th), else_branch: Box::new(el) }
        },
        Node::Op { kind, payload, children } => {
            let ghost cs = nodes_view(children@);
            assert(t == Tree::Op { kind: *kind, payload: *payload, children: cs });
            if is_id_mapped_kind(*kind) {
                let new_children = pre_extract_seq(children, next_id, tags, Ghost(node_count(t)));
                Node::Op { kind: *kind, payload: *payload, children: new_children }
            } else {
                clone_node(expr)
            }
        },
        _ => clone_node(expr),
    }
}

/// Extracts, from the outermost block down, the If-condition candidates
/// that are shared within each block's scope, as `pre_extracted` says;
/// `next_id` gives the fresh ids and ends one past the last used. The
/// tree must have at most `usize::MAX` nodes and the fresh ids must fit in
/// `u32`.
pub fn pre_extract_from_valdefs(expr: Node, next_id: &mut u32, tags: &TypeTags) -> (r: Node)
    requires
        node_count(expr@) <= usize::MAX,
        pre_extracted(expr@, *old(next_id) as nat, tags.op_types@, tags.big_int, tags.equality_ops@).1
            <= u32::MAX,
    ensures
        ({
            let p = pre_extracted(expr@, *old(next_id) as nat, tags.op_types@, tags.big_int, tags.equality_ops@);
            &&& r@ == p.0
            &&& *final(next_id) as nat == p.1
        }),
{
    pre_extract_ref(&expr, next_id, tags)
}

} // verus!
