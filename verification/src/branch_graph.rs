use vstd::prelude::*;

use crate::assoc::pairs_view;
use crate::ast_graph::{
    apply_env, env_sel, graph_next0, graph_processed, graph_rescue, is_kind, process_ast_graph_impl,
    ScopeMode,
};
use crate::dag::{
    children_total, collect_subexprs, collectible, count_dag_usages_scope, dag_nodes, dag_usage,
    extractable, is_collectible, is_extractable, subexprs, TypeTags,
};
use crate::hash_cons::{
    hc2_env, hc2_pass_ok, hc_pass_ok, hc_processed, process_ast_graph_hash_cons, process_ast_graph_hash_cons_v2,
    HashCons,
};
use crate::ast_graph::graph_from_env;
use crate::dedup::{flag, flag_of};
use crate::node::{clone_node, node_eq, node_view, nodes_view, Node, OpKind, Tree};
use crate::schedule::{dfs, dfs_schedule_scope};
use crate::thunk_scope::scope_children;
use crate::visibility::{count_occurrences_no_inner_if, occurrences_no_inner_if};
use crate::walk::{
    count_occurrences, direct_children, lemma_children_count, lemma_prefix_step, node_count, occurrences,
    tree_children,
};

verus! {

/// `out` with each tree of the first `k` of `ts` that also occurs in `fs`
/// and is not yet in `out` appended, in order.
pub open spec fn add_common(ts: Seq<Tree>, k: int, fs: Seq<Tree>, out: Seq<Tree>) -> Seq<Tree>
    decreases k,
{
    if k <= 0 || k > ts.len() {
        out
    } else {
        let o = add_common(ts, k - 1, fs, out);
        if fs.contains(ts[k - 1]) && !o.contains(ts[k - 1]) {
            o.push(ts[k - 1])
        } else {
            o
        }
    }
}

/// The walk for candidates shared by both branches of an If: at an If,
/// the candidates of its true branch that its false branch has too (not
/// going deeper); elsewhere the walk goes on to the sub-expressions.
pub open spec fn cross_walk(t: Tree, out: Seq<Tree>, ops: Seq<u32>, big: u32) -> Seq<Tree>
    decreases t,
{
    match t {
        Tree::If { then_branch, else_branch, .. } => {
            let ts = subexprs(*then_branch, ops, big, false);
            add_common(ts, ts.len() as int, subexprs(*else_branch, ops, big, false), out)
        },
        Tree::ValDef { rhs, .. } => cross_walk(*rhs, out, ops, big),
        Tree::ValUse { .. } => out,
        Tree::Block { items, result } => cross_walk(
            *result,
            cross_walk_seq(items, items.len() as int, out, ops, big),
            ops,
            big,
        ),
        Tree::Func { body, .. } => cross_walk(*body, out, ops, big),
        Tree::Op { children, .. } => cross_walk_seq(children, children.len() as int, out, ops, big),
    }
}

pub open spec fn cross_walk_seq(s: Seq<Tree>, k: int, out: Seq<Tree>, ops: Seq<u32>, big: u32) -> Seq<Tree>
    decreases s, k,
{
    if k <= 0 || k > s.len() {
        out
    } else {
        cross_walk(s[k - 1], cross_walk_seq(s, k - 1, out, ops, big), ops, big)
    }
}

/// The walk for candidates of an If condition that one of its branches
/// has too: at an If, those candidates of the condition, then the walk
/// goes on into the condition only; elsewhere into the sub-expressions.
pub open spec fn cond_walk(t: Tree, out: Seq<Tree>, ops: Seq<u32>, big: u32) -> Seq<Tree>
    decreases t,
{
    match t {
        Tree::If { cond, then_branch, else_branch } => {
            let cs = subexprs(*cond, ops, big, false);
            let ts = subexprs(*then_branch, ops, big, false);
            let fs = subexprs(*else_branch, ops, big, false);
            cond_walk(*cond, add_common(cs, cs.len() as int, ts + fs, out), ops, big)
        },
        Tree::ValDef { rhs, .. } => cond_walk(*rhs, out, ops, big),
        Tree::ValUse { .. } => out,
        Tree::Block { items, result } => cond_walk(
            *result,
            cond_walk_seq(items, items.len() as int, out, ops, big),
            ops,
            big,
        ),
        Tree::Func { body, .. } => cond_walk(*body, out, ops, big),
        Tree::Op { children, .. } => cond_walk_seq(children, children.len() as int, out, ops, big),
    }
}

pub open spec fn cond_walk_seq(s: Seq<Tree>, k: int, out: Seq<Tree>, ops: Seq<u32>, big: u32) -> Seq<Tree>
    decreases s, k,
{
    if k <= 0 || k > s.len() {
        out
    } else {
        cond_walk(s[k - 1], cond_walk_seq(s, k - 1, out, ops, big), ops, big)
    }
}

/// How many trees of `doms`, other than `c`, have `c` as a direct
/// sub-expression.
pub open spec fn dom_parents(doms: Seq<Tree>, k: int, c: Tree) -> nat
    decreases k,
{
    if k <= 0 || k > doms.len() {
        0
    } else {
        dom_parents(doms, k - 1, c) + if doms[k - 1] != c && tree_children(doms[k - 1]).contains(c) {
            1nat
        } else {
            0nat
        }
    }
}

/// The cross-branch candidates that do not have exactly one of the others
/// as a direct parent.
pub open spec fn kept_doms(doms: Seq<Tree>, k: int) -> Seq<Tree>
    decreases k,
{
    if k <= 0 || k > doms.len() {
        Seq::empty()
    } else if dom_parents(doms, doms.len() as int, doms[k - 1]) != 1 {
        kept_doms(doms, k - 1).push(doms[k - 1])
    } else {
        kept_doms(doms, k - 1)
    }
}

/// The position of the first entry of `x` in `dag`.
pub open spec fn first_entry(dag: Seq<(Tree, usize)>, x: Tree) -> Option<int>
    decreases dag.len(),
{
    if dag.len() == 0 {
        None
    } else {
        match first_entry(dag.drop_last(), x) {
            Some(i) => Some(i),
            None => if dag.last().0 == x {
                Some(dag.len() - 1)
            } else {
                None
            },
        }
    }
}

/// The count of the first entry of each of the first `k` of `cross` raised
/// to at least two.
pub open spec fn bump_cross(dag: Seq<(Tree, usize)>, cross: Seq<Tree>, k: int) -> Seq<(Tree, usize)>
    decreases k,
{
    if k <= 0 || k > cross.len() {
        dag
    } else {
        let d = bump_cross(dag, cross, k - 1);
        match first_entry(d, cross[k - 1]) {
            Some(i) => if d[i].1 < 2 {
                d.update(i, (d[i].0, 2usize))
            } else {
                d
            },
            None => d,
        }
    }
}

/// Each count, but for a `BinOp`, raised to the occurrences of its tree in
/// `expr` outside inner If branches when those are at least two.
pub open spec fn global_bump(dag: Seq<(Tree, usize)>, expr: Tree) -> Seq<(Tree, usize)> {
    Seq::new(
        dag.len(),
        |i: int|
            {
                let g = occurrences_no_inner_if(expr, dag[i].0);
                if !is_kind(dag[i].0, OpKind::BinOp) && g >= 2 && g > dag[i].1 {
                    (dag[i].0, g as usize)
                } else {
                    dag[i]
                }
            },
    )
}

/// The seeding with the condition-and-branch candidates, taken in reverse
/// from position `k` down: each collectible, extractable non-`BinOp`
/// occurring at least twice in `expr` and not in the table yet enters the
/// table (with that count) and, if absent, the schedule.
pub open spec fn seed_cond(
    st: (Seq<(Tree, usize)>, Seq<Tree>),
    cbs: Seq<Tree>,
    k: int,
    expr: Tree,
    ops: Seq<u32>,
    big: u32,
) -> (Seq<(Tree, usize)>, Seq<Tree>)
    decreases k,
{
    if k <= 0 || k > cbs.len() {
        st
    } else {
        let cb = cbs[k - 1];
        let g = occurrences(expr, cb);
        let next = if collectible(cb, ops, big) && extractable(cb, ops, big) && !is_kind(cb, OpKind::BinOp)
            && g >= 2 && !(exists|i: int| 0 <= i < st.0.len() && #[trigger] st.0[i].0 == cb) {
            (st.0.push((cb, g as usize)), if st.1.contains(cb) {
                st.1
            } else {
                st.1.push(cb)
            })
        } else {
            st
        };
        seed_cond(next, cbs, k - 1, expr, ops, big)
    }
}

/// The usage table of the scope of `t`.
pub open spec fn scope_table(t: Tree, ops: Seq<u32>, big: u32) -> Seq<(Tree, usize)> {
    let ns = dag_nodes(t, ops, big, true);
    Seq::new(ns.len(), |i: int| (ns[i], dag_usage(t, ns, ns[i], true) as usize))
}

/// How a branch pass runs: the hash-cons walk that gates its extractions,
/// if any; and whether the ValUse and relational `BinOp` candidates leave
/// its usage table first (`narrow`, relations told by `rel`, indexed by
/// payload).
pub struct BranchOpts {
    pub hc: HashCons,
    pub narrow: bool,
    pub rel: Seq<bool>,
}

/// The branch options that `tags` give.
pub open spec fn branch_opts(tags: TypeTags) -> BranchOpts {
    BranchOpts { hc: tags.hash_cons, narrow: tags.narrow_branch, rel: tags.relation_ops@ }
}

/// A candidate that a narrowed branch pass leaves out: a ValUse or a
/// relational `BinOp`.
pub open spec fn narrowed_out(t: Tree, rel: Seq<bool>) -> bool {
    ||| t is ValUse
    ||| (t matches Tree::Op { kind, payload, .. } && kind == OpKind::BinOp && flag(rel, payload))
}

/// The first `k` entries of `d`, in order, without those that
/// `narrowed_out` names.
pub open spec fn narrowed(d: Seq<(Tree, usize)>, k: int, rel: Seq<bool>) -> Seq<(Tree, usize)>
    decreases k,
{
    if k <= 0 || k > d.len() {
        Seq::empty()
    } else {
        let p = narrowed(d, k - 1, rel);
        if narrowed_out(d[k - 1].0, rel) {
            p
        } else {
            p.push(d[k - 1])
        }
    }
}

/// The usage table and the schedule a branch pass over `t` hands to the
/// graph pass.
pub open spec fn branch_inputs(t: Tree, ops: Seq<u32>, big: u32, bo: BranchOpts) -> (Seq<(Tree, usize)>, Seq<Tree>) {
    let raw = cross_walk(t, Seq::empty(), ops, big);
    let cross = kept_doms(raw, raw.len() as int);
    let d1 = bump_cross(scope_table(t, ops, big), cross, cross.len() as int);
    let d2 = global_bump(d1, t);
    let cbs = cond_walk(t, Seq::empty(), ops, big);
    let st = seed_cond((d2, dfs(t, Seq::empty(), Seq::empty(), true).1), cbs, cbs.len() as int, t, ops, big);
    if bo.narrow {
        (narrowed(st.0, st.0.len() as int, bo.rel), st.1)
    } else {
        st
    }
}

fn is_narrowed_out(t: &Node, tags: &TypeTags) -> (r: bool)
    ensures
        r == narrowed_out(t@, tags.relation_ops@),
{
    match t {
        Node::ValUse { .. } => true,
        Node::Op { kind, payload, .. } => *kind == OpKind::BinOp && flag_of(&tags.relation_ops, *payload),
        _ => false,
    }
}

/// The usage table without the entries that `narrowed_out` names.
fn narrow_dag(dag: &Vec<(Node, usize)>, tags: &TypeTags) -> (r: Vec<(Node, usize)>)
    ensures
        pairs_view(r@) == narrowed(pairs_view(dag@), dag@.len() as int, tags.relation_ops@),
{
    let ghost d = pairs_view(dag@);
    let mut out: Vec<(Node, usize)> = Vec::new();
    let mut i: usize = 0;
    assert(pairs_view(out@) =~= narrowed(d, 0, tags.relation_ops@));
    while i < dag.len()
        invariant
            0 <= i <= dag@.len(),
            d == pairs_view(dag@),
            d.len() == dag@.len(),
            pairs_view(out@) == narrowed(d, i as int, tags.relation_ops@),
        decreases dag.len() - i,
    {
        assert(d[i as int] == (dag@[i as int].0@, dag@[i as int].1));
        if !is_narrowed_out(&dag[i].0, tags) {
            let ghost before = pairs_view(out@);
            out.push((clone_node(&dag[i].0), dag[i].1));
            assert(pairs_view(out@) =~= before.push(d[i as int]));
        }
        i += 1;
    }
    out
}


fn add_common_vec(ts: &Vec<Node>, fs: &Vec<Node>, out: &mut Vec<Node>)
    ensures
        nodes_view(final(out)@) == add_common(
            nodes_view(ts@),
            ts@.len() as int,
            nodes_view(fs@),
            nodes_view(old(out)@),
        ),
{
    let ghost tv = nodes_view(ts@);
    let ghost fv = nodes_view(fs@);
    let ghost o0 = nodes_view(out@);
    let mut i: usize = 0;
    while i < ts.len()
        invariant
            0 <= i <= ts@.len(),
            tv == nodes_view(ts@),
            fv == nodes_view(fs@),
            nodes_view(out@) == add_common(tv, i as int, fv, o0),
        decreases ts.len() - i,
    {
        assert(tv[i as int] == node_view(ts@[i as int]));
        if crate::dag::contains_node(fs, &ts[i]) && !crate::dag::contains_node(out, &ts[i]) {
            let ghost before = nodes_view(out@);
            out.push(clone_node(&ts[i]));
            assert(nodes_view(out@) =~= before.push(tv[i as int]));
        }
        i += 1;
    }
}

fn cross_walk_vec(v: &Vec<Node>, out: &mut Vec<Node>, tags: &TypeTags)
    ensures
        nodes_view(final(out)@) == cross_walk_seq(
            nodes_view(v@),
            v@.len() as int,
            nodes_view(old(out)@),
            tags.op_types@,
            tags.big_int,
        ),
    decreases v@,
{
    let ghost s = nodes_view(v@);
    let ghost o0 = nodes_view(out@);
    let mut i: usize = 0;
    while i < v.len()
        invariant
            0 <= i <= v@.len(),
            s == nodes_view(v@),
            nodes_view(out@) == cross_walk_seq(s, i as int, o0, tags.op_types@, tags.big_int),
        decreases v.len() - i,
    {
        assert(decreases_to!(v@ => v@[i as int]));
        assert(s[i as int] == node_view(v@[i as int]));
        cross_walk_node(&v[i], out, tags);
        i += 1;
    }
}

fn cross_walk_node(expr: &Node, out: &mut Vec<Node>, tags: &TypeTags)
    ensures
        nodes_view(final(out)@) == cross_walk(expr@, nodes_view(old(out)@), tags.op_types@, tags.big_int),
    decreases expr,
{
    match expr {
        Node::If { cond, then_branch, else_branch } => {
            assert(expr@ == Tree::If {
                cond: Box::new(node_view(**cond)),
                then_branch: Box::new(node_view(**then_branch)),
                else_branch: Box::new(node_view(**else_branch)),
            });
            let mut ts: Vec<Node> = Vec::new();
            collect_subexprs(then_branch, tags, &mut ts);
            let mut fs: Vec<Node> = Vec::new();
            collect_subexprs(else_branch, tags, &mut fs);
            assert(nodes_view(ts@) =~= subexprs(node_view(**then_branch), tags.op_types@, tags.big_int, false));
            assert(nodes_view(fs@) =~= subexprs(node_view(**else_branch), tags.op_types@, tags.big_int, false));
            add_common_vec(&ts, &fs, out);
        },
        Node::ValDef { id, rhs } => {
            assert(expr@ == Tree::ValDef { id: *id, rhs: Box::new(node_view(**rhs)) });
            cross_walk_node(rhs, out, tags);
        },
        Node::ValUse { .. } => {},
        Node::Block { items, result } => {
            assert(expr@ == Tree::Block { items: nodes_view(items@), result: Box::new(node_view(**result)) });
            cross_walk_vec(items, out, tags);
            cross_walk_node(result, out, tags);
        },
        Node::Func { args, body } => {
            assert(expr@ == Tree::Func { args: args@, body: Box::new(node_view(**body)) });
            cross_walk_node(body, out, tags);
        },
        Node::Op { kind, payload, children } => {
            assert(expr@ == Tree::Op { kind: *kind, payload: *payload, children: nodes_view(children@) });
            cross_walk_vec(children, out, tags);
        },
    }
}

/// The candidates shared by both branches of the Ifs in `expr` (not inside
/// their branches), as `cross_walk` says.
pub fn collect_cross_branch_dominators(expr: &Node, tags: &TypeTags) -> (r: Vec<Node>)
    ensures
        nodes_view(r@) == cross_walk(expr@, Seq::empty(), tags.op_types@, tags.big_int),
{
    let mut out: Vec<Node> = Vec::new();
    assert(nodes_view(out@) =~= Seq::<Tree>::empty());
    cross_walk_node(expr, &mut out, tags);
    out
}

fn cond_walk_vec(v: &Vec<Node>, out: &mut Vec<Node>, tags: &TypeTags)
    ensures
        nodes_view(final(out)@) == cond_walk_seq(
            nodes_view(v@),
            v@.len() as int,
            nodes_view(old(out)@),
            tags.op_types@,
            tags.big_int,
        ),
    decreases v@,
{
    let ghost s = nodes_view(v@);
    let ghost o0 = nodes_view(out@);
    let mut i: usize = 0;
    while i < v.len()
        invariant
            0 <= i <= v@.len(),
            s == nodes_view(v@),
            nodes_view(out@) == cond_walk_seq(s, i as int, o0, tags.op_types@, tags.big_int),
        decreases v.len() - i,
    {
        assert(decreases_to!(v@ => v@[i as int]));
        assert(s[i as int] == node_view(v@[i as int]));
        cond_walk_node(&v[i], out, tags);
        i += 1;
    }
}

fn cond_walk_node(expr: &Node, out: &mut Vec<Node>, tags: &TypeTags)
    ensures
        nodes_view(final(out)@) == cond_walk(expr@, nodes_view(old(out)@), tags.op_types@, tags.big_int),
    decreases expr,
{
    match expr {
        Node::If { cond, then_branch, else_branch } => {
            assert(expr@ == Tree::If {
                cond: Box::new(node_view(**cond)),
                then_branch: Box::new(node_view(**then_branch)),
                else_branch: Box::new(node_view(**else_branch)),
            });
            let mut cs: Vec<Node> = Vec::new();
            collect_subexprs(cond, tags, &mut cs);
            let mut bs: Vec<Node> = Vec::new();
            collect_subexprs(then_branch, tags, &mut bs);
            collect_subexprs(else_branch, tags, &mut bs);
            assert(nodes_view(cs@) =~= subexprs(node_view(**cond), tags.op_types@, tags.big_int, false));
            assert(nodes_view(bs@) =~= subexprs(node_view(**then_branch), tags.op_types@, tags.big_int, false)
                + subexprs(node_view(**else_branch), tags.op_types@, tags.big_int, false));
            add_common_vec(&cs, &bs, out);
            cond_walk_node(cond, out, tags);
        },
        Node::ValDef { id, rhs } => {
            assert(expr@ == Tree::ValDef { id: *id, rhs: Box::new(node_view(**rhs)) });
            cond_walk_node(rhs, out, tags);
        },
        Node::ValUse { .. } => {},
        Node::Block { items, result } => {
            assert(expr@ == Tree::Block { items: nodes_view(items@), result: Box::new(node_view(**result)) });
            cond_walk_vec(items, out, tags);
            cond_walk_node(result, out, tags);
        },
        Node::Func { args, body } => {
            assert(expr@ == Tree::Func { args: args@, body: Box::new(node_view(**body)) });
            cond_walk_node(body, out, tags);
        },
        Node::Op { kind, payload, children } => {
            assert(expr@ == Tree::Op { kind: *kind, payload: *payload, children: nodes_view(children@) });
            cond_walk_vec(children, out, tags);
        },
    }
}

/// The candidates of the conditions of the Ifs in `expr` (not inside their
/// branches) that one of the branches has too, as `cond_walk` says.
pub fn collect_cond_branch_shared(expr: &Node, tags: &TypeTags) -> (r: Vec<Node>)
    ensures
        nodes_view(r@) == cond_walk(expr@, Seq::empty(), tags.op_types@, tags.big_int),
{
    let mut out: Vec<Node> = Vec::new();
    assert(nodes_view(out@) =~= Seq::<Tree>::empty());
    cond_walk_node(expr, &mut out, tags);
    out
}


fn children_contain(p: &Node, c: &Node) -> (r: bool)
    ensures
        r == tree_children(p@).contains(c@),
{
    let cs = direct_children(p);
    let ghost tc = tree_children(p@);
    let mut i: usize = 0;
    while i < cs.len()
        invariant
            0 <= i <= cs@.len(),
            cs@.len() == tc.len(),
            tc == tree_children(p@),
            forall|j: int| 0 <= j < cs@.len() ==> (*cs@[j])@ == tc[j],
            forall|j: int| 0 <= j < i ==> tc[j] != c@,
        decreases cs.len() - i,
    {
        if node_eq(cs[i], c) {
            assert(tc[i as int] == c@);
            assert(tc.contains(c@));
            return true;
        }
        i += 1;
    }
    false
}

/// The cross-branch candidates without exactly one other candidate as a
/// direct parent, as `kept_doms` says.
fn filter_doms(raw: &Vec<Node>) -> (r: Vec<Node>)
    ensures
        nodes_view(r@) == kept_doms(nodes_view(raw@), raw@.len() as int),
{
    let ghost d = nodes_view(raw@);
    let mut out: Vec<Node> = Vec::new();
    let mut k: usize = 0;
    assert(nodes_view(out@) =~= Seq::<Tree>::empty());
    while k < raw.len()
        invariant
            0 <= k <= raw@.len(),
            d == nodes_view(raw@),
            nodes_view(out@) == kept_doms(d, k as int),
        decreases raw.len() - k,
    {
        assert(d[k as int] == node_view(raw@[k as int]));
        let c = &raw[k];
        let mut cnt: usize = 0;
        let mut q: usize = 0;
        while q < raw.len()
            invariant
                0 <= q <= raw@.len(),
                d == nodes_view(raw@),
                cnt == dom_parents(d, q as int, c@),
                cnt <= q,
            decreases raw.len() - q,
        {
            assert(d[q as int] == node_view(raw@[q as int]));
            if !node_eq(&raw[q], c) && children_contain(&raw[q], c) {
                cnt = cnt + 1;
            }
            q += 1;
        }
        if cnt != 1 {
            let ghost before = nodes_view(out@);
            out.push(clone_node(c));
            assert(nodes_view(out@) =~= before.push(d[k as int]));
        }
        k += 1;
    }
    out
}

/// The position of the first entry of `x`, as `first_entry` says.
fn find_first(dag: &Vec<(Node, usize)>, x: &Node) -> (r: Option<usize>)
    ensures
        match first_entry(pairs_view(dag@), x@) {
            Some(i) => r is Some && r.unwrap() as int == i,
            None => r is None,
        },
{
    let ghost d = pairs_view(dag@);
    let mut i: usize = 0;
    while i < dag.len()
        invariant
            0 <= i <= dag@.len(),
            d == pairs_view(dag@),
            first_entry(d.subrange(0, i as int), x@) is None,
        decreases dag.len() - i,
    {
        assert(d.subrange(0, i + 1).drop_last() =~= d.subrange(0, i as int));
        assert(d[i as int] == (dag@[i as int].0@, dag@[i as int].1));
        if node_eq(&dag[i].0, x) {
            proof {
                lemma_first_entry_prefix(d, i as int + 1, x@);
            }
            return Some(i);
        }
        i += 1;
    }
    assert(d.subrange(0, d.len() as int) =~= d);
    None
}

proof fn lemma_first_entry_bound(d: Seq<(Tree, usize)>, x: Tree)
    ensures
        match first_entry(d, x) {
            Some(i) => 0 <= i < d.len() && d[i].0 == x,
            None => true,
        },
    decreases d.len(),
{
    if d.len() > 0 {
        lemma_first_entry_bound(d.drop_last(), x);
    }
}

proof fn lemma_first_entry_prefix(d: Seq<(Tree, usize)>, k: int, x: Tree)
    requires
        0 < k <= d.len(),
        first_entry(d.subrange(0, k - 1), x) is None,
        d[k - 1].0 == x,
    ensures
        first_entry(d, x) == Some(k - 1),
    decreases d.len() - k,
{
    if k == d.len() {
        assert(d.drop_last() =~= d.subrange(0, k - 1));
    } else {
        assert(d.drop_last().subrange(0, k - 1) =~= d.subrange(0, k - 1));
        lemma_first_entry_prefix(d.drop_last(), k, x);
    }
}


/// The counts of the cross-branch candidates raised, as `bump_cross` says.
fn bump_counts(dag: &mut Vec<(Node, usize)>, cross: &Vec<Node>)
    ensures
        pairs_view(final(dag)@) == bump_cross(pairs_view(old(dag)@), nodes_view(cross@), cross@.len() as int),
{
    let ghost d0 = pairs_view(dag@);
    let ghost cv = nodes_view(cross@);
    let mut k: usize = 0;
    while k < cross.len()
        invariant
            0 <= k <= cross@.len(),
            cv == nodes_view(cross@),
            pairs_view(dag@) == bump_cross(d0, cv, k as int),
        decreases cross.len() - k,
    {
        assert(cv[k as int] == node_view(cross@[k as int]));
        let ghost d = pairs_view(dag@);
        proof {
            lemma_first_entry_bound(d, cv[k as int]);
        }
        assert(d == bump_cross(d0, cv, k as int));
        match find_first(dag, &cross[k]) {
            Some(i) => {
                assert(first_entry(d, cv[k as int]) == Some(i as int));
                assert(d[i as int] == (dag@[i as int].0@, dag@[i as int].1));
                if dag[i].1 < 2 {
                    let e = clone_node(&dag[i].0);
                    dag.set(i, (e, 2));
                    assert(pairs_view(dag@) =~= d.update(i as int, (d[i as int].0, 2usize)));
                    assert(bump_cross(d0, cv, k + 1) == d.update(i as int, (d[i as int].0, 2usize)));
                } else {
                    assert(bump_cross(d0, cv, k + 1) == d);
                }
            },
            None => {
                assert(first_entry(d, cv[k as int]) is None);
                assert(bump_cross(d0, cv, k + 1) == d);
            },
        }
        k += 1;
    }
}

/// The counts raised to the occurrences outside inner If branches, as
/// `global_bump` says.
fn bump_global(dag: &mut Vec<(Node, usize)>, expr: &Node)
    requires
        node_count(expr@) <= usize::MAX,
    ensures
        pairs_view(final(dag)@) == global_bump(pairs_view(old(dag)@), expr@),
{
    let ghost d0 = pairs_view(dag@);
    let mut i: usize = 0;
    while i < dag.len()
        invariant
            0 <= i <= dag@.len(),
            dag@.len() == d0.len(),
            node_count(expr@) <= usize::MAX,
            forall|j: int| 0 <= j < i ==> #[trigger] pairs_view(dag@)[j] == global_bump(d0, expr@)[j],
            forall|j: int| i <= j < d0.len() ==> #[trigger] pairs_view(dag@)[j] == d0[j],
        decreases dag.len() - i,
    {
        let ghost d = pairs_view(dag@);
        assert(d[i as int] == (dag@[i as int].0@, dag@[i as int].1));
        let is_bin = match &dag[i].0 {
            Node::Op { kind, .. } => *kind == OpKind::BinOp,
            _ => false,
        };
        assert(is_bin == is_kind(d0[i as int].0, OpKind::BinOp));
        if !is_bin {
            let g = count_occurrences_no_inner_if(expr, &dag[i].0);
            if g >= 2 && g > dag[i].1 {
                let e = clone_node(&dag[i].0);
                dag.set(i, (e, g));
                assert(pairs_view(dag@) =~= d.update(i as int, (d[i as int].0, g)));
            }
        }
        i += 1;
    }
    assert(pairs_view(dag@) =~= global_bump(d0, expr@));
}

fn has_entry(dag: &Vec<(Node, usize)>, x: &Node) -> (r: bool)
    ensures
        r == exists|i: int| 0 <= i < dag@.len() && #[trigger] pairs_view(dag@)[i].0 == x@,
{
    let ghost d = pairs_view(dag@);
    let mut i: usize = 0;
    while i < dag.len()
        invariant
            0 <= i <= dag@.len(),
            d == pairs_view(dag@),
            forall|j: int| 0 <= j < i ==> #[trigger] d[j].0 != x@,
        decreases dag.len() - i,
    {
        assert(d[i as int] == (dag@[i as int].0@, dag@[i as int].1));
        if node_eq(&dag[i].0, x) {
            assert(d[i as int].0 == x@);
            return true;
        }
        i += 1;
    }
    false
}

/// The seeding with the condition-and-branch candidates, as `seed_cond`
/// says.
fn seed_entries(
    dag: &mut Vec<(Node, usize)>,
    schedule: &mut Vec<Node>,
    cbs: &Vec<Node>,
    expr: &Node,
    tags: &TypeTags,
)
    requires
        node_count(expr@) <= usize::MAX,
    ensures
        (pairs_view(final(dag)@), nodes_view(final(schedule)@)) == seed_cond(
            (pairs_view(old(dag)@), nodes_view(old(schedule)@)),
            nodes_view(cbs@),
            cbs@.len() as int,
            expr@,
            tags.op_types@,
            tags.big_int,
        ),
{
    let ghost cv = nodes_view(cbs@);
    let ghost target = seed_cond(
        (pairs_view(dag@), nodes_view(schedule@)),
        cv,
        cv.len() as int,
        expr@,
        tags.op_types@,
        tags.big_int,
    );
    let mut k: usize = cbs.len();
    while k > 0
        invariant
            0 <= k <= cbs@.len(),
            cv == nodes_view(cbs@),
            node_count(expr@) <= usize::MAX,
            seed_cond(
                (pairs_view(dag@), nodes_view(schedule@)),
                cv,
                k as int,
                expr@,
                tags.op_types@,
                tags.big_int,
            ) == target,
        decreases k,
    {
        let cb = &cbs[k - 1];
        assert(cv[k - 1] == node_view(cbs@[k - 1]));
        if is_collectible(cb, tags) && is_extractable(cb, tags) && !match cb {
            Node::Op { kind, .. } => *kind == OpKind::BinOp,
            _ => false,
        } {
            let g = count_occurrences(expr, cb);
            if g >= 2 && !has_entry(dag, cb) {
                let ghost dv = pairs_view(dag@);
                dag.push((clone_node(cb), g));
                assert(pairs_view(dag@) =~= dv.push((cv[k - 1], g)));
                if !crate::dag::contains_node(schedule, cb) {
                    let ghost sv = nodes_view(schedule@);
                    schedule.push(clone_node(cb));
                    assert(nodes_view(schedule@) =~= sv.push(cv[k - 1]));
                }
            }
        }
        k -= 1;
    }
}


/// The scope usage counts of `t` fit in `usize`.
pub open spec fn scope_fits(t: Tree, ops: Seq<u32>, big: u32) -> bool {
    scope_children(t).len() + children_total(
        dag_nodes(t, ops, big, true),
        dag_nodes(t, ops, big, true).len() as int,
        true,
    ) <= usize::MAX
}

/// The ids, tree size and lambda rescue of the graph pass that a branch
/// pass runs fit their machine integers.
pub open spec fn branch_pass_fits(t: Tree, global_max_id: u32, ops: Seq<u32>, big: u32, bo: BranchOpts) -> bool {
    let bi = branch_inputs(t, ops, big, bo);
    let env = env_sel(bi.1, bi.1.len() as int, t, bi.0, ScopeMode::Branch, ops, big, graph_next0(t, global_max_id));
    &&& scope_fits(t, ops, big)
    &&& node_count(t) <= usize::MAX
    &&& graph_next0(t, global_max_id) + env.len() <= u32::MAX
    &&& (apply_env(t, env, 0, Seq::empty(), ops).1.len() > 0 ==> graph_rescue(
        t,
        global_max_id,
        bi.0,
        bi.1,
        ScopeMode::Branch,
        ops,
        big,
    ).1)
}

/// The usage table and schedule of a branch pass, as `branch_inputs` says.
fn branch_graph_inputs(expr: &Node, tags: &TypeTags) -> (r: (Vec<(Node, usize)>, Vec<Node>))
    requires
        scope_fits(expr@, tags.op_types@, tags.big_int),
        node_count(expr@) <= usize::MAX,
    ensures
        pairs_view(r.0@) == branch_inputs(expr@, tags.op_types@, tags.big_int, branch_opts(*tags)).0,
        nodes_view(r.1@) == branch_inputs(expr@, tags.op_types@, tags.big_int, branch_opts(*tags)).1,
{
    let mut schedule = dfs_schedule_scope(expr);
    let mut dag = count_dag_usages_scope(expr, tags);
    assert(pairs_view(dag@) =~= scope_table(expr@, tags.op_types@, tags.big_int));
    let raw = collect_cross_branch_dominators(expr, tags);
    let cross = filter_doms(&raw);
    bump_counts(&mut dag, &cross);
    bump_global(&mut dag, expr);
    let cbs = collect_cond_branch_shared(expr, tags);
    seed_entries(&mut dag, &mut schedule, &cbs, expr, tags);
    if tags.narrow_branch {
        let nd = narrow_dag(&dag, tags);
        (nd, schedule)
    } else {
        (dag, schedule)
    }
}

/// The branch pass fits its machine integers, for the graph pass or the
/// hash-cons graph pass that `hash_cons` names.
pub open spec fn branch_pass_ok(t: Tree, global_max_id: u32, ops: Seq<u32>, big: u32, bo: BranchOpts) -> bool {
    let bi = branch_inputs(t, ops, big, bo);
    match bo.hc {
        HashCons::Off => branch_pass_fits(t, global_max_id, ops, big, bo),
        HashCons::TopDown => {
            &&& scope_fits(t, ops, big)
            &&& node_count(t) <= usize::MAX
            &&& hc_pass_ok(t, global_max_id, bi.0, bi.1, ScopeMode::Branch, ops, big)
        },
        HashCons::BottomUp => {
            &&& scope_fits(t, ops, big)
            &&& node_count(t) <= usize::MAX
            &&& hc2_pass_ok(t, global_max_id, ops, big)
        },
    }
}

/// The branch pass over `t` with the inputs of `branch_inputs`: the graph
/// pass in branch mode, or the hash-cons graph pass that `hash_cons`
/// names.
pub open spec fn branch_pass(t: Tree, global_max_id: u32, ops: Seq<u32>, big: u32, bo: BranchOpts) -> Tree {
    let bi = branch_inputs(t, ops, big, bo);
    match bo.hc {
        HashCons::Off => graph_processed(t, global_max_id, bi.0, bi.1, ScopeMode::Branch, ops, big),
        HashCons::TopDown => hc_processed(t, global_max_id, bi.0, bi.1, ScopeMode::Branch, ops, big),
        HashCons::BottomUp => graph_from_env(t, hc2_env(t, global_max_id, ops, big), ops, big),
    }
}

/// The graph pass at a branch: the scope usage table with the counts of
/// the candidates shared by both branches of an inner If raised to two
/// (unless exactly one other such candidate is their parent) and each
/// non-`BinOp` count raised to its occurrences outside inner If branches,
/// the candidates an If condition shares with a branch seeded into table
/// and scope schedule, the ValUse and relational `BinOp` entries dropped
/// from the table where `tags.narrow_branch` says so, then the graph pass in branch mode (its scope gate
/// a hash-cons walk where `tags.hash_cons` names one), as `branch_pass`
/// says.
pub fn process_ast_graph_branch(expr: Node, global_max_id: u32, tags: &TypeTags) -> (r: Node)
    requires
        branch_pass_ok(expr@, global_max_id, tags.op_types@, tags.big_int, branch_opts(*tags)),
    ensures
        r@ == branch_pass(expr@, global_max_id, tags.op_types@, tags.big_int, branch_opts(*tags)),
{
    let (dag, schedule) = branch_graph_inputs(&expr, tags);
    match tags.hash_cons {
        HashCons::Off => process_ast_graph_impl(expr, global_max_id, dag, schedule, ScopeMode::Branch, tags),
        HashCons::TopDown => process_ast_graph_hash_cons(expr, global_max_id, dag, schedule, ScopeMode::Branch, tags),
        HashCons::BottomUp => process_ast_graph_hash_cons_v2(
            expr,
            global_max_id,
            dag,
            schedule,
            ScopeMode::Branch,
            tags,
        ),
    }
}

} // verus!
