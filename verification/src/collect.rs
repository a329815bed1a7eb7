use std::collections::{HashMap, HashSet};

use vstd::prelude::*;

use crate::node::{node_eq, node_view, nodes_view, FuncArg, Node, OpKind, Tree};
use crate::scopes::{defined_in, defines};
use crate::visibility::refs_view;
use crate::walk::{
    lemma_node_count_prefix, lemma_prefix_step, node_count, node_count_seq, val_uses, val_uses_seq,
};

verus! {

broadcast use vstd::std_specs::hash::group_hash_axioms;

/// How many occurrences of `target` in `t` lie inside the condition of an
/// If (when `want_inside`) or outside every If condition (otherwise);
/// `inside` says whether `t` itself lies in one. Every sub-expression is
/// searched.
pub open spec fn if_cond_hits(t: Tree, target: Tree, inside: bool, want_inside: bool) -> nat
    decreases t,
{
    (if t == target && inside == want_inside {
        1nat
    } else {
        0nat
    }) + match t {
        Tree::ValDef { rhs, .. } => if_cond_hits(*rhs, target, inside, want_inside),
        Tree::ValUse { .. } => 0nat,
        Tree::Block { items, result } => if_cond_hits_seq(items, target, inside, want_inside)
            + if_cond_hits(*result, target, inside, want_inside),
        Tree::If { cond, then_branch, else_branch } => if_cond_hits(
            *cond,
            target,
            true,
            want_inside,
        ) + if_cond_hits(*then_branch, target, inside, want_inside) + if_cond_hits(
            *else_branch,
            target,
            inside,
            want_inside,
        ),
        Tree::Func { body, .. } => if_cond_hits(*body, target, inside, want_inside),
        Tree::Op { children, .. } => if_cond_hits_seq(children, target, inside, want_inside),
    }
}

pub open spec fn if_cond_hits_seq(s: Seq<Tree>, target: Tree, inside: bool, want_inside: bool) -> nat
    decreases s,
{
    if s.len() == 0 {
        0
    } else {
        if_cond_hits_seq(s.drop_last(), target, inside, want_inside) + if_cond_hits(
            s.last(),
            target,
            inside,
            want_inside,
        )
    }
}

proof fn lemma_hits_le_count(t: Tree, target: Tree, inside: bool, want_inside: bool)
    ensures
        if_cond_hits(t, target, inside, true) + if_cond_hits(t, target, inside, false)
            <= node_count(t),
    decreases t,
{
    match t {
        Tree::ValDef { rhs, .. } => lemma_hits_le_count(*rhs, target, inside, want_inside),
        Tree::ValUse { .. } => {},
        Tree::Block { items, result } => {
            lemma_hits_le_count_seq(items, target, inside);
            lemma_hits_le_count(*result, target, inside, want_inside);
        },
        Tree::If { cond, then_branch, else_branch } => {
            lemma_hits_le_count(*cond, target, true, want_inside);
            lemma_hits_le_count(*then_branch, target, inside, want_inside);
            lemma_hits_le_count(*else_branch, target, inside, want_inside);
        },
        Tree::Func { body, .. } => lemma_hits_le_count(*body, target, inside, want_inside),
        Tree::Op { children, .. } => lemma_hits_le_count_seq(children, target, inside),
    }
}

proof fn lemma_hits_le_count_seq(s: Seq<Tree>, target: Tree, inside: bool)
    ensures
        if_cond_hits_seq(s, target, inside, true) + if_cond_hits_seq(s, target, inside, false)
            <= node_count_seq(s),
    decreases s,
{
    if s.len() > 0 {
        lemma_hits_le_count_seq(s.drop_last(), target, inside);
        lemma_hits_le_count(s.last(), target, inside, true);
    }
}

fn count_in_if_cond_seq(v: &Vec<Node>, target: &Node, inside: bool) -> (r: (usize, usize))
    requires
        node_count_seq(nodes_view(v@)) <= usize::MAX,
    ensures
        r.0 == if_cond_hits_seq(nodes_view(v@), target@, inside, true),
        r.1 == if_cond_hits_seq(nodes_view(v@), target@, inside, false),
    decreases v@,
{
    let ghost s = nodes_view(v@);
    let mut a: usize = 0;
    let mut b: usize = 0;
    let mut i: usize = 0;
    while i < v.len()
        invariant
            0 <= i <= v@.len(),
            s == nodes_view(v@),
            s.len() == v@.len(),
            a == if_cond_hits_seq(s.subrange(0, i as int), target@, inside, true),
            b == if_cond_hits_seq(s.subrange(0, i as int), target@, inside, false),
            node_count_seq(s) <= usize::MAX,
        decreases v.len() - i,
    {
        assert(decreases_to!(v@ => v@[i as int]));
        proof {
            lemma_prefix_step(s, i as int);
            lemma_node_count_prefix(s, i + 1);
            lemma_hits_le_count_seq(s.subrange(0, i + 1), target@, inside);
            assert(s[i as int] == node_view(v@[i as int]));
        }
        let (c, d) = count_in_if_cond(&v[i], target, inside);
        a = a + c;
        b = b + d;
        i += 1;
    }
    assert(s.subrange(0, s.len() as int) == s);
    (a, b)
}

/// How many occurrences of `target` in `expr` lie inside an If condition
/// and how many outside, as `if_cond_hits` counts them.
pub fn count_in_if_cond(expr: &Node, target: &Node, inside_cond: bool) -> (r: (usize, usize))
    requires
        node_count(expr@) <= usize::MAX,
    ensures
        r.0 == if_cond_hits(expr@, target@, inside_cond, true),
        r.1 == if_cond_hits(expr@, target@, inside_cond, false),
    decreases expr,
{
    proof {
        lemma_hits_le_count(expr@, target@, inside_cond, true);
    }
    let hit = node_eq(expr, target);
    let a0: usize = if hit && inside_cond {
        1
    } else {
        0
    };
    let b0: usize = if hit && !inside_cond {
        1
    } else {
        0
    };
    match expr {
        Node::ValDef { id, rhs } => {
            assert(expr@ == Tree::ValDef { id: *id, rhs: Box::new(node_view(**rhs)) });
            let (c, d) = count_in_if_cond(rhs, target, inside_cond);
            (a0 + c, b0 + d)
        },
        Node::ValUse { .. } => (a0, b0),
        Node::Block { items, result } => {
            assert(expr@ == Tree::Block {
                items: nodes_view(items@),
                result: Box::new(node_view(**result)),
            });
            proof {
                lemma_hits_le_count_seq(nodes_view(items@), target@, inside_cond);
                lemma_hits_le_count(node_view(**result), target@, inside_cond, true);
            }
            let (c, d) = count_in_if_cond_seq(items, target, inside_cond);
            let (e, f) = count_in_if_cond(result, target, inside_cond);
            (a0 + c + e, b0 + d + f)
        },
        Node::If { cond, then_branch, else_branch } => {
            assert(expr@ == Tree::If {
                cond: Box::new(node_view(**cond)),
                then_branch: Box::new(node_view(**then_branch)),
                else_branch: Box::new(node_view(**else_branch)),
            });
            proof {
                lemma_hits_le_count(node_view(**cond), target@, true, true);
                lemma_hits_le_count(node_view(**then_branch), target@, inside_cond, true);
                lemma_hits_le_count(node_view(**else_branch), target@, inside_cond, true);
            }
            let (c1, d1) = count_in_if_cond(cond, target, true);
            let (c2, d2) = count_in_if_cond(then_branch, target, inside_cond);
            let (c3, d3) = count_in_if_cond(else_branch, target, inside_cond);
            (a0 + c1 + c2 + c3, b0 + d1 + d2 + d3)
        },
        Node::Func { args, body } => {
            assert(expr@ == Tree::Func { args: args@, body: Box::new(node_view(**body)) });
            let (c, d) = count_in_if_cond(body, target, inside_cond);
            (a0 + c, b0 + d)
        },
        Node::Op { kind, payload, children } => {
            assert(expr@ == Tree::Op {
                kind: *kind,
                payload: *payload,
                children: nodes_view(children@),
            });
            proof {
                lemma_hits_le_count_seq(nodes_view(children@), target@, inside_cond);
            }
            let (c, d) = count_in_if_cond_seq(children, target, inside_cond);
            (a0 + c, b0 + d)
        },
    }
}

/// `x` is the id of a ValDef that is an item of some block of `t`.
pub open spec fn block_item_id(t: Tree, x: u32) -> bool
    decreases t,
{
    match t {
        Tree::ValDef { rhs, .. } => block_item_id(*rhs, x),
        Tree::ValUse { .. } => false,
        Tree::Block { items, result } => defined_in(items, items.len() as int, x)
            || block_item_id_seq(items, x) || block_item_id(*result, x),
        Tree::If { cond, then_branch, else_branch } => block_item_id(*cond, x) || block_item_id(
            *then_branch,
            x,
        ) || block_item_id(*else_branch, x),
        Tree::Func { body, .. } => block_item_id(*body, x),
        Tree::Op { children, .. } => block_item_id_seq(children, x),
    }
}

pub open spec fn block_item_id_seq(s: Seq<Tree>, x: u32) -> bool
    decreases s,
{
    exists|i: int| 0 <= i < s.len() && block_item_id(s[i], x)
}

/// One of the first `n` trees of `s` has `x` as a block-item id.
pub open spec fn item_id_in_prefix(s: Seq<Tree>, n: int, x: u32) -> bool {
    exists|j: int| 0 <= j < n && #[trigger] block_item_id(s[j], x)
}

fn nested_ids_seq(v: &Vec<Node>, in_block: bool, ids: &mut HashSet<u32>)
    ensures
        forall|x: u32|
            final(ids)@.contains(x) <==> (old(ids)@.contains(x) || block_item_id_seq(
                nodes_view(v@),
                x,
            ) || (in_block && defined_in(nodes_view(v@), v@.len() as int, x))),
    decreases v@,
{
    let ghost start = ids@;
    let ghost s = nodes_view(v@);
    let mut i: usize = 0;
    while i < v.len()
        invariant
            0 <= i <= v@.len(),
            s == nodes_view(v@),
            forall|x: u32|
                ids@.contains(x) <==> (start.contains(x) || item_id_in_prefix(s, i as int, x) || (
                in_block && defined_in(s, i as int, x))),
        decreases v.len() - i,
    {
        assert(decreases_to!(v@ => v@[i as int]));
        assert(s[i as int] == node_view(v@[i as int]));
        let ghost before = ids@;
        assert(forall|x: u32|
            before.contains(x) <==> (start.contains(x) || item_id_in_prefix(s, i as int, x) || (
            in_block && defined_in(s, i as int, x))));
        if in_block {
            if let Node::ValDef { id, rhs } = &v[i] {
                assert(s[i as int] == Tree::ValDef { id: *id, rhs: Box::new(node_view(**rhs)) });
                ids.insert(*id);
            }
        }
        let ghost mid = ids@;
        assert(forall|x: u32|
            mid.contains(x) <==> (before.contains(x) || (in_block && defines(s[i as int], x))));
        collect_nested_block_val_ids(&v[i], ids);
        assert(forall|x: u32| ids@.contains(x) <==> (mid.contains(x) || block_item_id(s[i as int], x)));
        proof {
            assert forall|x: u32|
                ids@.contains(x) <==> (start.contains(x) || item_id_in_prefix(s, i + 1, x) || (
                in_block && defined_in(s, i + 1, x))) by {
                if item_id_in_prefix(s, i + 1, x) {
                    let j = choose|j: int| 0 <= j < i + 1 && #[trigger] block_item_id(s[j], x);
                    if j < i {
                        assert(item_id_in_prefix(s, i as int, x));
                    }
                }
                if in_block && defined_in(s, i + 1, x) {
                    let j = choose|j: int| 0 <= j < i + 1 && #[trigger] defines(s[j], x);
                    if j < i {
                        assert(defined_in(s, i as int, x));
                    }
                }
                if before.contains(x) {
                    if item_id_in_prefix(s, i as int, x) {
                        let j = choose|j: int| 0 <= j < i && #[trigger] block_item_id(s[j], x);
                        assert(block_item_id(s[j], x));
                    }
                    if in_block && defined_in(s, i as int, x) {
                        let j = choose|j: int| 0 <= j < i && #[trigger] defines(s[j], x);
                        assert(defines(s[j], x));
                    }
                }
                if block_item_id(s[i as int], x) {
                    assert(item_id_in_prefix(s, i + 1, x));
                }
                if in_block && defines(s[i as int], x) {
                    assert(defined_in(s, i + 1, x));
                }
            }
        }
        i += 1;
    }
    proof {
        assert forall|x: u32| item_id_in_prefix(s, s.len() as int, x) == block_item_id_seq(s, x) by {
            if block_item_id_seq(s, x) {
                let j = choose|j: int| 0 <= j < s.len() && block_item_id(s[j], x);
                assert(block_item_id(s[j], x));
            }
        }
    }
}

/// Adds to `ids` the ids of the ValDefs that are items of a block of
/// `expr`, as `block_item_id` says.
pub fn collect_nested_block_val_ids(expr: &Node, ids: &mut HashSet<u32>)
    ensures
        forall|x: u32|
            #![trigger final(ids)@.contains(x)]
            #![trigger old(ids)@.contains(x)]
            #![trigger block_item_id(expr@, x)]
            final(ids)@.contains(x) <==> (old(ids)@.contains(x) || block_item_id(expr@, x)),
    decreases expr,
{
    match expr {
        Node::ValDef { id, rhs } => {
            assert(expr@ == Tree::ValDef { id: *id, rhs: Box::new(node_view(**rhs)) });
            collect_nested_block_val_ids(rhs, ids);
        },
        Node::ValUse { .. } => {},
        Node::Block { items, result } => {
            assert(expr@ == Tree::Block {
                items: nodes_view(items@),
                result: Box::new(node_view(**result)),
            });
            nested_ids_seq(items, true, ids);
            collect_nested_block_val_ids(result, ids);
        },
        Node::If { cond, then_branch, else_branch } => {
            assert(expr@ == Tree::If {
                cond: Box::new(node_view(**cond)),
                then_branch: Box::new(node_view(**then_branch)),
                else_branch: Box::new(node_view(**else_branch)),
            });
            collect_nested_block_val_ids(cond, ids);
            collect_nested_block_val_ids(then_branch, ids);
            collect_nested_block_val_ids(else_branch, ids);
        },
        Node::Func { args, body } => {
            assert(expr@ == Tree::Func { args: args@, body: Box::new(node_view(**body)) });
            collect_nested_block_val_ids(body, ids);
        },
        Node::Op { kind, payload, children } => {
            assert(expr@ == Tree::Op {
                kind: *kind,
                payload: *payload,
                children: nodes_view(children@),
            });
            nested_ids_seq(children, false, ids);
        },
    }
}


/// `t` is a structural parent: a `BoolToSigmaProp`, `SigmaAnd`, `SigmaOr`
/// or If.
pub open spec fn structural_parent(t: Tree) -> bool {
    match t {
        Tree::If { .. } => true,
        Tree::Op { kind, .. } => kind == OpKind::BoolToSigmaProp || kind == OpKind::SigmaAnd
            || kind == OpKind::SigmaOr,
        _ => false,
    }
}

/// The structural parents of `t`, in preorder.
pub open spec fn structural_parents(t: Tree) -> Seq<Tree>
    decreases t,
{
    (if structural_parent(t) {
        seq![t]
    } else {
        Seq::empty()
    }) + match t {
        Tree::ValDef { rhs, .. } => structural_parents(*rhs),
        Tree::ValUse { .. } => Seq::empty(),
        Tree::Block { items, result } => structural_parents_seq(items) + structural_parents(
            *result,
        ),
        Tree::If { cond, then_branch, else_branch } => structural_parents(*cond)
            + structural_parents(*then_branch) + structural_parents(*else_branch),
        Tree::Func { body, .. } => structural_parents(*body),
        Tree::Op { children, .. } => structural_parents_seq(children),
    }
}

pub open spec fn structural_parents_seq(s: Seq<Tree>) -> Seq<Tree>
    decreases s,
{
    if s.len() == 0 {
        Seq::empty()
    } else {
        structural_parents_seq(s.drop_last()) + structural_parents(s.last())
    }
}

fn structural_parents_walk_seq<'a>(v: &'a Vec<Node>, out: &mut Vec<&'a Node>)
    ensures
        refs_view(final(out)@) == refs_view(old(out)@) + structural_parents_seq(nodes_view(v@)),
    decreases v@,
{
    let ghost s = nodes_view(v@);
    let ghost start = refs_view(out@);
    let mut i: usize = 0;
    while i < v.len()
        invariant
            0 <= i <= v@.len(),
            s == nodes_view(v@),
            refs_view(out@) == start + structural_parents_seq(s.subrange(0, i as int)),
        decreases v.len() - i,
    {
        assert(decreases_to!(v@ => v@[i as int]));
        assert(s[i as int] == node_view(v@[i as int]));
        proof {
            lemma_prefix_step(s, i as int);
        }
        collect_structural_parents(&v[i], out);
        assert(refs_view(out@) =~= start + structural_parents_seq(s.subrange(0, i + 1)));
        i += 1;
    }
    assert(s.subrange(0, s.len() as int) == s);
}

/// Appends to `out` the structural parents of `expr`, in preorder.
pub fn collect_structural_parents<'a>(expr: &'a Node, out: &mut Vec<&'a Node>)
    ensures
        refs_view(final(out)@) == refs_view(old(out)@) + structural_parents(expr@),
    decreases expr,
{
    let ghost start = refs_view(out@);
    match expr {
        Node::ValDef { id, rhs } => {
            assert(expr@ == Tree::ValDef { id: *id, rhs: Box::new(node_view(**rhs)) });
            collect_structural_parents(rhs, out);
        },
        Node::ValUse { id, tpe } => {
            assert(expr@ == Tree::ValUse { id: *id, tpe: *tpe });
        },
        Node::Block { items, result } => {
            assert(expr@ == Tree::Block {
                items: nodes_view(items@),
                result: Box::new(node_view(**result)),
            });
            structural_parents_walk_seq(items, out);
            collect_structural_parents(result, out);
        },
        Node::If { cond, then_branch, else_branch } => {
            assert(expr@ == Tree::If {
                cond: Box::new(node_view(**cond)),
                then_branch: Box::new(node_view(**then_branch)),
                else_branch: Box::new(node_view(**else_branch)),
            });
            out.push(expr);
            assert(refs_view(out@) =~= start + seq![expr@]);
            collect_structural_parents(cond, out);
            collect_structural_parents(then_branch, out);
            collect_structural_parents(else_branch, out);
        },
        Node::Func { args, body } => {
            assert(expr@ == Tree::Func { args: args@, body: Box::new(node_view(**body)) });
            collect_structural_parents(body, out);
        },
        Node::Op { kind, payload, children } => {
            assert(expr@ == Tree::Op {
                kind: *kind,
                payload: *payload,
                children: nodes_view(children@),
            });
            if *kind == OpKind::BoolToSigmaProp || *kind == OpKind::SigmaAnd || *kind
                == OpKind::SigmaOr {
                out.push(expr);
                assert(refs_view(out@) =~= start + seq![expr@]);
            }
            structural_parents_walk_seq(children, out);
        },
    }
    assert(refs_view(out@) =~= start + structural_parents(expr@));
}


/// How many times `k` occurs in `s`.
pub open spec fn id_count(s: Seq<u32>, k: u32) -> nat
    decreases s.len(),
{
    if s.len() == 0 {
        0
    } else {
        id_count(s.drop_last(), k) + (if s.last() == k {
            1nat
        } else {
            0nat
        })
    }
}

/// The count a map holds for `k`; 0 when it has none.
pub open spec fn counted(m: Map<u32, usize>, k: u32) -> nat {
    if m.contains_key(k) {
        m[k] as nat
    } else {
        0
    }
}

/// `m1` is `m0` with one more count of `k` for each occurrence of `k` in
/// `s`.
pub open spec fn counts_added(m0: Map<u32, usize>, m1: Map<u32, usize>, s: Seq<u32>) -> bool {
    &&& forall|k: u32| #[trigger] m1.contains_key(k) <==> (m0.contains_key(k) || id_count(s, k) > 0)
    &&& forall|k: u32| #[trigger] counted(m1, k) == counted(m0, k) + id_count(s, k)
}

/// `m` has room for one more count of `k` for each occurrence in `s`.
pub open spec fn counts_fit(m: Map<u32, usize>, s: Seq<u32>) -> bool {
    forall|k: u32| #[trigger] counted(m, k) + id_count(s, k) <= usize::MAX
}

proof fn lemma_id_count_concat(a: Seq<u32>, b: Seq<u32>, k: u32)
    ensures
        id_count(a + b, k) == id_count(a, k) + id_count(b, k),
    decreases b.len(),
{
    if b.len() == 0 {
        assert(a + b =~= a);
    } else {
        assert((a + b).drop_last() =~= a + b.drop_last());
        lemma_id_count_concat(a, b.drop_last(), k);
    }
}

proof fn lemma_counts_chain(
    m0: Map<u32, usize>,
    m1: Map<u32, usize>,
    m2: Map<u32, usize>,
    a: Seq<u32>,
    b: Seq<u32>,
)
    requires
        counts_added(m0, m1, a),
        counts_added(m1, m2, b),
    ensures
        counts_added(m0, m2, a + b),
{
    assert forall|k: u32| #[trigger] counted(m2, k) == counted(m0, k) + id_count(a + b, k) by {
        lemma_id_count_concat(a, b, k);
        assert(counted(m1, k) == counted(m0, k) + id_count(a, k));
        assert(counted(m2, k) == counted(m1, k) + id_count(b, k));
    }
    assert forall|k: u32| #[trigger] m2.contains_key(k) <==> (m0.contains_key(k) || id_count(
        a + b,
        k,
    ) > 0) by {
        lemma_id_count_concat(a, b, k);
        assert(m1.contains_key(k) <==> (m0.contains_key(k) || id_count(a, k) > 0));
        assert(m2.contains_key(k) <==> (m1.contains_key(k) || id_count(b, k) > 0));
    }
}

proof fn lemma_counts_fit_split(m: Map<u32, usize>, a: Seq<u32>, b: Seq<u32>)
    requires
        counts_fit(m, a + b),
    ensures
        counts_fit(m, a),
{
    assert forall|k: u32| #[trigger] counted(m, k) + id_count(a, k) <= usize::MAX by {
        lemma_id_count_concat(a, b, k);
        assert(counted(m, k) + id_count(a + b, k) <= usize::MAX);
    }
}

proof fn lemma_counts_fit_rest(m0: Map<u32, usize>, m1: Map<u32, usize>, a: Seq<u32>, b: Seq<u32>)
    requires
        counts_fit(m0, a + b),
        counts_added(m0, m1, a),
    ensures
        counts_fit(m1, b),
{
    assert forall|k: u32| #[trigger] counted(m1, k) + id_count(b, k) <= usize::MAX by {
        lemma_id_count_concat(a, b, k);
        assert(counted(m0, k) + id_count(a + b, k) <= usize::MAX);
        assert(counted(m1, k) == counted(m0, k) + id_count(a, k));
    }
}

proof fn lemma_counts_none(m: Map<u32, usize>)
    ensures
        counts_added(m, m, Seq::<u32>::empty()),
{
    assert forall|k: u32| #[trigger] counted(m, k) == counted(m, k) + id_count(
        Seq::<u32>::empty(),
        k,
    ) by {}
    assert forall|k: u32| #[trigger] m.contains_key(k) <==> (m.contains_key(k) || id_count(
        Seq::<u32>::empty(),
        k,
    ) > 0) by {}
}

fn count_val_uses_seq(v: &Vec<Node>, counts: &mut HashMap<u32, usize>)
    requires
        counts_fit(old(counts)@, val_uses_seq(nodes_view(v@))),
    ensures
        counts_added(old(counts)@, final(counts)@, val_uses_seq(nodes_view(v@))),
    decreases v@,
{
    let ghost s = nodes_view(v@);
    let ghost m0 = counts@;
    proof {
        lemma_counts_none(m0);
        assert(s.subrange(0, 0) =~= Seq::<Tree>::empty());
    }
    let mut i: usize = 0;
    while i < v.len()
        invariant
            0 <= i <= v@.len(),
            s == nodes_view(v@),
            counts_fit(m0, val_uses_seq(s)),
            counts_added(m0, counts@, val_uses_seq(s.subrange(0, i as int))),
        decreases v.len() - i,
    {
        assert(decreases_to!(v@ => v@[i as int]));
        assert(s[i as int] == node_view(v@[i as int]));
        let ghost m_mid = counts@;
        let ghost pre = val_uses_seq(s.subrange(0, i as int));
        let ghost here = val_uses(s[i as int]);
        proof {
            lemma_prefix_step(s, i as int);
            lemma_val_uses_prefix(s, i + 1);
            assert(val_uses_seq(s.subrange(0, i + 1)) == pre + here);
            let rest = val_uses_seq(s).subrange(
                (pre + here).len() as int,
                val_uses_seq(s).len() as int,
            );
            assert(val_uses_seq(s) =~= (pre + here) + rest);
            lemma_counts_fit_split(m0, pre + here, rest);
            assert(pre + here =~= pre + here);
            lemma_counts_fit_rest(m0, m_mid, pre, here);
        }
        count_val_uses_in(&v[i], counts);
        proof {
            lemma_counts_chain(m0, m_mid, counts@, pre, here);
        }
        i += 1;
    }
    assert(s.subrange(0, s.len() as int) =~= s);
}

proof fn lemma_val_uses_prefix(s: Seq<Tree>, i: int)
    requires
        0 <= i <= s.len(),
    ensures
        val_uses_seq(s.subrange(0, i)).len() <= val_uses_seq(s).len(),
        val_uses_seq(s) =~= val_uses_seq(s.subrange(0, i)) + val_uses_seq(s).subrange(
            val_uses_seq(s.subrange(0, i)).len() as int,
            val_uses_seq(s).len() as int,
        ),
    decreases s.len(),
{
    if i < s.len() {
        assert(s.subrange(0, i) == s.drop_last().subrange(0, i));
        lemma_val_uses_prefix(s.drop_last(), i);
    } else {
        assert(s.subrange(0, i) == s);
    }
}

/// Adds to `counts` one for each ValUse of `expr` under its id.
pub fn count_val_uses_in(expr: &Node, counts: &mut HashMap<u32, usize>)
    requires
        counts_fit(old(counts)@, val_uses(expr@)),
    ensures
        counts_added(old(counts)@, final(counts)@, val_uses(expr@)),
    decreases expr,
{
    let ghost m0 = counts@;
    match expr {
        Node::ValUse { id, tpe } => {
            assert(expr@ == Tree::ValUse { id: *id, tpe: *tpe });
            let ghost one = seq![*id];
            assert(one.drop_last() =~= Seq::<u32>::empty());
            assert(counted(m0, *id) + id_count(one, *id) <= usize::MAX);
            let c: usize = match counts.get(id) {
                Some(v) => *v,
                None => 0,
            };
            assert(c == counted(m0, *id));
            counts.insert(*id, c + 1);
            proof {
                assert forall|k: u32| #[trigger] counted(counts@, k) == counted(m0, k) + id_count(
                    one,
                    k,
                ) by {
                    assert(id_count(Seq::<u32>::empty(), k) == 0);
                }
                assert forall|k: u32| #[trigger] counts@.contains_key(k) <==> (m0.contains_key(k)
                    || id_count(one, k) > 0) by {
                    assert(id_count(Seq::<u32>::empty(), k) == 0);
                }
            }
        },
        Node::ValDef { id, rhs } => {
            assert(expr@ == Tree::ValDef { id: *id, rhs: Box::new(node_view(**rhs)) });
            count_val_uses_in(rhs, counts);
        },
        Node::Block { items, result } => {
            assert(expr@ == Tree::Block {
                items: nodes_view(items@),
                result: Box::new(node_view(**result)),
            });
            let ghost a = val_uses_seq(nodes_view(items@));
            let ghost b = val_uses(node_view(**result));
            proof {
                lemma_counts_fit_split(m0, a, b);
            }
            count_val_uses_seq(items, counts);
            let ghost m1 = counts@;
            proof {
                lemma_counts_fit_rest(m0, m1, a, b);
            }
            count_val_uses_in(result, counts);
            proof {
                lemma_counts_chain(m0, m1, counts@, a, b);
            }
        },
        Node::If { cond, then_branch, else_branch } => {
            assert(expr@ == Tree::If {
                cond: Box::new(node_view(**cond)),
                then_branch: Box::new(node_view(**then_branch)),
                else_branch: Box::new(node_view(**else_branch)),
            });
            let ghost a = val_uses(node_view(**cond));
            let ghost b = val_uses(node_view(**then_branch));
            let ghost c = val_uses(node_view(**else_branch));
            proof {
                lemma_counts_fit_split(m0, a + b, c);
                lemma_counts_fit_split(m0, a, b);
            }
            count_val_uses_in(cond, counts);
            let ghost m1 = counts@;
            proof {
                lemma_counts_fit_rest(m0, m1, a, b);
            }
            count_val_uses_in(then_branch, counts);
            let ghost m2 = counts@;
            proof {
                lemma_counts_chain(m0, m1, m2, a, b);
                lemma_counts_fit_rest(m0, m2, a + b, c);
            }
            count_val_uses_in(else_branch, counts);
            proof {
                lemma_counts_chain(m0, m2, counts@, a + b, c);
            }
        },
        Node::Func { args, body } => {
            assert(expr@ == Tree::Func { args: args@, body: Box::new(node_view(**body)) });
            count_val_uses_in(body, counts);
        },
        Node::Op { kind, payload, children } => {
            assert(expr@ == Tree::Op {
                kind: *kind,
                payload: *payload,
                children: nodes_view(children@),
            });
            count_val_uses_seq(children, counts);
        },
    }
}


/// The ids in a scope list, as a set.
pub open spec fn scope_set(s: Seq<u32>) -> Set<u32> {
    Set::new(|x: u32| s.contains(x))
}

/// The ids of a FuncValue's arguments.
pub open spec fn arg_ids(args: Seq<FuncArg>) -> Set<u32> {
    Set::new(|x: u32| exists|i: int| 0 <= i < args.len() && #[trigger] args[i].id == x)
}

/// The ValUses of `t` whose id is not in scope: `scope` at `t`; in a block,
/// each ValDef item's right-hand side sees the ids of the items before it
/// and the result sees them all; a FuncValue body also sees the arguments.
pub open spec fn orphans(t: Tree, scope: Set<u32>) -> nat
    decreases t,
{
    match t {
        Tree::ValUse { id, .. } => if scope.contains(id) {
            0
        } else {
            1
        },
        Tree::ValDef { rhs, .. } => orphans(*rhs, scope),
        Tree::Block { items, result } => {
            let (n, sc) = orphan_items(items, scope);
            n + orphans(*result, sc)
        },
        Tree::If { cond, then_branch, else_branch } => orphans(*cond, scope) + orphans(
            *then_branch,
            scope,
        ) + orphans(*else_branch, scope),
        Tree::Func { args, body } => orphans(*body, scope.union(arg_ids(args))),
        Tree::Op { children, .. } => orphans_seq(children, scope),
    }
}

/// The orphans of a block's items, and the scope after them.
pub open spec fn orphan_items(items: Seq<Tree>, scope: Set<u32>) -> (nat, Set<u32>)
    decreases items,
{
    if items.len() == 0 {
        (0, scope)
    } else {
        let (n, sc) = orphan_items(items.drop_last(), scope);
        match items.last() {
            Tree::ValDef { id, rhs } => (n + orphans(*rhs, sc), sc.insert(id)),
            _ => (n + orphans(items.last(), sc), sc),
        }
    }
}

pub open spec fn orphans_seq(s: Seq<Tree>, scope: Set<u32>) -> nat
    decreases s,
{
    if s.len() == 0 {
        0
    } else {
        orphans_seq(s.drop_last(), scope) + orphans(s.last(), scope)
    }
}

proof fn lemma_orphans_le(t: Tree, scope: Set<u32>)
    ensures
        orphans(t, scope) <= node_count(t),
    decreases t,
{
    match t {
        Tree::ValUse { .. } => {},
        Tree::ValDef { rhs, .. } => lemma_orphans_le(*rhs, scope),
        Tree::Block { items, result } => {
            lemma_orphan_items_le(items, scope);
            let (n, sc) = orphan_items(items, scope);
            lemma_orphans_le(*result, sc);
        },
        Tree::If { cond, then_branch, else_branch } => {
            lemma_orphans_le(*cond, scope);
            lemma_orphans_le(*then_branch, scope);
            lemma_orphans_le(*else_branch, scope);
        },
        Tree::Func { args, body } => lemma_orphans_le(*body, scope.union(arg_ids(args))),
        Tree::Op { children, .. } => lemma_orphans_seq_le(children, scope),
    }
}

proof fn lemma_orphan_items_le(items: Seq<Tree>, scope: Set<u32>)
    ensures
        orphan_items(items, scope).0 <= node_count_seq(items),
    decreases items,
{
    if items.len() > 0 {
        let init = items.drop_last();
        let last = items.last();
        lemma_orphan_items_le(init, scope);
        let sc = orphan_items(init, scope).1;
        assert(node_count_seq(items) == node_count_seq(init) + node_count(last));
        match last {
            Tree::ValDef { id, rhs } => {
                lemma_orphans_le(*rhs, sc);
                assert(node_count(last) == 1 + node_count(*rhs));
                assert(orphan_items(items, scope).0 == orphan_items(init, scope).0 + orphans(
                    *rhs,
                    sc,
                ));
            },
            _ => {
                lemma_orphans_le(last, sc);
                assert(orphan_items(items, scope).0 == orphan_items(init, scope).0 + orphans(
                    last,
                    sc,
                ));
            },
        }
    }
}

proof fn lemma_orphans_seq_le(s: Seq<Tree>, scope: Set<u32>)
    ensures
        orphans_seq(s, scope) <= node_count_seq(s),
    decreases s,
{
    if s.len() > 0 {
        lemma_orphans_seq_le(s.drop_last(), scope);
        lemma_orphans_le(s.last(), scope);
    }
}

fn scope_contains(scope: &Vec<u32>, x: u32) -> (r: bool)
    ensures
        r == scope@.contains(x),
{
    let mut i: usize = 0;
    while i < scope.len()
        invariant
            0 <= i <= scope@.len(),
            forall|j: int| 0 <= j < i ==> scope@[j] != x,
        decreases scope.len() - i,
    {
        if scope[i] == x {
            assert(scope@[i as int] == x);
            return true;
        }
        i += 1;
    }
    false
}

fn copy_scope(scope: &Vec<u32>) -> (r: Vec<u32>)
    ensures
        r@ == scope@,
{
    let mut r: Vec<u32> = Vec::new();
    let mut i: usize = 0;
    while i < scope.len()
        invariant
            0 <= i <= scope@.len(),
            r@ == scope@.subrange(0, i as int),
        decreases scope.len() - i,
    {
        r.push(scope[i]);
        assert(r@ =~= scope@.subrange(0, i + 1));
        i += 1;
    }
    assert(r@ =~= scope@);
    r
}

/// Adds to `count` the orphan ValUses of `expr` under the ids of `scope`, as
/// `orphans` counts them.
pub fn walk_orphan(expr: &Node, scope: &Vec<u32>, count: &mut usize)
    requires
        *old(count) + node_count(expr@) <= usize::MAX,
    ensures
        *final(count) == *old(count) + orphans(expr@, scope_set(scope@)),
    decreases expr,
{
    match expr {
        Node::ValUse { id, tpe } => {
            assert(expr@ == Tree::ValUse { id: *id, tpe: *tpe });
            if !scope_contains(scope, *id) {
                *count = *count + 1;
            }
        },
        Node::ValDef { id, rhs } => {
            assert(expr@ == Tree::ValDef { id: *id, rhs: Box::new(node_view(**rhs)) });
            walk_orphan(rhs, scope, count);
        },
        Node::Block { items, result } => {
            let ghost s = nodes_view(items@);
            assert(expr@ == Tree::Block { items: s, result: Box::new(node_view(**result)) });
            proof {
                lemma_orphan_items_le(s, scope_set(scope@));
            }
            let mut block_scope = copy_scope(scope);
            walk_orphan_items(items, &mut block_scope, count);
            walk_orphan(result, &block_scope, count);
        },
        Node::If { cond, then_branch, else_branch } => {
            assert(expr@ == Tree::If {
                cond: Box::new(node_view(**cond)),
                then_branch: Box::new(node_view(**then_branch)),
                else_branch: Box::new(node_view(**else_branch)),
            });
            proof {
                lemma_orphans_le(node_view(**cond), scope_set(scope@));
                lemma_orphans_le(node_view(**then_branch), scope_set(scope@));
            }
            walk_orphan(cond, scope, count);
            walk_orphan(then_branch, scope, count);
            walk_orphan(else_branch, scope, count);
        },
        Node::Func { args, body } => {
            assert(expr@ == Tree::Func { args: args@, body: Box::new(node_view(**body)) });
            let body_scope = func_scope(scope, args);
            walk_orphan(body, &body_scope, count);
        },
        Node::Op { kind, payload, children } => {
            assert(expr@ == Tree::Op {
                kind: *kind,
                payload: *payload,
                children: nodes_view(children@),
            });
            walk_orphan_seq(children, scope, count);
        },
    }
}

/// Walks a block's items in order: each ValDef's right-hand side sees the
/// ids before it, and its own id then enters `scope`.
fn walk_orphan_items(items: &Vec<Node>, scope: &mut Vec<u32>, count: &mut usize)
    requires
        *old(count) + node_count_seq(nodes_view(items@)) <= usize::MAX,
    ensures
        *final(count) == *old(count) + orphan_items(nodes_view(items@), scope_set(old(scope)@)).0,
        scope_set(final(scope)@) == orphan_items(nodes_view(items@), scope_set(old(scope)@)).1,
    decreases items@,
{
    let ghost s = nodes_view(items@);
    let ghost sc0 = scope_set(scope@);
    let ghost c0 = *count;
    let mut i: usize = 0;
    assert(s.subrange(0, 0) =~= Seq::<Tree>::empty());
    while i < items.len()
        invariant
            0 <= i <= items@.len(),
            s == nodes_view(items@),
            *count == c0 + orphan_items(s.subrange(0, i as int), sc0).0,
            scope_set(scope@) == orphan_items(s.subrange(0, i as int), sc0).1,
            c0 + node_count_seq(s) <= usize::MAX,
        decreases items.len() - i,
    {
        assert(decreases_to!(items@ => items@[i as int]));
        let ghost pre = s.subrange(0, i as int);
        let ghost nxt = s.subrange(0, i + 1);
        proof {
            lemma_prefix_step(s, i as int);
            assert(s[i as int] == node_view(items@[i as int]));
            lemma_orphan_items_le(pre, sc0);
            lemma_node_count_prefix(s, i + 1);
            assert(node_count_seq(nxt) == node_count_seq(pre) + node_count(s[i as int]));
        }
        let ghost sc_before = scope@;
        match &items[i] {
            Node::ValDef { id, rhs } => {
                assert(s[i as int] == Tree::ValDef { id: *id, rhs: Box::new(node_view(**rhs)) });
                walk_orphan(rhs, scope, count);
                scope.push(*id);
                proof {
                    lemma_scope_push(sc_before, *id);
                }
            },
            other => {
                assert(!(s[i as int] is ValDef));
                walk_orphan(other, scope, count);
            },
        }
        i += 1;
    }
    assert(s.subrange(0, s.len() as int) =~= s);
}

/// Walks each of `children` under the same `scope`.
fn walk_orphan_seq(children: &Vec<Node>, scope: &Vec<u32>, count: &mut usize)
    requires
        *old(count) + node_count_seq(nodes_view(children@)) <= usize::MAX,
    ensures
        *final(count) == *old(count) + orphans_seq(nodes_view(children@), scope_set(scope@)),
    decreases children@,
{
    let ghost s = nodes_view(children@);
    let ghost c0 = *count;
    let mut i: usize = 0;
    assert(s.subrange(0, 0) =~= Seq::<Tree>::empty());
    while i < children.len()
        invariant
            0 <= i <= children@.len(),
            s == nodes_view(children@),
            *count == c0 + orphans_seq(s.subrange(0, i as int), scope_set(scope@)),
            c0 + node_count_seq(s) <= usize::MAX,
        decreases children.len() - i,
    {
        assert(decreases_to!(children@ => children@[i as int]));
        proof {
            lemma_prefix_step(s, i as int);
            assert(s[i as int] == node_view(children@[i as int]));
            lemma_orphans_seq_le(s.subrange(0, i as int), scope_set(scope@));
            lemma_node_count_prefix(s, i + 1);
            assert(node_count_seq(s.subrange(0, i + 1)) == node_count_seq(s.subrange(0, i as int))
                + node_count(s[i as int]));
        }
        walk_orphan(&children[i], scope, count);
        i += 1;
    }
    assert(s.subrange(0, s.len() as int) =~= s);
}

/// The number of orphan ValUses of `expr` from an empty scope.
pub fn count_orphan_valuses(expr: &Node) -> (r: usize)
    requires
        node_count(expr@) <= usize::MAX,
    ensures
        r == orphans(expr@, Set::empty()),
{
    let mut count: usize = 0;
    let scope: Vec<u32> = Vec::new();
    assert(scope_set(scope@) =~= Set::<u32>::empty());
    walk_orphan(expr, &scope, &mut count);
    count
}


/// The ids of the ValUses that `orphans` counts, in source order.
pub open spec fn orphan_ids(t: Tree, scope: Set<u32>) -> Seq<u32>
    decreases t,
{
    match t {
        Tree::ValUse { id, .. } => if scope.contains(id) {
            Seq::empty()
        } else {
            seq![id]
        },
        Tree::ValDef { rhs, .. } => orphan_ids(*rhs, scope),
        Tree::Block { items, result } => {
            let (ids, sc) = orphan_id_items(items, scope);
            ids + orphan_ids(*result, sc)
        },
        Tree::If { cond, then_branch, else_branch } => orphan_ids(*cond, scope) + orphan_ids(
            *then_branch,
            scope,
        ) + orphan_ids(*else_branch, scope),
        Tree::Func { args, body } => orphan_ids(*body, scope.union(arg_ids(args))),
        Tree::Op { children, .. } => orphan_ids_seq(children, scope),
    }
}

/// The orphan ids of a block's items, and the scope after them.
pub open spec fn orphan_id_items(items: Seq<Tree>, scope: Set<u32>) -> (Seq<u32>, Set<u32>)
    decreases items,
{
    if items.len() == 0 {
        (Seq::empty(), scope)
    } else {
        let (ids, sc) = orphan_id_items(items.drop_last(), scope);
        match items.last() {
            Tree::ValDef { id, rhs } => (ids + orphan_ids(*rhs, sc), sc.insert(id)),
            _ => (ids + orphan_ids(items.last(), sc), sc),
        }
    }
}

pub open spec fn orphan_ids_seq(s: Seq<Tree>, scope: Set<u32>) -> Seq<u32>
    decreases s,
{
    if s.len() == 0 {
        Seq::empty()
    } else {
        orphan_ids_seq(s.drop_last(), scope) + orphan_ids(s.last(), scope)
    }
}

/// The number of orphan ValUses is the number of orphan ids listed.
pub proof fn law_orphan_count_is_orphan_ids_len(t: Tree, scope: Set<u32>)
    ensures
        orphans(t, scope) == orphan_ids(t, scope).len(),
    decreases t,
{
    match t {
        Tree::ValUse { .. } => {},
        Tree::ValDef { rhs, .. } => law_orphan_count_is_orphan_ids_len(*rhs, scope),
        Tree::Block { items, result } => {
            lemma_orphan_items_len(items, scope);
            law_orphan_count_is_orphan_ids_len(*result, orphan_items(items, scope).1);
        },
        Tree::If { cond, then_branch, else_branch } => {
            law_orphan_count_is_orphan_ids_len(*cond, scope);
            law_orphan_count_is_orphan_ids_len(*then_branch, scope);
            law_orphan_count_is_orphan_ids_len(*else_branch, scope);
        },
        Tree::Func { args, body } => law_orphan_count_is_orphan_ids_len(
            *body,
            scope.union(arg_ids(args)),
        ),
        Tree::Op { children, .. } => lemma_orphans_seq_len(children, scope),
    }
}

proof fn lemma_orphan_items_len(items: Seq<Tree>, scope: Set<u32>)
    ensures
        orphan_items(items, scope).0 == orphan_id_items(items, scope).0.len(),
        orphan_items(items, scope).1 == orphan_id_items(items, scope).1,
    decreases items,
{
    if items.len() > 0 {
        let init = items.drop_last();
        lemma_orphan_items_len(init, scope);
        let sc = orphan_items(init, scope).1;
        match items.last() {
            Tree::ValDef { id, rhs } => {
                law_orphan_count_is_orphan_ids_len(*rhs, sc);
            },
            _ => {
                law_orphan_count_is_orphan_ids_len(items.last(), sc);
            },
        }
    }
}

proof fn lemma_orphans_seq_len(s: Seq<Tree>, scope: Set<u32>)
    ensures
        orphans_seq(s, scope) == orphan_ids_seq(s, scope).len(),
    decreases s,
{
    if s.len() > 0 {
        lemma_orphans_seq_len(s.drop_last(), scope);
        law_orphan_count_is_orphan_ids_len(s.last(), scope);
    }
}

/// Appends to `out` the orphan ids of `expr` under the ids of `scope`, as
/// `orphan_ids` lists them.
pub fn collect_orphan_ids(expr: &Node, scope: &Vec<u32>, out: &mut Vec<u32>)
    ensures
        final(out)@ == old(out)@ + orphan_ids(expr@, scope_set(scope@)),
    decreases expr,
{
    let ghost o0 = out@;
    match expr {
        Node::ValUse { id, tpe } => {
            assert(expr@ == Tree::ValUse { id: *id, tpe: *tpe });
            if !scope_contains(scope, *id) {
                out.push(*id);
            }
            assert(out@ =~= o0 + orphan_ids(expr@, scope_set(scope@)));
        },
        Node::ValDef { id, rhs } => {
            assert(expr@ == Tree::ValDef { id: *id, rhs: Box::new(node_view(**rhs)) });
            collect_orphan_ids(rhs, scope, out);
        },
        Node::Block { items, result } => {
            let ghost s = nodes_view(items@);
            assert(expr@ == Tree::Block { items: s, result: Box::new(node_view(**result)) });
            let mut block_scope = copy_scope(scope);
            collect_orphan_id_items(items, &mut block_scope, out);
            let ghost mid = out@;
            collect_orphan_ids(result, &block_scope, out);
            assert(out@ =~= o0 + orphan_ids(expr@, scope_set(scope@)));
        },
        Node::If { cond, then_branch, else_branch } => {
            assert(expr@ == Tree::If {
                cond: Box::new(node_view(**cond)),
                then_branch: Box::new(node_view(**then_branch)),
                else_branch: Box::new(node_view(**else_branch)),
            });
            collect_orphan_ids(cond, scope, out);
            collect_orphan_ids(then_branch, scope, out);
            collect_orphan_ids(else_branch, scope, out);
            assert(out@ =~= o0 + orphan_ids(expr@, scope_set(scope@)));
        },
        Node::Func { args, body } => {
            assert(expr@ == Tree::Func { args: args@, body: Box::new(node_view(**body)) });
            let body_scope = func_scope(scope, args);
            collect_orphan_ids(body, &body_scope, out);
        },
        Node::Op { kind, payload, children } => {
            assert(expr@ == Tree::Op {
                kind: *kind,
                payload: *payload,
                children: nodes_view(children@),
            });
            collect_orphan_ids_seq(children, scope, out);
        },
    }
}

/// `scope` followed by the ids of `args`.
fn func_scope(scope: &Vec<u32>, args: &Vec<FuncArg>) -> (r: Vec<u32>)
    ensures
        scope_set(r@) == scope_set(scope@).union(arg_ids(args@)),
{
    let ghost sc0 = scope@;
    let mut body_scope = copy_scope(scope);
    let mut i: usize = 0;
    while i < args.len()
        invariant
            0 <= i <= args@.len(),
            body_scope@ == sc0 + Seq::new(i as nat, |j: int| args@[j].id),
        decreases args.len() - i,
    {
        body_scope.push(args[i].id);
        assert(body_scope@ =~= sc0 + Seq::new((i + 1) as nat, |j: int| args@[j].id));
        i += 1;
    }
    proof {
        assert forall|x: u32| #[trigger] scope_set(body_scope@).contains(x) == scope_set(
            sc0,
        ).union(arg_ids(args@)).contains(x) by {
            if scope_set(body_scope@).contains(x) {
                let j = choose|j: int| 0 <= j < body_scope@.len() && body_scope@[j] == x;
                if j >= sc0.len() {
                    assert(args@[j - sc0.len()].id == x);
                } else {
                    assert(sc0[j] == x);
                }
            }
            if arg_ids(args@).contains(x) {
                let j = choose|j: int| 0 <= j < args@.len() && #[trigger] args@[j].id == x;
                assert(body_scope@[sc0.len() + j] == x);
            }
            if sc0.contains(x) {
                let j = choose|j: int| 0 <= j < sc0.len() && sc0[j] == x;
                assert(body_scope@[j] == x);
            }
        }
        assert(scope_set(body_scope@) =~= scope_set(sc0).union(arg_ids(args@)));
    }
    body_scope
}

proof fn lemma_scope_push(before: Seq<u32>, x: u32)
    ensures
        scope_set(before.push(x)) == scope_set(before).insert(x),
{
    let after = before.push(x);
    assert forall|y: u32| #[trigger] scope_set(after).contains(y) == scope_set(before).insert(
        x,
    ).contains(y) by {
        if after.contains(y) {
            let j = choose|j: int| 0 <= j < after.len() && after[j] == y;
            if j < before.len() {
                assert(before[j] == y);
            }
        }
        if before.contains(y) {
            let j = choose|j: int| 0 <= j < before.len() && before[j] == y;
            assert(after[j] == y);
        }
        if y == x {
            assert(after[before.len() as int] == y);
        }
    }
    assert(scope_set(after) =~= scope_set(before).insert(x));
}

fn collect_orphan_id_items(items: &Vec<Node>, scope: &mut Vec<u32>, out: &mut Vec<u32>)
    ensures
        final(out)@ == old(out)@ + orphan_id_items(nodes_view(items@), scope_set(old(scope)@)).0,
        scope_set(final(scope)@) == orphan_id_items(nodes_view(items@), scope_set(old(scope)@)).1,
    decreases items@,
{
    let ghost s = nodes_view(items@);
    let ghost sc0 = scope_set(scope@);
    let ghost o0 = out@;
    let mut i: usize = 0;
    assert(s.subrange(0, 0) =~= Seq::<Tree>::empty());
    assert(out@ =~= o0 + Seq::<u32>::empty());
    while i < items.len()
        invariant
            0 <= i <= items@.len(),
            s == nodes_view(items@),
            out@ == o0 + orphan_id_items(s.subrange(0, i as int), sc0).0,
            scope_set(scope@) == orphan_id_items(s.subrange(0, i as int), sc0).1,
        decreases items.len() - i,
    {
        assert(decreases_to!(items@ => items@[i as int]));
        proof {
            lemma_prefix_step(s, i as int);
        }
        assert(s[i as int] == node_view(items@[i as int]));
        let ghost before = out@;
        let ghost sc_before = scope@;
        match &items[i] {
            Node::ValDef { id, rhs } => {
                assert(s[i as int] == Tree::ValDef { id: *id, rhs: Box::new(node_view(**rhs)) });
                collect_orphan_ids(rhs, scope, out);
                scope.push(*id);
                proof {
                    lemma_scope_push(sc_before, *id);
                }
            },
            other => {
                assert(!(s[i as int] is ValDef));
                collect_orphan_ids(other, scope, out);
            },
        }
        assert(out@ =~= o0 + orphan_id_items(s.subrange(0, i + 1), sc0).0);
        i += 1;
    }
    assert(s.subrange(0, s.len() as int) =~= s);
}

fn collect_orphan_ids_seq(children: &Vec<Node>, scope: &Vec<u32>, out: &mut Vec<u32>)
    ensures
        final(out)@ == old(out)@ + orphan_ids_seq(nodes_view(children@), scope_set(scope@)),
    decreases children@,
{
    let ghost s = nodes_view(children@);
    let ghost o0 = out@;
    let mut i: usize = 0;
    assert(s.subrange(0, 0) =~= Seq::<Tree>::empty());
    assert(out@ =~= o0 + Seq::<u32>::empty());
    while i < children.len()
        invariant
            0 <= i <= children@.len(),
            s == nodes_view(children@),
            out@ == o0 + orphan_ids_seq(s.subrange(0, i as int), scope_set(scope@)),
        decreases children.len() - i,
    {
        assert(decreases_to!(children@ => children@[i as int]));
        proof {
            lemma_prefix_step(s, i as int);
        }
        assert(s[i as int] == node_view(children@[i as int]));
        collect_orphan_ids(&children[i], scope, out);
        assert(out@ =~= o0 + orphan_ids_seq(s.subrange(0, i + 1), scope_set(scope@)));
        i += 1;
    }
    assert(s.subrange(0, s.len() as int) =~= s);
}

} // verus!
