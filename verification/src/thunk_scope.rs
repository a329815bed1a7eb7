use vstd::prelude::*;

use crate::node::{node_eq, node_view, nodes_view, Node, OpKind, Tree, BIN_AND, BIN_OR};
use crate::walk::{
    direct_children, lemma_children_count, lemma_node_count_prefix, lemma_occurrences_le_count,
    lemma_prefix_step, node_count, node_count_seq, occurrences, tree_children, count_occurrences,
};

verus! {

/// A logical `&&` or `||`, whose right operand is evaluated lazily.
pub open spec fn lazy_binop(kind: OpKind, payload: u32) -> bool {
    kind == OpKind::BinOp && (payload == BIN_AND || payload == BIN_OR)
}

/// The direct sub-expressions evaluated in the scope of `t` itself: only
/// the condition of an If, only the left operand of `&&` and `||`, and
/// otherwise all of them.
pub open spec fn scope_children(t: Tree) -> Seq<Tree> {
    match t {
        Tree::If { cond, .. } => seq![*cond],
        Tree::Op { kind, payload, children } => if lazy_binop(kind, payload) && children.len()
            > 0 {
            seq![children[0]]
        } else {
            children
        },
        _ => tree_children(t),
    }
}

/// Every scope child of `t` is smaller than `t`.
pub proof fn lemma_scope_children_count(t: Tree)
    ensures
        forall|i: int|
            0 <= i < scope_children(t).len() ==> node_count(#[trigger] scope_children(t)[i])
                < node_count(t),
{
    lemma_children_count(t);
    match t {
        Tree::If { cond, .. } => {
            assert(scope_children(t)[0] == tree_children(t)[0]);
        },
        Tree::Op { kind, payload, children } => {
            if lazy_binop(kind, payload) && children.len() > 0 {
                assert(scope_children(t)[0] == tree_children(t)[0]);
            }
        },
        _ => {},
    }
}

/// The sub-expressions evaluated in the scope of `expr`, as
/// `scope_children` lists them.
pub fn direct_children_scope(expr: &Node) -> (r: Vec<&Node>)
    ensures
        r@.len() == scope_children(expr@).len(),
        forall|i: int| 0 <= i < r@.len() ==> (*r@[i])@ == scope_children(expr@)[i],
{
    match expr {
        Node::If { cond, then_branch, else_branch } => {
            assert(expr@ == Tree::If {
                cond: Box::new(node_view(**cond)),
                then_branch: Box::new(node_view(**then_branch)),
                else_branch: Box::new(node_view(**else_branch)),
            });
            let mut v: Vec<&Node> = Vec::new();
            v.push(&**cond);
            v
        },
        Node::Op { kind, payload, children } => {
            assert(expr@ == Tree::Op {
                kind: *kind,
                payload: *payload,
                children: nodes_view(children@),
            });
            if *kind == OpKind::BinOp && (*payload == BIN_AND || *payload == BIN_OR)
                && children.len() > 0 {
                let mut v: Vec<&Node> = Vec::new();
                v.push(&children[0]);
                v
            } else {
                direct_children(expr)
            }
        },
        _ => direct_children(expr),
    }
}

/// How many times `target` occurs in `t` without entering If branches or
/// the lazy operand of `&&` and `||`: the node itself counts when it equals
/// `target`, and the search goes on through `scope_children`.
pub open spec fn scope_occurrences(t: Tree, target: Tree) -> nat
    decreases node_count(t), 1nat, 0int,
{
    (if t == target {
        1nat
    } else {
        0nat
    }) + scope_occurrences_upto(scope_children(t), scope_children(t).len() as int, target, node_count(t))
}

/// `scope_occurrences` summed over the first `k` trees of `s`, each of
/// which is smaller than `bound`.
pub open spec fn scope_occurrences_upto(s: Seq<Tree>, k: int, target: Tree, bound: nat) -> nat
    decreases bound, 0nat, k,
{
    if k <= 0 || k > s.len() {
        0
    } else if node_count(s[k - 1]) < bound {
        scope_occurrences_upto(s, k - 1, target, bound) + scope_occurrences(s[k - 1], target)
    } else {
        scope_occurrences_upto(s, k - 1, target, bound)
    }
}

proof fn lemma_scope_occurrences_le(t: Tree, target: Tree)
    ensures
        scope_occurrences(t, target) <= node_count(t),
    decreases node_count(t), 1nat, 0int,
{
    lemma_children_count(t);
    lemma_scope_children_count(t);
    let cs = scope_children(t);
    lemma_scope_occurrences_upto_le(cs, cs.len() as int, target, node_count(t));
    lemma_scope_prefix_count(t);
}

proof fn lemma_scope_occurrences_upto_le(s: Seq<Tree>, k: int, target: Tree, bound: nat)
    requires
        0 <= k <= s.len(),
    ensures
        scope_occurrences_upto(s, k, target, bound) <= node_count_seq(s.subrange(0, k)),
    decreases bound, 0nat, k,
{
    if k > 0 {
        lemma_scope_occurrences_upto_le(s, k - 1, target, bound);
        lemma_prefix_step(s, k - 1);
        if node_count(s[k - 1]) < bound {
            lemma_scope_occurrences_le(s[k - 1], target);
        }
    }
}

/// The scope children of `t` have fewer nodes together than `t`.
proof fn lemma_scope_prefix_count(t: Tree)
    ensures
        1 + node_count_seq(scope_children(t).subrange(0, scope_children(t).len() as int))
            <= node_count(t),
{
    lemma_children_count(t);
    let cs = scope_children(t);
    assert(cs.subrange(0, cs.len() as int) =~= cs);
    match t {
        Tree::If { cond, then_branch, else_branch } => {
            let tc = tree_children(t);
            assert(tc.subrange(0, 1) =~= cs);
            lemma_node_count_prefix(tc, 1);
        },
        Tree::Op { kind, payload, children } => {
            if lazy_binop(kind, payload) && children.len() > 0 {
                assert(children.subrange(0, 1) =~= cs);
                lemma_node_count_prefix(children, 1);
            }
        },
        _ => {},
    }
}

fn count_scope_upto(v: &Vec<&Node>, target: &Node, Ghost(s): Ghost<Seq<Tree>>, Ghost(bound): Ghost<nat>) -> (r: usize)
    requires
        v@.len() == s.len(),
        forall|i: int| 0 <= i < s.len() ==> (*v@[i])@ == s[i],
        forall|i: int| 0 <= i < s.len() ==> node_count(#[trigger] s[i]) < bound,
        node_count_seq(s) <= usize::MAX,
    ensures
        r == scope_occurrences_upto(s, s.len() as int, target@, bound),
        r <= node_count_seq(s),
    decreases bound, 0nat,
{
    let mut count: usize = 0;
    let mut i: usize = 0;
    while i < v.len()
        invariant
            0 <= i <= v@.len(),
            v@.len() == s.len(),
            forall|j: int| 0 <= j < s.len() ==> (*v@[j])@ == s[j],
            forall|j: int| 0 <= j < s.len() ==> node_count(#[trigger] s[j]) < bound,
            node_count_seq(s) <= usize::MAX,
            count == scope_occurrences_upto(s, i as int, target@, bound),
            count <= node_count_seq(s.subrange(0, i as int)),
        decreases v.len() - i,
    {
        proof {
            lemma_prefix_step(s, i as int);
            lemma_node_count_prefix(s, i + 1);
            lemma_scope_occurrences_le(s[i as int], target@);
            assert(node_count(s[i as int]) < bound);
        }
        let c = count_scope(v[i], target);
        count = count + c;
        i += 1;
    }
    assert(s.subrange(0, s.len() as int) =~= s);
    count
}

fn count_scope(expr: &Node, target: &Node) -> (r: usize)
    requires
        node_count(expr@) <= usize::MAX,
    ensures
        r == scope_occurrences(expr@, target@),
    decreases node_count(expr@), 1nat,
{
    let here: usize = if node_eq(expr, target) {
        1
    } else {
        0
    };
    let children = direct_children_scope(expr);
    let ghost cs = scope_children(expr@);
    proof {
        lemma_scope_children_count(expr@);
        lemma_scope_prefix_count(expr@);
        assert(cs.subrange(0, cs.len() as int) =~= cs);
    }
    let rest = count_scope_upto(&children, target, Ghost(cs), Ghost(node_count(expr@)));
    here + rest
}

/// Number of times `target` occurs in `expr` within its own scope, as
/// `scope_occurrences` counts.
pub fn count_occurrences_scope(expr: &Node, target: &Node) -> (r: usize)
    requires
        node_count(expr@) <= usize::MAX,
    ensures
        r == scope_occurrences(expr@, target@),
{
    count_scope(expr, target)
}

/// How many times `target` occurs inside the FuncValue bodies of `t`: a
/// FuncValue counts the occurrences in its body (as `occurrences` does),
/// any other node the sum over its direct sub-expressions.
pub open spec fn lambda_occurrences(t: Tree, target: Tree) -> nat
    decreases t,
{
    match t {
        Tree::Func { body, .. } => occurrences(*body, target),
        Tree::ValDef { rhs, .. } => lambda_occurrences(*rhs, target),
        Tree::ValUse { .. } => 0,
        Tree::Block { items, result } => lambda_occurrences_seq(items, target)
            + lambda_occurrences(*result, target),
        Tree::If { cond, then_branch, else_branch } => lambda_occurrences(*cond, target)
            + lambda_occurrences(*then_branch, target) + lambda_occurrences(*else_branch, target),
        Tree::Op { children, .. } => lambda_occurrences_seq(children, target),
    }
}

pub open spec fn lambda_occurrences_seq(s: Seq<Tree>, target: Tree) -> nat
    decreases s,
{
    if s.len() == 0 {
        0
    } else {
        lambda_occurrences_seq(s.drop_last(), target) + lambda_occurrences(s.last(), target)
    }
}

proof fn lemma_lambda_occurrences_le(t: Tree, target: Tree)
    ensures
        lambda_occurrences(t, target) <= node_count(t),
    decreases t,
{
    match t {
        Tree::Func { body, .. } => lemma_occurrences_le_count(*body, target),
        Tree::ValDef { rhs, .. } => lemma_lambda_occurrences_le(*rhs, target),
        Tree::ValUse { .. } => {},
        Tree::Block { items, result } => {
            lemma_lambda_occurrences_seq_le(items, target);
            lemma_lambda_occurrences_le(*result, target);
        },
        Tree::If { cond, then_branch, else_branch } => {
            lemma_lambda_occurrences_le(*cond, target);
            lemma_lambda_occurrences_le(*then_branch, target);
            lemma_lambda_occurrences_le(*else_branch, target);
        },
        Tree::Op { children, .. } => lemma_lambda_occurrences_seq_le(children, target),
    }
}

proof fn lemma_lambda_occurrences_seq_le(s: Seq<Tree>, target: Tree)
    ensures
        lambda_occurrences_seq(s, target) <= node_count_seq(s),
    decreases s,
{
    if s.len() > 0 {
        lemma_lambda_occurrences_seq_le(s.drop_last(), target);
        lemma_lambda_occurrences_le(s.last(), target);
    }
}

fn count_in_lambda_seq(v: &Vec<Node>, target: &Node) -> (r: usize)
    requires
        node_count_seq(nodes_view(v@)) <= usize::MAX,
    ensures
        r == lambda_occurrences_seq(nodes_view(v@), target@),
    decreases v@,
{
    let ghost s = nodes_view(v@);
    let mut count: usize = 0;
    let mut i: usize = 0;
    while i < v.len()
        invariant
            0 <= i <= v@.len(),
            s == nodes_view(v@),
            count == lambda_occurrences_seq(s.subrange(0, i as int), target@),
            count <= node_count_seq(s.subrange(0, i as int)),
            node_count_seq(s) <= usize::MAX,
        decreases v.len() - i,
    {
        assert(decreases_to!(v@ => v@[i as int]));
        proof {
            lemma_prefix_step(s, i as int);
            lemma_node_count_prefix(s, i + 1);
            lemma_lambda_occurrences_le(s[i as int], target@);
            assert(s[i as int] == node_view(v@[i as int]));
        }
        let c = count_in_lambda_bodies(&v[i], target);
        count = count + c;
        i += 1;
    }
    assert(s.subrange(0, s.len() as int) =~= s);
    count
}

/// Number of times `target` occurs inside the FuncValue bodies of `expr`,
/// as `lambda_occurrences` counts.
pub fn count_in_lambda_bodies(expr: &Node, target: &Node) -> (r: usize)
    requires
        node_count(expr@) <= usize::MAX,
    ensures
        r == lambda_occurrences(expr@, target@),
    decreases expr,
{
    proof {
        lemma_lambda_occurrences_le(expr@, target@);
    }
    match expr {
        Node::Func { args, body } => {
            assert(expr@ == Tree::Func { args: args@, body: Box::new(node_view(**body)) });
            count_occurrences(body, target)
        },
        Node::ValDef { id, rhs } => {
            assert(expr@ == Tree::ValDef { id: *id, rhs: Box::new(node_view(**rhs)) });
            count_in_lambda_bodies(rhs, target)
        },
        Node::ValUse { .. } => 0,
        Node::Block { items, result } => {
            assert(expr@ == Tree::Block {
                items: nodes_view(items@),
                result: Box::new(node_view(**result)),
            });
            proof {
                lemma_lambda_occurrences_seq_le(nodes_view(items@), target@);
            }
            let a = count_in_lambda_seq(items, target);
            let b = count_in_lambda_bodies(result, target);
            a + b
        },
        Node::If { cond, then_branch, else_branch } => {
            assert(expr@ == Tree::If {
                cond: Box::new(node_view(**cond)),
                then_branch: Box::new(node_view(**then_branch)),
                else_branch: Box::new(node_view(**else_branch)),
            });
            proof {
                lemma_lambda_occurrences_le(node_view(**cond), target@);
                lemma_lambda_occurrences_le(node_view(**then_branch), target@);
                lemma_lambda_occurrences_le(node_view(**else_branch), target@);
            }
            let a = count_in_lambda_bodies(cond, target);
            let b = count_in_lambda_bodies(then_branch, target);
            let c = count_in_lambda_bodies(else_branch, target);
            a + b + c
        },
        Node::Op { kind, payload, children } => {
            assert(expr@ == Tree::Op {
                kind: *kind,
                payload: *payload,
                children: nodes_view(children@),
            });
            count_in_lambda_seq(children, target)
        },
    }
}

} // verus!
