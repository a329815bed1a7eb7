use vstd::prelude::*;

use crate::node::{node_eq, node_view, nodes_view, Node, OpKind, Tree, BIN_AND, BIN_OR};
use crate::walk::{
    counted_kind, is_counted_kind, lemma_occurrences_le_count, node_count, occurrences,
    occurrences_seq,
};

verus! {

/// `t` is a logical `&&` or `||` with its two operands.
pub open spec fn is_logical(t: Tree) -> bool {
    match t {
        Tree::Op { kind, payload, children } => kind == OpKind::BinOp && (payload == BIN_AND
            || payload == BIN_OR) && children.len() == 2,
        _ => false,
    }
}

/// How many times `target` occurs in `t` outside the branches of any If
/// and outside FuncValue bodies; otherwise counted as `occurrences` does.
pub open spec fn occurrences_no_inner_if(t: Tree, target: Tree) -> nat
    decreases t,
{
    (if t == target {
        1nat
    } else {
        0nat
    }) + match t {
        Tree::ValDef { rhs, .. } => occurrences_no_inner_if(*rhs, target),
        Tree::ValUse { .. } => 0nat,
        Tree::Block { items, result } => occurrences_no_inner_if_seq(items, target)
            + occurrences_no_inner_if(*result, target),
        Tree::If { cond, .. } => occurrences_no_inner_if(*cond, target),
        Tree::Func { .. } => 0nat,
        Tree::Op { kind, children, .. } => if counted_kind(kind) {
            occurrences_no_inner_if_seq(children, target)
        } else {
            0nat
        },
    }
}

pub open spec fn occurrences_no_inner_if_seq(s: Seq<Tree>, target: Tree) -> nat
    decreases s,
{
    if s.len() == 0 {
        0
    } else {
        occurrences_no_inner_if_seq(s.drop_last(), target) + occurrences_no_inner_if(
            s.last(),
            target,
        )
    }
}

proof fn lemma_no_inner_if_le(t: Tree, target: Tree)
    ensures
        occurrences_no_inner_if(t, target) <= occurrences(t, target),
    decreases t,
{
    match t {
        Tree::ValDef { rhs, .. } => lemma_no_inner_if_le(*rhs, target),
        Tree::ValUse { .. } => {},
        Tree::Block { items, result } => {
            lemma_no_inner_if_le_seq(items, target);
            lemma_no_inner_if_le(*result, target);
        },
        Tree::If { cond, .. } => lemma_no_inner_if_le(*cond, target),
        Tree::Func { .. } => {},
        Tree::Op { children, .. } => lemma_no_inner_if_le_seq(children, target),
    }
}

proof fn lemma_no_inner_if_le_seq(s: Seq<Tree>, target: Tree)
    ensures
        occurrences_no_inner_if_seq(s, target) <= occurrences_seq(s, target),
    decreases s,
{
    if s.len() > 0 {
        lemma_no_inner_if_le_seq(s.drop_last(), target);
        lemma_no_inner_if_le(s.last(), target);
    }
}

fn count_no_inner_if_seq(v: &Vec<Node>, target: &Node, Ghost(bound): Ghost<nat>) -> (r: usize)
    requires
        occurrences_seq(nodes_view(v@), target@) <= bound,
        bound <= usize::MAX,
    ensures
        r == occurrences_no_inner_if_seq(nodes_view(v@), target@),
    decreases v@,
{
    let ghost s = nodes_view(v@);
    let mut count: usize = 0;
    let mut i: usize = 0;
    while i < v.len()
        invariant
            0 <= i <= v@.len(),
            s == nodes_view(v@),
            s.len() == v@.len(),
            count == occurrences_no_inner_if_seq(s.subrange(0, i as int), target@),
            occurrences_seq(s, target@) <= bound <= usize::MAX,
        decreases v.len() - i,
    {
        assert(decreases_to!(v@ => v@[i as int]));
        proof {
            assert(s.subrange(0, i + 1).drop_last() =~= s.subrange(0, i as int));
            lemma_prefix_occ(s, target@, i + 1);
            lemma_no_inner_if_le_seq(s.subrange(0, i + 1), target@);
            lemma_prefix_occ(s, target@, i as int);
            lemma_no_inner_if_le_seq(s.subrange(0, i as int), target@);
            assert(s[i as int] == node_view(v@[i as int]));
            lemma_no_inner_if_le(s[i as int], target@);
        }
        let c = count_occurrences_no_inner_if_bounded(&v[i], target, Ghost(bound));
        count = count + c;
        i += 1;
    }
    assert(s.subrange(0, s.len() as int) == s);
    count
}

proof fn lemma_prefix_occ(s: Seq<Tree>, target: Tree, i: int)
    requires
        0 <= i <= s.len(),
    ensures
        occurrences_seq(s.subrange(0, i), target) <= occurrences_seq(s, target),
    decreases s.len(),
{
    if i < s.len() {
        assert(s.subrange(0, i) == s.drop_last().subrange(0, i));
        lemma_prefix_occ(s.drop_last(), target, i);
    } else {
        assert(s.subrange(0, i) == s);
    }
}

fn count_occurrences_no_inner_if_bounded(expr: &Node, target: &Node, Ghost(bound): Ghost<nat>) -> (r: usize)
    requires
        occurrences(expr@, target@) <= bound,
        bound <= usize::MAX,
    ensures
        r == occurrences_no_inner_if(expr@, target@),
    decreases expr,
{
    proof {
        lemma_no_inner_if_le(expr@, target@);
    }
    let here: usize = if node_eq(expr, target) {
        1
    } else {
        0
    };
    match expr {
        Node::ValDef { id, rhs } => {
            assert(expr@ == Tree::ValDef { id: *id, rhs: Box::new(node_view(**rhs)) });
            here + count_occurrences_no_inner_if_bounded(rhs, target, Ghost(bound))
        },
        Node::ValUse { .. } => here,
        Node::Block { items, result } => {
            assert(expr@ == Tree::Block {
                items: nodes_view(items@),
                result: Box::new(node_view(**result)),
            });
            proof {
                lemma_no_inner_if_le_seq(nodes_view(items@), target@);
                lemma_no_inner_if_le(node_view(**result), target@);
            }
            let a = count_no_inner_if_seq(items, target, Ghost(bound));
            let b = count_occurrences_no_inner_if_bounded(result, target, Ghost(bound));
            here + a + b
        },
        Node::If { cond, then_branch, else_branch } => {
            assert(expr@ == Tree::If {
                cond: Box::new(node_view(**cond)),
                then_branch: Box::new(node_view(**then_branch)),
                else_branch: Box::new(node_view(**else_branch)),
            });
            proof {
                lemma_no_inner_if_le(node_view(**cond), target@);
            }
            here + count_occurrences_no_inner_if_bounded(cond, target, Ghost(bound))
        },
        Node::Func { .. } => here,
        Node::Op { kind, payload, children } => {
            assert(expr@ == Tree::Op {
                kind: *kind,
                payload: *payload,
                children: nodes_view(children@),
            });
            if is_counted_kind(*kind) {
                proof {
                    lemma_no_inner_if_le_seq(nodes_view(children@), target@);
                }
                here + count_no_inner_if_seq(children, target, Ghost(bound))
            } else {
                here
            }
        },
    }
}

/// Number of times `target` occurs in `expr` outside If branches and
/// FuncValue bodies, as `occurrences_no_inner_if` counts.
pub fn count_occurrences_no_inner_if(expr: &Node, target: &Node) -> (r: usize)
    requires
        node_count(expr@) <= usize::MAX,
    ensures
        r == occurrences_no_inner_if(expr@, target@),
{
    proof {
        lemma_occurrences_le_count(expr@, target@);
    }
    count_occurrences_no_inner_if_bounded(expr, target, Ghost(occurrences(expr@, target@)))
}


/// `target` occurs in `t` at a place evaluated in the enclosing scope
/// itself: not inside an If branch (`in_if`), and not inside the right
/// operand of a `&&` or `||` (`in_and`) unless a later left operand resets
/// that; If branches and right operands are scopes of their own.
pub open spec fn in_main_scope(t: Tree, target: Tree, in_and: bool, in_if: bool) -> bool
    decreases t,
{
    if t == target {
        !in_and && !in_if
    } else {
        match t {
            Tree::ValDef { rhs, .. } => in_main_scope(*rhs, target, in_and, in_if),
            Tree::ValUse { .. } => false,
            Tree::Block { items, result } => in_main_scope_seq(items, target, in_and, in_if)
                || in_main_scope(*result, target, in_and, in_if),
            Tree::If { cond, then_branch, else_branch } => in_main_scope(
                *cond,
                target,
                in_and,
                in_if,
            ) || in_main_scope(*then_branch, target, false, true) || in_main_scope(
                *else_branch,
                target,
                false,
                true,
            ),
            Tree::Func { body, .. } => in_main_scope(*body, target, in_and, in_if),
            Tree::Op { kind, payload, children } => if kind == OpKind::BinOp && (payload
                == BIN_AND || payload == BIN_OR) && children.len() == 2 {
                in_main_scope(children[0], target, false, in_if) || in_main_scope(
                    children[1],
                    target,
                    true,
                    in_if,
                )
            } else {
                in_main_scope_seq(children, target, in_and, in_if)
            },
        }
    }
}

pub open spec fn in_main_scope_seq(s: Seq<Tree>, target: Tree, in_and: bool, in_if: bool) -> bool
    decreases s,
{
    exists|i: int| 0 <= i < s.len() && in_main_scope(s[i], target, in_and, in_if)
}

fn main_scope_seq(v: &Vec<Node>, target: &Node, in_and: bool, in_if: bool) -> (r: bool)
    ensures
        r == in_main_scope_seq(nodes_view(v@), target@, in_and, in_if),
    decreases v@,
{
    let ghost s = nodes_view(v@);
    let mut i: usize = 0;
    while i < v.len()
        invariant
            0 <= i <= v@.len(),
            s == nodes_view(v@),
            forall|j: int| 0 <= j < i ==> !in_main_scope(#[trigger] s[j], target@, in_and, in_if),
        decreases v.len() - i,
    {
        assert(decreases_to!(v@ => v@[i as int]));
        assert(s[i as int] == node_view(v@[i as int]));
        let found = appears_in_main_scope_inner(&v[i], target, in_and, in_if);
        if found {
            return true;
        }
        i += 1;
    }
    false
}

fn appears_in_main_scope_inner(expr: &Node, target: &Node, in_and: bool, in_if: bool) -> (r: bool)
    ensures
        r == in_main_scope(expr@, target@, in_and, in_if),
    decreases expr,
{
    if node_eq(expr, target) {
        return !in_and && !in_if;
    }
    match expr {
        Node::ValDef { id, rhs } => {
            assert(expr@ == Tree::ValDef { id: *id, rhs: Box::new(node_view(**rhs)) });
            appears_in_main_scope_inner(rhs, target, in_and, in_if)
        },
        Node::ValUse { .. } => false,
        Node::Block { items, result } => {
            assert(expr@ == Tree::Block {
                items: nodes_view(items@),
                result: Box::new(node_view(**result)),
            });
            main_scope_seq(items, target, in_and, in_if) || appears_in_main_scope_inner(
                result,
                target,
                in_and,
                in_if,
            )
        },
        Node::If { cond, then_branch, else_branch } => {
            assert(expr@ == Tree::If {
                cond: Box::new(node_view(**cond)),
                then_branch: Box::new(node_view(**then_branch)),
                else_branch: Box::new(node_view(**else_branch)),
            });
            appears_in_main_scope_inner(cond, target, in_and, in_if) || appears_in_main_scope_inner(
                then_branch,
                target,
                false,
                true,
            ) || appears_in_main_scope_inner(else_branch, target, false, true)
        },
        Node::Func { args, body } => {
            assert(expr@ == Tree::Func { args: args@, body: Box::new(node_view(**body)) });
            appears_in_main_scope_inner(body, target, in_and, in_if)
        },
        Node::Op { kind, payload, children } => {
            let ghost cs = nodes_view(children@);
            assert(expr@ == Tree::Op { kind: *kind, payload: *payload, children: cs });
            if *kind == OpKind::BinOp && (*payload == BIN_AND || *payload == BIN_OR)
                && children.len() == 2 {
                assert(decreases_to!(children@ => children@[0]));
                assert(decreases_to!(children@ => children@[1]));
                assert(cs[0] == node_view(children@[0]));
                assert(cs[1] == node_view(children@[1]));
                appears_in_main_scope_inner(&children[0], target, false, in_if) || appears_in_main_scope_inner(
                    &children[1],
                    target,
                    true,
                    in_if,
                )
            } else {
                main_scope_seq(children, target, in_and, in_if)
            }
        },
    }
}

/// Whether `target` occurs in `tree` in the main scope, as
/// `in_main_scope` says from the top with neither flag set.
pub fn appears_in_main_scope(tree: &Node, target: &Node) -> (r: bool)
    ensures
        r == in_main_scope(tree@, target@, false, false),
{
    appears_in_main_scope_inner(tree, target, false, false)
}

/// `target` occurs in `t` outside every If branch (`in_if`: `t` itself is
/// in one); `&&` and `||` operands open no scope here.
pub open spec fn outside_if(t: Tree, target: Tree, in_if: bool) -> bool
    decreases t,
{
    if t == target {
        !in_if
    } else {
        match t {
            Tree::ValDef { rhs, .. } => outside_if(*rhs, target, in_if),
            Tree::ValUse { .. } => false,
            Tree::Block { items, result } => outside_if_seq(items, target, in_if) || outside_if(
                *result,
                target,
                in_if,
            ),
            Tree::If { cond, then_branch, else_branch } => outside_if(*cond, target, in_if)
                || outside_if(*then_branch, target, true) || outside_if(
                *else_branch,
                target,
                true,
            ),
            Tree::Func { body, .. } => outside_if(*body, target, in_if),
            Tree::Op { children, .. } => outside_if_seq(children, target, in_if),
        }
    }
}

pub open spec fn outside_if_seq(s: Seq<Tree>, target: Tree, in_if: bool) -> bool
    decreases s,
{
    exists|i: int| 0 <= i < s.len() && outside_if(s[i], target, in_if)
}

fn outside_if_walk_seq(v: &Vec<Node>, target: &Node, in_if: bool) -> (r: bool)
    ensures
        r == outside_if_seq(nodes_view(v@), target@, in_if),
    decreases v@,
{
    let ghost s = nodes_view(v@);
    let mut i: usize = 0;
    while i < v.len()
        invariant
            0 <= i <= v@.len(),
            s == nodes_view(v@),
            forall|j: int| 0 <= j < i ==> !outside_if(#[trigger] s[j], target@, in_if),
        decreases v.len() - i,
    {
        assert(decreases_to!(v@ => v@[i as int]));
        assert(s[i as int] == node_view(v@[i as int]));
        let found = appears_outside_if_inner(&v[i], target, in_if);
        if found {
            return true;
        }
        i += 1;
    }
    false
}

fn appears_outside_if_inner(expr: &Node, target: &Node, in_if: bool) -> (r: bool)
    ensures
        r == outside_if(expr@, target@, in_if),
    decreases expr,
{
    if node_eq(expr, target) {
        return !in_if;
    }
    match expr {
        Node::ValDef { id, rhs } => {
            assert(expr@ == Tree::ValDef { id: *id, rhs: Box::new(node_view(**rhs)) });
            appears_outside_if_inner(rhs, target, in_if)
        },
        Node::ValUse { .. } => false,
        Node::Block { items, result } => {
            assert(expr@ == Tree::Block {
                items: nodes_view(items@),
                result: Box::new(node_view(**result)),
            });
            outside_if_walk_seq(items, target, in_if) || appears_outside_if_inner(result, target, in_if)
        },
        Node::If { cond, then_branch, else_branch } => {
            assert(expr@ == Tree::If {
                cond: Box::new(node_view(**cond)),
                then_branch: Box::new(node_view(**then_branch)),
                else_branch: Box::new(node_view(**else_branch)),
            });
            appears_outside_if_inner(cond, target, in_if) || appears_outside_if_inner(then_branch, target, true)
                || appears_outside_if_inner(else_branch, target, true)
        },
        Node::Func { args, body } => {
            assert(expr@ == Tree::Func { args: args@, body: Box::new(node_view(**body)) });
            appears_outside_if_inner(body, target, in_if)
        },
        Node::Op { kind, payload, children } => {
            assert(expr@ == Tree::Op {
                kind: *kind,
                payload: *payload,
                children: nodes_view(children@),
            });
            outside_if_walk_seq(children, target, in_if)
        },
    }
}

/// Whether `target` occurs in `tree` outside every If branch.
pub fn appears_outside_if_branches(tree: &Node, target: &Node) -> (r: bool)
    ensures
        r == outside_if(tree@, target@, false),
{
    appears_outside_if_inner(tree, target, false)
}


proof fn lemma_occ_elem_le(s: Seq<Tree>, target: Tree, i: int)
    requires
        0 <= i < s.len(),
    ensures
        occurrences(s[i], target) <= occurrences_seq(s, target),
    decreases s.len(),
{
    if i < s.len() - 1 {
        lemma_occ_elem_le(s.drop_last(), target, i);
    }
}

fn occurs_in_seq(v: &Vec<Node>, target: &Node) -> (r: bool)
    ensures
        r == (occurrences_seq(nodes_view(v@), target@) > 0),
    decreases v@,
{
    let ghost s = nodes_view(v@);
    let mut i: usize = 0;
    while i < v.len()
        invariant
            0 <= i <= v@.len(),
            s == nodes_view(v@),
            s.len() == v@.len(),
            occurrences_seq(s.subrange(0, i as int), target@) == 0,
        decreases v.len() - i,
    {
        assert(decreases_to!(v@ => v@[i as int]));
        assert(s[i as int] == node_view(v@[i as int]));
        let found = occurs_in(&v[i], target);
        if found {
            proof {
                lemma_occ_elem_le(s, target@, i as int);
            }
            return true;
        }
        assert(s.subrange(0, i + 1).drop_last() =~= s.subrange(0, i as int));
        i += 1;
    }
    assert(s.subrange(0, s.len() as int) == s);
    false
}

/// Whether `target` occurs in `expr` at all, as `occurrences` counts.
fn occurs_in(expr: &Node, target: &Node) -> (r: bool)
    ensures
        r == (occurrences(expr@, target@) > 0),
    decreases expr,
{
    if node_eq(expr, target) {
        return true;
    }
    match expr {
        Node::ValDef { id, rhs } => {
            assert(expr@ == Tree::ValDef { id: *id, rhs: Box::new(node_view(**rhs)) });
            occurs_in(rhs, target)
        },
        Node::ValUse { .. } => false,
        Node::Block { items, result } => {
            assert(expr@ == Tree::Block {
                items: nodes_view(items@),
                result: Box::new(node_view(**result)),
            });
            occurs_in_seq(items, target) || occurs_in(result, target)
        },
        Node::If { cond, then_branch, else_branch } => {
            assert(expr@ == Tree::If {
                cond: Box::new(node_view(**cond)),
                then_branch: Box::new(node_view(**then_branch)),
                else_branch: Box::new(node_view(**else_branch)),
            });
            occurs_in(cond, target) || occurs_in(then_branch, target) || occurs_in(
                else_branch,
                target,
            )
        },
        Node::Func { args, body } => {
            assert(expr@ == Tree::Func { args: args@, body: Box::new(node_view(**body)) });
            occurs_in(body, target)
        },
        Node::Op { kind, payload, children } => {
            assert(expr@ == Tree::Op {
                kind: *kind,
                payload: *payload,
                children: nodes_view(children@),
            });
            is_counted_kind(*kind) && occurs_in_seq(children, target)
        },
    }
}

/// The trees referred to by `s`.
pub open spec fn refs_view(s: Seq<&Node>) -> Seq<Tree> {
    Seq::new(s.len(), |i: int| (*s[i])@)
}

/// The operands of a chain of binary operations of payload `k` nested
/// along both operands, left to right; any other tree is its own operand.
pub open spec fn chain_arms(t: Tree, k: u32) -> Seq<Tree>
    decreases t,
{
    match t {
        Tree::Op { kind, payload, children } => if kind == OpKind::BinOp && payload == k
            && children.len() == 2 {
            chain_arms(children[0], k) + chain_arms(children[1], k)
        } else {
            seq![t]
        },
        _ => seq![t],
    }
}

/// Appends to `out` the operands of the chain of `kind` operations at
/// `expr`, as `chain_arms` says.
pub fn collect_logical_chain_arms<'a>(expr: &'a Node, kind: u32, out: &mut Vec<&'a Node>)
    ensures
        refs_view(final(out)@) == refs_view(old(out)@) + chain_arms(expr@, kind),
    decreases expr,
{
    if let Node::Op { kind: k, payload, children } = expr {
        if *k == OpKind::BinOp && *payload == kind && children.len() == 2 {
            let ghost cs = nodes_view(children@);
            assert(expr@ == Tree::Op { kind: *k, payload: *payload, children: cs });
            assert(decreases_to!(children@ => children@[0]));
            assert(decreases_to!(children@ => children@[1]));
            assert(cs[0] == node_view(children@[0]));
            assert(cs[1] == node_view(children@[1]));
            let ghost start = refs_view(out@);
            collect_logical_chain_arms(&children[0], kind, out);
            collect_logical_chain_arms(&children[1], kind, out);
            assert(refs_view(out@) =~= start + chain_arms(expr@, kind));
            return;
        }
        assert(expr@ == Tree::Op { kind: *k, payload: *payload, children: nodes_view(children@) });
    }
    let ghost start = refs_view(out@);
    out.push(expr);
    proof {
        assert(chain_arms(expr@, kind) == seq![expr@]);
        assert(refs_view(out@) =~= start + seq![expr@]);
    }
}

/// The operand of a `BoolToSigmaProp`; any other tree itself.
pub open spec fn unwrap_sigma(t: Tree) -> Tree {
    match t {
        Tree::Op { kind, children, .. } => if kind == OpKind::BoolToSigmaProp && children.len()
            == 1 {
            children[0]
        } else {
            t
        },
        _ => t,
    }
}

/// The payload of an operator; 0 for any other tree.
pub open spec fn op_payload(t: Tree) -> u32 {
    match t {
        Tree::Op { payload, .. } => payload,
        _ => 0,
    }
}

/// The sibling containers of the outer scope of `tree` (looked at through
/// a `BoolToSigmaProp`): for a block, its items and then its result, or the
/// operands of the result when that is (through a `BoolToSigmaProp`) a
/// logical chain; for a logical chain, its operands; else `tree` itself.
pub open spec fn top_containers(tree: Tree) -> Seq<Tree> {
    let inner = unwrap_sigma(tree);
    match inner {
        Tree::Block { items, result } => {
            let ri = unwrap_sigma(*result);
            if is_logical(ri) {
                items + chain_arms(ri, op_payload(ri))
            } else {
                items.push(*result)
            }
        },
        _ => if is_logical(inner) {
            chain_arms(inner, op_payload(inner))
        } else {
            seq![inner]
        },
    }
}

/// How many trees of `s` hold `target`.
pub open spec fn containing_count(s: Seq<Tree>, target: Tree) -> nat
    decreases s.len(),
{
    if s.len() == 0 {
        0
    } else {
        containing_count(s.drop_last(), target) + (if occurrences(s.last(), target) > 0 {
            1nat
        } else {
            0nat
        })
    }
}

fn unwrap_sigma_ref(t: &Node) -> (r: &Node)
    ensures
        r@ == unwrap_sigma(t@),
{
    if let Node::Op { kind, payload, children } = t {
        assert(t@ == Tree::Op { kind: *kind, payload: *payload, children: nodes_view(children@) });
        if *kind == OpKind::BoolToSigmaProp && children.len() == 1 {
            assert(nodes_view(children@)[0] == node_view(children@[0]));
            return &children[0];
        }
    }
    t
}

fn logical_payload(t: &Node) -> (r: Option<u32>)
    ensures
        r == (if is_logical(t@) {
            Some(op_payload(t@))
        } else {
            None::<u32>
        }),
{
    if let Node::Op { kind, payload, children } = t {
        assert(t@ == Tree::Op { kind: *kind, payload: *payload, children: nodes_view(children@) });
        if *kind == OpKind::BinOp && (*payload == BIN_AND || *payload == BIN_OR) && children.len()
            == 2 {
            return Some(*payload);
        }
    }
    None
}

/// How many sibling containers of the outer scope of `tree` hold `target`,
/// as `top_containers` and `containing_count` say.
pub fn count_distinct_top_level_containers(tree: &Node, target: &Node) -> (r: usize)
    ensures
        r == containing_count(top_containers(tree@), target@),
{
    let inner = unwrap_sigma_ref(tree);
    let mut siblings: Vec<&Node> = Vec::new();
    match inner {
        Node::Block { items, result } => {
            assert(inner@ == Tree::Block {
                items: nodes_view(items@),
                result: Box::new(node_view(**result)),
            });
            let mut i: usize = 0;
            while i < items.len()
                invariant
                    0 <= i <= items@.len(),
                    refs_view(siblings@) == nodes_view(items@).subrange(0, i as int),
                decreases items.len() - i,
            {
                let ghost before = refs_view(siblings@);
                siblings.push(&items[i]);
                assert(refs_view(siblings@) =~= before.push(node_view(items@[i as int])));
                assert(nodes_view(items@).subrange(0, i + 1) =~= nodes_view(items@).subrange(
                    0,
                    i as int,
                ).push(nodes_view(items@)[i as int]));
                i += 1;
            }
            assert(nodes_view(items@).subrange(0, items@.len() as int) =~= nodes_view(items@));
            let ri = unwrap_sigma_ref(result);
            match logical_payload(ri) {
                Some(k) => collect_logical_chain_arms(ri, k, &mut siblings),
                None => {
                    let ghost before = refs_view(siblings@);
                    siblings.push(&**result);
                    assert(refs_view(siblings@) =~= before.push(node_view(**result)));
                },
            }
        },
        _ => {
            assert(!(inner@ is Block));
            match logical_payload(inner) {
                Some(k) => collect_logical_chain_arms(inner, k, &mut siblings),
                None => {
                    siblings.push(inner);
                    assert(refs_view(siblings@) =~= seq![inner@]);
                },
            }
            assert(refs_view(siblings@) =~= top_containers(tree@));
        },
    }
    let ghost sv = refs_view(siblings@);
    assert(sv == top_containers(tree@));
    let mut count: usize = 0;
    let mut j: usize = 0;
    while j < siblings.len()
        invariant
            0 <= j <= siblings@.len(),
            sv == refs_view(siblings@),
            count == containing_count(sv.subrange(0, j as int), target@),
            count <= j,
        decreases siblings.len() - j,
    {
        assert(sv.subrange(0, j + 1).drop_last() =~= sv.subrange(0, j as int));
        assert(sv[j as int] == (*siblings@[j as int])@);
        if occurs_in(siblings[j], target) {
            count = count + 1;
        }
        j += 1;
    }
    assert(sv.subrange(0, sv.len() as int) =~= sv);
    count
}

} // verus!
