use std::collections::HashSet;

use vstd::prelude::*;

use crate::node::{node_view, nodes_view, Node, OpKind, Tree};

verus! {

broadcast use vstd::std_specs::hash::group_hash_axioms;

/// `t` is a ValDef of `x`.
pub open spec fn defines(t: Tree, x: u32) -> bool {
    match t {
        Tree::ValDef { id, .. } => id == x,
        _ => false,
    }
}

/// One of the first `n` trees of `items` is a ValDef of `x`.
pub open spec fn defined_in(items: Seq<Tree>, n: int, x: u32) -> bool {
    exists|i: int| 0 <= i < n && #[trigger] defines(items[i], x)
}

/// The items of the outermost block of `t`: `t` is a block, or a
/// `BoolToSigmaProp` over one; none otherwise.
pub open spec fn top_level_items(t: Tree) -> Seq<Tree> {
    match t {
        Tree::Block { items, .. } => items,
        Tree::Op { kind, children, .. } => if kind == OpKind::BoolToSigmaProp && children.len()
            > 0 {
            match children[0] {
                Tree::Block { items, .. } => items,
                _ => Seq::empty(),
            }
        } else {
            Seq::empty()
        },
        _ => Seq::empty(),
    }
}

/// The ids that the items of the outermost block of `t` define.
pub open spec fn top_level_ids(t: Tree) -> Set<u32> {
    Set::new(|x: u32| defined_in(top_level_items(t), top_level_items(t).len() as int, x))
}

fn item_ids(items: &Vec<Node>) -> (r: HashSet<u32>)
    ensures
        forall|x: u32| r@.contains(x) <==> defined_in(nodes_view(items@), items@.len() as int, x),
{
    let ghost s = nodes_view(items@);
    let mut ids: HashSet<u32> = HashSet::new();
    let mut i: usize = 0;
    while i < items.len()
        invariant
            0 <= i <= items@.len(),
            s == nodes_view(items@),
            forall|x: u32| ids@.contains(x) <==> defined_in(s, i as int, x),
        decreases items.len() - i,
    {
        let ghost before = ids@;
        assert(s[i as int] == node_view(items@[i as int]));
        if let Node::ValDef { id, rhs } = &items[i] {
            assert(s[i as int] == Tree::ValDef { id: *id, rhs: Box::new(node_view(**rhs)) });
            ids.insert(*id);
        }
        proof {
            assert forall|x: u32| ids@.contains(x) <==> defined_in(s, i + 1, x) by {
                if defined_in(s, i + 1, x) {
                    let j = choose|j: int| 0 <= j < i + 1 && #[trigger] defines(s[j], x);
                    if j < i {
                        assert(defined_in(s, i as int, x));
                    }
                }
                if ids@.contains(x) {
                    if before.contains(x) {
                        let j = choose|j: int| 0 <= j < i && #[trigger] defines(s[j], x);
                        assert(defines(s[j], x));
                    } else {
                        assert(defines(s[i as int], x));
                    }
                }
            }
        }
        i += 1;
    }
    ids
}

/// The ids defined by the items of the outermost block of `expr`, as
/// `top_level_ids` says.
pub fn top_level_val_ids(expr: &Node) -> (r: HashSet<u32>)
    ensures
        r@ == top_level_ids(expr@),
{
    match expr {
        Node::Block { items, result } => {
            assert(expr@ == Tree::Block {
                items: nodes_view(items@),
                result: Box::new(node_view(**result)),
            });
            let r = item_ids(items);
            assert(r@ =~= top_level_ids(expr@));
            r
        },
        Node::Op { kind, payload, children } => {
            assert(expr@ == Tree::Op {
                kind: *kind,
                payload: *payload,
                children: nodes_view(children@),
            });
            if *kind == OpKind::BoolToSigmaProp && children.len() > 0 {
                assert(nodes_view(children@)[0] == node_view(children@[0]));
                if let Node::Block { items, result } = &children[0] {
                    assert(node_view(children@[0]) == Tree::Block {
                        items: nodes_view(items@),
                        result: Box::new(node_view(**result)),
                    });
                    let r = item_ids(items);
                    assert(r@ =~= top_level_ids(expr@));
                    return r;
                }
            }
            let r: HashSet<u32> = HashSet::new();
            assert(r@ =~= top_level_ids(expr@));
            r
        },
        _ => {
            let r: HashSet<u32> = HashSet::new();
            assert(r@ =~= top_level_ids(expr@));
            r
        },
    }
}

/// `x` is defined by a ValDef of `t` that lies inside a branch of an If
/// (or `inside` holds: `t` itself lies in one); an If's condition is not
/// in a branch.
pub open spec fn branch_local(t: Tree, inside: bool, x: u32) -> bool
    decreases t,
{
    match t {
        Tree::ValDef { id, rhs } => (inside && id == x) || branch_local(*rhs, inside, x),
        Tree::ValUse { .. } => false,
        Tree::Block { items, result } => branch_local_seq(items, inside, x) || branch_local(
            *result,
            inside,
            x,
        ),
        Tree::If { cond, then_branch, else_branch } => branch_local(*cond, inside, x)
            || branch_local(*then_branch, true, x) || branch_local(*else_branch, true, x),
        Tree::Func { body, .. } => branch_local(*body, inside, x),
        Tree::Op { children, .. } => branch_local_seq(children, inside, x),
    }
}

pub open spec fn branch_local_seq(s: Seq<Tree>, inside: bool, x: u32) -> bool
    decreases s,
{
    exists|i: int| 0 <= i < s.len() && branch_local(s[i], inside, x)
}

/// One of the first `n` trees of `s` has `x` as a branch-local id.
pub open spec fn local_in_prefix(s: Seq<Tree>, n: int, inside: bool, x: u32) -> bool {
    exists|j: int| 0 <= j < n && #[trigger] branch_local(s[j], inside, x)
}

fn branch_walk_seq(v: &Vec<Node>, inside: bool, ids: &mut HashSet<u32>)
    ensures
        forall|x: u32|
            final(ids)@.contains(x) <==> (old(ids)@.contains(x) || branch_local_seq(
                nodes_view(v@),
                inside,
                x,
            )),
    decreases v@,
{
    let ghost start = ids@;
    let ghost s = nodes_view(v@);
    let mut i: usize = 0;
    while i < v.len()
        invariant
            0 <= i <= v@.len(),
            s == nodes_view(v@),
            forall|x: u32|
                ids@.contains(x) <==> (start.contains(x) || local_in_prefix(
                    s,
                    i as int,
                    inside,
                    x,
                )),
        decreases v.len() - i,
    {
        assert(decreases_to!(v@ => v@[i as int]));
        assert(s[i as int] == node_view(v@[i as int]));
        let ghost before = ids@;
        assert(forall|x: u32|
            before.contains(x) <==> (start.contains(x) || local_in_prefix(s, i as int, inside, x)));
        branch_walk(&v[i], inside, ids);
        assert(forall|x: u32|
            ids@.contains(x) <==> (before.contains(x) || branch_local(s[i as int], inside, x)));
        proof {
            assert forall|x: u32|
                ids@.contains(x) <==> (start.contains(x) || local_in_prefix(
                    s,
                    i + 1,
                    inside,
                    x,
                )) by {
                if local_in_prefix(s, i + 1, inside, x) {
                    let j = choose|j: int| 0 <= j < i + 1 && #[trigger] branch_local(s[j], inside, x);
                    if j < i {
                        assert(local_in_prefix(s, i as int, inside, x));
                        assert(before.contains(x));
                    }
                }
                if start.contains(x) {
                    assert(before.contains(x));
                }
                if ids@.contains(x) && !start.contains(x) {
                    if before.contains(x) {
                        let j = choose|j: int| 0 <= j < i && #[trigger] branch_local(s[j], inside, x);
                        assert(branch_local(s[j], inside, x));
                    } else {
                        assert(branch_local(s[i as int], inside, x));
                    }
                }
            }
        }
        i += 1;
    }
    proof {
        assert forall|x: u32|
            local_in_prefix(s, s.len() as int, inside, x) == branch_local_seq(s, inside, x) by {
            if branch_local_seq(s, inside, x) {
                let j = choose|j: int| 0 <= j < s.len() && branch_local(s[j], inside, x);
                assert(branch_local(s[j], inside, x));
            }
        }
    }
}

fn branch_walk(expr: &Node, inside: bool, ids: &mut HashSet<u32>)
    ensures
        forall|x: u32|
            final(ids)@.contains(x) <==> (old(ids)@.contains(x) || branch_local(
                expr@,
                inside,
                x,
            )),
    decreases expr,
{
    match expr {
        Node::ValDef { id, rhs } => {
            assert(expr@ == Tree::ValDef { id: *id, rhs: Box::new(node_view(**rhs)) });
            if inside {
                ids.insert(*id);
            }
            branch_walk(rhs, inside, ids);
        },
        Node::ValUse { .. } => {},
        Node::Block { items, result } => {
            assert(expr@ == Tree::Block {
                items: nodes_view(items@),
                result: Box::new(node_view(**result)),
            });
            branch_walk_seq(items, inside, ids);
            branch_walk(result, inside, ids);
        },
        Node::If { cond, then_branch, else_branch } => {
            assert(expr@ == Tree::If {
                cond: Box::new(node_view(**cond)),
                then_branch: Box::new(node_view(**then_branch)),
                else_branch: Box::new(node_view(**else_branch)),
            });
            branch_walk(cond, inside, ids);
            branch_walk(then_branch, true, ids);
            branch_walk(else_branch, true, ids);
        },
        Node::Func { args, body } => {
            assert(expr@ == Tree::Func { args: args@, body: Box::new(node_view(**body)) });
            branch_walk(body, inside, ids);
        },
        Node::Op { kind, payload, children } => {
            assert(expr@ == Tree::Op {
                kind: *kind,
                payload: *payload,
                children: nodes_view(children@),
            });
            branch_walk_seq(children, inside, ids);
        },
    }
}

/// The ids defined inside the branches of the Ifs of `expr`, as
/// `branch_local` says.
pub fn collect_branch_local_val_ids(expr: &Node) -> (r: HashSet<u32>)
    ensures
        r@ == Set::new(|x: u32| branch_local(expr@, false, x)),
{
    let mut ids: HashSet<u32> = HashSet::new();
    branch_walk(expr, false, &mut ids);
    assert(ids@ =~= Set::new(|x: u32| branch_local(expr@, false, x)));
    ids
}

} // verus!
