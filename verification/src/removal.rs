use std::collections::HashSet;

use vstd::prelude::*;

use crate::node::{clone_node, node_view, nodes_view, Node, OpKind, Tree};
use crate::walk::lemma_prefix_step;

verus! {

broadcast use vstd::std_specs::hash::group_hash_axioms;

/// Operator kinds whose operands the ValDef removal descends into; every
/// other operator, and a FuncValue, is left as it is.
pub open spec fn removal_kind(k: OpKind) -> bool {
    match k {
        OpKind::BinOp | OpKind::BoolToSigmaProp | OpKind::SizeOf | OpKind::ExtractAmount
        | OpKind::PropertyCall | OpKind::SigmaAnd | OpKind::SigmaOr | OpKind::And | OpKind::Or
        | OpKind::Collection | OpKind::Tuple | OpKind::ByIndex | OpKind::OptionGet
        | OpKind::OptionGetOrElse | OpKind::OptionIsDefined | OpKind::ExtractRegisterAs
        | OpKind::ExtractScriptBytes | OpKind::ExtractBytes | OpKind::ExtractBytesWithNoRef
        | OpKind::ExtractId => true,
        _ => false,
    }
}

fn is_removal_kind(k: OpKind) -> (r: bool)
    ensures
        r == removal_kind(k),
{
    match k {
        OpKind::BinOp | OpKind::BoolToSigmaProp | OpKind::SizeOf | OpKind::ExtractAmount
        | OpKind::PropertyCall | OpKind::SigmaAnd | OpKind::SigmaOr | OpKind::And | OpKind::Or
        | OpKind::Collection | OpKind::Tuple | OpKind::ByIndex | OpKind::OptionGet
        | OpKind::OptionGetOrElse | OpKind::OptionIsDefined | OpKind::ExtractRegisterAs
        | OpKind::ExtractScriptBytes | OpKind::ExtractBytes | OpKind::ExtractBytesWithNoRef
        | OpKind::ExtractId => true,
        _ => false,
    }
}

/// Whether a block item is a ValDef whose id is in `ids`.
pub open spec fn dropped_item(t: Tree, ids: Set<u32>) -> bool {
    match t {
        Tree::ValDef { id, .. } => ids.contains(id),
        _ => false,
    }
}

/// `t` with every block item that is a ValDef of an id in `ids` removed,
/// in every block reached; a block left without items becomes its result.
pub open spec fn without_defs(t: Tree, ids: Set<u32>) -> Tree
    decreases t, 1int,
{
    match t {
        Tree::Block { items, result } => {
            let kept = kept_without(items, ids);
            if kept.len() == 0 {
                without_defs(*result, ids)
            } else {
                Tree::Block { items: kept, result: Box::new(without_defs(*result, ids)) }
            }
        },
        Tree::ValDef { id, rhs } => Tree::ValDef { id, rhs: Box::new(without_defs(*rhs, ids)) },
        _ => children_without_defs(t, ids),
    }
}

/// An If, or an operator of a kind in `removal_kind`, with the removal
/// applied to each of its sub-expressions; any other tree as it is.
pub open spec fn children_without_defs(t: Tree, ids: Set<u32>) -> Tree
    decreases t, 0int,
{
    match t {
        Tree::If { cond, then_branch, else_branch } => Tree::If {
            cond: Box::new(without_defs(*cond, ids)),
            then_branch: Box::new(without_defs(*then_branch, ids)),
            else_branch: Box::new(without_defs(*else_branch, ids)),
        },
        Tree::Op { kind, payload, children } => if removal_kind(kind) {
            Tree::Op { kind, payload, children: without_defs_seq(children, ids) }
        } else {
            t
        },
        _ => t,
    }
}

/// The items of a block that stay, each with the removal applied.
pub open spec fn kept_without(items: Seq<Tree>, ids: Set<u32>) -> Seq<Tree>
    decreases items, 0int,
{
    if items.len() == 0 {
        Seq::empty()
    } else {
        let rest = kept_without(items.drop_last(), ids);
        if dropped_item(items.last(), ids) {
            rest
        } else {
            rest.push(without_defs(items.last(), ids))
        }
    }
}

pub open spec fn without_defs_seq(s: Seq<Tree>, ids: Set<u32>) -> Seq<Tree>
    decreases s, 0int,
{
    Seq::new(
        s.len(),
        |i: int|
            if 0 <= i < s.len() {
                without_defs(s[i], ids)
            } else {
                Tree::ValUse { id: 0, tpe: 0 }
            },
    )
}

fn remove_in_seq(v: &Vec<Node>, ids: &HashSet<u32>) -> (r: Vec<Node>)
    ensures
        nodes_view(r@) == without_defs_seq(nodes_view(v@), ids@),
    decreases v@, 0int,
{
    let mut out: Vec<Node> = Vec::new();
    let mut i: usize = 0;
    while i < v.len()
        invariant
            0 <= i <= v@.len(),
            out@.len() == i,
            forall|j: int|
                0 <= j < i ==> node_view(#[trigger] out@[j]) == without_defs(
                    node_view(v@[j]),
                    ids@,
                ),
        decreases v.len() - i,
    {
        assert(decreases_to!(v@ => v@[i as int]));
        out.push(remove_ref(&v[i], ids));
        i += 1;
    }
    assert(nodes_view(out@) =~= without_defs_seq(nodes_view(v@), ids@));
    out
}

fn filter_items(items: &Vec<Node>, ids: &HashSet<u32>) -> (r: Vec<Node>)
    ensures
        nodes_view(r@) == kept_without(nodes_view(items@), ids@),
    decreases items@, 0int,
{
    let ghost s = nodes_view(items@);
    let mut out: Vec<Node> = Vec::new();
    let mut i: usize = 0;
    assert(s.subrange(0, 0) =~= Seq::<Tree>::empty());
    assert(nodes_view(out@) =~= Seq::<Tree>::empty());
    while i < items.len()
        invariant
            0 <= i <= items@.len(),
            s == nodes_view(items@),
            nodes_view(out@) == kept_without(s.subrange(0, i as int), ids@),
        decreases items.len() - i,
    {
        assert(decreases_to!(items@ => items@[i as int]));
        proof {
            lemma_prefix_step(s, i as int);
        }
        assert(s[i as int] == node_view(items@[i as int]));
        let ghost before = out@;
        let drop = match &items[i] {
            Node::ValDef { id, .. } => ids.contains(id),
            _ => false,
        };
        if drop {
            assert(dropped_item(s[i as int], ids@));
        } else {
            assert(!dropped_item(s[i as int], ids@));
            out.push(remove_ref(&items[i], ids));
            assert(nodes_view(out@) =~= nodes_view(before).push(
                without_defs(s[i as int], ids@),
            ));
        }
        i += 1;
    }
    assert(s.subrange(0, s.len() as int) =~= s);
    out
}

fn remove_children_ref(expr: &Node, ids: &HashSet<u32>) -> (r: Node)
    ensures
        r@ == children_without_defs(expr@, ids@),
    decreases expr, 0int,
{
    match expr {
        Node::If { cond, then_branch, else_branch } => {
            assert(expr@ == Tree::If {
                cond: Box::new(node_view(**cond)),
                then_branch: Box::new(node_view(**then_branch)),
                else_branch: Box::new(node_view(**else_branch)),
            });
            Node::If {
                cond: Box::new(remove_ref(cond, ids)),
                then_branch: Box::new(remove_ref(then_branch, ids)),
                else_branch: Box::new(remove_ref(else_branch, ids)),
            }
        },
        Node::Op { kind, payload, children } => {
            assert(expr@ == Tree::Op {
                kind: *kind,
                payload: *payload,
                children: nodes_view(children@),
            });
            if is_removal_kind(*kind) {
                Node::Op { kind: *kind, payload: *payload, children: remove_in_seq(children, ids) }
            } else {
                clone_node(expr)
            }
        },
        _ => clone_node(expr),
    }
}

fn remove_ref(expr: &Node, ids: &HashSet<u32>) -> (r: Node)
    ensures
        r@ == without_defs(expr@, ids@),
    decreases expr, 1int,
{
    match expr {
        Node::Block { items, result } => {
            assert(expr@ == Tree::Block {
                items: nodes_view(items@),
                result: Box::new(node_view(**result)),
            });
            let kept = filter_items(items, ids);
            let new_result = remove_ref(result, ids);
            if kept.len() == 0 {
                new_result
            } else {
                Node::Block { items: kept, result: Box::new(new_result) }
            }
        },
        Node::ValDef { id, rhs } => {
            assert(expr@ == Tree::ValDef { id: *id, rhs: Box::new(node_view(**rhs)) });
            Node::ValDef { id: *id, rhs: Box::new(remove_ref(rhs, ids)) }
        },
        _ => remove_children_ref(expr, ids),
    }
}

/// `expr` with the block-item ValDefs of the ids in `to_remove` taken out,
/// as `without_defs` says.
pub fn remove_valdefs_in_blocks(expr: Node, to_remove: &HashSet<u32>) -> (r: Node)
    ensures
        r@ == without_defs(expr@, to_remove@),
{
    remove_ref(&expr, to_remove)
}

/// The removal applied to the sub-expressions of an If or of an operator
/// whose kind it descends into; any other expression is returned as it is.
pub fn map_children_remove(expr: Node, to_remove: &HashSet<u32>) -> (r: Node)
    ensures
        r@ == children_without_defs(expr@, to_remove@),
{
    remove_children_ref(&expr, to_remove)
}

} // verus!
