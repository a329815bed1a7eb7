use vstd::prelude::*;

use crate::node::{clone_node, node_view, nodes_view, Node, OpKind, Tree};
use crate::walk::node_count;

verus! {

/// Which nodes a collection pass picks: constants; `Option.get`s; property
/// calls and collection indexings applied directly to a ValUse.
pub enum Pick {
    Consts,
    OptionGets,
    PropertyOrIndexOnValUse,
}

/// The first operand of an operator is a ValUse.
pub open spec fn on_val_use(children: Seq<Tree>) -> bool {
    children.len() > 0 && children[0] is ValUse
}

/// Whether `t` is picked by `which`.
pub open spec fn picked(t: Tree, which: Pick) -> bool {
    match t {
        Tree::Op { kind, children, .. } => match which {
            Pick::Consts => kind == OpKind::Const,
            Pick::OptionGets => kind == OpKind::OptionGet,
            Pick::PropertyOrIndexOnValUse => (kind == OpKind::PropertyCall || kind
                == OpKind::ByIndex) && on_val_use(children),
        },
        _ => false,
    }
}

/// The nodes of `t` picked by `which`, in preorder over all direct
/// sub-expressions.
pub open spec fn picks(t: Tree, which: Pick) -> Seq<Tree>
    decreases t,
{
    (if picked(t, which) {
        seq![t]
    } else {
        Seq::empty()
    }) + match t {
        Tree::ValDef { rhs, .. } => picks(*rhs, which),
        Tree::ValUse { .. } => Seq::empty(),
        Tree::Block { items, result } => picks_seq(items, which) + picks(*result, which),
        Tree::If { cond, then_branch, else_branch } => picks(*cond, which) + picks(
            *then_branch,
            which,
        ) + picks(*else_branch, which),
        Tree::Func { body, .. } => picks(*body, which),
        Tree::Op { children, .. } => picks_seq(children, which),
    }
}

pub open spec fn picks_seq(s: Seq<Tree>, which: Pick) -> Seq<Tree>
    decreases s,
{
    if s.len() == 0 {
        Seq::empty()
    } else {
        picks_seq(s.drop_last(), which) + picks(s.last(), which)
    }
}

fn is_picked(expr: &Node, which: &Pick) -> (r: bool)
    ensures
        r == picked(expr@, *which),
{
    match expr {
        Node::Op { kind, payload, children } => {
            assert(expr@ == Tree::Op { kind: *kind, payload: *payload, children: nodes_view(children@) });
            match which {
                Pick::Consts => *kind == OpKind::Const,
                Pick::OptionGets => *kind == OpKind::OptionGet,
                Pick::PropertyOrIndexOnValUse => {
                    if (*kind == OpKind::PropertyCall || *kind == OpKind::ByIndex)
                        && children.len() > 0 {
                        assert(nodes_view(children@)[0] == node_view(children@[0]));
                        match &children[0] {
                            Node::ValUse { .. } => true,
                            _ => false,
                        }
                    } else {
                        false
                    }
                },
            }
        },
        _ => false,
    }
}

fn pick_seq(v: &Vec<Node>, which: &Pick, out: &mut Vec<Node>)
    ensures
        nodes_view(final(out)@) == nodes_view(old(out)@) + picks_seq(nodes_view(v@), *which),
    decreases v@,
{
    let ghost s = nodes_view(v@);
    let ghost o0 = nodes_view(out@);
    let mut i: usize = 0;
    assert(s.subrange(0, 0) =~= Seq::<Tree>::empty());
    assert(nodes_view(out@) =~= o0 + Seq::<Tree>::empty());
    while i < v.len()
        invariant
            0 <= i <= v@.len(),
            s == nodes_view(v@),
            nodes_view(out@) == o0 + picks_seq(s.subrange(0, i as int), *which),
        decreases v.len() - i,
    {
        assert(decreases_to!(v@ => v@[i as int]));
        assert(s.subrange(0, i + 1).drop_last() =~= s.subrange(0, i as int));
        assert(s[i as int] == node_view(v@[i as int]));
        pick(&v[i], which, out);
        assert(nodes_view(out@) =~= o0 + picks_seq(s.subrange(0, i + 1), *which));
        i += 1;
    }
    assert(s.subrange(0, s.len() as int) =~= s);
}

fn pick(expr: &Node, which: &Pick, out: &mut Vec<Node>)
    ensures
        nodes_view(final(out)@) == nodes_view(old(out)@) + picks(expr@, *which),
    decreases expr,
{
    let ghost o0 = nodes_view(out@);
    if is_picked(expr, which) {
        out.push(clone_node(expr));
    }
    let ghost here = if picked(expr@, *which) {
        seq![expr@]
    } else {
        Seq::<Tree>::empty()
    };
    assert(nodes_view(out@) =~= o0 + here);
    match expr {
        Node::ValDef { id, rhs } => {
            assert(expr@ == Tree::ValDef { id: *id, rhs: Box::new(node_view(**rhs)) });
            pick(rhs, which, out);
        },
        Node::ValUse { .. } => {},
        Node::Block { items, result } => {
            assert(expr@ == Tree::Block {
                items: nodes_view(items@),
                result: Box::new(node_view(**result)),
            });
            pick_seq(items, which, out);
            pick(result, which, out);
        },
        Node::If { cond, then_branch, else_branch } => {
            assert(expr@ == Tree::If {
                cond: Box::new(node_view(**cond)),
                then_branch: Box::new(node_view(**then_branch)),
                else_branch: Box::new(node_view(**else_branch)),
            });
            pick(cond, which, out);
            pick(then_branch, which, out);
            pick(else_branch, which, out);
        },
        Node::Func { args, body } => {
            assert(expr@ == Tree::Func { args: args@, body: Box::new(node_view(**body)) });
            pick(body, which, out);
        },
        Node::Op { kind, payload, children } => {
            assert(expr@ == Tree::Op { kind: *kind, payload: *payload, children: nodes_view(children@) });
            pick_seq(children, which, out);
        },
    }
    assert(nodes_view(out@) =~= o0 + picks(expr@, *which));
}

/// Appends to `out` the constants of `expr` in preorder.
pub fn collect_consts(expr: &Node, out: &mut Vec<Node>)
    ensures
        nodes_view(final(out)@) == nodes_view(old(out)@) + picks(expr@, Pick::Consts),
{
    pick(expr, &Pick::Consts, out)
}

/// Appends to `out` the `Option.get` nodes of `expr` in preorder.
pub fn collect_option_gets(expr: &Node, out: &mut Vec<Node>)
    ensures
        nodes_view(final(out)@) == nodes_view(old(out)@) + picks(expr@, Pick::OptionGets),
{
    pick(expr, &Pick::OptionGets, out)
}

/// Appends to `out` the property calls and indexings of `expr` whose
/// receiver is a ValUse, in preorder.
pub fn collect_property_byindex_candidates(expr: &Node, out: &mut Vec<Node>)
    ensures
        nodes_view(final(out)@) == nodes_view(old(out)@) + picks(
            expr@,
            Pick::PropertyOrIndexOnValUse,
        ),
{
    pick(expr, &Pick::PropertyOrIndexOnValUse, out)
}

} // verus!
