use std::collections::HashSet;

use vstd::prelude::*;

use crate::node::{node_view, nodes_view, Node, OpKind, Tree};
use crate::walk::{is_input_stable, stable_input};

verus! {

broadcast use vstd::std_specs::hash::group_hash_axioms;

/// `t` reads the context somewhere: a ValUse, a global variable, the
/// context, a `GetVar`, or (when `global_counts`) the `Global` object.
pub open spec fn touches(t: Tree, global_counts: bool) -> bool
    decreases t,
{
    match t {
        Tree::ValDef { rhs, .. } => touches(*rhs, global_counts),
        Tree::ValUse { .. } => true,
        Tree::Block { items, result } => touches_seq(items, global_counts) || touches(
            *result,
            global_counts,
        ),
        Tree::If { cond, then_branch, else_branch } => touches(*cond, global_counts) || touches(
            *then_branch,
            global_counts,
        ) || touches(*else_branch, global_counts),
        Tree::Func { body, .. } => touches(*body, global_counts),
        Tree::Op { kind, children, .. } => if kind == OpKind::GlobalVars || kind
            == OpKind::Context || kind == OpKind::GetVar {
            true
        } else if kind == OpKind::Global {
            global_counts
        } else {
            touches_seq(children, global_counts)
        },
    }
}

pub open spec fn touches_seq(s: Seq<Tree>, global_counts: bool) -> bool
    decreases s,
{
    exists|i: int| 0 <= i < s.len() && touches(s[i], global_counts)
}

fn touch_seq(v: &Vec<Node>, global_counts: bool) -> (r: bool)
    ensures
        r == touches_seq(nodes_view(v@), global_counts),
    decreases v@,
{
    let ghost s = nodes_view(v@);
    let mut i: usize = 0;
    while i < v.len()
        invariant
            0 <= i <= v@.len(),
            s == nodes_view(v@),
            forall|j: int| 0 <= j < i ==> !touches(#[trigger] s[j], global_counts),
        decreases v.len() - i,
    {
        assert(decreases_to!(v@ => v@[i as int]));
        assert(s[i as int] == node_view(v@[i as int]));
        let found = touch(&v[i], global_counts);
        if found {
            return true;
        }
        i += 1;
    }
    false
}

fn touch(expr: &Node, global_counts: bool) -> (r: bool)
    ensures
        r == touches(expr@, global_counts),
    decreases expr,
{
    match expr {
        Node::ValDef { id, rhs } => {
            assert(expr@ == Tree::ValDef { id: *id, rhs: Box::new(node_view(**rhs)) });
            touch(rhs, global_counts)
        },
        Node::ValUse { .. } => true,
        Node::Block { items, result } => {
            assert(expr@ == Tree::Block {
                items: nodes_view(items@),
                result: Box::new(node_view(**result)),
            });
            touch_seq(items, global_counts) || touch(result, global_counts)
        },
        Node::If { cond, then_branch, else_branch } => {
            assert(expr@ == Tree::If {
                cond: Box::new(node_view(**cond)),
                then_branch: Box::new(node_view(**then_branch)),
                else_branch: Box::new(node_view(**else_branch)),
            });
            touch(cond, global_counts) || touch(then_branch, global_counts) || touch(
                else_branch,
                global_counts,
            )
        },
        Node::Func { args, body } => {
            assert(expr@ == Tree::Func { args: args@, body: Box::new(node_view(**body)) });
            touch(body, global_counts)
        },
        Node::Op { kind, payload, children } => {
            assert(expr@ == Tree::Op {
                kind: *kind,
                payload: *payload,
                children: nodes_view(children@),
            });
            match kind {
                OpKind::GlobalVars | OpKind::Context | OpKind::GetVar => true,
                OpKind::Global => global_counts,
                _ => touch_seq(children, global_counts),
            }
        },
    }
}

/// Whether `expr` reads the context, the `Global` object included.
pub fn touches_context(expr: &Node) -> (r: bool)
    ensures
        r == touches(expr@, true),
{
    touch(expr, true)
}

/// Whether `expr` reads the run-time context; the `Global` object alone
/// does not count.
pub fn touches_runtime_context(expr: &Node) -> (r: bool)
    ensures
        r == touches(expr@, false),
{
    touch(expr, false)
}

/// `t` has a ValUse of one of `ids`.
pub open spec fn refers_to(t: Tree, ids: Set<u32>) -> bool
    decreases t,
{
    match t {
        Tree::ValDef { rhs, .. } => refers_to(*rhs, ids),
        Tree::ValUse { id, .. } => ids.contains(id),
        Tree::Block { items, result } => refers_to_seq(items, ids) || refers_to(*result, ids),
        Tree::If { cond, then_branch, else_branch } => refers_to(*cond, ids) || refers_to(
            *then_branch,
            ids,
        ) || refers_to(*else_branch, ids),
        Tree::Func { body, .. } => refers_to(*body, ids),
        Tree::Op { children, .. } => refers_to_seq(children, ids),
    }
}

pub open spec fn refers_to_seq(s: Seq<Tree>, ids: Set<u32>) -> bool
    decreases s,
{
    exists|i: int| 0 <= i < s.len() && refers_to(s[i], ids)
}

fn refer_seq(v: &Vec<Node>, ids: &HashSet<u32>) -> (r: bool)
    ensures
        r == refers_to_seq(nodes_view(v@), ids@),
    decreases v@,
{
    let ghost s = nodes_view(v@);
    let mut i: usize = 0;
    while i < v.len()
        invariant
            0 <= i <= v@.len(),
            s == nodes_view(v@),
            forall|j: int| 0 <= j < i ==> !refers_to(#[trigger] s[j], ids@),
        decreases v.len() - i,
    {
        assert(decreases_to!(v@ => v@[i as int]));
        assert(s[i as int] == node_view(v@[i as int]));
        let found = refer(&v[i], ids);
        if found {
            return true;
        }
        i += 1;
    }
    false
}

fn refer(expr: &Node, ids: &HashSet<u32>) -> (r: bool)
    ensures
        r == refers_to(expr@, ids@),
    decreases expr,
{
    match expr {
        Node::ValDef { id, rhs } => {
            assert(expr@ == Tree::ValDef { id: *id, rhs: Box::new(node_view(**rhs)) });
            refer(rhs, ids)
        },
        Node::ValUse { id, .. } => ids.contains(id),
        Node::Block { items, result } => {
            assert(expr@ == Tree::Block {
                items: nodes_view(items@),
                result: Box::new(node_view(**result)),
            });
            refer_seq(items, ids) || refer(result, ids)
        },
        Node::If { cond, then_branch, else_branch } => {
            assert(expr@ == Tree::If {
                cond: Box::new(node_view(**cond)),
                then_branch: Box::new(node_view(**then_branch)),
                else_branch: Box::new(node_view(**else_branch)),
            });
            refer(cond, ids) || refer(then_branch, ids) || refer(else_branch, ids)
        },
        Node::Func { args, body } => {
            assert(expr@ == Tree::Func { args: args@, body: Box::new(node_view(**body)) });
            refer(body, ids)
        },
        Node::Op { kind, payload, children } => {
            assert(expr@ == Tree::Op {
                kind: *kind,
                payload: *payload,
                children: nodes_view(children@),
            });
            refer_seq(children, ids)
        },
    }
}

/// Whether `expr` has a ValUse of one of `local_ids`.
pub fn expr_references_any_local(expr: &Node, local_ids: &HashSet<u32>) -> (r: bool)
    ensures
        r == refers_to(expr@, local_ids@),
{
    refer(expr, local_ids)
}

/// Whether `expr` has a ValUse of one of `locally_defined`; false at once
/// when the set is empty.
pub fn references_locally_defined(expr: &Node, locally_defined: &HashSet<u32>) -> (r: bool)
    ensures
        r == refers_to(expr@, locally_defined@),
{
    if locally_defined.is_empty() {
        proof {
            lemma_refers_to_empty(expr@, locally_defined@);
        }
        return false;
    }
    refer(expr, locally_defined)
}

proof fn lemma_refers_to_empty(t: Tree, ids: Set<u32>)
    requires
        ids.is_empty(),
    ensures
        !refers_to(t, ids),
    decreases t,
{
    match t {
        Tree::ValDef { rhs, .. } => lemma_refers_to_empty(*rhs, ids),
        Tree::ValUse { id, .. } => {
            assert(!ids.contains(id));
        },
        Tree::Block { items, result } => {
            lemma_refers_to_empty(*result, ids);
            assert forall|i: int| 0 <= i < items.len() implies !refers_to(items[i], ids) by {
                lemma_refers_to_empty(items[i], ids);
            }
            assert(!refers_to_seq(items, ids));
        },
        Tree::If { cond, then_branch, else_branch } => {
            lemma_refers_to_empty(*cond, ids);
            lemma_refers_to_empty(*then_branch, ids);
            lemma_refers_to_empty(*else_branch, ids);
        },
        Tree::Func { body, .. } => lemma_refers_to_empty(*body, ids),
        Tree::Op { children, .. } => {
            assert forall|i: int| 0 <= i < children.len() implies !refers_to(children[i], ids) by {
                lemma_refers_to_empty(children[i], ids);
            }
            assert(!refers_to_seq(children, ids));
        },
    }
}

/// `t` is built of constants alone: a constant, a constant placeholder, or
/// a tuple or collection of such.
pub open spec fn pure_const(t: Tree) -> bool
    decreases t,
{
    match t {
        Tree::Op { kind, children, .. } => if kind == OpKind::Tuple || kind == OpKind::Collection {
            pure_const_seq(children)
        } else {
            kind == OpKind::Const || kind == OpKind::ConstPlaceholder
        },
        _ => false,
    }
}

fn all_pure_const(v: &Vec<Node>) -> (r: bool)
    ensures
        r == pure_const_seq(nodes_view(v@)),
    decreases v@,
{
    let ghost s = nodes_view(v@);
    let mut i: usize = 0;
    while i < v.len()
        invariant
            0 <= i <= v@.len(),
            s == nodes_view(v@),
            forall|j: int| 0 <= j < i ==> pure_const(#[trigger] s[j]),
        decreases v.len() - i,
    {
        assert(decreases_to!(v@ => v@[i as int]));
        assert(s[i as int] == node_view(v@[i as int]));
        if !is_pure_const_shape(&v[i]) {
            assert(!pure_const(s[i as int]));
            return false;
        }
        i += 1;
    }
    true
}

pub open spec fn pure_const_seq(s: Seq<Tree>) -> bool
    decreases s,
{
    forall|i: int| 0 <= i < s.len() ==> pure_const(s[i])
}

/// Whether `expr` is built of constants alone, as `pure_const` says.
pub fn is_pure_const_shape(expr: &Node) -> (r: bool)
    ensures
        r == pure_const(expr@),
    decreases expr,
{
    match expr {
        Node::Op { kind, payload, children } => {
            let ghost cs = nodes_view(children@);
            assert(expr@ == Tree::Op { kind: *kind, payload: *payload, children: cs });
            match kind {
                OpKind::Tuple | OpKind::Collection => all_pure_const(children),
                OpKind::Const | OpKind::ConstPlaceholder => true,
                _ => false,
            }
        },
        _ => {
            assert(!(expr@ is Op));
            false
        },
    }
}

/// `t` is an `INPUTS(N)`/`OUTPUTS(N)`-style alias: an indexing of a global
/// variable by a constant, with no default.
pub open spec fn alias_rhs(t: Tree) -> bool {
    match t {
        Tree::Op { kind, children, .. } => kind == OpKind::ByIndex && children.len() == 2 && (
        match children[0] {
            Tree::Op { kind: k0, .. } => k0 == OpKind::GlobalVars,
            _ => false,
        }) && (match children[1] {
            Tree::Op { kind: k1, .. } => k1 == OpKind::Const,
            _ => false,
        }),
        _ => false,
    }
}

fn op_kind_of(n: &Node) -> (r: Option<OpKind>)
    ensures
        r == (match n@ {
            Tree::Op { kind, .. } => Some(kind),
            _ => None::<OpKind>,
        }),
{
    match n {
        Node::Op { kind, payload, children } => {
            assert(n@ == Tree::Op { kind: *kind, payload: *payload, children: nodes_view(children@) });
            Some(*kind)
        },
        _ => {
            assert(!(n@ is Op));
            None
        },
    }
}

/// Whether `rhs` is an alias, as `alias_rhs` says.
pub fn is_alias_rhs(rhs: &Node) -> (r: bool)
    ensures
        r == alias_rhs(rhs@),
{
    match rhs {
        Node::Op { kind, payload, children } => {
            let ghost cs = nodes_view(children@);
            assert(rhs@ == Tree::Op { kind: *kind, payload: *payload, children: cs });
            if *kind == OpKind::ByIndex && children.len() == 2 {
                assert(cs[0] == node_view(children@[0]));
                assert(cs[1] == node_view(children@[1]));
                let k0 = op_kind_of(&children[0]);
                let k1 = op_kind_of(&children[1]);
                k0 == Some(OpKind::GlobalVars) && k1 == Some(OpKind::Const)
            } else {
                false
            }
        },
        _ => {
            assert(!(rhs@ is Op));
            false
        },
    }
}

/// `rhs` is an `Upcast` or a `Negation` of a ValUse.
pub open spec fn dedupable_wrapper(rhs: Tree) -> bool {
    match rhs {
        Tree::Op { kind, children, .. } => (kind == OpKind::Upcast || kind == OpKind::Negation)
            && children.len() > 0 && children[0] is ValUse,
        _ => false,
    }
}

/// Whether `rhs` wraps a ValUse, as `dedupable_wrapper` says.
pub fn is_dedupable_wrapper(rhs: &Node) -> (r: bool)
    ensures
        r == dedupable_wrapper(rhs@),
{
    match rhs {
        Node::Op { kind, payload, children } => {
            let ghost cs = nodes_view(children@);
            assert(rhs@ == Tree::Op { kind: *kind, payload: *payload, children: cs });
            if (*kind == OpKind::Upcast || *kind == OpKind::Negation) && children.len() > 0 {
                assert(cs[0] == node_view(children@[0]));
                match &children[0] {
                    Node::ValUse { id, tpe } => {
                        assert(node_view(children@[0]) == Tree::ValUse { id: *id, tpe: *tpe });
                        true
                    },
                    _ => false,
                }
            } else {
                false
            }
        },
        _ => {
            assert(!(rhs@ is Op));
            false
        },
    }
}

/// Whether structurally equal copies of `t` are one shared node: a binary
/// operation always; a box accessor, an indexing or an `isDefined` when
/// its first operand is a stable binding (see `stable_input`); an `.get`
/// when its operand is shared; a method call never; anything else always.
pub open spec fn graph_shared(t: Tree) -> bool
    decreases t,
{
    match t {
        Tree::Op { kind, children, .. } => if kind == OpKind::BinOp {
            true
        } else if kind == OpKind::ExtractAmount || kind == OpKind::ExtractRegisterAs || kind
            == OpKind::ExtractScriptBytes || kind == OpKind::ExtractBytes || kind
            == OpKind::ExtractId || kind == OpKind::ExtractCreationInfo || kind == OpKind::ByIndex
            || kind == OpKind::OptionIsDefined {
            children.len() > 0 && stable_input(children[0])
        } else if kind == OpKind::OptionGet {
            children.len() > 0 && graph_shared(children[0])
        } else {
            kind != OpKind::MethodCall
        },
        _ => true,
    }
}

/// Whether `expr` is shared, as `graph_shared` says.
pub fn is_graph_shared(expr: &Node) -> (r: bool)
    ensures
        r == graph_shared(expr@),
    decreases expr,
{
    match expr {
        Node::Op { kind, payload, children } => {
            let ghost cs = nodes_view(children@);
            assert(expr@ == Tree::Op { kind: *kind, payload: *payload, children: cs });
            match kind {
                OpKind::BinOp => true,
                OpKind::ExtractAmount | OpKind::ExtractRegisterAs | OpKind::ExtractScriptBytes
                | OpKind::ExtractBytes | OpKind::ExtractId | OpKind::ExtractCreationInfo
                | OpKind::ByIndex | OpKind::OptionIsDefined => {
                    if children.len() > 0 {
                        assert(cs[0] == node_view(children@[0]));
                        is_input_stable(&children[0])
                    } else {
                        false
                    }
                },
                OpKind::OptionGet => {
                    if children.len() > 0 {
                        assert(decreases_to!(children@ => children@[0]));
                        assert(cs[0] == node_view(children@[0]));
                        is_graph_shared(&children[0])
                    } else {
                        false
                    }
                },
                OpKind::MethodCall => false,
                _ => true,
            }
        },
        _ => {
            assert(!(expr@ is Op));
            true
        },
    }
}

/// An alias right-hand side is exactly a global collection indexed by a
/// constant literal, with no default: `ByIndex` of a `GlobalVars` and a
/// `Const`, and nothing else. An indexing by anything but a constant
/// literal, or one with a default, is no alias.
pub proof fn law_alias_is_global_indexed_by_constant(t: Tree)
    ensures
        alias_rhs(t) ==> (t is Op && t->Op_kind == OpKind::ByIndex && t->Op_children.len() == 2
            && t->Op_children[0] is Op && t->Op_children[0]->Op_kind == OpKind::GlobalVars
            && t->Op_children[1] is Op && t->Op_children[1]->Op_kind == OpKind::Const),
        (t is Op && t->Op_kind == OpKind::ByIndex && t->Op_children.len() == 2
            && t->Op_children[0] is Op && t->Op_children[0]->Op_kind == OpKind::GlobalVars
            && t->Op_children[1] is Op && t->Op_children[1]->Op_kind == OpKind::Const) ==> alias_rhs(t),
        (t is Op && t->Op_kind == OpKind::ByIndex && t->Op_children.len() >= 2
            && !(t->Op_children[1] is Op && t->Op_children[1]->Op_kind == OpKind::Const)) ==> !alias_rhs(t),
        (t is Op && t->Op_children.len() != 2) ==> !alias_rhs(t),
{
}

/// A stable binding is a ValUse, the context or a global variable, or a
/// property read or an indexing of a stable binding; nothing else is.
pub proof fn law_stable_input_cases(kind: OpKind, payload: u32, children: Seq<Tree>, t: Tree)
    ensures
        t is ValUse ==> stable_input(t),
        (t is ValDef || t is Block || t is If || t is Func) ==> !stable_input(t),
        (kind == OpKind::GlobalVars || kind == OpKind::Context) ==> stable_input(
            Tree::Op { kind, payload, children },
        ),
        ((kind == OpKind::PropertyCall || kind == OpKind::ByIndex) && children.len() > 0) ==> (stable_input(
            Tree::Op { kind, payload, children },
        ) == stable_input(children[0])),
        !(kind == OpKind::GlobalVars || kind == OpKind::Context || kind == OpKind::PropertyCall
            || kind == OpKind::ByIndex) ==> !stable_input(Tree::Op { kind, payload, children }),
{
}

/// Which structurally equal copies are one shared node: an `.get` is
/// shared exactly when its operand is (so `x.m().get` is not, a method
/// call never being shared); a method call never is; a binary operation
/// always is; a box accessor, an indexing or an `isDefined` exactly when
/// its first operand is a stable binding; every other operator, and every
/// tree that is no operator, always is.
pub proof fn law_graph_sharing(kind: OpKind, payload: u32, children: Seq<Tree>, t: Tree)
    ensures
        kind == OpKind::MethodCall ==> !graph_shared(Tree::Op { kind, payload, children }),
        kind == OpKind::OptionGet ==> (graph_shared(Tree::Op { kind, payload, children }) <==> (children.len()
            > 0 && graph_shared(children[0]))),
        kind == OpKind::BinOp ==> graph_shared(Tree::Op { kind, payload, children }),
        (kind == OpKind::ExtractAmount || kind == OpKind::ExtractRegisterAs
            || kind == OpKind::ExtractScriptBytes || kind == OpKind::ExtractBytes || kind == OpKind::ExtractId
            || kind == OpKind::ExtractCreationInfo || kind == OpKind::ByIndex || kind == OpKind::OptionIsDefined) ==> (graph_shared(Tree::Op { kind, payload, children }) <==> (children.len() > 0 && stable_input(
            children[0],
        ))),
        !(kind == OpKind::ExtractAmount || kind == OpKind::ExtractRegisterAs
            || kind == OpKind::ExtractScriptBytes || kind == OpKind::ExtractBytes || kind == OpKind::ExtractId
            || kind == OpKind::ExtractCreationInfo || kind == OpKind::ByIndex || kind == OpKind::OptionIsDefined || kind == OpKind::MethodCall || kind == OpKind::OptionGet) ==> graph_shared(
            Tree::Op { kind, payload, children },
        ),
        !(t is Op) ==> graph_shared(t),
{
}

} // verus!
