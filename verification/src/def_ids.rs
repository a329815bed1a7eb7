use vstd::prelude::*;

use crate::node::{node_view, nodes_view, FuncArg, Node, OpKind, Tree};

verus! {

/// How many leading operands of an operator of kind `k` with `n` operands
/// the ValDef-id listing walks into: the input of a collection lambda
/// operator, the input and zero of a Fold, every operand of the kinds
/// below, and none of any other kind.
pub open spec fn existing_arity(k: OpKind, n: nat) -> nat {
    match k {
        OpKind::Filter | OpKind::Exists | OpKind::ForAll | OpKind::CollMap => if n < 1 {
            n
        } else {
            1
        },
        OpKind::Fold => if n < 2 {
            n
        } else {
            2
        },
        OpKind::BinOp | OpKind::BoolToSigmaProp | OpKind::SizeOf | OpKind::PropertyCall
        | OpKind::MethodCall | OpKind::ExtractAmount | OpKind::SigmaAnd | OpKind::SigmaOr => n,
        _ => 0,
    }
}

fn existing_arity_of(k: OpKind, n: usize) -> (r: usize)
    ensures
        r == existing_arity(k, n as nat),
{
    match k {
        OpKind::Filter | OpKind::Exists | OpKind::ForAll | OpKind::CollMap => if n < 1 {
            n
        } else {
            1
        },
        OpKind::Fold => if n < 2 {
            n
        } else {
            2
        },
        OpKind::BinOp | OpKind::BoolToSigmaProp | OpKind::SizeOf | OpKind::PropertyCall
        | OpKind::MethodCall | OpKind::ExtractAmount | OpKind::SigmaAnd | OpKind::SigmaOr => n,
        _ => 0,
    }
}

/// The ids of the ValDefs of `t` in preorder, each before those of its
/// right-hand side; FuncValue bodies are not entered, and of an operator
/// only the first `existing_arity` operands.
pub open spec fn existing_ids(t: Tree) -> Seq<u32>
    decreases t, 0int,
{
    match t {
        Tree::ValDef { id, rhs } => seq![id] + existing_ids(*rhs),
        Tree::Block { items, result } => existing_ids_upto(items, items.len() as int) + existing_ids(
            *result,
        ),
        Tree::If { cond, then_branch, else_branch } => existing_ids(*cond) + existing_ids(
            *then_branch,
        ) + existing_ids(*else_branch),
        Tree::Op { kind, children, .. } => existing_ids_upto(
            children,
            existing_arity(kind, children.len()) as int,
        ),
        Tree::ValUse { .. } => Seq::empty(),
        Tree::Func { .. } => Seq::empty(),
    }
}

/// The listing over the first `k` trees of `s`.
pub open spec fn existing_ids_upto(s: Seq<Tree>, k: int) -> Seq<u32>
    decreases s, k,
{
    if k <= 0 || k > s.len() {
        Seq::empty()
    } else {
        existing_ids_upto(s, k - 1) + existing_ids(s[k - 1])
    }
}

/// How many leading operands of an operator of kind `k` with `n` operands
/// the outer definition listing walks into: the input and index of a
/// ByIndex (not its default), every operand of the kinds below, and none
/// of any other kind.
pub open spec fn outer_arity(k: OpKind, n: nat) -> nat {
    match k {
        OpKind::ByIndex => if n < 2 {
            n
        } else {
            2
        },
        OpKind::BinOp | OpKind::BoolToSigmaProp | OpKind::Filter | OpKind::Exists
        | OpKind::ForAll | OpKind::CollMap | OpKind::Fold | OpKind::SizeOf | OpKind::PropertyCall
        | OpKind::MethodCall | OpKind::ExtractAmount | OpKind::ExtractRegisterAs
        | OpKind::ExtractScriptBytes | OpKind::SigmaAnd | OpKind::SigmaOr | OpKind::SelectField
        | OpKind::OptionGet | OpKind::OptionIsDefined | OpKind::LogicalNot | OpKind::Upcast => n,
        _ => 0,
    }
}

fn outer_arity_of(k: OpKind, n: usize) -> (r: usize)
    ensures
        r == outer_arity(k, n as nat),
{
    match k {
        OpKind::ByIndex => if n < 2 {
            n
        } else {
            2
        },
        OpKind::BinOp | OpKind::BoolToSigmaProp | OpKind::Filter | OpKind::Exists
        | OpKind::ForAll | OpKind::CollMap | OpKind::Fold | OpKind::SizeOf | OpKind::PropertyCall
        | OpKind::MethodCall | OpKind::ExtractAmount | OpKind::ExtractRegisterAs
        | OpKind::ExtractScriptBytes | OpKind::SigmaAnd | OpKind::SigmaOr | OpKind::SelectField
        | OpKind::OptionGet | OpKind::OptionIsDefined | OpKind::LogicalNot | OpKind::Upcast => n,
        _ => 0,
    }
}

/// The ids of the ValDefs and FuncValue arguments of `t` in preorder: a
/// ValDef before its right-hand side, the arguments in order before the
/// body; of an operator only the first `outer_arity` operands.
pub open spec fn outer_def_ids(t: Tree) -> Seq<u32>
    decreases t, 0int,
{
    match t {
        Tree::ValDef { id, rhs } => seq![id] + outer_def_ids(*rhs),
        Tree::Block { items, result } => outer_def_ids_upto(items, items.len() as int) + outer_def_ids(
            *result,
        ),
        Tree::Func { args, body } => arg_id_seq(args) + outer_def_ids(*body),
        Tree::If { cond, then_branch, else_branch } => outer_def_ids(*cond) + outer_def_ids(
            *then_branch,
        ) + outer_def_ids(*else_branch),
        Tree::Op { kind, children, .. } => outer_def_ids_upto(
            children,
            outer_arity(kind, children.len()) as int,
        ),
        Tree::ValUse { .. } => Seq::empty(),
    }
}

/// The listing over the first `k` trees of `s`.
pub open spec fn outer_def_ids_upto(s: Seq<Tree>, k: int) -> Seq<u32>
    decreases s, k,
{
    if k <= 0 || k > s.len() {
        Seq::empty()
    } else {
        outer_def_ids_upto(s, k - 1) + outer_def_ids(s[k - 1])
    }
}

/// The ids of `args`, in order.
pub open spec fn arg_id_seq(args: Seq<FuncArg>) -> Seq<u32> {
    Seq::new(args.len(), |i: int| args[i].id)
}

fn existing_ids_prefix(v: &Vec<Node>, k: usize, ids: &mut Vec<u32>)
    requires
        k <= v@.len(),
    ensures
        final(ids)@ == old(ids)@ + existing_ids_upto(nodes_view(v@), k as int),
    decreases v@,
{
    let ghost s = nodes_view(v@);
    let ghost o0 = ids@;
    let mut i: usize = 0;
    assert(ids@ =~= o0 + Seq::<u32>::empty());
    while i < k
        invariant
            0 <= i <= k <= v@.len(),
            s == nodes_view(v@),
            ids@ == o0 + existing_ids_upto(s, i as int),
        decreases k - i,
    {
        assert(decreases_to!(v@ => v@[i as int]));
        assert(s[i as int] == node_view(v@[i as int]));
        collect_existing_val_ids(&v[i], ids);
        assert(ids@ =~= o0 + existing_ids_upto(s, i + 1));
        i += 1;
    }
}

/// Appends to `ids` the ValDef ids of `expr`, as `existing_ids` lists them.
pub fn collect_existing_val_ids(expr: &Node, ids: &mut Vec<u32>)
    ensures
        final(ids)@ == old(ids)@ + existing_ids(expr@),
    decreases expr,
{
    let ghost o0 = ids@;
    match expr {
        Node::ValDef { id, rhs } => {
            assert(expr@ == Tree::ValDef { id: *id, rhs: Box::new(node_view(**rhs)) });
            ids.push(*id);
            collect_existing_val_ids(rhs, ids);
            assert(ids@ =~= o0 + existing_ids(expr@));
        },
        Node::Block { items, result } => {
            let ghost s = nodes_view(items@);
            assert(expr@ == Tree::Block { items: s, result: Box::new(node_view(**result)) });
            existing_ids_prefix(items, items.len(), ids);
            collect_existing_val_ids(result, ids);
            assert(ids@ =~= o0 + existing_ids(expr@));
        },
        Node::If { cond, then_branch, else_branch } => {
            assert(expr@ == Tree::If {
                cond: Box::new(node_view(**cond)),
                then_branch: Box::new(node_view(**then_branch)),
                else_branch: Box::new(node_view(**else_branch)),
            });
            collect_existing_val_ids(cond, ids);
            collect_existing_val_ids(then_branch, ids);
            collect_existing_val_ids(else_branch, ids);
            assert(ids@ =~= o0 + existing_ids(expr@));
        },
        Node::Op { kind, payload, children } => {
            assert(expr@ == Tree::Op {
                kind: *kind,
                payload: *payload,
                children: nodes_view(children@),
            });
            let k = existing_arity_of(*kind, children.len());
            existing_ids_prefix(children, k, ids);
        },
        Node::ValUse { .. } => {
            assert(ids@ =~= o0 + existing_ids(expr@));
        },
        Node::Func { .. } => {
            assert(ids@ =~= o0 + existing_ids(expr@));
        },
    }
}

fn outer_def_ids_prefix(v: &Vec<Node>, k: usize, ids: &mut Vec<u32>)
    requires
        k <= v@.len(),
    ensures
        final(ids)@ == old(ids)@ + outer_def_ids_upto(nodes_view(v@), k as int),
    decreases v@,
{
    let ghost s = nodes_view(v@);
    let ghost o0 = ids@;
    let mut i: usize = 0;
    assert(ids@ =~= o0 + Seq::<u32>::empty());
    while i < k
        invariant
            0 <= i <= k <= v@.len(),
            s == nodes_view(v@),
            ids@ == o0 + outer_def_ids_upto(s, i as int),
        decreases k - i,
    {
        assert(decreases_to!(v@ => v@[i as int]));
        assert(s[i as int] == node_view(v@[i as int]));
        collect_all_outer_def_ids(&v[i], ids);
        assert(ids@ =~= o0 + outer_def_ids_upto(s, i + 1));
        i += 1;
    }
}

/// Appends to `ids` the ValDef and FuncValue argument ids of `expr`, as
/// `outer_def_ids` lists them.
pub fn collect_all_outer_def_ids(expr: &Node, ids: &mut Vec<u32>)
    ensures
        final(ids)@ == old(ids)@ + outer_def_ids(expr@),
    decreases expr,
{
    let ghost o0 = ids@;
    match expr {
        Node::ValDef { id, rhs } => {
            assert(expr@ == Tree::ValDef { id: *id, rhs: Box::new(node_view(**rhs)) });
            ids.push(*id);
            collect_all_outer_def_ids(rhs, ids);
            assert(ids@ =~= o0 + outer_def_ids(expr@));
        },
        Node::Block { items, result } => {
            let ghost s = nodes_view(items@);
            assert(expr@ == Tree::Block { items: s, result: Box::new(node_view(**result)) });
            outer_def_ids_prefix(items, items.len(), ids);
            collect_all_outer_def_ids(result, ids);
            assert(ids@ =~= o0 + outer_def_ids(expr@));
        },
        Node::Func { args, body } => {
            assert(expr@ == Tree::Func { args: args@, body: Box::new(node_view(**body)) });
            let mut i: usize = 0;
            while i < args.len()
                invariant
                    0 <= i <= args@.len(),
                    ids@ == o0 + arg_id_seq(args@.subrange(0, i as int)),
                decreases args.len() - i,
            {
                ids.push(args[i].id);
                assert(ids@ =~= o0 + arg_id_seq(args@.subrange(0, i + 1)));
                i += 1;
            }
            assert(args@.subrange(0, args@.len() as int) =~= args@);
            collect_all_outer_def_ids(body, ids);
            assert(ids@ =~= o0 + outer_def_ids(expr@));
        },
        Node::If { cond, then_branch, else_branch } => {
            assert(expr@ == Tree::If {
                cond: Box::new(node_view(**cond)),
                then_branch: Box::new(node_view(**then_branch)),
                else_branch: Box::new(node_view(**else_branch)),
            });
            collect_all_outer_def_ids(cond, ids);
            collect_all_outer_def_ids(then_branch, ids);
            collect_all_outer_def_ids(else_branch, ids);
            assert(ids@ =~= o0 + outer_def_ids(expr@));
        },
        Node::Op { kind, payload, children } => {
            assert(expr@ == Tree::Op {
                kind: *kind,
                payload: *payload,
                children: nodes_view(children@),
            });
            let k = outer_arity_of(*kind, children.len());
            outer_def_ids_prefix(children, k, ids);
        },
        Node::ValUse { .. } => {
            assert(ids@ =~= o0 + outer_def_ids(expr@));
        },
    }
}

} // verus!
