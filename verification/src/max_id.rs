use vstd::prelude::*;

use crate::node::{node_view, nodes_view, FuncArg, Node, OpKind, Tree};

verus! {

/// Operator kinds whose operands `find_max_val_id` looks into.
pub open spec fn max_search_kind(k: OpKind) -> bool {
    match k {
        OpKind::And | OpKind::Apply | OpKind::Atleast | OpKind::BinOp | OpKind::BoolToSigmaProp
        | OpKind::ByIndex | OpKind::CalcBlake2b256 | OpKind::Collection | OpKind::Downcast
        | OpKind::Exists | OpKind::ExtractAmount | OpKind::ExtractRegisterAs
        | OpKind::ExtractScriptBytes | OpKind::Filter | OpKind::Fold | OpKind::ForAll
        | OpKind::LogicalNot | OpKind::CollMap | OpKind::MethodCall | OpKind::Negation
        | OpKind::OptionGet | OpKind::OptionGetOrElse | OpKind::OptionIsDefined | OpKind::Or
        | OpKind::PropertyCall | OpKind::SelectField | OpKind::SigmaAnd | OpKind::SigmaOr
        | OpKind::SigmaPropBytes | OpKind::SizeOf | OpKind::Slice | OpKind::TreeLookup
        | OpKind::Tuple | OpKind::Upcast => true,
        _ => false,
    }
}

fn is_max_search_kind(k: OpKind) -> (r: bool)
    ensures
        r == max_search_kind(k),
{
    match k {
        OpKind::And | OpKind::Apply | OpKind::Atleast | OpKind::BinOp | OpKind::BoolToSigmaProp
        | OpKind::ByIndex | OpKind::CalcBlake2b256 | OpKind::Collection | OpKind::Downcast
        | OpKind::Exists | OpKind::ExtractAmount | OpKind::ExtractRegisterAs
        | OpKind::ExtractScriptBytes | OpKind::Filter | OpKind::Fold | OpKind::ForAll
        | OpKind::LogicalNot | OpKind::CollMap | OpKind::MethodCall | OpKind::Negation
        | OpKind::OptionGet | OpKind::OptionGetOrElse | OpKind::OptionIsDefined | OpKind::Or
        | OpKind::PropertyCall | OpKind::SelectField | OpKind::SigmaAnd | OpKind::SigmaOr
        | OpKind::SigmaPropBytes | OpKind::SizeOf | OpKind::Slice | OpKind::TreeLookup
        | OpKind::Tuple | OpKind::Upcast => true,
        _ => false,
    }
}

/// `x` is the id of a ValDef, a ValUse or a FuncValue argument in `t`
/// that the id search reaches: it goes through ValDef, Block, If and
/// FuncValue, and through the operands of the searched kinds only.
pub open spec fn occurs_id(t: Tree, x: u32) -> bool
    decreases t,
{
    match t {
        Tree::ValDef { id, rhs } => id == x || occurs_id(*rhs, x),
        Tree::ValUse { id, .. } => id == x,
        Tree::Block { items, result } => occurs_id_seq(items, x) || occurs_id(*result, x),
        Tree::If { cond, then_branch, else_branch } => occurs_id(*cond, x) || occurs_id(
            *then_branch,
            x,
        ) || occurs_id(*else_branch, x),
        Tree::Func { args, body } => args_have_id(args, x) || occurs_id(*body, x),
        Tree::Op { kind, children, .. } => max_search_kind(kind) && occurs_id_seq(children, x),
    }
}

/// One of the arguments has id `x`.
pub open spec fn args_have_id(args: Seq<FuncArg>, x: u32) -> bool {
    exists|i: int| 0 <= i < args.len() && #[trigger] args[i].id == x
}

/// `x` occurs in one of the trees of `s`.
pub open spec fn occurs_id_seq(s: Seq<Tree>, x: u32) -> bool
    decreases s,
{
    exists|i: int| 0 <= i < s.len() && occurs_id(s[i], x)
}

/// Largest id among the nodes of `v`; 0 when there is none.
fn max_val_id_seq(v: &Vec<Node>) -> (r: u32)
    ensures
        forall|x: u32| occurs_id_seq(nodes_view(v@), x) ==> x <= r,
        r == 0 || occurs_id_seq(nodes_view(v@), r),
    decreases v@,
{
    let ghost s = nodes_view(v@);
    let mut best: u32 = 0;
    let mut i: usize = 0;
    while i < v.len()
        invariant
            0 <= i <= v@.len(),
            s == nodes_view(v@),
            forall|x: u32, j: int| 0 <= j < i && #[trigger] occurs_id(s[j], x) ==> x <= best,
            best == 0 || (exists|j: int| 0 <= j < i && occurs_id(s[j], best)),
        decreases v.len() - i,
    {
        assert(decreases_to!(v@ => v@[i as int]));
        let m = find_max_val_id(&v[i]);
        assert(s[i as int] == node_view(v@[i as int]));
        let ghost old_best = best;
        if m > best {
            best = m;
        }
        proof {
            assert forall|x: u32, j: int| 0 <= j < i + 1 && #[trigger] occurs_id(s[j], x) implies x
                <= best by {
                if j < i {
                    assert(x <= old_best);
                }
            }
            if best != 0 {
                if best == m {
                    assert(occurs_id(s[i as int], best));
                } else {
                    let j = choose|j: int| 0 <= j < i && occurs_id(s[j], best);
                    assert(occurs_id(s[j], best));
                }
            }
        }
        i += 1;
    }
    proof {
        assert forall|x: u32| occurs_id_seq(s, x) implies x <= best by {
            let j = choose|j: int| 0 <= j < s.len() && occurs_id(s[j], x);
            assert(occurs_id(s[j], x));
        }
        if best != 0 {
            let j = choose|j: int| 0 <= j < i && occurs_id(s[j], best);
            assert(occurs_id(s[j], best));
        }
    }
    best
}

/// Largest ValDef, ValUse or FuncValue-argument id that the id search
/// reaches (see `occurs_id`); 0 when there is none.
pub fn find_max_val_id(n: &Node) -> (r: u32)
    ensures
        forall|x: u32| occurs_id(n@, x) ==> x <= r,
        r == 0 || occurs_id(n@, r),
    decreases n,
{
    match n {
        Node::ValDef { id, rhs } => {
            let m = find_max_val_id(rhs);
            let r = if *id >= m { *id } else { m };
            proof {
                assert forall|x: u32| occurs_id(n@, x) implies x <= r by {
                    if x != *id {
                        assert(occurs_id(node_view(**rhs), x));
                    }
                }
                assert(r == 0 || occurs_id(n@, r));
            }
            r
        },
        Node::ValUse { id, .. } => *id,
        Node::Block { items, result } => {
            let a = max_val_id_seq(items);
            let b = find_max_val_id(result);
            let r = if a >= b { a } else { b };
            proof {
                assert forall|x: u32| occurs_id(n@, x) implies x <= r by {
                    if !occurs_id_seq(nodes_view(items@), x) {
                        assert(occurs_id(node_view(**result), x));
                    }
                }
                assert(r == 0 || occurs_id(n@, r));
            }
            r
        },
        Node::If { cond, then_branch, else_branch } => {
            let a = find_max_val_id(cond);
            let b = find_max_val_id(then_branch);
            let c = find_max_val_id(else_branch);
            let ab = if a >= b { a } else { b };
            let r = if ab >= c { ab } else { c };
            proof {
                assert forall|x: u32| occurs_id(n@, x) implies x <= r by {
                    if occurs_id(node_view(**cond), x) {
                    } else if occurs_id(node_view(**then_branch), x) {
                    } else {
                        assert(occurs_id(node_view(**else_branch), x));
                    }
                }
                assert(r == 0 || occurs_id(n@, r));
            }
            r
        },
        Node::Func { args, body } => {
            let mut best: u32 = 0;
            let mut i: usize = 0;
            let ghost nv = n@;
            assert(nv == Tree::Func { args: args@, body: Box::new(node_view(**body)) });
            while i < args.len()
                invariant
                    nv == n@,
                    nv == (Tree::Func { args: args@, body: Box::new(node_view(**body)) }),
                    0 <= i <= args@.len(),
                    forall|j: int| 0 <= j < i ==> args@[j].id <= best,
                    best == 0 || (exists|j: int| 0 <= j < i && args@[j].id == best),
                decreases args.len() - i,
            {
                if args[i].id > best {
                    best = args[i].id;
                }
                i += 1;
            }
            let b = find_max_val_id(body);
            let r = if best >= b { best } else { b };
            proof {
                assert(i == args@.len());
                assert(n@ == Tree::Func { args: args@, body: Box::new(node_view(**body)) });
                assert forall|x: u32| occurs_id(n@, x) implies x <= r by {
                    assert(occurs_id(n@, x) == (args_have_id(args@, x) || occurs_id(node_view(**body), x)));
                    if args_have_id(args@, x) {
                        let j = choose|j: int| 0 <= j < args@.len() && #[trigger] args@[j].id == x;
                        assert(args@[j].id <= best);
                    } else {
                        assert(occurs_id(node_view(**body), x));
                    }
                }
                if r != 0 && r == best {
                    let j = choose|j: int| 0 <= j < args@.len() && args@[j].id == best;
                    assert(args_have_id(args@, r));
                }
                assert(r == 0 || occurs_id(n@, r));
            }
            r
        },
        Node::Op { kind, payload, children } => {
            assert(n@ == Tree::Op {
                kind: *kind,
                payload: *payload,
                children: nodes_view(children@),
            });
            if !is_max_search_kind(*kind) {
                return 0;
            }
            let r = max_val_id_seq(children);
            proof {
                assert forall|x: u32| occurs_id(n@, x) implies x <= r by {
                    assert(occurs_id_seq(nodes_view(children@), x));
                }
            }
            r
        },
    }
}

/// The id search goes through the operands of exactly these operator
/// kinds: every ValDef, ValUse or FuncValue-argument id inside an operand
/// of a `BinOp`, a `BoolToSigmaProp`, a collection `Filter`, `Exists`,
/// `ForAll`, `Map` (mapper lambda included) or `Fold`, a property or
/// method call, a box accessor (`ExtractAmount`, `ExtractRegisterAs`,
/// `ExtractScriptBytes`), a `SizeOf`, an indexing, a field selection, an
/// option `get`/`isDefined`/`getOrElse`, a `Slice`, a logical or numeric
/// negation, `SigmaPropBytes`, an up- or downcast, `CalcBlake2b256`, a
/// sigma `&&`/`||`, a tuple, a tree lookup, an application, a collection
/// `&&`/`||`, an `atLeast` or a collection literal is reached, so the
/// largest id that `find_max_val_id` returns is at least every one of
/// them; the operands of any other operator are not searched.
pub proof fn law_max_id_search_reaches_operands(kind: OpKind, payload: u32, children: Seq<Tree>, x: u32)
    ensures
        (kind == OpKind::BinOp || kind == OpKind::BoolToSigmaProp || kind == OpKind::Filter
            || kind == OpKind::Exists || kind == OpKind::ForAll || kind == OpKind::CollMap
            || kind == OpKind::Fold || kind == OpKind::PropertyCall || kind == OpKind::MethodCall
            || kind == OpKind::ExtractAmount || kind == OpKind::ExtractRegisterAs
            || kind == OpKind::ExtractScriptBytes || kind == OpKind::SizeOf || kind == OpKind::ByIndex
            || kind == OpKind::SelectField || kind == OpKind::OptionGet || kind == OpKind::OptionIsDefined
            || kind == OpKind::OptionGetOrElse || kind == OpKind::Slice || kind == OpKind::LogicalNot
            || kind == OpKind::Negation || kind == OpKind::SigmaPropBytes || kind == OpKind::Upcast
            || kind == OpKind::Downcast || kind == OpKind::CalcBlake2b256 || kind == OpKind::SigmaAnd
            || kind == OpKind::SigmaOr || kind == OpKind::Tuple || kind == OpKind::TreeLookup
            || kind == OpKind::Apply || kind == OpKind::And || kind == OpKind::Or || kind == OpKind::Atleast
            || kind == OpKind::Collection) ==> (occurs_id(Tree::Op { kind, payload, children }, x) <==> exists|i: int|
            0 <= i < children.len() && #[trigger] occurs_id(children[i], x)),
        !(kind == OpKind::BinOp || kind == OpKind::BoolToSigmaProp || kind == OpKind::Filter
            || kind == OpKind::Exists || kind == OpKind::ForAll || kind == OpKind::CollMap
            || kind == OpKind::Fold || kind == OpKind::PropertyCall || kind == OpKind::MethodCall
            || kind == OpKind::ExtractAmount || kind == OpKind::ExtractRegisterAs
            || kind == OpKind::ExtractScriptBytes || kind == OpKind::SizeOf || kind == OpKind::ByIndex
            || kind == OpKind::SelectField || kind == OpKind::OptionGet || kind == OpKind::OptionIsDefined
            || kind == OpKind::OptionGetOrElse || kind == OpKind::Slice || kind == OpKind::LogicalNot
            || kind == OpKind::Negation || kind == OpKind::SigmaPropBytes || kind == OpKind::Upcast
            || kind == OpKind::Downcast || kind == OpKind::CalcBlake2b256 || kind == OpKind::SigmaAnd
            || kind == OpKind::SigmaOr || kind == OpKind::Tuple || kind == OpKind::TreeLookup
            || kind == OpKind::Apply || kind == OpKind::And || kind == OpKind::Or || kind == OpKind::Atleast
            || kind == OpKind::Collection) ==> !occurs_id(Tree::Op { kind, payload, children }, x),
{
    let t = Tree::Op { kind, payload, children };
    if occurs_id(t, x) {
        assert(occurs_id_seq(children, x));
        let i = choose|i: int| 0 <= i < children.len() && occurs_id(children[i], x);
        assert(occurs_id(children[i], x));
    }
    if exists|i: int| 0 <= i < children.len() && #[trigger] occurs_id(children[i], x) {
        let i = choose|i: int| 0 <= i < children.len() && #[trigger] occurs_id(children[i], x);
        assert(occurs_id_seq(children, x));
    }
}

/// Outside operators the id search goes everywhere: a ValDef's own id and
/// the ids of its right-hand side; a ValUse's id; the items and result of
/// a block; condition and both branches of an If; and a lambda's argument
/// ids and body.
pub proof fn law_max_id_search_reaches_binders(t: Tree, x: u32)
    ensures
        t matches Tree::ValDef { id, rhs } ==> (occurs_id(t, x) <==> (x == id || occurs_id(*rhs, x))),
        t matches Tree::ValUse { id, .. } ==> (occurs_id(t, x) <==> x == id),
        t matches Tree::Block { items, result } ==> (occurs_id(t, x) <==> ((exists|i: int|
            0 <= i < items.len() && #[trigger] occurs_id(items[i], x)) || occurs_id(*result, x))),
        t matches Tree::If { cond, then_branch, else_branch } ==> (occurs_id(t, x) <==> (occurs_id(*cond, x)
            || occurs_id(*then_branch, x) || occurs_id(*else_branch, x))),
        t matches Tree::Func { args, body } ==> (occurs_id(t, x) <==> ((exists|i: int|
            0 <= i < args.len() && #[trigger] args[i].id == x) || occurs_id(*body, x))),
{
    match t {
        Tree::Block { items, result } => {
            if occurs_id_seq(items, x) {
                let i = choose|i: int| 0 <= i < items.len() && occurs_id(items[i], x);
                assert(occurs_id(items[i], x));
            }
            if exists|i: int| 0 <= i < items.len() && #[trigger] occurs_id(items[i], x) {
                let i = choose|i: int| 0 <= i < items.len() && #[trigger] occurs_id(items[i], x);
                assert(occurs_id_seq(items, x));
            }
        },
        _ => {},
    }
}

} // verus!
