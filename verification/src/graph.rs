use vstd::prelude::*;

use crate::assoc::pairs_view;
use crate::dag::{expr_type, type_of, TypeTags};
use crate::node::{clone_node, node_eq, node_view, nodes_view, Node, OpKind, Tree};

verus! {

/// The id that the first entry of `env` holding `t` binds it to.
pub open spec fn env_lookup(env: Seq<(Tree, u32)>, t: Tree) -> Option<u32>
    decreases env.len(),
{
    if env.len() == 0 {
        None
    } else {
        match env_lookup(env.drop_last(), t) {
            Some(id) => Some(id),
            None => if env.last().0 == t {
                Some(env.last().1)
            } else {
                None
            },
        }
    }
}

proof fn lemma_env_lookup_first(env: Seq<(Tree, u32)>, t: Tree, i: int)
    requires
        0 <= i < env.len(),
        env[i].0 == t,
        forall|j: int| 0 <= j < i ==> env[j].0 != t,
    ensures
        env_lookup(env, t) == Some(env[i].1),
    decreases env.len(),
{
    if i < env.len() - 1 {
        lemma_env_lookup_first(env.drop_last(), t, i);
    } else {
        lemma_env_lookup_none(env.drop_last(), t);
    }
}

proof fn lemma_env_lookup_none(env: Seq<(Tree, u32)>, t: Tree)
    requires
        forall|j: int| 0 <= j < env.len() ==> env[j].0 != t,
    ensures
        env_lookup(env, t) == None::<u32>,
    decreases env.len(),
{
    if env.len() > 0 {
        lemma_env_lookup_none(env.drop_last(), t);
    }
}

/// The id bound to `e` by `env`, as `env_lookup` says.
fn env_find(env: &Vec<(Node, u32)>, e: &Node) -> (r: Option<u32>)
    ensures
        r == env_lookup(pairs_view(env@), e@),
{
    let ghost s = pairs_view(env@);
    let mut i: usize = 0;
    while i < env.len()
        invariant
            0 <= i <= env@.len(),
            s == pairs_view(env@),
            forall|j: int| 0 <= j < i ==> s[j].0 != e@,
        decreases env.len() - i,
    {
        if node_eq(&env[i].0, e) {
            proof {
                lemma_env_lookup_first(s, e@, i as int);
            }
            return Some(env[i].1);
        }
        i += 1;
    }
    proof {
        lemma_env_lookup_none(s, e@);
    }
    None
}

/// How many leading operands of an operator of kind `k` with `n` operands
/// are resolved when a ValDef right-hand side is built: the input of a
/// collection lambda operator, the input and zero of a Fold, every operand
/// of the kinds below, none of any other kind.
pub open spec fn build_arity(k: OpKind, n: nat) -> nat {
    match k {
        OpKind::CollMap | OpKind::Filter | OpKind::Exists | OpKind::ForAll => if n < 1 {
            n
        } else {
            1
        },
        OpKind::Fold => if n < 2 {
            n
        } else {
            2
        },
        OpKind::PropertyCall | OpKind::MethodCall | OpKind::BinOp | OpKind::ExtractAmount
        | OpKind::ExtractRegisterAs | OpKind::ExtractScriptBytes | OpKind::ExtractBytes
        | OpKind::ExtractId | OpKind::ExtractCreationInfo | OpKind::SizeOf | OpKind::ByIndex
        | OpKind::SelectField | OpKind::OptionGet | OpKind::OptionIsDefined | OpKind::LogicalNot
        | OpKind::Negation | OpKind::BoolToSigmaProp | OpKind::Upcast | OpKind::CalcBlake2b256
        | OpKind::SigmaPropBytes | OpKind::CreateProveDlog | OpKind::SigmaAnd
        | OpKind::SigmaOr => n,
        _ => 0,
    }
}

fn build_arity_of(k: OpKind, n: usize) -> (r: usize)
    ensures
        r == build_arity(k, n as nat),
{
    match k {
        OpKind::CollMap | OpKind::Filter | OpKind::Exists | OpKind::ForAll => if n < 1 {
            n
        } else {
            1
        },
        OpKind::Fold => if n < 2 {
            n
        } else {
            2
        },
        OpKind::PropertyCall | OpKind::MethodCall | OpKind::BinOp | OpKind::ExtractAmount
        | OpKind::ExtractRegisterAs | OpKind::ExtractScriptBytes | OpKind::ExtractBytes
        | OpKind::ExtractId | OpKind::ExtractCreationInfo | OpKind::SizeOf | OpKind::ByIndex
        | OpKind::SelectField | OpKind::OptionGet | OpKind::OptionIsDefined | OpKind::LogicalNot
        | OpKind::Negation | OpKind::BoolToSigmaProp | OpKind::Upcast | OpKind::CalcBlake2b256
        | OpKind::SigmaPropBytes | OpKind::CreateProveDlog | OpKind::SigmaAnd
        | OpKind::SigmaOr => n,
        _ => 0,
    }
}

/// `e` itself replaced by a ValUse of its id when `env` binds it (typed
/// as `e`), otherwise `e` with its operands resolved as `built` says.
pub open spec fn resolved(e: Tree, env: Seq<(Tree, u32)>, ops: Seq<u32>) -> Tree
    decreases e, 1int,
{
    match env_lookup(env, e) {
        Some(id) => Tree::ValUse { id, tpe: type_of(e, ops) },
        None => built(e, env, ops),
    }
}

/// The right-hand side built for `t`: the condition and branches of an
/// If, and the first `build_arity` operands of an operator, resolved
/// through `env`; any other tree as it is.
pub open spec fn built(t: Tree, env: Seq<(Tree, u32)>, ops: Seq<u32>) -> Tree
    decreases t, 0int,
{
    match t {
        Tree::If { cond, then_branch, else_branch } => Tree::If {
            cond: Box::new(resolved(*cond, env, ops)),
            then_branch: Box::new(resolved(*then_branch, env, ops)),
            else_branch: Box::new(resolved(*else_branch, env, ops)),
        },
        Tree::Op { kind, payload, children } => Tree::Op {
            kind,
            payload,
            children: Seq::new(
                children.len(),
                |i: int|
                    if 0 <= i < build_arity(kind, children.len()) && i < children.len() {
                        resolved(children[i], env, ops)
                    } else {
                        children[i]
                    },
            ),
        },
        _ => t,
    }
}

fn resolve(e: &Node, env: &Vec<(Node, u32)>, tags: &TypeTags) -> (r: Node)
    ensures
        r@ == resolved(e@, pairs_view(env@), tags.op_types@),
    decreases e, 1int,
{
    match env_find(env, e) {
        Some(id) => Node::ValUse { id, tpe: expr_type(e, tags) },
        None => build_value_recurse(e, env, tags),
    }
}

/// The first `k` operands of `children` resolved, the rest as they are.
fn resolve_operands(children: &Vec<Node>, k: usize, env: &Vec<(Node, u32)>, tags: &TypeTags) -> (r: Vec<Node>)
    ensures
        r@.len() == children@.len(),
        forall|j: int|
            0 <= j < children@.len() ==> node_view(#[trigger] r@[j]) == (if j < k {
                resolved(node_view(children@[j]), pairs_view(env@), tags.op_types@)
            } else {
                node_view(children@[j])
            }),
    decreases children@, 0int,
{
    let mut out: Vec<Node> = Vec::new();
    let mut i: usize = 0;
    while i < children.len()
        invariant
            0 <= i <= children@.len(),
            out@.len() == i,
            forall|j: int|
                0 <= j < i ==> node_view(#[trigger] out@[j]) == (if j < k {
                    resolved(node_view(children@[j]), pairs_view(env@), tags.op_types@)
                } else {
                    node_view(children@[j])
                }),
        decreases children.len() - i,
    {
        assert(decreases_to!(children@ => children@[i as int]));
        if i < k {
            out.push(resolve(&children[i], env, tags));
        } else {
            out.push(clone_node(&children[i]));
        }
        i += 1;
    }
    out
}

/// The right-hand side built for `expr` through `env`, as `built` says.
pub fn build_value_recurse(expr: &Node, env: &Vec<(Node, u32)>, tags: &TypeTags) -> (r: Node)
    ensures
        r@ == built(expr@, pairs_view(env@), tags.op_types@),
    decreases expr, 0int,
{
    match expr {
        Node::If { cond, then_branch, else_branch } => {
            assert(expr@ == Tree::If {
                cond: Box::new(node_view(**cond)),
                then_branch: Box::new(node_view(**then_branch)),
                else_branch: Box::new(node_view(**else_branch)),
            });
            let r = Node::If {
                cond: Box::new(resolve(cond, env, tags)),
                then_branch: Box::new(resolve(then_branch, env, tags)),
                else_branch: Box::new(resolve(else_branch, env, tags)),
            };
            assert(r@ == built(expr@, pairs_view(env@), tags.op_types@));
            r
        },
        Node::Op { kind, payload, children } => {
            let ghost cs = nodes_view(children@);
            assert(expr@ == Tree::Op { kind: *kind, payload: *payload, children: cs });
            let k = build_arity_of(*kind, children.len());
            let out = resolve_operands(children, k, env, tags);
            let r = Node::Op { kind: *kind, payload: *payload, children: out };
            let ghost bc = match built(expr@, pairs_view(env@), tags.op_types@) {
                Tree::Op { children, .. } => children,
                _ => Seq::empty(),
            };
            assert(bc.len() == cs.len());
            assert forall|j: int| 0 <= j < cs.len() implies nodes_view(out@)[j] == bc[j] by {
                assert(cs[j] == node_view(children@[j]));
            }
            assert(nodes_view(out@) =~= bc);
            assert(r@ == built(expr@, pairs_view(env@), tags.op_types@));
            r
        },
        _ => clone_node(expr),
    }
}

} // verus!
