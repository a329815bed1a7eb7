use std::collections::HashMap;
use vstd::prelude::*;

use crate::node::{node_view, nodes_view, FuncArg, Node, OpKind, Tree};

verus! {

broadcast use vstd::std_specs::hash::group_hash_axioms;

/// Number of nodes in a tree, FuncValue arguments counted as nodes.
pub open spec fn tree_size(t: Tree) -> nat
    decreases t,
{
    match t {
        Tree::ValDef { rhs, .. } => 1 + tree_size(*rhs),
        Tree::ValUse { .. } => 1,
        Tree::Block { items, result } => 1 + seq_size(items) + tree_size(*result),
        Tree::If { cond, then_branch, else_branch } => 1 + tree_size(*cond) + tree_size(
            *then_branch,
        ) + tree_size(*else_branch),
        Tree::Func { args, body } => 1 + args.len() + tree_size(*body),
        Tree::Op { children, .. } => 1 + seq_size(children),
    }
}

/// Total size of a sequence of trees.
pub open spec fn seq_size(s: Seq<Tree>) -> nat
    decreases s,
{
    if s.len() == 0 {
        0
    } else {
        seq_size(s.drop_last()) + tree_size(s.last())
    }
}

/// The id a binder or use gets under a renumbering map: its image, or
/// itself when the map has none.
pub open spec fn renamed(m: Map<u32, u32>, id: u32) -> u32 {
    if m.contains_key(id) {
        m[id]
    } else {
        id
    }
}

/// Every ValDef, ValUse and FuncValue-argument id of `t` replaced by its
/// image under `m`.
pub open spec fn rewrite(t: Tree, m: Map<u32, u32>) -> Tree
    decreases t,
{
    match t {
        Tree::ValDef { id, rhs } => Tree::ValDef { id: renamed(m, id), rhs: Box::new(rewrite(*rhs, m)) },
        Tree::ValUse { id, tpe } => Tree::ValUse { id: renamed(m, id), tpe },
        Tree::Block { items, result } => Tree::Block {
            items: rewrite_seq(items, m),
            result: Box::new(rewrite(*result, m)),
        },
        Tree::If { cond, then_branch, else_branch } => Tree::If {
            cond: Box::new(rewrite(*cond, m)),
            then_branch: Box::new(rewrite(*then_branch, m)),
            else_branch: Box::new(rewrite(*else_branch, m)),
        },
        Tree::Func { args, body } => Tree::Func {
            args: rewrite_args(args, m),
            body: Box::new(rewrite(*body, m)),
        },
        Tree::Op { kind, payload, children } => Tree::Op {
            kind,
            payload,
            children: rewrite_seq(children, m),
        },
    }
}

pub open spec fn rewrite_seq(s: Seq<Tree>, m: Map<u32, u32>) -> Seq<Tree>
    decreases s,
{
    Seq::new(
        s.len(),
        |i: int|
            if 0 <= i < s.len() {
                rewrite(s[i], m)
            } else {
                Tree::ValUse { id: 0, tpe: 0 }
            },
    )
}

pub open spec fn rewrite_args(args: Seq<FuncArg>, m: Map<u32, u32>) -> Seq<FuncArg> {
    Seq::new(args.len(), |i: int| FuncArg { id: renamed(m, args[i].id), tpe: args[i].tpe })
}

/// Definition-order id assignment. From map `m`, counter `next` and the
/// counter value `def_id` of the enclosing ValDef (if this node sits on
/// its right-hand side outside any block), returns the extended map and
/// the counter after `t`:
/// - a ValDef not yet mapped takes `next + 1`; its right-hand side is
///   walked with `def_id = next`, and the counter ends at `next + 1`;
/// - FuncValue arguments take consecutive numbers from `def_id + 1`
///   (`next + 1` without one), and the body counts on from there
///   without moving the outer counter;
/// - both branches of an If start from the counter after the condition,
///   which is also the counter after the If;
/// - block items are walked with no `def_id`.
pub open spec fn assign(t: Tree, m: Map<u32, u32>, next: nat, def_id: Option<nat>) -> (
    Map<u32, u32>,
    nat,
)
    decreases t,
{
    match t {
        Tree::Block { items, result } => {
            let (m1, n1) = assign_seq(items, m, next, None);
            assign(*result, m1, n1, def_id)
        },
        Tree::ValDef { id, rhs } => if !m.contains_key(id) {
            let (m1, _n1) = assign(*rhs, m, next, Some(next));
            (m1.insert(id, (next + 1) as u32), next + 1)
        } else {
            assign(*rhs, m, next, None)
        },
        Tree::Func { args, body } => {
            let start = match def_id {
                Some(d) => d + 1,
                None => next + 1,
            };
            let (m1, b) = assign_args(args, m, start);
            let (m2, _n2) = assign(*body, m1, b, None);
            (m2, next)
        },
        Tree::If { cond, then_branch, else_branch } => {
            let (m1, n1) = assign(*cond, m, next, def_id);
            let (m2, _n2) = assign(*then_branch, m1, n1, def_id);
            let (m3, _n3) = assign(*else_branch, m2, n1, def_id);
            (m3, n1)
        },
        Tree::Op { children, .. } => assign_seq(children, m, next, def_id),
        Tree::ValUse { .. } => (m, next),
    }
}

/// `assign` over a sequence, left to right.
pub open spec fn assign_seq(s: Seq<Tree>, m: Map<u32, u32>, next: nat, def_id: Option<nat>) -> (
    Map<u32, u32>,
    nat,
)
    decreases s,
{
    if s.len() == 0 {
        (m, next)
    } else {
        let (m1, n1) = assign_seq(s.drop_last(), m, next, def_id);
        assign(s.last(), m1, n1, def_id)
    }
}

/// Arguments not yet mapped take consecutive numbers from `start`.
pub open spec fn assign_args(args: Seq<FuncArg>, m: Map<u32, u32>, start: nat) -> (
    Map<u32, u32>,
    nat,
)
    decreases args.len(),
{
    if args.len() == 0 {
        (m, start)
    } else {
        let (m1, b) = assign_args(args.drop_last(), m, start);
        let id = args.last().id;
        if !m1.contains_key(id) {
            (m1.insert(id, b as u32), b + 1)
        } else {
            (m1, b)
        }
    }
}

/// `def_id` as a mathematical counter value.
pub open spec fn opt_nat(o: Option<u32>) -> Option<nat> {
    match o {
        Some(d) => Some(d as nat),
        None => None,
    }
}

pub proof fn lemma_seq_size_prefix(s: Seq<Tree>, i: int)
    requires
        0 <= i <= s.len(),
    ensures
        seq_size(s.subrange(0, i)) <= seq_size(s),
    decreases s.len(),
{
    if i < s.len() {
        assert(s.drop_last() == s.subrange(0, s.len() - 1));
        assert(s.subrange(0, i) == s.drop_last().subrange(0, i));
        lemma_seq_size_prefix(s.drop_last(), i);
    } else {
        assert(s.subrange(0, i) == s);
    }
}

proof fn lemma_prefix_step<A>(s: Seq<A>, i: int)
    requires
        0 <= i < s.len(),
    ensures
        s.subrange(0, i + 1).drop_last() == s.subrange(0, i),
        s.subrange(0, i + 1).last() == s[i],
        s.subrange(0, i + 1).len() == i + 1,
{
    assert(s.subrange(0, i + 1).drop_last() =~= s.subrange(0, i));
}

fn assign_ids_seq(
    v: &Vec<Node>,
    id_map: &mut HashMap<u32, u32>,
    next_id: &mut u32,
    def_id: Option<u32>,
)
    requires
        *old(next_id) + seq_size(nodes_view(v@)) <= u32::MAX,
        def_id matches Some(d) ==> d <= *old(next_id),
    ensures
        (final(id_map)@, *final(next_id) as nat) == assign_seq(
            nodes_view(v@),
            old(id_map)@,
            *old(next_id) as nat,
            opt_nat(def_id),
        ),
        *old(next_id) <= *final(next_id) <= *old(next_id) + seq_size(nodes_view(v@)),
    decreases v@,
{
    let ghost s = nodes_view(v@);
    let ghost m0 = id_map@;
    let ghost n0 = *next_id;
    let mut i: usize = 0;
    proof {
        assert(s.subrange(0, 0) =~= Seq::<Tree>::empty());
    }
    while i < v.len()
        invariant
            0 <= i <= v@.len(),
            s == nodes_view(v@),
            n0 + seq_size(s) <= u32::MAX,
            def_id matches Some(d) ==> d <= n0,
            (id_map@, *next_id as nat) == assign_seq(s.subrange(0, i as int), m0, n0 as nat, opt_nat(def_id)),
            n0 <= *next_id <= n0 + seq_size(s.subrange(0, i as int)),
        decreases v.len() - i,
    {
        proof {
            lemma_prefix_step(s, i as int);
            lemma_seq_size_prefix(s, i + 1);
            assert(s[i as int] == node_view(v@[i as int]));
        }
        assert(decreases_to!(v@ => v@[i as int]));
        collect_and_assign_ids(&v[i], id_map, next_id, def_id);
        i += 1;
    }
    proof {
        assert(s.subrange(0, i as int) =~= s);
    }
}

/// Walk the tree in definition order and record the new number of every
/// ValDef and FuncValue argument in `id_map`, as `assign` states.
pub fn collect_and_assign_ids(
    n: &Node,
    id_map: &mut HashMap<u32, u32>,
    next_id: &mut u32,
    def_id: Option<u32>,
)
    requires
        *old(next_id) + tree_size(n@) <= u32::MAX,
        def_id matches Some(d) ==> d <= *old(next_id),
    ensures
        (final(id_map)@, *final(next_id) as nat) == assign(
            n@,
            old(id_map)@,
            *old(next_id) as nat,
            opt_nat(def_id),
        ),
        *old(next_id) <= *final(next_id) <= *old(next_id) + tree_size(n@),
    decreases n,
{
    match n {
        Node::Block { items, result } => {
            assert(n@ == Tree::Block { items: nodes_view(items@), result: Box::new(node_view(**result)) });
            assign_ids_seq(items, id_map, next_id, None);
            collect_and_assign_ids(result, id_map, next_id, def_id);
        },
        Node::ValDef { id, rhs } => {
            assert(n@ == Tree::ValDef { id: *id, rhs: Box::new(node_view(**rhs)) });
            let old_id = *id;
            if !id_map.contains_key(&old_id) {
                let my_def_id = *next_id;
                collect_and_assign_ids(rhs, id_map, next_id, Some(my_def_id));
                *next_id = my_def_id + 1;
                id_map.insert(old_id, *next_id);
            } else {
                collect_and_assign_ids(rhs, id_map, next_id, None);
            }
        },
        Node::Func { args, body } => {
            assert(n@ == Tree::Func { args: args@, body: Box::new(node_view(**body)) });
            let func_arg_start = match def_id {
                Some(did) => did + 1,
                None => *next_id + 1,
            };
            let mut body_id = func_arg_start;
            let ghost m0 = id_map@;
            let mut i: usize = 0;
            proof {
                assert(args@.subrange(0, 0) =~= Seq::<FuncArg>::empty());
            }
            while i < args.len()
                invariant
                    0 <= i <= args@.len(),
                    (id_map@, body_id as nat) == assign_args(
                        args@.subrange(0, i as int),
                        m0,
                        func_arg_start as nat,
                    ),
                    func_arg_start <= body_id <= func_arg_start + i,
                    func_arg_start + args@.len() + tree_size(node_view(**body)) <= u32::MAX,
                decreases args.len() - i,
            {
                proof {
                    lemma_prefix_step(args@, i as int);
                }
                let old_id = args[i].id;
                if !id_map.contains_key(&old_id) {
                    id_map.insert(old_id, body_id);
                    body_id += 1;
                }
                i += 1;
            }
            proof {
                assert(args@.subrange(0, i as int) =~= args@);
            }
            collect_and_assign_ids(body, id_map, &mut body_id, None);
        },
        Node::If { cond, then_branch, else_branch } => {
            assert(n@ == Tree::If {
                cond: Box::new(node_view(**cond)),
                then_branch: Box::new(node_view(**then_branch)),
                else_branch: Box::new(node_view(**else_branch)),
            });
            collect_and_assign_ids(cond, id_map, next_id, def_id);
            let branch_start = *next_id;
            collect_and_assign_ids(then_branch, id_map, next_id, def_id);
            *next_id = branch_start;
            collect_and_assign_ids(else_branch, id_map, next_id, def_id);
            *next_id = branch_start;
        },
        Node::Op { children, .. } => {
            assign_ids_seq(children, id_map, next_id, def_id);
        },
        Node::ValUse { .. } => {},
    }
}

fn rewrite_args_exec(args: &Vec<FuncArg>, id_map: &HashMap<u32, u32>) -> (r: Vec<FuncArg>)
    ensures
        r@ == rewrite_args(args@, id_map@),
{
    let mut out: Vec<FuncArg> = Vec::new();
    let mut i: usize = 0;
    while i < args.len()
        invariant
            0 <= i <= args@.len(),
            out@.len() == i,
            forall|j: int| 0 <= j < i ==> #[trigger] out@[j] == (FuncArg {
                id: renamed(id_map@, args@[j].id),
                tpe: args@[j].tpe,
            }),
        decreases args.len() - i,
    {
        let a = args[i];
        let new_id = match id_map.get(&a.id) {
            Some(v) => *v,
            None => a.id,
        };
        out.push(FuncArg { id: new_id, tpe: a.tpe });
        i += 1;
    }
    assert(out@ =~= rewrite_args(args@, id_map@));
    out
}

fn rewrite_ids_seq(v: &Vec<Node>, id_map: &HashMap<u32, u32>) -> (r: Vec<Node>)
    ensures
        nodes_view(r@) == rewrite_seq(nodes_view(v@), id_map@),
    decreases v@,
{
    let mut out: Vec<Node> = Vec::new();
    let mut i: usize = 0;
    while i < v.len()
        invariant
            0 <= i <= v@.len(),
            out@.len() == i,
            forall|j: int| 0 <= j < i ==> node_view(#[trigger] out@[j]) == rewrite(node_view(v@[j]), id_map@),
        decreases v.len() - i,
    {
        assert(decreases_to!(v@ => v@[i as int]));
        out.push(rewrite_ids(&v[i], id_map));
        i += 1;
    }
    assert(nodes_view(out@) =~= rewrite_seq(nodes_view(v@), id_map@));
    out
}

/// Replace every ValDef, ValUse and FuncValue-argument id by its image
/// under `id_map` (ids without one stay).
pub fn rewrite_ids(n: &Node, id_map: &HashMap<u32, u32>) -> (r: Node)
    ensures
        r@ == rewrite(n@, id_map@),
    decreases n,
{
    match n {
        Node::ValDef { id, rhs } => {
            let new_id = match id_map.get(id) {
                Some(v) => *v,
                None => *id,
            };
            Node::ValDef { id: new_id, rhs: Box::new(rewrite_ids(rhs, id_map)) }
        },
        Node::ValUse { id, tpe } => {
            let new_id = match id_map.get(id) {
                Some(v) => *v,
                None => *id,
            };
            Node::ValUse { id: new_id, tpe: *tpe }
        },
        Node::Block { items, result } => Node::Block {
            items: rewrite_ids_seq(items, id_map),
            result: Box::new(rewrite_ids(result, id_map)),
        },
        Node::If { cond, then_branch, else_branch } => Node::If {
            cond: Box::new(rewrite_ids(cond, id_map)),
            then_branch: Box::new(rewrite_ids(then_branch, id_map)),
            else_branch: Box::new(rewrite_ids(else_branch, id_map)),
        },
        Node::Func { args, body } => Node::Func {
            args: rewrite_args_exec(args, id_map),
            body: Box::new(rewrite_ids(body, id_map)),
        },
        Node::Op { kind, payload, children } => Node::Op {
            kind: *kind,
            payload: *payload,
            children: rewrite_ids_seq(children, id_map),
        },
    }
}

/// The final numbering pass: ids assigned in definition order as
/// `assign` states (from an empty map and counter 0), then every id
/// rewritten through the resulting map.
pub fn sequential_renumber(expr: Node) -> (r: Node)
    requires
        tree_size(expr@) <= u32::MAX,
    ensures
        r@ == rewrite(expr@, assign(expr@, Map::empty(), 0, None).0),
{
    let mut id_map: HashMap<u32, u32> = HashMap::new();
    let mut next_id: u32 = 0;
    collect_and_assign_ids(&expr, &mut id_map, &mut next_id, None);
    rewrite_ids(&expr, &id_map)
}


/// Operator kinds whose operands `collect_def_ids` looks into.
pub open spec fn def_search_kind(k: OpKind) -> bool {
    match k {
        OpKind::Apply | OpKind::BinOp | OpKind::BoolToSigmaProp | OpKind::ByIndex
        | OpKind::CalcBlake2b256 | OpKind::Downcast | OpKind::Exists | OpKind::ExtractAmount
        | OpKind::ExtractBytes | OpKind::ExtractCreationInfo | OpKind::ExtractId
        | OpKind::ExtractRegisterAs | OpKind::ExtractScriptBytes | OpKind::Filter | OpKind::Fold
        | OpKind::ForAll | OpKind::LogicalNot | OpKind::CollMap | OpKind::MethodCall
        | OpKind::Negation | OpKind::OptionGet | OpKind::OptionGetOrElse | OpKind::OptionIsDefined
        | OpKind::PropertyCall | OpKind::SelectField | OpKind::SigmaAnd | OpKind::SigmaOr
        | OpKind::SigmaPropBytes | OpKind::SizeOf | OpKind::Slice | OpKind::TreeLookup
        | OpKind::Tuple | OpKind::Upcast => true,
        _ => false,
    }
}

fn is_def_search_kind(k: OpKind) -> (r: bool)
    ensures
        r == def_search_kind(k),
{
    match k {
        OpKind::Apply | OpKind::BinOp | OpKind::BoolToSigmaProp | OpKind::ByIndex
        | OpKind::CalcBlake2b256 | OpKind::Downcast | OpKind::Exists | OpKind::ExtractAmount
        | OpKind::ExtractBytes | OpKind::ExtractCreationInfo | OpKind::ExtractId
        | OpKind::ExtractRegisterAs | OpKind::ExtractScriptBytes | OpKind::Filter | OpKind::Fold
        | OpKind::ForAll | OpKind::LogicalNot | OpKind::CollMap | OpKind::MethodCall
        | OpKind::Negation | OpKind::OptionGet | OpKind::OptionGetOrElse | OpKind::OptionIsDefined
        | OpKind::PropertyCall | OpKind::SelectField | OpKind::SigmaAnd | OpKind::SigmaOr
        | OpKind::SigmaPropBytes | OpKind::SizeOf | OpKind::Slice | OpKind::TreeLookup
        | OpKind::Tuple | OpKind::Upcast => true,
        _ => false,
    }
}

/// Preorder numbering: from map `m` and counter `next`, every ValDef and
/// FuncValue argument not yet mapped takes the counter's value, which then
/// moves on by one; a ValDef is numbered before its right-hand side, and
/// the arguments before the body. The walk goes through blocks, Ifs, ValDef
/// right-hand sides and FuncValue bodies, and the operands of the searched
/// kinds only. Returns the extended map and the counter after `t`.
pub open spec fn def_number(t: Tree, m: Map<u32, u32>, next: nat) -> (Map<u32, u32>, nat)
    decreases t,
{
    match t {
        Tree::Block { items, result } => {
            let (m1, n1) = def_number_seq(items, m, next);
            def_number(*result, m1, n1)
        },
        Tree::ValDef { id, rhs } => if !m.contains_key(id) {
            def_number(*rhs, m.insert(id, next as u32), next + 1)
        } else {
            def_number(*rhs, m, next)
        },
        Tree::Func { args, body } => {
            let (m1, n1) = def_number_args(args, m, next);
            def_number(*body, m1, n1)
        },
        Tree::If { cond, then_branch, else_branch } => {
            let (m1, n1) = def_number(*cond, m, next);
            let (m2, n2) = def_number(*then_branch, m1, n1);
            def_number(*else_branch, m2, n2)
        },
        Tree::Op { kind, children, .. } => if def_search_kind(kind) {
            def_number_seq(children, m, next)
        } else {
            (m, next)
        },
        Tree::ValUse { .. } => (m, next),
    }
}

pub open spec fn def_number_seq(s: Seq<Tree>, m: Map<u32, u32>, next: nat) -> (Map<u32, u32>, nat)
    decreases s,
{
    if s.len() == 0 {
        (m, next)
    } else {
        let (m1, n1) = def_number_seq(s.drop_last(), m, next);
        def_number(s.last(), m1, n1)
    }
}

pub open spec fn def_number_args(args: Seq<FuncArg>, m: Map<u32, u32>, next: nat) -> (
    Map<u32, u32>,
    nat,
)
    decreases args.len(),
{
    if args.len() == 0 {
        (m, next)
    } else {
        let (m1, n1) = def_number_args(args.drop_last(), m, next);
        let id = args.last().id;
        if !m1.contains_key(id) {
            (m1.insert(id, n1 as u32), n1 + 1)
        } else {
            (m1, n1)
        }
    }
}

proof fn lemma_def_number_bound(t: Tree, m: Map<u32, u32>, next: nat)
    ensures
        next <= def_number(t, m, next).1 <= next + tree_size(t),
    decreases t,
{
    match t {
        Tree::Block { items, result } => {
            lemma_def_number_seq_bound(items, m, next);
            let (m1, n1) = def_number_seq(items, m, next);
            lemma_def_number_bound(*result, m1, n1);
        },
        Tree::ValDef { id, rhs } => {
            if !m.contains_key(id) {
                lemma_def_number_bound(*rhs, m.insert(id, next as u32), next + 1);
            } else {
                lemma_def_number_bound(*rhs, m, next);
            }
        },
        Tree::Func { args, body } => {
            lemma_def_number_args_bound(args, m, next);
            let (m1, n1) = def_number_args(args, m, next);
            lemma_def_number_bound(*body, m1, n1);
        },
        Tree::If { cond, then_branch, else_branch } => {
            lemma_def_number_bound(*cond, m, next);
            let (m1, n1) = def_number(*cond, m, next);
            lemma_def_number_bound(*then_branch, m1, n1);
            let (m2, n2) = def_number(*then_branch, m1, n1);
            lemma_def_number_bound(*else_branch, m2, n2);
        },
        Tree::Op { children, .. } => {
            lemma_def_number_seq_bound(children, m, next);
        },
        Tree::ValUse { .. } => {},
    }
}

proof fn lemma_def_number_seq_bound(s: Seq<Tree>, m: Map<u32, u32>, next: nat)
    ensures
        next <= def_number_seq(s, m, next).1 <= next + seq_size(s),
    decreases s,
{
    if s.len() > 0 {
        lemma_def_number_seq_bound(s.drop_last(), m, next);
        let (m1, n1) = def_number_seq(s.drop_last(), m, next);
        lemma_def_number_bound(s.last(), m1, n1);
    }
}

proof fn lemma_def_number_args_bound(args: Seq<FuncArg>, m: Map<u32, u32>, next: nat)
    ensures
        next <= def_number_args(args, m, next).1 <= next + args.len(),
    decreases args.len(),
{
    if args.len() > 0 {
        lemma_def_number_args_bound(args.drop_last(), m, next);
    }
}

fn def_ids_seq(v: &Vec<Node>, id_map: &mut HashMap<u32, u32>, next_id: &mut u32)
    requires
        *old(next_id) + seq_size(nodes_view(v@)) <= u32::MAX,
    ensures
        (final(id_map)@, *final(next_id) as nat) == def_number_seq(
            nodes_view(v@),
            old(id_map)@,
            *old(next_id) as nat,
        ),
    decreases v@,
{
    let ghost s = nodes_view(v@);
    let ghost m0 = id_map@;
    let ghost n0 = *next_id;
    let mut i: usize = 0;
    while i < v.len()
        invariant
            0 <= i <= v@.len(),
            s == nodes_view(v@),
            n0 + seq_size(s) <= u32::MAX,
            (id_map@, *next_id as nat) == def_number_seq(s.subrange(0, i as int), m0, n0 as nat),
        decreases v.len() - i,
    {
        proof {
            lemma_prefix_step(s, i as int);
            lemma_seq_size_prefix(s, i + 1);
            lemma_seq_size_prefix(s, i as int);
            lemma_def_number_seq_bound(s.subrange(0, i as int), m0, n0 as nat);
            assert(s[i as int] == node_view(v@[i as int]));
            assert(seq_size(s.subrange(0, i + 1)) == seq_size(s.subrange(0, i as int)) + tree_size(
                s[i as int],
            ));
        }
        assert(decreases_to!(v@ => v@[i as int]));
        collect_def_ids(&v[i], id_map, next_id);
        i += 1;
    }
    proof {
        assert(s.subrange(0, i as int) =~= s);
    }
}

/// Numbers the ValDefs and FuncValue arguments of `expr` in preorder, as
/// `def_number` says, recording the numbers in `id_map`.
pub fn collect_def_ids(expr: &Node, id_map: &mut HashMap<u32, u32>, next_id: &mut u32)
    requires
        *old(next_id) + tree_size(expr@) <= u32::MAX,
    ensures
        (final(id_map)@, *final(next_id) as nat) == def_number(
            expr@,
            old(id_map)@,
            *old(next_id) as nat,
        ),
    decreases expr,
{
    proof {
        lemma_def_number_bound(expr@, id_map@, *next_id as nat);
    }
    match expr {
        Node::Block { items, result } => {
            assert(expr@ == Tree::Block {
                items: nodes_view(items@),
                result: Box::new(node_view(**result)),
            });
            proof {
                lemma_def_number_seq_bound(nodes_view(items@), id_map@, *next_id as nat);
            }
            def_ids_seq(items, id_map, next_id);
            collect_def_ids(result, id_map, next_id);
        },
        Node::ValDef { id, rhs } => {
            assert(expr@ == Tree::ValDef { id: *id, rhs: Box::new(node_view(**rhs)) });
            let old_id = *id;
            if !id_map.contains_key(&old_id) {
                id_map.insert(old_id, *next_id);
                *next_id = *next_id + 1;
            }
            collect_def_ids(rhs, id_map, next_id);
        },
        Node::Func { args, body } => {
            assert(expr@ == Tree::Func { args: args@, body: Box::new(node_view(**body)) });
            let ghost m0 = id_map@;
            let ghost n0 = *next_id;
            let mut i: usize = 0;
            while i < args.len()
                invariant
                    0 <= i <= args@.len(),
                    (id_map@, *next_id as nat) == def_number_args(
                        args@.subrange(0, i as int),
                        m0,
                        n0 as nat,
                    ),
                    n0 <= *next_id <= n0 + i,
                    n0 + args@.len() + tree_size(node_view(**body)) <= u32::MAX,
                decreases args.len() - i,
            {
                proof {
                    lemma_prefix_step(args@, i as int);
                }
                let old_id = args[i].id;
                if !id_map.contains_key(&old_id) {
                    id_map.insert(old_id, *next_id);
                    *next_id = *next_id + 1;
                }
                i += 1;
            }
            proof {
                assert(args@.subrange(0, i as int) =~= args@);
            }
            collect_def_ids(body, id_map, next_id);
        },
        Node::If { cond, then_branch, else_branch } => {
            assert(expr@ == Tree::If {
                cond: Box::new(node_view(**cond)),
                then_branch: Box::new(node_view(**then_branch)),
                else_branch: Box::new(node_view(**else_branch)),
            });
            proof {
                lemma_def_number_bound(node_view(**cond), id_map@, *next_id as nat);
            }
            collect_def_ids(cond, id_map, next_id);
            proof {
                lemma_def_number_bound(node_view(**then_branch), id_map@, *next_id as nat);
            }
            collect_def_ids(then_branch, id_map, next_id);
            collect_def_ids(else_branch, id_map, next_id);
        },
        Node::Op { kind, payload, children } => {
            assert(expr@ == Tree::Op {
                kind: *kind,
                payload: *payload,
                children: nodes_view(children@),
            });
            if is_def_search_kind(*kind) {
                def_ids_seq(children, id_map, next_id);
            }
        },
        Node::ValUse { .. } => {},
    }
}

/// Renumbers the ids of `expr` from 1 in preorder of definition: the map of
/// `def_number` from 1, applied by `rewrite`.
pub fn renumber_val_ids(expr: Node) -> (r: Node)
    requires
        1 + tree_size(expr@) <= u32::MAX,
    ensures
        r@ == rewrite(expr@, def_number(expr@, Map::empty(), 1).0),
{
    let mut id_map: HashMap<u32, u32> = HashMap::new();
    let mut next_id: u32 = 1;
    proof {
        assert(id_map@ =~= Map::<u32, u32>::empty());
    }
    collect_def_ids(&expr, &mut id_map, &mut next_id);
    rewrite_ids(&expr, &id_map)
}


/// A tree of operators and ValUses only: it binds no id.
pub open spec fn binds_nothing(t: Tree) -> bool
    decreases t,
{
    match t {
        Tree::ValUse { .. } => true,
        Tree::Op { children, .. } => forall|i: int| 0 <= i < children.len() ==> binds_nothing(#[trigger] children[i]),
        _ => false,
    }
}

proof fn lemma_assign_binds_nothing(t: Tree, m: Map<u32, u32>, next: nat, d: Option<nat>)
    requires
        binds_nothing(t),
    ensures
        assign(t, m, next, d) == (m, next),
    decreases t,
{
    match t {
        Tree::Op { children, .. } => {
            lemma_assign_seq_binds_nothing(children, children.len() as int, m, next, d);
            assert(children.subrange(0, children.len() as int) =~= children);
        },
        _ => {},
    }
}

proof fn lemma_assign_seq_binds_nothing(s: Seq<Tree>, k: int, m: Map<u32, u32>, next: nat, d: Option<nat>)
    requires
        0 <= k <= s.len(),
        forall|i: int| 0 <= i < s.len() ==> binds_nothing(#[trigger] s[i]),
    ensures
        assign_seq(s.subrange(0, k), m, next, d) == (m, next),
    decreases s, k,
{
    if k > 0 {
        lemma_assign_seq_binds_nothing(s, k - 1, m, next, d);
        assert(s.subrange(0, k).drop_last() =~= s.subrange(0, k - 1));
        assert(s.subrange(0, k).last() == s[k - 1]);
        lemma_assign_binds_nothing(s[k - 1], m, next, d);
    }
}

/// The map numbering the first `k` ValDef items 1 to `k`.
pub open spec fn first_numbers(items: Seq<Tree>, k: int) -> Map<u32, u32>
    decreases k,
{
    if k <= 0 {
        Map::empty()
    } else {
        first_numbers(items, k - 1).insert(items[k - 1]->ValDef_id, k as u32)
    }
}

proof fn lemma_assign_items(items: Seq<Tree>, k: int)
    requires
        0 <= k <= items.len(),
        items.len() < u32::MAX,
        forall|i: int| 0 <= i < items.len() ==> #[trigger] items[i] is ValDef && binds_nothing(*items[i]->ValDef_rhs),
        forall|i: int, j: int| 0 <= i < j < items.len() ==> #[trigger] items[i]->ValDef_id != #[trigger] items[j]->ValDef_id,
    ensures
        assign_seq(items.subrange(0, k), Map::empty(), 0, None) == (first_numbers(items, k), k as nat),
        forall|x: u32| #[trigger] first_numbers(items, k).contains_key(x) <==> exists|i: int| 0 <= i < k && items[i]->ValDef_id == x,
        forall|i: int| 0 <= i < k ==> #[trigger] first_numbers(items, k)[items[i]->ValDef_id] == i + 1,
    decreases k,
{
    if k == 0 {
        assert(items.subrange(0, 0) =~= Seq::<Tree>::empty());
    }
    if k > 0 {
        lemma_assign_items(items, k - 1);
        assert(items.subrange(0, k).drop_last() =~= items.subrange(0, k - 1));
        assert(items.subrange(0, k).last() == items[k - 1]);
        let m = first_numbers(items, k - 1);
        let id = items[k - 1]->ValDef_id;
        assert(!m.contains_key(id)) by {
            if m.contains_key(id) {
                let i = choose|i: int| 0 <= i < k - 1 && items[i]->ValDef_id == id;
                assert(items[i]->ValDef_id != items[k - 1]->ValDef_id);
            }
        }
        lemma_assign_binds_nothing(*items[k - 1]->ValDef_rhs, m, (k - 1) as nat, Some((k - 1) as nat));
        match items[k - 1] {
            Tree::ValDef { id: d, rhs } => {
                assert(assign(items[k - 1], m, (k - 1) as nat, None) == (m.insert(d, k as u32), k as nat));
            },
            _ => {},
        }
        assert forall|x: u32| #[trigger] first_numbers(items, k).contains_key(x) <==> exists|i: int| 0 <= i < k && items[i]->ValDef_id == x by {
            if first_numbers(items, k).contains_key(x) && x != id {
                assert(m.contains_key(x));
            }
            if x == id {
                assert(items[k - 1]->ValDef_id == x);
            }
        }
        assert forall|i: int| 0 <= i < k implies #[trigger] first_numbers(items, k)[items[i]->ValDef_id] == i + 1 by {
            if i < k - 1 {
                assert(items[i]->ValDef_id != items[k - 1]->ValDef_id);
                assert(m[items[i]->ValDef_id] == i + 1);
            }
        }
    }
}

/// Renumbering a block of `k` ValDef items with distinct ids, none of
/// whose right-hand sides binds an id, numbers its items 1 to `k` in
/// order.
pub proof fn law_renumber_numbers_block_items_in_order(items: Seq<Tree>, result: Tree)
    requires
        items.len() < u32::MAX,
        forall|i: int| 0 <= i < items.len() ==> #[trigger] items[i] is ValDef && binds_nothing(*items[i]->ValDef_rhs),
        forall|i: int, j: int| 0 <= i < j < items.len() ==> #[trigger] items[i]->ValDef_id != #[trigger] items[j]->ValDef_id,
        binds_nothing(result),
    ensures
        ({
            let t = Tree::Block { items, result: Box::new(result) };
            let r = rewrite(t, assign(t, Map::empty(), 0, None).0);
            &&& r is Block
            &&& r->Block_items.len() == items.len()
            &&& forall|i: int| 0 <= i < items.len() ==> #[trigger] r->Block_items[i] == Tree::ValDef {
                id: (i + 1) as u32,
                rhs: Box::new(rewrite(*items[i]->ValDef_rhs, assign(t, Map::empty(), 0, None).0)),
            }
        }),
{
    let t = Tree::Block { items, result: Box::new(result) };
    lemma_assign_items(items, items.len() as int);
    assert(items.subrange(0, items.len() as int) =~= items);
    let k = items.len() as nat;
    lemma_assign_binds_nothing(result, first_numbers(items, items.len() as int), k, None);
    let m = assign(t, Map::empty(), 0, None).0;
    assert(m == first_numbers(items, items.len() as int));
    assert forall|i: int| 0 <= i < items.len() implies #[trigger] rewrite_seq(items, m)[i] == Tree::ValDef {
        id: (i + 1) as u32,
        rhs: Box::new(rewrite(*items[i]->ValDef_rhs, m)),
    } by {
        let id = items[i]->ValDef_id;
        assert(m.contains_key(id));
        assert(m[id] == i + 1);
        match items[i] {
            Tree::ValDef { id: d, rhs } => {
                assert(rewrite(items[i], m) == Tree::ValDef { id: renamed(m, d), rhs: Box::new(rewrite(*rhs, m)) });
            },
            _ => {},
        }
    }
}

} // verus!
