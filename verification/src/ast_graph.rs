use std::collections::HashSet;

use vstd::prelude::*;

use crate::alias::{alias_count_for, first_count};
use crate::assoc::pairs_view;
use crate::dag::{
    children_total, count_dag_usages, dag_nodes, dag_usage, expr_type, extractable, is_extractable,
    type_of, TypeTags,
};
use crate::schedule::{dfs, dfs_schedule};
use crate::extract::{lemma_max_id_unique, max_id, max_id_is};
use crate::graph::{build_value_recurse, built};
use crate::hash_cons::{
    hc2_env, hc2_pass_ok, hc_pass_ok, hc_processed, process_ast_graph_hash_cons, process_ast_graph_hash_cons_v2,
    HashCons,
};
use crate::max_id::find_max_val_id;
use crate::node::{clone_node, node_view, nodes_view, Node, OpKind, Tree};
use crate::predicates::{
    graph_shared, is_graph_shared, references_locally_defined, refers_to, touches,
    touches_context, touches_runtime_context,
};
use crate::rescue::{lambda_rescue_post_pass, rescue_run};
use crate::scopes::{branch_local, collect_branch_local_val_ids};
use crate::topo::{topo_order, topo_order_valdefs};
use crate::visibility::{
    appears_in_main_scope, appears_outside_if_branches, containing_count,
    count_distinct_top_level_containers, in_main_scope, outside_if, top_containers,
};
use crate::walk::{
    count_occurrences, lemma_replaced_count, node_count, occurrences, replace_all, replaced,
    tree_children,
};

verus! {

/// The scope a graph pass runs at: the program's root, or a branch.
#[derive(PartialEq, Eq, Structural, Clone, Copy, Debug)]
pub enum ScopeMode {
    Root,
    Branch,
}

/// The first operand of an operator, if it has one.
pub open spec fn first_operand(t: Tree) -> Option<Tree> {
    match t {
        Tree::Op { children, .. } => if children.len() >= 1 {
            Some(children[0])
        } else {
            None
        },
        _ => None,
    }
}

/// `t` is an operator of kind `k`.
pub open spec fn is_kind(t: Tree, k: OpKind) -> bool {
    match t {
        Tree::Op { kind, .. } => kind == k,
        _ => false,
    }
}

/// `t` is present with `is_kind` `k`.
pub open spec fn opt_is_kind(t: Option<Tree>, k: OpKind) -> bool {
    match t {
        Some(x) => is_kind(x, k),
        None => false,
    }
}

/// `t` is present and is a ValUse.
pub open spec fn opt_is_val_use(t: Option<Tree>) -> bool {
    match t {
        Some(x) => x is ValUse,
        None => false,
    }
}

/// A field selection from a ValUse.
pub open spec fn select_on_val_use(node: Tree) -> bool {
    is_kind(node, OpKind::SelectField) && opt_is_val_use(first_operand(node))
}

/// A field selection from an input that is no ValUse and has an entry
/// with a usage count of at least two.
pub open spec fn select_on_shared(node: Tree, dag: Seq<(Tree, usize)>) -> bool {
    is_kind(node, OpKind::SelectField) && match first_operand(node) {
        Some(x) => !(x is ValUse) && exists|i: int| 0 <= i < dag.len() && dag[i].1 >= 2 && #[trigger] dag[i].0 == x,
        None => false,
    }
}

/// Candidates scope-checked by their occurrences outside If branches: the
/// id of a global variable, the amount of a global variable or of an
/// indexed box, and a `proveDlog` that touches no runtime context.
pub open spec fn branch_checked(node: Tree) -> bool {
    ||| is_kind(node, OpKind::ExtractId) && opt_is_kind(first_operand(node), OpKind::GlobalVars)
    ||| is_kind(node, OpKind::ExtractAmount) && (opt_is_kind(first_operand(node), OpKind::GlobalVars)
        || opt_is_kind(first_operand(node), OpKind::ByIndex))
    ||| is_kind(node, OpKind::CreateProveDlog) && !touches(node, false)
}

/// An upcast of a constant or constant placeholder.
pub open spec fn const_upcast(node: Tree) -> bool {
    is_kind(node, OpKind::Upcast) && (opt_is_kind(first_operand(node), OpKind::Const) || opt_is_kind(
        first_operand(node),
        OpKind::ConstPlaceholder,
    ))
}

/// At the root, a candidate that touches the context (or is one of the
/// kinds above) is extracted only where it is visible: by the permissive
/// checks for the kinds that need them, else in the main scope.
pub open spec fn root_in_scope(expr: Tree, node: Tree, dag: Seq<(Tree, usize)>) -> bool {
    let needs = (branch_checked(node) || touches(node, true) || const_upcast(node) || is_kind(
        node,
        OpKind::Const,
    ) || select_on_shared(node, dag)) && !select_on_val_use(node);
    !needs || if select_on_shared(node, dag) {
        outside_if(expr, node, false) || containing_count(top_containers(expr), node) >= 2
    } else if branch_checked(node) {
        outside_if(expr, node, false)
    } else {
        in_main_scope(expr, node, false, false)
    }
}

/// The ids defined only inside deeper If branches of `expr`.
pub open spec fn branch_locals(expr: Tree) -> Set<u32> {
    Set::new(|x: u32| branch_local(expr, false, x))
}

/// A scheduled node enters the environment: extractable, shared in the
/// graph, with a usage count of at least two, not referring to a
/// branch-local id, and (at the root) visible where it would be bound.
pub open spec fn env_admits(
    node: Tree,
    expr: Tree,
    dag: Seq<(Tree, usize)>,
    mode: ScopeMode,
    ops: Seq<u32>,
    big: u32,
) -> bool {
    &&& extractable(node, ops, big)
    &&& graph_shared(node)
    &&& first_count(dag, node) >= 2
    &&& !refers_to(node, branch_locals(expr))
    &&& (mode == ScopeMode::Root ==> root_in_scope(expr, node, dag))
}

/// The environment built from the first `k` scheduled nodes: each admitted
/// node with the next id from `next0`.
pub open spec fn env_sel(
    schedule: Seq<Tree>,
    k: int,
    expr: Tree,
    dag: Seq<(Tree, usize)>,
    mode: ScopeMode,
    ops: Seq<u32>,
    big: u32,
    next0: nat,
) -> Seq<(Tree, u32)>
    decreases k,
{
    if k <= 0 || k > schedule.len() {
        Seq::empty()
    } else {
        let e = env_sel(schedule, k - 1, expr, dag, mode, ops, big, next0);
        if env_admits(schedule[k - 1], expr, dag, mode, ops, big) {
            e.push((schedule[k - 1], (next0 + e.len()) as u32))
        } else {
            e
        }
    }
}

/// The extractions in environment order from position `i`: an entry still
/// occurring twice in `result` is replaced there (and in the later
/// entries) by a ValUse of its id and kept.
pub open spec fn apply_env(
    result: Tree,
    env: Seq<(Tree, u32)>,
    i: int,
    kept: Seq<(Tree, u32)>,
    ops: Seq<u32>,
) -> (Tree, Seq<(Tree, u32)>)
    decreases env.len() - i,
{
    if i < 0 || i >= env.len() {
        (result, kept)
    } else {
        let node = env[i].0;
        let vid = env[i].1;
        if occurrences(result, node) < 2 {
            apply_env(result, env, i + 1, kept, ops)
        } else {
            let u = Tree::ValUse { id: vid, tpe: type_of(node, ops) };
            apply_env(
                replaced(result, node, u),
                Seq::new(
                    env.len(),
                    |j: int|
                        if j > i {
                            (replaced(env[j].0, node, u), env[j].1)
                        } else {
                            env[j]
                        },
                ),
                i + 1,
                kept.push((node, vid)),
                ops,
            )
        }
    }
}

/// The largest of the ids of `env`; 0 for none.
pub open spec fn max_env_id(env: Seq<(Tree, u32)>) -> u32
    decreases env.len(),
{
    if env.len() == 0 {
        0
    } else if max_env_id(env.drop_last()) >= env.last().1 {
        max_env_id(env.drop_last())
    } else {
        env.last().1
    }
}

/// The ValDefs of the kept environment, each right-hand side built
/// through the environment.
pub open spec fn env_defs(env: Seq<(Tree, u32)>, ops: Seq<u32>) -> Seq<Tree> {
    Seq::new(env.len(), |i: int| Tree::ValDef { id: env[i].1, rhs: Box::new(built(env[i].0, env, ops)) })
}

/// The first free id of a graph pass.
pub open spec fn graph_next0(expr: Tree, global_max_id: u32) -> nat {
    ((if max_id(expr) >= global_max_id {
        max_id(expr)
    } else {
        global_max_id
    }) + 1) as nat
}

/// The rescue run a graph pass with the environment `env` ends with,
/// once it kept some extraction.
pub open spec fn env_rescue(expr: Tree, env: Seq<(Tree, u32)>, ops: Seq<u32>, big: u32) -> ((Seq<Tree>, Tree, nat), bool) {
    let a = apply_env(expr, env, 0, Seq::empty(), ops);
    rescue_run((env_defs(a.1, ops), a.0, (max_env_id(a.1) + 1) as nat), ops, big)
}

/// The rescue run a graph pass ends with, once it kept some extraction.
pub open spec fn graph_rescue(
    expr: Tree,
    global_max_id: u32,
    dag: Seq<(Tree, usize)>,
    schedule: Seq<Tree>,
    mode: ScopeMode,
    ops: Seq<u32>,
    big: u32,
) -> ((Seq<Tree>, Tree, nat), bool) {
    env_rescue(
        expr,
        env_sel(schedule, schedule.len() as int, expr, dag, mode, ops, big, graph_next0(expr, global_max_id)),
        ops,
        big,
    )
}

/// The tail of a graph pass with the environment `env`: the entries
/// still occurring twice are extracted in order; their ValDefs
/// (right-hand sides built through the environment) go through the lambda
/// rescue and, with the block's items, into `topo_order`.
pub open spec fn graph_from_env(expr: Tree, env: Seq<(Tree, u32)>, ops: Seq<u32>, big: u32) -> Tree {
    if env.len() == 0 {
        expr
    } else {
        let a = apply_env(expr, env, 0, Seq::empty(), ops);
        if a.1.len() == 0 {
            a.0
        } else {
            let r = env_rescue(expr, env, ops, big).0;
            match r.1 {
                Tree::Block { items, result } => Tree::Block { items: topo_order(r.0 + items), result },
                other => Tree::Block { items: topo_order(r.0), result: Box::new(other) },
            }
        }
    }
}

/// The graph pass: the scheduled nodes that `env_admits` get ids in
/// order, then the tail of `graph_from_env`.
pub open spec fn graph_processed(
    expr: Tree,
    global_max_id: u32,
    dag: Seq<(Tree, usize)>,
    schedule: Seq<Tree>,
    mode: ScopeMode,
    ops: Seq<u32>,
    big: u32,
) -> Tree {
    graph_from_env(
        expr,
        env_sel(schedule, schedule.len() as int, expr, dag, mode, ops, big, graph_next0(expr, global_max_id)),
        ops,
        big,
    )
}


pub(crate) fn first_operand_of(t: &Node) -> (r: Option<&Node>)
    ensures
        match first_operand(t@) {
            Some(x) => r is Some && r.unwrap()@ == x,
            None => r is None,
        },
{
    match t {
        Node::Op { kind, payload, children } => {
            assert(t@ == Tree::Op { kind: *kind, payload: *payload, children: nodes_view(children@) });
            if children.len() >= 1 {
                assert(nodes_view(children@)[0] == node_view(children@[0]));
                Some(&children[0])
            } else {
                None
            }
        },
        _ => None,
    }
}

pub(crate) fn has_kind(t: &Node, k: OpKind) -> (r: bool)
    ensures
        r == is_kind(t@, k),
{
    match t {
        Node::Op { kind, payload, children } => {
            assert(t@ == Tree::Op { kind: *kind, payload: *payload, children: nodes_view(children@) });
            *kind == k
        },
        _ => false,
    }
}

fn operand_has_kind(t: &Node, k: OpKind) -> (r: bool)
    ensures
        r == opt_is_kind(first_operand(t@), k),
{
    match first_operand_of(t) {
        Some(x) => has_kind(x, k),
        None => false,
    }
}

fn is_select_on_val_use(node: &Node) -> (r: bool)
    ensures
        r == select_on_val_use(node@),
{
    has_kind(node, OpKind::SelectField) && match first_operand_of(node) {
        Some(x) => match x {
            Node::ValUse { .. } => true,
            _ => false,
        },
        None => false,
    }
}

pub(crate) fn is_select_on_shared(node: &Node, dag: &Vec<(Node, usize)>) -> (r: bool)
    ensures
        r == select_on_shared(node@, pairs_view(dag@)),
{
    if !has_kind(node, OpKind::SelectField) {
        return false;
    }
    let ghost d = pairs_view(dag@);
    match first_operand_of(node) {
        Some(x) => {
            match x {
                Node::ValUse { .. } => {
                    return false;
                },
                _ => {},
            }
            assert(!(x@ is ValUse));
            let mut i: usize = 0;
            while i < dag.len()
                invariant
                    0 <= i <= dag@.len(),
                    d == pairs_view(dag@),
                    is_kind(node@, OpKind::SelectField),
                    first_operand(node@) == Some(x@),
                    !(x@ is ValUse),
                    forall|j: int| 0 <= j < i ==> !(d[j].1 >= 2 && #[trigger] d[j].0 == x@),
                decreases dag.len() - i,
            {
                assert(d[i as int] == (dag@[i as int].0@, dag@[i as int].1));
                if dag[i].1 >= 2 && crate::node::node_eq(&dag[i].0, x) {
                    assert(d[i as int].0 == x@ && d[i as int].1 >= 2);
                    assert(exists|j: int| 0 <= j < d.len() && d[j].1 >= 2 && #[trigger] d[j].0 == x@);
                    return true;
                }
                i += 1;
            }
            false
        },
        None => false,
    }
}

fn is_branch_checked(node: &Node) -> (r: bool)
    ensures
        r == branch_checked(node@),
{
    (has_kind(node, OpKind::ExtractId) && operand_has_kind(node, OpKind::GlobalVars)) || (has_kind(
        node,
        OpKind::ExtractAmount,
    ) && (operand_has_kind(node, OpKind::GlobalVars) || operand_has_kind(node, OpKind::ByIndex))) || (
    has_kind(node, OpKind::CreateProveDlog) && !touches_runtime_context(node))
}

fn is_const_upcast(node: &Node) -> (r: bool)
    ensures
        r == const_upcast(node@),
{
    has_kind(node, OpKind::Upcast) && (operand_has_kind(node, OpKind::Const) || operand_has_kind(
        node,
        OpKind::ConstPlaceholder,
    ))
}

/// Whether a root candidate is visible where it would be bound, as
/// `root_in_scope` says.
fn in_root_scope(expr: &Node, node: &Node, dag: &Vec<(Node, usize)>) -> (r: bool)
    ensures
        r == root_in_scope(expr@, node@, pairs_view(dag@)),
{
    let sf_shared = is_select_on_shared(node, dag);
    let branch = is_branch_checked(node);
    let needs = (branch || touches_context(node) || is_const_upcast(node) || has_kind(node, OpKind::Const)
        || sf_shared) && !is_select_on_val_use(node);
    if !needs {
        return true;
    }
    if sf_shared {
        appears_outside_if_branches(expr, node) || count_distinct_top_level_containers(expr, node) >= 2
    } else if branch {
        appears_outside_if_branches(expr, node)
    } else {
        appears_in_main_scope(expr, node)
    }
}

/// Whether a scheduled node enters the environment, as `env_admits` says.
fn admits(
    node: &Node,
    expr: &Node,
    dag: &Vec<(Node, usize)>,
    locals: &HashSet<u32>,
    mode: ScopeMode,
    tags: &TypeTags,
) -> (r: bool)
    requires
        locals@ == branch_locals(expr@),
    ensures
        r == env_admits(node@, expr@, pairs_view(dag@), mode, tags.op_types@, tags.big_int),
{
    if !is_extractable(node, tags) {
        return false;
    }
    if !is_graph_shared(node) {
        return false;
    }
    let sl = dag.as_slice();
    assert(sl@ == dag@);
    let count = alias_count_for(node, sl);
    if count < 2 {
        return false;
    }
    if references_locally_defined(node, locals) {
        return false;
    }
    match mode {
        ScopeMode::Root => in_root_scope(expr, node, dag),
        ScopeMode::Branch => true,
    }
}


proof fn lemma_env_sel_mono(
    schedule: Seq<Tree>,
    k: int,
    m: int,
    expr: Tree,
    dag: Seq<(Tree, usize)>,
    mode: ScopeMode,
    ops: Seq<u32>,
    big: u32,
    next0: nat,
)
    requires
        0 <= k <= m <= schedule.len(),
    ensures
        env_sel(schedule, k, expr, dag, mode, ops, big, next0).len() <= env_sel(
            schedule,
            m,
            expr,
            dag,
            mode,
            ops,
            big,
            next0,
        ).len(),
    decreases m - k,
{
    if k < m {
        lemma_env_sel_mono(schedule, k, m - 1, expr, dag, mode, ops, big, next0);
    }
}

/// The graph pass over `expr` with the usage counts `dag_usages` and the
/// schedule `schedule`, as `graph_processed` says. The ids it hands out
/// must fit in `u32`, the tree in `usize`, and the lambda rescue it ends

/// The tail of a graph pass with the environment `env`, as
/// `graph_from_env` says; the ids of `env` stay below `u32::MAX` and the
/// lambda rescue must not overflow.
pub(crate) fn graph_finish(expr: Node, env: Vec<(Node, u32)>, tags: &TypeTags) -> (r: Node)
    requires
        node_count(expr@) <= usize::MAX,
        forall|j: int| 0 <= j < env@.len() ==> (#[trigger] env@[j]).1 < u32::MAX,
        apply_env(expr@, pairs_view(env@), 0, Seq::empty(), tags.op_types@).1.len() > 0 ==> env_rescue(
            expr@,
            pairs_view(env@),
            tags.op_types@,
            tags.big_int,
        ).1,
    ensures
        r@ == graph_from_env(expr@, pairs_view(env@), tags.op_types@, tags.big_int),
{
    let ghost t = expr@;
    let ghost ops = tags.op_types@;
    let ghost big = tags.big_int;
    let mut env = env;
    if env.len() == 0 {
        return expr;
    }
    let ghost env0 = pairs_view(env@);
    let ghost next_final: nat = u32::MAX as nat;
    let ghost target = apply_env(t, env0, 0, Seq::empty(), ops);
    let mut result = expr;
    let mut kept: Vec<(Node, u32)> = Vec::new();
    let mut i: usize = 0;
    assert(pairs_view(kept@) =~= Seq::<(Tree, u32)>::empty());
    while i < env.len()
        invariant
            0 <= i <= env@.len(),
            env@.len() == env0.len(),
            ops == tags.op_types@,
            node_count(result@) <= node_count(t),
            node_count(t) <= usize::MAX,
            next_final <= u32::MAX,
            forall|j: int| 0 <= j < env@.len() ==> (#[trigger] env@[j]).1 < next_final,
            forall|j: int| 0 <= j < kept@.len() ==> (#[trigger] kept@[j]).1 < next_final,
            apply_env(result@, pairs_view(env@), i as int, pairs_view(kept@), ops) == target,
        decreases env.len() - i,
    {
        let ghost ev = pairs_view(env@);
        assert(ev[i as int] == (env@[i as int].0@, env@[i as int].1));
        let tree_count = count_occurrences(&result, &env[i].0);
        if tree_count >= 2 {
            let node = clone_node(&env[i].0);
            let vid = env[i].1;
            let u = Node::ValUse { id: vid, tpe: expr_type(&node, tags) };
            proof {
                crate::walk::lemma_children_count(node@);
                lemma_replaced_count(result@, node@, u@);
            }
            result = replace_all(&result, &node, &u);
            let mut next_env: Vec<(Node, u32)> = Vec::new();
            let mut j: usize = 0;
            while j < env.len()
                invariant
                    0 <= j <= env@.len(),
                    ev == pairs_view(env@),
                    next_env@.len() == j,
                    forall|q: int|
                        0 <= q < j ==> pairs_view(next_env@)[q] == (if q > i {
                            (replaced(ev[q].0, node@, u@), ev[q].1)
                        } else {
                            ev[q]
                        }),
                    forall|q: int| 0 <= q < j ==> (#[trigger] next_env@[q]).1 == env@[q].1,
                decreases env.len() - j,
            {
                assert(ev[j as int] == (env@[j as int].0@, env@[j as int].1));
                let ghost pv = pairs_view(next_env@);
                if j > i {
                    next_env.push((replace_all(&env[j].0, &node, &u), env[j].1));
                } else {
                    next_env.push((clone_node(&env[j].0), env[j].1));
                }
                assert(pairs_view(next_env@) =~= pv.push((next_env@[j as int].0@, next_env@[j as int].1)));
                j += 1;
            }
            assert(pairs_view(next_env@) =~= Seq::new(
                ev.len(),
                |q: int|
                    if q > i {
                        (replaced(ev[q].0, node@, u@), ev[q].1)
                    } else {
                        ev[q]
                    },
            ));
            env = next_env;
            let ghost kv = pairs_view(kept@);
            kept.push((node, vid));
            assert(pairs_view(kept@) =~= kv.push((ev[i as int].0, vid)));
        }
        i += 1;
    }
    if kept.len() == 0 {
        return result;
    }
    let ghost kv = pairs_view(kept@);
    let mut defs: Vec<Node> = Vec::new();
    let mut q: usize = 0;
    while q < kept.len()
        invariant
            0 <= q <= kept@.len(),
            kv == pairs_view(kept@),
            ops == tags.op_types@,
            defs@.len() == q,
            forall|p: int| 0 <= p < q ==> node_view(#[trigger] defs@[p]) == env_defs(kv, ops)[p],
        decreases kept.len() - q,
    {
        assert(kv[q as int] == (kept@[q as int].0@, kept@[q as int].1));
        let rhs = build_value_recurse(&kept[q].0, &kept, tags);
        defs.push(Node::ValDef { id: kept[q].1, rhs: Box::new(rhs) });
        q += 1;
    }
    assert(nodes_view(defs@) =~= env_defs(kv, ops));
    let mut mx: u32 = 0;
    let mut p: usize = 0;
    assert(kv.subrange(0, 0) =~= Seq::<(Tree, u32)>::empty());
    while p < kept.len()
        invariant
            0 <= p <= kept@.len(),
            kv == pairs_view(kept@),
            mx == max_env_id(kv.subrange(0, p as int)),
            mx < next_final,
            next_final <= u32::MAX,
            forall|j: int| 0 <= j < kept@.len() ==> (#[trigger] kept@[j]).1 < next_final,
        decreases kept.len() - p,
    {
        assert(kv.subrange(0, p + 1).drop_last() =~= kv.subrange(0, p as int));
        assert(kv.subrange(0, p + 1).last() == kv[p as int]);
        assert(kv[p as int].1 == kept@[p as int].1);
        if kept[p].1 > mx {
            mx = kept[p].1;
        }
        p += 1;
    }
    assert(kv.subrange(0, kv.len() as int) =~= kv);
    let post_next = mx + 1;
    let (final_defs, final_result, _) = lambda_rescue_post_pass(defs, result, post_next, tags);
    match final_result {
        Node::Block { items, result } => {
            let mut combined = final_defs;
            let mut rest = items;
            let ghost a = nodes_view(combined@);
            let ghost b = nodes_view(rest@);
            combined.append(&mut rest);
            assert(nodes_view(combined@) =~= a + b);
            let ordered = topo_order_valdefs(combined);
            Node::Block { items: ordered, result }
        },
        other => {
            let ordered = topo_order_valdefs(final_defs);
            Node::Block { items: ordered, result: Box::new(other) }
        },
    }
}

/// with must not overflow.
pub fn process_ast_graph_impl(
    expr: Node,
    global_max_id: u32,
    dag_usages: Vec<(Node, usize)>,
    schedule: Vec<Node>,
    mode: ScopeMode,
    tags: &TypeTags,
) -> (r: Node)
    requires
        node_count(expr@) <= usize::MAX,
        graph_next0(expr@, global_max_id) + env_sel(
            nodes_view(schedule@),
            schedule@.len() as int,
            expr@,
            pairs_view(dag_usages@),
            mode,
            tags.op_types@,
            tags.big_int,
            graph_next0(expr@, global_max_id),
        ).len() <= u32::MAX,
        apply_env(
            expr@,
            env_sel(
                nodes_view(schedule@),
                schedule@.len() as int,
                expr@,
                pairs_view(dag_usages@),
                mode,
                tags.op_types@,
                tags.big_int,
                graph_next0(expr@, global_max_id),
            ),
            0,
            Seq::empty(),
            tags.op_types@,
        ).1.len() > 0 ==> graph_rescue(
            expr@,
            global_max_id,
            pairs_view(dag_usages@),
            nodes_view(schedule@),
            mode,
            tags.op_types@,
            tags.big_int,
        ).1,
    ensures
        r@ == graph_processed(
            expr@,
            global_max_id,
            pairs_view(dag_usages@),
            nodes_view(schedule@),
            mode,
            tags.op_types@,
            tags.big_int,
        ),
{
    let ghost t = expr@;
    let ghost ops = tags.op_types@;
    let ghost big = tags.big_int;
    let ghost dag = pairs_view(dag_usages@);
    let ghost sch = nodes_view(schedule@);
    let ghost next0 = graph_next0(t, global_max_id);
    let ghost full = env_sel(sch, sch.len() as int, t, dag, mode, ops, big, next0);
    let locals = collect_branch_local_val_ids(&expr);
    assert(locals@ == branch_locals(t));
    let m = find_max_val_id(&expr);
    proof {
        let c = choose|r: u32| max_id_is(t, r);
        assert(max_id_is(t, m));
        lemma_max_id_unique(t, c, m);
    }
    let base = if m >= global_max_id {
        m
    } else {
        global_max_id
    };
    let mut next_id = base + 1;
    assert(next_id as nat == next0);
    let mut env: Vec<(Node, u32)> = Vec::new();
    let mut i: usize = 0;
    while i < schedule.len()
        invariant
            0 <= i <= schedule@.len(),
            sch == nodes_view(schedule@),
            dag == pairs_view(dag_usages@),
            ops == tags.op_types@,
            big == tags.big_int,
            locals@ == branch_locals(t),
            t == expr@,
            full == env_sel(sch, sch.len() as int, t, dag, mode, ops, big, next0),
            next0 + full.len() <= u32::MAX,
            pairs_view(env@) == env_sel(sch, i as int, t, dag, mode, ops, big, next0),
            next_id as nat == next0 + env@.len(),
            forall|j: int| 0 <= j < env@.len() ==> #[trigger] env@[j].1 as nat == next0 + j,
        decreases schedule.len() - i,
    {
        assert(sch[i as int] == node_view(schedule@[i as int]));
        if admits(&schedule[i], &expr, &dag_usages, &locals, mode, tags) {
            proof {
                lemma_env_sel_mono(sch, i + 1, sch.len() as int, t, dag, mode, ops, big, next0);
            }
            let ghost before = pairs_view(env@);
            env.push((clone_node(&schedule[i]), next_id));
            assert(pairs_view(env@) =~= before.push((sch[i as int], (next0 + before.len()) as u32)));
            next_id = next_id + 1;
        }
        i += 1;
    }
    proof {
        assert(pairs_view(env@) == full);
        assert forall|j: int| 0 <= j < env@.len() implies (#[trigger] env@[j]).1 < u32::MAX by {}
    }
    graph_finish(expr, env, tags)
}


/// The usage table of `t`: each distinct candidate with its usage count
/// (see `dag_nodes` and `dag_usage`).
pub open spec fn dag_table(t: Tree, ops: Seq<u32>, big: u32, scoped: bool) -> Seq<(Tree, usize)> {
    let ns = dag_nodes(t, ops, big, scoped);
    Seq::new(ns.len(), |i: int| (ns[i], dag_usage(t, ns, ns[i], scoped) as usize))
}

/// The usage counts of `t` fit in `usize`.
pub open spec fn dag_fits(t: Tree, ops: Seq<u32>, big: u32) -> bool {
    tree_children(t).len() + children_total(
        dag_nodes(t, ops, big, false),
        dag_nodes(t, ops, big, false).len() as int,
        false,
    ) <= usize::MAX
}

/// What the root graph pass over `t` computes fits its machine integers:
/// the usage counts, the tree size, the ids it hands out, and the lambda
/// rescue it ends with.
pub open spec fn root_graph_ok(t: Tree, global_max_id: u32, ops: Seq<u32>, big: u32) -> bool {
    let sch = dfs(t, Seq::empty(), Seq::empty(), false).1;
    let dag = dag_table(t, ops, big, false);
    let next0 = graph_next0(t, global_max_id);
    let env = env_sel(sch, sch.len() as int, t, dag, ScopeMode::Root, ops, big, next0);
    &&& dag_fits(t, ops, big)
    &&& node_count(t) <= usize::MAX
    &&& next0 + env.len() <= u32::MAX
    &&& (apply_env(t, env, 0, Seq::empty(), ops).1.len() > 0 ==> graph_rescue(
        t,
        global_max_id,
        dag,
        sch,
        ScopeMode::Root,
        ops,
        big,
    ).1)
}

/// The root graph pass over `t`: `graph_processed` at the root with the
/// usage table and the depth-first schedule of `t`.
pub open spec fn root_graph(t: Tree, global_max_id: u32, ops: Seq<u32>, big: u32) -> Tree {
    graph_processed(
        t,
        global_max_id,
        dag_table(t, ops, big, false),
        dfs(t, Seq::empty(), Seq::empty(), false).1,
        ScopeMode::Root,
        ops,
        big,
    )
}

/// The root pass fits its machine integers, for the graph pass or the
/// hash-cons graph pass that `hash_cons` names.
pub open spec fn root_pass_ok(t: Tree, global_max_id: u32, ops: Seq<u32>, big: u32, hash_cons: HashCons) -> bool {
    match hash_cons {
        HashCons::Off => root_graph_ok(t, global_max_id, ops, big),
        HashCons::TopDown => {
            &&& dag_fits(t, ops, big)
            &&& hc_pass_ok(
                t,
                global_max_id,
                dag_table(t, ops, big, false),
                dfs(t, Seq::empty(), Seq::empty(), false).1,
                ScopeMode::Root,
                ops,
                big,
            )
        },
        HashCons::BottomUp => dag_fits(t, ops, big) && hc2_pass_ok(t, global_max_id, ops, big),
    }
}

/// The root pass over `t`: the graph pass, or the hash-cons graph pass
/// that `hash_cons` names, at the root with the usage table and the
/// depth-first schedule of `t`.
pub open spec fn root_pass(t: Tree, global_max_id: u32, ops: Seq<u32>, big: u32, hash_cons: HashCons) -> Tree {
    match hash_cons {
        HashCons::Off => root_graph(t, global_max_id, ops, big),
        HashCons::TopDown => hc_processed(
            t,
            global_max_id,
            dag_table(t, ops, big, false),
            dfs(t, Seq::empty(), Seq::empty(), false).1,
            ScopeMode::Root,
            ops,
            big,
        ),
        HashCons::BottomUp => graph_from_env(t, hc2_env(t, global_max_id, ops, big), ops, big),
    }
}

/// The root pass, as `root_pass` says: the graph pass at the root with
/// the usage table and the depth-first schedule of `expr`, its scope gate
/// the hash-cons walk where `tags.hash_cons` says so; the usage counts,
/// ids, tree size and lambda rescue must fit their machine integers.
pub fn process_ast_graph(expr: Node, global_max_id: u32, tags: &TypeTags) -> (r: Node)
    requires
        root_pass_ok(expr@, global_max_id, tags.op_types@, tags.big_int, tags.hash_cons),
    ensures
        r@ == root_pass(expr@, global_max_id, tags.op_types@, tags.big_int, tags.hash_cons),
{
    let dag_usages = count_dag_usages(&expr, tags);
    assert(pairs_view(dag_usages@) =~= dag_table(expr@, tags.op_types@, tags.big_int, false));
    let schedule = dfs_schedule(&expr);
    match tags.hash_cons {
        HashCons::Off => process_ast_graph_impl(expr, global_max_id, dag_usages, schedule, ScopeMode::Root, tags),
        HashCons::TopDown => process_ast_graph_hash_cons(
            expr,
            global_max_id,
            dag_usages,
            schedule,
            ScopeMode::Root,
            tags,
        ),
        HashCons::BottomUp => process_ast_graph_hash_cons_v2(
            expr,
            global_max_id,
            dag_usages,
            schedule,
            ScopeMode::Root,
            tags,
        ),
    }
}

} // verus!
