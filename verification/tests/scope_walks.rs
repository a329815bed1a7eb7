use std::collections::{HashMap, HashSet};

use ergoscript_cse::collect::{
    collect_nested_block_val_ids, collect_structural_parents, count_in_if_cond,
    count_orphan_valuses, count_val_uses_in,
};
use ergoscript_cse::node::{node_eq, FuncArg, Node, OpKind, BIN_AND, BIN_OR};
use ergoscript_cse::schedule::dfs_schedule;
use ergoscript_cse::predicates::{
    expr_references_any_local, is_alias_rhs, is_dedupable_wrapper, is_graph_shared,
    is_pure_const_shape, references_locally_defined, touches_context, touches_runtime_context,
};
use ergoscript_cse::visibility::{
    appears_in_main_scope, appears_outside_if_branches, collect_logical_chain_arms,
    count_distinct_top_level_containers, count_occurrences_no_inner_if,
};

const LONG: u32 = 5;
const EQ: u32 = 20;
const INPUTS: u32 = 7;
const OUTPUTS: u32 = 8;

fn c(v: i64) -> Node {
    Node::Op { kind: OpKind::Const, payload: v as u32, children: Vec::new() }
}

fn leaf(kind: OpKind, payload: u32) -> Node {
    Node::Op { kind, payload, children: Vec::new() }
}

fn op(kind: OpKind, children: Vec<Node>) -> Node {
    Node::Op { kind, payload: 0, children }
}

fn bin(payload: u32, l: Node, r: Node) -> Node {
    Node::Op { kind: OpKind::BinOp, payload, children: vec![l, r] }
}

fn vdef(id: u32, rhs: Node) -> Node {
    Node::ValDef { id, rhs: Box::new(rhs) }
}

fn vuse(id: u32) -> Node {
    Node::ValUse { id, tpe: LONG }
}

fn block(items: Vec<Node>, result: Node) -> Node {
    Node::Block { items, result: Box::new(result) }
}

fn if_e(cond: Node, t: Node, f: Node) -> Node {
    Node::If { cond: Box::new(cond), then_branch: Box::new(t), else_branch: Box::new(f) }
}

fn lambda(ids: &[u32], body: Node) -> Node {
    Node::Func {
        args: ids.iter().map(|id| FuncArg { id: *id, tpe: LONG }).collect(),
        body: Box::new(body),
    }
}

fn global(which: u32) -> Node {
    leaf(OpKind::GlobalVars, which)
}

fn idx(coll: u32, i: i64) -> Node {
    op(OpKind::ByIndex, vec![global(coll), c(i)])
}

fn eq(l: Node, r: Node) -> Node {
    bin(EQ, l, r)
}

#[test]
fn count_no_inner_if_skips_branches_and_lambdas() {
    let x = idx(INPUTS, 0);
    let t = block(
        vec![vdef(1, idx(INPUTS, 0))],
        if_e(
            eq(idx(INPUTS, 0), c(1)),
            idx(INPUTS, 0),
            lambda(&[2], idx(INPUTS, 0)),
        ),
    );
    assert_eq!(count_occurrences_no_inner_if(&t, &x), 2);
    assert_eq!(ergoscript_cse::walk::count_occurrences(&t, &x), 4);
}

#[test]
fn main_scope_excludes_right_arms_and_branches() {
    let x = idx(OUTPUTS, 0);
    let left_only = bin(BIN_AND, eq(idx(OUTPUTS, 0), c(1)), c(2));
    assert!(appears_in_main_scope(&left_only, &x));
    let right_only = bin(BIN_OR, c(2), eq(idx(OUTPUTS, 0), c(1)));
    assert!(!appears_in_main_scope(&right_only, &x));
    let in_branch = if_e(c(1), idx(OUTPUTS, 0), c(2));
    assert!(!appears_in_main_scope(&in_branch, &x));
    let in_cond = if_e(eq(idx(OUTPUTS, 0), c(0)), c(1), c(2));
    assert!(appears_in_main_scope(&in_cond, &x));
    let nested = bin(BIN_AND, c(2), bin(BIN_AND, idx(OUTPUTS, 0), c(3)));
    assert!(appears_in_main_scope(&nested, &x));
    let plain = bin(EQ, c(2), idx(OUTPUTS, 0));
    assert!(appears_in_main_scope(&plain, &x));
}

#[test]
fn outside_if_ignores_logical_arms() {
    let x = idx(OUTPUTS, 0);
    let right_only = bin(BIN_OR, c(2), eq(idx(OUTPUTS, 0), c(1)));
    assert!(appears_outside_if_branches(&right_only, &x));
    let in_branch = if_e(c(1), c(2), idx(OUTPUTS, 0));
    assert!(!appears_outside_if_branches(&in_branch, &x));
    let in_cond = if_e(idx(OUTPUTS, 0), c(1), c(2));
    assert!(appears_outside_if_branches(&in_cond, &x));
}

#[test]
fn chain_arms_left_to_right() {
    let chain = bin(BIN_OR, bin(BIN_OR, c(1), c(2)), bin(BIN_AND, c(3), c(4)));
    let mut out: Vec<&Node> = Vec::new();
    collect_logical_chain_arms(&chain, BIN_OR, &mut out);
    assert_eq!(out.len(), 3);
    assert!(node_eq(out[0], &c(1)));
    assert!(node_eq(out[1], &c(2)));
    assert!(node_eq(out[2], &bin(BIN_AND, c(3), c(4))));
    let mut single: Vec<&Node> = Vec::new();
    let one = c(9);
    collect_logical_chain_arms(&one, BIN_AND, &mut single);
    assert_eq!(single.len(), 1);
}

#[test]
fn top_level_containers_count() {
    let x = idx(INPUTS, 1);
    let t = block(
        vec![vdef(1, eq(idx(INPUTS, 1), c(0))), vdef(2, c(5))],
        op(
            OpKind::BoolToSigmaProp,
            vec![bin(BIN_OR, if_e(c(1), idx(INPUTS, 1), c(0)), bin(BIN_OR, c(3), idx(INPUTS, 1)))],
        ),
    );
    assert_eq!(count_distinct_top_level_containers(&t, &x), 3);
    let chain = op(OpKind::BoolToSigmaProp, vec![bin(BIN_AND, idx(INPUTS, 1), c(0))]);
    assert_eq!(count_distinct_top_level_containers(&chain, &x), 1);
    assert_eq!(count_distinct_top_level_containers(&c(0), &x), 0);
    let unrelated = block(vec![vdef(1, idx(INPUTS, 1))], idx(INPUTS, 1));
    assert_eq!(count_distinct_top_level_containers(&unrelated, &x), 2);
}

#[test]
fn context_touch_predicates() {
    assert!(touches_context(&op(OpKind::SizeOf, vec![global(INPUTS)])));
    assert!(touches_context(&leaf(OpKind::Global, 0)));
    assert!(!touches_runtime_context(&op(OpKind::CreateProveDlog, vec![leaf(OpKind::Global, 0)])));
    assert!(touches_runtime_context(&vuse(3)));
    assert!(!touches_context(&bin(EQ, c(1), c(2))));
    assert!(touches_runtime_context(&leaf(OpKind::GetVar, 4)));
}

#[test]
fn local_reference_predicates() {
    let t = bin(EQ, vuse(3), op(OpKind::SizeOf, vec![vuse(4)]));
    let ids: HashSet<u32> = HashSet::from([4]);
    let none: HashSet<u32> = HashSet::new();
    assert!(expr_references_any_local(&t, &ids));
    assert!(references_locally_defined(&t, &ids));
    assert!(!references_locally_defined(&t, &none));
    assert!(!expr_references_any_local(&t, &HashSet::from([5])));
}

#[test]
fn shape_predicates() {
    assert!(is_pure_const_shape(&op(OpKind::Tuple, vec![c(1), op(OpKind::Collection, vec![c(2)])])));
    assert!(!is_pure_const_shape(&op(OpKind::Tuple, vec![c(1), vuse(2)])));
    assert!(is_pure_const_shape(&leaf(OpKind::ConstPlaceholder, 0)));
    assert!(is_alias_rhs(&idx(OUTPUTS, 1)));
    assert!(!is_alias_rhs(&op(OpKind::ByIndex, vec![global(OUTPUTS), c(1), c(2)])));
    assert!(!is_alias_rhs(&op(OpKind::ByIndex, vec![vuse(1), c(1)])));
    assert!(is_dedupable_wrapper(&op(OpKind::Upcast, vec![vuse(1)])));
    assert!(!is_dedupable_wrapper(&op(OpKind::Upcast, vec![c(1)])));
    assert!(is_dedupable_wrapper(&op(OpKind::Negation, vec![vuse(1)])));
}

#[test]
fn graph_sharing_predicate() {
    assert!(is_graph_shared(&bin(EQ, c(1), c(2))));
    assert!(is_graph_shared(&op(OpKind::ExtractAmount, vec![idx(INPUTS, 0)])));
    assert!(!is_graph_shared(&op(OpKind::ExtractAmount, vec![op(OpKind::OptionGet, vec![vuse(1)])])));
    assert!(is_graph_shared(&op(OpKind::OptionGet, vec![op(OpKind::ExtractRegisterAs, vec![vuse(1)])])));
    assert!(!is_graph_shared(&op(OpKind::MethodCall, vec![vuse(1)])));
    assert!(is_graph_shared(&op(OpKind::SizeOf, vec![c(1)])));
}

#[test]
fn count_in_if_cond_splits() {
    let x = vuse(9);
    let t = block(
        vec![vdef(1, vuse(9))],
        if_e(eq(vuse(9), c(1)), vuse(9), if_e(vuse(9), c(1), c(2))),
    );
    assert_eq!(count_in_if_cond(&t, &x, false), (2, 2));
    assert_eq!(count_in_if_cond(&x, &x, true), (1, 0));
}

#[test]
fn nested_block_ids_include_block_items_only() {
    let t = block(
        vec![vdef(1, block(vec![vdef(2, c(0))], c(0))), c(3)],
        op(OpKind::SizeOf, vec![vdef(3, block(vec![vdef(4, c(0))], c(0)))]),
    );
    let mut ids: HashSet<u32> = HashSet::from([7]);
    collect_nested_block_val_ids(&t, &mut ids);
    assert_eq!(ids, HashSet::from([1, 2, 4, 7]));
}

#[test]
fn structural_parents_in_preorder() {
    let t = op(
        OpKind::SigmaAnd,
        vec![op(OpKind::BoolToSigmaProp, vec![if_e(c(1), c(2), c(3))]), c(4)],
    );
    let mut out: Vec<&Node> = Vec::new();
    collect_structural_parents(&t, &mut out);
    assert_eq!(out.len(), 3);
    assert!(node_eq(out[0], &t));
    assert!(node_eq(out[2], &if_e(c(1), c(2), c(3))));
}

#[test]
fn dfs_schedule_lists_each_distinct_subexpression_after_its_operands() {
    let inner = bin(EQ, c(1), c(2));
    let root = bin(EQ, c(1), bin(EQ, c(1), c(2)));
    let s = dfs_schedule(&root);
    assert_eq!(s.len(), 4);
    assert!(node_eq(&s[0], &c(1)));
    assert!(node_eq(&s[1], &c(2)));
    assert!(node_eq(&s[2], &inner));
    assert!(node_eq(&s[3], &root));
    let single = dfs_schedule(&c(7));
    assert_eq!(single.len(), 1);
}

#[test]
fn val_use_counts_accumulate_per_id() {
    let t = block(
        vec![vdef(1, c(5)), vdef(2, bin(EQ, vuse(1), vuse(1)))],
        if_e(vuse(2), lambda(&[4], vuse(4)), vuse(1)),
    );
    let mut counts: HashMap<u32, usize> = HashMap::new();
    counts.insert(1, 3);
    count_val_uses_in(&t, &mut counts);
    assert_eq!(counts.get(&1), Some(&6));
    assert_eq!(counts.get(&2), Some(&1));
    assert_eq!(counts.get(&4), Some(&1));
    assert_eq!(counts.get(&5), None);
}

#[test]
fn orphan_val_uses_follow_block_and_lambda_scopes() {
    let t = block(vec![vdef(1, vuse(2)), vdef(2, vuse(1))], bin(EQ, vuse(1), vuse(3)));
    assert_eq!(count_orphan_valuses(&t), 2);
    assert_eq!(count_orphan_valuses(&lambda(&[5], vuse(5))), 0);
    assert_eq!(count_orphan_valuses(&lambda(&[5], vuse(6))), 1);
    assert_eq!(count_orphan_valuses(&vuse(7)), 1);
    assert_eq!(count_orphan_valuses(&vdef(9, vuse(9))), 1);
    let nested = block(vec![vdef(1, c(0))], block(vec![vdef(2, vuse(1))], vuse(2)));
    assert_eq!(count_orphan_valuses(&nested), 0);
    let sibling = bin(EQ, block(vec![vdef(1, c(0))], vuse(1)), vuse(1));
    assert_eq!(count_orphan_valuses(&sibling), 1);
}
