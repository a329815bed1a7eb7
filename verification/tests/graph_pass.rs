use ergoscript_cse::ast_graph::{process_ast_graph, process_ast_graph_impl, ScopeMode};
use ergoscript_cse::branch_graph::{
    collect_cond_branch_shared, collect_cross_branch_dominators, process_ast_graph_branch,
};
use ergoscript_cse::dag::TypeTags;
use ergoscript_cse::hash_cons::HashCons;
use ergoscript_cse::node::{node_eq, FuncArg, Node, OpKind};
use ergoscript_cse::hash_cons::{process_ast_graph_hash_cons, process_ast_graph_hash_cons_v2};
use ergoscript_cse::rescue::lambda_rescue_post_pass;

const LONG: u32 = 5;
const EQ: u32 = 20;
const LT: u32 = 21;

fn tags() -> TypeTags {
    TypeTags { op_types: vec![LONG; 200], big_int: 9, equality_ops: Vec::new(), arith_ops: Vec::new(), relation_ops: Vec::new(), hash_cons: HashCons::Off, narrow_branch: false }
}

fn c(v: u32) -> Node {
    Node::Op { kind: OpKind::Const, payload: 100 + v, children: Vec::new() }
}

fn op(kind: OpKind, payload: u32, children: Vec<Node>) -> Node {
    Node::Op { kind, payload, children }
}

fn bin(payload: u32, l: Node, r: Node) -> Node {
    op(OpKind::BinOp, payload, vec![l, r])
}

fn inputs(i: u32) -> Node {
    op(OpKind::ByIndex, 30, vec![op(OpKind::GlobalVars, 31, Vec::new()), c(i)])
}

fn prop(obj: Node) -> Node {
    op(OpKind::PropertyCall, 40, vec![obj])
}

fn vdef(id: u32, rhs: Node) -> Node {
    Node::ValDef { id, rhs: Box::new(rhs) }
}

fn vuse(id: u32) -> Node {
    Node::ValUse { id, tpe: LONG }
}

fn block(items: Vec<Node>, result: Node) -> Node {
    Node::Block { items, result: Box::new(result) }
}

fn for_all(coll: Node, body: Node) -> Node {
    let f = Node::Func { args: vec![FuncArg { id: 3, tpe: LONG }], body: Box::new(body) };
    op(OpKind::ForAll, 50, vec![coll, f])
}

#[test]
fn root_pass_binds_shared_input_once() {
    let t = bin(LT, op(OpKind::SizeOf, 41, vec![inputs(0)]), op(OpKind::ExtractAmount, 42, vec![inputs(0)]));
    let expected = block(
        vec![vdef(1, inputs(0))],
        bin(LT, op(OpKind::SizeOf, 41, vec![vuse(1)]), op(OpKind::ExtractAmount, 42, vec![vuse(1)])),
    );
    assert!(node_eq(&process_ast_graph(t, 0, &tags()), &expected));
}

#[test]
fn root_pass_leaves_unshared_tree_alone() {
    let t = bin(LT, op(OpKind::SizeOf, 41, vec![inputs(0)]), c(3));
    let same = bin(LT, op(OpKind::SizeOf, 41, vec![inputs(0)]), c(3));
    assert!(node_eq(&process_ast_graph(t, 0, &tags()), &same));
}

#[test]
fn branch_pass_uses_given_counts_and_schedule() {
    let t = bin(EQ, inputs(1), inputs(1));
    let dag = vec![(inputs(1), 2usize)];
    let schedule = vec![inputs(1)];
    let r = process_ast_graph_impl(t, 10, dag, schedule, ScopeMode::Branch, &tags());
    let expected = block(vec![vdef(11, inputs(1))], bin(EQ, vuse(11), vuse(11)));
    assert!(node_eq(&r, &expected));
}

#[test]
fn rescue_extracts_what_a_lambda_body_shares() {
    let defs = vec![vdef(5, bin(EQ, prop(inputs(0)), c(1)))];
    let result = for_all(c(9), bin(EQ, prop(inputs(0)), c(2)));
    let (new_defs, new_result, next) = lambda_rescue_post_pass(defs, result, 7, &tags());
    assert_eq!(next, 8);
    assert_eq!(new_defs.len(), 2);
    assert!(node_eq(&new_defs[0], &vdef(5, bin(EQ, vuse(7), c(1)))));
    assert!(node_eq(&new_defs[1], &vdef(7, prop(inputs(0)))));
    assert!(node_eq(&new_result, &for_all(c(9), bin(EQ, vuse(7), c(2)))));
}

fn if_node(cond: Node, then_branch: Node, else_branch: Node) -> Node {
    Node::If { cond: Box::new(cond), then_branch: Box::new(then_branch), else_branch: Box::new(else_branch) }
}

#[test]
fn cross_branch_dominators_are_shared_by_both_arms() {
    let t = if_node(bin(LT, c(1), c(2)), bin(EQ, inputs(0), c(3)), bin(LT, inputs(0), c(4)));
    let r = collect_cross_branch_dominators(&t, &tags());
    assert_eq!(r.len(), 1);
    assert!(node_eq(&r[0], &inputs(0)));
}

#[test]
fn cross_branch_dominators_need_both_arms() {
    let t = if_node(bin(LT, c(1), c(2)), bin(EQ, inputs(0), c(3)), bin(LT, inputs(1), c(4)));
    assert!(collect_cross_branch_dominators(&t, &tags()).is_empty());
}

#[test]
fn cond_branch_shared_spans_condition_and_a_branch() {
    let t = if_node(bin(LT, inputs(0), c(1)), op(OpKind::SizeOf, 41, vec![inputs(0)]), c(2));
    let r = collect_cond_branch_shared(&t, &tags());
    assert_eq!(r.len(), 1);
    assert!(node_eq(&r[0], &inputs(0)));
}

#[test]
fn branch_pass_binds_value_shared_in_scope() {
    let t = bin(EQ, inputs(1), inputs(1));
    let expected = block(vec![vdef(11, inputs(1))], bin(EQ, vuse(11), vuse(11)));
    assert!(node_eq(&process_ast_graph_branch(t, 10, &tags()), &expected));
}

#[test]
fn branch_pass_leaves_single_use_alone() {
    let t = bin(LT, op(OpKind::SizeOf, 41, vec![inputs(2)]), c(3));
    let same = bin(LT, op(OpKind::SizeOf, 41, vec![inputs(2)]), c(3));
    assert!(node_eq(&process_ast_graph_branch(t, 10, &tags()), &same));
}

fn hc_tags() -> TypeTags {
    TypeTags {
        op_types: vec![LONG; 200],
        big_int: 9,
        equality_ops: Vec::new(),
        arith_ops: Vec::new(),
        relation_ops: Vec::new(),
        hash_cons: HashCons::TopDown,
        narrow_branch: false,
    }
}

#[test]
fn hash_cons_root_pass_binds_shared_input_once() {
    let t = bin(LT, op(OpKind::SizeOf, 41, vec![inputs(0)]), op(OpKind::ExtractAmount, 42, vec![inputs(0)]));
    let expected = block(
        vec![vdef(1, inputs(0))],
        bin(LT, op(OpKind::SizeOf, 41, vec![vuse(1)]), op(OpKind::ExtractAmount, 42, vec![vuse(1)])),
    );
    assert!(node_eq(&process_ast_graph(t, 0, &hc_tags()), &expected));
}

#[test]
fn hash_cons_gate_skips_values_built_only_in_branches() {
    let t = if_node(c(1), op(OpKind::SizeOf, 41, vec![inputs(1)]), op(OpKind::ExtractAmount, 42, vec![inputs(1)]));
    let same = if_node(c(1), op(OpKind::SizeOf, 41, vec![inputs(1)]), op(OpKind::ExtractAmount, 42, vec![inputs(1)]));
    let r = process_ast_graph_hash_cons(t, 10, vec![(inputs(1), 2usize)], vec![inputs(1)], ScopeMode::Branch, &hc_tags());
    assert!(node_eq(&r, &same));
    let t2 = if_node(c(1), op(OpKind::SizeOf, 41, vec![inputs(1)]), op(OpKind::ExtractAmount, 42, vec![inputs(1)]));
    let r2 = process_ast_graph_impl(t2, 10, vec![(inputs(1), 2usize)], vec![inputs(1)], ScopeMode::Branch, &tags());
    let extracted = block(
        vec![vdef(11, inputs(1))],
        if_node(c(1), op(OpKind::SizeOf, 41, vec![vuse(11)]), op(OpKind::ExtractAmount, 42, vec![vuse(11)])),
    );
    assert!(node_eq(&r2, &extracted));
}

#[test]
fn bottom_up_hash_cons_binds_shared_input_once() {
    let t = bin(LT, op(OpKind::SizeOf, 41, vec![inputs(0)]), op(OpKind::ExtractAmount, 42, vec![inputs(0)]));
    let expected = block(
        vec![vdef(1, inputs(0))],
        bin(LT, op(OpKind::SizeOf, 41, vec![vuse(1)]), op(OpKind::ExtractAmount, 42, vec![vuse(1)])),
    );
    let r = process_ast_graph_hash_cons_v2(t, 0, Vec::new(), Vec::new(), ScopeMode::Root, &tags());
    assert!(node_eq(&r, &expected));
}

#[test]
fn bottom_up_hash_cons_keeps_sibling_branches_apart() {
    let t = if_node(c(1), op(OpKind::SizeOf, 41, vec![inputs(1)]), op(OpKind::ExtractAmount, 42, vec![inputs(1)]));
    let same = if_node(c(1), op(OpKind::SizeOf, 41, vec![inputs(1)]), op(OpKind::ExtractAmount, 42, vec![inputs(1)]));
    let r = process_ast_graph_hash_cons_v2(t, 10, Vec::new(), Vec::new(), ScopeMode::Branch, &tags());
    assert!(node_eq(&r, &same));
}

fn narrow_tags(narrow_branch: bool) -> TypeTags {
    let mut relation_ops = vec![false; 200];
    relation_ops[LT as usize] = true;
    TypeTags {
        op_types: vec![LONG; 200],
        big_int: 9,
        equality_ops: Vec::new(),
        arith_ops: Vec::new(),
        relation_ops,
        hash_cons: HashCons::Off,
        narrow_branch,
    }
}

#[test]
fn branch_pass_binds_shared_relation() {
    let t = bin(EQ, bin(LT, inputs(1), c(3)), bin(LT, inputs(1), c(3)));
    let expected = block(
        vec![vdef(11, inputs(1)), vdef(12, bin(LT, vuse(11), c(3)))],
        bin(EQ, vuse(12), vuse(12)),
    );
    assert!(node_eq(&process_ast_graph_branch(t, 10, &narrow_tags(false)), &expected));
}

#[test]
fn narrowed_branch_pass_leaves_relations_in_place() {
    let t = bin(EQ, bin(LT, inputs(1), c(3)), bin(LT, inputs(1), c(3)));
    let expected = block(
        vec![vdef(11, inputs(1))],
        bin(EQ, bin(LT, vuse(11), c(3)), bin(LT, vuse(11), c(3))),
    );
    assert!(node_eq(&process_ast_graph_branch(t, 10, &narrow_tags(true)), &expected));
}
