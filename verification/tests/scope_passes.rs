use std::collections::HashSet;

use ergoscript_cse::collect::{collect_orphan_ids, count_orphan_valuses};
use ergoscript_cse::def_ids::{collect_all_outer_def_ids, collect_existing_val_ids};
use ergoscript_cse::node::{node_eq, FuncArg, Node, OpKind, BIN_AND, BIN_OR};
use ergoscript_cse::removal::{map_children_remove, remove_valdefs_in_blocks};
use ergoscript_cse::schedule::{dfs_schedule, dfs_schedule_scope};
use ergoscript_cse::thunk_scope::{
    count_in_lambda_bodies, count_occurrences_scope, direct_children_scope,
};

const LONG: u32 = 5;
const EQ: u32 = 20;
const INPUTS: u32 = 7;

fn c(v: u32) -> Node {
    Node::Op { kind: OpKind::Const, payload: 100 + v, children: Vec::new() }
}

fn op(kind: OpKind, children: Vec<Node>) -> Node {
    Node::Op { kind, payload: 2, children }
}

fn bin(payload: u32, l: Node, r: Node) -> Node {
    Node::Op { kind: OpKind::BinOp, payload, children: vec![l, r] }
}

fn vdef(id: u32, rhs: Node) -> Node {
    Node::ValDef { id, rhs: Box::new(rhs) }
}

fn vuse(id: u32) -> Node {
    Node::ValUse { id, tpe: LONG }
}

fn block(items: Vec<Node>, result: Node) -> Node {
    Node::Block { items, result: Box::new(result) }
}

fn if_e(cond: Node, t: Node, f: Node) -> Node {
    Node::If { cond: Box::new(cond), then_branch: Box::new(t), else_branch: Box::new(f) }
}

fn lambda(ids: &[u32], body: Node) -> Node {
    Node::Func {
        args: ids.iter().map(|id| FuncArg { id: *id, tpe: LONG }).collect(),
        body: Box::new(body),
    }
}

fn idx(i: u32) -> Node {
    op(OpKind::ByIndex, vec![Node::Op { kind: OpKind::GlobalVars, payload: INPUTS, children: Vec::new() }, c(i)])
}

#[test]
fn removal_drops_listed_defs_and_collapses_empty_blocks() {
    let ids: HashSet<u32> = HashSet::from([1, 3]);
    let t = block(vec![vdef(1, c(0)), vdef(2, c(1))], bin(EQ, vuse(1), vuse(2)));
    let r = remove_valdefs_in_blocks(t, &ids);
    assert!(node_eq(&r, &block(vec![vdef(2, c(1))], bin(EQ, vuse(1), vuse(2)))));
    let nested = bin(EQ, block(vec![vdef(3, c(0))], vuse(3)), c(5));
    let r2 = remove_valdefs_in_blocks(nested, &ids);
    assert!(node_eq(&r2, &bin(EQ, vuse(3), c(5))));
    let in_if = if_e(block(vec![vdef(1, c(0))], vuse(1)), c(1), c(2));
    assert!(node_eq(&remove_valdefs_in_blocks(in_if, &ids), &if_e(vuse(1), c(1), c(2))));
}

#[test]
fn removal_leaves_lambdas_and_other_kinds() {
    let ids: HashSet<u32> = HashSet::from([1]);
    let lam = lambda(&[9], block(vec![vdef(1, c(0))], vuse(1)));
    assert!(node_eq(&remove_valdefs_in_blocks(lam, &ids), &lambda(&[9], block(vec![vdef(1, c(0))], vuse(1)))));
    let sha = op(OpKind::CalcSha256, vec![block(vec![vdef(1, c(0))], vuse(1))]);
    assert!(node_eq(
        &remove_valdefs_in_blocks(sha, &ids),
        &op(OpKind::CalcSha256, vec![block(vec![vdef(1, c(0))], vuse(1))])
    ));
    let wrapped = vdef(4, op(OpKind::SizeOf, vec![block(vec![vdef(1, c(0))], vuse(1))]));
    assert!(node_eq(
        &remove_valdefs_in_blocks(wrapped, &ids),
        &vdef(4, op(OpKind::SizeOf, vec![vuse(1)]))
    ));
    let untouched_block = block(vec![vdef(1, c(0))], vuse(1));
    assert!(node_eq(
        &map_children_remove(untouched_block, &ids),
        &block(vec![vdef(1, c(0))], vuse(1))
    ));
}

#[test]
fn orphan_ids_listed_in_source_order() {
    let t = block(vec![vdef(1, vuse(4)), vdef(2, bin(EQ, vuse(1), vuse(5)))], bin(EQ, vuse(4), vuse(2)));
    let mut out: Vec<u32> = Vec::new();
    collect_orphan_ids(&t, &Vec::new(), &mut out);
    assert_eq!(out, vec![4, 5, 4]);
    assert_eq!(count_orphan_valuses(&t), out.len());
    let mut scoped: Vec<u32> = vec![9];
    collect_orphan_ids(&lambda(&[3], bin(EQ, vuse(3), vuse(9))), &vec![4], &mut scoped);
    assert_eq!(scoped, vec![9, 9]);
}

#[test]
fn existing_val_ids_skip_lambdas_and_partial_operands() {
    let t = block(
        vec![
            vdef(3, vdef(4, c(0))),
            vdef(5, lambda(&[6], block(vec![vdef(7, c(0))], vuse(7)))),
        ],
        op(OpKind::Fold, vec![vdef(8, c(0)), vdef(9, c(1)), vdef(10, c(2))]),
    );
    let mut ids: Vec<u32> = vec![1];
    collect_existing_val_ids(&t, &mut ids);
    assert_eq!(ids, vec![1, 3, 4, 5, 8, 9]);
    let mut f: Vec<u32> = Vec::new();
    collect_existing_val_ids(&op(OpKind::Filter, vec![vdef(1, c(0)), vdef(2, c(0))]), &mut f);
    assert_eq!(f, vec![1]);
}

#[test]
fn outer_def_ids_include_lambda_args_in_preorder() {
    let t = block(
        vec![vdef(5, lambda(&[6, 7], block(vec![vdef(8, c(0))], vuse(8))))],
        op(OpKind::ByIndex, vec![vdef(1, c(0)), vdef(2, c(0)), vdef(3, c(0))]),
    );
    let mut ids: Vec<u32> = Vec::new();
    collect_all_outer_def_ids(&t, &mut ids);
    assert_eq!(ids, vec![5, 6, 7, 8, 1, 2]);
    let mut none: Vec<u32> = Vec::new();
    collect_all_outer_def_ids(&op(OpKind::CalcSha256, vec![vdef(1, c(0))]), &mut none);
    assert!(none.is_empty());
}

#[test]
fn scope_children_stop_at_lazy_operands_and_branches() {
    let t = if_e(c(1), c(2), c(3));
    let cs = direct_children_scope(&t);
    assert_eq!(cs.len(), 1);
    assert!(node_eq(cs[0], &c(1)));
    let and = bin(BIN_AND, c(4), c(5));
    let ca = direct_children_scope(&and);
    assert_eq!(ca.len(), 1);
    assert!(node_eq(ca[0], &c(4)));
    let or = bin(BIN_OR, c(4), c(5));
    assert_eq!(direct_children_scope(&or).len(), 1);
    let eq = bin(EQ, c(4), c(5));
    assert_eq!(direct_children_scope(&eq).len(), 2);
}

#[test]
fn scope_occurrences_ignore_branches_and_lazy_arms() {
    let x = idx(0);
    let t = bin(BIN_AND, bin(EQ, idx(0), c(1)), bin(EQ, idx(0), c(2)));
    assert_eq!(count_occurrences_scope(&t, &x), 1);
    let u = if_e(bin(EQ, idx(0), c(1)), idx(0), idx(0));
    assert_eq!(count_occurrences_scope(&u, &x), 1);
    let plain = bin(EQ, idx(0), idx(0));
    assert_eq!(count_occurrences_scope(&plain, &x), 2);
    assert_eq!(count_occurrences_scope(&x, &x), 1);
}

#[test]
fn lambda_body_occurrences_only() {
    let x = idx(0);
    let t = bin(EQ, idx(0), op(OpKind::Exists, vec![c(9), lambda(&[1], bin(EQ, idx(0), idx(0)))]));
    assert_eq!(count_in_lambda_bodies(&t, &x), 2);
    assert_eq!(count_in_lambda_bodies(&idx(0), &x), 0);
    assert_eq!(count_in_lambda_bodies(&lambda(&[1], idx(0)), &x), 1);
}

#[test]
fn scoped_schedule_skips_branch_contents() {
    let t = if_e(c(1), c(2), c(3));
    let s = dfs_schedule_scope(&t);
    assert_eq!(s.len(), 2);
    assert!(node_eq(&s[0], &c(1)));
    assert!(node_eq(&s[1], &t));
    assert_eq!(dfs_schedule(&t).len(), 4);
    let and = bin(BIN_AND, c(1), c(1));
    assert_eq!(dfs_schedule_scope(&and).len(), 2);
}
