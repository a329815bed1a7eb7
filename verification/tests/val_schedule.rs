use std::collections::{HashMap, HashSet};

use ergoscript_cse::node::{node_eq, FuncArg, Node, OpKind};
use ergoscript_cse::reassign::{
    body_schedule_walk_collect, body_walk_children, collect_all_valdef_ids_in_order,
    dfs_collect_val_order, dfs_collect_val_order_inner, dfs_reassign_val_ids,
};

const LONG: u32 = 5;
const EQ: u32 = 20;

fn c(v: u32) -> Node {
    Node::Op { kind: OpKind::Const, payload: 100 + v, children: Vec::new() }
}

fn bin(payload: u32, l: Node, r: Node) -> Node {
    Node::Op { kind: OpKind::BinOp, payload, children: vec![l, r] }
}

fn vdef(id: u32, rhs: Node) -> Node {
    Node::ValDef { id, rhs: Box::new(rhs) }
}

fn vuse(id: u32) -> Node {
    Node::ValUse { id, tpe: LONG }
}

fn block(items: Vec<Node>, result: Node) -> Node {
    Node::Block { items, result: Box::new(result) }
}

fn if_e(cond: Node, t: Node, f: Node) -> Node {
    Node::If { cond: Box::new(cond), then_branch: Box::new(t), else_branch: Box::new(f) }
}

fn sigma(input: Node) -> Node {
    Node::Op { kind: OpKind::BoolToSigmaProp, payload: 3, children: vec![input] }
}

#[test]
fn ids_follow_dependency_order_from_result() {
    let t = block(vec![vdef(10, c(1)), vdef(20, bin(EQ, vuse(10), c(2)))], vuse(20));
    let expected = block(vec![vdef(1, c(1)), vdef(2, bin(EQ, vuse(1), c(2)))], vuse(2));
    assert!(node_eq(&dfs_reassign_val_ids(t, &HashMap::new()), &expected));
}

#[test]
fn identity_numbering_leaves_block_alone() {
    let t = block(vec![vdef(1, c(1))], vuse(1));
    assert!(node_eq(&dfs_reassign_val_ids(t, &HashMap::new()), &block(vec![vdef(1, c(1))], vuse(1))));
    let no_defs = block(vec![c(4)], vuse(9));
    assert!(node_eq(&dfs_reassign_val_ids(no_defs, &HashMap::new()), &block(vec![c(4)], vuse(9))));
    assert!(node_eq(&dfs_reassign_val_ids(vuse(9), &HashMap::new()), &vuse(9)));
}

#[test]
fn if_result_walks_compound_children_before_leaves() {
    let items = vec![vdef(1, c(1)), vdef(2, c(2)), vdef(3, c(3))];
    let t = block(items, sigma(if_e(vuse(3), bin(EQ, vuse(1), c(9)), vuse(2))));
    let expected = block(
        vec![vdef(1, c(1)), vdef(3, c(2)), vdef(2, c(3))],
        sigma(if_e(vuse(2), bin(EQ, vuse(1), c(9)), vuse(3))),
    );
    assert!(node_eq(&dfs_reassign_val_ids(t, &HashMap::new()), &expected));
}

#[test]
fn unreached_defs_numbered_after_reached_ones() {
    let items = vec![vdef(1, c(1)), vdef(2, c(2)), vdef(3, c(3))];
    let t = block(items, bin(EQ, vuse(3), vuse(1)));
    let expected = block(vec![vdef(2, c(1)), vdef(3, c(2)), vdef(1, c(3))], bin(EQ, vuse(1), vuse(2)));
    assert!(node_eq(&dfs_reassign_val_ids(t, &HashMap::new()), &expected));
}

#[test]
fn schedule_walks_record_dependencies_first() {
    let items = vec![vdef(1, c(1)), vdef(2, bin(EQ, vuse(1), c(2))), vdef(3, c(3))];
    let root = bin(EQ, vuse(2), vuse(3));
    let mut ordered: Vec<u32> = Vec::new();
    let mut visited: HashSet<u32> = HashSet::new();
    dfs_collect_val_order(&root, &items, &mut ordered, &mut visited);
    assert_eq!(ordered, vec![1, 2, 3]);
    let mut ordered2: Vec<u32> = Vec::new();
    let mut visited2: HashSet<u32> = HashSet::new();
    visited2.insert(3);
    dfs_collect_val_order_inner(&root, &items, &mut ordered2, &mut visited2);
    assert_eq!(ordered2, vec![1, 2]);
    let mixed = if_e(vuse(3), bin(EQ, vuse(2), c(5)), c(6));
    let mut ordered3: Vec<u32> = Vec::new();
    let mut visited3: HashSet<u32> = HashSet::new();
    body_schedule_walk_collect(&mixed, &items, &mut ordered3, &mut visited3);
    assert_eq!(ordered3, vec![1, 2, 3]);
    let mut ordered4: Vec<u32> = Vec::new();
    let mut visited4: HashSet<u32> = HashSet::new();
    dfs_collect_val_order(&mixed, &items, &mut ordered4, &mut visited4);
    assert_eq!(ordered4, vec![3, 1, 2]);
}

#[test]
fn sweep_records_every_kind_of_id_once() {
    let f = Node::Func { args: vec![FuncArg { id: 7, tpe: LONG }], body: Box::new(vuse(7)) };
    let t = block(vec![vdef(4, f)], bin(EQ, vuse(4), vuse(9)));
    let mut ordered: Vec<u32> = vec![9];
    let mut visited: HashSet<u32> = HashSet::new();
    visited.insert(9);
    collect_all_valdef_ids_in_order(&t, &mut ordered, &mut visited);
    assert_eq!(ordered, vec![9, 4, 7]);
    assert_eq!(visited.len(), 3);
}

#[test]
fn block_walk_children_is_only_the_result() {
    let t = block(vec![vdef(1, c(1))], vuse(1));
    let cs = body_walk_children(&t);
    assert_eq!(cs.len(), 1);
    assert!(node_eq(cs[0], &vuse(1)));
    let b = bin(EQ, c(1), c(2));
    assert_eq!(body_walk_children(&b).len(), 2);
}
