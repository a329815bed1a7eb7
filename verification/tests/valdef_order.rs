use ergoscript_cse::node::{node_eq, Node, OpKind, BIN_AND, BIN_OR};
use ergoscript_cse::reorder::reorder_valdefs;
use ergoscript_cse::topo::topo_order_valdefs;

const LONG: u32 = 5;
const EQ: u32 = 20;

fn c(v: u32) -> Node {
    Node::Op { kind: OpKind::Const, payload: 100 + v, children: Vec::new() }
}

fn bin(payload: u32, l: Node, r: Node) -> Node {
    Node::Op { kind: OpKind::BinOp, payload, children: vec![l, r] }
}

fn vdef(id: u32, rhs: Node) -> Node {
    Node::ValDef { id, rhs: Box::new(rhs) }
}

fn vuse(id: u32) -> Node {
    Node::ValUse { id, tpe: LONG }
}

fn block(items: Vec<Node>, result: Node) -> Node {
    Node::Block { items, result: Box::new(result) }
}

fn if_e(cond: Node, t: Node, f: Node) -> Node {
    Node::If { cond: Box::new(cond), then_branch: Box::new(t), else_branch: Box::new(f) }
}

fn sigma(input: Node) -> Node {
    Node::Op { kind: OpKind::BoolToSigmaProp, payload: 3, children: vec![input] }
}

#[test]
fn dependencies_come_before_their_users() {
    let t = block(vec![vdef(1, bin(EQ, vuse(2), c(1))), vdef(2, c(5))], vuse(1));
    let expected = block(vec![vdef(2, c(5)), vdef(1, bin(EQ, vuse(2), c(1)))], vuse(1));
    assert!(node_eq(&reorder_valdefs(t), &expected));
}

#[test]
fn unused_val_defs_are_dropped() {
    let t = block(vec![vdef(1, c(1)), vdef(2, c(2))], vuse(2));
    assert!(node_eq(&reorder_valdefs(t), &block(vec![vdef(2, c(2))], vuse(2))));
    let all_dead = block(vec![vdef(1, c(1)), c(3)], c(7));
    assert!(node_eq(&reorder_valdefs(all_dead), &c(7)));
    let empty = block(Vec::new(), c(7));
    assert!(node_eq(&reorder_valdefs(empty), &block(Vec::new(), c(7))));
}

#[test]
fn left_operand_of_and_first() {
    let t = block(vec![vdef(2, c(2)), vdef(1, c(1))], sigma(bin(BIN_AND, vuse(1), vuse(2))));
    let expected = block(vec![vdef(1, c(1)), vdef(2, c(2))], sigma(bin(BIN_AND, vuse(1), vuse(2))));
    assert!(node_eq(&reorder_valdefs(t), &expected));
}

#[test]
fn branch_vals_by_id_when_dense() {
    let t = block(vec![vdef(2, c(0)), vdef(1, c(5))], if_e(c(1), vuse(2), vuse(1)));
    let expected = block(vec![vdef(1, c(5)), vdef(2, c(0))], if_e(c(1), vuse(2), vuse(1)));
    assert!(node_eq(&reorder_valdefs(t), &expected));
}

#[test]
fn branch_constants_last_when_sparse() {
    let t = block(
        vec![vdef(5, c(0)), vdef(7, bin(EQ, c(1), c(2)))],
        if_e(c(1), vuse(5), vuse(7)),
    );
    let expected = block(
        vec![vdef(7, bin(EQ, c(1), c(2))), vdef(5, c(0))],
        if_e(c(1), vuse(5), vuse(7)),
    );
    assert!(node_eq(&reorder_valdefs(t), &expected));
}

#[test]
fn dense_branches_pull_in_transitive_dependencies_in_id_order() {
    let t = block(
        vec![vdef(3, vuse(1)), vdef(2, c(2)), vdef(1, c(1))],
        if_e(c(9), vuse(3), c(0)),
    );
    let expected = block(
        vec![vdef(1, c(1)), vdef(3, vuse(1))],
        if_e(c(9), vuse(3), c(0)),
    );
    assert!(node_eq(&reorder_valdefs(t), &expected));
}

#[test]
fn interleaved_sparse_branches_are_walked_in_order() {
    let t = block(
        vec![vdef(9, c(4)), vdef(8, bin(EQ, vuse(9), c(1)))],
        if_e(c(1), vuse(8), vuse(9)),
    );
    let expected = block(
        vec![vdef(9, c(4)), vdef(8, bin(EQ, vuse(9), c(1)))],
        if_e(c(1), vuse(8), vuse(9)),
    );
    assert!(node_eq(&reorder_valdefs(t), &expected));
}

#[test]
fn innermost_or_in_a_lazy_chain_walks_right_first() {
    let chain = bin(BIN_AND, c(0), bin(BIN_OR, bin(BIN_OR, vuse(1), vuse(2)), vuse(3)));
    let t = block(vec![vdef(1, c(1)), vdef(2, c(2)), vdef(3, c(3))], sigma(chain));
    let r = reorder_valdefs(t);
    let chain2 = bin(BIN_AND, c(0), bin(BIN_OR, bin(BIN_OR, vuse(1), vuse(2)), vuse(3)));
    let expected = block(vec![vdef(2, c(2)), vdef(1, c(1)), vdef(3, c(3))], sigma(chain2));
    assert!(node_eq(&r, &expected), "{:?}", r);
}

#[test]
fn inner_blocks_are_reordered_first() {
    let inner = block(vec![vdef(4, c(4)), vdef(5, c(5))], vuse(5));
    let t = bin(EQ, inner, c(0));
    let expected = bin(EQ, block(vec![vdef(5, c(5))], vuse(5)), c(0));
    assert!(node_eq(&reorder_valdefs(t), &expected));
}

#[test]
fn topo_order_puts_definitions_first() {
    let items = vec![vdef(1, vuse(2)), vdef(2, c(0))];
    let r = topo_order_valdefs(items);
    assert_eq!(r.len(), 2);
    assert!(node_eq(&r[0], &vdef(2, c(0))));
    assert!(node_eq(&r[1], &vdef(1, vuse(2))));
}

#[test]
fn topo_order_keeps_ready_items_in_place() {
    let items = vec![c(5), vdef(2, c(0)), vdef(1, vuse(2)), vdef(7, vuse(7))];
    let r = topo_order_valdefs(items);
    let expected = vec![c(5), vdef(2, c(0)), vdef(1, vuse(2)), vdef(7, vuse(7))];
    assert_eq!(r.len(), expected.len());
    for (a, b) in r.iter().zip(expected.iter()) {
        assert!(node_eq(a, b));
    }
}

#[test]
fn topo_order_waits_for_later_definitions() {
    let items = vec![bin(EQ, vuse(3), c(1)), vdef(3, c(0))];
    let r = topo_order_valdefs(items);
    assert!(node_eq(&r[0], &vdef(3, c(0))));
    assert!(node_eq(&r[1], &bin(EQ, vuse(3), c(1))));
}

#[test]
fn topo_order_leaves_cycles_in_their_order() {
    let items = vec![vdef(1, vuse(2)), vdef(2, vuse(1)), vdef(3, c(0))];
    let r = topo_order_valdefs(items);
    assert_eq!(r.len(), 3);
    assert!(node_eq(&r[0], &vdef(3, c(0))));
    assert!(node_eq(&r[1], &vdef(1, vuse(2))));
    assert!(node_eq(&r[2], &vdef(2, vuse(1))));
}

#[test]
fn items_that_are_no_valdef_keep_their_order() {
    let items = vec![vuse(5), c(1), vdef(5, c(0))];
    let r = topo_order_valdefs(items);
    let expected = vec![vdef(5, c(0)), vuse(5), c(1)];
    assert_eq!(r.len(), 3);
    for (a, b) in r.iter().zip(expected.iter()) {
        assert!(node_eq(a, b));
    }
}
