use ergoscript_cse::chain::rewrite_byindex_globalvars_chain;
use ergoscript_cse::dag::TypeTags;
use ergoscript_cse::hash_cons::HashCons;
use ergoscript_cse::extract::extract_inner_vals;
use ergoscript_cse::node::{node_eq, Node, OpKind};

const LONG: u32 = 5;
const EQ: u32 = 20;

fn tags() -> TypeTags {
    TypeTags { op_types: vec![LONG; 200], big_int: 9, equality_ops: Vec::new(), arith_ops: Vec::new(), relation_ops: Vec::new(), hash_cons: HashCons::Off, narrow_branch: false }
}

fn c(v: u32) -> Node {
    Node::Op { kind: OpKind::Const, payload: 100 + v, children: Vec::new() }
}

fn op(kind: OpKind, payload: u32, children: Vec<Node>) -> Node {
    Node::Op { kind, payload, children }
}

fn inputs(i: u32) -> Node {
    op(OpKind::ByIndex, 30, vec![op(OpKind::GlobalVars, 31, Vec::new()), c(i)])
}

fn tokens(obj: Node) -> Node {
    op(OpKind::PropertyCall, 32, vec![obj])
}

fn vdef(id: u32, rhs: Node) -> Node {
    Node::ValDef { id, rhs: Box::new(rhs) }
}

fn vuse(id: u32) -> Node {
    Node::ValUse { id, tpe: LONG }
}

fn block(items: Vec<Node>, result: Node) -> Node {
    Node::Block { items, result: Box::new(result) }
}

#[test]
fn chain_links_collapse_rung_by_rung() {
    let t = block(
        vec![vdef(1, inputs(0)), vdef(2, tokens(inputs(0)))],
        op(OpKind::BinOp, EQ, vec![tokens(inputs(0)), c(5)]),
    );
    let expected = block(
        vec![vdef(1, inputs(0)), vdef(2, tokens(vuse(1)))],
        op(OpKind::BinOp, EQ, vec![vuse(2), c(5)]),
    );
    assert!(node_eq(&rewrite_byindex_globalvars_chain(t, &tags()), &expected));
}

#[test]
fn non_block_and_non_link_defs_stay() {
    let plain = op(OpKind::BinOp, EQ, vec![inputs(0), c(1)]);
    let same = op(OpKind::BinOp, EQ, vec![inputs(0), c(1)]);
    assert!(node_eq(&rewrite_byindex_globalvars_chain(plain, &tags()), &same));
    let t = block(vec![vdef(1, c(4))], op(OpKind::BinOp, EQ, vec![c(4), inputs(2)]));
    let expected = block(vec![vdef(1, c(4))], op(OpKind::BinOp, EQ, vec![c(4), inputs(2)]));
    assert!(node_eq(&rewrite_byindex_globalvars_chain(t, &tags()), &expected));
}

#[test]
fn duplicates_extracted_into_block_with_fresh_ids() {
    let t = block(
        vec![vdef(3, op(OpKind::BinOp, EQ, vec![inputs(0), c(1)]))],
        op(OpKind::BinOp, 21, vec![vuse(3), inputs(0)]),
    );
    let expected = block(
        vec![vdef(4, inputs(0)), vdef(3, op(OpKind::BinOp, EQ, vec![vuse(4), c(1)]))],
        op(OpKind::BinOp, 21, vec![vuse(3), vuse(4)]),
    );
    assert!(node_eq(&extract_inner_vals(t, vec![inputs(0)], &tags()), &expected));
    let bare = op(OpKind::BinOp, EQ, vec![inputs(0), inputs(0)]);
    let wrapped = block(vec![vdef(1, inputs(0))], op(OpKind::BinOp, EQ, vec![vuse(1), vuse(1)]));
    assert!(node_eq(&extract_inner_vals(bare, vec![inputs(0)], &tags()), &wrapped));
    let cond = Node::If {
        cond: Box::new(c(1)),
        then_branch: Box::new(inputs(0)),
        else_branch: Box::new(inputs(0)),
    };
    let sig = op(OpKind::BoolToSigmaProp, 3, vec![cond]);
    let expected_if = Node::If {
        cond: Box::new(c(1)),
        then_branch: Box::new(vuse(1)),
        else_branch: Box::new(vuse(1)),
    };
    let expected_sig = op(OpKind::BoolToSigmaProp, 3, vec![block(vec![vdef(1, inputs(0))], expected_if)]);
    assert!(node_eq(&extract_inner_vals(sig, vec![inputs(0)], &tags()), &expected_sig));
}
