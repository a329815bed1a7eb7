use ergoscript_cse::dag::TypeTags;
use ergoscript_cse::hash_cons::HashCons;
use ergoscript_cse::node::{node_eq, Node, OpKind};
use ergoscript_cse::single_use::inline_single_use_vals;

const LONG: u32 = 5;
const EQ: u32 = 20;
const LT: u32 = 21;

fn tags() -> TypeTags {
    TypeTags { op_types: vec![LONG; 200], big_int: 9, equality_ops: Vec::new(), arith_ops: Vec::new(), relation_ops: Vec::new(), hash_cons: HashCons::Off, narrow_branch: false }
}

fn c(v: u32) -> Node {
    Node::Op { kind: OpKind::Const, payload: 100 + v, children: Vec::new() }
}

fn bin(payload: u32, l: Node, r: Node) -> Node {
    Node::Op { kind: OpKind::BinOp, payload, children: vec![l, r] }
}

fn upcast(input: Node) -> Node {
    Node::Op { kind: OpKind::Upcast, payload: 7, children: vec![input] }
}

fn vdef(id: u32, rhs: Node) -> Node {
    Node::ValDef { id, rhs: Box::new(rhs) }
}

fn vuse(id: u32) -> Node {
    Node::ValUse { id, tpe: LONG }
}

fn block(items: Vec<Node>, result: Node) -> Node {
    Node::Block { items, result: Box::new(result) }
}

#[test]
fn single_use_val_is_inlined_and_block_collapses() {
    let t = block(vec![vdef(1, c(1))], bin(EQ, vuse(1), c(2)));
    assert!(node_eq(&inline_single_use_vals(t, &tags()), &bin(EQ, c(1), c(2))));
}

#[test]
fn val_used_twice_stays() {
    let t = block(vec![vdef(1, c(1))], bin(EQ, vuse(1), vuse(1)));
    let expected = block(vec![vdef(1, c(1))], bin(EQ, vuse(1), vuse(1)));
    assert!(node_eq(&inline_single_use_vals(t, &tags()), &expected));
}

#[test]
fn chain_of_single_uses_is_inlined_through() {
    let t = block(vec![vdef(1, c(1)), vdef(2, bin(EQ, vuse(1), c(2)))], vuse(2));
    assert!(node_eq(&inline_single_use_vals(t, &tags()), &bin(EQ, c(1), c(2))));
}

#[test]
fn block_rhs_items_are_hoisted_and_wrapper_deduplicated() {
    let inner = block(vec![vdef(5, upcast(vuse(9)))], bin(EQ, vuse(5), vuse(5)));
    let t = block(vec![vdef(9, c(3)), vdef(1, inner)], bin(LT, vuse(1), upcast(vuse(9))));
    let expected = block(
        vec![vdef(9, c(3)), vdef(5, upcast(vuse(9)))],
        bin(LT, bin(EQ, vuse(5), vuse(5)), vuse(5)),
    );
    assert!(node_eq(&inline_single_use_vals(t, &tags()), &expected));
}

#[test]
fn other_items_stay_in_place() {
    let t = block(vec![c(7), vdef(1, c(1))], vuse(1));
    assert!(node_eq(&inline_single_use_vals(t, &tags()), &block(vec![c(7)], c(1))));
}
