use ergoscript_cse::node::{Node, OpKind};
use ergoscript_cse::node::{clone_node, node_eq};
use ergoscript_cse::walk::{direct_children, replace_all};

const HEIGHT: u32 = 3;
const SELF_BOX: u32 = 4;

fn leaf(kind: OpKind, payload: u32) -> Node {
    Node::Op { kind, payload, children: Vec::new() }
}

fn op(kind: OpKind, children: Vec<Node>) -> Node {
    Node::Op { kind, payload: 0, children }
}

fn ci(v: i32) -> Node {
    leaf(OpKind::Const, v as u32)
}

fn cb_byte(v: i8) -> Node {
    leaf(OpKind::Const, 200 + v as u32)
}

fn cb_bytes() -> Node {
    leaf(OpKind::Const, 300)
}

fn cb_bool() -> Node {
    leaf(OpKind::Const, 400)
}

fn target() -> Node {
    leaf(OpKind::GlobalVars, 77)
}

fn marker() -> Node {
    Node::ValUse { id: 99, tpe: 1 }
}

/// Every operand of `kind` that is the target is rewritten by the
/// replacement walk, the others are kept.
fn rewrites_every_operand(kind: OpKind, children: Vec<Node>) {
    let e = op(kind, children.iter().map(clone_node).collect());
    let r = replace_all(&e, &target(), &marker());
    let expected: Vec<Node> = children
        .iter()
        .map(|c| if node_eq(c, &target()) { marker() } else { clone_node(c) })
        .collect();
    assert!(node_eq(&r, &op(kind, expected)));
}

fn height_dlog() -> Node {
    op(OpKind::CreateProveDlog, vec![leaf(OpKind::GlobalVars, HEIGHT)])
}

#[test]
fn calc_sha256_has_one_child() {
    let e = op(OpKind::CalcSha256, vec![cb_bytes()]);
    assert_eq!(direct_children(&e).len(), 1);
    rewrites_every_operand(OpKind::CalcSha256, vec![target()]);
}

#[test]
fn bit_inversion_has_one_child() {
    let e = op(OpKind::BitInversion, vec![ci(7)]);
    assert_eq!(direct_children(&e).len(), 1);
    rewrites_every_operand(OpKind::BitInversion, vec![target()]);
}

#[test]
fn extract_bytes_with_no_ref_has_one_child() {
    let e = op(OpKind::ExtractBytesWithNoRef, vec![leaf(OpKind::GlobalVars, SELF_BOX)]);
    assert_eq!(direct_children(&e).len(), 1);
    rewrites_every_operand(OpKind::ExtractBytesWithNoRef, vec![target()]);
}

#[test]
fn sigma_prop_is_proven_has_one_child() {
    let e = op(OpKind::SigmaPropIsProven, vec![height_dlog()]);
    assert_eq!(direct_children(&e).len(), 1);
    rewrites_every_operand(OpKind::SigmaPropIsProven, vec![target()]);
}

#[test]
fn xor_of_has_one_child() {
    let e = op(OpKind::XorOf, vec![cb_bool()]);
    assert_eq!(direct_children(&e).len(), 1);
    rewrites_every_operand(OpKind::XorOf, vec![target()]);
}

#[test]
fn xor_has_two_children() {
    let e = op(OpKind::Xor, vec![cb_bytes(), cb_bytes()]);
    assert_eq!(direct_children(&e).len(), 2);
    rewrites_every_operand(OpKind::Xor, vec![target(), target()]);
}

#[test]
fn subst_constants_has_three_children() {
    let e = op(OpKind::SubstConstants, vec![cb_bytes(), ci(0), ci(1)]);
    assert_eq!(direct_children(&e).len(), 3);
    rewrites_every_operand(OpKind::SubstConstants, vec![target(), ci(0), target()]);
}

#[test]
fn create_avl_tree_has_three_or_four_children() {
    let e3 = op(OpKind::CreateAvlTree, vec![cb_byte(1), cb_bytes(), ci(32)]);
    assert_eq!(direct_children(&e3).len(), 3);
    let e4 = op(OpKind::CreateAvlTree, vec![cb_byte(1), cb_bytes(), ci(32), ci(8)]);
    assert_eq!(direct_children(&e4).len(), 4);
    rewrites_every_operand(OpKind::CreateAvlTree, vec![cb_byte(1), target(), ci(32), target()]);
}

#[test]
fn deserialize_register_default_visited_when_present() {
    let none_default = op(OpKind::DeserializeRegister, Vec::new());
    assert_eq!(direct_children(&none_default).len(), 0);
    let some_default = op(OpKind::DeserializeRegister, vec![ci(0)]);
    assert_eq!(direct_children(&some_default).len(), 1);
    rewrites_every_operand(OpKind::DeserializeRegister, vec![target()]);
}

#[test]
fn zk_proof_block_has_one_child() {
    let e = op(OpKind::ZkProofBlock, vec![height_dlog()]);
    assert_eq!(direct_children(&e).len(), 1);
    rewrites_every_operand(OpKind::ZkProofBlock, vec![target()]);
}
