use ergoscript_cse::dag::TypeTags;
use ergoscript_cse::hash_cons::HashCons;
use ergoscript_cse::if_cond::{
    collect_if_cond_subexprs, deeper_block_with_ge_two_occurrences, extract_if_cond_shared,
};
use ergoscript_cse::node::{node_eq, Node, OpKind};
use ergoscript_cse::pre_extract::pre_extract_from_valdefs;

const LONG: u32 = 5;
const EQ: u32 = 20;
const LT: u32 = 21;

fn tags() -> TypeTags {
    let mut equality_ops = vec![false; 200];
    equality_ops[EQ as usize] = true;
    TypeTags { op_types: vec![LONG; 200], big_int: 9, equality_ops, arith_ops: Vec::new(), relation_ops: Vec::new(), hash_cons: HashCons::Off, narrow_branch: false }
}

fn c(v: u32) -> Node {
    Node::Op { kind: OpKind::Const, payload: 100 + v, children: Vec::new() }
}

fn op(kind: OpKind, payload: u32, children: Vec<Node>) -> Node {
    Node::Op { kind, payload, children }
}

fn bin(payload: u32, l: Node, r: Node) -> Node {
    op(OpKind::BinOp, payload, vec![l, r])
}

fn inputs(i: u32) -> Node {
    op(OpKind::ByIndex, 30, vec![op(OpKind::GlobalVars, 31, Vec::new()), c(i)])
}

fn vdef(id: u32, rhs: Node) -> Node {
    Node::ValDef { id, rhs: Box::new(rhs) }
}

fn vuse(id: u32) -> Node {
    Node::ValUse { id, tpe: LONG }
}

fn block(items: Vec<Node>, result: Node) -> Node {
    Node::Block { items, result: Box::new(result) }
}

fn if_e(cond: Node, t: Node, f: Node) -> Node {
    Node::If { cond: Box::new(cond), then_branch: Box::new(t), else_branch: Box::new(f) }
}

fn same(a: &[Node], b: &[Node]) -> bool {
    a.len() == b.len() && a.iter().zip(b.iter()).all(|(x, y)| node_eq(x, y))
}

#[test]
fn if_conditions_offer_their_candidates() {
    let t = block(vec![vdef(1, c(5))], if_e(bin(LT, vuse(1), c(2)), c(3), if_e(bin(EQ, vuse(1), c(1)), c(0), c(4))));
    let mut out: Vec<Node> = Vec::new();
    collect_if_cond_subexprs(&t, &tags(), &mut out);
    assert!(same(&out, &[bin(LT, vuse(1), c(2)), bin(EQ, vuse(1), c(1))]));
}

#[test]
fn shared_condition_is_extracted_with_next_id() {
    let items = vec![vdef(1, c(5))];
    let result = if_e(bin(LT, vuse(1), c(2)), bin(LT, vuse(1), c(2)), c(0));
    let mut next: u32 = 10;
    let (defs, (new_items, new_result)) = extract_if_cond_shared(items, result, &mut next, &tags());
    assert_eq!(next, 11);
    assert!(same(&defs, &[vdef(10, bin(LT, vuse(1), c(2)))]));
    assert!(same(&new_items, &[vdef(1, c(5))]));
    assert!(node_eq(&new_result, &if_e(vuse(10), vuse(10), c(0))));
}

#[test]
fn equality_without_val_use_stays_inline() {
    let items = vec![vdef(1, c(5))];
    let result = if_e(bin(EQ, c(1), c(2)), bin(EQ, c(1), c(2)), c(0));
    let mut next: u32 = 10;
    let (defs, (new_items, new_result)) = extract_if_cond_shared(items, result, &mut next, &tags());
    assert_eq!(next, 10);
    assert!(defs.is_empty());
    assert!(same(&new_items, &[vdef(1, c(5))]));
    assert!(node_eq(&new_result, &if_e(bin(EQ, c(1), c(2)), bin(EQ, c(1), c(2)), c(0))));
}

#[test]
fn nested_block_holding_all_uses_takes_precedence() {
    let inner = block(vec![vdef(2, c(9))], bin(EQ, inputs(0), inputs(0)));
    let items = vec![vdef(1, inner)];
    assert!(deeper_block_with_ge_two_occurrences(&items, &c(0), &inputs(0)));
    assert!(!deeper_block_with_ge_two_occurrences(&items, &inputs(0), &inputs(0)));
}

#[test]
fn pre_extraction_places_new_val_after_its_dependency() {
    let t = block(vec![vdef(1, c(5))], if_e(bin(LT, vuse(1), c(2)), bin(LT, vuse(1), c(2)), c(0)));
    let mut next: u32 = 10;
    let r = pre_extract_from_valdefs(t, &mut next, &tags());
    let expected = block(vec![vdef(1, c(5)), vdef(10, bin(LT, vuse(1), c(2)))], if_e(vuse(10), vuse(10), c(0)));
    assert!(node_eq(&r, &expected));
    assert_eq!(next, 11);
}
