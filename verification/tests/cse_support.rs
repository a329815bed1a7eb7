use ergoscript_cse::const_vals::inline_const_vals;
use ergoscript_cse::hash_cons::HashCons;
use ergoscript_cse::dag::{
    collect_subexprs, collect_subexprs_scope, count_dag_usages, count_dag_usages_scope,
    expr_type, is_collectible, is_extractable, TypeTags,
};
use ergoscript_cse::graph::build_value_recurse;
use ergoscript_cse::node::{node_eq, FuncArg, Node, OpKind, BIN_AND};
use ergoscript_cse::pick::{collect_consts, collect_option_gets, collect_property_byindex_candidates};

const LONG: u32 = 5;
const BIG: u32 = 9;
const BOOL: u32 = 4;
const EQ: u32 = 2;
const IDX: u32 = 3;
const INPUTS: u32 = 6;

fn tags() -> TypeTags {
    let mut op_types = vec![BOOL, BOOL, BOOL, LONG, 7, 8, 8, 8];
    for _ in 0..10 {
        op_types.push(LONG);
    }
    op_types.push(BIG);
    TypeTags { op_types, big_int: BIG, equality_ops: Vec::new(), arith_ops: Vec::new(), relation_ops: Vec::new(), hash_cons: HashCons::Off, narrow_branch: false }
}

fn c(v: u32) -> Node {
    Node::Op { kind: OpKind::Const, payload: 8 + v, children: Vec::new() }
}

fn big() -> Node {
    Node::Op { kind: OpKind::Const, payload: 18, children: Vec::new() }
}

fn op(kind: OpKind, payload: u32, children: Vec<Node>) -> Node {
    Node::Op { kind, payload, children }
}

fn bin(payload: u32, l: Node, r: Node) -> Node {
    op(OpKind::BinOp, payload, vec![l, r])
}

fn global() -> Node {
    op(OpKind::GlobalVars, INPUTS, Vec::new())
}

fn idx(i: u32) -> Node {
    op(OpKind::ByIndex, IDX, vec![global(), c(i)])
}

fn vdef(id: u32, rhs: Node) -> Node {
    Node::ValDef { id, rhs: Box::new(rhs) }
}

fn vuse(id: u32) -> Node {
    Node::ValUse { id, tpe: LONG }
}

fn block(items: Vec<Node>, result: Node) -> Node {
    Node::Block { items, result: Box::new(result) }
}

fn if_e(cond: Node, t: Node, f: Node) -> Node {
    Node::If { cond: Box::new(cond), then_branch: Box::new(t), else_branch: Box::new(f) }
}

fn same_list(a: &[Node], b: &[Node]) -> bool {
    a.len() == b.len() && a.iter().zip(b.iter()).all(|(x, y)| node_eq(x, y))
}

#[test]
fn candidates_and_extractables() {
    let t = tags();
    assert!(is_collectible(&big(), &t));
    assert!(!is_collectible(&c(1), &t));
    assert!(is_collectible(&idx(0), &t));
    assert!(!is_collectible(&op(OpKind::BoolToSigmaProp, 5, vec![c(1)]), &t));
    assert!(!is_collectible(&vuse(1), &t));
    assert!(!is_collectible(&if_e(c(1), c(2), c(3)), &t));
    assert!(is_extractable(&if_e(c(1), c(2), c(3)), &t));
    assert!(!is_extractable(&global(), &t));
    assert!(is_extractable(&big(), &t));
    assert!(!is_extractable(&c(2), &t));
    assert_eq!(expr_type(&idx(0), &t), LONG);
    assert_eq!(expr_type(&block(Vec::new(), big()), &t), BIG);
    assert_eq!(expr_type(&vuse(3), &t), LONG);
}

#[test]
fn subexpressions_in_preorder() {
    let t = tags();
    let e = bin(EQ, idx(0), idx(0));
    let mut out: Vec<Node> = Vec::new();
    collect_subexprs(&e, &t, &mut out);
    assert!(same_list(&out, &[bin(EQ, idx(0), idx(0)), idx(0), idx(0)]));
    let lazy = bin(BIN_AND, idx(0), idx(1));
    let mut all: Vec<Node> = Vec::new();
    collect_subexprs(&lazy, &t, &mut all);
    assert!(same_list(&all, &[bin(BIN_AND, idx(0), idx(1)), idx(0), idx(1)]));
    let mut scoped: Vec<Node> = Vec::new();
    collect_subexprs_scope(&lazy, &t, &mut scoped);
    assert!(same_list(&scoped, &[bin(BIN_AND, idx(0), idx(1)), idx(0)]));
    let filt = op(OpKind::Filter, 5, vec![idx(1), Node::Func { args: vec![FuncArg { id: 1, tpe: LONG }], body: Box::new(idx(2)) }]);
    let mut f: Vec<Node> = Vec::new();
    collect_subexprs(&filt, &t, &mut f);
    assert_eq!(f.len(), 2);
    assert!(node_eq(&f[1], &idx(1)));
}

#[test]
fn dag_usage_counts_each_edge() {
    let t = tags();
    let e = bin(EQ, idx(0), idx(0));
    let d = count_dag_usages(&e, &t);
    assert_eq!(d.len(), 2);
    assert!(node_eq(&d[0].0, &e));
    assert_eq!(d[0].1, 0);
    assert!(node_eq(&d[1].0, &idx(0)));
    assert_eq!(d[1].1, 4);
    let ds = count_dag_usages_scope(&e, &t);
    assert_eq!(ds.len(), 2);
    assert_eq!(ds[1].1, 2);
    let root = op(OpKind::BoolToSigmaProp, 5, vec![bin(BIN_AND, idx(0), idx(0))]);
    let all = count_dag_usages(&root, &t);
    let scoped = count_dag_usages_scope(&root, &t);
    let find = |v: &Vec<(Node, usize)>| v.iter().find(|(n, _)| node_eq(n, &idx(0))).map(|p| p.1);
    assert_eq!(find(&all), Some(2));
    assert_eq!(find(&scoped), Some(1));
}

#[test]
fn value_building_resolves_through_env() {
    let t = tags();
    let env = vec![(idx(0), 7u32)];
    let r = build_value_recurse(&bin(EQ, idx(0), c(1)), &env, &t);
    assert!(node_eq(&r, &bin(EQ, Node::ValUse { id: 7, tpe: LONG }, c(1))));
    let nested = op(OpKind::SizeOf, 5, vec![op(OpKind::ExtractAmount, 5, vec![idx(0)])]);
    let r2 = build_value_recurse(&nested, &env, &t);
    let expected = op(OpKind::SizeOf, 5, vec![op(OpKind::ExtractAmount, 5, vec![Node::ValUse { id: 7, tpe: LONG }])]);
    assert!(node_eq(&r2, &expected));
    let sha = op(OpKind::CalcSha256, 5, vec![idx(0)]);
    assert!(node_eq(&build_value_recurse(&sha, &env, &t), &sha));
}

#[test]
fn picking_collectors() {
    let e = bin(EQ, c(1), idx(2));
    let mut consts: Vec<Node> = Vec::new();
    collect_consts(&e, &mut consts);
    assert!(same_list(&consts, &[c(1), c(2)]));
    let og = op(OpKind::OptionGet, 5, vec![op(OpKind::OptionGet, 5, vec![vuse(1)])]);
    let mut gets: Vec<Node> = Vec::new();
    collect_option_gets(&og, &mut gets);
    assert_eq!(gets.len(), 2);
    let on_vu = op(OpKind::ByIndex, IDX, vec![vuse(3), c(0)]);
    let t = bin(EQ, on_vu, idx(0));
    let mut cands: Vec<Node> = Vec::new();
    collect_property_byindex_candidates(&t, &mut cands);
    assert!(same_list(&cands, &[op(OpKind::ByIndex, IDX, vec![vuse(3), c(0)])]));
}

#[test]
fn constant_vals_are_inlined() {
    let t = tags();
    let e = block(vec![vdef(1, c(5)), vdef(2, bin(EQ, vuse(1), c(0)))], vuse(2));
    let r = inline_const_vals(e, &t);
    assert!(node_eq(&r, &block(vec![vdef(2, bin(EQ, c(5), c(0)))], vuse(2))));
    let only = block(vec![vdef(1, c(5))], vuse(1));
    assert!(node_eq(&inline_const_vals(only, &t), &c(5)));
    let typed_apart = block(vec![vdef(1, c(5))], Node::ValUse { id: 1, tpe: 99 });
    assert!(node_eq(&inline_const_vals(typed_apart, &t), &Node::ValUse { id: 1, tpe: 99 }));
    let none = block(vec![vdef(1, idx(0))], vuse(1));
    assert!(node_eq(&inline_const_vals(none, &t), &block(vec![vdef(1, idx(0))], vuse(1))));
    let nested = block(vec![vdef(3, c(1))], block(vec![vdef(4, c(2))], bin(EQ, vuse(3), vuse(4))));
    assert!(node_eq(&inline_const_vals(nested, &t), &bin(EQ, c(1), c(2))));
    let later_wins = block(vec![vdef(1, c(5)), vdef(1, c(6)), vdef(2, vuse(1))], vuse(2));
    assert!(node_eq(&inline_const_vals(later_wins, &t), &block(vec![vdef(2, c(6))], vuse(2))));
}
