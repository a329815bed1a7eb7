use std::collections::{HashMap, HashSet};

use ergoscript_cse::disambig::disambiguate_val_ids;
use ergoscript_cse::flatten::flatten_nested_blocks;
use ergoscript_cse::max_id::find_max_val_id;
use ergoscript_cse::node::{clone_node, node_eq, FuncArg, Node, OpKind};
use ergoscript_cse::renumber::{
    collect_and_assign_ids, collect_def_ids, renumber_val_ids, rewrite_ids, sequential_renumber,
};
use ergoscript_cse::scopes::{collect_branch_local_val_ids, top_level_val_ids};
use ergoscript_cse::walk::{
    collect_all_val_uses, contains_func_value, contains_val_use, count_occurrences, expr_depth,
    expr_size, is_input_stable, path_is_prefix, replace_all,
};

const LONG: u32 = 5;
const PLUS: u32 = 10;
const INPUTS: u32 = 7;

fn c(v: i64) -> Node {
    Node::Op { kind: OpKind::Const, payload: v as u32, children: Vec::new() }
}

fn cb(v: bool) -> Node {
    Node::Op { kind: OpKind::Const, payload: 1000 + v as u32, children: Vec::new() }
}

fn leaf(kind: OpKind, payload: u32) -> Node {
    Node::Op { kind, payload, children: Vec::new() }
}

fn op(kind: OpKind, children: Vec<Node>) -> Node {
    Node::Op { kind, payload: 0, children }
}

fn plus(l: Node, r: Node) -> Node {
    Node::Op { kind: OpKind::BinOp, payload: PLUS, children: vec![l, r] }
}

fn vdef(id: u32, rhs: Node) -> Node {
    Node::ValDef { id, rhs: Box::new(rhs) }
}

fn vuse(id: u32) -> Node {
    Node::ValUse { id, tpe: LONG }
}

fn block(items: Vec<Node>, result: Node) -> Node {
    Node::Block { items, result: Box::new(result) }
}

fn if_e(cond: Node, t: Node, f: Node) -> Node {
    Node::If { cond: Box::new(cond), then_branch: Box::new(t), else_branch: Box::new(f) }
}

fn lambda(ids: &[u32], body: Node) -> Node {
    Node::Func {
        args: ids.iter().map(|id| FuncArg { id: *id, tpe: LONG }).collect(),
        body: Box::new(body),
    }
}

fn inputs(i: i64) -> Node {
    op(OpKind::ByIndex, vec![leaf(OpKind::GlobalVars, INPUTS), c(i)])
}

fn same(a: &Node, b: &Node) -> bool {
    node_eq(a, b)
}

#[test]
fn count_occurrences_counts_each_visible_copy() {
    let target = plus(vuse(2), c(1));
    let t = block(vec![vdef(1, clone_node(&target))], clone_node(&target));
    assert_eq!(count_occurrences(&t, &target), 2);
    assert_eq!(count_occurrences(&target, &target), 1);
    assert_eq!(count_occurrences(&plus(vuse(2), vuse(2)), &vuse(2)), 2);
    assert_eq!(count_occurrences(&lambda(&[1], clone_node(&target)), &target), 1);
    assert_eq!(count_occurrences(&c(3), &target), 0);
}

#[test]
fn count_occurrences_skips_unsearched_kinds() {
    let target = vuse(2);
    assert_eq!(count_occurrences(&op(OpKind::CalcBlake2b256, vec![vuse(2)]), &target), 1);
    assert_eq!(count_occurrences(&op(OpKind::CalcSha256, vec![vuse(2)]), &target), 0);
    assert_eq!(count_occurrences(&op(OpKind::Append, vec![vuse(2), vuse(2)]), &target), 0);
}

#[test]
fn replace_all_rewrites_searched_operands() {
    let t = plus(
        op(OpKind::CalcBlake2b256, vec![vuse(2)]),
        op(OpKind::CalcSha256, vec![vuse(2)]),
    );
    let r = replace_all(&t, &vuse(2), &c(9));
    let expected = plus(
        op(OpKind::CalcBlake2b256, vec![c(9)]),
        op(OpKind::CalcSha256, vec![c(9)]),
    );
    assert!(same(&r, &expected));
}

#[test]
fn replace_all_reaches_every_operand_and_stops_at_match() {
    let x = op(OpKind::Xor, vec![vuse(2), vuse(2)]);
    assert!(same(&replace_all(&x, &vuse(2), &c(9)), &op(OpKind::Xor, vec![c(9), c(9)])));
    let t = plus(vuse(2), c(1));
    assert!(same(&replace_all(&t, &t, &vuse(4)), &vuse(4)));
    let f = lambda(&[3], plus(vuse(2), vuse(3)));
    assert!(same(&replace_all(&f, &vuse(2), &c(0)), &lambda(&[3], plus(c(0), vuse(3)))));
}

#[test]
fn contains_val_use_walks_every_child() {
    assert!(contains_val_use(&op(OpKind::Xor, vec![c(1), vuse(1)])));
    assert!(contains_val_use(&vuse(1)));
    assert!(!contains_val_use(&plus(c(1), c(2))));
    assert!(contains_val_use(&lambda(&[1], vuse(1))));
}

#[test]
fn collect_all_val_uses_in_preorder() {
    let t = block(
        vec![vdef(1, vuse(5))],
        if_e(vuse(6), vuse(7), op(OpKind::Xor, vec![vuse(8)])),
    );
    let mut out = vec![1u32];
    collect_all_val_uses(&t, &mut out);
    assert_eq!(out, vec![1, 5, 6, 7, 8]);
    assert_eq!(expr_size(&t), 8);
    assert_eq!(expr_size(&c(1)), 1);
}

#[test]
fn expr_depth_estimates() {
    assert_eq!(expr_depth(&c(1)), 0);
    assert_eq!(expr_depth(&vuse(1)), 0);
    let amount = op(OpKind::ExtractAmount, vec![inputs(0)]);
    assert_eq!(expr_depth(&amount), 2);
    assert_eq!(expr_depth(&plus(amount, c(1))), 3);
    assert_eq!(expr_depth(&block(vec![], c(1))), 1);
    assert_eq!(expr_depth(&op(OpKind::CalcSha256, vec![inputs(0)])), 1);
    assert_eq!(expr_depth(&leaf(OpKind::ConstPlaceholder, 0)), 1);
}

#[test]
fn contains_func_value_searched_kinds() {
    assert!(contains_func_value(&op(OpKind::Filter, vec![vuse(1), lambda(&[2], cb(true))])));
    assert!(!contains_func_value(&op(OpKind::CalcSha256, vec![lambda(&[2], cb(true))])));
    assert!(contains_func_value(&block(vec![], lambda(&[2], cb(true)))));
    assert!(!contains_func_value(&plus(c(1), c(2))));
}

#[test]
fn is_input_stable_cases() {
    assert!(is_input_stable(&op(OpKind::PropertyCall, vec![inputs(0)])));
    assert!(!is_input_stable(&op(OpKind::PropertyCall, vec![c(1)])));
    assert!(is_input_stable(&op(OpKind::ByIndex, vec![vuse(3), c(0)])));
    assert!(!is_input_stable(&op(OpKind::ExtractAmount, vec![vuse(3)])));
    assert!(is_input_stable(&leaf(OpKind::Context, 0)));
    assert!(!is_input_stable(&leaf(OpKind::Global, 0)));
}

#[test]
fn path_is_prefix_cases() {
    let a = vec!["a".to_string(), "b".to_string()];
    let abc = vec!["a".to_string(), "b".to_string(), "c".to_string()];
    let ac = vec!["a".to_string(), "c".to_string()];
    assert!(path_is_prefix(&a, &abc));
    assert!(path_is_prefix(&a, &a));
    assert!(!path_is_prefix(&ac, &abc));
    assert!(!path_is_prefix(&abc, &a));
    assert!(path_is_prefix(&[], &a));
}

#[test]
fn top_level_val_ids_cases() {
    let b = block(vec![vdef(1, c(0)), c(5), vdef(2, c(1))], c(0));
    assert_eq!(top_level_val_ids(&b), HashSet::from([1, 2]));
    let s = op(OpKind::BoolToSigmaProp, vec![block(vec![vdef(3, c(0))], cb(true))]);
    assert_eq!(top_level_val_ids(&s), HashSet::from([3]));
    let i = if_e(cb(true), block(vec![vdef(4, c(0))], cb(true)), cb(false));
    assert!(top_level_val_ids(&i).is_empty());
}

#[test]
fn collect_branch_local_val_ids_cases() {
    let t = block(
        vec![vdef(1, c(0))],
        if_e(
            block(vec![vdef(2, c(0))], vuse(2)),
            block(vec![vdef(3, c(0))], vuse(3)),
            op(OpKind::Xor, vec![block(vec![vdef(4, c(0))], c(0))]),
        ),
    );
    assert_eq!(collect_branch_local_val_ids(&t), HashSet::from([3, 4]));
    assert!(collect_branch_local_val_ids(&block(vec![vdef(1, c(0))], c(0))).is_empty());
}

#[test]
fn flatten_hoists_out_of_bool_to_sigma() {
    let t = op(OpKind::BoolToSigmaProp, vec![block(vec![vdef(1, cb(true))], vuse(1))]);
    let expected = block(vec![vdef(1, cb(true))], op(OpKind::BoolToSigmaProp, vec![vuse(1)]));
    assert!(same(&flatten_nested_blocks(t), &expected));
}

#[test]
fn flatten_hoists_out_of_sigma_and_or() {
    let t = op(
        OpKind::SigmaAnd,
        vec![
            block(vec![vdef(1, c(1))], vuse(1)),
            vuse(9),
            block(vec![vdef(2, c(2))], vuse(2)),
        ],
    );
    let expected = block(
        vec![vdef(1, c(1)), vdef(2, c(2))],
        op(OpKind::SigmaAnd, vec![vuse(1), vuse(9), vuse(2)]),
    );
    assert!(same(&flatten_nested_blocks(t), &expected));
    let o = op(OpKind::SigmaOr, vec![block(vec![], vuse(1)), vuse(2)]);
    assert!(same(&flatten_nested_blocks(o), &op(OpKind::SigmaOr, vec![vuse(1), vuse(2)])));
}

#[test]
fn flatten_merges_block_chains_but_not_inside_lambdas() {
    let t = block(vec![vdef(1, c(1))], block(vec![vdef(2, c(2))], block(vec![vdef(3, c(3))], vuse(3))));
    let expected = block(vec![vdef(1, c(1)), vdef(2, c(2)), vdef(3, c(3))], vuse(3));
    assert!(same(&flatten_nested_blocks(t), &expected));
    let f = lambda(&[1], block(vec![vdef(2, c(2))], block(vec![], vuse(2))));
    let f2 = clone_node(&f);
    assert!(same(&flatten_nested_blocks(f), &f2));
    let p = op(OpKind::SigmaPropIsProven, vec![block(vec![], block(vec![], vuse(2)))]);
    let p2 = op(OpKind::SigmaPropIsProven, vec![block(vec![], vuse(2))]);
    assert!(same(&flatten_nested_blocks(p), &p2));
}

#[test]
fn find_max_val_id_follows_searched_kinds() {
    let t = block(vec![vdef(3, vuse(7))], op(OpKind::CalcSha256, vec![vuse(50)]));
    assert_eq!(find_max_val_id(&t), 7);
    assert_eq!(find_max_val_id(&lambda(&[12], c(0))), 12);
    assert_eq!(find_max_val_id(&c(0)), 0);
}

fn s33_shape() -> Node {
    block(
        vec![vdef(1, c(0))],
        if_e(
            cb(true),
            block(vec![vdef(2, c(10))], vuse(2)),
            block(vec![vdef(2, c(20)), vdef(3, c(30))], vuse(3)),
        ),
    )
}

#[test]
fn disambiguate_renames_above_max_id() {
    let d = disambiguate_val_ids(s33_shape());
    let expected = block(
        vec![vdef(4, c(0))],
        if_e(
            cb(true),
            block(vec![vdef(5, c(10))], vuse(5)),
            block(vec![vdef(6, c(20)), vdef(7, c(30))], vuse(7)),
        ),
    );
    assert!(same(&d, &expected), "{:#?}", d);
}

#[test]
fn sequential_renumber_exact_ids() {
    let raw = sequential_renumber(s33_shape());
    let expected_raw = block(
        vec![vdef(1, c(0))],
        if_e(
            cb(true),
            block(vec![vdef(2, c(10))], vuse(2)),
            block(vec![vdef(2, c(20)), vdef(2, c(30))], vuse(2)),
        ),
    );
    assert!(same(&raw, &expected_raw), "{:#?}", raw);
    let fixed = sequential_renumber(disambiguate_val_ids(s33_shape()));
    let expected_fixed = block(
        vec![vdef(1, c(0))],
        if_e(
            cb(true),
            block(vec![vdef(2, c(10))], vuse(2)),
            block(vec![vdef(2, c(20)), vdef(3, c(30))], vuse(3)),
        ),
    );
    assert!(same(&fixed, &expected_fixed), "{:#?}", fixed);
}

#[test]
fn collect_and_assign_ids_map() {
    let mut id_map: HashMap<u32, u32> = HashMap::new();
    let mut next_id: u32 = 0;
    collect_and_assign_ids(&s33_shape(), &mut id_map, &mut next_id, None);
    assert_eq!(id_map, HashMap::from([(1, 1), (2, 2), (3, 2)]));
    assert_eq!(next_id, 1);
}

#[test]
fn rewrite_ids_maps_defs_and_uses() {
    let id_map: HashMap<u32, u32> = HashMap::from([(1, 10)]);
    let t = block(vec![vdef(1, vuse(1))], plus(vuse(1), vuse(2)));
    let r = rewrite_ids(&t, &id_map);
    assert!(same(&r, &block(vec![vdef(10, vuse(10))], plus(vuse(10), vuse(2)))));
}

#[test]
fn lambda_args_take_numbers_after_their_val_def() {
    let t = block(vec![vdef(9, lambda(&[40], vuse(40)))], vuse(9));
    let r = sequential_renumber(t);
    let expected = block(vec![vdef(1, lambda(&[1], vuse(1)))], vuse(1));
    assert!(same(&r, &expected), "{:#?}", r);
}

#[test]
fn collect_def_ids_numbers_in_preorder() {
    let t = block(
        vec![vdef(7, lambda(&[9], vuse(9))), vdef(3, c(0))],
        plus(vuse(7), vuse(3)),
    );
    let mut id_map: HashMap<u32, u32> = HashMap::new();
    let mut next_id: u32 = 1;
    collect_def_ids(&t, &mut id_map, &mut next_id);
    assert_eq!(id_map, HashMap::from([(7, 1), (9, 2), (3, 3)]));
    assert_eq!(next_id, 4);
    let r = renumber_val_ids(t);
    let expected = block(
        vec![vdef(1, lambda(&[2], vuse(2))), vdef(3, c(0))],
        plus(vuse(1), vuse(3)),
    );
    assert!(same(&r, &expected), "{:#?}", r);
    let hidden = op(OpKind::CalcSha256, vec![vdef(5, c(0))]);
    let mut m2: HashMap<u32, u32> = HashMap::new();
    let mut n2: u32 = 1;
    collect_def_ids(&hidden, &mut m2, &mut n2);
    assert!(m2.is_empty());
    assert_eq!(n2, 1);
}

fn occurs_in(t: &Node, x: &Node) -> bool {
    if node_eq(t, x) {
        return true;
    }
    match t {
        Node::ValDef { rhs, .. } => occurs_in(rhs, x),
        Node::ValUse { .. } => false,
        Node::Block { items, result } => items.iter().any(|i| occurs_in(i, x)) || occurs_in(result, x),
        Node::If { cond, then_branch, else_branch } => {
            occurs_in(cond, x) || occurs_in(then_branch, x) || occurs_in(else_branch, x)
        }
        Node::Func { body, .. } => occurs_in(body, x),
        Node::Op { children, .. } => children.iter().any(|ch| occurs_in(ch, x)),
    }
}

#[test]
fn replace_all_leaves_no_target_at_any_depth() {
    let target = plus(c(1), c(2));
    let e = block(
        vec![vdef(1, plus(clone_node(&target), c(3)))],
        if_e(cb(true), op(OpKind::Xor, vec![clone_node(&target), vuse(1)]), plus(vuse(1), clone_node(&target))),
    );
    let r = replace_all(&e, &target, &vuse(9));
    assert!(occurs_in(&e, &target));
    assert!(!occurs_in(&r, &target));
    assert!(occurs_in(&r, &vuse(9)));
}

#[test]
fn replace_all_without_match_gives_input_back() {
    let target = plus(c(1), c(2));
    let e = block(vec![vdef(1, plus(c(1), c(3)))], plus(vuse(1), c(2)));
    assert!(node_eq(&replace_all(&e, &target, &vuse(9)), &e));
    assert!(node_eq(&replace_all(&target, &target, &plus(clone_node(&target), c(4))), &plus(clone_node(&target), c(4))));
}

fn valdef_ids(t: &Node, out: &mut Vec<u32>) {
    match t {
        Node::ValDef { id, rhs } => {
            out.push(*id);
            valdef_ids(rhs, out);
        }
        Node::ValUse { .. } => {}
        Node::Block { items, result } => {
            for i in items {
                valdef_ids(i, out);
            }
            valdef_ids(result, out);
        }
        Node::If { cond, then_branch, else_branch } => {
            valdef_ids(cond, out);
            valdef_ids(then_branch, out);
            valdef_ids(else_branch, out);
        }
        Node::Func { body, .. } => valdef_ids(body, out),
        Node::Op { children, .. } => {
            for ch in children {
                valdef_ids(ch, out);
            }
        }
    }
}

fn sorted_ids(t: &Node) -> Vec<u32> {
    let mut v = Vec::new();
    valdef_ids(t, &mut v);
    v.sort();
    v
}

fn strip(t: &Node) -> Node {
    match t {
        Node::ValDef { rhs, .. } => vdef(0, strip(rhs)),
        Node::ValUse { tpe, .. } => Node::ValUse { id: 0, tpe: *tpe },
        Node::Block { items, result } => block(items.iter().map(strip).collect(), strip(result)),
        Node::If { cond, then_branch, else_branch } => if_e(strip(cond), strip(then_branch), strip(else_branch)),
        Node::Func { args, body } => Node::Func { args: args.clone(), body: Box::new(strip(body)) },
        Node::Op { kind, payload, children } => {
            Node::Op { kind: *kind, payload: *payload, children: children.iter().map(strip).collect() }
        }
    }
}

fn blocks_increase(t: &Node) -> bool {
    match t {
        Node::ValDef { rhs, .. } => blocks_increase(rhs),
        Node::ValUse { .. } => true,
        Node::Block { items, result } => {
            let ids: Vec<u32> = items
                .iter()
                .filter_map(|i| match i {
                    Node::ValDef { id, .. } => Some(*id),
                    _ => None,
                })
                .collect();
            ids.windows(2).all(|w| w[0] < w[1]) && items.iter().all(blocks_increase) && blocks_increase(result)
        }
        Node::If { cond, then_branch, else_branch } => {
            blocks_increase(cond) && blocks_increase(then_branch) && blocks_increase(else_branch)
        }
        Node::Func { body, .. } => blocks_increase(body),
        Node::Op { children, .. } => children.iter().all(blocks_increase),
    }
}

#[test]
fn flatten_keeps_every_valdef_id_once() {
    let t = block(
        vec![vdef(1, c(1)), vdef(4, op(OpKind::SigmaAnd, vec![block(vec![vdef(2, c(2))], vuse(2)), block(vec![vdef(3, c(3))], vuse(3))]))],
        block(vec![vdef(5, c(5))], op(OpKind::BoolToSigmaProp, vec![block(vec![vdef(6, c(6))], vuse(6))])),
    );
    let before = sorted_ids(&t);
    let f = flatten_nested_blocks(t);
    assert_eq!(sorted_ids(&f), before);
    match &f {
        Node::Block { items, .. } => {
            assert!(matches!(items[0], Node::ValDef { id: 1, .. }));
            assert!(matches!(items[1], Node::ValDef { id: 4, .. }));
        }
        _ => panic!("a block stays a block"),
    }
}

#[test]
fn disambiguation_uses_exactly_the_fresh_range_and_keeps_shape() {
    let t = s33_shape();
    let shape = strip(&t);
    let d = disambiguate_val_ids(t);
    assert_eq!(sorted_ids(&d), vec![4, 5, 6, 7]);
    assert!(same(&strip(&d), &shape));
}

#[test]
fn renumbering_distinct_ids_orders_every_block() {
    let t = block(
        vec![vdef(30, c(0)), vdef(10, block(vec![vdef(25, c(1)), vdef(5, vuse(25))], vuse(5)))],
        if_e(cb(true), block(vec![vdef(40, vuse(30)), vdef(35, vuse(40))], vuse(35)), vuse(10)),
    );
    let r = sequential_renumber(t);
    assert!(blocks_increase(&r));
}

#[test]
fn renumbering_numbers_valdef_items_one_to_k() {
    let t = block(
        vec![
            vdef(30, block(vec![vdef(31, c(1))], vuse(31))),
            vdef(10, lambda(&[50], plus(vuse(50), vuse(30)))),
            vdef(20, block(vec![vdef(21, c(2)), vdef(22, vuse(21))], vuse(22))),
        ],
        block(vec![vdef(40, vuse(20))], vuse(40)),
    );
    match sequential_renumber(t) {
        Node::Block { items, .. } => {
            let ids: Vec<u32> = items
                .iter()
                .map(|i| match i {
                    Node::ValDef { id, .. } => *id,
                    _ => panic!("items stay ValDefs"),
                })
                .collect();
            assert_eq!(ids, vec![1, 2, 3]);
        }
        _ => panic!("a block stays a block"),
    }
}

#[test]
fn disambiguation_numbers_block_items_before_their_insides() {
    let t = block(vec![vdef(1, block(vec![vdef(2, c(7))], vuse(2))), vdef(3, vuse(1))], vuse(3));
    let expected = block(vec![vdef(4, block(vec![vdef(6, c(7))], vuse(6))), vdef(5, vuse(4))], vuse(5));
    let d = disambiguate_val_ids(t);
    assert!(same(&d, &expected), "{:?}", d);
}
