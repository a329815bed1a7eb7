use ergoscript_cse::cse::{apply_cse_within_branches, cse_expr, process_lambdas};
use ergoscript_cse::dag::TypeTags;
use ergoscript_cse::hash_cons::HashCons;
use ergoscript_cse::dedup::deduplicate_inner_consts;
use ergoscript_cse::node::{node_eq, FuncArg, Node, OpKind};
use ergoscript_cse::pipeline::cse_pipeline;

const LONG: u32 = 5;
const EQ: u32 = 20;
const LT: u32 = 21;

fn tags() -> TypeTags {
    TypeTags {
        op_types: vec![LONG; 200],
        big_int: 9,
        equality_ops: Vec::new(),
        arith_ops: Vec::new(),
        relation_ops: Vec::new(),
        hash_cons: HashCons::Off,
        narrow_branch: false,
    }
}

fn c(v: u32) -> Node {
    Node::Op { kind: OpKind::Const, payload: 100 + v, children: Vec::new() }
}

fn op(kind: OpKind, payload: u32, children: Vec<Node>) -> Node {
    Node::Op { kind, payload, children }
}

fn bin(payload: u32, l: Node, r: Node) -> Node {
    op(OpKind::BinOp, payload, vec![l, r])
}

fn inputs(i: u32) -> Node {
    op(OpKind::ByIndex, 30, vec![op(OpKind::GlobalVars, 31, Vec::new()), c(i)])
}

fn prop(obj: Node) -> Node {
    op(OpKind::PropertyCall, 40, vec![obj])
}

fn vdef(id: u32, rhs: Node) -> Node {
    Node::ValDef { id, rhs: Box::new(rhs) }
}

fn vuse(id: u32) -> Node {
    Node::ValUse { id, tpe: LONG }
}

fn block(items: Vec<Node>, result: Node) -> Node {
    Node::Block { items, result: Box::new(result) }
}

fn if_node(cond: Node, then_branch: Node, else_branch: Node) -> Node {
    Node::If { cond: Box::new(cond), then_branch: Box::new(then_branch), else_branch: Box::new(else_branch) }
}

fn lambda(arg: u32, body: Node) -> Node {
    Node::Func { args: vec![FuncArg { id: arg, tpe: LONG }], body: Box::new(body) }
}

fn shared_input_tree() -> Node {
    bin(LT, op(OpKind::SizeOf, 41, vec![inputs(0)]), op(OpKind::ExtractAmount, 42, vec![inputs(0)]))
}

#[test]
fn cse_without_lambdas_is_the_root_graph_pass() {
    let expected = block(
        vec![vdef(1, inputs(0))],
        bin(LT, op(OpKind::SizeOf, 41, vec![vuse(1)]), op(OpKind::ExtractAmount, 42, vec![vuse(1)])),
    );
    assert!(node_eq(&cse_expr(shared_input_tree(), 0, false, &tags()), &expected));
}

#[test]
fn lambda_scope_extracts_the_best_candidate_from_two_past_the_largest_id() {
    let body = bin(EQ, prop(inputs(0)), prop(inputs(0)));
    let expected = block(vec![vdef(2, prop(inputs(0)))], bin(EQ, vuse(2), vuse(2)));
    assert!(node_eq(&cse_expr(body, 0, true, &tags()), &expected));
}

#[test]
fn lambda_pass_rewrites_bodies_and_raises_the_running_id() {
    let body = bin(EQ, prop(inputs(0)), prop(inputs(0)));
    let t = op(OpKind::ForAll, 50, vec![c(9), lambda(1, body)]);
    let mut gid: u32 = 0;
    let r = process_lambdas(t, &mut gid, &tags());
    let new_body = block(vec![vdef(2, prop(inputs(0)))], bin(EQ, vuse(2), vuse(2)));
    assert!(node_eq(&r, &op(OpKind::ForAll, 50, vec![c(9), lambda(1, new_body)])));
    assert_eq!(gid, 2);
}

#[test]
fn branch_pass_runs_in_each_if_branch() {
    let t = if_node(c(1), bin(EQ, inputs(1), inputs(1)), c(2));
    let expected = if_node(c(1), block(vec![vdef(11, inputs(1))], bin(EQ, vuse(11), vuse(11))), c(2));
    assert!(node_eq(&apply_cse_within_branches(t, 10, &tags()), &expected));
}

#[test]
fn branch_pass_leaves_trees_without_if_alone() {
    let t = shared_input_tree();
    assert!(node_eq(&apply_cse_within_branches(t, 10, &tags()), &shared_input_tree()));
}

#[test]
fn duplicate_option_gets_of_a_branch_are_extracted() {
    let og = op(OpKind::OptionGet, 60, vec![vuse(5)]);
    let t = if_node(c(1), bin(EQ, op(OpKind::OptionGet, 60, vec![vuse(5)]), op(OpKind::OptionGet, 60, vec![vuse(5)])), c(2));
    let expected = if_node(c(1), block(vec![vdef(6, og)], bin(EQ, vuse(6), vuse(6))), c(2));
    assert!(node_eq(&deduplicate_inner_consts(t, &tags()), &expected));
}

#[test]
fn duplicate_rules_leave_code_outside_branches_alone() {
    let t = bin(EQ, op(OpKind::OptionGet, 60, vec![vuse(5)]), op(OpKind::OptionGet, 60, vec![vuse(5)]));
    let same = bin(EQ, op(OpKind::OptionGet, 60, vec![vuse(5)]), op(OpKind::OptionGet, 60, vec![vuse(5)]));
    assert!(node_eq(&deduplicate_inner_consts(t, &tags()), &same));
}

#[test]
fn pipeline_binds_a_shared_input_once() {
    let r = cse_pipeline(shared_input_tree(), &tags());
    match &r {
        Node::Block { items, result } => {
            assert_eq!(items.len(), 1);
            match &items[0] {
                Node::ValDef { id, rhs } => {
                    assert!(node_eq(rhs, &inputs(0)));
                    let expected =
                        bin(LT, op(OpKind::SizeOf, 41, vec![vuse(*id)]), op(OpKind::ExtractAmount, 42, vec![vuse(*id)]));
                    assert!(node_eq(result, &expected));
                }
                _ => panic!("not a ValDef"),
            }
        }
        _ => panic!("not a block"),
    }
}

#[test]
fn renumbering_numbers_block_items_one_to_k() {
    let t = block(vec![vdef(7, c(1)), vdef(3, vuse(7)), vdef(9, c(2))], bin(EQ, vuse(3), vuse(9)));
    let r = ergoscript_cse::renumber::sequential_renumber(t);
    let expected = block(vec![vdef(1, c(1)), vdef(2, vuse(1)), vdef(3, c(2))], bin(EQ, vuse(2), vuse(3)));
    assert!(node_eq(&r, &expected));
}

#[test]
fn flattening_leaves_no_block_ending_in_a_block() {
    let t = op(OpKind::BoolToSigmaProp, 3, vec![block(vec![vdef(1, c(1))], block(vec![vdef(2, c(2))], vuse(2)))]);
    let expected = block(vec![vdef(1, c(1)), vdef(2, c(2))], op(OpKind::BoolToSigmaProp, 3, vec![vuse(2)]));
    assert!(node_eq(&ergoscript_cse::flatten::flatten_nested_blocks(t), &expected));
}
