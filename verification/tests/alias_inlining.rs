use ergoscript_cse::alias::{
    alias_count_for, count_alias_split_occurrences, inline_alias_vals, inline_alias_vals_walk,
};
use ergoscript_cse::node::{clone_node, node_eq, Node, OpKind};

const LONG: u32 = 5;
const EQ: u32 = 20;
const OUTPUTS: u32 = 8;

fn c(v: i64) -> Node {
    Node::Op { kind: OpKind::Const, payload: v as u32, children: Vec::new() }
}

fn op(kind: OpKind, children: Vec<Node>) -> Node {
    Node::Op { kind, payload: 0, children }
}

fn vdef(id: u32, rhs: Node) -> Node {
    Node::ValDef { id, rhs: Box::new(rhs) }
}

fn vuse(id: u32) -> Node {
    Node::ValUse { id, tpe: LONG }
}

fn block(items: Vec<Node>, result: Node) -> Node {
    Node::Block { items, result: Box::new(result) }
}

fn if_e(cond: Node, t: Node, f: Node) -> Node {
    Node::If { cond: Box::new(cond), then_branch: Box::new(t), else_branch: Box::new(f) }
}

fn outputs(i: i64) -> Node {
    op(OpKind::ByIndex, vec![Node::Op { kind: OpKind::GlobalVars, payload: OUTPUTS, children: Vec::new() }, c(i)])
}

fn eq(l: Node, r: Node) -> Node {
    Node::Op { kind: OpKind::BinOp, payload: EQ, children: vec![l, r] }
}

fn cross_scope_shape() -> Node {
    block(
        vec![vdef(1, outputs(0))],
        if_e(
            c(1),
            block(vec![vdef(2, outputs(0))], eq(op(OpKind::ExtractAmount, vec![vuse(2)]), c(1))),
            c(0),
        ),
    )
}

#[test]
fn alias_counts_split_by_scope() {
    let t = cross_scope_shape();
    let mut eager: Vec<(Node, usize)> = Vec::new();
    let mut branch: Vec<(Node, usize)> = Vec::new();
    count_alias_split_occurrences(&t, false, &mut eager, &mut branch);
    assert_eq!(eager.len(), 1);
    assert!(node_eq(&eager[0].0, &outputs(0)));
    assert_eq!(eager[0].1, 1);
    assert_eq!(branch.len(), 1);
    assert_eq!(branch[0].1, 1);
    assert_eq!(alias_count_for(&outputs(0), &eager), 1);
    assert_eq!(alias_count_for(&outputs(1), &eager), 0);
}

#[test]
fn alias_count_for_takes_first_entry() {
    let list = vec![(c(1), 3usize), (c(2), 5usize), (c(2), 9usize)];
    assert_eq!(alias_count_for(&c(2), &list), 5);
    assert_eq!(alias_count_for(&c(3), &list), 0);
}

#[test]
fn aliases_seen_in_both_scopes_are_inlined() {
    let r = inline_alias_vals(cross_scope_shape());
    let expected = block(
        vec![],
        if_e(
            c(1),
            block(vec![], eq(op(OpKind::ExtractAmount, vec![outputs(0)]), c(1))),
            c(0),
        ),
    );
    assert!(node_eq(&r, &expected), "{:#?}", r);
}

#[test]
fn sibling_branch_aliases_stay() {
    let t = if_e(
        c(1),
        block(vec![vdef(3, outputs(1))], vuse(3)),
        block(vec![vdef(4, outputs(1))], vuse(4)),
    );
    let t2 = clone_node(&t);
    assert!(node_eq(&inline_alias_vals(t), &t2));
}

#[test]
fn walk_uses_given_tallies() {
    let mut t = block(vec![vdef(5, outputs(2)), vdef(6, c(7))], eq(vuse(5), vuse(6)));
    let branch = vec![(outputs(2), 2usize)];
    inline_alias_vals_walk(&mut t, false, &[], &branch);
    let expected = block(vec![vdef(6, c(7))], eq(outputs(2), vuse(6)));
    assert!(node_eq(&t, &expected), "{:#?}", t);
    let mut u = block(vec![vdef(5, outputs(2))], vuse(5));
    let u2 = clone_node(&u);
    inline_alias_vals_walk(&mut u, true, &[], &branch);
    assert!(node_eq(&u, &u2));
}
