use std::collections::HashSet;

use ergoscript_cse::disambig::disambiguate_val_ids;
use ergoscript_cse::flatten::flatten_nested_blocks;
use ergoscript_cse::node::{Node, OpKind};
use ergoscript_cse::renumber::sequential_renumber;

const LONG: u32 = 5;

fn c(v: i64) -> Node {
    Node::Op { kind: OpKind::Const, payload: v as u32, children: Vec::new() }
}

fn cb(v: bool) -> Node {
    Node::Op { kind: OpKind::Const, payload: 1000 + v as u32, children: Vec::new() }
}

fn vdef(id: u32, rhs: Node) -> Node {
    Node::ValDef { id, rhs: Box::new(rhs) }
}

fn vuse(id: u32) -> Node {
    Node::ValUse { id, tpe: LONG }
}

fn block(items: Vec<Node>, result: Node) -> Node {
    Node::Block { items, result: Box::new(result) }
}

fn if_e(cond: Node, t: Node, f: Node) -> Node {
    Node::If { cond: Box::new(cond), then_branch: Box::new(t), else_branch: Box::new(f) }
}

fn expr_children(e: &Node) -> Vec<&Node> {
    match e {
        Node::Block { items, result } => {
            let mut v: Vec<&Node> = items.iter().collect();
            v.push(result);
            v
        }
        Node::ValDef { rhs, .. } => vec![rhs],
        Node::If { cond, then_branch, else_branch } => vec![cond, then_branch, else_branch],
        _ => Vec::new(),
    }
}

fn walk_dups(e: &Node, path: &str, out: &mut Vec<(String, Vec<u32>)>) {
    if let Node::Block { items, .. } = e {
        let mut seen: HashSet<u32> = HashSet::new();
        let mut dups: Vec<u32> = Vec::new();
        for item in items {
            if let Node::ValDef { id, .. } = item {
                if !seen.insert(*id) && !dups.contains(id) {
                    dups.push(*id);
                }
            }
        }
        if !dups.is_empty() {
            out.push((path.to_string(), dups));
        }
    }
    for (i, child) in expr_children(e).into_iter().enumerate() {
        let p = format!("{}/{}", path, i);
        walk_dups(child, &p, out);
    }
}

fn find_same_scope_dup_ids(expr: &Node) -> Vec<(String, Vec<u32>)> {
    let mut out = Vec::new();
    walk_dups(expr, "root", &mut out);
    out
}

fn collect_all_valdef_ids(expr: &Node, out: &mut Vec<u32>) {
    if let Node::ValDef { id, .. } = expr {
        out.push(*id);
    }
    for child in expr_children(expr) {
        collect_all_valdef_ids(child, out);
    }
}

fn s33_shape() -> Node {
    block(
        vec![vdef(1, c(0))],
        if_e(
            cb(true),
            block(vec![vdef(2, c(10))], vuse(2)),
            block(vec![vdef(2, c(20)), vdef(3, c(30))], vuse(3)),
        ),
    )
}

#[test]
fn raw_sequential_renumber_still_buggy_without_disambig() {
    let post = sequential_renumber(s33_shape());
    let dups = find_same_scope_dup_ids(&post);
    assert!(
        !dups.is_empty(),
        "expected raw sequential_renumber to still exhibit the bug: {:#?}",
        post
    );
}

#[test]
fn disambig_then_renumber_resolves_collision() {
    let disambiguated = disambiguate_val_ids(s33_shape());
    let mut ids = Vec::new();
    collect_all_valdef_ids(&disambiguated, &mut ids);
    let mut seen: HashSet<u32> = HashSet::new();
    let all_unique = ids.iter().all(|id| seen.insert(*id));
    assert!(
        all_unique,
        "disambig_val_ids did not produce globally-unique ValDef ids:\n{:#?}",
        disambiguated
    );

    let post = sequential_renumber(disambiguated);
    let dups = find_same_scope_dup_ids(&post);
    assert!(
        dups.is_empty(),
        "fix regressed: same-scope dup after disambig+renumber: {:?}\n{:#?}",
        dups,
        post
    );
}

#[test]
fn sequential_renumber_same_id_in_both_branches_no_dup() {
    let pre = if_e(
        cb(true),
        block(vec![vdef(2, c(10))], vuse(2)),
        block(vec![vdef(2, c(20))], vuse(2)),
    );
    let post = sequential_renumber(pre);
    let dups = find_same_scope_dup_ids(&post);
    assert!(dups.is_empty(), "unexpected dup: {:?}", dups);
}

#[test]
fn sequential_renumber_collides_with_outer_scope_id() {
    let pre = block(
        vec![vdef(7, c(0)), vdef(8, c(1))],
        if_e(
            cb(true),
            vuse(7),
            block(vec![vdef(7, c(20)), vdef(9, c(30))], vuse(9)),
        ),
    );
    let post = sequential_renumber(pre);
    let dups = find_same_scope_dup_ids(&post);
    assert!(
        dups.is_empty(),
        "same-scope dup detected: {:?}\ntree:\n{:#?}",
        dups,
        post
    );
}

#[test]
fn flatten_then_renumber_no_dup() {
    let pre = block(vec![vdef(1, c(0))], block(vec![vdef(2, c(1))], vuse(2)));
    let flat = flatten_nested_blocks(pre);
    let dups = find_same_scope_dup_ids(&flat);
    assert!(dups.is_empty(), "flatten dup: {:?}", dups);
    let post = sequential_renumber(flat);
    let dups = find_same_scope_dup_ids(&post);
    assert!(dups.is_empty(), "renumber dup: {:?}", dups);
}
