use std::collections::hash_map::DefaultHasher;
use std::hash::{Hash, Hasher};

use ergoscript_cse::node::{node_eq, Node, OpKind};
use ergoscript_cse::sym_table::SymTable;

const PLUS: u32 = 10;

fn c_i64(v: i64) -> Node {
    Node::Op { kind: OpKind::Const, payload: v as u32, children: Vec::new() }
}

fn binop_plus(left: Node, right: Node) -> Node {
    Node::Op { kind: OpKind::BinOp, payload: PLUS, children: vec![left, right] }
}

fn vdef(id: u32, rhs: Node) -> Node {
    Node::ValDef { id, rhs: Box::new(rhs) }
}

fn hash_of(expr: &Node) -> u64 {
    let mut h = DefaultHasher::new();
    expr.hash(&mut h);
    h.finish()
}

#[test]
fn sym_table_same_expr_same_scope() {
    let mut t = SymTable::new();
    let e = c_i64(5);
    let (id1, new1) = t.find_or_intern(&e, 0);
    let (id2, new2) = t.find_or_intern(&e, 0);
    assert!(new1);
    assert!(!new2);
    assert_eq!(id1, id2);
    assert_eq!(t.scope_def_count(0), 1);
}

#[test]
fn sym_table_same_expr_child_scope() {
    let mut t = SymTable::new();
    let e = c_i64(7);
    let (root_id, _) = t.find_or_intern(&e, 0);
    let child = t.new_scope(0);
    let (child_id, is_new) = t.find_or_intern(&e, child);
    assert!(!is_new, "child lookup should find root entry");
    assert_eq!(root_id, child_id);
}

#[test]
fn sym_table_sibling_scopes_create_separate_syms() {
    let mut t = SymTable::new();
    let scope_a = t.new_scope(0);
    let scope_b = t.new_scope(0);
    let e = c_i64(42);
    let (id_a, new_a) = t.find_or_intern(&e, scope_a);
    let (id_b, new_b) = t.find_or_intern(&e, scope_b);
    assert!(new_a);
    assert!(new_b, "sibling scope should not see scope_a's entry");
    assert_ne!(id_a, id_b, "siblings must produce distinct SymIds");
}

#[test]
fn sym_table_is_ancestor() {
    let mut t = SymTable::new();
    let child = t.new_scope(0);
    let grandchild = t.new_scope(child);
    assert!(t.is_ancestor(0, grandchild));
    assert!(t.is_ancestor(child, grandchild));
    assert!(!t.is_ancestor(grandchild, 0));
    assert!(t.is_ancestor(child, child), "self-ancestor");
}

#[test]
fn expr_key_structural_equality() {
    let e1 = binop_plus(c_i64(1), c_i64(2));
    let e2 = binop_plus(c_i64(1), c_i64(2));
    assert!(node_eq(&e1, &e2));
    assert_eq!(hash_of(&e1), hash_of(&e2));
}

#[test]
fn expr_key_structural_inequality() {
    let e1 = binop_plus(c_i64(1), c_i64(2));
    let e2 = binop_plus(c_i64(2), c_i64(1));
    assert!(!node_eq(&e1, &e2));
    assert_ne!(hash_of(&e1), hash_of(&e2), "operand order must affect hash");
}

#[test]
fn expr_key_vd_id_independence() {
    let e1 = vdef(1, c_i64(5));
    let e2 = vdef(2, c_i64(5));
    assert!(!node_eq(&e1, &e2));
    assert_ne!(hash_of(&e1), hash_of(&e2), "ValDef id must affect hash");
}

#[test]
fn sym_table_find_after_reparent() {
    let mut t = SymTable::new();
    let e_root = c_i64(100);
    let e_child = c_i64(200);
    let (root_sym, _) = t.find_or_intern(&e_root, 0);
    let child = t.new_scope(0);
    let (child_sym, _) = t.find_or_intern(&e_child, child);
    assert_eq!(t.find(&e_root, child), Some(root_sym));
    assert_eq!(t.find(&e_child, 0), None);
    assert_eq!(t.find(&e_child, child), Some(child_sym));
}

#[test]
fn canonical_counts_span_sibling_scopes() {
    let mut t = SymTable::new();
    let a = t.new_scope(0);
    let b = t.new_scope(0);
    let e = c_i64(9);
    let (id_a, _) = t.find_or_intern(&e, a);
    let (id_b, _) = t.find_or_intern(&e, b);
    assert_ne!(id_a, id_b);
    assert_eq!(t.canonical_for(&e), Some(id_a));
    assert_eq!(t.canonical_count(id_a), 2);
    assert_eq!(t.canonical_count(id_b), 0);
    assert_eq!(t.canonical_scopes_for(id_a), &[a, b][..]);
    assert_eq!(t.canonical_scopes_for(id_b), &[][..]);
    assert_eq!(t.canonical_syms(), vec![id_a]);
    assert_eq!(t.lca_of_scopes(t.canonical_scopes_for(id_a)), 0);
    assert_eq!(t.scope_of(id_a), a);
    assert_eq!(t.scope_of(id_b), b);
}

#[test]
fn canonical_for_unseen_form_is_none() {
    let t = SymTable::new();
    assert_eq!(t.canonical_for(&c_i64(1)), None);
    assert_eq!(t.canonical_count(0), 0);
    assert!(t.canonical_syms().is_empty());
}

#[test]
fn lca_of_scopes_cases() {
    let mut t = SymTable::new();
    let a = t.new_scope(0);
    let a1 = t.new_scope(a);
    let a2 = t.new_scope(a);
    let a11 = t.new_scope(a1);
    let b = t.new_scope(0);
    assert_eq!(t.lca_of_scopes(&[]), 0);
    assert_eq!(t.lca_of_scopes(&[a11]), a11);
    assert_eq!(t.lca_of_scopes(&[a11, a2]), a);
    assert_eq!(t.lca_of_scopes(&[a11, a1]), a1);
    assert_eq!(t.lca_of_scopes(&[a1, a11, a2]), a);
    assert_eq!(t.lca_of_scopes(&[a11, b]), 0);
}

#[test]
fn intern_shadows_in_same_scope() {
    let mut t = SymTable::new();
    let e = c_i64(3);
    let first = t.intern(&e, 0);
    let second = t.intern(&e, 0);
    assert_eq!(first, 0);
    assert_eq!(second, 1);
    assert_eq!(t.find(&e, 0), Some(1));
    assert_eq!(t.scope_def_count(0), 1);
}

#[test]
fn new_scope_numbers_in_order() {
    let mut t = SymTable::new();
    assert_eq!(t.new_scope(0), 1);
    assert_eq!(t.new_scope(1), 2);
    assert_eq!(t.new_scope(0), 3);
    assert_eq!(t.scope_def_count(3), 0);
}

#[test]
fn lca_ignores_scope_order_and_repeats() {
    let mut t = SymTable::new();
    let a = t.new_scope(0);
    let a1 = t.new_scope(a);
    let a2 = t.new_scope(a);
    let a11 = t.new_scope(a1);
    assert_eq!(t.lca_of_scopes(&[a11, a2]), t.lca_of_scopes(&[a2, a11]));
    assert_eq!(t.lca_of_scopes(&[a1, a11, a2]), t.lca_of_scopes(&[a2, a2, a11, a1]));
    assert_eq!(t.lca_of_scopes(&[a11, a1]), t.lca_of_scopes(&[a1, a11, a11]));
}

#[test]
fn ancestry_is_antisymmetric() {
    let mut t = SymTable::new();
    let a = t.new_scope(0);
    let a1 = t.new_scope(a);
    let b = t.new_scope(0);
    for x in [0, a, a1, b] {
        for y in [0, a, a1, b] {
            if t.is_ancestor(x, y) && t.is_ancestor(y, x) {
                assert_eq!(x, y);
            }
        }
    }
    assert!(t.is_ancestor(a, a1) && !t.is_ancestor(a1, a));
}
