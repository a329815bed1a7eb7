use std::collections::HashSet;

use vstd::prelude::*;

use crate::collect::{block_item_id, collect_nested_block_val_ids};
use crate::dag::{
    collect_subexprs, distinct_nodes, distinct_trees, expr_type, extractable, is_extractable,
    subexprs, type_of, TypeTags,
};
use crate::node::{clone_node, node_view, nodes_view, Node, OpKind, Tree};
use crate::predicates::{graph_shared, is_graph_shared, references_locally_defined, refers_to};
use crate::walk::{
    contains_val_use, count_occurrences, direct_children, has_val_use, lemma_children_count,
    lemma_occurrences_le_count, lemma_prefix_step, lemma_replaced_count, node_count,
    node_count_seq, occurrences, replace_all, replaced, tree_children,
};

verus! {

/// The candidates that If conditions in `t` offer, in preorder: every
/// candidate of each If's condition (see `subexprs`), then those of the
/// Ifs in its branches; other trees pass the search on to their
/// sub-expressions.
pub open spec fn if_cond_subs(t: Tree, ops: Seq<u32>, big: u32) -> Seq<Tree>
    decreases t,
{
    match t {
        Tree::ValDef { rhs, .. } => if_cond_subs(*rhs, ops, big),
        Tree::ValUse { .. } => Seq::empty(),
        Tree::Block { items, result } => if_cond_subs_seq(items, ops, big) + if_cond_subs(
            *result,
            ops,
            big,
        ),
        Tree::If { cond, then_branch, else_branch } => subexprs(*cond, ops, big, false)
            + if_cond_subs(*then_branch, ops, big) + if_cond_subs(*else_branch, ops, big),
        Tree::Func { body, .. } => if_cond_subs(*body, ops, big),
        Tree::Op { children, .. } => if_cond_subs_seq(children, ops, big),
    }
}

pub open spec fn if_cond_subs_seq(s: Seq<Tree>, ops: Seq<u32>, big: u32) -> Seq<Tree>
    decreases s,
{
    if s.len() == 0 {
        Seq::empty()
    } else {
        if_cond_subs_seq(s.drop_last(), ops, big) + if_cond_subs(s.last(), ops, big)
    }
}

/// The tree an item contributes to its scope's counts: a ValDef's
/// right-hand side, any other item itself.
pub open spec fn item_scope(t: Tree) -> Tree {
    match t {
        Tree::ValDef { rhs, .. } => *rhs,
        _ => t,
    }
}

/// The occurrences of `target` in the first `k` items, each taken by its
/// `item_scope`.
pub open spec fn occ_items(items: Seq<Tree>, k: int, target: Tree) -> nat
    decreases k,
{
    if k <= 0 || k > items.len() {
        0
    } else {
        occ_items(items, k - 1, target) + occurrences(item_scope(items[k - 1]), target)
    }
}

/// The occurrences of `target` in the first `k` items, whole.
pub open spec fn occ_whole(items: Seq<Tree>, k: int, target: Tree) -> nat
    decreases k,
{
    if k <= 0 || k > items.len() {
        0
    } else {
        occ_whole(items, k - 1, target) + occurrences(items[k - 1], target)
    }
}

/// Some block in `t` (itself included) holds at least two occurrences of
/// `target`, and all `total` of them.
pub open spec fn deep_block(t: Tree, target: Tree, total: nat) -> bool
    decreases t,
{
    (t is Block && occurrences(t, target) >= 2 && occurrences(t, target) == total) || match t {
        Tree::ValDef { rhs, .. } => deep_block(*rhs, target, total),
        Tree::ValUse { .. } => false,
        Tree::Block { items, result } => deep_block_seq(items, target, total) || deep_block(
            *result,
            target,
            total,
        ),
        Tree::If { cond, then_branch, else_branch } => deep_block(*cond, target, total)
            || deep_block(*then_branch, target, total) || deep_block(*else_branch, target, total),
        Tree::Func { body, .. } => deep_block(*body, target, total),
        Tree::Op { children, .. } => deep_block_seq(children, target, total),
    }
}

pub open spec fn deep_block_seq(s: Seq<Tree>, target: Tree, total: nat) -> bool
    decreases s,
{
    exists|i: int| 0 <= i < s.len() && deep_block(s[i], target, total)
}

/// The scope with items `items` and result `result` has a block nested in
/// it that holds every occurrence of `target`, at least two: extraction is
/// left to that block.
pub open spec fn deeper_block(items: Seq<Tree>, result: Tree, target: Tree) -> bool {
    let total = occ_items(items, items.len() as int, target) + occurrences(result, target);
    (exists|k: int| 0 <= k < items.len() && deep_block(item_scope(items[k]), target, total))
        || deep_block(result, target, total)
}

/// Whether the `BinOp` with `payload` is `==` or `!=`.
pub open spec fn equality_op(payload: u32, eq: Seq<bool>) -> bool {
    payload < eq.len() && eq[payload as int]
}

/// An `==` or `!=` comparison with no ValUse below it.
pub open spec fn eq_without_use(t: Tree, eq: Seq<bool>) -> bool {
    match t {
        Tree::Op { kind, payload, .. } => kind == OpKind::BinOp && equality_op(payload, eq)
            && !has_val_use(t),
        _ => false,
    }
}

/// The ids of the ValDefs of blocks nested in the items and the result.
pub open spec fn nested_ids(items: Seq<Tree>, result: Tree) -> Set<u32> {
    Set::new(
        |x: u32|
            block_item_id(result, x) || exists|k: int|
                0 <= k < items.len() && block_item_id(items[k], x),
    )
}

/// `sub` is extracted at the scope: extractable, shared in the graph, not
/// referring to an id of a nested block, occurring at least twice, not
/// concentrated in one nested block, and not an `==`/`!=` without a
/// ValUse.
pub open spec fn cond_candidate_ok(
    sub: Tree,
    items: Seq<Tree>,
    result: Tree,
    nested: Set<u32>,
    ops: Seq<u32>,
    big: u32,
    eq: Seq<bool>,
) -> bool {
    &&& extractable(sub, ops, big)
    &&& graph_shared(sub)
    &&& !refers_to(sub, nested)
    &&& occ_whole(items, items.len() as int, sub) + occurrences(result, sub) >= 2
    &&& !deeper_block(items, result, sub)
    &&& !eq_without_use(sub, eq)
}

/// One candidate considered: when it is extracted, every occurrence in the
/// items and the result becomes a ValUse of the next id, and a ValDef of
/// it joins the new ones.
pub open spec fn cond_step(
    st: (Seq<Tree>, Tree, Seq<Tree>, nat),
    sub: Tree,
    nested: Set<u32>,
    ops: Seq<u32>,
    big: u32,
    eq: Seq<bool>,
) -> (Seq<Tree>, Tree, Seq<Tree>, nat) {
    if cond_candidate_ok(sub, st.0, st.1, nested, ops, big, eq) {
        let u = Tree::ValUse { id: st.3 as u32, tpe: type_of(sub, ops) };
        (
            Seq::new(st.0.len(), |k: int| replaced(st.0[k], sub, u)),
            replaced(st.1, sub, u),
            st.2.push(Tree::ValDef { id: st.3 as u32, rhs: Box::new(sub) }),
            st.3 + 1,
        )
    } else {
        st
    }
}

/// The first `k` candidates considered in turn.
pub open spec fn cond_steps(
    st: (Seq<Tree>, Tree, Seq<Tree>, nat),
    cands: Seq<Tree>,
    k: int,
    nested: Set<u32>,
    ops: Seq<u32>,
    big: u32,
    eq: Seq<bool>,
) -> (Seq<Tree>, Tree, Seq<Tree>, nat)
    decreases k,
{
    if k <= 0 || k > cands.len() {
        st
    } else {
        cond_step(cond_steps(st, cands, k - 1, nested, ops, big, eq), cands[k - 1], nested, ops, big, eq)
    }
}

/// The extraction at the scope with items `items` and result `result`,
/// fresh ids from `next`: items, result, new ValDefs and the next free id
/// after it, the distinct If-condition candidates considered in order.
pub open spec fn if_cond_extracted(
    items: Seq<Tree>,
    result: Tree,
    next: nat,
    ops: Seq<u32>,
    big: u32,
    eq: Seq<bool>,
) -> (Seq<Tree>, Tree, Seq<Tree>, nat) {
    let cands = distinct_trees(
        if_cond_subs(Tree::Block { items, result: Box::new(result) }, ops, big),
    );
    cond_steps(
        (items, result, Seq::empty(), next),
        cands,
        cands.len() as int,
        nested_ids(items, result),
        ops,
        big,
        eq,
    )
}


fn if_cond_subs_vec(v: &Vec<Node>, tags: &TypeTags, out: &mut Vec<Node>)
    ensures
        nodes_view(final(out)@) == nodes_view(old(out)@) + if_cond_subs_seq(
            nodes_view(v@),
            tags.op_types@,
            tags.big_int,
        ),
    decreases v@,
{
    let ghost s = nodes_view(v@);
    let ghost o0 = nodes_view(out@);
    let mut i: usize = 0;
    assert(s.subrange(0, 0) =~= Seq::<Tree>::empty());
    assert(o0 + Seq::<Tree>::empty() =~= o0);
    while i < v.len()
        invariant
            0 <= i <= v@.len(),
            s == nodes_view(v@),
            nodes_view(out@) == o0 + if_cond_subs_seq(s.subrange(0, i as int), tags.op_types@, tags.big_int),
        decreases v.len() - i,
    {
        assert(decreases_to!(v@ => v@[i as int]));
        proof {
            lemma_prefix_step(s, i as int);
        }
        assert(s[i as int] == node_view(v@[i as int]));
        let ghost before = nodes_view(out@);
        collect_if_cond_subexprs(&v[i], tags, out);
        assert(nodes_view(out@) =~= o0 + if_cond_subs_seq(s.subrange(0, i + 1), tags.op_types@, tags.big_int));
        i += 1;
    }
    assert(s.subrange(0, s.len() as int) =~= s);
}

/// Appends the candidates that If conditions in `expr` offer, as
/// `if_cond_subs` says.
pub fn collect_if_cond_subexprs(expr: &Node, tags: &TypeTags, out: &mut Vec<Node>)
    ensures
        nodes_view(final(out)@) == nodes_view(old(out)@) + if_cond_subs(
            expr@,
            tags.op_types@,
            tags.big_int,
        ),
    decreases expr,
{
    let ghost o0 = nodes_view(out@);
    let ghost ops = tags.op_types@;
    let ghost big = tags.big_int;
    match expr {
        Node::ValDef { id, rhs } => {
            assert(expr@ == Tree::ValDef { id: *id, rhs: Box::new(node_view(**rhs)) });
            collect_if_cond_subexprs(rhs, tags, out);
        },
        Node::ValUse { .. } => {
            assert(nodes_view(out@) =~= o0 + Seq::<Tree>::empty());
        },
        Node::Block { items, result } => {
            assert(expr@ == Tree::Block { items: nodes_view(items@), result: Box::new(node_view(**result)) });
            if_cond_subs_vec(items, tags, out);
            collect_if_cond_subexprs(result, tags, out);
            assert(nodes_view(out@) =~= o0 + if_cond_subs(expr@, ops, big));
        },
        Node::If { cond, then_branch, else_branch } => {
            assert(expr@ == Tree::If {
                cond: Box::new(node_view(**cond)),
                then_branch: Box::new(node_view(**then_branch)),
                else_branch: Box::new(node_view(**else_branch)),
            });
            collect_subexprs(cond, tags, out);
            collect_if_cond_subexprs(then_branch, tags, out);
            collect_if_cond_subexprs(else_branch, tags, out);
            assert(nodes_view(out@) =~= o0 + if_cond_subs(expr@, ops, big));
        },
        Node::Func { args, body } => {
            assert(expr@ == Tree::Func { args: args@, body: Box::new(node_view(**body)) });
            collect_if_cond_subexprs(body, tags, out);
        },
        Node::Op { kind, payload, children } => {
            assert(expr@ == Tree::Op { kind: *kind, payload: *payload, children: nodes_view(children@) });
            if_cond_subs_vec(children, tags, out);
        },
    }
}

fn walk_deeper_seq(v: &Vec<Node>, target: &Node, total: usize) -> (r: bool)
    requires
        node_count_seq(nodes_view(v@)) <= usize::MAX,
    ensures
        r == deep_block_seq(nodes_view(v@), target@, total as nat),
    decreases v@,
{
    let ghost s = nodes_view(v@);
    let mut i: usize = 0;
    while i < v.len()
        invariant
            0 <= i <= v@.len(),
            s == nodes_view(v@),
            node_count_seq(s) <= usize::MAX,
            forall|j: int| 0 <= j < i ==> !deep_block(#[trigger] s[j], target@, total as nat),
        decreases v.len() - i,
    {
        assert(decreases_to!(v@ => v@[i as int]));
        assert(s[i as int] == node_view(v@[i as int]));
        proof {
            crate::walk::lemma_seq_elem_count(s, i as int);
        }
        if walk_deeper(&v[i], target, total) {
            return true;
        }
        i += 1;
    }
    false
}

/// Whether some block in `expr` holds all `total` occurrences of
/// `target`, at least two, as `deep_block` says.
fn walk_deeper(expr: &Node, target: &Node, total: usize) -> (r: bool)
    requires
        node_count(expr@) <= usize::MAX,
    ensures
        r == deep_block(expr@, target@, total as nat),
    decreases expr,
{
    proof {
        lemma_children_count(expr@);
    }
    if let Node::Block { .. } = expr {
        let c = count_occurrences(expr, target);
        if c >= 2 && c == total {
            return true;
        }
    }
    match expr {
        Node::ValDef { id, rhs } => {
            assert(expr@ == Tree::ValDef { id: *id, rhs: Box::new(node_view(**rhs)) });
            walk_deeper(rhs, target, total)
        },
        Node::ValUse { .. } => false,
        Node::Block { items, result } => {
            assert(expr@ == Tree::Block { items: nodes_view(items@), result: Box::new(node_view(**result)) });
            walk_deeper_seq(items, target, total) || walk_deeper(result, target, total)
        },
        Node::If { cond, then_branch, else_branch } => {
            assert(expr@ == Tree::If {
                cond: Box::new(node_view(**cond)),
                then_branch: Box::new(node_view(**then_branch)),
                else_branch: Box::new(node_view(**else_branch)),
            });
            walk_deeper(cond, target, total) || walk_deeper(then_branch, target, total) || walk_deeper(
                else_branch,
                target,
                total,
            )
        },
        Node::Func { args, body } => {
            assert(expr@ == Tree::Func { args: args@, body: Box::new(node_view(**body)) });
            walk_deeper(body, target, total)
        },
        Node::Op { kind, payload, children } => {
            assert(expr@ == Tree::Op { kind: *kind, payload: *payload, children: nodes_view(children@) });
            walk_deeper_seq(children, target, total)
        },
    }
}


fn scope_of_item(item: &Node) -> (r: &Node)
    ensures
        r@ == item_scope(item@),
        node_count(r@) <= node_count(item@),
{
    match item {
        Node::ValDef { id, rhs } => {
            assert(item@ == Tree::ValDef { id: *id, rhs: Box::new(node_view(**rhs)) });
            &**rhs
        },
        _ => item,
    }
}

/// Whether a block nested in the scope with items `items` and result
/// `result` holds every occurrence of `target`, at least two, as
/// `deeper_block` says.
pub fn deeper_block_with_ge_two_occurrences(items: &Vec<Node>, result: &Node, target: &Node) -> (r: bool)
    requires
        node_count(Tree::Block { items: nodes_view(items@), result: Box::new(result@) }) <= usize::MAX,
    ensures
        r == deeper_block(nodes_view(items@), result@, target@),
{
    let ghost s = nodes_view(items@);
    let ghost blk = Tree::Block { items: s, result: Box::new(result@) };
    assert(node_count(blk) == 1 + node_count_seq(s) + node_count(result@));
    let mut total: usize = 0;
    let mut i: usize = 0;
    assert(s.subrange(0, 0) =~= Seq::<Tree>::empty());
    while i < items.len()
        invariant
            0 <= i <= items@.len(),
            s == nodes_view(items@),
            1 + node_count_seq(s) + node_count(result@) <= usize::MAX,
            total == occ_items(s, i as int, target@),
            total <= node_count_seq(s.subrange(0, i as int)),
        decreases items.len() - i,
    {
        assert(s[i as int] == node_view(items@[i as int]));
        proof {
            lemma_prefix_step(s, i as int);
            crate::walk::lemma_seq_elem_count(s, i as int);
            crate::walk::lemma_node_count_prefix(s, i + 1);
        }
        let sc = scope_of_item(&items[i]);
        proof {
            lemma_occurrences_le_count(sc@, target@);
        }
        let c = count_occurrences(sc, target);
        total = total + c;
        i += 1;
    }
    assert(s.subrange(0, s.len() as int) =~= s);
    proof {
        lemma_occurrences_le_count(result@, target@);
    }
    let c = count_occurrences(result, target);
    total = total + c;
    let mut k: usize = 0;
    while k < items.len()
        invariant
            0 <= k <= items@.len(),
            s == nodes_view(items@),
            1 + node_count_seq(s) + node_count(result@) <= usize::MAX,
            total == occ_items(s, s.len() as int, target@) + occurrences(result@, target@),
            forall|j: int| 0 <= j < k ==> !deep_block(#[trigger] item_scope(s[j]), target@, total as nat),
        decreases items.len() - k,
    {
        assert(s[k as int] == node_view(items@[k as int]));
        proof {
            crate::walk::lemma_seq_elem_count(s, k as int);
        }
        let sc = scope_of_item(&items[k]);
        if walk_deeper(sc, target, total) {
            return true;
        }
        k += 1;
    }
    walk_deeper(result, target, total)
}


fn is_equality_op(payload: u32, tags: &TypeTags) -> (r: bool)
    ensures
        r == equality_op(payload, tags.equality_ops@),
{
    (payload as usize) < tags.equality_ops.len() && tags.equality_ops[payload as usize]
}

fn is_eq_without_use(sub: &Node, tags: &TypeTags) -> (r: bool)
    ensures
        r == eq_without_use(sub@, tags.equality_ops@),
{
    match sub {
        Node::Op { kind, payload, children } => {
            assert(sub@ == Tree::Op { kind: *kind, payload: *payload, children: nodes_view(children@) });
            *kind == OpKind::BinOp && is_equality_op(*payload, tags) && !contains_val_use(sub)
        },
        _ => false,
    }
}

/// The occurrences of `target` in the items, whole, and the result.
fn scope_count(items: &Vec<Node>, result: &Node, target: &Node) -> (r: usize)
    requires
        node_count(Tree::Block { items: nodes_view(items@), result: Box::new(result@) }) <= usize::MAX,
    ensures
        r == occ_whole(nodes_view(items@), items@.len() as int, target@) + occurrences(result@, target@),
{
    let ghost s = nodes_view(items@);
    assert(node_count(Tree::Block { items: s, result: Box::new(result@) }) == 1 + node_count_seq(s)
        + node_count(result@));
    proof {
        lemma_occurrences_le_count(result@, target@);
    }
    let mut cnt = count_occurrences(result, target);
    let mut i: usize = 0;
    assert(s.subrange(0, 0) =~= Seq::<Tree>::empty());
    while i < items.len()
        invariant
            0 <= i <= items@.len(),
            s == nodes_view(items@),
            1 + node_count_seq(s) + node_count(result@) <= usize::MAX,
            cnt == occurrences(result@, target@) + occ_whole(s, i as int, target@),
            cnt <= node_count(result@) + node_count_seq(s.subrange(0, i as int)),
        decreases items.len() - i,
    {
        assert(s[i as int] == node_view(items@[i as int]));
        proof {
            lemma_prefix_step(s, i as int);
            crate::walk::lemma_seq_elem_count(s, i as int);
            crate::walk::lemma_node_count_prefix(s, i + 1);
            lemma_occurrences_le_count(s[i as int], target@);
        }
        let c = count_occurrences(&items[i], target);
        cnt = cnt + c;
        i += 1;
    }
    cnt
}

/// Whether `sub` is extracted at the scope, as `cond_candidate_ok` says.
fn candidate_ok(
    sub: &Node,
    items: &Vec<Node>,
    result: &Node,
    nested: &HashSet<u32>,
    tags: &TypeTags,
) -> (r: bool)
    requires
        node_count(Tree::Block { items: nodes_view(items@), result: Box::new(result@) }) <= usize::MAX,
    ensures
        r == cond_candidate_ok(
            sub@,
            nodes_view(items@),
            result@,
            nested@,
            tags.op_types@,
            tags.big_int,
            tags.equality_ops@,
        ),
{
    if !is_extractable(sub, tags) {
        return false;
    }
    if !is_graph_shared(sub) {
        return false;
    }
    if references_locally_defined(sub, nested) {
        return false;
    }
    let cnt = scope_count(items, result, sub);
    if cnt < 2 {
        return false;
    }
    if deeper_block_with_ge_two_occurrences(items, result, sub) {
        return false;
    }
    !is_eq_without_use(sub, tags)
}

/// The next free id never goes down as candidates are considered.
pub proof fn lemma_cond_steps_next(
    st: (Seq<Tree>, Tree, Seq<Tree>, nat),
    cands: Seq<Tree>,
    k: int,
    m: int,
    nested: Set<u32>,
    ops: Seq<u32>,
    big: u32,
    eq: Seq<bool>,
)
    requires
        0 <= k <= m <= cands.len(),
    ensures
        cond_steps(st, cands, k, nested, ops, big, eq).3 <= cond_steps(st, cands, m, nested, ops, big, eq).3,
    decreases m - k,
{
    if k < m {
        lemma_cond_steps_next(st, cands, k, m - 1, nested, ops, big, eq);
    }
}

/// The ids of the ValDefs of blocks nested in the items and the result,
/// as `nested_ids` says.
fn nested_ids_of(items: &Vec<Node>, result: &Node) -> (r: HashSet<u32>)
    ensures
        r@ == nested_ids(nodes_view(items@), result@),
{
    let ghost s = nodes_view(items@);
    let mut ids: HashSet<u32> = HashSet::new();
    collect_nested_block_val_ids(result, &mut ids);
    let mut i: usize = 0;
    while i < items.len()
        invariant
            0 <= i <= items@.len(),
            s == nodes_view(items@),
            forall|x: u32| #[trigger] ids@.contains(x) <==> (block_item_id(result@, x) || exists|k: int|
                0 <= k < i && block_item_id(s[k], x)),
        decreases items.len() - i,
    {
        assert(s[i as int] == node_view(items@[i as int]));
        collect_nested_block_val_ids(&items[i], &mut ids);
        assert forall|x: u32| #[trigger] ids@.contains(x) <==> (block_item_id(result@, x) || exists|k: int|
            0 <= k < i + 1 && block_item_id(s[k], x)) by {
            if exists|k: int| 0 <= k < i + 1 && block_item_id(s[k], x) {
                let k = choose|k: int| 0 <= k < i + 1 && block_item_id(s[k], x);
                if k < i {
                    assert(0 <= k < i && block_item_id(s[k], x));
                }
            }
        }
        i += 1;
    }
    assert(ids@ =~= nested_ids(s, result@));
    ids
}

/// Extracts, at the scope with items `items` and result `result`, the
/// If-condition candidates that `cond_candidate_ok` accepts, each as a
/// ValDef of the next free id (`next_id` counts up), as
/// `if_cond_extracted` says: the new ValDefs, then the items and result
/// with those candidates replaced by ValUses.
pub fn extract_if_cond_shared(
    items: Vec<Node>,
    result: Node,
    next_id: &mut u32,
    tags: &TypeTags,
) -> (r: (Vec<Node>, (Vec<Node>, Node)))
    requires
        node_count(Tree::Block { items: nodes_view(items@), result: Box::new(result@) }) <= usize::MAX,
        if_cond_extracted(
            nodes_view(items@),
            result@,
            *old(next_id) as nat,
            tags.op_types@,
            tags.big_int,
            tags.equality_ops@,
        ).3 <= u32::MAX,
    ensures
        ({
            let e = if_cond_extracted(
                nodes_view(items@),
                result@,
                *old(next_id) as nat,
                tags.op_types@,
                tags.big_int,
                tags.equality_ops@,
            );
            &&& nodes_view(r.0@) == e.2
            &&& nodes_view(r.1.0@) == e.0
            &&& r.1.1@ == e.1
            &&& *final(next_id) as nat == e.3
        }),
{
    let ghost s0 = nodes_view(items@);
    let ghost r0 = result@;
    let ghost ops = tags.op_types@;
    let ghost big = tags.big_int;
    let ghost eq = tags.equality_ops@;
    let mut subs: Vec<Node> = Vec::new();
    if_cond_subs_vec(&items, tags, &mut subs);
    collect_if_cond_subexprs(&result, tags, &mut subs);
    assert(nodes_view(subs@) =~= if_cond_subs(Tree::Block { items: s0, result: Box::new(r0) }, ops, big));
    let unique = distinct_nodes(&subs);
    let ghost cands = nodes_view(unique@);
    let nested = nested_ids_of(&items, &result);
    let ghost st0 = (s0, r0, Seq::<Tree>::empty(), *next_id as nat);
    let ghost bound = node_count(Tree::Block { items: s0, result: Box::new(r0) });
    let mut cur_items = items;
    let mut cur_result = result;
    let mut defs: Vec<Node> = Vec::new();
    assert(nodes_view(defs@) =~= Seq::<Tree>::empty());
    let mut j: usize = 0;
    while j < unique.len()
        invariant
            0 <= j <= unique@.len(),
            cands == nodes_view(unique@),
            ops == tags.op_types@,
            big == tags.big_int,
            eq == tags.equality_ops@,
            nested@ == nested_ids(s0, r0),
            bound <= usize::MAX,
            node_count(Tree::Block { items: nodes_view(cur_items@), result: Box::new(cur_result@) }) <= bound,
            cond_steps(st0, cands, cands.len() as int, nested_ids(s0, r0), ops, big, eq).3 <= u32::MAX,
            (nodes_view(cur_items@), cur_result@, nodes_view(defs@), *next_id as nat) == cond_steps(
                st0,
                cands,
                j as int,
                nested_ids(s0, r0),
                ops,
                big,
                eq,
            ),
        decreases unique.len() - j,
    {
        let sub = &unique[j];
        assert(cands[j as int] == node_view(unique@[j as int]));
        let ok = candidate_ok(sub, &cur_items, &cur_result, &nested, tags);
        if ok {
            proof {
                lemma_cond_steps_next(st0, cands, j + 1, cands.len() as int, nested_ids(s0, r0), ops, big, eq);
            }
            let id = *next_id;
            *next_id = *next_id + 1;
            let u = Node::ValUse { id, tpe: expr_type(sub, tags) };
            proof {
                lemma_children_count(sub@);
            }
            let ghost iv = nodes_view(cur_items@);
            let mut next_items: Vec<Node> = Vec::new();
            let mut q: usize = 0;
            while q < cur_items.len()
                invariant
                    0 <= q <= cur_items@.len(),
                    iv == nodes_view(cur_items@),
                    next_items@.len() == q,
                    forall|p: int|
                        0 <= p < q ==> node_view(#[trigger] next_items@[p]) == replaced(iv[p], sub@, u@),
                decreases cur_items.len() - q,
            {
                assert(iv[q as int] == node_view(cur_items@[q as int]));
                next_items.push(replace_all(&cur_items[q], sub, &u));
                q += 1;
            }
            let ghost old_result = cur_result@;
            cur_result = replace_all(&cur_result, sub, &u);
            cur_items = next_items;
            let ghost dv = nodes_view(defs@);
            defs.push(Node::ValDef { id, rhs: Box::new(clone_node(sub)) });
            assert(nodes_view(defs@) =~= dv.push(Tree::ValDef { id, rhs: Box::new(sub@) }));
            assert(nodes_view(cur_items@) =~= Seq::new(iv.len(), |k: int| replaced(iv[k], sub@, u@)));
            proof {
                assert(nodes_view(cur_items@) =~= crate::walk::replaced_seq(iv, sub@, u@));
                crate::walk::lemma_replaced_count_seq(iv, sub@, u@);
                lemma_replaced_count(old_result, sub@, u@);
            }
        }
        j += 1;
    }
    (defs, (cur_items, cur_result))
}

} // verus!
