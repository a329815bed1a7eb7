use std::collections::HashSet;

use vstd::prelude::*;

use crate::ast_graph::branch_locals;
use crate::dag::{distinct_nodes, distinct_trees, TypeTags};
use crate::extract::{extract_fits, extract_inner_vals, inner_extracted};
use crate::flatten::{is_mapped_kind, mapped_kind};
use crate::node::{clone_args, clone_node, node_view, nodes_view, Node, OpKind, Tree};
use crate::pick::{collect_option_gets, collect_property_byindex_candidates, picks, Pick};
use crate::predicates::{expr_references_any_local, refers_to};
use crate::scopes::{collect_branch_local_val_ids, top_level_ids, top_level_val_ids};
use crate::single_use::{inline_single_use_vals, single_inlined};
use crate::thunk_scope::{count_occurrences_scope, scope_occurrences};
use crate::visibility::{appears_in_main_scope, in_main_scope};
use crate::walk::{count_occurrences, expr_size, node_count, occurrences};

verus! {

/// The flag of `payload` in a table indexed by payload; false past its end.
pub open spec fn flag(table: Seq<bool>, payload: u32) -> bool {
    payload < table.len() && table[payload as int]
}

pub(crate) fn flag_of(table: &Vec<bool>, payload: u32) -> (r: bool)
    ensures
        r == flag(table@, payload),
{
    (payload as usize) < table.len() && table[payload as usize]
}

/// An arithmetic or relational `BinOp` with a ValUse operand.
pub open spec fn binop_on_val_use(t: Tree, arith: Seq<bool>, rel: Seq<bool>) -> bool {
    match t {
        Tree::Op { kind, payload, children } => kind == OpKind::BinOp && (flag(arith, payload) || flag(
            rel,
            payload,
        )) && children.len() >= 2 && (children[0] is ValUse || children[1] is ValUse),
        _ => false,
    }
}

/// An arithmetic `BinOp` both of whose operands are ValUses.
pub open spec fn arith_on_two_uses(t: Tree, arith: Seq<bool>) -> bool {
    match t {
        Tree::Op { kind, payload, children } => kind == OpKind::BinOp && flag(arith, payload)
            && children.len() >= 2 && children[0] is ValUse && children[1] is ValUse,
        _ => false,
    }
}

/// The arithmetic and relational `BinOp`s of `t` with a ValUse operand, in
/// preorder over all direct sub-expressions.
pub open spec fn binop_picks(t: Tree, arith: Seq<bool>, rel: Seq<bool>) -> Seq<Tree>
    decreases t,
{
    (if binop_on_val_use(t, arith, rel) {
        seq![t]
    } else {
        Seq::empty()
    }) + match t {
        Tree::ValDef { rhs, .. } => binop_picks(*rhs, arith, rel),
        Tree::ValUse { .. } => Seq::empty(),
        Tree::Block { items, result } => binop_picks_seq(items, arith, rel) + binop_picks(*result, arith, rel),
        Tree::If { cond, then_branch, else_branch } => binop_picks(*cond, arith, rel) + binop_picks(
            *then_branch,
            arith,
            rel,
        ) + binop_picks(*else_branch, arith, rel),
        Tree::Func { body, .. } => binop_picks(*body, arith, rel),
        Tree::Op { children, .. } => binop_picks_seq(children, arith, rel),
    }
}

pub open spec fn binop_picks_seq(s: Seq<Tree>, arith: Seq<bool>, rel: Seq<bool>) -> Seq<Tree>
    decreases s,
{
    if s.len() == 0 {
        Seq::empty()
    } else {
        binop_picks_seq(s.drop_last(), arith, rel) + binop_picks(s.last(), arith, rel)
    }
}

fn is_binop_on_val_use(t: &Node, tags: &TypeTags) -> (r: bool)
    ensures
        r == binop_on_val_use(t@, tags.arith_ops@, tags.relation_ops@),
{
    match t {
        Node::Op { kind, payload, children } => {
            assert(t@ == Tree::Op { kind: *kind, payload: *payload, children: nodes_view(children@) });
            if *kind == OpKind::BinOp && (flag_of(&tags.arith_ops, *payload) || flag_of(
                &tags.relation_ops,
                *payload,
            )) && children.len() >= 2 {
                assert(nodes_view(children@)[0] == node_view(children@[0]));
                assert(nodes_view(children@)[1] == node_view(children@[1]));
                let l = match &children[0] {
                    Node::ValUse { .. } => true,
                    _ => false,
                };
                let r = match &children[1] {
                    Node::ValUse { .. } => true,
                    _ => false,
                };
                l || r
            } else {
                false
            }
        },
        _ => false,
    }
}

fn is_arith_on_two_uses(t: &Node, tags: &TypeTags) -> (r: bool)
    ensures
        r == arith_on_two_uses(t@, tags.arith_ops@),
{
    match t {
        Node::Op { kind, payload, children } => {
            assert(t@ == Tree::Op { kind: *kind, payload: *payload, children: nodes_view(children@) });
            if *kind == OpKind::BinOp && flag_of(&tags.arith_ops, *payload) && children.len() >= 2 {
                assert(nodes_view(children@)[0] == node_view(children@[0]));
                assert(nodes_view(children@)[1] == node_view(children@[1]));
                let l = match &children[0] {
                    Node::ValUse { .. } => true,
                    _ => false,
                };
                let r = match &children[1] {
                    Node::ValUse { .. } => true,
                    _ => false,
                };
                l && r
            } else {
                false
            }
        },
        _ => false,
    }
}

fn binop_pick_seq(v: &Vec<Node>, tags: &TypeTags, out: &mut Vec<Node>)
    ensures
        nodes_view(final(out)@) == nodes_view(old(out)@) + binop_picks_seq(
            nodes_view(v@),
            tags.arith_ops@,
            tags.relation_ops@,
        ),
    decreases v@,
{
    let ghost s = nodes_view(v@);
    let ghost o0 = nodes_view(out@);
    let ghost ar = tags.arith_ops@;
    let ghost rl = tags.relation_ops@;
    let mut i: usize = 0;
    assert(s.subrange(0, 0) =~= Seq::<Tree>::empty());
    assert(nodes_view(out@) =~= o0 + Seq::<Tree>::empty());
    while i < v.len()
        invariant
            0 <= i <= v@.len(),
            s == nodes_view(v@),
            ar == tags.arith_ops@,
            rl == tags.relation_ops@,
            nodes_view(out@) == o0 + binop_picks_seq(s.subrange(0, i as int), ar, rl),
        decreases v.len() - i,
    {
        assert(decreases_to!(v@ => v@[i as int]));
        assert(s.subrange(0, i + 1).drop_last() =~= s.subrange(0, i as int));
        assert(s[i as int] == node_view(v@[i as int]));
        binop_pick(&v[i], tags, out);
        assert(nodes_view(out@) =~= o0 + binop_picks_seq(s.subrange(0, i + 1), ar, rl));
        i += 1;
    }
    assert(s.subrange(0, s.len() as int) =~= s);
}

fn binop_pick(expr: &Node, tags: &TypeTags, out: &mut Vec<Node>)
    ensures
        nodes_view(final(out)@) == nodes_view(old(out)@) + binop_picks(
            expr@,
            tags.arith_ops@,
            tags.relation_ops@,
        ),
    decreases expr,
{
    let ghost o0 = nodes_view(out@);
    let ghost ar = tags.arith_ops@;
    let ghost rl = tags.relation_ops@;
    if is_binop_on_val_use(expr, tags) {
        out.push(clone_node(expr));
    }
    let ghost here = if binop_on_val_use(expr@, ar, rl) {
        seq![expr@]
    } else {
        Seq::<Tree>::empty()
    };
    assert(nodes_view(out@) =~= o0 + here);
    match expr {
        Node::ValDef { id, rhs } => {
            assert(expr@ == Tree::ValDef { id: *id, rhs: Box::new(node_view(**rhs)) });
            binop_pick(rhs, tags, out);
        },
        Node::ValUse { .. } => {},
        Node::Block { items, result } => {
            assert(expr@ == Tree::Block { items: nodes_view(items@), result: Box::new(node_view(**result)) });
            binop_pick_seq(items, tags, out);
            binop_pick(result, tags, out);
        },
        Node::If { cond, then_branch, else_branch } => {
            assert(expr@ == Tree::If {
                cond: Box::new(node_view(**cond)),
                then_branch: Box::new(node_view(**then_branch)),
                else_branch: Box::new(node_view(**else_branch)),
            });
            binop_pick(cond, tags, out);
            binop_pick(then_branch, tags, out);
            binop_pick(else_branch, tags, out);
        },
        Node::Func { args, body } => {
            assert(expr@ == Tree::Func { args: args@, body: Box::new(node_view(**body)) });
            binop_pick(body, tags, out);
        },
        Node::Op { kind, payload, children } => {
            assert(expr@ == Tree::Op { kind: *kind, payload: *payload, children: nodes_view(children@) });
            binop_pick_seq(children, tags, out);
        },
    }
    assert(nodes_view(out@) =~= o0 + binop_picks(expr@, ar, rl));
}

/// How often `target` counts in `tree` for a duplicate rule: when it
/// refers to an id of the block's own ValDefs, its occurrences if it is
/// visible in the main scope (else none); otherwise its occurrences
/// within the scope of `tree`.
pub open spec fn rule_count(target: Tree, tree: Tree, ids: Set<u32>) -> nat {
    if refers_to(target, ids) {
        if !in_main_scope(tree, target, false, false) {
            0
        } else {
            occurrences(tree, target)
        }
    } else {
        scope_occurrences(tree, target)
    }
}

/// The phases of the duplicate rules: `Option.get`s, property calls and
/// indexings on a ValUse, and `BinOp`s on a ValUse.
pub enum DedupPhase {
    OptionGets,
    Selections,
    BinOps,
}

/// A distinct candidate is a duplicate of its phase: it counts at least
/// twice (three times for a property call among the selections), refers
/// to no id defined only in deeper If branches, and, among the `BinOp`s,
/// is no arithmetic on two ValUses.
pub open spec fn dup_kept(
    d: Tree,
    tree: Tree,
    ids: Set<u32>,
    locals: Set<u32>,
    phase: DedupPhase,
    arith: Seq<bool>,
) -> bool {
    let min: nat = match phase {
        DedupPhase::Selections => if d matches Tree::Op { kind, .. } && kind == OpKind::PropertyCall {
            3
        } else {
            2
        },
        _ => 2,
    };
    &&& rule_count(d, tree, ids) >= min
    &&& !refers_to(d, locals)
    &&& (phase == DedupPhase::BinOps ==> !arith_on_two_uses(d, arith))
}

/// The duplicates among the first `k` distinct candidates, in order.
pub open spec fn dups_of(
    ds: Seq<Tree>,
    k: int,
    tree: Tree,
    ids: Set<u32>,
    locals: Set<u32>,
    phase: DedupPhase,
    arith: Seq<bool>,
) -> Seq<Tree>
    decreases k,
{
    if k <= 0 || k > ds.len() {
        Seq::empty()
    } else {
        let r = dups_of(ds, k - 1, tree, ids, locals, phase, arith);
        if dup_kept(ds[k - 1], tree, ids, locals, phase, arith) {
            r.push(ds[k - 1])
        } else {
            r
        }
    }
}

/// The fewest nodes among the first `k` of `ds` (`ds` not empty).
pub open spec fn min_size(ds: Seq<Tree>, k: int) -> nat
    decreases k,
{
    if k <= 1 || k > ds.len() {
        node_count(ds[0])
    } else {
        let m = min_size(ds, k - 1);
        if node_count(ds[k - 1]) < m {
            node_count(ds[k - 1])
        } else {
            m
        }
    }
}

/// Those of the first `k` of `ds` with `m` nodes, in order.
pub open spec fn of_size(ds: Seq<Tree>, k: int, m: nat) -> Seq<Tree>
    decreases k,
{
    if k <= 0 || k > ds.len() {
        Seq::empty()
    } else if node_count(ds[k - 1]) == m {
        of_size(ds, k - 1, m).push(ds[k - 1])
    } else {
        of_size(ds, k - 1, m)
    }
}

/// The smallest duplicates, in order.
pub open spec fn smallest(ds: Seq<Tree>) -> Seq<Tree> {
    of_size(ds, ds.len() as int, min_size(ds, ds.len() as int))
}

/// Every tree of `ds` has at most `usize::MAX` nodes.
pub open spec fn sizes_fit(ds: Seq<Tree>) -> bool {
    forall|j: int| 0 <= j < ds.len() ==> node_count(#[trigger] ds[j]) <= usize::MAX
}

/// The duplicates of a phase over `tree`, from its candidates `cands`.
pub open spec fn phase_dups(
    cands: Seq<Tree>,
    tree: Tree,
    ids: Set<u32>,
    locals: Set<u32>,
    phase: DedupPhase,
    arith: Seq<bool>,
) -> Seq<Tree> {
    let ds = distinct_trees(cands);
    dups_of(ds, ds.len() as int, tree, ids, locals, phase, arith)
}

/// The selection phase, repeated with at most `fuel` rounds: the smallest
/// duplicate property calls and indexings on a ValUse extracted each
/// round until none is left. `None` when the fuel runs out or a count or
/// id would overflow.
pub open spec fn selection_rounds(
    e: Tree,
    ids: Set<u32>,
    locals: Set<u32>,
    ops: Seq<u32>,
    arith: Seq<bool>,
    fuel: nat,
) -> Option<Tree>
    decreases fuel,
{
    if fuel == 0 || node_count(e) > usize::MAX {
        None
    } else {
        let dups = phase_dups(picks(e, Pick::PropertyOrIndexOnValUse), e, ids, locals, DedupPhase::Selections, arith);
        if dups.len() == 0 {
            Some(e)
        } else if !sizes_fit(dups) || !extract_fits(e, smallest(dups).len()) {
            None
        } else {
            selection_rounds(inner_extracted(e, smallest(dups), ops), ids, locals, ops, arith, (fuel - 1) as nat)
        }
    }
}

/// The duplicate rules of one block `t` (see `dedup_inner` first): the
/// duplicate `Option.get`s extracted, then the selection rounds, then the
/// duplicate arithmetic and relational `BinOp`s on a ValUse extracted and
/// single-use values inlined. The ids of the block's own ValDefs and the
/// ids defined only in deeper branches are those of `t` after
/// `dedup_inner`.
pub open spec fn dedup_block(t: Tree, ops: Seq<u32>, arith: Seq<bool>, rel: Seq<bool>, fuel: nat) -> Option<Tree>
    decreases fuel, 0int,
{
    if fuel == 0 {
        None
    } else {
        match dedup_inner(t, ops, arith, rel, (fuel - 1) as nat) {
            None => None,
            Some(e0) => {
                let locals = branch_locals(e0);
                let ids = top_level_ids(e0);
                let d1 = phase_dups(picks(e0, Pick::OptionGets), e0, ids, locals, DedupPhase::OptionGets, arith);
                if node_count(e0) > usize::MAX || (d1.len() > 0 && !extract_fits(e0, d1.len())) {
                    None
                } else {
                    let e1 = if d1.len() == 0 {
                        e0
                    } else {
                        inner_extracted(e0, d1, ops)
                    };
                    match selection_rounds(e1, ids, locals, ops, arith, (fuel - 1) as nat) {
                        None => None,
                        Some(e2) => {
                            let d3 = phase_dups(binop_picks(e2, arith, rel), e2, ids, locals, DedupPhase::BinOps, arith);
                            if d3.len() > 0 && !extract_fits(e2, d3.len()) {
                                None
                            } else {
                                let e3 = if d3.len() == 0 {
                                    e2
                                } else {
                                    inner_extracted(e2, d3, ops)
                                };
                                Some(single_inlined(e3, ops))
                            }
                        },
                    }
                }
            },
        }
    }
}

/// The duplicate rules applied to each If branch of `t` as a block (see
/// `dedup_block`), the pass going on through conditions, ValDefs, blocks
/// and operands elsewhere; lambda bodies are left as they are.
pub open spec fn dedup_inner(t: Tree, ops: Seq<u32>, arith: Seq<bool>, rel: Seq<bool>, fuel: nat) -> Option<Tree>
    decreases fuel, 0int,
{
    if fuel == 0 {
        None
    } else {
        let f = (fuel - 1) as nat;
        match t {
            Tree::If { cond, then_branch, else_branch } => match (
                dedup_inner(*cond, ops, arith, rel, f),
                dedup_block(*then_branch, ops, arith, rel, f),
                dedup_block(*else_branch, ops, arith, rel, f),
            ) {
                (Some(c), Some(a), Some(b)) => Some(
                    Tree::If { cond: Box::new(c), then_branch: Box::new(a), else_branch: Box::new(b) },
                ),
                _ => None,
            },
            Tree::ValDef { id, rhs } => match dedup_inner(*rhs, ops, arith, rel, f) {
                Some(r) => Some(Tree::ValDef { id, rhs: Box::new(r) }),
                None => None,
            },
            Tree::Block { items, result } => match (
                dedup_seq(items, items.len() as int, ops, arith, rel, f),
                dedup_inner(*result, ops, arith, rel, f),
            ) {
                (Some(a), Some(r)) => Some(Tree::Block { items: a, result: Box::new(r) }),
                _ => None,
            },
            Tree::Op { kind, payload, children } => if mapped_kind(kind) {
                match dedup_seq(children, children.len() as int, ops, arith, rel, f) {
                    Some(a) => Some(Tree::Op { kind, payload, children: a }),
                    None => None,
                }
            } else {
                Some(t)
            },
            _ => Some(t),
        }
    }
}

/// `dedup_inner` over the first `k` of `s`.
pub open spec fn dedup_seq(s: Seq<Tree>, k: int, ops: Seq<u32>, arith: Seq<bool>, rel: Seq<bool>, fuel: nat) -> Option<
    Seq<Tree>,
>
    decreases fuel, k,
{
    if k <= 0 || k > s.len() {
        Some(Seq::empty())
    } else {
        match (dedup_seq(s, k - 1, ops, arith, rel, fuel), dedup_inner(s[k - 1], ops, arith, rel, fuel)) {
            (Some(a), Some(b)) => Some(a.push(b)),
            _ => None,
        }
    }
}

/// The duplicate rules finish on `t` without overflowing.
pub open spec fn dedup_ok(t: Tree, ops: Seq<u32>, arith: Seq<bool>, rel: Seq<bool>) -> bool {
    exists|fuel: nat| #[trigger] dedup_inner(t, ops, arith, rel, fuel) is Some
}

/// The result of the duplicate rules on `t` (see `dedup_inner`).
pub open spec fn dedup_result(t: Tree, ops: Seq<u32>, arith: Seq<bool>, rel: Seq<bool>) -> Tree {
    dedup_inner(t, ops, arith, rel, choose|fuel: nat| #[trigger] dedup_inner(t, ops, arith, rel, fuel) is Some).unwrap()
}


fn is_property_call(t: &Node) -> (r: bool)
    ensures
        r == (t@ matches Tree::Op { kind, .. } && kind == OpKind::PropertyCall),
{
    match t {
        Node::Op { kind, payload, children } => {
            assert(t@ == Tree::Op { kind: *kind, payload: *payload, children: nodes_view(children@) });
            *kind == OpKind::PropertyCall
        },
        _ => false,
    }
}

/// The duplicates of a phase among `cands` over `tree`, as `phase_dups` says.
fn phase_dups_of(
    cands: &Vec<Node>,
    tree: &Node,
    ids: &HashSet<u32>,
    locals: &HashSet<u32>,
    phase: DedupPhase,
    tags: &TypeTags,
) -> (r: Vec<Node>)
    requires
        node_count(tree@) <= usize::MAX,
    ensures
        nodes_view(r@) == phase_dups(nodes_view(cands@), tree@, ids@, locals@, phase, tags.arith_ops@),
{
    let ds = distinct_nodes(cands);
    let ghost dv = nodes_view(ds@);
    let mut out: Vec<Node> = Vec::new();
    let mut i: usize = 0;
    assert(nodes_view(out@) =~= Seq::<Tree>::empty());
    while i < ds.len()
        invariant
            0 <= i <= ds@.len(),
            dv == nodes_view(ds@),
            dv == distinct_trees(nodes_view(cands@)),
            node_count(tree@) <= usize::MAX,
            nodes_view(out@) == dups_of(dv, i as int, tree@, ids@, locals@, phase, tags.arith_ops@),
        decreases ds.len() - i,
    {
        let d = &ds[i];
        assert(dv[i as int] == d@);
        let count = if expr_references_any_local(d, ids) {
            if !appears_in_main_scope(tree, d) {
                0
            } else {
                count_occurrences(tree, d)
            }
        } else {
            count_occurrences_scope(tree, d)
        };
        let min: usize = match phase {
            DedupPhase::Selections => if is_property_call(d) {
                3
            } else {
                2
            },
            _ => 2,
        };
        let binop_drop = match phase {
            DedupPhase::BinOps => is_arith_on_two_uses(d, tags),
            _ => false,
        };
        let keep = count >= min && !expr_references_any_local(d, locals) && !binop_drop;
        assert(keep == dup_kept(dv[i as int], tree@, ids@, locals@, phase, tags.arith_ops@));
        if keep {
            let ghost before = nodes_view(out@);
            out.push(clone_node(d));
            assert(nodes_view(out@) =~= before.push(dv[i as int]));
        }
        i += 1;
    }
    out
}

/// The smallest of `ds`, as `smallest` says.
fn smallest_of(ds: &Vec<Node>) -> (r: Vec<Node>)
    requires
        ds@.len() > 0,
        sizes_fit(nodes_view(ds@)),
    ensures
        nodes_view(r@) == smallest(nodes_view(ds@)),
{
    let ghost dv = nodes_view(ds@);
    assert(dv[0] == ds@[0]@);
    let mut m = expr_size(&ds[0]);
    let mut i: usize = 1;
    while i < ds.len()
        invariant
            1 <= i <= ds@.len(),
            dv == nodes_view(ds@),
            sizes_fit(dv),
            m as nat == min_size(dv, i as int),
        decreases ds.len() - i,
    {
        assert(dv[i as int] == ds@[i as int]@);
        let z = expr_size(&ds[i]);
        if z < m {
            m = z;
        }
        i += 1;
    }
    let mut out: Vec<Node> = Vec::new();
    let mut j: usize = 0;
    assert(nodes_view(out@) =~= Seq::<Tree>::empty());
    while j < ds.len()
        invariant
            0 <= j <= ds@.len(),
            dv == nodes_view(ds@),
            sizes_fit(dv),
            m as nat == min_size(dv, dv.len() as int),
            nodes_view(out@) == of_size(dv, j as int, m as nat),
        decreases ds.len() - j,
    {
        assert(dv[j as int] == ds@[j as int]@);
        if expr_size(&ds[j]) == m {
            let ghost before = nodes_view(out@);
            out.push(clone_node(&ds[j]));
            assert(nodes_view(out@) =~= before.push(dv[j as int]));
        }
        j += 1;
    }
    out
}

fn selection_loop(
    e: Node,
    ids: &HashSet<u32>,
    locals: &HashSet<u32>,
    tags: &TypeTags,
    Ghost(fuel): Ghost<nat>,
) -> (r: Node)
    requires
        selection_rounds(e@, ids@, locals@, tags.op_types@, tags.arith_ops@, fuel) is Some,
    ensures
        r@ == selection_rounds(e@, ids@, locals@, tags.op_types@, tags.arith_ops@, fuel).unwrap(),
        node_count(r@) <= usize::MAX,
    decreases fuel,
{
    let mut cands: Vec<Node> = Vec::new();
    collect_property_byindex_candidates(&e, &mut cands);
    assert(nodes_view(cands@) =~= picks(e@, Pick::PropertyOrIndexOnValUse));
    let dups = phase_dups_of(&cands, &e, ids, locals, DedupPhase::Selections, tags);
    if dups.len() == 0 {
        return e;
    }
    let batch = smallest_of(&dups);
    let next = extract_inner_vals(e, batch, tags);
    selection_loop(next, ids, locals, tags, Ghost((fuel - 1) as nat))
}

fn dedup_block_ref(t: &Node, tags: &TypeTags, Ghost(fuel): Ghost<nat>) -> (r: Node)
    requires
        dedup_block(t@, tags.op_types@, tags.arith_ops@, tags.relation_ops@, fuel) is Some,
    ensures
        r@ == dedup_block(t@, tags.op_types@, tags.arith_ops@, tags.relation_ops@, fuel).unwrap(),
    decreases fuel, 0int,
{
    let f = Ghost((fuel - 1) as nat);
    let e0 = dedup_inner_ref(t, tags, f);
    let locals = collect_branch_local_val_ids(&e0);
    assert(locals@ =~= branch_locals(e0@));
    let ids = top_level_val_ids(&e0);
    let mut og: Vec<Node> = Vec::new();
    collect_option_gets(&e0, &mut og);
    assert(nodes_view(og@) =~= picks(e0@, Pick::OptionGets));
    let d1 = phase_dups_of(&og, &e0, &ids, &locals, DedupPhase::OptionGets, tags);
    let e1 = if d1.len() == 0 {
        e0
    } else {
        extract_inner_vals(e0, d1, tags)
    };
    let e2 = selection_loop(e1, &ids, &locals, tags, f);
    let mut bc: Vec<Node> = Vec::new();
    binop_pick(&e2, tags, &mut bc);
    assert(nodes_view(bc@) =~= binop_picks(e2@, tags.arith_ops@, tags.relation_ops@));
    let d3 = phase_dups_of(&bc, &e2, &ids, &locals, DedupPhase::BinOps, tags);
    let e3 = if d3.len() == 0 {
        e2
    } else {
        extract_inner_vals(e2, d3, tags)
    };
    inline_single_use_vals(e3, tags)
}

proof fn lemma_dedup_seq_some(
    s: Seq<Tree>,
    k: int,
    m: int,
    ops: Seq<u32>,
    arith: Seq<bool>,
    rel: Seq<bool>,
    fuel: nat,
)
    requires
        0 <= k <= m <= s.len(),
        dedup_seq(s, m, ops, arith, rel, fuel) is Some,
    ensures
        dedup_seq(s, k, ops, arith, rel, fuel) is Some,
        k < m ==> dedup_inner(s[k], ops, arith, rel, fuel) is Some,
    decreases m - k,
{
    if k < m {
        lemma_dedup_seq_some(s, k + 1, m, ops, arith, rel, fuel);
    }
}

fn dedup_vec(v: &Vec<Node>, tags: &TypeTags, Ghost(fuel): Ghost<nat>) -> (r: Vec<Node>)
    requires
        dedup_seq(nodes_view(v@), v@.len() as int, tags.op_types@, tags.arith_ops@, tags.relation_ops@, fuel) is Some,
    ensures
        nodes_view(r@) == dedup_seq(
            nodes_view(v@),
            v@.len() as int,
            tags.op_types@,
            tags.arith_ops@,
            tags.relation_ops@,
            fuel,
        ).unwrap(),
    decreases fuel, 1int,
{
    let ghost s = nodes_view(v@);
    let ghost ops = tags.op_types@;
    let ghost ar = tags.arith_ops@;
    let ghost rl = tags.relation_ops@;
    let mut out: Vec<Node> = Vec::new();
    let mut i: usize = 0;
    assert(nodes_view(out@) =~= Seq::<Tree>::empty());
    while i < v.len()
        invariant
            0 <= i <= v@.len(),
            s == nodes_view(v@),
            ops == tags.op_types@,
            ar == tags.arith_ops@,
            rl == tags.relation_ops@,
            dedup_seq(s, s.len() as int, ops, ar, rl, fuel) is Some,
            dedup_seq(s, i as int, ops, ar, rl, fuel) is Some,
            nodes_view(out@) == dedup_seq(s, i as int, ops, ar, rl, fuel).unwrap(),
        decreases v.len() - i,
    {
        proof {
            lemma_dedup_seq_some(s, i as int, s.len() as int, ops, ar, rl, fuel);
            lemma_dedup_seq_some(s, i + 1, s.len() as int, ops, ar, rl, fuel);
        }
        assert(s[i as int] == node_view(v@[i as int]));
        let ghost before = nodes_view(out@);
        let x = dedup_inner_ref(&v[i], tags, Ghost(fuel));
        out.push(x);
        assert(nodes_view(out@) =~= before.push(x@));
        i += 1;
    }
    out
}

fn dedup_inner_ref(t: &Node, tags: &TypeTags, Ghost(fuel): Ghost<nat>) -> (r: Node)
    requires
        dedup_inner(t@, tags.op_types@, tags.arith_ops@, tags.relation_ops@, fuel) is Some,
    ensures
        r@ == dedup_inner(t@, tags.op_types@, tags.arith_ops@, tags.relation_ops@, fuel).unwrap(),
    decreases fuel, 0int,
{
    let f = Ghost((fuel - 1) as nat);
    match t {
        Node::If { cond, then_branch, else_branch } => {
            assert(t@ == Tree::If {
                cond: Box::new(node_view(**cond)),
                then_branch: Box::new(node_view(**then_branch)),
                else_branch: Box::new(node_view(**else_branch)),
            });
            let c = dedup_inner_ref(cond, tags, f);
            let a = dedup_block_ref(then_branch, tags, f);
            let b = dedup_block_ref(else_branch, tags, f);
            Node::If { cond: Box::new(c), then_branch: Box::new(a), else_branch: Box::new(b) }
        },
        Node::ValDef { id, rhs } => {
            assert(t@ == Tree::ValDef { id: *id, rhs: Box::new(node_view(**rhs)) });
            let r = dedup_inner_ref(rhs, tags, f);
            Node::ValDef { id: *id, rhs: Box::new(r) }
        },
        Node::Block { items, result } => {
            assert(t@ == Tree::Block { items: nodes_view(items@), result: Box::new(node_view(**result)) });
            let a = dedup_vec(items, tags, f);
            let r = dedup_inner_ref(result, tags, f);
            Node::Block { items: a, result: Box::new(r) }
        },
        Node::Op { kind, payload, children } => {
            assert(t@ == Tree::Op { kind: *kind, payload: *payload, children: nodes_view(children@) });
            if is_mapped_kind(*kind) {
                let a = dedup_vec(children, tags, f);
                Node::Op { kind: *kind, payload: *payload, children: a }
            } else {
                clone_node(t)
            }
        },
        _ => clone_node(t),
    }
}

/// The duplicate rules of each If branch of `expr` applied to it as a
/// block, as `dedup_result` says: duplicate `Option.get`s, then the
/// smallest duplicate property calls and indexings on a ValUse round by
/// round, then duplicate arithmetic and relational `BinOp`s on a ValUse,
/// extracted as ValDefs, and single-use values inlined. It must finish
/// without overflowing (`dedup_ok`).
pub fn deduplicate_inner_consts(expr: Node, tags: &TypeTags) -> (r: Node)
    requires
        dedup_ok(expr@, tags.op_types@, tags.arith_ops@, tags.relation_ops@),
    ensures
        r@ == dedup_result(expr@, tags.op_types@, tags.arith_ops@, tags.relation_ops@),
{
    let ghost fuel = choose|fuel: nat| #[trigger] dedup_inner(expr@, tags.op_types@, tags.arith_ops@, tags.relation_ops@, fuel) is Some;
    dedup_inner_ref(&expr, tags, Ghost(fuel))
}

} // verus!
