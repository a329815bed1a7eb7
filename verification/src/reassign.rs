use std::collections::{HashMap, HashSet};

use vstd::prelude::*;

use crate::node::{node_view, nodes_view, FuncArg, Node, OpKind, Tree};
use crate::renumber::{rewrite, rewrite_ids};
use crate::reorder::{def_map, def_rhs, find_def, lemma_def_map_values, rhs_of};
use crate::walk::{
    direct_children, lemma_children_count, lemma_count_single, lemma_prefix_step,
    lemma_seq_elem_count, node_count, node_count_seq, tree_children,
};

verus! {

/// The sub-expressions the scheduling walks follow: of a Block only its
/// result, its items belonging to the block's own schedule.
pub open spec fn body_children(t: Tree) -> Seq<Tree> {
    match t {
        Tree::Block { result, .. } => seq![*result],
        _ => tree_children(t),
    }
}

/// The trees of `s` that are not ValUses, in order.
pub open spec fn non_leaves(s: Seq<Tree>) -> Seq<Tree>
    decreases s.len(),
{
    if s.len() == 0 {
        Seq::empty()
    } else if s.last() is ValUse {
        non_leaves(s.drop_last())
    } else {
        non_leaves(s.drop_last()).push(s.last())
    }
}

/// The ValUses of `s`, in order.
pub open spec fn leaves(s: Seq<Tree>) -> Seq<Tree>
    decreases s.len(),
{
    if s.len() == 0 {
        Seq::empty()
    } else if s.last() is ValUse {
        leaves(s.drop_last()).push(s.last())
    } else {
        leaves(s.drop_last())
    }
}

/// The order in which a walk visits the children of `t`: as they stand, or
/// (`leaves_last`) every non-ValUse child before every ValUse child.
pub open spec fn walk_order(t: Tree, leaves_last: bool) -> Seq<Tree> {
    if leaves_last {
        non_leaves(body_children(t)) + leaves(body_children(t))
    } else {
        body_children(t)
    }
}

/// The ids that name a ValDef of `items` and are not yet in `vis`.
pub open spec fn pending(items: Seq<Tree>, vis: Set<u32>) -> Set<u32> {
    def_map(items).dom().difference(vis)
}

pub proof fn lemma_count_concat(a: Seq<Tree>, b: Seq<Tree>)
    ensures
        node_count_seq(a + b) == node_count_seq(a) + node_count_seq(b),
    decreases b.len(),
{
    if b.len() == 0 {
        assert(a + b =~= a);
    } else {
        assert((a + b).drop_last() =~= a + b.drop_last());
        lemma_count_concat(a, b.drop_last());
    }
}

pub proof fn lemma_count_split(s: Seq<Tree>)
    ensures
        node_count_seq(non_leaves(s)) + node_count_seq(leaves(s)) == node_count_seq(s),
    decreases s.len(),
{
    if s.len() > 0 {
        lemma_count_split(s.drop_last());
        let n = non_leaves(s.drop_last());
        let l = leaves(s.drop_last());
        assert(n.push(s.last()).drop_last() =~= n);
        assert(l.push(s.last()).drop_last() =~= l);
    }
}

/// The children a walk visits are, together, smaller than the tree.
pub proof fn lemma_walk_order_count(t: Tree, leaves_last: bool)
    ensures
        node_count_seq(walk_order(t, leaves_last)) < node_count(t),
{
    lemma_children_count(t);
    match t {
        Tree::Block { items, result } => {
            lemma_count_single(*result);
        },
        _ => {},
    }
    if leaves_last {
        lemma_count_concat(non_leaves(body_children(t)), leaves(body_children(t)));
        lemma_count_split(body_children(t));
    }
}

pub proof fn lemma_count_positive(t: Tree)
    ensures
        node_count(t) >= 1,
{
    lemma_children_count(t);
}

pub proof fn lemma_pending_insert(items: Seq<Tree>, vis: Set<u32>, id: u32)
    requires
        def_map(items).contains_key(id),
        !vis.contains(id),
    ensures
        pending(items, vis.insert(id)).len() < pending(items, vis).len(),
{
    lemma_def_map_values(items);
    let p = pending(items, vis);
    assert(pending(items, vis.insert(id)) =~= p.remove(id));
    assert(p.contains(id));
}

pub proof fn lemma_pending_mono(items: Seq<Tree>, a: Set<u32>, b: Set<u32>)
    requires
        a.subset_of(b),
    ensures
        pending(items, b).len() <= pending(items, a).len(),
{
    lemma_def_map_values(items);
    assert(pending(items, b).subset_of(pending(items, a)));
    vstd::set_lib::lemma_len_subset(pending(items, b), pending(items, a));
}

/// The schedule walk from `t` over the ValDefs of `items`, from state
/// `st` (ids in the order found, ids seen). A ValUse of an id that names a
/// ValDef of `items` and is not yet seen marks it seen, walks that
/// ValDef's right-hand side (children in plain order), then records the id:
/// dependencies come before their dependents. Any other tree walks its
/// children in `walk_order`.
pub open spec fn visit(t: Tree, items: Seq<Tree>, st: (Seq<u32>, Set<u32>), leaves_last: bool) -> (
    Seq<u32>,
    Set<u32>,
)
    decreases pending(items, st.1).len(), node_count(t), 1nat,
{
    match t {
        Tree::ValUse { id, .. } => {
            if def_map(items).contains_key(id) && !st.1.contains(id) {
                proof {
                    lemma_pending_insert(items, st.1, id);
                }
                let inner = visit(rhs_of(def_map(items)[id]), items, (st.0, st.1.insert(id)), false);
                (inner.0.push(id), inner.1)
            } else {
                st
            }
        },
        _ => {
            proof {
                lemma_walk_order_count(t, leaves_last);
                let wo = walk_order(t, leaves_last);
                assert(wo.subrange(0, wo.len() as int) =~= wo);
            }
            visit_seq(
                walk_order(t, leaves_last),
                walk_order(t, leaves_last).len() as int,
                items,
                st,
                leaves_last,
            )
        },
    }
}

/// The schedule walk over the first `k` trees of `s`, one after another.
pub open spec fn visit_seq(
    s: Seq<Tree>,
    k: int,
    items: Seq<Tree>,
    st: (Seq<u32>, Set<u32>),
    leaves_last: bool,
) -> (Seq<u32>, Set<u32>)
    decreases pending(items, st.1).len(), node_count_seq(s.subrange(0, k)), 2nat,
{
    if k <= 0 || k > s.len() {
        st
    } else {
        proof {
            lemma_prefix_step(s, k - 1);
            lemma_count_positive(s[k - 1]);
        }
        let prev = visit_seq(s, k - 1, items, st, leaves_last);
        if pending(items, prev.1).len() <= pending(items, st.1).len() {
            visit(s[k - 1], items, prev, leaves_last)
        } else {
            prev
        }
    }
}

/// The walks only ever add to the ids seen.
pub proof fn lemma_visit_grows(t: Tree, items: Seq<Tree>, st: (Seq<u32>, Set<u32>), leaves_last: bool)
    ensures
        st.1.subset_of(visit(t, items, st, leaves_last).1),
    decreases pending(items, st.1).len(), node_count(t), 1nat,
{
    match t {
        Tree::ValUse { id, .. } => {
            if def_map(items).contains_key(id) && !st.1.contains(id) {
                lemma_pending_insert(items, st.1, id);
                lemma_visit_grows(rhs_of(def_map(items)[id]), items, (st.0, st.1.insert(id)), false);
            }
        },
        _ => {
            lemma_walk_order_count(t, leaves_last);
            let wo = walk_order(t, leaves_last);
            assert(wo.subrange(0, wo.len() as int) =~= wo);
            lemma_visit_seq_grows(wo, wo.len() as int, items, st, leaves_last);
        },
    }
}

pub proof fn lemma_visit_seq_grows(
    s: Seq<Tree>,
    k: int,
    items: Seq<Tree>,
    st: (Seq<u32>, Set<u32>),
    leaves_last: bool,
)
    ensures
        st.1.subset_of(visit_seq(s, k, items, st, leaves_last).1),
        k > 0 && k <= s.len() ==> visit_seq(s, k, items, st, leaves_last) == visit(
            s[k - 1],
            items,
            visit_seq(s, k - 1, items, st, leaves_last),
            leaves_last,
        ),
    decreases pending(items, st.1).len(), node_count_seq(s.subrange(0, k)), 2nat,
{
    if k > 0 && k <= s.len() {
        lemma_prefix_step(s, k - 1);
        lemma_count_positive(s[k - 1]);
        lemma_visit_seq_grows(s, k - 1, items, st, leaves_last);
        let prev = visit_seq(s, k - 1, items, st, leaves_last);
        lemma_pending_mono(items, st.1, prev.1);
        lemma_visit_grows(s[k - 1], items, prev, leaves_last);
    }
}


/// The children the walks follow, as `body_children` says.
pub fn body_walk_children(expr: &Node) -> (r: Vec<&Node>)
    ensures
        r@.len() == body_children(expr@).len(),
        forall|i: int| 0 <= i < r@.len() ==> (*r@[i])@ == body_children(expr@)[i],
{
    match expr {
        Node::Block { items, result } => {
            assert(expr@ == Tree::Block { items: nodes_view(items@), result: Box::new(node_view(**result)) });
            let mut v: Vec<&Node> = Vec::new();
            v.push(&**result);
            v
        },
        _ => direct_children(expr),
    }
}

/// The children of `expr` in `walk_order`.
fn ordered_children(expr: &Node, leaves_last: bool) -> (r: Vec<&Node>)
    ensures
        r@.len() == walk_order(expr@, leaves_last).len(),
        forall|i: int| 0 <= i < r@.len() ==> (*r@[i])@ == walk_order(expr@, leaves_last)[i],
{
    let cs = body_walk_children(expr);
    if !leaves_last {
        return cs;
    }
    let ghost bc = body_children(expr@);
    let mut inner: Vec<&Node> = Vec::new();
    let mut outer: Vec<&Node> = Vec::new();
    let mut i: usize = 0;
    assert(bc.subrange(0, 0) =~= Seq::<Tree>::empty());
    while i < cs.len()
        invariant
            0 <= i <= cs@.len(),
            cs@.len() == bc.len(),
            bc == body_children(expr@),
            forall|j: int| 0 <= j < cs@.len() ==> (*cs@[j])@ == bc[j],
            Seq::new(inner@.len(), |j: int| (*inner@[j])@) == non_leaves(bc.subrange(0, i as int)),
            Seq::new(outer@.len(), |j: int| (*outer@[j])@) == leaves(bc.subrange(0, i as int)),
        decreases cs.len() - i,
    {
        proof {
            lemma_prefix_step(bc, i as int);
        }
        let c = cs[i];
        let ghost ni = Seq::new(inner@.len(), |j: int| (*inner@[j])@);
        let ghost lo = Seq::new(outer@.len(), |j: int| (*outer@[j])@);
        match c {
            Node::ValUse { .. } => {
                outer.push(c);
                assert(Seq::new(outer@.len(), |j: int| (*outer@[j])@) =~= lo.push(bc[i as int]));
            },
            _ => {
                inner.push(c);
                assert(Seq::new(inner@.len(), |j: int| (*inner@[j])@) =~= ni.push(bc[i as int]));
            },
        }
        i += 1;
    }
    assert(bc.subrange(0, bc.len() as int) =~= bc);
    let ghost ni = Seq::new(inner@.len(), |j: int| (*inner@[j])@);
    let ghost lo = Seq::new(outer@.len(), |j: int| (*outer@[j])@);
    let mut k: usize = 0;
    while k < outer.len()
        invariant
            0 <= k <= outer@.len(),
            lo == Seq::new(outer@.len(), |j: int| (*outer@[j])@),
            Seq::new(inner@.len(), |j: int| (*inner@[j])@) == ni + lo.subrange(0, k as int),
        decreases outer.len() - k,
    {
        let ghost before = Seq::new(inner@.len(), |j: int| (*inner@[j])@);
        inner.push(outer[k]);
        assert(Seq::new(inner@.len(), |j: int| (*inner@[j])@) =~= before.push(lo[k as int]));
        assert(lo.subrange(0, k + 1) =~= lo.subrange(0, k as int).push(lo[k as int]));
        k += 1;
    }
    assert(lo.subrange(0, lo.len() as int) =~= lo);
    assert(Seq::new(inner@.len(), |j: int| (*inner@[j])@) =~= walk_order(expr@, true));
    inner
}

/// The schedule walk, as `visit` says; `budget` bounds the ids still to be
/// seen and, with the size of `expr`, measures the recursion.
fn schedule_walk(
    expr: &Node,
    items: &Vec<Node>,
    ordered: &mut Vec<u32>,
    visited: &mut HashSet<u32>,
    leaves_last: bool,
    Ghost(budget): Ghost<nat>,
)
    requires
        pending(nodes_view(items@), old(visited)@).len() <= budget,
    ensures
        (final(ordered)@, final(visited)@) == visit(
            expr@,
            nodes_view(items@),
            (old(ordered)@, old(visited)@),
            leaves_last,
        ),
    decreases budget, node_count(expr@), 1nat,
{
    let ghost s = nodes_view(items@);
    let ghost st0 = (ordered@, visited@);
    match expr {
        Node::ValUse { id, tpe } => {
            assert(expr@ == Tree::ValUse { id: *id, tpe: *tpe });
            if !visited.contains(id) {
                match find_def(items, *id) {
                    Some(p) => {
                        let rhs = def_rhs(items, p);
                        proof {
                            lemma_pending_insert(s, visited@, *id);
                        }
                        visited.insert(*id);
                        let ghost b = pending(s, visited@).len();
                        schedule_walk(rhs, items, ordered, visited, false, Ghost(b));
                        ordered.push(*id);
                    },
                    None => {},
                }
            }
        },
        _ => {
            let children = ordered_children(expr, leaves_last);
            let ghost wo = walk_order(expr@, leaves_last);
            proof {
                lemma_walk_order_count(expr@, leaves_last);
            }
            let mut i: usize = 0;
            while i < children.len()
                invariant
                    0 <= i <= children@.len(),
                    children@.len() == wo.len(),
                    wo == walk_order(expr@, leaves_last),
                    forall|j: int| 0 <= j < children@.len() ==> (*children@[j])@ == wo[j],
                    node_count_seq(wo) < node_count(expr@),
                    s == nodes_view(items@),
                    pending(s, st0.1).len() <= budget,
                    (ordered@, visited@) == visit_seq(wo, i as int, s, st0, leaves_last),
                decreases children.len() - i,
            {
                proof {
                    lemma_visit_seq_grows(wo, i as int, s, st0, leaves_last);
                    lemma_visit_seq_grows(wo, i + 1, s, st0, leaves_last);
                    lemma_pending_mono(s, st0.1, visited@);
                    lemma_seq_elem_count(wo, i as int);
                }
                schedule_walk(children[i], items, ordered, visited, leaves_last, Ghost(budget));
                i += 1;
            }
            assert(visit(expr@, s, st0, leaves_last) == visit_seq(wo, wo.len() as int, s, st0, leaves_last));
        },
    }
}

/// The schedule walk from `root` with children in plain order, as `visit`
/// says: every id whose ValDef `root` reaches through ValUses, after the
/// ids its right-hand side reaches.
pub fn dfs_collect_val_order(
    root: &Node,
    items: &Vec<Node>,
    ordered: &mut Vec<u32>,
    visited: &mut HashSet<u32>,
)
    ensures
        (final(ordered)@, final(visited)@) == visit(
            root@,
            nodes_view(items@),
            (old(ordered)@, old(visited)@),
            false,
        ),
{
    let ghost b = pending(nodes_view(items@), visited@).len();
    schedule_walk(root, items, ordered, visited, false, Ghost(b));
}

/// The walk of a right-hand side; the same walk as `dfs_collect_val_order`.
pub fn dfs_collect_val_order_inner(
    expr: &Node,
    items: &Vec<Node>,
    ordered: &mut Vec<u32>,
    visited: &mut HashSet<u32>,
)
    ensures
        (final(ordered)@, final(visited)@) == visit(
            expr@,
            nodes_view(items@),
            (old(ordered)@, old(visited)@),
            false,
        ),
{
    let ghost b = pending(nodes_view(items@), visited@).len();
    schedule_walk(expr, items, ordered, visited, false, Ghost(b));
}

/// The schedule walk from `root` that, at every node it passes (not inside
/// right-hand sides), visits the children that are not ValUses before
/// those that are, as `visit` with `leaves_last` says.
pub fn body_schedule_walk_collect(
    root: &Node,
    items: &Vec<Node>,
    ordered: &mut Vec<u32>,
    visited: &mut HashSet<u32>,
)
    ensures
        (final(ordered)@, final(visited)@) == visit(
            root@,
            nodes_view(items@),
            (old(ordered)@, old(visited)@),
            true,
        ),
{
    let ghost b = pending(nodes_view(items@), visited@).len();
    schedule_walk(root, items, ordered, visited, true, Ghost(b));
}


/// Every ValDef, ValUse and FuncValue-argument id of `t`, in pre-order
/// (a node's own ids before those of its children).
pub open spec fn tree_ids(t: Tree) -> Seq<u32>
    decreases t,
{
    match t {
        Tree::ValDef { id, rhs } => seq![id] + tree_ids(*rhs),
        Tree::ValUse { id, .. } => seq![id],
        Tree::Block { items, result } => tree_ids_seq(items) + tree_ids(*result),
        Tree::If { cond, then_branch, else_branch } => tree_ids(*cond) + tree_ids(*then_branch)
            + tree_ids(*else_branch),
        Tree::Func { args, body } => args.map_values(|a: FuncArg| a.id) + tree_ids(*body),
        Tree::Op { children, .. } => tree_ids_seq(children),
    }
}

pub open spec fn tree_ids_seq(s: Seq<Tree>) -> Seq<u32>
    decreases s,
{
    if s.len() == 0 {
        Seq::empty()
    } else {
        tree_ids_seq(s.drop_last()) + tree_ids(s.last())
    }
}

/// Records `x` unless it was seen already.
pub open spec fn note_id(st: (Seq<u32>, Set<u32>), x: u32) -> (Seq<u32>, Set<u32>) {
    if st.1.contains(x) {
        st
    } else {
        (st.0.push(x), st.1.insert(x))
    }
}

/// Records the ids of `ids` in order, each that was not seen already.
pub open spec fn sweep(ids: Seq<u32>, st: (Seq<u32>, Set<u32>)) -> (Seq<u32>, Set<u32>)
    decreases ids.len(),
{
    if ids.len() == 0 {
        st
    } else {
        note_id(sweep(ids.drop_last(), st), ids.last())
    }
}

pub proof fn lemma_sweep_concat(a: Seq<u32>, b: Seq<u32>, st: (Seq<u32>, Set<u32>))
    ensures
        sweep(a + b, st) == sweep(b, sweep(a, st)),
    decreases b.len(),
{
    if b.len() == 0 {
        assert(a + b =~= a);
    } else {
        assert((a + b).drop_last() =~= a + b.drop_last());
        lemma_sweep_concat(a, b.drop_last(), st);
    }
}

proof fn lemma_sweep_one(x: u32, st: (Seq<u32>, Set<u32>))
    ensures
        sweep(seq![x], st) == note_id(st, x),
{
    assert(seq![x].drop_last() =~= Seq::<u32>::empty());
    assert(sweep(Seq::<u32>::empty(), st) == st);
    assert(seq![x].last() == x);
}

fn note(ordered: &mut Vec<u32>, visited: &mut HashSet<u32>, x: u32)
    ensures
        (final(ordered)@, final(visited)@) == note_id((old(ordered)@, old(visited)@), x),
{
    if !visited.contains(&x) {
        visited.insert(x);
        ordered.push(x);
    }
}

fn sweep_args(args: &Vec<FuncArg>, ordered: &mut Vec<u32>, visited: &mut HashSet<u32>)
    ensures
        (final(ordered)@, final(visited)@) == sweep(
            args@.map_values(|a: FuncArg| a.id),
            (old(ordered)@, old(visited)@),
        ),
{
    let ghost ids = args@.map_values(|a: FuncArg| a.id);
    let ghost st0 = (ordered@, visited@);
    let mut i: usize = 0;
    assert(ids.subrange(0, 0) =~= Seq::<u32>::empty());
    while i < args.len()
        invariant
            0 <= i <= args@.len(),
            ids == args@.map_values(|a: FuncArg| a.id),
            (ordered@, visited@) == sweep(ids.subrange(0, i as int), st0),
        decreases args.len() - i,
    {
        assert(ids.subrange(0, i + 1).drop_last() =~= ids.subrange(0, i as int));
        note(ordered, visited, args[i].id);
        i += 1;
    }
    assert(ids.subrange(0, args@.len() as int) =~= ids);
}

fn sweep_seq(v: &Vec<Node>, ordered: &mut Vec<u32>, visited: &mut HashSet<u32>)
    ensures
        (final(ordered)@, final(visited)@) == sweep(
            tree_ids_seq(nodes_view(v@)),
            (old(ordered)@, old(visited)@),
        ),
    decreases v@,
{
    let ghost sv = nodes_view(v@);
    let ghost st0 = (ordered@, visited@);
    let mut i: usize = 0;
    assert(sv.subrange(0, 0) =~= Seq::<Tree>::empty());
    while i < v.len()
        invariant
            0 <= i <= v@.len(),
            sv == nodes_view(v@),
            (ordered@, visited@) == sweep(tree_ids_seq(sv.subrange(0, i as int)), st0),
        decreases v.len() - i,
    {
        assert(decreases_to!(v@ => v@[i as int]));
        proof {
            lemma_prefix_step(sv, i as int);
            lemma_sweep_concat(tree_ids_seq(sv.subrange(0, i as int)), tree_ids(sv[i as int]), st0);
        }
        collect_all_valdef_ids_in_order(&v[i], ordered, visited);
        i += 1;
    }
    assert(sv.subrange(0, v@.len() as int) =~= sv);
}

/// Records, in pre-order, every ValDef, ValUse and FuncValue-argument id of
/// `root` not seen already, as `sweep` over `tree_ids` says.
pub fn collect_all_valdef_ids_in_order(
    root: &Node,
    ordered: &mut Vec<u32>,
    visited: &mut HashSet<u32>,
)
    ensures
        (final(ordered)@, final(visited)@) == sweep(tree_ids(root@), (old(ordered)@, old(visited)@)),
    decreases root,
{
    let ghost st0 = (ordered@, visited@);
    match root {
        Node::ValDef { id, rhs } => {
            proof {
                lemma_sweep_one(*id, st0);
                lemma_sweep_concat(seq![*id], tree_ids(node_view(**rhs)), st0);
            }
            note(ordered, visited, *id);
            collect_all_valdef_ids_in_order(rhs, ordered, visited);
        },
        Node::ValUse { id, .. } => {
            proof {
                lemma_sweep_one(*id, st0);
            }
            note(ordered, visited, *id);
        },
        Node::Block { items, result } => {
            proof {
                lemma_sweep_concat(tree_ids_seq(nodes_view(items@)), tree_ids(node_view(**result)), st0);
            }
            sweep_seq(items, ordered, visited);
            collect_all_valdef_ids_in_order(result, ordered, visited);
        },
        Node::If { cond, then_branch, else_branch } => {
            let ghost a = tree_ids(node_view(**cond));
            let ghost b = tree_ids(node_view(**then_branch));
            let ghost c = tree_ids(node_view(**else_branch));
            proof {
                lemma_sweep_concat(a + b, c, st0);
                lemma_sweep_concat(a, b, st0);
            }
            collect_all_valdef_ids_in_order(cond, ordered, visited);
            collect_all_valdef_ids_in_order(then_branch, ordered, visited);
            collect_all_valdef_ids_in_order(else_branch, ordered, visited);
        },
        Node::Func { args, body } => {
            proof {
                lemma_sweep_concat(args@.map_values(|a: FuncArg| a.id), tree_ids(node_view(**body)), st0);
            }
            sweep_args(args, ordered, visited);
            collect_all_valdef_ids_in_order(body, ordered, visited);
        },
        Node::Op { children, .. } => {
            sweep_seq(children, ordered, visited);
        },
    }
}


/// `t` with its `BoolToSigmaProp` wrappers taken off.
pub open spec fn strip_sigma(t: Tree) -> Tree
    decreases t,
{
    match t {
        Tree::Op { kind: OpKind::BoolToSigmaProp, children, .. } => {
            if children.len() == 1 {
                strip_sigma(children[0])
            } else {
                t
            }
        },
        _ => t,
    }
}

/// Some item is a ValDef.
pub open spec fn has_valdef(items: Seq<Tree>) -> bool {
    exists|j: int| 0 <= j < items.len() && #[trigger] items[j] is ValDef
}

/// Each id of `s` mapped to its position counted from 1 (as a `u32`); of
/// two equal ids the later position stands.
pub open spec fn position_map(s: Seq<u32>) -> Map<u32, u32>
    decreases s.len(),
{
    if s.len() == 0 {
        Map::empty()
    } else {
        position_map(s.drop_last()).insert(s.last(), s.len() as u32)
    }
}

/// Every id that `m` maps goes to itself.
pub open spec fn identity_map(m: Map<u32, u32>) -> bool {
    forall|k: u32| #[trigger] m.contains_key(k) ==> m[k] == k
}

/// The new order of the ids of the block `t` with items `items` and
/// result `result`: when the result (without its `BoolToSigmaProp`
/// wrappers) is an If, first the leaves-last walk of the result; then the
/// plain walk of the result; then every other id of the block in pre-order.
pub open spec fn schedule_ids(items: Seq<Tree>, result: Tree, t: Tree) -> Seq<u32> {
    let st0 = (Seq::<u32>::empty(), Set::<u32>::empty());
    let st1 = if strip_sigma(result) is If {
        visit(result, items, st0, true)
    } else {
        st0
    };
    let st2 = visit(result, items, st1, false);
    sweep(tree_ids(t), st2).0
}

/// A block with a ValDef among its items gets its ids renumbered 1, 2, ...
/// in `schedule_ids` order (unless that changes nothing); anything else
/// stays.
pub open spec fn reassigned(t: Tree) -> Tree {
    match t {
        Tree::Block { items, result } => {
            if has_valdef(items) {
                let m = position_map(schedule_ids(items, *result, t));
                if identity_map(m) {
                    t
                } else {
                    rewrite(t, m)
                }
            } else {
                t
            }
        },
        _ => t,
    }
}

proof fn lemma_position_map_dom(s: Seq<u32>)
    ensures
        forall|k: u32| #[trigger] position_map(s).contains_key(k) <==> s.contains(k),
    decreases s.len(),
{
    if s.len() > 0 {
        lemma_position_map_dom(s.drop_last());
        assert forall|k: u32| #[trigger] position_map(s).contains_key(k) <==> s.contains(k) by {
            let d = s.drop_last();
            assert(position_map(s) == position_map(d).insert(s.last(), s.len() as u32));
            assert(position_map(d).contains_key(k) <==> d.contains(k));
            if k == s.last() {
                assert(s[s.len() - 1] == k);
            } else {
                if d.contains(k) {
                    let q = choose|q: int| 0 <= q < d.len() && d[q] == k;
                    assert(s[q] == k);
                }
                if s.contains(k) {
                    let q = choose|q: int| 0 <= q < s.len() && s[q] == k;
                    assert(q != s.len() - 1);
                    assert(d[q] == k);
                }
            }
        }
    }
}

fn is_if_result(t: &Node) -> (r: bool)
    ensures
        r == (strip_sigma(t@) is If),
    decreases t,
{
    match t {
        Node::If { .. } => true,
        Node::Op { kind: OpKind::BoolToSigmaProp, children, .. } => {
            if children.len() == 1 {
                assert(decreases_to!(children@ => children@[0]));
                assert(nodes_view(children@)[0] == node_view(children@[0]));
                is_if_result(&children[0])
            } else {
                false
            }
        },
        _ => false,
    }
}

fn any_valdef(items: &Vec<Node>) -> (r: bool)
    ensures
        r == has_valdef(nodes_view(items@)),
{
    let ghost s = nodes_view(items@);
    let mut i: usize = 0;
    while i < items.len()
        invariant
            0 <= i <= items@.len(),
            s == nodes_view(items@),
            forall|j: int| 0 <= j < i ==> !(#[trigger] s[j] is ValDef),
        decreases items.len() - i,
    {
        assert(s[i as int] == node_view(items@[i as int]));
        if let Node::ValDef { .. } = &items[i] {
            assert(s[i as int] is ValDef);
            return true;
        }
        i += 1;
    }
    false
}

/// The new id order of a block with a ValDef among its items, as
/// `schedule_ids` says; `None` for anything else.
fn schedule_of(expr: &Node) -> (r: Option<Vec<u32>>)
    ensures
        match expr@ {
            Tree::Block { items, result } => if has_valdef(items) {
                r is Some && r->0@ == schedule_ids(items, *result, expr@)
            } else {
                r is None
            },
            _ => r is None,
        },
{
    match expr {
        Node::Block { items, result } => {
            assert(expr@ == Tree::Block { items: nodes_view(items@), result: Box::new(node_view(**result)) });
            if !any_valdef(items) {
                return None;
            }
            let mut ordered: Vec<u32> = Vec::new();
            let mut visited: HashSet<u32> = HashSet::new();
            assert(visited@ == Set::<u32>::empty());
            if is_if_result(result) {
                body_schedule_walk_collect(result, items, &mut ordered, &mut visited);
            }
            dfs_collect_val_order(result, items, &mut ordered, &mut visited);
            collect_all_valdef_ids_in_order(expr, &mut ordered, &mut visited);
            Some(ordered)
        },
        _ => None,
    }
}

/// Renumbers the ids of a block in the order of its schedule: the ids
/// that the result reaches, each after those its ValDef's right-hand side
/// reaches (first walking non-ValUse children before ValUses when the
/// result is an If), then every other id in pre-order, numbered from 1;
/// as `reassigned` says. `_source_positions` does not affect the result.
pub fn dfs_reassign_val_ids(expr: Node, _source_positions: &HashMap<u32, usize>) -> (r: Node)
    ensures
        r@ == reassigned(expr@),
{
    let ordered = match schedule_of(&expr) {
        Some(o) => o,
        None => {
            return expr;
        },
    };
    let mut id_map: HashMap<u32, u32> = HashMap::new();
    let mut i: usize = 0;
    assert(ordered@.subrange(0, 0) =~= Seq::<u32>::empty());
    while i < ordered.len()
        invariant
            0 <= i <= ordered@.len(),
            id_map@ == position_map(ordered@.subrange(0, i as int)),
        decreases ordered.len() - i,
    {
        assert(ordered@.subrange(0, i + 1).drop_last() =~= ordered@.subrange(0, i as int));
        id_map.insert(ordered[i], (i + 1) as u32);
        i += 1;
    }
    assert(ordered@.subrange(0, ordered@.len() as int) =~= ordered@);
    let ghost m = position_map(ordered@);
    proof {
        lemma_position_map_dom(ordered@);
    }
    let mut ident = true;
    let mut j: usize = 0;
    while j < ordered.len()
        invariant
            0 <= j <= ordered@.len(),
            id_map@ == m,
            forall|k: u32| #[trigger] m.contains_key(k) <==> ordered@.contains(k),
            ident == (forall|q: int| 0 <= q < j ==> m[#[trigger] ordered@[q]] == ordered@[q]),
        decreases ordered.len() - j,
    {
        assert(m.contains_key(ordered@[j as int]));
        match id_map.get(&ordered[j]) {
            Some(v) => {
                if *v != ordered[j] {
                    ident = false;
                }
            },
            None => {},
        }
        j += 1;
    }
    proof {
        if ident {
            assert forall|k: u32| #[trigger] m.contains_key(k) implies m[k] == k by {
                let q = choose|q: int| 0 <= q < ordered@.len() && ordered@[q] == k;
                assert(m[ordered@[q]] == ordered@[q]);
            }
        } else {
            let q = choose|q: int| 0 <= q < ordered@.len() && m[ordered@[q]] != ordered@[q];
            assert(m.contains_key(ordered@[q]));
        }
    }
    if ident {
        expr
    } else {
        rewrite_ids(&expr, &id_map)
    }
}


/// `r` is `st` with ids appended that were not seen in `st`, each once
/// and each now seen; every id newly seen was appended.
pub open spec fn extends(st: (Seq<u32>, Set<u32>), r: (Seq<u32>, Set<u32>)) -> bool {
    &&& st.0.len() <= r.0.len()
    &&& r.0.subrange(0, st.0.len() as int) == st.0
    &&& st.1.subset_of(r.1)
    &&& forall|i: int, j: int| st.0.len() <= i < j < r.0.len() ==> r.0[i] != r.0[j]
    &&& forall|i: int|
        st.0.len() <= i < r.0.len() ==> !st.1.contains(#[trigger] r.0[i]) && r.1.contains(r.0[i])
    &&& forall|x: u32|
        #[trigger] r.1.contains(x) && !st.1.contains(x) ==> exists|i: int|
            st.0.len() <= i < r.0.len() && r.0[i] == x
}

proof fn lemma_extends_refl(st: (Seq<u32>, Set<u32>))
    ensures
        extends(st, st),
{
    assert(st.0.subrange(0, st.0.len() as int) =~= st.0);
}

proof fn lemma_extends_trans(a: (Seq<u32>, Set<u32>), b: (Seq<u32>, Set<u32>), c: (Seq<u32>, Set<u32>))
    requires
        extends(a, b),
        extends(b, c),
    ensures
        extends(a, c),
{
    let la = a.0.len() as int;
    let lb = b.0.len() as int;
    assert forall|i: int| 0 <= i < lb implies c.0[i] == b.0[i] by {
        assert(c.0.subrange(0, lb)[i] == c.0[i]);
    }
    assert(c.0.subrange(0, la) =~= a.0) by {
        assert forall|i: int| 0 <= i < la implies c.0.subrange(0, la)[i] == a.0[i] by {
            assert(b.0.subrange(0, la)[i] == b.0[i]);
        }
    }
    assert forall|i: int, j: int| la <= i < j < c.0.len() implies c.0[i] != c.0[j] by {
        if j < lb {
            assert(b.0[i] != b.0[j]);
        } else if i >= lb {
        } else {
            assert(b.1.contains(b.0[i]));
            assert(!b.1.contains(c.0[j]));
        }
    }
    assert forall|i: int| la <= i < c.0.len() implies !a.1.contains(#[trigger] c.0[i]) && c.1.contains(
        c.0[i],
    ) by {
        if i < lb {
            assert(!a.1.contains(b.0[i]) && b.1.contains(b.0[i]));
        } else {
            assert(!b.1.contains(c.0[i]));
        }
    }
    assert forall|x: u32| #[trigger] c.1.contains(x) && !a.1.contains(x) implies exists|i: int|
        la <= i < c.0.len() && c.0[i] == x by {
        if b.1.contains(x) {
            let i = choose|i: int| la <= i < lb && b.0[i] == x;
            assert(c.0[i] == x);
        } else {
            let i = choose|i: int| lb <= i < c.0.len() && c.0[i] == x;
        }
    }
}

/// A walk appends each id it sees once, only ids not seen before.
pub proof fn lemma_visit_extends(t: Tree, items: Seq<Tree>, st: (Seq<u32>, Set<u32>), leaves_last: bool)
    ensures
        extends(st, visit(t, items, st, leaves_last)),
    decreases pending(items, st.1).len(), node_count(t), 1nat,
{
    match t {
        Tree::ValUse { id, .. } => {
            if def_map(items).contains_key(id) && !st.1.contains(id) {
                lemma_pending_insert(items, st.1, id);
                let st1 = (st.0, st.1.insert(id));
                let inner = visit(rhs_of(def_map(items)[id]), items, st1, false);
                lemma_visit_extends(rhs_of(def_map(items)[id]), items, st1, false);
                let r = (inner.0.push(id), inner.1);
                let l = st.0.len() as int;
                assert(r.0.subrange(0, l) =~= st.0) by {
                    assert forall|i: int| 0 <= i < l implies r.0.subrange(0, l)[i] == st.0[i] by {
                        assert(inner.0.subrange(0, l)[i] == inner.0[i]);
                    }
                }
                assert(inner.1.contains(id));
                assert forall|x: u32| #[trigger] r.1.contains(x) && !st.1.contains(x) implies exists|
                    i: int,
                | l <= i < r.0.len() && r.0[i] == x by {
                    if x == id {
                        assert(r.0[r.0.len() - 1] == id);
                    } else {
                        let i = choose|i: int| l <= i < inner.0.len() && inner.0[i] == x;
                        assert(r.0[i] == x);
                    }
                }
                assert forall|i: int, j: int| l <= i < j < r.0.len() implies r.0[i] != r.0[j] by {
                    if j == r.0.len() - 1 {
                        assert(!st1.1.contains(inner.0[i]));
                    } else {
                        assert(inner.0[i] != inner.0[j]);
                    }
                }
                assert forall|i: int| l <= i < r.0.len() implies !st.1.contains(#[trigger] r.0[i])
                    && r.1.contains(r.0[i]) by {
                    if i < r.0.len() - 1 {
                        assert(r.0[i] == inner.0[i]);
                        assert(!st1.1.contains(inner.0[i]));
                    }
                }
            } else {
                lemma_extends_refl(st);
            }
        },
        _ => {
            lemma_walk_order_count(t, leaves_last);
            let wo = walk_order(t, leaves_last);
            assert(wo.subrange(0, wo.len() as int) =~= wo);
            lemma_visit_seq_extends(wo, wo.len() as int, items, st, leaves_last);
        },
    }
}

pub proof fn lemma_visit_seq_extends(
    s: Seq<Tree>,
    k: int,
    items: Seq<Tree>,
    st: (Seq<u32>, Set<u32>),
    leaves_last: bool,
)
    ensures
        extends(st, visit_seq(s, k, items, st, leaves_last)),
    decreases pending(items, st.1).len(), node_count_seq(s.subrange(0, k)), 2nat,
{
    if k > 0 && k <= s.len() {
        lemma_prefix_step(s, k - 1);
        lemma_count_positive(s[k - 1]);
        lemma_visit_seq_grows(s, k, items, st, leaves_last);
        lemma_visit_seq_grows(s, k - 1, items, st, leaves_last);
        lemma_visit_seq_extends(s, k - 1, items, st, leaves_last);
        let prev = visit_seq(s, k - 1, items, st, leaves_last);
        lemma_pending_mono(items, st.1, prev.1);
        lemma_visit_extends(s[k - 1], items, prev, leaves_last);
        lemma_extends_trans(st, prev, visit(s[k - 1], items, prev, leaves_last));
    } else {
        lemma_extends_refl(st);
    }
}

/// Recording ids appends each new one once, and sees all of them.
pub proof fn lemma_sweep_extends(ids: Seq<u32>, st: (Seq<u32>, Set<u32>))
    ensures
        extends(st, sweep(ids, st)),
        forall|k: int| 0 <= k < ids.len() ==> sweep(ids, st).1.contains(#[trigger] ids[k]),
    decreases ids.len(),
{
    if ids.len() == 0 {
        lemma_extends_refl(st);
    } else {
        let d = ids.drop_last();
        lemma_sweep_extends(d, st);
        let prev = sweep(d, st);
        let r = note_id(prev, ids.last());
        if !prev.1.contains(ids.last()) {
            assert(r.0.subrange(0, prev.0.len() as int) =~= prev.0);
            assert(r.0[r.0.len() - 1] == ids.last());
        } else {
            lemma_extends_refl(prev);
        }
        lemma_extends_trans(st, prev, r);
        assert forall|k: int| 0 <= k < ids.len() implies r.1.contains(#[trigger] ids[k]) by {
            if k < ids.len() - 1 {
                assert(prev.1.contains(d[k]));
            }
        }
    }
}

proof fn lemma_position_map_at(s: Seq<u32>)
    requires
        s.no_duplicates(),
    ensures
        forall|i: int| 0 <= i < s.len() ==> #[trigger] position_map(s)[s[i]] == (i + 1) as u32,
    decreases s.len(),
{
    if s.len() > 0 {
        let d = s.drop_last();
        assert(d.no_duplicates());
        lemma_position_map_at(d);
        lemma_position_map_dom(d);
        assert(position_map(s) == position_map(d).insert(s.last(), s.len() as u32));
        assert forall|i: int| 0 <= i < s.len() implies #[trigger] position_map(s)[s[i]] == (i + 1) as u32 by {
            if i < s.len() - 1 {
                assert(s[i] != s.last());
                assert(d[i] == s[i]);
                assert(position_map(d).contains_key(d[i]));
                assert(position_map(d)[d[i]] == (i + 1) as u32);
            }
        }
    }
}

/// The new order of a block's ids names each id once and every ValDef,
/// ValUse and FuncValue-argument id of the block; the renumbering gives
/// the id in position `i` the number `i + 1` (as a `u32`) and leaves no
/// id of the block out.
pub proof fn law_schedule_covers_once(items: Seq<Tree>, result: Tree)
    ensures
        ({
            let t = Tree::Block { items, result: Box::new(result) };
            let sch = schedule_ids(items, result, t);
            &&& sch.no_duplicates()
            &&& forall|k: int| 0 <= k < tree_ids(t).len() ==> sch.contains(#[trigger] tree_ids(t)[k])
            &&& forall|i: int| 0 <= i < sch.len() ==> #[trigger] position_map(sch)[sch[i]] == (i + 1) as u32
            &&& forall|x: u32| #[trigger] position_map(sch).contains_key(x) <==> sch.contains(x)
        }),
{
    let t = Tree::Block { items, result: Box::new(result) };
    let st0 = (Seq::<u32>::empty(), Set::<u32>::empty());
    let st1 = if strip_sigma(result) is If {
        visit(result, items, st0, true)
    } else {
        st0
    };
    if strip_sigma(result) is If {
        lemma_visit_extends(result, items, st0, true);
    } else {
        lemma_extends_refl(st0);
    }
    let st2 = visit(result, items, st1, false);
    lemma_visit_extends(result, items, st1, false);
    lemma_extends_trans(st0, st1, st2);
    let st3 = sweep(tree_ids(t), st2);
    lemma_sweep_extends(tree_ids(t), st2);
    lemma_extends_trans(st0, st2, st3);
    let sch = st3.0;
    assert(sch.no_duplicates()) by {
        assert forall|i: int, j: int| 0 <= i < sch.len() && 0 <= j < sch.len() && i != j implies sch[i]
            != sch[j] by {
            if i < j {
                assert(sch[i] != sch[j]);
            } else {
                assert(sch[j] != sch[i]);
            }
        }
    }
    assert forall|k: int| 0 <= k < tree_ids(t).len() implies sch.contains(#[trigger] tree_ids(t)[k]) by {
        assert(st3.1.contains(tree_ids(t)[k]));
        let i = choose|i: int| 0 <= i < sch.len() && sch[i] == tree_ids(t)[k];
    }
    lemma_position_map_at(sch);
    lemma_position_map_dom(sch);
}

} // verus!
