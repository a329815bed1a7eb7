use vstd::prelude::*;

use crate::dag::{expr_type, type_of, TypeTags};
use crate::max_id::{find_max_val_id, occurs_id};
use crate::node::{clone_node, node_view, nodes_view, Node, OpKind, Tree};
use crate::topo::{topo_order, topo_order_valdefs};
use crate::walk::{replace_all, replaced};

verus! {

/// `r` is the largest id that the id search reaches in `t` (0 when there
/// is none), as `find_max_val_id` states.
pub open spec fn max_id_is(t: Tree, r: u32) -> bool {
    &&& forall|x: u32| occurs_id(t, x) ==> x <= r
    &&& r == 0 || occurs_id(t, r)
}

/// The largest id of `t`, as `max_id_is` says.
pub open spec fn max_id(t: Tree) -> u32 {
    choose|r: u32| max_id_is(t, r)
}

pub proof fn lemma_max_id_unique(t: Tree, a: u32, b: u32)
    requires
        max_id_is(t, a),
        max_id_is(t, b),
    ensures
        a == b,
{
    if a != 0 {
        assert(a <= b);
    }
    if b != 0 {
        assert(b <= a);
    }
}

/// The ValUse that stands for the `i`-th duplicate, numbered from `next`.
pub open spec fn dup_use(dups: Seq<Tree>, i: int, next: u32, ops: Seq<u32>) -> Tree {
    Tree::ValUse { id: (next + i) as u32, tpe: type_of(dups[i], ops) }
}

/// `t` with the first `k` duplicates replaced in turn by their ValUses.
pub open spec fn dup_replaced(t: Tree, dups: Seq<Tree>, k: int, next: u32, ops: Seq<u32>) -> Tree
    decreases k,
{
    if k <= 0 || k > dups.len() {
        t
    } else {
        replaced(dup_replaced(t, dups, k - 1, next, ops), dups[k - 1], dup_use(dups, k - 1, next, ops))
    }
}

/// A ValDef for each duplicate, numbered from `next`.
pub open spec fn fresh_defs(dups: Seq<Tree>, next: u32) -> Seq<Tree> {
    Seq::new(dups.len(), |i: int| Tree::ValDef { id: (next + i) as u32, rhs: Box::new(dups[i]) })
}

/// `s` with all duplicates replaced in each tree.
pub open spec fn dup_replaced_seq(s: Seq<Tree>, dups: Seq<Tree>, next: u32, ops: Seq<u32>) -> Seq<Tree> {
    Seq::new(s.len(), |j: int| dup_replaced(s[j], dups, dups.len() as int, next, ops))
}

/// A `sigmaProp` over a block or an If: the extraction goes inside it.
pub open spec fn sigma_over_scope(t: Tree) -> bool {
    match t {
        Tree::Op { kind, children, .. } => kind == OpKind::BoolToSigmaProp && children.len() == 1 && (
        children[0] is Block || children[0] is If),
        _ => false,
    }
}

/// The duplicates `dups` extracted as ValDefs numbered from one past the
/// largest id: into a block (the new ValDefs first, then its items with
/// the duplicates replaced, in `topo_order`); through a `sigmaProp` over a
/// block or an If; any other tree wrapped in a new block of the new
/// ValDefs.
pub open spec fn inner_extracted(t: Tree, dups: Seq<Tree>, ops: Seq<u32>) -> Tree
    decreases t,
{
    if sigma_over_scope(t) {
        match t {
            Tree::Op { kind, payload, children } => Tree::Op {
                kind,
                payload,
                children: seq![inner_extracted(children[0], dups, ops)],
            },
            _ => t,
        }
    } else {
        let next = (max_id(t) + 1) as u32;
        match t {
            Tree::Block { items, result } => Tree::Block {
                items: topo_order(fresh_defs(dups, next) + dup_replaced_seq(items, dups, next, ops)),
                result: Box::new(dup_replaced(*result, dups, dups.len() as int, next, ops)),
            },
            _ => Tree::Block {
                items: fresh_defs(dups, next),
                result: Box::new(dup_replaced(t, dups, dups.len() as int, next, ops)),
            },
        }
    }
}

/// The fresh ids for `n` duplicates fit in `u32` where `inner_extracted`
/// numbers them.
pub open spec fn extract_fits(t: Tree, n: nat) -> bool
    decreases t,
{
    if sigma_over_scope(t) {
        match t {
            Tree::Op { children, .. } => extract_fits(children[0], n),
            _ => true,
        }
    } else {
        max_id(t) + 1 + n <= u32::MAX
    }
}

/// `expr` and each of `items` with the duplicates replaced, and the new
/// ValDefs.
fn replace_dups(
    items: Vec<Node>,
    result: Node,
    dups: &Vec<Node>,
    next: u32,
    tags: &TypeTags,
) -> (r: (Vec<Node>, Node, Vec<Node>))
    requires
        next + dups@.len() <= u32::MAX,
    ensures
        nodes_view(r.0@) == dup_replaced_seq(nodes_view(items@), nodes_view(dups@), next, tags.op_types@),
        r.1@ == dup_replaced(result@, nodes_view(dups@), dups@.len() as int, next, tags.op_types@),
        nodes_view(r.2@) == fresh_defs(nodes_view(dups@), next),
{
    let ghost ds = nodes_view(dups@);
    let ghost ops = tags.op_types@;
    let ghost s0 = nodes_view(items@);
    let ghost r0 = result@;
    let mut cur = items;
    let mut res = result;
    let mut defs: Vec<Node> = Vec::new();
    let mut id = next;
    let mut i: usize = 0;
    while i < dups.len()
        invariant
            0 <= i <= dups@.len(),
            ds == nodes_view(dups@),
            ops == tags.op_types@,
            next + dups@.len() <= u32::MAX,
            id == next + i,
            cur@.len() == s0.len(),
            forall|j: int|
                0 <= j < s0.len() ==> node_view(#[trigger] cur@[j]) == dup_replaced(s0[j], ds, i as int, next, ops),
            res@ == dup_replaced(r0, ds, i as int, next, ops),
            defs@.len() == i,
            nodes_view(defs@) == fresh_defs(ds.subrange(0, i as int), next),
        decreases dups.len() - i,
    {
        assert(ds[i as int] == node_view(dups@[i as int]));
        let d = &dups[i];
        let u = Node::ValUse { id, tpe: expr_type(d, tags) };
        assert(u@ == dup_use(ds, i as int, next, ops));
        let mut next_items: Vec<Node> = Vec::new();
        let mut q: usize = 0;
        while q < cur.len()
            invariant
                0 <= q <= cur@.len(),
                next_items@.len() == q,
                forall|p: int|
                    0 <= p < q ==> node_view(#[trigger] next_items@[p]) == replaced(node_view(cur@[p]), d@, u@),
            decreases cur.len() - q,
        {
            next_items.push(replace_all(&cur[q], d, &u));
            q += 1;
        }
        let ghost before = cur@;
        cur = next_items;
        res = replace_all(&res, d, &u);
        let ghost dv = defs@;
        let nd = Node::ValDef { id, rhs: Box::new(clone_node(d)) };
        assert(nd@ == (Tree::ValDef { id: (next + i) as u32, rhs: Box::new(ds[i as int]) }));
        defs.push(nd);
        assert(nodes_view(defs@) =~= fresh_defs(ds.subrange(0, i + 1), next)) by {
            assert(defs@.len() == i + 1);
            assert forall|k: int| 0 <= k < i + 1 implies nodes_view(defs@)[k] == fresh_defs(
                ds.subrange(0, i + 1),
                next,
            )[k] by {
                if k < i {
                    assert(defs@[k] == dv[k]);
                    assert(nodes_view(dv)[k] == fresh_defs(ds.subrange(0, i as int), next)[k]);
                } else {
                    assert(defs@[k] == nd);
                }
            }
        }
        assert forall|j: int| 0 <= j < s0.len() implies node_view(#[trigger] cur@[j]) == dup_replaced(
            s0[j],
            ds,
            i + 1,
            next,
            ops,
        ) by {
            assert(node_view(cur@[j]) == replaced(node_view(before[j]), d@, u@));
        }
        id = id + 1;
        i += 1;
    }
    assert(ds.subrange(0, ds.len() as int) =~= ds);
    assert(nodes_view(cur@) =~= dup_replaced_seq(s0, ds, next, ops));
    (cur, res, defs)
}

/// Extracts `duplicates` as ValDefs of fresh ids, as `inner_extracted`
/// says; the fresh ids must fit in `u32`.
pub fn extract_inner_vals(expr: Node, duplicates: Vec<Node>, tags: &TypeTags) -> (r: Node)
    requires
        extract_fits(expr@, duplicates@.len()),
    ensures
        r@ == inner_extracted(expr@, nodes_view(duplicates@), tags.op_types@),
    decreases expr,
{
    let ghost t = expr@;
    let ghost ds = nodes_view(duplicates@);
    let wraps = match &expr {
        Node::Op { kind, payload, children } => {
            assert(t == Tree::Op { kind: *kind, payload: *payload, children: nodes_view(children@) });
            if *kind == OpKind::BoolToSigmaProp && children.len() == 1 {
                assert(nodes_view(children@)[0] == node_view(children@[0]));
                match &children[0] {
                    Node::Block { .. } => true,
                    Node::If { .. } => true,
                    _ => false,
                }
            } else {
                false
            }
        },
        _ => false,
    };
    assert(wraps == sigma_over_scope(t));
    if wraps {
        match expr {
            Node::Op { kind, payload, children } => {
                assert(t == Tree::Op { kind, payload, children: nodes_view(children@) });
                let mut children = children;
                let inner = children.pop().unwrap();
                assert(node_view(inner) == nodes_view(children@.push(inner))[0]);
                let e = extract_inner_vals(inner, duplicates, tags);
                let mut out: Vec<Node> = Vec::new();
                out.push(e);
                assert(nodes_view(out@) =~= seq![e@]);
                Node::Op { kind, payload, children: out }
            },
            other => other,
        }
    } else {
        let m = find_max_val_id(&expr);
        proof {
            let c = choose|r: u32| max_id_is(t, r);
            assert(max_id_is(t, m));
            lemma_max_id_unique(t, c, m);
        }
        let next = m + 1;
        match expr {
            Node::Block { items, result } => {
                assert(t == Tree::Block { items: nodes_view(items@), result: Box::new(node_view(*result)) });
                let (new_items, new_result, mut defs) = replace_dups(items, *result, &duplicates, next, tags);
                let mut rest = new_items;
                let ghost dv = defs@;
                let ghost rv = rest@;
                defs.append(&mut rest);
                assert(nodes_view(defs@) =~= nodes_view(dv) + nodes_view(rv));
                let ordered = topo_order_valdefs(defs);
                Node::Block { items: ordered, result: Box::new(new_result) }
            },
            other => {
                let (_, new_result, defs) = replace_dups(Vec::new(), other, &duplicates, next, tags);
                Node::Block { items: defs, result: Box::new(new_result) }
            },
        }
    }
}

} // verus!
