use std::collections::HashSet;

use vstd::prelude::*;

use crate::dag::{expr_type, type_of, TypeTags};
use crate::node::{clone_node, node_view, nodes_view, Node, OpKind, Tree};
use crate::walk::{replace_all, replaced};

verus! {

/// A stable link of an access chain: an indexing, by a constant, of a
/// global variable or a ValUse; or a property read of a ValUse.
pub open spec fn chain_rhs(t: Tree) -> bool {
    match t {
        Tree::Op { kind, children, .. } => if kind == OpKind::ByIndex {
            children.len() >= 2 && (match children[0] {
                Tree::Op { kind: k0, .. } => k0 == OpKind::GlobalVars,
                Tree::ValUse { .. } => true,
                _ => false,
            }) && (match children[1] {
                Tree::Op { kind: k1, .. } => k1 == OpKind::Const,
                _ => false,
            })
        } else if kind == OpKind::PropertyCall {
            children.len() >= 1 && children[0] is ValUse
        } else {
            false
        },
        _ => false,
    }
}

/// The ValDefs among the first `k` items with a chain-link right-hand side
/// and an id not in `applied`: position, id, right-hand side.
pub open spec fn chain_snapshot(items: Seq<Tree>, k: int, applied: Set<u32>) -> Seq<(int, u32, Tree)>
    decreases k,
{
    if k <= 0 || k > items.len() {
        Seq::empty()
    } else {
        let s = chain_snapshot(items, k - 1, applied);
        match items[k - 1] {
            Tree::ValDef { id, rhs } => if chain_rhs(*rhs) && !applied.contains(id) {
                s.push((k - 1, id, *rhs))
            } else {
                s
            },
            _ => s,
        }
    }
}

/// Every occurrence of the link `e` outside its own ValDef replaced by a
/// ValUse of it, and its id marked applied.
pub open spec fn apply_link(
    st: (Seq<Tree>, Tree, Set<u32>),
    e: (int, u32, Tree),
    ops: Seq<u32>,
) -> (Seq<Tree>, Tree, Set<u32>) {
    let u = Tree::ValUse { id: e.1, tpe: type_of(e.2, ops) };
    (
        Seq::new(
            st.0.len(),
            |k: int|
                if k == e.0 {
                    st.0[k]
                } else {
                    replaced(st.0[k], e.2, u)
                },
        ),
        replaced(st.1, e.2, u),
        st.2.insert(e.1),
    )
}

/// `apply_link` for the first `k` links of `snap` in turn.
pub open spec fn apply_links(
    st: (Seq<Tree>, Tree, Set<u32>),
    snap: Seq<(int, u32, Tree)>,
    k: int,
    ops: Seq<u32>,
) -> (Seq<Tree>, Tree, Set<u32>)
    decreases k,
{
    if k <= 0 || k > snap.len() {
        st
    } else {
        apply_link(apply_links(st, snap, k - 1, ops), snap[k - 1], ops)
    }
}

/// At most `rounds` rounds, each applying the links that stand at its
/// start; the rounds stop when none is left.
pub open spec fn chain_rounds(
    st: (Seq<Tree>, Tree, Set<u32>),
    rounds: nat,
    ops: Seq<u32>,
) -> (Seq<Tree>, Tree, Set<u32>)
    decreases rounds,
{
    if rounds == 0 {
        st
    } else {
        let snap = chain_snapshot(st.0, st.0.len() as int, st.2);
        if snap.len() == 0 {
            st
        } else {
            chain_rounds(apply_links(st, snap, snap.len() as int, ops), (rounds - 1) as nat, ops)
        }
    }
}

/// The number of rounds for `n` items: one more than the items, at most
/// `usize::MAX`.
pub open spec fn round_cap(n: nat) -> nat {
    if n < usize::MAX {
        n + 1
    } else {
        n
    }
}

/// A block with its chain links propagated, as `chain_rounds` says from no
/// applied id; anything else stays.
pub open spec fn chain_rewritten(t: Tree, ops: Seq<u32>) -> Tree {
    match t {
        Tree::Block { items, result } => {
            let r = chain_rounds((items, *result, Set::empty()), round_cap(items.len()), ops);
            Tree::Block { items: r.0, result: Box::new(r.1) }
        },
        _ => t,
    }
}

/// Whether `rhs` is a chain link, as `chain_rhs` says.
fn is_chain_rhs(rhs: &Node) -> (r: bool)
    ensures
        r == chain_rhs(rhs@),
{
    match rhs {
        Node::Op { kind, payload, children } => {
            let ghost cs = nodes_view(children@);
            assert(rhs@ == Tree::Op { kind: *kind, payload: *payload, children: cs });
            if *kind == OpKind::ByIndex {
                if children.len() < 2 {
                    return false;
                }
                assert(cs[0] == node_view(children@[0]));
                assert(cs[1] == node_view(children@[1]));
                let input_ok = match &children[0] {
                    Node::Op { kind: k0, .. } => *k0 == OpKind::GlobalVars,
                    Node::ValUse { .. } => true,
                    _ => false,
                };
                let index_ok = match &children[1] {
                    Node::Op { kind: k1, .. } => *k1 == OpKind::Const,
                    _ => false,
                };
                input_ok && index_ok
            } else if *kind == OpKind::PropertyCall {
                if children.len() < 1 {
                    return false;
                }
                assert(cs[0] == node_view(children@[0]));
                match &children[0] {
                    Node::ValUse { .. } => true,
                    _ => false,
                }
            } else {
                false
            }
        },
        _ => false,
    }
}

/// The links of a round, as `chain_snapshot` says.
fn snapshot(items: &Vec<Node>, applied: &HashSet<u32>) -> (r: Vec<(usize, u32, Node)>)
    ensures
        r@.len() == chain_snapshot(nodes_view(items@), items@.len() as int, applied@).len(),
        forall|j: int|
            0 <= j < r@.len() ==> {
                let e = chain_snapshot(nodes_view(items@), items@.len() as int, applied@)[j];
                &&& (#[trigger] r@[j]).0 as int == e.0
                &&& r@[j].1 == e.1
                &&& r@[j].2@ == e.2
            },
{
    let ghost s = nodes_view(items@);
    let mut out: Vec<(usize, u32, Node)> = Vec::new();
    let mut i: usize = 0;
    while i < items.len()
        invariant
            0 <= i <= items@.len(),
            s == nodes_view(items@),
            out@.len() == chain_snapshot(s, i as int, applied@).len(),
            forall|j: int|
                0 <= j < out@.len() ==> {
                    let e = chain_snapshot(s, i as int, applied@)[j];
                    &&& (#[trigger] out@[j]).0 as int == e.0
                    &&& out@[j].1 == e.1
                    &&& out@[j].2@ == e.2
                },
        decreases items.len() - i,
    {
        assert(s[i as int] == node_view(items@[i as int]));
        if let Node::ValDef { id, rhs } = &items[i] {
            assert(s[i as int] == Tree::ValDef { id: *id, rhs: Box::new(node_view(**rhs)) });
            if is_chain_rhs(rhs) && !applied.contains(id) {
                out.push((i, *id, clone_node(rhs)));
            }
        }
        i += 1;
    }
    out
}

/// Propagates the outer block's chain links, as `chain_rewritten` says:
/// round after round, each ValDef of the block whose right-hand side is a
/// chain link and was not applied yet has every other occurrence of that
/// right-hand side, in the other items and the result, replaced by a
/// ValUse of it; the rounds end when none is left, after at most one more
/// round than there are items.
pub fn rewrite_byindex_globalvars_chain(expr: Node, tags: &TypeTags) -> (r: Node)
    ensures
        r@ == chain_rewritten(expr@, tags.op_types@),
{
    match expr {
        Node::Block { items, result } => {
            let ghost ops = tags.op_types@;
            let ghost t = Node::Block { items, result }@;
            let mut items = items;
            let mut result = *result;
            let mut applied: HashSet<u32> = HashSet::new();
            let n = items.len();
            let rounds: usize = if n < usize::MAX {
                n + 1
            } else {
                n
            };
            let ghost st0 = (nodes_view(items@), result@, applied@);
            assert(applied@ == Set::<u32>::empty());
            let mut round: usize = 0;
            let mut done = false;
            while round < rounds && !done
                invariant
                    0 <= round <= rounds,
                    rounds == round_cap(n as nat),
                    ops == tags.op_types@,
                    !done ==> chain_rounds(st0, rounds as nat, ops) == chain_rounds(
                        (nodes_view(items@), result@, applied@),
                        (rounds - round) as nat,
                        ops,
                    ),
                    done ==> chain_rounds(st0, rounds as nat, ops) == (
                        nodes_view(items@),
                        result@,
                        applied@,
                    ),
                decreases rounds - round + (if done {
                    0int
                } else {
                    1int
                }),
            {
                let snap = snapshot(&items, &applied);
                if snap.len() == 0 {
                    done = true;
                    continue;
                }
                let ghost st = (nodes_view(items@), result@, applied@);
                let ghost sn = chain_snapshot(st.0, st.0.len() as int, st.2);
                let mut k: usize = 0;
                while k < snap.len()
                    invariant
                        0 <= k <= snap@.len(),
                        snap@.len() == sn.len(),
                        forall|j: int|
                            0 <= j < snap@.len() ==> {
                                &&& (#[trigger] snap@[j]).0 as int == sn[j].0
                                &&& snap@[j].1 == sn[j].1
                                &&& snap@[j].2@ == sn[j].2
                            },
                        ops == tags.op_types@,
                        (nodes_view(items@), result@, applied@) == apply_links(st, sn, k as int, ops),
                    decreases snap.len() - k,
                {
                    let def_idx = snap[k].0;
                    let val_id = snap[k].1;
                    let rhs = &snap[k].2;
                    applied.insert(val_id);
                    let u = Node::ValUse { id: val_id, tpe: expr_type(rhs, tags) };
                    let ghost iv = nodes_view(items@);
                    let mut next: Vec<Node> = Vec::new();
                    let mut q: usize = 0;
                    while q < items.len()
                        invariant
                            0 <= q <= items@.len(),
                            iv == nodes_view(items@),
                            next@.len() == q,
                            forall|p: int|
                                0 <= p < q ==> node_view(#[trigger] next@[p]) == (if p == def_idx {
                                    iv[p]
                                } else {
                                    replaced(iv[p], rhs@, u@)
                                }),
                        decreases items.len() - q,
                    {
                        assert(iv[q as int] == node_view(items@[q as int]));
                        if q == def_idx {
                            next.push(clone_node(&items[q]));
                        } else {
                            next.push(replace_all(&items[q], rhs, &u));
                        }
                        q += 1;
                    }
                    result = replace_all(&result, rhs, &u);
                    items = next;
                    assert(nodes_view(items@) =~= apply_link(
                        apply_links(st, sn, k as int, ops),
                        sn[k as int],
                        ops,
                    ).0);
                    k += 1;
                }
                round += 1;
            }
            assert(t == Tree::Block { items: st0.0, result: Box::new(st0.1) });
            Node::Block { items, result: Box::new(result) }
        },
        other => other,
    }
}


/// The id a tree defines when it is a ValDef.
pub open spec fn def_id_at(t: Tree) -> Option<u32> {
    match t {
        Tree::ValDef { id, .. } => Some(id),
        _ => None,
    }
}

/// The ids of the ValDefs among `s`.
pub open spec fn def_set(s: Seq<Tree>) -> Set<u32>
    decreases s.len(),
{
    if s.len() == 0 {
        Set::empty()
    } else {
        match def_id_at(s.last()) {
            Some(id) => def_set(s.drop_last()).insert(id),
            None => def_set(s.drop_last()),
        }
    }
}

/// The chain links of a block not yet applied.
pub open spec fn chain_potential(st: (Seq<Tree>, Tree, Set<u32>)) -> nat {
    def_set(st.0).difference(st.2).len()
}

proof fn lemma_def_set_facts(s: Seq<Tree>)
    ensures
        def_set(s).finite(),
        def_set(s).len() <= s.len(),
        forall|x: u32| #[trigger] def_set(s).contains(x) <==> exists|k: int| 0 <= k < s.len() && def_id_at(s[k]) == Some(x),
    decreases s.len(),
{
    if s.len() > 0 {
        let d = s.drop_last();
        lemma_def_set_facts(d);
        assert forall|x: u32| #[trigger] def_set(s).contains(x) <==> exists|k: int|
            0 <= k < s.len() && def_id_at(s[k]) == Some(x) by {
            if def_set(d).contains(x) {
                let k = choose|k: int| 0 <= k < d.len() && def_id_at(d[k]) == Some(x);
                assert(def_id_at(s[k]) == Some(x));
            }
            if exists|k: int| 0 <= k < s.len() && def_id_at(s[k]) == Some(x) {
                let k = choose|k: int| 0 <= k < s.len() && def_id_at(s[k]) == Some(x);
                if k < s.len() - 1 {
                    assert(d[k] == s[k]);
                }
            }
        }
    }
}

proof fn lemma_def_set_same(a: Seq<Tree>, b: Seq<Tree>)
    requires
        a.len() == b.len(),
        forall|k: int| 0 <= k < a.len() ==> def_id_at(#[trigger] a[k]) == def_id_at(b[k]),
    ensures
        def_set(a) == def_set(b),
{
    lemma_def_set_facts(a);
    lemma_def_set_facts(b);
    assert forall|x: u32| def_set(a).contains(x) <==> def_set(b).contains(x) by {
        if def_set(a).contains(x) {
            let k = choose|k: int| 0 <= k < a.len() && def_id_at(a[k]) == Some(x);
            assert(def_id_at(b[k]) == Some(x));
        }
        if def_set(b).contains(x) {
            let k = choose|k: int| 0 <= k < b.len() && def_id_at(b[k]) == Some(x);
            assert(def_id_at(a[k]) == Some(x));
        }
    }
    assert(def_set(a) =~= def_set(b));
}

proof fn lemma_snapshot_entries(items: Seq<Tree>, k: int, applied: Set<u32>)
    requires
        0 <= k <= items.len(),
    ensures
        forall|j: int|
            0 <= j < chain_snapshot(items, k, applied).len() ==> {
                let e = #[trigger] chain_snapshot(items, k, applied)[j];
                &&& 0 <= e.0 < items.len()
                &&& def_id_at(items[e.0]) == Some(e.1)
                &&& !applied.contains(e.1)
                &&& chain_rhs(e.2)
            },
    decreases k,
{
    if k > 0 {
        lemma_snapshot_entries(items, k - 1, applied);
    }
}

/// Applying links keeps every position's defined id and only adds the
/// links' ids to the applied ones.
proof fn lemma_apply_links_shape(
    st: (Seq<Tree>, Tree, Set<u32>),
    snap: Seq<(int, u32, Tree)>,
    k: int,
    ops: Seq<u32>,
)
    requires
        0 <= k <= snap.len(),
        forall|j: int| 0 <= j < snap.len() ==> chain_rhs(#[trigger] snap[j].2),
    ensures
        apply_links(st, snap, k, ops).0.len() == st.0.len(),
        forall|p: int|
            0 <= p < st.0.len() ==> def_id_at(#[trigger] apply_links(st, snap, k, ops).0[p]) == def_id_at(
                st.0[p],
            ),
        forall|x: u32| #[trigger]
            apply_links(st, snap, k, ops).2.contains(x) <==> (st.2.contains(x) || exists|j: int|
                0 <= j < k && snap[j].1 == x),
    decreases k,
{
    if k > 0 {
        lemma_apply_links_shape(st, snap, k - 1, ops);
        let prev = apply_links(st, snap, k - 1, ops);
        let e = snap[k - 1];
        assert(chain_rhs(e.2));
        assert forall|p: int| 0 <= p < st.0.len() implies def_id_at(
            #[trigger] apply_links(st, snap, k, ops).0[p],
        ) == def_id_at(st.0[p]) by {
            if p != e.0 {
                let t = prev.0[p];
                let u = Tree::ValUse { id: e.1, tpe: type_of(e.2, ops) };
                assert(apply_links(st, snap, k, ops).0[p] == replaced(t, e.2, u));
                match t {
                    Tree::ValDef { id, rhs } => {
                        assert(t != e.2);
                    },
                    _ => {},
                }
            }
        }
        assert forall|x: u32| #[trigger] apply_links(st, snap, k, ops).2.contains(x) <==> (
        st.2.contains(x) || exists|j: int| 0 <= j < k && snap[j].1 == x) by {
            if exists|j: int| 0 <= j < k - 1 && snap[j].1 == x {
                let j = choose|j: int| 0 <= j < k - 1 && snap[j].1 == x;
                assert(0 <= j < k && snap[j].1 == x);
            }
            if exists|j: int| 0 <= j < k && snap[j].1 == x {
                let j = choose|j: int| 0 <= j < k && snap[j].1 == x;
                if j < k - 1 {
                    assert(0 <= j < k - 1 && snap[j].1 == x);
                }
            }
        }
    }
}

proof fn lemma_round_shrinks(st: (Seq<Tree>, Tree, Set<u32>), ops: Seq<u32>)
    requires
        st.2.subset_of(def_set(st.0)),
        chain_snapshot(st.0, st.0.len() as int, st.2).len() > 0,
    ensures
        ({
            let snap = chain_snapshot(st.0, st.0.len() as int, st.2);
            let nx = apply_links(st, snap, snap.len() as int, ops);
            &&& nx.2.subset_of(def_set(nx.0))
            &&& chain_potential(nx) < chain_potential(st)
        }),
{
    let snap = chain_snapshot(st.0, st.0.len() as int, st.2);
    let nx = apply_links(st, snap, snap.len() as int, ops);
    lemma_snapshot_entries(st.0, st.0.len() as int, st.2);
    assert forall|j: int| 0 <= j < snap.len() implies chain_rhs(#[trigger] snap[j].2) by {
        assert(chain_rhs(snap[j].2));
    }
    lemma_apply_links_shape(st, snap, snap.len() as int, ops);
    lemma_def_set_same(st.0, nx.0);
    lemma_def_set_facts(st.0);
    let d = def_set(st.0);
    assert forall|j: int| 0 <= j < snap.len() implies d.contains(#[trigger] snap[j].1) by {
        let e = snap[j];
        assert(def_id_at(st.0[e.0]) == Some(e.1));
    }
    assert(nx.2.subset_of(d)) by {
        assert forall|x: u32| nx.2.contains(x) implies d.contains(x) by {
            if !st.2.contains(x) {
                let j = choose|j: int| 0 <= j < snap.len() && snap[j].1 == x;
                assert(d.contains(snap[j].1));
            }
        }
    }
    let x0 = snap[0].1;
    assert(!st.2.contains(x0));
    assert(nx.2.contains(x0));
    let before = d.difference(st.2);
    let after = d.difference(nx.2);
    assert(after.subset_of(before.remove(x0)));
    assert(before.contains(x0));
    vstd::set_lib::lemma_len_subset(after, before.remove(x0));
}

proof fn lemma_rounds_reach_fixpoint(st: (Seq<Tree>, Tree, Set<u32>), rounds: nat, ops: Seq<u32>)
    requires
        st.2.subset_of(def_set(st.0)),
        chain_potential(st) < rounds,
    ensures
        ({
            let r = chain_rounds(st, rounds, ops);
            chain_snapshot(r.0, r.0.len() as int, r.2).len() == 0
        }),
    decreases rounds,
{
    let snap = chain_snapshot(st.0, st.0.len() as int, st.2);
    if snap.len() > 0 {
        lemma_round_shrinks(st, ops);
        lemma_rounds_reach_fixpoint(apply_links(st, snap, snap.len() as int, ops), (rounds - 1) as nat, ops);
    }
}

/// Propagating chain links reaches its fixed point within the rounds
/// allowed: when the rewrite of a block ends, no ValDef with a chain-link
/// right-hand side is left unapplied (for fewer than `usize::MAX` items).
pub proof fn law_chain_rounds_reach_fixpoint(items: Seq<Tree>, result: Tree, ops: Seq<u32>)
    requires
        items.len() < usize::MAX,
    ensures
        ({
            let r = chain_rounds((items, result, Set::empty()), round_cap(items.len()), ops);
            chain_snapshot(r.0, r.0.len() as int, r.2).len() == 0
        }),
{
    let st = (items, result, Set::<u32>::empty());
    lemma_def_set_facts(items);
    assert(def_set(items).difference(Set::<u32>::empty()) =~= def_set(items));
    lemma_rounds_reach_fixpoint(st, round_cap(items.len()), ops);
}

} // verus!
