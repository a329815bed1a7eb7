use std::collections::HashSet;

use vstd::prelude::*;

use crate::node::{clone_node, node_view, nodes_view, Node, Tree};
use crate::reorder::{defines_id, rhs_of};
use crate::walk::{collect_all_val_uses, val_uses};

verus! {

broadcast use vstd::std_specs::hash::group_hash_axioms;

/// Some item of `items` is a ValDef of `d`.
pub open spec fn defined_here(items: Seq<Tree>, d: u32) -> bool {
    exists|j: int| 0 <= j < items.len() && defines_id(#[trigger] items[j], d)
}

/// The ids defined among `items` that item `i` uses: in the right-hand
/// side of a ValDef (not its own id), or anywhere in another item.
pub open spec fn item_deps(items: Seq<Tree>, i: int) -> Set<u32> {
    Set::new(
        |d: u32|
            val_uses(rhs_of(items[i])).contains(d) && defined_here(items, d) && !defines_id(
                items[i],
                d,
            ),
    )
}

/// The state of the ordering: which items are placed, the ids of the
/// ValDefs placed, the items placed so far in order, and whether the
/// current pass placed one.
pub struct TopoState {
    pub placed: Seq<bool>,
    pub ids: Set<u32>,
    pub out: Seq<Tree>,
    pub progressed: bool,
}

/// Item `i` may be placed as far as the order of the items that are no
/// ValDef goes: it is a ValDef, or every earlier item that is no ValDef is
/// placed already (so those items keep their relative order).
pub open spec fn order_ready(items: Seq<Tree>, placed: Seq<bool>, i: int) -> bool {
    items[i] is ValDef || forall|j: int| 0 <= j < i && !(items[j] is ValDef) ==> #[trigger] placed[j]
}

/// One step of a pass at item `i`: an item not placed yet whose
/// dependencies are all placed, and whose turn has come among the items
/// that are no ValDef, is placed now.
pub open spec fn topo_step(items: Seq<Tree>, st: TopoState, i: int) -> TopoState {
    if !st.placed[i] && item_deps(items, i).subset_of(st.ids) && order_ready(items, st.placed, i) {
        TopoState {
            placed: st.placed.update(i, true),
            ids: match items[i] {
                Tree::ValDef { id, .. } => st.ids.insert(id),
                _ => st.ids,
            },
            out: st.out.push(items[i]),
            progressed: true,
        }
    } else {
        st
    }
}

/// A pass over the first `k` items.
pub open spec fn topo_pass(items: Seq<Tree>, st: TopoState, k: int) -> TopoState
    decreases k,
{
    if k <= 0 {
        st
    } else {
        topo_step(items, topo_pass(items, st, k - 1), k - 1)
    }
}

/// The number of items not placed yet.
pub open spec fn unplaced(placed: Seq<bool>) -> nat
    decreases placed.len(),
{
    if placed.len() == 0 {
        0
    } else {
        unplaced(placed.drop_last()) + if placed.last() {
            0nat
        } else {
            1nat
        }
    }
}


/// Passes repeated while one places an item.
pub open spec fn topo_passes(items: Seq<Tree>, st: TopoState) -> TopoState
    decreases unplaced(st.placed),
{
    let nx = topo_pass(
        items,
        TopoState { placed: st.placed, ids: st.ids, out: st.out, progressed: false },
        items.len() as int,
    );
    if nx.progressed && unplaced(nx.placed) < unplaced(st.placed) {
        topo_passes(items, nx)
    } else {
        nx
    }
}

/// The items not placed, in order.
pub open spec fn stragglers(items: Seq<Tree>, placed: Seq<bool>) -> Seq<Tree>
    decreases items.len(),
{
    if items.len() == 0 {
        Seq::empty()
    } else {
        let rest = stragglers(items.drop_last(), placed);
        if placed[items.len() - 1] {
            rest
        } else {
            rest.push(items.last())
        }
    }
}

/// The items in an order where each comes after the ValDefs among them
/// that it uses, as far as they can be so ordered: passes over the list
/// place every item whose dependencies are placed, until a pass places
/// none; the items left over follow in their order.
pub open spec fn topo_order(items: Seq<Tree>) -> Seq<Tree> {
    let st = topo_passes(
        items,
        TopoState {
            placed: Seq::new(items.len(), |i: int| false),
            ids: Set::empty(),
            out: Seq::empty(),
            progressed: false,
        },
    );
    st.out + stragglers(items, st.placed)
}

/// `b` lists the trees of `a`, each once, in some order.
pub open spec fn permutes(a: Seq<Tree>, b: Seq<Tree>) -> bool {
    exists|perm: Seq<int>|
        perm.len() == a.len() && b.len() == a.len() && perm.no_duplicates() && (forall|k: int|
            0 <= k < perm.len() ==> 0 <= #[trigger] perm[k] < a.len()) && (forall|k: int|
            0 <= k < b.len() ==> #[trigger] b[k] == a[perm[k]])
}

proof fn lemma_unplaced_update(placed: Seq<bool>, i: int)
    requires
        0 <= i < placed.len(),
        !placed[i],
    ensures
        unplaced(placed.update(i, true)) + 1 == unplaced(placed),
    decreases placed.len(),
{
    let u = placed.update(i, true);
    if i == placed.len() - 1 {
        assert(u.drop_last() =~= placed.drop_last());
    } else {
        assert(u.drop_last() =~= placed.drop_last().update(i, true));
        lemma_unplaced_update(placed.drop_last(), i);
    }
}

/// A pass keeps what it does not place, and places something exactly when
/// it says it progressed.
proof fn lemma_pass(items: Seq<Tree>, st: TopoState, k: int)
    requires
        0 <= k <= items.len(),
        st.placed.len() == items.len(),
        !st.progressed,
    ensures
        topo_pass(items, st, k).placed.len() == items.len(),
        unplaced(topo_pass(items, st, k).placed) <= unplaced(st.placed),
        topo_pass(items, st, k).progressed ==> unplaced(topo_pass(items, st, k).placed) < unplaced(
            st.placed,
        ),
        !topo_pass(items, st, k).progressed ==> topo_pass(items, st, k) == st,
    decreases k,
{
    if k > 0 {
        lemma_pass(items, st, k - 1);
        let pre = topo_pass(items, st, k - 1);
        if !pre.placed[k - 1] && item_deps(items, k - 1).subset_of(pre.ids) && order_ready(
            items,
            pre.placed,
            k - 1,
        ) {
            lemma_unplaced_update(pre.placed, k - 1);
        }
    }
}


proof fn lemma_unplaced_all(n: nat)
    ensures
        unplaced(Seq::new(n, |i: int| false)) == n,
    decreases n,
{
    if n > 0 {
        assert(Seq::new(n, |i: int| false).drop_last() =~= Seq::new((n - 1) as nat, |i: int| false));
        lemma_unplaced_all((n - 1) as nat);
    }
}

/// The ids of the ValDefs among `items`.
fn defined_ids(items: &Vec<Node>) -> (r: HashSet<u32>)
    ensures
        forall|d: u32| r@.contains(d) == defined_here(nodes_view(items@), d),
{
    let ghost s = nodes_view(items@);
    let mut r: HashSet<u32> = HashSet::new();
    let mut i: usize = 0;
    while i < items.len()
        invariant
            0 <= i <= items@.len(),
            s == nodes_view(items@),
            forall|d: u32|
                r@.contains(d) == exists|j: int| 0 <= j < i && defines_id(#[trigger] s[j], d),
        decreases items.len() - i,
    {
        assert(s[i as int] == node_view(items@[i as int]));
        match &items[i] {
            Node::ValDef { id, rhs } => {
                assert(s[i as int] == Tree::ValDef { id: *id, rhs: Box::new(node_view(**rhs)) });
                r.insert(*id);
            },
            _ => {
                assert(!(s[i as int] is ValDef));
            },
        }
        proof {
            assert forall|d: u32|
                r@.contains(d) == exists|j: int| 0 <= j < i + 1 && defines_id(#[trigger] s[j], d) by {
                if defines_id(s[i as int], d) {
                    assert(r@.contains(d));
                }
                if exists|j: int| 0 <= j < i + 1 && defines_id(#[trigger] s[j], d) {
                    let j = choose|j: int| 0 <= j < i + 1 && defines_id(#[trigger] s[j], d);
                    if j < i {
                        assert(exists|j: int| 0 <= j < i && defines_id(#[trigger] s[j], d));
                    }
                }
            }
        }
        i += 1;
    }
    r
}

/// The dependencies of item `i`, as `item_deps` says, possibly repeated.
fn dep_ids(items: &Vec<Node>, defined: &HashSet<u32>, i: usize) -> (r: Vec<u32>)
    requires
        i < items@.len(),
        forall|d: u32| defined@.contains(d) == defined_here(nodes_view(items@), d),
    ensures
        r@.to_set() == item_deps(nodes_view(items@), i as int),
{
    let ghost s = nodes_view(items@);
    assert(s[i as int] == node_view(items@[i as int]));
    let mut uses: Vec<u32> = Vec::new();
    let mut own: Option<u32> = None;
    match &items[i] {
        Node::ValDef { id, rhs } => {
            assert(s[i as int] == Tree::ValDef { id: *id, rhs: Box::new(node_view(**rhs)) });
            collect_all_val_uses(rhs, &mut uses);
            own = Some(*id);
        },
        other => {
            assert(!(s[i as int] is ValDef));
            collect_all_val_uses(other, &mut uses);
        },
    }
    assert(uses@ =~= val_uses(rhs_of(s[i as int])));
    let mut r: Vec<u32> = Vec::new();
    let mut k: usize = 0;
    while k < uses.len()
        invariant
            0 <= k <= uses@.len(),
            i < items@.len(),
            s == nodes_view(items@),
            uses@ == val_uses(rhs_of(s[i as int])),
            forall|d: u32| defined@.contains(d) == defined_here(s, d),
            forall|d: u32| (own == Some(d)) == defines_id(s[i as int], d),
            forall|d: u32|
                #[trigger] r@.contains(d) == (uses@.subrange(0, k as int).contains(d)
                    && defined_here(s, d) && !defines_id(s[i as int], d)),
        decreases uses.len() - k,
    {
        let d = uses[k];
        let mine = match own {
            Some(o) => o == d,
            None => false,
        };
        let ghost r_old = r@;
        let pushed = defined.contains(&d) && !mine;
        if pushed {
            r.push(d);
        }
        proof {
            assert forall|y: u32| r@.contains(y) == (r_old.contains(y) || (pushed && y == d)) by {
                if r@.contains(y) {
                    let p = choose|p: int| 0 <= p < r@.len() && r@[p] == y;
                    if p < r_old.len() {
                        assert(r_old[p] == y);
                    }
                }
                if r_old.contains(y) {
                    let p = choose|p: int| 0 <= p < r_old.len() && r_old[p] == y;
                    assert(r@[p] == y);
                }
                if pushed && y == d {
                    assert(r@[r_old.len() as int] == y);
                }
            }
            let w1 = uses@.subrange(0, k + 1);
            let w0 = uses@.subrange(0, k as int);
            assert forall|y: u32| w1.contains(y) == (w0.contains(y) || y == d) by {
                if w1.contains(y) {
                    let p = choose|p: int| 0 <= p < w1.len() && w1[p] == y;
                    if p < k {
                        assert(w0[p] == y);
                    }
                }
                if w0.contains(y) {
                    let p = choose|p: int| 0 <= p < w0.len() && w0[p] == y;
                    assert(w1[p] == y);
                }
                if y == d {
                    assert(w1[k as int] == y);
                }
            }
            assert(pushed == (defined_here(s, d) && !defines_id(s[i as int], d)));
            assert forall|y: u32| #[trigger] r@.contains(y) == (w1.contains(y) && defined_here(s, y)
                && !defines_id(s[i as int], y)) by {
                assert(r_old.contains(y) == (w0.contains(y) && defined_here(s, y) && !defines_id(
                    s[i as int],
                    y,
                )));
            }
        }
        k += 1;
    }
    assert(uses@.subrange(0, uses@.len() as int) =~= uses@);
    assert(r@.to_set() =~= item_deps(s, i as int));
    r
}

/// Whether every id of `deps` is in `ids`.
fn deps_ready(deps: &Vec<u32>, ids: &HashSet<u32>) -> (r: bool)
    ensures
        r == deps@.to_set().subset_of(ids@),
{
    let mut k: usize = 0;
    while k < deps.len()
        invariant
            0 <= k <= deps@.len(),
            forall|j: int| 0 <= j < k ==> ids@.contains(#[trigger] deps@[j]),
        decreases deps.len() - k,
    {
        if !ids.contains(&deps[k]) {
            assert(deps@.to_set().contains(deps@[k as int]));
            return false;
        }
        k += 1;
    }
    true
}

/// Whether item `i` may be placed as `order_ready` says.
fn order_ready_at(items: &Vec<Node>, placed: &Vec<bool>, i: usize) -> (r: bool)
    requires
        i < items@.len(),
        placed@.len() == items@.len(),
    ensures
        r == order_ready(nodes_view(items@), placed@, i as int),
{
    let ghost s = nodes_view(items@);
    assert(s[i as int] == node_view(items@[i as int]));
    match &items[i] {
        Node::ValDef { .. } => {
            return true;
        },
        _ => {
            assert(!(s[i as int] is ValDef));
        },
    }
    let mut j: usize = 0;
    while j < i
        invariant
            0 <= j <= i,
            i < items@.len(),
            placed@.len() == items@.len(),
            s == nodes_view(items@),
            !(s[i as int] is ValDef),
            forall|q: int| 0 <= q < j && !(s[q] is ValDef) ==> #[trigger] placed@[q],
        decreases i - j,
    {
        assert(s[j as int] == node_view(items@[j as int]));
        let is_def = match &items[j] {
            Node::ValDef { .. } => true,
            _ => {
                assert(!(s[j as int] is ValDef));
                false
            },
        };
        if !is_def && !placed[j] {
            assert(!(s[j as int] is ValDef) && !placed@[j as int]);
            return false;
        }
        j += 1;
    }
    true
}

/// The state an exec pass is in.
pub open spec fn state_of(placed: Seq<bool>, ids: Set<u32>, out: Seq<Node>, progressed: bool) -> TopoState {
    TopoState { placed, ids, out: nodes_view(out), progressed }
}

/// `items` ordered as `topo_order` says; the result lists every item once.
pub fn topo_order_valdefs(items: Vec<Node>) -> (r: Vec<Node>)
    ensures
        nodes_view(r@) == topo_order(nodes_view(items@)),
        permutes(nodes_view(items@), nodes_view(r@)),
{
    let ghost s = nodes_view(items@);
    let n = items.len();
    let defined = defined_ids(&items);
    let mut deps: Vec<Vec<u32>> = Vec::new();
    let mut i: usize = 0;
    while i < n
        invariant
            0 <= i <= n,
            n == items@.len(),
            s == nodes_view(items@),
            forall|d: u32| defined@.contains(d) == defined_here(s, d),
            deps@.len() == i,
            forall|j: int| 0 <= j < i ==> (#[trigger] deps@[j])@.to_set() == item_deps(s, j),
        decreases n - i,
    {
        deps.push(dep_ids(&items, &defined, i));
        i += 1;
    }
    let mut placed: Vec<bool> = Vec::new();
    let mut i: usize = 0;
    while i < n
        invariant
            0 <= i <= n,
            placed@ == Seq::new(i as nat, |j: int| false),
        decreases n - i,
    {
        placed.push(false);
        assert(placed@ =~= Seq::new((i + 1) as nat, |j: int| false));
        i += 1;
    }
    let mut ids: HashSet<u32> = HashSet::new();
    let mut out: Vec<Node> = Vec::new();
    let ghost init = TopoState {
        placed: Seq::new(n as nat, |j: int| false),
        ids: Set::empty(),
        out: Seq::empty(),
        progressed: false,
    };
    let ghost mut perm: Seq<int> = Seq::empty();
    proof {
        lemma_unplaced_all(n as nat);
        assert(ids@ =~= Set::<u32>::empty());
        assert(nodes_view(out@) =~= Seq::<Tree>::empty());
    }
    loop
        invariant
            n == items@.len(),
            s == nodes_view(items@),
            deps@.len() == n,
            forall|j: int| 0 <= j < n ==> (#[trigger] deps@[j])@.to_set() == item_deps(s, j),
            placed@.len() == n,
            topo_passes(s, init) == topo_passes(s, state_of(placed@, ids@, out@, false)),
            perm.len() == out@.len(),
            perm.len() + unplaced(placed@) == n,
            perm.no_duplicates(),
            forall|k: int| 0 <= k < perm.len() ==> 0 <= #[trigger] perm[k] < n && placed@[perm[k]],
            forall|k: int| 0 <= k < perm.len() ==> node_view(#[trigger] out@[k]) == s[perm[k]],
            forall|j: int| 0 <= j < n && #[trigger] placed@[j] ==> perm.contains(j),
        ensures
            topo_passes(s, init) == state_of(placed@, ids@, out@, false),
            placed@.len() == n,
            perm.len() == out@.len(),
            perm.len() + unplaced(placed@) == n,
            perm.no_duplicates(),
            forall|k: int| 0 <= k < perm.len() ==> 0 <= #[trigger] perm[k] < n && placed@[perm[k]],
            forall|k: int| 0 <= k < perm.len() ==> node_view(#[trigger] out@[k]) == s[perm[k]],
        decreases unplaced(placed@),
    {
        let ghost start = state_of(placed@, ids@, out@, false);
        let mut progressed = false;
        let mut i: usize = 0;
        while i < n
            invariant
                0 <= i <= n,
                n == items@.len(),
                s == nodes_view(items@),
                deps@.len() == n,
                forall|j: int| 0 <= j < n ==> (#[trigger] deps@[j])@.to_set() == item_deps(s, j),
                placed@.len() == n,
                start.placed.len() == n,
                !start.progressed,
                state_of(placed@, ids@, out@, progressed) == topo_pass(s, start, i as int),
                perm.len() == out@.len(),
                perm.len() + unplaced(placed@) == n,
                perm.no_duplicates(),
                forall|k: int| 0 <= k < perm.len() ==> 0 <= #[trigger] perm[k] < n && placed@[perm[k]],
                forall|k: int| 0 <= k < perm.len() ==> node_view(#[trigger] out@[k]) == s[perm[k]],
                forall|j: int| 0 <= j < n && #[trigger] placed@[j] ==> perm.contains(j),
            decreases n - i,
        {
            let ghost pre = state_of(placed@, ids@, out@, progressed);
            if !placed[i] && deps_ready(&deps[i], &ids) && order_ready_at(&items, &placed, i) {
                assert(s[i as int] == node_view(items@[i as int]));
                match &items[i] {
                    Node::ValDef { id, rhs } => {
                        assert(s[i as int] == Tree::ValDef { id: *id, rhs: Box::new(node_view(**rhs)) });
                        ids.insert(*id);
                    },
                    _ => {
                        assert(!(s[i as int] is ValDef));
                    },
                }
                let ghost before = out@;
                let ghost perm_old = perm;
                out.push(clone_node(&items[i]));
                proof {
                    lemma_unplaced_update(placed@, i as int);
                    assert(!perm.contains(i as int));
                    perm = perm.push(i as int);
                }
                placed.set(i, true);
                progressed = true;
                assert(nodes_view(out@) =~= nodes_view(before).push(s[i as int]));
                proof {
                    assert forall|k: int| 0 <= k < perm.len() implies 0 <= #[trigger] perm[k] < n
                        && placed@[perm[k]] by {
                        if k < perm.len() - 1 {
                            assert(perm[k] != i);
                        }
                    }
                    assert forall|k: int| 0 <= k < perm.len() implies node_view(#[trigger] out@[k])
                        == s[perm[k]] by {
                        if k < perm.len() - 1 {
                            assert(out@[k] == before[k]);
                        }
                    }
                    assert forall|j: int| 0 <= j < n && #[trigger] placed@[j] implies perm.contains(j) by {
                        if j == i {
                            assert(perm[perm.len() - 1] == j);
                        } else {
                            assert(pre.placed[j]);
                            assert(perm_old.contains(j));
                            let k = choose|k: int| 0 <= k < perm_old.len() && perm_old[k] == j;
                            assert(perm[k] == j);
                        }
                    }
                }
            }
            i += 1;
        }
        proof {
            lemma_pass(s, start, n as int);
        }
        if !progressed {
            proof {
                assert(topo_pass(s, start, n as int) == start);
                assert(topo_passes(s, start) == start);
            }
            break;
        }
        proof {
            let nx = topo_pass(s, start, n as int);
            assert(topo_passes(s, start) == topo_passes(s, nx));
            assert(topo_passes(s, nx) == topo_passes(s, state_of(placed@, ids@, out@, false)));
        }
    }
    let ghost done = state_of(placed@, ids@, out@, false);
    let ghost first = out@.len();
    let mut i: usize = 0;
    while i < n
        invariant
            0 <= i <= n,
            n == items@.len(),
            s == nodes_view(items@),
            placed@.len() == n,
            nodes_view(out@) == done.out + stragglers(s.subrange(0, i as int), placed@),
            perm.len() == out@.len(),
            perm.len() == (n - unplaced(placed@)) + unplaced(placed@.subrange(0, i as int)),
            perm.no_duplicates(),
            forall|k: int| 0 <= k < perm.len() ==> 0 <= #[trigger] perm[k] < n,
            first <= perm.len(),
            forall|k: int| first <= k < perm.len() ==> i > #[trigger] perm[k] && !placed@[perm[k]],
            forall|k: int| 0 <= k < first ==> placed@[#[trigger] perm[k]],
            forall|k: int| 0 <= k < perm.len() ==> node_view(#[trigger] out@[k]) == s[perm[k]],
        decreases n - i,
    {
        proof {
            lemma_prefix_take(s, placed@, i as int);
        }
        if !placed[i] {
            let ghost before = out@;
            out.push(clone_node(&items[i]));
            proof {
                assert(!perm.contains(i as int));
                perm = perm.push(i as int);
                assert(nodes_view(out@) =~= nodes_view(before).push(s[i as int]));
                assert forall|k: int| 0 <= k < perm.len() implies node_view(#[trigger] out@[k])
                    == s[perm[k]] by {
                    if k < perm.len() - 1 {
                        assert(out@[k] == before[k]);
                    }
                }
            }
        }
        i += 1;
    }
    proof {
        assert(s.subrange(0, n as int) =~= s);
        assert(placed@.subrange(0, n as int) =~= placed@);
        assert(done == topo_passes(s, init));
    }
    out
}

proof fn lemma_prefix_take(s: Seq<Tree>, placed: Seq<bool>, i: int)
    requires
        0 <= i < s.len(),
        placed.len() == s.len(),
    ensures
        stragglers(s.subrange(0, i + 1), placed) == if placed[i] {
            stragglers(s.subrange(0, i), placed)
        } else {
            stragglers(s.subrange(0, i), placed).push(s[i])
        },
        unplaced(placed.subrange(0, i + 1)) == unplaced(placed.subrange(0, i)) + if placed[i] {
            0nat
        } else {
            1nat
        },
{
    assert(s.subrange(0, i + 1).drop_last() =~= s.subrange(0, i));
    assert(placed.subrange(0, i + 1).drop_last() =~= placed.subrange(0, i));
}

} // verus!
