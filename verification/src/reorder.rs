use std::collections::HashSet;

use vstd::prelude::*;

use crate::flatten::mapped_kind;
use crate::node::{clone_node, node_view, nodes_view, Node, OpKind, Tree, BIN_AND, BIN_OR};
use crate::walk::{collect_all_val_uses, val_uses, val_uses_seq};

verus! {

broadcast use vstd::std_specs::hash::group_hash_axioms;

/// The ValDef items of a block by id; a later ValDef of an id replaces an
/// earlier one.
pub open spec fn def_map(items: Seq<Tree>) -> Map<u32, Tree>
    decreases items.len(),
{
    if items.len() == 0 {
        Map::empty()
    } else {
        let m = def_map(items.drop_last());
        match items.last() {
            Tree::ValDef { id, .. } => m.insert(id, items.last()),
            _ => m,
        }
    }
}

/// The right-hand side of a ValDef; any other tree itself.
pub open spec fn rhs_of(t: Tree) -> Tree {
    match t {
        Tree::ValDef { rhs, .. } => *rhs,
        _ => t,
    }
}

/// `rank` orders the ValDefs of `items` so that the right-hand side of
/// each uses only ValDefs of lower rank, all ranks below `items.len()`:
/// following ValUses from definition to definition always ends.
pub open spec fn ranked(items: Seq<Tree>, rank: spec_fn(u32) -> nat) -> bool {
    &&& forall|k: u32| #[trigger] def_map(items).contains_key(k) ==> rank(k) < items.len()
    &&& forall|k: u32, x: u32|
        #![trigger def_map(items).contains_key(k), val_uses(rhs_of(def_map(items)[k])).contains(x)]
        def_map(items).contains_key(k) && val_uses(rhs_of(def_map(items)[k])).contains(x)
            && def_map(items).contains_key(x) ==> rank(x) < rank(k)
}

/// Every ValDef of `items` that `t` uses has rank below `bound`.
pub open spec fn uses_below(t: Tree, items: Seq<Tree>, rank: spec_fn(u32) -> nat, bound: nat) -> bool {
    forall|x: u32|
        #[trigger] val_uses(t).contains(x) && def_map(items).contains_key(x) ==> rank(x) < bound
}

/// Operator kinds whose operands the dependency walk visits, in order.
pub open spec fn emit_kind(k: OpKind) -> bool {
    match k {
        OpKind::BinOp | OpKind::BoolToSigmaProp | OpKind::Filter | OpKind::Exists
        | OpKind::ForAll | OpKind::CollMap | OpKind::Fold | OpKind::PropertyCall
        | OpKind::MethodCall | OpKind::ByteArrayToBigInt | OpKind::ExtractAmount
        | OpKind::ExtractRegisterAs | OpKind::ExtractScriptBytes | OpKind::ExtractBytes
        | OpKind::ExtractId | OpKind::ExtractCreationInfo | OpKind::SizeOf | OpKind::ByIndex
        | OpKind::SelectField | OpKind::OptionGet | OpKind::OptionIsDefined
        | OpKind::OptionGetOrElse | OpKind::Slice | OpKind::LogicalNot | OpKind::Negation
        | OpKind::SigmaPropBytes | OpKind::Upcast | OpKind::Downcast | OpKind::CalcBlake2b256
        | OpKind::CreateProveDlog | OpKind::CreateProveDhTuple | OpKind::SigmaAnd
        | OpKind::SigmaOr | OpKind::Tuple | OpKind::TreeLookup | OpKind::Apply | OpKind::And
        | OpKind::Or | OpKind::Collection | OpKind::Append | OpKind::Exponentiate
        | OpKind::MultiplyGroup | OpKind::DecodePoint | OpKind::LongToByteArray
        | OpKind::ByteArrayToLong => true,
        _ => false,
    }
}

/// A logical `||`.
pub open spec fn is_or_tree(t: Tree) -> bool {
    match t {
        Tree::Op { kind, payload, .. } => kind == OpKind::BinOp && payload == BIN_OR,
        _ => false,
    }
}

/// The ValDefs of `items` are numbered densely: there is one, and their
/// ids are exactly 1 to their number.
pub open spec fn dense(items: Seq<Tree>) -> bool {
    &&& def_map(items).dom().len() > 0
    &&& forall|k: u32| #[trigger]
        def_map(items).contains_key(k) ==> 1 <= k <= def_map(items).dom().len()
}

/// Some id of `bids` names a ValDef whose right-hand side uses another id
/// of `bids`.
pub open spec fn has_interleave(items: Seq<Tree>, bids: Seq<u32>) -> bool {
    exists|i: int, j: int|
        0 <= i < bids.len() && def_map(items).contains_key(#[trigger] bids[i]) && 0 <= j
            < val_uses(rhs_of(def_map(items)[bids[i]])).len() && #[trigger] val_uses(
            rhs_of(def_map(items)[bids[i]]),
        )[j] != bids[i] && bids.contains(val_uses(rhs_of(def_map(items)[bids[i]]))[j])
}

/// `s` and the ValDefs of `items` used by the right-hand side of a ValDef
/// of `items` named in `s`.
pub open spec fn step_uses(items: Seq<Tree>, s: Set<u32>) -> Set<u32> {
    s.union(
        Set::new(
            |d: u32|
                def_map(items).contains_key(d) && exists|id: u32|
                    #![trigger s.contains(id), def_map(items).contains_key(id)]
                    s.contains(id) && def_map(items).contains_key(id) && val_uses(
                        rhs_of(def_map(items)[id]),
                    ).contains(d),
        ),
    )
}

/// `step_uses` repeated until nothing is added, at most `fuel` times.
pub open spec fn closure(items: Seq<Tree>, s: Set<u32>, fuel: nat) -> Set<u32>
    decreases fuel,
{
    if fuel == 0 || step_uses(items, s) == s {
        s
    } else {
        closure(items, step_uses(items, s), (fuel - 1) as nat)
    }
}

/// A strictly increasing sequence.
pub open spec fn increasing(q: Seq<u32>) -> bool {
    forall|i: int, j: int| 0 <= i < j < q.len() ==> q[i] < q[j]
}

/// The elements of a finite set of ids in increasing order.
pub open spec fn sorted_ids(s: Set<u32>) -> Seq<u32> {
    choose|q: Seq<u32>| increasing(q) && q.to_set() == s
}

/// A ValDef of `items` whose right-hand side is a constant or a constant
/// placeholder.
pub open spec fn is_const_def(items: Seq<Tree>, id: u32) -> bool {
    def_map(items).contains_key(id) && match rhs_of(def_map(items)[id]) {
        Tree::Op { kind, .. } => kind == OpKind::Const || kind == OpKind::ConstPlaceholder,
        _ => false,
    }
}

/// The ids of `q` that name a constant ValDef (when `want`) or that do
/// not (otherwise), in the order of `q`.
pub open spec fn ids_where(items: Seq<Tree>, q: Seq<u32>, want: bool) -> Seq<u32>
    decreases q.len(),
{
    if q.len() == 0 {
        Seq::empty()
    } else {
        let rest = ids_where(items, q.drop_last(), want);
        if is_const_def(items, q.last()) == want {
            rest.push(q.last())
        } else {
            rest
        }
    }
}

/// The ids of `q` not naming a constant ValDef, then those that do, each
/// part in the order of `q`.
pub open spec fn consts_last(items: Seq<Tree>, q: Seq<u32>) -> Seq<u32> {
    ids_where(items, q, false) + ids_where(items, q, true)
}

/// The order in which the ValDefs used by the branches `bids` of an If are
/// emitted: with dense ids, every ValDef reachable from them in id order;
/// otherwise the ids themselves in id order, constants last.
pub open spec fn if_order(items: Seq<Tree>, bids: Seq<u32>) -> Seq<u32> {
    if dense(items) {
        sorted_ids(closure(items, bids.to_set(), items.len()))
    } else {
        consts_last(items, sorted_ids(bids.to_set()))
    }
}

/// The dependency walk over `t`: the ValDefs of `items` that `t` uses are
/// appended to the emitted list `st.0` (their own dependencies first) and
/// their ids added to `st.1`. The right operand of `&&` and `||` is walked
/// as lazy (`in_thunk`); an innermost `||` inside a lazy `||` chain walks
/// its right operand first. The branches of an If are handled by
/// `if_emit`.
pub open spec fn emit(
    t: Tree,
    items: Seq<Tree>,
    st: (Seq<Tree>, Set<u32>),
    in_thunk: bool,
    parent_is_or: bool,
    rank: spec_fn(u32) -> nat,
    bound: nat,
) -> (Seq<Tree>, Set<u32>)
    decreases bound, t, 2int, 0int,
{
    match t {
        Tree::ValUse { id, .. } => {
            if !st.1.contains(id) && def_map(items).contains_key(id) && rank(id) < bound {
                let st2 = emit(
                    rhs_of(def_map(items)[id]),
                    items,
                    st,
                    in_thunk,
                    false,
                    rank,
                    rank(id),
                );
                (st2.0.push(def_map(items)[id]), st2.1.insert(id))
            } else {
                st
            }
        },
        Tree::Block { items: bi, result } => emit(
            *result,
            items,
            emit_seq(bi, bi.len() as int, items, st, in_thunk, rank, bound),
            in_thunk,
            false,
            rank,
            bound,
        ),
        Tree::ValDef { rhs, .. } => emit(*rhs, items, st, in_thunk, false, rank, bound),
        Tree::Func { body, .. } => emit(*body, items, st, in_thunk, false, rank, bound),
        Tree::If { .. } => if_emit(t, items, st, in_thunk, rank, bound),
        Tree::Op { kind, payload, children } => if kind == OpKind::BinOp && children.len() == 2
            && (payload == BIN_AND || payload == BIN_OR) {
            let is_or = payload == BIN_OR;
            if in_thunk && is_or && !is_or_tree(children[0]) && parent_is_or {
                emit(
                    children[0],
                    items,
                    emit(children[1], items, st, true, is_or, rank, bound),
                    true,
                    is_or,
                    rank,
                    bound,
                )
            } else {
                emit(
                    children[1],
                    items,
                    emit(children[0], items, st, in_thunk, is_or, rank, bound),
                    true,
                    is_or,
                    rank,
                    bound,
                )
            }
        } else if emit_kind(kind) {
            emit_seq(children, children.len() as int, items, st, in_thunk, rank, bound)
        } else {
            st
        },
    }
}

/// `emit` over the first `k` trees of `s` in order.
pub open spec fn emit_seq(
    s: Seq<Tree>,
    k: int,
    items: Seq<Tree>,
    st: (Seq<Tree>, Set<u32>),
    in_thunk: bool,
    rank: spec_fn(u32) -> nat,
    bound: nat,
) -> (Seq<Tree>, Set<u32>)
    decreases bound, s, 2int, k,
{
    if k <= 0 || k > s.len() {
        st
    } else {
        emit(
            s[k - 1],
            items,
            emit_seq(s, k - 1, items, st, in_thunk, rank, bound),
            in_thunk,
            false,
            rank,
            bound,
        )
    }
}

/// An If: its condition is walked; then, when some branch ValDef uses
/// another one and the ids are not dense, both branches are walked in
/// turn; otherwise the ValDefs used by the branches are emitted in
/// `if_order`.
pub open spec fn if_emit(
    t: Tree,
    items: Seq<Tree>,
    st: (Seq<Tree>, Set<u32>),
    in_thunk: bool,
    rank: spec_fn(u32) -> nat,
    bound: nat,
) -> (Seq<Tree>, Set<u32>)
    decreases bound, t, 1int, 0int,
{
    match t {
        Tree::If { cond, then_branch, else_branch } => {
            let st1 = emit(*cond, items, st, in_thunk, false, rank, bound);
            let bids = val_uses(*then_branch) + val_uses(*else_branch);
            if has_interleave(items, bids) && !dense(items) {
                emit(
                    *else_branch,
                    items,
                    emit(*then_branch, items, st1, in_thunk, false, rank, bound),
                    in_thunk,
                    false,
                    rank,
                    bound,
                )
            } else {
                let order = if_order(items, bids);
                emit_ids(order, order.len() as int, items, st1, in_thunk, rank, bound, t)
            }
        },
        _ => st,
    }
}

/// `emit_id` over the first `j` ids of `ids` in order (`t` is the If
/// they come from).
pub open spec fn emit_ids(
    ids: Seq<u32>,
    j: int,
    items: Seq<Tree>,
    st: (Seq<Tree>, Set<u32>),
    in_thunk: bool,
    rank: spec_fn(u32) -> nat,
    bound: nat,
    t: Tree,
) -> (Seq<Tree>, Set<u32>)
    decreases bound, t, 0int, j,
{
    if j <= 0 || j > ids.len() {
        st
    } else {
        let st0 = emit_ids(ids, j - 1, items, st, in_thunk, rank, bound, t);
        let id = ids[j - 1];
        if !st0.1.contains(id) && def_map(items).contains_key(id) && rank(id) < bound {
            let st2 = emit(
                rhs_of(def_map(items)[id]),
                items,
                st0,
                in_thunk,
                false,
                rank,
                rank(id),
            );
            (st2.0.push(def_map(items)[id]), st2.1.insert(id))
        } else {
            st0
        }
    }
}


/// `t` is a ValDef of `id`.
pub open spec fn defines_id(t: Tree, id: u32) -> bool {
    match t {
        Tree::ValDef { id: d, .. } => d == id,
        _ => false,
    }
}

proof fn lemma_def_map_last(s: Seq<Tree>, i: int, id: u32)
    requires
        0 <= i < s.len(),
        defines_id(s[i], id),
        forall|j: int| i < j < s.len() ==> !defines_id(#[trigger] s[j], id),
    ensures
        def_map(s).contains_key(id),
        def_map(s)[id] == s[i],
    decreases s.len(),
{
    if i < s.len() - 1 {
        lemma_def_map_last(s.drop_last(), i, id);
        assert(!defines_id(s[s.len() - 1], id));
    }
}

proof fn lemma_def_map_absent(s: Seq<Tree>, id: u32)
    requires
        forall|j: int| 0 <= j < s.len() ==> !defines_id(#[trigger] s[j], id),
    ensures
        !def_map(s).contains_key(id),
    decreases s.len(),
{
    if s.len() > 0 {
        lemma_def_map_absent(s.drop_last(), id);
        assert(!defines_id(s[s.len() - 1], id));
    }
}

/// Every entry of `def_map` is a ValDef of its id, and its domain is finite.
pub proof fn lemma_def_map_values(s: Seq<Tree>)
    ensures
        def_map(s).dom().finite(),
        forall|k: u32| #[trigger]
            def_map(s).contains_key(k) ==> defines_id(def_map(s)[k], k),
    decreases s.len(),
{
    if s.len() > 0 {
        lemma_def_map_values(s.drop_last());
    }
}

/// Position of the ValDef of `id` that `def_map` keeps.
pub(crate) fn find_def(items: &Vec<Node>, id: u32) -> (r: Option<usize>)
    ensures
        match r {
            Some(i) => i < items@.len() && def_map(nodes_view(items@)).contains_key(id)
                && def_map(nodes_view(items@))[id] == node_view(items@[i as int]) && defines_id(
                node_view(items@[i as int]),
                id,
            ),
            None => !def_map(nodes_view(items@)).contains_key(id),
        },
{
    let ghost s = nodes_view(items@);
    let mut i: usize = items.len();
    while i > 0
        invariant
            i <= items@.len(),
            s == nodes_view(items@),
            forall|j: int| i <= j < s.len() ==> !defines_id(#[trigger] s[j], id),
        decreases i,
    {
        i -= 1;
        assert(s[i as int] == node_view(items@[i as int]));
        let found = match &items[i] {
            Node::ValDef { id: d, .. } => *d == id,
            _ => false,
        };
        if found {
            proof {
                lemma_def_map_last(s, i as int, id);
            }
            return Some(i);
        }
    }
    proof {
        lemma_def_map_absent(s, id);
    }
    None
}

fn vec_contains(v: &Vec<u32>, x: u32) -> (r: bool)
    ensures
        r == v@.contains(x),
{
    let mut i: usize = 0;
    while i < v.len()
        invariant
            0 <= i <= v@.len(),
            forall|j: int| 0 <= j < i ==> v@[j] != x,
        decreases v.len() - i,
    {
        if v[i] == x {
            assert(v@[i as int] == x);
            return true;
        }
        i += 1;
    }
    false
}

/// The ids that `def_map` keeps, each once.
fn def_ids_list(items: &Vec<Node>) -> (r: Vec<u32>)
    ensures
        r@.no_duplicates(),
        r@.to_set() == def_map(nodes_view(items@)).dom(),
{
    let ghost s = nodes_view(items@);
    let mut r: Vec<u32> = Vec::new();
    let mut i: usize = 0;
    assert(s.subrange(0, 0) =~= Seq::<Tree>::empty());
    assert(r@.to_set() =~= def_map(s.subrange(0, 0)).dom());
    while i < items.len()
        invariant
            0 <= i <= items@.len(),
            s == nodes_view(items@),
            r@.no_duplicates(),
            r@.to_set() == def_map(s.subrange(0, i as int)).dom(),
        decreases items.len() - i,
    {
        assert(s.subrange(0, i + 1).drop_last() =~= s.subrange(0, i as int));
        assert(s.subrange(0, i + 1).last() == s[i as int]);
        assert(s[i as int] == node_view(items@[i as int]));
        let ghost before = r@;
        match &items[i] {
            Node::ValDef { id, .. } => {
                if !vec_contains(&r, *id) {
                    r.push(*id);
                    proof {
                        lemma_push_to_set(before, *id);
                    }
                } else {
                    assert(before.to_set().insert(*id) =~= before.to_set());
                }
            },
            _ => {},
        }
        i += 1;
    }
    assert(s.subrange(0, s.len() as int) =~= s);
    r
}

proof fn lemma_push_to_set(q: Seq<u32>, x: u32)
    ensures
        q.push(x).to_set() == q.to_set().insert(x),
{
    let r = q.push(x);
    assert forall|y: u32| r.contains(y) == (q.contains(y) || y == x) by {
        if r.contains(y) {
            let p = choose|p: int| 0 <= p < r.len() && r[p] == y;
            if p < q.len() {
                assert(q[p] == y);
            }
        }
        if q.contains(y) {
            let p = choose|p: int| 0 <= p < q.len() && q[p] == y;
            assert(r[p] == y);
        }
        if y == x {
            assert(r[q.len() as int] == y);
        }
    }
    assert(r.to_set() =~= q.to_set().insert(x));
}

/// Whether the ValDef ids of `items` are dense, as `dense` says.
fn is_dense(items: &Vec<Node>) -> (r: bool)
    ensures
        r == dense(nodes_view(items@)),
{
    let ghost s = nodes_view(items@);
    let ids = def_ids_list(items);
    proof {
        ids@.unique_seq_to_set();
    }
    let n = ids.len();
    if n == 0 {
        return false;
    }
    let mut j: usize = 0;
    while j < n
        invariant
            0 <= j <= n,
            s == nodes_view(items@),
            n == ids@.len(),
            ids@.to_set() == def_map(s).dom(),
            n == def_map(s).dom().len(),
            forall|k: int| 0 <= k < j ==> 1 <= #[trigger] ids@[k] <= n,
        decreases n - j,
    {
        let x = ids[j];
        if x < 1 || x as usize > n {
            assert(ids@[j as int] == x);
            assert(ids@.to_set().contains(x));
            assert(def_map(s).contains_key(x));
            assert(!dense(s));
            return false;
        }
        j += 1;
    }
    proof {
        assert forall|k: u32| #[trigger] def_map(s).contains_key(k) implies 1 <= k <= def_map(
            s,
        ).dom().len() by {
            assert(ids@.to_set().contains(k));
            let p = choose|p: int| 0 <= p < ids@.len() && ids@[p] == k;
            assert(1 <= ids@[p] <= n);
        }
    }
    true
}

/// Two increasing sequences with the same elements are equal.
proof fn lemma_increasing_unique(a: Seq<u32>, b: Seq<u32>)
    requires
        increasing(a),
        increasing(b),
        a.to_set() == b.to_set(),
    ensures
        a == b,
    decreases a.len() + b.len(),
{
    if a.len() == 0 {
        if b.len() > 0 {
            assert(b.to_set().contains(b[0]));
            assert(a.to_set().contains(b[0]));
        }
        assert(a =~= b);
    } else if b.len() == 0 {
        assert(a.to_set().contains(a[0]));
        assert(b.to_set().contains(a[0]));
    } else {
        assert(b.to_set().contains(a[0]));
        let j = choose|j: int| 0 <= j < b.len() && b[j] == a[0];
        assert(a.to_set().contains(b[0]));
        let i = choose|i: int| 0 <= i < a.len() && a[i] == b[0];
        assert(a[0] <= a[i]) by {
            if i > 0 {
                assert(a[0] < a[i]);
            }
        }
        assert(b[0] <= b[j]) by {
            if j > 0 {
                assert(b[0] < b[j]);
            }
        }
        assert(a[0] == b[0]);
        let a1 = a.drop_first();
        let b1 = b.drop_first();
        assert forall|x: u32| a1.to_set().contains(x) == b1.to_set().contains(x) by {
            if a1.contains(x) {
                let p = choose|p: int| 0 <= p < a1.len() && a1[p] == x;
                assert(a[p + 1] == x);
                assert(a[0] < x);
                assert(b.to_set().contains(x));
                let q = choose|q: int| 0 <= q < b.len() && b[q] == x;
                assert(q != 0);
                assert(b1[q - 1] == x);
            }
            if b1.contains(x) {
                let p = choose|p: int| 0 <= p < b1.len() && b1[p] == x;
                assert(b[p + 1] == x);
                assert(b[0] < x);
                assert(a.to_set().contains(x));
                let q = choose|q: int| 0 <= q < a.len() && a[q] == x;
                assert(q != 0);
                assert(a1[q - 1] == x);
            }
        }
        assert(a1.to_set() =~= b1.to_set());
        lemma_increasing_unique(a1, b1);
        assert(a =~= b) by {
            assert forall|k: int| 0 <= k < a.len() implies a[k] == b[k] by {
                if k > 0 {
                    assert(a[k] == a1[k - 1]);
                    assert(b[k] == b1[k - 1]);
                }
            }
        }
    }
}

/// An increasing sequence is the sorted listing of its elements.
proof fn lemma_sorted_ids(q: Seq<u32>)
    requires
        increasing(q),
    ensures
        sorted_ids(q.to_set()) == q,
{
    let c = sorted_ids(q.to_set());
    assert(increasing(q) && q.to_set() == q.to_set());
    lemma_increasing_unique(c, q);
}

/// `q` with `x` put in its place, unless it is there already.
fn insert_sorted(q: &mut Vec<u32>, x: u32)
    requires
        increasing(old(q)@),
    ensures
        increasing(final(q)@),
        final(q)@.to_set() == old(q)@.to_set().insert(x),
{
    let ghost q0 = q@;
    let mut i: usize = 0;
    while i < q.len() && q[i] < x
        invariant
            0 <= i <= q@.len(),
            q@ == q0,
            forall|j: int| 0 <= j < i ==> q@[j] < x,
        decreases q.len() - i,
    {
        i += 1;
    }
    if i < q.len() && q[i] == x {
        assert(q@.to_set() =~= q0.to_set().insert(x)) by {
            assert(q0.to_set().contains(q0[i as int]));
        }
        return;
    }
    q.insert(i, x);
    proof {
        assert forall|a: int, b: int| 0 <= a < b < q@.len() implies q@[a] < q@[b] by {
            if b < i {
            } else if b == i {
            } else if a < i {
                assert(q@[b] == q0[b - 1]);
                assert(q0[b - 1] >= x) by {
                    if b - 1 > i {
                        assert(q0[i as int] < q0[b - 1]);
                    }
                }
            } else if a == i {
                assert(q@[b] == q0[b - 1]);
                assert(q0[b - 1] >= x) by {
                    if b - 1 > i {
                        assert(q0[i as int] < q0[b - 1]);
                    }
                }
            } else {
                assert(q@[a] == q0[a - 1]);
                assert(q@[b] == q0[b - 1]);
            }
        }
        assert forall|y: u32| q@.to_set().contains(y) == q0.to_set().insert(x).contains(y) by {
            if q@.contains(y) {
                let p = choose|p: int| 0 <= p < q@.len() && q@[p] == y;
                if p < i {
                    assert(q0[p] == y);
                } else if p > i {
                    assert(q0[p - 1] == y);
                }
            }
            if q0.contains(y) {
                let p = choose|p: int| 0 <= p < q0.len() && q0[p] == y;
                if p < i {
                    assert(q@[p] == y);
                } else {
                    assert(q@[p + 1] == y);
                }
            }
            if y == x {
                assert(q@[i as int] == x);
            }
        }
        assert(q@.to_set() =~= q0.to_set().insert(x));
    }
}

/// The ids of `v` in increasing order, each once: `sorted_ids` of its set.
fn sorted_unique(v: &Vec<u32>) -> (r: Vec<u32>)
    ensures
        r@ == sorted_ids(v@.to_set()),
        increasing(r@),
        r@.to_set() == v@.to_set(),
        r@.no_duplicates(),
{
    let mut r: Vec<u32> = Vec::new();
    let mut i: usize = 0;
    assert(r@.to_set() =~= v@.subrange(0, 0).to_set());
    while i < v.len()
        invariant
            0 <= i <= v@.len(),
            increasing(r@),
            r@.to_set() == v@.subrange(0, i as int).to_set(),
        decreases v.len() - i,
    {
        insert_sorted(&mut r, v[i]);
        proof {
            let w1 = v@.subrange(0, i + 1);
            let w0 = v@.subrange(0, i as int);
            assert forall|y: u32| w1.contains(y) == (w0.contains(y) || y == v@[i as int]) by {
                if w1.contains(y) {
                    let p = choose|p: int| 0 <= p < w1.len() && w1[p] == y;
                    if p < i {
                        assert(w0[p] == y);
                    }
                }
                if w0.contains(y) {
                    let p = choose|p: int| 0 <= p < w0.len() && w0[p] == y;
                    assert(w1[p] == y);
                }
                if y == v@[i as int] {
                    assert(w1[i as int] == y);
                }
            }
            assert(w1.to_set() =~= w0.to_set().insert(v@[i as int]));
        }
        i += 1;
    }
    assert(v@.subrange(0, v@.len() as int) =~= v@);
    proof {
        lemma_sorted_ids(r@);
        assert forall|a: int, b: int|
            0 <= a < r@.len() && 0 <= b < r@.len() && a != b implies r@[a] != r@[b] by {
            if a < b {
                assert(r@[a] < r@[b]);
            } else {
                assert(r@[b] < r@[a]);
            }
        }
    }
    r
}


/// The ids used by the right-hand side of the ValDef of `id` that
/// `def_map` keeps, if there is one.
fn def_uses(items: &Vec<Node>, id: u32) -> (r: Option<Vec<u32>>)
    ensures
        match r {
            Some(u) => def_map(nodes_view(items@)).contains_key(id) && u@ == val_uses(
                rhs_of(def_map(nodes_view(items@))[id]),
            ),
            None => !def_map(nodes_view(items@)).contains_key(id),
        },
{
    match find_def(items, id) {
        Some(p) => {
            let mut u: Vec<u32> = Vec::new();
            match &items[p] {
                Node::ValDef { id: d, rhs } => {
                    assert(node_view(items@[p as int]) == Tree::ValDef {
                        id: *d,
                        rhs: Box::new(node_view(**rhs)),
                    });
                    collect_all_val_uses(rhs, &mut u);
                    assert(u@ =~= val_uses(node_view(**rhs)));
                },
                _ => {
                    assert(false);
                },
            }
            Some(u)
        },
        None => None,
    }
}

/// The ValDefs used by the right-hand sides of the ValDefs named by the
/// first `i` ids of `cur`.
pub open spec fn reached_from(items: Seq<Tree>, cur: Seq<u32>, i: int) -> Set<u32> {
    Set::new(
        |d: u32|
            def_map(items).contains_key(d) && exists|j: int|
                0 <= j < i && def_map(items).contains_key(#[trigger] cur[j]) && val_uses(
                    rhs_of(def_map(items)[cur[j]]),
                ).contains(d),
    )
}

/// `cur` followed by the ids that `step_uses` adds to its set.
fn step_vec(items: &Vec<Node>, cur: &Vec<u32>) -> (r: Vec<u32>)
    requires
        cur@.no_duplicates(),
    ensures
        r@.no_duplicates(),
        r@.len() >= cur@.len(),
        forall|i: int| 0 <= i < cur@.len() ==> r@[i] == cur@[i],
        r@.to_set() == step_uses(nodes_view(items@), cur@.to_set()),
{
    let ghost s = nodes_view(items@);
    let mut r: Vec<u32> = Vec::new();
    let mut i: usize = 0;
    while i < cur.len()
        invariant
            0 <= i <= cur@.len(),
            r@ == cur@.subrange(0, i as int),
        decreases cur.len() - i,
    {
        r.push(cur[i]);
        assert(r@ =~= cur@.subrange(0, i + 1));
        i += 1;
    }
    assert(r@ =~= cur@);
    assert(reached_from(s, cur@, 0) =~= Set::<u32>::empty());
    assert(r@.to_set() =~= cur@.to_set().union(reached_from(s, cur@, 0)));
    let mut i: usize = 0;
    while i < cur.len()
        invariant
            0 <= i <= cur@.len(),
            s == nodes_view(items@),
            cur@.no_duplicates(),
            r@.no_duplicates(),
            r@.len() >= cur@.len(),
            forall|j: int| 0 <= j < cur@.len() ==> r@[j] == cur@[j],
            r@.to_set() == cur@.to_set().union(reached_from(s, cur@, i as int)),
        decreases cur.len() - i,
    {
        let ghost before = r@.to_set();
        match def_uses(items, cur[i]) {
            Some(u) => {
                let mut k: usize = 0;
                while k < u.len()
                    invariant
                        0 <= k <= u@.len(),
                        s == nodes_view(items@),
                        r@.no_duplicates(),
                        r@.len() >= cur@.len(),
                        forall|j: int| 0 <= j < cur@.len() ==> r@[j] == cur@[j],
                        r@.to_set() == before.union(
                            Set::new(
                                |d: u32|
                                    def_map(s).contains_key(d) && u@.subrange(
                                        0,
                                        k as int,
                                    ).contains(d),
                            ),
                        ),
                    decreases u.len() - k,
                {
                    let d = u[k];
                    let ghost rb = r@;
                    let in_dom = find_def(items, d).is_some();
                    if in_dom && !vec_contains(&r, d) {
                        r.push(d);
                        proof {
                            lemma_push_to_set(rb, d);
                        }
                    }
                    proof {
                        let w1 = u@.subrange(0, k + 1);
                        let w0 = u@.subrange(0, k as int);
                        assert forall|y: u32| w1.contains(y) == (w0.contains(y) || y == d) by {
                            if w1.contains(y) {
                                let p = choose|p: int| 0 <= p < w1.len() && w1[p] == y;
                                if p < k {
                                    assert(w0[p] == y);
                                }
                            }
                            if w0.contains(y) {
                                let p = choose|p: int| 0 <= p < w0.len() && w0[p] == y;
                                assert(w1[p] == y);
                            }
                            if y == d {
                                assert(w1[k as int] == y);
                            }
                        }
                        assert(r@.to_set() =~= before.union(
                            Set::new(|x: u32| def_map(s).contains_key(x) && w1.contains(x)),
                        ));
                    }
                    k += 1;
                }
                proof {
                    assert(u@.subrange(0, u@.len() as int) =~= u@);
                    assert forall|x: u32|
                        r@.to_set().contains(x) == cur@.to_set().union(
                            reached_from(s, cur@, i + 1),
                        ).contains(x) by {
                        if reached_from(s, cur@, i + 1).contains(x) && !reached_from(
                            s,
                            cur@,
                            i as int,
                        ).contains(x) {
                            let j = choose|j: int|
                                0 <= j < i + 1 && def_map(s).contains_key(#[trigger] cur@[j])
                                    && val_uses(rhs_of(def_map(s)[cur@[j]])).contains(x);
                            assert(j == i);
                        }
                        if reached_from(s, cur@, i as int).contains(x) {
                            let j = choose|j: int|
                                0 <= j < i && def_map(s).contains_key(#[trigger] cur@[j])
                                    && val_uses(rhs_of(def_map(s)[cur@[j]])).contains(x);
                            assert(reached_from(s, cur@, i + 1).contains(x));
                        }
                        if def_map(s).contains_key(x) && u@.contains(x) {
                            assert(reached_from(s, cur@, i + 1).contains(x));
                        }
                    }
                    assert(r@.to_set() =~= cur@.to_set().union(reached_from(s, cur@, i + 1)));
                }
            },
            None => {
                proof {
                    assert forall|x: u32|
                        reached_from(s, cur@, i + 1).contains(x) == reached_from(
                            s,
                            cur@,
                            i as int,
                        ).contains(x) by {
                        if reached_from(s, cur@, i + 1).contains(x) {
                            let j = choose|j: int|
                                0 <= j < i + 1 && def_map(s).contains_key(#[trigger] cur@[j])
                                    && val_uses(rhs_of(def_map(s)[cur@[j]])).contains(x);
                            assert(j != i);
                        }
                    }
                    assert(reached_from(s, cur@, i + 1) =~= reached_from(s, cur@, i as int));
                }
            },
        }
        i += 1;
    }
    proof {
        assert forall|x: u32|
            step_uses(s, cur@.to_set()).contains(x) == cur@.to_set().union(
                reached_from(s, cur@, cur@.len() as int),
            ).contains(x) by {
            if reached_from(s, cur@, cur@.len() as int).contains(x) {
                let j = choose|j: int|
                    0 <= j < cur@.len() && def_map(s).contains_key(#[trigger] cur@[j]) && val_uses(
                        rhs_of(def_map(s)[cur@[j]]),
                    ).contains(x);
                assert(cur@.to_set().contains(cur@[j]));
            }
            if step_uses(s, cur@.to_set()).contains(x) && !cur@.to_set().contains(x) {
                let id = choose|id: u32|
                    #![trigger cur@.to_set().contains(id), def_map(s).contains_key(id)]
                    cur@.to_set().contains(id) && def_map(s).contains_key(id) && val_uses(
                        rhs_of(def_map(s)[id]),
                    ).contains(x);
                let j = choose|j: int| 0 <= j < cur@.len() && cur@[j] == id;
                assert(def_map(s).contains_key(cur@[j]));
            }
        }
        assert(r@.to_set() =~= step_uses(s, cur@.to_set()));
    }
    r
}


/// The set of `closure` from the ids of `start`, listed without repeats.
fn closure_vec(items: &Vec<Node>, start: Vec<u32>) -> (r: Vec<u32>)
    requires
        start@.no_duplicates(),
    ensures
        r@.to_set() == closure(nodes_view(items@), start@.to_set(), items@.len() as nat),
{
    let ghost s = nodes_view(items@);
    let ghost start_set = start@.to_set();
    let ghost target = closure(s, start_set, items@.len() as nat);
    let mut cur = start;
    let mut fuel: usize = items.len();
    loop
        invariant
            s == nodes_view(items@),
            cur@.no_duplicates(),
            start_set == start@.to_set(),
            target == closure(nodes_view(items@), start_set, items@.len() as nat),
            closure(s, cur@.to_set(), fuel as nat) == target,
        decreases fuel,
    {
        if fuel == 0 {
            return cur;
        }
        let next = step_vec(items, &cur);
        if next.len() == cur.len() {
            assert(next@ =~= cur@);
            return cur;
        }
        proof {
            let x = next@[cur@.len() as int];
            assert(next@.to_set().contains(x));
            if step_uses(s, cur@.to_set()) == cur@.to_set() {
                assert(cur@.to_set().contains(x));
                let j = choose|j: int| 0 <= j < cur@.len() && cur@[j] == x;
                assert(next@[j] == x);
            }
        }
        cur = next;
        fuel -= 1;
    }
}

/// Whether some id of `bids` names a ValDef whose right-hand side uses
/// another id of `bids`, as `has_interleave` says.
fn find_interleave(items: &Vec<Node>, bids: &Vec<u32>) -> (r: bool)
    ensures
        r == has_interleave(nodes_view(items@), bids@),
{
    let ghost s = nodes_view(items@);
    let mut i: usize = 0;
    while i < bids.len()
        invariant
            0 <= i <= bids@.len(),
            s == nodes_view(items@),
            forall|a: int, b: int|
                0 <= a < i && def_map(s).contains_key(#[trigger] bids@[a]) && 0 <= b
                    < val_uses(rhs_of(def_map(s)[bids@[a]])).len() ==> !(#[trigger] val_uses(
                    rhs_of(def_map(s)[bids@[a]]),
                )[b] != bids@[a] && bids@.contains(val_uses(rhs_of(def_map(s)[bids@[a]]))[b])),
        decreases bids.len() - i,
    {
        let id = bids[i];
        match def_uses(items, id) {
            Some(u) => {
                let mut j: usize = 0;
                while j < u.len()
                    invariant
                        0 <= j <= u@.len(),
                        0 <= i < bids@.len(),
                        s == nodes_view(items@),
                        id == bids@[i as int],
                        def_map(s).contains_key(id),
                        u@ == val_uses(rhs_of(def_map(s)[id])),
                        forall|b: int| 0 <= b < j ==> !(#[trigger] u@[b] != id && bids@.contains(u@[b])),
                    decreases u.len() - j,
                {
                    if u[j] != id && vec_contains(bids, u[j]) {
                        let ghost w = val_uses(rhs_of(def_map(s)[bids@[i as int]]));
                        assert(def_map(s).contains_key(bids@[i as int]) && 0 <= j < w.len()
                            && w[j as int] != bids@[i as int] && bids@.contains(w[j as int]));
                        return true;
                    }
                    j += 1;
                }
            },
            None => {},
        }
        i += 1;
    }
    false
}

/// Whether `id` names a ValDef with a constant right-hand side.
fn const_def(items: &Vec<Node>, id: u32) -> (r: bool)
    ensures
        r == is_const_def(nodes_view(items@), id),
{
    match find_def(items, id) {
        Some(p) => match &items[p] {
            Node::ValDef { id: d, rhs } => {
                assert(node_view(items@[p as int]) == Tree::ValDef {
                    id: *d,
                    rhs: Box::new(node_view(**rhs)),
                });
                match &**rhs {
                    Node::Op { kind, payload, children } => {
                        assert(node_view(**rhs) == Tree::Op {
                            kind: *kind,
                            payload: *payload,
                            children: nodes_view(children@),
                        });
                        *kind == OpKind::Const || *kind == OpKind::ConstPlaceholder
                    },
                    Node::ValDef { .. } => false,
                    Node::ValUse { .. } => false,
                    Node::Block { .. } => false,
                    Node::If { .. } => false,
                    Node::Func { .. } => false,
                }
            },
            _ => {
                assert(false);
                false
            },
        },
        None => false,
    }
}

/// `q` with the ids of constant ValDefs moved last, as `consts_last` says.
fn split_consts(items: &Vec<Node>, q: &Vec<u32>) -> (r: Vec<u32>)
    ensures
        r@ == consts_last(nodes_view(items@), q@),
{
    let ghost s = nodes_view(items@);
    let mut plain: Vec<u32> = Vec::new();
    let mut consts: Vec<u32> = Vec::new();
    let mut i: usize = 0;
    assert(q@.subrange(0, 0) =~= Seq::<u32>::empty());
    while i < q.len()
        invariant
            0 <= i <= q@.len(),
            s == nodes_view(items@),
            plain@ == ids_where(s, q@.subrange(0, i as int), false),
            consts@ == ids_where(s, q@.subrange(0, i as int), true),
        decreases q.len() - i,
    {
        assert(q@.subrange(0, i + 1).drop_last() =~= q@.subrange(0, i as int));
        assert(q@.subrange(0, i + 1).last() == q@[i as int]);
        if const_def(items, q[i]) {
            consts.push(q[i]);
        } else {
            plain.push(q[i]);
        }
        i += 1;
    }
    assert(q@.subrange(0, q@.len() as int) =~= q@);
    let ghost a = plain@;
    let ghost b = consts@;
    plain.append(&mut consts);
    assert(plain@ =~= a + b);
    plain
}

/// The emission order of the ValDefs used by the branches of an If, as
/// `if_order` says for the branch uses `bids`.
fn if_order_of(items: &Vec<Node>, bids: &Vec<u32>) -> (r: Vec<u32>)
    ensures
        r@ == if_order(nodes_view(items@), bids@),
        forall|x: u32|
            r@.contains(x) ==> closure(nodes_view(items@), bids@.to_set(), items@.len() as nat).contains(
                x,
            ),
{
    let ghost s = nodes_view(items@);
    proof {
        lemma_closure_grows(s, bids@.to_set(), items@.len() as nat);
    }
    if is_dense(items) {
        let start = sorted_unique(bids);
        let c = closure_vec(items, start);
        let r = sorted_unique(&c);
        assert forall|x: u32| r@.contains(x) implies closure(
            s,
            bids@.to_set(),
            items@.len() as nat,
        ).contains(x) by {
            assert(r@.to_set().contains(x));
            assert(c@.to_set().contains(x));
        }
        r
    } else {
        let q = sorted_unique(bids);
        let r = split_consts(items, &q);
        assert forall|x: u32| r@.contains(x) implies closure(
            s,
            bids@.to_set(),
            items@.len() as nat,
        ).contains(x) by {
            lemma_ids_where_sub(s, q@, false, x);
            lemma_ids_where_sub(s, q@, true, x);
            let a = ids_where(s, q@, false);
            let b = ids_where(s, q@, true);
            let p = choose|p: int| 0 <= p < r@.len() && r@[p] == x;
            if p < a.len() {
                assert(a[p] == x);
            } else {
                assert(b[p - a.len()] == x);
            }
            assert(q@.to_set().contains(x));
            assert(bids@.to_set().contains(x));
        }
        r
    }
}

proof fn lemma_ids_where_sub(s: Seq<Tree>, q: Seq<u32>, want: bool, x: u32)
    ensures
        ids_where(s, q, want).contains(x) ==> q.contains(x),
    decreases q.len(),
{
    if q.len() > 0 {
        lemma_ids_where_sub(s, q.drop_last(), want, x);
        let rest = ids_where(s, q.drop_last(), want);
        if ids_where(s, q, want).contains(x) {
            let p = choose|p: int| 0 <= p < ids_where(s, q, want).len() && ids_where(s, q, want)[p] == x;
            if p < rest.len() {
                assert(rest[p] == x);
                let k = choose|k: int| 0 <= k < q.drop_last().len() && q.drop_last()[k] == x;
                assert(q[k] == x);
            } else {
                assert(q[q.len() - 1] == x);
            }
        }
    }
}

proof fn lemma_closure_grows(s: Seq<Tree>, st: Set<u32>, fuel: nat)
    ensures
        forall|x: u32| st.contains(x) ==> #[trigger] closure(s, st, fuel).contains(x),
    decreases fuel,
{
    if fuel > 0 && step_uses(s, st) != st {
        let nx = step_uses(s, st);
        lemma_closure_grows(s, nx, (fuel - 1) as nat);
        assert(closure(s, st, fuel) == closure(s, nx, (fuel - 1) as nat));
        assert forall|x: u32| st.contains(x) implies #[trigger] closure(s, st, fuel).contains(x) by {
            assert(nx.contains(x));
        }
    } else {
        assert(closure(s, st, fuel) == st);
    }
}

/// When the ValDefs of `st` rank below `bound`, so do those of its closure.
proof fn lemma_closure_below(
    s: Seq<Tree>,
    st: Set<u32>,
    fuel: nat,
    rank: spec_fn(u32) -> nat,
    bound: nat,
)
    requires
        ranked(s, rank),
        forall|x: u32| st.contains(x) && def_map(s).contains_key(x) ==> rank(x) < bound,
    ensures
        forall|x: u32| #[trigger]
            closure(s, st, fuel).contains(x) && def_map(s).contains_key(x) ==> rank(x) < bound,
    decreases fuel,
{
    if fuel > 0 && step_uses(s, st) != st {
        let nx = step_uses(s, st);
        assert forall|x: u32| nx.contains(x) && def_map(s).contains_key(x) implies rank(x)
            < bound by {
            if !st.contains(x) {
                let id = choose|id: u32|
                    #![trigger st.contains(id), def_map(s).contains_key(id)]
                    st.contains(id) && def_map(s).contains_key(id) && val_uses(
                        rhs_of(def_map(s)[id]),
                    ).contains(x);
                assert(rank(x) < rank(id));
            }
        }
        lemma_closure_below(s, nx, (fuel - 1) as nat, rank, bound);
        assert(closure(s, st, fuel) == closure(s, nx, (fuel - 1) as nat));
    } else {
        assert(closure(s, st, fuel) == st);
    }
}

proof fn lemma_uses_seq_elem(s: Seq<Tree>, i: int, x: u32)
    requires
        0 <= i < s.len(),
        val_uses(s[i]).contains(x),
    ensures
        val_uses_seq(s).contains(x),
    decreases s.len(),
{
    let a = val_uses_seq(s.drop_last());
    let b = val_uses(s.last());
    assert(val_uses_seq(s) == a + b);
    if i < s.len() - 1 {
        lemma_uses_seq_elem(s.drop_last(), i, x);
        let p = choose|p: int| 0 <= p < a.len() && a[p] == x;
        assert((a + b)[p] == x);
    } else {
        let p = choose|p: int| 0 <= p < b.len() && b[p] == x;
        assert((a + b)[a.len() + p] == x);
    }
}

proof fn lemma_concat_contains(a: Seq<u32>, b: Seq<u32>, x: u32)
    ensures
        a.contains(x) ==> (a + b).contains(x),
        b.contains(x) ==> (a + b).contains(x),
{
    if a.contains(x) {
        let p = choose|p: int| 0 <= p < a.len() && a[p] == x;
        assert((a + b)[p] == x);
    }
    if b.contains(x) {
        let p = choose|p: int| 0 <= p < b.len() && b[p] == x;
        assert((a + b)[a.len() + p] == x);
    }
}


/// The right-hand side of the ValDef at position `p` of `items`.
pub(crate) fn def_rhs(items: &Vec<Node>, p: usize) -> (r: &Node)
    requires
        p < items@.len(),
        node_view(items@[p as int]) is ValDef,
    ensures
        r@ == rhs_of(node_view(items@[p as int])),
{
    match &items[p] {
        Node::ValDef { id, rhs } => {
            assert(node_view(items@[p as int]) == Tree::ValDef { id: *id, rhs: Box::new(node_view(**rhs)) });
            rhs
        },
        _ => {
            assert(false);
            &items[p]
        },
    }
}

/// Walks the trees of `v` in order, as `emit_seq` says.
fn emit_deps_seq(
    v: &Vec<Node>,
    items: &Vec<Node>,
    emitted: &mut Vec<Node>,
    emitted_ids: &mut HashSet<u32>,
    in_thunk: bool,
    Ghost(rank): Ghost<spec_fn(u32) -> nat>,
    Ghost(bound): Ghost<nat>,
)
    requires
        ranked(nodes_view(items@), rank),
        forall|x: u32|
            #[trigger] val_uses_seq(nodes_view(v@)).contains(x) && def_map(
                nodes_view(items@),
            ).contains_key(x) ==> rank(x) < bound,
    ensures
        (nodes_view(final(emitted)@), final(emitted_ids)@) == emit_seq(
            nodes_view(v@),
            v@.len() as int,
            nodes_view(items@),
            (nodes_view(old(emitted)@), old(emitted_ids)@),
            in_thunk,
            rank,
            bound,
        ),
    decreases bound, v@, 2int, 0int,
{
    let ghost sv = nodes_view(v@);
    let ghost s = nodes_view(items@);
    let ghost st0 = (nodes_view(emitted@), emitted_ids@);
    let mut i: usize = 0;
    while i < v.len()
        invariant
            0 <= i <= v@.len(),
            sv == nodes_view(v@),
            s == nodes_view(items@),
            ranked(s, rank),
            forall|x: u32| #[trigger] val_uses_seq(sv).contains(x) && def_map(s).contains_key(x)
                ==> rank(x) < bound,
            (nodes_view(emitted@), emitted_ids@) == emit_seq(sv, i as int, s, st0, in_thunk, rank, bound),
        decreases v.len() - i,
    {
        assert(decreases_to!(v@ => v@[i as int]));
        assert(sv[i as int] == node_view(v@[i as int]));
        proof {
            assert forall|x: u32| #[trigger] val_uses(sv[i as int]).contains(x) && def_map(
                s,
            ).contains_key(x) implies rank(x) < bound by {
                lemma_uses_seq_elem(sv, i as int, x);
            }
        }
        emit_deps(&v[i], items, emitted, emitted_ids, in_thunk, false, Ghost(rank), Ghost(bound));
        i += 1;
    }
}

/// The dependency walk: appends to `emitted` the ValDefs of `items` that
/// `expr` uses, each after its own dependencies, and records their ids,
/// as `emit` says.
fn emit_deps(
    expr: &Node,
    items: &Vec<Node>,
    emitted: &mut Vec<Node>,
    emitted_ids: &mut HashSet<u32>,
    in_thunk: bool,
    parent_is_or: bool,
    Ghost(rank): Ghost<spec_fn(u32) -> nat>,
    Ghost(bound): Ghost<nat>,
)
    requires
        ranked(nodes_view(items@), rank),
        uses_below(expr@, nodes_view(items@), rank, bound),
    ensures
        (nodes_view(final(emitted)@), final(emitted_ids)@) == emit(
            expr@,
            nodes_view(items@),
            (nodes_view(old(emitted)@), old(emitted_ids)@),
            in_thunk,
            parent_is_or,
            rank,
            bound,
        ),
    decreases bound, expr, 2int, 0int,
{
    let ghost s = nodes_view(items@);
    let ghost st0 = (nodes_view(emitted@), emitted_ids@);
    match expr {
        Node::ValUse { id, tpe } => {
            assert(expr@ == Tree::ValUse { id: *id, tpe: *tpe });
            assert(val_uses(expr@) == seq![*id]);
            assert(val_uses(expr@)[0] == *id);
            assert(val_uses(expr@).contains(*id));
            let pos = if emitted_ids.contains(id) {
                None
            } else {
                find_def(items, *id)
            };
            if let Some(p) = pos {
                let rhs = def_rhs(items, p);
                proof {
                    assert forall|x: u32| #[trigger]
                        val_uses(rhs@).contains(x) && def_map(s).contains_key(x) implies rank(x)
                        < rank(*id) by {
                        assert(val_uses(rhs_of(def_map(s)[*id])).contains(x));
                    }
                }
                emit_deps(rhs, items, emitted, emitted_ids, in_thunk, false, Ghost(rank), Ghost(rank(*id)));
                let ghost before = emitted@;
                emitted_ids.insert(*id);
                emitted.push(clone_node(&items[p]));
                assert(nodes_view(emitted@) =~= nodes_view(before).push(node_view(items@[p as int])));
            }
            assert((nodes_view(emitted@), emitted_ids@) == emit(expr@, s, st0, in_thunk, parent_is_or, rank, bound));
        },
        Node::Block { items: bi, result } => {
            assert(expr@ == Tree::Block {
                items: nodes_view(bi@),
                result: Box::new(node_view(**result)),
            });
            proof {
                assert(val_uses(expr@) == val_uses_seq(nodes_view(bi@)) + val_uses(
                    node_view(**result),
                ));
                assert forall|x: u32| #[trigger]
                    val_uses_seq(nodes_view(bi@)).contains(x) && def_map(s).contains_key(x) implies rank(x)
                    < bound by {
                    lemma_concat_contains(val_uses_seq(nodes_view(bi@)), val_uses(node_view(**result)), x);
                    assert(val_uses(expr@).contains(x));
                }
                assert forall|x: u32| #[trigger]
                    val_uses(node_view(**result)).contains(x) && def_map(s).contains_key(x) implies rank(x)
                    < bound by {
                    lemma_concat_contains(val_uses_seq(nodes_view(bi@)), val_uses(node_view(**result)), x);
                    assert(val_uses(expr@).contains(x));
                }
            }
            emit_deps_seq(bi, items, emitted, emitted_ids, in_thunk, Ghost(rank), Ghost(bound));
            emit_deps(result, items, emitted, emitted_ids, in_thunk, false, Ghost(rank), Ghost(bound));
            assert((nodes_view(emitted@), emitted_ids@) == emit(expr@, s, st0, in_thunk, parent_is_or, rank, bound));
        },
        Node::ValDef { id, rhs } => {
            assert(expr@ == Tree::ValDef { id: *id, rhs: Box::new(node_view(**rhs)) });
            assert(val_uses(expr@) == val_uses(node_view(**rhs)));
            emit_deps(rhs, items, emitted, emitted_ids, in_thunk, false, Ghost(rank), Ghost(bound));
            assert((nodes_view(emitted@), emitted_ids@) == emit(expr@, s, st0, in_thunk, parent_is_or, rank, bound));
        },
        Node::Func { args, body } => {
            assert(expr@ == Tree::Func { args: args@, body: Box::new(node_view(**body)) });
            assert(val_uses(expr@) == val_uses(node_view(**body)));
            emit_deps(body, items, emitted, emitted_ids, in_thunk, false, Ghost(rank), Ghost(bound));
            assert((nodes_view(emitted@), emitted_ids@) == emit(expr@, s, st0, in_thunk, parent_is_or, rank, bound));
        },
        Node::If { cond, then_branch, else_branch } => {
            let ghost tc = node_view(**cond);
            let ghost tt = node_view(**then_branch);
            let ghost te = node_view(**else_branch);
            assert(expr@ == Tree::If {
                cond: Box::new(tc),
                then_branch: Box::new(tt),
                else_branch: Box::new(te),
            });
            let ghost all = val_uses(tc) + val_uses(tt) + val_uses(te);
            assert(val_uses(expr@) == all);
            proof {
                assert forall|x: u32| #[trigger] val_uses(tc).contains(x) && def_map(s).contains_key(x)
                    implies rank(x) < bound by {
                    lemma_concat_contains(val_uses(tc), val_uses(tt), x);
                    lemma_concat_contains(val_uses(tc) + val_uses(tt), val_uses(te), x);
                    assert(val_uses(expr@).contains(x));
                }
                assert forall|x: u32| #[trigger] val_uses(tt).contains(x) && def_map(s).contains_key(x)
                    implies rank(x) < bound by {
                    lemma_concat_contains(val_uses(tc), val_uses(tt), x);
                    lemma_concat_contains(val_uses(tc) + val_uses(tt), val_uses(te), x);
                    assert(val_uses(expr@).contains(x));
                }
                assert forall|x: u32| #[trigger] val_uses(te).contains(x) && def_map(s).contains_key(x)
                    implies rank(x) < bound by {
                    lemma_concat_contains(val_uses(tc) + val_uses(tt), val_uses(te), x);
                    assert(val_uses(expr@).contains(x));
                }
            }
            let ghost st0 = (nodes_view(emitted@), emitted_ids@);
            emit_deps(cond, items, emitted, emitted_ids, in_thunk, false, Ghost(rank), Ghost(bound));
            let ghost st1 = (nodes_view(emitted@), emitted_ids@);
            let mut bids: Vec<u32> = Vec::new();
            collect_all_val_uses(then_branch, &mut bids);
            collect_all_val_uses(else_branch, &mut bids);
            assert(bids@ =~= val_uses(tt) + val_uses(te));
            if find_interleave(items, &bids) && !is_dense(items) {
                emit_deps(
                    then_branch,
                    items,
                    emitted,
                    emitted_ids,
                    in_thunk,
                    false,
                    Ghost(rank),
                    Ghost(bound),
                );
                emit_deps(
                    else_branch,
                    items,
                    emitted,
                    emitted_ids,
                    in_thunk,
                    false,
                    Ghost(rank),
                    Ghost(bound),
                );
                assert(st1 == emit(tc, s, st0, in_thunk, false, rank, bound));
                assert(has_interleave(s, bids@) && !dense(s));
                assert((nodes_view(emitted@), emitted_ids@) == if_emit(expr@, s, st0, in_thunk, rank, bound));
                assert((nodes_view(emitted@), emitted_ids@) == emit(expr@, s, st0, in_thunk, parent_is_or, rank, bound));
            } else {
                let order = if_order_of(items, &bids);
                proof {
                    assert forall|x: u32| bids@.to_set().contains(x) && def_map(s).contains_key(x)
                        implies rank(x) < bound by {
                        let p = choose|p: int| 0 <= p < bids@.len() && bids@[p] == x;
                        if p < val_uses(tt).len() {
                            assert(val_uses(tt)[p] == x);
                            assert(val_uses(tt).contains(x));
                        } else {
                            assert(val_uses(te)[p - val_uses(tt).len()] == x);
                            assert(val_uses(te).contains(x));
                        }
                    }
                    lemma_closure_below(s, bids@.to_set(), items@.len() as nat, rank, bound);
                }
                let mut j: usize = 0;
                while j < order.len()
                    invariant
                        0 <= j <= order@.len(),
                        s == nodes_view(items@),
                        ranked(s, rank),
                        order@ == if_order(s, bids@),
                        bids@ == val_uses(tt) + val_uses(te),
                        forall|x: u32| order@.contains(x) && def_map(s).contains_key(x) ==> rank(x)
                            < bound,
                        (nodes_view(emitted@), emitted_ids@) == emit_ids(
                            order@,
                            j as int,
                            s,
                            st1,
                            in_thunk,
                            rank,
                            bound,
                            expr@,
                        ),
                    decreases order.len() - j,
                {
                    let id = order[j];
                    if !emitted_ids.contains(&id) {
                        match find_def(items, id) {
                            Some(p) => {
                                assert(order@.contains(id));
                                assert(rank(id) < bound);
                                match &items[p] {
                                    Node::ValDef { id: d, rhs } => {
                                        assert(node_view(items@[p as int]) == Tree::ValDef {
                                            id: *d,
                                            rhs: Box::new(node_view(**rhs)),
                                        });
                                        assert forall|x: u32| #[trigger]
                                            val_uses(node_view(**rhs)).contains(x) && def_map(
                                                s,
                                            ).contains_key(x) implies rank(x) < rank(id) by {
                                            assert(def_map(s).contains_key(id));
                                            assert(rhs_of(def_map(s)[id]) == node_view(**rhs));
                                            assert(val_uses(rhs_of(def_map(s)[id])).contains(x));
                                        }
                                        assert(rhs_of(def_map(s)[id]) == node_view(**rhs));
                                        emit_deps(
                                            rhs,
                                            items,
                                            emitted,
                                            emitted_ids,
                                            in_thunk,
                                            false,
                                            Ghost(rank),
                                            Ghost(rank(id)),
                                        );
                                    },
                                    _ => {
                                        assert(false);
                                    },
                                }
                                let ghost before = emitted@;
                                emitted_ids.insert(id);
                                emitted.push(clone_node(&items[p]));
                                assert(nodes_view(emitted@) =~= nodes_view(before).push(
                                    node_view(items@[p as int]),
                                ));
                            },
                            None => {},
                        }
                    }
                    j += 1;
                }
                assert(order@.len() == order.len());
                assert((nodes_view(emitted@), emitted_ids@) == emit_ids(order@, order@.len() as int, s, st1, in_thunk, rank, bound, expr@));
                assert((nodes_view(emitted@), emitted_ids@) == if_emit(expr@, s, st0, in_thunk, rank, bound));
                assert((nodes_view(emitted@), emitted_ids@) == emit(expr@, s, st0, in_thunk, parent_is_or, rank, bound));
            }
        },
        Node::Op { kind, payload, children } => {
            let ghost cs = nodes_view(children@);
            assert(expr@ == Tree::Op { kind: *kind, payload: *payload, children: cs });
            assert(val_uses(expr@) == val_uses_seq(cs));
            if *kind == OpKind::BinOp && children.len() == 2 && (*payload == BIN_AND || *payload
                == BIN_OR) {
                let is_or = *payload == BIN_OR;
                assert(cs[0] == node_view(children@[0]));
                assert(cs[1] == node_view(children@[1]));
                proof {
                    assert forall|x: u32| #[trigger] val_uses(cs[0]).contains(x) && def_map(
                        s,
                    ).contains_key(x) implies rank(x) < bound by {
                        lemma_uses_seq_elem(cs, 0, x);
                    }
                    assert forall|x: u32| #[trigger] val_uses(cs[1]).contains(x) && def_map(
                        s,
                    ).contains_key(x) implies rank(x) < bound by {
                        lemma_uses_seq_elem(cs, 1, x);
                    }
                }
                assert(decreases_to!(children@ => children@[0]));
                assert(decreases_to!(children@ => children@[1]));
                let left_is_or = match &children[0] {
                    Node::Op { kind: k, payload: p, children: c } => {
                        assert(cs[0] == Tree::Op { kind: *k, payload: *p, children: nodes_view(c@) });
                        *k == OpKind::BinOp && *p == BIN_OR
                    },
                    Node::ValDef { .. } => false,
                    Node::ValUse { .. } => false,
                    Node::Block { .. } => false,
                    Node::If { .. } => false,
                    Node::Func { .. } => false,
                };
                assert(left_is_or == is_or_tree(cs[0]));
                if in_thunk && is_or && !left_is_or && parent_is_or {
                    emit_deps(
                        &children[1],
                        items,
                        emitted,
                        emitted_ids,
                        true,
                        is_or,
                        Ghost(rank),
                        Ghost(bound),
                    );
                    emit_deps(
                        &children[0],
                        items,
                        emitted,
                        emitted_ids,
                        true,
                        is_or,
                        Ghost(rank),
                        Ghost(bound),
                    );
                } else {
                    emit_deps(
                        &children[0],
                        items,
                        emitted,
                        emitted_ids,
                        in_thunk,
                        is_or,
                        Ghost(rank),
                        Ghost(bound),
                    );
                    emit_deps(
                        &children[1],
                        items,
                        emitted,
                        emitted_ids,
                        true,
                        is_or,
                        Ghost(rank),
                        Ghost(bound),
                    );
                }
            } else if is_emit_kind(*kind) {
                emit_deps_seq(children, items, emitted, emitted_ids, in_thunk, Ghost(rank), Ghost(bound));
            }
            assert((nodes_view(emitted@), emitted_ids@) == emit(expr@, s, st0, in_thunk, parent_is_or, rank, bound));
        },
    }
}

fn is_emit_kind(k: OpKind) -> (r: bool)
    ensures
        r == emit_kind(k),
{
    match k {
        OpKind::BinOp | OpKind::BoolToSigmaProp | OpKind::Filter | OpKind::Exists
        | OpKind::ForAll | OpKind::CollMap | OpKind::Fold | OpKind::PropertyCall
        | OpKind::MethodCall | OpKind::ByteArrayToBigInt | OpKind::ExtractAmount
        | OpKind::ExtractRegisterAs | OpKind::ExtractScriptBytes | OpKind::ExtractBytes
        | OpKind::ExtractId | OpKind::ExtractCreationInfo | OpKind::SizeOf | OpKind::ByIndex
        | OpKind::SelectField | OpKind::OptionGet | OpKind::OptionIsDefined
        | OpKind::OptionGetOrElse | OpKind::Slice | OpKind::LogicalNot | OpKind::Negation
        | OpKind::SigmaPropBytes | OpKind::Upcast | OpKind::Downcast | OpKind::CalcBlake2b256
        | OpKind::CreateProveDlog | OpKind::CreateProveDhTuple | OpKind::SigmaAnd
        | OpKind::SigmaOr | OpKind::Tuple | OpKind::TreeLookup | OpKind::Apply | OpKind::And
        | OpKind::Or | OpKind::Collection | OpKind::Append | OpKind::Exponentiate
        | OpKind::MultiplyGroup | OpKind::DecodePoint | OpKind::LongToByteArray
        | OpKind::ByteArrayToLong => true,
        _ => false,
    }
}


/// The ids used by the right-hand side of a ValDef; nothing for any other
/// tree.
pub open spec fn def_rhs_uses(t: Tree) -> Seq<u32> {
    match t {
        Tree::ValDef { rhs, .. } => val_uses(*rhs),
        _ => Seq::empty(),
    }
}

/// The ids used by the right-hand sides of the ValDefs of `em`.
pub open spec fn rhs_uses(em: Seq<Tree>) -> Set<u32> {
    Set::new(|d: u32| exists|j: int| 0 <= j < em.len() && def_rhs_uses(#[trigger] em[j]).contains(d))
}

/// The liveness pass over the first `k` items of a block, from the
/// emitted list, emitted ids and used ids `st`: a ValDef item not emitted
/// yet is appended when its id is used by the block result or by the
/// right-hand side of a ValDef emitted so far; every other item is dropped.
pub open spec fn keep_live(items: Seq<Tree>, k: int, st: (Seq<Tree>, Set<u32>, Set<u32>)) -> (
    Seq<Tree>,
    Set<u32>,
    Set<u32>,
)
    decreases k,
{
    if k <= 0 || k > items.len() {
        st
    } else {
        let prev = keep_live(items, k - 1, st);
        match items[k - 1] {
            Tree::ValDef { id, .. } => if !prev.1.contains(id) {
                let used = prev.2.union(rhs_uses(prev.0));
                if used.contains(id) {
                    (prev.0.push(items[k - 1]), prev.1.insert(id), used)
                } else {
                    (prev.0, prev.1, used)
                }
            } else {
                prev
            },
            _ => prev,
        }
    }
}

/// A block whose items and result are already reordered: its ValDefs in
/// the order in which the result first needs them (each after its own
/// dependencies), followed by the other ValDefs still used; items that are
/// no ValDef, and unused ValDefs, are dropped. A block left with no items
/// is its result; a block without items stays as it is.
pub open spec fn reorder_block(items: Seq<Tree>, result: Tree) -> Tree {
    if items.len() == 0 {
        Tree::Block { items, result: Box::new(result) }
    } else {
        let rank = choose|rk: spec_fn(u32) -> nat| ranked(items, rk);
        let st = emit(result, items, (Seq::empty(), Set::empty()), false, false, rank, items.len());
        let live = keep_live(items, items.len() as int, (st.0, st.1, val_uses(result).to_set()));
        if live.0.len() == 0 {
            result
        } else {
            Tree::Block { items: live.0, result: Box::new(result) }
        }
    }
}

/// `t` with the ValDefs of every block reordered, bottom-up: the
/// sub-expressions first (not inside FuncValue bodies, nor below the
/// operands of kinds the passes do not rewrite), then the block itself as
/// `reorder_block` says.
pub open spec fn reordered(t: Tree) -> Tree
    decreases t,
{
    match t {
        Tree::ValDef { id, rhs } => Tree::ValDef { id, rhs: Box::new(reordered(*rhs)) },
        Tree::Block { items, result } => reorder_block(reordered_seq(items), reordered(*result)),
        Tree::If { cond, then_branch, else_branch } => Tree::If {
            cond: Box::new(reordered(*cond)),
            then_branch: Box::new(reordered(*then_branch)),
            else_branch: Box::new(reordered(*else_branch)),
        },
        Tree::Op { kind, payload, children } => if mapped_kind(kind) {
            Tree::Op { kind, payload, children: reordered_seq(children) }
        } else {
            t
        },
        _ => t,
    }
}

pub open spec fn reordered_seq(s: Seq<Tree>) -> Seq<Tree>
    decreases s,
{
    Seq::new(
        s.len(),
        |i: int|
            if 0 <= i < s.len() {
                reordered(s[i])
            } else {
                Tree::ValUse { id: 0, tpe: 0 }
            },
    )
}

/// Every block that the reordering reaches has, once its items are
/// reordered, ValDefs that can be ranked: following ValUses from
/// definition to right-hand side never comes back.
pub open spec fn reorderable(t: Tree) -> bool
    decreases t,
{
    match t {
        Tree::ValDef { rhs, .. } => reorderable(*rhs),
        Tree::Block { items, result } => reorderable_seq(items) && reorderable(*result) && exists|
            rk: spec_fn(u32) -> nat,
        | ranked(reordered_seq(items), rk),
        Tree::If { cond, then_branch, else_branch } => reorderable(*cond) && reorderable(
            *then_branch,
        ) && reorderable(*else_branch),
        Tree::Op { kind, children, .. } => mapped_kind(kind) ==> reorderable_seq(children),
        _ => true,
    }
}

pub open spec fn reorderable_seq(s: Seq<Tree>) -> bool
    decreases s,
{
    forall|i: int| 0 <= i < s.len() ==> reorderable(#[trigger] s[i])
}

/// Adds to `used` the ids of `u`.
fn add_ids(used: &mut HashSet<u32>, u: &Vec<u32>)
    ensures
        final(used)@ == old(used)@.union(u@.to_set()),
{
    let ghost u0 = old(used)@;
    let mut i: usize = 0;
    while i < u.len()
        invariant
            0 <= i <= u@.len(),
            used@ == u0.union(u@.subrange(0, i as int).to_set()),
        decreases u.len() - i,
    {
        used.insert(u[i]);
        proof {
            let w1 = u@.subrange(0, i + 1);
            let w0 = u@.subrange(0, i as int);
            assert forall|y: u32| w1.contains(y) == (w0.contains(y) || y == u@[i as int]) by {
                if w1.contains(y) {
                    let p = choose|p: int| 0 <= p < w1.len() && w1[p] == y;
                    if p < i {
                        assert(w0[p] == y);
                    }
                }
                if w0.contains(y) {
                    let p = choose|p: int| 0 <= p < w0.len() && w0[p] == y;
                    assert(w1[p] == y);
                }
                if y == u@[i as int] {
                    assert(w1[i as int] == y);
                }
            }
            assert(used@ =~= u0.union(w1.to_set()));
        }
        i += 1;
    }
    assert(u@.subrange(0, u@.len() as int) =~= u@);
}

/// Adds to `used` the ids used by the right-hand sides of the ValDefs of
/// `emitted`.
fn add_rhs_uses(used: &mut HashSet<u32>, emitted: &Vec<Node>)
    ensures
        final(used)@ == old(used)@.union(rhs_uses(nodes_view(emitted@))),
{
    let ghost u0 = old(used)@;
    let ghost em = nodes_view(emitted@);
    let mut j: usize = 0;
    while j < emitted.len()
        invariant
            0 <= j <= emitted@.len(),
            em == nodes_view(emitted@),
            used@ == u0.union(rhs_uses(em.subrange(0, j as int))),
        decreases emitted.len() - j,
    {
        let ghost before = used@;
        let mut u: Vec<u32> = Vec::new();
        match &emitted[j] {
            Node::ValDef { id, rhs } => {
                assert(em[j as int] == Tree::ValDef { id: *id, rhs: Box::new(node_view(**rhs)) });
                collect_all_val_uses(rhs, &mut u);
            },
            _ => {
                assert(!(em[j as int] is ValDef));
            },
        }
        assert(u@ =~= def_rhs_uses(em[j as int]));
        add_ids(used, &u);
        proof {
            let w1 = em.subrange(0, j + 1);
            let w0 = em.subrange(0, j as int);
            assert forall|d: u32| rhs_uses(w1).contains(d) == (rhs_uses(w0).contains(d)
                || def_rhs_uses(em[j as int]).contains(d)) by {
                if rhs_uses(w1).contains(d) {
                    let p = choose|p: int| 0 <= p < w1.len() && def_rhs_uses(#[trigger] w1[p]).contains(d);
                    if p < j {
                        assert(w0[p] == w1[p]);
                    }
                }
                if rhs_uses(w0).contains(d) {
                    let p = choose|p: int| 0 <= p < w0.len() && def_rhs_uses(#[trigger] w0[p]).contains(d);
                    assert(w1[p] == w0[p]);
                }
                if def_rhs_uses(em[j as int]).contains(d) {
                    assert(w1[j as int] == em[j as int]);
                }
            }
            assert(used@ =~= u0.union(rhs_uses(w1)));
        }
        j += 1;
    }
    assert(em.subrange(0, em.len() as int) =~= em);
}

/// A block whose items and result are reordered already, as
/// `reorder_block` says.
fn reorder_one_block(items: Vec<Node>, result: Node) -> (r: Node)
    requires
        exists|rk: spec_fn(u32) -> nat| ranked(nodes_view(items@), rk),
    ensures
        r@ == reorder_block(nodes_view(items@), result@),
{
    let ghost s = nodes_view(items@);
    if items.len() == 0 {
        return Node::Block { items, result: Box::new(result) };
    }
    let ghost rank = choose|rk: spec_fn(u32) -> nat| ranked(s, rk);
    let mut emitted: Vec<Node> = Vec::new();
    let mut emitted_ids: HashSet<u32> = HashSet::new();
    assert(nodes_view(emitted@) =~= Seq::<Tree>::empty());
    assert(emitted_ids@ =~= Set::<u32>::empty());
    emit_deps(
        &result,
        &items,
        &mut emitted,
        &mut emitted_ids,
        false,
        false,
        Ghost(rank),
        Ghost(items@.len() as nat),
    );
    let mut ru: Vec<u32> = Vec::new();
    collect_all_val_uses(&result, &mut ru);
    assert(ru@ =~= val_uses(result@));
    let mut used: HashSet<u32> = HashSet::new();
    add_ids(&mut used, &ru);
    assert(used@ =~= val_uses(result@).to_set());
    let ghost st0 = (nodes_view(emitted@), emitted_ids@, used@);
    let mut i: usize = 0;
    while i < items.len()
        invariant
            0 <= i <= items@.len(),
            s == nodes_view(items@),
            (nodes_view(emitted@), emitted_ids@, used@) == keep_live(s, i as int, st0),
        decreases items.len() - i,
    {
        assert(s[i as int] == node_view(items@[i as int]));
        match &items[i] {
            Node::ValDef { id, rhs } => {
                assert(s[i as int] == Tree::ValDef { id: *id, rhs: Box::new(node_view(**rhs)) });
                if !emitted_ids.contains(id) {
                    add_rhs_uses(&mut used, &emitted);
                    if used.contains(id) {
                        emitted_ids.insert(*id);
                        let ghost before = emitted@;
                        emitted.push(clone_node(&items[i]));
                        assert(nodes_view(emitted@) =~= nodes_view(before).push(s[i as int]));
                    }
                }
            },
            _ => {
                assert(!(s[i as int] is ValDef));
            },
        }
        i += 1;
    }
    if emitted.len() == 0 {
        result
    } else {
        Node::Block { items: emitted, result: Box::new(result) }
    }
}

fn reorder_seq(v: &Vec<Node>) -> (r: Vec<Node>)
    requires
        reorderable_seq(nodes_view(v@)),
    ensures
        nodes_view(r@) == reordered_seq(nodes_view(v@)),
    decreases v@,
{
    let ghost s = nodes_view(v@);
    let mut out: Vec<Node> = Vec::new();
    let mut i: usize = 0;
    while i < v.len()
        invariant
            0 <= i <= v@.len(),
            s == nodes_view(v@),
            reorderable_seq(s),
            out@.len() == i,
            forall|j: int| 0 <= j < i ==> node_view(#[trigger] out@[j]) == reordered(s[j]),
        decreases v.len() - i,
    {
        assert(decreases_to!(v@ => v@[i as int]));
        assert(s[i as int] == node_view(v@[i as int]));
        assert(reorderable(s[i as int]));
        out.push(reorder_ref(&v[i]));
        i += 1;
    }
    assert(nodes_view(out@) =~= reordered_seq(s));
    out
}

fn reorder_ref(expr: &Node) -> (r: Node)
    requires
        reorderable(expr@),
    ensures
        r@ == reordered(expr@),
    decreases expr,
{
    match expr {
        Node::ValDef { id, rhs } => {
            assert(expr@ == Tree::ValDef { id: *id, rhs: Box::new(node_view(**rhs)) });
            Node::ValDef { id: *id, rhs: Box::new(reorder_ref(rhs)) }
        },
        Node::Block { items, result } => {
            assert(expr@ == Tree::Block {
                items: nodes_view(items@),
                result: Box::new(node_view(**result)),
            });
            let ri = reorder_seq(items);
            let rr = reorder_ref(result);
            reorder_one_block(ri, rr)
        },
        Node::If { cond, then_branch, else_branch } => {
            assert(expr@ == Tree::If {
                cond: Box::new(node_view(**cond)),
                then_branch: Box::new(node_view(**then_branch)),
                else_branch: Box::new(node_view(**else_branch)),
            });
            Node::If {
                cond: Box::new(reorder_ref(cond)),
                then_branch: Box::new(reorder_ref(then_branch)),
                else_branch: Box::new(reorder_ref(else_branch)),
            }
        },
        Node::Op { kind, payload, children } => {
            assert(expr@ == Tree::Op {
                kind: *kind,
                payload: *payload,
                children: nodes_view(children@),
            });
            if crate::flatten::is_mapped_kind(*kind) {
                Node::Op { kind: *kind, payload: *payload, children: reorder_seq(children) }
            } else {
                clone_node(expr)
            }
        },
        _ => clone_node(expr),
    }
}

/// `expr` with the ValDefs of its blocks put in dependency order and the
/// unused ones dropped, as `reordered` says.
pub fn reorder_valdefs(expr: Node) -> (r: Node)
    requires
        reorderable(expr@),
    ensures
        r@ == reordered(expr@),
{
    reorder_ref(&expr)
}


/// The emitted list holds ValDefs only, no two of one id, each id
/// recorded among the emitted ids.
pub open spec fn emitted_ok(st: (Seq<Tree>, Set<u32>)) -> bool {
    &&& forall|i: int| 0 <= i < st.0.len() ==> #[trigger] st.0[i] is ValDef && st.1.contains(st.0[i]->ValDef_id)
    &&& forall|i: int, j: int| 0 <= i < j < st.0.len() ==> #[trigger] st.0[i]->ValDef_id != #[trigger] st.0[j]->ValDef_id
}

/// `b` extends the emission state `a`: `a`'s list is a prefix of `b`'s,
/// `a`'s ids stay, every new id has a rank below `bound`, and a sound
/// state stays sound.
pub open spec fn emit_grows(a: (Seq<Tree>, Set<u32>), b: (Seq<Tree>, Set<u32>), rank: spec_fn(u32) -> nat, bound: nat) -> bool {
    &&& a.0.len() <= b.0.len()
    &&& b.0.subrange(0, a.0.len() as int) == a.0
    &&& a.1.subset_of(b.1)
    &&& forall|x: u32| #[trigger] b.1.contains(x) ==> a.1.contains(x) || rank(x) < bound
    &&& emitted_ok(a) ==> emitted_ok(b)
}

proof fn lemma_grows_trans(
    a: (Seq<Tree>, Set<u32>),
    b: (Seq<Tree>, Set<u32>),
    c: (Seq<Tree>, Set<u32>),
    rank: spec_fn(u32) -> nat,
    bound: nat,
)
    requires
        emit_grows(a, b, rank, bound),
        emit_grows(b, c, rank, bound),
    ensures
        emit_grows(a, c, rank, bound),
{
    assert(c.0.subrange(0, a.0.len() as int) =~= c.0.subrange(0, b.0.len() as int).subrange(0, a.0.len() as int));
}

proof fn lemma_def_map_value(items: Seq<Tree>, id: u32)
    requires
        def_map(items).contains_key(id),
    ensures
        def_map(items)[id] is ValDef,
        def_map(items)[id]->ValDef_id == id,
    decreases items.len(),
{
    if items.len() > 0 {
        let m = def_map(items.drop_last());
        match items.last() {
            Tree::ValDef { id: d, .. } => {
                if d != id {
                    lemma_def_map_value(items.drop_last(), id);
                }
            },
            _ => {
                lemma_def_map_value(items.drop_last(), id);
            },
        }
    }
}

/// Emitting the ValDef of `id` after the state `st2` that its right-hand
/// side led to, from `st0` where `id` was not yet emitted.
proof fn lemma_push_def(
    items: Seq<Tree>,
    st0: (Seq<Tree>, Set<u32>),
    st2: (Seq<Tree>, Set<u32>),
    id: u32,
    rank: spec_fn(u32) -> nat,
    bound: nat,
)
    requires
        !st0.1.contains(id),
        def_map(items).contains_key(id),
        rank(id) < bound,
        emit_grows(st0, st2, rank, rank(id)),
    ensures
        emit_grows(st0, (st2.0.push(def_map(items)[id]), st2.1.insert(id)), rank, bound),
{
    lemma_def_map_value(items, id);
    let r = (st2.0.push(def_map(items)[id]), st2.1.insert(id));
    assert(!st2.1.contains(id));
    assert(r.0.subrange(0, st0.0.len() as int) =~= st2.0.subrange(0, st0.0.len() as int));
    if emitted_ok(st0) {
        assert(emitted_ok(st2));
        assert forall|i: int, j: int| 0 <= i < j < r.0.len() implies #[trigger] r.0[i]->ValDef_id != #[trigger] r.0[j]->ValDef_id by {
            if j == r.0.len() - 1 {
                assert(st2.1.contains(st2.0[i]->ValDef_id));
            } else {
                assert(r.0[i] == st2.0[i] && r.0[j] == st2.0[j]);
            }
        }
        assert forall|i: int| 0 <= i < r.0.len() implies #[trigger] r.0[i] is ValDef && r.1.contains(r.0[i]->ValDef_id) by {
            if i < r.0.len() - 1 {
                assert(r.0[i] == st2.0[i]);
            }
        }
    }
}

/// The dependency walk only appends: what was emitted stays in front, no
/// ValDef is emitted twice, and each ValDef it emits carries its own id.
pub proof fn law_emit_appends_without_repeats(
    t: Tree,
    items: Seq<Tree>,
    st: (Seq<Tree>, Set<u32>),
    in_thunk: bool,
    parent_is_or: bool,
    rank: spec_fn(u32) -> nat,
    bound: nat,
)
    ensures
        emit_grows(st, emit(t, items, st, in_thunk, parent_is_or, rank, bound), rank, bound),
    decreases bound, t, 2int, 0int,
{
    let r = emit(t, items, st, in_thunk, parent_is_or, rank, bound);
    match t {
        Tree::ValUse { id, .. } => {
            if !st.1.contains(id) && def_map(items).contains_key(id) && rank(id) < bound {
                law_emit_appends_without_repeats(rhs_of(def_map(items)[id]), items, st, in_thunk, false, rank, rank(id));
                lemma_push_def(items, st, emit(rhs_of(def_map(items)[id]), items, st, in_thunk, false, rank, rank(id)), id, rank, bound);
            } else {
                assert(st.0.subrange(0, st.0.len() as int) =~= st.0);
            }
        },
        Tree::Block { items: bi, result } => {
            lemma_emit_seq_grows(bi, bi.len() as int, items, st, in_thunk, rank, bound);
            let m = emit_seq(bi, bi.len() as int, items, st, in_thunk, rank, bound);
            law_emit_appends_without_repeats(*result, items, m, in_thunk, false, rank, bound);
            lemma_grows_trans(st, m, r, rank, bound);
        },
        Tree::ValDef { rhs, .. } => {
            law_emit_appends_without_repeats(*rhs, items, st, in_thunk, false, rank, bound);
        },
        Tree::Func { body, .. } => {
            law_emit_appends_without_repeats(*body, items, st, in_thunk, false, rank, bound);
        },
        Tree::If { .. } => {
            lemma_if_emit_grows(t, items, st, in_thunk, rank, bound);
        },
        Tree::Op { kind, payload, children } => {
            if kind == OpKind::BinOp && children.len() == 2 && (payload == BIN_AND || payload == BIN_OR) {
                let is_or = payload == BIN_OR;
                if in_thunk && is_or && !is_or_tree(children[0]) && parent_is_or {
                    law_emit_appends_without_repeats(children[1], items, st, true, is_or, rank, bound);
                    let m = emit(children[1], items, st, true, is_or, rank, bound);
                    law_emit_appends_without_repeats(children[0], items, m, true, is_or, rank, bound);
                    lemma_grows_trans(st, m, r, rank, bound);
                } else {
                    law_emit_appends_without_repeats(children[0], items, st, in_thunk, is_or, rank, bound);
                    let m = emit(children[0], items, st, in_thunk, is_or, rank, bound);
                    law_emit_appends_without_repeats(children[1], items, m, true, is_or, rank, bound);
                    lemma_grows_trans(st, m, r, rank, bound);
                }
            } else if emit_kind(kind) {
                lemma_emit_seq_grows(children, children.len() as int, items, st, in_thunk, rank, bound);
            } else {
                assert(st.0.subrange(0, st.0.len() as int) =~= st.0);
            }
        },
    }
}

proof fn lemma_emit_seq_grows(
    s: Seq<Tree>,
    k: int,
    items: Seq<Tree>,
    st: (Seq<Tree>, Set<u32>),
    in_thunk: bool,
    rank: spec_fn(u32) -> nat,
    bound: nat,
)
    ensures
        emit_grows(st, emit_seq(s, k, items, st, in_thunk, rank, bound), rank, bound),
    decreases bound, s, 2int, k,
{
    if k <= 0 || k > s.len() {
        assert(st.0.subrange(0, st.0.len() as int) =~= st.0);
    } else {
        lemma_emit_seq_grows(s, k - 1, items, st, in_thunk, rank, bound);
        let m = emit_seq(s, k - 1, items, st, in_thunk, rank, bound);
        law_emit_appends_without_repeats(s[k - 1], items, m, in_thunk, false, rank, bound);
        lemma_grows_trans(st, m, emit_seq(s, k, items, st, in_thunk, rank, bound), rank, bound);
    }
}

proof fn lemma_if_emit_grows(
    t: Tree,
    items: Seq<Tree>,
    st: (Seq<Tree>, Set<u32>),
    in_thunk: bool,
    rank: spec_fn(u32) -> nat,
    bound: nat,
)
    ensures
        emit_grows(st, if_emit(t, items, st, in_thunk, rank, bound), rank, bound),
    decreases bound, t, 1int, 0int,
{
    match t {
        Tree::If { cond, then_branch, else_branch } => {
            law_emit_appends_without_repeats(*cond, items, st, in_thunk, false, rank, bound);
            let st1 = emit(*cond, items, st, in_thunk, false, rank, bound);
            let bids = val_uses(*then_branch) + val_uses(*else_branch);
            let r = if_emit(t, items, st, in_thunk, rank, bound);
            if has_interleave(items, bids) && !dense(items) {
                law_emit_appends_without_repeats(*then_branch, items, st1, in_thunk, false, rank, bound);
                let st2 = emit(*then_branch, items, st1, in_thunk, false, rank, bound);
                law_emit_appends_without_repeats(*else_branch, items, st2, in_thunk, false, rank, bound);
                lemma_grows_trans(st1, st2, r, rank, bound);
                lemma_grows_trans(st, st1, r, rank, bound);
            } else {
                let order = if_order(items, bids);
                lemma_emit_ids_grows(order, order.len() as int, items, st1, in_thunk, rank, bound, t);
                lemma_grows_trans(st, st1, r, rank, bound);
            }
        },
        _ => {
            assert(st.0.subrange(0, st.0.len() as int) =~= st.0);
        },
    }
}

proof fn lemma_emit_ids_grows(
    ids: Seq<u32>,
    j: int,
    items: Seq<Tree>,
    st: (Seq<Tree>, Set<u32>),
    in_thunk: bool,
    rank: spec_fn(u32) -> nat,
    bound: nat,
    t: Tree,
)
    ensures
        emit_grows(st, emit_ids(ids, j, items, st, in_thunk, rank, bound, t), rank, bound),
    decreases bound, t, 0int, j,
{
    if j <= 0 || j > ids.len() {
        assert(st.0.subrange(0, st.0.len() as int) =~= st.0);
    } else {
        lemma_emit_ids_grows(ids, j - 1, items, st, in_thunk, rank, bound, t);
        let st0 = emit_ids(ids, j - 1, items, st, in_thunk, rank, bound, t);
        let id = ids[j - 1];
        let r = emit_ids(ids, j, items, st, in_thunk, rank, bound, t);
        if !st0.1.contains(id) && def_map(items).contains_key(id) && rank(id) < bound {
            law_emit_appends_without_repeats(rhs_of(def_map(items)[id]), items, st0, in_thunk, false, rank, rank(id));
            lemma_push_def(items, st0, emit(rhs_of(def_map(items)[id]), items, st0, in_thunk, false, rank, rank(id)), id, rank, bound);
            lemma_grows_trans(st, st0, r, rank, bound);
        } else {
            assert(r == st0);
        }
    }
}

} // verus!
