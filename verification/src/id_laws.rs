use vstd::prelude::*;

use crate::disambig::{count_valdef_items, count_valdefs, count_valdefs_seq, dis, dis_items, dis_seq};
use crate::node::{FuncArg, Tree};
use crate::renumber::{assign, assign_args, assign_seq, renamed, rewrite, rewrite_seq, seq_size, tree_size};
use crate::disambig::is_max_id;

verus! {

/// Ids of the ValDef nodes of a tree.
pub open spec fn vset(t: Tree) -> Set<u32>
    decreases t,
{
    match t {
        Tree::ValDef { id, rhs } => vset(*rhs).insert(id),
        Tree::ValUse { .. } => Set::empty(),
        Tree::Block { items, result } => vset_seq(items).union(vset(*result)),
        Tree::If { cond, then_branch, else_branch } => vset(*cond).union(vset(*then_branch)).union(
            vset(*else_branch),
        ),
        Tree::Func { body, .. } => vset(*body),
        Tree::Op { children, .. } => vset_seq(children),
    }
}

pub open spec fn vset_seq(s: Seq<Tree>) -> Set<u32>
    decreases s,
{
    if s.len() == 0 {
        Set::empty()
    } else {
        vset_seq(s.drop_last()).union(vset(s.last()))
    }
}

/// Ids of the FuncValue arguments of a tree.
pub open spec fn aset(t: Tree) -> Set<u32>
    decreases t,
{
    match t {
        Tree::ValDef { rhs, .. } => aset(*rhs),
        Tree::ValUse { .. } => Set::empty(),
        Tree::Block { items, result } => aset_seq(items).union(aset(*result)),
        Tree::If { cond, then_branch, else_branch } => aset(*cond).union(aset(*then_branch)).union(
            aset(*else_branch),
        ),
        Tree::Func { args, body } => arg_id_set(args).union(aset(*body)),
        Tree::Op { children, .. } => aset_seq(children),
    }
}

pub open spec fn aset_seq(s: Seq<Tree>) -> Set<u32>
    decreases s,
{
    if s.len() == 0 {
        Set::empty()
    } else {
        aset_seq(s.drop_last()).union(aset(s.last()))
    }
}

pub open spec fn arg_id_set(args: Seq<FuncArg>) -> Set<u32> {
    Set::new(|x: u32| exists|i: int| 0 <= i < args.len() && #[trigger] args[i].id == x)
}

/// No two ValDef nodes of the tree share an id.
pub open spec fn uniq(t: Tree) -> bool
    decreases t,
{
    match t {
        Tree::ValDef { id, rhs } => !vset(*rhs).contains(id) && uniq(*rhs),
        Tree::ValUse { .. } => true,
        Tree::Block { items, result } => uniq_seq(items) && uniq(*result) && vset_seq(items).disjoint(
            vset(*result),
        ),
        Tree::If { cond, then_branch, else_branch } => {
            &&& uniq(*cond)
            &&& uniq(*then_branch)
            &&& uniq(*else_branch)
            &&& vset(*cond).disjoint(vset(*then_branch))
            &&& vset(*cond).disjoint(vset(*else_branch))
            &&& vset(*then_branch).disjoint(vset(*else_branch))
        },
        Tree::Func { body, .. } => uniq(*body),
        Tree::Op { children, .. } => uniq_seq(children),
    }
}

pub open spec fn uniq_seq(s: Seq<Tree>) -> bool
    decreases s,
{
    if s.len() == 0 {
        true
    } else {
        uniq_seq(s.drop_last()) && uniq(s.last()) && vset_seq(s.drop_last()).disjoint(vset(s.last()))
    }
}

/// Every element of `s` lies in `[lo, hi)`.
pub open spec fn in_range(s: Set<u32>, lo: nat, hi: nat) -> bool {
    forall|x: u32| s.contains(x) ==> lo <= x < hi
}

/// Every `u32` of `[lo, hi)` is in `s`.
pub open spec fn covers(s: Set<u32>, lo: nat, hi: nat) -> bool {
    forall|x: u32| lo <= x < hi ==> s.contains(x)
}

/// What renaming does to the ids of a sequence of block items: the
/// prebound ids of the ValDef items lie in `[start, start + count)`, the
/// fresh ids of their right-hand sides and of the other items in
/// `[next, next')`.
pub open spec fn items_ids_ok(
    items2: Seq<Tree>,
    start: nat,
    count: nat,
    next: nat,
    next2: nat,
) -> bool {
    &&& uniq_seq(items2)
    &&& forall|x: u32|
        vset_seq(items2).contains(x) ==> (start <= x < start + count || next <= x < next2)
}

proof fn lemma_args_preserved_seq(s: Seq<Tree>, env: Seq<(u32, u32)>, next: nat)
    requires
        next + count_valdefs_seq(s) <= u32::MAX,
    ensures
        aset_seq(dis_seq(s, env, next).0) == aset_seq(s),
        dis_seq(s, env, next).2 == next + count_valdefs_seq(s),
        uniq_seq(dis_seq(s, env, next).0),
        in_range(vset_seq(dis_seq(s, env, next).0), next, next + count_valdefs_seq(s)),
        covers(vset_seq(dis_seq(s, env, next).0), next, next + count_valdefs_seq(s)),
        seq_size(dis_seq(s, env, next).0) == seq_size(s),
    decreases s,
{
    if s.len() > 0 {
        lemma_args_preserved_seq(s.drop_last(), env, next);
        let (a, e1, n1) = dis_seq(s.drop_last(), env, next);
        lemma_dis(s.last(), e1, n1);
        let (b, e2, n2) = dis(s.last(), e1, n1);
        assert(a.push(b).drop_last() == a);
        assert(a.push(b).last() == b);
        assert(aset_seq(a.push(b)) =~= aset_seq(s));
        assert(vset_seq(a.push(b)) == vset_seq(a).union(vset(b)));
    } else {
        assert(aset_seq(Seq::<Tree>::empty()) =~= Set::empty());
    }
}

proof fn lemma_dis_items(items: Seq<Tree>, env: Seq<(u32, u32)>, next: nat, start: nat)
    requires
        next + count_valdefs_seq(items) <= u32::MAX + count_valdef_items(items),
        start + count_valdef_items(items) <= next,
    ensures
        aset_seq(dis_items(items, env, next, start).0) == aset_seq(items),
        dis_items(items, env, next, start).2 + count_valdef_items(items) == next + count_valdefs_seq(
            items,
        ),
        items_ids_ok(
            dis_items(items, env, next, start).0,
            start,
            count_valdef_items(items),
            next,
            dis_items(items, env, next, start).2,
        ),
        covers(vset_seq(dis_items(items, env, next, start).0), start, start + count_valdef_items(items)),
        covers(vset_seq(dis_items(items, env, next, start).0), next, dis_items(items, env, next, start).2),
        seq_size(dis_items(items, env, next, start).0) == seq_size(items),
    decreases items,
{
    crate::disambig::lemma_valdef_items_le(items);
    if items.len() > 0 {
        let dl = items.drop_last();
        crate::disambig::lemma_valdef_items_le(dl);
        let (a, e1, n1) = dis_items(dl, env, next, start);
        match items.last() {
            Tree::ValDef { id, rhs } => {
                assert(count_valdefs(items.last()) == 1 + count_valdefs(*rhs));
                lemma_dis_items(dl, env, next, start);
                lemma_dis(*rhs, e1, n1);
                let (r, e2, n2) = dis(*rhs, e1, n1);
                let newid = (start + count_valdef_items(dl)) as u32;
                let b = Tree::ValDef { id: newid, rhs: Box::new(r) };
                assert(a.push(b).drop_last() == a);
                assert(a.push(b).last() == b);
                assert(aset(b) == aset(r));
                assert(aset(items.last()) == aset(*rhs));
                assert(aset_seq(items) == aset_seq(dl).union(aset(items.last())));
                assert(aset_seq(a.push(b)) == aset_seq(a).union(aset(b)));
                assert(aset_seq(a.push(b)) =~= aset_seq(items));
                assert(vset(b) == vset(r).insert(newid));
                assert(!vset(r).contains(newid));
                assert(vset_seq(a).disjoint(vset(b)));
                assert(uniq(b));
                assert(uniq_seq(a.push(b)));
                assert(seq_size(a.push(b)) == seq_size(a) + tree_size(b));
                assert(tree_size(items.last()) == 1 + tree_size(*rhs));
                assert(vset_seq(a.push(b)) == vset_seq(a).union(vset(b)));
                let cnt = count_valdef_items(items);
                assert(cnt == count_valdef_items(dl) + 1);
                assert forall|x: u32| vset_seq(a.push(b)).contains(x) implies (start <= x < start
                    + cnt || next <= x < n2) by {
                    if vset_seq(a).contains(x) {
                    } else if x == newid {
                    } else {
                        assert(vset(r).contains(x));
                    }
                }
            },
            _ => {
                assert(count_valdef_items(items) == count_valdef_items(dl));
                lemma_dis_items(dl, env, next, start);
                lemma_dis(items.last(), e1, n1);
                let (b, e2, n2) = dis(items.last(), e1, n1);
                assert(a.push(b).drop_last() == a);
                assert(a.push(b).last() == b);
                assert(aset_seq(a.push(b)) =~= aset_seq(items));
                assert(vset_seq(a).disjoint(vset(b)));
                assert(uniq_seq(a.push(b)));
                assert(vset_seq(a.push(b)) == vset_seq(a).union(vset(b)));
                assert(seq_size(a.push(b)) == seq_size(a) + tree_size(b));
            },
        }
    } else {
        assert(aset_seq(Seq::<Tree>::empty()) =~= Set::empty());
    }
}

/// Renaming gives every ValDef a distinct fresh id from `[next, next')`,
/// where `next'` is `next` plus the number of ValDefs, and keeps the
/// FuncValue argument ids.
pub proof fn lemma_dis(t: Tree, env: Seq<(u32, u32)>, next: nat)
    requires
        next + count_valdefs(t) <= u32::MAX,
    ensures
        dis(t, env, next).2 == next + count_valdefs(t),
        uniq(dis(t, env, next).0),
        in_range(vset(dis(t, env, next).0), next, next + count_valdefs(t)),
        covers(vset(dis(t, env, next).0), next, next + count_valdefs(t)),
        aset(dis(t, env, next).0) == aset(t),
        tree_size(dis(t, env, next).0) == tree_size(t),
    decreases t,
{
    match t {
        Tree::ValUse { .. } => {},
        Tree::ValDef { id, rhs } => {
            lemma_dis(*rhs, env, next);
        },
        Tree::Block { items, result } => {
            let k = count_valdef_items(items);
            let e0 = crate::disambig::prebind(items, env, next);
            crate::disambig::lemma_valdef_items_le(items);
            lemma_dis_items(items, e0, next + k, next);
            let (items2, e1, n1) = dis_items(items, e0, next + k, next);
            lemma_dis(*result, e1, n1);
            let (res2, e2, n2) = dis(*result, e1, n1);
            assert(vset_seq(items2).disjoint(vset(res2)));
        },
        Tree::If { cond, then_branch, else_branch } => {
            lemma_dis(*cond, env, next);
            let (c2, e1, n1) = dis(*cond, env, next);
            lemma_dis(*then_branch, e1, n1);
            let (t2, e2, n2) = dis(*then_branch, e1, n1);
            lemma_dis(*else_branch, e1, n2);
            let (f2, e3, n3) = dis(*else_branch, e1, n2);
            assert(vset(c2).disjoint(vset(t2)));
            assert(vset(c2).disjoint(vset(f2)));
            assert(vset(t2).disjoint(vset(f2)));
        },
        Tree::Func { args, body } => {
            lemma_dis(*body, env + crate::disambig::arg_pairs(args), next);
        },
        Tree::Op { children, .. } => {
            lemma_args_preserved_seq(children, env, next);
        },
    }
}

/// The ids of the ValDef items of the block strictly increase in item
/// order, so no two share one.
pub open spec fn items_increasing(items: Seq<Tree>) -> bool {
    forall|i: int, j: int|
        0 <= i < j < items.len() && #[trigger] items[i] is ValDef && #[trigger] items[j] is ValDef
            ==> items[i]->ValDef_id < items[j]->ValDef_id
}

/// In every block of the tree, the ids of the ValDef items strictly
/// increase in item order.
pub open spec fn blocks_increasing(t: Tree) -> bool
    decreases t,
{
    match t {
        Tree::ValDef { rhs, .. } => blocks_increasing(*rhs),
        Tree::ValUse { .. } => true,
        Tree::Block { items, result } => items_increasing(items) && blocks_increasing_seq(items)
            && blocks_increasing(*result),
        Tree::If { cond, then_branch, else_branch } => blocks_increasing(*cond) && blocks_increasing(
            *then_branch,
        ) && blocks_increasing(*else_branch),
        Tree::Func { body, .. } => blocks_increasing(*body),
        Tree::Op { children, .. } => blocks_increasing_seq(children),
    }
}

pub open spec fn blocks_increasing_seq(s: Seq<Tree>) -> bool
    decreases s,
{
    forall|i: int| 0 <= i < s.len() ==> blocks_increasing(#[trigger] s[i])
}

/// `big` agrees with `small` on every key of `small`.
pub open spec fn extends(big: Map<u32, u32>, small: Map<u32, u32>) -> bool {
    forall|k: u32| #[trigger] small.contains_key(k) ==> big.contains_key(k) && big[k] == small[k]
}

proof fn lemma_assign_args_facts(args: Seq<FuncArg>, m: Map<u32, u32>, start: nat)
    ensures
        start <= assign_args(args, m, start).1,
        extends(assign_args(args, m, start).0, m),
        forall|k: u32| #[trigger]
            assign_args(args, m, start).0.contains_key(k) ==> m.contains_key(k) || arg_id_set(
                args,
            ).contains(k),
    decreases args.len(),
{
    if args.len() > 0 {
        lemma_assign_args_facts(args.drop_last(), m, start);
        let (m1, b) = assign_args(args.drop_last(), m, start);
        assert forall|k: u32| #[trigger]
            assign_args(args, m, start).0.contains_key(k) implies m.contains_key(k) || arg_id_set(
            args,
        ).contains(k) by {
            if m1.contains_key(k) && !m.contains_key(k) {
                assert(arg_id_set(args.drop_last()).contains(k));
                let i = choose|i: int| 0 <= i < args.drop_last().len() && #[trigger] args.drop_last()[i].id == k;
                assert(args[i].id == k);
            }
            if !m1.contains_key(k) {
                assert(args[args.len() - 1].id == k);
            }
        }
    }
}

proof fn lemma_assign_seq_facts(s: Seq<Tree>, m: Map<u32, u32>, next: nat, d: Option<nat>)
    ensures
        next <= assign_seq(s, m, next, d).1,
        extends(assign_seq(s, m, next, d).0, m),
        forall|k: u32| #[trigger]
            assign_seq(s, m, next, d).0.contains_key(k) ==> m.contains_key(k) || vset_seq(
                s,
            ).contains(k) || aset_seq(s).contains(k),
    decreases s,
{
    if s.len() > 0 {
        lemma_assign_seq_facts(s.drop_last(), m, next, d);
        let (m1, n1) = assign_seq(s.drop_last(), m, next, d);
        lemma_assign_facts(s.last(), m1, n1, d);
    }
}

/// The counter never goes down, the map only grows, and its new keys are
/// ids of the tree.
pub proof fn lemma_assign_facts(t: Tree, m: Map<u32, u32>, next: nat, d: Option<nat>)
    ensures
        next <= assign(t, m, next, d).1,
        extends(assign(t, m, next, d).0, m),
        forall|k: u32| #[trigger]
            assign(t, m, next, d).0.contains_key(k) ==> m.contains_key(k) || vset(t).contains(k)
                || aset(t).contains(k),
    decreases t,
{
    match t {
        Tree::Block { items, result } => {
            lemma_assign_seq_facts(items, m, next, None);
            let (m1, n1) = assign_seq(items, m, next, None);
            lemma_assign_facts(*result, m1, n1, d);
        },
        Tree::ValDef { id, rhs } => {
            if !m.contains_key(id) {
                lemma_assign_facts(*rhs, m, next, Some(next));
            } else {
                lemma_assign_facts(*rhs, m, next, None);
            }
        },
        Tree::Func { args, body } => {
            let start = match d {
                Some(dd) => dd + 1,
                None => next + 1,
            };
            lemma_assign_args_facts(args, m, start);
            let (m1, b) = assign_args(args, m, start);
            lemma_assign_facts(*body, m1, b, None);
        },
        Tree::If { cond, then_branch, else_branch } => {
            lemma_assign_facts(*cond, m, next, d);
            let (m1, n1) = assign(*cond, m, next, d);
            lemma_assign_facts(*then_branch, m1, n1, d);
            let (m2, n2) = assign(*then_branch, m1, n1, d);
            lemma_assign_facts(*else_branch, m2, n1, d);
        },
        Tree::Op { children, .. } => {
            lemma_assign_seq_facts(children, m, next, d);
        },
        Tree::ValUse { .. } => {},
    }
}

proof fn lemma_assign_args_bound(args: Seq<FuncArg>, m: Map<u32, u32>, start: nat)
    ensures
        assign_args(args, m, start).1 <= start + args.len(),
    decreases args.len(),
{
    if args.len() > 0 {
        lemma_assign_args_bound(args.drop_last(), m, start);
    }
}

proof fn lemma_assign_seq_bound(s: Seq<Tree>, m: Map<u32, u32>, next: nat, d: Option<nat>)
    requires
        d matches Some(dd) ==> dd <= next,
    ensures
        assign_seq(s, m, next, d).1 <= next + seq_size(s),
    decreases s,
{
    if s.len() > 0 {
        lemma_assign_seq_bound(s.drop_last(), m, next, d);
        let (m1, n1) = assign_seq(s.drop_last(), m, next, d);
        lemma_assign_seq_facts(s.drop_last(), m, next, d);
        lemma_assign_bound(s.last(), m1, n1, d);
    }
}

/// The counter after a tree is at most its size above the counter before.
pub proof fn lemma_assign_bound(t: Tree, m: Map<u32, u32>, next: nat, d: Option<nat>)
    requires
        d matches Some(dd) ==> dd <= next,
    ensures
        assign(t, m, next, d).1 <= next + tree_size(t),
    decreases t,
{
    match t {
        Tree::Block { items, result } => {
            lemma_assign_seq_bound(items, m, next, None);
            lemma_assign_seq_facts(items, m, next, None);
            let (m1, n1) = assign_seq(items, m, next, None);
            lemma_assign_bound(*result, m1, n1, d);
        },
        Tree::ValDef { id, rhs } => {
            if m.contains_key(id) {
                lemma_assign_bound(*rhs, m, next, None);
            }
        },
        Tree::Func { .. } => {},
        Tree::If { cond, .. } => {
            lemma_assign_bound(*cond, m, next, d);
        },
        Tree::Op { children, .. } => {
            lemma_assign_seq_bound(children, m, next, d);
        },
        Tree::ValUse { .. } => {},
    }
}

/// The ValDef items of a block get increasing numbers (all at most the
/// counter after the block's items), so no two share one.
proof fn lemma_block_items(
    items: Seq<Tree>,
    m: Map<u32, u32>,
    next: nat,
    big: Map<u32, u32>,
    f: Set<u32>,
)
    requires
        uniq_seq(items),
        forall|x: u32| #[trigger] vset_seq(items).contains(x) ==> !m.contains_key(x) && !f.contains(x),
        forall|x: u32| #[trigger] aset_seq(items).contains(x) ==> f.contains(x),
        extends(big, assign_seq(items, m, next, None).0),
        next + seq_size(items) <= u32::MAX,
    ensures
        items_increasing(rewrite_seq(items, big)),
        forall|i: int|
            0 <= i < items.len() && #[trigger] items[i] is ValDef ==> renamed(
                big,
                items[i]->ValDef_id,
            ) <= assign_seq(items, m, next, None).1,
    decreases items.len(),
{
    let r = rewrite_seq(items, big);
    if items.len() > 0 {
        let dl = items.drop_last();
        let last = items.last();
        let (m1, n1) = assign_seq(dl, m, next, None);
        let (m2, n2) = assign(last, m1, n1, None);
        lemma_assign_seq_facts(dl, m, next, None);
        lemma_assign_facts(last, m1, n1, None);
        assert(vset_seq(items) == vset_seq(dl).union(vset(last)));
        assert(aset_seq(items) == aset_seq(dl).union(aset(last)));
        assert(assign_seq(items, m, next, None) == (m2, n2));
        assert(extends(big, m1));
        assert forall|x: u32| #[trigger] vset_seq(dl).contains(x) implies !m.contains_key(x) && !f.contains(x) by {
            assert(vset_seq(items).contains(x));
        }
        assert forall|x: u32| #[trigger] aset_seq(dl).contains(x) implies f.contains(x) by {
            assert(aset_seq(items).contains(x));
        }
        lemma_assign_seq_bound(dl, m, next, None);
        assert(seq_size(items) == seq_size(dl) + tree_size(last));
        lemma_block_items(dl, m, next, big, f);
        let rd = rewrite_seq(dl, big);
        assert forall|i: int| 0 <= i < dl.len() implies #[trigger] r[i] == rd[i] && dl[i] == items[i] by {}
        match last {
            Tree::ValDef { id, rhs } => {
                assert(vset(last).contains(id));
                assert(vset_seq(items).contains(id));
                assert(!m.contains_key(id));
                assert(!vset_seq(dl).contains(id));
                assert(!f.contains(id));
                assert(!aset_seq(dl).contains(id));
                assert(!m1.contains_key(id));
                lemma_assign_facts(*rhs, m1, n1, Some(n1));
                let (m3, n3) = assign(*rhs, m1, n1, Some(n1));
                assert(uniq(last));
                assert(!vset(*rhs).contains(id));
                if aset(*rhs).contains(id) {
                    assert(aset(last).contains(id));
                    assert(aset_seq(items).contains(id));
                }
                assert(!aset(*rhs).contains(id));
                assert(!m3.contains_key(id));
                assert(tree_size(last) == 1 + tree_size(*rhs));
                assert(n1 + 1 <= u32::MAX);
                assert(m2 == m3.insert(id, (n1 + 1) as u32));
                assert(m2.contains_key(id));
                assert(big[id] == (n1 + 1) as u32);
                assert(n2 == n1 + 1);
                assert(r[items.len() - 1] == rewrite(last, big));
                assert forall|i: int, j: int|
                    0 <= i < j < r.len() && #[trigger] r[i] is ValDef && #[trigger] r[j] is ValDef implies r[i]->ValDef_id
                    < r[j]->ValDef_id by {
                    if j < dl.len() {
                        assert(rd[i] is ValDef && rd[j] is ValDef);
                    } else {
                        assert(r[i] == rewrite(items[i], big));
                        assert(items[i] is ValDef);
                        assert(renamed(big, items[i]->ValDef_id) <= n1);
                    }
                }
            },
            _ => {
                assert(r[items.len() - 1] == rewrite(last, big));
                assert(!(r[items.len() - 1] is ValDef));
                assert forall|i: int, j: int|
                    0 <= i < j < r.len() && #[trigger] r[i] is ValDef && #[trigger] r[j] is ValDef implies r[i]->ValDef_id
                    < r[j]->ValDef_id by {
                    assert(rd[i] is ValDef && rd[j] is ValDef);
                }
            },
        }
        assert forall|i: int|
            0 <= i < items.len() && #[trigger] items[i] is ValDef implies renamed(
            big,
            items[i]->ValDef_id,
        ) <= n2 by {
            if i < dl.len() {
                assert(dl[i] is ValDef);
            }
        }
    }
}

proof fn lemma_renumber_seq(
    s: Seq<Tree>,
    m: Map<u32, u32>,
    next: nat,
    d: Option<nat>,
    big: Map<u32, u32>,
    f: Set<u32>,
)
    requires
        uniq_seq(s),
        forall|x: u32| #[trigger] vset_seq(s).contains(x) ==> !m.contains_key(x) && !f.contains(x),
        forall|x: u32| #[trigger] aset_seq(s).contains(x) ==> f.contains(x),
        extends(big, assign_seq(s, m, next, d).0),
        next + seq_size(s) <= u32::MAX,
        d matches Some(dd) ==> dd <= next,
    ensures
        blocks_increasing_seq(rewrite_seq(s, big)),
    decreases s,
{
    if s.len() > 0 {
        let dl = s.drop_last();
        let last = s.last();
        let (m1, n1) = assign_seq(dl, m, next, d);
        lemma_assign_seq_facts(dl, m, next, d);
        lemma_assign_facts(last, m1, n1, d);
        assert(vset_seq(s) == vset_seq(dl).union(vset(last)));
        assert(aset_seq(s) == aset_seq(dl).union(aset(last)));
        assert(assign_seq(s, m, next, d) == assign(last, m1, n1, d));
        assert(extends(big, m1));
        assert forall|x: u32| #[trigger] vset_seq(dl).contains(x) implies !m.contains_key(x) && !f.contains(x) by {
            assert(vset_seq(s).contains(x));
        }
        assert forall|x: u32| #[trigger] aset_seq(dl).contains(x) implies f.contains(x) by {
            assert(aset_seq(s).contains(x));
        }
        lemma_renumber_seq(dl, m, next, d, big, f);
        lemma_assign_seq_bound(dl, m, next, d);
        assert forall|x: u32| #[trigger] vset(last).contains(x) implies !m1.contains_key(x) && !f.contains(x) by {
            assert(vset_seq(s).contains(x));
            assert(!vset_seq(dl).contains(x));
            if aset_seq(dl).contains(x) {
                assert(aset_seq(s).contains(x));
            }
        }
        assert forall|x: u32| #[trigger] aset(last).contains(x) implies f.contains(x) by {
            assert(aset_seq(s).contains(x));
        }
        lemma_renumber(last, m1, n1, d, big, f);
        let r = rewrite_seq(s, big);
        let rd = rewrite_seq(dl, big);
        assert forall|i: int| 0 <= i < s.len() implies blocks_increasing(#[trigger] r[i]) by {
            if i < dl.len() {
                assert(r[i] == rd[i]);
            }
        }
    }
}

/// Numbering a tree whose ValDef ids are distinct, unmapped and distinct
/// from its function-argument ids gives the ValDef items of every block
/// increasing ids, under any map that extends the numbering.
pub proof fn lemma_renumber(
    t: Tree,
    m: Map<u32, u32>,
    next: nat,
    d: Option<nat>,
    big: Map<u32, u32>,
    f: Set<u32>,
)
    requires
        uniq(t),
        forall|x: u32| #[trigger] vset(t).contains(x) ==> !m.contains_key(x) && !f.contains(x),
        forall|x: u32| #[trigger] aset(t).contains(x) ==> f.contains(x),
        extends(big, assign(t, m, next, d).0),
        next + tree_size(t) <= u32::MAX,
        d matches Some(dd) ==> dd <= next,
    ensures
        blocks_increasing(rewrite(t, big)),
    decreases t,
{
    lemma_assign_facts(t, m, next, d);
    match t {
        Tree::Block { items, result } => {
            lemma_assign_seq_facts(items, m, next, None);
            let (m1, n1) = assign_seq(items, m, next, None);
            lemma_assign_facts(*result, m1, n1, d);
            assert(assign(t, m, next, d) == assign(*result, m1, n1, d));
            assert(extends(big, m1));
            assert forall|x: u32| #[trigger] vset_seq(items).contains(x) implies !m.contains_key(x) && !f.contains(x) by {
                assert(vset(t).contains(x));
            }
            assert forall|x: u32| #[trigger] aset_seq(items).contains(x) implies f.contains(x) by {
                assert(aset(t).contains(x));
            }
            lemma_renumber_seq(items, m, next, None, big, f);
            lemma_block_items(items, m, next, big, f);
            lemma_assign_seq_bound(items, m, next, None);
            assert forall|x: u32| #[trigger] vset(*result).contains(x) implies !m1.contains_key(x) && !f.contains(x) by {
                assert(vset(t).contains(x));
                assert(!vset_seq(items).contains(x));
                if aset_seq(items).contains(x) {
                    assert(aset(t).contains(x));
                }
            }
            assert forall|x: u32| #[trigger] aset(*result).contains(x) implies f.contains(x) by {
                assert(aset(t).contains(x));
            }
            lemma_renumber(*result, m1, n1, d, big, f);
        },
        Tree::ValDef { id, rhs } => {
            assert(vset(t).contains(id));
            lemma_assign_facts(*rhs, m, next, Some(next));
            let (m1, n1) = assign(*rhs, m, next, Some(next));
            assert(!m.contains_key(id));
            assert(!f.contains(id));
            assert(!vset(*rhs).contains(id));
            if aset(*rhs).contains(id) {
                assert(aset(t).contains(id));
            }
            assert(!m1.contains_key(id));
            assert(assign(t, m, next, d).0 == m1.insert(id, (next + 1) as u32));
            assert forall|k: u32| #[trigger] m1.contains_key(k) implies big.contains_key(k) && big[k] == m1[k] by {
                assert(k != id);
                assert(m1.insert(id, (next + 1) as u32).contains_key(k));
            }
            assert(extends(big, m1));
            assert forall|x: u32| #[trigger] vset(*rhs).contains(x) implies !m.contains_key(x) && !f.contains(x) by {
                assert(vset(t).contains(x));
            }
            assert forall|x: u32| #[trigger] aset(*rhs).contains(x) implies f.contains(x) by {
                assert(aset(t).contains(x));
            }
            lemma_renumber(*rhs, m, next, Some(next), big, f);
        },
        Tree::Func { args, body } => {
            let start = match d {
                Some(dd) => dd + 1,
                None => next + 1,
            };
            lemma_assign_args_facts(args, m, start);
            lemma_assign_args_bound(args, m, start);
            let (m1, b) = assign_args(args, m, start);
            lemma_assign_facts(*body, m1, b, None);
            assert(assign(t, m, next, d).0 == assign(*body, m1, b, None).0);
            assert forall|x: u32| #[trigger] vset(*body).contains(x) implies !m1.contains_key(x) && !f.contains(x) by {
                assert(vset(t).contains(x));
                if arg_id_set(args).contains(x) {
                    assert(aset(t).contains(x));
                }
            }
            assert forall|x: u32| #[trigger] aset(*body).contains(x) implies f.contains(x) by {
                assert(aset(t).contains(x));
            }
            lemma_renumber(*body, m1, b, None, big, f);
        },
        Tree::If { cond, then_branch, else_branch } => {
            lemma_assign_facts(*cond, m, next, d);
            lemma_assign_bound(*cond, m, next, d);
            let (m1, n1) = assign(*cond, m, next, d);
            lemma_assign_facts(*then_branch, m1, n1, d);
            let (m2, n2) = assign(*then_branch, m1, n1, d);
            lemma_assign_facts(*else_branch, m2, n1, d);
            assert(assign(t, m, next, d).0 == assign(*else_branch, m2, n1, d).0);
            assert(extends(big, m2));
            assert(extends(big, m1));
            assert forall|x: u32| #[trigger] vset(*cond).contains(x) implies !m.contains_key(x) && !f.contains(x) by {
                assert(vset(t).contains(x));
            }
            assert forall|x: u32| #[trigger] aset(*cond).contains(x) implies f.contains(x) by {
                assert(aset(t).contains(x));
            }
            assert forall|x: u32| #[trigger] aset(*then_branch).contains(x) implies f.contains(x) by {
                assert(aset(t).contains(x));
            }
            assert forall|x: u32| #[trigger] aset(*else_branch).contains(x) implies f.contains(x) by {
                assert(aset(t).contains(x));
            }
            lemma_renumber(*cond, m, next, d, big, f);
            assert forall|x: u32| #[trigger] vset(*then_branch).contains(x) implies !m1.contains_key(x) && !f.contains(x) by {
                assert(vset(t).contains(x));
                assert(!vset(*cond).contains(x));
                if aset(*cond).contains(x) {
                    assert(aset(t).contains(x));
                }
            }
            lemma_renumber(*then_branch, m1, n1, d, big, f);
            assert forall|x: u32| #[trigger] vset(*else_branch).contains(x) implies !m2.contains_key(x) && !f.contains(x) by {
                assert(vset(t).contains(x));
                assert(!vset(*cond).contains(x));
                assert(!vset(*then_branch).contains(x));
                if aset(*cond).contains(x) || aset(*then_branch).contains(x) {
                    assert(aset(t).contains(x));
                }
            }
            lemma_renumber(*else_branch, m2, n1, d, big, f);
        },
        Tree::Op { children, .. } => {
            assert(vset(t) == vset_seq(children));
            assert(aset(t) == aset_seq(children));
            assert(assign(t, m, next, d) == assign_seq(children, m, next, d));
            lemma_renumber_seq(children, m, next, d, big, f);
        },
        Tree::ValUse { .. } => {},
    }
}

/// Renaming every ValDef to a fresh id and then numbering in definition
/// order gives the ValDef items of every block increasing ids, so no two
/// share one. The fresh ids
/// start above `max`; where a FuncValue argument sits below an operator
/// that the id search skips and has a larger id, a fresh ValDef id can
/// meet it, so every argument id is asked to be at most `max`.
pub proof fn law_disambiguated_numbering_has_no_block_duplicates(t: Tree, max: u32)
    requires
        is_max_id(t, max),
        forall|x: u32| aset(t).contains(x) ==> x <= max,
        max + 1 + count_valdefs(t) <= u32::MAX,
        tree_size(t) <= u32::MAX,
    ensures
        ({
            let d = dis(t, Seq::empty(), (max + 1) as nat).0;
            blocks_increasing(rewrite(d, assign(d, Map::empty(), 0, None).0))
        }),
{
    let d = dis(t, Seq::empty(), (max + 1) as nat).0;
    lemma_dis(t, Seq::empty(), (max + 1) as nat);
    assert forall|x: u32| #[trigger] vset(d).contains(x) implies !Map::<u32, u32>::empty().contains_key(x) && !aset(d).contains(x) by {
        if aset(d).contains(x) {
            assert(aset(t).contains(x));
        }
    }
    lemma_renumber(d, Map::empty(), 0, None, assign(d, Map::empty(), 0, None).0, aset(d));
}


/// Disambiguation gives the ValDefs of `t`, each its own, exactly the ids
/// from one past the largest id `max` up to `max` plus their number (each
/// of them used, none outside), keeps the FuncValue argument ids, and keeps
/// the size of the tree.
pub proof fn law_disambiguation_uses_fresh_ids(t: Tree, max: u32)
    requires
        is_max_id(t, max),
        max + 1 + count_valdefs(t) <= u32::MAX,
    ensures
        ({
            let r = dis(t, Seq::empty(), (max + 1) as nat);
            &&& uniq(r.0)
            &&& in_range(vset(r.0), (max + 1) as nat, (max + 1 + count_valdefs(t)) as nat)
            &&& covers(vset(r.0), (max + 1) as nat, (max + 1 + count_valdefs(t)) as nat)
            &&& r.2 == max + 1 + count_valdefs(t)
            &&& aset(r.0) == aset(t)
            &&& tree_size(r.0) == tree_size(t)
        }),
{
    lemma_dis(t, Seq::empty(), (max + 1) as nat);
}

/// Renumbering a tree in which no two ValDefs share an id, and no ValDef
/// shares one with a FuncValue argument, gives the ValDef items of every
/// block strictly increasing ids in item order, so no block holds two
/// ValDefs of one id. Definitions, uses and arguments are all renamed
/// through the one map that the numbering builds.
pub proof fn law_renumber_orders_every_block(t: Tree)
    requires
        uniq(t),
        vset(t).disjoint(aset(t)),
        tree_size(t) <= u32::MAX,
    ensures
        blocks_increasing(rewrite(t, assign(t, Map::empty(), 0, None).0)),
{
    assert forall|x: u32| #[trigger] vset(t).contains(x) implies !Map::<u32, u32>::empty().contains_key(x)
        && !aset(t).contains(x) by {}
    lemma_renumber(t, Map::empty(), 0, None, assign(t, Map::empty(), 0, None).0, aset(t));
}

/// `t` with the ids of its ValDefs and ValUses cleared: what is left is
/// its shape (variants, operators, payloads, types, arguments and item
/// order).
pub open spec fn strip_ids(t: Tree) -> Tree
    decreases t,
{
    match t {
        Tree::ValDef { rhs, .. } => Tree::ValDef { id: 0, rhs: Box::new(strip_ids(*rhs)) },
        Tree::ValUse { tpe, .. } => Tree::ValUse { id: 0, tpe },
        Tree::Block { items, result } => Tree::Block {
            items: strip_ids_seq(items),
            result: Box::new(strip_ids(*result)),
        },
        Tree::If { cond, then_branch, else_branch } => Tree::If {
            cond: Box::new(strip_ids(*cond)),
            then_branch: Box::new(strip_ids(*then_branch)),
            else_branch: Box::new(strip_ids(*else_branch)),
        },
        Tree::Func { args, body } => Tree::Func { args, body: Box::new(strip_ids(*body)) },
        Tree::Op { kind, payload, children } => Tree::Op {
            kind,
            payload,
            children: strip_ids_seq(children),
        },
    }
}

pub open spec fn strip_ids_seq(s: Seq<Tree>) -> Seq<Tree>
    decreases s,
{
    Seq::new(
        s.len(),
        |i: int|
            if 0 <= i < s.len() {
                strip_ids(s[i])
            } else {
                Tree::ValUse { id: 0, tpe: 0 }
            },
    )
}

proof fn lemma_strip_push(a: Seq<Tree>, b: Tree)
    ensures
        strip_ids_seq(a.push(b)) =~= strip_ids_seq(a).push(strip_ids(b)),
{
}

proof fn lemma_strip_last(s: Seq<Tree>)
    requires
        s.len() > 0,
    ensures
        strip_ids_seq(s) =~= strip_ids_seq(s.drop_last()).push(strip_ids(s.last())),
{
}

proof fn lemma_dis_seq_shape(s: Seq<Tree>, env: Seq<(u32, u32)>, next: nat)
    ensures
        strip_ids_seq(dis_seq(s, env, next).0) == strip_ids_seq(s),
    decreases s,
{
    if s.len() > 0 {
        let (a, e1, n1) = dis_seq(s.drop_last(), env, next);
        lemma_dis_seq_shape(s.drop_last(), env, next);
        lemma_dis_shape(s.last(), e1, n1);
        let b = dis(s.last(), e1, n1).0;
        lemma_strip_push(a, b);
        lemma_strip_last(s);
    }
}

proof fn lemma_dis_items_shape(items: Seq<Tree>, env: Seq<(u32, u32)>, next: nat, start: nat)
    ensures
        strip_ids_seq(dis_items(items, env, next, start).0) == strip_ids_seq(items),
    decreases items,
{
    if items.len() > 0 {
        let (a, e1, n1) = dis_items(items.drop_last(), env, next, start);
        lemma_dis_items_shape(items.drop_last(), env, next, start);
        lemma_strip_last(items);
        match items.last() {
            Tree::ValDef { id, rhs } => {
                lemma_dis_shape(*rhs, e1, n1);
                let r = dis(*rhs, e1, n1).0;
                let v = Tree::ValDef { id: (start + count_valdef_items(items.drop_last())) as u32, rhs: Box::new(r) };
                lemma_strip_push(a, v);
                assert(strip_ids(v) == strip_ids(items.last()));
            },
            _ => {
                lemma_dis_shape(items.last(), e1, n1);
                lemma_strip_push(a, dis(items.last(), e1, n1).0);
            },
        }
    }
}

proof fn lemma_dis_shape(t: Tree, env: Seq<(u32, u32)>, next: nat)
    ensures
        strip_ids(dis(t, env, next).0) == strip_ids(t),
    decreases t,
{
    match t {
        Tree::ValUse { .. } => {},
        Tree::ValDef { rhs, .. } => {
            lemma_dis_shape(*rhs, env, next);
        },
        Tree::Block { items, result } => {
            let k = count_valdef_items(items);
            let e0 = crate::disambig::prebind(items, env, next);
            let (items2, e1, n1) = dis_items(items, e0, next + k, next);
            lemma_dis_items_shape(items, e0, next + k, next);
            lemma_dis_shape(*result, e1, n1);
        },
        Tree::If { cond, then_branch, else_branch } => {
            let (c2, e1, n1) = dis(*cond, env, next);
            let (t2, _e2, n2) = dis(*then_branch, e1, n1);
            lemma_dis_shape(*cond, env, next);
            lemma_dis_shape(*then_branch, e1, n1);
            lemma_dis_shape(*else_branch, e1, n2);
        },
        Tree::Func { args, body } => {
            lemma_dis_shape(*body, env + crate::disambig::arg_pairs(args), next);
        },
        Tree::Op { children, .. } => {
            lemma_dis_seq_shape(children, env, next);
        },
    }
}

/// Disambiguation changes ids only: the result has the shape of the input
/// (the same variants, operators, payloads, types, FuncValue arguments and
/// item order), whatever the first fresh id.
pub proof fn law_disambiguation_keeps_shape(t: Tree, next: nat)
    ensures
        strip_ids(dis(t, Seq::empty(), next).0) == strip_ids(t),
{
    lemma_dis_shape(t, Seq::empty(), next);
}

proof fn lemma_assign_valdef_items(items: Seq<Tree>)
    requires
        forall|i: int| 0 <= i < items.len() ==> #[trigger] items[i] is ValDef,
        uniq_seq(items),
        vset_seq(items).disjoint(aset_seq(items)),
        items.len() < u32::MAX,
    ensures
        assign_seq(items, Map::empty(), 0, None).1 == items.len(),
        forall|i: int|
            0 <= i < items.len() ==> assign_seq(items, Map::empty(), 0, None).0.contains_key(
                #[trigger] items[i]->ValDef_id,
            ) && assign_seq(items, Map::empty(), 0, None).0[items[i]->ValDef_id] == i + 1,
    decreases items.len(),
{
    if items.len() > 0 {
        let dl = items.drop_last();
        let last = items.last();
        assert forall|i: int| 0 <= i < dl.len() implies #[trigger] dl[i] is ValDef by {
            assert(dl[i] == items[i]);
        }
        assert(vset_seq(items) == vset_seq(dl).union(vset(last)));
        assert(aset_seq(items) == aset_seq(dl).union(aset(last)));
        assert(vset_seq(dl).disjoint(aset_seq(dl))) by {
            assert forall|x: u32| vset_seq(dl).contains(x) implies !aset_seq(dl).contains(x) by {
                assert(vset_seq(items).contains(x));
            }
        }
        lemma_assign_valdef_items(dl);
        lemma_assign_seq_facts(dl, Map::empty(), 0, None);
        let (m1, n1) = assign_seq(dl, Map::empty(), 0, None);
        match last {
            Tree::ValDef { id, rhs } => {
                assert(vset(last).contains(id));
                assert(vset_seq(items).contains(id));
                assert(!vset_seq(dl).contains(id));
                assert(!aset_seq(items).contains(id));
                assert(!aset_seq(dl).contains(id));
                assert(!m1.contains_key(id));
                lemma_assign_facts(*rhs, m1, n1, Some(n1));
                let m2 = assign(*rhs, m1, n1, Some(n1)).0;
                assert(assign(last, m1, n1, None) == (m2.insert(id, (n1 + 1) as u32), n1 + 1));
                assert(assign_seq(items, Map::empty(), 0, None) == assign(last, m1, n1, None));
                assert forall|i: int| 0 <= i < items.len() implies assign_seq(items, Map::empty(), 0, None).0.contains_key(
                    #[trigger] items[i]->ValDef_id,
                ) && assign_seq(items, Map::empty(), 0, None).0[items[i]->ValDef_id] == i + 1 by {
                    if i < dl.len() {
                        assert(items[i] == dl[i]);
                        assert(m1.contains_key(dl[i]->ValDef_id));
                        assert(vset_seq(dl).contains(dl[i]->ValDef_id)) by {
                            lemma_item_id_in_vset(dl, i);
                        }
                        assert(dl[i]->ValDef_id != id);
                    }
                }
            },
            _ => {},
        }
    }
}

proof fn lemma_item_id_in_vset(s: Seq<Tree>, i: int)
    requires
        0 <= i < s.len(),
        s[i] is ValDef,
    ensures
        vset_seq(s).contains(s[i]->ValDef_id),
    decreases s.len(),
{
    if i < s.len() - 1 {
        lemma_item_id_in_vset(s.drop_last(), i);
        assert(s.drop_last()[i] == s[i]);
    } else {
        assert(vset(s.last()).contains(s[i]->ValDef_id));
    }
}

/// Renumbering a block whose items are all ValDefs, in a tree where no two
/// ValDefs share an id and none shares one with a FuncValue argument,
/// numbers the items 1 to `k` in item order, whatever their right-hand
/// sides and the result hold.
pub proof fn law_renumber_numbers_valdef_items_in_order(items: Seq<Tree>, result: Tree)
    requires
        forall|i: int| 0 <= i < items.len() ==> #[trigger] items[i] is ValDef,
        uniq(Tree::Block { items, result: Box::new(result) }),
        vset(Tree::Block { items, result: Box::new(result) }).disjoint(
            aset(Tree::Block { items, result: Box::new(result) }),
        ),
        items.len() < u32::MAX,
    ensures
        ({
            let t = Tree::Block { items, result: Box::new(result) };
            let r = rewrite(t, assign(t, Map::empty(), 0, None).0);
            &&& r is Block
            &&& r->Block_items.len() == items.len()
            &&& forall|i: int| 0 <= i < items.len() ==> ((#[trigger] r->Block_items[i]) matches Tree::ValDef { id, .. }
                && id == i + 1)
        }),
{
    let t = Tree::Block { items, result: Box::new(result) };
    assert(vset_seq(items).disjoint(aset_seq(items))) by {
        assert forall|x: u32| vset_seq(items).contains(x) implies !aset_seq(items).contains(x) by {
            assert(vset(t).contains(x));
            if aset_seq(items).contains(x) {
                assert(aset(t).contains(x));
            }
        }
    }
    lemma_assign_valdef_items(items);
    let (m1, n1) = assign_seq(items, Map::empty(), 0, None);
    lemma_assign_facts(result, m1, n1, None);
    let big = assign(t, Map::empty(), 0, None).0;
    assert(big == assign(result, m1, n1, None).0);
    let r = rewrite(t, big);
    assert(r == Tree::Block { items: rewrite_seq(items, big), result: Box::new(rewrite(result, big)) });
    assert forall|i: int| 0 <= i < items.len() implies ((#[trigger] r->Block_items[i]) matches Tree::ValDef { id, .. }
        && id == i + 1) by {
        let id = items[i]->ValDef_id;
        assert(m1.contains_key(id));
        assert(big.contains_key(id) && big[id] == m1[id]);
        assert(rewrite_seq(items, big)[i] == rewrite(items[i], big));
        match items[i] {
            Tree::ValDef { id: d, rhs } => {
                assert(rewrite(items[i], big) == Tree::ValDef { id: renamed(big, d), rhs: Box::new(rewrite(*rhs, big)) });
            },
            _ => {},
        }
    }
}

proof fn lemma_dis_items_ids(items: Seq<Tree>, env: Seq<(u32, u32)>, next: nat, start: nat)
    ensures
        dis_items(items, env, next, start).0.len() == items.len(),
        forall|i: int|
            0 <= i < items.len() && #[trigger] items[i] is ValDef ==> (dis_items(items, env, next, start).0[i]
                matches Tree::ValDef { id, .. } && id == (start + count_valdef_items(items.subrange(0, i))) as u32),
    decreases items,
{
    if items.len() > 0 {
        let dl = items.drop_last();
        lemma_dis_items_ids(dl, env, next, start);
        let (a, e1, n1) = dis_items(dl, env, next, start);
        let r = dis_items(items, env, next, start).0;
        assert(r.len() == items.len());
        assert forall|i: int|
            0 <= i < items.len() && #[trigger] items[i] is ValDef implies (r[i] matches Tree::ValDef { id, .. } && id
                == (start + count_valdef_items(items.subrange(0, i))) as u32) by {
            if i < dl.len() {
                assert(dl[i] == items[i]);
                assert(r[i] == a[i]);
                assert(dl.subrange(0, i) =~= items.subrange(0, i));
            } else {
                assert(items.subrange(0, i) =~= dl);
            }
        }
    }
}

/// Disambiguation numbers the ValDef items of a block before anything
/// else in it: the `j`-th ValDef item, counting from 0, gets the fresh id
/// `next + j`, in item order; the ValDefs inside the items and the result
/// take the ids after those.
pub proof fn law_disambiguation_numbers_siblings_first(
    items: Seq<Tree>,
    result: Tree,
    env: Seq<(u32, u32)>,
    next: nat,
)
    ensures
        ({
            let r = dis(Tree::Block { items, result: Box::new(result) }, env, next).0;
            &&& r is Block
            &&& r->Block_items.len() == items.len()
            &&& forall|i: int|
                0 <= i < items.len() && #[trigger] items[i] is ValDef ==> ((r->Block_items[i]) matches Tree::ValDef {
                    id,
                    ..
                } && id == (next + count_valdef_items(items.subrange(0, i))) as u32)
        }),
{
    let k = count_valdef_items(items);
    let e0 = crate::disambig::prebind(items, env, next);
    lemma_dis_items_ids(items, e0, next + k, next);
}

} // verus!
