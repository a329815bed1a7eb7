use indexmap::IndexMap;
use vstd::prelude::*;

use crate::alias::{
    alias_map_get_index, alias_map_insert, alias_map_len, alias_map_new, entries_insert,
    index_map_entries,
};
use crate::collect::id_count;
use crate::dag::{expr_type, type_of, TypeTags};
use crate::flatten::{block_result, is_mapped_kind, mapped_kind};
use crate::node::{clone_node, clone_nodes, node_view, nodes_view, Node, Tree};
use crate::predicates::{dedupable_wrapper, is_dedupable_wrapper};
use crate::reorder::defines_id;
use crate::walk::{
    collect_all_val_uses, lemma_prefix_step, replace_all, replaced, val_uses, val_uses_seq,
};

verus! {

/// The ValUse of `id` typed as `rhs`: what the uses of an inlined ValDef
/// are matched against.
pub open spec fn typed_use(id: u32, rhs: Tree, ops: Seq<u32>) -> Tree {
    Tree::ValUse { id, tpe: type_of(rhs, ops) }
}

/// What the use of an inlined ValDef becomes: the result of a block
/// right-hand side, any other right-hand side itself.
pub open spec fn inline_source(rhs: Tree) -> Tree {
    match rhs {
        Tree::Block { result, .. } => *result,
        _ => rhs,
    }
}

/// The items that an inlined block right-hand side leaves in the
/// surrounding block.
pub open spec fn hoist_of(rhs: Tree) -> Seq<Tree> {
    match rhs {
        Tree::Block { items, .. } => items,
        _ => Seq::empty(),
    }
}

/// The ids of the ValDefs among `s`, in order.
pub open spec fn def_ids_in(s: Seq<Tree>) -> Seq<u32>
    decreases s.len(),
{
    if s.len() == 0 {
        Seq::empty()
    } else {
        match s.last() {
            Tree::ValDef { id, .. } => def_ids_in(s.drop_last()).push(id),
            _ => def_ids_in(s.drop_last()),
        }
    }
}

/// `t` is a ValDef whose id occurs exactly once among `uses`.
pub open spec fn inlined_def(t: Tree, uses: Seq<u32>) -> bool {
    match t {
        Tree::ValDef { id, .. } => id_count(uses, id) == 1,
        _ => false,
    }
}

/// `t` with the entries of `m` substituted in turn, each replacing the
/// ValUse of its id typed as its tree.
pub open spec fn subst_entries(t: Tree, m: Seq<(u32, Tree)>, ops: Seq<u32>) -> Tree
    decreases m.len(),
{
    if m.len() == 0 {
        t
    } else {
        replaced(
            subst_entries(t, m.drop_last(), ops),
            typed_use(m.last().0, m.last().1, ops),
            m.last().1,
        )
    }
}

/// The inline map built from the first `k` items: each ValDef used once
/// enters with what its use becomes, the earlier entries substituted
/// into it.
pub open spec fn single_map(items: Seq<Tree>, k: int, uses: Seq<u32>, ops: Seq<u32>) -> Seq<
    (u32, Tree),
>
    decreases k,
{
    if k <= 0 || k > items.len() {
        Seq::empty()
    } else {
        let m = single_map(items, k - 1, uses, ops);
        match items[k - 1] {
            Tree::ValDef { id, rhs } => if id_count(uses, id) == 1 {
                entries_insert(m, id, subst_entries(inline_source(*rhs), m, ops))
            } else {
                m
            },
            _ => m,
        }
    }
}

/// The ids of the ValDefs hoisted out of the inlined block right-hand
/// sides among the first `k` items.
pub open spec fn hoist_ids(items: Seq<Tree>, k: int, uses: Seq<u32>) -> Seq<u32>
    decreases k,
{
    if k <= 0 || k > items.len() {
        Seq::empty()
    } else {
        let h = hoist_ids(items, k - 1, uses);
        match items[k - 1] {
            Tree::ValDef { id, rhs } => if id_count(uses, id) == 1 {
                h + def_ids_in(hoist_of(*rhs))
            } else {
                h
            },
            _ => h,
        }
    }
}

/// The first `k` items with each inlined ValDef replaced by the items
/// hoisted out of its right-hand side.
pub open spec fn kept_after(items: Seq<Tree>, k: int, uses: Seq<u32>) -> Seq<Tree>
    decreases k,
{
    if k <= 0 || k > items.len() {
        Seq::empty()
    } else {
        let h = kept_after(items, k - 1, uses);
        match items[k - 1] {
            Tree::ValDef { id, rhs } => if id_count(uses, id) == 1 {
                h + hoist_of(*rhs)
            } else {
                h.push(items[k - 1])
            },
            _ => h.push(items[k - 1]),
        }
    }
}

/// The right-hand side of the first ValDef of `items` from position `k`
/// on with id `hid` and a `dedupable_wrapper` right-hand side.
pub open spec fn wrapper_from(items: Seq<Tree>, k: int, hid: u32) -> Option<Tree>
    decreases items.len() - k,
{
    if k < 0 || k >= items.len() {
        None
    } else {
        match items[k] {
            Tree::ValDef { id, rhs } => if id == hid && dedupable_wrapper(*rhs) {
                Some(*rhs)
            } else {
                wrapper_from(items, k + 1, hid)
            },
            _ => wrapper_from(items, k + 1, hid),
        }
    }
}

/// Folds the occurrences of the wrapper right-hand side of the hoisted
/// ValDef `hid` in the block `b` (its own ValDefs apart) into ValUses of
/// it.
pub open spec fn dedup_step(b: Tree, hid: u32, ops: Seq<u32>) -> Tree {
    match b {
        Tree::Block { items, result } => match wrapper_from(items, 0, hid) {
            Some(w) => {
                let u = Tree::ValUse { id: hid, tpe: type_of(w, ops) };
                Tree::Block {
                    items: Seq::new(
                        items.len(),
                        |i: int|
                            if defines_id(items[i], hid) {
                                items[i]
                            } else {
                                replaced(items[i], w, u)
                            },
                    ),
                    result: Box::new(replaced(*result, w, u)),
                }
            },
            None => b,
        },
        _ => b,
    }
}

/// `dedup_step` for each of `hids` in turn.
pub open spec fn dedup_all(b: Tree, hids: Seq<u32>, ops: Seq<u32>) -> Tree
    decreases hids.len(),
{
    if hids.len() == 0 {
        b
    } else {
        dedup_step(dedup_all(b, hids.drop_last(), ops), hids.last(), ops)
    }
}

/// The block with items `items` and result `result` after inlining the
/// ValDefs used exactly once in it: with none, the block as it is;
/// otherwise those ValDefs leave the items (an inlined block right-hand
/// side leaving its own items in their place), the inline map is
/// substituted in, the hoisted wrappers are folded, and a block left with
/// no items is its result.
pub open spec fn block_inlined(items: Seq<Tree>, result: Tree, ops: Seq<u32>) -> Tree {
    let uses = val_uses_seq(items) + val_uses(result);
    let m = single_map(items, items.len() as int, uses, ops);
    if m.len() == 0 {
        Tree::Block { items, result: Box::new(result) }
    } else {
        let kept = kept_after(items, items.len() as int, uses);
        let hids = hoist_ids(items, items.len() as int, uses);
        let b = dedup_all(
            subst_entries(Tree::Block { items: kept, result: Box::new(result) }, m, ops),
            hids,
            ops,
        );
        if kept.len() == 0 && hids.len() == 0 {
            block_result(b)
        } else {
            b
        }
    }
}

/// `t` with the single-use ValDefs of each block inlined, bottom-up
/// (inner blocks first; not inside FuncValue bodies, nor below the
/// operands of kinds the passes do not rewrite).
pub open spec fn single_inlined(t: Tree, ops: Seq<u32>) -> Tree
    decreases t,
{
    match t {
        Tree::ValDef { id, rhs } => Tree::ValDef { id, rhs: Box::new(single_inlined(*rhs, ops)) },
        Tree::ValUse { .. } => t,
        Tree::Block { items, result } => block_inlined(
            single_inlined_seq(items, ops),
            single_inlined(*result, ops),
            ops,
        ),
        Tree::If { cond, then_branch, else_branch } => Tree::If {
            cond: Box::new(single_inlined(*cond, ops)),
            then_branch: Box::new(single_inlined(*then_branch, ops)),
            else_branch: Box::new(single_inlined(*else_branch, ops)),
        },
        Tree::Func { .. } => t,
        Tree::Op { kind, payload, children } => if mapped_kind(kind) {
            Tree::Op { kind, payload, children: single_inlined_seq(children, ops) }
        } else {
            t
        },
    }
}

pub open spec fn single_inlined_seq(s: Seq<Tree>, ops: Seq<u32>) -> Seq<Tree>
    decreases s,
{
    Seq::new(
        s.len(),
        |i: int|
            if 0 <= i < s.len() {
                single_inlined(s[i], ops)
            } else {
                Tree::ValUse { id: 0, tpe: 0 }
            },
    )
}


/// The ValUse ids of the items and the result of a block, in order.
fn block_uses(items: &Vec<Node>, result: &Node) -> (r: Vec<u32>)
    ensures
        r@ == val_uses_seq(nodes_view(items@)) + val_uses(result@),
{
    let ghost s = nodes_view(items@);
    let mut out: Vec<u32> = Vec::new();
    let mut i: usize = 0;
    assert(s.subrange(0, 0) =~= Seq::<Tree>::empty());
    while i < items.len()
        invariant
            0 <= i <= items@.len(),
            s == nodes_view(items@),
            out@ == val_uses_seq(s.subrange(0, i as int)),
        decreases items.len() - i,
    {
        proof {
            lemma_prefix_step(s, i as int);
        }
        assert(s[i as int] == node_view(items@[i as int]));
        collect_all_val_uses(&items[i], &mut out);
        i += 1;
    }
    assert(s.subrange(0, s.len() as int) =~= s);
    collect_all_val_uses(result, &mut out);
    out
}

/// Whether `id` occurs exactly once among `uses`.
fn used_once(uses: &Vec<u32>, id: u32) -> (r: bool)
    ensures
        r == (id_count(uses@, id) == 1),
{
    let mut c: usize = 0;
    let mut i: usize = 0;
    assert(uses@.subrange(0, 0) =~= Seq::<u32>::empty());
    while i < uses.len()
        invariant
            0 <= i <= uses@.len(),
            c == (if id_count(uses@.subrange(0, i as int), id) >= 2 {
                2
            } else {
                id_count(uses@.subrange(0, i as int), id)
            }),
        decreases uses.len() - i,
    {
        assert(uses@.subrange(0, i + 1).drop_last() =~= uses@.subrange(0, i as int));
        if uses[i] == id && c < 2 {
            c = c + 1;
        }
        i += 1;
    }
    assert(uses@.subrange(0, uses@.len() as int) =~= uses@);
    c == 1
}

/// Appends the ids of the ValDefs among `s` to `out`.
fn push_def_ids(s: &Vec<Node>, out: &mut Vec<u32>)
    ensures
        final(out)@ == old(out)@ + def_ids_in(nodes_view(s@)),
{
    let ghost v = nodes_view(s@);
    let ghost o0 = out@;
    let mut i: usize = 0;
    assert(v.subrange(0, 0) =~= Seq::<Tree>::empty());
    assert(o0 + def_ids_in(Seq::<Tree>::empty()) =~= o0);
    while i < s.len()
        invariant
            0 <= i <= s@.len(),
            v == nodes_view(s@),
            out@ == o0 + def_ids_in(v.subrange(0, i as int)),
        decreases s.len() - i,
    {
        proof {
            lemma_prefix_step(v, i as int);
        }
        assert(v[i as int] == node_view(s@[i as int]));
        if let Node::ValDef { id, .. } = &s[i] {
            let ghost before = out@;
            out.push(*id);
            assert(out@ =~= o0 + def_ids_in(v.subrange(0, i + 1)));
        } else {
            assert(out@ =~= o0 + def_ids_in(v.subrange(0, i + 1)));
        }
        i += 1;
    }
    assert(v.subrange(0, v.len() as int) =~= v);
}

/// `expr` with the entries of `m` substituted in turn, as `subst_entries`
/// says.
fn subst_map(expr: Node, m: &IndexMap<u32, Node>, tags: &TypeTags) -> (r: Node)
    ensures
        r@ == subst_entries(expr@, index_map_entries(*m), tags.op_types@),
{
    let ghost e = index_map_entries(*m);
    let ghost t0 = expr@;
    let n = alias_map_len(m);
    let mut cur = expr;
    let mut j: usize = 0;
    assert(e.subrange(0, 0) =~= Seq::<(u32, Tree)>::empty());
    while j < n
        invariant
            0 <= j <= n,
            n == e.len(),
            e == index_map_entries(*m),
            cur@ == subst_entries(t0, e.subrange(0, j as int), tags.op_types@),
        decreases n - j,
    {
        assert(e.subrange(0, j + 1).drop_last() =~= e.subrange(0, j as int));
        assert(e.subrange(0, j + 1).last() == e[j as int]);
        let entry = alias_map_get_index(m, j);
        match entry {
            Some((id, rhs)) => {
                let u = Node::ValUse { id, tpe: expr_type(rhs, tags) };
                cur = replace_all(&cur, &u, rhs);
            },
            None => {},
        }
        j += 1;
    }
    assert(e.subrange(0, n as int) =~= e);
    cur
}


/// The inline map of a block, whether each item is an inlined ValDef, and
/// the hoisted ValDef ids, as `single_map`, `inlined_def` and `hoist_ids`
/// say.
fn plan_inlining(items: &Vec<Node>, uses: &Vec<u32>, tags: &TypeTags) -> (r: (
    IndexMap<u32, Node>,
    Vec<bool>,
    Vec<u32>,
))
    ensures
        index_map_entries(r.0) == single_map(
            nodes_view(items@),
            items@.len() as int,
            uses@,
            tags.op_types@,
        ),
        r.1@.len() == items@.len(),
        forall|i: int| 0 <= i < items@.len() ==> r.1@[i] == inlined_def(nodes_view(items@)[i], uses@),
        r.2@ == hoist_ids(nodes_view(items@), items@.len() as int, uses@),
{
    let ghost s = nodes_view(items@);
    let ghost ops = tags.op_types@;
    let mut m = alias_map_new();
    let mut flags: Vec<bool> = Vec::new();
    let mut hids: Vec<u32> = Vec::new();
    let mut i: usize = 0;
    while i < items.len()
        invariant
            0 <= i <= items@.len(),
            s == nodes_view(items@),
            ops == tags.op_types@,
            index_map_entries(m) == single_map(s, i as int, uses@, ops),
            flags@.len() == i,
            forall|q: int| 0 <= q < i ==> flags@[q] == inlined_def(s[q], uses@),
            hids@ == hoist_ids(s, i as int, uses@),
        decreases items.len() - i,
    {
        assert(s[i as int] == node_view(items@[i as int]));
        match &items[i] {
            Node::ValDef { id, rhs } => {
                assert(s[i as int] == Tree::ValDef { id: *id, rhs: Box::new(node_view(**rhs)) });
                if used_once(uses, *id) {
                    let src: Node = match &**rhs {
                        Node::Block { items: inner, result: inner_result } => {
                            assert(node_view(**rhs) == Tree::Block {
                                items: nodes_view(inner@),
                                result: Box::new(node_view(**inner_result)),
                            });
                            push_def_ids(inner, &mut hids);
                            clone_node(inner_result)
                        },
                        other => {
                            assert(!(node_view(*other) is Block));
                            assert(hoist_of(node_view(*other)) =~= Seq::<Tree>::empty());
                            assert(def_ids_in(Seq::<Tree>::empty()) =~= Seq::<u32>::empty());
                            assert(hids@ =~= hids@ + Seq::<u32>::empty());
                            clone_node(other)
                        },
                    };
                    assert(src@ == inline_source(node_view(**rhs)));
                    let sub = subst_map(src, &m, tags);
                    alias_map_insert(&mut m, *id, sub);
                    flags.push(true);
                } else {
                    flags.push(false);
                }
            },
            _ => {
                flags.push(false);
            },
        }
        i += 1;
    }
    (m, flags, hids)
}

/// The items left in the block, as `kept_after` says.
fn kept_items(items: &Vec<Node>, flags: &Vec<bool>, Ghost(uses): Ghost<Seq<u32>>) -> (r: Vec<Node>)
    requires
        flags@.len() == items@.len(),
        forall|i: int| 0 <= i < items@.len() ==> flags@[i] == inlined_def(nodes_view(items@)[i], uses),
    ensures
        nodes_view(r@) == kept_after(nodes_view(items@), items@.len() as int, uses),
{
    let ghost s = nodes_view(items@);
    let mut out: Vec<Node> = Vec::new();
    let mut i: usize = 0;
    assert(nodes_view(out@) =~= Seq::<Tree>::empty());
    while i < items.len()
        invariant
            0 <= i <= items@.len(),
            s == nodes_view(items@),
            flags@.len() == items@.len(),
            forall|q: int| 0 <= q < items@.len() ==> flags@[q] == inlined_def(s[q], uses),
            nodes_view(out@) == kept_after(s, i as int, uses),
        decreases items.len() - i,
    {
        assert(s[i as int] == node_view(items@[i as int]));
        let ghost before = nodes_view(out@);
        if flags[i] {
            match &items[i] {
                Node::ValDef { rhs, id } => {
                    assert(s[i as int] == Tree::ValDef { id: *id, rhs: Box::new(node_view(**rhs)) });
                    match &**rhs {
                        Node::Block { items: inner, result: inner_result } => {
                            assert(node_view(**rhs) == Tree::Block {
                                items: nodes_view(inner@),
                                result: Box::new(node_view(**inner_result)),
                            });
                            let mut more = clone_nodes(inner);
                            let ghost a = out@;
                            let ghost b = more@;
                            out.append(&mut more);
                            assert(nodes_view(out@) =~= nodes_view(a) + nodes_view(b));
                        },
                        other => {
                            assert(!(node_view(*other) is Block));
                            assert(nodes_view(out@) =~= before + hoist_of(node_view(*other)));
                        },
                    }
                },
                _ => {},
            }
        } else {
            out.push(clone_node(&items[i]));
            assert(nodes_view(out@) =~= before.push(s[i as int]));
        }
        i += 1;
    }
    out
}


/// The position of the ValDef that `wrapper_from` finds from position 0.
fn find_wrapper(items: &Vec<Node>, hid: u32) -> (r: Option<usize>)
    ensures
        match r {
            Some(p) => p < items@.len() && nodes_view(items@)[p as int] is ValDef && wrapper_from(
                nodes_view(items@),
                0,
                hid,
            ) == Some(*(nodes_view(items@)[p as int]->rhs)),
            None => wrapper_from(nodes_view(items@), 0, hid) is None,
        },
{
    let ghost s = nodes_view(items@);
    let mut i: usize = 0;
    while i < items.len()
        invariant
            0 <= i <= items@.len(),
            s == nodes_view(items@),
            wrapper_from(s, 0, hid) == wrapper_from(s, i as int, hid),
        decreases items.len() - i,
    {
        assert(s[i as int] == node_view(items@[i as int]));
        if let Node::ValDef { id, rhs } = &items[i] {
            assert(s[i as int] == Tree::ValDef { id: *id, rhs: Box::new(node_view(**rhs)) });
            if *id == hid && is_dedupable_wrapper(rhs) {
                return Some(i);
            }
        }
        i += 1;
    }
    None
}

/// One fold of the hoisted wrapper `hid`, as `dedup_step` says.
fn dedup_one(block: Node, hid: u32, tags: &TypeTags) -> (r: Node)
    ensures
        r@ == dedup_step(block@, hid, tags.op_types@),
{
    match block {
        Node::Block { items, result } => {
            let ghost s = nodes_view(items@);
            assert(block@ == Tree::Block { items: s, result: Box::new(node_view(*result)) });
            match find_wrapper(&items, hid) {
                Some(p) => {
                    let w: Node = match &items[p] {
                        Node::ValDef { rhs, .. } => clone_node(rhs),
                        other => clone_node(other),
                    };
                    assert(s[p as int] == node_view(items@[p as int]));
                    assert(w@ == *(s[p as int]->rhs));
                    let u = Node::ValUse { id: hid, tpe: expr_type(&w, tags) };
                    let mut out: Vec<Node> = Vec::new();
                    let mut i: usize = 0;
                    while i < items.len()
                        invariant
                            0 <= i <= items@.len(),
                            s == nodes_view(items@),
                            out@.len() == i,
                            forall|q: int|
                                0 <= q < i ==> node_view(#[trigger] out@[q]) == (if defines_id(
                                    s[q],
                                    hid,
                                ) {
                                    s[q]
                                } else {
                                    replaced(s[q], w@, u@)
                                }),
                        decreases items.len() - i,
                    {
                        assert(s[i as int] == node_view(items@[i as int]));
                        let keep = match &items[i] {
                            Node::ValDef { id, .. } => *id == hid,
                            _ => false,
                        };
                        if keep {
                            out.push(clone_node(&items[i]));
                        } else {
                            out.push(replace_all(&items[i], &w, &u));
                        }
                        i += 1;
                    }
                    let new_result = replace_all(&result, &w, &u);
                    let r = Node::Block { items: out, result: Box::new(new_result) };
                    assert(nodes_view(out@) =~= Seq::new(
                        s.len(),
                        |q: int|
                            if defines_id(s[q], hid) {
                                s[q]
                            } else {
                                replaced(s[q], w@, u@)
                            },
                    ));
                    r
                },
                None => Node::Block { items, result },
            }
        },
        other => other,
    }
}

/// The folds of all hoisted wrappers in turn, as `dedup_all` says.
fn dedup_hoisted(block: Node, hids: &Vec<u32>, tags: &TypeTags) -> (r: Node)
    ensures
        r@ == dedup_all(block@, hids@, tags.op_types@),
{
    let ghost b0 = block@;
    let mut cur = block;
    let mut k: usize = 0;
    assert(hids@.subrange(0, 0) =~= Seq::<u32>::empty());
    while k < hids.len()
        invariant
            0 <= k <= hids@.len(),
            cur@ == dedup_all(b0, hids@.subrange(0, k as int), tags.op_types@),
        decreases hids.len() - k,
    {
        assert(hids@.subrange(0, k + 1).drop_last() =~= hids@.subrange(0, k as int));
        cur = dedup_one(cur, hids[k], tags);
        k += 1;
    }
    assert(hids@.subrange(0, hids@.len() as int) =~= hids@);
    cur
}

/// The block with items `items` and result `result` after inlining its
/// single-use ValDefs, as `block_inlined` says.
fn inline_block(items: Vec<Node>, result: Node, tags: &TypeTags) -> (r: Node)
    ensures
        r@ == block_inlined(nodes_view(items@), result@, tags.op_types@),
{
    let uses = block_uses(&items, &result);
    let (m, flags, hids) = plan_inlining(&items, &uses, tags);
    if alias_map_len(&m) == 0 {
        return Node::Block { items, result: Box::new(result) };
    }
    let kept = kept_items(&items, &flags, Ghost(uses@));
    let kept_empty = kept.len() == 0;
    let block = Node::Block { items: kept, result: Box::new(result) };
    let block = subst_map(block, &m, tags);
    let block = dedup_hoisted(block, &hids, tags);
    if kept_empty && hids.len() == 0 {
        match block {
            Node::Block { result, .. } => *result,
            other => other,
        }
    } else {
        block
    }
}

fn inline_single_seq(v: &Vec<Node>, tags: &TypeTags) -> (r: Vec<Node>)
    ensures
        nodes_view(r@) == single_inlined_seq(nodes_view(v@), tags.op_types@),
    decreases v@,
{
    let ghost sv = nodes_view(v@);
    let mut out: Vec<Node> = Vec::new();
    let mut i: usize = 0;
    while i < v.len()
        invariant
            0 <= i <= v@.len(),
            sv == nodes_view(v@),
            out@.len() == i,
            forall|q: int| 0 <= q < i ==> node_view(#[trigger] out@[q]) == single_inlined(sv[q], tags.op_types@),
        decreases v.len() - i,
    {
        assert(decreases_to!(v@ => v@[i as int]));
        assert(sv[i as int] == node_view(v@[i as int]));
        out.push(inline_single_ref(&v[i], tags));
        i += 1;
    }
    assert(nodes_view(out@) =~= single_inlined_seq(sv, tags.op_types@));
    out
}

fn inline_single_ref(expr: &Node, tags: &TypeTags) -> (r: Node)
    ensures
        r@ == single_inlined(expr@, tags.op_types@),
    decreases expr,
{
    match expr {
        Node::ValDef { id, rhs } => {
            Node::ValDef { id: *id, rhs: Box::new(inline_single_ref(rhs, tags)) }
        },
        Node::ValUse { id, tpe } => Node::ValUse { id: *id, tpe: *tpe },
        Node::Block { items, result } => {
            let new_items = inline_single_seq(items, tags);
            let new_result = inline_single_ref(result, tags);
            inline_block(new_items, new_result, tags)
        },
        Node::If { cond, then_branch, else_branch } => Node::If {
            cond: Box::new(inline_single_ref(cond, tags)),
            then_branch: Box::new(inline_single_ref(then_branch, tags)),
            else_branch: Box::new(inline_single_ref(else_branch, tags)),
        },
        Node::Func { .. } => clone_node(expr),
        Node::Op { kind, payload, children } => {
            if is_mapped_kind(*kind) {
                Node::Op { kind: *kind, payload: *payload, children: inline_single_seq(children, tags) }
            } else {
                clone_node(expr)
            }
        },
    }
}

/// Inlines, in every block bottom-up, the ValDefs used exactly once, as
/// `single_inlined` says: an inlined ValDef leaves the items; its one use
/// becomes its right-hand side (the result of a block right-hand side,
/// whose items move into the surrounding block), with the ValDefs inlined
/// before it substituted in; a hoisted ValDef that wraps a ValUse in an
/// `Upcast` or `Negation` then stands for the other occurrences of that
/// wrapper in the block; a block left with no items is its result.
pub fn inline_single_use_vals(expr: Node, tags: &TypeTags) -> (r: Node)
    ensures
        r@ == single_inlined(expr@, tags.op_types@),
{
    inline_single_ref(&expr, tags)
}

} // verus!
