use vstd::prelude::*;

use crate::dag::{expr_type, type_of, TypeTags};
use crate::node::{clone_node, node_view, nodes_view, Node, OpKind, Tree};
use crate::walk::{
    free_of, free_of_seq, law_replace_all_without_match, lemma_children_count, node_count, node_count_seq, replace_all,
    replace_all_seq, replaced, replaced_seq, tree_children,
};

verus! {

/// The constant right-hand side of a ValDef whose right-hand side is a
/// constant (a constant has no operands).
pub open spec fn const_rhs(t: Tree) -> Option<Tree> {
    match t {
        Tree::ValDef { rhs, .. } => match *rhs {
            Tree::Op { kind, children, .. } => if kind == OpKind::Const && children.len() == 0 {
                Some(*rhs)
            } else {
                None
            },
            _ => None,
        },
        _ => None,
    }
}

/// The constants of the constant ValDefs among `items` by id; a later
/// one replaces an earlier one.
pub open spec fn const_map(items: Seq<Tree>) -> Map<u32, Tree>
    decreases items.len(),
{
    if items.len() == 0 {
        Map::empty()
    } else {
        let m = const_map(items.drop_last());
        match (items.last(), const_rhs(items.last())) {
            (Tree::ValDef { id, .. }, Some(c)) => m.insert(id, c),
            _ => m,
        }
    }
}

/// The items that are not constant ValDefs, in order.
pub open spec fn non_const_items(items: Seq<Tree>) -> Seq<Tree>
    decreases items.len(),
{
    if items.len() == 0 {
        Seq::empty()
    } else {
        let rest = non_const_items(items.drop_last());
        if const_rhs(items.last()) is Some {
            rest
        } else {
            rest.push(items.last())
        }
    }
}

/// `t` with each ValUse of an id of `m`, typed as its constant, replaced by
/// that constant, wherever `replace_all` reaches.
pub open spec fn subst_consts(t: Tree, m: Map<u32, Tree>, ops: Seq<u32>) -> Tree
    decreases t,
{
    match t {
        Tree::ValUse { id, tpe } => if m.contains_key(id) && tpe == type_of(m[id], ops) {
            m[id]
        } else {
            t
        },
        Tree::ValDef { id, rhs } => Tree::ValDef { id, rhs: Box::new(subst_consts(*rhs, m, ops)) },
        Tree::Block { items, result } => Tree::Block {
            items: subst_consts_seq(items, m, ops),
            result: Box::new(subst_consts(*result, m, ops)),
        },
        Tree::If { cond, then_branch, else_branch } => Tree::If {
            cond: Box::new(subst_consts(*cond, m, ops)),
            then_branch: Box::new(subst_consts(*then_branch, m, ops)),
            else_branch: Box::new(subst_consts(*else_branch, m, ops)),
        },
        Tree::Func { args, body } => Tree::Func { args, body: Box::new(subst_consts(*body, m, ops)) },
        Tree::Op { kind, payload, children } => Tree::Op {
            kind,
            payload,
            children: subst_consts_seq(children, m, ops),
        },
    }
}

pub open spec fn subst_consts_seq(s: Seq<Tree>, m: Map<u32, Tree>, ops: Seq<u32>) -> Seq<Tree>
    decreases s,
{
    Seq::new(
        s.len(),
        |i: int|
            if 0 <= i < s.len() {
                subst_consts(s[i], m, ops)
            } else {
                Tree::ValUse { id: 0, tpe: 0 }
            },
    )
}

/// A constant operator without operands.
pub open spec fn leaf_const(t: Tree) -> bool {
    t matches Tree::Op { kind, children, .. } && kind == OpKind::Const && children.len() == 0
}

/// Every value of `m` is a constant.
pub open spec fn all_consts(m: Map<u32, Tree>) -> bool {
    forall|k: u32| #[trigger] m.contains_key(k) ==> leaf_const(m[k])
}

/// Blocks with constant ValDefs inlined: in a block with some, those
/// ValDefs are dropped and their ValUses in the other items and the result
/// replaced by the constants; then the blocks among the items and the
/// result are inlined in turn, and a block left without items becomes its
/// result. A block without constant ValDefs, and any other tree, stay.
pub open spec fn const_inlined(t: Tree, ops: Seq<u32>) -> Tree
    decreases node_count(t), 1int, 0int,
{
    match t {
        Tree::Block { items, result } => {
            let m = const_map(items);
            let kept = non_const_items(items);
            if m.dom() == Set::<u32>::empty() {
                Tree::Block { items: kept, result }
            } else {
                let items2 = subst_consts_seq(kept, m, ops);
                let result2 = subst_consts(*result, m, ops);
                let items3 = const_inlined_upto(items2, items2.len() as int, ops, node_count(t));
                let result3 = if node_count(result2) < node_count(t) {
                    const_inlined(result2, ops)
                } else {
                    result2
                };
                if items3.len() == 0 {
                    result3
                } else {
                    Tree::Block { items: items3, result: Box::new(result3) }
                }
            }
        },
        _ => t,
    }
}

/// `const_inlined` over the first `k` trees of `s`, each smaller than
/// `bound`.
pub open spec fn const_inlined_upto(s: Seq<Tree>, k: int, ops: Seq<u32>, bound: nat) -> Seq<Tree>
    decreases bound, 0int, k,
{
    if k <= 0 || k > s.len() {
        Seq::empty()
    } else {
        const_inlined_upto(s, k - 1, ops, bound).push(
            if node_count(s[k - 1]) < bound {
                const_inlined(s[k - 1], ops)
            } else {
                s[k - 1]
            },
        )
    }
}


proof fn lemma_subst_count(t: Tree, m: Map<u32, Tree>, ops: Seq<u32>)
    requires
        all_consts(m),
    ensures
        node_count(subst_consts(t, m, ops)) == node_count(t),
    decreases t,
{
    match t {
        Tree::ValUse { id, tpe } => {
            if m.contains_key(id) && tpe == type_of(m[id], ops) {
                assert(leaf_const(m[id]));
                let c = m[id];
                match c {
                    Tree::Op { children, .. } => {
                        assert(children.len() == 0);
                        assert(node_count_seq(children) == 0);
                        assert(node_count(c) == 1);
                    },
                    _ => {},
                }
                assert(subst_consts(t, m, ops) == c);
            }
        },
        Tree::ValDef { rhs, .. } => lemma_subst_count(*rhs, m, ops),
        Tree::Block { items, result } => {
            lemma_subst_count_seq(items, m, ops);
            lemma_subst_count(*result, m, ops);
        },
        Tree::If { cond, then_branch, else_branch } => {
            lemma_subst_count(*cond, m, ops);
            lemma_subst_count(*then_branch, m, ops);
            lemma_subst_count(*else_branch, m, ops);
        },
        Tree::Func { body, .. } => lemma_subst_count(*body, m, ops),
        Tree::Op { kind, children, .. } => {
            lemma_subst_count_seq(children, m, ops);
        },
    }
}

proof fn lemma_subst_count_seq(s: Seq<Tree>, m: Map<u32, Tree>, ops: Seq<u32>)
    requires
        all_consts(m),
    ensures
        node_count_seq(subst_consts_seq(s, m, ops)) == node_count_seq(s),
    decreases s,
{
    if s.len() > 0 {
        let ss = subst_consts_seq(s, m, ops);
        assert(ss.drop_last() =~= subst_consts_seq(s.drop_last(), m, ops));
        lemma_subst_count_seq(s.drop_last(), m, ops);
        lemma_subst_count(s.last(), m, ops);
    }
}

proof fn lemma_subst_empty(t: Tree, ops: Seq<u32>)
    ensures
        subst_consts(t, Map::empty(), ops) == t,
    decreases t,
{
    match t {
        Tree::ValDef { rhs, .. } => lemma_subst_empty(*rhs, ops),
        Tree::Block { items, result } => {
            lemma_subst_empty_seq(items, ops);
            lemma_subst_empty(*result, ops);
        },
        Tree::If { cond, then_branch, else_branch } => {
            lemma_subst_empty(*cond, ops);
            lemma_subst_empty(*then_branch, ops);
            lemma_subst_empty(*else_branch, ops);
        },
        Tree::Func { body, .. } => lemma_subst_empty(*body, ops),
        Tree::Op { kind, children, .. } => {
            lemma_subst_empty_seq(children, ops);
        },
        _ => {},
    }
}

proof fn lemma_subst_empty_seq(s: Seq<Tree>, ops: Seq<u32>)
    ensures
        subst_consts_seq(s, Map::empty(), ops) == s,
    decreases s,
{
    assert forall|i: int| 0 <= i < s.len() implies subst_consts_seq(s, Map::empty(), ops)[i]
        == s[i] by {
        lemma_subst_empty(s[i], ops);
    }
    assert(subst_consts_seq(s, Map::empty(), ops) =~= s);
}

/// Replacing the ValUses of one more constant after the others is
/// substituting them all together.
proof fn lemma_subst_step(t: Tree, m: Map<u32, Tree>, id: u32, c: Tree, ops: Seq<u32>)
    requires
        all_consts(m),
        leaf_const(c),
        !m.contains_key(id),
    ensures
        replaced(subst_consts(t, m, ops), Tree::ValUse { id, tpe: type_of(c, ops) }, c)
            == subst_consts(t, m.insert(id, c), ops),
    decreases t,
{
    let vu = Tree::ValUse { id, tpe: type_of(c, ops) };
    let m2 = m.insert(id, c);
    match t {
        Tree::ValUse { id: i, tpe } => {
            if m.contains_key(i) && tpe == type_of(m[i], ops) {
                assert(leaf_const(m[i]));
                assert(i != id);
                assert(m2[i] == m[i]);
                assert(replaced(m[i], vu, c) == m[i]) by {
                    let k = m[i];
                    assert(free_of_seq(tree_children(k), vu));
                    assert(free_of(k, vu));
                    law_replace_all_without_match(k, vu, c);
                }
            } else {
                if i == id {
                    assert(m2[i] == c);
                } else if m.contains_key(i) {
                    assert(m2[i] == m[i]);
                }
            }
        },
        Tree::ValDef { id: d, rhs } => {
            lemma_subst_step(*rhs, m, id, c, ops);
        },
        Tree::Block { items, result } => {
            lemma_subst_step_seq(items, m, id, c, ops);
            lemma_subst_step(*result, m, id, c, ops);
        },
        Tree::If { cond, then_branch, else_branch } => {
            lemma_subst_step(*cond, m, id, c, ops);
            lemma_subst_step(*then_branch, m, id, c, ops);
            lemma_subst_step(*else_branch, m, id, c, ops);
        },
        Tree::Func { body, .. } => {
            lemma_subst_step(*body, m, id, c, ops);
        },
        Tree::Op { kind, children, .. } => {
            lemma_subst_step_seq(children, m, id, c, ops);
        },
    }
}

proof fn lemma_subst_step_seq(s: Seq<Tree>, m: Map<u32, Tree>, id: u32, c: Tree, ops: Seq<u32>)
    requires
        all_consts(m),
        leaf_const(c),
        !m.contains_key(id),
    ensures
        replaced_seq(subst_consts_seq(s, m, ops), Tree::ValUse { id, tpe: type_of(c, ops) }, c)
            == subst_consts_seq(s, m.insert(id, c), ops),
    decreases s,
{
    let vu = Tree::ValUse { id, tpe: type_of(c, ops) };
    assert forall|i: int| 0 <= i < s.len() implies replaced_seq(
        subst_consts_seq(s, m, ops),
        vu,
        c,
    )[i] == subst_consts_seq(s, m.insert(id, c), ops)[i] by {
        lemma_subst_step(s[i], m, id, c, ops);
    }
    assert(replaced_seq(subst_consts_seq(s, m, ops), vu, c) =~= subst_consts_seq(
        s,
        m.insert(id, c),
        ops,
    ));
}


/// The entries of an id list as trees.
pub open spec fn entries_view(e: Seq<(u32, Node)>) -> Seq<(u32, Tree)> {
    Seq::new(e.len(), |i: int| (e[i].0, e[i].1@))
}

/// The map of a list of (id, tree) entries; a later entry replaces an
/// earlier one.
pub open spec fn entries_map(e: Seq<(u32, Tree)>) -> Map<u32, Tree>
    decreases e.len(),
{
    if e.len() == 0 {
        Map::empty()
    } else {
        entries_map(e.drop_last()).insert(e.last().0, e.last().1)
    }
}

pub open spec fn keys_unique(e: Seq<(u32, Tree)>) -> bool {
    forall|i: int, j: int| 0 <= i < j < e.len() ==> e[i].0 != e[j].0
}

proof fn lemma_entries_absent(e: Seq<(u32, Tree)>, k: u32)
    requires
        forall|i: int| 0 <= i < e.len() ==> e[i].0 != k,
    ensures
        !entries_map(e).contains_key(k),
    decreases e.len(),
{
    if e.len() > 0 {
        lemma_entries_absent(e.drop_last(), k);
    }
}

proof fn lemma_entries_update(e: Seq<(u32, Tree)>, p: int, v: Tree)
    requires
        keys_unique(e),
        0 <= p < e.len(),
    ensures
        entries_map(e.update(p, (e[p].0, v))) == entries_map(e).insert(e[p].0, v),
    decreases e.len(),
{
    let u = e.update(p, (e[p].0, v));
    if p == e.len() - 1 {
        assert(u.drop_last() =~= e.drop_last());
        lemma_entries_absent(e.drop_last(), e[p].0);
        assert(entries_map(u) =~= entries_map(e).insert(e[p].0, v));
    } else {
        lemma_entries_update(e.drop_last(), p, v);
        assert(u.drop_last() =~= e.drop_last().update(p, (e[p].0, v)));
        assert(entries_map(u) =~= entries_map(e).insert(e[p].0, v));
    }
}

proof fn lemma_entries_consts(e: Seq<(u32, Tree)>)
    requires
        forall|i: int| 0 <= i < e.len() ==> leaf_const(#[trigger] e[i].1),
    ensures
        all_consts(entries_map(e)),
    decreases e.len(),
{
    if e.len() > 0 {
        lemma_entries_consts(e.drop_last());
    }
}

/// One entry per id of a constant ValDef among `items`, with the constant
/// of the last one; the constants of `const_map`.
fn const_entries(items: &Vec<Node>) -> (r: Vec<(u32, Node)>)
    ensures
        keys_unique(entries_view(r@)),
        forall|i: int| 0 <= i < r@.len() ==> leaf_const(#[trigger] entries_view(r@)[i].1),
        entries_map(entries_view(r@)) == const_map(nodes_view(items@)),
{
    let ghost s = nodes_view(items@);
    let mut r: Vec<(u32, Node)> = Vec::new();
    let mut i: usize = 0;
    assert(s.subrange(0, 0) =~= Seq::<Tree>::empty());
    assert(entries_view(r@) =~= Seq::<(u32, Tree)>::empty());
    assert(entries_map(entries_view(r@)) =~= const_map(s.subrange(0, 0)));
    while i < items.len()
        invariant
            0 <= i <= items@.len(),
            s == nodes_view(items@),
            keys_unique(entries_view(r@)),
            forall|j: int| 0 <= j < r@.len() ==> leaf_const(#[trigger] entries_view(r@)[j].1),
            entries_map(entries_view(r@)) == const_map(s.subrange(0, i as int)),
        decreases items.len() - i,
    {
        assert(s.subrange(0, i + 1).drop_last() =~= s.subrange(0, i as int));
        assert(s.subrange(0, i + 1).last() == s[i as int]);
        assert(s[i as int] == node_view(items@[i as int]));
        let ghost ev = entries_view(r@);
        match &items[i] {
            Node::ValDef { id, rhs } => {
                assert(s[i as int] == Tree::ValDef { id: *id, rhs: Box::new(node_view(**rhs)) });
                let is_const = match &**rhs {
                    Node::Op { kind, payload, children } => {
                        assert(node_view(**rhs) == Tree::Op {
                            kind: *kind,
                            payload: *payload,
                            children: nodes_view(children@),
                        });
                        *kind == OpKind::Const && children.len() == 0
                    },
                    _ => false,
                };
                if is_const {
                    assert(const_rhs(s[i as int]) == Some(node_view(**rhs)));
                    let mut p: usize = 0;
                    while p < r.len() && r[p].0 != *id
                        invariant
                            0 <= p <= r@.len(),
                            forall|q: int| 0 <= q < p ==> r@[q].0 != *id,
                        decreases r.len() - p,
                    {
                        p += 1;
                    }
                    if p < r.len() {
                        r.set(p, (*id, clone_node(rhs)));
                        proof {
                            lemma_entries_update(ev, p as int, node_view(**rhs));
                            assert(entries_view(r@) =~= ev.update(p as int, (ev[p as int].0, node_view(**rhs))));
                        }
                    } else {
                        r.push((*id, clone_node(rhs)));
                        proof {
                            assert(entries_view(r@) =~= ev.push((*id, node_view(**rhs))));
                            assert(entries_view(r@).drop_last() =~= ev);
                        }
                    }
                } else {
                    assert(const_rhs(s[i as int]) is None);
                }
            },
            _ => {
                assert(const_rhs(s[i as int]) is None);
            },
        }
        i += 1;
    }
    assert(s.subrange(0, s.len() as int) =~= s);
    r
}

/// The items that are not constant ValDefs, as `non_const_items` says.
fn non_const(items: &Vec<Node>) -> (r: Vec<Node>)
    ensures
        nodes_view(r@) == non_const_items(nodes_view(items@)),
{
    let ghost s = nodes_view(items@);
    let mut r: Vec<Node> = Vec::new();
    let mut i: usize = 0;
    assert(s.subrange(0, 0) =~= Seq::<Tree>::empty());
    assert(nodes_view(r@) =~= Seq::<Tree>::empty());
    while i < items.len()
        invariant
            0 <= i <= items@.len(),
            s == nodes_view(items@),
            nodes_view(r@) == non_const_items(s.subrange(0, i as int)),
        decreases items.len() - i,
    {
        assert(s.subrange(0, i + 1).drop_last() =~= s.subrange(0, i as int));
        assert(s.subrange(0, i + 1).last() == s[i as int]);
        assert(s[i as int] == node_view(items@[i as int]));
        let is_const = match &items[i] {
            Node::ValDef { id, rhs } => {
                assert(s[i as int] == Tree::ValDef { id: *id, rhs: Box::new(node_view(**rhs)) });
                match &**rhs {
                    Node::Op { kind, payload, children } => {
                        assert(node_view(**rhs) == Tree::Op {
                            kind: *kind,
                            payload: *payload,
                            children: nodes_view(children@),
                        });
                        *kind == OpKind::Const && children.len() == 0
                    },
                    _ => false,
                }
            },
            _ => false,
        };
        if !is_const {
            let ghost before = r@;
            r.push(clone_node(&items[i]));
            assert(nodes_view(r@) =~= nodes_view(before).push(s[i as int]));
        }
        i += 1;
    }
    assert(s.subrange(0, s.len() as int) =~= s);
    r
}


proof fn lemma_elem_le_count(s: Seq<Tree>, i: int)
    requires
        0 <= i < s.len(),
    ensures
        node_count(s[i]) <= node_count_seq(s),
    decreases s.len(),
{
    if i < s.len() - 1 {
        lemma_elem_le_count(s.drop_last(), i);
    }
}

proof fn lemma_non_const_count(s: Seq<Tree>)
    ensures
        node_count_seq(non_const_items(s)) <= node_count_seq(s),
    decreases s.len(),
{
    if s.len() > 0 {
        lemma_non_const_count(s.drop_last());
        let rest = non_const_items(s.drop_last());
        if !(const_rhs(s.last()) is Some) {
            assert(rest.push(s.last()).drop_last() =~= rest);
        }
    }
}

/// Each of `v` inlined, as `const_inlined_upto` says.
fn inline_items(v: &Vec<Node>, tags: &TypeTags, Ghost(bound): Ghost<nat>) -> (r: Vec<Node>)
    requires
        node_count_seq(nodes_view(v@)) < bound,
    ensures
        nodes_view(r@) == const_inlined_upto(
            nodes_view(v@),
            v@.len() as int,
            tags.op_types@,
            bound,
        ),
    decreases bound, 0int,
{
    let ghost s = nodes_view(v@);
    let mut out: Vec<Node> = Vec::new();
    let mut i: usize = 0;
    assert(nodes_view(out@) =~= const_inlined_upto(s, 0, tags.op_types@, bound));
    while i < v.len()
        invariant
            0 <= i <= v@.len(),
            s == nodes_view(v@),
            node_count_seq(s) < bound,
            nodes_view(out@) == const_inlined_upto(s, i as int, tags.op_types@, bound),
        decreases v.len() - i,
    {
        proof {
            lemma_elem_le_count(s, i as int);
        }
        assert(s[i as int] == node_view(v@[i as int]));
        let x = clone_node(&v[i]);
        let y = inline_const_vals(x, tags);
        let ghost before = out@;
        out.push(y);
        assert(nodes_view(out@) =~= nodes_view(before).push(const_inlined(s[i as int], tags.op_types@)));
        i += 1;
    }
    out
}

/// Blocks with constant ValDefs inlined, as `const_inlined` says.
pub fn inline_const_vals(expr: Node, tags: &TypeTags) -> (r: Node)
    ensures
        r@ == const_inlined(expr@, tags.op_types@),
    decreases node_count(expr@), 1int,
{
    let ghost t = expr@;
    let ghost ops = tags.op_types@;
    match expr {
        Node::Block { items, result } => {
            let ghost s = nodes_view(items@);
            assert(t == Tree::Block { items: s, result: Box::new(node_view(*result)) });
            let entries = const_entries(&items);
            let kept = non_const(&items);
            let ghost e = entries_view(entries@);
            let ghost m = const_map(s);
            if entries.len() == 0 {
                assert(e =~= Seq::<(u32, Tree)>::empty());
                assert(m.dom() =~= Set::<u32>::empty());
                return Node::Block { items: kept, result };
            }
            assert(entries_map(e).contains_key(e.last().0));
            assert(m.dom() != Set::<u32>::empty()) by {
                assert(m.dom().contains(e.last().0));
            }
            let mut cur: Vec<Node> = kept;
            let mut res: Node = *result;
            let ghost kv = nodes_view(cur@);
            let ghost rv = res@;
            proof {
                lemma_subst_empty_seq(kv, ops);
                lemma_subst_empty(rv, ops);
                assert(e.subrange(0, 0) =~= Seq::<(u32, Tree)>::empty());
            }
            let mut j: usize = 0;
            while j < entries.len()
                invariant
                    0 <= j <= entries@.len(),
                    e == entries_view(entries@),
                    keys_unique(e),
                    forall|q: int| 0 <= q < e.len() ==> leaf_const(#[trigger] e[q].1),
                    ops == tags.op_types@,
                    nodes_view(cur@) == subst_consts_seq(kv, entries_map(e.subrange(0, j as int)), ops),
                    res@ == subst_consts(rv, entries_map(e.subrange(0, j as int)), ops),
                decreases entries.len() - j,
            {
                let ghost mj = entries_map(e.subrange(0, j as int));
                proof {
                    assert(e.subrange(0, j + 1).drop_last() =~= e.subrange(0, j as int));
                    assert(e.subrange(0, j + 1).last() == e[j as int]);
                    assert forall|q: int| 0 <= q < e.subrange(0, j as int).len() implies e.subrange(
                        0,
                        j as int,
                    )[q].0 != e[j as int].0 by {
                        assert(e.subrange(0, j as int)[q] == e[q]);
                    }
                    lemma_entries_absent(e.subrange(0, j as int), e[j as int].0);
                    assert forall|q: int| 0 <= q < e.subrange(0, j as int).len() implies leaf_const(
                        #[trigger] e.subrange(0, j as int)[q].1,
                    ) by {
                        assert(e.subrange(0, j as int)[q] == e[q]);
                    }
                    lemma_entries_consts(e.subrange(0, j as int));
                    lemma_subst_step_seq(kv, mj, e[j as int].0, e[j as int].1, ops);
                    lemma_subst_step(rv, mj, e[j as int].0, e[j as int].1, ops);
                }
                let c = &entries[j].1;
                let vu = Node::ValUse { id: entries[j].0, tpe: expr_type(c, tags) };
                cur = replace_all_seq(&cur, &vu, c);
                res = replace_all(&res, &vu, c);
                j += 1;
            }
            assert(e.subrange(0, e.len() as int) =~= e);
            let ghost items2 = nodes_view(cur@);
            let ghost result2 = res@;
            proof {
                lemma_entries_consts(e);
                lemma_children_count(t);
                lemma_subst_count_seq(kv, m, ops);
                lemma_subst_count(rv, m, ops);
                lemma_non_const_count(s);
                assert(node_count(t) == 1 + node_count_seq(s) + node_count(rv));
            }
            let out = inline_items(&cur, tags, Ghost(node_count(t)));
            let r3 = inline_const_vals(res, tags);
            if out.len() == 0 {
                r3
            } else {
                Node::Block { items: out, result: Box::new(r3) }
            }
        },
        other => other,
    }
}

} // verus!
