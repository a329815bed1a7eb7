use indexmap::IndexMap;
use vstd::prelude::*;

use crate::assoc::{
    assoc_find, assoc_map, keys_distinct, lemma_assoc_absent, lemma_assoc_found,
    lemma_assoc_push, lemma_assoc_update, pairs_view,
};
use crate::node::{clone_args, clone_node, node_view, nodes_view, Node, OpKind, Tree};
use crate::predicates::{alias_rhs, is_alias_rhs};
use crate::walk::{lemma_prefix_step, node_count, node_count_seq};

verus! {

/// The alias sub-expressions of `t` (see `alias_rhs`), in preorder, that
/// lie inside an If branch (`want_branch`) or outside every If branch
/// (otherwise); `in_if` says whether `t` itself lies in one.
pub open spec fn alias_occ(t: Tree, in_if: bool, want_branch: bool) -> Seq<Tree>
    decreases t,
{
    (if alias_rhs(t) && in_if == want_branch {
        seq![t]
    } else {
        Seq::empty()
    }) + match t {
        Tree::ValDef { rhs, .. } => alias_occ(*rhs, in_if, want_branch),
        Tree::ValUse { .. } => Seq::empty(),
        Tree::Block { items, result } => alias_occ_seq(items, in_if, want_branch) + alias_occ(
            *result,
            in_if,
            want_branch,
        ),
        Tree::If { cond, then_branch, else_branch } => alias_occ(*cond, in_if, want_branch)
            + alias_occ(*then_branch, true, want_branch) + alias_occ(
            *else_branch,
            true,
            want_branch,
        ),
        Tree::Func { body, .. } => alias_occ(*body, in_if, want_branch),
        Tree::Op { children, .. } => alias_occ_seq(children, in_if, want_branch),
    }
}

pub open spec fn alias_occ_seq(s: Seq<Tree>, in_if: bool, want_branch: bool) -> Seq<Tree>
    decreases s,
{
    if s.len() == 0 {
        Seq::empty()
    } else {
        alias_occ_seq(s.drop_last(), in_if, want_branch) + alias_occ(
            s.last(),
            in_if,
            want_branch,
        )
    }
}

/// How many times `a` occurs in `s`.
pub open spec fn seq_count(s: Seq<Tree>, a: Tree) -> nat
    decreases s.len(),
{
    if s.len() == 0 {
        0
    } else {
        seq_count(s.drop_last(), a) + (if s.last() == a {
            1nat
        } else {
            0nat
        })
    }
}

/// The count a tally list holds for `a`; 0 when it has none.
pub open spec fn tally(l: Seq<(Tree, usize)>, a: Tree) -> nat {
    if assoc_map(l).contains_key(a) {
        assoc_map(l)[a] as nat
    } else {
        0
    }
}

pub proof fn lemma_seq_count_concat(s1: Seq<Tree>, s2: Seq<Tree>, a: Tree)
    ensures
        seq_count(s1 + s2, a) == seq_count(s1, a) + seq_count(s2, a),
    decreases s2.len(),
{
    if s2.len() == 0 {
        assert(s1 + s2 =~= s1);
    } else {
        assert((s1 + s2).drop_last() =~= s1 + s2.drop_last());
        lemma_seq_count_concat(s1, s2.drop_last(), a);
    }
}

proof fn lemma_alias_occ_prefix(s: Seq<Tree>, i: int, in_if: bool, wb: bool, a: Tree)
    requires
        0 <= i <= s.len(),
    ensures
        seq_count(alias_occ_seq(s.subrange(0, i), in_if, wb), a) <= seq_count(
            alias_occ_seq(s, in_if, wb),
            a,
        ),
    decreases s.len(),
{
    if i < s.len() {
        assert(s.subrange(0, i) == s.drop_last().subrange(0, i));
        lemma_alias_occ_prefix(s.drop_last(), i, in_if, wb, a);
        lemma_seq_count_concat(
            alias_occ_seq(s.drop_last(), in_if, wb),
            alias_occ(s.last(), in_if, wb),
            a,
        );
    } else {
        assert(s.subrange(0, i) == s);
    }
}

/// Adds one to the count of `e` in a tally list, appending `e` with count 1
/// when it has none.
fn bump(list: &mut Vec<(Node, usize)>, e: &Node)
    requires
        keys_distinct(pairs_view(old(list)@)),
        tally(pairs_view(old(list)@), e@) < usize::MAX,
    ensures
        keys_distinct(pairs_view(final(list)@)),
        forall|a: Tree|
            tally(pairs_view(final(list)@), a) == tally(pairs_view(old(list)@), a) + (if a
                == e@ {
                1nat
            } else {
                0nat
            }),
{
    let ghost s = pairs_view(list@);
    match assoc_find(list, e) {
        Some(i) => {
            proof {
                lemma_assoc_found(s, i as int);
            }
            let key = clone_node(&list[i].0);
            let c = list[i].1;
            list.set(i, (key, c + 1));
            proof {
                assert(pairs_view(list@) =~= s.update(i as int, (s[i as int].0, (c + 1) as usize)));
                lemma_assoc_update(s, i as int, (c + 1) as usize);
            }
        },
        None => {
            list.push((clone_node(e), 1));
            proof {
                assert(pairs_view(list@) =~= s.push((e@, 1usize)));
                lemma_assoc_push(s, e@, 1usize);
                lemma_assoc_absent(s, e@);
            }
        },
    }
}

/// Both tally lists have distinct keys and room for what `occ_e` and
/// `occ_b` add to them.
pub open spec fn tallies_fit(
    eager: Seq<(Tree, usize)>,
    branch: Seq<(Tree, usize)>,
    occ_e: Seq<Tree>,
    occ_b: Seq<Tree>,
) -> bool {
    &&& keys_distinct(eager)
    &&& keys_distinct(branch)
    &&& forall|a: Tree| tally(eager, a) + seq_count(occ_e, a) <= usize::MAX
    &&& forall|a: Tree| tally(branch, a) + seq_count(occ_b, a) <= usize::MAX
}

/// The tally lists went from `e0`, `b0` to `e1`, `b1` by counting `occ_e`
/// and `occ_b`.
pub open spec fn tallies_added(
    e0: Seq<(Tree, usize)>,
    b0: Seq<(Tree, usize)>,
    e1: Seq<(Tree, usize)>,
    b1: Seq<(Tree, usize)>,
    occ_e: Seq<Tree>,
    occ_b: Seq<Tree>,
) -> bool {
    &&& keys_distinct(e1)
    &&& keys_distinct(b1)
    &&& forall|a: Tree| #[trigger] tally(e1, a) == tally(e0, a) + seq_count(occ_e, a)
    &&& forall|a: Tree| #[trigger] tally(b1, a) == tally(b0, a) + seq_count(occ_b, a)
}

fn count_alias_seq(
    v: &Vec<Node>,
    in_if_branch: bool,
    eager_counts: &mut Vec<(Node, usize)>,
    branch_counts: &mut Vec<(Node, usize)>,
)
    requires
        tallies_fit(
            pairs_view(old(eager_counts)@),
            pairs_view(old(branch_counts)@),
            alias_occ_seq(nodes_view(v@), in_if_branch, false),
            alias_occ_seq(nodes_view(v@), in_if_branch, true),
        ),
    ensures
        tallies_added(
            pairs_view(old(eager_counts)@),
            pairs_view(old(branch_counts)@),
            pairs_view(final(eager_counts)@),
            pairs_view(final(branch_counts)@),
            alias_occ_seq(nodes_view(v@), in_if_branch, false),
            alias_occ_seq(nodes_view(v@), in_if_branch, true),
        ),
    decreases v@,
{
    let ghost s = nodes_view(v@);
    let ghost e0 = pairs_view(eager_counts@);
    let ghost b0 = pairs_view(branch_counts@);
    let mut i: usize = 0;
    while i < v.len()
        invariant
            0 <= i <= v@.len(),
            s == nodes_view(v@),
            s.len() == v@.len(),
            tallies_fit(
                e0,
                b0,
                alias_occ_seq(s, in_if_branch, false),
                alias_occ_seq(s, in_if_branch, true),
            ),
            tallies_added(
                e0,
                b0,
                pairs_view(eager_counts@),
                pairs_view(branch_counts@),
                alias_occ_seq(s.subrange(0, i as int), in_if_branch, false),
                alias_occ_seq(s.subrange(0, i as int), in_if_branch, true),
            ),
        decreases v.len() - i,
    {
        assert(decreases_to!(v@ => v@[i as int]));
        assert(s[i as int] == node_view(v@[i as int]));
        let ghost e_mid = pairs_view(eager_counts@);
        let ghost b_mid = pairs_view(branch_counts@);
        proof {
            lemma_prefix_step(s, i as int);
            let p = s.subrange(0, i as int);
            let p1 = s.subrange(0, i + 1);
            assert forall|a: Tree|
                tally(e_mid, a) + seq_count(alias_occ(s[i as int], in_if_branch, false), a)
                    <= usize::MAX by {
                lemma_seq_count_concat(
                    alias_occ_seq(p, in_if_branch, false),
                    alias_occ(s[i as int], in_if_branch, false),
                    a,
                );
                lemma_alias_occ_prefix(s, i + 1, in_if_branch, false, a);
                assert(tally(e_mid, a) == tally(e0, a) + seq_count(
                    alias_occ_seq(p, in_if_branch, false),
                    a,
                ));
            }
            assert forall|a: Tree|
                tally(b_mid, a) + seq_count(alias_occ(s[i as int], in_if_branch, true), a)
                    <= usize::MAX by {
                lemma_seq_count_concat(
                    alias_occ_seq(p, in_if_branch, true),
                    alias_occ(s[i as int], in_if_branch, true),
                    a,
                );
                lemma_alias_occ_prefix(s, i + 1, in_if_branch, true, a);
                assert(tally(b_mid, a) == tally(b0, a) + seq_count(
                    alias_occ_seq(p, in_if_branch, true),
                    a,
                ));
            }
        }
        count_alias_split_occurrences(&v[i], in_if_branch, eager_counts, branch_counts);
        proof {
            let p = s.subrange(0, i as int);
            assert forall|a: Tree|
                #[trigger] tally(pairs_view(eager_counts@), a) == tally(e0, a) + seq_count(
                    alias_occ_seq(s.subrange(0, i + 1), in_if_branch, false),
                    a,
                ) by {
                lemma_seq_count_concat(
                    alias_occ_seq(p, in_if_branch, false),
                    alias_occ(s[i as int], in_if_branch, false),
                    a,
                );
                assert(tally(e_mid, a) == tally(e0, a) + seq_count(
                    alias_occ_seq(p, in_if_branch, false),
                    a,
                ));
            }
            assert forall|a: Tree|
                #[trigger] tally(pairs_view(branch_counts@), a) == tally(b0, a) + seq_count(
                    alias_occ_seq(s.subrange(0, i + 1), in_if_branch, true),
                    a,
                ) by {
                lemma_seq_count_concat(
                    alias_occ_seq(p, in_if_branch, true),
                    alias_occ(s[i as int], in_if_branch, true),
                    a,
                );
                assert(tally(b_mid, a) == tally(b0, a) + seq_count(
                    alias_occ_seq(p, in_if_branch, true),
                    a,
                ));
            }
        }
        i += 1;
    }
    assert(s.subrange(0, s.len() as int) == s);
}

/// Counts, into the two tally lists, the alias sub-expressions of `expr`
/// outside every If branch (`eager_counts`) and inside one
/// (`branch_counts`), as `alias_occ` lists them.
pub fn count_alias_split_occurrences(
    expr: &Node,
    in_if_branch: bool,
    eager_counts: &mut Vec<(Node, usize)>,
    branch_counts: &mut Vec<(Node, usize)>,
)
    requires
        tallies_fit(
            pairs_view(old(eager_counts)@),
            pairs_view(old(branch_counts)@),
            alias_occ(expr@, in_if_branch, false),
            alias_occ(expr@, in_if_branch, true),
        ),
    ensures
        tallies_added(
            pairs_view(old(eager_counts)@),
            pairs_view(old(branch_counts)@),
            pairs_view(final(eager_counts)@),
            pairs_view(final(branch_counts)@),
            alias_occ(expr@, in_if_branch, false),
            alias_occ(expr@, in_if_branch, true),
        ),
    decreases expr,
{
    let ghost e0 = pairs_view(eager_counts@);
    let ghost b0 = pairs_view(branch_counts@);
    let ghost here_e: Seq<Tree> = if alias_rhs(expr@) && !in_if_branch {
        seq![expr@]
    } else {
        Seq::empty()
    };
    let ghost here_b: Seq<Tree> = if alias_rhs(expr@) && in_if_branch {
        seq![expr@]
    } else {
        Seq::empty()
    };
    let ghost rest_e: Seq<Tree> = alias_occ(expr@, in_if_branch, false).subrange(
        here_e.len() as int,
        alias_occ(expr@, in_if_branch, false).len() as int,
    );
    let ghost rest_b: Seq<Tree> = alias_occ(expr@, in_if_branch, true).subrange(
        here_b.len() as int,
        alias_occ(expr@, in_if_branch, true).len() as int,
    );
    proof {
        assert(alias_occ(expr@, in_if_branch, false) =~= here_e + rest_e);
        assert(alias_occ(expr@, in_if_branch, true) =~= here_b + rest_b);
        assert forall|a: Tree| seq_count(here_e, a) + seq_count(rest_e, a) == seq_count(
            alias_occ(expr@, in_if_branch, false),
            a,
        ) by {
            lemma_seq_count_concat(here_e, rest_e, a);
        }
        assert forall|a: Tree| seq_count(here_b, a) + seq_count(rest_b, a) == seq_count(
            alias_occ(expr@, in_if_branch, true),
            a,
        ) by {
            lemma_seq_count_concat(here_b, rest_b, a);
        }
        assert forall|a: Tree| seq_count(seq![expr@], a) == (if a == expr@ {
            1nat
        } else {
            0nat
        }) by {
            assert(seq![expr@].drop_last() =~= Seq::<Tree>::empty());
            assert(seq_count(Seq::<Tree>::empty(), a) == 0);
        }
    }
    if is_alias_rhs(expr) {
        if in_if_branch {
            bump(branch_counts, expr);
        } else {
            bump(eager_counts, expr);
        }
    }
    assert(tallies_added(
        e0,
        b0,
        pairs_view(eager_counts@),
        pairs_view(branch_counts@),
        here_e,
        here_b,
    ));
    let ghost e1 = pairs_view(eager_counts@);
    let ghost b1 = pairs_view(branch_counts@);
    match expr {
        Node::ValDef { id, rhs } => {
            assert(expr@ == Tree::ValDef { id: *id, rhs: Box::new(node_view(**rhs)) });
            assert(rest_e == alias_occ(node_view(**rhs), in_if_branch, false));
            assert(rest_b == alias_occ(node_view(**rhs), in_if_branch, true));
            count_alias_split_occurrences(rhs, in_if_branch, eager_counts, branch_counts);
        },
        Node::ValUse { .. } => {},
        Node::Block { items, result } => {
            assert(expr@ == Tree::Block {
                items: nodes_view(items@),
                result: Box::new(node_view(**result)),
            });
            let ghost ie = alias_occ_seq(nodes_view(items@), in_if_branch, false);
            let ghost ib = alias_occ_seq(nodes_view(items@), in_if_branch, true);
            let ghost re = alias_occ(node_view(**result), in_if_branch, false);
            let ghost rb = alias_occ(node_view(**result), in_if_branch, true);
            proof {
                assert(rest_e == ie + re);
                assert(rest_b == ib + rb);
                assert forall|a: Tree| seq_count(rest_e, a) == seq_count(ie, a) + seq_count(re, a) by {
                    lemma_seq_count_concat(ie, re, a);
                }
                assert forall|a: Tree| seq_count(rest_b, a) == seq_count(ib, a) + seq_count(rb, a) by {
                    lemma_seq_count_concat(ib, rb, a);
                }
            }
            count_alias_seq(items, in_if_branch, eager_counts, branch_counts);
            count_alias_split_occurrences(result, in_if_branch, eager_counts, branch_counts);
        },
        Node::If { cond, then_branch, else_branch } => {
            assert(expr@ == Tree::If {
                cond: Box::new(node_view(**cond)),
                then_branch: Box::new(node_view(**then_branch)),
                else_branch: Box::new(node_view(**else_branch)),
            });
            let ghost ce = alias_occ(node_view(**cond), in_if_branch, false);
            let ghost cb = alias_occ(node_view(**cond), in_if_branch, true);
            let ghost te = alias_occ(node_view(**then_branch), true, false);
            let ghost tb = alias_occ(node_view(**then_branch), true, true);
            let ghost fe = alias_occ(node_view(**else_branch), true, false);
            let ghost fb = alias_occ(node_view(**else_branch), true, true);
            proof {
                assert(rest_e == ce + te + fe);
                assert(rest_b == cb + tb + fb);
                assert forall|a: Tree|
                    seq_count(rest_e, a) == seq_count(ce, a) + seq_count(te, a) + seq_count(fe, a) by {
                    lemma_seq_count_concat(ce + te, fe, a);
                    lemma_seq_count_concat(ce, te, a);
                }
                assert forall|a: Tree|
                    seq_count(rest_b, a) == seq_count(cb, a) + seq_count(tb, a) + seq_count(fb, a) by {
                    lemma_seq_count_concat(cb + tb, fb, a);
                    lemma_seq_count_concat(cb, tb, a);
                }
            }
            count_alias_split_occurrences(cond, in_if_branch, eager_counts, branch_counts);
            count_alias_split_occurrences(then_branch, true, eager_counts, branch_counts);
            count_alias_split_occurrences(else_branch, true, eager_counts, branch_counts);
        },
        Node::Func { args, body } => {
            assert(expr@ == Tree::Func { args: args@, body: Box::new(node_view(**body)) });
            assert(rest_e == alias_occ(node_view(**body), in_if_branch, false));
            assert(rest_b == alias_occ(node_view(**body), in_if_branch, true));
            count_alias_split_occurrences(body, in_if_branch, eager_counts, branch_counts);
        },
        Node::Op { kind, payload, children } => {
            assert(expr@ == Tree::Op {
                kind: *kind,
                payload: *payload,
                children: nodes_view(children@),
            });
            assert(rest_e == alias_occ_seq(nodes_view(children@), in_if_branch, false));
            assert(rest_b == alias_occ_seq(nodes_view(children@), in_if_branch, true));
            count_alias_seq(children, in_if_branch, eager_counts, branch_counts);
        },
    }
    assert(tallies_added(
        e0,
        b0,
        pairs_view(eager_counts@),
        pairs_view(branch_counts@),
        alias_occ(expr@, in_if_branch, false),
        alias_occ(expr@, in_if_branch, true),
    ));
}


#[verifier::external_type_specification]
#[verifier::external_body]
#[verifier::reject_recursive_types(K)]
#[verifier::reject_recursive_types(V)]
#[verifier::reject_recursive_types(S)]
pub struct ExIndexMap<K, V, S>(IndexMap<K, V, S>);

/// The entries of an `IndexMap` from ids to nodes, in the map's order,
/// each node taken by its tree.
pub uninterp spec fn index_map_entries(m: IndexMap<u32, Node>) -> Seq<(u32, Tree)>;

/// `k` is a key of the entries `e`.
pub open spec fn has_key(e: Seq<(u32, Tree)>, k: u32) -> bool {
    exists|i: int| 0 <= i < e.len() && #[trigger] e[i].0 == k
}

/// The first position of `k` among the keys of `e`; -1 when it has none.
pub open spec fn key_index(e: Seq<(u32, Tree)>, k: u32) -> int
    decreases e.len(),
{
    if e.len() == 0 {
        -1
    } else if key_index(e.drop_last(), k) >= 0 {
        key_index(e.drop_last(), k)
    } else if e.last().0 == k {
        e.len() - 1
    } else {
        -1
    }
}

/// The entries after inserting `(k, v)`: a key already there keeps its
/// place and takes the new value; a new key goes last.
pub open spec fn entries_insert(e: Seq<(u32, Tree)>, k: u32, v: Tree) -> Seq<(u32, Tree)> {
    if key_index(e, k) >= 0 {
        e.update(key_index(e, k), (k, v))
    } else {
        e.push((k, v))
    }
}

/// `IndexMap::new`: a map with no entry.
#[verifier::external_body]
pub(crate) fn alias_map_new() -> (m: IndexMap<u32, Node>)
    ensures
        index_map_entries(m) == Seq::<(u32, Tree)>::empty(),
{
    IndexMap::new()
}

/// `IndexMap::insert`: as `entries_insert` says; the value it hands back
/// is dropped.
#[verifier::external_body]
pub(crate) fn alias_map_insert(m: &mut IndexMap<u32, Node>, key: u32, value: Node)
    ensures
        index_map_entries(*final(m)) == entries_insert(index_map_entries(*old(m)), key, value@),
{
    m.insert(key, value);
}

/// `IndexMap::is_empty`: whether the map has no entry.
#[verifier::external_body]
pub(crate) fn alias_map_is_empty(m: &IndexMap<u32, Node>) -> (r: bool)
    ensures
        r == (index_map_entries(*m).len() == 0),
{
    m.is_empty()
}

/// `IndexMap::contains_key`: whether `key` is a key of the map.
#[verifier::external_body]
pub(crate) fn alias_map_contains_key(m: &IndexMap<u32, Node>, key: u32) -> (r: bool)
    ensures
        r == has_key(index_map_entries(*m), key),
{
    m.contains_key(&key)
}

/// `IndexMap::len`: the number of entries.
#[verifier::external_body]
pub(crate) fn alias_map_len(m: &IndexMap<u32, Node>) -> (r: usize)
    ensures
        r == index_map_entries(*m).len(),
{
    m.len()
}

/// `IndexMap::get_index`: the entry at a position, when there is one.
#[verifier::external_body]
pub(crate) fn alias_map_get_index(m: &IndexMap<u32, Node>, index: usize) -> (r: Option<(u32, &Node)>)
    ensures
        index < index_map_entries(*m).len() ==> r is Some && r.unwrap().0 == index_map_entries(
            *m,
        )[index as int].0 && r.unwrap().1@ == index_map_entries(*m)[index as int].1,
        index >= index_map_entries(*m).len() ==> r is None,
{
    m.get_index(index).map(|(k, v)| (*k, v))
}


/// `a` is a key of the tally list `l`.
pub open spec fn has_tree_key(l: Seq<(Tree, usize)>, a: Tree) -> bool {
    exists|i: int| 0 <= i < l.len() && #[trigger] l[i].0 == a
}

/// The count at the first entry of `a` in a tally list; 0 when it has none.
pub open spec fn first_count(l: Seq<(Tree, usize)>, a: Tree) -> nat
    decreases l.len(),
{
    if l.len() == 0 {
        0
    } else if has_tree_key(l.drop_last(), a) {
        first_count(l.drop_last(), a)
    } else if l.last().0 == a {
        l.last().1 as nat
    } else {
        0
    }
}

proof fn lemma_first_count_at(l: Seq<(Tree, usize)>, a: Tree, i: int)
    requires
        0 <= i < l.len(),
        l[i].0 == a,
        forall|j: int| 0 <= j < i ==> l[j].0 != a,
    ensures
        first_count(l, a) == l[i].1,
    decreases l.len(),
{
    if i < l.len() - 1 {
        assert(l.drop_last()[i].0 == a);
        lemma_first_count_at(l.drop_last(), a, i);
    } else {
        assert forall|j: int| 0 <= j < l.drop_last().len() implies l.drop_last()[j].0 != a by {
            assert(l.drop_last()[j] == l[j]);
        }
    }
}

proof fn lemma_first_count_none(l: Seq<(Tree, usize)>, a: Tree)
    requires
        forall|j: int| 0 <= j < l.len() ==> l[j].0 != a,
    ensures
        first_count(l, a) == 0,
    decreases l.len(),
{
    if l.len() > 0 {
        lemma_first_count_none(l.drop_last(), a);
    }
}

proof fn lemma_first_count_tally(l: Seq<(Tree, usize)>, a: Tree)
    requires
        keys_distinct(l),
    ensures
        first_count(l, a) == tally(l, a),
    decreases l.len(),
{
    if l.len() > 0 {
        let d = l.drop_last();
        assert(keys_distinct(d));
        lemma_first_count_tally(d, a);
        if has_tree_key(d, a) {
            let j = choose|j: int| 0 <= j < d.len() && #[trigger] d[j].0 == a;
            assert(l[j].0 == a);
            assert(l.last().0 != a);
        } else if l.last().0 != a {
            lemma_assoc_absent(d, a);
        }
    }
}

proof fn lemma_seq_count_contains(s: Seq<Tree>, a: Tree)
    ensures
        (seq_count(s, a) >= 1) == s.contains(a),
        seq_count(s, a) <= s.len(),
    decreases s.len(),
{
    if s.len() > 0 {
        lemma_seq_count_contains(s.drop_last(), a);
        if s.drop_last().contains(a) {
            let j = choose|j: int| 0 <= j < s.drop_last().len() && s.drop_last()[j] == a;
            assert(s[j] == a);
        }
        if s.contains(a) && s.last() != a {
            let j = choose|j: int| 0 <= j < s.len() && s[j] == a;
            assert(s.drop_last()[j] == a);
        }
    }
}

/// A count of `rhs` in one of the tally lists: the count at its first
/// entry, 0 when it has none.
pub fn alias_count_for(rhs: &Node, counts: &[(Node, usize)]) -> (r: usize)
    ensures
        r == first_count(pairs_view(counts@), rhs@),
{
    let ghost l = pairs_view(counts@);
    let mut i: usize = 0;
    while i < counts.len()
        invariant
            0 <= i <= counts@.len(),
            l == pairs_view(counts@),
            forall|j: int| 0 <= j < i ==> l[j].0 != rhs@,
        decreases counts.len() - i,
    {
        if crate::node::node_eq(&counts[i].0, rhs) {
            proof {
                lemma_first_count_at(l, rhs@, i as int);
            }
            return counts[i].1;
        }
        i += 1;
    }
    proof {
        lemma_first_count_none(l, rhs@);
    }
    0
}

/// `t` with every ValUse of `id` replaced by `rep`, searched as
/// `replaced` searches.
pub open spec fn use_replaced(t: Tree, id: u32, rep: Tree) -> Tree
    decreases t,
{
    match t {
        Tree::ValUse { id: u, .. } => if u == id {
            rep
        } else {
            t
        },
        Tree::ValDef { id: d, rhs } => Tree::ValDef {
            id: d,
            rhs: Box::new(use_replaced(*rhs, id, rep)),
        },
        Tree::Block { items, result } => Tree::Block {
            items: use_replaced_seq(items, id, rep),
            result: Box::new(use_replaced(*result, id, rep)),
        },
        Tree::If { cond, then_branch, else_branch } => Tree::If {
            cond: Box::new(use_replaced(*cond, id, rep)),
            then_branch: Box::new(use_replaced(*then_branch, id, rep)),
            else_branch: Box::new(use_replaced(*else_branch, id, rep)),
        },
        Tree::Func { args, body } => Tree::Func {
            args,
            body: Box::new(use_replaced(*body, id, rep)),
        },
        Tree::Op { kind, payload, children } => Tree::Op {
            kind,
            payload,
            children: use_replaced_seq(children, id, rep),
        },
    }
}

pub open spec fn use_replaced_seq(s: Seq<Tree>, id: u32, rep: Tree) -> Seq<Tree>
    decreases s,
{
    Seq::new(
        s.len(),
        |i: int|
            if 0 <= i < s.len() {
                use_replaced(s[i], id, rep)
            } else {
                rep
            },
    )
}

fn replace_val_use_seq(v: &Vec<Node>, id: u32, rep: &Node) -> (r: Vec<Node>)
    ensures
        nodes_view(r@) == use_replaced_seq(nodes_view(v@), id, rep@),
    decreases v@,
{
    let mut out: Vec<Node> = Vec::new();
    let mut i: usize = 0;
    while i < v.len()
        invariant
            0 <= i <= v@.len(),
            out@.len() == i,
            forall|j: int|
                0 <= j < i ==> node_view(#[trigger] out@[j]) == use_replaced(
                    node_view(v@[j]),
                    id,
                    rep@,
                ),
        decreases v.len() - i,
    {
        assert(decreases_to!(v@ => v@[i as int]));
        out.push(replace_val_use(&v[i], id, rep));
        i += 1;
    }
    assert(nodes_view(out@) =~= use_replaced_seq(nodes_view(v@), id, rep@));
    out
}

/// `expr` with its ValUses of `id` replaced by `rep`, as `use_replaced`
/// says.
fn replace_val_use(expr: &Node, id: u32, rep: &Node) -> (r: Node)
    ensures
        r@ == use_replaced(expr@, id, rep@),
    decreases expr,
{
    match expr {
        Node::ValUse { id: u, tpe } => {
            assert(expr@ == Tree::ValUse { id: *u, tpe: *tpe });
            if *u == id {
                clone_node(rep)
            } else {
                Node::ValUse { id: *u, tpe: *tpe }
            }
        },
        Node::ValDef { id: d, rhs } => {
            assert(expr@ == Tree::ValDef { id: *d, rhs: Box::new(node_view(**rhs)) });
            Node::ValDef { id: *d, rhs: Box::new(replace_val_use(rhs, id, rep)) }
        },
        Node::Block { items, result } => {
            assert(expr@ == Tree::Block {
                items: nodes_view(items@),
                result: Box::new(node_view(**result)),
            });
            Node::Block {
                items: replace_val_use_seq(items, id, rep),
                result: Box::new(replace_val_use(result, id, rep)),
            }
        },
        Node::If { cond, then_branch, else_branch } => {
            assert(expr@ == Tree::If {
                cond: Box::new(node_view(**cond)),
                then_branch: Box::new(node_view(**then_branch)),
                else_branch: Box::new(node_view(**else_branch)),
            });
            Node::If {
                cond: Box::new(replace_val_use(cond, id, rep)),
                then_branch: Box::new(replace_val_use(then_branch, id, rep)),
                else_branch: Box::new(replace_val_use(else_branch, id, rep)),
            }
        },
        Node::Func { args, body } => {
            assert(expr@ == Tree::Func { args: args@, body: Box::new(node_view(**body)) });
            Node::Func { args: clone_args(args), body: Box::new(replace_val_use(body, id, rep)) }
        },
        Node::Op { kind, payload, children } => {
            assert(expr@ == Tree::Op {
                kind: *kind,
                payload: *payload,
                children: nodes_view(children@),
            });
            Node::Op {
                kind: *kind,
                payload: *payload,
                children: replace_val_use_seq(children, id, rep),
            }
        },
    }
}


/// The trees that a tally list counts at least once.
pub open spec fn count_set(l: Seq<(Tree, usize)>) -> Set<Tree> {
    Set::new(|a: Tree| first_count(l, a) >= 1)
}

/// A ValDef of `rhs` is inlined: `rhs` is an alias that occurs elsewhere
/// outside every If branch (for a block inside one, `in_if`) or inside one
/// (for a block outside them all).
pub open spec fn should_inline(rhs: Tree, in_if: bool, eager: Set<Tree>, branch: Set<Tree>) -> bool {
    alias_rhs(rhs) && if in_if {
        eager.contains(rhs)
    } else {
        branch.contains(rhs)
    }
}

/// The inline map of a block's items: each inlined ValDef's id with its
/// right-hand side, inserted in item order.
pub open spec fn inline_entries(
    items: Seq<Tree>,
    in_if: bool,
    eager: Set<Tree>,
    branch: Set<Tree>,
) -> Seq<(u32, Tree)>
    decreases items.len(),
{
    if items.len() == 0 {
        Seq::empty()
    } else {
        let m = inline_entries(items.drop_last(), in_if, eager, branch);
        match items.last() {
            Tree::ValDef { id, rhs } => if should_inline(*rhs, in_if, eager, branch) {
                entries_insert(m, id, *rhs)
            } else {
                m
            },
            _ => m,
        }
    }
}

/// The items that stay: all but the ValDefs whose id is a key of `m`.
pub open spec fn kept_items(items: Seq<Tree>, m: Seq<(u32, Tree)>) -> Seq<Tree>
    decreases items.len(),
{
    if items.len() == 0 {
        Seq::empty()
    } else {
        kept_items(items.drop_last(), m) + match items.last() {
            Tree::ValDef { id, .. } => if has_key(m, id) {
                Seq::empty()
            } else {
                seq![items.last()]
            },
            _ => seq![items.last()],
        }
    }
}

/// Items and result with the ValUses of each key of `m` replaced by its
/// value, key after key in the order of `m`.
pub open spec fn substituted(items: Seq<Tree>, result: Tree, m: Seq<(u32, Tree)>) -> (
    Seq<Tree>,
    Tree,
)
    decreases m.len(),
{
    if m.len() == 0 {
        (items, result)
    } else {
        let (is, r) = substituted(items, result, m.drop_last());
        (use_replaced_seq(is, m.last().0, m.last().1), use_replaced(r, m.last().0, m.last().1))
    }
}

/// `t` with its alias ValDefs inlined, bottom-up: in each block (after its
/// items and result), the ValDefs that `should_inline` picks are dropped
/// and their uses replaced by their right-hand sides; If branches are
/// walked as lying inside a branch.
pub open spec fn alias_inlined(t: Tree, in_if: bool, eager: Set<Tree>, branch: Set<Tree>) -> Tree
    decreases t,
{
    match t {
        Tree::If { cond, then_branch, else_branch } => Tree::If {
            cond: Box::new(alias_inlined(*cond, in_if, eager, branch)),
            then_branch: Box::new(alias_inlined(*then_branch, true, eager, branch)),
            else_branch: Box::new(alias_inlined(*else_branch, true, eager, branch)),
        },
        Tree::Block { items, result } => {
            let items1 = alias_inlined_seq(items, in_if, eager, branch);
            let res1 = alias_inlined(*result, in_if, eager, branch);
            let m = inline_entries(items1, in_if, eager, branch);
            if m.len() == 0 {
                Tree::Block { items: items1, result: Box::new(res1) }
            } else {
                let (is, r) = substituted(kept_items(items1, m), res1, m);
                Tree::Block { items: is, result: Box::new(r) }
            }
        },
        Tree::ValDef { id, rhs } => Tree::ValDef {
            id,
            rhs: Box::new(alias_inlined(*rhs, in_if, eager, branch)),
        },
        Tree::ValUse { .. } => t,
        Tree::Func { args, body } => Tree::Func {
            args,
            body: Box::new(alias_inlined(*body, in_if, eager, branch)),
        },
        Tree::Op { kind, payload, children } => Tree::Op {
            kind,
            payload,
            children: alias_inlined_seq(children, in_if, eager, branch),
        },
    }
}

pub open spec fn alias_inlined_seq(
    s: Seq<Tree>,
    in_if: bool,
    eager: Set<Tree>,
    branch: Set<Tree>,
) -> Seq<Tree>
    decreases s,
{
    Seq::new(
        s.len(),
        |i: int|
            if 0 <= i < s.len() {
                alias_inlined(s[i], in_if, eager, branch)
            } else {
                Tree::ValUse { id: 0, tpe: 0 }
            },
    )
}

fn build_inline_map(
    items: &Vec<Node>,
    in_if_branch: bool,
    eager_counts: &[(Node, usize)],
    branch_counts: &[(Node, usize)],
) -> (m: IndexMap<u32, Node>)
    ensures
        index_map_entries(m) == inline_entries(
            nodes_view(items@),
            in_if_branch,
            count_set(pairs_view(eager_counts@)),
            count_set(pairs_view(branch_counts@)),
        ),
{
    let ghost s = nodes_view(items@);
    let ghost es = count_set(pairs_view(eager_counts@));
    let ghost bs = count_set(pairs_view(branch_counts@));
    let mut m = alias_map_new();
    let mut i: usize = 0;
    while i < items.len()
        invariant
            0 <= i <= items@.len(),
            s == nodes_view(items@),
            es == count_set(pairs_view(eager_counts@)),
            bs == count_set(pairs_view(branch_counts@)),
            index_map_entries(m) == inline_entries(s.subrange(0, i as int), in_if_branch, es, bs),
        decreases items.len() - i,
    {
        proof {
            lemma_prefix_step(s, i as int);
            assert(s[i as int] == node_view(items@[i as int]));
        }
        if let Node::ValDef { id, rhs } = &items[i] {
            assert(s[i as int] == Tree::ValDef { id: *id, rhs: Box::new(node_view(**rhs)) });
            if is_alias_rhs(rhs) {
                let c = if in_if_branch {
                    alias_count_for(rhs, eager_counts)
                } else {
                    alias_count_for(rhs, branch_counts)
                };
                if c >= 1 {
                    alias_map_insert(&mut m, *id, clone_node(rhs));
                }
            }
        }
        i += 1;
    }
    assert(s.subrange(0, s.len() as int) == s);
    m
}

fn keep_items(items: &Vec<Node>, m: &IndexMap<u32, Node>) -> (r: Vec<Node>)
    ensures
        nodes_view(r@) == kept_items(nodes_view(items@), index_map_entries(*m)),
{
    let ghost s = nodes_view(items@);
    let ghost e = index_map_entries(*m);
    let mut out: Vec<Node> = Vec::new();
    let mut i: usize = 0;
    while i < items.len()
        invariant
            0 <= i <= items@.len(),
            s == nodes_view(items@),
            e == index_map_entries(*m),
            nodes_view(out@) == kept_items(s.subrange(0, i as int), e),
        decreases items.len() - i,
    {
        proof {
            lemma_prefix_step(s, i as int);
            assert(s[i as int] == node_view(items@[i as int]));
        }
        let ghost before = nodes_view(out@);
        let drop = match &items[i] {
            Node::ValDef { id, rhs } => {
                assert(s[i as int] == Tree::ValDef { id: *id, rhs: Box::new(node_view(**rhs)) });
                alias_map_contains_key(m, *id)
            },
            _ => {
                assert(!(s[i as int] is ValDef));
                false
            },
        };
        if !drop {
            out.push(clone_node(&items[i]));
            assert(nodes_view(out@) =~= before + seq![s[i as int]]);
        } else {
            assert(nodes_view(out@) =~= before + Seq::<Tree>::empty());
        }
        i += 1;
    }
    assert(s.subrange(0, s.len() as int) == s);
    out
}

fn substitute_all(items: Vec<Node>, result: Node, m: &IndexMap<u32, Node>) -> (r: (
    Vec<Node>,
    Node,
))
    ensures
        (nodes_view(r.0@), r.1@) == substituted(nodes_view(items@), result@, index_map_entries(*m)),
{
    let ghost e = index_map_entries(*m);
    let ghost is0 = nodes_view(items@);
    let ghost r0 = result@;
    let n = alias_map_len(m);
    let mut items = items;
    let mut result = result;
    let mut j: usize = 0;
    while j < n
        invariant
            0 <= j <= n,
            n == e.len(),
            e == index_map_entries(*m),
            (nodes_view(items@), result@) == substituted(is0, r0, e.subrange(0, j as int)),
        decreases n - j,
    {
        proof {
            assert(e.subrange(0, j + 1).drop_last() =~= e.subrange(0, j as int));
        }
        match alias_map_get_index(m, j) {
            Some((id, rhs)) => {
                items = replace_val_use_seq(&items, id, rhs);
                result = replace_val_use(&result, id, rhs);
            },
            None => {},
        }
        j += 1;
    }
    assert(e.subrange(0, e.len() as int) == e);
    (items, result)
}

fn alias_walk_seq(
    v: &Vec<Node>,
    in_if_branch: bool,
    eager_counts: &[(Node, usize)],
    branch_counts: &[(Node, usize)],
) -> (r: Vec<Node>)
    ensures
        nodes_view(r@) == alias_inlined_seq(
            nodes_view(v@),
            in_if_branch,
            count_set(pairs_view(eager_counts@)),
            count_set(pairs_view(branch_counts@)),
        ),
    decreases v@,
{
    let ghost es = count_set(pairs_view(eager_counts@));
    let ghost bs = count_set(pairs_view(branch_counts@));
    let mut out: Vec<Node> = Vec::new();
    let mut i: usize = 0;
    while i < v.len()
        invariant
            0 <= i <= v@.len(),
            out@.len() == i,
            es == count_set(pairs_view(eager_counts@)),
            bs == count_set(pairs_view(branch_counts@)),
            forall|j: int|
                0 <= j < i ==> node_view(#[trigger] out@[j]) == alias_inlined(
                    node_view(v@[j]),
                    in_if_branch,
                    es,
                    bs,
                ),
        decreases v.len() - i,
    {
        assert(decreases_to!(v@ => v@[i as int]));
        out.push(alias_walk(&v[i], in_if_branch, eager_counts, branch_counts));
        i += 1;
    }
    assert(nodes_view(out@) =~= alias_inlined_seq(nodes_view(v@), in_if_branch, es, bs));
    out
}

fn alias_walk(
    expr: &Node,
    in_if_branch: bool,
    eager_counts: &[(Node, usize)],
    branch_counts: &[(Node, usize)],
) -> (r: Node)
    ensures
        r@ == alias_inlined(
            expr@,
            in_if_branch,
            count_set(pairs_view(eager_counts@)),
            count_set(pairs_view(branch_counts@)),
        ),
    decreases expr,
{
    match expr {
        Node::If { cond, then_branch, else_branch } => {
            assert(expr@ == Tree::If {
                cond: Box::new(node_view(**cond)),
                then_branch: Box::new(node_view(**then_branch)),
                else_branch: Box::new(node_view(**else_branch)),
            });
            Node::If {
                cond: Box::new(alias_walk(cond, in_if_branch, eager_counts, branch_counts)),
                then_branch: Box::new(alias_walk(then_branch, true, eager_counts, branch_counts)),
                else_branch: Box::new(alias_walk(else_branch, true, eager_counts, branch_counts)),
            }
        },
        Node::Block { items, result } => {
            assert(expr@ == Tree::Block {
                items: nodes_view(items@),
                result: Box::new(node_view(**result)),
            });
            let items1 = alias_walk_seq(items, in_if_branch, eager_counts, branch_counts);
            let res1 = alias_walk(result, in_if_branch, eager_counts, branch_counts);
            let m = build_inline_map(&items1, in_if_branch, eager_counts, branch_counts);
            if alias_map_is_empty(&m) {
                return Node::Block { items: items1, result: Box::new(res1) };
            }
            let kept = keep_items(&items1, &m);
            let (is, r) = substitute_all(kept, res1, &m);
            Node::Block { items: is, result: Box::new(r) }
        },
        Node::ValDef { id, rhs } => {
            assert(expr@ == Tree::ValDef { id: *id, rhs: Box::new(node_view(**rhs)) });
            Node::ValDef {
                id: *id,
                rhs: Box::new(alias_walk(rhs, in_if_branch, eager_counts, branch_counts)),
            }
        },
        Node::ValUse { id, tpe } => Node::ValUse { id: *id, tpe: *tpe },
        Node::Func { args, body } => {
            assert(expr@ == Tree::Func { args: args@, body: Box::new(node_view(**body)) });
            Node::Func {
                args: clone_args(args),
                body: Box::new(alias_walk(body, in_if_branch, eager_counts, branch_counts)),
            }
        },
        Node::Op { kind, payload, children } => {
            assert(expr@ == Tree::Op {
                kind: *kind,
                payload: *payload,
                children: nodes_view(children@),
            });
            Node::Op {
                kind: *kind,
                payload: *payload,
                children: alias_walk_seq(children, in_if_branch, eager_counts, branch_counts),
            }
        },
    }
}

/// Inlines the alias ValDefs of `expr` in place, as `alias_inlined` says
/// for the aliases that the two tally lists count.
pub fn inline_alias_vals_walk(
    expr: &mut Node,
    in_if_branch: bool,
    eager_counts: &[(Node, usize)],
    branch_counts: &[(Node, usize)],
)
    ensures
        final(expr)@ == alias_inlined(
            old(expr)@,
            in_if_branch,
            count_set(pairs_view(eager_counts@)),
            count_set(pairs_view(branch_counts@)),
        ),
{
    let r = alias_walk(expr, in_if_branch, eager_counts, branch_counts);
    *expr = r;
}


proof fn lemma_alias_occ_len(t: Tree, in_if: bool, wb: bool)
    ensures
        alias_occ(t, in_if, wb).len() <= node_count(t),
    decreases t,
{
    match t {
        Tree::ValDef { rhs, .. } => lemma_alias_occ_len(*rhs, in_if, wb),
        Tree::ValUse { .. } => {},
        Tree::Block { items, result } => {
            lemma_alias_occ_len_seq(items, in_if, wb);
            lemma_alias_occ_len(*result, in_if, wb);
        },
        Tree::If { cond, then_branch, else_branch } => {
            lemma_alias_occ_len(*cond, in_if, wb);
            lemma_alias_occ_len(*then_branch, true, wb);
            lemma_alias_occ_len(*else_branch, true, wb);
        },
        Tree::Func { body, .. } => lemma_alias_occ_len(*body, in_if, wb),
        Tree::Op { children, .. } => lemma_alias_occ_len_seq(children, in_if, wb),
    }
}

proof fn lemma_alias_occ_len_seq(s: Seq<Tree>, in_if: bool, wb: bool)
    ensures
        alias_occ_seq(s, in_if, wb).len() <= node_count_seq(s),
    decreases s,
{
    if s.len() > 0 {
        lemma_alias_occ_len_seq(s.drop_last(), in_if, wb);
        lemma_alias_occ_len(s.last(), in_if, wb);
    }
}

/// Inlines the ValDefs of `INPUTS(N)`/`OUTPUTS(N)`-style aliases where the
/// same alias also occurs in the other kind of scope: a ValDef inside an If
/// branch when the alias occurs somewhere outside every If branch, and one
/// outside them all when it occurs inside one (see `alias_inlined`).
pub fn inline_alias_vals(expr: Node) -> (r: Node)
    requires
        node_count(expr@) <= usize::MAX,
    ensures
        r@ == alias_inlined(
            expr@,
            false,
            Set::new(|a: Tree| alias_occ(expr@, false, false).contains(a)),
            Set::new(|a: Tree| alias_occ(expr@, false, true).contains(a)),
        ),
{
    let mut expr = expr;
    let ghost t = expr@;
    let mut eager_counts: Vec<(Node, usize)> = Vec::new();
    let mut branch_counts: Vec<(Node, usize)> = Vec::new();
    proof {
        let e0 = pairs_view(eager_counts@);
        let b0 = pairs_view(branch_counts@);
        assert(e0 =~= Seq::<(Tree, usize)>::empty());
        assert(b0 =~= Seq::<(Tree, usize)>::empty());
        lemma_alias_occ_len(t, false, false);
        lemma_alias_occ_len(t, false, true);
        assert forall|a: Tree| tally(e0, a) + seq_count(alias_occ(t, false, false), a) <= usize::MAX by {
            lemma_seq_count_contains(alias_occ(t, false, false), a);
            lemma_assoc_absent(e0, a);
        }
        assert forall|a: Tree| tally(b0, a) + seq_count(alias_occ(t, false, true), a) <= usize::MAX by {
            lemma_seq_count_contains(alias_occ(t, false, true), a);
            lemma_assoc_absent(b0, a);
        }
    }
    count_alias_split_occurrences(&expr, false, &mut eager_counts, &mut branch_counts);
    proof {
        let e1 = pairs_view(eager_counts@);
        let b1 = pairs_view(branch_counts@);
        assert forall|a: Tree| #[trigger] count_set(e1).contains(a) == alias_occ(t, false, false).contains(a) by {
            lemma_first_count_tally(e1, a);
            lemma_seq_count_contains(alias_occ(t, false, false), a);
            lemma_assoc_absent(Seq::<(Tree, usize)>::empty(), a);
        }
        assert forall|a: Tree| #[trigger] count_set(b1).contains(a) == alias_occ(t, false, true).contains(a) by {
            lemma_first_count_tally(b1, a);
            lemma_seq_count_contains(alias_occ(t, false, true), a);
            lemma_assoc_absent(Seq::<(Tree, usize)>::empty(), a);
        }
        assert(count_set(e1) =~= Set::new(|a: Tree| alias_occ(t, false, false).contains(a)));
        assert(count_set(b1) =~= Set::new(|a: Tree| alias_occ(t, false, true).contains(a)));
    }
    inline_alias_vals_walk(&mut expr, false, eager_counts.as_slice(), branch_counts.as_slice());
    expr
}

/// Only ValDefs of a global collection indexed by a constant literal
/// (`INPUTS(N)`, `OUTPUTS(N)`, no default) are inlined: every entry of a
/// block's inline map has such a right-hand side, and comes from a ValDef
/// item of the block with that id and right-hand side.
pub proof fn law_only_constant_indexed_globals_inlined(
    items: Seq<Tree>,
    in_if: bool,
    eager: Set<Tree>,
    branch: Set<Tree>,
)
    ensures
        forall|j: int| 0 <= j < inline_entries(items, in_if, eager, branch).len() ==> {
            let v = #[trigger] inline_entries(items, in_if, eager, branch)[j].1;
            &&& v is Op && v->Op_kind == OpKind::ByIndex && v->Op_children.len() == 2
            &&& v->Op_children[0] is Op && v->Op_children[0]->Op_kind == OpKind::GlobalVars
            &&& v->Op_children[1] is Op && v->Op_children[1]->Op_kind == OpKind::Const
            &&& exists|i: int| 0 <= i < items.len() && #[trigger] items[i] == (Tree::ValDef {
                id: inline_entries(items, in_if, eager, branch)[j].0,
                rhs: Box::new(v),
            })
        },
    decreases items.len(),
{
    let e = inline_entries(items, in_if, eager, branch);
    if items.len() > 0 {
        let dl = items.drop_last();
        law_only_constant_indexed_globals_inlined(dl, in_if, eager, branch);
        let m = inline_entries(dl, in_if, eager, branch);
        assert forall|j: int| 0 <= j < e.len() implies {
            let v = #[trigger] e[j].1;
            &&& v is Op && v->Op_kind == OpKind::ByIndex && v->Op_children.len() == 2
            &&& v->Op_children[0] is Op && v->Op_children[0]->Op_kind == OpKind::GlobalVars
            &&& v->Op_children[1] is Op && v->Op_children[1]->Op_kind == OpKind::Const
            &&& exists|i: int| 0 <= i < items.len() && #[trigger] items[i] == (Tree::ValDef {
                id: e[j].0,
                rhs: Box::new(v),
            })
        } by {
            let last = items.last();
            let from_last = match last {
                Tree::ValDef { id, rhs } => should_inline(*rhs, in_if, eager, branch) && e[j] == (id, *rhs),
                _ => false,
            };
            if from_last {
                match last {
                    Tree::ValDef { id, rhs } => {
                        crate::predicates::law_alias_is_global_indexed_by_constant(*rhs);
                        assert(items[items.len() - 1] == Tree::ValDef { id: e[j].0, rhs: Box::new(e[j].1) });
                    },
                    _ => {},
                }
            } else {
                match last {
                    Tree::ValDef { id, rhs } => {
                        if should_inline(*rhs, in_if, eager, branch) {
                            assert(e == entries_insert(m, id, *rhs));
                            if key_index(m, id) >= 0 {
                                lemma_key_index_bound(m, id);
                                assert(e.len() == m.len());
                                assert(j < m.len());
                                assert(e[key_index(m, id)] == (id, *rhs));
                                assert(j != key_index(m, id));
                                assert(e[j] == m[j]);
                            } else {
                                assert(j < m.len());
                                assert(e[j] == m[j]);
                            }
                        } else {
                            assert(e == m);
                        }
                    },
                    _ => {
                        assert(e == m);
                    },
                }
                let i = choose|i: int| 0 <= i < dl.len() && #[trigger] dl[i] == (Tree::ValDef {
                    id: m[j].0,
                    rhs: Box::new(m[j].1),
                });
                assert(items[i] == dl[i]);
            }
        }
    }
}

proof fn lemma_key_index_bound(e: Seq<(u32, Tree)>, k: u32)
    ensures
        key_index(e, k) < e.len(),
    decreases e.len(),
{
    if e.len() > 0 {
        lemma_key_index_bound(e.drop_last(), k);
    }
}

} // verus!
