use vstd::prelude::*;

use crate::node::{node_eq, Node, Tree};

verus! {

/// The (tree, value) pairs that an association list of nodes stands for.
pub open spec fn pairs_view<V>(v: Seq<(Node, V)>) -> Seq<(Tree, V)> {
    Seq::new(v.len(), |i: int| (v[i].0@, v[i].1))
}

/// No key occurs twice in an association list.
pub open spec fn keys_distinct<V>(s: Seq<(Tree, V)>) -> bool {
    forall|i: int, j: int| 0 <= i < j < s.len() ==> s[i].0 != s[j].0
}

/// The map an association list stands for: later pairs win.
pub open spec fn assoc_map<V>(s: Seq<(Tree, V)>) -> Map<Tree, V>
    decreases s.len(),
{
    if s.len() == 0 {
        Map::<Tree, V>::empty()
    } else {
        assoc_map(s.drop_last()).insert(s.last().0, s.last().1)
    }
}

pub proof fn lemma_assoc_absent<V>(s: Seq<(Tree, V)>, t: Tree)
    requires
        forall|i: int| 0 <= i < s.len() ==> s[i].0 != t,
    ensures
        !assoc_map(s).contains_key(t),
    decreases s.len(),
{
    if s.len() > 0 {
        lemma_assoc_absent(s.drop_last(), t);
    }
}

pub proof fn lemma_assoc_found<V>(s: Seq<(Tree, V)>, i: int)
    requires
        keys_distinct(s),
        0 <= i < s.len(),
    ensures
        assoc_map(s).contains_key(s[i].0),
        assoc_map(s)[s[i].0] == s[i].1,
    decreases s.len(),
{
    if i < s.len() - 1 {
        lemma_assoc_found(s.drop_last(), i);
    }
}

pub proof fn lemma_assoc_update<V>(s: Seq<(Tree, V)>, i: int, v: V)
    requires
        keys_distinct(s),
        0 <= i < s.len(),
    ensures
        keys_distinct(s.update(i, (s[i].0, v))),
        assoc_map(s.update(i, (s[i].0, v))) == assoc_map(s).insert(s[i].0, v),
    decreases s.len(),
{
    let u = s.update(i, (s[i].0, v));
    if i == s.len() - 1 {
        assert(u.drop_last() =~= s.drop_last());
        lemma_assoc_absent(s.drop_last(), s[i].0);
        assert(assoc_map(u) =~= assoc_map(s).insert(s[i].0, v));
    } else {
        lemma_assoc_update(s.drop_last(), i, v);
        assert(u.drop_last() =~= s.drop_last().update(i, (s[i].0, v)));
        assert(assoc_map(u) =~= assoc_map(s).insert(s[i].0, v));
    }
}

pub proof fn lemma_assoc_push<V>(s: Seq<(Tree, V)>, t: Tree, v: V)
    requires
        keys_distinct(s),
        forall|i: int| 0 <= i < s.len() ==> s[i].0 != t,
    ensures
        keys_distinct(s.push((t, v))),
        assoc_map(s.push((t, v))) == assoc_map(s).insert(t, v),
{
    assert(s.push((t, v)).drop_last() =~= s);
}

pub proof fn lemma_assoc_len<V>(s: Seq<(Tree, V)>)
    requires
        keys_distinct(s),
    ensures
        assoc_map(s).dom().finite(),
        assoc_map(s).len() == s.len(),
    decreases s.len(),
{
    if s.len() > 0 {
        lemma_assoc_len(s.drop_last());
        lemma_assoc_absent(s.drop_last(), s.last().0);
    }
}

/// Position of `key` in an association list, if it is there.
pub fn assoc_find<V>(list: &Vec<(Node, V)>, key: &Node) -> (r: Option<usize>)
    ensures
        match r {
            Some(i) => i < list@.len() && list@[i as int].0@ == key@,
            None => forall|i: int| 0 <= i < list@.len() ==> list@[i].0@ != key@,
        },
{
    let mut i: usize = 0;
    while i < list.len()
        invariant
            0 <= i <= list@.len(),
            forall|j: int| 0 <= j < i ==> list@[j].0@ != key@,
        decreases list.len() - i,
    {
        if node_eq(&list[i].0, key) {
            return Some(i);
        }
        i += 1;
    }
    None
}

/// Value bound to `key`, read through the map view.
pub fn assoc_get<V: Copy>(list: &Vec<(Node, V)>, key: &Node) -> (r: Option<V>)
    requires
        keys_distinct(pairs_view(list@)),
    ensures
        r == assoc_map(pairs_view(list@)).get(key@),
{
    let ghost s = pairs_view(list@);
    match assoc_find(list, key) {
        Some(i) => {
            proof {
                lemma_assoc_found(s, i as int);
            }
            Some(list[i].1)
        },
        None => {
            proof {
                assert forall|j: int| 0 <= j < s.len() implies s[j].0 != key@ by {}
                lemma_assoc_absent(s, key@);
            }
            None
        },
    }
}

} // verus!
