use vstd::prelude::*;

use crate::dag::{
    collect_subexprs, collectible, distinct_nodes, distinct_trees, expr_type, is_collectible,
    subexprs, type_of, TypeTags,
};
use crate::node::{clone_node, node_view, nodes_view, Node, Tree};
use crate::thunk_scope::{count_in_lambda_bodies, lambda_occurrences};
use crate::walk::{
    contains_val_use, count_occurrences, depth, expr_depth, has_val_use, node_count, occurrences,
    replace_all, replaced,
};

verus! {

/// The candidates of the ValDef right-hand sides among the first `k`
/// definitions, in order.
pub open spec fn rescue_subs(defs: Seq<Tree>, k: int, ops: Seq<u32>, big: u32) -> Seq<Tree>
    decreases k,
{
    if k <= 0 || k > defs.len() {
        Seq::empty()
    } else {
        rescue_subs(defs, k - 1, ops, big) + match defs[k - 1] {
            Tree::ValDef { rhs, .. } => subexprs(*rhs, ops, big, false),
            _ => Seq::empty(),
        }
    }
}

/// The occurrences of `cand` in the ValDef right-hand sides among the
/// first `k` definitions.
pub open spec fn rhs_occurrences(defs: Seq<Tree>, k: int, cand: Tree) -> nat
    decreases k,
{
    if k <= 0 || k > defs.len() {
        0
    } else {
        rhs_occurrences(defs, k - 1, cand) + match defs[k - 1] {
            Tree::ValDef { rhs, .. } => occurrences(*rhs, cand),
            _ => 0,
        }
    }
}

/// The occurrences of `cand` in all right-hand sides and in `result`.
pub open spec fn rescue_total(defs: Seq<Tree>, result: Tree, cand: Tree) -> nat {
    rhs_occurrences(defs, defs.len() as int, cand) + occurrences(result, cand)
}

/// The saving of extracting a candidate with `total` occurrences and
/// depth `d`, in `i32` as computed: `(total - 1) * d`.
pub open spec fn rescue_savings(total: nat, d: nat) -> int {
    ((total as i32) as int - 1) * ((d as i32) as int)
}

/// A candidate the rescue may extract: collectible, without a ValUse,
/// occurring at least twice overall and at least once in a lambda body of
/// `result`.
pub open spec fn rescue_eligible(cand: Tree, defs: Seq<Tree>, result: Tree, ops: Seq<u32>, big: u32) -> bool {
    &&& collectible(cand, ops, big)
    &&& !has_val_use(cand)
    &&& rescue_total(defs, result, cand) >= 2
    &&& lambda_occurrences(result, cand) > 0
}

/// The distinct candidates of the state.
pub open spec fn rescue_unique(defs: Seq<Tree>, ops: Seq<u32>, big: u32) -> Seq<Tree> {
    distinct_trees(rescue_subs(defs, defs.len() as int, ops, big))
}

/// The best of the first `k` of `unique`: the first eligible one of
/// greatest saving.
pub open spec fn rescue_best_upto(
    unique: Seq<Tree>,
    k: int,
    defs: Seq<Tree>,
    result: Tree,
    ops: Seq<u32>,
    big: u32,
) -> Option<(int, int)>
    decreases k,
{
    if k <= 0 || k > unique.len() {
        None
    } else {
        let b = rescue_best_upto(unique, k - 1, defs, result, ops, big);
        let c = unique[k - 1];
        if rescue_eligible(c, defs, result, ops, big) {
            let s = rescue_savings(rescue_total(defs, result, c), depth(c));
            match b {
                None => Some((k - 1, s)),
                Some(p) => if s > p.1 {
                    Some((k - 1, s))
                } else {
                    b
                },
            }
        } else {
            b
        }
    }
}

/// What the rescue computes of a state fits its machine integers: every
/// tree has at most `usize::MAX` nodes, the occurrence totals fit in
/// `usize` and the savings of the eligible candidates in `i32`.
pub open spec fn rescue_fits(st: (Seq<Tree>, Tree, nat), ops: Seq<u32>, big: u32) -> bool {
    let u = rescue_unique(st.0, ops, big);
    &&& node_count(st.1) <= usize::MAX
    &&& forall|k: int|
        0 <= k < st.0.len() ==> match #[trigger] st.0[k] {
            Tree::ValDef { rhs, .. } => node_count(*rhs) <= usize::MAX,
            _ => true,
        }
    &&& forall|j: int|
        0 <= j < u.len() ==> node_count(#[trigger] u[j]) <= usize::MAX && (collectible(u[j], ops, big)
            && !has_val_use(u[j]) ==> rescue_total(st.0, st.1, u[j]) <= usize::MAX)
    &&& forall|j: int|
        0 <= j < u.len() && rescue_eligible(#[trigger] u[j], st.0, st.1, ops, big) ==> {
            let t = rescue_total(st.0, st.1, u[j]);
            &&& (t as i32) as int - 1 >= i32::MIN
            &&& i32::MIN <= rescue_savings(t, depth(u[j])) <= i32::MAX
        }
}

/// One extraction: `cand` replaced by a ValUse of the next id in every
/// right-hand side and in `result`, and a ValDef of it added last.
pub open spec fn rescue_step(st: (Seq<Tree>, Tree, nat), cand: Tree, ops: Seq<u32>) -> (
    Seq<Tree>,
    Tree,
    nat,
) {
    let u = Tree::ValUse { id: st.2 as u32, tpe: type_of(cand, ops) };
    (
        Seq::new(
            st.0.len(),
            |k: int|
                match st.0[k] {
                    Tree::ValDef { id, rhs } => Tree::ValDef { id, rhs: Box::new(replaced(*rhs, cand, u)) },
                    _ => st.0[k],
                },
        ).push(Tree::ValDef { id: st.2 as u32, rhs: Box::new(cand) }),
        replaced(st.1, cand, u),
        st.2 + 1,
    )
}

/// The rescue run from `st`: extractions of the best candidate until none
/// is left; the flag says it ran without overflowing (its computations fit
/// and the ids did not run out).
pub open spec fn rescue_run(st: (Seq<Tree>, Tree, nat), ops: Seq<u32>, big: u32) -> (
    (Seq<Tree>, Tree, nat),
    bool,
)
    decreases u32::MAX - st.2,
{
    if !rescue_fits(st, ops, big) {
        (st, false)
    } else {
        let u = rescue_unique(st.0, ops, big);
        match rescue_best_upto(u, u.len() as int, st.0, st.1, ops, big) {
            None => (st, true),
            Some(b) => if st.2 < u32::MAX {
                rescue_run(rescue_step(st, u[b.0], ops), ops, big)
            } else {
                (st, false)
            },
        }
    }
}


fn rescue_subs_of(defs: &Vec<Node>, tags: &TypeTags) -> (r: Vec<Node>)
    ensures
        nodes_view(r@) == rescue_subs(nodes_view(defs@), defs@.len() as int, tags.op_types@, tags.big_int),
{
    let ghost s = nodes_view(defs@);
    let mut out: Vec<Node> = Vec::new();
    let mut i: usize = 0;
    assert(nodes_view(out@) =~= Seq::<Tree>::empty());
    while i < defs.len()
        invariant
            0 <= i <= defs@.len(),
            s == nodes_view(defs@),
            nodes_view(out@) == rescue_subs(s, i as int, tags.op_types@, tags.big_int),
        decreases defs.len() - i,
    {
        assert(s[i as int] == node_view(defs@[i as int]));
        match &defs[i] {
            Node::ValDef { id, rhs } => {
                assert(s[i as int] == Tree::ValDef { id: *id, rhs: Box::new(node_view(**rhs)) });
                collect_subexprs(rhs, tags, &mut out);
            },
            _ => {
                assert(nodes_view(out@) =~= rescue_subs(s, i + 1, tags.op_types@, tags.big_int));
            },
        }
        i += 1;
    }
    out
}

proof fn lemma_rhs_occ_mono(defs: Seq<Tree>, k: int, m: int, cand: Tree)
    requires
        0 <= k <= m <= defs.len(),
    ensures
        rhs_occurrences(defs, k, cand) <= rhs_occurrences(defs, m, cand),
    decreases m - k,
{
    if k < m {
        lemma_rhs_occ_mono(defs, k, m - 1, cand);
    }
}

/// The occurrences of `cand` in all right-hand sides and in `result`, as
/// `rescue_total` says.
fn total_of(defs: &Vec<Node>, result: &Node, cand: &Node) -> (r: usize)
    requires
        node_count(result@) <= usize::MAX,
        forall|k: int|
            0 <= k < defs@.len() ==> match #[trigger] nodes_view(defs@)[k] {
                Tree::ValDef { rhs, .. } => node_count(*rhs) <= usize::MAX,
                _ => true,
            },
        rescue_total(nodes_view(defs@), result@, cand@) <= usize::MAX,
    ensures
        r == rescue_total(nodes_view(defs@), result@, cand@),
{
    let ghost s = nodes_view(defs@);
    let mut total: usize = 0;
    let mut i: usize = 0;
    while i < defs.len()
        invariant
            0 <= i <= defs@.len(),
            s == nodes_view(defs@),
            forall|k: int|
                0 <= k < defs@.len() ==> match #[trigger] s[k] {
                    Tree::ValDef { rhs, .. } => node_count(*rhs) <= usize::MAX,
                    _ => true,
                },
            rescue_total(s, result@, cand@) <= usize::MAX,
            total == rhs_occurrences(s, i as int, cand@),
        decreases defs.len() - i,
    {
        assert(s[i as int] == node_view(defs@[i as int]));
        proof {
            lemma_rhs_occ_mono(s, i + 1, s.len() as int, cand@);
        }
        match &defs[i] {
            Node::ValDef { id, rhs } => {
                assert(s[i as int] == Tree::ValDef { id: *id, rhs: Box::new(node_view(**rhs)) });
                let c = count_occurrences(rhs, cand);
                total = total + c;
            },
            _ => {},
        }
        i += 1;
    }
    let c = count_occurrences(result, cand);
    total + c
}

/// The position in `unique` of the best candidate and its saving, as
/// `rescue_best_upto` says over all of `unique`.
fn best_candidate(unique: &Vec<Node>, defs: &Vec<Node>, result: &Node, tags: &TypeTags) -> (r: Option<(usize, i32)>)
    requires
        nodes_view(unique@) == rescue_unique(nodes_view(defs@), tags.op_types@, tags.big_int),
        rescue_fits((nodes_view(defs@), result@, 0), tags.op_types@, tags.big_int),
    ensures
        match rescue_best_upto(
            nodes_view(unique@),
            unique@.len() as int,
            nodes_view(defs@),
            result@,
            tags.op_types@,
            tags.big_int,
        ) {
            None => r is None,
            Some(b) => r is Some && r.unwrap().0 as int == b.0 && r.unwrap().1 as int == b.1,
        },
{
    let ghost u = nodes_view(unique@);
    let ghost s = nodes_view(defs@);
    let ghost ops = tags.op_types@;
    let ghost big = tags.big_int;
    let mut best: Option<(usize, i32)> = None;
    let mut j: usize = 0;
    while j < unique.len()
        invariant
            0 <= j <= unique@.len(),
            u == nodes_view(unique@),
            s == nodes_view(defs@),
            ops == tags.op_types@,
            big == tags.big_int,
            u == rescue_unique(s, ops, big),
            rescue_fits((s, result@, 0), ops, big),
            match rescue_best_upto(u, j as int, s, result@, ops, big) {
                None => best is None,
                Some(b) => best is Some && best.unwrap().0 as int == b.0 && best.unwrap().1 as int == b.1,
            },
        decreases unique.len() - j,
    {
        let cand = &unique[j];
        assert(u[j as int] == node_view(unique@[j as int]));
        if is_collectible(cand, tags) && !contains_val_use(cand) {
            let total = total_of(defs, result, cand);
            if total >= 2 {
                let in_lambda = count_in_lambda_bodies(result, cand);
                if in_lambda > 0 {
                    assert(rescue_eligible(u[j as int], s, result@, ops, big));
                    let d = expr_depth(cand) as i32;
                    let t = total as i32;
                    let savings = (t - 1) * d;
                    let better = match best {
                        None => true,
                        Some(b) => savings > b.1,
                    };
                    if better {
                        best = Some((j, savings));
                    }
                }
            }
        }
        j += 1;
    }
    best
}



proof fn lemma_best_index(
    unique: Seq<Tree>,
    k: int,
    defs: Seq<Tree>,
    result: Tree,
    ops: Seq<u32>,
    big: u32,
)
    requires
        0 <= k <= unique.len(),
    ensures
        match rescue_best_upto(unique, k, defs, result, ops, big) {
            Some(b) => 0 <= b.0 < k,
            None => true,
        },
    decreases k,
{
    if k > 0 {
        lemma_best_index(unique, k - 1, defs, result, ops, big);
    }
}

/// Extracts, while one is left, the candidate of greatest saving that
/// occurs at least twice in the right-hand sides `new_val_defs` and in
/// `result` together, once at least in a lambda body of `result`, and
/// holds no ValUse, as a ValDef of the next id (`next_id` counts up), as
/// `rescue_run` says; the run must not overflow.
pub fn lambda_rescue_post_pass(
    new_val_defs: Vec<Node>,
    result: Node,
    next_id: u32,
    tags: &TypeTags,
) -> (r: (Vec<Node>, Node, u32))
    requires
        rescue_run((nodes_view(new_val_defs@), result@, next_id as nat), tags.op_types@, tags.big_int).1,
    ensures
        ({
            let f = rescue_run(
                (nodes_view(new_val_defs@), result@, next_id as nat),
                tags.op_types@,
                tags.big_int,
            ).0;
            &&& nodes_view(r.0@) == f.0
            &&& r.1@ == f.1
            &&& r.2 as nat == f.2
        }),
{
    let ghost ops = tags.op_types@;
    let ghost big = tags.big_int;
    let ghost fin = rescue_run((nodes_view(new_val_defs@), result@, next_id as nat), ops, big).0;
    let mut defs = new_val_defs;
    let mut result = result;
    let mut next_id = next_id;
    loop
        invariant
            ops == tags.op_types@,
            big == tags.big_int,
            rescue_run((nodes_view(defs@), result@, next_id as nat), ops, big).1,
            rescue_run((nodes_view(defs@), result@, next_id as nat), ops, big).0 == fin,
        ensures
            nodes_view(defs@) == fin.0,
            result@ == fin.1,
            next_id as nat == fin.2,
        decreases u32::MAX - next_id,
    {
        let ghost st = (nodes_view(defs@), result@, next_id as nat);
        assert(rescue_fits(st, ops, big));
        let subs = rescue_subs_of(&defs, tags);
        let unique = distinct_nodes(&subs);
        let best = best_candidate(&unique, &defs, &result, tags);
        let b = match best {
            None => {
                assert(rescue_run(st, ops, big) == (st, true));
                break;
            },
            Some(b) => b,
        };
        let ghost u = nodes_view(unique@);
        proof {
            lemma_best_index(u, u.len() as int, st.0, st.1, ops, big);
        }
        assert(next_id < u32::MAX);
        let cand = &unique[b.0];
        assert(u[b.0 as int] == node_view(unique@[b.0 as int]));
        let vid = next_id;
        next_id = next_id + 1;
        let use_node = Node::ValUse { id: vid, tpe: expr_type(cand, tags) };
        let ghost dv = nodes_view(defs@);
        let mut new_defs: Vec<Node> = Vec::new();
        let mut k: usize = 0;
        while k < defs.len()
            invariant
                0 <= k <= defs@.len(),
                dv == nodes_view(defs@),
                new_defs@.len() == k,
                forall|q: int|
                    0 <= q < k ==> node_view(#[trigger] new_defs@[q]) == match dv[q] {
                        Tree::ValDef { id, rhs } => Tree::ValDef {
                            id,
                            rhs: Box::new(replaced(*rhs, cand@, use_node@)),
                        },
                        _ => dv[q],
                    },
            decreases defs.len() - k,
        {
            assert(dv[k as int] == node_view(defs@[k as int]));
            match &defs[k] {
                Node::ValDef { id, rhs } => {
                    assert(dv[k as int] == Tree::ValDef { id: *id, rhs: Box::new(node_view(**rhs)) });
                    new_defs.push(Node::ValDef { id: *id, rhs: Box::new(replace_all(rhs, cand, &use_node)) });
                },
                other => {
                    new_defs.push(clone_node(other));
                },
            }
            k += 1;
        }
        let new_result = replace_all(&result, cand, &use_node);
        let ghost nd = nodes_view(new_defs@);
        new_defs.push(Node::ValDef { id: vid, rhs: Box::new(clone_node(cand)) });
        assert(nodes_view(new_defs@) =~= rescue_step(st, u[b.0 as int], ops).0);
        defs = new_defs;
        result = new_result;
    }
    (defs, result, next_id)
}

} // verus!
