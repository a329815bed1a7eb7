use vstd::prelude::*;

use std::collections::HashSet;

use crate::alias::{alias_count_for, first_count};
use crate::assoc::pairs_view;
use crate::ast_graph::{
    apply_env, branch_locals, env_rescue, graph_finish, graph_from_env, graph_next0, is_select_on_shared,
    select_on_shared, ScopeMode,
};
use crate::dag::{extractable, is_extractable, TypeTags};
use crate::extract::{lemma_max_id_unique, max_id, max_id_is};
use crate::max_id::find_max_val_id;
use crate::node::{clone_node, node_view, nodes_view, Node, OpKind, Tree, BIN_AND, BIN_OR};
use crate::predicates::{graph_shared, is_graph_shared, references_locally_defined, refers_to};
use crate::scopes::collect_branch_local_val_ids;
use crate::sym_table::{lookup, SymTable, SymTableView};
use crate::thunk_scope::lazy_binop;
use crate::visibility::{
    appears_in_main_scope, appears_outside_if_branches, containing_count,
    count_distinct_top_level_containers, in_main_scope, outside_if, top_containers,
};
use crate::walk::{lemma_prefix_step, node_count, node_count_seq};

verus! {

/// Which graph pass gates extraction: the scope checks, the top-down
/// hash-cons walk, or the bottom-up hash-cons walk.
#[derive(PartialEq, Eq, Structural, Clone, Copy, Debug)]
pub enum HashCons {
    Off,
    TopDown,
    BottomUp,
}

/// `x` occurs in `t` where a hash-cons walk of `t` stays in `t`'s own
/// scope: not inside an If branch, the lazy operands of `&&` and `||`, or
/// a lambda body.
pub open spec fn hc_owned(t: Tree, x: Tree) -> bool
    decreases t,
{
    x == t || match t {
        Tree::ValDef { rhs, .. } => hc_owned(*rhs, x),
        Tree::ValUse { .. } => false,
        Tree::Block { items, result } => hc_owned_seq(items, items.len() as int, x) || hc_owned(*result, x),
        Tree::If { cond, .. } => hc_owned(*cond, x),
        Tree::Func { .. } => false,
        Tree::Op { kind, payload, children } => if lazy_binop(kind, payload) && children.len() > 0 {
            hc_owned(children[0], x)
        } else {
            hc_owned_seq(children, children.len() as int, x)
        },
    }
}

pub open spec fn hc_owned_seq(s: Seq<Tree>, k: int, x: Tree) -> bool
    decreases s, k,
{
    if k <= 0 || k > s.len() {
        false
    } else {
        hc_owned_seq(s, k - 1, x) || hc_owned(s[k - 1], x)
    }
}

/// A table has room for `n` more lookups: neither its symbol counter nor
/// any lookup count reaches `u32::MAX`.
pub open spec fn hc_room(v: SymTableView, n: nat) -> bool {
    &&& v.next + n < u32::MAX
    &&& forall|c: u32| #[trigger] v.counts.contains_key(c) ==> v.counts[c] + n < u32::MAX
}

proof fn lemma_room_mono(v: SymTableView, n: nat, k: nat)
    requires
        hc_room(v, n),
        k <= n,
    ensures
        hc_room(v, k),
{
}

/// What is left of the nodes of `s` past its first `k`.
pub open spec fn rest_count(s: Seq<Tree>, k: int) -> nat {
    (node_count_seq(s) - node_count_seq(s.subrange(0, k))) as nat
}

proof fn lemma_room_of_new(v: SymTableView, n: nat)
    requires
        v.next == 0,
        v.counts == Map::<u32, u32>::empty(),
        n < u32::MAX,
    ensures
        hc_room(v, n),
{
}

proof fn lemma_count_split(s: Seq<Tree>)
    requires
        s.len() > 0,
    ensures
        node_count_seq(s) == node_count(s[0]) + node_count_seq(s.subrange(1, s.len() as int)),
    decreases s.len(),
{
    if s.len() == 1 {
        assert(s.subrange(1, 1) =~= Seq::<Tree>::empty());
        assert(s.drop_last() =~= Seq::<Tree>::empty());
    } else {
        lemma_count_split(s.drop_last());
        assert(s.drop_last().subrange(1, s.len() - 1) =~= s.subrange(1, s.len() as int).drop_last());
    }
}

fn walk_seq(v: &Vec<Node>, from: usize, st: &mut SymTable, scope: usize)
    requires
        from <= v@.len(),
        old(st).wf(),
        scope < old(st).num_scopes(),
        hc_room(old(st)@, node_count_seq(nodes_view(v@).subrange(from as int, v@.len() as int))),
    ensures
        final(st).wf(),
        final(st).num_scopes() >= old(st).num_scopes(),
        scope == 0 ==> forall|x: Tree|
            #[trigger] final(st)@.defs[0].contains_key(x) == (old(st)@.defs[0].contains_key(x) || hc_owned_seq(
                nodes_view(v@).subrange(from as int, v@.len() as int),
                v@.len() - from,
                x,
            )),
        scope != 0 ==> final(st)@.defs[0] == old(st)@.defs[0],
        forall|m: nat|
            hc_room(old(st)@, m + node_count_seq(nodes_view(v@).subrange(from as int, v@.len() as int)))
                ==> #[trigger] hc_room(final(st)@, m),
    decreases v@,
{
    let ghost s = nodes_view(v@).subrange(from as int, v@.len() as int);
    let ghost o = st@;
    let ghost n0 = st.num_scopes();
    let mut i: usize = from;
    assert(s.subrange(0, 0) =~= Seq::<Tree>::empty());
    assert(rest_count(s, 0) == node_count_seq(s));
    proof {
        crate::walk::lemma_node_count_prefix(s, 0);
    }
    while i < v.len()
        invariant
            from <= i <= v@.len(),
            s == nodes_view(v@).subrange(from as int, v@.len() as int),
            st.wf(),
            scope < n0 <= st.num_scopes(),
            scope == 0 ==> forall|x: Tree|
                #[trigger] st@.defs[0].contains_key(x) == (o.defs[0].contains_key(x) || hc_owned_seq(
                    s,
                    i - from,
                    x,
                )),
            scope != 0 ==> st@.defs[0] == o.defs[0],
            node_count_seq(s.subrange(0, i - from)) <= node_count_seq(s),
            hc_room(st@, rest_count(s, i - from)),
            forall|m: nat| hc_room(o, m + node_count_seq(s)) ==> #[trigger] hc_room(st@, m + rest_count(s, i - from)),
        decreases v.len() - i,
    {
        let k = i - from;
        proof {
            lemma_prefix_step(s, k as int);
            crate::walk::lemma_node_count_prefix(s, k + 1);
        }
        assert(decreases_to!(v@ => v@[i as int]));
        assert(s[k as int] == node_view(v@[i as int]));
        let ghost before = st@;
        let ghost r1 = rest_count(s, k + 1);
        assert(rest_count(s, k as int) == r1 + node_count(s[k as int]));
        proof {
            lemma_room_mono(before, rest_count(s, k as int), node_count(s[k as int]));
        }
        intern_walk(&v[i], st, scope);
        proof {
            assert(hc_room(before, r1 + node_count(s[k as int])));
            assert(hc_room(st@, r1));
            assert forall|m: nat| hc_room(o, m + node_count_seq(s)) implies #[trigger] hc_room(
                st@,
                m + rest_count(s, k + 1),
            ) by {
                assert(hc_room(before, m + rest_count(s, k as int)));
                assert(hc_room(before, (m + r1) + node_count(s[k as int])));
            }
        }
        i += 1;
    }
    proof {
        assert(s.subrange(0, s.len() as int) =~= s);
        assert(rest_count(s, s.len() as int) == 0);
        assert forall|m: nat| hc_room(o, m + node_count_seq(s)) implies #[trigger] hc_room(st@, m) by {
            assert(hc_room(st@, m + rest_count(s, s.len() as int)));
        }
    }
}

/// Interns every sub-expression of `e` in preorder: `e` itself in `scope`,
/// If branches, the lazy operands of `&&` and `||` and lambda bodies each
/// in a new child scope, the rest in `scope`.
pub fn intern_walk(e: &Node, st: &mut SymTable, scope: usize)
    requires
        old(st).wf(),
        scope < old(st).num_scopes(),
        hc_room(old(st)@, node_count(e@)),
    ensures
        final(st).wf(),
        final(st).num_scopes() >= old(st).num_scopes(),
        scope == 0 ==> forall|x: Tree|
            #[trigger] final(st)@.defs[0].contains_key(x) == (old(st)@.defs[0].contains_key(x) || hc_owned(e@, x)),
        scope != 0 ==> final(st)@.defs[0] == old(st)@.defs[0],
        forall|m: nat| hc_room(old(st)@, m + node_count(e@)) ==> #[trigger] hc_room(final(st)@, m),
    decreases e,
{
    let ghost o = st@;
    proof {
        st.lemma_wf_facts();
        crate::walk::lemma_children_count(e@);
    }
    let _ = st.find_or_intern(e, scope);
    let ghost a = st@;
    proof {
        st.lemma_wf_facts();
        assert forall|m: nat| hc_room(o, m + 1) implies #[trigger] hc_room(a, m) by {
            assert(o.next + m + 1 < u32::MAX);
            assert forall|c: u32| #[trigger] a.counts.contains_key(c) implies a.counts[c] + m < u32::MAX by {
                if o.counts.contains_key(c) {
                    assert(o.counts[c] + m + 1 < u32::MAX);
                }
            }
        }
        if scope == 0 {
            assert(lookup(o.parents, o.defs, e@, 0) == if o.defs[0].contains_key(e@) {
                Some(o.defs[0][e@])
            } else {
                None::<u32>
            });
        }
    }
    match e {
        Node::If { cond, then_branch, else_branch } => {
            assert(e@ == Tree::If {
                cond: Box::new(node_view(**cond)),
                then_branch: Box::new(node_view(**then_branch)),
                else_branch: Box::new(node_view(**else_branch)),
            });
            let ghost nt = node_count(then_branch@);
            let ghost nf = node_count(else_branch@);
            let ghost nc = node_count(cond@);
            assert(hc_room(a, (nt + nf) + nc));
            proof { lemma_room_mono(a, (nt + nf) + nc, nc); }
            intern_walk(cond, st, scope);
            let ghost b = st@;
            assert(hc_room(b, nt + nf));
            proof { st.lemma_wf_facts(); lemma_room_mono(b, nt + nf, nt); }
            let s_t = st.new_scope(scope);
            let ghost b2 = st@;
            intern_walk(then_branch, st, s_t);
            let ghost c = st@;
            assert(hc_room(c, nf));
            proof { st.lemma_wf_facts(); }
            let s_f = st.new_scope(scope);
            let ghost c2 = st@;
            intern_walk(else_branch, st, s_f);
            proof {
                assert forall|m: nat| hc_room(o, m + node_count(e@)) implies #[trigger] hc_room(st@, m) by {
                    assert(hc_room(a, ((m + nf) + nt) + nc));
                    assert(hc_room(b, (m + nf) + nt));
                    assert(hc_room(b2, (m + nf) + nt));
                    assert(hc_room(c, m + nf));
                    assert(hc_room(c2, m + nf));
                }
            }
        },
        Node::Func { args, body } => {
            assert(e@ == Tree::Func { args: args@, body: Box::new(node_view(**body)) });
            let s_b = st.new_scope(scope);
            intern_walk(body, st, s_b);
        },
        Node::ValDef { id, rhs } => {
            assert(e@ == Tree::ValDef { id: *id, rhs: Box::new(node_view(**rhs)) });
            intern_walk(rhs, st, scope);
        },
        Node::ValUse { .. } => {},
        Node::Block { items, result } => {
            assert(e@ == Tree::Block { items: nodes_view(items@), result: Box::new(node_view(**result)) });
            assert(nodes_view(items@).subrange(0, items@.len() as int) =~= nodes_view(items@));
            walk_seq(items, 0, st, scope);
            let ghost b = st@;
            intern_walk(result, st, scope);
            proof {
                assert forall|m: nat| hc_room(o, m + node_count(e@)) implies #[trigger] hc_room(st@, m) by {
                    assert(hc_room(a, m + node_count(result@) + node_count_seq(nodes_view(items@))));
                    assert(hc_room(b, m + node_count(result@)));
                }
            }
        },
        Node::Op { kind, payload, children } => {
            assert(e@ == Tree::Op { kind: *kind, payload: *payload, children: nodes_view(children@) });
            if *kind == OpKind::BinOp && (*payload == BIN_AND || *payload == BIN_OR) && children.len() > 0 {
                assert(nodes_view(children@)[0] == node_view(children@[0]));
                intern_walk(&children[0], st, scope);
                let ghost b = st@;
                proof { st.lemma_wf_facts(); }
                proof {
                    lemma_count_split(nodes_view(children@));
                    let cs = nodes_view(children@);
                    let rest = node_count_seq(cs.subrange(1, cs.len() as int));
                    assert(hc_room(a, rest + node_count(cs[0])));
                    assert(hc_room(b, rest));
                }
                let s_r = st.new_scope(scope);
                let ghost c = st@;
                walk_seq(children, 1, st, s_r);
                proof {
                    let cs = nodes_view(children@);
                    let rest = node_count_seq(cs.subrange(1, cs.len() as int));
                    assert forall|m: nat| hc_room(o, m + node_count(e@)) implies #[trigger] hc_room(st@, m) by {
                        assert(hc_room(a, m + rest + node_count(cs[0])));
                        assert(hc_room(b, m + rest));
                        assert(hc_room(c, m + rest));
                    }
                }
            } else {
                assert(nodes_view(children@).subrange(0, children@.len() as int) =~= nodes_view(children@));
                walk_seq(children, 0, st, scope);
            }
        },
    }
}


/// A tuple or collection whose leaves are all constants or constant
/// placeholders, or such a constant itself.
pub open spec fn pure_const_shape(t: Tree) -> bool
    decreases t,
{
    match t {
        Tree::Op { kind, children, .. } => if kind == OpKind::Const || kind == OpKind::ConstPlaceholder {
            true
        } else if kind == OpKind::Tuple || kind == OpKind::Collection {
            pure_const_seq(children, children.len() as int)
        } else {
            false
        },
        _ => false,
    }
}

pub open spec fn pure_const_seq(s: Seq<Tree>, k: int) -> bool
    decreases s, k,
{
    if k <= 0 || k > s.len() {
        true
    } else {
        pure_const_seq(s, k - 1) && pure_const_shape(s[k - 1])
    }
}

fn pure_vec(v: &Vec<Node>) -> (r: bool)
    ensures
        r == pure_const_seq(nodes_view(v@), v@.len() as int),
    decreases v@,
{
    let ghost cs = nodes_view(v@);
    let mut i: usize = 0;
    while i < v.len()
        invariant
            0 <= i <= v@.len(),
            cs == nodes_view(v@),
            pure_const_seq(cs, i as int),
        decreases v.len() - i,
    {
        assert(decreases_to!(v@ => v@[i as int]));
        assert(cs[i as int] == node_view(v@[i as int]));
        if !is_pure_const_shape(&v[i]) {
            proof {
                assert(!pure_const_seq(cs, i + 1));
                lemma_pure_prefix(cs, i + 1, cs.len() as int);
            }
            return false;
        }
        i += 1;
    }
    true
}

fn is_pure_const_shape(t: &Node) -> (r: bool)
    ensures
        r == pure_const_shape(t@),
    decreases t,
{
    match t {
        Node::Op { kind, payload, children } => {
            assert(t@ == Tree::Op { kind: *kind, payload: *payload, children: nodes_view(children@) });
            if *kind == OpKind::Const || *kind == OpKind::ConstPlaceholder {
                true
            } else if *kind == OpKind::Tuple || *kind == OpKind::Collection {
                pure_vec(children)
            } else {
                false
            }
        },
        _ => false,
    }
}

proof fn lemma_pure_prefix(s: Seq<Tree>, k: int, m: int)
    requires
        0 <= k <= m <= s.len(),
        !pure_const_seq(s, k),
    ensures
        !pure_const_seq(s, m),
    decreases m - k,
{
    if k < m {
        lemma_pure_prefix(s, k + 1, m);
    }
}

/// A scheduled node enters the environment of the hash-cons graph pass:
/// extractable, shared in the graph, with a usage count of at least two,
/// not referring to a branch-local id, and first built in the pass's own
/// scope; at the root also a node visible in the main scope, a pure
/// constant aggregate, or a field selection of a shared input that occurs
/// outside If branches or in two top-level containers.
pub open spec fn hc_admits(
    node: Tree,
    expr: Tree,
    dag: Seq<(Tree, usize)>,
    mode: ScopeMode,
    ops: Seq<u32>,
    big: u32,
) -> bool {
    &&& extractable(node, ops, big)
    &&& graph_shared(node)
    &&& first_count(dag, node) >= 2
    &&& !refers_to(node, branch_locals(expr))
    &&& (hc_owned(expr, node) || (mode == ScopeMode::Root && (in_main_scope(expr, node, false, false)
        || pure_const_shape(node) || (select_on_shared(node, dag) && (outside_if(expr, node, false)
        || containing_count(top_containers(expr), node) >= 2)))))
}

/// The environment of the hash-cons graph pass from the first `k`
/// scheduled nodes: each admitted node with the next id from `next0`.
pub open spec fn hc_env(
    schedule: Seq<Tree>,
    k: int,
    expr: Tree,
    dag: Seq<(Tree, usize)>,
    mode: ScopeMode,
    ops: Seq<u32>,
    big: u32,
    next0: nat,
) -> Seq<(Tree, u32)>
    decreases k,
{
    if k <= 0 || k > schedule.len() {
        Seq::empty()
    } else {
        let e = hc_env(schedule, k - 1, expr, dag, mode, ops, big, next0);
        if hc_admits(schedule[k - 1], expr, dag, mode, ops, big) {
            e.push((schedule[k - 1], (next0 + e.len()) as u32))
        } else {
            e
        }
    }
}

/// The full environment of the hash-cons graph pass over `expr`.
pub open spec fn hc_full_env(
    expr: Tree,
    global_max_id: u32,
    dag: Seq<(Tree, usize)>,
    schedule: Seq<Tree>,
    mode: ScopeMode,
    ops: Seq<u32>,
    big: u32,
) -> Seq<(Tree, u32)> {
    hc_env(schedule, schedule.len() as int, expr, dag, mode, ops, big, graph_next0(expr, global_max_id))
}

proof fn lemma_hc_env_mono(
    schedule: Seq<Tree>,
    k: int,
    m: int,
    expr: Tree,
    dag: Seq<(Tree, usize)>,
    mode: ScopeMode,
    ops: Seq<u32>,
    big: u32,
    next0: nat,
)
    requires
        0 <= k <= m <= schedule.len(),
    ensures
        hc_env(schedule, k, expr, dag, mode, ops, big, next0).len() <= hc_env(
            schedule,
            m,
            expr,
            dag,
            mode,
            ops,
            big,
            next0,
        ).len(),
    decreases m - k,
{
    if k < m {
        lemma_hc_env_mono(schedule, k, m - 1, expr, dag, mode, ops, big, next0);
    }
}

/// What the hash-cons graph pass over `expr` computes fits its machine
/// integers: the tree's size, the ids it hands out, and the lambda rescue.
pub open spec fn hc_pass_ok(
    expr: Tree,
    global_max_id: u32,
    dag: Seq<(Tree, usize)>,
    schedule: Seq<Tree>,
    mode: ScopeMode,
    ops: Seq<u32>,
    big: u32,
) -> bool {
    let env = hc_full_env(expr, global_max_id, dag, schedule, mode, ops, big);
    &&& node_count(expr) < u32::MAX
    &&& graph_next0(expr, global_max_id) + env.len() <= u32::MAX
    &&& (apply_env(expr, env, 0, Seq::empty(), ops).1.len() > 0 ==> env_rescue(expr, env, ops, big).1)
}

/// The hash-cons graph pass over `expr`: `graph_from_env` with the
/// environment of `hc_full_env`.
pub open spec fn hc_processed(
    expr: Tree,
    global_max_id: u32,
    dag: Seq<(Tree, usize)>,
    schedule: Seq<Tree>,
    mode: ScopeMode,
    ops: Seq<u32>,
    big: u32,
) -> Tree {
    graph_from_env(expr, hc_full_env(expr, global_max_id, dag, schedule, mode, ops, big), ops, big)
}

fn hc_admits_exec(
    node: &Node,
    expr: &Node,
    dag: &Vec<(Node, usize)>,
    locals: &HashSet<u32>,
    st: &SymTable,
    mode: ScopeMode,
    tags: &TypeTags,
) -> (r: bool)
    requires
        locals@ == branch_locals(expr@),
        st.wf(),
        st.num_scopes() >= 1,
        forall|x: Tree| #[trigger] st@.defs[0].contains_key(x) == hc_owned(expr@, x),
    ensures
        r == hc_admits(node@, expr@, pairs_view(dag@), mode, tags.op_types@, tags.big_int),
{
    if !is_extractable(node, tags) {
        return false;
    }
    if !is_graph_shared(node) {
        return false;
    }
    let sl = dag.as_slice();
    assert(sl@ == dag@);
    if alias_count_for(node, sl) < 2 {
        return false;
    }
    if references_locally_defined(node, locals) {
        return false;
    }
    proof {
        st.lemma_wf_facts();
        assert(lookup(st@.parents, st@.defs, node@, 0) == if st@.defs[0].contains_key(node@) {
            Some(st@.defs[0][node@])
        } else {
            None::<u32>
        });
    }
    let owned = st.find(node, 0).is_some();
    if owned {
        return true;
    }
    match mode {
        ScopeMode::Root => {
            appears_in_main_scope(expr, node) || is_pure_const_shape(node) || (is_select_on_shared(node, dag)
                && (appears_outside_if_branches(expr, node) || count_distinct_top_level_containers(expr, node)
                >= 2))
        },
        ScopeMode::Branch => false,
    }
}

/// The graph pass whose scope gate is a hash-cons walk: every
/// sub-expression of `expr` is interned in a scoped table (If branches,
/// lazy operands and lambda bodies in child scopes), and a scheduled node
/// is extracted at this scope when it was built in the root scope of that
/// walk, with the fallbacks of `hc_admits` at the root; then the tail of
/// `graph_from_env`. The tree's size must stay below `u32::MAX`, and the
/// ids and the lambda rescue must fit.
pub fn process_ast_graph_hash_cons(
    expr: Node,
    global_max_id: u32,
    dag_usages: Vec<(Node, usize)>,
    schedule: Vec<Node>,
    mode: ScopeMode,
    tags: &TypeTags,
) -> (r: Node)
    requires
        hc_pass_ok(expr@, global_max_id, pairs_view(dag_usages@), nodes_view(schedule@), mode, tags.op_types@, tags.big_int),
    ensures
        r@ == hc_processed(
            expr@,
            global_max_id,
            pairs_view(dag_usages@),
            nodes_view(schedule@),
            mode,
            tags.op_types@,
            tags.big_int,
        ),
{
    let ghost t = expr@;
    let ghost ops = tags.op_types@;
    let ghost big = tags.big_int;
    let ghost dag = pairs_view(dag_usages@);
    let ghost sch = nodes_view(schedule@);
    let ghost next0 = graph_next0(t, global_max_id);
    let ghost full = hc_env(sch, sch.len() as int, t, dag, mode, ops, big, next0);
    let mut st = SymTable::new();
    proof {
        lemma_room_of_new(st@, node_count(t));
    }
    intern_walk(&expr, &mut st, 0);
    assert(forall|x: Tree| #[trigger] st@.defs[0].contains_key(x) == hc_owned(t, x));
    let locals = collect_branch_local_val_ids(&expr);
    assert(locals@ == branch_locals(t));
    let m = find_max_val_id(&expr);
    proof {
        let c = choose|r: u32| max_id_is(t, r);
        assert(max_id_is(t, m));
        lemma_max_id_unique(t, c, m);
    }
    let base = if m >= global_max_id {
        m
    } else {
        global_max_id
    };
    let mut next_id = base + 1;
    let mut env: Vec<(Node, u32)> = Vec::new();
    let mut i: usize = 0;
    while i < schedule.len()
        invariant
            0 <= i <= schedule@.len(),
            sch == nodes_view(schedule@),
            dag == pairs_view(dag_usages@),
            ops == tags.op_types@,
            big == tags.big_int,
            locals@ == branch_locals(t),
            t == expr@,
            st.wf(),
            st.num_scopes() >= 1,
            forall|x: Tree| #[trigger] st@.defs[0].contains_key(x) == hc_owned(t, x),
            full == hc_env(sch, sch.len() as int, t, dag, mode, ops, big, next0),
            next0 + full.len() <= u32::MAX,
            pairs_view(env@) == hc_env(sch, i as int, t, dag, mode, ops, big, next0),
            next_id as nat == next0 + env@.len(),
            forall|j: int| 0 <= j < env@.len() ==> #[trigger] env@[j].1 as nat == next0 + j,
        decreases schedule.len() - i,
    {
        assert(sch[i as int] == node_view(schedule@[i as int]));
        if hc_admits_exec(&schedule[i], &expr, &dag_usages, &locals, &st, mode, tags) {
            proof {
                lemma_hc_env_mono(sch, i + 1, sch.len() as int, t, dag, mode, ops, big, next0);
            }
            let ghost before = pairs_view(env@);
            env.push((clone_node(&schedule[i]), next_id));
            assert(pairs_view(env@) =~= before.push((sch[i as int], (next0 + before.len()) as u32)));
            next_id = next_id + 1;
        }
        i += 1;
    }
    proof {
        assert(pairs_view(env@) == full);
        assert forall|j: int| 0 <= j < env@.len() implies (#[trigger] env@[j]).1 < u32::MAX by {}
    }
    graph_finish(expr, env, tags)
}


/// The state of the bottom-up hash-cons walk: the scope links and
/// per-scope tables of its symbol table, the home scope and tree of each
/// symbol (symbols are numbered in the order they are made), how often
/// each symbol was met, and how many nodes were visited.
pub struct HcWalk {
    pub parents: Seq<Option<usize>>,
    pub defs: Seq<Map<Tree, u32>>,
    pub homes: Seq<usize>,
    pub exprs: Seq<Tree>,
    pub counts: Seq<nat>,
    pub visits: nat,
}

/// A fresh walk state: the root scope alone, no symbol.
pub open spec fn hc_walk_init() -> HcWalk {
    HcWalk {
        parents: seq![None::<usize>],
        defs: seq![Map::<Tree, u32>::empty()],
        homes: Seq::empty(),
        exprs: Seq::empty(),
        counts: Seq::empty(),
        visits: 0,
    }
}

/// Meeting `e` in `scope`: the symbol that the scope chain binds it to is
/// counted once more; without one, a new symbol is made for it in `scope`
/// and counted once.
pub open spec fn hc_touch(v: HcWalk, e: Tree, scope: usize) -> HcWalk {
    match lookup(v.parents, v.defs, e, scope) {
        Some(id) => HcWalk {
            parents: v.parents,
            defs: v.defs,
            homes: v.homes,
            exprs: v.exprs,
            counts: v.counts.update(id as int, v.counts[id as int] + 1),
            visits: v.visits + 1,
        },
        None => HcWalk {
            parents: v.parents,
            defs: v.defs.update(scope as int, v.defs[scope as int].insert(e, v.exprs.len() as u32)),
            homes: v.homes.push(scope),
            exprs: v.exprs.push(e),
            counts: v.counts.push(1),
            visits: v.visits + 1,
        },
    }
}

/// A new child scope of `p`.
pub open spec fn hc_new_scope(v: HcWalk, p: usize) -> HcWalk {
    HcWalk {
        parents: v.parents.push(Some(p)),
        defs: v.defs.push(Map::empty()),
        homes: v.homes,
        exprs: v.exprs,
        counts: v.counts,
        visits: v.visits,
    }
}

/// The bottom-up walk of `t` in `scope`: the sub-expressions first (If
/// branches, the lazy operands of `&&` and `||` and lambda bodies in new
/// child scopes), then `t` itself is met.
pub open spec fn hc_visit(t: Tree, v: HcWalk, scope: usize) -> HcWalk
    decreases t,
{
    let w = match t {
        Tree::If { cond, then_branch, else_branch } => {
            let a = hc_visit(*cond, v, scope);
            let b = hc_visit(*then_branch, hc_new_scope(a, scope), a.parents.len() as usize);
            hc_visit(*else_branch, hc_new_scope(b, scope), b.parents.len() as usize)
        },
        Tree::Func { body, .. } => hc_visit(*body, hc_new_scope(v, scope), v.parents.len() as usize),
        Tree::ValDef { rhs, .. } => hc_visit(*rhs, v, scope),
        Tree::ValUse { .. } => v,
        Tree::Block { items, result } => hc_visit(*result, hc_visit_seq(items, 0, items.len() as int, v, scope), scope),
        Tree::Op { kind, payload, children } => if lazy_binop(kind, payload) && children.len() > 0 {
            let a = hc_visit(children[0], v, scope);
            hc_visit_seq(children, 1, children.len() as int, hc_new_scope(a, scope), a.parents.len() as usize)
        } else {
            hc_visit_seq(children, 0, children.len() as int, v, scope)
        },
    };
    hc_touch(w, t, scope)
}

/// The walk over `s[from..k]` in order, in `scope`.
pub open spec fn hc_visit_seq(s: Seq<Tree>, from: int, k: int, v: HcWalk, scope: usize) -> HcWalk
    decreases s, k,
{
    if from < 0 || k <= from || k > s.len() {
        v
    } else {
        hc_visit(s[k - 1], hc_visit_seq(s, from, k - 1, v, scope), scope)
    }
}

/// The environment of the bottom-up hash-cons pass from the first `k`
/// symbols of the walk `w` of `expr`: a symbol met at least twice, made in
/// the root scope, whose tree is extractable, shared in the graph and
/// refers to no branch-local id, with the next id from `next0`.
pub open spec fn hc2_env_upto(w: HcWalk, k: int, expr: Tree, ops: Seq<u32>, big: u32, next0: nat) -> Seq<(Tree, u32)>
    decreases k,
{
    if k <= 0 || k > w.exprs.len() {
        Seq::empty()
    } else {
        let e = hc2_env_upto(w, k - 1, expr, ops, big, next0);
        let x = w.exprs[k - 1];
        if w.counts[k - 1] >= 2 && w.homes[k - 1] == 0 && extractable(x, ops, big) && graph_shared(x)
            && !refers_to(x, branch_locals(expr)) {
            e.push((x, (next0 + e.len()) as u32))
        } else {
            e
        }
    }
}

/// The environment of the bottom-up hash-cons pass over `expr`.
pub open spec fn hc2_env(expr: Tree, global_max_id: u32, ops: Seq<u32>, big: u32) -> Seq<(Tree, u32)> {
    let w = hc_visit(expr, hc_walk_init(), 0);
    hc2_env_upto(w, w.exprs.len() as int, expr, ops, big, graph_next0(expr, global_max_id))
}

/// The exec state agrees with the walk state `v`.
pub open spec fn hc_agrees(st: &SymTable, exprs: Seq<Node>, counts: Seq<u32>, v: HcWalk) -> bool {
    &&& st.wf()
    &&& st@.parents == v.parents
    &&& st@.defs == v.defs
    &&& st@.homes == v.homes
    &&& st@.next == v.exprs.len()
    &&& exprs.len() == v.exprs.len()
    &&& forall|i: int| 0 <= i < exprs.len() ==> #[trigger] exprs[i]@ == v.exprs[i]
    &&& counts.len() == v.counts.len()
    &&& v.counts.len() == v.exprs.len()
    &&& forall|i: int| 0 <= i < counts.len() ==> #[trigger] counts[i] as nat == v.counts[i]
    &&& forall|i: int| 0 <= i < v.counts.len() ==> #[trigger] v.counts[i] <= v.visits
    &&& v.exprs.len() <= v.visits
    &&& forall|c: u32| #[trigger] st@.counts.contains_key(c) ==> st@.counts[c] <= v.visits
}

proof fn lemma_lookup_below(parents: Seq<Option<usize>>, defs: Seq<Map<Tree, u32>>, t: Tree, s: usize, n: nat)
    requires
        forall|q: int, x: Tree| 0 <= q < defs.len() && #[trigger] defs[q].contains_key(x) ==> defs[q][x] < n,
    ensures
        lookup(parents, defs, t, s) matches Some(id) ==> id < n,
    decreases s,
{
    if !(s < defs.len() && defs[s as int].contains_key(t)) && s < parents.len() {
        match parents[s as int] {
            Some(p) => if p < s {
                lemma_lookup_below(parents, defs, t, p, n);
            },
            None => {},
        }
    }
}


fn hc_touch_exec(
    e: &Node,
    st: &mut SymTable,
    scope: usize,
    exprs: &mut Vec<Node>,
    counts: &mut Vec<u32>,
    Ghost(v): Ghost<HcWalk>,
)
    requires
        hc_agrees(old(st), old(exprs)@, old(counts)@, v),
        scope < old(st).num_scopes(),
        v.visits + 1 < u32::MAX,
    ensures
        hc_agrees(final(st), final(exprs)@, final(counts)@, hc_touch(v, e@, scope)),
        final(st).num_scopes() == old(st).num_scopes(),
{
    proof {
        st.lemma_wf_facts();
        lemma_lookup_below(v.parents, v.defs, e@, scope, v.exprs.len());
    }
    let ghost o = st@;
    let (sym, is_new) = st.find_or_intern(e, scope);
    let ghost w = hc_touch(v, e@, scope);
    if is_new {
        let ghost ex = exprs@;
        let ghost cs = counts@;
        exprs.push(clone_node(e));
        counts.push(1);
        proof {
            assert forall|i: int| 0 <= i < exprs@.len() implies #[trigger] exprs@[i]@ == w.exprs[i] by {
                if i < ex.len() {
                    assert(exprs@[i] == ex[i]);
                }
            }
            assert forall|i: int| 0 <= i < counts@.len() implies #[trigger] counts@[i] as nat == w.counts[i] by {
                if i < cs.len() {
                    assert(counts@[i] == cs[i]);
                }
            }
        }
    } else {
        let c = counts[sym as usize];
        counts.set(sym as usize, c + 1);
    }
    proof {
        assert forall|c: u32| #[trigger] st@.counts.contains_key(c) implies st@.counts[c] <= w.visits by {
            if o.counts.contains_key(c) {
                assert(o.counts[c] <= v.visits);
            }
        }
    }
}

proof fn lemma_seq_count_step(s: Seq<Tree>, from: int, i: int)
    requires
        0 <= from <= i < s.len(),
    ensures
        node_count_seq(s.subrange(from, i + 1)) == node_count_seq(s.subrange(from, i)) + node_count(s[i]),
        node_count_seq(s.subrange(from, i + 1)) <= node_count_seq(s.subrange(from, s.len() as int)),
{
    assert(s.subrange(from, i + 1).drop_last() =~= s.subrange(from, i));
    let t = s.subrange(from, s.len() as int);
    crate::walk::lemma_node_count_prefix(t, i + 1 - from);
    assert(t.subrange(0, i + 1 - from) =~= s.subrange(from, i + 1));
}

fn hc_walk_seq(
    vv: &Vec<Node>,
    from: usize,
    st: &mut SymTable,
    scope: usize,
    exprs: &mut Vec<Node>,
    counts: &mut Vec<u32>,
    Ghost(v): Ghost<HcWalk>,
)
    requires
        from <= vv@.len(),
        hc_agrees(old(st), old(exprs)@, old(counts)@, v),
        scope < old(st).num_scopes(),
        v.visits + node_count_seq(nodes_view(vv@).subrange(from as int, vv@.len() as int)) < u32::MAX,
    ensures
        hc_agrees(
            final(st),
            final(exprs)@,
            final(counts)@,
            hc_visit_seq(nodes_view(vv@), from as int, vv@.len() as int, v, scope),
        ),
        hc_visit_seq(nodes_view(vv@), from as int, vv@.len() as int, v, scope).visits == v.visits
            + node_count_seq(nodes_view(vv@).subrange(from as int, vv@.len() as int)),
        final(st).num_scopes() >= old(st).num_scopes(),
    decreases vv@,
{
    let ghost s = nodes_view(vv@);
    let ghost n0 = st.num_scopes();
    let mut i: usize = from;
    assert(s.subrange(from as int, from as int) =~= Seq::<Tree>::empty());
    while i < vv.len()
        invariant
            from <= i <= vv@.len(),
            s == nodes_view(vv@),
            scope < n0 <= st.num_scopes(),
            hc_agrees(st, exprs@, counts@, hc_visit_seq(s, from as int, i as int, v, scope)),
            hc_visit_seq(s, from as int, i as int, v, scope).visits == v.visits + node_count_seq(
                s.subrange(from as int, i as int),
            ),
            v.visits + node_count_seq(s.subrange(from as int, s.len() as int)) < u32::MAX,
        decreases vv.len() - i,
    {
        proof {
            lemma_seq_count_step(s, from as int, i as int);
        }
        assert(decreases_to!(vv@ => vv@[i as int]));
        assert(s[i as int] == node_view(vv@[i as int]));
        let ghost cur = hc_visit_seq(s, from as int, i as int, v, scope);
        hc_walk(&vv[i], st, scope, exprs, counts, Ghost(cur));
        i += 1;
    }
}

fn hc_walk(
    e: &Node,
    st: &mut SymTable,
    scope: usize,
    exprs: &mut Vec<Node>,
    counts: &mut Vec<u32>,
    Ghost(v): Ghost<HcWalk>,
)
    requires
        hc_agrees(old(st), old(exprs)@, old(counts)@, v),
        scope < old(st).num_scopes(),
        v.visits + node_count(e@) < u32::MAX,
    ensures
        hc_agrees(final(st), final(exprs)@, final(counts)@, hc_visit(e@, v, scope)),
        hc_visit(e@, v, scope).visits == v.visits + node_count(e@),
        final(st).num_scopes() >= old(st).num_scopes(),
    decreases e,
{
    let ghost w: HcWalk;
    match e {
        Node::If { cond, then_branch, else_branch } => {
            assert(e@ == Tree::If {
                cond: Box::new(node_view(**cond)),
                then_branch: Box::new(node_view(**then_branch)),
                else_branch: Box::new(node_view(**else_branch)),
            });
            hc_walk(cond, st, scope, exprs, counts, Ghost(v));
            let ghost a = hc_visit(cond@, v, scope);
            let s_t = st.new_scope(scope);
            let ghost a2 = hc_new_scope(a, scope);
            hc_walk(then_branch, st, s_t, exprs, counts, Ghost(a2));
            let ghost b = hc_visit(then_branch@, a2, s_t);
            let s_f = st.new_scope(scope);
            let ghost b2 = hc_new_scope(b, scope);
            hc_walk(else_branch, st, s_f, exprs, counts, Ghost(b2));
            proof {
                w = hc_visit(else_branch@, b2, s_f);
            }
        },
        Node::Func { args, body } => {
            assert(e@ == Tree::Func { args: args@, body: Box::new(node_view(**body)) });
            let s_b = st.new_scope(scope);
            hc_walk(body, st, s_b, exprs, counts, Ghost(hc_new_scope(v, scope)));
            proof {
                w = hc_visit(body@, hc_new_scope(v, scope), s_b);
            }
        },
        Node::ValDef { id, rhs } => {
            assert(e@ == Tree::ValDef { id: *id, rhs: Box::new(node_view(**rhs)) });
            hc_walk(rhs, st, scope, exprs, counts, Ghost(v));
            proof {
                w = hc_visit(rhs@, v, scope);
            }
        },
        Node::ValUse { .. } => {
            proof {
                w = v;
            }
        },
        Node::Block { items, result } => {
            let ghost is = nodes_view(items@);
            assert(e@ == Tree::Block { items: is, result: Box::new(node_view(**result)) });
            assert(is.subrange(0, is.len() as int) =~= is);
            hc_walk_seq(items, 0, st, scope, exprs, counts, Ghost(v));
            let ghost a = hc_visit_seq(is, 0, is.len() as int, v, scope);
            hc_walk(result, st, scope, exprs, counts, Ghost(a));
            proof {
                w = hc_visit(result@, a, scope);
            }
        },
        Node::Op { kind, payload, children } => {
            let ghost cs = nodes_view(children@);
            assert(e@ == Tree::Op { kind: *kind, payload: *payload, children: cs });
            if *kind == OpKind::BinOp && (*payload == BIN_AND || *payload == BIN_OR) && children.len() > 0 {
                assert(cs[0] == node_view(children@[0]));
                proof {
                    lemma_count_split(cs);
                }
                hc_walk(&children[0], st, scope, exprs, counts, Ghost(v));
                let ghost a = hc_visit(cs[0], v, scope);
                let s_r = st.new_scope(scope);
                hc_walk_seq(children, 1, st, s_r, exprs, counts, Ghost(hc_new_scope(a, scope)));
                proof {
                    w = hc_visit_seq(cs, 1, cs.len() as int, hc_new_scope(a, scope), s_r);
                }
            } else {
                assert(cs.subrange(0, cs.len() as int) =~= cs);
                hc_walk_seq(children, 0, st, scope, exprs, counts, Ghost(v));
                proof {
                    w = hc_visit_seq(cs, 0, cs.len() as int, v, scope);
                }
            }
        },
    }
    hc_touch_exec(e, st, scope, exprs, counts, Ghost(w));
}


/// What the bottom-up hash-cons pass over `expr` computes fits its machine
/// integers: the tree's size, the ids it hands out, and the lambda rescue.
pub open spec fn hc2_pass_ok(expr: Tree, global_max_id: u32, ops: Seq<u32>, big: u32) -> bool {
    let env = hc2_env(expr, global_max_id, ops, big);
    &&& node_count(expr) + 1 < u32::MAX
    &&& graph_next0(expr, global_max_id) + env.len() <= u32::MAX
    &&& (apply_env(expr, env, 0, Seq::empty(), ops).1.len() > 0 ==> env_rescue(expr, env, ops, big).1)
}

proof fn lemma_hc2_env_len(w: HcWalk, k: int, m: int, expr: Tree, ops: Seq<u32>, big: u32, next0: nat)
    requires
        0 <= k <= m <= w.exprs.len(),
    ensures
        hc2_env_upto(w, k, expr, ops, big, next0).len() <= hc2_env_upto(w, m, expr, ops, big, next0).len(),
    decreases m - k,
{
    if k < m {
        lemma_hc2_env_len(w, k, m - 1, expr, ops, big, next0);
    }
}

/// The graph pass whose candidates come from a bottom-up hash-cons walk
/// of `expr` (the usage table and schedule handed in are not read): each
/// symbol made in the walk's root scope and met at least twice, in the
/// order the symbols were made, enters the environment when its tree is
/// extractable, shared in the graph and refers to no branch-local id;
/// then the tail of `graph_from_env`, as `hc2_env` says.
pub fn process_ast_graph_hash_cons_v2(
    expr: Node,
    global_max_id: u32,
    _dag_usages: Vec<(Node, usize)>,
    _schedule: Vec<Node>,
    mode: ScopeMode,
    tags: &TypeTags,
) -> (r: Node)
    requires
        hc2_pass_ok(expr@, global_max_id, tags.op_types@, tags.big_int),
    ensures
        r@ == graph_from_env(expr@, hc2_env(expr@, global_max_id, tags.op_types@, tags.big_int), tags.op_types@, tags.big_int),
{
    let ghost t = expr@;
    let ghost ops = tags.op_types@;
    let ghost big = tags.big_int;
    let ghost next0 = graph_next0(t, global_max_id);
    let mut st = SymTable::new();
    let mut exprs: Vec<Node> = Vec::new();
    let mut counts: Vec<u32> = Vec::new();
    proof {
        st.lemma_wf_facts();
        assert(st@.parents =~= hc_walk_init().parents);
        assert(st@.defs =~= hc_walk_init().defs);
        assert(st@.homes =~= hc_walk_init().homes);
    }
    hc_walk(&expr, &mut st, 0, &mut exprs, &mut counts, Ghost(hc_walk_init()));
    let ghost w = hc_visit(t, hc_walk_init(), 0);
    let ghost full = hc2_env_upto(w, w.exprs.len() as int, t, ops, big, next0);
    let locals = collect_branch_local_val_ids(&expr);
    assert(locals@ == branch_locals(t));
    let m = find_max_val_id(&expr);
    proof {
        let c = choose|r: u32| max_id_is(t, r);
        assert(max_id_is(t, m));
        lemma_max_id_unique(t, c, m);
    }
    let base = if m >= global_max_id {
        m
    } else {
        global_max_id
    };
    let mut next_id = base + 1;
    let mut env: Vec<(Node, u32)> = Vec::new();
    let mut i: usize = 0;
    while i < exprs.len()
        invariant
            0 <= i <= exprs@.len(),
            hc_agrees(&st, exprs@, counts@, w),
            ops == tags.op_types@,
            big == tags.big_int,
            locals@ == branch_locals(t),
            t == expr@,
            full == hc2_env_upto(w, w.exprs.len() as int, t, ops, big, next0),
            next0 + full.len() <= u32::MAX,
            pairs_view(env@) == hc2_env_upto(w, i as int, t, ops, big, next0),
            next_id as nat == next0 + env@.len(),
            forall|j: int| 0 <= j < env@.len() ==> #[trigger] env@[j].1 as nat == next0 + j,
        decreases exprs.len() - i,
    {
        let x = &exprs[i];
        assert(x@ == w.exprs[i as int]);
        assert(counts@[i as int] as nat == w.counts[i as int]);
        let home = st.scope_of(i as u32);
        let ok = counts[i] >= 2 && home == 0 && is_extractable(x, tags) && is_graph_shared(x)
            && !references_locally_defined(x, &locals);
        if ok {
            proof {
                lemma_hc2_env_len(w, i + 1, w.exprs.len() as int, t, ops, big, next0);
            }
            let ghost before = pairs_view(env@);
            env.push((clone_node(x), next_id));
            assert(pairs_view(env@) =~= before.push((w.exprs[i as int], (next0 + before.len()) as u32)));
            next_id = next_id + 1;
        }
        i += 1;
    }
    proof {
        assert(pairs_view(env@) == full);
        assert forall|j: int| 0 <= j < env@.len() implies (#[trigger] env@[j]).1 < u32::MAX by {}
    }
    graph_finish(expr, env, tags)
}

} // verus!
