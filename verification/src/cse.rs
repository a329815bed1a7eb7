use vstd::prelude::*;

use crate::assoc::pairs_view;
use crate::branch_graph::{branch_opts, branch_pass, branch_pass_ok, process_ast_graph_branch, BranchOpts};
use crate::ast_graph::{
    dag_fits, dag_table, first_operand, first_operand_of, graph_next0, has_kind, is_kind, opt_is_val_use,
    process_ast_graph, root_pass, root_pass_ok,
};
use crate::dag::{collect_subexprs, collectible, count_dag_usages, expr_type, is_collectible, subexprs, type_of, TypeTags};
use crate::extract::{lemma_max_id_unique, max_id, max_id_is};
use crate::max_id::find_max_val_id;
use crate::node::{clone_args, clone_node, node_eq, node_view, nodes_view, Node, OpKind, Tree};
use crate::reorder::{reorder_valdefs, reorderable, reordered};
use crate::rescue::{lambda_rescue_post_pass, rescue_run, rescue_savings};
use crate::single_use::{inline_single_use_vals, single_inlined};
use crate::thunk_scope::{count_in_lambda_bodies, lambda_occurrences};
use crate::topo::{topo_order, topo_order_valdefs};
use crate::walk::{
    contains_func_value, contains_val_use, count_occurrences, depth, expr_depth, has_lambda, has_val_use,
    lemma_replaced_count, node_count, occurrences, replace_all, replaced,
};

use crate::hash_cons::HashCons;

verus! {

/// Number of entries of `s` equal to `x`.
pub open spec fn count_in(s: Seq<Tree>, x: Tree) -> nat
    decreases s.len(),
{
    if s.len() == 0 {
        0
    } else {
        count_in(s.drop_last(), x) + if s.last() == x {
            1nat
        } else {
            0nat
        }
    }
}

/// A usage-table entry a lambda scope may extract: used twice in the
/// graph, collectible, and found twice among the candidates `subs`.
pub open spec fn scope_eligible(entry: (Tree, usize), subs: Seq<Tree>, ops: Seq<u32>, big: u32) -> bool {
    &&& entry.1 >= 2
    &&& collectible(entry.0, ops, big)
    &&& count_in(subs, entry.0) >= 2
}

/// The best of the first `k` table entries for a lambda scope: position,
/// saving and depth of the first eligible entry of greatest saving, a
/// tie going to the shallower one.
pub open spec fn scope_best_upto(
    table: Seq<(Tree, usize)>,
    k: int,
    subs: Seq<Tree>,
    ops: Seq<u32>,
    big: u32,
) -> Option<(int, int, nat)>
    decreases k,
{
    if k <= 0 || k > table.len() {
        None
    } else {
        let b = scope_best_upto(table, k - 1, subs, ops, big);
        let c = table[k - 1].0;
        if scope_eligible(table[k - 1], subs, ops, big) {
            let s = rescue_savings(count_in(subs, c), depth(c));
            let d = depth(c);
            match b {
                None => Some((k - 1, s, d)),
                Some(p) => if s > p.1 || (s == p.1 && d < p.2) {
                    Some((k - 1, s, d))
                } else {
                    b
                },
            }
        } else {
            b
        }
    }
}

/// What a lambda-scope round computes of `result` fits its machine
/// integers: the usage counts, the tree sizes, and the savings in `i32`.
pub open spec fn lam_fits(result: Tree, ops: Seq<u32>, big: u32) -> bool {
    let table = dag_table(result, ops, big, false);
    let subs = subexprs(result, ops, big, false);
    &&& dag_fits(result, ops, big)
    &&& node_count(result) <= usize::MAX
    &&& forall|j: int| 0 <= j < table.len() ==> node_count(#[trigger] table[j].0) <= usize::MAX
    &&& forall|j: int|
        0 <= j < table.len() && scope_eligible(#[trigger] table[j], subs, ops, big) ==> {
            let t = count_in(subs, table[j].0);
            &&& (t as i32) as int - 1 >= i32::MIN
            &&& i32::MIN <= rescue_savings(t, depth(table[j].0)) <= i32::MAX
        }
}

/// One lambda-scope extraction: `cand` replaced in `result` by a ValUse of
/// the next id, and a ValDef of it added last.
pub open spec fn scope_step(st: (Seq<Tree>, Tree, nat), cand: Tree, ops: Seq<u32>) -> (Seq<Tree>, Tree, nat) {
    let u = Tree::ValUse { id: st.2 as u32, tpe: type_of(cand, ops) };
    (st.0.push(Tree::ValDef { id: st.2 as u32, rhs: Box::new(cand) }), replaced(st.1, cand, u), st.2 + 1)
}

/// The lambda-scope run from `st` (definitions, result, next id): the
/// best candidate extracted until none is left; the flag says it ran
/// without overflowing.
pub open spec fn scope_run(st: (Seq<Tree>, Tree, nat), ops: Seq<u32>, big: u32) -> (
    (Seq<Tree>, Tree, nat),
    bool,
)
    decreases u32::MAX - st.2,
{
    if !lam_fits(st.1, ops, big) {
        (st, false)
    } else {
        let table = dag_table(st.1, ops, big, false);
        match scope_best_upto(table, table.len() as int, subexprs(st.1, ops, big, false), ops, big) {
            None => (st, true),
            Some(b) => if st.2 < u32::MAX {
                scope_run(scope_step(st, table[b.0].0, ops), ops, big)
            } else {
                (st, false)
            },
        }
    }
}

/// How many entries of `subs` equal `x`, as `count_in` says.
fn count_equal(subs: &Vec<Node>, x: &Node) -> (r: usize)
    ensures
        r == count_in(nodes_view(subs@), x@),
{
    let ghost s = nodes_view(subs@);
    let mut n: usize = 0;
    let mut i: usize = 0;
    while i < subs.len()
        invariant
            0 <= i <= subs@.len(),
            s == nodes_view(subs@),
            n == count_in(s.subrange(0, i as int), x@),
            n <= i,
        decreases subs.len() - i,
    {
        assert(s.subrange(0, i + 1).drop_last() =~= s.subrange(0, i as int));
        if node_eq(&subs[i], x) {
            n = n + 1;
        }
        i += 1;
    }
    assert(s.subrange(0, s.len() as int) =~= s);
    n
}

/// The best lambda-scope candidate of `result`, as `scope_best_upto` says.
fn pick_scope_best(result: &Node, tags: &TypeTags) -> (r: Option<Node>)
    requires
        lam_fits(result@, tags.op_types@, tags.big_int),
    ensures
        ({
            let table = dag_table(result@, tags.op_types@, tags.big_int, false);
            match scope_best_upto(
                table,
                table.len() as int,
                subexprs(result@, tags.op_types@, tags.big_int, false),
                tags.op_types@,
                tags.big_int,
            ) {
                None => r is None,
                Some(b) => r is Some && r.unwrap()@ == table[b.0].0,
            }
        }),
{
    let ghost ops = tags.op_types@;
    let ghost big = tags.big_int;
    let ghost hc = tags.hash_cons;
    let mut subs: Vec<Node> = Vec::new();
    collect_subexprs(result, tags, &mut subs);
    assert(nodes_view(subs@) =~= subexprs(result@, ops, big, false));
    let ghost sv = nodes_view(subs@);
    let dag = count_dag_usages(result, tags);
    let ghost table = dag_table(result@, ops, big, false);
    assert(pairs_view(dag@) =~= table);
    let mut best: Option<(usize, i32, usize)> = None;
    let mut i: usize = 0;
    while i < dag.len()
        invariant
            0 <= i <= dag@.len(),
            table == pairs_view(dag@),
            sv == nodes_view(subs@),
            sv == subexprs(result@, ops, big, false),
            table == dag_table(result@, ops, big, false),
            ops == tags.op_types@,
            big == tags.big_int,
            hc == tags.hash_cons,
            lam_fits(result@, ops, big),
            match scope_best_upto(table, i as int, sv, ops, big) {
                None => best is None,
                Some(p) => best is Some && best.unwrap().0 as int == p.0 && best.unwrap().1 as int
                    == p.1 && best.unwrap().2 as nat == p.2 && 0 <= p.0 < i,
            },
        decreases dag.len() - i,
    {
        assert(table[i as int] == (dag@[i as int].0@, dag@[i as int].1));
        let entry = &dag[i];
        if entry.1 >= 2 && is_collectible(&entry.0, tags) {
            let tc = count_equal(&subs, &entry.0);
            if tc >= 2 {
                assert(scope_eligible(table[i as int], sv, ops, big));
                assert(node_count(table[i as int].0) <= usize::MAX);
                let d = expr_depth(&entry.0);
                let di = d as i32;
                let ti = tc as i32;
                let s: i32 = (ti - 1) * di;
                let better = match best {
                    None => true,
                    Some(b) => s > b.1 || (s == b.1 && d < b.2),
                };
                if better {
                    best = Some((i, s, d));
                }
            }
        }
        i += 1;
    }
    match best {
        None => None,
        Some(b) => Some(clone_node(&dag[b.0].0)),
    }
}

/// The repeated best-candidate extraction of a lambda scope, as
/// `scope_run` says.
fn scope_loop(result: Node, next_id: u32, tags: &TypeTags) -> (r: (Vec<Node>, Node, u32))
    requires
        scope_run((Seq::empty(), result@, next_id as nat), tags.op_types@, tags.big_int).1,
    ensures
        ({
            let f = scope_run((Seq::empty(), result@, next_id as nat), tags.op_types@, tags.big_int).0;
            &&& nodes_view(r.0@) == f.0
            &&& r.1@ == f.1
            &&& r.2 as nat == f.2
        }),
{
    let ghost ops = tags.op_types@;
    let ghost big = tags.big_int;
    let ghost hc = tags.hash_cons;
    let ghost fin = scope_run((Seq::empty(), result@, next_id as nat), ops, big).0;
    let mut defs: Vec<Node> = Vec::new();
    let mut result = result;
    let mut next_id = next_id;
    assert(nodes_view(defs@) =~= Seq::<Tree>::empty());
    loop
        invariant
            ops == tags.op_types@,
            big == tags.big_int,
            hc == tags.hash_cons,
            scope_run((nodes_view(defs@), result@, next_id as nat), ops, big).1,
            scope_run((nodes_view(defs@), result@, next_id as nat), ops, big).0 == fin,
        ensures
            nodes_view(defs@) == fin.0,
            result@ == fin.1,
            next_id as nat == fin.2,
        decreases u32::MAX - next_id,
    {
        let ghost st = (nodes_view(defs@), result@, next_id as nat);
        assert(lam_fits(result@, ops, big));
        let cand = match pick_scope_best(&result, tags) {
            None => {
                assert(scope_run(st, ops, big) == (st, true));
                break;
            },
            Some(c) => c,
        };
        let vid = next_id;
        let u = Node::ValUse { id: vid, tpe: expr_type(&cand, tags) };
        result = replace_all(&result, &cand, &u);
        let ghost dv = nodes_view(defs@);
        defs.push(Node::ValDef { id: vid, rhs: Box::new(cand) });
        assert(nodes_view(defs@) =~= dv.push(Tree::ValDef { id: vid, rhs: Box::new(cand@) }));
        next_id = next_id + 1;
        assert((nodes_view(defs@), result@, next_id as nat) == scope_step(st, cand@, ops));
    }
    (defs, result, next_id)
}


/// The larger of two ids.
pub open spec fn max_or(a: u32, b: u32) -> u32 {
    if a >= b {
        a
    } else {
        b
    }
}

/// The largest id of `expr`, as `max_id` says.
fn max_id_of(expr: &Node) -> (r: u32)
    ensures
        r == max_id(expr@),
{
    let m = find_max_val_id(expr);
    proof {
        let c = choose|r: u32| max_id_is(expr@, r);
        assert(max_id_is(expr@, m));
        lemma_max_id_unique(expr@, c, m);
    }
    m
}

/// New definitions put in front of the items of `result` when it is a
/// block, or a block of them around `result` otherwise.
pub open spec fn wrap_defs(defs: Seq<Tree>, result: Tree) -> Tree {
    match result {
        Tree::Block { items, result } => Tree::Block { items: defs + items, result },
        other => Tree::Block { items: defs, result: Box::new(other) },
    }
}

/// As `wrap_defs`, with the items then in dependency order.
pub open spec fn attach_ordered(defs: Seq<Tree>, result: Tree) -> Tree {
    match result {
        Tree::Block { items, result } => Tree::Block { items: topo_order(defs + items), result },
        other => Tree::Block { items: topo_order(defs), result: Box::new(other) },
    }
}

/// The extraction inside a lambda body `e`: the best candidates extracted
/// one by one (ids from two past the largest of `e`'s ids and
/// `global_max_id`), their ValDefs put in front, single-use values inlined
/// and the ValDefs put in dependency order. The flag says it ran without
/// overflowing.
pub open spec fn lambda_scope_cse(e: Tree, global_max_id: u32, ops: Seq<u32>, big: u32) -> (Tree, bool) {
    let n0 = max_or(max_id(e), global_max_id) as nat + 2;
    if n0 > u32::MAX {
        (e, false)
    } else {
        let run = scope_run((Seq::empty(), e, n0), ops, big);
        if !run.1 {
            (e, false)
        } else if run.0.0.len() == 0 {
            (run.0.1, true)
        } else {
            let s = single_inlined(wrap_defs(run.0.0, run.0.1), ops);
            (reordered(s), reorderable(s))
        }
    }
}

/// A field selection or a size taken directly of a ValUse.
pub open spec fn root_bound_unary(t: Tree) -> bool {
    (is_kind(t, OpKind::SelectField) || is_kind(t, OpKind::SizeOf)) && opt_is_val_use(first_operand(t))
}

/// A usage-table entry the root extraction of a tree with lambdas takes:
/// used twice in the graph, collectible, found twice among the candidates
/// `subs`, and, if it holds a ValUse, a selection or size of a ValUse that
/// no lambda body of `e` holds.
pub open spec fn root_eligible(entry: (Tree, usize), e: Tree, subs: Seq<Tree>, ops: Seq<u32>, big: u32) -> bool {
    &&& entry.1 >= 2
    &&& collectible(entry.0, ops, big)
    &&& (has_val_use(entry.0) ==> root_bound_unary(entry.0) && lambda_occurrences(e, entry.0) == 0)
    &&& count_in(subs, entry.0) >= 2
}

/// The eligible entries among the first `k` of `table`, each with how
/// often it is found among the candidates, in table order.
pub open spec fn root_cands(
    table: Seq<(Tree, usize)>,
    k: int,
    e: Tree,
    subs: Seq<Tree>,
    ops: Seq<u32>,
    big: u32,
) -> Seq<(Tree, nat)>
    decreases k,
{
    if k <= 0 || k > table.len() {
        Seq::empty()
    } else {
        let r = root_cands(table, k - 1, e, subs, ops, big);
        if root_eligible(table[k - 1], e, subs, ops, big) {
            r.push((table[k - 1].0, count_in(subs, table[k - 1].0)))
        } else {
            r
        }
    }
}

/// The saving of a candidate: `(count - 1) * depth`, in `i32`.
pub open spec fn cand_savings(c: (Tree, nat)) -> int {
    rescue_savings(c.1, depth(c.0))
}

/// `x` put into `sorted` after every entry with a saving at least its own.
pub open spec fn insert_by_savings(sorted: Seq<(Tree, nat)>, x: (Tree, nat)) -> Seq<(Tree, nat)>
    decreases sorted.len(),
{
    if sorted.len() == 0 {
        seq![x]
    } else if cand_savings(sorted.last()) >= cand_savings(x) {
        sorted.push(x)
    } else {
        insert_by_savings(sorted.drop_last(), x).push(sorted.last())
    }
}

/// The candidates by decreasing saving, equal savings in their order.
pub open spec fn sort_by_savings(s: Seq<(Tree, nat)>) -> Seq<(Tree, nat)>
    decreases s.len(),
{
    if s.len() == 0 {
        s
    } else {
        insert_by_savings(sort_by_savings(s.drop_last()), s.last())
    }
}

/// The extractions over the first `k` sorted candidates: one still
/// occurring twice in the result is extracted as `scope_step` says.
pub open spec fn root_fold(sorted: Seq<(Tree, nat)>, k: int, st0: (Seq<Tree>, Tree, nat), ops: Seq<u32>) -> (
    Seq<Tree>,
    Tree,
    nat,
)
    decreases k,
{
    if k <= 0 || k > sorted.len() {
        st0
    } else {
        let st = root_fold(sorted, k - 1, st0, ops);
        if occurrences(st.1, sorted[k - 1].0) >= 2 {
            scope_step(st, sorted[k - 1].0, ops)
        } else {
            st
        }
    }
}

/// What the root extraction of a tree with lambdas computes of `e` fits
/// its machine integers.
pub open spec fn root_lam_fits(e: Tree, ops: Seq<u32>, big: u32) -> bool {
    let table = dag_table(e, ops, big, false);
    let subs = subexprs(e, ops, big, false);
    &&& dag_fits(e, ops, big)
    &&& node_count(e) <= usize::MAX
    &&& forall|j: int| 0 <= j < table.len() ==> node_count(#[trigger] table[j].0) <= usize::MAX
    &&& forall|j: int|
        0 <= j < table.len() && root_eligible(#[trigger] table[j], e, subs, ops, big) ==> {
            let t = count_in(subs, table[j].0);
            &&& (t as i32) as int - 1 >= i32::MIN
            &&& i32::MIN <= rescue_savings(t, depth(table[j].0)) <= i32::MAX
        }
}

/// The root extraction of a tree `e` that holds lambdas: the eligible
/// candidates by decreasing saving, each still occurring twice extracted
/// with the next id (from one past the largest of `e`'s ids and
/// `global_max_id`), then the lambda rescue, and the ValDefs put in front
/// in dependency order. The flag says it ran without overflowing.
pub open spec fn root_lam_cse(e: Tree, global_max_id: u32, ops: Seq<u32>, big: u32) -> (Tree, bool) {
    let table = dag_table(e, ops, big, false);
    let subs = subexprs(e, ops, big, false);
    let cands = root_cands(table, table.len() as int, e, subs, ops, big);
    if !root_lam_fits(e, ops, big) {
        (e, false)
    } else if cands.len() == 0 {
        (e, true)
    } else {
        let sorted = sort_by_savings(cands);
        let f = root_fold(sorted, sorted.len() as int, (Seq::empty(), e, graph_next0(e, global_max_id)), ops);
        if f.2 > u32::MAX {
            (e, false)
        } else if f.0.len() == 0 {
            (f.1, true)
        } else {
            let r = rescue_run(f, ops, big);
            (attach_ordered(r.0.0, r.0.1), r.1)
        }
    }
}

/// Operator kinds whose operands the lambda pass walks into.
pub open spec fn lam_walked_kind(k: OpKind) -> bool {
    match k {
        OpKind::BinOp | OpKind::BoolToSigmaProp | OpKind::Filter | OpKind::Exists | OpKind::ForAll
        | OpKind::SizeOf | OpKind::ExtractAmount | OpKind::PropertyCall | OpKind::Slice | OpKind::Fold
        | OpKind::SigmaAnd | OpKind::SigmaOr => true,
        _ => false,
    }
}

fn is_lam_walked_kind(k: OpKind) -> (r: bool)
    ensures
        r == lam_walked_kind(k),
{
    match k {
        OpKind::BinOp | OpKind::BoolToSigmaProp | OpKind::Filter | OpKind::Exists | OpKind::ForAll
        | OpKind::SizeOf | OpKind::ExtractAmount | OpKind::PropertyCall | OpKind::Slice | OpKind::Fold
        | OpKind::SigmaAnd | OpKind::SigmaOr => true,
        _ => false,
    }
}

/// The CSE of `t`: its lambdas first (see `lambdas_spec`); then, inside a
/// lambda body, `lambda_scope_cse`; at the top of a tree that still holds
/// a lambda, `root_lam_cse`; otherwise the root graph pass. The flag says
/// it ran without overflowing.
pub open spec fn cse_spec(t: Tree, global_max_id: u32, lam: bool, ops: Seq<u32>, big: u32, hc: HashCons) -> (Tree, bool)
    decreases t, 2int,
{
    let p = lambdas_spec(t, global_max_id, ops, big, hc);
    if !p.2 {
        (p.0, false)
    } else if lam {
        lambda_scope_cse(p.0, global_max_id, ops, big)
    } else if has_lambda(p.0) {
        root_lam_cse(p.0, global_max_id, ops, big)
    } else {
        (root_pass(p.0, global_max_id, ops, big, hc), root_pass_ok(p.0, global_max_id, ops, big, hc))
    }
}

/// The lambda pass: each FuncValue reached through ValDefs, blocks, Ifs
/// and the operands of `lam_walked_kind` operators gets its body through
/// `cse_spec` as a lambda scope with the running id `gid`, which then
/// rises to the largest id of that body. The result, the final running
/// id, and whether it ran without overflowing.
pub open spec fn lambdas_spec(t: Tree, gid: u32, ops: Seq<u32>, big: u32, hc: HashCons) -> (Tree, u32, bool)
    decreases t, 1int,
{
    match t {
        Tree::Func { args, body } => {
            let b = cse_spec(*body, gid, true, ops, big, hc);
            (Tree::Func { args, body: Box::new(b.0) }, max_or(max_id(b.0), gid), b.1)
        },
        Tree::ValDef { id, rhs } => {
            let r = lambdas_spec(*rhs, gid, ops, big, hc);
            (Tree::ValDef { id, rhs: Box::new(r.0) }, r.1, r.2)
        },
        Tree::Block { items, result } => {
            let a = lambdas_seq(items, items.len() as int, gid, ops, big, hc);
            let r = lambdas_spec(*result, a.1, ops, big, hc);
            (Tree::Block { items: a.0, result: Box::new(r.0) }, r.1, a.2 && r.2)
        },
        Tree::If { cond, then_branch, else_branch } => {
            let c = lambdas_spec(*cond, gid, ops, big, hc);
            let x = lambdas_spec(*then_branch, c.1, ops, big, hc);
            let y = lambdas_spec(*else_branch, x.1, ops, big, hc);
            (
                Tree::If { cond: Box::new(c.0), then_branch: Box::new(x.0), else_branch: Box::new(y.0) },
                y.1,
                c.2 && x.2 && y.2,
            )
        },
        Tree::Op { kind, payload, children } => if lam_walked_kind(kind) {
            let a = lambdas_seq(children, children.len() as int, gid, ops, big, hc);
            (Tree::Op { kind, payload, children: a.0 }, a.1, a.2)
        } else {
            (t, gid, true)
        },
        Tree::ValUse { .. } => (t, gid, true),
    }
}

/// The lambda pass over the first `k` of `s`, in order, threading the
/// running id.
pub open spec fn lambdas_seq(s: Seq<Tree>, k: int, gid: u32, ops: Seq<u32>, big: u32, hc: HashCons) -> (Seq<Tree>, u32, bool)
    decreases s, k,
{
    if k <= 0 || k > s.len() {
        (Seq::empty(), gid, true)
    } else {
        let a = lambdas_seq(s, k - 1, gid, ops, big, hc);
        let b = lambdas_spec(s[k - 1], a.1, ops, big, hc);
        (a.0.push(b.0), b.1, a.2 && b.2)
    }
}


/// The extraction inside a lambda body, as `lambda_scope_cse` says.
fn lambda_scope_pass(e: Node, global_max_id: u32, tags: &TypeTags) -> (r: Node)
    requires
        lambda_scope_cse(e@, global_max_id, tags.op_types@, tags.big_int).1,
    ensures
        r@ == lambda_scope_cse(e@, global_max_id, tags.op_types@, tags.big_int).0,
{
    let m = max_id_of(&e);
    let base = if m >= global_max_id {
        m
    } else {
        global_max_id
    };
    let start = base + 2;
    let ghost e0 = e@;
    let (defs, result, _) = scope_loop(e, start, tags);
    if defs.len() == 0 {
        return result;
    }
    let ghost dv = nodes_view(defs@);
    let wrapped = match result {
        Node::Block { items, result } => {
            let mut all = defs;
            let mut rest = items;
            let ghost b = nodes_view(rest@);
            all.append(&mut rest);
            assert(nodes_view(all@) =~= dv + b);
            Node::Block { items: all, result }
        },
        other => Node::Block { items: defs, result: Box::new(other) },
    };
    let s = inline_single_use_vals(wrapped, tags);
    reorder_valdefs(s)
}


/// A candidate with its count and saving, as the root extraction holds it.
pub open spec fn cands_view(v: Seq<(Node, usize, i32)>) -> Seq<(Tree, nat)> {
    Seq::new(v.len(), |i: int| (v[i].0@, v[i].1 as nat))
}

/// Whether a node is a field selection or size of a ValUse, as
/// `root_bound_unary` says.
fn is_root_bound_unary(t: &Node) -> (r: bool)
    ensures
        r == root_bound_unary(t@),
{
    (has_kind(t, OpKind::SelectField) || has_kind(t, OpKind::SizeOf)) && match first_operand_of(t) {
        Some(x) => match x {
            Node::ValUse { .. } => true,
            _ => false,
        },
        None => false,
    }
}

/// The eligible candidates of `e` with counts and savings, as `root_cands`
/// and `cand_savings` say.
fn root_candidates(e: &Node, tags: &TypeTags) -> (r: Vec<(Node, usize, i32)>)
    requires
        root_lam_fits(e@, tags.op_types@, tags.big_int),
    ensures
        ({
            let table = dag_table(e@, tags.op_types@, tags.big_int, false);
            cands_view(r@) == root_cands(
                table,
                table.len() as int,
                e@,
                subexprs(e@, tags.op_types@, tags.big_int, false),
                tags.op_types@,
                tags.big_int,
            )
        }),
        forall|j: int| 0 <= j < r@.len() ==> (#[trigger] r@[j]).2 as int == cand_savings(cands_view(r@)[j]),
{
    let ghost ops = tags.op_types@;
    let ghost big = tags.big_int;
    let ghost hc = tags.hash_cons;
    let mut subs: Vec<Node> = Vec::new();
    collect_subexprs(e, tags, &mut subs);
    assert(nodes_view(subs@) =~= subexprs(e@, ops, big, false));
    let ghost sv = nodes_view(subs@);
    let dag = count_dag_usages(e, tags);
    let ghost table = dag_table(e@, ops, big, false);
    assert(pairs_view(dag@) =~= table);
    let mut out: Vec<(Node, usize, i32)> = Vec::new();
    let mut i: usize = 0;
    assert(cands_view(out@) =~= Seq::<(Tree, nat)>::empty());
    while i < dag.len()
        invariant
            0 <= i <= dag@.len(),
            table == pairs_view(dag@),
            sv == nodes_view(subs@),
            sv == subexprs(e@, ops, big, false),
            table == dag_table(e@, ops, big, false),
            ops == tags.op_types@,
            big == tags.big_int,
            hc == tags.hash_cons,
            root_lam_fits(e@, ops, big),
            cands_view(out@) == root_cands(table, i as int, e@, sv, ops, big),
            forall|j: int| 0 <= j < out@.len() ==> (#[trigger] out@[j]).2 as int == cand_savings(cands_view(out@)[j]),
        decreases dag.len() - i,
    {
        assert(table[i as int] == (dag@[i as int].0@, dag@[i as int].1));
        let entry = &dag[i];
        let mut ok = entry.1 >= 2 && is_collectible(&entry.0, tags);
        if ok && contains_val_use(&entry.0) {
            if !is_root_bound_unary(&entry.0) || count_in_lambda_bodies(e, &entry.0) > 0 {
                ok = false;
            }
        }
        let ghost before = out@;
        if ok {
            let tc = count_equal(&subs, &entry.0);
            if tc >= 2 {
                assert(root_eligible(table[i as int], e@, sv, ops, big));
                assert(node_count(table[i as int].0) <= usize::MAX);
                let d = expr_depth(&entry.0);
                let di = d as i32;
                let ti = tc as i32;
                let sav: i32 = (ti - 1) * di;
                out.push((clone_node(&entry.0), tc, sav));
                assert(cands_view(out@) =~= cands_view(before).push((table[i as int].0, count_in(sv, table[i as int].0))));
                assert forall|j: int| 0 <= j < out@.len() implies (#[trigger] out@[j]).2 as int == cand_savings(cands_view(out@)[j]) by {
                    if j < before.len() {
                        assert(out@[j] == before[j]);
                        assert(cands_view(out@)[j] == cands_view(before)[j]);
                    }
                }
            } else {
                assert(!root_eligible(table[i as int], e@, sv, ops, big));
            }
        } else {
            assert(!root_eligible(table[i as int], e@, sv, ops, big));
        }
        i += 1;
    }
    out
}

proof fn lemma_insert_at(sorted: Seq<(Tree, nat)>, x: (Tree, nat), p: int)
    requires
        0 <= p <= sorted.len(),
        forall|j: int| p <= j < sorted.len() ==> cand_savings(#[trigger] sorted[j]) < cand_savings(x),
        p == 0 || cand_savings(sorted[p - 1]) >= cand_savings(x),
    ensures
        insert_by_savings(sorted, x) == sorted.subrange(0, p).push(x) + sorted.subrange(p, sorted.len() as int),
    decreases sorted.len(),
{
    if sorted.len() == 0 {
        assert(sorted.subrange(0, p).push(x) + sorted.subrange(p, sorted.len() as int) =~= seq![x]);
    } else if cand_savings(sorted.last()) >= cand_savings(x) {
        assert(p == sorted.len());
        assert(sorted.subrange(0, p).push(x) + sorted.subrange(p, sorted.len() as int) =~= sorted.push(x));
    } else {
        let dl = sorted.drop_last();
        assert(p < sorted.len());
        lemma_insert_at(dl, x, p);
        assert(dl.subrange(0, p).push(x) + dl.subrange(p, dl.len() as int) + seq![sorted.last()]
            =~= sorted.subrange(0, p).push(x) + sorted.subrange(p, sorted.len() as int));
        assert((dl.subrange(0, p).push(x) + dl.subrange(p, dl.len() as int)).push(sorted.last())
            =~= dl.subrange(0, p).push(x) + dl.subrange(p, dl.len() as int) + seq![sorted.last()]);
    }
}

/// The candidates by decreasing saving, as `sort_by_savings` says.
fn sort_candidates(v: Vec<(Node, usize, i32)>) -> (r: Vec<(Node, usize, i32)>)
    requires
        forall|j: int| 0 <= j < v@.len() ==> (#[trigger] v@[j]).2 as int == cand_savings(cands_view(v@)[j]),
    ensures
        cands_view(r@) == sort_by_savings(cands_view(v@)),
{
    let ghost cv = cands_view(v@);
    let mut out: Vec<(Node, usize, i32)> = Vec::new();
    let mut i: usize = 0;
    assert(cv.subrange(0, 0) =~= Seq::<(Tree, nat)>::empty());
    assert(cands_view(out@) =~= Seq::<(Tree, nat)>::empty());
    while i < v.len()
        invariant
            0 <= i <= v@.len(),
            cv == cands_view(v@),
            forall|j: int| 0 <= j < v@.len() ==> (#[trigger] v@[j]).2 as int == cand_savings(cv[j]),
            cands_view(out@) == sort_by_savings(cv.subrange(0, i as int)),
            forall|j: int| 0 <= j < out@.len() ==> (#[trigger] out@[j]).2 as int == cand_savings(cands_view(out@)[j]),
        decreases v.len() - i,
    {
        let ghost ov = cands_view(out@);
        let x = (clone_node(&v[i].0), v[i].1, v[i].2);
        let ghost xv = (x.0@, x.1 as nat);
        assert(xv == cv[i as int]);
        let mut p: usize = out.len();
        while p > 0 && out[p - 1].2 < x.2
            invariant
                0 <= p <= out@.len(),
                ov == cands_view(out@),
                x.2 as int == cand_savings(xv),
                forall|j: int| 0 <= j < out@.len() ==> (#[trigger] out@[j]).2 as int == cand_savings(ov[j]),
                forall|j: int| p <= j < ov.len() ==> cand_savings(#[trigger] ov[j]) < cand_savings(xv),
            decreases p,
        {
            assert(out@[p - 1].2 as int == cand_savings(ov[p - 1]));
            p -= 1;
        }
        proof {
            if p > 0 {
                assert(out@[p - 1].2 as int == cand_savings(ov[p - 1]));
            }
            lemma_insert_at(ov, xv, p as int);
            assert(cv.subrange(0, i + 1).drop_last() =~= cv.subrange(0, i as int));
            assert(cv.subrange(0, i + 1).last() == xv);
        }
        let ghost old_out = out@;
        out.insert(p, x);
        assert(cands_view(out@) =~= ov.subrange(0, p as int).push(xv) + ov.subrange(p as int, ov.len() as int));
        assert forall|j: int| 0 <= j < out@.len() implies (#[trigger] out@[j]).2 as int == cand_savings(cands_view(out@)[j]) by {
            if j < p {
                assert(out@[j] == old_out[j]);
                assert(cands_view(out@)[j] == ov[j]);
            } else if j > p {
                assert(out@[j] == old_out[j - 1]);
                assert(cands_view(out@)[j] == ov[j - 1]);
            }
        }
        i += 1;
    }
    assert(cv.subrange(0, v@.len() as int) =~= cv);
    out
}


proof fn lemma_root_fold_next(sorted: Seq<(Tree, nat)>, k: int, m: int, st0: (Seq<Tree>, Tree, nat), ops: Seq<u32>)
    requires
        0 <= k <= m <= sorted.len(),
    ensures
        st0.2 <= root_fold(sorted, k, st0, ops).2 <= root_fold(sorted, m, st0, ops).2,
    decreases m,
{
    if m > k {
        lemma_root_fold_next(sorted, k, m - 1, st0, ops);
    } else if k > 0 {
        lemma_root_fold_next(sorted, k - 1, k - 1, st0, ops);
    }
}

/// The root extraction of a tree with lambdas, as `root_lam_cse` says.
fn root_lam_pass(e: Node, global_max_id: u32, tags: &TypeTags) -> (r: Node)
    requires
        root_lam_cse(e@, global_max_id, tags.op_types@, tags.big_int).1,
    ensures
        r@ == root_lam_cse(e@, global_max_id, tags.op_types@, tags.big_int).0,
{
    let ghost ops = tags.op_types@;
    let ghost big = tags.big_int;
    let ghost hc = tags.hash_cons;
    let ghost e0 = e@;
    let cands = root_candidates(&e, tags);
    if cands.len() == 0 {
        return e;
    }
    let sorted = sort_candidates(cands);
    let ghost sv = cands_view(sorted@);
    let m = max_id_of(&e);
    let ghost st0 = (Seq::<Tree>::empty(), e0, graph_next0(e0, global_max_id));
    proof {
        lemma_root_fold_next(sv, 0, sv.len() as int, st0, ops);
    }
    let base = if m >= global_max_id {
        m
    } else {
        global_max_id
    };
    let mut next_id: u32 = base + 1;
    let mut result = e;
    let mut defs: Vec<Node> = Vec::new();
    assert(nodes_view(defs@) =~= Seq::<Tree>::empty());
    let mut k: usize = 0;
    while k < sorted.len()
        invariant
            0 <= k <= sorted@.len(),
            sv == cands_view(sorted@),
            ops == tags.op_types@,
            (nodes_view(defs@), result@, next_id as nat) == root_fold(sv, k as int, st0, ops),
            root_fold(sv, sv.len() as int, st0, ops).2 <= u32::MAX,
            node_count(result@) <= node_count(e0),
            node_count(e0) <= usize::MAX,
        decreases sorted.len() - k,
    {
        proof {
            lemma_root_fold_next(sv, k + 1, sv.len() as int, st0, ops);
        }
        let ghost st = (nodes_view(defs@), result@, next_id as nat);
        assert(sv[k as int] == (sorted@[k as int].0@, sorted@[k as int].1 as nat));
        let cand = &sorted[k].0;
        if count_occurrences(&result, cand) >= 2 {
            assert(root_fold(sv, k + 1, st0, ops) == scope_step(st, cand@, ops));
            let vid = next_id;
            let u = Node::ValUse { id: vid, tpe: expr_type(cand, tags) };
            proof {
                crate::walk::lemma_children_count(cand@);
                lemma_replaced_count(result@, cand@, u@);
            }
            result = replace_all(&result, cand, &u);
            let ghost dv = nodes_view(defs@);
            defs.push(Node::ValDef { id: vid, rhs: Box::new(clone_node(cand)) });
            assert(nodes_view(defs@) =~= dv.push(Tree::ValDef { id: vid, rhs: Box::new(cand@) }));
            next_id = next_id + 1;
        }
        k += 1;
    }
    if defs.len() == 0 {
        return result;
    }
    let (final_defs, final_result, _) = lambda_rescue_post_pass(defs, result, next_id, tags);
    match final_result {
        Node::Block { items, result } => {
            let mut combined = final_defs;
            let mut rest = items;
            let ghost a = nodes_view(combined@);
            let ghost b = nodes_view(rest@);
            combined.append(&mut rest);
            assert(nodes_view(combined@) =~= a + b);
            let ordered = topo_order_valdefs(combined);
            Node::Block { items: ordered, result }
        },
        other => {
            let ordered = topo_order_valdefs(final_defs);
            Node::Block { items: ordered, result: Box::new(other) }
        },
    }
}


fn lambdas_vec(v: &Vec<Node>, gid: &mut u32, tags: &TypeTags) -> (r: Vec<Node>)
    requires
        lambdas_seq(nodes_view(v@), v@.len() as int, *old(gid), tags.op_types@, tags.big_int, tags.hash_cons).2,
    ensures
        nodes_view(r@) == lambdas_seq(nodes_view(v@), v@.len() as int, *old(gid), tags.op_types@, tags.big_int, tags.hash_cons).0,
        *final(gid) == lambdas_seq(nodes_view(v@), v@.len() as int, *old(gid), tags.op_types@, tags.big_int, tags.hash_cons).1,
    decreases v@, 0int,
{
    let ghost s = nodes_view(v@);
    let ghost g0 = *gid;
    let ghost ops = tags.op_types@;
    let ghost big = tags.big_int;
    let ghost hc = tags.hash_cons;
    let mut out: Vec<Node> = Vec::new();
    let mut i: usize = 0;
    assert(nodes_view(out@) =~= Seq::<Tree>::empty());
    proof {
        lemma_lambdas_seq_ok(s, i as int, s.len() as int, g0, ops, big, hc);
    }
    while i < v.len()
        invariant
            0 <= i <= v@.len(),
            s == nodes_view(v@),
            ops == tags.op_types@,
            big == tags.big_int,
            hc == tags.hash_cons,
            lambdas_seq(s, s.len() as int, g0, ops, big, hc).2,
            nodes_view(out@) == lambdas_seq(s, i as int, g0, ops, big, hc).0,
            *gid == lambdas_seq(s, i as int, g0, ops, big, hc).1,
        decreases v.len() - i,
    {
        proof {
            lemma_lambdas_seq_ok(s, i + 1, s.len() as int, g0, ops, big, hc);
        }
        assert(decreases_to!(v@ => v@[i as int]));
        assert(s[i as int] == node_view(v@[i as int]));
        let ghost before = nodes_view(out@);
        let x = process_lambdas_ref(&v[i], gid, tags);
        out.push(x);
        assert(nodes_view(out@) =~= before.push(x@));
        i += 1;
    }
    out
}

/// A sequence pass that ran without overflowing ran so on every prefix.
proof fn lemma_lambdas_seq_ok(s: Seq<Tree>, k: int, m: int, gid: u32, ops: Seq<u32>, big: u32, hc: HashCons)
    requires
        0 <= k <= m <= s.len(),
        lambdas_seq(s, m, gid, ops, big, hc).2,
    ensures
        lambdas_seq(s, k, gid, ops, big, hc).2,
        k < m ==> lambdas_spec(s[k], lambdas_seq(s, k, gid, ops, big, hc).1, ops, big, hc).2,
    decreases m - k,
{
    if k < m {
        lemma_lambdas_seq_ok(s, k + 1, m, gid, ops, big, hc);
    }
}

fn process_lambdas_ref(expr: &Node, gid: &mut u32, tags: &TypeTags) -> (r: Node)
    requires
        lambdas_spec(expr@, *old(gid), tags.op_types@, tags.big_int, tags.hash_cons).2,
    ensures
        r@ == lambdas_spec(expr@, *old(gid), tags.op_types@, tags.big_int, tags.hash_cons).0,
        *final(gid) == lambdas_spec(expr@, *old(gid), tags.op_types@, tags.big_int, tags.hash_cons).1,
    decreases expr, 1int,
{
    match expr {
        Node::Func { args, body } => {
            assert(expr@ == Tree::Func { args: args@, body: Box::new(node_view(**body)) });
            let b = cse_expr_ref(body, *gid, true, tags);
            let m = max_id_of(&b);
            if m > *gid {
                *gid = m;
            }
            Node::Func { args: clone_args(args), body: Box::new(b) }
        },
        Node::ValDef { id, rhs } => {
            assert(expr@ == Tree::ValDef { id: *id, rhs: Box::new(node_view(**rhs)) });
            let r = process_lambdas_ref(rhs, gid, tags);
            Node::ValDef { id: *id, rhs: Box::new(r) }
        },
        Node::ValUse { id, tpe } => Node::ValUse { id: *id, tpe: *tpe },
        Node::Block { items, result } => {
            assert(expr@ == Tree::Block { items: nodes_view(items@), result: Box::new(node_view(**result)) });
            let a = lambdas_vec(items, gid, tags);
            let r = process_lambdas_ref(result, gid, tags);
            Node::Block { items: a, result: Box::new(r) }
        },
        Node::If { cond, then_branch, else_branch } => {
            assert(expr@ == Tree::If {
                cond: Box::new(node_view(**cond)),
                then_branch: Box::new(node_view(**then_branch)),
                else_branch: Box::new(node_view(**else_branch)),
            });
            let c = process_lambdas_ref(cond, gid, tags);
            let x = process_lambdas_ref(then_branch, gid, tags);
            let y = process_lambdas_ref(else_branch, gid, tags);
            Node::If { cond: Box::new(c), then_branch: Box::new(x), else_branch: Box::new(y) }
        },
        Node::Op { kind, payload, children } => {
            assert(expr@ == Tree::Op { kind: *kind, payload: *payload, children: nodes_view(children@) });
            if is_lam_walked_kind(*kind) {
                let a = lambdas_vec(children, gid, tags);
                Node::Op { kind: *kind, payload: *payload, children: a }
            } else {
                clone_node(expr)
            }
        },
    }
}

fn cse_expr_ref(expr: &Node, global_max_id: u32, is_lambda_scope: bool, tags: &TypeTags) -> (r: Node)
    requires
        cse_spec(expr@, global_max_id, is_lambda_scope, tags.op_types@, tags.big_int, tags.hash_cons).1,
    ensures
        r@ == cse_spec(expr@, global_max_id, is_lambda_scope, tags.op_types@, tags.big_int, tags.hash_cons).0,
    decreases expr, 2int,
{
    let mut running_max = global_max_id;
    let e = process_lambdas_ref(expr, &mut running_max, tags);
    if is_lambda_scope {
        lambda_scope_pass(e, global_max_id, tags)
    } else if contains_func_value(&e) {
        root_lam_pass(e, global_max_id, tags)
    } else {
        process_ast_graph(e, global_max_id, tags)
    }
}

/// Common-subexpression elimination of `expr`: the lambda bodies first,
/// each as a lambda scope (with the running largest id), then inside a
/// lambda scope the repeated best-candidate extraction, at the top of a
/// tree that still holds a lambda the extraction by decreasing saving,
/// and otherwise the root graph pass, as `cse_spec` says. What it computes
/// must fit its machine integers (the flag of `cse_spec`).
pub fn cse_expr(expr: Node, global_max_id: u32, is_lambda_scope: bool, tags: &TypeTags) -> (r: Node)
    requires
        cse_spec(expr@, global_max_id, is_lambda_scope, tags.op_types@, tags.big_int, tags.hash_cons).1,
    ensures
        r@ == cse_spec(expr@, global_max_id, is_lambda_scope, tags.op_types@, tags.big_int, tags.hash_cons).0,
{
    cse_expr_ref(&expr, global_max_id, is_lambda_scope, tags)
}

/// The lambda pass of `cse_expr`, as `lambdas_spec` says: each lambda body
/// reached goes through `cse_expr` as a lambda scope, and `global_max_id`
/// rises to the largest id of each new body.
pub fn process_lambdas(expr: Node, global_max_id: &mut u32, tags: &TypeTags) -> (r: Node)
    requires
        lambdas_spec(expr@, *old(global_max_id), tags.op_types@, tags.big_int, tags.hash_cons).2,
    ensures
        r@ == lambdas_spec(expr@, *old(global_max_id), tags.op_types@, tags.big_int, tags.hash_cons).0,
        *final(global_max_id) == lambdas_spec(expr@, *old(global_max_id), tags.op_types@, tags.big_int, tags.hash_cons).1,
{
    process_lambdas_ref(&expr, global_max_id, tags)
}


/// Operator kinds whose operands the branch pass walks into.
pub open spec fn branch_walked_kind(k: OpKind) -> bool {
    match k {
        OpKind::BinOp | OpKind::BoolToSigmaProp | OpKind::Filter | OpKind::Exists | OpKind::ForAll
        | OpKind::SizeOf | OpKind::ExtractAmount | OpKind::PropertyCall | OpKind::SigmaAnd
        | OpKind::SigmaOr => true,
        _ => false,
    }
}

fn is_branch_walked_kind(k: OpKind) -> (r: bool)
    ensures
        r == branch_walked_kind(k),
{
    match k {
        OpKind::BinOp | OpKind::BoolToSigmaProp | OpKind::Filter | OpKind::Exists | OpKind::ForAll
        | OpKind::SizeOf | OpKind::ExtractAmount | OpKind::PropertyCall | OpKind::SigmaAnd
        | OpKind::SigmaOr => true,
        _ => false,
    }
}

/// The CSE within If branches, with at most `fuel` nested steps: at an
/// If, each branch goes through the branch graph pass, then the two
/// results and the condition go through this pass again with the largest
/// id so far; elsewhere the pass goes on through ValDefs, blocks and the
/// operands of `branch_walked_kind` operators. `None` when the fuel runs
/// out or a branch pass would overflow.
pub open spec fn within_branches(t: Tree, global_max: u32, ops: Seq<u32>, big: u32, hc: BranchOpts, fuel: nat) -> Option<Tree>
    decreases fuel, 0int,
{
    if fuel == 0 {
        None
    } else {
        match t {
            Tree::If { cond, then_branch, else_branch } => if !branch_pass_ok(
                *then_branch,
                global_max,
                ops,
                big,
                hc,
            ) || !branch_pass_ok(*else_branch, global_max, ops, big, hc) {
                None
            } else {
                let tc = branch_pass(*then_branch, global_max, ops, big, hc);
                let fc = branch_pass(*else_branch, global_max, ops, big, hc);
                let nm = max_or(max_or(global_max, max_id(tc)), max_id(fc));
                match (
                    within_branches(tc, nm, ops, big, hc, (fuel - 1) as nat),
                    within_branches(fc, nm, ops, big, hc, (fuel - 1) as nat),
                    within_branches(*cond, nm, ops, big, hc, (fuel - 1) as nat),
                ) {
                    (Some(a), Some(b), Some(c)) => Some(
                        Tree::If { cond: Box::new(c), then_branch: Box::new(a), else_branch: Box::new(b) },
                    ),
                    _ => None,
                }
            },
            Tree::ValDef { id, rhs } => match within_branches(*rhs, global_max, ops, big, hc, (fuel - 1) as nat) {
                Some(r) => Some(Tree::ValDef { id, rhs: Box::new(r) }),
                None => None,
            },
            Tree::Block { items, result } => match (
                within_seq(items, items.len() as int, global_max, ops, big, hc, (fuel - 1) as nat),
                within_branches(*result, global_max, ops, big, hc, (fuel - 1) as nat),
            ) {
                (Some(a), Some(r)) => Some(Tree::Block { items: a, result: Box::new(r) }),
                _ => None,
            },
            Tree::Op { kind, payload, children } => if branch_walked_kind(kind) {
                match within_seq(children, children.len() as int, global_max, ops, big, hc, (fuel - 1) as nat) {
                    Some(a) => Some(Tree::Op { kind, payload, children: a }),
                    None => None,
                }
            } else {
                Some(t)
            },
            _ => Some(t),
        }
    }
}

/// `within_branches` over the first `k` of `s`.
pub open spec fn within_seq(s: Seq<Tree>, k: int, global_max: u32, ops: Seq<u32>, big: u32, hc: BranchOpts, fuel: nat) -> Option<
    Seq<Tree>,
>
    decreases fuel, k,
{
    if k <= 0 || k > s.len() {
        Some(Seq::empty())
    } else {
        match (within_seq(s, k - 1, global_max, ops, big, hc, fuel), within_branches(s[k - 1], global_max, ops, big, hc, fuel)) {
            (Some(a), Some(b)) => Some(a.push(b)),
            _ => None,
        }
    }
}

/// The pass within If branches finishes on `t` without overflowing.
pub open spec fn branches_ok(t: Tree, global_max: u32, ops: Seq<u32>, big: u32, hc: BranchOpts) -> bool {
    exists|fuel: nat| #[trigger] within_branches(t, global_max, ops, big, hc, fuel) is Some
}

/// The result of the pass within If branches on `t` (see `within_branches`).
pub open spec fn branches_result(t: Tree, global_max: u32, ops: Seq<u32>, big: u32, hc: BranchOpts) -> Tree {
    within_branches(
        t,
        global_max,
        ops,
        big,
        hc,
        choose|fuel: nat| #[trigger] within_branches(t, global_max, ops, big, hc, fuel) is Some,
    ).unwrap()
}

proof fn lemma_within_seq_some(s: Seq<Tree>, k: int, m: int, g: u32, ops: Seq<u32>, big: u32, hc: BranchOpts, fuel: nat)
    requires
        0 <= k <= m <= s.len(),
        within_seq(s, m, g, ops, big, hc, fuel) is Some,
    ensures
        within_seq(s, k, g, ops, big, hc, fuel) is Some,
        k < m ==> within_branches(s[k], g, ops, big, hc, fuel) is Some,
    decreases m - k,
{
    if k < m {
        lemma_within_seq_some(s, k + 1, m, g, ops, big, hc, fuel);
    }
}

fn within_vec(v: &Vec<Node>, global_max: u32, tags: &TypeTags, Ghost(fuel): Ghost<nat>) -> (r: Vec<Node>)
    requires
        within_seq(nodes_view(v@), v@.len() as int, global_max, tags.op_types@, tags.big_int, branch_opts(*tags), fuel) is Some,
    ensures
        nodes_view(r@) == within_seq(nodes_view(v@), v@.len() as int, global_max, tags.op_types@, tags.big_int, branch_opts(*tags), fuel).unwrap(),
    decreases fuel, 1int,
{
    let ghost s = nodes_view(v@);
    let ghost ops = tags.op_types@;
    let ghost big = tags.big_int;
    let ghost hc = branch_opts(*tags);
    let mut out: Vec<Node> = Vec::new();
    let mut i: usize = 0;
    assert(nodes_view(out@) =~= Seq::<Tree>::empty());
    while i < v.len()
        invariant
            0 <= i <= v@.len(),
            s == nodes_view(v@),
            ops == tags.op_types@,
            big == tags.big_int,
            hc == branch_opts(*tags),
            within_seq(s, s.len() as int, global_max, ops, big, hc, fuel) is Some,
            within_seq(s, i as int, global_max, ops, big, hc, fuel) is Some,
            nodes_view(out@) == within_seq(s, i as int, global_max, ops, big, hc, fuel).unwrap(),
        decreases v.len() - i,
    {
        proof {
            lemma_within_seq_some(s, i as int, s.len() as int, global_max, ops, big, hc, fuel);
            lemma_within_seq_some(s, i + 1, s.len() as int, global_max, ops, big, hc, fuel);
        }
        assert(s[i as int] == node_view(v@[i as int]));
        let ghost before = nodes_view(out@);
        let x = within_ref(&v[i], global_max, tags, Ghost(fuel));
        out.push(x);
        assert(nodes_view(out@) =~= before.push(x@));
        i += 1;
    }
    out
}

fn within_ref(expr: &Node, global_max: u32, tags: &TypeTags, Ghost(fuel): Ghost<nat>) -> (r: Node)
    requires
        within_branches(expr@, global_max, tags.op_types@, tags.big_int, branch_opts(*tags), fuel) is Some,
    ensures
        r@ == within_branches(expr@, global_max, tags.op_types@, tags.big_int, branch_opts(*tags), fuel).unwrap(),
    decreases fuel, 0int,
{
    match expr {
        Node::If { cond, then_branch, else_branch } => {
            assert(expr@ == Tree::If {
                cond: Box::new(node_view(**cond)),
                then_branch: Box::new(node_view(**then_branch)),
                else_branch: Box::new(node_view(**else_branch)),
            });
            let tc = process_ast_graph_branch(clone_node(then_branch), global_max, tags);
            let fc = process_ast_graph_branch(clone_node(else_branch), global_max, tags);
            let mt = max_id_of(&tc);
            let mf = max_id_of(&fc);
            let mut nm = global_max;
            if mt > nm {
                nm = mt;
            }
            if mf > nm {
                nm = mf;
            }
            let f1 = Ghost((fuel - 1) as nat);
            let a = within_ref(&tc, nm, tags, f1);
            let b = within_ref(&fc, nm, tags, f1);
            let c = within_ref(cond, nm, tags, f1);
            Node::If { cond: Box::new(c), then_branch: Box::new(a), else_branch: Box::new(b) }
        },
        Node::ValDef { id, rhs } => {
            assert(expr@ == Tree::ValDef { id: *id, rhs: Box::new(node_view(**rhs)) });
            let r = within_ref(rhs, global_max, tags, Ghost((fuel - 1) as nat));
            Node::ValDef { id: *id, rhs: Box::new(r) }
        },
        Node::Block { items, result } => {
            assert(expr@ == Tree::Block { items: nodes_view(items@), result: Box::new(node_view(**result)) });
            let a = within_vec(items, global_max, tags, Ghost((fuel - 1) as nat));
            let r = within_ref(result, global_max, tags, Ghost((fuel - 1) as nat));
            Node::Block { items: a, result: Box::new(r) }
        },
        Node::Op { kind, payload, children } => {
            assert(expr@ == Tree::Op { kind: *kind, payload: *payload, children: nodes_view(children@) });
            if is_branch_walked_kind(*kind) {
                let a = within_vec(children, global_max, tags, Ghost((fuel - 1) as nat));
                Node::Op { kind: *kind, payload: *payload, children: a }
            } else {
                clone_node(expr)
            }
        },
        _ => clone_node(expr),
    }
}

/// CSE within the If branches of `expr`: each branch through the branch
/// graph pass, then the results and the condition again with the largest
/// id so far, as `branches_result` says; elsewhere the pass goes on
/// through ValDefs, blocks and the operands of `branch_walked_kind`
/// operators. It must finish without overflowing (`branches_ok`).
pub fn apply_cse_within_branches(expr: Node, global_max: u32, tags: &TypeTags) -> (r: Node)
    requires
        branches_ok(expr@, global_max, tags.op_types@, tags.big_int, branch_opts(*tags)),
    ensures
        r@ == branches_result(expr@, global_max, tags.op_types@, tags.big_int, branch_opts(*tags)),
{
    let ghost fuel = choose|fuel: nat| #[trigger] within_branches(expr@, global_max, tags.op_types@, tags.big_int, branch_opts(*tags), fuel) is Some;
    within_ref(&expr, global_max, tags, Ghost(fuel))
}

} // verus!
