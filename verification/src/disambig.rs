use vstd::prelude::*;

use crate::max_id::{find_max_val_id, occurs_id};
use crate::node::{node_view, nodes_view, FuncArg, Node, Tree};

verus! {

/// The binding of `x` in an environment of (old id, new id) pairs: the
/// last pair for `x` wins. Inner scopes sit after outer ones.
pub open spec fn resolve(env: Seq<(u32, u32)>, x: u32) -> Option<u32>
    decreases env.len(),
{
    if env.len() == 0 {
        None
    } else if env.last().0 == x {
        Some(env.last().1)
    } else {
        resolve(env.drop_last(), x)
    }
}

/// Number of ValDef nodes in a tree.
pub open spec fn count_valdefs(t: Tree) -> nat
    decreases t,
{
    match t {
        Tree::ValDef { rhs, .. } => 1 + count_valdefs(*rhs),
        Tree::ValUse { .. } => 0,
        Tree::Block { items, result } => count_valdefs_seq(items) + count_valdefs(*result),
        Tree::If { cond, then_branch, else_branch } => count_valdefs(*cond) + count_valdefs(
            *then_branch,
        ) + count_valdefs(*else_branch),
        Tree::Func { body, .. } => count_valdefs(*body),
        Tree::Op { children, .. } => count_valdefs_seq(children),
    }
}

pub open spec fn count_valdefs_seq(s: Seq<Tree>) -> nat
    decreases s,
{
    if s.len() == 0 {
        0
    } else {
        count_valdefs_seq(s.drop_last()) + count_valdefs(s.last())
    }
}

/// Number of block items that are ValDefs.
pub open spec fn count_valdef_items(items: Seq<Tree>) -> nat
    decreases items.len(),
{
    if items.len() == 0 {
        0
    } else {
        count_valdef_items(items.drop_last()) + (if items.last() is ValDef {
            1nat
        } else {
            0nat
        })
    }
}

/// `env` extended with a binding of each ValDef item's id to the next
/// fresh id, from `start`, in item order.
pub open spec fn prebind(items: Seq<Tree>, env: Seq<(u32, u32)>, start: nat) -> Seq<(u32, u32)>
    decreases items.len(),
{
    if items.len() == 0 {
        env
    } else {
        let e = prebind(items.drop_last(), env, start);
        match items.last() {
            Tree::ValDef { id, .. } => e.push((id, (start + count_valdef_items(items.drop_last())) as u32)),
            _ => e,
        }
    }
}

/// Bindings of FuncValue arguments to themselves.
pub open spec fn arg_pairs(args: Seq<FuncArg>) -> Seq<(u32, u32)> {
    Seq::new(args.len(), |i: int| (args[i].id, args[i].id))
}

/// Alpha-renaming of `t` under environment `env` with fresh ids from
/// `next`. Returns the renamed tree, the environment after it (ValDefs
/// outside blocks bind in the current scope) and the next fresh id.
/// - a ValUse takes its binding in `env`, or keeps its id when unbound;
/// - a block binds all its ValDef items first, in order, to fresh ids,
///   then renames each item and the result in that scope;
/// - a ValDef outside a block renames its right-hand side, then takes a
///   fresh id and binds it in the current scope;
/// - If branches and FuncValue bodies are scopes of their own; function
///   arguments keep their ids.
pub open spec fn dis(t: Tree, env: Seq<(u32, u32)>, next: nat) -> (Tree, Seq<(u32, u32)>, nat)
    decreases t,
{
    match t {
        Tree::ValUse { id, tpe } => (
            Tree::ValUse {
                id: match resolve(env, id) {
                    Some(v) => v,
                    None => id,
                },
                tpe,
            },
            env,
            next,
        ),
        Tree::ValDef { id, rhs } => {
            let (r, e1, n1) = dis(*rhs, env, next);
            (Tree::ValDef { id: n1 as u32, rhs: Box::new(r) }, e1.push((id, n1 as u32)), n1 + 1)
        },
        Tree::Block { items, result } => {
            let k = count_valdef_items(items);
            let e0 = prebind(items, env, next);
            let (items2, e1, n1) = dis_items(items, e0, next + k, next);
            let (res2, _e2, n2) = dis(*result, e1, n1);
            (Tree::Block { items: items2, result: Box::new(res2) }, env, n2)
        },
        Tree::If { cond, then_branch, else_branch } => {
            let (c2, e1, n1) = dis(*cond, env, next);
            let (t2, _e2, n2) = dis(*then_branch, e1, n1);
            let (f2, _e3, n3) = dis(*else_branch, e1, n2);
            (
                Tree::If { cond: Box::new(c2), then_branch: Box::new(t2), else_branch: Box::new(f2) },
                e1,
                n3,
            )
        },
        Tree::Func { args, body } => {
            let (b2, _e1, n1) = dis(*body, env + arg_pairs(args), next);
            (Tree::Func { args, body: Box::new(b2) }, env, n1)
        },
        Tree::Op { kind, payload, children } => {
            let (cs, e1, n1) = dis_seq(children, env, next);
            (Tree::Op { kind, payload, children: cs }, e1, n1)
        },
    }
}

/// `dis` over a sequence, left to right.
pub open spec fn dis_seq(s: Seq<Tree>, env: Seq<(u32, u32)>, next: nat) -> (
    Seq<Tree>,
    Seq<(u32, u32)>,
    nat,
)
    decreases s,
{
    if s.len() == 0 {
        (Seq::empty(), env, next)
    } else {
        let (a, e1, n1) = dis_seq(s.drop_last(), env, next);
        let (b, e2, n2) = dis(s.last(), e1, n1);
        (a.push(b), e2, n2)
    }
}

/// Block items under their prebound scope: a ValDef item renames its
/// right-hand side and takes its prebound id (`start` plus the number of
/// ValDef items before it); other items are renamed as they stand.
pub open spec fn dis_items(items: Seq<Tree>, env: Seq<(u32, u32)>, next: nat, start: nat) -> (
    Seq<Tree>,
    Seq<(u32, u32)>,
    nat,
)
    decreases items,
{
    if items.len() == 0 {
        (Seq::empty(), env, next)
    } else {
        let (a, e1, n1) = dis_items(items.drop_last(), env, next, start);
        match items.last() {
            Tree::ValDef { id, rhs } => {
                let (r, e2, n2) = dis(*rhs, e1, n1);
                (
                    a.push(
                        Tree::ValDef {
                            id: (start + count_valdef_items(items.drop_last())) as u32,
                            rhs: Box::new(r),
                        },
                    ),
                    e2,
                    n2,
                )
            },
            _ => {
                let (b, e2, n2) = dis(items.last(), e1, n1);
                (a.push(b), e2, n2)
            },
        }
    }
}

/// `m` is the largest id in `t` (0 when it has none).
pub open spec fn is_max_id(t: Tree, m: u32) -> bool {
    &&& forall|x: u32| occurs_id(t, x) ==> x <= m
    &&& (m == 0 || occurs_id(t, m))
}

pub proof fn lemma_valdef_items_le(items: Seq<Tree>)
    ensures
        count_valdef_items(items) <= count_valdefs_seq(items),
    decreases items.len(),
{
    if items.len() > 0 {
        lemma_valdef_items_le(items.drop_last());
        match items.last() {
            Tree::ValDef { rhs, .. } => {
                assert(count_valdefs(items.last()) == 1 + count_valdefs(*rhs));
            },
            _ => {},
        }
    }
}

pub proof fn lemma_prebind_extends(items: Seq<Tree>, env: Seq<(u32, u32)>, start: nat)
    ensures
        env.len() <= prebind(items, env, start).len(),
        prebind(items, env, start).subrange(0, env.len() as int) == env,
    decreases items.len(),
{
    if items.len() > 0 {
        lemma_prebind_extends(items.drop_last(), env, start);
        let e = prebind(items.drop_last(), env, start);
        assert(e.subrange(0, env.len() as int) == env);
        match items.last() {
            Tree::ValDef { id, .. } => {
                let p = e.push((id, (start + count_valdef_items(items.drop_last())) as u32));
                assert(p.subrange(0, env.len() as int) =~= e.subrange(0, env.len() as int));
            },
            _ => {},
        }
    } else {
        assert(env.subrange(0, env.len() as int) =~= env);
    }
}

proof fn lemma_prefix_step<A>(s: Seq<A>, i: int)
    requires
        0 <= i < s.len(),
    ensures
        s.subrange(0, i + 1).drop_last() == s.subrange(0, i),
        s.subrange(0, i + 1).last() == s[i],
{
    assert(s.subrange(0, i + 1).drop_last() =~= s.subrange(0, i));
}

pub proof fn lemma_count_prefix(s: Seq<Tree>, i: int)
    requires
        0 <= i <= s.len(),
    ensures
        count_valdefs_seq(s.subrange(0, i)) <= count_valdefs_seq(s),
        count_valdef_items(s.subrange(0, i)) <= count_valdef_items(s),
        count_valdefs_seq(s.subrange(0, i)) - count_valdef_items(s.subrange(0, i))
            <= count_valdefs_seq(s) - count_valdef_items(s),
    decreases s.len(),
{
    lemma_valdef_items_le(s);
    lemma_valdef_items_le(s.subrange(0, i));
    if i < s.len() {
        assert(s.subrange(0, i) == s.drop_last().subrange(0, i));
        lemma_count_prefix(s.drop_last(), i);
        lemma_valdef_items_le(s.drop_last());
        match s.last() {
            Tree::ValDef { rhs, .. } => {
                assert(count_valdefs(s.last()) == 1 + count_valdefs(*rhs));
            },
            _ => {},
        }
    } else {
        assert(s.subrange(0, i) == s);
    }
}

/// The binding of `x` in `env`, scanning from the innermost pair.
fn resolve_exec(env: &Vec<(u32, u32)>, x: u32) -> (r: Option<u32>)
    ensures
        r == resolve(env@, x),
{
    let mut i = env.len();
    assert(env@.subrange(0, i as int) =~= env@);
    while i > 0
        invariant
            0 <= i <= env@.len(),
            resolve(env@, x) == resolve(env@.subrange(0, i as int), x),
        decreases i,
    {
        let ghost pre = env@.subrange(0, i as int);
        assert(pre.drop_last() == env@.subrange(0, i - 1));
        if env[i - 1].0 == x {
            return Some(env[i - 1].1);
        }
        i -= 1;
    }
    None
}

fn disambig_seq(v: &Vec<Node>, env: &mut Vec<(u32, u32)>, next: &mut u32) -> (r: Vec<Node>)
    requires
        *old(next) + count_valdefs_seq(nodes_view(v@)) <= u32::MAX,
    ensures
        (nodes_view(r@), final(env)@, *final(next) as nat) == dis_seq(
            nodes_view(v@),
            old(env)@,
            *old(next) as nat,
        ),
        *final(next) == *old(next) + count_valdefs_seq(nodes_view(v@)),
        old(env)@.len() <= final(env)@.len(),
        final(env)@.subrange(0, old(env)@.len() as int) == old(env)@,
    decreases v@,
{
    let ghost s = nodes_view(v@);
    let ghost e0 = env@;
    let ghost n0 = *next;
    let mut out: Vec<Node> = Vec::new();
    let mut i: usize = 0;
    proof {
        assert(s.subrange(0, 0) =~= Seq::<Tree>::empty());
        assert(nodes_view(out@) =~= Seq::<Tree>::empty());
    }
    while i < v.len()
        invariant
            0 <= i <= v@.len(),
            s == nodes_view(v@),
            n0 + count_valdefs_seq(s) <= u32::MAX,
            (nodes_view(out@), env@, *next as nat) == dis_seq(s.subrange(0, i as int), e0, n0 as nat),
            *next == n0 + count_valdefs_seq(s.subrange(0, i as int)),
            e0.len() <= env@.len(),
            env@.subrange(0, e0.len() as int) == e0,
        decreases v.len() - i,
    {
        proof {
            lemma_prefix_step(s, i as int);
            lemma_count_prefix(s, i + 1);
            assert(s[i as int] == node_view(v@[i as int]));
        }
        assert(decreases_to!(v@ => v@[i as int]));
        let ghost before = env@;
        let ghost out_before = out@;
        let c = disambig_walk(&v[i], env, next);
        out.push(c);
        proof {
            assert(nodes_view(out@) =~= nodes_view(out_before).push(c@));
            assert(env@.subrange(0, e0.len() as int) =~= before.subrange(0, e0.len() as int));
        }
        i += 1;
    }
    proof {
        assert(s.subrange(0, i as int) =~= s);
    }
    out
}

/// Rename a node and its subtree as `dis` states.
fn disambig_walk(n: &Node, env: &mut Vec<(u32, u32)>, next: &mut u32) -> (r: Node)
    requires
        *old(next) + count_valdefs(n@) <= u32::MAX,
    ensures
        (r@, final(env)@, *final(next) as nat) == dis(n@, old(env)@, *old(next) as nat),
        *final(next) == *old(next) + count_valdefs(n@),
        old(env)@.len() <= final(env)@.len(),
        final(env)@.subrange(0, old(env)@.len() as int) == old(env)@,
    decreases n,
{
    let ghost e_in = env@;
    match n {
        Node::ValUse { id, tpe } => {
            let new_id = match resolve_exec(env, *id) {
                Some(v) => v,
                None => *id,
            };
            proof {
                assert(env@.subrange(0, e_in.len() as int) =~= e_in);
            }
            Node::ValUse { id: new_id, tpe: *tpe }
        },
        Node::ValDef { id, rhs } => {
            assert(n@ == Tree::ValDef { id: *id, rhs: Box::new(node_view(**rhs)) });
            let r = disambig_walk(rhs, env, next);
            let new_id = *next;
            *next = *next + 1;
            let ghost mid = env@;
            env.push((*id, new_id));
            proof {
                assert(env@.subrange(0, e_in.len() as int) =~= mid.subrange(0, e_in.len() as int));
            }
            Node::ValDef { id: new_id, rhs: Box::new(r) }
        },
        Node::Block { items, result } => {
            let ghost iv = nodes_view(items@);
            assert(n@ == Tree::Block { items: iv, result: Box::new(node_view(**result)) });
            let mark = env.len();
            let start = *next;
            proof {
                lemma_valdef_items_le(iv);
            }
            // Bind every ValDef item to a fresh id before walking any of them.
            let mut k: u32 = 0;
            let mut i: usize = 0;
            proof {
                assert(iv.subrange(0, 0) =~= Seq::<Tree>::empty());
            }
            while i < items.len()
                invariant
                    0 <= i <= items@.len(),
                    iv == nodes_view(items@),
                    start + count_valdefs_seq(iv) + count_valdefs(node_view(**result)) <= u32::MAX,
                    k == count_valdef_items(iv.subrange(0, i as int)),
                    count_valdef_items(iv) <= count_valdefs_seq(iv),
                    env@ == prebind(iv.subrange(0, i as int), e_in, start as nat),
                    env@.len() >= mark,
                    mark == e_in.len(),
                decreases items.len() - i,
            {
                proof {
                    lemma_prefix_step(iv, i as int);
                    lemma_count_prefix(iv, i + 1);
                    assert(iv[i as int] == node_view(items@[i as int]));
                }
                if let Node::ValDef { id, .. } = &items[i] {
                    env.push((*id, start + k));
                    k = k + 1;
                }
                i += 1;
            }
            proof {
                assert(iv.subrange(0, i as int) =~= iv);
            }
            *next = start + k;
            let ghost e0 = env@;
            assert(decreases_to!(*n => *items));
            assert(decreases_to!(*items => items@));
            assert(decreases_to!(*n => items@));
            let mut out: Vec<Node> = Vec::new();
            let mut j: u32 = 0;
            let mut i: usize = 0;
            proof {
                assert(nodes_view(out@) =~= Seq::<Tree>::empty());
                lemma_prebind_extends(iv, e_in, start as nat);
                assert(iv.subrange(0, 0) =~= Seq::<Tree>::empty());
                assert(env@.subrange(0, e0.len() as int) =~= e0);
            }
            while i < items.len()
                invariant
                    0 <= i <= items@.len(),
                    iv == nodes_view(items@),
                    k == count_valdef_items(iv),
                    start + count_valdefs_seq(iv) + count_valdefs(node_view(**result)) <= u32::MAX,
                    j == count_valdef_items(iv.subrange(0, i as int)),
                    (nodes_view(out@), env@, *next as nat) == dis_items(
                        iv.subrange(0, i as int),
                        e0,
                        (start + k) as nat,
                        start as nat,
                    ),
                    *next + count_valdef_items(iv.subrange(0, i as int)) == start + k
                        + count_valdefs_seq(iv.subrange(0, i as int)),
                    e0.len() <= env@.len(),
                    env@.subrange(0, e0.len() as int) == e0,
                    mark == e_in.len(),
                    e_in.len() <= e0.len(),
                    e0.subrange(0, e_in.len() as int) == e_in,
                    decreases_to!(*n => items@),
                decreases items.len() - i,
            {
                proof {
                    lemma_prefix_step(iv, i as int);
                    lemma_count_prefix(iv, i + 1);
                    assert(iv[i as int] == node_view(items@[i as int]));
                }
                assert(decreases_to!(items@ => items@[i as int]));
                let ghost before = env@;
                let ghost out_before = out@;
                match &items[i] {
                    Node::ValDef { id: _, rhs } => {
                        assert(decreases_to!(*n => items@[i as int]));
                        assert(decreases_to!(*n => **rhs));
                        proof {
                            let pre = iv.subrange(0, i as int);
                            let pre1 = iv.subrange(0, i + 1);
                            assert(count_valdefs(iv[i as int]) == 1 + count_valdefs(node_view(**rhs)));
                            assert(count_valdefs_seq(pre1) == count_valdefs_seq(pre) + count_valdefs(iv[i as int]));
                            assert(count_valdef_items(pre1) == count_valdef_items(pre) + 1);
                            lemma_valdef_items_le(iv);
                            assert(j < k);
                            assert(start + k <= u32::MAX);
                        }
                        let r = disambig_walk(rhs, env, next);
                        let c = Node::ValDef { id: start + j, rhs: Box::new(r) };
                        out.push(c);
                        j = j + 1;
                        proof {
                            assert(nodes_view(out@) =~= nodes_view(out_before).push(c@));
                        }
                    },
                    other => {
                        assert(decreases_to!(*n => items@[i as int]));
                        let c = disambig_walk(other, env, next);
                        out.push(c);
                        proof {
                            assert(nodes_view(out@) =~= nodes_view(out_before).push(c@));
                        }
                    },
                }
                proof {
                    assert(env@.subrange(0, e0.len() as int) =~= before.subrange(0, e0.len() as int));
                }
                i += 1;
            }
            proof {
                assert(iv.subrange(0, i as int) =~= iv);
            }
            let res = disambig_walk(result, env, next);
            env.truncate(mark);
            proof {
                assert(env@ =~= e_in);
            }
            Node::Block { items: out, result: Box::new(res) }
        },
        Node::If { cond, then_branch, else_branch } => {
            assert(n@ == Tree::If {
                cond: Box::new(node_view(**cond)),
                then_branch: Box::new(node_view(**then_branch)),
                else_branch: Box::new(node_view(**else_branch)),
            });
            let c = disambig_walk(cond, env, next);
            let ghost e1 = env@;
            let mark = env.len();
            let t = disambig_walk(then_branch, env, next);
            env.truncate(mark);
            assert(env@ =~= e1);
            let f = disambig_walk(else_branch, env, next);
            env.truncate(mark);
            proof {
                assert(env@ =~= e1);
                assert(env@.subrange(0, e_in.len() as int) =~= e1.subrange(0, e_in.len() as int));
            }
            Node::If { cond: Box::new(c), then_branch: Box::new(t), else_branch: Box::new(f) }
        },
        Node::Func { args, body } => {
            assert(n@ == Tree::Func { args: args@, body: Box::new(node_view(**body)) });
            let mark = env.len();
            let mut i: usize = 0;
            while i < args.len()
                invariant
                    0 <= i <= args@.len(),
                    mark == e_in.len(),
                    env@ == e_in + arg_pairs(args@.subrange(0, i as int)),
                decreases args.len() - i,
            {
                let ghost before = env@;
                env.push((args[i].id, args[i].id));
                proof {
                    assert(env@ =~= e_in + arg_pairs(args@.subrange(0, i + 1)));
                }
                i += 1;
            }
            proof {
                assert(args@.subrange(0, i as int) =~= args@);
            }
            let b = disambig_walk(body, env, next);
            env.truncate(mark);
            proof {
                assert(env@ =~= e_in);
            }
            let mut a: Vec<FuncArg> = Vec::new();
            let mut i: usize = 0;
            while i < args.len()
                invariant
                    0 <= i <= args@.len(),
                    a@ == args@.subrange(0, i as int),
                decreases args.len() - i,
            {
                a.push(args[i]);
                i += 1;
                proof {
                    assert(a@ =~= args@.subrange(0, i as int));
                }
            }
            proof {
                assert(a@ =~= args@);
            }
            Node::Func { args: a, body: Box::new(b) }
        },
        Node::Op { kind, payload, children } => {
            assert(n@ == Tree::Op { kind: *kind, payload: *payload, children: nodes_view(children@) });
            let cs = disambig_seq(children, env, next);
            Node::Op { kind: *kind, payload: *payload, children: cs }
        },
    }
}

/// Alpha-rename every ValDef to a globally fresh id (above the largest id
/// of the tree) and every ValUse to the id of its binder, as `dis` states
/// from an empty environment.
pub fn disambiguate_val_ids(expr: Node) -> (r: Node)
    requires
        count_valdefs(expr@) < u32::MAX,
        forall|x: u32| occurs_id(expr@, x) ==> x + 1 + count_valdefs(expr@) <= u32::MAX,
    ensures
        exists|m: u32| is_max_id(expr@, m) && r@ == dis(expr@, Seq::empty(), (m + 1) as nat).0,
{
    let max = find_max_val_id(&expr);
    proof {
        if max != 0 {
            assert(occurs_id(expr@, max));
        }
    }
    let mut env: Vec<(u32, u32)> = Vec::new();
    let mut next = max + 1;
    let r = disambig_walk(&expr, &mut env, &mut next);
    assert(is_max_id(expr@, max));
    r
}

} // verus!
