use vstd::prelude::*;

use crate::node::{clone_node, node_eq, node_view, nodes_view, Node, Tree};
use crate::thunk_scope::{direct_children_scope, lemma_scope_children_count, scope_children};
use crate::walk::{direct_children, lemma_children_count, lemma_prefix_step, node_count, tree_children};

verus! {

/// The sub-expressions the schedule walks below `t`: all direct ones, or
/// (when `scoped`) only those in the scope of `t` itself.
pub open spec fn walk_children(t: Tree, scoped: bool) -> Seq<Tree> {
    if scoped {
        scope_children(t)
    } else {
        tree_children(t)
    }
}

/// Depth-first post-order schedule of the distinct sub-expressions of `t`
/// (structurally equal ones are one node): a tree already in `visited` is
/// skipped; otherwise it is marked, its `walk_children` are scheduled left
/// to right, and it is appended after them. Returns the visited list and
/// the schedule after `t`.
pub open spec fn dfs(t: Tree, visited: Seq<Tree>, schedule: Seq<Tree>, scoped: bool) -> (
    Seq<Tree>,
    Seq<Tree>,
)
    decreases node_count(t),
{
    if visited.contains(t) {
        (visited, schedule)
    } else {
        let (v1, s1) = dfs_seq(
            walk_children(t, scoped),
            visited.push(t),
            schedule,
            node_count(t),
            scoped,
        );
        (v1, s1.push(t))
    }
}

/// `dfs` over the trees of `s` in turn; `bound` exceeds the size of each.
pub open spec fn dfs_seq(
    s: Seq<Tree>,
    visited: Seq<Tree>,
    schedule: Seq<Tree>,
    bound: nat,
    scoped: bool,
) -> (Seq<Tree>, Seq<Tree>)
    decreases bound, s.len(),
{
    if s.len() == 0 {
        (visited, schedule)
    } else {
        let (v1, s1) = dfs_seq(s.drop_last(), visited, schedule, bound, scoped);
        if node_count(s.last()) < bound {
            dfs(s.last(), v1, s1, scoped)
        } else {
            (v1, s1)
        }
    }
}


fn visit(expr: &Node, visited: &mut Vec<Node>, schedule: &mut Vec<Node>, scoped: bool)
    ensures
        (nodes_view(final(visited)@), nodes_view(final(schedule)@)) == dfs(
            expr@,
            nodes_view(old(visited)@),
            nodes_view(old(schedule)@),
            scoped,
        ),
    decreases node_count(expr@),
{
    let ghost v0 = nodes_view(visited@);
    let ghost s0 = nodes_view(schedule@);
    let mut i: usize = 0;
    while i < visited.len()
        invariant
            0 <= i <= visited@.len(),
            v0 == nodes_view(visited@),
            forall|j: int| 0 <= j < i ==> v0[j] != expr@,
        decreases visited.len() - i,
    {
        if node_eq(&visited[i], expr) {
            assert(v0[i as int] == expr@);
            assert(v0.contains(expr@));
            return;
        }
        i += 1;
    }
    assert(!v0.contains(expr@));
    visited.push(clone_node(expr));
    assert(nodes_view(visited@) =~= v0.push(expr@));
    let children = if scoped {
        direct_children_scope(expr)
    } else {
        direct_children(expr)
    };
    let ghost cs = walk_children(expr@, scoped);
    let ghost bound = node_count(expr@);
    proof {
        lemma_children_count(expr@);
        lemma_scope_children_count(expr@);
    }
    let mut j: usize = 0;
    while j < children.len()
        invariant
            0 <= j <= children@.len(),
            children@.len() == cs.len(),
            forall|k: int| 0 <= k < cs.len() ==> (*children@[k])@ == cs[k],
            forall|k: int| 0 <= k < cs.len() ==> node_count(#[trigger] cs[k]) < bound,
            bound == node_count(expr@),
            (nodes_view(visited@), nodes_view(schedule@)) == dfs_seq(
                cs.subrange(0, j as int),
                v0.push(expr@),
                s0,
                bound,
                scoped,
            ),
        decreases children.len() - j,
    {
        proof {
            lemma_prefix_step(cs, j as int);
        }
        assert((*children@[j as int])@ == cs[j as int]);
        visit(children[j], visited, schedule, scoped);
        j += 1;
    }
    assert(cs.subrange(0, cs.len() as int) =~= cs);
    let ghost sched = nodes_view(schedule@);
    schedule.push(clone_node(expr));
    assert(nodes_view(schedule@) =~= sched.push(expr@));
}

/// Schedules `expr` after `visited` and `schedule`, as `dfs` says over all
/// direct sub-expressions.
pub fn dfs_visit(expr: &Node, visited: &mut Vec<Node>, schedule: &mut Vec<Node>)
    ensures
        (nodes_view(final(visited)@), nodes_view(final(schedule)@)) == dfs(
            expr@,
            nodes_view(old(visited)@),
            nodes_view(old(schedule)@),
            false,
        ),
{
    visit(expr, visited, schedule, false)
}

/// Schedules `expr` after `visited` and `schedule`, as `dfs` says over the
/// sub-expressions in scope.
pub fn dfs_visit_scope(expr: &Node, visited: &mut Vec<Node>, schedule: &mut Vec<Node>)
    ensures
        (nodes_view(final(visited)@), nodes_view(final(schedule)@)) == dfs(
            expr@,
            nodes_view(old(visited)@),
            nodes_view(old(schedule)@),
            true,
        ),
{
    visit(expr, visited, schedule, true)
}

/// The depth-first post-order schedule of the distinct sub-expressions of
/// `expr`, as `dfs` says from empty lists.
pub fn dfs_schedule(expr: &Node) -> (r: Vec<Node>)
    ensures
        nodes_view(r@) == dfs(expr@, Seq::empty(), Seq::empty(), false).1,
{
    let mut visited: Vec<Node> = Vec::new();
    let mut schedule: Vec<Node> = Vec::new();
    assert(nodes_view(visited@) =~= Seq::<Tree>::empty());
    assert(nodes_view(schedule@) =~= Seq::<Tree>::empty());
    dfs_visit(expr, &mut visited, &mut schedule);
    schedule
}

/// The schedule of `dfs_schedule` restricted to the scope of `expr`: If
/// branches and the lazy operand of `&&` and `||` are not entered.
pub fn dfs_schedule_scope(expr: &Node) -> (r: Vec<Node>)
    ensures
        nodes_view(r@) == dfs(expr@, Seq::empty(), Seq::empty(), true).1,
{
    let mut visited: Vec<Node> = Vec::new();
    let mut schedule: Vec<Node> = Vec::new();
    assert(nodes_view(visited@) =~= Seq::<Tree>::empty());
    assert(nodes_view(schedule@) =~= Seq::<Tree>::empty());
    dfs_visit_scope(expr, &mut visited, &mut schedule);
    schedule
}

} // verus!
