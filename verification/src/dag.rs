use vstd::prelude::*;

use crate::node::{clone_node, node_eq, node_view, nodes_view, Node, OpKind, Tree};
use crate::schedule::walk_children;
use crate::thunk_scope::{direct_children_scope, lazy_binop, scope_children};
use crate::walk::{direct_children, tree_children};

use crate::hash_cons::HashCons;

verus! {

/// What the passes read of types and operators: the type tag of the value
/// of an operator, indexed by its payload; the tag of the big-integer type;
/// and, indexed by payload, whether a `BinOp` is the `==` or `!=`
/// comparison, an arithmetic operator, or a relation (comparison); and
/// which hash-cons walk, if any, gates the extractions of the graph passes;
/// and whether a branch pass drops its ValUse and relational `BinOp`
/// candidates before extracting.
/// ValUse and FuncValue-argument types carry their tags themselves.
pub struct TypeTags {
    pub op_types: Vec<u32>,
    pub big_int: u32,
    pub equality_ops: Vec<bool>,
    pub arith_ops: Vec<bool>,
    pub relation_ops: Vec<bool>,
    pub hash_cons: HashCons,
    pub narrow_branch: bool,
}

/// The type tag of an operator with `payload`; 0 where the table has none.
pub open spec fn payload_type(payload: u32, op_types: Seq<u32>) -> u32 {
    if payload < op_types.len() {
        op_types[payload as int]
    } else {
        0
    }
}

fn payload_type_of(payload: u32, tags: &TypeTags) -> (r: u32)
    ensures
        r == payload_type(payload, tags.op_types@),
{
    if (payload as usize) < tags.op_types.len() {
        tags.op_types[payload as usize]
    } else {
        0
    }
}

/// The type tag of the value of `t`: that of an operator by its payload,
/// a ValUse's own, a block's result, an If's branch, a ValDef's right-hand
/// side; 0 for a FuncValue, whose function type has no tag here.
pub open spec fn type_of(t: Tree, op_types: Seq<u32>) -> u32
    decreases t,
{
    match t {
        Tree::Op { payload, .. } => payload_type(payload, op_types),
        Tree::ValUse { tpe, .. } => tpe,
        Tree::Block { result, .. } => type_of(*result, op_types),
        Tree::If { then_branch, .. } => type_of(*then_branch, op_types),
        Tree::ValDef { rhs, .. } => type_of(*rhs, op_types),
        Tree::Func { .. } => 0,
    }
}

/// The type tag of `expr`, as `type_of` says.
pub fn expr_type(expr: &Node, tags: &TypeTags) -> (r: u32)
    ensures
        r == type_of(expr@, tags.op_types@),
    decreases expr,
{
    match expr {
        Node::Op { kind, payload, children } => {
            assert(expr@ == Tree::Op { kind: *kind, payload: *payload, children: nodes_view(children@) });
            payload_type_of(*payload, tags)
        },
        Node::ValUse { tpe, .. } => *tpe,
        Node::Block { items, result } => {
            assert(expr@ == Tree::Block {
                items: nodes_view(items@),
                result: Box::new(node_view(**result)),
            });
            expr_type(result, tags)
        },
        Node::If { cond, then_branch, else_branch } => {
            assert(expr@ == Tree::If {
                cond: Box::new(node_view(**cond)),
                then_branch: Box::new(node_view(**then_branch)),
                else_branch: Box::new(node_view(**else_branch)),
            });
            expr_type(then_branch, tags)
        },
        Node::ValDef { id, rhs } => {
            assert(expr@ == Tree::ValDef { id: *id, rhs: Box::new(node_view(**rhs)) });
            expr_type(rhs, tags)
        },
        Node::Func { .. } => 0,
    }
}

/// A constant of the big-integer type.
pub open spec fn big_int_const(t: Tree, tags_op: Seq<u32>, big_int: u32) -> bool {
    match t {
        Tree::Op { kind, payload, .. } => kind == OpKind::Const && payload_type(payload, tags_op)
            == big_int,
        _ => false,
    }
}

/// A candidate for common-subexpression extraction: an operator other
/// than a constant, placeholder, context or global value, `sigmaProp`,
/// `allOf`/`anyOf` of sigma propositions; or a big-integer constant.
pub open spec fn collectible(t: Tree, tags_op: Seq<u32>, big_int: u32) -> bool {
    match t {
        Tree::Op { kind, .. } => if kind == OpKind::Const {
            big_int_const(t, tags_op, big_int)
        } else {
            match kind {
                OpKind::ConstPlaceholder | OpKind::GlobalVars | OpKind::Context | OpKind::Global
                | OpKind::BoolToSigmaProp | OpKind::SigmaAnd | OpKind::SigmaOr => false,
                _ => true,
            }
        },
        _ => false,
    }
}

/// Whether `expr` is a candidate, as `collectible` says.
pub fn is_collectible(expr: &Node, tags: &TypeTags) -> (r: bool)
    ensures
        r == collectible(expr@, tags.op_types@, tags.big_int),
{
    match expr {
        Node::Op { kind, payload, children } => {
            assert(expr@ == Tree::Op { kind: *kind, payload: *payload, children: nodes_view(children@) });
            match kind {
                OpKind::Const => payload_type_of(*payload, tags) == tags.big_int,
                OpKind::ConstPlaceholder | OpKind::GlobalVars | OpKind::Context | OpKind::Global
                | OpKind::BoolToSigmaProp | OpKind::SigmaAnd | OpKind::SigmaOr => false,
                _ => true,
            }
        },
        _ => false,
    }
}

/// An expression that may become the right-hand side of an extracted
/// ValDef: an operator other than a constant placeholder, global value,
/// context or global object, and big-integer constants; If, ValUse,
/// ValDef, block and FuncValue are not.
pub open spec fn extractable(t: Tree, tags_op: Seq<u32>, big_int: u32) -> bool {
    match t {
        Tree::Op { kind, .. } => if kind == OpKind::Const {
            big_int_const(t, tags_op, big_int)
        } else {
            match kind {
                OpKind::ConstPlaceholder | OpKind::GlobalVars | OpKind::Context
                | OpKind::Global => false,
                _ => true,
            }
        },
        Tree::If { .. } => true,
        _ => false,
    }
}

/// Whether `expr` is extractable, as `extractable` says.
pub fn is_extractable(expr: &Node, tags: &TypeTags) -> (r: bool)
    ensures
        r == extractable(expr@, tags.op_types@, tags.big_int),
{
    match expr {
        Node::Op { kind, payload, children } => {
            assert(expr@ == Tree::Op { kind: *kind, payload: *payload, children: nodes_view(children@) });
            match kind {
                OpKind::Const => payload_type_of(*payload, tags) == tags.big_int,
                OpKind::ConstPlaceholder | OpKind::GlobalVars | OpKind::Context
                | OpKind::Global => false,
                _ => true,
            }
        },
        Node::If { .. } => true,
        _ => false,
    }
}


/// How many leading operands of an operator of kind `k` with `n` operands
/// the candidate collection walks into: the input of a collection lambda
/// operator, the input and zero of a Fold, every operand of the kinds
/// below, none of any other kind.
pub open spec fn subexpr_arity(k: OpKind, n: nat) -> nat {
    match k {
        OpKind::Filter | OpKind::Exists | OpKind::ForAll | OpKind::CollMap => if n < 1 {
            n
        } else {
            1
        },
        OpKind::Fold => if n < 2 {
            n
        } else {
            2
        },
        OpKind::BinOp | OpKind::BoolToSigmaProp | OpKind::PropertyCall | OpKind::MethodCall
        | OpKind::ByteArrayToBigInt | OpKind::ExtractAmount | OpKind::ExtractRegisterAs
        | OpKind::ExtractScriptBytes | OpKind::ExtractBytes | OpKind::ExtractId
        | OpKind::ExtractCreationInfo | OpKind::SizeOf | OpKind::ByIndex | OpKind::SelectField
        | OpKind::OptionGet | OpKind::OptionIsDefined | OpKind::OptionGetOrElse | OpKind::Slice
        | OpKind::LogicalNot | OpKind::Negation | OpKind::SigmaPropBytes | OpKind::Upcast
        | OpKind::Downcast | OpKind::CalcBlake2b256 | OpKind::SigmaAnd | OpKind::SigmaOr
        | OpKind::Tuple | OpKind::TreeLookup | OpKind::Apply | OpKind::Append
        | OpKind::CreateProveDlog | OpKind::CreateProveDhTuple | OpKind::Atleast | OpKind::And
        | OpKind::Or | OpKind::Collection => n,
        _ => 0,
    }
}

/// The operands walked below an operator: in scope mode only the left
/// operand of `&&` and `||`, otherwise `subexpr_arity` of them.
pub open spec fn walked_operands(kind: OpKind, payload: u32, n: nat, scoped: bool) -> nat {
    if scoped && lazy_binop(kind, payload) {
        if n < 1 {
            n
        } else {
            1
        }
    } else {
        subexpr_arity(kind, n)
    }
}

fn walked_operands_of(kind: OpKind, payload: u32, n: usize, scoped: bool) -> (r: usize)
    ensures
        r == walked_operands(kind, payload, n as nat, scoped),
        r <= n,
{
    if scoped && kind == OpKind::BinOp && (payload == crate::node::BIN_AND || payload
        == crate::node::BIN_OR) {
        if n < 1 {
            n
        } else {
            1
        }
    } else {
        match kind {
            OpKind::Filter | OpKind::Exists | OpKind::ForAll | OpKind::CollMap => if n < 1 {
                n
            } else {
                1
            },
            OpKind::Fold => if n < 2 {
                n
            } else {
                2
            },
            OpKind::BinOp | OpKind::BoolToSigmaProp | OpKind::PropertyCall | OpKind::MethodCall
            | OpKind::ByteArrayToBigInt | OpKind::ExtractAmount | OpKind::ExtractRegisterAs
            | OpKind::ExtractScriptBytes | OpKind::ExtractBytes | OpKind::ExtractId
            | OpKind::ExtractCreationInfo | OpKind::SizeOf | OpKind::ByIndex | OpKind::SelectField
            | OpKind::OptionGet | OpKind::OptionIsDefined | OpKind::OptionGetOrElse | OpKind::Slice
            | OpKind::LogicalNot | OpKind::Negation | OpKind::SigmaPropBytes | OpKind::Upcast
            | OpKind::Downcast | OpKind::CalcBlake2b256 | OpKind::SigmaAnd | OpKind::SigmaOr
            | OpKind::Tuple | OpKind::TreeLookup | OpKind::Apply | OpKind::Append
            | OpKind::CreateProveDlog | OpKind::CreateProveDhTuple | OpKind::Atleast | OpKind::And
            | OpKind::Or | OpKind::Collection => n,
            _ => 0,
        }
    }
}

/// The candidates of `t` in preorder, repeats included: `t` itself when
/// collectible, then those below it through ValDef right-hand sides, block
/// items and result, the condition (and, unless `scoped`, the branches) of
/// an If, and the walked operands of an operator; FuncValue bodies are not
/// entered.
pub open spec fn subexprs(t: Tree, tags_op: Seq<u32>, big_int: u32, scoped: bool) -> Seq<Tree>
    decreases t, 0int,
{
    (if collectible(t, tags_op, big_int) {
        seq![t]
    } else {
        Seq::empty()
    }) + match t {
        Tree::ValDef { rhs, .. } => subexprs(*rhs, tags_op, big_int, scoped),
        Tree::Block { items, result } => subexprs_upto(
            items,
            items.len() as int,
            tags_op,
            big_int,
            scoped,
        ) + subexprs(*result, tags_op, big_int, scoped),
        Tree::If { cond, then_branch, else_branch } => if scoped {
            subexprs(*cond, tags_op, big_int, scoped)
        } else {
            subexprs(*cond, tags_op, big_int, scoped) + subexprs(
                *then_branch,
                tags_op,
                big_int,
                scoped,
            ) + subexprs(*else_branch, tags_op, big_int, scoped)
        },
        Tree::Op { kind, payload, children } => subexprs_upto(
            children,
            walked_operands(kind, payload, children.len(), scoped) as int,
            tags_op,
            big_int,
            scoped,
        ),
        _ => Seq::empty(),
    }
}

/// `subexprs` over the first `k` trees of `s`.
pub open spec fn subexprs_upto(
    s: Seq<Tree>,
    k: int,
    tags_op: Seq<u32>,
    big_int: u32,
    scoped: bool,
) -> Seq<Tree>
    decreases s, k,
{
    if k <= 0 || k > s.len() {
        Seq::empty()
    } else {
        subexprs_upto(s, k - 1, tags_op, big_int, scoped) + subexprs(s[k - 1], tags_op, big_int, scoped)
    }
}

fn collect_sub_upto(
    v: &Vec<Node>,
    k: usize,
    tags: &TypeTags,
    out: &mut Vec<Node>,
    scoped: bool,
)
    requires
        k <= v@.len(),
    ensures
        nodes_view(final(out)@) == nodes_view(old(out)@) + subexprs_upto(
            nodes_view(v@),
            k as int,
            tags.op_types@,
            tags.big_int,
            scoped,
        ),
    decreases v@, 0int,
{
    let ghost s = nodes_view(v@);
    let ghost o0 = nodes_view(out@);
    let mut i: usize = 0;
    assert(nodes_view(out@) =~= o0 + Seq::<Tree>::empty());
    while i < k
        invariant
            0 <= i <= k <= v@.len(),
            s == nodes_view(v@),
            nodes_view(out@) == o0 + subexprs_upto(s, i as int, tags.op_types@, tags.big_int, scoped),
        decreases k - i,
    {
        assert(decreases_to!(v@ => v@[i as int]));
        assert(s[i as int] == node_view(v@[i as int]));
        collect_sub(&v[i], tags, out, scoped);
        assert(nodes_view(out@) =~= o0 + subexprs_upto(s, i + 1, tags.op_types@, tags.big_int, scoped));
        i += 1;
    }
}

fn collect_sub(expr: &Node, tags: &TypeTags, out: &mut Vec<Node>, scoped: bool)
    ensures
        nodes_view(final(out)@) == nodes_view(old(out)@) + subexprs(
            expr@,
            tags.op_types@,
            tags.big_int,
            scoped,
        ),
    decreases expr, 1int,
{
    let ghost o0 = nodes_view(out@);
    let ghost here = if collectible(expr@, tags.op_types@, tags.big_int) {
        seq![expr@]
    } else {
        Seq::<Tree>::empty()
    };
    if is_collectible(expr, tags) {
        out.push(clone_node(expr));
    }
    assert(nodes_view(out@) =~= o0 + here);
    let ghost o1 = nodes_view(out@);
    match expr {
        Node::ValDef { id, rhs } => {
            assert(expr@ == Tree::ValDef { id: *id, rhs: Box::new(node_view(**rhs)) });
            collect_sub(rhs, tags, out, scoped);
        },
        Node::Block { items, result } => {
            assert(expr@ == Tree::Block {
                items: nodes_view(items@),
                result: Box::new(node_view(**result)),
            });
            collect_sub_upto(items, items.len(), tags, out, scoped);
            collect_sub(result, tags, out, scoped);
        },
        Node::If { cond, then_branch, else_branch } => {
            assert(expr@ == Tree::If {
                cond: Box::new(node_view(**cond)),
                then_branch: Box::new(node_view(**then_branch)),
                else_branch: Box::new(node_view(**else_branch)),
            });
            collect_sub(cond, tags, out, scoped);
            if !scoped {
                collect_sub(then_branch, tags, out, scoped);
                collect_sub(else_branch, tags, out, scoped);
            }
        },
        Node::Op { kind, payload, children } => {
            assert(expr@ == Tree::Op { kind: *kind, payload: *payload, children: nodes_view(children@) });
            let k = walked_operands_of(*kind, *payload, children.len(), scoped);
            collect_sub_upto(children, k, tags, out, scoped);
        },
        _ => {},
    }
    assert(nodes_view(out@) =~= o0 + subexprs(expr@, tags.op_types@, tags.big_int, scoped));
}

/// Appends to `out` the candidates of `expr`, as `subexprs` lists them.
pub fn collect_subexprs(expr: &Node, tags: &TypeTags, out: &mut Vec<Node>)
    ensures
        nodes_view(final(out)@) == nodes_view(old(out)@) + subexprs(
            expr@,
            tags.op_types@,
            tags.big_int,
            false,
        ),
{
    collect_sub(expr, tags, out, false)
}

/// Appends to `out` the candidates of `expr` within its own scope, as
/// `subexprs` lists them in scope mode.
pub fn collect_subexprs_scope(expr: &Node, tags: &TypeTags, out: &mut Vec<Node>)
    ensures
        nodes_view(final(out)@) == nodes_view(old(out)@) + subexprs(
            expr@,
            tags.op_types@,
            tags.big_int,
            true,
        ),
{
    collect_sub(expr, tags, out, true)
}


/// The trees of `s` in order of first occurrence, each once.
pub open spec fn distinct_trees(s: Seq<Tree>) -> Seq<Tree>
    decreases s.len(),
{
    if s.len() == 0 {
        Seq::empty()
    } else {
        let d = distinct_trees(s.drop_last());
        if d.contains(s.last()) {
            d
        } else {
            d.push(s.last())
        }
    }
}

/// How many trees of `cs` equal `x`.
pub open spec fn edges_to(cs: Seq<Tree>, x: Tree) -> nat
    decreases cs.len(),
{
    if cs.len() == 0 {
        0
    } else {
        edges_to(cs.drop_last(), x) + if cs.last() == x {
            1nat
        } else {
            0nat
        }
    }
}

/// What a parent whose walked children are `cs` adds to the usage count of
/// `x`: every edge in the plain walk, one per parent in the scoped walk.
pub open spec fn edge_weight(cs: Seq<Tree>, x: Tree, scoped: bool) -> nat {
    if scoped {
        if edges_to(cs, x) > 0 {
            1nat
        } else {
            0nat
        }
    } else {
        edges_to(cs, x)
    }
}

/// What the first `k` trees of `us`, as parents, add to the usage count of
/// `x`.
pub open spec fn parent_edges(us: Seq<Tree>, k: int, x: Tree, scoped: bool) -> nat
    decreases k,
{
    if k <= 0 || k > us.len() {
        0
    } else {
        parent_edges(us, k - 1, x, scoped) + edge_weight(walk_children(us[k - 1], scoped), x, scoped)
    }
}

/// The number of walked children of the first `k` trees of `us`.
pub open spec fn children_total(us: Seq<Tree>, k: int, scoped: bool) -> nat
    decreases k,
{
    if k <= 0 || k > us.len() {
        0
    } else {
        children_total(us, k - 1, scoped) + walk_children(us[k - 1], scoped).len()
    }
}

/// The distinct candidates of `t`.
pub open spec fn dag_nodes(t: Tree, tags_op: Seq<u32>, big_int: u32, scoped: bool) -> Seq<Tree> {
    distinct_trees(subexprs(t, tags_op, big_int, scoped))
}

/// The usage count of candidate `x`, with `t` itself and each distinct
/// candidate of `us` as parents. In the plain walk every edge counts (a
/// parent using `x` twice counts twice); in the scoped walk each parent
/// counts once, `t` apart from a candidate equal to it.
pub open spec fn dag_usage(t: Tree, us: Seq<Tree>, x: Tree, scoped: bool) -> nat {
    edge_weight(walk_children(t, scoped), x, scoped) + parent_edges(us, us.len() as int, x, scoped)
}

proof fn lemma_distinct_no_dup(s: Seq<Tree>)
    ensures
        distinct_trees(s).no_duplicates(),
    decreases s.len(),
{
    if s.len() > 0 {
        lemma_distinct_no_dup(s.drop_last());
    }
}

proof fn lemma_edges_le(cs: Seq<Tree>, x: Tree)
    ensures
        edges_to(cs, x) <= cs.len(),
    decreases cs.len(),
{
    if cs.len() > 0 {
        lemma_edges_le(cs.drop_last(), x);
    }
}

proof fn lemma_weight_le(cs: Seq<Tree>, x: Tree, scoped: bool)
    ensures
        edge_weight(cs, x, scoped) <= edges_to(cs, x) <= cs.len(),
{
    lemma_edges_le(cs, x);
}

pub(crate) fn contains_node(v: &Vec<Node>, x: &Node) -> (r: bool)
    ensures
        r == nodes_view(v@).contains(x@),
{
    let ghost s = nodes_view(v@);
    let mut i: usize = 0;
    while i < v.len()
        invariant
            0 <= i <= v@.len(),
            s == nodes_view(v@),
            forall|j: int| 0 <= j < i ==> s[j] != x@,
        decreases v.len() - i,
    {
        assert(s[i as int] == node_view(v@[i as int]));
        if node_eq(&v[i], x) {
            return true;
        }
        i += 1;
    }
    false
}

pub(crate) fn distinct_nodes(v: &Vec<Node>) -> (r: Vec<Node>)
    ensures
        nodes_view(r@) == distinct_trees(nodes_view(v@)),
{
    let ghost s = nodes_view(v@);
    let mut r: Vec<Node> = Vec::new();
    let mut i: usize = 0;
    assert(s.subrange(0, 0) =~= Seq::<Tree>::empty());
    assert(nodes_view(r@) =~= Seq::<Tree>::empty());
    while i < v.len()
        invariant
            0 <= i <= v@.len(),
            s == nodes_view(v@),
            nodes_view(r@) == distinct_trees(s.subrange(0, i as int)),
        decreases v.len() - i,
    {
        assert(s.subrange(0, i + 1).drop_last() =~= s.subrange(0, i as int));
        assert(s.subrange(0, i + 1).last() == s[i as int]);
        assert(s[i as int] == node_view(v@[i as int]));
        if !contains_node(&r, &v[i]) {
            let ghost before = r@;
            r.push(clone_node(&v[i]));
            assert(nodes_view(r@) =~= nodes_view(before).push(s[i as int]));
        }
        i += 1;
    }
    assert(s.subrange(0, s.len() as int) =~= s);
    r
}

/// The position of `x` among `us`, if it is there.
fn position_of(us: &Vec<Node>, x: &Node) -> (r: Option<usize>)
    ensures
        match r {
            Some(p) => p < us@.len() && nodes_view(us@)[p as int] == x@,
            None => forall|q: int| 0 <= q < us@.len() ==> nodes_view(us@)[q] != x@,
        },
{
    let ghost u = nodes_view(us@);
    let mut j: usize = 0;
    while j < us.len()
        invariant
            0 <= j <= us@.len(),
            u == nodes_view(us@),
            forall|q: int| 0 <= q < j ==> u[q] != x@,
        decreases us.len() - j,
    {
        assert(u[j as int] == node_view(us@[j as int]));
        if node_eq(&us[j], x) {
            return Some(j);
        }
        j += 1;
    }
    None
}

/// Adds to the count of each tree of `us` what a parent with children `cs`
/// contributes to it (`edge_weight`).
fn add_edges(
    us: &Vec<Node>,
    cs: &Vec<&Node>,
    counts: &mut Vec<usize>,
    scoped: bool,
    Ghost(bound): Ghost<nat>,
)
    requires
        nodes_view(us@).no_duplicates(),
        old(counts)@.len() == us@.len(),
        forall|i: int| 0 <= i < us@.len() ==> old(counts)@[i] + cs@.len() <= bound,
        bound <= usize::MAX,
    ensures
        final(counts)@.len() == us@.len(),
        forall|i: int|
            0 <= i < us@.len() ==> final(counts)@[i] == old(counts)@[i] + edge_weight(
                Seq::new(cs@.len(), |j: int| (*cs@[j])@),
                nodes_view(us@)[i],
                scoped,
            ),
{
    let ghost u = nodes_view(us@);
    let ghost cv = Seq::new(cs@.len(), |j: int| (*cs@[j])@);
    let ghost c0 = counts@;
    let mut hit: Vec<bool> = Vec::new();
    let mut h: usize = 0;
    while h < us.len()
        invariant
            0 <= h <= us@.len(),
            hit@ == Seq::new(h as nat, |j: int| false),
        decreases us.len() - h,
    {
        hit.push(false);
        assert(hit@ =~= Seq::new((h + 1) as nat, |j: int| false));
        h += 1;
    }
    assert(cv.subrange(0, 0) =~= Seq::<Tree>::empty());
    let mut k: usize = 0;
    while k < cs.len()
        invariant
            0 <= k <= cs@.len(),
            u == nodes_view(us@),
            u.no_duplicates(),
            cv == Seq::new(cs@.len(), |j: int| (*cs@[j])@),
            counts@.len() == us@.len(),
            hit@.len() == us@.len(),
            c0.len() == us@.len(),
            forall|i: int| 0 <= i < us@.len() ==> c0[i] + cs@.len() <= bound,
            bound <= usize::MAX,
            forall|i: int|
                0 <= i < us@.len() ==> #[trigger] hit@[i] == (edges_to(
                    cv.subrange(0, k as int),
                    u[i],
                ) > 0),
            forall|i: int|
                0 <= i < us@.len() ==> #[trigger] counts@[i] == c0[i] + edge_weight(
                    cv.subrange(0, k as int),
                    u[i],
                    scoped,
                ),
        decreases cs.len() - k,
    {
        assert(cv.subrange(0, k + 1).drop_last() =~= cv.subrange(0, k as int));
        assert(cv.subrange(0, k + 1).last() == cv[k as int]);
        let found = position_of(us, cs[k]);
        match found {
            Some(p) => {
                assert(u[p as int] == cv[k as int]);
                proof {
                    lemma_weight_le(cv.subrange(0, k as int), u[p as int], scoped);
                }
                assert(counts@[p as int] == c0[p as int] + edge_weight(
                    cv.subrange(0, k as int),
                    u[p as int],
                    scoped,
                ));
                if !scoped || !hit[p] {
                    counts.set(p, counts[p] + 1);
                }
                hit.set(p, true);
                assert forall|i: int| 0 <= i < us@.len() implies #[trigger] counts@[i] == c0[i]
                    + edge_weight(cv.subrange(0, k + 1), u[i], scoped) && #[trigger] hit@[i] == (
                edges_to(cv.subrange(0, k + 1), u[i]) > 0) by {
                    if i != p {
                        assert(u[i] != u[p as int]);
                    }
                }
            },
            None => {
                assert forall|i: int| 0 <= i < us@.len() implies #[trigger] counts@[i] == c0[i]
                    + edge_weight(cv.subrange(0, k + 1), u[i], scoped) && #[trigger] hit@[i] == (
                edges_to(cv.subrange(0, k + 1), u[i]) > 0) by {
                    assert(u[i] != cv[k as int]);
                }
            },
        }
        k += 1;
    }
    assert(cv.subrange(0, cs@.len() as int) =~= cv);
}


proof fn lemma_children_total_mono(us: Seq<Tree>, k: int, m: int, scoped: bool)
    requires
        0 <= k <= m <= us.len(),
    ensures
        children_total(us, k, scoped) <= children_total(us, m, scoped),
    decreases m - k,
{
    if k < m {
        lemma_children_total_mono(us, k, m - 1, scoped);
    }
}

/// The walked children of `expr`, as `walk_children` says.
fn walked_children(expr: &Node, scoped: bool) -> (r: Vec<&Node>)
    ensures
        Seq::new(r@.len(), |j: int| (*r@[j])@) == walk_children(expr@, scoped),
{
    let r = if scoped {
        direct_children_scope(expr)
    } else {
        direct_children(expr)
    };
    assert(Seq::new(r@.len(), |j: int| (*r@[j])@) =~= walk_children(expr@, scoped));
    r
}

fn dag_usages(expr: &Node, tags: &TypeTags, scoped: bool) -> (r: Vec<(Node, usize)>)
    requires
        walk_children(expr@, scoped).len() + children_total(
            dag_nodes(expr@, tags.op_types@, tags.big_int, scoped),
            dag_nodes(expr@, tags.op_types@, tags.big_int, scoped).len() as int,
            scoped,
        ) <= usize::MAX,
    ensures
        r@.len() == dag_nodes(expr@, tags.op_types@, tags.big_int, scoped).len(),
        forall|i: int|
            0 <= i < r@.len() ==> (#[trigger] r@[i]).0@ == dag_nodes(
                expr@,
                tags.op_types@,
                tags.big_int,
                scoped,
            )[i] && r@[i].1 == dag_usage(
                expr@,
                dag_nodes(expr@, tags.op_types@, tags.big_int, scoped),
                dag_nodes(expr@, tags.op_types@, tags.big_int, scoped)[i],
                scoped,
            ),
{
    let ghost us = dag_nodes(expr@, tags.op_types@, tags.big_int, scoped);
    let mut all: Vec<Node> = Vec::new();
    collect_sub(expr, tags, &mut all, scoped);
    assert(nodes_view(all@) =~= subexprs(expr@, tags.op_types@, tags.big_int, scoped));
    let unique = distinct_nodes(&all);
    proof {
        lemma_distinct_no_dup(nodes_view(all@));
    }
    let m = unique.len();
    let ghost rootc = walk_children(expr@, scoped);
    let ghost total = rootc.len() + children_total(us, us.len() as int, scoped);
    let mut counts: Vec<usize> = Vec::new();
    let mut i: usize = 0;
    while i < m
        invariant
            0 <= i <= m,
            m == unique@.len(),
            counts@ == Seq::new(i as nat, |j: int| 0usize),
        decreases m - i,
    {
        counts.push(0);
        assert(counts@ =~= Seq::new((i + 1) as nat, |j: int| 0usize));
        i += 1;
    }
    let root = walked_children(expr, scoped);
    proof {
        lemma_children_total_mono(us, 0, us.len() as int, scoped);
    }
    add_edges(&unique, &root, &mut counts, scoped, Ghost(total));
    proof {
        assert forall|i: int| 0 <= i < m implies counts@[i] <= rootc.len() + children_total(
            us,
            0,
            scoped,
        ) by {
            lemma_weight_le(rootc, us[i], scoped);
        }
    }
    let mut p: usize = 0;
    while p < m
        invariant
            0 <= p <= m,
            m == unique@.len(),
            us == nodes_view(unique@),
            us.no_duplicates(),
            rootc == walk_children(expr@, scoped),
            total == rootc.len() + children_total(us, us.len() as int, scoped),
            total <= usize::MAX,
            counts@.len() == m,
            forall|i: int|
                0 <= i < m ==> #[trigger] counts@[i] == edge_weight(rootc, us[i], scoped) + parent_edges(
                    us,
                    p as int,
                    us[i],
                    scoped,
                ),
            forall|i: int|
                0 <= i < m ==> counts@[i] <= rootc.len() + children_total(us, p as int, scoped),
        decreases m - p,
    {
        assert(us[p as int] == node_view(unique@[p as int]));
        let ch = walked_children(&unique[p], scoped);
        let ghost chv = Seq::new(ch@.len(), |j: int| (*ch@[j])@);
        proof {
            lemma_children_total_mono(us, p + 1, us.len() as int, scoped);
        }
        let ghost before = counts@;
        add_edges(&unique, &ch, &mut counts, scoped, Ghost(total));
        proof {
            assert forall|i: int| 0 <= i < m implies counts@[i] <= rootc.len() + children_total(
                us,
                p + 1,
                scoped,
            ) by {
                lemma_weight_le(chv, us[i], scoped);
            }
        }
        p += 1;
    }
    let mut out: Vec<(Node, usize)> = Vec::new();
    let mut i: usize = 0;
    while i < m
        invariant
            0 <= i <= m,
            m == unique@.len(),
            us == nodes_view(unique@),
            rootc == walk_children(expr@, scoped),
            counts@.len() == m,
            forall|i: int|
                0 <= i < m ==> #[trigger] counts@[i] == edge_weight(rootc, us[i], scoped) + parent_edges(
                    us,
                    m as int,
                    us[i],
                    scoped,
                ),
            out@.len() == i,
            forall|j: int|
                0 <= j < i ==> (#[trigger] out@[j]).0@ == us[j] && out@[j].1 == dag_usage(
                    expr@,
                    us,
                    us[j],
                    scoped,
                ),
        decreases m - i,
    {
        assert(us[i as int] == node_view(unique@[i as int]));
        out.push((clone_node(&unique[i]), counts[i]));
        i += 1;
    }
    out
}

/// Each distinct candidate of `expr` with its usage count, as `dag_nodes`
/// and `dag_usage` say; the counts must fit in `usize`.
pub fn count_dag_usages(expr: &Node, tags: &TypeTags) -> (r: Vec<(Node, usize)>)
    requires
        tree_children(expr@).len() + children_total(
            dag_nodes(expr@, tags.op_types@, tags.big_int, false),
            dag_nodes(expr@, tags.op_types@, tags.big_int, false).len() as int,
            false,
        ) <= usize::MAX,
    ensures
        r@.len() == dag_nodes(expr@, tags.op_types@, tags.big_int, false).len(),
        forall|i: int|
            0 <= i < r@.len() ==> (#[trigger] r@[i]).0@ == dag_nodes(
                expr@,
                tags.op_types@,
                tags.big_int,
                false,
            )[i] && r@[i].1 == dag_usage(
                expr@,
                dag_nodes(expr@, tags.op_types@, tags.big_int, false),
                dag_nodes(expr@, tags.op_types@, tags.big_int, false)[i],
                false,
            ),
{
    dag_usages(expr, tags, false)
}

/// The usage counts within the scope of `expr` (If branches and the lazy
/// operand of `&&` and `||` are not entered), each counting the distinct
/// parents of a candidate rather than its edges.
pub fn count_dag_usages_scope(expr: &Node, tags: &TypeTags) -> (r: Vec<(Node, usize)>)
    requires
        scope_children(expr@).len() + children_total(
            dag_nodes(expr@, tags.op_types@, tags.big_int, true),
            dag_nodes(expr@, tags.op_types@, tags.big_int, true).len() as int,
            true,
        ) <= usize::MAX,
    ensures
        r@.len() == dag_nodes(expr@, tags.op_types@, tags.big_int, true).len(),
        forall|i: int|
            0 <= i < r@.len() ==> (#[trigger] r@[i]).0@ == dag_nodes(
                expr@,
                tags.op_types@,
                tags.big_int,
                true,
            )[i] && r@[i].1 == dag_usage(
                expr@,
                dag_nodes(expr@, tags.op_types@, tags.big_int, true),
                dag_nodes(expr@, tags.op_types@, tags.big_int, true)[i],
                true,
            ),
{
    dag_usages(expr, tags, true)
}

} // verus!
