use vstd::prelude::*;

use crate::node::{clone_args, clone_node, clone_nodes, node_eq, node_view, nodes_view, Node, OpKind, Tree};

verus! {

/// The direct sub-expressions of a tree, in order.
pub open spec fn tree_children(t: Tree) -> Seq<Tree> {
    match t {
        Tree::ValDef { rhs, .. } => seq![*rhs],
        Tree::ValUse { .. } => Seq::empty(),
        Tree::Block { items, result } => items.push(*result),
        Tree::If { cond, then_branch, else_branch } => seq![*cond, *then_branch, *else_branch],
        Tree::Func { body, .. } => seq![*body],
        Tree::Op { children, .. } => children,
    }
}

/// Number of expression nodes of a tree.
pub open spec fn node_count(t: Tree) -> nat
    decreases t,
{
    match t {
        Tree::ValDef { rhs, .. } => 1 + node_count(*rhs),
        Tree::ValUse { .. } => 1,
        Tree::Block { items, result } => 1 + node_count_seq(items) + node_count(*result),
        Tree::If { cond, then_branch, else_branch } => 1 + node_count(*cond) + node_count(
            *then_branch,
        ) + node_count(*else_branch),
        Tree::Func { body, .. } => 1 + node_count(*body),
        Tree::Op { children, .. } => 1 + node_count_seq(children),
    }
}

pub open spec fn node_count_seq(s: Seq<Tree>) -> nat
    decreases s,
{
    if s.len() == 0 {
        0
    } else {
        node_count_seq(s.drop_last()) + node_count(s.last())
    }
}

pub proof fn lemma_prefix_step<A>(s: Seq<A>, i: int)
    requires
        0 <= i < s.len(),
    ensures
        s.subrange(0, i + 1).drop_last() == s.subrange(0, i),
        s.subrange(0, i + 1).last() == s[i],
{
    assert(s.subrange(0, i + 1).drop_last() =~= s.subrange(0, i));
}

pub proof fn lemma_node_count_prefix(s: Seq<Tree>, i: int)
    requires
        0 <= i <= s.len(),
    ensures
        node_count_seq(s.subrange(0, i)) <= node_count_seq(s),
    decreases s.len(),
{
    if i < s.len() {
        assert(s.subrange(0, i) == s.drop_last().subrange(0, i));
        lemma_node_count_prefix(s.drop_last(), i);
    } else {
        assert(s.subrange(0, i) == s);
    }
}

/// The direct sub-expressions of a node, in order.
pub fn direct_children(expr: &Node) -> (r: Vec<&Node>)
    ensures
        r@.len() == tree_children(expr@).len(),
        forall|i: int| 0 <= i < r@.len() ==> (*r@[i])@ == tree_children(expr@)[i],
{
    match expr {
        Node::ValDef { id, rhs } => {
            assert(expr@ == Tree::ValDef { id: *id, rhs: Box::new(node_view(**rhs)) });
            let mut v: Vec<&Node> = Vec::new();
            v.push(&**rhs);
            v
        },
        Node::ValUse { .. } => Vec::new(),
        Node::Block { items, result } => {
            let ghost tc = tree_children(expr@);
            assert(expr@ == Tree::Block { items: nodes_view(items@), result: Box::new(node_view(**result)) });
            assert(tc == nodes_view(items@).push(node_view(**result)));
            let mut v: Vec<&Node> = Vec::new();
            let mut i: usize = 0;
            while i < items.len()
                invariant
                    0 <= i <= items@.len(),
                    v@.len() == i,
                    forall|j: int| 0 <= j < i ==> (*v@[j])@ == node_view(items@[j]),
                decreases items.len() - i,
            {
                v.push(&items[i]);
                i += 1;
            }
            v.push(&**result);
            proof {
                assert forall|i: int| 0 <= i < v@.len() implies (*v@[i])@ == tc[i] by {
                    if i < items@.len() {
                        assert(tc[i] == nodes_view(items@)[i]);
                    }
                }
            }
            v
        },
        Node::If { cond, then_branch, else_branch } => {
            assert(expr@ == Tree::If {
                cond: Box::new(node_view(**cond)),
                then_branch: Box::new(node_view(**then_branch)),
                else_branch: Box::new(node_view(**else_branch)),
            });
            let mut v: Vec<&Node> = Vec::new();
            v.push(&**cond);
            v.push(&**then_branch);
            v.push(&**else_branch);
            v
        },
        Node::Func { args, body } => {
            assert(expr@ == Tree::Func { args: args@, body: Box::new(node_view(**body)) });
            let mut v: Vec<&Node> = Vec::new();
            v.push(&**body);
            v
        },
        Node::Op { kind, payload, children } => {
            assert(expr@ == Tree::Op { kind: *kind, payload: *payload, children: nodes_view(children@) });
            let mut v: Vec<&Node> = Vec::new();
            let mut i: usize = 0;
            while i < children.len()
                invariant
                    0 <= i <= children@.len(),
                    v@.len() == i,
                    forall|j: int| 0 <= j < i ==> (*v@[j])@ == node_view(children@[j]),
                decreases children.len() - i,
            {
                v.push(&children[i]);
                i += 1;
            }
            v
        },
    }
}


/// Operator kinds whose operands `count_occurrences` looks into.
pub open spec fn counted_kind(k: OpKind) -> bool {
    match k {
        OpKind::And | OpKind::Apply | OpKind::Atleast | OpKind::BinOp | OpKind::BoolToSigmaProp
        | OpKind::ByIndex | OpKind::ByteArrayToBigInt | OpKind::CalcBlake2b256
        | OpKind::Collection | OpKind::CreateProveDhTuple | OpKind::Downcast | OpKind::Exists
        | OpKind::ExtractAmount | OpKind::ExtractBytes | OpKind::ExtractCreationInfo
        | OpKind::ExtractId | OpKind::ExtractRegisterAs | OpKind::ExtractScriptBytes
        | OpKind::Filter | OpKind::Fold | OpKind::ForAll | OpKind::LogicalNot | OpKind::CollMap
        | OpKind::MethodCall | OpKind::Negation | OpKind::OptionGet | OpKind::OptionGetOrElse
        | OpKind::OptionIsDefined | OpKind::Or | OpKind::PropertyCall | OpKind::SelectField
        | OpKind::SigmaAnd | OpKind::SigmaOr | OpKind::SigmaPropBytes | OpKind::SizeOf
        | OpKind::Slice | OpKind::TreeLookup | OpKind::Tuple | OpKind::Upcast => true,
        _ => false,
    }
}

pub(crate) fn is_counted_kind(k: OpKind) -> (r: bool)
    ensures
        r == counted_kind(k),
{
    match k {
        OpKind::And | OpKind::Apply | OpKind::Atleast | OpKind::BinOp | OpKind::BoolToSigmaProp
        | OpKind::ByIndex | OpKind::ByteArrayToBigInt | OpKind::CalcBlake2b256
        | OpKind::Collection | OpKind::CreateProveDhTuple | OpKind::Downcast | OpKind::Exists
        | OpKind::ExtractAmount | OpKind::ExtractBytes | OpKind::ExtractCreationInfo
        | OpKind::ExtractId | OpKind::ExtractRegisterAs | OpKind::ExtractScriptBytes
        | OpKind::Filter | OpKind::Fold | OpKind::ForAll | OpKind::LogicalNot | OpKind::CollMap
        | OpKind::MethodCall | OpKind::Negation | OpKind::OptionGet | OpKind::OptionGetOrElse
        | OpKind::OptionIsDefined | OpKind::Or | OpKind::PropertyCall | OpKind::SelectField
        | OpKind::SigmaAnd | OpKind::SigmaOr | OpKind::SigmaPropBytes | OpKind::SizeOf
        | OpKind::Slice | OpKind::TreeLookup | OpKind::Tuple | OpKind::Upcast => true,
        _ => false,
    }
}

/// How many times `target` occurs in `t`: the node itself counts when it
/// equals `target`, and the search goes on below it through ValDef,
/// Block, If and FuncValue bodies and the operands of the counted kinds.
pub open spec fn occurrences(t: Tree, target: Tree) -> nat
    decreases t,
{
    (if t == target {
        1nat
    } else {
        0nat
    }) + match t {
        Tree::ValDef { rhs, .. } => occurrences(*rhs, target),
        Tree::ValUse { .. } => 0nat,
        Tree::Block { items, result } => occurrences_seq(items, target) + occurrences(
            *result,
            target,
        ),
        Tree::If { cond, then_branch, else_branch } => occurrences(*cond, target) + occurrences(
            *then_branch,
            target,
        ) + occurrences(*else_branch, target),
        Tree::Func { body, .. } => occurrences(*body, target),
        Tree::Op { kind, children, .. } => if counted_kind(kind) {
            occurrences_seq(children, target)
        } else {
            0nat
        },
    }
}

pub open spec fn occurrences_seq(s: Seq<Tree>, target: Tree) -> nat
    decreases s,
{
    if s.len() == 0 {
        0
    } else {
        occurrences_seq(s.drop_last(), target) + occurrences(s.last(), target)
    }
}

/// Nothing occurs in a tree more often than it has nodes.
pub proof fn lemma_occurrences_le_count(t: Tree, target: Tree)
    ensures
        occurrences(t, target) <= node_count(t),
    decreases t,
{
    match t {
        Tree::ValDef { rhs, .. } => lemma_occurrences_le_count(*rhs, target),
        Tree::ValUse { .. } => {},
        Tree::Block { items, result } => {
            lemma_occurrences_le_count_seq(items, target);
            lemma_occurrences_le_count(*result, target);
        },
        Tree::If { cond, then_branch, else_branch } => {
            lemma_occurrences_le_count(*cond, target);
            lemma_occurrences_le_count(*then_branch, target);
            lemma_occurrences_le_count(*else_branch, target);
        },
        Tree::Func { body, .. } => lemma_occurrences_le_count(*body, target),
        Tree::Op { children, .. } => lemma_occurrences_le_count_seq(children, target),
    }
}

pub proof fn lemma_occurrences_le_count_seq(s: Seq<Tree>, target: Tree)
    ensures
        occurrences_seq(s, target) <= node_count_seq(s),
    decreases s,
{
    if s.len() > 0 {
        lemma_occurrences_le_count_seq(s.drop_last(), target);
        lemma_occurrences_le_count(s.last(), target);
    }
}

fn count_occurrences_seq(v: &Vec<Node>, target: &Node) -> (r: usize)
    requires
        node_count_seq(nodes_view(v@)) <= usize::MAX,
    ensures
        r == occurrences_seq(nodes_view(v@), target@),
        r <= node_count_seq(nodes_view(v@)),
    decreases v@,
{
    let ghost s = nodes_view(v@);
    let mut count: usize = 0;
    let mut i: usize = 0;
    while i < v.len()
        invariant
            0 <= i <= v@.len(),
            s == nodes_view(v@),
            s.len() == v@.len(),
            count == occurrences_seq(s.subrange(0, i as int), target@),
            count <= node_count_seq(s.subrange(0, i as int)),
            node_count_seq(s) <= usize::MAX,
        decreases v.len() - i,
    {
        assert(decreases_to!(v@ => v@[i as int]));
        proof {
            lemma_prefix_step(s, i as int);
            lemma_node_count_prefix(s, i + 1);
            lemma_node_count_prefix(s, i as int);
            assert(s[i as int] == node_view(v@[i as int]));
        }
        let c = count_occurrences(&v[i], target);
        count = count + c;
        i += 1;
    }
    assert(s.subrange(0, s.len() as int) == s);
    count
}

/// Number of times `target` occurs in `expr`, as `occurrences` counts.
pub fn count_occurrences(expr: &Node, target: &Node) -> (r: usize)
    requires
        node_count(expr@) <= usize::MAX,
    ensures
        r == occurrences(expr@, target@),
        r <= node_count(expr@),
    decreases expr,
{
    let here: usize = if node_eq(expr, target) {
        1
    } else {
        0
    };
    match expr {
        Node::ValDef { id, rhs } => {
            assert(expr@ == Tree::ValDef { id: *id, rhs: Box::new(node_view(**rhs)) });
            here + count_occurrences(rhs, target)
        },
        Node::ValUse { .. } => here,
        Node::Block { items, result } => {
            assert(expr@ == Tree::Block {
                items: nodes_view(items@),
                result: Box::new(node_view(**result)),
            });
            let a = count_occurrences_seq(items, target);
            let b = count_occurrences(result, target);
            here + a + b
        },
        Node::If { cond, then_branch, else_branch } => {
            assert(expr@ == Tree::If {
                cond: Box::new(node_view(**cond)),
                then_branch: Box::new(node_view(**then_branch)),
                else_branch: Box::new(node_view(**else_branch)),
            });
            let a = count_occurrences(cond, target);
            let b = count_occurrences(then_branch, target);
            let c = count_occurrences(else_branch, target);
            here + a + b + c
        },
        Node::Func { args, body } => {
            assert(expr@ == Tree::Func { args: args@, body: Box::new(node_view(**body)) });
            here + count_occurrences(body, target)
        },
        Node::Op { kind, payload, children } => {
            assert(expr@ == Tree::Op {
                kind: *kind,
                payload: *payload,
                children: nodes_view(children@),
            });
            if is_counted_kind(*kind) {
                here + count_occurrences_seq(children, target)
            } else {
                here
            }
        },
    }
}


/// Operator kinds that have operands.
pub open spec fn replaced_kind(k: OpKind) -> bool {
    counted_kind(k) || match k {
        OpKind::Append | OpKind::BitInversion | OpKind::ByteArrayToLong | OpKind::CalcSha256
        | OpKind::CreateProveDlog | OpKind::DecodePoint | OpKind::Exponentiate
        | OpKind::ExtractBytesWithNoRef | OpKind::LongToByteArray | OpKind::MultiplyGroup
        | OpKind::SigmaPropIsProven | OpKind::XorOf | OpKind::Xor | OpKind::SubstConstants
        | OpKind::CreateAvlTree | OpKind::DeserializeRegister | OpKind::ZkProofBlock => true,
        _ => false,
    }
}

pub(crate) fn is_replaced_kind(k: OpKind) -> (r: bool)
    ensures
        r == replaced_kind(k),
{
    is_counted_kind(k) || match k {
        OpKind::Append | OpKind::BitInversion | OpKind::ByteArrayToLong | OpKind::CalcSha256
        | OpKind::CreateProveDlog | OpKind::DecodePoint | OpKind::Exponentiate
        | OpKind::ExtractBytesWithNoRef | OpKind::LongToByteArray | OpKind::MultiplyGroup
        | OpKind::SigmaPropIsProven | OpKind::XorOf | OpKind::Xor | OpKind::SubstConstants
        | OpKind::CreateAvlTree | OpKind::DeserializeRegister | OpKind::ZkProofBlock => true,
        _ => false,
    }
}

/// `t` with every outermost occurrence of `target` replaced by `rep`: a
/// node equal to `target` becomes `rep` (and is not searched further);
/// otherwise the search goes on below it through every sub-expression,
/// lambda bodies included.
pub open spec fn replaced(t: Tree, target: Tree, rep: Tree) -> Tree
    decreases t,
{
    if t == target {
        rep
    } else {
        match t {
            Tree::ValDef { id, rhs } => Tree::ValDef {
                id,
                rhs: Box::new(replaced(*rhs, target, rep)),
            },
            Tree::ValUse { .. } => t,
            Tree::Block { items, result } => Tree::Block {
                items: replaced_seq(items, target, rep),
                result: Box::new(replaced(*result, target, rep)),
            },
            Tree::If { cond, then_branch, else_branch } => Tree::If {
                cond: Box::new(replaced(*cond, target, rep)),
                then_branch: Box::new(replaced(*then_branch, target, rep)),
                else_branch: Box::new(replaced(*else_branch, target, rep)),
            },
            Tree::Func { args, body } => Tree::Func {
                args,
                body: Box::new(replaced(*body, target, rep)),
            },
            Tree::Op { kind, payload, children } => Tree::Op {
                kind,
                payload,
                children: replaced_seq(children, target, rep),
            },
        }
    }
}

pub open spec fn replaced_seq(s: Seq<Tree>, target: Tree, rep: Tree) -> Seq<Tree>
    decreases s,
{
    Seq::new(
        s.len(),
        |i: int|
            if 0 <= i < s.len() {
                replaced(s[i], target, rep)
            } else {
                rep
            },
    )
}

/// Replacing subtrees by a tree no larger never adds nodes.
pub proof fn lemma_replaced_count(t: Tree, target: Tree, rep: Tree)
    requires
        node_count(rep) <= node_count(target),
    ensures
        node_count(replaced(t, target, rep)) <= node_count(t),
    decreases t,
{
    if t != target {
        match t {
            Tree::ValDef { rhs, .. } => lemma_replaced_count(*rhs, target, rep),
            Tree::ValUse { .. } => {},
            Tree::Block { items, result } => {
                lemma_replaced_count_seq(items, target, rep);
                lemma_replaced_count(*result, target, rep);
            },
            Tree::If { cond, then_branch, else_branch } => {
                lemma_replaced_count(*cond, target, rep);
                lemma_replaced_count(*then_branch, target, rep);
                lemma_replaced_count(*else_branch, target, rep);
            },
            Tree::Func { body, .. } => lemma_replaced_count(*body, target, rep),
            Tree::Op { children, .. } => {
                lemma_replaced_count_seq(children, target, rep);
            },
        }
    }
}

pub proof fn lemma_replaced_count_seq(s: Seq<Tree>, target: Tree, rep: Tree)
    requires
        node_count(rep) <= node_count(target),
    ensures
        node_count_seq(replaced_seq(s, target, rep)) <= node_count_seq(s),
    decreases s,
{
    if s.len() > 0 {
        assert(replaced_seq(s, target, rep).drop_last() =~= replaced_seq(s.drop_last(), target, rep));
        lemma_replaced_count_seq(s.drop_last(), target, rep);
        lemma_replaced_count(s.last(), target, rep);
    }
}

pub(crate) fn replace_all_seq(v: &Vec<Node>, target: &Node, rep: &Node) -> (r: Vec<Node>)
    ensures
        nodes_view(r@) == replaced_seq(nodes_view(v@), target@, rep@),
    decreases v@,
{
    let mut out: Vec<Node> = Vec::new();
    let mut i: usize = 0;
    while i < v.len()
        invariant
            0 <= i <= v@.len(),
            out@.len() == i,
            forall|j: int|
                0 <= j < i ==> node_view(#[trigger] out@[j]) == replaced(
                    node_view(v@[j]),
                    target@,
                    rep@,
                ),
        decreases v.len() - i,
    {
        assert(decreases_to!(v@ => v@[i as int]));
        out.push(replace_all(&v[i], target, rep));
        i += 1;
    }
    assert(nodes_view(out@) =~= replaced_seq(nodes_view(v@), target@, rep@));
    out
}

/// `expr` with `target` replaced by `replacement`, as `replaced` says.
pub fn replace_all(expr: &Node, target: &Node, replacement: &Node) -> (r: Node)
    ensures
        r@ == replaced(expr@, target@, replacement@),
    decreases expr,
{
    if node_eq(expr, target) {
        return clone_node(replacement);
    }
    match expr {
        Node::ValDef { id, rhs } => {
            assert(expr@ == Tree::ValDef { id: *id, rhs: Box::new(node_view(**rhs)) });
            Node::ValDef { id: *id, rhs: Box::new(replace_all(rhs, target, replacement)) }
        },
        Node::ValUse { id, tpe } => Node::ValUse { id: *id, tpe: *tpe },
        Node::Block { items, result } => {
            assert(expr@ == Tree::Block {
                items: nodes_view(items@),
                result: Box::new(node_view(**result)),
            });
            Node::Block {
                items: replace_all_seq(items, target, replacement),
                result: Box::new(replace_all(result, target, replacement)),
            }
        },
        Node::If { cond, then_branch, else_branch } => {
            assert(expr@ == Tree::If {
                cond: Box::new(node_view(**cond)),
                then_branch: Box::new(node_view(**then_branch)),
                else_branch: Box::new(node_view(**else_branch)),
            });
            Node::If {
                cond: Box::new(replace_all(cond, target, replacement)),
                then_branch: Box::new(replace_all(then_branch, target, replacement)),
                else_branch: Box::new(replace_all(else_branch, target, replacement)),
            }
        },
        Node::Func { args, body } => {
            assert(expr@ == Tree::Func { args: args@, body: Box::new(node_view(**body)) });
            Node::Func {
                args: clone_args(args),
                body: Box::new(replace_all(body, target, replacement)),
            }
        },
        Node::Op { kind, payload, children } => {
            assert(expr@ == Tree::Op {
                kind: *kind,
                payload: *payload,
                children: nodes_view(children@),
            });
            Node::Op {
                kind: *kind,
                payload: *payload,
                children: replace_all_seq(children, target, replacement),
            }
        },
    }
}


pub proof fn lemma_seq_elem_count(s: Seq<Tree>, i: int)
    requires
        0 <= i < s.len(),
    ensures
        node_count(s[i]) <= node_count_seq(s),
    decreases s.len(),
{
    if i < s.len() - 1 {
        lemma_seq_elem_count(s.drop_last(), i);
    }
}

pub proof fn lemma_count_single(t: Tree)
    ensures
        node_count_seq(seq![t]) == node_count(t),
{
    assert(seq![t].drop_last() =~= Seq::<Tree>::empty());
    assert(node_count_seq(Seq::<Tree>::empty()) == 0);
}

proof fn lemma_val_uses_single(t: Tree)
    ensures
        val_uses_seq(seq![t]) == val_uses(t),
{
    assert(seq![t].drop_last() =~= Seq::<Tree>::empty());
    assert(val_uses_seq(Seq::<Tree>::empty()) == Seq::<u32>::empty());
    assert(Seq::<u32>::empty() + val_uses(t) =~= val_uses(t));
}

/// A tree counts itself and its direct sub-expressions; each of those is
/// strictly smaller than the tree.
pub proof fn lemma_children_count(t: Tree)
    ensures
        node_count(t) == 1 + node_count_seq(tree_children(t)),
        forall|i: int|
            0 <= i < tree_children(t).len() ==> node_count(#[trigger] tree_children(t)[i])
                < node_count(t),
{
    match t {
        Tree::ValDef { rhs, .. } => {
            lemma_count_single(*rhs);
        },
        Tree::ValUse { .. } => {},
        Tree::Block { items, result } => {
            assert(items.push(*result).drop_last() =~= items);
        },
        Tree::If { cond, then_branch, else_branch } => {
            let cs = seq![*cond, *then_branch, *else_branch];
            let ab = seq![*cond, *then_branch];
            assert(cs.drop_last() =~= ab);
            assert(ab.drop_last() =~= seq![*cond]);
            lemma_count_single(*cond);
            assert(node_count_seq(ab) == node_count(*cond) + node_count(*then_branch));
            assert(node_count_seq(cs) == node_count(*cond) + node_count(*then_branch) + node_count(
                *else_branch,
            ));
        },
        Tree::Func { body, .. } => {
            lemma_count_single(*body);
        },
        Tree::Op { .. } => {},
    }
    assert forall|i: int| 0 <= i < tree_children(t).len() implies node_count(
        #[trigger] tree_children(t)[i],
    ) < node_count(t) by {
        lemma_seq_elem_count(tree_children(t), i);
    }
}

/// Number of expression nodes in `expr`: itself and, recursively, all its
/// sub-expressions.
pub fn expr_size(expr: &Node) -> (r: usize)
    requires
        node_count(expr@) <= usize::MAX,
    ensures
        r == node_count(expr@),
    decreases node_count(expr@),
{
    let children = direct_children(expr);
    let ghost cs = tree_children(expr@);
    proof {
        lemma_children_count(expr@);
    }
    let mut total: usize = 1;
    let mut i: usize = 0;
    while i < children.len()
        invariant
            0 <= i <= children@.len(),
            children@.len() == cs.len(),
            forall|j: int| 0 <= j < cs.len() ==> (*children@[j])@ == cs[j],
            forall|j: int| 0 <= j < cs.len() ==> node_count(#[trigger] cs[j]) < node_count(expr@),
            node_count(expr@) == 1 + node_count_seq(cs),
            node_count(expr@) <= usize::MAX,
            total == 1 + node_count_seq(cs.subrange(0, i as int)),
        decreases children.len() - i,
    {
        proof {
            lemma_prefix_step(cs, i as int);
            lemma_node_count_prefix(cs, i + 1);
        }
        let c = expr_size(children[i]);
        total = total + c;
        i += 1;
    }
    assert(cs.subrange(0, cs.len() as int) == cs);
    total
}

/// `t` holds a ValUse somewhere, itself included.
pub open spec fn has_val_use(t: Tree) -> bool
    decreases t,
{
    match t {
        Tree::ValDef { rhs, .. } => has_val_use(*rhs),
        Tree::ValUse { .. } => true,
        Tree::Block { items, result } => has_val_use_seq(items) || has_val_use(*result),
        Tree::If { cond, then_branch, else_branch } => has_val_use(*cond) || has_val_use(
            *then_branch,
        ) || has_val_use(*else_branch),
        Tree::Func { body, .. } => has_val_use(*body),
        Tree::Op { children, .. } => has_val_use_seq(children),
    }
}

pub open spec fn has_val_use_seq(s: Seq<Tree>) -> bool
    decreases s,
{
    exists|i: int| 0 <= i < s.len() && has_val_use(s[i])
}

proof fn lemma_has_val_use_children(t: Tree)
    ensures
        has_val_use(t) == (t is ValUse || has_val_use_seq(tree_children(t))),
{
    let cs = tree_children(t);
    match t {
        Tree::ValDef { rhs, .. } => {
            if has_val_use(*rhs) {
                assert(cs[0] == *rhs);
            }
        },
        Tree::ValUse { .. } => {},
        Tree::Block { items, result } => {
            if has_val_use_seq(items) {
                let i = choose|i: int| 0 <= i < items.len() && has_val_use(items[i]);
                assert(cs[i] == items[i]);
            }
            if has_val_use(*result) {
                assert(cs[items.len() as int] == *result);
            }
            if has_val_use_seq(cs) {
                let i = choose|i: int| 0 <= i < cs.len() && has_val_use(cs[i]);
                if i < items.len() {
                    assert(cs[i] == items[i]);
                }
            }
        },
        Tree::If { cond, then_branch, else_branch } => {
            if has_val_use(*cond) {
                assert(cs[0] == *cond);
            }
            if has_val_use(*then_branch) {
                assert(cs[1] == *then_branch);
            }
            if has_val_use(*else_branch) {
                assert(cs[2] == *else_branch);
            }
        },
        Tree::Func { body, .. } => {
            if has_val_use(*body) {
                assert(cs[0] == *body);
            }
        },
        Tree::Op { .. } => {},
    }
}

/// Whether `expr` holds a ValUse anywhere, itself included.
pub fn contains_val_use(expr: &Node) -> (r: bool)
    ensures
        r == has_val_use(expr@),
    decreases node_count(expr@),
{
    let children = direct_children(expr);
    let ghost cs = tree_children(expr@);
    proof {
        lemma_children_count(expr@);
        lemma_has_val_use_children(expr@);
    }
    match expr {
        Node::ValUse { id, tpe } => {
            assert(expr@ == Tree::ValUse { id: *id, tpe: *tpe });
            return true;
        },
        _ => {},
    }
    assert(!(expr@ is ValUse));
    let mut i: usize = 0;
    while i < children.len()
        invariant
            0 <= i <= children@.len(),
            children@.len() == cs.len(),
            forall|j: int| 0 <= j < cs.len() ==> (*children@[j])@ == cs[j],
            forall|j: int| 0 <= j < cs.len() ==> node_count(#[trigger] cs[j]) < node_count(expr@),
            forall|j: int| 0 <= j < i ==> !has_val_use(#[trigger] cs[j]),
            has_val_use(expr@) == has_val_use_seq(cs),
        decreases children.len() - i,
    {
        assert((*children@[i as int])@ == cs[i as int]);
        let found = contains_val_use(children[i]);
        if found {
            assert(has_val_use(cs[i as int]));
            return true;
        }
        i += 1;
    }
    false
}

/// The ids of the ValUse nodes of `t`, in preorder.
pub open spec fn val_uses(t: Tree) -> Seq<u32>
    decreases t,
{
    match t {
        Tree::ValDef { rhs, .. } => val_uses(*rhs),
        Tree::ValUse { id, .. } => seq![id],
        Tree::Block { items, result } => val_uses_seq(items) + val_uses(*result),
        Tree::If { cond, then_branch, else_branch } => val_uses(*cond) + val_uses(*then_branch)
            + val_uses(*else_branch),
        Tree::Func { body, .. } => val_uses(*body),
        Tree::Op { children, .. } => val_uses_seq(children),
    }
}

pub open spec fn val_uses_seq(s: Seq<Tree>) -> Seq<u32>
    decreases s,
{
    if s.len() == 0 {
        Seq::empty()
    } else {
        val_uses_seq(s.drop_last()) + val_uses(s.last())
    }
}

proof fn lemma_val_uses_children(t: Tree)
    ensures
        val_uses(t) == (match t {
            Tree::ValUse { id, .. } => seq![id],
            _ => Seq::<u32>::empty(),
        }) + val_uses_seq(tree_children(t)),
{
    match t {
        Tree::ValDef { rhs, .. } => {
            lemma_val_uses_single(*rhs);
            assert(Seq::<u32>::empty() + val_uses(*rhs) =~= val_uses(*rhs));
        },
        Tree::ValUse { id, .. } => {
            assert(seq![id] + Seq::<u32>::empty() =~= seq![id]);
        },
        Tree::Block { items, result } => {
            assert(items.push(*result).drop_last() =~= items);
            assert(Seq::<u32>::empty() + val_uses(t) =~= val_uses(t));
        },
        Tree::If { cond, then_branch, else_branch } => {
            let cs = seq![*cond, *then_branch, *else_branch];
            let ab = seq![*cond, *then_branch];
            assert(cs.drop_last() =~= ab);
            assert(ab.drop_last() =~= seq![*cond]);
            lemma_val_uses_single(*cond);
            assert(val_uses_seq(ab) == val_uses(*cond) + val_uses(*then_branch));
            assert(val_uses_seq(cs) =~= val_uses(*cond) + val_uses(*then_branch) + val_uses(
                *else_branch,
            ));
            assert(Seq::<u32>::empty() + val_uses(t) =~= val_uses(t));
        },
        Tree::Func { body, .. } => {
            lemma_val_uses_single(*body);
            assert(Seq::<u32>::empty() + val_uses(*body) =~= val_uses(*body));
        },
        Tree::Op { .. } => {
            assert(Seq::<u32>::empty() + val_uses(t) =~= val_uses(t));
        },
    }
}

/// Appends to `out` the ids of the ValUse nodes of `expr`, in preorder.
pub fn collect_all_val_uses(expr: &Node, out: &mut Vec<u32>)
    ensures
        final(out)@ == old(out)@ + val_uses(expr@),
    decreases node_count(expr@),
{
    let ghost start = out@;
    if let Node::ValUse { id, tpe } = expr {
        assert(expr@ == Tree::ValUse { id: *id, tpe: *tpe });
        out.push(*id);
    }
    let ghost here = out@;
    let children = direct_children(expr);
    let ghost cs = tree_children(expr@);
    proof {
        lemma_children_count(expr@);
        lemma_val_uses_children(expr@);
        match expr@ {
            Tree::ValUse { id, .. } => {},
            _ => {
                assert(here == start);
            },
        }
    }
    let mut i: usize = 0;
    while i < children.len()
        invariant
            0 <= i <= children@.len(),
            children@.len() == cs.len(),
            forall|j: int| 0 <= j < cs.len() ==> (*children@[j])@ == cs[j],
            forall|j: int| 0 <= j < cs.len() ==> node_count(#[trigger] cs[j]) < node_count(expr@),
            out@ == here + val_uses_seq(cs.subrange(0, i as int)),
        decreases children.len() - i,
    {
        proof {
            lemma_prefix_step(cs, i as int);
        }
        collect_all_val_uses(children[i], out);
        proof {
            assert(out@ =~= here + val_uses_seq(cs.subrange(0, i + 1)));
        }
        i += 1;
    }
    assert(cs.subrange(0, cs.len() as int) == cs);
    proof {
        match expr@ {
            Tree::ValUse { id, .. } => {
                assert(here == start.push(id));
                assert(out@ =~= start + (seq![id] + val_uses_seq(cs)));
            },
            _ => {
                assert(out@ =~= start + (Seq::<u32>::empty() + val_uses_seq(cs)));
            },
        }
    }
}


/// Operator kinds whose operands `contains_func_value` looks into.
pub open spec fn lambda_search_kind(k: OpKind) -> bool {
    match k {
        OpKind::BinOp | OpKind::BoolToSigmaProp | OpKind::ByIndex | OpKind::ByteArrayToBigInt
        | OpKind::CalcBlake2b256 | OpKind::CreateProveDlog | OpKind::Exists
        | OpKind::ExtractAmount | OpKind::ExtractBytes | OpKind::ExtractCreationInfo
        | OpKind::ExtractId | OpKind::ExtractRegisterAs | OpKind::ExtractScriptBytes
        | OpKind::Filter | OpKind::Fold | OpKind::ForAll | OpKind::LogicalNot | OpKind::CollMap
        | OpKind::MethodCall | OpKind::Negation | OpKind::OptionGet | OpKind::OptionIsDefined
        | OpKind::PropertyCall | OpKind::SelectField | OpKind::SigmaAnd | OpKind::SigmaOr
        | OpKind::SigmaPropBytes | OpKind::SizeOf | OpKind::Upcast => true,
        _ => false,
    }
}

fn is_lambda_search_kind(k: OpKind) -> (r: bool)
    ensures
        r == lambda_search_kind(k),
{
    match k {
        OpKind::BinOp | OpKind::BoolToSigmaProp | OpKind::ByIndex | OpKind::ByteArrayToBigInt
        | OpKind::CalcBlake2b256 | OpKind::CreateProveDlog | OpKind::Exists
        | OpKind::ExtractAmount | OpKind::ExtractBytes | OpKind::ExtractCreationInfo
        | OpKind::ExtractId | OpKind::ExtractRegisterAs | OpKind::ExtractScriptBytes
        | OpKind::Filter | OpKind::Fold | OpKind::ForAll | OpKind::LogicalNot | OpKind::CollMap
        | OpKind::MethodCall | OpKind::Negation | OpKind::OptionGet | OpKind::OptionIsDefined
        | OpKind::PropertyCall | OpKind::SelectField | OpKind::SigmaAnd | OpKind::SigmaOr
        | OpKind::SigmaPropBytes | OpKind::SizeOf | OpKind::Upcast => true,
        _ => false,
    }
}

/// `t` is a FuncValue or holds one below a ValDef, Block or If, or below
/// the operands of the searched kinds.
pub open spec fn has_lambda(t: Tree) -> bool
    decreases t,
{
    match t {
        Tree::ValDef { rhs, .. } => has_lambda(*rhs),
        Tree::ValUse { .. } => false,
        Tree::Block { items, result } => has_lambda_seq(items) || has_lambda(*result),
        Tree::If { cond, then_branch, else_branch } => has_lambda(*cond) || has_lambda(
            *then_branch,
        ) || has_lambda(*else_branch),
        Tree::Func { .. } => true,
        Tree::Op { kind, children, .. } => lambda_search_kind(kind) && has_lambda_seq(children),
    }
}

pub open spec fn has_lambda_seq(s: Seq<Tree>) -> bool
    decreases s,
{
    exists|i: int| 0 <= i < s.len() && has_lambda(s[i])
}

fn any_contains_func_value(v: &Vec<Node>) -> (r: bool)
    ensures
        r == has_lambda_seq(nodes_view(v@)),
    decreases v@,
{
    let ghost s = nodes_view(v@);
    let mut i: usize = 0;
    while i < v.len()
        invariant
            0 <= i <= v@.len(),
            s == nodes_view(v@),
            forall|j: int| 0 <= j < i ==> !has_lambda(#[trigger] s[j]),
        decreases v.len() - i,
    {
        assert(decreases_to!(v@ => v@[i as int]));
        assert(s[i as int] == node_view(v@[i as int]));
        let found = contains_func_value(&v[i]);
        if found {
            return true;
        }
        i += 1;
    }
    false
}

/// Whether `expr` holds a FuncValue, as `has_lambda` says.
pub fn contains_func_value(expr: &Node) -> (r: bool)
    ensures
        r == has_lambda(expr@),
    decreases expr,
{
    match expr {
        Node::ValDef { id, rhs } => {
            assert(expr@ == Tree::ValDef { id: *id, rhs: Box::new(node_view(**rhs)) });
            contains_func_value(rhs)
        },
        Node::ValUse { .. } => false,
        Node::Block { items, result } => {
            assert(expr@ == Tree::Block {
                items: nodes_view(items@),
                result: Box::new(node_view(**result)),
            });
            any_contains_func_value(items) || contains_func_value(result)
        },
        Node::If { cond, then_branch, else_branch } => {
            assert(expr@ == Tree::If {
                cond: Box::new(node_view(**cond)),
                then_branch: Box::new(node_view(**then_branch)),
                else_branch: Box::new(node_view(**else_branch)),
            });
            contains_func_value(cond) || contains_func_value(then_branch) || contains_func_value(
                else_branch,
            )
        },
        Node::Func { .. } => true,
        Node::Op { kind, payload, children } => {
            assert(expr@ == Tree::Op {
                kind: *kind,
                payload: *payload,
                children: nodes_view(children@),
            });
            is_lambda_search_kind(*kind) && any_contains_func_value(children)
        },
    }
}

/// `t` is a stable binding: a ValUse, the context, a global variable, or a
/// property read or an indexing whose first operand is stable.
pub open spec fn stable_input(t: Tree) -> bool
    decreases t,
{
    match t {
        Tree::ValUse { .. } => true,
        Tree::Op { kind, children, .. } => if kind == OpKind::GlobalVars || kind
            == OpKind::Context {
            true
        } else if (kind == OpKind::PropertyCall || kind == OpKind::ByIndex) && children.len()
            > 0 {
            stable_input(children[0])
        } else {
            false
        },
        _ => false,
    }
}

/// Whether `expr` is a stable binding, as `stable_input` says.
pub fn is_input_stable(expr: &Node) -> (r: bool)
    ensures
        r == stable_input(expr@),
    decreases expr,
{
    match expr {
        Node::ValUse { .. } => true,
        Node::Op { kind, payload, children } => {
            assert(expr@ == Tree::Op {
                kind: *kind,
                payload: *payload,
                children: nodes_view(children@),
            });
            match kind {
                OpKind::GlobalVars | OpKind::Context => true,
                OpKind::PropertyCall | OpKind::ByIndex => {
                    if children.len() > 0 {
                        assert(decreases_to!(children@ => children@[0]));
                        assert(nodes_view(children@)[0] == node_view(children@[0]));
                        is_input_stable(&children[0])
                    } else {
                        false
                    }
                },
                _ => false,
            }
        },
        _ => {
            assert(!(expr@ is ValUse) && !(expr@ is Op));
            false
        },
    }
}

/// Operator kinds of depth 0.
pub open spec fn depth_leaf_kind(k: OpKind) -> bool {
    match k {
        OpKind::Const | OpKind::GlobalVars | OpKind::Context | OpKind::Global => true,
        _ => false,
    }
}

/// Operator kinds whose depth is one more than their first operand's.
pub open spec fn depth_chain_kind(k: OpKind) -> bool {
    match k {
        OpKind::ExtractAmount | OpKind::ExtractRegisterAs | OpKind::ExtractScriptBytes
        | OpKind::ExtractBytes | OpKind::ExtractId | OpKind::ExtractCreationInfo
        | OpKind::SizeOf | OpKind::PropertyCall | OpKind::MethodCall | OpKind::SelectField
        | OpKind::OptionGet | OpKind::OptionIsDefined | OpKind::ByIndex | OpKind::Upcast
        | OpKind::LogicalNot | OpKind::Negation => true,
        _ => false,
    }
}

/// The depth estimate used to order candidates innermost first: 0 for a
/// ValUse, a constant, the context and the globals; one more than the first
/// operand along accessor chains; one more than the deeper operand of a
/// binary operation; 1 for anything else.
pub open spec fn depth(t: Tree) -> nat
    decreases t,
{
    match t {
        Tree::ValUse { .. } => 0,
        Tree::Op { kind, children, .. } => if depth_leaf_kind(kind) {
            0
        } else if kind == OpKind::BinOp && children.len() >= 2 {
            let l = depth(children[0]);
            let r = depth(children[1]);
            1 + if l >= r {
                l
            } else {
                r
            }
        } else if depth_chain_kind(kind) && children.len() > 0 {
            1 + depth(children[0])
        } else {
            1
        },
        _ => 1,
    }
}

/// The depth estimate of `expr`, as `depth` says.
pub fn expr_depth(expr: &Node) -> (r: usize)
    requires
        node_count(expr@) <= usize::MAX,
    ensures
        r == depth(expr@),
        r <= node_count(expr@),
    decreases expr,
{
    match expr {
        Node::ValUse { .. } => 0,
        Node::Op { kind, payload, children } => {
            let ghost cs = nodes_view(children@);
            assert(expr@ == Tree::Op { kind: *kind, payload: *payload, children: cs });
            proof {
                lemma_children_count(expr@);
            }
            match kind {
                OpKind::Const | OpKind::GlobalVars | OpKind::Context | OpKind::Global => 0,
                OpKind::BinOp => {
                    if children.len() >= 2 {
                        assert(decreases_to!(children@ => children@[0]));
                        assert(decreases_to!(children@ => children@[1]));
                        assert(cs[0] == node_view(children@[0]));
                        assert(cs[1] == node_view(children@[1]));
                        let l = expr_depth(&children[0]);
                        let r = expr_depth(&children[1]);
                        proof {
                            lemma_seq_elem_count(cs, 0);
                            lemma_seq_elem_count(cs, 1);
                            lemma_two_count(cs);
                        }
                        1 + if l >= r {
                            l
                        } else {
                            r
                        }
                    } else {
                        1
                    }
                },
                OpKind::ExtractAmount | OpKind::ExtractRegisterAs | OpKind::ExtractScriptBytes
                | OpKind::ExtractBytes | OpKind::ExtractId | OpKind::ExtractCreationInfo
                | OpKind::SizeOf | OpKind::PropertyCall | OpKind::MethodCall
                | OpKind::SelectField | OpKind::OptionGet | OpKind::OptionIsDefined
                | OpKind::ByIndex | OpKind::Upcast | OpKind::LogicalNot | OpKind::Negation => {
                    if children.len() > 0 {
                        assert(decreases_to!(children@ => children@[0]));
                        assert(cs[0] == node_view(children@[0]));
                        proof {
                            lemma_seq_elem_count(cs, 0);
                        }
                        1 + expr_depth(&children[0])
                    } else {
                        1
                    }
                },
                _ => 1,
            }
        },
        Node::ValDef { id, rhs } => {
            assert(expr@ == Tree::ValDef { id: *id, rhs: Box::new(node_view(**rhs)) });
            1
        },
        Node::Block { items, result } => {
            assert(expr@ == Tree::Block {
                items: nodes_view(items@),
                result: Box::new(node_view(**result)),
            });
            1
        },
        Node::If { cond, then_branch, else_branch } => {
            assert(expr@ == Tree::If {
                cond: Box::new(node_view(**cond)),
                then_branch: Box::new(node_view(**then_branch)),
                else_branch: Box::new(node_view(**else_branch)),
            });
            1
        },
        Node::Func { args, body } => {
            assert(expr@ == Tree::Func { args: args@, body: Box::new(node_view(**body)) });
            1
        },
    }
}

proof fn lemma_two_count(s: Seq<Tree>)
    requires
        s.len() >= 2,
    ensures
        node_count(s[0]) + node_count(s[1]) <= node_count_seq(s),
{
    lemma_node_count_prefix(s, 2);
    let p = s.subrange(0, 2);
    assert(p.drop_last() =~= seq![s[0]]);
    lemma_count_single(s[0]);
}

/// `a` is a prefix of `b`: no longer, and equal element by element.
pub fn path_is_prefix(a: &[String], b: &[String]) -> (r: bool)
    ensures
        r == (a@.len() <= b@.len() && forall|i: int| 0 <= i < a@.len() ==> a@[i]@ == b@[i]@),
{
    if a.len() > b.len() {
        return false;
    }
    let mut i: usize = 0;
    while i < a.len()
        invariant
            a@.len() <= b@.len(),
            0 <= i <= a@.len(),
            forall|j: int| 0 <= j < i ==> a@[j]@ == b@[j]@,
        decreases a.len() - i,
    {
        if a[i] != b[i] {
            return false;
        }
        i += 1;
    }
    true
}


/// Neither `t` nor any sub-expression of it, at any depth and lambda
/// bodies included, equals `x`.
pub open spec fn free_of(t: Tree, x: Tree) -> bool
    decreases t,
{
    t != x && match t {
        Tree::ValDef { rhs, .. } => free_of(*rhs, x),
        Tree::ValUse { .. } => true,
        Tree::Block { items, result } => free_of_seq(items, x) && free_of(*result, x),
        Tree::If { cond, then_branch, else_branch } => free_of(*cond, x) && free_of(*then_branch, x)
            && free_of(*else_branch, x),
        Tree::Func { body, .. } => free_of(*body, x),
        Tree::Op { children, .. } => free_of_seq(children, x),
    }
}

pub open spec fn free_of_seq(s: Seq<Tree>, x: Tree) -> bool
    decreases s,
{
    forall|i: int| 0 <= i < s.len() ==> free_of(#[trigger] s[i], x)
}

/// Replacing leaves a tree as it was, or puts `rep` somewhere in it.
proof fn lemma_replaced_same_or_holds(t: Tree, target: Tree, rep: Tree)
    ensures
        replaced(t, target, rep) == t || !free_of(replaced(t, target, rep), rep),
    decreases t,
{
    if t != target {
        match t {
            Tree::ValDef { id, rhs } => {
                lemma_replaced_same_or_holds(*rhs, target, rep);
            },
            Tree::ValUse { .. } => {},
            Tree::Block { items, result } => {
                lemma_replaced_seq_same_or_holds(items, target, rep);
                lemma_replaced_same_or_holds(*result, target, rep);
            },
            Tree::If { cond, then_branch, else_branch } => {
                lemma_replaced_same_or_holds(*cond, target, rep);
                lemma_replaced_same_or_holds(*then_branch, target, rep);
                lemma_replaced_same_or_holds(*else_branch, target, rep);
            },
            Tree::Func { body, .. } => {
                lemma_replaced_same_or_holds(*body, target, rep);
            },
            Tree::Op { children, .. } => {
                lemma_replaced_seq_same_or_holds(children, target, rep);
            },
        }
    }
}

proof fn lemma_replaced_seq_same_or_holds(s: Seq<Tree>, target: Tree, rep: Tree)
    ensures
        replaced_seq(s, target, rep) == s || !free_of_seq(replaced_seq(s, target, rep), rep),
    decreases s,
{
    let r = replaced_seq(s, target, rep);
    if free_of_seq(r, rep) {
        assert forall|i: int| 0 <= i < s.len() implies r[i] == s[i] by {
            lemma_replaced_same_or_holds(s[i], target, rep);
            assert(free_of(r[i], rep));
        }
        assert(r =~= s);
    }
}

/// Replacing `target` by a tree free of it, where `target` is free of the
/// replacement too, leaves no occurrence of `target` anywhere in the result.
pub proof fn law_replace_all_leaves_no_target(t: Tree, target: Tree, rep: Tree)
    requires
        free_of(rep, target),
        free_of(target, rep),
    ensures
        free_of(replaced(t, target, rep), target),
    decreases t,
{
    if t != target {
        lemma_replaced_same_or_holds(t, target, rep);
        match t {
            Tree::ValDef { id, rhs } => {
                law_replace_all_leaves_no_target(*rhs, target, rep);
            },
            Tree::ValUse { .. } => {},
            Tree::Block { items, result } => {
                lemma_seq_leaves_no_target(items, target, rep);
                law_replace_all_leaves_no_target(*result, target, rep);
            },
            Tree::If { cond, then_branch, else_branch } => {
                law_replace_all_leaves_no_target(*cond, target, rep);
                law_replace_all_leaves_no_target(*then_branch, target, rep);
                law_replace_all_leaves_no_target(*else_branch, target, rep);
            },
            Tree::Func { body, .. } => {
                law_replace_all_leaves_no_target(*body, target, rep);
            },
            Tree::Op { children, .. } => {
                lemma_seq_leaves_no_target(children, target, rep);
            },
        }
    }
}

proof fn lemma_seq_leaves_no_target(s: Seq<Tree>, target: Tree, rep: Tree)
    requires
        free_of(rep, target),
        free_of(target, rep),
    ensures
        free_of_seq(replaced_seq(s, target, rep), target),
    decreases s,
{
    let r = replaced_seq(s, target, rep);
    assert forall|i: int| 0 <= i < r.len() implies free_of(#[trigger] r[i], target) by {
        law_replace_all_leaves_no_target(s[i], target, rep);
    }
}

/// With no occurrence of `target` in `t`, replacing it gives `t` back;
/// and `target` itself is replaced by `rep` as it is.
pub proof fn law_replace_all_without_match(t: Tree, target: Tree, rep: Tree)
    requires
        free_of(t, target),
    ensures
        replaced(t, target, rep) == t,
        replaced(target, target, rep) == rep,
    decreases t,
{
    match t {
        Tree::ValDef { id, rhs } => {
            law_replace_all_without_match(*rhs, target, rep);
        },
        Tree::ValUse { .. } => {},
        Tree::Block { items, result } => {
            lemma_seq_without_match(items, target, rep);
            law_replace_all_without_match(*result, target, rep);
        },
        Tree::If { cond, then_branch, else_branch } => {
            law_replace_all_without_match(*cond, target, rep);
            law_replace_all_without_match(*then_branch, target, rep);
            law_replace_all_without_match(*else_branch, target, rep);
        },
        Tree::Func { body, .. } => {
            law_replace_all_without_match(*body, target, rep);
        },
        Tree::Op { children, .. } => {
            lemma_seq_without_match(children, target, rep);
        },
    }
}

proof fn lemma_seq_without_match(s: Seq<Tree>, target: Tree, rep: Tree)
    requires
        free_of_seq(s, target),
    ensures
        replaced_seq(s, target, rep) == s,
    decreases s,
{
    assert forall|i: int| 0 <= i < s.len() implies replaced_seq(s, target, rep)[i] == s[i] by {
        assert(free_of(s[i], target));
        law_replace_all_without_match(s[i], target, rep);
    }
    assert(replaced_seq(s, target, rep) =~= s);
}

} // verus!
