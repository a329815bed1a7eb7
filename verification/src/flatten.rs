use vstd::prelude::*;
use vstd::multiset::Multiset;

use crate::node::{clone_node, node_view, nodes_view, Node, OpKind, Tree};
use crate::walk::replaced_kind;

verus! {

/// Operator kinds whose operands the bottom-up passes rewrite: every
/// operator that has operands.
pub open spec fn mapped_kind(k: OpKind) -> bool {
    replaced_kind(k)
}

pub(crate) fn is_mapped_kind(k: OpKind) -> (r: bool)
    ensures
        r == mapped_kind(k),
{
    crate::walk::is_replaced_kind(k)
}

/// The items of a block; nothing for any other tree.
pub open spec fn block_items(t: Tree) -> Seq<Tree> {
    match t {
        Tree::Block { items, .. } => items,
        _ => Seq::empty(),
    }
}

/// The result of a block; any other tree is its own result.
pub open spec fn block_result(t: Tree) -> Tree {
    match t {
        Tree::Block { result, .. } => *result,
        _ => t,
    }
}

/// The items of the blocks among `cs`, in order.
pub open spec fn hoisted_items(cs: Seq<Tree>) -> Seq<Tree>
    decreases cs.len(),
{
    if cs.len() == 0 {
        Seq::empty()
    } else {
        hoisted_items(cs.drop_last()) + block_items(cs.last())
    }
}

/// Each of `cs` with a block replaced by its result.
pub open spec fn unwrapped(cs: Seq<Tree>) -> Seq<Tree> {
    Seq::new(cs.len(), |i: int| block_result(cs[i]))
}

/// A block with `items` before the items of every block that its result
/// chain is made of, ending in the first result that is not a block.
pub open spec fn merged_block(items: Seq<Tree>, result: Tree) -> Tree
    decreases result,
{
    match result {
        Tree::Block { items: inner, result: r } => merged_block(items + inner, *r),
        _ => Tree::Block { items, result: Box::new(result) },
    }
}

/// An operator whose (already flattened) operands are `cs`, with the
/// blocks among them lifted out: `BoolToSigmaProp` over a block becomes a
/// block ending in `BoolToSigmaProp` of its result; `SigmaAnd` and `SigmaOr`
/// take the results of their block operands, and the items of those blocks
/// go, in order, into a block around them when there are any.
pub open spec fn hoisted(kind: OpKind, payload: u32, cs: Seq<Tree>) -> Tree {
    if kind == OpKind::BoolToSigmaProp && cs.len() == 1 && cs[0] is Block {
        Tree::Block {
            items: block_items(cs[0]),
            result: Box::new(Tree::Op { kind, payload, children: seq![block_result(cs[0])] }),
        }
    } else if kind == OpKind::SigmaAnd || kind == OpKind::SigmaOr {
        let op = Tree::Op { kind, payload, children: unwrapped(cs) };
        if hoisted_items(cs).len() == 0 {
            op
        } else {
            Tree::Block { items: hoisted_items(cs), result: Box::new(op) }
        }
    } else {
        Tree::Op { kind, payload, children: cs }
    }
}

/// `t` with its nested blocks flattened, bottom-up: sub-expressions first
/// (not inside FuncValue bodies, nor below the operands of kinds the
/// passes do not rewrite), then blocks lifted out of `BoolToSigmaProp`,
/// `SigmaAnd` and `SigmaOr`, and a block whose result is a block merged
/// with it.
pub open spec fn flat(t: Tree) -> Tree
    decreases t,
{
    match t {
        Tree::ValDef { id, rhs } => Tree::ValDef { id, rhs: Box::new(flat(*rhs)) },
        Tree::ValUse { .. } => t,
        Tree::Block { items, result } => merged_block(flat_seq(items), flat(*result)),
        Tree::If { cond, then_branch, else_branch } => Tree::If {
            cond: Box::new(flat(*cond)),
            then_branch: Box::new(flat(*then_branch)),
            else_branch: Box::new(flat(*else_branch)),
        },
        Tree::Func { .. } => t,
        Tree::Op { kind, payload, children } => if mapped_kind(kind) {
            hoisted(kind, payload, flat_seq(children))
        } else {
            t
        },
    }
}

pub open spec fn flat_seq(s: Seq<Tree>) -> Seq<Tree>
    decreases s,
{
    Seq::new(
        s.len(),
        |i: int|
            if 0 <= i < s.len() {
                flat(s[i])
            } else {
                Tree::ValUse { id: 0, tpe: 0 }
            },
    )
}

fn merge_blocks(items: Vec<Node>, result: Node) -> (r: Node)
    ensures
        r@ == merged_block(nodes_view(items@), result@),
    decreases result,
{
    match result {
        Node::Block { items: inner, result: rest } => {
            assert(result@ == Tree::Block {
                items: nodes_view(inner@),
                result: Box::new(node_view(*rest)),
            });
            let mut items = items;
            let mut inner = inner;
            let ghost a = items@;
            let ghost b = inner@;
            items.append(&mut inner);
            assert(nodes_view(items@) =~= nodes_view(a) + nodes_view(b));
            merge_blocks(items, *rest)
        },
        other => {
            assert(!(other@ is Block));
            Node::Block { items, result: Box::new(other) }
        },
    }
}

fn hoist_blocks(kind: OpKind, payload: u32, cs: Vec<Node>) -> (r: Node)
    ensures
        r@ == hoisted(kind, payload, nodes_view(cs@)),
{
    let ghost s = nodes_view(cs@);
    if kind == OpKind::BoolToSigmaProp && cs.len() == 1 {
        let mut cs = cs;
        let ghost s0 = cs@;
        let c = cs.pop().unwrap();
        assert(c == s0[0]);
        assert(s[0] == node_view(c));
        match c {
            Node::Block { items, result } => {
                assert(node_view(c) == Tree::Block {
                    items: nodes_view(items@),
                    result: Box::new(node_view(*result)),
                });
                let mut one: Vec<Node> = Vec::new();
                one.push(*result);
                assert(nodes_view(one@) =~= seq![block_result(s[0])]);
                let op = Node::Op { kind, payload, children: one };
                assert(op@ == Tree::Op { kind, payload, children: seq![block_result(s[0])] });
                let r = Node::Block { items, result: Box::new(op) };
                assert(r@ == Tree::Block { items: block_items(s[0]), result: Box::new(op@) });
                return r;
            },
            other => {
                assert(!(node_view(other) is Block));
                let mut one: Vec<Node> = Vec::new();
                one.push(other);
                assert(nodes_view(one@) =~= s);
                return Node::Op { kind, payload, children: one };
            },
        }
    }
    if kind == OpKind::SigmaAnd || kind == OpKind::SigmaOr {
        let mut lifted: Vec<Node> = Vec::new();
        let mut operands: Vec<Node> = Vec::new();
        let mut i: usize = 0;
        while i < cs.len()
            invariant
                0 <= i <= cs@.len(),
                s == nodes_view(cs@),
                operands@.len() == i,
                forall|j: int|
                    0 <= j < i ==> node_view(#[trigger] operands@[j]) == block_result(s[j]),
                nodes_view(lifted@) == hoisted_items(s.subrange(0, i as int)),
            decreases cs.len() - i,
        {
            let ghost before = lifted@;
            assert(s.subrange(0, i + 1).drop_last() =~= s.subrange(0, i as int));
            assert(s[i as int] == node_view(cs@[i as int]));
            match &cs[i] {
                Node::Block { items, result } => {
                    assert(s[i as int] == Tree::Block {
                        items: nodes_view(items@),
                        result: Box::new(node_view(**result)),
                    });
                    let mut j: usize = 0;
                    while j < items.len()
                        invariant
                            0 <= j <= items@.len(),
                            lifted@.len() == before.len() + j,
                            forall|k: int|
                                0 <= k < before.len() ==> #[trigger] lifted@[k] == before[k],
                            forall|k: int|
                                before.len() <= k < lifted@.len() ==> node_view(
                                    #[trigger] lifted@[k],
                                ) == node_view(items@[k - before.len()]),
                        decreases items.len() - j,
                    {
                        lifted.push(clone_node(&items[j]));
                        j += 1;
                    }
                    assert(nodes_view(lifted@) =~= nodes_view(before) + nodes_view(items@));
                    operands.push(clone_node(result));
                },
                other => {
                    assert(!(node_view(*other) is Block));
                    assert(nodes_view(lifted@) =~= nodes_view(before) + block_items(
                        s[i as int],
                    ));
                    operands.push(clone_node(other));
                },
            }
            i += 1;
        }
        assert(s.subrange(0, s.len() as int) =~= s);
        assert(nodes_view(operands@) =~= unwrapped(s));
        let op = Node::Op { kind, payload, children: operands };
        assert(op@ == Tree::Op { kind, payload, children: unwrapped(s) });
        if lifted.len() == 0 {
            return op;
        } else {
            let r = Node::Block { items: lifted, result: Box::new(op) };
            assert(r@ == Tree::Block { items: hoisted_items(s), result: Box::new(op@) });
            return r;
        }
    }
    Node::Op { kind, payload, children: cs }
}

fn flatten_seq(v: &Vec<Node>) -> (r: Vec<Node>)
    ensures
        nodes_view(r@) == flat_seq(nodes_view(v@)),
    decreases v@,
{
    let mut out: Vec<Node> = Vec::new();
    let mut i: usize = 0;
    while i < v.len()
        invariant
            0 <= i <= v@.len(),
            out@.len() == i,
            forall|j: int| 0 <= j < i ==> node_view(#[trigger] out@[j]) == flat(node_view(v@[j])),
        decreases v.len() - i,
    {
        assert(decreases_to!(v@ => v@[i as int]));
        out.push(flatten_ref(&v[i]));
        i += 1;
    }
    assert(nodes_view(out@) =~= flat_seq(nodes_view(v@)));
    out
}

fn flatten_ref(expr: &Node) -> (r: Node)
    ensures
        r@ == flat(expr@),
    decreases expr,
{
    match expr {
        Node::ValDef { id, rhs } => {
            assert(expr@ == Tree::ValDef { id: *id, rhs: Box::new(node_view(**rhs)) });
            Node::ValDef { id: *id, rhs: Box::new(flatten_ref(rhs)) }
        },
        Node::ValUse { id, tpe } => Node::ValUse { id: *id, tpe: *tpe },
        Node::Block { items, result } => {
            assert(expr@ == Tree::Block {
                items: nodes_view(items@),
                result: Box::new(node_view(**result)),
            });
            let fi = flatten_seq(items);
            let fr = flatten_ref(result);
            merge_blocks(fi, fr)
        },
        Node::If { cond, then_branch, else_branch } => {
            assert(expr@ == Tree::If {
                cond: Box::new(node_view(**cond)),
                then_branch: Box::new(node_view(**then_branch)),
                else_branch: Box::new(node_view(**else_branch)),
            });
            Node::If {
                cond: Box::new(flatten_ref(cond)),
                then_branch: Box::new(flatten_ref(then_branch)),
                else_branch: Box::new(flatten_ref(else_branch)),
            }
        },
        Node::Func { .. } => clone_node(expr),
        Node::Op { kind, payload, children } => {
            assert(expr@ == Tree::Op {
                kind: *kind,
                payload: *payload,
                children: nodes_view(children@),
            });
            if is_mapped_kind(*kind) {
                let cs = flatten_seq(children);
                hoist_blocks(*kind, *payload, cs)
            } else {
                clone_node(expr)
            }
        },
    }
}

/// `expr` with its nested blocks flattened, as `flat` says.
pub fn flatten_nested_blocks(expr: Node) -> (r: Node)
    ensures
        r@ == flat(expr@),
{
    flatten_ref(&expr)
}


/// No block of `t` ends in a block, looking through ValDefs, blocks, Ifs
/// and the operands of the kinds the passes rewrite (not into lambda
/// bodies).
pub open spec fn no_nested_block(t: Tree) -> bool
    decreases t,
{
    match t {
        Tree::ValDef { rhs, .. } => no_nested_block(*rhs),
        Tree::ValUse { .. } => true,
        Tree::Block { items, result } => !(*result is Block) && no_nested_seq(items) && no_nested_block(*result),
        Tree::If { cond, then_branch, else_branch } => no_nested_block(*cond) && no_nested_block(*then_branch)
            && no_nested_block(*else_branch),
        Tree::Func { .. } => true,
        Tree::Op { kind, children, .. } => mapped_kind(kind) ==> no_nested_seq(children),
    }
}

pub open spec fn no_nested_seq(s: Seq<Tree>) -> bool
    decreases s,
{
    forall|i: int| 0 <= i < s.len() ==> no_nested_block(#[trigger] s[i])
}

proof fn lemma_merged_no_nested(items: Seq<Tree>, result: Tree)
    requires
        no_nested_seq(items),
        no_nested_block(result),
    ensures
        no_nested_block(merged_block(items, result)),
    decreases result,
{
    match result {
        Tree::Block { items: inner, result: r } => {
            assert(no_nested_seq(inner));
            assert(no_nested_seq(items + inner)) by {
                assert forall|i: int| 0 <= i < (items + inner).len() implies no_nested_block(
                    #[trigger] (items + inner)[i],
                ) by {
                    if i >= items.len() {
                        assert((items + inner)[i] == inner[i - items.len()]);
                        assert(no_nested_block(inner[i - items.len()]));
                    } else {
                        assert(no_nested_block(items[i]));
                    }
                }
            }
            lemma_merged_no_nested(items + inner, *r);
        },
        _ => {},
    }
}

proof fn lemma_hoisted_items_no_nested(cs: Seq<Tree>)
    requires
        no_nested_seq(cs),
    ensures
        no_nested_seq(hoisted_items(cs)),
    decreases cs.len(),
{
    if cs.len() > 0 {
        assert(no_nested_seq(cs.drop_last())) by {
            assert forall|i: int| 0 <= i < cs.drop_last().len() implies no_nested_block(
                #[trigger] cs.drop_last()[i],
            ) by {
                assert(cs.drop_last()[i] == cs[i]);
            }
        }
        lemma_hoisted_items_no_nested(cs.drop_last());
        let a = hoisted_items(cs.drop_last());
        let b = block_items(cs.last());
        assert(no_nested_block(cs[cs.len() - 1]));
        assert(no_nested_seq(b)) by {
            match cs.last() {
                Tree::Block { items: bi, .. } => {
                    assert(no_nested_seq(bi));
                },
                _ => {},
            }
        }
        assert forall|i: int| 0 <= i < (a + b).len() implies no_nested_block(#[trigger] (a + b)[i]) by {
            if i >= a.len() {
                assert((a + b)[i] == b[i - a.len()]);
                assert(no_nested_block(b[i - a.len()]));
            } else {
                assert(no_nested_block(a[i]));
            }
        }
    }
}

/// Flattening leaves no block that ends in a block (looking through the
/// operands the passes rewrite, not into lambda bodies).
pub proof fn law_flatten_leaves_no_nested_block(t: Tree)
    ensures
        no_nested_block(flat(t)),
    decreases t,
{
    match t {
        Tree::ValDef { rhs, .. } => {
            law_flatten_leaves_no_nested_block(*rhs);
            assert(no_nested_block(flat(t)));
        },
        Tree::ValUse { .. } => {},
        Tree::Block { items, result } => {
            lemma_flat_seq_no_nested(items);
            law_flatten_leaves_no_nested_block(*result);
            lemma_merged_no_nested(flat_seq(items), flat(*result));
        },
        Tree::If { cond, then_branch, else_branch } => {
            law_flatten_leaves_no_nested_block(*cond);
            law_flatten_leaves_no_nested_block(*then_branch);
            law_flatten_leaves_no_nested_block(*else_branch);
            assert(no_nested_block(flat(t)));
        },
        Tree::Func { .. } => {},
        Tree::Op { kind, payload, children } => {
            if mapped_kind(kind) {
                lemma_flat_seq_no_nested(children);
                let cs = flat_seq(children);
                if kind == OpKind::BoolToSigmaProp && cs.len() == 1 && cs[0] is Block {
                    assert(no_nested_block(cs[0]));
                    match cs[0] {
                        Tree::Block { items: bi, result: br } => {
                            assert(no_nested_seq(bi));
                            assert(no_nested_block(*br));
                        },
                        _ => {},
                    }
                    assert(no_nested_seq(seq![block_result(cs[0])])) by {
                        assert(seq![block_result(cs[0])][0] == block_result(cs[0]));
                    }
                    assert(no_nested_seq(block_items(cs[0])));
                    assert(no_nested_block(Tree::Op { kind, payload, children: seq![block_result(cs[0])] }));
                    assert(no_nested_block(hoisted(kind, payload, cs)));
                } else if kind == OpKind::SigmaAnd || kind == OpKind::SigmaOr {
                    lemma_hoisted_items_no_nested(cs);
                    assert(no_nested_seq(unwrapped(cs))) by {
                        assert forall|i: int| 0 <= i < unwrapped(cs).len() implies no_nested_block(
                            #[trigger] unwrapped(cs)[i],
                        ) by {
                            assert(no_nested_block(cs[i]));
                            match cs[i] {
                                Tree::Block { result: br, .. } => {
                                    assert(no_nested_block(*br));
                                },
                                _ => {},
                            }
                        }
                    }
                    assert(no_nested_block(Tree::Op { kind, payload, children: unwrapped(cs) }));
                    assert(no_nested_block(hoisted(kind, payload, cs)));
                } else {
                    assert(no_nested_seq(cs));
                    assert(no_nested_block(hoisted(kind, payload, cs)));
                }
                assert(flat(t) == hoisted(kind, payload, cs));
                assert(no_nested_block(flat(t)));
            }
        },
    }
}

proof fn lemma_flat_seq_no_nested(s: Seq<Tree>)
    ensures
        no_nested_seq(flat_seq(s)),
    decreases s,
{
    assert forall|i: int| 0 <= i < flat_seq(s).len() implies no_nested_block(#[trigger] flat_seq(s)[i]) by {
        law_flatten_leaves_no_nested_block(s[i]);
    }
}

/// The ids of the ValDef nodes of `t`, as a multiset (lambda bodies
/// included).
pub open spec fn vdef_ids(t: Tree) -> Multiset<u32>
    decreases t,
{
    match t {
        Tree::ValDef { id, rhs } => vdef_ids(*rhs).insert(id),
        Tree::ValUse { .. } => Multiset::empty(),
        Tree::Block { items, result } => vdef_ids_seq(items).add(vdef_ids(*result)),
        Tree::If { cond, then_branch, else_branch } => vdef_ids(*cond).add(vdef_ids(*then_branch)).add(
            vdef_ids(*else_branch),
        ),
        Tree::Func { body, .. } => vdef_ids(*body),
        Tree::Op { children, .. } => vdef_ids_seq(children),
    }
}

pub open spec fn vdef_ids_seq(s: Seq<Tree>) -> Multiset<u32>
    decreases s,
{
    if s.len() == 0 {
        Multiset::empty()
    } else {
        vdef_ids_seq(s.drop_last()).add(vdef_ids(s.last()))
    }
}

proof fn lemma_vdef_ids_concat(a: Seq<Tree>, b: Seq<Tree>)
    ensures
        vdef_ids_seq(a + b) =~= vdef_ids_seq(a).add(vdef_ids_seq(b)),
    decreases b.len(),
{
    if b.len() == 0 {
        assert(a + b =~= a);
    } else {
        assert((a + b).drop_last() =~= a + b.drop_last());
        assert((a + b).last() == b.last());
        lemma_vdef_ids_concat(a, b.drop_last());
    }
}

proof fn lemma_merged_vdef_ids(items: Seq<Tree>, result: Tree)
    ensures
        vdef_ids(merged_block(items, result)) =~= vdef_ids_seq(items).add(vdef_ids(result)),
        merged_block(items, result) is Block,
        block_items(merged_block(items, result)).len() >= items.len(),
        block_items(merged_block(items, result)).subrange(0, items.len() as int) =~= items,
    decreases result,
{
    match result {
        Tree::Block { items: inner, result: r } => {
            lemma_merged_vdef_ids(items + inner, *r);
            lemma_vdef_ids_concat(items, inner);
            let bi = block_items(merged_block(items + inner, *r));
            assert(bi.subrange(0, items.len() as int) =~= bi.subrange(0, (items + inner).len() as int).subrange(
                0,
                items.len() as int,
            ));
        },
        _ => {},
    }
}

proof fn lemma_hoisted_vdef_ids(cs: Seq<Tree>)
    ensures
        vdef_ids_seq(hoisted_items(cs)).add(vdef_ids_seq(unwrapped(cs))) =~= vdef_ids_seq(cs),
    decreases cs.len(),
{
    if cs.len() > 0 {
        let dl = cs.drop_last();
        let last = cs.last();
        lemma_hoisted_vdef_ids(dl);
        lemma_vdef_ids_concat(hoisted_items(dl), block_items(last));
        let u = unwrapped(cs);
        assert(u.drop_last() =~= unwrapped(dl));
        assert(u.last() == block_result(last));
        assert(vdef_ids_seq(u) == vdef_ids_seq(unwrapped(dl)).add(vdef_ids(block_result(last))));
        assert(hoisted_items(cs) == hoisted_items(dl) + block_items(last));
        assert(vdef_ids_seq(cs) == vdef_ids_seq(dl).add(vdef_ids(last)));
        assert(vdef_ids(last) =~= vdef_ids_seq(block_items(last)).add(vdef_ids(block_result(last)))) by {
            match last {
                Tree::Block { .. } => {},
                _ => {
                    assert(block_items(last).len() == 0);
                    assert(vdef_ids_seq(block_items(last)) =~= Multiset::empty());
                },
            }
        }
    }
}

proof fn lemma_flat_seq_vdef_ids(s: Seq<Tree>)
    ensures
        vdef_ids_seq(flat_seq(s)) =~= vdef_ids_seq(s),
    decreases s,
{
    if s.len() > 0 {
        assert(flat_seq(s).drop_last() =~= flat_seq(s.drop_last()));
        lemma_flat_seq_vdef_ids(s.drop_last());
        law_flatten_keeps_valdef_ids(s.last());
    }
}

/// Flattening moves ValDefs and never copies or drops one: the multiset
/// of ValDef ids of the result is that of the input. A merged block keeps
/// its own items first, in order, before those of the blocks it absorbs.
pub proof fn law_flatten_keeps_valdef_ids(t: Tree)
    ensures
        vdef_ids(flat(t)) =~= vdef_ids(t),
        t matches Tree::Block { items, .. } ==> block_items(flat(t)).len() >= items.len()
            && block_items(flat(t)).subrange(0, items.len() as int) == flat_seq(items),
    decreases t,
{
    match t {
        Tree::ValDef { id, rhs } => {
            law_flatten_keeps_valdef_ids(*rhs);
            assert(vdef_ids(flat(*rhs)) == vdef_ids(*rhs));
            assert(flat(t) == Tree::ValDef { id, rhs: Box::new(flat(*rhs)) });
            assert(vdef_ids(flat(t)) == vdef_ids(flat(*rhs)).insert(id));
            assert(vdef_ids(t) == vdef_ids(*rhs).insert(id));
        },
        Tree::ValUse { .. } => {},
        Tree::Block { items, result } => {
            lemma_flat_seq_vdef_ids(items);
            law_flatten_keeps_valdef_ids(*result);
            lemma_merged_vdef_ids(flat_seq(items), flat(*result));
            assert(vdef_ids(flat(t)) =~= vdef_ids(t));
        },
        Tree::If { cond, then_branch, else_branch } => {
            law_flatten_keeps_valdef_ids(*cond);
            law_flatten_keeps_valdef_ids(*then_branch);
            law_flatten_keeps_valdef_ids(*else_branch);
            assert(vdef_ids(flat(t)) =~= vdef_ids(t));
        },
        Tree::Func { .. } => {},
        Tree::Op { kind, payload, children } => {
            if mapped_kind(kind) {
                lemma_flat_seq_vdef_ids(children);
                let cs = flat_seq(children);
                assert(flat(t) == hoisted(kind, payload, cs));
                if kind == OpKind::BoolToSigmaProp && cs.len() == 1 && cs[0] is Block {
                    assert(cs.drop_last().len() == 0);
                    assert(vdef_ids_seq(cs.drop_last()) =~= Multiset::empty());
                    assert(vdef_ids_seq(cs) =~= vdef_ids(cs[0]));
                    let one = seq![block_result(cs[0])];
                    assert(one.drop_last().len() == 0);
                    assert(vdef_ids_seq(one.drop_last()) =~= Multiset::empty());
                    assert(one.last() == block_result(cs[0]));
                    assert(vdef_ids_seq(one) =~= vdef_ids(block_result(cs[0])));
                    match cs[0] {
                        Tree::Block { items: bi, result: br } => {
                            assert(vdef_ids(cs[0]) == vdef_ids_seq(bi).add(vdef_ids(*br)));
                        },
                        _ => {},
                    }
                    assert(vdef_ids(Tree::Op { kind, payload, children: one }) == vdef_ids_seq(one));
                    assert(vdef_ids(flat(t)) =~= vdef_ids_seq(cs));
                } else if kind == OpKind::SigmaAnd || kind == OpKind::SigmaOr {
                    lemma_hoisted_vdef_ids(cs);
                    let op = Tree::Op { kind, payload, children: unwrapped(cs) };
                    assert(vdef_ids(op) == vdef_ids_seq(unwrapped(cs)));
                    if hoisted_items(cs).len() == 0 {
                        assert(vdef_ids_seq(hoisted_items(cs)) =~= Multiset::empty());
                        assert(flat(t) == op);
                    } else {
                        let b = Tree::Block { items: hoisted_items(cs), result: Box::new(op) };
                        assert(flat(t) == b);
                        assert(vdef_ids(b) == vdef_ids_seq(hoisted_items(cs)).add(vdef_ids(op)));
                    }
                    assert(vdef_ids(flat(t)) =~= vdef_ids_seq(cs));
                } else {
                    assert(vdef_ids(flat(t)) =~= vdef_ids_seq(cs));
                }
                assert(vdef_ids(t) == vdef_ids_seq(children));
                assert(vdef_ids(flat(t)) =~= vdef_ids(t));
            }
        },
    }
}

} // verus!
