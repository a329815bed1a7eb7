use vstd::prelude::*;

verus! {

/// The variant of an operator node: every expression form other than
/// ValDef, ValUse, BlockValue, If and FuncValue, which `Node` spells out.
#[derive(PartialEq, Eq, Structural, Clone, Copy, Debug, Hash)]
pub enum OpKind {
    Append,
    Const,
    ConstPlaceholder,
    SubstConstants,
    ByteArrayToLong,
    ByteArrayToBigInt,
    LongToByteArray,
    Collection,
    Tuple,
    CalcBlake2b256,
    CalcSha256,
    Context,
    Global,
    GlobalVars,
    Apply,
    MethodCall,
    PropertyCall,
    BinOp,
    And,
    Or,
    Xor,
    Atleast,
    LogicalNot,
    Negation,
    BitInversion,
    OptionGet,
    OptionIsDefined,
    OptionGetOrElse,
    ExtractAmount,
    ExtractRegisterAs,
    ExtractBytes,
    ExtractBytesWithNoRef,
    ExtractScriptBytes,
    ExtractCreationInfo,
    ExtractId,
    ByIndex,
    SizeOf,
    Slice,
    Fold,
    CollMap,
    Filter,
    Exists,
    ForAll,
    SelectField,
    BoolToSigmaProp,
    Upcast,
    Downcast,
    CreateProveDlog,
    CreateProveDhTuple,
    SigmaPropBytes,
    DecodePoint,
    SigmaAnd,
    SigmaOr,
    SigmaPropIsProven,
    ZkProofBlock,
    GetVar,
    DeserializeRegister,
    DeserializeContext,
    MultiplyGroup,
    Exponentiate,
    XorOf,
    TreeLookup,
    CreateAvlTree,
}

/// Payload of a `BinOp` node for the logical `&&`. Other binary operators
/// are interned to payloads other than this and `BIN_OR`.
pub const BIN_AND: u32 = 0;

/// Payload of a `BinOp` node for the logical `||`.
pub const BIN_OR: u32 = 1;

/// A FuncValue argument: its binder id and an interned type tag.
#[derive(PartialEq, Eq, Structural, Clone, Copy, Debug, Hash)]
pub struct FuncArg {
    pub id: u32,
    pub tpe: u32,
}

/// An expression tree. The children of an operator are its direct
/// sub-expressions in source order (an absent optional operand is simply
/// not there). `payload` is an interned tag standing for the operator's
/// other data (constant value, method, register, types, ...): two
/// operators are structurally equal iff kind, payload and children are.
/// ValUse and FuncValue-argument types are interned the same way.
#[derive(Debug, Hash)]
pub enum Node {
    ValDef { id: u32, rhs: Box<Node> },
    ValUse { id: u32, tpe: u32 },
    Block { items: Vec<Node>, result: Box<Node> },
    If { cond: Box<Node>, then_branch: Box<Node>, else_branch: Box<Node> },
    Func { args: Vec<FuncArg>, body: Box<Node> },
    Op { kind: OpKind, payload: u32, children: Vec<Node> },
}

/// The mathematical tree a `Node` stands for.
pub enum Tree {
    ValDef { id: u32, rhs: Box<Tree> },
    ValUse { id: u32, tpe: u32 },
    Block { items: Seq<Tree>, result: Box<Tree> },
    If { cond: Box<Tree>, then_branch: Box<Tree>, else_branch: Box<Tree> },
    Func { args: Seq<FuncArg>, body: Box<Tree> },
    Op { kind: OpKind, payload: u32, children: Seq<Tree> },
}

pub open spec fn nodes_view(v: Seq<Node>) -> Seq<Tree>
    decreases v,
{
    Seq::new(v.len(), |i: int| if 0 <= i < v.len() { node_view(v[i]) } else { Tree::ValUse { id: 0, tpe: 0 } })
}

pub open spec fn node_view(n: Node) -> Tree
    decreases n,
{
    match n {
        Node::ValDef { id, rhs } => Tree::ValDef { id, rhs: Box::new(node_view(*rhs)) },
        Node::ValUse { id, tpe } => Tree::ValUse { id, tpe },
        Node::Block { items, result } => Tree::Block {
            items: nodes_view(items@),
            result: Box::new(node_view(*result)),
        },
        Node::If { cond, then_branch, else_branch } => Tree::If {
            cond: Box::new(node_view(*cond)),
            then_branch: Box::new(node_view(*then_branch)),
            else_branch: Box::new(node_view(*else_branch)),
        },
        Node::Func { args, body } => Tree::Func { args: args@, body: Box::new(node_view(*body)) },
        Node::Op { kind, payload, children } => Tree::Op {
            kind,
            payload,
            children: nodes_view(children@),
        },
    }
}

impl View for Node {
    type V = Tree;

    open spec fn view(&self) -> Tree {
        node_view(*self)
    }
}

/// Structural equality of two node sequences.
pub fn nodes_eq(a: &Vec<Node>, b: &Vec<Node>) -> (r: bool)
    ensures
        r == (nodes_view(a@) == nodes_view(b@)),
    decreases a@,
{
    if a.len() != b.len() {
        assert(nodes_view(a@).len() != nodes_view(b@).len());
        return false;
    }
    let mut i: usize = 0;
    while i < a.len()
        invariant
            a.len() == b.len(),
            0 <= i <= a.len(),
            forall|j: int| 0 <= j < i ==> node_view(a@[j]) == node_view(b@[j]),
        decreases a.len() - i,
    {
        assert(decreases_to!(a@ => a@[i as int]));
        if !node_eq(&a[i], &b[i]) {
            assert(nodes_view(a@)[i as int] != nodes_view(b@)[i as int]);
            return false;
        }
        i += 1;
    }
    assert(nodes_view(a@) =~= nodes_view(b@));
    true
}

/// Equality of two argument lists.
pub fn args_eq(a: &Vec<FuncArg>, b: &Vec<FuncArg>) -> (r: bool)
    ensures
        r == (a@ == b@),
{
    if a.len() != b.len() {
        return false;
    }
    let mut i: usize = 0;
    while i < a.len()
        invariant
            a.len() == b.len(),
            0 <= i <= a.len(),
            forall|j: int| 0 <= j < i ==> a@[j] == b@[j],
        decreases a.len() - i,
    {
        if a[i].id != b[i].id || a[i].tpe != b[i].tpe {
            return false;
        }
        i += 1;
    }
    assert(a@ =~= b@);
    true
}

/// Structural equality of two nodes: the equality under which the
/// hash-cons table identifies expressions.
pub fn node_eq(a: &Node, b: &Node) -> (r: bool)
    ensures
        r == (a@ == b@),
    decreases a,
{
    match (a, b) {
        (Node::ValDef { id: i1, rhs: r1 }, Node::ValDef { id: i2, rhs: r2 }) => {
            *i1 == *i2 && node_eq(r1, r2)
        },
        (Node::ValUse { id: i1, tpe: t1 }, Node::ValUse { id: i2, tpe: t2 }) => {
            *i1 == *i2 && *t1 == *t2
        },
        (Node::Block { items: it1, result: r1 }, Node::Block { items: it2, result: r2 }) => {
            nodes_eq(it1, it2) && node_eq(r1, r2)
        },
        (
            Node::If { cond: c1, then_branch: t1, else_branch: e1 },
            Node::If { cond: c2, then_branch: t2, else_branch: e2 },
        ) => {
            node_eq(c1, c2) && node_eq(t1, t2) && node_eq(e1, e2)
        },
        (Node::Func { args: a1, body: b1 }, Node::Func { args: a2, body: b2 }) => {
            args_eq(a1, a2) && node_eq(b1, b2)
        },
        (
            Node::Op { kind: k1, payload: p1, children: c1 },
            Node::Op { kind: k2, payload: p2, children: c2 },
        ) => {
            *k1 == *k2 && *p1 == *p2 && nodes_eq(c1, c2)
        },
        _ => false,
    }
}

/// A copy of a node sequence with the same trees.
pub fn clone_nodes(v: &Vec<Node>) -> (r: Vec<Node>)
    ensures
        nodes_view(r@) == nodes_view(v@),
    decreases v@,
{
    let mut out: Vec<Node> = Vec::new();
    let mut i: usize = 0;
    while i < v.len()
        invariant
            0 <= i <= v@.len(),
            out@.len() == i,
            forall|j: int| 0 <= j < i ==> node_view(#[trigger] out@[j]) == node_view(v@[j]),
        decreases v.len() - i,
    {
        assert(decreases_to!(v@ => v@[i as int]));
        out.push(clone_node(&v[i]));
        i += 1;
    }
    assert(nodes_view(out@) =~= nodes_view(v@));
    out
}

/// A copy of an argument list.
pub fn clone_args(args: &Vec<FuncArg>) -> (r: Vec<FuncArg>)
    ensures
        r@ == args@,
{
    let mut a: Vec<FuncArg> = Vec::new();
    let mut i: usize = 0;
    while i < args.len()
        invariant
            0 <= i <= args@.len(),
            a@ == args@.subrange(0, i as int),
        decreases args.len() - i,
    {
        a.push(args[i]);
        i += 1;
    }
    assert(a@ =~= args@);
    a
}

/// A copy of a node with the same tree.
pub fn clone_node(n: &Node) -> (r: Node)
    ensures
        r@ == n@,
    decreases n,
{
    match n {
        Node::ValDef { id, rhs } => Node::ValDef { id: *id, rhs: Box::new(clone_node(rhs)) },
        Node::ValUse { id, tpe } => Node::ValUse { id: *id, tpe: *tpe },
        Node::Block { items, result } => Node::Block {
            items: clone_nodes(items),
            result: Box::new(clone_node(result)),
        },
        Node::If { cond, then_branch, else_branch } => Node::If {
            cond: Box::new(clone_node(cond)),
            then_branch: Box::new(clone_node(then_branch)),
            else_branch: Box::new(clone_node(else_branch)),
        },
        Node::Func { args, body } => Node::Func {
            args: clone_args(args),
            body: Box::new(clone_node(body)),
        },
        Node::Op { kind, payload, children } => Node::Op {
            kind: *kind,
            payload: *payload,
            children: clone_nodes(children),
        },
    }
}

} // verus!
