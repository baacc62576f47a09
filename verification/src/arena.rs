//! Fixed-capacity node arena that stores the syntax tree.
//!
//! Nodes are addressed by `NodeID`, a typed index. The arena never grows past
//! the capacity it was created with, and every failure is reported as an
//! `ArenaError` instead of a panic.
use vstd::prelude::*;

pub use crate::types::DataType;

verus! {

/// Typed node identifier.
#[derive(Debug, Clone, Copy, PartialEq, Eq, Hash, Structural)]
pub struct NodeID(pub u32);

/// Raw value of the identifier that never names an allocated node.
pub const INVALID_RAW: u32 = 4294967295u32;

impl NodeID {
    /// Identifier that never names an allocated node (the arena's capacity is
    /// always below `u32::MAX`).
    pub open spec fn spec_invalid() -> NodeID {
        NodeID(INVALID_RAW)
    }

    /// Identifier that never names an allocated node.
    #[verifier::when_used_as_spec(spec_invalid)]
    pub fn invalid() -> (id: NodeID)
        ensures
            id == NodeID(INVALID_RAW),
    {
        NodeID(INVALID_RAW)
    }
}

/// Binary operator code stored in `ASTNode::BinOp`.
pub type BinaryOp = u8;

/// `+`
pub const OP_ADD: BinaryOp = 0;
/// `-`
pub const OP_SUB: BinaryOp = 1;
/// `·`
pub const OP_MUL: BinaryOp = 2;
/// `/`
pub const OP_DIV: BinaryOp = 3;
/// `⊕`
pub const OP_CONCAT: BinaryOp = 4;
/// `%`
pub const OP_MOD: BinaryOp = 5;
/// `^`
pub const OP_POW: BinaryOp = 6;
/// `=`
pub const OP_EQ: BinaryOp = 7;
/// `≠`
pub const OP_NEQ: BinaryOp = 8;
/// `<`
pub const OP_LT: BinaryOp = 9;
/// `≔` (assignment marker)
pub const OP_ASSIGN: BinaryOp = 10;
/// `>`
pub const OP_GT: BinaryOp = 11;
/// `≤`
pub const OP_LE: BinaryOp = 12;
/// `≥`
pub const OP_GE: BinaryOp = 13;
/// `∧`
pub const OP_AND: BinaryOp = 14;
/// `∨`
pub const OP_OR: BinaryOp = 15;

/// A truth value as an integer: 1 for true, 0 for false.
pub open spec fn truth(b: bool) -> int {
    if b {
        1
    } else {
        0
    }
}

/// What a binary operator computes on integer operands (truth values as 1
/// and 0, any non-zero operand counting as true): the arithmetic
/// operators, the comparisons and the connectives. Division and remainder
/// by zero give 0. Concatenation, power and assignment have no integer
/// meaning here.
pub open spec fn binop_meaning(op: BinaryOp, x: int, y: int) -> Option<int> {
    if op == OP_ADD {
        Some(x + y)
    } else if op == OP_SUB {
        Some(x - y)
    } else if op == OP_MUL {
        Some(x * y)
    } else if op == OP_DIV {
        Some(if y == 0 { 0 } else { x / y })
    } else if op == OP_MOD {
        Some(if y == 0 { 0 } else { x % y })
    } else if op == OP_EQ {
        Some(truth(x == y))
    } else if op == OP_NEQ {
        Some(truth(x != y))
    } else if op == OP_LT {
        Some(truth(x < y))
    } else if op == OP_GT {
        Some(truth(x > y))
    } else if op == OP_LE {
        Some(truth(x <= y))
    } else if op == OP_GE {
        Some(truth(x >= y))
    } else if op == OP_AND {
        Some(truth(x != 0 && y != 0))
    } else if op == OP_OR {
        Some(truth(x != 0 || y != 0))
    } else {
        None
    }
}

/// What a unary operator computes on an integer operand: negation, and
/// `¬` as the truth value of the operand being zero (false).
pub open spec fn unop_meaning(op: UnaryOp, x: int) -> int {
    match op {
        UnaryOp::Neg => -x,
        UnaryOp::Not => truth(x == 0),
    }
}

/// Unary operators.
#[derive(Debug, Clone, Copy, PartialEq, Eq, Hash, Structural)]
pub enum UnaryOp {
    Neg,
    Not,
}

/// Tensor operations.
#[derive(Debug, Clone, Copy, PartialEq, Eq, Hash, Structural)]
pub enum TensorOpKind {
    MatMul,
    Add,
    Mul,
    Transpose,
    Reshape,
    Sum,
    Relu,
    Softmax,
}

/// Automatic differentiation operations.
#[derive(Debug, Clone, Copy, PartialEq, Eq, Hash, Structural)]
pub enum AutodiffOpKind {
    Grad,
    Jacobian,
    Hessian,
}

/// Errors that can occur when working with the arena.
#[derive(Debug, Clone, Copy, PartialEq, Eq, Structural)]
pub enum ArenaError {
    /// The arena has reached its maximum capacity.
    CapacityExceeded,
    /// An invalid NodeID was provided.
    InvalidNodeID,
    /// A type mismatch occurred during an operation.
    TypeMismatch,
}

/// Pattern of a match arm.
#[derive(Debug, Clone, Copy, PartialEq, Eq, Structural)]
pub enum Pattern {
    /// Matches anything, binds nothing.
    Wildcard,
    /// Matches a literal value.
    Literal(i64),
    /// Matches anything and binds it to a name.
    Binding(u32),
}

/// Syntax tree node with inline payload.
#[allow(inconsistent_fields)]
#[derive(Debug, Clone, Copy, PartialEq, Eq, Structural)]
pub enum ASTNode {
    Empty,
    Int(i64),
    FixedPoint(i64),
    Str(u32),
    Ident(u32),
    BoolLit(bool),
    BinOp { op: BinaryOp, left: NodeID, right: NodeID },
    UnaryOp { op: UnaryOp, expr: NodeID },
    Call { func: NodeID, args: NodeID },
    List { head: NodeID, tail: NodeID },
    Lambda { params: NodeID, body: NodeID },
    LinearLet { name: NodeID, value: NodeID, body: NodeID },
    ForAll { var: NodeID, set: NodeID, body: NodeID },
    Exists { var: NodeID, set: NodeID, body: NodeID },
    SetLiteral { elems: NodeID },
    SetMembership { elem: NodeID, set: NodeID },
    Mu { var: NodeID, body: NodeID },
    Match { scrutinee: NodeID, arms: NodeID },
    MatchArm { pattern: Pattern, body: NodeID },
    /// Tensor operation node.
    TensorOp { op: TensorOpKind, args: NodeID },
    /// Automatic differentiation node.
    AutodiffOp { op: AutodiffOpKind, target: NodeID, params: NodeID },
}

/// The node identifiers a node refers to.
pub open spec fn node_children(n: ASTNode) -> Seq<u32> {
    match n {
        ASTNode::BinOp { left, right, .. } => seq![left.0, right.0],
        ASTNode::UnaryOp { expr, .. } => seq![expr.0],
        ASTNode::Call { func, args } => seq![func.0, args.0],
        ASTNode::List { head, tail } => seq![head.0, tail.0],
        ASTNode::Lambda { params, body } => seq![params.0, body.0],
        ASTNode::LinearLet { name, value, body } => seq![name.0, value.0, body.0],
        ASTNode::ForAll { var, set, body } => seq![var.0, set.0, body.0],
        ASTNode::Exists { var, set, body } => seq![var.0, set.0, body.0],
        ASTNode::SetLiteral { elems } => seq![elems.0],
        ASTNode::SetMembership { elem, set } => seq![elem.0, set.0],
        ASTNode::Mu { var, body } => seq![var.0, body.0],
        ASTNode::Match { scrutinee, arms } => seq![scrutinee.0, arms.0],
        ASTNode::MatchArm { body, .. } => seq![body.0],
        ASTNode::TensorOp { args, .. } => seq![args.0],
        ASTNode::AutodiffOp { target, params, .. } => seq![target.0, params.0],
        _ => Seq::empty(),
    }
}

/// Every node refers only to nodes allocated before it (or to no node
/// at all): the arena holds a tree or a DAG, never a cycle.
pub open spec fn children_precede(a: Seq<ASTNode>) -> bool {
    forall|k: int, i: int|
        0 <= k < a.len() && 0 <= i < node_children(a[k]).len() ==> #[trigger] node_children(a[k])[i] < k
            || node_children(a[k])[i] >= a.len()
}

/// `r` ranks the nodes of `a`: each child inside the arena has a smaller
/// rank than the node that refers to it.
pub open spec fn ranked(a: Seq<ASTNode>, r: Seq<nat>) -> bool {
    &&& r.len() == a.len()
    &&& forall|k: int, i: int|
        0 <= k < a.len() && 0 <= i < node_children(a[k]).len() && #[trigger] node_children(a[k])[i] < a.len()
            ==> r[node_children(a[k])[i] as int] < r[k]
}

/// The arena has no cycle: its nodes can be ranked, so walking down from
/// any node ends.
pub open spec fn acyclic(a: Seq<ASTNode>) -> bool {
    exists|r: Seq<nat>| ranked(a, r)
}

/// A ranking of an acyclic arena.
pub open spec fn rank_of(a: Seq<ASTNode>) -> Seq<nat> {
    choose|r: Seq<nat>| ranked(a, r)
}

/// `c` is a node of the arena ranked below node `parent`: in an acyclic
/// arena, every child of `parent` inside the arena is.
pub open spec fn below(a: Seq<ASTNode>, parent: u32, c: u32) -> bool {
    &&& (c as int) < a.len()
    &&& (parent as int) < a.len()
    &&& rank_of(a)[c as int] < rank_of(a)[parent as int]
}

/// A child inside an acyclic arena ranks below its parent.
pub proof fn lemma_rank_child(a: Seq<ASTNode>, k: int, i: int)
    requires
        acyclic(a),
        0 <= k < a.len(),
        0 <= i < node_children(a[k]).len(),
        node_children(a[k])[i] < a.len(),
    ensures
        rank_of(a)[node_children(a[k])[i] as int] < rank_of(a)[k],
{
    let r = rank_of(a);
    assert(ranked(a, r));
}

/// Each child of node `k` that lies inside an acyclic arena is below `k`.
pub proof fn lemma_child_below(a: Seq<ASTNode>, k: u32, i: int)
    requires
        acyclic(a),
        (k as int) < a.len(),
        0 <= i < node_children(a[k as int]).len(),
    ensures
        (node_children(a[k as int])[i] as int) < a.len() ==> below(a, k, node_children(a[k as int])[i]),
{
    if (node_children(a[k as int])[i] as int) < a.len() {
        lemma_rank_child(a, k as int, i);
    }
}

/// The number of `true` entries.
pub open spec fn count_true(s: Seq<bool>) -> nat
    decreases s.len(),
{
    if s.len() == 0 {
        0
    } else {
        count_true(s.drop_last()) + if s.last() {
            1nat
        } else {
            0nat
        }
    }
}

proof fn lemma_count_true_set(s: Seq<bool>, i: int)
    requires
        0 <= i < s.len(),
        !s[i],
    ensures
        count_true(s.update(i, true)) == count_true(s) + 1,
    decreases s.len(),
{
    if i == s.len() - 1 {
        assert(s.update(i, true).drop_last() =~= s.drop_last());
    } else {
        assert(s.update(i, true).drop_last() =~= s.drop_last().update(i, true));
        lemma_count_true_set(s.drop_last(), i);
    }
}

proof fn lemma_count_true_bound(s: Seq<bool>)
    ensures
        count_true(s) <= s.len(),
        count_true(s) == s.len() ==> forall|k: int| 0 <= k < s.len() ==> #[trigger] s[k],
        (forall|k: int| 0 <= k < s.len() ==> #[trigger] s[k]) ==> count_true(s) == s.len(),
    decreases s.len(),
{
    if s.len() > 0 {
        lemma_count_true_bound(s.drop_last());
        if forall|k: int| 0 <= k < s.len() ==> #[trigger] s[k] {
            assert forall|k: int| 0 <= k < s.drop_last().len() implies #[trigger] s.drop_last()[k] by {
                assert(s[k]);
            }
            assert(s[s.len() - 1]);
        }
        if count_true(s) == s.len() {
            assert forall|k: int| 0 <= k < s.len() implies #[trigger] s[k] by {
                if k < s.len() - 1 {
                    assert(s.drop_last()[k] == s[k]);
                }
            }
        }
    }
}

/// Every node not marked `done` has a child inside the arena that is not
/// marked either.
pub open spec fn stuck(a: Seq<ASTNode>, done: Seq<bool>) -> bool {
    forall|k: int|
        0 <= k < a.len() && !#[trigger] done[k] ==> exists|i: int|
            0 <= i < node_children(a[k]).len() && (node_children(a[k])[i] as int) < a.len() && !done[node_children(
                a[k],
            )[i] as int]
}

proof fn lemma_stuck_ranks(a: Seq<ASTNode>, done: Seq<bool>, r: Seq<nat>, v: nat)
    requires
        done.len() == a.len(),
        stuck(a, done),
        ranked(a, r),
    ensures
        forall|k: int| 0 <= k < a.len() && !done[k] ==> #[trigger] r[k] >= v,
    decreases v,
{
    if v > 0 {
        lemma_stuck_ranks(a, done, r, (v - 1) as nat);
        assert forall|k: int| 0 <= k < a.len() && !done[k] implies #[trigger] r[k] >= v by {
            let i = choose|i: int|
                0 <= i < node_children(a[k]).len() && (node_children(a[k])[i] as int) < a.len() && !done[node_children(
                    a[k],
                )[i] as int];
            let c = node_children(a[k])[i] as int;
            assert(r[c] >= v - 1);
        }
    }
}

/// If some node is not marked and every unmarked node has an unmarked
/// child, the arena has a cycle.
proof fn lemma_stuck_cyclic(a: Seq<ASTNode>, done: Seq<bool>, k0: int)
    requires
        done.len() == a.len(),
        stuck(a, done),
        0 <= k0 < a.len(),
        !done[k0],
    ensures
        !acyclic(a),
{
    if acyclic(a) {
        let r = rank_of(a);
        lemma_stuck_ranks(a, done, r, r[k0] + 1);
        assert(r[k0] >= r[k0] + 1);
    }
}

/// An arena whose nodes refer only to earlier nodes is acyclic.
pub proof fn lemma_precede_acyclic(a: Seq<ASTNode>)
    requires
        children_precede(a),
    ensures
        acyclic(a),
{
    let r = Seq::new(a.len(), |k: int| k as nat);
    assert forall|k: int, i: int|
        0 <= k < a.len() && 0 <= i < node_children(a[k]).len() && #[trigger] node_children(a[k])[i] < a.len()
        implies r[node_children(a[k])[i] as int] < r[k] by {
        assert(node_children(a[k])[i] < k || node_children(a[k])[i] >= a.len());
    }
    assert(ranked(a, r));
}

/// Variant tag of an `ASTNode`.
#[derive(Debug, Clone, Copy, PartialEq, Eq, Structural)]
pub enum TypeTag {
    Empty,
    Int,
    FixedPoint,
    Str,
    Ident,
    Bool,
    BinOp,
    UnaryOp,
    Call,
    List,
    Lambda,
    LinearLet,
    ForAll,
    Exists,
    SetLiteral,
    SetMembership,
    Mu,
    Match,
    MatchArm,
    TensorOp,
    AutodiffOp,
}

/// The tag of a node, by variant.
pub open spec fn tag_of(n: ASTNode) -> TypeTag {
    match n {
        ASTNode::Empty => TypeTag::Empty,
        ASTNode::Int(_) => TypeTag::Int,
        ASTNode::FixedPoint(_) => TypeTag::FixedPoint,
        ASTNode::Str(_) => TypeTag::Str,
        ASTNode::Ident(_) => TypeTag::Ident,
        ASTNode::BoolLit(_) => TypeTag::Bool,
        ASTNode::BinOp { .. } => TypeTag::BinOp,
        ASTNode::UnaryOp { .. } => TypeTag::UnaryOp,
        ASTNode::Call { .. } => TypeTag::Call,
        ASTNode::List { .. } => TypeTag::List,
        ASTNode::Lambda { .. } => TypeTag::Lambda,
        ASTNode::LinearLet { .. } => TypeTag::LinearLet,
        ASTNode::ForAll { .. } => TypeTag::ForAll,
        ASTNode::Exists { .. } => TypeTag::Exists,
        ASTNode::SetLiteral { .. } => TypeTag::SetLiteral,
        ASTNode::SetMembership { .. } => TypeTag::SetMembership,
        ASTNode::Mu { .. } => TypeTag::Mu,
        ASTNode::Match { .. } => TypeTag::Match,
        ASTNode::MatchArm { .. } => TypeTag::MatchArm,
        ASTNode::TensorOp { .. } => TypeTag::TensorOp,
        ASTNode::AutodiffOp { .. } => TypeTag::AutodiffOp,
    }
}

impl ASTNode {
    /// Returns the type tag of this node.
    pub fn type_tag(&self) -> (t: TypeTag)
        ensures
            t == tag_of(*self),
    {
        match self {
            ASTNode::Empty => TypeTag::Empty,
            ASTNode::Int(_) => TypeTag::Int,
            ASTNode::FixedPoint(_) => TypeTag::FixedPoint,
            ASTNode::Str(_) => TypeTag::Str,
            ASTNode::Ident(_) => TypeTag::Ident,
            ASTNode::BinOp { .. } => TypeTag::BinOp,
            ASTNode::Call { .. } => TypeTag::Call,
            ASTNode::List { .. } => TypeTag::List,
            ASTNode::Lambda { .. } => TypeTag::Lambda,
            ASTNode::LinearLet { .. } => TypeTag::LinearLet,
            ASTNode::ForAll { .. } => TypeTag::ForAll,
            ASTNode::SetMembership { .. } => TypeTag::SetMembership,
            ASTNode::Mu { .. } => TypeTag::Mu,
            ASTNode::Exists { .. } => TypeTag::Exists,
            ASTNode::SetLiteral { .. } => TypeTag::SetLiteral,
            ASTNode::BoolLit(_) => TypeTag::Bool,
            ASTNode::UnaryOp { .. } => TypeTag::UnaryOp,
            ASTNode::Match { .. } => TypeTag::Match,
            ASTNode::MatchArm { .. } => TypeTag::MatchArm,
            ASTNode::TensorOp { .. } => TypeTag::TensorOp,
            ASTNode::AutodiffOp { .. } => TypeTag::AutodiffOp,
        }
    }
}

/// Deterministic arena with fail-closed semantics: fixed capacity, typed ids,
/// and every failure reported as an `ArenaError`.
pub struct Arena {
    nodes: Vec<ASTNode>,
    capacity: u32,
}

impl View for Arena {
    type V = Seq<ASTNode>;

    /// The allocated nodes, in allocation order; node `i` has id `NodeID(i)`.
    closed spec fn view(&self) -> Seq<ASTNode> {
        self.nodes@
    }
}

impl Arena {
    /// The capacity the arena was created with.
    pub closed spec fn spec_capacity(&self) -> nat {
        self.capacity as nat
    }

    #[verifier::type_invariant]
    spec fn inv(&self) -> bool {
        self.nodes@.len() <= self.capacity < u32::MAX
    }

    /// The bounds that every arena keeps: the allocated nodes never exceed
    /// the capacity, and the capacity is below `u32::MAX`.
    pub open spec fn bounded(&self) -> bool {
        self@.len() <= self.spec_capacity() < u32::MAX
    }

    /// Create an arena with fixed capacity (below `u32::MAX`, which is
    /// reserved for `NodeID::INVALID`).
    pub fn new(capacity: u32) -> (a: Self)
        requires
            capacity < u32::MAX,
        ensures
            a@ == Seq::<ASTNode>::empty(),
            a.spec_capacity() == capacity,
            a.bounded(),
    {
        Arena { nodes: Vec::new(), capacity }
    }

    /// Allocate a new node. Fails with `CapacityExceeded` when the arena is full.
    pub fn allocate(&mut self, node: ASTNode) -> (r: Result<NodeID, ArenaError>)
        ensures
            final(self).spec_capacity() == old(self).spec_capacity(),
            old(self).bounded(),
            final(self).bounded(),
            old(self)@.len() < old(self).spec_capacity() ==> r == Ok::<NodeID, ArenaError>(NodeID(old(self)@.len() as u32))
                && final(self)@ == old(self)@.push(node),
            old(self)@.len() >= old(self).spec_capacity() ==> r == Err::<NodeID, ArenaError>(ArenaError::CapacityExceeded)
                && final(self)@ == old(self)@,
    {
        proof { use_type_invariant(&*self); }
        if self.nodes.len() >= self.capacity as usize {
            return Err(ArenaError::CapacityExceeded);
        }
        let id = NodeID(self.nodes.len() as u32);
        let mut nodes: Vec<ASTNode> = Vec::new();
        std::mem::swap(&mut nodes, &mut self.nodes);
        nodes.push(node);
        self.nodes = nodes;
        Ok(id)
    }

    /// Read a node by id. Fails with `InvalidNodeID` unless the id names an
    /// allocated node.
    pub fn get(&self, id: NodeID) -> (r: Result<&ASTNode, ArenaError>)
        ensures
            self.bounded(),
            (id.0 as int) < self@.len() ==> (r matches Ok(n) && *n == self@[id.0 as int]),
            (id.0 as int) >= self@.len() ==> r == Err::<&ASTNode, ArenaError>(ArenaError::InvalidNodeID),
    {
        proof { use_type_invariant(self); }
        if id.0 as usize >= self.nodes.len() {
            return Err(ArenaError::InvalidNodeID);
        }
        Ok(&self.nodes[id.0 as usize])
    }

    /// Read a node and check its variant. Fails with `InvalidNodeID` for an
    /// unallocated id and with `TypeMismatch` for a node of another variant.
    pub fn get_typed(&self, id: NodeID, expected: TypeTag) -> (r: Result<&ASTNode, ArenaError>)
        ensures
            (id.0 as int) >= self@.len() ==> r == Err::<&ASTNode, ArenaError>(ArenaError::InvalidNodeID),
            (id.0 as int) < self@.len() && tag_of(self@[id.0 as int]) != expected
                ==> r == Err::<&ASTNode, ArenaError>(ArenaError::TypeMismatch),
            (id.0 as int) < self@.len() && tag_of(self@[id.0 as int]) == expected
                ==> (r matches Ok(n) && *n == self@[id.0 as int]),
    {
        let node = match self.get(id) {
            Ok(n) => n,
            Err(e) => return Err(e),
        };
        if node.type_tag() != expected {
            return Err(ArenaError::TypeMismatch);
        }
        Ok(node)
    }

    /// Number of allocated nodes.
    pub fn used(&self) -> (n: u32)
        ensures
            n == self@.len(),
            self.bounded(),
    {
        proof { use_type_invariant(self); }
        self.nodes.len() as u32
    }

    /// Total capacity.
    pub fn capacity(&self) -> (c: u32)
        ensures
            c == self.spec_capacity(),
    {
        self.capacity
    }

    /// Whether the arena has no cycle, so that walking down from any node
    /// ends. Nodes are ranked round by round: a node gets the round's rank
    /// once all its children inside the arena have smaller ranks; the arena
    /// is acyclic exactly when every node gets one.
    pub fn is_acyclic(&self) -> (r: bool)
        ensures
            r == acyclic(self@),
    {
        let n = self.used() as usize;
        let ghost a = self@;
        let mut done: Vec<bool> = Vec::new();
        let mut rank: Vec<u64> = Vec::new();
        let mut k: usize = 0;
        while k < n
            invariant
                k <= n,
                n == a.len(),
                n <= u32::MAX,
                done@.len() == k,
                rank@.len() == k,
                count_true(done@) == 0,
                forall|j: int| 0 <= j < k ==> !#[trigger] done@[j],
            decreases n - k,
        {
            let ghost before = done@;
            done.push(false);
            rank.push(0);
            proof {
                assert(done@.drop_last() =~= before);
            }
            k = k + 1;
        }
        let mut count: usize = 0;
        let mut t: u64 = 1;
        loop
            invariant
                n == a.len(),
                a == self@,
                n <= u32::MAX,
                done@.len() == n,
                rank@.len() == n,
                count == count_true(done@),
                count <= n,
                1 <= t <= count + 1,
                forall|j: int| 0 <= j < n && #[trigger] done@[j] ==> rank@[j] < t,
                forall|j: int, i: int|
                    0 <= j < n && done@[j] && 0 <= i < node_children(a[j]).len() && #[trigger] node_children(a[j])[i] < n
                        ==> done@[node_children(a[j])[i] as int] && rank@[node_children(a[j])[i] as int] < rank@[j],
            ensures
                stuck(a, done@),
            decreases n - count,
        {
            let ghost count0 = count;
            let mut progress = false;
            let mut k: usize = 0;
            while k < n
                invariant
                    n == a.len(),
                    a == self@,
                    n <= u32::MAX,
                    k <= n,
                    done@.len() == n,
                    rank@.len() == n,
                    count == count_true(done@),
                    count <= n,
                    1 <= t <= count0 + 1,
                    progress ==> count > count0,
                    !progress ==> count == count0,
                    forall|j: int| 0 <= j < n && #[trigger] done@[j] ==> rank@[j] <= t,
                    !progress ==> forall|j: int| 0 <= j < n && #[trigger] done@[j] ==> rank@[j] < t,
                    forall|j: int, i: int|
                        0 <= j < n && done@[j] && 0 <= i < node_children(a[j]).len() && #[trigger] node_children(a[j])[i]
                            < n ==> done@[node_children(a[j])[i] as int] && rank@[node_children(a[j])[i] as int]
                            < rank@[j],
                    !progress ==> forall|j: int|
                        0 <= j < k && !#[trigger] done@[j] ==> exists|i: int|
                            0 <= i < node_children(a[j]).len() && (node_children(a[j])[i] as int) < a.len()
                                && !done@[node_children(a[j])[i] as int],
                decreases n - k,
            {
                if !done[k] {
                    let kids = children_of(&self.nodes[k]);
                    let mut ok = true;
                    let mut i: usize = 0;
                    while i < kids.len()
                        invariant
                            n == a.len(),
                            a == self@,
                            k < n,
                            done@.len() == n,
                            rank@.len() == n,
                            kids@ == node_children(a[k as int]),
                            i <= kids@.len(),
                            ok == forall|q: int|
                                0 <= q < i && #[trigger] kids@[q] < n ==> done@[kids@[q] as int] && rank@[kids@[q] as int]
                                    < t,
                        decreases kids@.len() - i,
                    {
                        let c = kids[i] as usize;
                        if c < n {
                            if !(done[c] && rank[c] < t) {
                                ok = false;
                            }
                        }
                        i = i + 1;
                    }
                    if ok {
                        proof {
                            lemma_count_true_set(done@, k as int);
                            lemma_count_true_bound(done@.update(k as int, true));
                        }
                        done.set(k, true);
                        rank.set(k, t);
                        count = count + 1;
                        progress = true;
                    } else {
                        proof {
                            if !progress {
                                let q = choose|q: int|
                                    0 <= q < kids@.len() && #[trigger] kids@[q] < n && !(done@[kids@[q] as int]
                                        && rank@[kids@[q] as int] < t);
                                assert(kids@[q] == node_children(a[k as int])[q]);
                                assert(!done@[kids@[q] as int]);
                            }
                        }
                    }
                }
                k = k + 1;
            }
            if !progress {
                break;
            }
            t = t + 1;
        }
        proof {
            lemma_count_true_bound(done@);
        }
        if count == n {
            proof {
                let r = rank@.map_values(|x: u64| x as nat);
                assert(ranked(a, r));
            }
            true
        } else {
            proof {
                assert(exists|j: int| 0 <= j < n && !done@[j]);
                let j = choose|j: int| 0 <= j < n && !done@[j];
                lemma_stuck_cyclic(a, done@, j);
            }
            false
        }
    }
}

/// The node identifiers a node refers to, as `node_children` lists them.
fn children_of(n: &ASTNode) -> (r: Vec<u32>)
    ensures
        r@ == node_children(*n),
{
    let mut v: Vec<u32> = Vec::new();
    match n {
        ASTNode::BinOp { left, right, .. } => {
            v.push(left.0);
            v.push(right.0);
        },
        ASTNode::UnaryOp { expr, .. } => {
            v.push(expr.0);
        },
        ASTNode::Call { func, args } => {
            v.push(func.0);
            v.push(args.0);
        },
        ASTNode::List { head, tail } => {
            v.push(head.0);
            v.push(tail.0);
        },
        ASTNode::Lambda { params, body } => {
            v.push(params.0);
            v.push(body.0);
        },
        ASTNode::LinearLet { name, value, body } => {
            v.push(name.0);
            v.push(value.0);
            v.push(body.0);
        },
        ASTNode::ForAll { var, set, body } => {
            v.push(var.0);
            v.push(set.0);
            v.push(body.0);
        },
        ASTNode::Exists { var, set, body } => {
            v.push(var.0);
            v.push(set.0);
            v.push(body.0);
        },
        ASTNode::SetLiteral { elems } => {
            v.push(elems.0);
        },
        ASTNode::SetMembership { elem, set } => {
            v.push(elem.0);
            v.push(set.0);
        },
        ASTNode::Mu { var, body } => {
            v.push(var.0);
            v.push(body.0);
        },
        ASTNode::Match { scrutinee, arms } => {
            v.push(scrutinee.0);
            v.push(arms.0);
        },
        ASTNode::MatchArm { body, .. } => {
            v.push(body.0);
        },
        ASTNode::TensorOp { args, .. } => {
            v.push(args.0);
        },
        ASTNode::AutodiffOp { target, params, .. } => {
            v.push(target.0);
            v.push(params.0);
        },
        _ => {},
    }
    assert(v@ =~= node_children(*n));
    v
}

} // verus!
