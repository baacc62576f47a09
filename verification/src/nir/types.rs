//! The type lattice of NIR values, and type inference on syntax trees.
use vstd::prelude::*;
use vstd::string::StringExecFns;
use crate::arena::{
    acyclic, below, lemma_rank_child, rank_of, ASTNode, Arena, NodeID, OP_ADD, OP_AND, OP_ASSIGN, OP_DIV, OP_EQ, OP_GE, OP_GT, OP_LE, OP_LT, OP_MOD,
    OP_MUL, OP_OR, OP_SUB,
};
use crate::text::{decimal, push_u64, str_eq};

verus! {

/// Types of NIR values.
#[derive(Debug)]
pub enum Type {
    /// Integer of the given bit width.
    Int(i32),
    /// Floating point of the given bit width.
    Float(i32),
    Bool,
    String,
    Unit,
    /// A type variable.
    Var(String),
    Func(Vec<Type>, Box<Type>),
    Array(Box<Type>, usize),
    Unknown,
}

/// Two types are compatible: an unknown type or a type variable on
/// either side, or the same scalar type (same width for numbers).
pub open spec fn compatible(a: Type, b: Type) -> bool {
    match (a, b) {
        (Type::Unknown, _) => true,
        (_, Type::Unknown) => true,
        (Type::Int(x), Type::Int(y)) => x == y,
        (Type::Float(x), Type::Float(y)) => x == y,
        (Type::Bool, Type::Bool) => true,
        (Type::String, Type::String) => true,
        (Type::Var(_), _) => true,
        (_, Type::Var(_)) => true,
        _ => false,
    }
}

impl Type {
    /// Integer or floating point.
    pub fn is_numeric(&self) -> (r: bool)
        ensures
            r == (self is Int || self is Float),
    {
        match self {
            Type::Int(_) | Type::Float(_) => true,
            _ => false,
        }
    }

    /// Whether the two types are compatible.
    pub fn is_compatible(&self, other: &Type) -> (r: bool)
        ensures
            r == compatible(*self, *other),
    {
        match (self, other) {
            (Type::Unknown, _) | (_, Type::Unknown) => true,
            (Type::Int(a), Type::Int(b)) => *a == *b,
            (Type::Float(a), Type::Float(b)) => *a == *b,
            (Type::Bool, Type::Bool) => true,
            (Type::String, Type::String) => true,
            (Type::Var(_), _) | (_, Type::Var(_)) => true,
            _ => false,
        }
    }

    /// A deep copy.
    pub fn copy(&self) -> (r: Type)
        ensures
            ty_model(r) == ty_model(*self),
        decreases self,
    {
        match self {
            Type::Func(args, ret) => {
                let mut v: Vec<Type> = Vec::new();
                let mut i: usize = 0;
                while i < args.len()
                    invariant
                        *self == Type::Func(*args, *ret),
                    decreases args.len() - i,
                {
                    proof {
                        let a = (*self)->Func_0;
                        assert(decreases_to!(*self => (*self)->Func_0));
                        assert(decreases_to!(a => a@));
                        assert(decreases_to!(a@ => a@[i as int]));
                        assert(decreases_to!(*self => args@[i as int]));
                    }
                    v.push(args[i].copy());
                    i = i + 1;
                }
                Type::Func(v, Box::new(ret.copy()))
            },
            Type::Int(w) => Type::Int(*w),
            Type::Float(w) => Type::Float(*w),
            Type::Bool => Type::Bool,
            Type::String => Type::String,
            Type::Unit => Type::Unit,
            Type::Var(n) => Type::Var(n.clone()),
            Type::Array(t, n) => Type::Array(Box::new(t.copy()), *n),
            Type::Unknown => Type::Unknown,
        }
    }
}

impl Clone for Type {
    fn clone(&self) -> (r: Self)
        ensures
            ty_model(r) == ty_model(*self),
    {
        self.copy()
    }
}

/// The types inference deals in, as values.
pub enum TyM {
    Int(i32),
    Float(i32),
    Bool,
    Var(Seq<char>),
    Unknown,
    /// Any other type.
    Other,
}

/// A type as a value: its kind, with the width of an integer and the name
/// of a type variable.
pub open spec fn ty_model(t: Type) -> TyM {
    match t {
        Type::Int(w) => TyM::Int(w),
        Type::Float(w) => TyM::Float(w),
        Type::Bool => TyM::Bool,
        Type::Var(n) => TyM::Var(n@),
        Type::Unknown => TyM::Unknown,
        _ => TyM::Other,
    }
}

// ─── Environments ────────────────────────────────────────────────────

/// The bindings of a list, a later one replacing an earlier one.
pub open spec fn binding_map(s: Seq<(String, Type)>) -> Map<Seq<char>, TyM>
    decreases s.len(),
{
    if s.len() == 0 {
        Map::empty()
    } else {
        binding_map(s.drop_last()).insert(s.last().0@, ty_model(s.last().1))
    }
}

/// The name of the `n`-th fresh type variable.
pub open spec fn var_name(n: nat) -> Seq<char> {
    "t"@ + decimal(n)
}

/// Type bindings of names, and a counter of fresh type variables.
pub struct TypeEnv {
    bindings: Vec<(String, Type)>,
    next_var: u32,
}

impl TypeEnv {
    /// The bindings.
    pub closed spec fn map(&self) -> Map<Seq<char>, TyM> {
        binding_map(self.bindings@)
    }

    /// The number of fresh variables made.
    pub closed spec fn made(&self) -> nat {
        self.next_var as nat
    }

    /// No bindings, no variables made.
    pub fn new() -> (r: Self)
        ensures
            r.map() == Map::<Seq<char>, TyM>::empty(),
            r.made() == 0,
    {
        TypeEnv { bindings: Vec::new(), next_var: 0 }
    }

    /// A fresh type variable `tN`.
    pub fn fresh_var(&mut self) -> (t: Type)
        requires
            old(self).made() < u32::MAX,
        ensures
            ty_model(t) == TyM::Var(var_name(old(self).made())),
            final(self).made() == old(self).made() + 1,
            final(self).map() == old(self).map(),
    {
        let mut name = String::from_str("t");
        push_u64(&mut name, self.next_var as u64);
        self.next_var = self.next_var + 1;
        Type::Var(name)
    }

    /// Binds `name` to `ty`, replacing an earlier binding.
    pub fn bind(&mut self, name: String, ty: Type)
        ensures
            final(self).map() == old(self).map().insert(name@, ty_model(ty)),
            final(self).made() == old(self).made(),
    {
        let ghost before = self.bindings@;
        let ghost key = name@;
        let ghost m = ty_model(ty);
        self.bindings.push((name, ty));
        proof {
            assert(self.bindings@.drop_last() =~= before);
        }
    }

    /// The type bound to `name`.
    pub fn lookup(&self, name: &str) -> (r: Option<&Type>)
        ensures
            r is Some == self.map().contains_key(name@),
            r matches Some(t) ==> ty_model(*t) == self.map()[name@],
    {
        let mut i: usize = self.bindings.len();
        while i > 0
            invariant
                i <= self.bindings@.len(),
                forall|k: int| i <= k < self.bindings@.len() ==> (#[trigger] self.bindings@[k]).0@ != name@,
            decreases i,
        {
            if str_eq(self.bindings[i - 1].0.as_str(), name) {
                proof {
                    lemma_binding_lookup(self.bindings@, i as int, name@);
                    assert(self.bindings@.take(i as int).drop_last() =~= self.bindings@.take(i as int - 1));
                }
                return Some(&self.bindings[i - 1].1);
            }
            i = i - 1;
        }
        proof {
            lemma_binding_lookup(self.bindings@, 0, name@);
            assert(self.bindings@.take(0) =~= Seq::<(String, Type)>::empty());
        }
        None
    }
}

proof fn lemma_binding_lookup(s: Seq<(String, Type)>, i: int, k: Seq<char>)
    requires
        0 <= i <= s.len(),
        forall|q: int| i <= q < s.len() ==> (#[trigger] s[q]).0@ != k,
    ensures
        binding_map(s).contains_key(k) == binding_map(s.take(i)).contains_key(k),
        binding_map(s).contains_key(k) ==> binding_map(s)[k] == binding_map(s.take(i))[k],
    decreases s.len() - i,
{
    if i < s.len() {
        lemma_binding_lookup(s.drop_last(), i, k);
        assert(s.drop_last().take(i) =~= s.take(i));
    } else {
        assert(s.take(i) =~= s);
    }
}

// ─── Inference ───────────────────────────────────────────────────────

/// The name under which the identifier at `offset` is bound.
pub open spec fn ident_key(offset: u32) -> Seq<char> {
    "var_"@ + decimal(offset as nat)
}

/// What inference knows: the bindings and the number of variables made.
pub struct InferState {
    pub env: Map<Seq<char>, TyM>,
    pub made: nat,
}

/// Inference of child `c` of node `parent`.
pub open spec fn infer_child(a: Seq<ASTNode>, s: InferState, parent: u32, c: NodeID) -> (InferState, TyM)
    decreases rank_of(a)[parent as int], 0nat,
{
    if below(a, parent, c.0) {
        infer_spec(a, s, c.0)
    } else {
        (s, TyM::Unknown)
    }
}

/// The type of node `nid`: integers are 64-bit, identifiers get a fresh
/// variable the first time, arithmetic keeps a numeric left type,
/// comparisons and logic give `Bool`, assignment the right type.
pub open spec fn infer_spec(a: Seq<ASTNode>, s: InferState, nid: u32) -> (InferState, TyM)
    decreases rank_of(a)[nid as int], 1nat,
{
    if nid as int >= a.len() {
        (s, TyM::Unknown)
    } else {
        match a[nid as int] {
            ASTNode::Int(_) => (s, TyM::Int(64)),
            ASTNode::BoolLit(_) => (s, TyM::Bool),
            ASTNode::Ident(offset) => {
                let k = ident_key(offset);
                if s.env.contains_key(k) {
                    (s, s.env[k])
                } else {
                    let v = TyM::Var(var_name(s.made));
                    (InferState { env: s.env.insert(k, v), made: s.made + 1 }, v)
                }
            },
            ASTNode::BinOp { op, left, right } => {
                let (s1, lt) = infer_child(a, s, nid, left);
                let (s2, rt) = infer_child(a, s1, nid, right);
                (
                    s2,
                    if op == OP_ASSIGN {
                        rt
                    } else if op == OP_ADD || op == OP_SUB || op == OP_MUL || op == OP_DIV || op == OP_MOD {
                        if numeric(lt) && numeric(rt) {
                            lt
                        } else {
                            TyM::Unknown
                        }
                    } else if op == OP_EQ || op == OP_LT || op == OP_LE || op == OP_GT || op == OP_GE || op == OP_AND
                        || op == OP_OR {
                        TyM::Bool
                    } else {
                        TyM::Unknown
                    },
                )
            },
            _ => (s, TyM::Unknown),
        }
    }
}

/// An integer or floating-point type.
pub open spec fn numeric(t: TyM) -> bool {
    t is Int || t is Float
}

pub proof fn lemma_infer_grows(a: Seq<ASTNode>, s: InferState, nid: u32)
    ensures
        infer_spec(a, s, nid).0.made >= s.made,
    decreases rank_of(a)[nid as int], 1nat,
{
    if (nid as int) < a.len() {
        match a[nid as int] {
            ASTNode::BinOp { left, right, .. } => {
                lemma_child_infer_grows(a, s, nid, left);
                let s1 = infer_child(a, s, nid, left).0;
                lemma_child_infer_grows(a, s1, nid, right);
            },
            _ => {},
        }
    }
}

pub proof fn lemma_child_infer_grows(a: Seq<ASTNode>, s: InferState, parent: u32, c: NodeID)
    ensures
        infer_child(a, s, parent, c).0.made >= s.made,
    decreases rank_of(a)[parent as int], 0nat,
{
    if below(a, parent, c.0) {
        lemma_infer_grows(a, s, c.0);
    }
}

/// Infers the types of the nodes of an arena.
pub struct TypeChecker<'a> {
    arena: &'a Arena,
    env: TypeEnv,
}

impl<'a> TypeChecker<'a> {
    /// What inference knows so far.
    pub closed spec fn state(&self) -> InferState {
        InferState { env: self.env.map(), made: self.env.made() }
    }

    /// The arena's nodes.
    pub closed spec fn nodes(&self) -> Seq<ASTNode> {
        self.arena@
    }

    /// A checker with no bindings.
    pub fn new(arena: &'a Arena) -> (r: Self)
        ensures
            r.nodes() == arena@,
            r.state() == (InferState { env: Map::empty(), made: 0 }),
    {
        TypeChecker { arena, env: TypeEnv::new() }
    }

    /// Whether `op` is an arithmetic operator code.
    fn is_arith(op: u8) -> (b: bool)
        ensures
            b == (op == OP_ADD || op == OP_SUB || op == OP_MUL || op == OP_DIV || op == OP_MOD),
    {
        op == OP_ADD || op == OP_SUB || op == OP_MUL || op == OP_DIV || op == OP_MOD
    }

    /// Infers the type of node `nid` (see `infer_spec`).
    pub fn infer(&mut self, nid: NodeID) -> (t: Type)
        requires
            acyclic(old(self).nodes()),
            infer_spec(old(self).nodes(), old(self).state(), nid.0).0.made < u32::MAX,
        ensures
            final(self).nodes() == old(self).nodes(),
            (final(self).state(), ty_model(t)) == infer_spec(old(self).nodes(), old(self).state(), nid.0),
        decreases rank_of(old(self).nodes())[nid.0 as int],
    {
        let ghost a = self.nodes();
        let n = self.arena.used();
        let ghost s = self.state();
        let node: ASTNode = match self.arena.get(nid) {
            Ok(n) => *n,
            Err(_) => {
                return Type::Unknown;
            },
        };
        assert(node == a[nid.0 as int]);
        match node {
            ASTNode::Int(_) => Type::Int(64),
            ASTNode::BoolLit(_) => Type::Bool,
            ASTNode::Ident(offset) => {
                let mut name = String::from_str("var_");
                push_u64(&mut name, offset as u64);
                match self.env.lookup(name.as_str()) {
                    Some(ty) => ty.clone(),
                    None => {
                        let ty = self.env.fresh_var();
                        let c = ty.clone();
                        self.env.bind(name, c);
                        proof {
                            assert(self.state().env == s.env.insert(ident_key(offset), ty_model(ty)));
                        }
                        ty
                    },
                }
            },
            ASTNode::BinOp { op, left, right } => {
                proof {
                    let s1 = infer_child(a, s, nid.0, left).0;
                    lemma_child_infer_grows(a, s1, nid.0, right);
                }
                let lt = if left.0 < n {
                    proof {
                        lemma_rank_child(a, nid.0 as int, 0);
                    }
                    self.infer(left)
                } else {
                    Type::Unknown
                };
                let rt = if right.0 < n {
                    proof {
                        lemma_rank_child(a, nid.0 as int, 1);
                    }
                    self.infer(right)
                } else {
                    Type::Unknown
                };
                if op == OP_ASSIGN {
                    rt
                } else if Self::is_arith(op) {
                    if lt.is_numeric() && rt.is_numeric() {
                        lt
                    } else {
                        Type::Unknown
                    }
                } else if op == OP_EQ || op == OP_LT || op == OP_LE || op == OP_GT || op == OP_GE || op == OP_AND || op == OP_OR {
                    Type::Bool
                } else {
                    Type::Unknown
                }
            },
            _ => Type::Unknown,
        }
    }
}

} // verus!
