//! Type inference and checking on the syntax tree: the type of an
//! expression under an environment of variable types, shapes of tensor
//! operations, and compatibility of data types.
use vstd::prelude::*;
use crate::arena::{
    acyclic, lemma_rank_child, rank_of, ASTNode, Arena, NodeID, UnaryOp, INVALID_RAW, OP_ADD, OP_AND, OP_ASSIGN, OP_CONCAT, OP_DIV,
    OP_EQ, OP_GE, OP_GT, OP_LE, OP_LT, OP_MOD, OP_MUL, OP_NEQ, OP_OR, OP_POW, OP_SUB,
};
use crate::ownership::StringTable;
use crate::text::str_eq;
use crate::types::{
    broadcast_dims, broadcastable, data_type_eq, dtm, dtm_seq, lemma_dtm_function, DataType, Shape, TensorDtype, DTM,
};

verus! {

/// Type checking errors.
#[derive(Debug, PartialEq, Eq)]
pub enum TypeError {
    /// Incompatible types in a binary or unary operation.
    IncompatibleTypes { expected: DataType, actual: DataType },
    /// Variable not found in the type environment.
    UndefinedVariable { var: String },
    /// Type mismatch in a comparison or a call.
    TypeMismatch { expected: DataType, actual: DataType },
    /// The type cannot be inferred.
    UnknownType { expr: String },
    /// Matrix multiplication requires 2D tensors.
    MatMulRequires2D { lhs_rank: usize, rhs_rank: usize },
    /// Matrix multiplication inner dimensions must match.
    MatMulDimMismatch { lhs_inner: usize, rhs_inner: usize },
    /// Shapes are not compatible for broadcasting.
    BroadcastIncompatible { shape1: Shape, shape2: Shape },
    /// The operation needs a function type.
    NotATensor { expected: DataType },
}

/// A type error as a value.
pub enum TEM {
    IncompatibleTypes { expected: DTM, actual: DTM },
    UndefinedVariable { var: Seq<char> },
    TypeMismatch { expected: DTM, actual: DTM },
    UnknownType { expr: Seq<char> },
    MatMulRequires2D { lhs_rank: usize, rhs_rank: usize },
    MatMulDimMismatch { lhs_inner: usize, rhs_inner: usize },
    BroadcastIncompatible { shape1: Seq<usize>, shape2: Seq<usize> },
    NotATensor { expected: DTM },
}

/// The value of a type error.
pub open spec fn tem(e: TypeError) -> TEM {
    match e {
        TypeError::IncompatibleTypes { expected, actual } => TEM::IncompatibleTypes {
            expected: dtm(expected),
            actual: dtm(actual),
        },
        TypeError::UndefinedVariable { var } => TEM::UndefinedVariable { var: var@ },
        TypeError::TypeMismatch { expected, actual } => TEM::TypeMismatch { expected: dtm(expected), actual: dtm(actual) },
        TypeError::UnknownType { expr } => TEM::UnknownType { expr: expr@ },
        TypeError::MatMulRequires2D { lhs_rank, rhs_rank } => TEM::MatMulRequires2D { lhs_rank, rhs_rank },
        TypeError::MatMulDimMismatch { lhs_inner, rhs_inner } => TEM::MatMulDimMismatch { lhs_inner, rhs_inner },
        TypeError::BroadcastIncompatible { shape1, shape2 } => TEM::BroadcastIncompatible {
            shape1: shape1.dims@,
            shape2: shape2.dims@,
        },
        TypeError::NotATensor { expected } => TEM::NotATensor { expected: dtm(expected) },
    }
}

/// The value of a typing result.
pub open spec fn trm(r: Result<DataType, TypeError>) -> Result<DTM, TEM> {
    match r {
        Ok(t) => Ok(dtm(t)),
        Err(e) => Err(tem(e)),
    }
}

/// The value of a checking result.
pub open spec fn crm(r: Result<(), TypeError>) -> Result<(), TEM> {
    match r {
        Ok(_) => Ok(()),
        Err(e) => Err(tem(e)),
    }
}

/// Variable types, a later entry for a name replacing an earlier one.
pub type TypeEnv = Vec<(String, DataType)>;

/// The environment as a map from names to types.
pub open spec fn env_map(s: Seq<(String, DataType)>) -> Map<Seq<char>, DTM>
    decreases s.len(),
{
    if s.len() == 0 {
        Map::empty()
    } else {
        env_map(s.drop_last()).insert(s.last().0@, dtm(s.last().1))
    }
}

// ─── The typing rules ────────────────────────────────────────────────

/// The type an arithmetic, text, comparison, logic or assignment operator
/// gives to operands of types `lt` and `rt`.
pub open spec fn binop_type(op: u8, lt: DTM, rt: DTM) -> Result<DTM, TEM> {
    if op == OP_ADD || op == OP_SUB || op == OP_MUL || op == OP_DIV || op == OP_MOD || op == OP_POW {
        if lt != DTM::Int64 {
            Err(TEM::IncompatibleTypes { expected: DTM::Int64, actual: lt })
        } else if rt != DTM::Int64 {
            Err(TEM::IncompatibleTypes { expected: DTM::Int64, actual: rt })
        } else {
            Ok(DTM::Int64)
        }
    } else if op == OP_CONCAT {
        if lt != DTM::Text {
            Err(TEM::IncompatibleTypes { expected: DTM::Text, actual: lt })
        } else if rt != DTM::Text {
            Err(TEM::IncompatibleTypes { expected: DTM::Text, actual: rt })
        } else {
            Ok(DTM::Text)
        }
    } else if op == OP_LT || op == OP_GT || op == OP_LE || op == OP_GE || op == OP_EQ || op == OP_NEQ {
        if lt != rt {
            Err(TEM::TypeMismatch { expected: lt, actual: rt })
        } else {
            Ok(DTM::Bool)
        }
    } else if op == OP_AND || op == OP_OR {
        if lt != DTM::Bool {
            Err(TEM::IncompatibleTypes { expected: DTM::Bool, actual: lt })
        } else if rt != DTM::Bool {
            Err(TEM::IncompatibleTypes { expected: DTM::Bool, actual: rt })
        } else {
            Ok(DTM::Bool)
        }
    } else if op == OP_ASSIGN {
        Ok(rt)
    } else {
        Err(TEM::UnknownType { expr: "unknown operator"@ })
    }
}

/// The type `-` or `¬` gives to an operand of type `t`.
pub open spec fn unop_type(op: UnaryOp, t: DTM) -> Result<DTM, TEM> {
    match op {
        UnaryOp::Neg => if t != DTM::Int64 {
            Err(TEM::IncompatibleTypes { expected: DTM::Int64, actual: t })
        } else {
            Ok(DTM::Int64)
        },
        UnaryOp::Not => if t != DTM::Bool {
            Err(TEM::IncompatibleTypes { expected: DTM::Bool, actual: t })
        } else {
            Ok(DTM::Bool)
        },
    }
}

/// The environment of a lambda's body: the parameter, when it is a named
/// identifier, is an integer.
pub open spec fn lambda_env(a: Seq<ASTNode>, strs: Seq<Seq<char>>, env: Map<Seq<char>, DTM>, params: NodeID) -> Map<
    Seq<char>,
    DTM,
> {
    if (params.0 as int) < a.len() {
        match a[params.0 as int] {
            ASTNode::Ident(p) => if (p as int) < strs.len() {
                env.insert(strs[p as int], DTM::Int64)
            } else {
                env
            },
            _ => env,
        }
    } else {
        env
    }
}

/// The type of node `nid` under `env`.
pub open spec fn infer_spec(a: Seq<ASTNode>, strs: Seq<Seq<char>>, env: Map<Seq<char>, DTM>, nid: u32) -> Result<
    DTM,
    TEM,
>
    decreases rank_of(a)[nid as int],
    when acyclic(a)
{
    if nid as int >= a.len() {
        Err(TEM::UnknownType { expr: "invalid node"@ })
    } else {
        match a[nid as int] {
            ASTNode::Int(_) => Ok(DTM::Int64),
            ASTNode::BoolLit(_) => Ok(DTM::Bool),
            ASTNode::Str(_) => Ok(DTM::Text),
            ASTNode::Ident(idx) => if (idx as int) < strs.len() {
                if env.contains_key(strs[idx as int]) {
                    Ok(env[strs[idx as int]])
                } else {
                    Err(TEM::UndefinedVariable { var: strs[idx as int] })
                }
            } else {
                Err(TEM::UnknownType { expr: "unknown identifier"@ })
            },
            ASTNode::BinOp { op, left, right } => {
                let lt = if (left.0 as int) < a.len() {
                    proof {
                        lemma_rank_child(a, nid as int, 0);
                    }
                    infer_spec(a, strs, env, left.0)
                } else {
                    Err(TEM::UnknownType { expr: "invalid node"@ })
                };
                let rt = if (right.0 as int) < a.len() {
                    proof {
                        lemma_rank_child(a, nid as int, 1);
                    }
                    infer_spec(a, strs, env, right.0)
                } else {
                    Err(TEM::UnknownType { expr: "invalid node"@ })
                };
                match lt {
                    Err(e) => Err(e),
                    Ok(l) => match rt {
                        Err(e) => Err(e),
                        Ok(r) => binop_type(op, l, r),
                    },
                }
            },
            ASTNode::UnaryOp { op, expr } => {
                let t = if (expr.0 as int) < a.len() {
                    proof {
                        lemma_rank_child(a, nid as int, 0);
                    }
                    infer_spec(a, strs, env, expr.0)
                } else {
                    Err(TEM::UnknownType { expr: "invalid node"@ })
                };
                match t {
                    Err(e) => Err(e),
                    Ok(t) => unop_type(op, t),
                }
            },
            ASTNode::Lambda { params, body } => if (body.0 as int) < a.len() {
                proof {
                    lemma_rank_child(a, nid as int, 1);
                }
                infer_spec(a, strs, lambda_env(a, strs, env, params), body.0)
            } else {
                Err(TEM::UnknownType { expr: "invalid node"@ })
            },
            ASTNode::Call { func, .. } => if (func.0 as int) < a.len() {
                proof {
                    lemma_rank_child(a, nid as int, 0);
                }
                infer_spec(a, strs, env, func.0)
            } else {
                Err(TEM::UnknownType { expr: "invalid node"@ })
            },
            ASTNode::List { head, .. } => if (head.0 as int) < a.len() {
                proof {
                    lemma_rank_child(a, nid as int, 0);
                }
                infer_spec(a, strs, env, head.0)
            } else {
                Err(TEM::UnknownType { expr: "invalid node"@ })
            },
            ASTNode::SetLiteral { elems } => if elems.0 == INVALID_RAW {
                Ok(DTM::Text)
            } else if (elems.0 as int) < a.len() {
                proof {
                    lemma_rank_child(a, nid as int, 0);
                }
                infer_spec(a, strs, env, elems.0)
            } else {
                Err(TEM::UnknownType { expr: "invalid node"@ })
            },
            ASTNode::ForAll { body, .. } => if (body.0 as int) < a.len() {
                proof {
                    lemma_rank_child(a, nid as int, 2);
                }
                infer_spec(a, strs, env, body.0)
            } else {
                Err(TEM::UnknownType { expr: "invalid node"@ })
            },
            ASTNode::Exists { body, .. } => if (body.0 as int) < a.len() {
                proof {
                    lemma_rank_child(a, nid as int, 2);
                }
                infer_spec(a, strs, env, body.0)
            } else {
                Err(TEM::UnknownType { expr: "invalid node"@ })
            },
            ASTNode::Mu { body, .. } => if (body.0 as int) < a.len() {
                proof {
                    lemma_rank_child(a, nid as int, 1);
                }
                infer_spec(a, strs, env, body.0)
            } else {
                Err(TEM::UnknownType { expr: "invalid node"@ })
            },
            _ => Ok(DTM::Text),
        }
    }
}

/// The typing rules of binary operators: a comparison of two operands of
/// one type is a `Bool`, whatever that type, and of two types is an
/// error; arithmetic on two `Int64` is an `Int64`, concatenation of two
/// texts a text, and `∧`/`∨` of two `Bool` a `Bool`; arithmetic on a
/// non-integer is an error.
pub proof fn law_binop_typing(a: Seq<ASTNode>, strs: Seq<Seq<char>>, env: Map<Seq<char>, DTM>, nid: u32, lt: DTM, rt: DTM)
    requires
        acyclic(a),
        (nid as int) < a.len(),
        a[nid as int] is BinOp,
        infer_spec(a, strs, env, a[nid as int]->BinOp_left.0) == Ok::<DTM, TEM>(lt),
        infer_spec(a, strs, env, a[nid as int]->BinOp_right.0) == Ok::<DTM, TEM>(rt),
    ensures
        ({
            let op = a[nid as int]->BinOp_op;
            let r = infer_spec(a, strs, env, nid);
            &&& (op == OP_LT || op == OP_GT || op == OP_LE || op == OP_GE || op == OP_EQ || op == OP_NEQ) ==> (lt == rt
                ==> r == Ok::<DTM, TEM>(DTM::Bool)) && (lt != rt ==> r is Err)
            &&& (op == OP_ADD || op == OP_SUB || op == OP_MUL || op == OP_DIV || op == OP_MOD || op == OP_POW) ==> (lt
                == DTM::Int64 && rt == DTM::Int64 ==> r == Ok::<DTM, TEM>(DTM::Int64)) && (lt != DTM::Int64 || rt
                != DTM::Int64 ==> r is Err)
            &&& op == OP_CONCAT ==> (lt == DTM::Text && rt == DTM::Text ==> r == Ok::<DTM, TEM>(DTM::Text)) && (lt
                != DTM::Text || rt != DTM::Text ==> r is Err)
            &&& (op == OP_AND || op == OP_OR) ==> (lt == DTM::Bool && rt == DTM::Bool ==> r == Ok::<DTM, TEM>(
                DTM::Bool,
            )) && (lt != DTM::Bool || rt != DTM::Bool ==> r is Err)
            &&& op == OP_ASSIGN ==> r == Ok::<DTM, TEM>(rt)
            &&& op > OP_OR ==> r is Err
        }),
{
    let left = a[nid as int]->BinOp_left.0;
    let right = a[nid as int]->BinOp_right.0;
    assert((left as int) < a.len());
    assert((right as int) < a.len());
}

/// The typing rules of unary operators: negation takes an `Int64` to an
/// `Int64`, `¬` a `Bool` to a `Bool`, and anything else is an error.
pub proof fn law_unary_typing(a: Seq<ASTNode>, strs: Seq<Seq<char>>, env: Map<Seq<char>, DTM>, nid: u32, t: DTM)
    requires
        acyclic(a),
        (nid as int) < a.len(),
        a[nid as int] is UnaryOp,
        infer_spec(a, strs, env, a[nid as int]->UnaryOp_expr.0) == Ok::<DTM, TEM>(t),
    ensures
        ({
            let op = a[nid as int]->UnaryOp_op;
            let r = infer_spec(a, strs, env, nid);
            &&& op == UnaryOp::Neg ==> (t == DTM::Int64 ==> r == Ok::<DTM, TEM>(DTM::Int64)) && (t != DTM::Int64
                ==> r is Err)
            &&& op == UnaryOp::Not ==> (t == DTM::Bool ==> r == Ok::<DTM, TEM>(DTM::Bool)) && (t != DTM::Bool
                ==> r is Err)
        }),
{
    assert((a[nid as int]->UnaryOp_expr.0 as int) < a.len());
}

// ─── Environments ────────────────────────────────────────────────────

/// The type bound to `name`, if any.
fn env_lookup(env: &TypeEnv, name: &str) -> (r: Option<DataType>)
    ensures
        r is Some == env_map(env@).contains_key(name@),
        r matches Some(t) ==> dtm(t) == env_map(env@)[name@],
{
    let mut i: usize = env.len();
    while i > 0
        invariant
            i <= env@.len(),
            forall|k: int| i <= k < env@.len() ==> (#[trigger] env@[k]).0@ != name@,
        decreases i,
    {
        if str_eq(env[i - 1].0.as_str(), name) {
            proof {
                lemma_env_prefix(env@, i as int, name@);
                assert(env@.take(i as int).drop_last() =~= env@.take(i as int - 1));
            }
            return Some(env[i - 1].1.copy());
        }
        i = i - 1;
    }
    proof {
        lemma_env_prefix(env@, 0, name@);
        assert(env@.take(0) =~= Seq::<(String, DataType)>::empty());
    }
    None
}

proof fn lemma_env_prefix(s: Seq<(String, DataType)>, i: int, k: Seq<char>)
    requires
        0 <= i <= s.len(),
        forall|q: int| i <= q < s.len() ==> (#[trigger] s[q]).0@ != k,
    ensures
        env_map(s).contains_key(k) == env_map(s.take(i)).contains_key(k),
        env_map(s).contains_key(k) ==> env_map(s)[k] == env_map(s.take(i))[k],
    decreases s.len() - i,
{
    if i < s.len() {
        lemma_env_prefix(s.drop_last(), i, k);
        assert(s.drop_last().take(i) =~= s.take(i));
    } else {
        assert(s.take(i) =~= s);
    }
}

/// A copy of the environment.
fn env_copy(env: &TypeEnv) -> (r: TypeEnv)
    ensures
        env_map(r@) == env_map(env@),
{
    let mut out: TypeEnv = Vec::new();
    let mut i: usize = 0;
    while i < env.len()
        invariant
            i <= env@.len(),
            env_map(out@) == env_map(env@.take(i as int)),
        decreases env@.len() - i,
    {
        let ghost before = out@;
        out.push((env[i].0.clone(), env[i].1.copy()));
        proof {
            assert(out@.drop_last() =~= before);
            assert(env@.take(i as int + 1).drop_last() =~= env@.take(i as int));
        }
        i = i + 1;
    }
    proof {
        assert(env@.take(i as int) =~= env@);
    }
    out
}

// ─── Inference ───────────────────────────────────────────────────────

/// The error for a node that is not in the arena.
fn invalid_node() -> (e: TypeError)
    ensures
        tem(e) == (TEM::UnknownType { expr: "invalid node"@ }),
{
    TypeError::UnknownType { expr: String::from_str("invalid node") }
}

/// Checks that both operand types are `want`, for an operator that yields `want`.
fn both_are(want: DataType, lt: DataType, rt: DataType) -> (r: Result<DataType, TypeError>)
    ensures
        trm(r) == (if dtm(lt) != dtm(want) {
            Err(TEM::IncompatibleTypes { expected: dtm(want), actual: dtm(lt) })
        } else if dtm(rt) != dtm(want) {
            Err(TEM::IncompatibleTypes { expected: dtm(want), actual: dtm(rt) })
        } else {
            Ok(dtm(want))
        }),
{
    if !data_type_eq(&lt, &want) {
        return Err(TypeError::IncompatibleTypes { expected: want, actual: lt });
    }
    if !data_type_eq(&rt, &want) {
        return Err(TypeError::IncompatibleTypes { expected: want, actual: rt });
    }
    Ok(want)
}

/// The type of a binary operation on operands of the given types.
fn binop_result(op: u8, lt: DataType, rt: DataType) -> (r: Result<DataType, TypeError>)
    ensures
        trm(r) == binop_type(op, dtm(lt), dtm(rt)),
{
    if op == OP_ADD || op == OP_SUB || op == OP_MUL || op == OP_DIV || op == OP_MOD || op == OP_POW {
        both_are(DataType::Int64, lt, rt)
    } else if op == OP_CONCAT {
        both_are(DataType::Text, lt, rt)
    } else if op == OP_LT || op == OP_GT || op == OP_LE || op == OP_GE || op == OP_EQ || op == OP_NEQ {
        if !data_type_eq(&lt, &rt) {
            return Err(TypeError::TypeMismatch { expected: lt, actual: rt });
        }
        Ok(DataType::Bool)
    } else if op == OP_AND || op == OP_OR {
        both_are(DataType::Bool, lt, rt)
    } else if op == OP_ASSIGN {
        Ok(rt)
    } else {
        Err(TypeError::UnknownType { expr: String::from_str("unknown operator") })
    }
}

/// The type of node `node_id` under `type_env`.
pub fn infer_type(node_id: NodeID, arena: &Arena, string_table: &StringTable, type_env: &TypeEnv) -> (r: Result<
    DataType,
    TypeError,
>)
    requires
        acyclic(arena@),
    ensures
        trm(r) == infer_spec(arena@, string_table@, env_map(type_env@), node_id.0),
    decreases rank_of(arena@)[node_id.0 as int],
{
    let ghost a = arena@;
    let n = arena.used();
    let node: ASTNode = match arena.get(node_id) {
        Ok(n) => *n,
        Err(_) => {
            return Err(invalid_node());
        },
    };
    assert(node == a[node_id.0 as int]);
    match node {
        ASTNode::Int(_) => Ok(DataType::Int64),
        ASTNode::BoolLit(_) => Ok(DataType::Bool),
        ASTNode::Str(_) => Ok(DataType::Text),
        ASTNode::Ident(idx) => match string_table.get(idx) {
            Some(name) => match env_lookup(type_env, name) {
                Some(t) => Ok(t),
                None => Err(TypeError::UndefinedVariable { var: String::from_str(name) }),
            },
            None => Err(TypeError::UnknownType { expr: String::from_str("unknown identifier") }),
        },
        ASTNode::BinOp { op, left, right } => {
            let lt = if left.0 < n {
                proof {
                    lemma_rank_child(a, node_id.0 as int, 0);
                }
                infer_type(left, arena, string_table, type_env)
            } else {
                Err(invalid_node())
            };
            let lt = match lt {
                Ok(t) => t,
                Err(e) => {
                    return Err(e);
                },
            };
            let rt = if right.0 < n {
                proof {
                    lemma_rank_child(a, node_id.0 as int, 1);
                }
                infer_type(right, arena, string_table, type_env)
            } else {
                Err(invalid_node())
            };
            let rt = match rt {
                Ok(t) => t,
                Err(e) => {
                    return Err(e);
                },
            };
            binop_result(op, lt, rt)
        },
        ASTNode::UnaryOp { op, expr } => {
            let t = if expr.0 < n {
                proof {
                    lemma_rank_child(a, node_id.0 as int, 0);
                }
                infer_type(expr, arena, string_table, type_env)
            } else {
                Err(invalid_node())
            };
            let t = match t {
                Ok(t) => t,
                Err(e) => {
                    return Err(e);
                },
            };
            match op {
                UnaryOp::Neg => {
                    if !data_type_eq(&t, &DataType::Int64) {
                        return Err(TypeError::IncompatibleTypes { expected: DataType::Int64, actual: t });
                    }
                    Ok(DataType::Int64)
                },
                UnaryOp::Not => {
                    if !data_type_eq(&t, &DataType::Bool) {
                        return Err(TypeError::IncompatibleTypes { expected: DataType::Bool, actual: t });
                    }
                    Ok(DataType::Bool)
                },
            }
        },
        ASTNode::Lambda { params, body } => {
            let mut body_env = env_copy(type_env);
            if let Ok(ASTNode::Ident(param_idx)) = arena.get(params) {
                if let Some(param_name) = string_table.get(*param_idx) {
                    let ghost before = body_env@;
                    body_env.push((String::from_str(param_name), DataType::Int64));
                    proof {
                        assert(body_env@.drop_last() =~= before);
                    }
                }
            }
            if body.0 < n {
                proof {
                    lemma_rank_child(a, node_id.0 as int, 1);
                }
                infer_type(body, arena, string_table, &body_env)
            } else {
                Err(invalid_node())
            }
        },
        ASTNode::Call { func, .. } => {
            if func.0 < n {
                proof {
                    lemma_rank_child(a, node_id.0 as int, 0);
                }
                infer_type(func, arena, string_table, type_env)
            } else {
                Err(invalid_node())
            }
        },
        ASTNode::List { head, .. } => {
            if head.0 < n {
                proof {
                    lemma_rank_child(a, node_id.0 as int, 0);
                }
                infer_type(head, arena, string_table, type_env)
            } else {
                Err(invalid_node())
            }
        },
        ASTNode::SetLiteral { elems } => {
            if elems.0 == INVALID_RAW {
                Ok(DataType::Text)
            } else if elems.0 < n {
                proof {
                    lemma_rank_child(a, node_id.0 as int, 0);
                }
                infer_type(elems, arena, string_table, type_env)
            } else {
                Err(invalid_node())
            }
        },
        ASTNode::ForAll { body, .. } => {
            if body.0 < n {
                proof {
                    lemma_rank_child(a, node_id.0 as int, 2);
                }
                infer_type(body, arena, string_table, type_env)
            } else {
                Err(invalid_node())
            }
        },
        ASTNode::Exists { body, .. } => {
            if body.0 < n {
                proof {
                    lemma_rank_child(a, node_id.0 as int, 2);
                }
                infer_type(body, arena, string_table, type_env)
            } else {
                Err(invalid_node())
            }
        },
        ASTNode::Mu { body, .. } => {
            if body.0 < n {
                proof {
                    lemma_rank_child(a, node_id.0 as int, 1);
                }
                infer_type(body, arena, string_table, type_env)
            } else {
                Err(invalid_node())
            }
        },
        _ => Ok(DataType::Text),
    }
}


// ─── Tensor shapes ───────────────────────────────────────────────────

/// The shape of a matrix product `(M × K) · (K × N) = (M × N)`.
pub fn infer_matmul_shape(lhs_shape: &Shape, rhs_shape: &Shape) -> (r: Result<Shape, TypeError>)
    ensures
        lhs_shape.dims@.len() != 2 || rhs_shape.dims@.len() != 2 ==> crm_shape(r) == Err::<Seq<usize>, TEM>(
            TEM::MatMulRequires2D { lhs_rank: lhs_shape.dims@.len() as usize, rhs_rank: rhs_shape.dims@.len() as usize },
        ),
        lhs_shape.dims@.len() == 2 && rhs_shape.dims@.len() == 2 ==> crm_shape(r) == (if lhs_shape.dims@[1]
            != rhs_shape.dims@[0] {
            Err(TEM::MatMulDimMismatch { lhs_inner: lhs_shape.dims@[1], rhs_inner: rhs_shape.dims@[0] })
        } else {
            Ok(seq![lhs_shape.dims@[0], rhs_shape.dims@[1]])
        }),
{
    if lhs_shape.rank() != 2 || rhs_shape.rank() != 2 {
        return Err(TypeError::MatMulRequires2D { lhs_rank: lhs_shape.rank(), rhs_rank: rhs_shape.rank() });
    }
    let m = lhs_shape.dims[0];
    let k1 = lhs_shape.dims[1];
    let k2 = rhs_shape.dims[0];
    let n = rhs_shape.dims[1];
    if k1 != k2 {
        return Err(TypeError::MatMulDimMismatch { lhs_inner: k1, rhs_inner: k2 });
    }
    let out = Shape::new(vec![m, n]);
    assert(out.dims@ =~= seq![m, n]);
    Ok(out)
}

/// The value of a shape result.
pub open spec fn crm_shape(r: Result<Shape, TypeError>) -> Result<Seq<usize>, TEM> {
    match r {
        Ok(s) => Ok(s.dims@),
        Err(e) => Err(tem(e)),
    }
}

/// The shape of an element-wise operation under NumPy broadcasting.
pub fn infer_broadcast_shape(shape1: &Shape, shape2: &Shape) -> (r: Result<Shape, TypeError>)
    ensures
        crm_shape(r) == (if broadcastable(shape1.dims@, shape2.dims@) {
            Ok(broadcast_dims(shape1.dims@, shape2.dims@))
        } else {
            Err(TEM::BroadcastIncompatible { shape1: shape1.dims@, shape2: shape2.dims@ })
        }),
{
    match shape1.broadcast_shape(shape2) {
        Some(s) => Ok(s),
        None => Err(TypeError::BroadcastIncompatible { shape1: shape1.copy(), shape2: shape2.copy() }),
    }
}

// ─── Compatibility of data types ─────────────────────────────────────

/// Whether a value of type `a` may stand where `e` is expected: equal
/// scalars; tensors of one element type and broadcastable shapes;
/// functions whose arguments and results are compatible in turn.
pub open spec fn compat(e: DTM, a: DTM) -> Result<(), TEM>
    decreases e, 1nat, 0int,
{
    match (e, a) {
        (DTM::Int64, DTM::Int64) => Ok(()),
        (DTM::Float64, DTM::Float64) => Ok(()),
        (DTM::Bool, DTM::Bool) => Ok(()),
        (DTM::Text, DTM::Text) => Ok(()),
        (DTM::Tensor { dtype: d1, dims: s1 }, DTM::Tensor { dtype: d2, dims: s2 }) => if d1 != d2 {
            Err(TEM::TypeMismatch { expected: e, actual: a })
        } else if !broadcastable(s1, s2) {
            Err(TEM::BroadcastIncompatible { shape1: s1, shape2: s2 })
        } else {
            Ok(())
        },
        (DTM::Function { args: a1, .. }, DTM::Function { args: a2, .. }) => if a1.len() != a2.len() {
            Err(TEM::TypeMismatch { expected: e, actual: a })
        } else {
            compat_from(e, a, 0)
        },
        _ => Err(TEM::TypeMismatch { expected: e, actual: a }),
    }
}

/// For two function types: the first failure among their arguments from
/// `i` on, else their results' compatibility.
pub open spec fn compat_from(e: DTM, a: DTM, i: int) -> Result<(), TEM>
    decreases e, 0nat, (match e {
        DTM::Function { args, .. } => args.len() - i,
        _ => 0,
    }),
{
    match (e, a) {
        (DTM::Function { args: a1, ret: r1 }, DTM::Function { args: a2, ret: r2 }) => if i < 0 || i >= a1.len()
            || i >= a2.len() {
            proof {
                assert(decreases_to!(e => e->Function_ret));
            }
            compat(*r1, *r2)
        } else {
            proof {
                assert(decreases_to!(e => e->Function_args));
                assert(decreases_to!(a1 => a1[i]));
            }
            match compat(a1[i], a2[i]) {
                Err(x) => Err(x),
                Ok(_) => compat_from(e, a, i + 1),
            }
        },
        _ => Ok(()),
    }
}

/// Checks that a value of type `actual` may stand where `expected` is
/// expected, and says why not.
pub fn check_type_compatible(expected: &DataType, actual: &DataType) -> (r: Result<(), TypeError>)
    ensures
        crm(r) == compat(dtm(*expected), dtm(*actual)),
    decreases expected,
{
    match (expected, actual) {
        (DataType::Int64, DataType::Int64) => Ok(()),
        (DataType::Float64, DataType::Float64) => Ok(()),
        (DataType::Bool, DataType::Bool) => Ok(()),
        (DataType::Text, DataType::Text) => Ok(()),
        (DataType::Tensor { dtype: d1, shape: s1 }, DataType::Tensor { dtype: d2, shape: s2 }) => {
            if *d1 != *d2 {
                return Err(TypeError::TypeMismatch { expected: expected.copy(), actual: actual.copy() });
            }
            if !s1.can_broadcast(s2) {
                return Err(TypeError::BroadcastIncompatible { shape1: s1.copy(), shape2: s2.copy() });
            }
            Ok(())
        },
        (DataType::Function { arg_types: a1, return_type: r1 }, DataType::Function { arg_types: a2, return_type: r2 }) => {
            proof {
                lemma_dtm_function(*expected);
                lemma_dtm_function(*actual);
            }
            let ghost e = dtm(*expected);
            let ghost ac = dtm(*actual);
            if a1.len() != a2.len() {
                return Err(TypeError::TypeMismatch { expected: expected.copy(), actual: actual.copy() });
            }
            let mut i: usize = 0;
            while i < a1.len()
                invariant
                    *expected == (DataType::Function { arg_types: *a1, return_type: *r1 }),
                    *actual == (DataType::Function { arg_types: *a2, return_type: *r2 }),
                    e == dtm(*expected),
                    ac == dtm(*actual),
                    e == (DTM::Function { args: dtm_seq(a1@), ret: Box::new(dtm(**r1)) }),
                    ac == (DTM::Function { args: dtm_seq(a2@), ret: Box::new(dtm(**r2)) }),
                    a1@.len() == a2@.len(),
                    i <= a1@.len(),
                    compat(e, ac) == compat_from(e, ac, i as int),
                decreases a1@.len() - i,
            {
                proof {
                    let w = (*expected)->Function_arg_types;
                    assert(decreases_to!(*expected => (*expected)->Function_arg_types));
                    assert(decreases_to!(w => w@));
                    assert(decreases_to!(w@ => w@[i as int]));
                }
                let c = check_type_compatible(&a1[i], &a2[i]);
                match c {
                    Err(x) => {
                        return Err(x);
                    },
                    Ok(_) => {},
                }
                i = i + 1;
            }
            proof {
                assert(decreases_to!(*expected => (*expected)->Function_return_type));
            }
            check_type_compatible(&**r1, &**r2)
        },
        _ => Err(TypeError::TypeMismatch { expected: expected.copy(), actual: actual.copy() }),
    }
}

/// The type of a tensor of the given shape and element type.
pub fn infer_tensor_type(shape: &Shape, dtype: &TensorDtype) -> (r: DataType)
    ensures
        dtm(r) == (DTM::Tensor { dtype: *dtype, dims: shape.dims@ }),
{
    DataType::Tensor { dtype: *dtype, shape: shape.copy() }
}

/// The type of a function from the argument types to the return type.
pub fn infer_function_type(arg_types: Vec<DataType>, return_type: DataType) -> (r: DataType)
    ensures
        dtm(r) == (DTM::Function { args: dtm_seq(arg_types@), ret: Box::new(dtm(return_type)) }),
{
    let r = DataType::Function { arg_types, return_type: Box::new(return_type) };
    proof {
        lemma_dtm_function(r);
    }
    r
}

/// The first failing compatibility among the argument pairs from `i` on.
pub open spec fn args_check(expected: Seq<DTM>, actual: Seq<DTM>, i: int) -> Result<(), TEM>
    decreases expected.len() - i,
{
    if i < 0 || i >= expected.len() || i >= actual.len() {
        Ok(())
    } else {
        match compat(expected[i], actual[i]) {
            Err(x) => Err(x),
            Ok(_) => args_check(expected, actual, i + 1),
        }
    }
}

/// Checks a call of a value of type `func_type` on arguments of the given
/// types, and gives the call's type.
pub fn check_function_call(func_type: &DataType, arg_types: &[DataType]) -> (r: Result<DataType, TypeError>)
    ensures
        trm(r) == match dtm(*func_type) {
            DTM::Function { args, ret } => if args.len() != arg_types@.len() {
                Err(TEM::TypeMismatch { expected: dtm(*func_type), actual: DTM::Text })
            } else {
                match args_check(args, dtm_seq(arg_types@), 0) {
                    Err(x) => Err(x),
                    Ok(_) => Ok(*ret),
                }
            },
            _ => Err(TEM::NotATensor { expected: dtm(*func_type) }),
        },
{
    match func_type {
        DataType::Function { arg_types: expected_args, return_type } => {
            proof {
                lemma_dtm_function(*func_type);
            }
            if expected_args.len() != arg_types.len() {
                return Err(TypeError::TypeMismatch { expected: func_type.copy(), actual: DataType::Text });
            }
            let ghost ea = dtm_seq(expected_args@);
            let ghost aa = dtm_seq(arg_types@);
            let mut i: usize = 0;
            while i < expected_args.len()
                invariant
                    expected_args@.len() == arg_types@.len(),
                    dtm(*func_type) == (DTM::Function { args: ea, ret: Box::new(dtm(**return_type)) }),
                    ea == dtm_seq(expected_args@),
                    aa == dtm_seq(arg_types@),
                    i <= expected_args@.len(),
                    args_check(ea, aa, 0) == args_check(ea, aa, i as int),
                decreases expected_args@.len() - i,
            {
                match check_type_compatible(&expected_args[i], &arg_types[i]) {
                    Err(x) => {
                        return Err(x);
                    },
                    Ok(_) => {},
                }
                i = i + 1;
            }
            Ok((**return_type).copy())
        },
        _ => Err(TypeError::NotATensor { expected: func_type.copy() }),
    }
}

} // verus!
