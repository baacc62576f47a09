//! Lowering of syntax trees to NIR: every expression node becomes SSA
//! values and instructions in the entry block, named variables are
//! tracked by their source text, and each lowered node is remembered.
use vstd::prelude::*;
use vstd::string::StringSliceAdditionalSpecFns;
use vstd::string::StringExecFns;
use crate::text::{decimal, push_decimal, str_eq};
use crate::arena::{
    acyclic, below, binop_meaning, unop_meaning, lemma_child_below, lemma_rank_child, rank_of, ASTNode, Arena, NodeID, UnaryOp, INVALID_RAW, OP_ADD, OP_AND, OP_ASSIGN, OP_DIV, OP_NEQ,
    OP_EQ, OP_GE, OP_GT, OP_LE, OP_LT, OP_MOD, OP_MUL, OP_OR, OP_SUB,
};
use crate::nir::ir::{nir_meaning, nir_unop_meaning, block_instrs, defined_in, defined_value, defined_values, BlockID, Instr, NIRFunction, NIRInstruction, NIROp, NIRUnOp, NIRValue, ValueID};

verus! {

// ─── Identifiers in the source ────────────────────────────────────────

/// ASCII letter or digit.
pub open spec fn ascii_alnum(b: u8) -> bool {
    (0x30 <= b <= 0x39) || (0x41 <= b <= 0x5A) || (0x61 <= b <= 0x7A)
}

/// The end of the identifier that starts at byte `i`: ASCII letters,
/// digits and `_`, and two-byte sequences with a lead byte in
/// 0xD8..=0xDB (the Arabic block).
pub open spec fn ident_end(src: Seq<u8>, i: int) -> int
    decreases src.len() - i,
{
    if i < 0 || i >= src.len() {
        i
    } else if ascii_alnum(src[i]) || src[i] == 0x5F {
        ident_end(src, i + 1)
    } else if 0xD8 <= src[i] <= 0xDB && i + 1 < src.len() && 0x80 <= src[i + 1] <= 0xBF {
        ident_end(src, i + 2)
    } else {
        i
    }
}

/// The bytes of the identifier at offset `off`, none past the end.
pub open spec fn ident_name(src: Seq<u8>, off: u32) -> Option<Seq<u8>> {
    if off as int >= src.len() {
        None
    } else {
        Some(src.subrange(off as int, ident_end(src, off as int)))
    }
}

/// The code of a built-in function name (Latin or Arabic spelling).
pub open spec fn builtin_code(name: Seq<u8>) -> Option<i64> {
    if name == "sqrt".spec_bytes() || name == "جذر".spec_bytes() {
        Some(100)
    } else if name == "abs".spec_bytes() || name == "مطلق".spec_bytes() {
        Some(101)
    } else if name == "floor".spec_bytes() || name == "أرضية".spec_bytes() {
        Some(102)
    } else if name == "power".spec_bytes() || name == "قوة".spec_bytes() {
        Some(103)
    } else if name == "exp".spec_bytes() || name == "أسي".spec_bytes() {
        Some(104)
    } else if name == "print_int".spec_bytes() || name == "اطبع".spec_bytes() {
        Some(105)
    } else if name == "print_str".spec_bytes() || name == "اطبع_نص".spec_bytes() {
        Some(106)
    } else if name == "num_to_str".spec_bytes() || name == "نص".spec_bytes() {
        Some(107)
    } else if name == "list_len".spec_bytes() || name == "طول".spec_bytes() {
        Some(113)
    } else if name == "list_sum".spec_bytes() || name == "مجموع".spec_bytes() {
        Some(114)
    } else if name == "min".spec_bytes() || name == "أدنى".spec_bytes() {
        Some(120)
    } else if name == "max".spec_bytes() || name == "أقصى".spec_bytes() {
        Some(121)
    } else if name == "ceil".spec_bytes() || name == "سقف".spec_bytes() {
        Some(122)
    } else if name == "round".spec_bytes() || name == "قرّب".spec_bytes() {
        Some(123)
    } else if name == "str_len".spec_bytes() || name == "طول_نص".spec_bytes() {
        Some(130)
    } else if name == "str_concat".spec_bytes() || name == "اربط".spec_bytes() {
        Some(131)
    } else {
        None
    }
}

/// The NIR operator of a binary operator, for those NIR has.
pub open spec fn nir_op(op: u8) -> Option<NIROp> {
    if op == OP_ADD {
        Some(NIROp::Add)
    } else if op == OP_SUB {
        Some(NIROp::Sub)
    } else if op == OP_MUL {
        Some(NIROp::Mul)
    } else if op == OP_DIV {
        Some(NIROp::Div)
    } else if op == OP_MOD {
        Some(NIROp::Mod)
    } else if op == OP_EQ {
        Some(NIROp::Eq)
    } else if op == OP_LT {
        Some(NIROp::Lt)
    } else if op == OP_LE {
        Some(NIROp::Le)
    } else if op == OP_GT {
        Some(NIROp::Gt)
    } else if op == OP_GE {
        Some(NIROp::Ge)
    } else if op == OP_AND {
        Some(NIROp::And)
    } else if op == OP_OR {
        Some(NIROp::Or)
    } else {
        None
    }
}

/// Each operator the lowering knows becomes the NIR operator that computes
/// the same function on integers.
pub proof fn law_nir_op_meaning(op: u8, x: int, y: int)
    requires
        nir_op(op) is Some,
    ensures
        binop_meaning(op, x, y) is Some,
        nir_meaning(nir_op(op)->Some_0, x, y) == binop_meaning(op, x, y),
{
}

/// The operators NIR has are exactly those with an integer meaning, but
/// for `≠`, which NIR is not given.
pub proof fn law_nir_op_complete(op: u8)
    ensures
        nir_op(op) is Some <==> binop_meaning(op, 0, 0) is Some && op != OP_NEQ,
{
}

/// Lowering a binary operator node that yields a value ends with one NIR
/// instruction whose operator computes what the source operator computes,
/// on every pair of integers, applied to the values of the two operands.
pub proof fn law_lowered_operator(a: Seq<ASTNode>, src: Seq<u8>, s: LowerState, nid: u32)
    requires
        !s.memo.contains_key(nid),
        (nid as int) < a.len(),
        a[nid as int] is BinOp,
        a[nid as int]->BinOp_op != OP_ASSIGN,
        lower_spec(a, src, s, nid).1 is Some,
    ensures
        ({
            let op = a[nid as int]->BinOp_op;
            let (s2, l) = lower_child(a, src, s, nid, a[nid as int]->BinOp_left);
            let (s3, r) = lower_child(a, src, s2, nid, a[nid as int]->BinOp_right);
            let i = lower_spec(a, src, s, nid).0.instrs.last();
            &&& i is BinOp
            &&& l == Some(i->BinOp_lhs) && r == Some(i->BinOp_rhs)
            &&& lower_spec(a, src, s, nid).1 == Some(i->BinOp_result)
            &&& forall|x: int, y: int|
                (#[trigger] binop_meaning(op, x, y)) is Some && nir_meaning(i->BinOp_op, x, y) == binop_meaning(op, x, y)
        }),
{
    let op = a[nid as int]->BinOp_op;
    assert(nir_op(op) is Some);
    assert forall|x: int, y: int| (#[trigger] binop_meaning(op, x, y)) is Some && nir_meaning(nir_op(op)->Some_0, x, y)
        == binop_meaning(op, x, y) by {
        law_nir_op_meaning(op, x, y);
    }
}

/// Lowering a unary operator node that yields a value ends with one NIR
/// instruction that computes the source operator on the operand's value:
/// a unary NIR operator with the same meaning, or a binary one applied to
/// the operand and a constant that together have that meaning.
pub proof fn law_lowered_unary(a: Seq<ASTNode>, src: Seq<u8>, s: LowerState, nid: u32)
    requires
        !s.memo.contains_key(nid),
        (nid as int) < a.len(),
        a[nid as int] is UnaryOp,
        lower_spec(a, src, s, nid).1 is Some,
        lower_spec(a, src, s, nid).0.values.len() < u32::MAX,
    ensures
        ({
            let op = a[nid as int]->UnaryOp_op;
            let ev = lower_child(a, src, s, nid, a[nid as int]->UnaryOp_expr).1;
            let t = lower_spec(a, src, s, nid).0;
            let i = t.instrs.last();
            &&& i is UnOp || i is BinOp
            &&& i is UnOp ==> ev == Some(i->UnOp_operand) && forall|x: int| #[trigger] nir_unop_meaning(i->UnOp_op, x)
                == unop_meaning(op, x)
            &&& i is BinOp ==> ev == Some(i->BinOp_lhs) && (i->BinOp_rhs as int) < t.values.len() && (t.values[i->BinOp_rhs as int]
                matches NIRValue::IntConst(c) && forall|x: int| #[trigger] nir_meaning(i->BinOp_op, x, c as int) == Some(
                unop_meaning(op, x),
            ))
        }),
{
    let op = a[nid as int]->UnaryOp_op;
    let expr = a[nid as int]->UnaryOp_expr;
    let r = lower_child(a, src, s, nid, expr);
    let s2 = r.0;
    let e = r.1;
    assert(lower_spec(a, src, s, nid) == unary_step(s2, e, op, nid));
    lemma_unary_step(s2, e, op, nid);
}

/// The lowering of a unary node once its operand is lowered to `e` in `s2`.
spec fn unary_step(s2: LowerState, e: Option<u32>, op: UnaryOp, nid: u32) -> (LowerState, Option<u32>) {
    match e {
        None => (s2, None),
        Some(ev) => match op {
            UnaryOp::Neg => {
                let (s3, res) = fresh(s2, NIRValue::Undef);
                finish((emit(s3, Instr::UnOp { op: NIRUnOp::Neg, operand: ev, result: res }), Some(res)), nid)
            },
            UnaryOp::Not => {
                let (s3, zero) = fresh(s2, NIRValue::IntConst(0));
                let (s4, res) = fresh(s3, NIRValue::Undef);
                finish((emit(s4, Instr::BinOp { op: NIROp::Eq, lhs: ev, rhs: zero, result: res }), Some(res)), nid)
            },
        },
    }
}

proof fn lemma_unary_step(s2: LowerState, e: Option<u32>, op: UnaryOp, nid: u32)
    requires
        unary_step(s2, e, op, nid).1 is Some,
        unary_step(s2, e, op, nid).0.values.len() < u32::MAX,
    ensures
        ({
            let t = unary_step(s2, e, op, nid).0;
            let i = t.instrs.last();
            &&& i is UnOp || i is BinOp
            &&& i is UnOp ==> e == Some(i->UnOp_operand) && forall|x: int| #[trigger] nir_unop_meaning(i->UnOp_op, x)
                == unop_meaning(op, x)
            &&& i is BinOp ==> e == Some(i->BinOp_lhs) && (i->BinOp_rhs as int) < t.values.len() && (t.values[i->BinOp_rhs as int]
                matches NIRValue::IntConst(c) && forall|x: int| #[trigger] nir_meaning(i->BinOp_op, x, c as int) == Some(
                unop_meaning(op, x),
            ))
        }),
{
    if op is Not {
        let (s3, zero) = fresh(s2, NIRValue::IntConst(0));
        let t = unary_step(s2, e, op, nid).0;
        assert(t.values == s2.values.push(NIRValue::IntConst(0)).push(NIRValue::Undef));
        assert(t.values[zero as int] == NIRValue::IntConst(0));
    }
}

// ─── The lowering as a function on states ─────────────────────────────

/// What the lowering has built so far.
pub struct LowerState {
    /// The instructions of the entry block.
    pub instrs: Seq<Instr>,
    /// The definitions of the values; value `k` is `values[k]`.
    pub values: Seq<NIRValue>,
    /// The value of each node lowered so far.
    pub memo: Map<u32, u32>,
    /// The value of each named variable.
    pub vars: Map<Seq<u8>, u32>,
    /// The most recent value.
    pub last: Option<u32>,
}

/// A new value defined by `v`.
pub open spec fn fresh(s: LowerState, v: NIRValue) -> (LowerState, u32) {
    (LowerState { values: s.values.push(v), ..s }, s.values.len() as u32)
}

/// `i` appended to the entry block.
pub open spec fn emit(s: LowerState, i: Instr) -> LowerState {
    LowerState { instrs: s.instrs.push(i), ..s }
}

/// Remember a node's value and make it the most recent one.
pub open spec fn finish(r: (LowerState, Option<u32>), nid: u32) -> (LowerState, Option<u32>) {
    match r.1 {
        Some(v) => (LowerState { memo: r.0.memo.insert(nid, v), last: Some(v), ..r.0 }, Some(v)),
        None => r,
    }
}

/// The name of an identifier node, none for other nodes.
pub open spec fn node_name(a: Seq<ASTNode>, src: Seq<u8>, id: NodeID) -> Option<Seq<u8>> {
    if (id.0 as int) < a.len() {
        match a[id.0 as int] {
            ASTNode::Ident(idx) => ident_name(src, idx),
            _ => None,
        }
    } else {
        None
    }
}

/// Lowering of child `c` of node `parent`: a child inside an acyclic arena
/// ranks below its parent (other identifiers name no node).
pub open spec fn lower_child(a: Seq<ASTNode>, src: Seq<u8>, s: LowerState, parent: u32, c: NodeID) -> (
    LowerState,
    Option<u32>,
)
    decreases rank_of(a)[parent as int], 0nat,
{
    if below(a, parent, c.0) {
        lower_spec(a, src, s, c.0)
    } else {
        (s, None)
    }
}

/// The call arguments in the list from `cur` on, appended to `acc`.
pub open spec fn lower_args(a: Seq<ASTNode>, src: Seq<u8>, s: LowerState, cur: u32, acc: Seq<u32>) -> (
    LowerState,
    Seq<u32>,
)
    decreases rank_of(a)[cur as int], 2nat,
{
    if cur == INVALID_RAW || cur as int >= a.len() {
        (s, acc)
    } else {
        match a[cur as int] {
            ASTNode::List { head, tail } => {
                let (s2, v) = lower_child(a, src, s, cur, head);
                let acc2 = match v {
                    Some(x) => acc.push(x),
                    None => acc,
                };
                if below(a, cur, tail.0) {
                    lower_args(a, src, s2, tail.0, acc2)
                } else {
                    (s2, acc2)
                }
            },
            ASTNode::Empty => (s, acc),
            _ => {
                let (s2, v) = lower_spec(a, src, s, cur);
                (
                    s2,
                    match v {
                        Some(x) => acc.push(x),
                        None => acc,
                    },
                )
            },
        }
    }
}

/// Lowering of node `nid` from state `s`: the new state and the node's
/// value, if it has one.
pub open spec fn lower_spec(a: Seq<ASTNode>, src: Seq<u8>, s: LowerState, nid: u32) -> (LowerState, Option<u32>)
    decreases rank_of(a)[nid as int], 1nat,
{
    if s.memo.contains_key(nid) {
        (s, Some(s.memo[nid]))
    } else if nid as int >= a.len() {
        (s, None)
    } else {
        match a[nid as int] {
            ASTNode::Int(v) => {
                let (s1, x) = fresh(s, NIRValue::IntConst(v));
                finish((s1, Some(x)), nid)
            },
            ASTNode::BoolLit(b) => {
                let (s1, x) = fresh(s, NIRValue::BoolConst(b));
                finish((s1, Some(x)), nid)
            },
            ASTNode::FixedPoint(q) => {
                let (s1, x) = fresh(s, NIRValue::IntConst(q));
                finish((s1, Some(x)), nid)
            },
            ASTNode::Ident(idx) => finish(
                (
                    s,
                    match ident_name(src, idx) {
                        Some(nm) => if s.vars.contains_key(nm) {
                            Some(s.vars[nm])
                        } else {
                            None
                        },
                        None => None,
                    },
                ),
                nid,
            ),
            ASTNode::BinOp { op, left, right } => if op == OP_ASSIGN {
                let name = node_name(a, src, left);
                let (s2, v) = lower_child(a, src, s, nid, right);
                match (name, v) {
                    (Some(nm), Some(x)) => finish((LowerState { vars: s2.vars.insert(nm, x), ..s2 }, Some(x)), nid),
                    _ => (s2, None),
                }
            } else {
                let (s2, l) = lower_child(a, src, s, nid, left);
                let (s3, r) = lower_child(a, src, s2, nid, right);
                match (l, r, nir_op(op)) {
                    (Some(lv), Some(rv), Some(nop)) => {
                        let (s4, res) = fresh(s3, NIRValue::Undef);
                        finish((emit(s4, Instr::BinOp { op: nop, lhs: lv, rhs: rv, result: res }), Some(res)), nid)
                    },
                    _ => (s3, None),
                }
            },
            ASTNode::UnaryOp { op, expr } => {
                let (s2, e) = lower_child(a, src, s, nid, expr);
                match e {
                    None => (s2, None),
                    Some(ev) => match op {
                        UnaryOp::Neg => {
                            let (s3, res) = fresh(s2, NIRValue::Undef);
                            finish((emit(s3, Instr::UnOp { op: NIRUnOp::Neg, operand: ev, result: res }), Some(res)), nid)
                        },
                        UnaryOp::Not => {
                            let (s3, zero) = fresh(s2, NIRValue::IntConst(0));
                            let (s4, res) = fresh(s3, NIRValue::Undef);
                            finish(
                                (emit(s4, Instr::BinOp { op: NIROp::Eq, lhs: ev, rhs: zero, result: res }), Some(res)),
                                nid,
                            )
                        },
                    },
                }
            },
            ASTNode::Call { func, args } => if func.0 == INVALID_RAW {
                let (s1, callee) = fresh(s, NIRValue::IntConst(122));
                let (s2, res) = fresh(s1, NIRValue::Undef);
                (emit(s2, Instr::Call { callee, args: Seq::empty(), result: res }), Some(res))
            } else {
                let (s2, argv) = if below(a, nid, args.0) {
                    lower_args(a, src, s, args.0, Seq::empty())
                } else {
                    (s, Seq::empty())
                };
                let tag = match node_name(a, src, func) {
                    Some(nm) => builtin_code(nm),
                    None => None,
                };
                match tag {
                    Some(t) => {
                        let (s3, callee) = fresh(s2, NIRValue::IntConst(t));
                        let (s4, res) = fresh(s3, NIRValue::Undef);
                        finish((emit(s4, Instr::Call { callee, args: argv, result: res }), Some(res)), nid)
                    },
                    None => (s2, None),
                }
            },
            ASTNode::LinearLet { name, value, body } => {
                let n = node_name(a, src, name);
                let (s2, v) = lower_child(a, src, s, nid, value);
                match (n, v) {
                    (Some(nm), Some(x)) => {
                        let s3 = LowerState { vars: s2.vars.insert(nm, x), ..s2 };
                        if body.0 != INVALID_RAW && body.0 != 0 && (body.0 as int) < a.len() && !(a[body.0 as int] is Empty) {
                            finish(lower_child(a, src, s3, nid, body), nid)
                        } else {
                            finish((s3, Some(x)), nid)
                        }
                    },
                    _ => (s2, None),
                }
            },
            ASTNode::ForAll { var, set, body } => {
                let s1 = match node_name(a, src, var) {
                    Some(nm) => {
                        let (t, zero) = fresh(s, NIRValue::IntConst(0));
                        LowerState { vars: t.vars.insert(nm, zero), ..t }
                    },
                    None => s,
                };
                let (s2, _) = lower_child(a, src, s1, nid, set);
                finish(lower_child(a, src, s2, nid, body), nid)
            },
            ASTNode::Lambda { body, .. } => finish(lower_child(a, src, s, nid, body), nid),
            ASTNode::List { head, tail } => {
                let (s2, _) = lower_child(a, src, s, nid, head);
                let s3 = if tail.0 != INVALID_RAW {
                    lower_child(a, src, s2, nid, tail).0
                } else {
                    s2
                };
                finish((s3, s3.last), nid)
            },
            _ => (s, None),
        }
    }
}

// ─── Monotonicity of the value count ──────────────────────────────────

pub proof fn lemma_lower_grows(a: Seq<ASTNode>, src: Seq<u8>, s: LowerState, nid: u32)
    ensures
        lower_spec(a, src, s, nid).0.values.len() >= s.values.len(),
    decreases rank_of(a)[nid as int], 1nat,
{
    if !s.memo.contains_key(nid) && (nid as int) < a.len() {
        match a[nid as int] {
            ASTNode::BinOp { op, left, right } => {
                lemma_child_grows(a, src, s, nid, right);
                lemma_child_grows(a, src, s, nid, left);
                let s2 = lower_child(a, src, s, nid, left).0;
                lemma_child_grows(a, src, s2, nid, right);
            },
            ASTNode::UnaryOp { expr, .. } => {
                lemma_child_grows(a, src, s, nid, expr);
            },
            ASTNode::Call { func, args } => {
                if func.0 != INVALID_RAW && below(a, nid, args.0) {
                    lemma_args_grows(a, src, s, args.0, Seq::empty());
                }
            },
            ASTNode::LinearLet { name, value, body } => {
                lemma_child_grows(a, src, s, nid, value);
                let (s2, v) = lower_child(a, src, s, nid, value);
                match (node_name(a, src, name), v) {
                    (Some(nm), Some(x)) => {
                        let s3 = LowerState { vars: s2.vars.insert(nm, x), ..s2 };
                        lemma_child_grows(a, src, s3, nid, body);
                    },
                    _ => {},
                }
            },
            ASTNode::ForAll { var, set, body } => {
                let s1 = match node_name(a, src, var) {
                    Some(nm) => {
                        let (t, zero) = fresh(s, NIRValue::IntConst(0));
                        LowerState { vars: t.vars.insert(nm, zero), ..t }
                    },
                    None => s,
                };
                lemma_child_grows(a, src, s1, nid, set);
                let s2 = lower_child(a, src, s1, nid, set).0;
                lemma_child_grows(a, src, s2, nid, body);
            },
            ASTNode::Lambda { body, .. } => {
                lemma_child_grows(a, src, s, nid, body);
            },
            ASTNode::List { head, tail } => {
                lemma_child_grows(a, src, s, nid, head);
                let s2 = lower_child(a, src, s, nid, head).0;
                lemma_child_grows(a, src, s2, nid, tail);
            },
            _ => {},
        }
    }
}

pub proof fn lemma_child_grows(a: Seq<ASTNode>, src: Seq<u8>, s: LowerState, parent: u32, c: NodeID)
    ensures
        lower_child(a, src, s, parent, c).0.values.len() >= s.values.len(),
    decreases rank_of(a)[parent as int], 0nat,
{
    if below(a, parent, c.0) {
        lemma_lower_grows(a, src, s, c.0);
    }
}

pub proof fn lemma_args_grows(a: Seq<ASTNode>, src: Seq<u8>, s: LowerState, cur: u32, acc: Seq<u32>)
    ensures
        lower_args(a, src, s, cur, acc).0.values.len() >= s.values.len(),
    decreases rank_of(a)[cur as int], 2nat,
{
    if cur != INVALID_RAW && (cur as int) < a.len() {
        match a[cur as int] {
            ASTNode::List { head, tail } => {
                lemma_child_grows(a, src, s, cur, head);
                let (s2, v) = lower_child(a, src, s, cur, head);
                let acc2 = match v {
                    Some(x) => acc.push(x),
                    None => acc,
                };
                if below(a, cur, tail.0) {
                    lemma_args_grows(a, src, s2, tail.0, acc2);
                }
            },
            ASTNode::Empty => {},
            _ => {
                lemma_lower_grows(a, src, s, cur);
            },
        }
    }
}

// ─── Lowering yields SSA ──────────────────────────────────────────────

/// SSA form: no value is defined by two of `instrs`, and each value they
/// define is below `n`, the number of values allocated.
#[verifier::opaque]
pub open spec fn defs_ssa(instrs: Seq<Instr>, n: nat) -> bool {
    let d = defined_in(instrs);
    &&& d.no_duplicates()
    &&& forall|i: int| 0 <= i < d.len() ==> d[i] < n
}

/// The state `s` is in SSA form.
pub open spec fn state_ssa(s: LowerState) -> bool {
    defs_ssa(s.instrs, s.values.len())
}

proof fn lemma_fresh_keeps(s: LowerState, v: NIRValue)
    requires
        state_ssa(s),
    ensures
        state_ssa(fresh(s, v).0),
{
    reveal(defs_ssa);
}

proof fn lemma_fresh_emit(s: LowerState, v: NIRValue, i: Instr)
    requires
        state_ssa(s),
        s.values.len() < u32::MAX,
        defined_value(i) == Some(s.values.len() as u32),
    ensures
        state_ssa(emit(fresh(s, v).0, i)),
{
    reveal(defs_ssa);
    let t = emit(fresh(s, v).0, i);
    let d = defined_in(s.instrs);
    let n = s.values.len() as u32;
    assert(t.instrs.drop_last() =~= s.instrs);
    assert(defined_in(t.instrs) == d.push(n));
    assert forall|a: int, b: int| 0 <= a < d.push(n).len() && 0 <= b < d.push(n).len() && a != b implies d.push(n)[a]
        != d.push(n)[b] by {
        if a < d.len() && b < d.len() {
        } else if a < d.len() {
            assert(d[a] < n);
        } else {
            assert(d[b] < n);
        }
    }
}

/// In SSA form the defined values are all distinct.
proof fn lemma_ssa_distinct(instrs: Seq<Instr>, n: nat)
    requires
        defs_ssa(instrs, n),
    ensures
        defined_in(instrs).no_duplicates(),
{
    reveal(defs_ssa);
}

/// Lowering a node from any state in SSA form leaves a state in SSA form:
/// each value is defined at most once, and only values already allocated.
pub proof fn law_lower_keeps_ssa(a: Seq<ASTNode>, src: Seq<u8>, s: LowerState, nid: u32)
    requires
        state_ssa(s),
        lower_spec(a, src, s, nid).0.values.len() < u32::MAX,
    ensures
        state_ssa(lower_spec(a, src, s, nid).0),
    decreases rank_of(a)[nid as int], 2nat,
{
    if !s.memo.contains_key(nid) && (nid as int) < a.len() {
        match a[nid as int] {
            ASTNode::Int(v) => lemma_fresh_keeps(s, NIRValue::IntConst(v)),
            ASTNode::BoolLit(b) => lemma_fresh_keeps(s, NIRValue::BoolConst(b)),
            ASTNode::FixedPoint(q) => lemma_fresh_keeps(s, NIRValue::IntConst(q)),
            ASTNode::BinOp { op, left, right } => lemma_binop_keeps_ssa(a, src, s, nid, op, left, right),
            ASTNode::UnaryOp { op, expr } => lemma_unary_keeps_ssa(a, src, s, nid, op, expr),
            ASTNode::Call { func, args } => lemma_call_keeps_ssa(a, src, s, nid, func, args),
            ASTNode::LinearLet { name, value, body } => lemma_let_keeps_ssa(a, src, s, nid, name, value, body),
            ASTNode::ForAll { var, set, body } => lemma_forall_keeps_ssa(a, src, s, nid, var, set, body),
            ASTNode::Lambda { params, body } => lemma_lambda_keeps_ssa(a, src, s, nid, params, body),
            ASTNode::List { head, tail } => lemma_list_keeps_ssa(a, src, s, nid, head, tail),
            _ => {},
        }
    }
}

proof fn lemma_binop_keeps_ssa(a: Seq<ASTNode>, src: Seq<u8>, s: LowerState, nid: u32, op: u8, left: NodeID, right: NodeID)
    requires
        state_ssa(s),
        !s.memo.contains_key(nid),
        (nid as int) < a.len(),
        a[nid as int] == (ASTNode::BinOp { op, left, right }),
        lower_spec(a, src, s, nid).0.values.len() < u32::MAX,
    ensures
        state_ssa(lower_spec(a, src, s, nid).0),
    decreases rank_of(a)[nid as int], 1nat,
{
    if op == OP_ASSIGN {
        lemma_child_keeps_ssa(a, src, s, nid, right);
    } else {
        let (s2, l) = lower_child(a, src, s, nid, left);
        lemma_child_grows(a, src, s2, nid, right);
        lemma_child_keeps_ssa(a, src, s, nid, left);
        lemma_child_keeps_ssa(a, src, s2, nid, right);
        let (s3, r) = lower_child(a, src, s2, nid, right);
        match (l, r, nir_op(op)) {
            (Some(lv), Some(rv), Some(nop)) => {
                lemma_fresh_emit(
                    s3,
                    NIRValue::Undef,
                    Instr::BinOp { op: nop, lhs: lv, rhs: rv, result: s3.values.len() as u32 },
                );
            },
            _ => {},
        }
    }
}

proof fn lemma_unary_keeps_ssa(a: Seq<ASTNode>, src: Seq<u8>, s: LowerState, nid: u32, op: UnaryOp, expr: NodeID)
    requires
        state_ssa(s),
        !s.memo.contains_key(nid),
        (nid as int) < a.len(),
        a[nid as int] == (ASTNode::UnaryOp { op, expr }),
        lower_spec(a, src, s, nid).0.values.len() < u32::MAX,
    ensures
        state_ssa(lower_spec(a, src, s, nid).0),
    decreases rank_of(a)[nid as int], 1nat,
{
    lemma_child_keeps_ssa(a, src, s, nid, expr);
    let (s2, e) = lower_child(a, src, s, nid, expr);
    match e {
        Some(ev) => match op {
            UnaryOp::Neg => {
                lemma_fresh_emit(
                    s2,
                    NIRValue::Undef,
                    Instr::UnOp { op: NIRUnOp::Neg, operand: ev, result: s2.values.len() as u32 },
                );
            },
            UnaryOp::Not => {
                lemma_fresh_keeps(s2, NIRValue::IntConst(0));
                let (s3, zero) = fresh(s2, NIRValue::IntConst(0));
                lemma_fresh_emit(
                    s3,
                    NIRValue::Undef,
                    Instr::BinOp { op: NIROp::Eq, lhs: ev, rhs: zero, result: s3.values.len() as u32 },
                );
            },
        },
        None => {},
    }
}

proof fn lemma_call_keeps_ssa(a: Seq<ASTNode>, src: Seq<u8>, s: LowerState, nid: u32, func: NodeID, args: NodeID)
    requires
        state_ssa(s),
        !s.memo.contains_key(nid),
        (nid as int) < a.len(),
        a[nid as int] == (ASTNode::Call { func, args }),
        lower_spec(a, src, s, nid).0.values.len() < u32::MAX,
    ensures
        state_ssa(lower_spec(a, src, s, nid).0),
    decreases rank_of(a)[nid as int], 1nat,
{
    if func.0 == INVALID_RAW {
        lemma_fresh_keeps(s, NIRValue::IntConst(122));
        let (s1, callee) = fresh(s, NIRValue::IntConst(122));
        lemma_fresh_emit(s1, NIRValue::Undef, Instr::Call { callee, args: Seq::empty(), result: s1.values.len() as u32 });
    } else {
        if below(a, nid, args.0) {
            lemma_args_keeps_ssa(a, src, s, args.0, Seq::empty());
        }
        let (s2, argv) = if below(a, nid, args.0) {
            lower_args(a, src, s, args.0, Seq::empty())
        } else {
            (s, Seq::empty())
        };
        let tag = match node_name(a, src, func) {
            Some(nm) => builtin_code(nm),
            None => None,
        };
        match tag {
            Some(t) => {
                lemma_fresh_keeps(s2, NIRValue::IntConst(t));
                let (s3, callee) = fresh(s2, NIRValue::IntConst(t));
                lemma_fresh_emit(s3, NIRValue::Undef, Instr::Call { callee, args: argv, result: s3.values.len() as u32 });
            },
            None => {},
        }
    }
}

#[verifier::rlimit(50)]
proof fn lemma_let_keeps_ssa(a: Seq<ASTNode>, src: Seq<u8>, s: LowerState, nid: u32, name: NodeID, value: NodeID, body: NodeID)
    requires
        state_ssa(s),
        !s.memo.contains_key(nid),
        (nid as int) < a.len(),
        a[nid as int] == (ASTNode::LinearLet { name, value, body }),
        lower_spec(a, src, s, nid).0.values.len() < u32::MAX,
    ensures
        state_ssa(lower_spec(a, src, s, nid).0),
    decreases rank_of(a)[nid as int], 1nat,
{
    let (s2, v) = lower_child(a, src, s, nid, value);
    match (node_name(a, src, name), v) {
        (Some(nm), Some(x)) => {
            let s3 = LowerState { vars: s2.vars.insert(nm, x), ..s2 };
            lemma_child_grows(a, src, s3, nid, body);
            lemma_child_keeps_ssa(a, src, s, nid, value);
            if body.0 != INVALID_RAW && body.0 != 0 && (body.0 as int) < a.len() && !(a[body.0 as int] is Empty) {
                lemma_child_keeps_ssa(a, src, s3, nid, body);
            }
        },
        _ => {
            lemma_child_keeps_ssa(a, src, s, nid, value);
        },
    }
}

proof fn lemma_forall_keeps_ssa(a: Seq<ASTNode>, src: Seq<u8>, s: LowerState, nid: u32, var: NodeID, set: NodeID, body: NodeID)
    requires
        state_ssa(s),
        !s.memo.contains_key(nid),
        (nid as int) < a.len(),
        a[nid as int] == (ASTNode::ForAll { var, set, body }),
        lower_spec(a, src, s, nid).0.values.len() < u32::MAX,
    ensures
        state_ssa(lower_spec(a, src, s, nid).0),
    decreases rank_of(a)[nid as int], 1nat,
{
    let s1 = match node_name(a, src, var) {
        Some(nm) => {
            let (t, zero) = fresh(s, NIRValue::IntConst(0));
            LowerState { vars: t.vars.insert(nm, zero), ..t }
        },
        None => s,
    };
    lemma_fresh_keeps(s, NIRValue::IntConst(0));
    let s2 = lower_child(a, src, s1, nid, set).0;
    lemma_child_grows(a, src, s2, nid, body);
    lemma_child_keeps_ssa(a, src, s1, nid, set);
    lemma_child_keeps_ssa(a, src, s2, nid, body);
}

proof fn lemma_lambda_keeps_ssa(a: Seq<ASTNode>, src: Seq<u8>, s: LowerState, nid: u32, params: NodeID, body: NodeID)
    requires
        state_ssa(s),
        !s.memo.contains_key(nid),
        (nid as int) < a.len(),
        a[nid as int] == (ASTNode::Lambda { params, body }),
        lower_spec(a, src, s, nid).0.values.len() < u32::MAX,
    ensures
        state_ssa(lower_spec(a, src, s, nid).0),
    decreases rank_of(a)[nid as int], 1nat,
{
    lemma_child_keeps_ssa(a, src, s, nid, body);
}

proof fn lemma_list_keeps_ssa(a: Seq<ASTNode>, src: Seq<u8>, s: LowerState, nid: u32, head: NodeID, tail: NodeID)
    requires
        state_ssa(s),
        !s.memo.contains_key(nid),
        (nid as int) < a.len(),
        a[nid as int] == (ASTNode::List { head, tail }),
        lower_spec(a, src, s, nid).0.values.len() < u32::MAX,
    ensures
        state_ssa(lower_spec(a, src, s, nid).0),
    decreases rank_of(a)[nid as int], 1nat,
{
    let s2 = lower_child(a, src, s, nid, head).0;
    let s3 = if tail.0 != INVALID_RAW {
        lower_child(a, src, s2, nid, tail).0
    } else {
        s2
    };
    assert(lower_spec(a, src, s, nid) == finish((s3, s3.last), nid));
    if tail.0 != INVALID_RAW {
        lemma_child_grows(a, src, s2, nid, tail);
    }
    lemma_child_keeps_ssa(a, src, s, nid, head);
    if tail.0 != INVALID_RAW {
        lemma_child_keeps_ssa(a, src, s2, nid, tail);
    }
}

/// Lowering a child keeps the state in SSA form.
pub proof fn lemma_child_keeps_ssa(a: Seq<ASTNode>, src: Seq<u8>, s: LowerState, parent: u32, c: NodeID)
    requires
        state_ssa(s),
        lower_child(a, src, s, parent, c).0.values.len() < u32::MAX,
    ensures
        state_ssa(lower_child(a, src, s, parent, c).0),
    decreases rank_of(a)[parent as int], 0nat,
{
    if below(a, parent, c.0) {
        law_lower_keeps_ssa(a, src, s, c.0);
    }
}

/// Lowering call arguments keeps the state in SSA form.
pub proof fn lemma_args_keeps_ssa(a: Seq<ASTNode>, src: Seq<u8>, s: LowerState, cur: u32, acc: Seq<u32>)
    requires
        state_ssa(s),
        lower_args(a, src, s, cur, acc).0.values.len() < u32::MAX,
    ensures
        state_ssa(lower_args(a, src, s, cur, acc).0),
    decreases rank_of(a)[cur as int], 3nat,
{
    if cur != INVALID_RAW && (cur as int) < a.len() {
        match a[cur as int] {
            ASTNode::List { head, tail } => {
                let (s2, v) = lower_child(a, src, s, cur, head);
                let acc2 = match v {
                    Some(x) => acc.push(x),
                    None => acc,
                };
                if below(a, cur, tail.0) {
                    lemma_args_grows(a, src, s2, tail.0, acc2);
                    lemma_child_keeps_ssa(a, src, s, cur, head);
                    lemma_args_keeps_ssa(a, src, s2, tail.0, acc2);
                } else {
                    lemma_child_keeps_ssa(a, src, s, cur, head);
                }
            },
            ASTNode::Empty => {},
            _ => {
                law_lower_keeps_ssa(a, src, s, cur);
            },
        }
    }
}

/// Lowering yields SSA form: in the function lowered from any tree, no
/// value is defined by two instructions.
pub proof fn lemma_lowering_is_ssa(a: Seq<ASTNode>, src: Seq<u8>, root: u32)
    requires
        lower_spec(a, src, start_state(), root).0.values.len() < u32::MAX,
    ensures
        defined_values(seq![lower_result(a, src, start_state(), root).0]).no_duplicates(),
{
    let s0 = start_state();
    assert(state_ssa(s0)) by {
        reveal(defs_ssa);
        assert(defined_in(s0.instrs) =~= Seq::<u32>::empty());
    }
    law_lower_keeps_ssa(a, src, s0, root);
    let p = lower_spec(a, src, s0, root);
    lemma_closing_distinct(p.0, p.1);
}

proof fn lemma_closing_distinct(t: LowerState, r: Option<u32>)
    requires
        state_ssa(t),
    ensures
        defined_values(seq![closing(t, r).0]).no_duplicates(),
{
    let body = closing(t, r).0;
    assert(body.drop_last() =~= t.instrs);
    assert(defined_in(body) == defined_in(t.instrs));
    let bs = seq![body];
    assert(bs.drop_last() =~= Seq::<Seq<Instr>>::empty());
    assert(bs.last() == body);
    assert(defined_values(bs.drop_last()) =~= Seq::<u32>::empty());
    assert(defined_values(bs) =~= defined_in(body));
    lemma_ssa_distinct(t.instrs, t.values.len());
}

// ─── The lowerer ──────────────────────────────────────────────────────

/// The map of an association list; a later entry wins.
pub open spec fn memo_map(s: Seq<(u32, ValueID)>) -> Map<u32, u32>
    decreases s.len(),
{
    if s.len() == 0 {
        Map::empty()
    } else {
        memo_map(s.drop_last()).insert(s.last().0, s.last().1.0)
    }
}

/// The map of named variables; a later entry wins.
pub open spec fn var_map(s: Seq<(Vec<u8>, ValueID)>) -> Map<Seq<u8>, u32>
    decreases s.len(),
{
    if s.len() == 0 {
        Map::empty()
    } else {
        var_map(s.drop_last()).insert(s.last().0@, s.last().1.0)
    }
}

/// Lowers the nodes of an arena into one NIR function named `main`.
pub struct ASTLowerer<'a> {
    arena: &'a Arena,
    func: NIRFunction,
    map: Vec<(u32, ValueID)>,
    vars: Vec<(Vec<u8>, ValueID)>,
    entry: BlockID,
    current_block: BlockID,
    last_value: Option<ValueID>,
    source: Vec<u8>,
}

/// Identifier offsets point at the start of a character of the source.
pub open spec fn idents_on_boundaries(a: Seq<ASTNode>, src: Seq<u8>) -> bool {
    forall|k: int|
        0 <= k < a.len() ==> match #[trigger] a[k] {
            ASTNode::Ident(off) => off as int >= src.len() || vstd::utf8::is_char_boundary(src, off as int),
            _ => true,
        }
}

impl<'a> ASTLowerer<'a> {
    /// What has been built, as a value.
    pub closed spec fn state(&self) -> LowerState {
        LowerState {
            instrs: block_instrs(self.func.blocks@[0]),
            values: self.func.values@,
            memo: memo_map(self.map@),
            vars: var_map(self.vars@),
            last: match self.last_value {
                Some(v) => Some(v.0),
                None => None,
            },
        }
    }

    /// The arena's nodes.
    pub closed spec fn nodes(&self) -> Seq<ASTNode> {
        self.arena@
    }

    /// The source bytes.
    pub closed spec fn src(&self) -> Seq<u8> {
        self.source@
    }

    /// The function has the one entry block, into which every instruction
    /// goes; remembered nodes are nodes of the arena; the arena holds no
    /// cycle.
    pub closed spec fn inv(&self) -> bool {
        &&& self.func.blocks@.len() == 1
        &&& self.func.blocks@[0].id == BlockID(0)
        &&& self.func.entry_block == BlockID(0)
        &&& self.entry == BlockID(0)
        &&& self.current_block == BlockID(0)
        &&& self.func.wf()
        &&& self.func.next_block_id == 1
        &&& self.func.name@ == "main"@
        &&& acyclic(self.arena@)
        &&& forall|k: u32| #[trigger] memo_map(self.map@).contains_key(k) ==> (k as int) < self.arena@.len()
    }

    /// A lowerer for the nodes of `arena` with identifiers in `source`.
    pub fn new(arena: &'a Arena, source: &str) -> (r: Self)
        requires
            acyclic(arena@),
        ensures
            r.inv(),
            r.nodes() == arena@,
            r.src() == source.spec_bytes(),
            r.state() == start_state(),
    {
        let mut func = NIRFunction::new(String::from_str("main"));
        let entry = func.fresh_block();
        func.entry_block = entry;
        let bytes = source.as_bytes();
        let mut src: Vec<u8> = Vec::new();
        let mut i: usize = 0;
        while i < bytes.len()
            invariant
                i <= bytes@.len(),
                src@ == bytes@.take(i as int),
            decreases bytes@.len() - i,
        {
            src.push(bytes[i]);
            proof {
                assert(bytes@.take(i as int + 1) =~= bytes@.take(i as int).push(bytes@[i as int]));
            }
            i = i + 1;
        }
        proof {
            assert(bytes@.take(i as int) =~= bytes@);
        }
        let r = ASTLowerer {
            arena,
            func,
            map: Vec::new(),
            vars: Vec::new(),
            entry,
            current_block: entry,
            last_value: None,
            source: src,
        };
        proof {
            assert(r.func.block_view()[0] == block_instrs(r.func.blocks@[0]));
            assert(block_instrs(r.func.blocks@[0]) =~= Seq::<Instr>::empty());
            assert(r.func.values@ =~= Seq::<NIRValue>::empty());
            assert(r.state().memo =~= Map::<u32, u32>::empty());
            assert(r.state().vars =~= Map::<Seq<u8>, u32>::empty());
        }
        r
    }

    fn fresh(&mut self, v: NIRValue) -> (id: ValueID)
        requires
            old(self).inv(),
            old(self).state().values.len() < u32::MAX,
        ensures
            final(self).inv(),
            final(self).nodes() == old(self).nodes(),
            final(self).src() == old(self).src(),
            (final(self).state(), id.0) == fresh(old(self).state(), v),
    {
        let id = self.func.fresh_value(v);
        proof {
            assert(self.state() == fresh(old(self).state(), v).0);
        }
        id
    }

    fn emit(&mut self, inst: NIRInstruction)
        requires
            old(self).inv(),
        ensures
            final(self).inv(),
            final(self).nodes() == old(self).nodes(),
            final(self).src() == old(self).src(),
            final(self).state() == emit(old(self).state(), inst@),
    {
        let ghost iv = inst@;
        self.func.add_instruction(self.current_block, inst);
        proof {
            let ob = old(self).func.block_view();
            assert(old(self).func.blocks@[0].id == BlockID(0));
            assert(self.func.block_view() == ob.update(0, ob[0].push(iv)));
            assert(self.func.blocks@[0].id == BlockID(0));
            assert(block_instrs(self.func.blocks@[0]) == self.func.block_view()[0]);
            assert(self.state() == emit(old(self).state(), iv));
        }
    }

    /// Remember `nid`'s value `v` and make it the most recent value.
    fn finish(&mut self, nid: u32, v: ValueID)
        requires
            old(self).inv(),
            (nid as int) < old(self).nodes().len(),
        ensures
            final(self).inv(),
            final(self).nodes() == old(self).nodes(),
            final(self).src() == old(self).src(),
            (final(self).state(), Some(v.0)) == finish((old(self).state(), Some(v.0)), nid),
    {
        self.map.push((nid, v));
        self.last_value = Some(v);
        proof {
            assert(self.map@.drop_last() =~= old(self).map@);
            assert(self.state().memo == old(self).state().memo.insert(nid, v.0));
        }
    }

    fn memo_get(&self, nid: u32) -> (r: Option<ValueID>)
        ensures
            r.is_some() == self.state().memo.contains_key(nid),
            r matches Some(v) ==> v.0 == self.state().memo[nid],
    {
        let mut i: usize = self.map.len();
        while i > 0
            invariant
                i <= self.map@.len(),
                forall|k: int| i <= k < self.map@.len() ==> (#[trigger] self.map@[k]).0 != nid,
            decreases i,
        {
            let (key, v) = self.map[i - 1];
            if key == nid {
                proof {
                    lemma_memo_lookup(self.map@, i as int, nid);
                    assert(self.map@.take(i as int).drop_last() =~= self.map@.take(i as int - 1));
                }
                return Some(v);
            }
            i = i - 1;
        }
        proof {
            lemma_memo_lookup(self.map@, 0, nid);
            assert(self.map@.take(0) =~= Seq::<(u32, ValueID)>::empty());
        }
        None
    }

    fn var_get(&self, name: &Vec<u8>) -> (r: Option<ValueID>)
        ensures
            r.is_some() == self.state().vars.contains_key(name@),
            r matches Some(v) ==> v.0 == self.state().vars[name@],
    {
        let mut i: usize = self.vars.len();
        while i > 0
            invariant
                i <= self.vars@.len(),
                forall|k: int| i <= k < self.vars@.len() ==> (#[trigger] self.vars@[k]).0@ != name@,
            decreases i,
        {
            let entry = &self.vars[i - 1];
            if bytes_eq(entry.0.as_slice(), name.as_slice()) {
                proof {
                    lemma_var_lookup(self.vars@, i as int, name@);
                    assert(self.vars@.take(i as int).drop_last() =~= self.vars@.take(i as int - 1));
                }
                return Some(entry.1);
            }
            i = i - 1;
        }
        proof {
            lemma_var_lookup(self.vars@, 0, name@);
            assert(self.vars@.take(0) =~= Seq::<(Vec<u8>, ValueID)>::empty());
        }
        None
    }

    fn var_set(&mut self, name: Vec<u8>, v: ValueID)
        requires
            old(self).inv(),
        ensures
            final(self).inv(),
            final(self).nodes() == old(self).nodes(),
            final(self).src() == old(self).src(),
            final(self).state() == (LowerState { vars: old(self).state().vars.insert(name@, v.0), ..old(self).state() }),
    {
        let ghost nm = name@;
        self.vars.push((name, v));
        proof {
            assert(self.vars@.drop_last() =~= old(self).vars@);
            assert(self.state().vars == old(self).state().vars.insert(nm, v.0));
        }
    }

    /// The end of the identifier starting at byte `start`.
    fn ident_end_exec(&self, start: usize) -> (end: usize)
        requires
            start < self.src().len(),
        ensures
            end as int == ident_end(self.src(), start as int),
    {
        let bytes = &self.source;
        let mut end = start;
        while end < bytes.len()
            invariant
                start <= end <= bytes@.len(),
                bytes@ == self.src(),
                ident_end(self.src(), start as int) == ident_end(self.src(), end as int),
            decreases bytes@.len() - end,
        {
            let ch = bytes[end];
            if is_ascii_alnum(ch) || ch == 0x5F {
                end = end + 1;
                continue;
            }
            if ch >= 0xD8 && ch <= 0xDB && end + 1 < bytes.len() {
                let next = bytes[end + 1];
                if next >= 0x80 && next <= 0xBF {
                    end = end + 2;
                    continue;
                }
            }
            proof {
                assert(ident_end(self.src(), end as int) == end as int);
            }
            return end;
        }
        end
    }

    /// The bytes of the identifier at `byte_offset`.
    fn extract_ident_name(&self, byte_offset: u32) -> (r: Option<Vec<u8>>)
        ensures
            match r {
                Some(v) => ident_name(self.src(), byte_offset) == Some(v@),
                None => ident_name(self.src(), byte_offset) is None,
            },
    {
        let start = byte_offset as usize;
        if start >= self.source.len() {
            return None;
        }
        let end = self.ident_end_exec(start);
        proof {
            lemma_ident_end_bounds(self.src(), start as int);
        }
        let mut out: Vec<u8> = Vec::new();
        let mut k = start;
        while k < end
            invariant
                start <= k <= end <= self.source@.len(),
                self.source@ == self.src(),
                out@ == self.src().subrange(start as int, k as int),
            decreases end - k,
        {
            out.push(self.source[k]);
            proof {
                assert(self.src().subrange(start as int, k as int + 1) =~= self.src().subrange(start as int, k as int).push(
                    self.src()[k as int],
                ));
            }
            k = k + 1;
        }
        Some(out)
    }

    /// The name of an identifier node.
    fn node_name_exec(&self, id: NodeID) -> (r: Option<Vec<u8>>)
        ensures
            match r {
                Some(v) => node_name(self.nodes(), self.src(), id) == Some(v@),
                None => node_name(self.nodes(), self.src(), id) is None,
            },
    {
        match self.arena.get(id) {
            Ok(ASTNode::Ident(idx)) => self.extract_ident_name(*idx),
            _ => None,
        }
    }

    /// The built-in code of the identifier at `idx`.
    fn ident_to_builtin(&self, idx: u32) -> (r: Option<i64>)
        ensures
            r == match ident_name(self.src(), idx) {
                Some(nm) => builtin_code(nm),
                None => None,
            },
    {
        match self.extract_ident_name(idx) {
            Some(name) => builtin_of(&name),
            None => None,
        }
    }
}

/// The ids of a sequence of values.
pub open spec fn value_ids(s: Seq<ValueID>) -> Seq<u32> {
    s.map_values(|v: ValueID| v.0)
}

/// The id of an optional value.
pub open spec fn opt_id(r: Option<ValueID>) -> Option<u32> {
    match r {
        Some(v) => Some(v.0),
        None => None,
    }
}

impl<'a> ASTLowerer<'a> {
    /// Lowers node `nid` (see `lower_spec`).
    fn lower_node(&mut self, nid: NodeID) -> (r: Option<ValueID>)
        requires
            old(self).inv(),
            lower_spec(old(self).nodes(), old(self).src(), old(self).state(), nid.0).0.values.len() < u32::MAX,
        ensures
            final(self).inv(),
            final(self).nodes() == old(self).nodes(),
            final(self).src() == old(self).src(),
            (final(self).state(), opt_id(r)) == lower_spec(old(self).nodes(), old(self).src(), old(self).state(), nid.0),
        decreases rank_of(old(self).nodes())[nid.0 as int], 2nat,
    {
        if let Some(v) = self.memo_get(nid.0) {
            return Some(v);
        }
        let node: ASTNode = match self.arena.get(nid) {
            Ok(n) => *n,
            Err(_) => return None,
        };
        match node {
            ASTNode::Int(_) | ASTNode::BoolLit(_) | ASTNode::FixedPoint(_) | ASTNode::Ident(_) => self.lower_leaf(
                nid.0,
                node,
            ),
            ASTNode::BinOp { op, left, right } => self.lower_binop(nid.0, op, left, right),
            ASTNode::UnaryOp { op, expr } => self.lower_unary(nid.0, op, expr),
            ASTNode::Call { func, args } => self.lower_call(nid.0, func, args),
            ASTNode::LinearLet { name, value, body } => self.lower_let(nid.0, name, value, body),
            ASTNode::ForAll { var, set, body } => self.lower_forall(nid.0, var, set, body),
            ASTNode::Lambda { params, body } => self.lower_lambda(nid.0, params, body),
            ASTNode::List { head, tail } => self.lower_list(nid.0, head, tail),
            _ => None,
        }
    }

    /// Literals and identifiers.
    fn lower_leaf(&mut self, nid: u32, node: ASTNode) -> (r: Option<ValueID>)
        requires
            old(self).inv(),
            !old(self).state().memo.contains_key(nid),
            (nid as int) < old(self).nodes().len(),
            old(self).nodes()[nid as int] == node,
            node is Int || node is BoolLit || node is FixedPoint || node is Ident,
            lower_spec(old(self).nodes(), old(self).src(), old(self).state(), nid).0.values.len() < u32::MAX,
        ensures
            final(self).inv(),
            final(self).nodes() == old(self).nodes(),
            final(self).src() == old(self).src(),
            (final(self).state(), opt_id(r)) == lower_spec(old(self).nodes(), old(self).src(), old(self).state(), nid),
        decreases rank_of(old(self).nodes())[nid as int], 1nat,
    {
        match node {
            ASTNode::Ident(idx) => {
                let result = match self.extract_ident_name(idx) {
                    Some(name) => self.var_get(&name),
                    None => None,
                };
                if let Some(v) = result {
                    self.finish(nid, v);
                }
                result
            },
            _ => {
                let c = match node {
                    ASTNode::Int(n) => NIRValue::IntConst(n),
                    ASTNode::BoolLit(b) => NIRValue::BoolConst(b),
                    ASTNode::FixedPoint(q) => NIRValue::IntConst(q),
                    _ => NIRValue::Undef,
                };
                let x = self.fresh(c);
                self.finish(nid, x);
                Some(x)
            },
        }
    }

    /// Binary operators, assignment among them.
    fn lower_binop(&mut self, nid: u32, op: u8, left: NodeID, right: NodeID) -> (r: Option<ValueID>)
        requires
            old(self).inv(),
            !old(self).state().memo.contains_key(nid),
            (nid as int) < old(self).nodes().len(),
            old(self).nodes()[nid as int] == (ASTNode::BinOp { op, left, right }),
            lower_spec(old(self).nodes(), old(self).src(), old(self).state(), nid).0.values.len() < u32::MAX,
        ensures
            final(self).inv(),
            final(self).nodes() == old(self).nodes(),
            final(self).src() == old(self).src(),
            (final(self).state(), opt_id(r)) == lower_spec(old(self).nodes(), old(self).src(), old(self).state(), nid),
        decreases rank_of(old(self).nodes())[nid as int], 1nat,
    {
        let ghost a = self.nodes();
        let ghost src = self.src();
        let ghost s = self.state();
        if op == OP_ASSIGN {
            let name = self.node_name_exec(left);
            proof {
                lemma_child_below(self.nodes(), nid, 1);
            }
            let val = self.lower_child_node(nid, right);
            match (name, val) {
                (Some(n), Some(v)) => {
                    self.var_set(n, v);
                    self.finish(nid, v);
                    Some(v)
                },
                _ => None,
            }
        } else {
            proof {
                let s2 = lower_child(a, src, s, nid, left).0;
                lemma_child_grows(a, src, s2, nid, right);
            }
            proof {
                lemma_child_below(self.nodes(), nid, 0);
            }
            let l = self.lower_child_node(nid, left);
            proof {
                lemma_child_below(self.nodes(), nid, 1);
            }
            let r = self.lower_child_node(nid, right);
            match (l, r, nir_op_of(op)) {
                (Some(lv), Some(rv), Some(nop)) => {
                    let res = self.fresh(NIRValue::Undef);
                    self.emit(NIRInstruction::BinOp { op: nop, lhs: lv, rhs: rv, result: res });
                    self.finish(nid, res);
                    Some(res)
                },
                _ => None,
            }
        }
    }

    /// Negation and logical not.
    fn lower_unary(&mut self, nid: u32, op: UnaryOp, expr: NodeID) -> (r: Option<ValueID>)
        requires
            old(self).inv(),
            !old(self).state().memo.contains_key(nid),
            (nid as int) < old(self).nodes().len(),
            old(self).nodes()[nid as int] == (ASTNode::UnaryOp { op, expr }),
            lower_spec(old(self).nodes(), old(self).src(), old(self).state(), nid).0.values.len() < u32::MAX,
        ensures
            final(self).inv(),
            final(self).nodes() == old(self).nodes(),
            final(self).src() == old(self).src(),
            (final(self).state(), opt_id(r)) == lower_spec(old(self).nodes(), old(self).src(), old(self).state(), nid),
        decreases rank_of(old(self).nodes())[nid as int], 1nat,
    {
        proof {
            lemma_child_below(self.nodes(), nid, 0);
        }
        let e = self.lower_child_node(nid, expr);
        match e {
            None => None,
            Some(ev) => {
                let res = match op {
                    UnaryOp::Neg => {
                        let res = self.fresh(NIRValue::Undef);
                        self.emit(NIRInstruction::UnOp { op: NIRUnOp::Neg, operand: ev, result: res });
                        res
                    },
                    UnaryOp::Not => {
                        let zero = self.fresh(NIRValue::IntConst(0));
                        let res = self.fresh(NIRValue::Undef);
                        self.emit(NIRInstruction::BinOp { op: NIROp::Eq, lhs: ev, rhs: zero, result: res });
                        res
                    },
                };
                self.finish(nid, res);
                Some(res)
            },
        }
    }

    /// Calls of built-in functions.
    fn lower_call(&mut self, nid: u32, func: NodeID, args: NodeID) -> (r: Option<ValueID>)
        requires
            old(self).inv(),
            !old(self).state().memo.contains_key(nid),
            (nid as int) < old(self).nodes().len(),
            old(self).nodes()[nid as int] == (ASTNode::Call { func, args }),
            lower_spec(old(self).nodes(), old(self).src(), old(self).state(), nid).0.values.len() < u32::MAX,
        ensures
            final(self).inv(),
            final(self).nodes() == old(self).nodes(),
            final(self).src() == old(self).src(),
            (final(self).state(), opt_id(r)) == lower_spec(old(self).nodes(), old(self).src(), old(self).state(), nid),
        decreases rank_of(old(self).nodes())[nid as int], 1nat,
    {
        if func.0 == INVALID_RAW {
            let callee = self.fresh(NIRValue::IntConst(122));
            let res = self.fresh(NIRValue::Undef);
            let no_args: Vec<ValueID> = Vec::new();
            proof {
                assert(no_args@.map_values(|v: ValueID| v.0) =~= Seq::<u32>::empty());
            }
            self.emit(NIRInstruction::Call { callee, args: no_args, result: res });
            return Some(res);
        }
        let mut argv: Vec<ValueID> = Vec::new();
        proof {
            assert(value_ids(argv@) =~= Seq::<u32>::empty());
        }
        proof {
            lemma_child_below(self.nodes(), nid, 1);
        }
        if args.0 < self.arena.used() {
            self.lower_arg_list(args, &mut argv);
        }
        let tag = match self.arena.get(func) {
            Ok(ASTNode::Ident(idx)) => self.ident_to_builtin(*idx),
            _ => None,
        };
        match tag {
            Some(t) => {
                let callee = self.fresh(NIRValue::IntConst(t));
                let res = self.fresh(NIRValue::Undef);
                let ghost ids = value_ids(argv@);
                proof {
                    assert(argv@.map_values(|v: ValueID| v.0) =~= ids);
                }
                self.emit(NIRInstruction::Call { callee, args: argv, result: res });
                self.finish(nid, res);
                Some(res)
            },
            None => None,
        }
    }

    /// Linear bindings.
    #[verifier::rlimit(50)]
    fn lower_let(&mut self, nid: u32, name: NodeID, value: NodeID, body: NodeID) -> (r: Option<ValueID>)
        requires
            old(self).inv(),
            !old(self).state().memo.contains_key(nid),
            (nid as int) < old(self).nodes().len(),
            old(self).nodes()[nid as int] == (ASTNode::LinearLet { name, value, body }),
            lower_spec(old(self).nodes(), old(self).src(), old(self).state(), nid).0.values.len() < u32::MAX,
        ensures
            final(self).inv(),
            final(self).nodes() == old(self).nodes(),
            final(self).src() == old(self).src(),
            (final(self).state(), opt_id(r)) == lower_spec(old(self).nodes(), old(self).src(), old(self).state(), nid),
        decreases rank_of(old(self).nodes())[nid as int], 1nat,
    {
        let ghost a = self.nodes();
        let ghost src = self.src();
        let ghost s = self.state();
        proof {
            let (s2, v) = lower_child(a, src, s, nid, value);
            match (node_name(a, src, name), v) {
                (Some(nm), Some(x)) => {
                    let s3 = LowerState { vars: s2.vars.insert(nm, x), ..s2 };
                    lemma_child_grows(a, src, s3, nid, body);
                },
                _ => {},
            }
        }
        let n = self.node_name_exec(name);
        proof {
            lemma_child_below(self.nodes(), nid, 1);
        }
        let val = self.lower_child_node(nid, value);
        match (n, val) {
            (Some(name_str), Some(v)) => {
                let ghost s2 = self.state();
                let ghost nm = name_str@;
                let ghost s3 = LowerState { vars: s2.vars.insert(nm, v.0), ..s2 };
                let ghost go = body.0 != INVALID_RAW && body.0 != 0 && (body.0 as int) < a.len() && !(a[body.0 as int] is Empty);
                assert(lower_spec(a, src, s, nid) == if go {
                    finish(lower_child(a, src, s3, nid, body), nid)
                } else {
                    finish((s3, Some(v.0)), nid)
                });
                self.var_set(name_str, v);
                let result = if body.0 != INVALID_RAW && body.0 != 0 {
                    match self.arena.get(body) {
                        Ok(ASTNode::Empty) => Some(v),
                        Ok(_) => {
                            proof {
                                lemma_child_below(self.nodes(), nid, 2);
                            }
                            self.lower_child_node(nid, body)
                        },
                        Err(_) => Some(v),
                    }
                } else {
                    Some(v)
                };
                if let Some(x) = result {
                    self.finish(nid, x);
                }
                result
            },
            _ => None,
        }
    }

    /// Universal quantifiers: the bound variable starts at zero.
    fn lower_forall(&mut self, nid: u32, var: NodeID, set: NodeID, body: NodeID) -> (r: Option<ValueID>)
        requires
            old(self).inv(),
            !old(self).state().memo.contains_key(nid),
            (nid as int) < old(self).nodes().len(),
            old(self).nodes()[nid as int] == (ASTNode::ForAll { var, set, body }),
            lower_spec(old(self).nodes(), old(self).src(), old(self).state(), nid).0.values.len() < u32::MAX,
        ensures
            final(self).inv(),
            final(self).nodes() == old(self).nodes(),
            final(self).src() == old(self).src(),
            (final(self).state(), opt_id(r)) == lower_spec(old(self).nodes(), old(self).src(), old(self).state(), nid),
        decreases rank_of(old(self).nodes())[nid as int], 1nat,
    {
        let ghost a = self.nodes();
        let ghost src = self.src();
        let ghost s = self.state();
        let ghost s1 = match node_name(a, src, var) {
            Some(nm) => {
                let (t, zero) = fresh(s, NIRValue::IntConst(0));
                LowerState { vars: t.vars.insert(nm, zero), ..t }
            },
            None => s,
        };
        proof {
            let s2 = lower_child(a, src, s1, nid, set).0;
            lemma_child_grows(a, src, s2, nid, body);
            lemma_child_grows(a, src, s1, nid, set);
        }
        if let Some(var_name) = self.node_name_exec(var) {
            let zero = self.fresh(NIRValue::IntConst(0));
            self.var_set(var_name, zero);
        }
        proof {
            lemma_child_below(self.nodes(), nid, 1);
        }
        self.lower_child_node(nid, set);
        proof {
            lemma_child_below(self.nodes(), nid, 2);
        }
        let result = self.lower_child_node(nid, body);
        if let Some(x) = result {
            self.finish(nid, x);
        }
        result
    }

    /// Lambdas: their body.
    fn lower_lambda(&mut self, nid: u32, params: NodeID, body: NodeID) -> (r: Option<ValueID>)
        requires
            old(self).inv(),
            !old(self).state().memo.contains_key(nid),
            (nid as int) < old(self).nodes().len(),
            old(self).nodes()[nid as int] == (ASTNode::Lambda { params, body }),
            lower_spec(old(self).nodes(), old(self).src(), old(self).state(), nid).0.values.len() < u32::MAX,
        ensures
            final(self).inv(),
            final(self).nodes() == old(self).nodes(),
            final(self).src() == old(self).src(),
            (final(self).state(), opt_id(r)) == lower_spec(old(self).nodes(), old(self).src(), old(self).state(), nid),
        decreases rank_of(old(self).nodes())[nid as int], 1nat,
    {
        proof {
            lemma_child_below(self.nodes(), nid, 1);
        }
        let result = self.lower_child_node(nid, body);
        if let Some(x) = result {
            self.finish(nid, x);
        }
        result
    }

    /// Lists: each element in turn; the value is the most recent one.
    fn lower_list(&mut self, nid: u32, head: NodeID, tail: NodeID) -> (r: Option<ValueID>)
        requires
            old(self).inv(),
            !old(self).state().memo.contains_key(nid),
            (nid as int) < old(self).nodes().len(),
            old(self).nodes()[nid as int] == (ASTNode::List { head, tail }),
            lower_spec(old(self).nodes(), old(self).src(), old(self).state(), nid).0.values.len() < u32::MAX,
        ensures
            final(self).inv(),
            final(self).nodes() == old(self).nodes(),
            final(self).src() == old(self).src(),
            (final(self).state(), opt_id(r)) == lower_spec(old(self).nodes(), old(self).src(), old(self).state(), nid),
        decreases rank_of(old(self).nodes())[nid as int], 1nat,
    {
        let ghost a = self.nodes();
        let ghost src = self.src();
        let ghost s = self.state();
        proof {
            let s2 = lower_child(a, src, s, nid, head).0;
            lemma_child_grows(a, src, s2, nid, tail);
        }
        proof {
            lemma_child_below(self.nodes(), nid, 0);
        }
        self.lower_child_node(nid, head);
        if tail.0 != INVALID_RAW {
            proof {
                lemma_child_below(self.nodes(), nid, 1);
            }
            self.lower_child_node(nid, tail);
        }
        let result = self.last_value;
        if let Some(x) = result {
            self.finish(nid, x);
        }
        result
    }

    /// Lowers child `c` of node `parent` (see `lower_child`).
    fn lower_child_node(&mut self, parent: u32, c: NodeID) -> (r: Option<ValueID>)
        requires
            old(self).inv(),
            (c.0 as int) < old(self).nodes().len() ==> below(old(self).nodes(), parent, c.0),
            lower_child(old(self).nodes(), old(self).src(), old(self).state(), parent, c).0.values.len() < u32::MAX,
        ensures
            final(self).inv(),
            final(self).nodes() == old(self).nodes(),
            final(self).src() == old(self).src(),
            (final(self).state(), opt_id(r)) == lower_child(old(self).nodes(), old(self).src(), old(self).state(), parent, c),
        decreases rank_of(old(self).nodes())[parent as int], 0nat,
    {
        if c.0 < self.arena.used() {
            self.lower_node(c)
        } else {
            None
        }
    }

    /// Lowers the call arguments in the list from `cur` on, appending
    /// their values to `acc` (see `lower_args`).
    fn lower_arg_list(&mut self, cur: NodeID, acc: &mut Vec<ValueID>)
        requires
            old(self).inv(),
            lower_args(old(self).nodes(), old(self).src(), old(self).state(), cur.0, value_ids(old(acc)@)).0.values.len()
                < u32::MAX,
        ensures
            final(self).inv(),
            final(self).nodes() == old(self).nodes(),
            final(self).src() == old(self).src(),
            (final(self).state(), value_ids(final(acc)@)) == lower_args(
                old(self).nodes(),
                old(self).src(),
                old(self).state(),
                cur.0,
                value_ids(old(acc)@),
            ),
        decreases rank_of(old(self).nodes())[cur.0 as int], 3nat,
    {
        let ghost a = self.nodes();
        let ghost src = self.src();
        let ghost s = self.state();
        let ghost acc0 = value_ids(acc@);
        if cur.0 == INVALID_RAW {
            return;
        }
        let node: ASTNode = match self.arena.get(cur) {
            Ok(n) => *n,
            Err(_) => return,
        };
        match node {
            ASTNode::List { head, tail } => {
                proof {
                    let (s2, v) = lower_child(a, src, s, cur.0, head);
                    let acc2 = match v {
                        Some(x) => acc0.push(x),
                        None => acc0,
                    };
                    if below(a, cur.0, tail.0) {
                        lemma_args_grows(a, src, s2, tail.0, acc2);
                    }
                    lemma_child_below(a, cur.0, 0);
                    lemma_child_below(a, cur.0, 1);
                }
                if let Some(v) = self.lower_child_node(cur.0, head) {
                    acc.push(v);
                    proof {
                        assert(value_ids(acc@) =~= acc0.push(v.0));
                    }
                }
                if tail.0 < self.arena.used() {
                    self.lower_arg_list(tail, acc);
                }
            },
            ASTNode::Empty => {},
            _ => {
                if let Some(v) = self.lower_node(cur) {
                    acc.push(v);
                    proof {
                        assert(value_ids(acc@) =~= acc0.push(v.0));
                    }
                }
            },
        }
    }
}

impl<'a> ASTLowerer<'a> {
    /// Lowers `root` and closes the entry block with a return of the
    /// root's value, else of the most recent value, else of a new zero.
    pub fn lower(self, root: NodeID) -> (f: NIRFunction)
        requires
            self.inv(),
            idents_on_boundaries(self.nodes(), self.src()),
            lower_spec(self.nodes(), self.src(), self.state(), root.0).0.values.len() < u32::MAX,
        ensures
            f.name@ == "main"@,
            f.wf(),
            f.entry_block == BlockID(0),
            f.blocks@.len() == 1,
            f.blocks@[0].id == BlockID(0),
            f.block_view() == seq![lower_result(self.nodes(), self.src(), self.state(), root.0).0],
            f.values@ == lower_result(self.nodes(), self.src(), self.state(), root.0).1,
    {
        let mut this = self;
        let result = this.lower_node(root);
        let return_val = match result {
            Some(v) => Some(v),
            None => this.last_value,
        };
        match return_val {
            Some(v) => {
                this.emit(NIRInstruction::Return { value: Some(v) });
            },
            None => {
                let z = this.fresh(NIRValue::IntConst(0));
                this.emit(NIRInstruction::Return { value: Some(z) });
            },
        }
        proof {
            assert(this.func.block_view() =~= seq![this.state().instrs]);
        }
        this.func
    }
}

/// The entry block and the values of the function lowered from state `s`
/// with root `root`: the root's code, then a return of its value, else of
/// the most recent value, else of a new zero.
pub open spec fn lower_result(a: Seq<ASTNode>, src: Seq<u8>, s: LowerState, root: u32) -> (Seq<Instr>, Seq<NIRValue>) {
    let p = lower_spec(a, src, s, root);
    closing(p.0, p.1)
}

/// The entry block closed by a return of `r`, else of the most recent
/// value, else of a new zero; and the values.
pub open spec fn closing(t: LowerState, r: Option<u32>) -> (Seq<Instr>, Seq<NIRValue>) {
    let ret = match r {
        Some(v) => Some(v),
        None => t.last,
    };
    match ret {
        Some(v) => (t.instrs.push(Instr::Return { value: Some(v) }), t.values),
        None => (
            t.instrs.push(Instr::Return { value: Some(t.values.len() as u32) }),
            t.values.push(NIRValue::IntConst(0)),
        ),
    }
}

/// Nothing lowered yet.
pub open spec fn start_state() -> LowerState {
    LowerState { instrs: Seq::empty(), values: Seq::empty(), memo: Map::empty(), vars: Map::empty(), last: None }
}

/// The function `main` lowered from the tree at `root`, with no source
/// text (so no identifier has a name).
pub fn lower_ast_to_nir(arena: &Arena, root: NodeID) -> (f: NIRFunction)
    requires
        acyclic(arena@),
        lower_spec(arena@, Seq::empty(), start_state(), root.0).0.values.len() < u32::MAX,
    ensures
        f.name@ == "main"@,
        f.wf(),
        f.entry_block == BlockID(0),
        f.blocks@.len() == 1,
        f.block_view() == seq![lower_result(arena@, Seq::empty(), start_state(), root.0).0],
        f.values@ == lower_result(arena@, Seq::empty(), start_state(), root.0).1,
{
    let l = ASTLowerer::new(arena, "");
    proof {
        reveal_strlit("");
        assert(l.src() =~= Seq::<u8>::empty());
        assert(idents_on_boundaries(arena@, l.src()));
    }
    l.lower(root)
}

/// The function `main` lowered from the tree at `root`, identifiers named
/// by their text in `source`.
pub fn lower_ast_to_nir_with_source(arena: &Arena, root: NodeID, source: &str) -> (f: NIRFunction)
    requires
        acyclic(arena@),
        idents_on_boundaries(arena@, source.spec_bytes()),
        lower_spec(arena@, source.spec_bytes(), start_state(), root.0).0.values.len() < u32::MAX,
    ensures
        f.name@ == "main"@,
        f.wf(),
        f.entry_block == BlockID(0),
        f.blocks@.len() == 1,
        f.block_view() == seq![lower_result(arena@, source.spec_bytes(), start_state(), root.0).0],
        f.values@ == lower_result(arena@, source.spec_bytes(), start_state(), root.0).1,
{
    let l = ASTLowerer::new(arena, source);
    l.lower(root)
}

// ─── Assembly text for the advanced type-system features ──────────────

/// The comment and move that dispatch a trait method:
/// `    ; trait dispatch: T.m\n    mov R, S\n`.
pub fn emit_trait_method_call(trait_name: &str, method: &str, self_reg: &str, result_reg: &str) -> (r: String)
    ensures
        r@ == "    ; trait dispatch: "@ + trait_name@ + "."@ + method@ + "\n    mov "@ + result_reg@ + ", "@ + self_reg@
            + "\n"@,
{
    let mut out = String::from_str("    ; trait dispatch: ");
    out.append(trait_name);
    out.append(".");
    out.append(method);
    out.append("\n    mov ");
    out.append(result_reg);
    out.append(", ");
    out.append(self_reg);
    out.append("\n");
    out
}

/// The type a variable has where `condition` holds: `is_number` gives
/// `Int64`, `is_string` gives `String`, `is_bool` gives `Bool`, anything
/// else `Unknown`.
pub fn narrow_type_by_condition(var_name: &str, condition: &str) -> (r: &'static str)
    ensures
        r@ == (if condition@ == "is_number"@ {
            "Int64"@
        } else if condition@ == "is_string"@ {
            "String"@
        } else if condition@ == "is_bool"@ {
            "Bool"@
        } else {
            "Unknown"@
        }),
{
    if str_eq(condition, "is_number") {
        "Int64"
    } else if str_eq(condition, "is_string") {
        "String"
    } else if str_eq(condition, "is_bool") {
        "Bool"
    } else {
        "Unknown"
    }
}

/// The comment that opens a record: `    ; record with N fields\n`.
pub fn lower_record_field_count(field_count: usize) -> (r: String)
    ensures
        r@ == "    ; record with "@ + decimal(field_count as nat) + " fields\n"@,
{
    let mut out = String::from_str("    ; record with ");
    push_decimal(&mut out, field_count);
    out.append(" fields\n");
    out
}

/// The load of field `field_offset` (eight bytes each) of a record:
/// `    mov R, [B + 8k]\n`.
pub fn emit_field_access(record_reg: &str, field_offset: usize, result_reg: &str) -> (r: String)
    requires
        field_offset * 8 <= usize::MAX,
    ensures
        r@ == "    mov "@ + result_reg@ + ", ["@ + record_reg@ + " + "@ + decimal((field_offset * 8) as nat) + "]\n"@,
{
    let mut out = String::from_str("    mov ");
    out.append(result_reg);
    out.append(", [");
    out.append(record_reg);
    out.append(" + ");
    push_decimal(&mut out, field_offset * 8);
    out.append("]\n");
    out
}

/// The comment that opens a universal quantifier's loop:
/// `    ; forall x in [0..N) {\n`.
pub fn lower_forall_body(var_name: &str, set_size: usize) -> (r: String)
    ensures
        r@ == "    ; forall "@ + var_name@ + " in [0.."@ + decimal(set_size as nat) + ") {\n"@,
{
    let mut out = String::from_str("    ; forall ");
    out.append(var_name);
    out.append(" in [0..");
    push_decimal(&mut out, set_size);
    out.append(") {\n");
    out
}

/// The comment of an existential check: `    ; exists check: result = P\n`.
pub fn lower_exists_check(predicate_result: &str) -> (r: String)
    ensures
        r@ == "    ; exists check: result = "@ + predicate_result@ + "\n"@,
{
    let mut out = String::from_str("    ; exists check: result = ");
    out.append(predicate_result);
    out.append("\n");
    out
}

/// The NIR operator of a binary operator code.
fn nir_op_of(op: u8) -> (r: Option<NIROp>)
    ensures
        r == nir_op(op),
{
    if op == OP_ADD {
        Some(NIROp::Add)
    } else if op == OP_SUB {
        Some(NIROp::Sub)
    } else if op == OP_MUL {
        Some(NIROp::Mul)
    } else if op == OP_DIV {
        Some(NIROp::Div)
    } else if op == OP_MOD {
        Some(NIROp::Mod)
    } else if op == OP_EQ {
        Some(NIROp::Eq)
    } else if op == OP_LT {
        Some(NIROp::Lt)
    } else if op == OP_LE {
        Some(NIROp::Le)
    } else if op == OP_GT {
        Some(NIROp::Gt)
    } else if op == OP_GE {
        Some(NIROp::Ge)
    } else if op == OP_AND {
        Some(NIROp::And)
    } else if op == OP_OR {
        Some(NIROp::Or)
    } else {
        None
    }
}

proof fn lemma_ident_end_bounds(src: Seq<u8>, i: int)
    requires
        0 <= i <= src.len(),
    ensures
        i <= ident_end(src, i) <= src.len(),
    decreases src.len() - i,
{
    if i < src.len() {
        if ascii_alnum(src[i]) || src[i] == 0x5F {
            lemma_ident_end_bounds(src, i + 1);
        } else if 0xD8 <= src[i] <= 0xDB && i + 1 < src.len() && 0x80 <= src[i + 1] <= 0xBF {
            lemma_ident_end_bounds(src, i + 2);
        }
    }
}

proof fn lemma_memo_lookup(s: Seq<(u32, ValueID)>, i: int, k: u32)
    requires
        0 <= i <= s.len(),
        forall|q: int| i <= q < s.len() ==> (#[trigger] s[q]).0 != k,
    ensures
        memo_map(s).contains_key(k) == memo_map(s.take(i)).contains_key(k),
        memo_map(s).contains_key(k) ==> memo_map(s)[k] == memo_map(s.take(i))[k],
    decreases s.len() - i,
{
    if i < s.len() {
        lemma_memo_lookup(s.drop_last(), i, k);
        assert(s.drop_last().take(i) =~= s.take(i));
    } else {
        assert(s.take(i) =~= s);
    }
}

proof fn lemma_var_lookup(s: Seq<(Vec<u8>, ValueID)>, i: int, k: Seq<u8>)
    requires
        0 <= i <= s.len(),
        forall|q: int| i <= q < s.len() ==> (#[trigger] s[q]).0@ != k,
    ensures
        var_map(s).contains_key(k) == var_map(s.take(i)).contains_key(k),
        var_map(s).contains_key(k) ==> var_map(s)[k] == var_map(s.take(i))[k],
    decreases s.len() - i,
{
    if i < s.len() {
        lemma_var_lookup(s.drop_last(), i, k);
        assert(s.drop_last().take(i) =~= s.take(i));
    } else {
        assert(s.take(i) =~= s);
    }
}

fn is_ascii_alnum(b: u8) -> (r: bool)
    ensures
        r == ascii_alnum(b),
{
    (b >= 0x30 && b <= 0x39) || (b >= 0x41 && b <= 0x5A) || (b >= 0x61 && b <= 0x7A)
}

/// Whether two byte strings are equal.
fn bytes_eq(a: &[u8], b: &[u8]) -> (r: bool)
    ensures
        r == (a@ == b@),
{
    if a.len() != b.len() {
        return false;
    }
    let mut i: usize = 0;
    while i < a.len()
        invariant
            a@.len() == b@.len(),
            i <= a@.len(),
            forall|k: int| 0 <= k < i ==> a@[k] == b@[k],
        decreases a@.len() - i,
    {
        if a[i] != b[i] {
            assert(a@[i as int] != b@[i as int]);
            return false;
        }
        i = i + 1;
    }
    assert(a@ =~= b@);
    true
}

/// Whether the bytes spell `word`.
fn spells(name: &Vec<u8>, word: &str) -> (r: bool)
    ensures
        r == (name@ == word.spec_bytes()),
{
    bytes_eq(name.as_slice(), word.as_bytes())
}

/// The built-in code of a name.
fn builtin_of(name: &Vec<u8>) -> (r: Option<i64>)
    ensures
        r == builtin_code(name@),
{
    if spells(name, "sqrt") || spells(name, "جذر") {
        Some(100)
    } else if spells(name, "abs") || spells(name, "مطلق") {
        Some(101)
    } else if spells(name, "floor") || spells(name, "أرضية") {
        Some(102)
    } else if spells(name, "power") || spells(name, "قوة") {
        Some(103)
    } else if spells(name, "exp") || spells(name, "أسي") {
        Some(104)
    } else if spells(name, "print_int") || spells(name, "اطبع") {
        Some(105)
    } else if spells(name, "print_str") || spells(name, "اطبع_نص") {
        Some(106)
    } else if spells(name, "num_to_str") || spells(name, "نص") {
        Some(107)
    } else if spells(name, "list_len") || spells(name, "طول") {
        Some(113)
    } else if spells(name, "list_sum") || spells(name, "مجموع") {
        Some(114)
    } else if spells(name, "min") || spells(name, "أدنى") {
        Some(120)
    } else if spells(name, "max") || spells(name, "أقصى") {
        Some(121)
    } else if spells(name, "ceil") || spells(name, "سقف") {
        Some(122)
    } else if spells(name, "round") || spells(name, "قرّب") {
        Some(123)
    } else if spells(name, "str_len") || spells(name, "طول_نص") {
        Some(130)
    } else if spells(name, "str_concat") || spells(name, "اربط") {
        Some(131)
    } else {
        None
    }
}

} // verus!
