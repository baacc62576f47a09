//! Pattern matching: `⎇ value : pattern₁ ⇒ expr₁ pattern₂ ⇒ expr₂ _ ⇒ default`.
//! Expressions evaluate to values; the first arm whose pattern matches the
//! scrutinee gives the result, with the pattern's bindings in scope.
use vstd::prelude::*;
use vstd::string::StringExecFns;
use crate::arena::{acyclic, lemma_rank_child, rank_of, ASTNode, Arena, NodeID, Pattern, INVALID_RAW, OP_ADD, OP_EQ, OP_MUL, OP_SUB};
use crate::ownership::StringTable;
use crate::text::{int_text, push_i64, str_eq};

verus! {

/// Why a match failed.
#[derive(Debug, PartialEq, Eq)]
pub enum MatchError {
    /// No arm matched the scrutinee, shown as text.
    NoMatch { value: String },
    /// The node is not a match, or a pattern is malformed.
    InvalidPattern { reason: String },
}

/// The value of an expression.
#[derive(Debug, PartialEq)]
pub enum Value {
    Int(i64),
    Text(String),
    Bool(bool),
    Unknown,
}

/// Values as values: text by its characters.
pub enum ValueM {
    Int(i64),
    Text(Seq<char>),
    Bool(bool),
    Unknown,
}

/// The model of a value.
pub open spec fn vm(v: Value) -> ValueM {
    match v {
        Value::Int(n) => ValueM::Int(n),
        Value::Text(s) => ValueM::Text(s@),
        Value::Bool(b) => ValueM::Bool(b),
        Value::Unknown => ValueM::Unknown,
    }
}

impl Value {
    /// A copy of the value.
    pub fn copy(&self) -> (r: Value)
        ensures
            vm(r) == vm(*self),
    {
        match self {
            Value::Int(n) => Value::Int(*n),
            Value::Text(s) => Value::Text(s.clone()),
            Value::Bool(b) => Value::Bool(*b),
            Value::Unknown => Value::Unknown,
        }
    }
}

impl Clone for Value {
    fn clone(&self) -> (r: Self)
        ensures
            vm(r) == vm(*self),
    {
        self.copy()
    }
}

/// Whether two values are equal.
fn value_eq(a: &Value, b: &Value) -> (r: bool)
    ensures
        r == (vm(*a) == vm(*b)),
{
    match (a, b) {
        (Value::Int(x), Value::Int(y)) => *x == *y,
        (Value::Text(x), Value::Text(y)) => str_eq(x.as_str(), y.as_str()),
        (Value::Bool(x), Value::Bool(y)) => *x == *y,
        (Value::Unknown, Value::Unknown) => true,
        _ => false,
    }
}

/// Bindings of names to values, a later one replacing an earlier one.
pub open spec fn bind_map(s: Seq<(String, Value)>) -> Map<Seq<char>, ValueM>
    decreases s.len(),
{
    if s.len() == 0 {
        Map::empty()
    } else {
        bind_map(s.drop_last()).insert(s.last().0@, vm(s.last().1))
    }
}

/// The value bound to `name`.
fn lookup(bindings: &Vec<(String, Value)>, name: &str) -> (r: Option<Value>)
    ensures
        r is Some == bind_map(bindings@).contains_key(name@),
        r matches Some(v) ==> vm(v) == bind_map(bindings@)[name@],
{
    let mut i: usize = bindings.len();
    while i > 0
        invariant
            i <= bindings@.len(),
            forall|k: int| i <= k < bindings@.len() ==> (#[trigger] bindings@[k]).0@ != name@,
        decreases i,
    {
        if str_eq(bindings[i - 1].0.as_str(), name) {
            proof {
                lemma_bind_lookup(bindings@, i as int, name@);
                assert(bindings@.take(i as int).drop_last() =~= bindings@.take(i as int - 1));
            }
            return Some(bindings[i - 1].1.copy());
        }
        i = i - 1;
    }
    proof {
        lemma_bind_lookup(bindings@, 0, name@);
        assert(bindings@.take(0) =~= Seq::<(String, Value)>::empty());
    }
    None
}

proof fn lemma_bind_lookup(s: Seq<(String, Value)>, i: int, k: Seq<char>)
    requires
        0 <= i <= s.len(),
        forall|q: int| i <= q < s.len() ==> (#[trigger] s[q]).0@ != k,
    ensures
        bind_map(s).contains_key(k) == bind_map(s.take(i)).contains_key(k),
        bind_map(s).contains_key(k) ==> bind_map(s)[k] == bind_map(s.take(i))[k],
    decreases s.len() - i,
{
    if i < s.len() {
        lemma_bind_lookup(s.drop_last(), i, k);
        assert(s.drop_last().take(i) =~= s.take(i));
    } else {
        assert(s.take(i) =~= s);
    }
}

// ─── Evaluation ──────────────────────────────────────────────────────

/// The value of node `nid`: literals, strings of the table, bound
/// identifiers, and `+ - ·` and `=` on integers; anything else is unknown.
pub open spec fn eval_spec(a: Seq<ASTNode>, strs: Seq<Seq<char>>, binds: Map<Seq<char>, ValueM>, nid: u32) -> ValueM
    decreases rank_of(a)[nid as int],
    when acyclic(a)
{
    if nid as int >= a.len() {
        ValueM::Unknown
    } else {
        match a[nid as int] {
            ASTNode::Int(n) => ValueM::Int(n),
            ASTNode::BoolLit(b) => ValueM::Bool(b),
            ASTNode::Str(idx) => ValueM::Text(if (idx as int) < strs.len() {
                strs[idx as int]
            } else {
                Seq::empty()
            }),
            ASTNode::Ident(idx) => if (idx as int) < strs.len() && binds.contains_key(strs[idx as int]) {
                binds[strs[idx as int]]
            } else {
                ValueM::Unknown
            },
            ASTNode::BinOp { op, left, right } => {
                let lv = if (left.0 as int) < a.len() {
                    proof {
                        lemma_rank_child(a, nid as int, 0);
                    }
                    eval_spec(a, strs, binds, left.0)
                } else {
                    ValueM::Unknown
                };
                let rv = if (right.0 as int) < a.len() {
                    proof {
                        lemma_rank_child(a, nid as int, 1);
                    }
                    eval_spec(a, strs, binds, right.0)
                } else {
                    ValueM::Unknown
                };
                match (lv, rv) {
                    (ValueM::Int(x), ValueM::Int(y)) => if op == OP_ADD {
                        ValueM::Int((x + y) as i64)
                    } else if op == OP_SUB {
                        ValueM::Int((x - y) as i64)
                    } else if op == OP_MUL {
                        ValueM::Int((x * y) as i64)
                    } else if op == OP_EQ {
                        ValueM::Bool(x == y)
                    } else {
                        ValueM::Unknown
                    },
                    _ => ValueM::Unknown,
                }
            },
            _ => ValueM::Unknown,
        }
    }
}

/// Evaluating node `nid` overflows no integer operation.
pub open spec fn eval_ok(a: Seq<ASTNode>, strs: Seq<Seq<char>>, binds: Map<Seq<char>, ValueM>, nid: u32) -> bool
    decreases rank_of(a)[nid as int],
    when acyclic(a)
{
    if nid as int >= a.len() {
        true
    } else {
        match a[nid as int] {
            ASTNode::BinOp { op, left, right } => {
                let lok = if (left.0 as int) < a.len() {
                    proof {
                        lemma_rank_child(a, nid as int, 0);
                    }
                    eval_ok(a, strs, binds, left.0)
                } else {
                    true
                };
                let rok = if (right.0 as int) < a.len() {
                    proof {
                        lemma_rank_child(a, nid as int, 1);
                    }
                    eval_ok(a, strs, binds, right.0)
                } else {
                    true
                };
                let lv = eval_spec(a, strs, binds, left.0);
                let rv = eval_spec(a, strs, binds, right.0);
                lok && rok && match (lv, rv) {
                    (ValueM::Int(x), ValueM::Int(y)) => if op == OP_ADD {
                        i64::MIN <= x + y <= i64::MAX
                    } else if op == OP_SUB {
                        i64::MIN <= x - y <= i64::MAX
                    } else if op == OP_MUL {
                        i64::MIN <= x * y <= i64::MAX
                    } else {
                        true
                    },
                    _ => true,
                }
            },
            _ => true,
        }
    }
}

/// The value of node `node_id` under `bindings`.
pub fn eval_node(node_id: NodeID, arena: &Arena, string_table: &StringTable, bindings: &Vec<(String, Value)>) -> (r: Value)
    requires
        acyclic(arena@),
        eval_ok(arena@, string_table@, bind_map(bindings@), node_id.0),
    ensures
        vm(r) == eval_spec(arena@, string_table@, bind_map(bindings@), node_id.0),
    decreases rank_of(arena@)[node_id.0 as int],
{
    let ghost a = arena@;
    let n = arena.used();
    let node: ASTNode = match arena.get(node_id) {
        Ok(n) => *n,
        Err(_) => {
            return Value::Unknown;
        },
    };
    assert(node == a[node_id.0 as int]);
    match node {
        ASTNode::Int(n) => Value::Int(n),
        ASTNode::BoolLit(b) => Value::Bool(b),
        ASTNode::Str(idx) => match string_table.get(idx) {
            Some(x) => Value::Text(String::from_str(x)),
            None => Value::Text(String::new()),
        },
        ASTNode::Ident(idx) => match string_table.get(idx) {
            Some(name) => match lookup(bindings, name) {
                Some(v) => v,
                None => Value::Unknown,
            },
            None => Value::Unknown,
        },
        ASTNode::BinOp { op, left, right } => {
            let lv = if left.0 < n {
                proof {
                    lemma_rank_child(a, node_id.0 as int, 0);
                }
                eval_node(left, arena, string_table, bindings)
            } else {
                Value::Unknown
            };
            let rv = if right.0 < n {
                proof {
                    lemma_rank_child(a, node_id.0 as int, 1);
                }
                eval_node(right, arena, string_table, bindings)
            } else {
                Value::Unknown
            };
            match (lv, rv) {
                (Value::Int(x), Value::Int(y)) => {
                    if op == OP_ADD {
                        Value::Int(x + y)
                    } else if op == OP_SUB {
                        Value::Int(x - y)
                    } else if op == OP_MUL {
                        Value::Int(x * y)
                    } else if op == OP_EQ {
                        Value::Bool(x == y)
                    } else {
                        Value::Unknown
                    }
                },
                _ => Value::Unknown,
            }
        },
        _ => Value::Unknown,
    }
}

/// The bindings a pattern makes when it matches `v`: none for the
/// wildcard and for an equal integer literal, the name for a binding.
pub open spec fn match_spec(p: Pattern, v: ValueM, strs: Seq<Seq<char>>) -> Option<Map<Seq<char>, ValueM>> {
    match p {
        Pattern::Wildcard => Some(Map::empty()),
        Pattern::Literal(n) => if v == ValueM::Int(n) {
            Some(Map::empty())
        } else {
            None
        },
        Pattern::Binding(idx) => if (idx as int) < strs.len() {
            Some(Map::empty().insert(strs[idx as int], v))
        } else {
            None
        },
    }
}

/// The bindings of `pattern` against `value`, if it matches.
pub fn match_pattern(pattern: &Pattern, value: &Value, arena: &Arena, string_table: &StringTable) -> (r: Option<
    Vec<(String, Value)>,
>)
    ensures
        match r {
            Some(b) => match_spec(*pattern, vm(*value), string_table@) == Some(bind_map(b@)),
            None => match_spec(*pattern, vm(*value), string_table@) is None,
        },
{
    let mut new_bindings: Vec<(String, Value)> = Vec::new();
    proof {
        assert(bind_map(new_bindings@) =~= Map::<Seq<char>, ValueM>::empty());
    }
    match pattern {
        Pattern::Wildcard => Some(new_bindings),
        Pattern::Literal(n) => {
            if value_eq(&Value::Int(*n), value) {
                Some(new_bindings)
            } else {
                None
            }
        },
        Pattern::Binding(name_idx) => {
            match string_table.get(*name_idx) {
                Some(name) => {
                    new_bindings.push((String::from_str(name), value.copy()));
                    proof {
                        assert(new_bindings@.drop_last() =~= Seq::<(String, Value)>::empty());
                    }
                    Some(new_bindings)
                },
                None => None,
            }
        },
    }
}

/// What a match expression gives: the chosen arm's value, or no arm.
pub enum MatchOutcome {
    Found(ValueM),
    NoArm,
}

/// The arms from list node `cur` on, against scrutinee value `sv`.
pub open spec fn arms_spec(a: Seq<ASTNode>, strs: Seq<Seq<char>>, outer: Map<Seq<char>, ValueM>, sv: ValueM, cur: u32) -> MatchOutcome
    decreases rank_of(a)[cur as int],
    when acyclic(a)
{
    if cur == INVALID_RAW || cur as int >= a.len() {
        MatchOutcome::NoArm
    } else {
        match a[cur as int] {
            ASTNode::List { head, tail } => {
                let found = if (head.0 as int) < a.len() {
                    match a[head.0 as int] {
                        ASTNode::MatchArm { pattern, body } => match match_spec(pattern, sv, strs) {
                            Some(nb) => Some(eval_spec(a, strs, outer.union_prefer_right(nb), body.0)),
                            None => None,
                        },
                        _ => None,
                    }
                } else {
                    None
                };
                match found {
                    Some(v) => MatchOutcome::Found(v),
                    None => if (tail.0 as int) < a.len() {
                        proof {
                            lemma_rank_child(a, cur as int, 1);
                        }
                        arms_spec(a, strs, outer, sv, tail.0)
                    } else {
                        MatchOutcome::NoArm
                    },
                }
            },
            _ => MatchOutcome::NoArm,
        }
    }
}

/// Evaluating the chosen arm overflows nothing.
pub open spec fn arms_ok(a: Seq<ASTNode>, strs: Seq<Seq<char>>, outer: Map<Seq<char>, ValueM>, sv: ValueM, cur: u32) -> bool
    decreases rank_of(a)[cur as int],
    when acyclic(a)
{
    if cur == INVALID_RAW || cur as int >= a.len() {
        true
    } else {
        match a[cur as int] {
            ASTNode::List { head, tail } => {
                let found = if (head.0 as int) < a.len() {
                    match a[head.0 as int] {
                        ASTNode::MatchArm { pattern, body } => match match_spec(pattern, sv, strs) {
                            Some(nb) => Some(eval_ok(a, strs, outer.union_prefer_right(nb), body.0)),
                            None => None,
                        },
                        _ => None,
                    }
                } else {
                    None
                };
                match found {
                    Some(ok) => ok,
                    None => if (tail.0 as int) < a.len() {
                        proof {
                            lemma_rank_child(a, cur as int, 1);
                        }
                        arms_ok(a, strs, outer, sv, tail.0)
                    } else {
                        true
                    },
                }
            },
            _ => true,
        }
    }
}

/// The text of a value as `Debug` shows it.
pub open spec fn value_text(v: ValueM) -> Seq<char> {
    match v {
        ValueM::Int(n) => "Int("@ + int_text(n as int) + ")"@,
        ValueM::Text(t) => "Text("@ + str_debug(t) + ")"@,
        ValueM::Bool(b) => "Bool("@ + (if b {
            "true"@
        } else {
            "false"@
        }) + ")"@,
        ValueM::Unknown => "Unknown"@,
    }
}

/// What `Debug` prints for a string: the quoted, escaped text.
pub uninterp spec fn str_debug(s: Seq<char>) -> Seq<char>;

/// `<str as Debug>::fmt`: the string quoted, with `"`, `\` and control
/// and other non-printing characters escaped. What it returns is named
/// `str_debug`; the escaping rules are std's and are not restated.
#[verifier::external_body]
fn debug_quoted(s: &str) -> (r: String)
    ensures
        r@ == str_debug(s@),
{
    format!("{:?}", s)
}

/// The value as `Debug` shows it.
fn value_debug(v: &Value) -> (r: String)
    ensures
        r@ == value_text(vm(*v)),
{
    match v {
        Value::Int(n) => {
            let mut s = String::from_str("Int(");
            push_i64(&mut s, *n);
            s.append(")");
            s
        },
        Value::Text(t) => {
            let mut s = String::from_str("Text(");
            let q = debug_quoted(t.as_str());
            s.append(q.as_str());
            s.append(")");
            s
        },
        Value::Bool(b) => {
            let mut s = String::from_str("Bool(");
            if *b {
                s.append("true");
            } else {
                s.append("false");
            }
            s.append(")");
            s
        },
        Value::Unknown => String::from_str("Unknown"),
    }
}

/// The outer bindings extended by the new ones, the new ones winning.
fn combine(outer: &Vec<(String, Value)>, new_bindings: Vec<(String, Value)>) -> (r: Vec<(String, Value)>)
    ensures
        bind_map(r@) == bind_map(outer@).union_prefer_right(bind_map(new_bindings@)),
{
    let mut combined: Vec<(String, Value)> = Vec::new();
    let mut i: usize = 0;
    while i < outer.len()
        invariant
            i <= outer@.len(),
            bind_map(combined@) == bind_map(outer@.take(i as int)),
        decreases outer@.len() - i,
    {
        let ghost before = combined@;
        combined.push((outer[i].0.clone(), outer[i].1.copy()));
        proof {
            assert(combined@.drop_last() =~= before);
            assert(outer@.take(i as int + 1).drop_last() =~= outer@.take(i as int));
        }
        i = i + 1;
    }
    proof {
        assert(outer@.take(i as int) =~= outer@);
    }
    let ghost base = bind_map(outer@);
    let mut j: usize = 0;
    let mut rest = new_bindings;
    let ghost nb = rest@;
    assert(nb.len() == rest.len());
    while rest.len() > 0
        invariant
            j <= nb.len(),
            j + rest@.len() == nb.len(),
            nb.len() <= usize::MAX,
            rest@ == nb.skip(j as int),
            bind_map(combined@) == base.union_prefer_right(bind_map(nb.take(j as int))),
        decreases rest@.len(),
    {
        let ghost before = combined@;
        let p = rest.remove(0);
        assert(p == nb[j as int]);
        combined.push(p);
        proof {
            assert(combined@.drop_last() =~= before);
            assert(nb.take(j as int + 1).drop_last() =~= nb.take(j as int));
            assert(bind_map(combined@) =~= base.union_prefer_right(bind_map(nb.take(j as int + 1))));
            assert(rest@ =~= nb.skip(j as int + 1));
        }
        j = j + 1;
    }
    proof {
        assert(nb.take(j as int) =~= nb);
    }
    combined
}

/// Evaluates the match node `match_node_id`: the value of the first arm
/// whose pattern matches the scrutinee, under the outer bindings extended
/// by the pattern's.
pub fn eval_match(
    match_node_id: NodeID,
    arena: &Arena,
    string_table: &StringTable,
    outer_bindings: &Vec<(String, Value)>,
) -> (r: Result<Value, MatchError>)
    requires
        acyclic(arena@),
        (match_node_id.0 as int) < arena@.len() ==> (arena@[match_node_id.0 as int] matches ASTNode::Match { scrutinee, arms }
            ==> eval_ok(arena@, string_table@, bind_map(outer_bindings@), scrutinee.0) && arms_ok(
            arena@,
            string_table@,
            bind_map(outer_bindings@),
            eval_spec(arena@, string_table@, bind_map(outer_bindings@), scrutinee.0),
            arms.0,
        )),
    ensures
        (match_node_id.0 as int) >= arena@.len() ==> (r matches Err(MatchError::InvalidPattern { reason }) && reason@
            == "invalid match node"@),
        (match_node_id.0 as int) < arena@.len() ==> match arena@[match_node_id.0 as int] {
            ASTNode::Match { scrutinee, arms } => {
                let sv = eval_spec(arena@, string_table@, bind_map(outer_bindings@), scrutinee.0);
                match arms_spec(arena@, string_table@, bind_map(outer_bindings@), sv, arms.0) {
                    MatchOutcome::Found(v) => r matches Ok(x) && vm(x) == v,
                    MatchOutcome::NoArm => r matches Err(MatchError::NoMatch { value }) && value@ == value_text(sv),
                }
            },
            _ => r matches Err(MatchError::InvalidPattern { reason }) && reason@ == "not a Match node"@,
        },
{
    let ghost a = arena@;
    let ghost strs = string_table@;
    let ghost outer = bind_map(outer_bindings@);
    let node: ASTNode = match arena.get(match_node_id) {
        Ok(n) => *n,
        Err(_) => {
            return Err(MatchError::InvalidPattern { reason: String::from_str("invalid match node") });
        },
    };
    let (scrutinee_id, arms_id) = match node {
        ASTNode::Match { scrutinee, arms } => (scrutinee, arms),
        _ => {
            return Err(MatchError::InvalidPattern { reason: String::from_str("not a Match node") });
        },
    };
    let scrutinee_val = eval_node(scrutinee_id, arena, string_table, outer_bindings);
    let ghost sv = vm(scrutinee_val);
    let mut current_arm = arms_id;
    while current_arm.0 != INVALID_RAW
        invariant_except_break
            arms_spec(a, strs, outer, sv, arms_id.0) == arms_spec(a, strs, outer, sv, current_arm.0),
            arms_ok(a, strs, outer, sv, current_arm.0),
        invariant
            a == arena@,
            strs == string_table@,
            outer == bind_map(outer_bindings@),
            sv == vm(scrutinee_val),
            acyclic(a),
            (match_node_id.0 as int) < a.len(),
            a[match_node_id.0 as int] == (ASTNode::Match { scrutinee: scrutinee_id, arms: arms_id }),
            sv == eval_spec(a, strs, outer, scrutinee_id.0),
        ensures
            arms_spec(a, strs, outer, sv, arms_id.0) == MatchOutcome::NoArm,
        decreases rank_of(a)[current_arm.0 as int],
    {
        let ghost cur = current_arm.0;
        let (head, next) = match arena.get(current_arm) {
            Ok(ASTNode::List { head, tail }) => (*head, *tail),
            _ => {
                break;
            },
        };
        assert(a[cur as int] == ASTNode::List { head, tail: next });
        match arena.get(head) {
            Ok(ASTNode::MatchArm { pattern, body }) => {
                assert(a[head.0 as int] == ASTNode::MatchArm { pattern: *pattern, body: *body });
                if let Some(new_bindings) = match_pattern(pattern, &scrutinee_val, arena, string_table) {
                    let ghost nb = bind_map(new_bindings@);
                    let combined = combine(outer_bindings, new_bindings);
                    assert(bind_map(combined@) == outer.union_prefer_right(nb));
                    let result = eval_node(*body, arena, string_table, &combined);
                    return Ok(result);
                }
            },
            _ => {},
        }
        if next.0 >= arena.used() {
            break;
        }
        proof {
            lemma_rank_child(a, cur as int, 1);
        }
        current_arm = next;
    }
    let shown = value_debug(&scrutinee_val);
    Err(MatchError::NoMatch { value: shown })
}

impl MatchError {
    /// The error as a message.
    pub fn message(&self) -> (s: String)
        ensures
            s@ == match self {
                MatchError::NoMatch { value } => "خطأ مطابقة: لا يوجد نمط يطابق القيمة '"@ + value@ + "'"@,
                MatchError::InvalidPattern { reason } => "خطأ مطابقة: نمط غير صالح — "@ + reason@,
            },
    {
        match self {
            MatchError::NoMatch { value } => {
                let mut s = String::from_str("خطأ مطابقة: لا يوجد نمط يطابق القيمة '");
                s.append(value.as_str());
                s.append("'");
                s
            },
            MatchError::InvalidPattern { reason } => {
                let mut s = String::from_str("خطأ مطابقة: نمط غير صالح — ");
                s.append(reason.as_str());
                s
            },
        }
    }
}

} // verus!
