use mal::arena::{ASTNode, Arena, NodeID, Pattern, OP_ADD, OP_EQ, OP_MUL};
use mal::ownership::StringTable;
use mal::pattern::{eval_match, eval_node, match_pattern, MatchError, Value};

fn build_match_with_literal_and_wildcard(
    arena: &mut Arena,
    string_table: &mut StringTable,
    scrutinee_val: i64,
    literal_val: i64,
    body_val: i64,
    default_val: i64,
) -> NodeID {
    let _ = string_table;
    let scrutinee = arena.allocate(ASTNode::Int(scrutinee_val)).unwrap();
    let _lit_pat_node = arena.allocate(ASTNode::Int(literal_val)).unwrap();
    let body1 = arena.allocate(ASTNode::Int(body_val)).unwrap();
    let arm1 = arena
        .allocate(ASTNode::MatchArm { pattern: Pattern::Literal(literal_val), body: body1 })
        .unwrap();
    let body2 = arena.allocate(ASTNode::Int(default_val)).unwrap();
    let arm2 = arena.allocate(ASTNode::MatchArm { pattern: Pattern::Wildcard, body: body2 }).unwrap();
    let arms_tail = arena.allocate(ASTNode::List { head: arm2, tail: NodeID::invalid() }).unwrap();
    let arms = arena.allocate(ASTNode::List { head: arm1, tail: arms_tail }).unwrap();
    arena.allocate(ASTNode::Match { scrutinee, arms }).unwrap()
}

#[test]
fn test_match_int_literal() {
    let mut arena = Arena::new(100);
    let mut st = StringTable::new();
    let bindings: Vec<(String, Value)> = Vec::new();
    let m = build_match_with_literal_and_wildcard(&mut arena, &mut st, 5, 5, 1, 0);
    let result = eval_match(m, &arena, &st, &bindings).unwrap();
    assert_eq!(result, Value::Int(1));
}

#[test]
fn test_match_wildcard() {
    let mut arena = Arena::new(100);
    let mut st = StringTable::new();
    let bindings: Vec<(String, Value)> = Vec::new();
    let m = build_match_with_literal_and_wildcard(&mut arena, &mut st, 99, 5, 1, 42);
    let result = eval_match(m, &arena, &st, &bindings).unwrap();
    assert_eq!(result, Value::Int(42));
}

#[test]
fn test_match_binding() {
    let mut arena = Arena::new(100);
    let mut st = StringTable::new();
    let bindings: Vec<(String, Value)> = Vec::new();
    let scrutinee = arena.allocate(ASTNode::Int(7)).unwrap();
    let s_idx = st.intern("س");
    let binding_id = arena.allocate(ASTNode::Ident(s_idx)).unwrap();
    let one = arena.allocate(ASTNode::Int(1)).unwrap();
    let body = arena.allocate(ASTNode::BinOp { op: OP_ADD, left: binding_id, right: one }).unwrap();
    let arm = arena.allocate(ASTNode::MatchArm { pattern: Pattern::Binding(s_idx), body }).unwrap();
    let arms = arena.allocate(ASTNode::List { head: arm, tail: NodeID::invalid() }).unwrap();
    let m = arena.allocate(ASTNode::Match { scrutinee, arms }).unwrap();
    let result = eval_match(m, &arena, &st, &bindings).unwrap();
    assert_eq!(result, Value::Int(8));
}

#[test]
fn test_match_multi_arm_fallthrough() {
    let mut arena = Arena::new(100);
    let st = StringTable::new();
    let bindings: Vec<(String, Value)> = Vec::new();
    let scrutinee = arena.allocate(ASTNode::Int(3)).unwrap();
    let _lit1_node = arena.allocate(ASTNode::Int(1)).unwrap();
    let body1 = arena.allocate(ASTNode::Int(10)).unwrap();
    let arm1 = arena.allocate(ASTNode::MatchArm { pattern: Pattern::Literal(1), body: body1 }).unwrap();
    let _lit2_node = arena.allocate(ASTNode::Int(2)).unwrap();
    let body2 = arena.allocate(ASTNode::Int(20)).unwrap();
    let arm2 = arena.allocate(ASTNode::MatchArm { pattern: Pattern::Literal(2), body: body2 }).unwrap();
    let body3 = arena.allocate(ASTNode::Int(30)).unwrap();
    let arm3 = arena.allocate(ASTNode::MatchArm { pattern: Pattern::Wildcard, body: body3 }).unwrap();
    let tail3 = arena.allocate(ASTNode::List { head: arm3, tail: NodeID::invalid() }).unwrap();
    let tail2 = arena.allocate(ASTNode::List { head: arm2, tail: tail3 }).unwrap();
    let arms = arena.allocate(ASTNode::List { head: arm1, tail: tail2 }).unwrap();
    let m = arena.allocate(ASTNode::Match { scrutinee, arms }).unwrap();
    let result = eval_match(m, &arena, &st, &bindings).unwrap();
    assert_eq!(result, Value::Int(30));
}

#[test]
fn test_match_no_match_error() {
    let mut arena = Arena::new(100);
    let st = StringTable::new();
    let bindings: Vec<(String, Value)> = Vec::new();
    let scrutinee = arena.allocate(ASTNode::Int(5)).unwrap();
    let _lit_node = arena.allocate(ASTNode::Int(6)).unwrap();
    let body = arena.allocate(ASTNode::Int(1)).unwrap();
    let arm = arena.allocate(ASTNode::MatchArm { pattern: Pattern::Literal(6), body }).unwrap();
    let arms = arena.allocate(ASTNode::List { head: arm, tail: NodeID::invalid() }).unwrap();
    let m = arena.allocate(ASTNode::Match { scrutinee, arms }).unwrap();
    let result = eval_match(m, &arena, &st, &bindings);
    assert!(result.is_err());
    assert!(matches!(result.unwrap_err(), MatchError::NoMatch { .. }));
}

#[test]
fn no_match_shows_the_value_as_debug_does() {
    let mut arena = Arena::new(100);
    let mut st = StringTable::new();
    let bindings: Vec<(String, Value)> = Vec::new();
    let idx = st.intern("a\"b");
    let scrutinee = arena.allocate(ASTNode::Str(idx)).unwrap();
    let body = arena.allocate(ASTNode::Int(1)).unwrap();
    let arm = arena.allocate(ASTNode::MatchArm { pattern: Pattern::Literal(6), body }).unwrap();
    let arms = arena.allocate(ASTNode::List { head: arm, tail: NodeID::invalid() }).unwrap();
    let m = arena.allocate(ASTNode::Match { scrutinee, arms }).unwrap();
    let err = eval_match(m, &arena, &st, &bindings).unwrap_err();
    assert_eq!(err, MatchError::NoMatch { value: "Text(\"a\\\"b\")".to_string() });
    assert_eq!(err.message(), "خطأ مطابقة: لا يوجد نمط يطابق القيمة 'Text(\"a\\\"b\")'");

    let mut arena = Arena::new(100);
    let scrutinee = arena.allocate(ASTNode::Int(-12)).unwrap();
    let body = arena.allocate(ASTNode::Int(1)).unwrap();
    let arm = arena.allocate(ASTNode::MatchArm { pattern: Pattern::Literal(6), body }).unwrap();
    let arms = arena.allocate(ASTNode::List { head: arm, tail: NodeID::invalid() }).unwrap();
    let m = arena.allocate(ASTNode::Match { scrutinee, arms }).unwrap();
    let err = eval_match(m, &arena, &st, &bindings).unwrap_err();
    assert_eq!(err, MatchError::NoMatch { value: "Int(-12)".to_string() });
}

#[test]
fn match_on_bad_nodes_is_invalid_pattern() {
    let mut arena = Arena::new(10);
    let st = StringTable::new();
    let bindings: Vec<(String, Value)> = Vec::new();
    let n = arena.allocate(ASTNode::Int(3)).unwrap();
    assert_eq!(
        eval_match(n, &arena, &st, &bindings).unwrap_err(),
        MatchError::InvalidPattern { reason: "not a Match node".to_string() }
    );
    let err = eval_match(NodeID(7), &arena, &st, &bindings).unwrap_err();
    assert_eq!(err, MatchError::InvalidPattern { reason: "invalid match node".to_string() });
    assert_eq!(err.message(), "خطأ مطابقة: نمط غير صالح — invalid match node");
}

#[test]
fn outer_bindings_are_seen_and_shadowed() {
    let mut arena = Arena::new(100);
    let mut st = StringTable::new();
    let x = st.intern("x");
    let y = st.intern("y");
    let bindings: Vec<(String, Value)> = vec![("x".to_string(), Value::Int(100)), ("y".to_string(), Value::Int(5))];
    let scrutinee = arena.allocate(ASTNode::Int(7)).unwrap();
    let xr = arena.allocate(ASTNode::Ident(x)).unwrap();
    let yr = arena.allocate(ASTNode::Ident(y)).unwrap();
    let body = arena.allocate(ASTNode::BinOp { op: OP_MUL, left: xr, right: yr }).unwrap();
    let arm = arena.allocate(ASTNode::MatchArm { pattern: Pattern::Binding(x), body }).unwrap();
    let arms = arena.allocate(ASTNode::List { head: arm, tail: NodeID::invalid() }).unwrap();
    let m = arena.allocate(ASTNode::Match { scrutinee, arms }).unwrap();
    assert_eq!(eval_match(m, &arena, &st, &bindings).unwrap(), Value::Int(35));
}

#[test]
fn eval_node_values() {
    let mut arena = Arena::new(100);
    let mut st = StringTable::new();
    let s = st.intern("نص");
    let bindings: Vec<(String, Value)> = Vec::new();
    let a = arena.allocate(ASTNode::Int(4)).unwrap();
    let b = arena.allocate(ASTNode::Int(4)).unwrap();
    let eq = arena.allocate(ASTNode::BinOp { op: OP_EQ, left: a, right: b }).unwrap();
    let t = arena.allocate(ASTNode::Str(s)).unwrap();
    let missing = arena.allocate(ASTNode::Str(99)).unwrap();
    let unbound = arena.allocate(ASTNode::Ident(s)).unwrap();
    let flag = arena.allocate(ASTNode::BoolLit(true)).unwrap();
    assert_eq!(eval_node(eq, &arena, &st, &bindings), Value::Bool(true));
    assert_eq!(eval_node(t, &arena, &st, &bindings), Value::Text("نص".to_string()));
    assert_eq!(eval_node(missing, &arena, &st, &bindings), Value::Text(String::new()));
    assert_eq!(eval_node(unbound, &arena, &st, &bindings), Value::Unknown);
    assert_eq!(eval_node(flag, &arena, &st, &bindings), Value::Bool(true));
    assert_eq!(eval_node(NodeID(50), &arena, &st, &bindings), Value::Unknown);
}

#[test]
fn match_pattern_cases() {
    let arena = Arena::new(4);
    let mut st = StringTable::new();
    let n = st.intern("n");
    assert_eq!(match_pattern(&Pattern::Wildcard, &Value::Bool(false), &arena, &st), Some(vec![]));
    assert_eq!(match_pattern(&Pattern::Literal(3), &Value::Int(3), &arena, &st), Some(vec![]));
    assert_eq!(match_pattern(&Pattern::Literal(3), &Value::Int(4), &arena, &st), None);
    assert_eq!(match_pattern(&Pattern::Literal(3), &Value::Text("3".to_string()), &arena, &st), None);
    assert_eq!(
        match_pattern(&Pattern::Binding(n), &Value::Int(9), &arena, &st),
        Some(vec![("n".to_string(), Value::Int(9))])
    );
    assert_eq!(match_pattern(&Pattern::Binding(40), &Value::Int(9), &arena, &st), None);
}
