use mal::arena::{ASTNode, Arena, NodeID, OP_ASSIGN, OP_ADD};
use mal::ownership::{check_ownership, get_used_vars, OwnershipError, StringTable};

fn make_move_program(
    arena: &mut Arena,
    string_table: &mut StringTable,
    source_var: &str,
    target_var: &str,
) -> Vec<NodeID> {
    let source_idx = string_table.intern(source_var);
    let target_idx = string_table.intern(target_var);
    let source = arena.allocate(ASTNode::Ident(source_idx)).unwrap();
    let target = arena.allocate(ASTNode::Ident(target_idx)).unwrap();
    let body = arena.allocate(ASTNode::Int(0)).unwrap();
    let linear_let = arena
        .allocate(ASTNode::LinearLet { name: target, value: source, body })
        .unwrap();
    vec![linear_let]
}

fn move_then_call(arena: &mut Arena, string_table: &mut StringTable) -> Vec<NodeID> {
    let a_idx = string_table.intern("أ");
    let b_idx = string_table.intern("ب");
    let a1 = arena.allocate(ASTNode::Ident(a_idx)).unwrap();
    let b1 = arena.allocate(ASTNode::Ident(b_idx)).unwrap();
    let body1 = arena.allocate(ASTNode::Int(0)).unwrap();
    let stmt1 = arena
        .allocate(ASTNode::LinearLet { name: b1, value: a1, body: body1 })
        .unwrap();
    let a2 = arena.allocate(ASTNode::Ident(a_idx)).unwrap();
    let stmt2 = arena
        .allocate(ASTNode::Call { func: a2, args: NodeID::invalid() })
        .unwrap();
    vec![stmt1, stmt2]
}

#[test]
fn test_move_valid() {
    let mut arena = Arena::new(100);
    let mut string_table = StringTable::new();
    let stmts = make_move_program(&mut arena, &mut string_table, "أ", "ب");
    assert!(check_ownership(&stmts, &arena, &string_table).is_ok());
}

#[test]
fn test_reassign_after_move() {
    let mut arena = Arena::new(100);
    let mut string_table = StringTable::new();
    let a_idx = string_table.intern("أ");
    let b_idx = string_table.intern("ب");
    let a1 = arena.allocate(ASTNode::Ident(a_idx)).unwrap();
    let b1 = arena.allocate(ASTNode::Ident(b_idx)).unwrap();
    let body1 = arena.allocate(ASTNode::Int(0)).unwrap();
    let stmt1 = arena
        .allocate(ASTNode::LinearLet { name: b1, value: a1, body: body1 })
        .unwrap();
    let a2 = arena.allocate(ASTNode::Ident(a_idx)).unwrap();
    let list2 = arena
        .allocate(ASTNode::SetLiteral { elems: NodeID::invalid() })
        .unwrap();
    let stmt2 = arena
        .allocate(ASTNode::BinOp { op: OP_ASSIGN, left: a2, right: list2 })
        .unwrap();
    let stmts = vec![stmt1, stmt2];
    assert!(check_ownership(&stmts, &arena, &string_table).is_ok());
}

#[test]
fn test_use_after_move() {
    let mut arena = Arena::new(100);
    let mut string_table = StringTable::new();
    let stmts = move_then_call(&mut arena, &mut string_table);
    let result = check_ownership(&stmts, &arena, &string_table);
    assert!(result.is_err());
    assert!(matches!(result.unwrap_err(), OwnershipError::UsedAfterMove { var, .. } if var == "أ"));
}

#[test]
fn test_double_move() {
    let mut arena = Arena::new(100);
    let mut string_table = StringTable::new();
    let a_idx = string_table.intern("أ");
    let b_idx = string_table.intern("ب");
    let c_idx = string_table.intern("ج");
    let a1 = arena.allocate(ASTNode::Ident(a_idx)).unwrap();
    let b1 = arena.allocate(ASTNode::Ident(b_idx)).unwrap();
    let body1 = arena.allocate(ASTNode::Int(0)).unwrap();
    let stmt1 = arena
        .allocate(ASTNode::LinearLet { name: b1, value: a1, body: body1 })
        .unwrap();
    let a2 = arena.allocate(ASTNode::Ident(a_idx)).unwrap();
    let c2 = arena.allocate(ASTNode::Ident(c_idx)).unwrap();
    let body2 = arena.allocate(ASTNode::Int(0)).unwrap();
    let stmt2 = arena
        .allocate(ASTNode::LinearLet { name: c2, value: a2, body: body2 })
        .unwrap();
    let stmts = vec![stmt1, stmt2];
    let result = check_ownership(&stmts, &arena, &string_table);
    assert!(result.is_err());
    assert!(matches!(result.unwrap_err(), OwnershipError::DoubleMove { var, .. } if var == "أ"));
}

#[test]
fn test_error_is_typed_enum() {
    let mut arena = Arena::new(100);
    let mut string_table = StringTable::new();
    let stmts = move_then_call(&mut arena, &mut string_table);
    let result = check_ownership(&stmts, &arena, &string_table);
    assert!(result.is_err());
    let err = result.unwrap_err();
    match err {
        OwnershipError::UsedAfterMove { var, span: _ } => {
            assert_eq!(var, "أ");
        }
        _ => panic!("Expected UsedAfterMove error"),
    }
}

#[test]
fn interning_and_lookup() {
    let mut t = StringTable::default();
    assert_eq!(t.intern("x"), 0);
    assert_eq!(t.intern("y"), 1);
    assert_eq!(t.intern("x"), 0);
    assert_eq!(t.get(1), Some("y"));
    assert_eq!(t.get(2), None);
}

#[test]
fn lambda_parameters_are_not_free() {
    let mut arena = Arena::new(100);
    let mut t = StringTable::new();
    let x = t.intern("x");
    let y = t.intern("y");
    let px = arena.allocate(ASTNode::Ident(x)).unwrap();
    let bx = arena.allocate(ASTNode::Ident(x)).unwrap();
    let by = arena.allocate(ASTNode::Ident(y)).unwrap();
    let sum = arena
        .allocate(ASTNode::BinOp { op: OP_ADD, left: bx, right: by })
        .unwrap();
    let lam = arena.allocate(ASTNode::Lambda { params: px, body: sum }).unwrap();
    let used = get_used_vars(lam, &arena, &t);
    assert_eq!(used.len(), 1);
    assert!(used.contains("y"));
    assert!(!used.contains("x"));
    let all = get_used_vars(sum, &arena, &t);
    assert_eq!(all.len(), 2);
}

#[test]
fn messages_name_the_variable() {
    let e = OwnershipError::DoubleMove { var: "س".to_string(), span: None };
    assert!(e.message().contains("'س'"));
    let u = OwnershipError::UndefinedVariable { var: "ع".to_string(), span: None };
    assert_eq!(u.message(), "خطأ: المتغير 'ع' غير معرف");
}

#[test]
fn ownership_follows_forward_references() {
    // let ب = أ ... ; let ج = أ  — the second statement moves أ again. The
    // statements are allocated before the identifiers they refer to.
    let mut arena = Arena::new(20);
    let mut st = StringTable::new();
    let a_idx = st.intern("أ");
    let b_idx = st.intern("ب");
    let c_idx = st.intern("ج");
    let stmt1 = arena.allocate(ASTNode::LinearLet { name: NodeID(2), value: NodeID(3), body: NodeID::invalid() }).unwrap();
    let stmt2 = arena.allocate(ASTNode::LinearLet { name: NodeID(4), value: NodeID(5), body: NodeID::invalid() }).unwrap();
    arena.allocate(ASTNode::Ident(b_idx)).unwrap();
    arena.allocate(ASTNode::Ident(a_idx)).unwrap();
    arena.allocate(ASTNode::Ident(c_idx)).unwrap();
    arena.allocate(ASTNode::Ident(a_idx)).unwrap();
    assert!(arena.is_acyclic());
    let r = check_ownership(&[stmt1, stmt2], &arena, &st);
    assert!(matches!(r, Err(OwnershipError::DoubleMove { .. })));
    assert!(check_ownership(&[stmt1], &arena, &st).is_ok());
}
