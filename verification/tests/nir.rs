use mal::arena::{ASTNode, Arena, NodeID, OP_ADD, OP_ASSIGN, OP_LT, OP_MUL, OP_SUB};
use mal::nir::types::{Type, TypeChecker, TypeEnv};
use mal::nir::ir::{NIRFunction, NIRInstruction, NIROp, NIRValue, ValueID};
use mal::nir::lowering::{
    emit_field_access, emit_trait_method_call, lower_ast_to_nir, lower_ast_to_nir_with_source, lower_exists_check,
    lower_forall_body, lower_record_field_count, narrow_type_by_condition,
};
use mal::parser::parse;

#[test]
fn module_compiles() {
    let f = NIRFunction::new("t".to_string());
    assert_eq!(f.name, "t");
}

#[test]
fn lowering_an_integer_returns_it() {
    let mut arena = Arena::new(10);
    let root = arena.allocate(ASTNode::Int(42)).unwrap();
    let f = lower_ast_to_nir(&arena, root);
    assert_eq!(f.name, "main");
    assert_eq!(f.blocks.len(), 1);
    assert_eq!(f.values, vec![NIRValue::IntConst(42)]);
    assert_eq!(f.blocks[0].instructions.len(), 1);
    assert!(matches!(f.blocks[0].instructions[0], NIRInstruction::Return { value: Some(ValueID(0)) }));
    assert!(f.verify_ssa());
}

#[test]
fn lowering_arithmetic() {
    // (2 + 3) · 4
    let mut arena = Arena::new(10);
    let two = arena.allocate(ASTNode::Int(2)).unwrap();
    let three = arena.allocate(ASTNode::Int(3)).unwrap();
    let sum = arena.allocate(ASTNode::BinOp { op: OP_ADD, left: two, right: three }).unwrap();
    let four = arena.allocate(ASTNode::Int(4)).unwrap();
    let prod = arena.allocate(ASTNode::BinOp { op: OP_MUL, left: sum, right: four }).unwrap();
    let f = lower_ast_to_nir(&arena, prod);
    assert_eq!(f.values.len(), 5);
    assert_eq!(f.values[0], NIRValue::IntConst(2));
    assert_eq!(f.values[1], NIRValue::IntConst(3));
    assert_eq!(f.values[2], NIRValue::Undef);
    assert_eq!(f.values[3], NIRValue::IntConst(4));
    let is = &f.blocks[0].instructions;
    assert_eq!(is.len(), 3);
    assert!(matches!(is[0], NIRInstruction::BinOp { op: NIROp::Add, lhs: ValueID(0), rhs: ValueID(1), result: ValueID(2) }));
    assert!(matches!(is[1], NIRInstruction::BinOp { op: NIROp::Mul, lhs: ValueID(2), rhs: ValueID(3), result: ValueID(4) }));
    assert!(matches!(is[2], NIRInstruction::Return { value: Some(ValueID(4)) }));
    assert!(f.verify_ssa());
    assert_eq!(f.instruction_count(), 3);
}

#[test]
fn shared_nodes_are_lowered_once() {
    let mut arena = Arena::new(10);
    let one = arena.allocate(ASTNode::Int(1)).unwrap();
    let double = arena.allocate(ASTNode::BinOp { op: OP_ADD, left: one, right: one }).unwrap();
    let f = lower_ast_to_nir(&arena, double);
    assert_eq!(f.values.len(), 2);
    assert!(matches!(f.blocks[0].instructions[0], NIRInstruction::BinOp { lhs: ValueID(0), rhs: ValueID(0), .. }));
}

#[test]
fn empty_tree_returns_zero() {
    let mut arena = Arena::new(10);
    let root = arena.allocate(ASTNode::Empty).unwrap();
    let f = lower_ast_to_nir(&arena, root);
    assert_eq!(f.values, vec![NIRValue::IntConst(0)]);
    assert!(matches!(f.blocks[0].instructions[0], NIRInstruction::Return { value: Some(ValueID(0)) }));
}

#[test]
fn invalid_root_returns_zero() {
    let arena = Arena::new(10);
    let f = lower_ast_to_nir(&arena, NodeID::invalid());
    assert_eq!(f.values, vec![NIRValue::IntConst(0)]);
}

#[test]
fn variables_are_named_by_source_text() {
    // x = 5 ; x + x
    let source = "x";
    let mut arena = Arena::new(10);
    let x1 = arena.allocate(ASTNode::Ident(0)).unwrap();
    let five = arena.allocate(ASTNode::Int(5)).unwrap();
    let assign = arena.allocate(ASTNode::BinOp { op: OP_ASSIGN, left: x1, right: five }).unwrap();
    let x2 = arena.allocate(ASTNode::Ident(0)).unwrap();
    let x3 = arena.allocate(ASTNode::Ident(0)).unwrap();
    let sum = arena.allocate(ASTNode::BinOp { op: OP_ADD, left: x2, right: x3 }).unwrap();
    let tail = arena.allocate(ASTNode::List { head: sum, tail: NodeID::invalid() }).unwrap();
    let prog = arena.allocate(ASTNode::List { head: assign, tail }).unwrap();
    let f = lower_ast_to_nir_with_source(&arena, prog, source);
    assert_eq!(f.values, vec![NIRValue::IntConst(5), NIRValue::Undef]);
    let is = &f.blocks[0].instructions;
    assert!(matches!(is[0], NIRInstruction::BinOp { op: NIROp::Add, lhs: ValueID(0), rhs: ValueID(0), result: ValueID(1) }));
    assert!(matches!(is[1], NIRInstruction::Return { value: Some(ValueID(1)) }));
}

#[test]
fn builtin_calls_by_name() {
    // abs(7)
    let source = "abs";
    let mut arena = Arena::new(10);
    let callee = arena.allocate(ASTNode::Ident(0)).unwrap();
    let seven = arena.allocate(ASTNode::Int(7)).unwrap();
    let args = arena.allocate(ASTNode::List { head: seven, tail: NodeID::invalid() }).unwrap();
    let call = arena.allocate(ASTNode::Call { func: callee, args }).unwrap();
    let f = lower_ast_to_nir_with_source(&arena, call, source);
    assert_eq!(f.values, vec![NIRValue::IntConst(7), NIRValue::IntConst(101), NIRValue::Undef]);
    match &f.blocks[0].instructions[0] {
        NIRInstruction::Call { callee, args, result } => {
            assert_eq!(*callee, ValueID(1));
            assert_eq!(args, &vec![ValueID(0)]);
            assert_eq!(*result, ValueID(2));
        },
        _ => panic!("expected a call"),
    }
    // Without the source text the name is unknown and nothing is called.
    let g = lower_ast_to_nir(&arena, call);
    assert_eq!(g.values[g.values.len() - 1], NIRValue::IntConst(7));
}

#[test]
fn arabic_builtin_names() {
    let source = "مطلق";
    let mut arena = Arena::new(10);
    let callee = arena.allocate(ASTNode::Ident(0)).unwrap();
    let seven = arena.allocate(ASTNode::Int(7)).unwrap();
    let call = arena.allocate(ASTNode::Call { func: callee, args: seven }).unwrap();
    let f = lower_ast_to_nir_with_source(&arena, call, source);
    assert_eq!(f.values, vec![NIRValue::IntConst(7), NIRValue::IntConst(101), NIRValue::Undef]);
}

#[test]
fn parsed_program_lowers_to_ssa() {
    let mut arena = Arena::new(100);
    let root = parse("1 + 2 · 3", &mut arena).unwrap();
    let f = lower_ast_to_nir(&arena, root);
    assert!(f.verify_ssa());
    assert_eq!(f.blocks[0].instructions.len(), 3);
}

#[test]
fn assembly_text_helpers() {
    assert_eq!(emit_trait_method_call("Show", "show", "rax", "rbx"), "    ; trait dispatch: Show.show\n    mov rbx, rax\n");
    assert_eq!(narrow_type_by_condition("x", "is_number"), "Int64");
    assert_eq!(narrow_type_by_condition("x", "is_string"), "String");
    assert_eq!(narrow_type_by_condition("x", "is_bool"), "Bool");
    assert_eq!(narrow_type_by_condition("x", "other"), "Unknown");
    assert_eq!(lower_record_field_count(3), "    ; record with 3 fields\n");
    assert_eq!(lower_record_field_count(0), "    ; record with 0 fields\n");
    assert_eq!(emit_field_access("rdi", 2, "rax"), "    mov rax, [rdi + 16]\n");
    assert_eq!(lower_forall_body("i", 120), "    ; forall i in [0..120) {\n");
    assert_eq!(lower_exists_check("rax"), "    ; exists check: result = rax\n");
}

#[test]
fn type_environment() {
    let mut env = TypeEnv::new();
    assert!(matches!(env.fresh_var(), Type::Var(ref n) if n == "t0"));
    assert!(matches!(env.fresh_var(), Type::Var(ref n) if n == "t1"));
    assert!(env.lookup("x").is_none());
    env.bind("x".to_string(), Type::Bool);
    env.bind("x".to_string(), Type::Int(32));
    assert!(matches!(env.lookup("x"), Some(Type::Int(32))));
}

#[test]
fn type_inference() {
    let mut arena = Arena::new(20);
    let one = arena.allocate(ASTNode::Int(1)).unwrap();
    let two = arena.allocate(ASTNode::Int(2)).unwrap();
    let diff = arena.allocate(ASTNode::BinOp { op: OP_SUB, left: one, right: two }).unwrap();
    let x = arena.allocate(ASTNode::Ident(4)).unwrap();
    let y = arena.allocate(ASTNode::Ident(7)).unwrap();
    let x_again = arena.allocate(ASTNode::Ident(4)).unwrap();
    let less = arena.allocate(ASTNode::BinOp { op: OP_LT, left: x, right: one }).unwrap();
    let mixed = arena.allocate(ASTNode::BinOp { op: OP_ADD, left: x, right: one }).unwrap();
    let t = arena.allocate(ASTNode::BoolLit(true)).unwrap();
    let mut tc = TypeChecker::new(&arena);
    assert!(matches!(tc.infer(diff), Type::Int(64)));
    assert!(matches!(tc.infer(x), Type::Var(ref n) if n == "t0"));
    assert!(matches!(tc.infer(y), Type::Var(ref n) if n == "t1"));
    assert!(matches!(tc.infer(x_again), Type::Var(ref n) if n == "t0"));
    assert!(matches!(tc.infer(less), Type::Bool));
    assert!(matches!(tc.infer(mixed), Type::Unknown));
    assert!(matches!(tc.infer(t), Type::Bool));
    assert!(matches!(tc.infer(NodeID::invalid()), Type::Unknown));
    assert!(Type::Int(8).is_numeric() && !Type::Bool.is_numeric());
    assert!(Type::Unknown.is_compatible(&Type::Bool));
    assert!(!Type::Int(8).is_compatible(&Type::Int(16)));
}

#[test]
fn lowering_follows_forward_references() {
    // 2 + 3 with the sum allocated before its operands.
    let mut arena = Arena::new(10);
    let sum = arena.allocate(ASTNode::BinOp { op: OP_ADD, left: NodeID(1), right: NodeID(2) }).unwrap();
    arena.allocate(ASTNode::Int(2)).unwrap();
    arena.allocate(ASTNode::Int(3)).unwrap();
    assert!(arena.is_acyclic());
    let f = lower_ast_to_nir(&arena, sum);
    assert_eq!(f.values.len(), 3);
    assert_eq!(f.values[0], NIRValue::IntConst(2));
    assert_eq!(f.values[1], NIRValue::IntConst(3));
    assert!(f.verify_ssa());
}
