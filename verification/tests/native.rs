use mal::native::{generate_assembly, is_builtin, CompileError, ASM_EXIT, ASM_HEADER, ASM_START, HELPER_ROUTINES};
use mal::nir::ir::{BasicBlock, BlockID, NIRFunction, NIRInstruction, NIROp, NIRUnOp, NIRValue, ValueID};

fn function_with(values: Vec<NIRValue>, blocks: Vec<Vec<NIRInstruction>>) -> NIRFunction {
    let mut f = NIRFunction::new("test".to_string());
    f.values = values;
    f.next_value_id = f.values.len() as u32;
    for (i, instructions) in blocks.into_iter().enumerate() {
        f.blocks.push(BasicBlock { id: BlockID(i as u32), instructions, predecessors: vec![], successors: vec![] });
    }
    f.entry_block = BlockID(0);
    f
}

fn make_binop(op: NIROp, a: i64, b: i64) -> NIRFunction {
    let v1 = ValueID(1);
    let v2 = ValueID(2);
    let v3 = ValueID(3);
    function_with(
        vec![NIRValue::Undef, NIRValue::IntConst(a), NIRValue::IntConst(b)],
        vec![vec![
            NIRInstruction::BinOp { op, lhs: v1, rhs: v2, result: v3 },
            NIRInstruction::Return { value: Some(v3) },
        ]],
    )
}

#[test]
fn addition_program_text() {
    let text = generate_assembly(&make_binop(NIROp::Add, 5, 3)).unwrap();
    let body = "    mov rax, 5\n    mov rbx, 3\n    add rax, rbx\n    ; store_result: vid=3 -> slot=0, rax\n    mov [vars + 0], rax\n    mov rdi, [vars + 0]\n    mov rdi, [vars + 0]\n    mov rax, 60\n    syscall\n";
    let expected = format!("{}{}{}{}{}", ASM_HEADER, HELPER_ROUTINES, ASM_START, body, ASM_EXIT);
    assert_eq!(text, expected);
}

#[test]
fn operators_select_instructions() {
    assert!(generate_assembly(&make_binop(NIROp::Mod, 17, 5)).unwrap().contains("    xor rdx, rdx\n    div rbx\n    mov rax, rdx\n"));
    assert!(generate_assembly(&make_binop(NIROp::Shl, 1, 4)).unwrap().contains("    mov rcx, rbx\n    shl rax, cl\n"));
    assert!(generate_assembly(&make_binop(NIROp::Ge, 1, 4)).unwrap().contains("    setge al\n"));
}

#[test]
fn wide_constants_use_qword() {
    let text = generate_assembly(&make_binop(NIROp::Add, 5_000_000_000, -10)).unwrap();
    assert!(text.contains("    mov rax, qword 5000000000\n"));
    assert!(text.contains("    mov rbx, -10\n"));
}

#[test]
fn unary_and_branches() {
    let f = function_with(
        vec![NIRValue::Undef, NIRValue::IntConst(42), NIRValue::Undef, NIRValue::IntConst(1), NIRValue::IntConst(0)],
        vec![
            vec![
                NIRInstruction::UnOp { op: NIRUnOp::Neg, operand: ValueID(1), result: ValueID(2) },
                NIRInstruction::CondBranch { cond: ValueID(2), then_bb: BlockID(1), else_bb: BlockID(2) },
            ],
            vec![NIRInstruction::Return { value: Some(ValueID(3)) }],
            vec![NIRInstruction::Return { value: Some(ValueID(4)) }],
        ],
    );
    let text = generate_assembly(&f).unwrap();
    assert!(text.contains("    mov rax, 42\n    neg rax\n"));
    assert!(text.contains("    test rax, rax\n    jnz .bb_1\n    jmp .bb_2\n"));
    assert!(text.contains(".bb_1:\n    mov rdi, 1\n    mov rdi, 1\n    mov rax, 60\n    syscall\n"));
    assert!(text.contains(".bb_2:\n"));
}

#[test]
fn builtin_calls() {
    let f = function_with(
        vec![NIRValue::Undef, NIRValue::IntConst(144), NIRValue::IntConst(100)],
        vec![vec![
            NIRInstruction::Call { callee: ValueID(2), args: vec![ValueID(1)], result: ValueID(3) },
            NIRInstruction::Return { value: Some(ValueID(3)) },
        ]],
    );
    let text = generate_assembly(&f).unwrap();
    assert!(text.contains("    mov rax, 144\n    call sqrt_fixed\n"));
}

#[test]
fn builtin_with_wrong_arity_is_unsupported() {
    let f = function_with(
        vec![NIRValue::Undef, NIRValue::IntConst(2), NIRValue::IntConst(103)],
        vec![vec![NIRInstruction::Call { callee: ValueID(2), args: vec![ValueID(1)], result: ValueID(3) }]],
    );
    match generate_assembly(&f) {
        Err(CompileError::Unsupported(m)) => assert_eq!(m, "power needs 2 args"),
        _ => panic!("expected an unsupported call"),
    }
}

#[test]
fn labels_are_numbered() {
    let f = function_with(
        vec![NIRValue::Undef, NIRValue::IntConst(7), NIRValue::IntConst(115)],
        vec![vec![
            NIRInstruction::Call { callee: ValueID(2), args: vec![ValueID(1)], result: ValueID(3) },
            NIRInstruction::Call { callee: ValueID(2), args: vec![ValueID(1)], result: ValueID(4) },
        ]],
    );
    let text = generate_assembly(&f).unwrap();
    assert!(text.contains("    jz .hemp_0\n"));
    assert!(text.contains(".hdne_1:\n"));
    assert!(text.contains("    jz .hemp_1\n"));
    assert!(text.contains(".hdne_2:\n"));
}

#[test]
fn indirect_calls_pass_arguments() {
    let f = function_with(
        vec![NIRValue::Undef, NIRValue::IntConst(9), NIRValue::Undef],
        vec![vec![NIRInstruction::Call { callee: ValueID(2), args: vec![ValueID(1), ValueID(1)], result: ValueID(3) }]],
    );
    let text = generate_assembly(&f).unwrap();
    assert!(text.contains("    mov rdi, 9\n    mov rsi, 9\n    xor r10, r10\n    push r15\n"));
}

#[test]
fn builtin_names() {
    assert!(is_builtin("sqrt"));
    assert!(is_builtin("stdin_read"));
    assert!(!is_builtin("min"));
}
