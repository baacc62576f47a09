use mal::arena::{ASTNode, Arena, NodeID, TypeTag};
use mal::parser::{parse, Parser, ParserError};


#[test]
fn test_parse_number() {
    let mut arena = Arena::new(100);
    let root = parse("42", &mut arena).unwrap();
    assert!(matches!(arena.get(root).unwrap(), ASTNode::Int(42)));
}

#[test]
fn test_parse_binary_add() {
    let mut arena = Arena::new(100);
    let root = parse("1 + 2", &mut arena).unwrap();
    if let ASTNode::BinOp { op, left, right } = arena.get(root).unwrap() {
        assert_eq!(*op, 0); // +
        assert!(matches!(arena.get(*left).unwrap(), ASTNode::Int(1)));
        assert!(matches!(arena.get(*right).unwrap(), ASTNode::Int(2)));
    } else {
        panic!("expected BinOp");
    }
}

#[test]
fn test_parse_binary_mul() {
    let mut arena = Arena::new(100);
    let root = parse("3 · 4", &mut arena).unwrap();
    if let ASTNode::BinOp { op, left, right } = arena.get(root).unwrap() {
        assert_eq!(*op, 2); // ·
        assert!(matches!(arena.get(*left).unwrap(), ASTNode::Int(3)));
        assert!(matches!(arena.get(*right).unwrap(), ASTNode::Int(4)));
    } else {
        panic!("expected BinOp");
    }
}

#[test]
fn test_parse_precedence() {
    let mut arena = Arena::new(100);
    let root = parse("1 + 2 · 3", &mut arena).unwrap();
    // Should parse as: 1 + (2 · 3)
    if let ASTNode::BinOp { op, left, right } = arena.get(root).unwrap() {
        assert_eq!(*op, 0); // +
        assert!(matches!(arena.get(*left).unwrap(), ASTNode::Int(1)));
        if let ASTNode::BinOp { op: op2, .. } = arena.get(*right).unwrap() {
            assert_eq!(*op2, 2); // ·
        } else {
            panic!("expected BinOp on right");
        }
    } else {
        panic!("expected BinOp");
    }
}

#[test]
fn test_parse_parens() {
    let mut arena = Arena::new(100);
    let root = parse("(1 + 2) · 3", &mut arena).unwrap();
    if let ASTNode::BinOp { op, left, right } = arena.get(root).unwrap() {
        assert_eq!(*op, 2); // ·
        if let ASTNode::BinOp { op: op2, .. } = arena.get(*left).unwrap() {
            assert_eq!(*op2, 0); // +
        } else {
            panic!("expected BinOp on left");
        }
    } else {
        panic!("expected BinOp");
    }
}

#[test]
fn test_parse_assignment() {
    let mut arena = Arena::new(100);
    let root = parse("أ ≔ 5", &mut arena).unwrap();
    if let ASTNode::BinOp { op, .. } = arena.get(root).unwrap() {
        assert_eq!(*op, 10); // assignment
    } else {
        panic!("expected assignment");
    }
}

#[test]
fn test_parse_block() {
    let mut arena = Arena::new(100);
    let root = parse("﴿ 1 ⋄ 2 ﴾", &mut arena).unwrap();
    assert!(matches!(arena.get(root).unwrap(), ASTNode::List { .. }));
}

#[test]
fn test_parse_error_unexpected_eof() {
    let mut arena = Arena::new(100);
    let err = parse("1 +", &mut arena).unwrap_err();
    assert!(matches!(err, ParserError::UnexpectedEof));
}

#[test]
fn test_parse_error_expected_paren() {
    let mut arena = Arena::new(100);
    let err = parse("(1 + 2", &mut arena).unwrap_err();
    assert!(matches!(err, ParserError::Expected { .. }));
}

#[test]
fn test_parse_lambda_simple() {
    let mut arena = Arena::new(100);
    let root = parse("λس. س", &mut arena).unwrap();
    assert!(matches!(arena.get(root).unwrap(), ASTNode::Lambda { .. }));
}

#[test]
fn test_parse_lambda_with_binop() {
    let mut arena = Arena::new(100);
    let root = parse("λس. س · 2", &mut arena).unwrap();
    if let ASTNode::Lambda { body, .. } = arena.get(root).unwrap() {
        assert!(matches!(arena.get(*body).unwrap(), ASTNode::BinOp { .. }));
    } else {
        panic!("expected Lambda");
    }
}

#[test]
fn test_parse_lambda_two_params() {
    let mut arena = Arena::new(100);
    let root = parse("λس ص. س + ص", &mut arena).unwrap();
    if let ASTNode::Lambda { params, .. } = arena.get(root).unwrap() {
        assert!(matches!(arena.get(*params).unwrap(), ASTNode::List { .. }));
    } else {
        panic!("expected Lambda");
    }
}

#[test]
fn test_parse_forall_basic() {
    let mut arena = Arena::new(100);
    let root = parse("∀ س ∈ ص : س", &mut arena).unwrap();
    assert!(matches!(arena.get(root).unwrap(), ASTNode::ForAll { .. }));
}
#[test]
fn test_parse_forall_with_body() {
    let mut arena = Arena::new(100);
    let root = parse("∀ س ∈ ص : س + 1", &mut arena).unwrap();
    if let ASTNode::ForAll { body, .. } = arena.get(root).unwrap() {
        assert!(matches!(arena.get(*body).unwrap(), ASTNode::BinOp { .. }));
    } else {
        panic!("Expected ForAll node");
    }
}
#[test]
fn test_parse_forall_nested() {
    let mut arena = Arena::new(200);
    let root = parse("∀ س ∈ ص : ∀ ع ∈ د : س + ع", &mut arena).unwrap();
    assert!(matches!(arena.get(root).unwrap(), ASTNode::ForAll { .. }));
}
#[test]
fn test_parse_mu_basic() {
    let mut arena = Arena::new(100);
    let root = parse("μ ن . ن", &mut arena).unwrap();
    assert!(matches!(arena.get(root).unwrap(), ASTNode::Mu { .. }));
}
#[test]
fn test_parse_mu_with_body() {
    let mut arena = Arena::new(100);
    let root = parse("μ ن . ن + 1", &mut arena).unwrap();
    if let ASTNode::Mu { body, .. } = arena.get(root).unwrap() {
        assert!(matches!(arena.get(*body).unwrap(), ASTNode::BinOp { .. }));
    } else {
        panic!("Expected Mu node");
    }
}
#[test]
fn test_parse_mu_with_condition() {
    let mut arena = Arena::new(100);
    let root = parse("μ ن . ن · 2", &mut arena).unwrap();
    assert!(matches!(arena.get(root).unwrap(), ASTNode::Mu { .. }));
}
#[test]
fn test_parse_exists_basic() {
    let mut arena = Arena::new(100);
    let root = parse("∃ س ∈ ص : س", &mut arena).unwrap();
    assert!(matches!(arena.get(root).unwrap(), ASTNode::Exists { .. }));
}
#[test]
fn test_parse_exists_with_body() {
    let mut arena = Arena::new(100);
    let root = parse("∃ س ∈ ص : س + 1", &mut arena).unwrap();
    if let ASTNode::Exists { body, .. } = arena.get(root).unwrap() {
        assert!(matches!(arena.get(*body).unwrap(), ASTNode::BinOp { .. }));
    } else {
        panic!("Expected Exists node");
    }
}
#[test]
fn test_parse_set_literal_empty() {
    let mut arena = Arena::new(100);
    let root = parse("⟨⟩", &mut arena).unwrap();
    if let ASTNode::SetLiteral { elems } = arena.get(root).unwrap() {
        assert_eq!(*elems, NodeID::invalid());
    } else {
        panic!("Expected Set node");
    }
}
#[test]
fn test_parse_set_literal_one_elem() {
    let mut arena = Arena::new(100);
    let root = parse("⟨1⟩", &mut arena).unwrap();
    if let ASTNode::SetLiteral { elems } = arena.get(root).unwrap() {
        assert!(!(*elems == NodeID::invalid()));
    } else {
        panic!("Expected Set node");
    }
}
#[test]
fn test_parse_set_literal_multi_elem() {
    let mut arena = Arena::new(100);
    let root = parse("⟨1,2,3⟩", &mut arena).unwrap();
    assert!(matches!(arena.get(root).unwrap(), ASTNode::SetLiteral { .. }));
}
#[test]
fn test_parse_concat_basic() {
    let mut arena = Arena::new(100);
    let root = parse("أ ⊕ ب", &mut arena).unwrap();
    if let ASTNode::BinOp { op, .. } = arena.get(root).unwrap() {
        assert_eq!(*op, 4); // concat op code
    } else {
        panic!("Expected BinOp for concat");
    }
}
#[test]
fn test_parse_concat_with_plus() {
    let mut arena = Arena::new(100);
    let root = parse("أ + ب ⊕ ج", &mut arena).unwrap();
    // Should parse as: (أ + ب) ⊕ ج
    if let ASTNode::BinOp { op, left, .. } = arena.get(root).unwrap() {
        assert_eq!(*op, 4); // outer is concat
        if let ASTNode::BinOp { op: inner_op, .. } = arena.get(*left).unwrap() {
            assert_eq!(*inner_op, 0); // inner is plus
        } else {
            panic!("Expected inner BinOp");
        }
    } else {
        panic!("Expected outer BinOp");
    }
}
#[test]
fn test_parse_read_stdin_basic() {
    let mut arena = Arena::new(100);
    let root = parse("⊙", &mut arena).unwrap();
    if let ASTNode::Call { func, args } = arena.get(root).unwrap() {
        assert_eq!(*func, NodeID::invalid()); // read builtin
        assert_eq!(*args, NodeID::invalid()); // no arguments
    } else {
        panic!("Expected Call for read stdin");
    }
}
#[test]
fn test_parse_read_stdin_in_assignment() {
    let mut arena = Arena::new(100);
    let root = parse("س ≔ ⊙", &mut arena).unwrap();
    // Should parse as assignment with read on right side
    if let ASTNode::BinOp { op, right, .. } = arena.get(root).unwrap() {
        assert_eq!(*op, 10); // assignment marker
        if let ASTNode::Call { func, args } = arena.get(*right).unwrap() {
            assert_eq!(*func, NodeID::invalid());
            assert_eq!(*args, NodeID::invalid());
        } else {
            panic!("Expected Call on right side of assignment");
        }
    } else {
        panic!("Expected BinOp for assignment");
    }
}
#[test]
fn test_parse_read_stdin_with_print() {
    let mut arena = Arena::new(100);
    // This would be two statements: ⊙ then ⎕ ⊙
    // But parse() only handles single expression, so test just ⊙
    let root = parse("⊙", &mut arena).unwrap();
    assert!(matches!(arena.get(root).unwrap(), ASTNode::Call { .. }));
}
#[test]
fn test_parse_concat_chain() {
    let mut arena = Arena::new(100);
    let root = parse("أ ⊕ ب ⊕ ج", &mut arena).unwrap();
    // Should parse as: (أ ⊕ ب) ⊕ ج (left-associative)
    assert!(matches!(arena.get(root).unwrap(), ASTNode::BinOp { .. }));
}
#[test]
fn test_set_type_tag() {
    let node = ASTNode::SetLiteral { elems: NodeID::invalid() };
    assert_eq!(node.type_tag(), TypeTag::SetLiteral);
}
#[test]
fn test_set_membership_api() {
    let mut arena = Arena::new(100);
    let elem = arena.allocate(ASTNode::Int(5)).unwrap();
    let set = arena.allocate(ASTNode::Int(0)).unwrap();
    let _p = Parser::new("test").unwrap();
    // Direct construction test
    let node = ASTNode::SetMembership { elem, set };
    let id = arena.allocate(node).unwrap();
    assert!(matches!(arena.get(id).unwrap(), ASTNode::SetMembership { .. }));
}
#[test]
fn test_linear_let_api() {
    let mut arena = Arena::new(100);
    let name = arena.allocate(ASTNode::Ident(0)).unwrap();
    let value = arena.allocate(ASTNode::Int(42)).unwrap();
    let body = arena.allocate(ASTNode::Ident(0)).unwrap();
    let node = ASTNode::LinearLet { name, value, body };
    let id = arena.allocate(node).unwrap();
    assert!(matches!(arena.get(id).unwrap(), ASTNode::LinearLet { .. }));
}
#[test]
fn test_linear_let_type_tag() {
    let node = ASTNode::LinearLet {
        name: NodeID(0),
        value: NodeID(1),
        body: NodeID(2),
    };
    assert_eq!(node.type_tag(), TypeTag::LinearLet);
}
#[test]
fn test_forall_type_tag() {
    let node = ASTNode::ForAll {
        var: NodeID(0),
        set: NodeID(1),
        body: NodeID(2),
    };
    assert_eq!(node.type_tag(), TypeTag::ForAll);
}
#[test]
fn test_parse_lambda_apply() {
    let mut arena = Arena::new(100);
    let root = parse("(λس. س · 2)(5)", &mut arena).unwrap();
    // يجب أن يُبنى كـ Call مع func = Lambda
    assert!(matches!(arena.get(root).unwrap(), ASTNode::Call { .. }));
}

#[test]
fn parser_expected_error_details() {
    let mut arena = Arena::new(100);
    let err = parse("(1 + 2", &mut arena).unwrap_err();
    assert_eq!(
        err,
        ParserError::Expected { expected: "RParen", found: "Eof".to_string(), line: 1, col: 7 }
    );
}

#[test]
fn parser_lexer_error_propagates() {
    let mut arena = Arena::new(100);
    let err = parse("1 @", &mut arena).unwrap_err();
    assert_eq!(err, ParserError::Lexer(mal::lexer::LexerError::UnexpectedChar { line: 1, col: 3 }));
    assert_eq!(arena.used(), 0);
}

#[test]
fn parser_arena_exhaustion() {
    let mut arena = Arena::new(2);
    let err = parse("1 + 2", &mut arena).unwrap_err();
    assert_eq!(err, ParserError::ArenaError(mal::arena::ArenaError::CapacityExceeded));
}

#[test]
fn parser_program_of_statements_is_list() {
    let mut arena = Arena::new(100);
    let root = parse("أ ≔ 1 ⎕ أ", &mut arena).unwrap();
    if let ASTNode::List { head, tail } = arena.get(root).unwrap() {
        assert!(matches!(arena.get(*head).unwrap(), ASTNode::BinOp { op: 10, .. }));
        assert!(matches!(arena.get(*tail).unwrap(), ASTNode::List { .. }));
    } else {
        panic!("expected List");
    }
}

#[test]
fn parser_empty_program() {
    let mut arena = Arena::new(10);
    let root = parse("", &mut arena).unwrap();
    assert!(matches!(arena.get(root).unwrap(), ASTNode::Empty));
    assert_eq!(arena.used(), 1);
}

#[test]
fn parser_lambda_needs_parameter() {
    let mut arena = Arena::new(10);
    let err = parse("λ. 1", &mut arena).unwrap_err();
    assert_eq!(
        err,
        ParserError::Expected { expected: "parameter after λ", found: "none".to_string(), line: 0, col: 0 }
    );
}
