use mal::arena::{ASTNode, Arena, ArenaError, NodeID, TypeTag, UnaryOp, OP_ADD};

#[test]
fn test_basic_allocation() {
    let mut arena = Arena::new(10);
    let id = arena.allocate(ASTNode::Int(42)).expect("alloc");
    assert_eq!(id.0, 0);
    match arena.get(id).unwrap() {
        ASTNode::Int(v) => assert_eq!(*v, 42),
        _ => panic!("wrong type"),
    }
}

#[test]
fn test_invalid_id_rejected() {
    let arena = Arena::new(10);
    assert_eq!(arena.get(NodeID(0)).unwrap_err(), ArenaError::InvalidNodeID);
    assert_eq!(arena.get(NodeID(999)).unwrap_err(), ArenaError::InvalidNodeID);
    assert_eq!(arena.get(NodeID::invalid()).unwrap_err(), ArenaError::InvalidNodeID);
}

#[test]
fn test_capacity_exceeded_abstain() {
    let mut arena = Arena::new(3);
    arena.allocate(ASTNode::Int(1)).unwrap();
    arena.allocate(ASTNode::Int(2)).unwrap();
    arena.allocate(ASTNode::Int(3)).unwrap();
    assert_eq!(arena.allocate(ASTNode::Int(4)).unwrap_err(), ArenaError::CapacityExceeded);
    assert!(arena.get(NodeID(0)).is_ok());
    assert!(arena.get(NodeID(2)).is_ok());
}

#[test]
fn test_type_mismatch_abstain() {
    let mut arena = Arena::new(5);
    let id = arena.allocate(ASTNode::Int(7)).unwrap();
    assert!(arena.get_typed(id, TypeTag::Int).is_ok());
    assert_eq!(arena.get_typed(id, TypeTag::Str).unwrap_err(), ArenaError::TypeMismatch);
    assert_eq!(arena.get_typed(id, TypeTag::BinOp).unwrap_err(), ArenaError::TypeMismatch);
}

#[test]
fn test_stale_handle_rejected() {
    let mut arena = Arena::new(5);
    let id = arena.allocate(ASTNode::Int(100)).unwrap();
    assert!(arena.get(id).is_ok());
    let stale = NodeID(4);
    assert_eq!(arena.get(stale).unwrap_err(), ArenaError::InvalidNodeID);
}

#[test]
fn test_10k_nodes_stress() {
    const N: u32 = 10_000;
    let mut arena = Arena::new(N);
    for i in 0..N {
        let id = arena.allocate(ASTNode::Int(i as i64)).expect("alloc");
        assert_eq!(id.0, i);
    }
    assert_eq!(arena.used(), N);
    for i in 0..N {
        match arena.get(NodeID(i)).unwrap() {
            ASTNode::Int(v) => assert_eq!(*v, i as i64),
            _ => panic!("wrong type at {}", i),
        }
    }
    assert_eq!(arena.allocate(ASTNode::Int(99999)).unwrap_err(), ArenaError::CapacityExceeded);
}

#[test]
fn test_lambda_variant() {
    let mut arena = Arena::new(10);
    let param = arena.allocate(ASTNode::Ident(0)).unwrap();
    let body = arena.allocate(ASTNode::Int(42)).unwrap();
    let lambda = arena.allocate(ASTNode::Lambda { params: param, body }).unwrap();
    assert!(matches!(arena.get(lambda).unwrap(), ASTNode::Lambda { .. }));
    assert_eq!(arena.get(lambda).unwrap().type_tag(), TypeTag::Lambda);
}

#[test]
fn arena_capacity_and_used() {
    let mut arena = Arena::new(2);
    assert_eq!(arena.capacity(), 2);
    assert_eq!(arena.used(), 0);
    arena.allocate(ASTNode::Empty).unwrap();
    assert_eq!(arena.used(), 1);
    assert_eq!(arena.get_typed(NodeID(1), TypeTag::Empty).unwrap_err(), ArenaError::InvalidNodeID);
}

#[test]
fn acyclic_arenas_may_refer_forward() {
    // Parent first, children after: acyclic though not in order.
    let mut fwd = Arena::new(10);
    fwd.allocate(ASTNode::BinOp { op: OP_ADD, left: NodeID(1), right: NodeID(2) }).unwrap();
    fwd.allocate(ASTNode::Int(1)).unwrap();
    fwd.allocate(ASTNode::Int(2)).unwrap();
    assert!(fwd.is_acyclic());
    // A two-node cycle.
    let mut cyc = Arena::new(10);
    cyc.allocate(ASTNode::UnaryOp { op: UnaryOp::Neg, expr: NodeID(1) }).unwrap();
    cyc.allocate(ASTNode::UnaryOp { op: UnaryOp::Not, expr: NodeID(0) }).unwrap();
    assert!(!cyc.is_acyclic());
    // A node that refers to itself.
    let mut selfloop = Arena::new(10);
    selfloop.allocate(ASTNode::BinOp { op: OP_ADD, left: NodeID(0), right: NodeID(7) }).unwrap();
    assert!(!selfloop.is_acyclic());
    // Children outside the arena do not count.
    let mut dangling = Arena::new(10);
    dangling.allocate(ASTNode::BinOp { op: OP_ADD, left: NodeID(5), right: NodeID::invalid() }).unwrap();
    assert!(dangling.is_acyclic());
    assert!(Arena::new(4).is_acyclic());
}
