//! Recursive-descent parser that builds the syntax tree in an `Arena`.
//!
//! - Expressions: numbers, identifiers, `+ - ⊕` and `·` with the usual
//!   precedence, calls, parenthesised expressions with postfix calls,
//!   lambdas, quantifiers `∀ ∃`, `μ` and set literals `⟨ ⟩`.
//! - Statements: assignment `≔`, print `⎕`, blocks `﴿ … ⋄ … ﴾`.
//! - Fail-closed: syntax errors yield a `ParserError`, never a panic.
//!
//! The grammar is specified by the `grammar_*` functions over the token
//! sequence, the arena's capacity and its nodes; each parsing function is
//! proved to compute exactly its grammar function, node allocations
//! included.
use vstd::prelude::*;
use vstd::utf8::encode_utf8;
use crate::arena::{ASTNode, Arena, ArenaError, NodeID, INVALID_RAW, OP_ADD, OP_CONCAT, OP_MUL, OP_SUB};
use crate::lexer::{kind_name, kind_text, lex, Lexer, LexerError, Token, TokenKind};

verus! {

/// Parser failure modes.
#[derive(Debug, Clone, PartialEq, Eq)]
pub enum ParserError {
    /// Lexer error propagated.
    Lexer(LexerError),
    /// Expected token but got something else.
    Expected {
        /// What was expected.
        expected: &'static str,
        /// What was found.
        found: String,
        /// Line number.
        line: u32,
        /// Column number.
        col: u32,
    },
    /// Unexpected end of input.
    UnexpectedEof,
    /// Arena capacity exceeded.
    ArenaError(ArenaError),
}

/// A parser failure as a mathematical value.
pub enum ParseFailure {
    Lexer(LexerError),
    Expected { expected: Seq<char>, found: Seq<char>, line: u32, col: u32 },
    UnexpectedEof,
    Arena(ArenaError),
}

impl ParserError {
    pub open spec fn failure(self) -> ParseFailure {
        match self {
            ParserError::Lexer(e) => ParseFailure::Lexer(e),
            ParserError::Expected { expected, found, line, col } => ParseFailure::Expected {
                expected: expected@,
                found: found@,
                line,
                col,
            },
            ParserError::UnexpectedEof => ParseFailure::UnexpectedEof,
            ParserError::ArenaError(e) => ParseFailure::Arena(e),
        }
    }
}

/// A parse result as a mathematical value.
pub open spec fn rview<T>(r: Result<T, ParserError>) -> Result<T, ParseFailure> {
    match r {
        Ok(v) => Ok(v),
        Err(e) => Err(e.failure()),
    }
}

/// A list result as a mathematical value.
pub open spec fn lview(r: Result<Vec<NodeID>, ParserError>) -> Result<Seq<NodeID>, ParseFailure> {
    match r {
        Ok(v) => Ok(v@),
        Err(e) => Err(e.failure()),
    }
}

// ─── Grammar ──────────────────────────────────────────────────────────

/// Outcome of a grammar rule: the node, the next token position, and the
/// arena's nodes afterwards.
pub type Parsed = (Result<NodeID, ParseFailure>, int, Seq<ASTNode>);

/// Outcome of a list rule.
pub type ParsedList = (Result<Seq<NodeID>, ParseFailure>, int, Seq<ASTNode>);

pub open spec fn invalid_id() -> NodeID {
    NodeID(INVALID_RAW)
}

pub open spec fn kind_at(toks: Seq<Token>, p: int) -> Option<TokenKind> {
    if 0 <= p < toks.len() {
        Some(toks[p].kind)
    } else {
        None
    }
}

/// A rule that succeeded moved forward and stayed within the tokens.
pub open spec fn advanced(toks: Seq<Token>, p: int, q: int) -> bool {
    p < q <= toks.len()
}

/// Allocation in an arena of capacity `cap` holding `n`.
pub open spec fn alloc_node(cap: nat, n: Seq<ASTNode>, node: ASTNode) -> (Result<NodeID, ParseFailure>, Seq<ASTNode>) {
    if n.len() < cap {
        (Ok(NodeID(n.len() as u32)), n.push(node))
    } else {
        (Err(ParseFailure::Arena(ArenaError::CapacityExceeded)), n)
    }
}

/// Consume the token at `p` and check its kind.
pub open spec fn expect_tok(toks: Seq<Token>, p: int, kind: TokenKind) -> (Result<Token, ParseFailure>, int) {
    if 0 <= p < toks.len() {
        let t = toks[p];
        if t.kind != kind {
            (Err(ParseFailure::Expected { expected: kind_text(kind), found: kind_text(t.kind), line: t.line, col: t.col }), p + 1)
        } else {
            (Ok(t), p + 1)
        }
    } else {
        (Err(ParseFailure::UnexpectedEof), p)
    }
}

/// Cons-list of `items[0..k]` ending in `tail`, allocated from the last
/// item to the first.
pub open spec fn build_list_rev(cap: nat, items: Seq<NodeID>, k: int, tail: NodeID, n: Seq<ASTNode>) -> (Result<NodeID, ParseFailure>, Seq<ASTNode>)
    decreases k,
{
    if k <= 0 {
        (Ok(tail), n)
    } else {
        let (r, n1) = alloc_node(cap, n, ASTNode::List { head: items[k - 1], tail });
        match r {
            Ok(id) => build_list_rev(cap, items, k - 1, id, n1),
            Err(e) => (Err(e), n1),
        }
    }
}

/// The list of all items.
pub open spec fn build_list(cap: nat, items: Seq<NodeID>, n: Seq<ASTNode>) -> (Result<NodeID, ParseFailure>, Seq<ASTNode>) {
    build_list_rev(cap, items, items.len() as int, invalid_id(), n)
}

/// Lambda parameters: identifier tokens, each allocated as a node.
pub open spec fn grammar_params(toks: Seq<Token>, cap: nat, p: int, acc: Seq<NodeID>, n: Seq<ASTNode>) -> ParsedList
    decreases toks.len() - p,
{
    if 0 <= p < toks.len() && toks[p].kind == TokenKind::Ident {
        let (r, n1) = alloc_node(cap, n, ASTNode::Ident(toks[p].start));
        match r {
            Ok(id) => grammar_params(toks, cap, p + 1, acc.push(id), n1),
            Err(e) => (Err(e), p + 1, n1),
        }
    } else {
        (Ok(acc), p, n)
    }
}

/// Result of a rule whose successor position does not move forward; no
/// rule ever produces it.
pub open spec fn stall(q: int, n: Seq<ASTNode>) -> Parsed {
    (Err(ParseFailure::UnexpectedEof), q, n)
}

pub open spec fn stall_list(q: int, n: Seq<ASTNode>) -> ParsedList {
    (Err(ParseFailure::UnexpectedEof), q, n)
}

/// expr ::= additive
pub open spec fn grammar_expr(toks: Seq<Token>, cap: nat, p: int, n: Seq<ASTNode>) -> Parsed
    decreases toks.len() - p, 5int,
{
    grammar_additive(toks, cap, p, n)
}

/// additive ::= multiplicative (('+' | '-' | '⊕') multiplicative)*
pub open spec fn grammar_additive(toks: Seq<Token>, cap: nat, p: int, n: Seq<ASTNode>) -> Parsed
    decreases toks.len() - p, 4int,
{
    let (r, q, n1) = grammar_mult(toks, cap, p, n);
    match r {
        Ok(left) => if advanced(toks, p, q) {
            grammar_add_loop(toks, cap, left, q, n1)
        } else {
            stall(q, n1)
        },
        Err(e) => (Err(e), q, n1),
    }
}

pub open spec fn grammar_add_loop(toks: Seq<Token>, cap: nat, left: NodeID, p: int, n: Seq<ASTNode>) -> Parsed
    decreases toks.len() - p, 6int,
{
    match kind_at(toks, p) {
        Some(k) => if k == TokenKind::Plus || k == TokenKind::Minus || k == TokenKind::Concat {
            let op: u8 = if k == TokenKind::Plus {
                0u8
            } else if k == TokenKind::Minus {
                1u8
            } else {
                4u8
            };
            let (r, q, n1) = grammar_mult(toks, cap, p + 1, n);
            match r {
                Ok(right) => {
                    let (a, n2) = alloc_node(cap, n1, ASTNode::BinOp { op, left, right });
                    match a {
                        Ok(id) => if advanced(toks, p, q) {
                            grammar_add_loop(toks, cap, id, q, n2)
                        } else {
                            stall(q, n2)
                        },
                        Err(e) => (Err(e), q, n2),
                    }
                },
                Err(e) => (Err(e), q, n1),
            }
        } else {
            (Ok(left), p, n)
        },
        None => (Ok(left), p, n),
    }
}

/// multiplicative ::= primary ('·' primary)*
pub open spec fn grammar_mult(toks: Seq<Token>, cap: nat, p: int, n: Seq<ASTNode>) -> Parsed
    decreases toks.len() - p, 3int,
{
    let (r, q, n1) = grammar_primary(toks, cap, p, n);
    match r {
        Ok(left) => if advanced(toks, p, q) {
            grammar_mult_loop(toks, cap, left, q, n1)
        } else {
            stall(q, n1)
        },
        Err(e) => (Err(e), q, n1),
    }
}

pub open spec fn grammar_mult_loop(toks: Seq<Token>, cap: nat, left: NodeID, p: int, n: Seq<ASTNode>) -> Parsed
    decreases toks.len() - p, 6int,
{
    if kind_at(toks, p) == Some(TokenKind::Mul) {
        let (r, q, n1) = grammar_primary(toks, cap, p + 1, n);
        match r {
            Ok(right) => {
                let (a, n2) = alloc_node(cap, n1, ASTNode::BinOp { op: 2u8, left, right });
                match a {
                    Ok(id) => if advanced(toks, p, q) {
                        grammar_mult_loop(toks, cap, id, q, n2)
                    } else {
                        stall(q, n2)
                    },
                    Err(e) => (Err(e), q, n2),
                }
            },
            Err(e) => (Err(e), q, n1),
        }
    } else {
        (Ok(left), p, n)
    }
}

/// lambda ::= 'λ' ident+ '.' expr; the parameters form a list unless there
/// is only one.
pub open spec fn grammar_lambda(toks: Seq<Token>, cap: nat, p: int, n: Seq<ASTNode>) -> Parsed
    decreases toks.len() - p, 1int,
{
    let (rp, q, n1) = grammar_params(toks, cap, p + 1, Seq::empty(), n);
    match rp {
        Err(e) => (Err(e), q, n1),
        Ok(params) => if params.len() == 0 {
            (Err(ParseFailure::Expected { expected: "parameter after λ"@, found: "none"@, line: 0, col: 0 }), q, n1)
        } else {
            let (rd, q2) = expect_tok(toks, q, TokenKind::Dot);
            match rd {
                Err(e) => (Err(e), q2, n1),
                Ok(_) => if advanced(toks, p, q2) {
                    let (rb, q3, n2) = grammar_expr(toks, cap, q2, n1);
                    match rb {
                        Err(e) => (Err(e), q3, n2),
                        Ok(body) => {
                            let (rl, n3) = if params.len() == 1 {
                                (Ok(params[0]), n2)
                            } else {
                                build_list(cap, params, n2)
                            };
                            match rl {
                                Err(e) => (Err(e), q3, n3),
                                Ok(pl) => {
                                    let (ra, n4) = alloc_node(cap, n3, ASTNode::Lambda { params: pl, body });
                                    (ra, q3, n4)
                                },
                            }
                        },
                    }
                } else {
                    stall(q2, n1)
                },
            }
        },
    }
}

/// Arguments of `ident(…)`: expressions separated by commas, up to `)`.
pub open spec fn grammar_call_args(toks: Seq<Token>, cap: nat, p: int, acc: Seq<NodeID>, n: Seq<ASTNode>) -> ParsedList
    decreases toks.len() - p, 6int,
{
    match kind_at(toks, p) {
        Some(k) => if k != TokenKind::RParen {
            let (r, q, n1) = grammar_expr(toks, cap, p, n);
            match r {
                Ok(e) => if kind_at(toks, q) == Some(TokenKind::Comma) {
                    if advanced(toks, p, q + 1) {
                        grammar_call_args(toks, cap, q + 1, acc.push(e), n1)
                    } else {
                        stall_list(q + 1, n1)
                    }
                } else {
                    (Ok(acc.push(e)), q, n1)
                },
                Err(err) => (Err(err), q, n1),
            }
        } else {
            (Ok(acc), p, n)
        },
        None => (Ok(acc), p, n),
    }
}

/// Arguments of a postfix call `(…)(…)`: expressions separated by commas,
/// up to `)` (the end of the tokens does not stop the list).
pub open spec fn grammar_paren_args(toks: Seq<Token>, cap: nat, p: int, acc: Seq<NodeID>, n: Seq<ASTNode>) -> ParsedList
    decreases toks.len() - p, 6int,
{
    if kind_at(toks, p) != Some(TokenKind::RParen) {
        let (r, q, n1) = grammar_expr(toks, cap, p, n);
        match r {
            Ok(e) => if kind_at(toks, q) == Some(TokenKind::Comma) {
                if advanced(toks, p, q + 1) {
                    grammar_paren_args(toks, cap, q + 1, acc.push(e), n1)
                } else {
                    stall_list(q + 1, n1)
                }
            } else {
                (Ok(acc.push(e)), q, n1)
            },
            Err(err) => (Err(err), q, n1),
        }
    } else {
        (Ok(acc), p, n)
    }
}

/// Postfix calls applied to the parenthesised expression `e`.
pub open spec fn grammar_paren_calls(toks: Seq<Token>, cap: nat, e: NodeID, p: int, n: Seq<ASTNode>) -> Parsed
    decreases toks.len() - p, 6int,
{
    if kind_at(toks, p) == Some(TokenKind::LParen) {
        let (ra, q, n1) = grammar_paren_args(toks, cap, p + 1, Seq::empty(), n);
        match ra {
            Err(err) => (Err(err), q, n1),
            Ok(args) => {
                let (re, q2) = expect_tok(toks, q, TokenKind::RParen);
                match re {
                    Err(err) => (Err(err), q2, n1),
                    Ok(_) => {
                        let (rl, n2) = if args.len() == 0 {
                            (Ok(invalid_id()), n1)
                        } else if args.len() == 1 {
                            (Ok(args[0]), n1)
                        } else {
                            build_list(cap, args, n1)
                        };
                        match rl {
                            Err(err) => (Err(err), q2, n2),
                            Ok(list) => {
                                let (rc, n3) = alloc_node(cap, n2, ASTNode::Call { func: e, args: list });
                                match rc {
                                    Err(err) => (Err(err), q2, n3),
                                    Ok(c) => if advanced(toks, p, q2) {
                                        grammar_paren_calls(toks, cap, c, q2, n3)
                                    } else {
                                        stall(q2, n3)
                                    },
                                }
                            },
                        }
                    },
                }
            },
        }
    } else {
        (Ok(e), p, n)
    }
}

/// Binder rules `∀ x ∈ set : body` and `∃ x ∈ set : body` (the quantifier
/// token already consumed; `p` holds the variable).
pub open spec fn grammar_quantifier(toks: Seq<Token>, cap: nat, p: int, n: Seq<ASTNode>, universal: bool) -> Parsed
    decreases toks.len() - p, 6int,
{
    if !(0 <= p < toks.len()) {
        (Err(ParseFailure::UnexpectedEof), p, n)
    } else {
        let vt = toks[p];
        if vt.kind != TokenKind::Ident {
            (Err(ParseFailure::Expected {
                expected: if universal { "identifier after ∀"@ } else { "identifier after ∃"@ },
                found: kind_text(vt.kind),
                line: vt.line,
                col: vt.col,
            }), p + 1, n)
        } else {
            let (rv, n1) = alloc_node(cap, n, ASTNode::Ident(vt.start));
            match rv {
                Err(e) => (Err(e), p + 1, n1),
                Ok(var) => {
                    let (ri, q1) = expect_tok(toks, p + 1, TokenKind::In);
                    match ri {
                        Err(e) => (Err(e), q1, n1),
                        Ok(_) => {
                            let (rs, q2, n2) = grammar_expr(toks, cap, q1, n1);
                            match rs {
                                Err(e) => (Err(e), q2, n2),
                                Ok(set) => {
                                    let (rc, q3) = expect_tok(toks, q2, TokenKind::Colon);
                                    match rc {
                                        Err(e) => (Err(e), q3, n2),
                                        Ok(_) => if advanced(toks, p, q3) {
                                            let (rb, q4, n3) = grammar_expr(toks, cap, q3, n2);
                                            match rb {
                                                Err(e) => (Err(e), q4, n3),
                                                Ok(body) => {
                                                    let node = if universal {
                                                        ASTNode::ForAll { var, set, body }
                                                    } else {
                                                        ASTNode::Exists { var, set, body }
                                                    };
                                                    let (rf, n4) = alloc_node(cap, n3, node);
                                                    (rf, q4, n4)
                                                },
                                            }
                                        } else {
                                            stall(q3, n2)
                                        },
                                    }
                                },
                            }
                        },
                    }
                },
            }
        }
    }
}

/// `μ x . body` (the `μ` already consumed; `p` holds the variable).
pub open spec fn grammar_mu(toks: Seq<Token>, cap: nat, p: int, n: Seq<ASTNode>) -> Parsed
    decreases toks.len() - p, 6int,
{
    if !(0 <= p < toks.len()) {
        (Err(ParseFailure::UnexpectedEof), p, n)
    } else {
        let vt = toks[p];
        if vt.kind != TokenKind::Ident {
            (Err(ParseFailure::Expected { expected: "identifier after μ"@, found: kind_text(vt.kind), line: vt.line, col: vt.col }), p + 1, n)
        } else {
            let (rv, n1) = alloc_node(cap, n, ASTNode::Ident(vt.start));
            match rv {
                Err(e) => (Err(e), p + 1, n1),
                Ok(var) => {
                    let (rd, q1) = expect_tok(toks, p + 1, TokenKind::Dot);
                    match rd {
                        Err(e) => (Err(e), q1, n1),
                        Ok(_) => {
                            let (rb, q2, n2) = grammar_expr(toks, cap, q1, n1);
                            match rb {
                                Err(e) => (Err(e), q2, n2),
                                Ok(body) => {
                                    let (rm, n3) = alloc_node(cap, n2, ASTNode::Mu { var, body });
                                    (rm, q2, n3)
                                },
                            }
                        },
                    }
                },
            }
        }
    }
}

/// Set literal `⟨ e, … ⟩` (the `⟨` already consumed).
pub open spec fn grammar_set(toks: Seq<Token>, cap: nat, p: int, n: Seq<ASTNode>) -> Parsed
    decreases toks.len() - p, 6int,
{
    if kind_at(toks, p) == Some(TokenKind::RAngle) {
        let (r, n1) = alloc_node(cap, n, ASTNode::SetLiteral { elems: invalid_id() });
        (r, p + 1, n1)
    } else {
        let (r, q, n1) = grammar_expr(toks, cap, p, n);
        match r {
            Err(e) => (Err(e), q, n1),
            Ok(first) => if advanced(toks, p, q) {
                let (rm, q2, n2) = grammar_set_more(toks, cap, q, seq![first], n1);
                match rm {
                    Err(e) => (Err(e), q2, n2),
                    Ok(elems) => {
                        let (re, q3) = expect_tok(toks, q2, TokenKind::RAngle);
                        match re {
                            Err(e) => (Err(e), q3, n2),
                            Ok(_) => {
                                let (rl, n3) = build_list(cap, elems, n2);
                                match rl {
                                    Err(e) => (Err(e), q3, n3),
                                    Ok(list) => {
                                        let (rs, n4) = alloc_node(cap, n3, ASTNode::SetLiteral { elems: list });
                                        (rs, q3, n4)
                                    },
                                }
                            },
                        }
                    },
                }
            } else {
                stall(q, n1)
            },
        }
    }
}

pub open spec fn grammar_set_more(toks: Seq<Token>, cap: nat, p: int, acc: Seq<NodeID>, n: Seq<ASTNode>) -> ParsedList
    decreases toks.len() - p, 6int,
{
    if kind_at(toks, p) == Some(TokenKind::Comma) {
        let (r, q, n1) = grammar_expr(toks, cap, p + 1, n);
        match r {
            Err(e) => (Err(e), q, n1),
            Ok(e) => if advanced(toks, p, q) {
                grammar_set_more(toks, cap, q, acc.push(e), n1)
            } else {
                stall_list(q, n1)
            },
        }
    } else {
        (Ok(acc), p, n)
    }
}

/// primary ::= lambda | number | ident | ident '(' args ')' | '(' expr ')' calls
///           | quantifier | μ | set | '⊙'
pub open spec fn grammar_primary(toks: Seq<Token>, cap: nat, p: int, n: Seq<ASTNode>) -> Parsed
    decreases toks.len() - p, 2int,
{
    if !(0 <= p < toks.len()) {
        (Err(ParseFailure::UnexpectedEof), p, n)
    } else {
        let t = toks[p];
        let p1 = p + 1;
        match t.kind {
            TokenKind::Lambda => grammar_lambda(toks, cap, p, n),
            TokenKind::Num => {
                let (a, n1) = alloc_node(cap, n, ASTNode::Int(t.num));
                (a, p1, n1)
            },
            TokenKind::Ident => if kind_at(toks, p1) == Some(TokenKind::LParen) {
                let (ra, q, n1) = grammar_call_args(toks, cap, p1 + 1, Seq::empty(), n);
                match ra {
                    Err(e) => (Err(e), q, n1),
                    Ok(args) => {
                        let (re, q2) = expect_tok(toks, q, TokenKind::RParen);
                        match re {
                            Err(e) => (Err(e), q2, n1),
                            Ok(_) => {
                                let (rl, n2) = if args.len() == 0 {
                                    (Ok(invalid_id()), n1)
                                } else {
                                    build_list(cap, args, n1)
                                };
                                match rl {
                                    Err(e) => (Err(e), q2, n2),
                                    Ok(list) => {
                                        let (rf, n3) = alloc_node(cap, n2, ASTNode::Str(0));
                                        match rf {
                                            Err(e) => (Err(e), q2, n3),
                                            Ok(f) => {
                                                let (rc, n4) = alloc_node(cap, n3, ASTNode::Call { func: f, args: list });
                                                (rc, q2, n4)
                                            },
                                        }
                                    },
                                }
                            },
                        }
                    },
                }
            } else {
                let (a, n1) = alloc_node(cap, n, ASTNode::Ident(0));
                (a, p1, n1)
            },
            TokenKind::LParen => {
                let (r, q, n1) = grammar_expr(toks, cap, p1, n);
                match r {
                    Err(e) => (Err(e), q, n1),
                    Ok(e) => {
                        let (re, q2) = expect_tok(toks, q, TokenKind::RParen);
                        match re {
                            Err(err) => (Err(err), q2, n1),
                            Ok(_) => if advanced(toks, p, q2) {
                                grammar_paren_calls(toks, cap, e, q2, n1)
                            } else {
                                stall(q2, n1)
                            },
                        }
                    },
                }
            },
            TokenKind::Forall => grammar_quantifier(toks, cap, p1, n, true),
            TokenKind::Exists => grammar_quantifier(toks, cap, p1, n, false),
            TokenKind::Mu => grammar_mu(toks, cap, p1, n),
            TokenKind::LAngle => grammar_set(toks, cap, p1, n),
            TokenKind::Read => {
                let (a, n1) = alloc_node(cap, n, ASTNode::Call { func: invalid_id(), args: invalid_id() });
                (a, p1, n1)
            },
            TokenKind::Eof => (Err(ParseFailure::UnexpectedEof), p1, n),
            _ => (Err(ParseFailure::Expected { expected: "expression"@, found: kind_text(t.kind), line: t.line, col: t.col }), p1, n),
        }
    }
}

/// stmt ::= '⎕' expr | ident '≔' expr | '﴿' (stmt ('⋄' stmt)*)? '﴾' | expr
pub open spec fn grammar_stmt(toks: Seq<Token>, cap: nat, p: int, n: Seq<ASTNode>) -> Parsed
    decreases toks.len() - p, 7int,
{
    if !(0 <= p < toks.len()) {
        (Err(ParseFailure::UnexpectedEof), p, n)
    } else {
        match toks[p].kind {
            TokenKind::Print => {
                let (r, q, n1) = grammar_expr(toks, cap, p + 1, n);
                match r {
                    Err(e) => (Err(e), q, n1),
                    Ok(e) => {
                        let (rc, n2) = alloc_node(cap, n1, ASTNode::Call { func: invalid_id(), args: e });
                        (rc, q, n2)
                    },
                }
            },
            TokenKind::Ident => if kind_at(toks, p + 1) == Some(TokenKind::Assign) {
                let (r, q, n1) = grammar_expr(toks, cap, p + 2, n);
                match r {
                    Err(e) => (Err(e), q, n1),
                    Ok(v) => {
                        let (rl, n2) = alloc_node(cap, n1, ASTNode::Ident(0));
                        match rl {
                            Err(e) => (Err(e), q, n2),
                            Ok(l) => {
                                let (rb, n3) = alloc_node(cap, n2, ASTNode::BinOp { op: 10u8, left: l, right: v });
                                (rb, q, n3)
                            },
                        }
                    },
                }
            } else {
                grammar_expr(toks, cap, p, n)
            },
            TokenKind::LBlock => {
                let (rs, q, n1) = grammar_block(toks, cap, p + 1, Seq::empty(), n);
                match rs {
                    Err(e) => (Err(e), q, n1),
                    Ok(stmts) => {
                        let (re, q2) = expect_tok(toks, q, TokenKind::RBlock);
                        match re {
                            Err(e) => (Err(e), q2, n1),
                            Ok(_) => if stmts.len() == 0 {
                                let (r, n2) = alloc_node(cap, n1, ASTNode::Empty);
                                (r, q2, n2)
                            } else {
                                let (r, n2) = build_list(cap, stmts, n1);
                                (r, q2, n2)
                            },
                        }
                    },
                }
            },
            _ => grammar_expr(toks, cap, p, n),
        }
    }
}

/// Statements of a block, separated by `⋄`, up to `﴾`.
pub open spec fn grammar_block(toks: Seq<Token>, cap: nat, p: int, acc: Seq<NodeID>, n: Seq<ASTNode>) -> ParsedList
    decreases toks.len() - p, 8int,
{
    match kind_at(toks, p) {
        Some(k) => if k != TokenKind::RBlock {
            let (r, q, n1) = grammar_stmt(toks, cap, p, n);
            match r {
                Err(e) => (Err(e), q, n1),
                Ok(s) => if kind_at(toks, q) == Some(TokenKind::Diamond) {
                    if advanced(toks, p, q + 1) {
                        grammar_block(toks, cap, q + 1, acc.push(s), n1)
                    } else {
                        stall_list(q + 1, n1)
                    }
                } else {
                    (Ok(acc.push(s)), q, n1)
                },
            }
        } else {
            (Ok(acc), p, n)
        },
        None => (Ok(acc), p, n),
    }
}

/// Statements of a program, up to `Eof`.
pub open spec fn grammar_stmts(toks: Seq<Token>, cap: nat, p: int, acc: Seq<NodeID>, n: Seq<ASTNode>) -> ParsedList
    decreases toks.len() - p, 9int,
{
    match kind_at(toks, p) {
        Some(k) => if k != TokenKind::Eof {
            let (r, q, n1) = grammar_stmt(toks, cap, p, n);
            match r {
                Err(e) => (Err(e), q, n1),
                Ok(s) => if advanced(toks, p, q) {
                    grammar_stmts(toks, cap, q, acc.push(s), n1)
                } else {
                    stall_list(q, n1)
                },
            }
        } else {
            (Ok(acc), p, n)
        },
        None => (Ok(acc), p, n),
    }
}

/// program ::= stmt* Eof; one statement is the root itself, several form a
/// list, none is an `Empty` node.
pub open spec fn grammar_program(toks: Seq<Token>, cap: nat, n: Seq<ASTNode>) -> (Result<NodeID, ParseFailure>, Seq<ASTNode>) {
    let (rs, q, n1) = grammar_stmts(toks, cap, 0, Seq::empty(), n);
    match rs {
        Err(e) => (Err(e), n1),
        Ok(stmts) => {
            let (re, q2) = expect_tok(toks, q, TokenKind::Eof);
            match re {
                Err(e) => (Err(e), n1),
                Ok(_) => if stmts.len() == 0 {
                    alloc_node(cap, n1, ASTNode::Empty)
                } else if stmts.len() == 1 {
                    (Ok(stmts[0]), n1)
                } else {
                    build_list(cap, stmts, n1)
                },
            }
        },
    }
}

/// Parse of a whole source: its tokens, or the lexer's failure.
pub open spec fn grammar_source(src: Seq<char>, cap: nat, n: Seq<ASTNode>) -> (Result<NodeID, ParseFailure>, Seq<ASTNode>) {
    match lex(src) {
        Err(e) => (Err(ParseFailure::Lexer(e)), n),
        Ok(toks) => grammar_program(toks, cap, n),
    }
}

/// The operator signs mean their operators: an expression `x op y` of two
/// numbers, wherever it stands in the tokens and whatever follows that is
/// not another operator, parses to the two numbers and one `BinOp` whose
/// code is the sign's: `+` adds (`OP_ADD`), `-` subtracts (`OP_SUB`), `⊕`
/// concatenates (`OP_CONCAT`), `·` multiplies (`OP_MUL`).
pub proof fn law_operator_signs(toks: Seq<Token>, cap: nat, p: int, n: Seq<ASTNode>)
    requires
        0 <= p,
        p + 2 < toks.len(),
        toks[p].kind == TokenKind::Num,
        toks[p + 2].kind == TokenKind::Num,
        toks[p + 1].kind == TokenKind::Plus || toks[p + 1].kind == TokenKind::Minus || toks[p + 1].kind
            == TokenKind::Concat || toks[p + 1].kind == TokenKind::Mul,
        !(kind_at(toks, p + 3) == Some(TokenKind::Plus) || kind_at(toks, p + 3) == Some(TokenKind::Minus) || kind_at(
            toks,
            p + 3,
        ) == Some(TokenKind::Concat) || kind_at(toks, p + 3) == Some(TokenKind::Mul)),
        n.len() + 3 <= cap,
    ensures
        ({
            let (r, q, n2) = grammar_expr(toks, cap, p, n);
            let k = toks[p + 1].kind;
            let node = n2[n.len() + 2int];
            &&& r == Ok::<NodeID, ParseFailure>(NodeID((n.len() + 2) as u32))
            &&& q == p + 3
            &&& n2.len() == n.len() + 3
            &&& n2.take(n.len() as int) == n
            &&& n2[n.len() as int] == ASTNode::Int(toks[p].num)
            &&& n2[n.len() + 1int] == ASTNode::Int(toks[p + 2].num)
            &&& node is BinOp
            &&& node->BinOp_left == NodeID(n.len() as u32)
            &&& node->BinOp_right == NodeID((n.len() + 1) as u32)
            &&& k == TokenKind::Plus ==> node->BinOp_op == OP_ADD
            &&& k == TokenKind::Minus ==> node->BinOp_op == OP_SUB
            &&& k == TokenKind::Concat ==> node->BinOp_op == OP_CONCAT
            &&& k == TokenKind::Mul ==> node->BinOp_op == OP_MUL
        }),
{
    let n1 = n.push(ASTNode::Int(toks[p].num));
    let n2 = n1.push(ASTNode::Int(toks[p + 2].num));
    assert(grammar_primary(toks, cap, p, n) == (Ok::<NodeID, ParseFailure>(NodeID(n.len() as u32)), p + 1, n1));
    assert(grammar_primary(toks, cap, p + 2, n1) == (Ok::<NodeID, ParseFailure>(NodeID(n1.len() as u32)), p + 3, n2));
    assert(grammar_mult_loop(toks, cap, NodeID(n1.len() as u32), p + 3, n2) == (Ok::<NodeID, ParseFailure>(
        NodeID(n1.len() as u32),
    ), p + 3, n2));
    if toks[p + 1].kind == TokenKind::Mul {
        let op = OP_MUL;
        let n3 = n2.push(ASTNode::BinOp { op, left: NodeID(n.len() as u32), right: NodeID(n1.len() as u32) });
        assert(grammar_mult_loop(toks, cap, NodeID(n.len() as u32), p + 1, n1) == grammar_mult_loop(
            toks,
            cap,
            NodeID(n2.len() as u32),
            p + 3,
            n3,
        ));
        assert(grammar_mult_loop(toks, cap, NodeID(n2.len() as u32), p + 3, n3) == (Ok::<NodeID, ParseFailure>(
            NodeID(n2.len() as u32),
        ), p + 3, n3));
        assert(grammar_mult(toks, cap, p, n) == (Ok::<NodeID, ParseFailure>(NodeID(n2.len() as u32)), p + 3, n3));
        assert(grammar_add_loop(toks, cap, NodeID(n2.len() as u32), p + 3, n3) == (Ok::<NodeID, ParseFailure>(
            NodeID(n2.len() as u32),
        ), p + 3, n3));
        assert(n3.take(n.len() as int) =~= n);
    } else {
        assert(grammar_mult_loop(toks, cap, NodeID(n.len() as u32), p + 1, n1) == (Ok::<NodeID, ParseFailure>(
            NodeID(n.len() as u32),
        ), p + 1, n1));
        assert(grammar_mult(toks, cap, p, n) == (Ok::<NodeID, ParseFailure>(NodeID(n.len() as u32)), p + 1, n1));
        assert(grammar_mult(toks, cap, p + 2, n1) == (Ok::<NodeID, ParseFailure>(NodeID(n1.len() as u32)), p + 3, n2));
        let k = toks[p + 1].kind;
        let op: u8 = if k == TokenKind::Plus {
            OP_ADD
        } else if k == TokenKind::Minus {
            OP_SUB
        } else {
            OP_CONCAT
        };
        let n3 = n2.push(ASTNode::BinOp { op, left: NodeID(n.len() as u32), right: NodeID(n1.len() as u32) });
        assert(grammar_add_loop(toks, cap, NodeID(n2.len() as u32), p + 3, n3) == (Ok::<NodeID, ParseFailure>(
            NodeID(n2.len() as u32),
        ), p + 3, n3));
        assert(grammar_add_loop(toks, cap, NodeID(n.len() as u32), p + 1, n1) == (Ok::<NodeID, ParseFailure>(
            NodeID(n2.len() as u32),
        ), p + 3, n3));
        assert(n3.take(n.len() as int) =~= n);
    }
}

// ─── Parsing functions ────────────────────────────────────────────────

fn alloc_in(arena: &mut Arena, node: ASTNode) -> (r: Result<NodeID, ParserError>)
    ensures
        (rview(r), final(arena)@) == alloc_node(old(arena).spec_capacity(), old(arena)@, node),
        final(arena).spec_capacity() == old(arena).spec_capacity(),
{
    match arena.allocate(node) {
        Ok(id) => Ok(id),
        Err(e) => Err(ParserError::ArenaError(e)),
    }
}

fn expect(toks: &Vec<Token>, pos: usize, kind: TokenKind) -> (r: (Result<Token, ParserError>, usize))
    requires
        pos <= toks@.len(),
    ensures
        (rview(r.0), r.1 as int) == expect_tok(toks@, pos as int, kind),
        r.1 <= toks@.len(),
{
    if pos >= toks.len() {
        return (Err(ParserError::UnexpectedEof), pos);
    }
    let t = toks[pos];
    if t.kind != kind {
        return (
            Err(ParserError::Expected { expected: kind_name(kind), found: kind_name(t.kind).to_owned(), line: t.line, col: t.col }),
            pos + 1,
        );
    }
    (Ok(t), pos + 1)
}

fn build_list_exec(items: &Vec<NodeID>, arena: &mut Arena) -> (r: Result<NodeID, ParserError>)
    ensures
        (rview(r), final(arena)@) == build_list(old(arena).spec_capacity(), items@, old(arena)@),
        final(arena).spec_capacity() == old(arena).spec_capacity(),
{
    let ghost cap = arena.spec_capacity();
    let ghost n0 = arena@;
    let mut list = NodeID::invalid();
    let mut k = items.len();
    while k > 0
        invariant
            k <= items@.len(),
            arena.spec_capacity() == cap,
            cap == old(arena).spec_capacity(),
            n0 == old(arena)@,
            build_list(cap, items@, n0) == build_list_rev(cap, items@, k as int, list, arena@),
        decreases k,
    {
        match alloc_in(arena, ASTNode::List { head: items[k - 1], tail: list }) {
            Ok(id) => {
                list = id;
                k = k - 1;
            },
            Err(e) => {
                return Err(e);
            },
        }
    }
    Ok(list)
}

fn parse_expr(toks: &Vec<Token>, pos: usize, arena: &mut Arena) -> (r: (Result<NodeID, ParserError>, usize))
    requires
        pos <= toks@.len(),
    ensures
        grammar_expr(toks@, old(arena).spec_capacity(), pos as int, old(arena)@) == (rview(r.0), r.1 as int, final(arena)@),
        final(arena).spec_capacity() == old(arena).spec_capacity(),
        r.1 <= toks@.len(),
        r.0.is_ok() ==> pos < r.1,
    decreases toks@.len() - pos, 5int,
{
    parse_additive(toks, pos, arena)
}

fn parse_additive(toks: &Vec<Token>, pos: usize, arena: &mut Arena) -> (r: (Result<NodeID, ParserError>, usize))
    requires
        pos <= toks@.len(),
    ensures
        grammar_additive(toks@, old(arena).spec_capacity(), pos as int, old(arena)@) == (rview(r.0), r.1 as int, final(arena)@),
        final(arena).spec_capacity() == old(arena).spec_capacity(),
        r.1 <= toks@.len(),
        r.0.is_ok() ==> pos < r.1,
    decreases toks@.len() - pos, 4int,
{
    let (r, q) = parse_multiplicative(toks, pos, arena);
    match r {
        Ok(left) => parse_add_loop(toks, left, q, arena),
        Err(e) => (Err(e), q),
    }
}

fn parse_add_loop(toks: &Vec<Token>, left: NodeID, pos: usize, arena: &mut Arena) -> (r: (Result<NodeID, ParserError>, usize))
    requires
        pos <= toks@.len(),
    ensures
        grammar_add_loop(toks@, old(arena).spec_capacity(), left, pos as int, old(arena)@) == (rview(r.0), r.1 as int, final(arena)@),
        final(arena).spec_capacity() == old(arena).spec_capacity(),
        r.1 <= toks@.len(),
        r.0.is_ok() ==> pos <= r.1,
    decreases toks@.len() - pos, 6int,
{
    if pos < toks.len() {
        let k = toks[pos].kind;
        if k == TokenKind::Plus || k == TokenKind::Minus || k == TokenKind::Concat {
            let op: u8 = if k == TokenKind::Plus {
                0
            } else if k == TokenKind::Minus {
                1
            } else {
                4
            };
            let (r, q) = parse_multiplicative(toks, pos + 1, arena);
            match r {
                Ok(right) => match alloc_in(arena, ASTNode::BinOp { op, left, right }) {
                    Ok(id) => parse_add_loop(toks, id, q, arena),
                    Err(e) => (Err(e), q),
                },
                Err(e) => (Err(e), q),
            }
        } else {
            (Ok(left), pos)
        }
    } else {
        (Ok(left), pos)
    }
}

fn parse_multiplicative(toks: &Vec<Token>, pos: usize, arena: &mut Arena) -> (r: (Result<NodeID, ParserError>, usize))
    requires
        pos <= toks@.len(),
    ensures
        grammar_mult(toks@, old(arena).spec_capacity(), pos as int, old(arena)@) == (rview(r.0), r.1 as int, final(arena)@),
        final(arena).spec_capacity() == old(arena).spec_capacity(),
        r.1 <= toks@.len(),
        r.0.is_ok() ==> pos < r.1,
    decreases toks@.len() - pos, 3int,
{
    let (r, q) = parse_primary(toks, pos, arena);
    match r {
        Ok(left) => parse_mult_loop(toks, left, q, arena),
        Err(e) => (Err(e), q),
    }
}

fn parse_mult_loop(toks: &Vec<Token>, left: NodeID, pos: usize, arena: &mut Arena) -> (r: (Result<NodeID, ParserError>, usize))
    requires
        pos <= toks@.len(),
    ensures
        grammar_mult_loop(toks@, old(arena).spec_capacity(), left, pos as int, old(arena)@) == (rview(r.0), r.1 as int, final(arena)@),
        final(arena).spec_capacity() == old(arena).spec_capacity(),
        r.1 <= toks@.len(),
        r.0.is_ok() ==> pos <= r.1,
    decreases toks@.len() - pos, 6int,
{
    if pos < toks.len() && toks[pos].kind == TokenKind::Mul {
        let (r, q) = parse_primary(toks, pos + 1, arena);
        match r {
            Ok(right) => match alloc_in(arena, ASTNode::BinOp { op: 2, left, right }) {
                Ok(id) => parse_mult_loop(toks, id, q, arena),
                Err(e) => (Err(e), q),
            },
            Err(e) => (Err(e), q),
        }
    } else {
        (Ok(left), pos)
    }
}

fn parse_params(toks: &Vec<Token>, pos: usize, acc: Vec<NodeID>, arena: &mut Arena) -> (r: (Result<Vec<NodeID>, ParserError>, usize))
    requires
        pos <= toks@.len(),
    ensures
        grammar_params(toks@, old(arena).spec_capacity(), pos as int, acc@, old(arena)@) == (lview(r.0), r.1 as int, final(arena)@),
        final(arena).spec_capacity() == old(arena).spec_capacity(),
        pos <= r.1 <= toks@.len(),
    decreases toks@.len() - pos,
{
    if pos < toks.len() && toks[pos].kind == TokenKind::Ident {
        match alloc_in(arena, ASTNode::Ident(toks[pos].start)) {
            Ok(id) => {
                let mut acc = acc;
                acc.push(id);
                parse_params(toks, pos + 1, acc, arena)
            },
            Err(e) => (Err(e), pos + 1),
        }
    } else {
        (Ok(acc), pos)
    }
}

fn parse_lambda(toks: &Vec<Token>, pos: usize, arena: &mut Arena) -> (r: (Result<NodeID, ParserError>, usize))
    requires
        pos < toks.len(),
    ensures
        grammar_lambda(toks@, old(arena).spec_capacity(), pos as int, old(arena)@) == (rview(r.0), r.1 as int, final(arena)@),
        final(arena).spec_capacity() == old(arena).spec_capacity(),
        r.1 <= toks@.len(),
        r.0.is_ok() ==> pos < r.1,
    decreases toks@.len() - pos, 1int,
{
    let (rp, q) = parse_params(toks, pos + 1, Vec::new(), arena);
    let params = match rp {
        Err(e) => {
            return (Err(e), q);
        },
        Ok(params) => params,
    };
    if params.len() == 0 {
        return (Err(ParserError::Expected { expected: "parameter after λ", found: "none".to_owned(), line: 0, col: 0 }), q);
    }
    let (rd, q2) = expect(toks, q, TokenKind::Dot);
    match rd {
        Err(e) => {
            return (Err(e), q2);
        },
        Ok(_) => {},
    }
    let (rb, q3) = parse_expr(toks, q2, arena);
    let body = match rb {
        Err(e) => {
            return (Err(e), q3);
        },
        Ok(b) => b,
    };
    let rl = if params.len() == 1 {
        Ok(params[0])
    } else {
        build_list_exec(&params, arena)
    };
    match rl {
        Err(e) => (Err(e), q3),
        Ok(pl) => (alloc_in(arena, ASTNode::Lambda { params: pl, body }), q3),
    }
}

fn parse_call_args(toks: &Vec<Token>, pos: usize, acc: Vec<NodeID>, arena: &mut Arena) -> (r: (Result<Vec<NodeID>, ParserError>, usize))
    requires
        pos <= toks@.len(),
    ensures
        grammar_call_args(toks@, old(arena).spec_capacity(), pos as int, acc@, old(arena)@) == (lview(r.0), r.1 as int, final(arena)@),
        final(arena).spec_capacity() == old(arena).spec_capacity(),
        r.1 <= toks@.len(),
        r.0.is_ok() ==> pos <= r.1,
    decreases toks@.len() - pos, 6int,
{
    if pos < toks.len() && toks[pos].kind != TokenKind::RParen {
        let (r, q) = parse_expr(toks, pos, arena);
        match r {
            Ok(e) => {
                let mut acc = acc;
                acc.push(e);
                if q < toks.len() && toks[q].kind == TokenKind::Comma {
                    parse_call_args(toks, q + 1, acc, arena)
                } else {
                    (Ok(acc), q)
                }
            },
            Err(err) => (Err(err), q),
        }
    } else {
        (Ok(acc), pos)
    }
}

fn parse_paren_args(toks: &Vec<Token>, pos: usize, acc: Vec<NodeID>, arena: &mut Arena) -> (r: (Result<Vec<NodeID>, ParserError>, usize))
    requires
        pos <= toks@.len(),
    ensures
        grammar_paren_args(toks@, old(arena).spec_capacity(), pos as int, acc@, old(arena)@) == (lview(r.0), r.1 as int, final(arena)@),
        final(arena).spec_capacity() == old(arena).spec_capacity(),
        r.1 <= toks@.len(),
        r.0.is_ok() ==> pos <= r.1,
    decreases toks@.len() - pos, 6int,
{
    if !(pos < toks.len() && toks[pos].kind == TokenKind::RParen) {
        let (r, q) = parse_expr(toks, pos, arena);
        match r {
            Ok(e) => {
                let mut acc = acc;
                acc.push(e);
                if q < toks.len() && toks[q].kind == TokenKind::Comma {
                    parse_paren_args(toks, q + 1, acc, arena)
                } else {
                    (Ok(acc), q)
                }
            },
            Err(err) => (Err(err), q),
        }
    } else {
        (Ok(acc), pos)
    }
}

fn parse_paren_calls(toks: &Vec<Token>, e: NodeID, pos: usize, arena: &mut Arena) -> (r: (Result<NodeID, ParserError>, usize))
    requires
        pos <= toks@.len(),
    ensures
        grammar_paren_calls(toks@, old(arena).spec_capacity(), e, pos as int, old(arena)@) == (rview(r.0), r.1 as int, final(arena)@),
        final(arena).spec_capacity() == old(arena).spec_capacity(),
        r.1 <= toks@.len(),
        r.0.is_ok() ==> pos <= r.1,
    decreases toks@.len() - pos, 6int,
{
    if pos < toks.len() && toks[pos].kind == TokenKind::LParen {
        let (ra, q) = parse_paren_args(toks, pos + 1, Vec::new(), arena);
        let args = match ra {
            Err(err) => {
                return (Err(err), q);
            },
            Ok(args) => args,
        };
        let (re, q2) = expect(toks, q, TokenKind::RParen);
        match re {
            Err(err) => {
                return (Err(err), q2);
            },
            Ok(_) => {},
        }
        let rl = if args.len() == 0 {
            Ok(NodeID::invalid())
        } else if args.len() == 1 {
            Ok(args[0])
        } else {
            build_list_exec(&args, arena)
        };
        match rl {
            Err(err) => (Err(err), q2),
            Ok(list) => match alloc_in(arena, ASTNode::Call { func: e, args: list }) {
                Err(err) => (Err(err), q2),
                Ok(c) => parse_paren_calls(toks, c, q2, arena),
            },
        }
    } else {
        (Ok(e), pos)
    }
}

fn parse_quantifier(toks: &Vec<Token>, pos: usize, arena: &mut Arena, universal: bool) -> (r: (Result<NodeID, ParserError>, usize))
    requires
        pos <= toks@.len(),
    ensures
        grammar_quantifier(toks@, old(arena).spec_capacity(), pos as int, old(arena)@, universal) == (rview(r.0), r.1 as int, final(arena)@),
        final(arena).spec_capacity() == old(arena).spec_capacity(),
        r.1 <= toks@.len(),
        r.0.is_ok() ==> pos < r.1,
    decreases toks@.len() - pos, 6int,
{
    if pos >= toks.len() {
        return (Err(ParserError::UnexpectedEof), pos);
    }
    let vt = toks[pos];
    if vt.kind != TokenKind::Ident {
        let expected = if universal { "identifier after ∀" } else { "identifier after ∃" };
        return (Err(ParserError::Expected { expected, found: kind_name(vt.kind).to_owned(), line: vt.line, col: vt.col }), pos + 1);
    }
    let var = match alloc_in(arena, ASTNode::Ident(vt.start)) {
        Err(e) => {
            return (Err(e), pos + 1);
        },
        Ok(v) => v,
    };
    let (ri, q1) = expect(toks, pos + 1, TokenKind::In);
    match ri {
        Err(e) => {
            return (Err(e), q1);
        },
        Ok(_) => {},
    }
    let (rs, q2) = parse_expr(toks, q1, arena);
    let set = match rs {
        Err(e) => {
            return (Err(e), q2);
        },
        Ok(s) => s,
    };
    let (rc, q3) = expect(toks, q2, TokenKind::Colon);
    match rc {
        Err(e) => {
            return (Err(e), q3);
        },
        Ok(_) => {},
    }
    let (rb, q4) = parse_expr(toks, q3, arena);
    let body = match rb {
        Err(e) => {
            return (Err(e), q4);
        },
        Ok(b) => b,
    };
    let node = if universal {
        ASTNode::ForAll { var, set, body }
    } else {
        ASTNode::Exists { var, set, body }
    };
    (alloc_in(arena, node), q4)
}

fn parse_forall(toks: &Vec<Token>, pos: usize, arena: &mut Arena) -> (r: (Result<NodeID, ParserError>, usize))
    requires
        pos <= toks@.len(),
    ensures
        grammar_quantifier(toks@, old(arena).spec_capacity(), pos as int, old(arena)@, true) == (rview(r.0), r.1 as int, final(arena)@),
        final(arena).spec_capacity() == old(arena).spec_capacity(),
        r.1 <= toks@.len(),
        r.0.is_ok() ==> pos < r.1,
    decreases toks@.len() - pos, 7int,
{
    parse_quantifier(toks, pos, arena, true)
}

fn parse_exists(toks: &Vec<Token>, pos: usize, arena: &mut Arena) -> (r: (Result<NodeID, ParserError>, usize))
    requires
        pos <= toks@.len(),
    ensures
        grammar_quantifier(toks@, old(arena).spec_capacity(), pos as int, old(arena)@, false) == (rview(r.0), r.1 as int, final(arena)@),
        final(arena).spec_capacity() == old(arena).spec_capacity(),
        r.1 <= toks@.len(),
        r.0.is_ok() ==> pos < r.1,
    decreases toks@.len() - pos, 7int,
{
    parse_quantifier(toks, pos, arena, false)
}

fn parse_mu(toks: &Vec<Token>, pos: usize, arena: &mut Arena) -> (r: (Result<NodeID, ParserError>, usize))
    requires
        pos <= toks@.len(),
    ensures
        grammar_mu(toks@, old(arena).spec_capacity(), pos as int, old(arena)@) == (rview(r.0), r.1 as int, final(arena)@),
        final(arena).spec_capacity() == old(arena).spec_capacity(),
        r.1 <= toks@.len(),
        r.0.is_ok() ==> pos < r.1,
    decreases toks@.len() - pos, 6int,
{
    if pos >= toks.len() {
        return (Err(ParserError::UnexpectedEof), pos);
    }
    let vt = toks[pos];
    if vt.kind != TokenKind::Ident {
        return (
            Err(ParserError::Expected { expected: "identifier after μ", found: kind_name(vt.kind).to_owned(), line: vt.line, col: vt.col }),
            pos + 1,
        );
    }
    let var = match alloc_in(arena, ASTNode::Ident(vt.start)) {
        Err(e) => {
            return (Err(e), pos + 1);
        },
        Ok(v) => v,
    };
    let (rd, q1) = expect(toks, pos + 1, TokenKind::Dot);
    match rd {
        Err(e) => {
            return (Err(e), q1);
        },
        Ok(_) => {},
    }
    let (rb, q2) = parse_expr(toks, q1, arena);
    match rb {
        Err(e) => (Err(e), q2),
        Ok(body) => (alloc_in(arena, ASTNode::Mu { var, body }), q2),
    }
}

fn parse_set_literal(toks: &Vec<Token>, pos: usize, arena: &mut Arena) -> (r: (Result<NodeID, ParserError>, usize))
    requires
        pos <= toks@.len(),
    ensures
        grammar_set(toks@, old(arena).spec_capacity(), pos as int, old(arena)@) == (rview(r.0), r.1 as int, final(arena)@),
        final(arena).spec_capacity() == old(arena).spec_capacity(),
        r.1 <= toks@.len(),
        r.0.is_ok() ==> pos < r.1,
    decreases toks@.len() - pos, 6int,
{
    if pos < toks.len() && toks[pos].kind == TokenKind::RAngle {
        return (alloc_in(arena, ASTNode::SetLiteral { elems: NodeID::invalid() }), pos + 1);
    }
    let (r, q) = parse_expr(toks, pos, arena);
    let first = match r {
        Err(e) => {
            return (Err(e), q);
        },
        Ok(f) => f,
    };
    let mut elements: Vec<NodeID> = Vec::new();
    elements.push(first);
    proof {
        assert(elements@ =~= seq![first]);
    }
    let (rm, q2) = parse_set_more(toks, q, elements, arena);
    let elems = match rm {
        Err(e) => {
            return (Err(e), q2);
        },
        Ok(el) => el,
    };
    let (re, q3) = expect(toks, q2, TokenKind::RAngle);
    match re {
        Err(e) => {
            return (Err(e), q3);
        },
        Ok(_) => {},
    }
    match build_list_exec(&elems, arena) {
        Err(e) => (Err(e), q3),
        Ok(list) => (alloc_in(arena, ASTNode::SetLiteral { elems: list }), q3),
    }
}

fn parse_set_more(toks: &Vec<Token>, pos: usize, acc: Vec<NodeID>, arena: &mut Arena) -> (r: (Result<Vec<NodeID>, ParserError>, usize))
    requires
        pos <= toks@.len(),
    ensures
        grammar_set_more(toks@, old(arena).spec_capacity(), pos as int, acc@, old(arena)@) == (lview(r.0), r.1 as int, final(arena)@),
        final(arena).spec_capacity() == old(arena).spec_capacity(),
        r.1 <= toks@.len(),
        r.0.is_ok() ==> pos <= r.1,
    decreases toks@.len() - pos, 6int,
{
    if pos < toks.len() && toks[pos].kind == TokenKind::Comma {
        let (r, q) = parse_expr(toks, pos + 1, arena);
        match r {
            Err(e) => (Err(e), q),
            Ok(e) => {
                let mut acc = acc;
                acc.push(e);
                parse_set_more(toks, q, acc, arena)
            },
        }
    } else {
        (Ok(acc), pos)
    }
}

fn parse_primary(toks: &Vec<Token>, pos: usize, arena: &mut Arena) -> (r: (Result<NodeID, ParserError>, usize))
    requires
        pos <= toks@.len(),
    ensures
        grammar_primary(toks@, old(arena).spec_capacity(), pos as int, old(arena)@) == (rview(r.0), r.1 as int, final(arena)@),
        final(arena).spec_capacity() == old(arena).spec_capacity(),
        r.1 <= toks@.len(),
        r.0.is_ok() ==> pos < r.1,
    decreases toks@.len() - pos, 2int,
{
    if pos >= toks.len() {
        return (Err(ParserError::UnexpectedEof), pos);
    }
    let t = toks[pos];
    let p1 = pos + 1;
    match t.kind {
        TokenKind::Lambda => parse_lambda(toks, pos, arena),
        TokenKind::Num => (alloc_in(arena, ASTNode::Int(t.num)), p1),
        TokenKind::Ident => {
            if p1 < toks.len() && toks[p1].kind == TokenKind::LParen {
                let (ra, q) = parse_call_args(toks, p1 + 1, Vec::new(), arena);
                let args = match ra {
                    Err(e) => {
                        return (Err(e), q);
                    },
                    Ok(a) => a,
                };
                let (re, q2) = expect(toks, q, TokenKind::RParen);
                match re {
                    Err(e) => {
                        return (Err(e), q2);
                    },
                    Ok(_) => {},
                }
                let rl = if args.len() == 0 {
                    Ok(NodeID::invalid())
                } else {
                    build_list_exec(&args, arena)
                };
                let list = match rl {
                    Err(e) => {
                        return (Err(e), q2);
                    },
                    Ok(l) => l,
                };
                match alloc_in(arena, ASTNode::Str(0)) {
                    Err(e) => (Err(e), q2),
                    Ok(f) => (alloc_in(arena, ASTNode::Call { func: f, args: list }), q2),
                }
            } else {
                (alloc_in(arena, ASTNode::Ident(0)), p1)
            }
        },
        TokenKind::LParen => {
            let (r, q) = parse_expr(toks, p1, arena);
            let e = match r {
                Err(err) => {
                    return (Err(err), q);
                },
                Ok(e) => e,
            };
            let (re, q2) = expect(toks, q, TokenKind::RParen);
            match re {
                Err(err) => (Err(err), q2),
                Ok(_) => parse_paren_calls(toks, e, q2, arena),
            }
        },
        TokenKind::Forall => parse_forall(toks, p1, arena),
        TokenKind::Exists => parse_exists(toks, p1, arena),
        TokenKind::Mu => parse_mu(toks, p1, arena),
        TokenKind::LAngle => parse_set_literal(toks, p1, arena),
        TokenKind::Read => (alloc_in(arena, ASTNode::Call { func: NodeID::invalid(), args: NodeID::invalid() }), p1),
        TokenKind::Eof => (Err(ParserError::UnexpectedEof), p1),
        _ => (Err(ParserError::Expected { expected: "expression", found: kind_name(t.kind).to_owned(), line: t.line, col: t.col }), p1),
    }
}

fn parse_stmt(toks: &Vec<Token>, pos: usize, arena: &mut Arena) -> (r: (Result<NodeID, ParserError>, usize))
    requires
        pos <= toks@.len(),
    ensures
        grammar_stmt(toks@, old(arena).spec_capacity(), pos as int, old(arena)@) == (rview(r.0), r.1 as int, final(arena)@),
        final(arena).spec_capacity() == old(arena).spec_capacity(),
        r.1 <= toks@.len(),
        r.0.is_ok() ==> pos < r.1,
    decreases toks@.len() - pos, 7int,
{
    if pos >= toks.len() {
        return (Err(ParserError::UnexpectedEof), pos);
    }
    match toks[pos].kind {
        TokenKind::Print => {
            let (r, q) = parse_expr(toks, pos + 1, arena);
            match r {
                Err(e) => (Err(e), q),
                Ok(e) => (alloc_in(arena, ASTNode::Call { func: NodeID::invalid(), args: e }), q),
            }
        },
        TokenKind::Ident => {
            if pos + 1 < toks.len() && toks[pos + 1].kind == TokenKind::Assign {
                let (r, q) = parse_expr(toks, pos + 2, arena);
                match r {
                    Err(e) => (Err(e), q),
                    Ok(v) => match alloc_in(arena, ASTNode::Ident(0)) {
                        Err(e) => (Err(e), q),
                        Ok(l) => (alloc_in(arena, ASTNode::BinOp { op: 10, left: l, right: v }), q),
                    },
                }
            } else {
                parse_expr(toks, pos, arena)
            }
        },
        TokenKind::LBlock => {
            let (rs, q) = parse_block(toks, pos + 1, Vec::new(), arena);
            let stmts = match rs {
                Err(e) => {
                    return (Err(e), q);
                },
                Ok(s) => s,
            };
            let (re, q2) = expect(toks, q, TokenKind::RBlock);
            match re {
                Err(e) => (Err(e), q2),
                Ok(_) => if stmts.len() == 0 {
                    (alloc_in(arena, ASTNode::Empty), q2)
                } else {
                    (build_list_exec(&stmts, arena), q2)
                },
            }
        },
        _ => parse_expr(toks, pos, arena),
    }
}

fn parse_block(toks: &Vec<Token>, pos: usize, acc: Vec<NodeID>, arena: &mut Arena) -> (r: (Result<Vec<NodeID>, ParserError>, usize))
    requires
        pos <= toks@.len(),
    ensures
        grammar_block(toks@, old(arena).spec_capacity(), pos as int, acc@, old(arena)@) == (lview(r.0), r.1 as int, final(arena)@),
        final(arena).spec_capacity() == old(arena).spec_capacity(),
        r.1 <= toks@.len(),
        r.0.is_ok() ==> pos <= r.1,
    decreases toks@.len() - pos, 8int,
{
    if pos < toks.len() && toks[pos].kind != TokenKind::RBlock {
        let (r, q) = parse_stmt(toks, pos, arena);
        match r {
            Err(e) => (Err(e), q),
            Ok(s) => {
                let mut acc = acc;
                acc.push(s);
                if q < toks.len() && toks[q].kind == TokenKind::Diamond {
                    parse_block(toks, q + 1, acc, arena)
                } else {
                    (Ok(acc), q)
                }
            },
        }
    } else {
        (Ok(acc), pos)
    }
}

fn parse_stmts(toks: &Vec<Token>, pos: usize, acc: Vec<NodeID>, arena: &mut Arena) -> (r: (Result<Vec<NodeID>, ParserError>, usize))
    requires
        pos <= toks@.len(),
    ensures
        grammar_stmts(toks@, old(arena).spec_capacity(), pos as int, acc@, old(arena)@) == (lview(r.0), r.1 as int, final(arena)@),
        final(arena).spec_capacity() == old(arena).spec_capacity(),
        r.1 <= toks@.len(),
        r.0.is_ok() ==> pos <= r.1,
    decreases toks@.len() - pos, 9int,
{
    if pos < toks.len() && toks[pos].kind != TokenKind::Eof {
        let (r, q) = parse_stmt(toks, pos, arena);
        match r {
            Err(e) => (Err(e), q),
            Ok(s) => {
                let mut acc = acc;
                acc.push(s);
                parse_stmts(toks, q, acc, arena)
            },
        }
    } else {
        (Ok(acc), pos)
    }
}

/// Parser state over a token stream.
pub struct Parser {
    tokens: Vec<Token>,
    pos: usize,
}

impl Parser {
    /// The tokens being parsed.
    pub closed spec fn tokens(&self) -> Seq<Token> {
        self.tokens@
    }

    /// Position of the next token.
    pub closed spec fn position(&self) -> int {
        self.pos as int
    }

    /// Tokenize `src` and start at its first token; a lexer failure is
    /// returned as `ParserError::Lexer`.
    pub fn new(src: &str) -> (r: Result<Self, ParserError>)
        requires
            encode_utf8(src@).len() < u32::MAX,
        ensures
            match lex(src@) {
                Ok(toks) => r matches Ok(p) && p.tokens() == toks && p.position() == 0,
                Err(e) => r matches Err(err) && err == ParserError::Lexer(e),
            },
    {
        let mut lexer = Lexer::new(src);
        match lexer.tokenize() {
            Ok(tokens) => Ok(Parser { tokens, pos: 0 }),
            Err(e) => Err(ParserError::Lexer(e)),
        }
    }

    /// Parse a whole program from the first token.
    pub fn parse_program(&mut self, arena: &mut Arena) -> (r: Result<NodeID, ParserError>)
        requires
            old(self).position() == 0,
        ensures
            (rview(r), final(arena)@) == grammar_program(old(self).tokens(), old(arena).spec_capacity(), old(arena)@),
            final(arena).spec_capacity() == old(arena).spec_capacity(),
    {
        let (rs, q) = parse_stmts(&self.tokens, 0, Vec::new(), arena);
        self.pos = q;
        let stmts = match rs {
            Err(e) => {
                return Err(e);
            },
            Ok(s) => s,
        };
        let (re, q2) = expect(&self.tokens, q, TokenKind::Eof);
        self.pos = q2;
        match re {
            Err(e) => {
                return Err(e);
            },
            Ok(_) => {},
        }
        if stmts.len() == 0 {
            alloc_in(arena, ASTNode::Empty)
        } else if stmts.len() == 1 {
            Ok(stmts[0])
        } else {
            build_list_exec(&stmts, arena)
        }
    }
}

/// Parse source text into a syntax tree stored in `arena`; the result and
/// the arena's nodes afterwards are exactly `grammar_source`.
pub fn parse(src: &str, arena: &mut Arena) -> (r: Result<NodeID, ParserError>)
    requires
        encode_utf8(src@).len() < u32::MAX,
    ensures
        (rview(r), final(arena)@) == grammar_source(src@, old(arena).spec_capacity(), old(arena)@),
        final(arena).spec_capacity() == old(arena).spec_capacity(),
{
    let mut parser = match Parser::new(src) {
        Ok(p) => p,
        Err(e) => {
            return Err(e);
        },
    };
    parser.parse_program(arena)
}


} // verus!
