//! Deterministic tokenizer for the Mathematical Arabic Language.
//!
//! - ASCII digits only for numbers.
//! - Double-quoted strings, no escapes.
//! - Alphabetic (Unicode) identifiers; digits and underscore allowed after
//!   the first character.
//! - Fixed single-character symbol table, checked before identifiers.
//! - No comments: `/` is always the division sign.
//! - Fail-closed: invalid input yields a `LexerError`, never a panic.
//!
//! The whole tokenizer is specified by `lex_from`, a function on the
//! character sequence of the source; token offsets are UTF-8 byte offsets.
//!
//! Coverage: each token's span is exactly its own text (an identifier's
//! range is the identifier, a string's is the quoted string), so the token
//! lengths alone cannot add up to the source length: in `a b` neither
//! identifier can take the space. What holds instead, and is proved, is
//! coverage up to whitespace: the spans are disjoint, ascending and inside
//! the source (`law_tokens_well_placed`), and every other character is
//! whitespace (`law_tokens_cover_source`), so the token lengths plus the
//! whitespace between them add up to the source length.
use vstd::prelude::*;
use vstd::string::*;
use vstd::utf8::*;

verus! {

/// Kind of a lexical token.
#[derive(Debug, Clone, Copy, PartialEq, Eq, Structural)]
pub enum TokenKind {
    /// Integer literal (payload in `Token::num`).
    Num,
    /// Identifier (byte range into source).
    Ident,
    /// String literal including quotes (byte range into source).
    Str,
    /// `≔` assignment.
    Assign,
    /// `≡` definition.
    Define,
    /// `+`
    Plus,
    /// `-`
    Minus,
    /// `·` (also `*` and `×`).
    Mul,
    /// `⊕` concatenation.
    Concat,
    /// `(`
    LParen,
    /// `)`
    RParen,
    /// `,` or `،`
    Comma,
    /// `:`
    Colon,
    /// `.`
    Dot,
    /// `⟨`
    LAngle,
    /// `⟩`
    RAngle,
    /// `<`
    Lt,
    /// `>`
    Gt,
    /// `=`
    Eq,
    /// `≠`
    Neq,
    /// `؟`
    Question,
    /// `∀`
    Forall,
    /// `∃`
    Exists,
    /// `∈`
    In,
    /// `μ`
    Mu,
    /// `/`
    Div,
    /// `%`
    Mod,
    /// `^`
    Pow,
    /// `≤`
    Le,
    /// `≥`
    Ge,
    /// `¬`
    Not,
    /// `∧`
    And,
    /// `∨`
    Or,
    /// `λ`
    Lambda,
    /// `⊸` linear implication (ownership transfer)
    LinearImplication,
    /// `﴿`
    LBlock,
    /// `﴾`
    RBlock,
    /// `⋄`
    Diamond,
    /// `⊸` move.
    Move,
    /// `[`
    LBracket,
    /// `]`
    RBracket,
    /// `==`
    EqEq,
    /// `=>`
    FatArrow,
    /// `|`
    Pipe,
    /// `match` keyword
    MatchKeyword,
    /// `with` keyword
    WithKeyword,
    /// `⊙` read stdin.
    Read,
    /// `⎕` print.
    Print,
    /// `true` keyword
    TrueLit,
    /// `false` keyword
    FalseLit,
    // ═══ Relational Algebra Operators (SQL-like queries) ═══
    /// `σ` selection/filter
    Sigma,
    /// `π` projection
    Pi,
    /// `ρ` rename
    Rho,
    /// `γ` grouping/aggregation
    Gamma,
    /// `τ` sorting
    Tau,
    /// `⋈` join (natural/theta)
    Bowtie,
    /// `⟕` left outer join
    LeftOuterJoin,
    /// `⟖` right outer join
    RightOuterJoin,
    /// `⟗` full outer join
    FullOuterJoin,
    /// `⋉` left semi join
    LeftSemiJoin,
    /// `⋊` right semi join
    RightSemiJoin,
    /// `▷` anti join
    AntiJoin,
    // ═══ SQL Keywords (reserved for future use) ═══
    /// `SELECT`
    Select,
    /// `FROM`
    From,
    /// `WHERE`
    Where,
    /// `JOIN`
    Join,
    /// `ON`
    On,
    /// `LEFT`
    Left,
    /// `RIGHT`
    Right,
    /// `FULL`
    Full,
    /// `INNER`
    Inner,
    /// `OUTER`
    Outer,
    /// `CROSS`
    Cross,
    /// `NATURAL`
    Natural,
    /// `AS`
    As,
    /// `DISTINCT`
    Distinct,
    /// `ALL`
    All,
    /// `GROUP`
    Group,
    /// `BY`
    By,
    /// `HAVING`
    Having,
    /// `ORDER`
    Order,
    /// `LIMIT`
    Limit,
    /// `OFFSET`
    Offset,
    /// `ASC`
    Asc,
    /// `DESC`
    Desc,
    /// `NULL`
    Null,
    /// `IS`
    Is,
    /// `EXISTS`
    ExistsSql,
    /// `ANY`
    Any,
    /// `CASE`
    Case,
    /// `WHEN`
    When,
    /// `THEN`
    Then,
    /// `ELSE`
    Else,
    /// `END`
    End,
    /// `UNION`
    UnionSql,
    /// `INTERSECT`
    IntersectSql,
    /// `EXCEPT`
    ExceptSql,
    // ═══ Three-valued logic ═══
    /// `UNKNOWN` (for NULL semantics)
    Unknown,
    /// End of input.
    Eof,
}

/// A token: kind + byte range (or numeric payload) + position.
#[derive(Debug, Clone, Copy, PartialEq, Eq, Structural)]
pub struct Token {
    /// Token kind.
    pub kind: TokenKind,
    /// Start byte offset in source (meaningful for Ident/Str).
    pub start: u32,
    /// Byte length (meaningful for Ident/Str).
    pub len: u32,
    /// Numeric payload (meaningful for Num).
    pub num: i64,
    /// 1-based line number.
    pub line: u32,
    /// 1-based column number (in characters).
    pub col: u32,
}

/// Lexer failure modes (fail-closed).
#[derive(Debug, Clone, Copy, PartialEq, Eq, Structural)]
pub enum LexerError {
    /// Character not part of the language.
    UnexpectedChar {
        /// Line of the offending character.
        line: u32,
        /// Column of the offending character.
        col: u32,
    },
    /// String literal without closing quote.
    UnterminatedString {
        /// Line where the string started.
        line: u32,
        /// Column where the string started.
        col: u32,
    },
    /// Integer literal exceeds i64.
    NumberOverflow {
        /// Line where the number started.
        line: u32,
        /// Column where the number started.
        col: u32,
    },
}



/// The name of a token kind, as its variant is spelled.
pub open spec fn kind_text(k: TokenKind) -> Seq<char> {
    match k {
        TokenKind::Num => "Num"@,
        TokenKind::Ident => "Ident"@,
        TokenKind::Str => "Str"@,
        TokenKind::Assign => "Assign"@,
        TokenKind::Define => "Define"@,
        TokenKind::Plus => "Plus"@,
        TokenKind::Minus => "Minus"@,
        TokenKind::Mul => "Mul"@,
        TokenKind::Concat => "Concat"@,
        TokenKind::LParen => "LParen"@,
        TokenKind::RParen => "RParen"@,
        TokenKind::Comma => "Comma"@,
        TokenKind::Colon => "Colon"@,
        TokenKind::Dot => "Dot"@,
        TokenKind::LAngle => "LAngle"@,
        TokenKind::RAngle => "RAngle"@,
        TokenKind::Lt => "Lt"@,
        TokenKind::Gt => "Gt"@,
        TokenKind::Eq => "Eq"@,
        TokenKind::Neq => "Neq"@,
        TokenKind::Question => "Question"@,
        TokenKind::Forall => "Forall"@,
        TokenKind::Exists => "Exists"@,
        TokenKind::In => "In"@,
        TokenKind::Mu => "Mu"@,
        TokenKind::Div => "Div"@,
        TokenKind::Mod => "Mod"@,
        TokenKind::Pow => "Pow"@,
        TokenKind::Le => "Le"@,
        TokenKind::Ge => "Ge"@,
        TokenKind::Not => "Not"@,
        TokenKind::And => "And"@,
        TokenKind::Or => "Or"@,
        TokenKind::Lambda => "Lambda"@,
        TokenKind::LinearImplication => "LinearImplication"@,
        TokenKind::LBlock => "LBlock"@,
        TokenKind::RBlock => "RBlock"@,
        TokenKind::Diamond => "Diamond"@,
        TokenKind::Move => "Move"@,
        TokenKind::LBracket => "LBracket"@,
        TokenKind::RBracket => "RBracket"@,
        TokenKind::EqEq => "EqEq"@,
        TokenKind::FatArrow => "FatArrow"@,
        TokenKind::Pipe => "Pipe"@,
        TokenKind::MatchKeyword => "MatchKeyword"@,
        TokenKind::WithKeyword => "WithKeyword"@,
        TokenKind::Read => "Read"@,
        TokenKind::Print => "Print"@,
        TokenKind::TrueLit => "TrueLit"@,
        TokenKind::FalseLit => "FalseLit"@,
        TokenKind::Sigma => "Sigma"@,
        TokenKind::Pi => "Pi"@,
        TokenKind::Rho => "Rho"@,
        TokenKind::Gamma => "Gamma"@,
        TokenKind::Tau => "Tau"@,
        TokenKind::Bowtie => "Bowtie"@,
        TokenKind::LeftOuterJoin => "LeftOuterJoin"@,
        TokenKind::RightOuterJoin => "RightOuterJoin"@,
        TokenKind::FullOuterJoin => "FullOuterJoin"@,
        TokenKind::LeftSemiJoin => "LeftSemiJoin"@,
        TokenKind::RightSemiJoin => "RightSemiJoin"@,
        TokenKind::AntiJoin => "AntiJoin"@,
        TokenKind::Select => "Select"@,
        TokenKind::From => "From"@,
        TokenKind::Where => "Where"@,
        TokenKind::Join => "Join"@,
        TokenKind::On => "On"@,
        TokenKind::Left => "Left"@,
        TokenKind::Right => "Right"@,
        TokenKind::Full => "Full"@,
        TokenKind::Inner => "Inner"@,
        TokenKind::Outer => "Outer"@,
        TokenKind::Cross => "Cross"@,
        TokenKind::Natural => "Natural"@,
        TokenKind::As => "As"@,
        TokenKind::Distinct => "Distinct"@,
        TokenKind::All => "All"@,
        TokenKind::Group => "Group"@,
        TokenKind::By => "By"@,
        TokenKind::Having => "Having"@,
        TokenKind::Order => "Order"@,
        TokenKind::Limit => "Limit"@,
        TokenKind::Offset => "Offset"@,
        TokenKind::Asc => "Asc"@,
        TokenKind::Desc => "Desc"@,
        TokenKind::Null => "Null"@,
        TokenKind::Is => "Is"@,
        TokenKind::ExistsSql => "ExistsSql"@,
        TokenKind::Any => "Any"@,
        TokenKind::Case => "Case"@,
        TokenKind::When => "When"@,
        TokenKind::Then => "Then"@,
        TokenKind::Else => "Else"@,
        TokenKind::End => "End"@,
        TokenKind::UnionSql => "UnionSql"@,
        TokenKind::IntersectSql => "IntersectSql"@,
        TokenKind::ExceptSql => "ExceptSql"@,
        TokenKind::Unknown => "Unknown"@,
        TokenKind::Eof => "Eof"@,
    }
}

/// The name of a token kind, as its variant is spelled.
pub fn kind_name(k: TokenKind) -> (s: &'static str)
    ensures
        s@ == kind_text(k),
{
    match k {
        TokenKind::Num => "Num",
        TokenKind::Ident => "Ident",
        TokenKind::Str => "Str",
        TokenKind::Assign => "Assign",
        TokenKind::Define => "Define",
        TokenKind::Plus => "Plus",
        TokenKind::Minus => "Minus",
        TokenKind::Mul => "Mul",
        TokenKind::Concat => "Concat",
        TokenKind::LParen => "LParen",
        TokenKind::RParen => "RParen",
        TokenKind::Comma => "Comma",
        TokenKind::Colon => "Colon",
        TokenKind::Dot => "Dot",
        TokenKind::LAngle => "LAngle",
        TokenKind::RAngle => "RAngle",
        TokenKind::Lt => "Lt",
        TokenKind::Gt => "Gt",
        TokenKind::Eq => "Eq",
        TokenKind::Neq => "Neq",
        TokenKind::Question => "Question",
        TokenKind::Forall => "Forall",
        TokenKind::Exists => "Exists",
        TokenKind::In => "In",
        TokenKind::Mu => "Mu",
        TokenKind::Div => "Div",
        TokenKind::Mod => "Mod",
        TokenKind::Pow => "Pow",
        TokenKind::Le => "Le",
        TokenKind::Ge => "Ge",
        TokenKind::Not => "Not",
        TokenKind::And => "And",
        TokenKind::Or => "Or",
        TokenKind::Lambda => "Lambda",
        TokenKind::LinearImplication => "LinearImplication",
        TokenKind::LBlock => "LBlock",
        TokenKind::RBlock => "RBlock",
        TokenKind::Diamond => "Diamond",
        TokenKind::Move => "Move",
        TokenKind::LBracket => "LBracket",
        TokenKind::RBracket => "RBracket",
        TokenKind::EqEq => "EqEq",
        TokenKind::FatArrow => "FatArrow",
        TokenKind::Pipe => "Pipe",
        TokenKind::MatchKeyword => "MatchKeyword",
        TokenKind::WithKeyword => "WithKeyword",
        TokenKind::Read => "Read",
        TokenKind::Print => "Print",
        TokenKind::TrueLit => "TrueLit",
        TokenKind::FalseLit => "FalseLit",
        TokenKind::Sigma => "Sigma",
        TokenKind::Pi => "Pi",
        TokenKind::Rho => "Rho",
        TokenKind::Gamma => "Gamma",
        TokenKind::Tau => "Tau",
        TokenKind::Bowtie => "Bowtie",
        TokenKind::LeftOuterJoin => "LeftOuterJoin",
        TokenKind::RightOuterJoin => "RightOuterJoin",
        TokenKind::FullOuterJoin => "FullOuterJoin",
        TokenKind::LeftSemiJoin => "LeftSemiJoin",
        TokenKind::RightSemiJoin => "RightSemiJoin",
        TokenKind::AntiJoin => "AntiJoin",
        TokenKind::Select => "Select",
        TokenKind::From => "From",
        TokenKind::Where => "Where",
        TokenKind::Join => "Join",
        TokenKind::On => "On",
        TokenKind::Left => "Left",
        TokenKind::Right => "Right",
        TokenKind::Full => "Full",
        TokenKind::Inner => "Inner",
        TokenKind::Outer => "Outer",
        TokenKind::Cross => "Cross",
        TokenKind::Natural => "Natural",
        TokenKind::As => "As",
        TokenKind::Distinct => "Distinct",
        TokenKind::All => "All",
        TokenKind::Group => "Group",
        TokenKind::By => "By",
        TokenKind::Having => "Having",
        TokenKind::Order => "Order",
        TokenKind::Limit => "Limit",
        TokenKind::Offset => "Offset",
        TokenKind::Asc => "Asc",
        TokenKind::Desc => "Desc",
        TokenKind::Null => "Null",
        TokenKind::Is => "Is",
        TokenKind::ExistsSql => "ExistsSql",
        TokenKind::Any => "Any",
        TokenKind::Case => "Case",
        TokenKind::When => "When",
        TokenKind::Then => "Then",
        TokenKind::Else => "Else",
        TokenKind::End => "End",
        TokenKind::UnionSql => "UnionSql",
        TokenKind::IntersectSql => "IntersectSql",
        TokenKind::ExceptSql => "ExceptSql",
        TokenKind::Unknown => "Unknown",
        TokenKind::Eof => "Eof",
    }
}

// ─── Character classes ────────────────────────────────────────────────

/// Whether `c` has the Unicode `White_Space` property, as
/// `char::is_whitespace` does: U+0009–U+000D, U+0020, U+0085, U+00A0,
/// U+1680, U+2000–U+200A, U+2028, U+2029, U+202F, U+205F and U+3000.
pub open spec fn unicode_whitespace(c: char) -> bool {
    ||| '\u{9}' <= c <= '\u{d}'
    ||| c == ' '
    ||| c == '\u{85}'
    ||| c == '\u{a0}'
    ||| c == '\u{1680}'
    ||| '\u{2000}' <= c <= '\u{200a}'
    ||| c == '\u{2028}'
    ||| c == '\u{2029}'
    ||| c == '\u{202f}'
    ||| c == '\u{205f}'
    ||| c == '\u{3000}'
}

/// Whether `c` has the Unicode `Alphabetic` property (`char::is_alphabetic`).
pub uninterp spec fn unicode_alphabetic(c: char) -> bool;

/// Whether `c` is Unicode white space.
pub(crate) fn char_is_whitespace(c: char) -> (b: bool)
    ensures
        b == unicode_whitespace(c),
{
    ('\u{9}' <= c && c <= '\u{d}') || c == ' ' || c == '\u{85}' || c == '\u{a0}' || c == '\u{1680}' || ('\u{2000}'
        <= c && c <= '\u{200a}') || c == '\u{2028}' || c == '\u{2029}' || c == '\u{202f}' || c == '\u{205f}' || c
        == '\u{3000}'
}

/// Calls `char::is_alphabetic`, whose result is the Unicode `Alphabetic`
/// property of the character, named `unicode_alphabetic`.
#[verifier::external_body]
fn char_is_alphabetic(c: char) -> (b: bool)
    ensures
        b == unicode_alphabetic(c),
{
    c.is_alphabetic()
}

/// ASCII decimal digit.
pub open spec fn is_digit(c: char) -> bool {
    '0' <= c && c <= '9'
}

/// A character that may start an identifier.
pub open spec fn ident_start(c: char) -> bool {
    unicode_alphabetic(c) || c == '_'
}

/// A character that may continue an identifier.
pub open spec fn ident_continue(c: char) -> bool {
    unicode_alphabetic(c) || c == '_' || is_digit(c)
}

/// The single-character symbol table.
pub open spec fn spec_symbol_kind(c: char) -> Option<TokenKind> {
    match c {
        '[' => Some(TokenKind::LBracket),
        ']' => Some(TokenKind::RBracket),
        '|' => Some(TokenKind::Pipe),
        '≔' => Some(TokenKind::Assign),
        '≡' => Some(TokenKind::Define),
        '+' => Some(TokenKind::Plus),
        '-' => Some(TokenKind::Minus),
        '·' | '*' | '×' => Some(TokenKind::Mul),
        '⊕' => Some(TokenKind::Concat),
        '(' => Some(TokenKind::LParen),
        ')' => Some(TokenKind::RParen),
        ',' | '،' => Some(TokenKind::Comma),
        ':' => Some(TokenKind::Colon),
        '.' => Some(TokenKind::Dot),
        '⟨' => Some(TokenKind::LAngle),
        '⟩' => Some(TokenKind::RAngle),
        '<' => Some(TokenKind::Lt),
        '>' => Some(TokenKind::Gt),
        '=' => Some(TokenKind::Eq),
        '≠' => Some(TokenKind::Neq),
        '/' => Some(TokenKind::Div),
        '%' => Some(TokenKind::Mod),
        '^' => Some(TokenKind::Pow),
        '≤' => Some(TokenKind::Le),
        '≥' => Some(TokenKind::Ge),
        '¬' => Some(TokenKind::Not),
        '!' => Some(TokenKind::Not),
        '∧' => Some(TokenKind::And),
        '∨' => Some(TokenKind::Or),
        '؟' => Some(TokenKind::Question),
        '∀' => Some(TokenKind::Forall),
        '∃' => Some(TokenKind::Exists),
        '∈' => Some(TokenKind::In),
        'μ' => Some(TokenKind::Mu),
        'λ' => Some(TokenKind::Lambda),
        '﴿' => Some(TokenKind::LBlock),
        '﴾' => Some(TokenKind::RBlock),
        '⋄' => Some(TokenKind::Diamond),
        '⊸' => Some(TokenKind::LinearImplication),
        '⊙' => Some(TokenKind::Read),
        '⎕' => Some(TokenKind::Print),
        'σ' => Some(TokenKind::Sigma),
        'π' => Some(TokenKind::Pi),
        'ρ' => Some(TokenKind::Rho),
        'γ' => Some(TokenKind::Gamma),
        'τ' => Some(TokenKind::Tau),
        '⋈' => Some(TokenKind::Bowtie),
        '⟕' => Some(TokenKind::LeftOuterJoin),
        '⟖' => Some(TokenKind::RightOuterJoin),
        '⟗' => Some(TokenKind::FullOuterJoin),
        '⋉' => Some(TokenKind::LeftSemiJoin),
        '⋊' => Some(TokenKind::RightSemiJoin),
        '▷' => Some(TokenKind::AntiJoin),
        _ => None,
    }
}

fn symbol_kind(c: char) -> (r: Option<TokenKind>)
    ensures
        r == spec_symbol_kind(c),
{
    match c {
        '[' => Some(TokenKind::LBracket),
        ']' => Some(TokenKind::RBracket),
        '|' => Some(TokenKind::Pipe),
        '≔' => Some(TokenKind::Assign),
        '≡' => Some(TokenKind::Define),
        '+' => Some(TokenKind::Plus),
        '-' => Some(TokenKind::Minus),
        '·' | '*' | '×' => Some(TokenKind::Mul),
        '⊕' => Some(TokenKind::Concat),
        '(' => Some(TokenKind::LParen),
        ')' => Some(TokenKind::RParen),
        ',' | '،' => Some(TokenKind::Comma),
        ':' => Some(TokenKind::Colon),
        '.' => Some(TokenKind::Dot),
        '⟨' => Some(TokenKind::LAngle),
        '⟩' => Some(TokenKind::RAngle),
        '<' => Some(TokenKind::Lt),
        '>' => Some(TokenKind::Gt),
        '=' => Some(TokenKind::Eq),
        '≠' => Some(TokenKind::Neq),
        '/' => Some(TokenKind::Div),
        '%' => Some(TokenKind::Mod),
        '^' => Some(TokenKind::Pow),
        '≤' => Some(TokenKind::Le),
        '≥' => Some(TokenKind::Ge),
        '¬' => Some(TokenKind::Not),
        '!' => Some(TokenKind::Not),
        '∧' => Some(TokenKind::And),
        '∨' => Some(TokenKind::Or),
        '؟' => Some(TokenKind::Question),
        '∀' => Some(TokenKind::Forall),
        '∃' => Some(TokenKind::Exists),
        '∈' => Some(TokenKind::In),
        'μ' => Some(TokenKind::Mu),
        'λ' => Some(TokenKind::Lambda),
        '﴿' => Some(TokenKind::LBlock),
        '﴾' => Some(TokenKind::RBlock),
        '⋄' => Some(TokenKind::Diamond),
        '⊸' => Some(TokenKind::LinearImplication),
        '⊙' => Some(TokenKind::Read),
        '⎕' => Some(TokenKind::Print),
        'σ' => Some(TokenKind::Sigma),
        'π' => Some(TokenKind::Pi),
        'ρ' => Some(TokenKind::Rho),
        'γ' => Some(TokenKind::Gamma),
        'τ' => Some(TokenKind::Tau),
        '⋈' => Some(TokenKind::Bowtie),
        '⟕' => Some(TokenKind::LeftOuterJoin),
        '⟖' => Some(TokenKind::RightOuterJoin),
        '⟗' => Some(TokenKind::FullOuterJoin),
        '⋉' => Some(TokenKind::LeftSemiJoin),
        '⋊' => Some(TokenKind::RightSemiJoin),
        '▷' => Some(TokenKind::AntiJoin),
        _ => None,
    }
}

/// Keyword classification of an identifier's text.
pub open spec fn keyword_kind(text: Seq<char>) -> TokenKind {
    if text == "true"@ {
        TokenKind::TrueLit
    } else if text == "false"@ {
        TokenKind::FalseLit
    } else if text == "unknown"@ || text == "UNKNOWN"@ {
        TokenKind::Unknown
    } else if text == "match"@ {
        TokenKind::MatchKeyword
    } else if text == "with"@ {
        TokenKind::WithKeyword
    } else if text == "select"@ || text == "SELECT"@ {
        TokenKind::Select
    } else if text == "from"@ || text == "FROM"@ {
        TokenKind::From
    } else if text == "where"@ || text == "WHERE"@ {
        TokenKind::Where
    } else if text == "join"@ || text == "JOIN"@ {
        TokenKind::Join
    } else if text == "on"@ || text == "ON"@ {
        TokenKind::On
    } else if text == "left"@ || text == "LEFT"@ {
        TokenKind::Left
    } else if text == "right"@ || text == "RIGHT"@ {
        TokenKind::Right
    } else if text == "full"@ || text == "FULL"@ {
        TokenKind::Full
    } else if text == "inner"@ || text == "INNER"@ {
        TokenKind::Inner
    } else if text == "outer"@ || text == "OUTER"@ {
        TokenKind::Outer
    } else if text == "cross"@ || text == "CROSS"@ {
        TokenKind::Cross
    } else if text == "natural"@ || text == "NATURAL"@ {
        TokenKind::Natural
    } else if text == "as"@ || text == "AS"@ {
        TokenKind::As
    } else if text == "distinct"@ || text == "DISTINCT"@ {
        TokenKind::Distinct
    } else if text == "all"@ || text == "ALL"@ {
        TokenKind::All
    } else if text == "group"@ || text == "GROUP"@ {
        TokenKind::Group
    } else if text == "by"@ || text == "BY"@ {
        TokenKind::By
    } else if text == "having"@ || text == "HAVING"@ {
        TokenKind::Having
    } else if text == "order"@ || text == "ORDER"@ {
        TokenKind::Order
    } else if text == "limit"@ || text == "LIMIT"@ {
        TokenKind::Limit
    } else if text == "offset"@ || text == "OFFSET"@ {
        TokenKind::Offset
    } else if text == "asc"@ || text == "ASC"@ {
        TokenKind::Asc
    } else if text == "desc"@ || text == "DESC"@ {
        TokenKind::Desc
    } else if text == "null"@ || text == "NULL"@ {
        TokenKind::Null
    } else if text == "is"@ || text == "IS"@ {
        TokenKind::Is
    } else if text == "exists"@ || text == "EXISTS"@ {
        TokenKind::ExistsSql
    } else if text == "in"@ || text == "IN"@ {
        TokenKind::In
    } else if text == "any"@ || text == "ANY"@ {
        TokenKind::Any
    } else if text == "case"@ || text == "CASE"@ {
        TokenKind::Case
    } else if text == "when"@ || text == "WHEN"@ {
        TokenKind::When
    } else if text == "then"@ || text == "THEN"@ {
        TokenKind::Then
    } else if text == "else"@ || text == "ELSE"@ {
        TokenKind::Else
    } else if text == "end"@ || text == "END"@ {
        TokenKind::End
    } else if text == "union"@ || text == "UNION"@ {
        TokenKind::UnionSql
    } else if text == "intersect"@ || text == "INTERSECT"@ {
        TokenKind::IntersectSql
    } else if text == "except"@ || text == "EXCEPT"@ {
        TokenKind::ExceptSql
    } else {
        TokenKind::Ident
    }
}

// ─── Positions ────────────────────────────────────────────────────────

/// UTF-8 byte offset of character index `k` in `s`.
pub open spec fn byte_offset(s: Seq<char>, k: int) -> int {
    encode_utf8(s.take(k)).len() as int
}

/// 1-based (line, column) of character index `k` in `s`: a newline starts a
/// new line at column 1, any other character advances the column.
pub open spec fn line_col(s: Seq<char>, k: int) -> (int, int)
    decreases k,
{
    if k <= 0 {
        (1, 1)
    } else {
        let (l, c) = line_col(s, k - 1);
        if s[k - 1] == '\n' {
            (l + 1, 1)
        } else {
            (l, c + 1)
        }
    }
}

// ─── Scanning ─────────────────────────────────────────────────────────

/// First index at or after `i` that is not whitespace.
pub open spec fn skip_ws(s: Seq<char>, i: int) -> int
    decreases s.len() - i,
{
    if 0 <= i < s.len() && unicode_whitespace(s[i]) {
        skip_ws(s, i + 1)
    } else {
        i
    }
}

/// First index at or after `i` that is not an ASCII digit.
pub open spec fn digits_end(s: Seq<char>, i: int) -> int
    decreases s.len() - i,
{
    if 0 <= i < s.len() && is_digit(s[i]) {
        digits_end(s, i + 1)
    } else {
        i
    }
}

/// Decimal value of the digits `s[i..j]`.
pub open spec fn digits_value(s: Seq<char>, i: int, j: int) -> int
    decreases j - i,
{
    if j <= i {
        0
    } else {
        digits_value(s, i, j - 1) * 10 + (s[j - 1] as int - 48)
    }
}

/// First index at or after `i` holding a double quote, or `s.len()`.
pub open spec fn quote_end(s: Seq<char>, i: int) -> int
    decreases s.len() - i,
{
    if 0 <= i < s.len() && s[i] != '"' {
        quote_end(s, i + 1)
    } else {
        i
    }
}


/// First index at or after `i` that cannot continue an identifier.
pub open spec fn ident_end(s: Seq<char>, i: int) -> int
    decreases s.len() - i,
{
    if 0 <= i < s.len() && ident_continue(s[i]) {
        ident_end(s, i + 1)
    } else {
        i
    }
}


/// Outcome of scanning one token at a non-whitespace position.
pub enum ScanStep {
    /// A token of this kind ends before `end`; `num` is its numeric payload.
    Emit { kind: TokenKind, end: int, num: i64 },
    /// Lexing fails.
    Fail { err: LexerError },
}

/// What the tokenizer does at position `j`, which holds no whitespace.
pub open spec fn scan(s: Seq<char>, j: int) -> ScanStep {
    let c = s[j];
    let line = line_col(s, j).0 as u32;
    let col = line_col(s, j).1 as u32;
    if is_digit(c) {
        let e = digits_end(s, j);
        let v = digits_value(s, j, e);
        if v > i64::MAX {
            ScanStep::Fail { err: LexerError::NumberOverflow { line, col } }
        } else {
            ScanStep::Emit { kind: TokenKind::Num, end: e, num: v as i64 }
        }
    } else if c == '"' {
        let q = quote_end(s, j + 1);
        if q >= s.len() {
            ScanStep::Fail { err: LexerError::UnterminatedString { line, col } }
        } else {
            ScanStep::Emit { kind: TokenKind::Str, end: q + 1, num: 0 }
        }
    } else if c == '=' {
        if j + 1 < s.len() && s[j + 1] == '=' {
            ScanStep::Emit { kind: TokenKind::EqEq, end: j + 2, num: 0 }
        } else if j + 1 < s.len() && s[j + 1] == '>' {
            ScanStep::Emit { kind: TokenKind::FatArrow, end: j + 2, num: 0 }
        } else {
            ScanStep::Emit { kind: TokenKind::Eq, end: j + 1, num: 0 }
        }
    } else if spec_symbol_kind(c) is Some {
        ScanStep::Emit { kind: spec_symbol_kind(c)->0, end: j + 1, num: 0 }
    } else if ident_start(c) {
        let e = ident_end(s, j + 1);
        ScanStep::Emit { kind: keyword_kind(s.subrange(j, e)), end: e, num: 0 }
    } else {
        ScanStep::Fail { err: LexerError::UnexpectedChar { line, col } }
    }
}

/// The token of kind `kind` that spans characters `j..end`.
pub open spec fn mk_token(s: Seq<char>, j: int, end: int, kind: TokenKind, num: i64) -> Token {
    Token {
        kind,
        start: byte_offset(s, j) as u32,
        len: (byte_offset(s, end) - byte_offset(s, j)) as u32,
        num,
        line: line_col(s, j).0 as u32,
        col: line_col(s, j).1 as u32,
    }
}

/// Tokens of `s` from character index `i` on: whitespace is skipped, each
/// step emits a token or fails, and the sequence ends with
/// an `Eof` token at the end of the input.
pub open spec fn lex_from(s: Seq<char>, i: int) -> Result<Seq<Token>, LexerError>
    decreases s.len() - i,
    when 0 <= i
{
    let j = skip_ws(s, i);
    if j >= s.len() {
        Ok(seq![mk_token(s, j, j, TokenKind::Eof, 0)])
    } else {
        proof {
            lemma_skip_ws(s, i);
            lemma_scan_progress(s, j);
        }
        match scan(s, j) {
            ScanStep::Emit { kind, end, num } => match lex_from(s, end) {
                Ok(rest) => Ok(seq![mk_token(s, j, end, kind, num)] + rest),
                Err(e) => Err(e),
            },
            ScanStep::Fail { err } => Err(err),
        }
    }
}

/// Tokens of the whole character sequence `s`.
pub open spec fn lex(s: Seq<char>) -> Result<Seq<Token>, LexerError> {
    lex_from(s, 0)
}

/// `r` with `prefix` put in front of its tokens.
pub open spec fn prepend(prefix: Seq<Token>, r: Result<Seq<Token>, LexerError>) -> Result<Seq<Token>, LexerError> {
    match r {
        Ok(t) => Ok(prefix + t),
        Err(e) => Err(e),
    }
}

// ─── Lemmas ───────────────────────────────────────────────────────────

pub proof fn lemma_skip_ws(s: Seq<char>, i: int)
    requires
        0 <= i,
    ensures
        i <= skip_ws(s, i),
        i <= s.len() ==> skip_ws(s, i) <= s.len(),
        skip_ws(s, i) < s.len() ==> !unicode_whitespace(s[skip_ws(s, i)]),
        forall|k: int| i <= k < skip_ws(s, i) ==> unicode_whitespace(#[trigger] s[k]),
    decreases s.len() - i,
{
    if 0 <= i < s.len() && unicode_whitespace(s[i]) {
        lemma_skip_ws(s, i + 1);
    }
}

proof fn lemma_digits_end(s: Seq<char>, i: int)
    requires
        0 <= i <= s.len(),
    ensures
        i <= digits_end(s, i) <= s.len(),
        forall|k: int| i <= k < digits_end(s, i) ==> is_digit(#[trigger] s[k]),
        digits_end(s, i) < s.len() ==> !is_digit(s[digits_end(s, i)]),
    decreases s.len() - i,
{
    if i < s.len() && is_digit(s[i]) {
        lemma_digits_end(s, i + 1);
    }
}

proof fn lemma_quote_end(s: Seq<char>, i: int)
    requires
        0 <= i <= s.len(),
    ensures
        i <= quote_end(s, i) <= s.len(),
        forall|k: int| i <= k < quote_end(s, i) ==> #[trigger] s[k] != '"',
        quote_end(s, i) < s.len() ==> s[quote_end(s, i)] == '"',
    decreases s.len() - i,
{
    if i < s.len() && s[i] != '"' {
        lemma_quote_end(s, i + 1);
    }
}


proof fn lemma_ident_end(s: Seq<char>, i: int)
    requires
        0 <= i <= s.len(),
    ensures
        i <= ident_end(s, i) <= s.len(),
        ident_end(s, i) < s.len() ==> !ident_continue(s[ident_end(s, i)]),
    decreases s.len() - i,
{
    if i < s.len() && ident_continue(s[i]) {
        lemma_ident_end(s, i + 1);
    }
}


/// Every emitted token consumes at least one character and ends within
/// the input.
pub proof fn lemma_scan_progress(s: Seq<char>, j: int)
    requires
        0 <= j < s.len(),
    ensures
        scan(s, j) matches ScanStep::Emit { end, .. } ==> j < end <= s.len(),
{
    lemma_digits_end(s, j);
    lemma_quote_end(s, j + 1);
    lemma_ident_end(s, j + 1);
}

proof fn lemma_encode_append(a: Seq<char>, b: Seq<char>)
    ensures
        encode_utf8(a + b) == encode_utf8(a) + encode_utf8(b),
    decreases a.len(),
{
    if a.len() == 0 {
        assert(a + b =~= b);
        assert(encode_utf8(a) =~= Seq::<u8>::empty());
        assert(encode_utf8(a) + encode_utf8(b) =~= encode_utf8(b));
    } else {
        assert((a + b).drop_first() =~= a.drop_first() + b);
        lemma_encode_append(a.drop_first(), b);
        assert(encode_utf8(a) + encode_utf8(b) =~= encode_scalar(a[0] as u32) + (encode_utf8(a.drop_first()) + encode_utf8(b)));
    }
}

proof fn lemma_encode_single(c: char)
    ensures
        encode_utf8(seq![c]) == encode_scalar(c as u32),
{
    assert(seq![c].drop_first() =~= Seq::<char>::empty());
    assert(encode_utf8(Seq::<char>::empty()) =~= Seq::<u8>::empty());
    assert(encode_scalar(c as u32) + Seq::<u8>::empty() =~= encode_scalar(c as u32));
}

proof fn lemma_encode_len_at_least(s: Seq<char>)
    ensures
        encode_utf8(s).len() >= s.len(),
    decreases s.len(),
{
    if s.len() > 0 {
        lemma_encode_len_at_least(s.drop_first());
    }
}

/// One more character advances the byte offset by that character's width.
proof fn lemma_byte_offset_step(s: Seq<char>, k: int)
    requires
        0 <= k < s.len(),
    ensures
        byte_offset(s, k + 1) == byte_offset(s, k) + encode_scalar(s[k] as u32).len(),
{
    assert(s.take(k + 1) =~= s.take(k) + seq![s[k]]);
    lemma_encode_append(s.take(k), seq![s[k]]);
    lemma_encode_single(s[k]);
}

/// Byte offsets grow with the index, stay within the whole encoding, and
/// are at least the character index.
proof fn lemma_byte_offset_bounds(s: Seq<char>, k: int)
    requires
        0 <= k <= s.len(),
    ensures
        k <= byte_offset(s, k) <= encode_utf8(s).len(),
{
    assert(s =~= s.take(k) + s.skip(k));
    lemma_encode_append(s.take(k), s.skip(k));
    lemma_encode_len_at_least(s.take(k));
}

proof fn lemma_line_col_bounds(s: Seq<char>, k: int)
    requires
        0 <= k,
    ensures
        1 <= line_col(s, k).0 <= k + 1,
        1 <= line_col(s, k).1 <= k + 1,
    decreases k,
{
    if k > 0 {
        lemma_line_col_bounds(s, k - 1);
    }
}

proof fn lemma_digits_value_mono(s: Seq<char>, i: int, k: int, e: int)
    requires
        0 <= i <= k <= e <= s.len(),
        forall|m: int| i <= m < e ==> is_digit(#[trigger] s[m]),
    ensures
        0 <= digits_value(s, i, k) <= digits_value(s, i, e),
    decreases e - k,
{
    if k < e {
        lemma_digits_value_mono(s, i, k, e - 1);
        lemma_digits_value_nonneg(s, i, e - 1);
        assert(is_digit(s[e - 1]));
    } else {
        lemma_digits_value_nonneg(s, i, e);
    }
}

proof fn lemma_digits_value_nonneg(s: Seq<char>, i: int, k: int)
    requires
        0 <= i <= k <= s.len(),
        forall|m: int| i <= m < k ==> is_digit(#[trigger] s[m]),
    ensures
        0 <= digits_value(s, i, k),
    decreases k - i,
{
    if k > i {
        lemma_digits_value_nonneg(s, i, k - 1);
        assert(is_digit(s[k - 1]));
    }
}


/// `r` describes what `scan` does at `j`, and `pos` is where scanning stopped.
spec fn scan_agrees(s: Seq<char>, j: int, r: Scanned, pos: int) -> bool {
    match scan(s, j) {
        ScanStep::Emit { kind, end, num } => r == Scanned::Emit(mk_token(s, j, end, kind, num)) && pos == end,
        ScanStep::Fail { err } => r == Scanned::Failed(err),
    }
}

proof fn lemma_byte_offset_mono(s: Seq<char>, a: int, b: int)
    requires
        0 <= a <= b <= s.len(),
    ensures
        byte_offset(s, a) <= byte_offset(s, b) <= encode_utf8(s).len(),
{
    assert(s.take(b) =~= s.take(a) + s.subrange(a, b));
    lemma_encode_append(s.take(a), s.subrange(a, b));
    lemma_byte_offset_bounds(s, b);
}

proof fn lemma_prepend_empty(r: Result<Seq<Token>, LexerError>)
    ensures
        prepend(Seq::<Token>::empty(), r) == r,
{
    match r {
        Ok(t) => {
            assert(Seq::<Token>::empty() + t =~= t);
        },
        Err(_) => {},
    }
}

proof fn lemma_prepend_push(out: Seq<Token>, t: Token, r: Result<Seq<Token>, LexerError>)
    ensures
        prepend(out, prepend(seq![t], r)) == prepend(out.push(t), r),
{
    match r {
        Ok(x) => {
            assert(out + (seq![t] + x) =~= out.push(t) + x);
        },
        Err(_) => {},
    }
}

// ─── Executable lexer ─────────────────────────────────────────────────

/// UTF-8 width of a character.
fn utf8_width(c: char) -> (w: u32)
    ensures
        w == encode_scalar(c as u32).len(),
{
    let v = c as u32;
    if v <= 0x7F {
        1
    } else if v <= 0x7FF {
        2
    } else if v <= 0xFFFF {
        3
    } else {
        4
    }
}

/// Whether `chars[i..j]` spells `w`.
fn word_is(chars: &Vec<char>, i: usize, j: usize, w: &str) -> (b: bool)
    requires
        i <= j <= chars@.len(),
    ensures
        b == (chars@.subrange(i as int, j as int) == w@),
{
    let n = w.unicode_len();
    if j - i != n {
        assert(chars@.subrange(i as int, j as int).len() != w@.len());
        return false;
    }
    let mut k: usize = 0;
    while k < n
        invariant
            n == w@.len(),
            j - i == n,
            i <= j <= chars@.len(),
            k <= n,
            forall|m: int| 0 <= m < k ==> chars@[i + m] == #[trigger] w@[m],
        decreases n - k,
    {
        if chars[i + k] != w.get_char(k) {
            assert(chars@.subrange(i as int, j as int)[k as int] != w@[k as int]);
            return false;
        }
        k = k + 1;
    }
    assert(chars@.subrange(i as int, j as int) =~= w@);
    true
}

fn keyword_kind_exec(chars: &Vec<char>, i: usize, j: usize) -> (k: TokenKind)
    requires
        i <= j <= chars@.len(),
    ensures
        k == keyword_kind(chars@.subrange(i as int, j as int)),
{
    if word_is(chars, i, j, "true") {
        TokenKind::TrueLit
    } else if word_is(chars, i, j, "false") {
        TokenKind::FalseLit
    } else if word_is(chars, i, j, "unknown") || word_is(chars, i, j, "UNKNOWN") {
        TokenKind::Unknown
    } else if word_is(chars, i, j, "match") {
        TokenKind::MatchKeyword
    } else if word_is(chars, i, j, "with") {
        TokenKind::WithKeyword
    } else if word_is(chars, i, j, "select") || word_is(chars, i, j, "SELECT") {
        TokenKind::Select
    } else if word_is(chars, i, j, "from") || word_is(chars, i, j, "FROM") {
        TokenKind::From
    } else if word_is(chars, i, j, "where") || word_is(chars, i, j, "WHERE") {
        TokenKind::Where
    } else if word_is(chars, i, j, "join") || word_is(chars, i, j, "JOIN") {
        TokenKind::Join
    } else if word_is(chars, i, j, "on") || word_is(chars, i, j, "ON") {
        TokenKind::On
    } else if word_is(chars, i, j, "left") || word_is(chars, i, j, "LEFT") {
        TokenKind::Left
    } else if word_is(chars, i, j, "right") || word_is(chars, i, j, "RIGHT") {
        TokenKind::Right
    } else if word_is(chars, i, j, "full") || word_is(chars, i, j, "FULL") {
        TokenKind::Full
    } else if word_is(chars, i, j, "inner") || word_is(chars, i, j, "INNER") {
        TokenKind::Inner
    } else if word_is(chars, i, j, "outer") || word_is(chars, i, j, "OUTER") {
        TokenKind::Outer
    } else if word_is(chars, i, j, "cross") || word_is(chars, i, j, "CROSS") {
        TokenKind::Cross
    } else if word_is(chars, i, j, "natural") || word_is(chars, i, j, "NATURAL") {
        TokenKind::Natural
    } else if word_is(chars, i, j, "as") || word_is(chars, i, j, "AS") {
        TokenKind::As
    } else if word_is(chars, i, j, "distinct") || word_is(chars, i, j, "DISTINCT") {
        TokenKind::Distinct
    } else if word_is(chars, i, j, "all") || word_is(chars, i, j, "ALL") {
        TokenKind::All
    } else if word_is(chars, i, j, "group") || word_is(chars, i, j, "GROUP") {
        TokenKind::Group
    } else if word_is(chars, i, j, "by") || word_is(chars, i, j, "BY") {
        TokenKind::By
    } else if word_is(chars, i, j, "having") || word_is(chars, i, j, "HAVING") {
        TokenKind::Having
    } else if word_is(chars, i, j, "order") || word_is(chars, i, j, "ORDER") {
        TokenKind::Order
    } else if word_is(chars, i, j, "limit") || word_is(chars, i, j, "LIMIT") {
        TokenKind::Limit
    } else if word_is(chars, i, j, "offset") || word_is(chars, i, j, "OFFSET") {
        TokenKind::Offset
    } else if word_is(chars, i, j, "asc") || word_is(chars, i, j, "ASC") {
        TokenKind::Asc
    } else if word_is(chars, i, j, "desc") || word_is(chars, i, j, "DESC") {
        TokenKind::Desc
    } else if word_is(chars, i, j, "null") || word_is(chars, i, j, "NULL") {
        TokenKind::Null
    } else if word_is(chars, i, j, "is") || word_is(chars, i, j, "IS") {
        TokenKind::Is
    } else if word_is(chars, i, j, "exists") || word_is(chars, i, j, "EXISTS") {
        TokenKind::ExistsSql
    } else if word_is(chars, i, j, "in") || word_is(chars, i, j, "IN") {
        TokenKind::In
    } else if word_is(chars, i, j, "any") || word_is(chars, i, j, "ANY") {
        TokenKind::Any
    } else if word_is(chars, i, j, "case") || word_is(chars, i, j, "CASE") {
        TokenKind::Case
    } else if word_is(chars, i, j, "when") || word_is(chars, i, j, "WHEN") {
        TokenKind::When
    } else if word_is(chars, i, j, "then") || word_is(chars, i, j, "THEN") {
        TokenKind::Then
    } else if word_is(chars, i, j, "else") || word_is(chars, i, j, "ELSE") {
        TokenKind::Else
    } else if word_is(chars, i, j, "end") || word_is(chars, i, j, "END") {
        TokenKind::End
    } else if word_is(chars, i, j, "union") || word_is(chars, i, j, "UNION") {
        TokenKind::UnionSql
    } else if word_is(chars, i, j, "intersect") || word_is(chars, i, j, "INTERSECT") {
        TokenKind::IntersectSql
    } else if word_is(chars, i, j, "except") || word_is(chars, i, j, "EXCEPT") {
        TokenKind::ExceptSql
    } else {
        TokenKind::Ident
    }
}

/// Outcome of scanning one token.
enum Scanned {
    Emit(Token),
    Failed(LexerError),
}

/// Deterministic lexer over the characters of a source string.
pub struct Lexer {
    chars: Vec<char>,
    pos: usize,
    line: u32,
    col: u32,
    offset: u32,
}

impl Lexer {
    /// The characters of the source.
    pub closed spec fn source(&self) -> Seq<char> {
        self.chars@
    }

    /// Index of the next character to read.
    pub closed spec fn position(&self) -> int {
        self.pos as int
    }

    /// The lexer's bookkeeping agrees with its position, and every offset
    /// fits in `u32`.
    pub closed spec fn wf(&self) -> bool {
        &&& self.pos <= self.chars@.len()
        &&& encode_utf8(self.chars@).len() < u32::MAX
        &&& self.line == line_col(self.chars@, self.pos as int).0
        &&& self.col == line_col(self.chars@, self.pos as int).1
        &&& self.offset == byte_offset(self.chars@, self.pos as int)
    }

    /// Create a lexer for the given source. Its UTF-8 length must stay below
    /// `u32::MAX`: the 1-based line and column of the final `Eof` token go up
    /// to one more than the length, and they are `u32` fields (a source of
    /// `u32::MAX` newlines would put `Eof` on line `u32::MAX + 1`).
    pub fn new(src: &str) -> (l: Self)
        requires
            encode_utf8(src@).len() < u32::MAX,
        ensures
            l.wf(),
            l.source() == src@,
            l.position() == 0,
    {
        let mut chars: Vec<char> = Vec::new();
        for c in it: src.chars()
            invariant
                chars@ == it.seq().take(it.index() as int),
        {
            chars.push(c);
        }
        proof {
            broadcast use vstd::string::group_string_axioms;
            assert(chars@ =~= src@);
            assert(chars@.take(0) =~= Seq::<char>::empty());
            assert(encode_utf8(Seq::<char>::empty()) =~= Seq::<u8>::empty());
        }
        Lexer { chars, pos: 0, line: 1, col: 1, offset: 0 }
    }

    fn peek(&self) -> (c: Option<char>)
        requires
            self.wf(),
        ensures
            self.pos < self.chars@.len() ==> c == Some(self.chars@[self.pos as int]),
            self.pos >= self.chars@.len() ==> c.is_none(),
    {
        if self.pos < self.chars.len() {
            Some(self.chars[self.pos])
        } else {
            None
        }
    }

    fn peek_at(&self, k: usize) -> (c: Option<char>)
        requires
            self.wf(),
        ensures
            self.pos + k < self.chars@.len() ==> c == Some(self.chars@[self.pos + k]),
            self.pos + k >= self.chars@.len() ==> c.is_none(),
    {
        if k < self.chars.len() - self.pos {
            Some(self.chars[self.pos + k])
        } else {
            None
        }
    }

    fn bump(&mut self)
        requires
            old(self).wf(),
            old(self).pos < old(self).chars@.len(),
        ensures
            final(self).wf(),
            final(self).chars@ == old(self).chars@,
            final(self).pos == old(self).pos + 1,
    {
        let c = self.chars[self.pos];
        proof {
            lemma_byte_offset_step(self.chars@, self.pos as int);
            lemma_byte_offset_bounds(self.chars@, self.pos as int + 1);
            lemma_byte_offset_bounds(self.chars@, self.chars@.len() as int);
            lemma_line_col_bounds(self.chars@, self.pos as int + 1);
        }
        let w = utf8_width(c);
        if c == '\n' {
            self.line = self.line + 1;
            self.col = 1;
        } else {
            self.col = self.col + 1;
        }
        self.offset = self.offset + w;
        self.pos = self.pos + 1;
    }

    fn skip_whitespace(&mut self)
        requires
            old(self).wf(),
        ensures
            final(self).wf(),
            final(self).chars@ == old(self).chars@,
            final(self).pos == skip_ws(old(self).chars@, old(self).pos as int),
    {
        while self.pos < self.chars.len() && char_is_whitespace(self.chars[self.pos])
            invariant
                self.wf(),
                self.chars@ == old(self).chars@,
                skip_ws(self.chars@, self.pos as int) == skip_ws(old(self).chars@, old(self).pos as int),
            decreases self.chars@.len() - self.pos,
        {
            self.bump();
        }
    }

    fn token_here(&self, start: u32, line: u32, col: u32, kind: TokenKind, num: i64) -> (t: Token)
        requires
            self.wf(),
            start <= self.offset,
        ensures
            t == (Token { kind, start, len: (self.offset - start) as u32, num, line, col }),
    {
        Token { kind, start, len: self.offset - start, num, line, col }
    }

    fn scan_number(&mut self) -> (r: Scanned)
        requires
            old(self).wf(),
            old(self).pos < old(self).chars@.len(),
            is_digit(old(self).chars@[old(self).pos as int]),
        ensures
            final(self).wf(),
            final(self).chars@ == old(self).chars@,
            scan_agrees(old(self).chars@, old(self).pos as int, r, final(self).pos as int),
    {
        let ghost s = self.chars@;
        let ghost j = self.pos as int;
        let start = self.offset;
        let line = self.line;
        let col = self.col;
        let mut num: i64 = 0;
        proof {
            lemma_digits_end(s, j);
            lemma_line_col_bounds(s, j);
        }
        while self.pos < self.chars.len() && self.chars[self.pos] >= '0' && self.chars[self.pos] <= '9'
            invariant
                self.wf(),
                self.chars@ == s,
                s == old(self).chars@,
                j == old(self).pos,
                j <= self.pos <= digits_end(s, j),
                digits_end(s, j) <= s.len(),
                forall|k: int| j <= k < digits_end(s, j) ==> is_digit(#[trigger] s[k]),
                digits_end(s, j) < s.len() ==> !is_digit(s[digits_end(s, j)]),
                num == digits_value(s, j, self.pos as int),
                start == byte_offset(s, j),
                line == line_col(s, j).0,
                col == line_col(s, j).1,
            decreases s.len() - self.pos,
        {
            let d = self.chars[self.pos];
            let dv = (d as u32 - 48) as i64;
            self.bump();
            proof {
                lemma_digits_value_mono(s, j, self.pos as int, digits_end(s, j));
            }
            match num.checked_mul(10) {
                Some(m) => match m.checked_add(dv) {
                    Some(v) => {
                        num = v;
                    },
                    None => {
                        return Scanned::Failed(LexerError::NumberOverflow { line, col });
                    },
                },
                None => {
                    proof {
                        lemma_digits_value_nonneg(s, j, self.pos as int - 1);
                    }
                    return Scanned::Failed(LexerError::NumberOverflow { line, col });
                },
            }
        }
        proof {
            lemma_byte_offset_mono(s, j, self.pos as int);
        }
        Scanned::Emit(self.token_here(start, line, col, TokenKind::Num, num))
    }

    fn scan_string(&mut self) -> (r: Scanned)
        requires
            old(self).wf(),
            old(self).pos < old(self).chars@.len(),
            old(self).chars@[old(self).pos as int] == '"',
        ensures
            final(self).wf(),
            final(self).chars@ == old(self).chars@,
            scan_agrees(old(self).chars@, old(self).pos as int, r, final(self).pos as int),
    {
        let ghost s = self.chars@;
        let ghost j = self.pos as int;
        let start = self.offset;
        let line = self.line;
        let col = self.col;
        proof {
            lemma_line_col_bounds(s, j);
            lemma_quote_end(s, j + 1);
        }
        self.bump();
        while self.pos < self.chars.len() && self.chars[self.pos] != '"'
            invariant
                self.wf(),
                self.chars@ == s,
                s == old(self).chars@,
                j == old(self).pos,
                0 <= j < s.len(),
                j + 1 <= self.pos <= quote_end(s, j + 1),
                quote_end(s, j + 1) <= s.len(),
                forall|k: int| j + 1 <= k < quote_end(s, j + 1) ==> #[trigger] s[k] != '"',
                quote_end(s, j + 1) < s.len() ==> s[quote_end(s, j + 1)] == '"',
                start == byte_offset(s, j),
                line == line_col(s, j).0,
                col == line_col(s, j).1,
            decreases s.len() - self.pos,
        {
            self.bump();
        }
        if self.pos >= self.chars.len() {
            return Scanned::Failed(LexerError::UnterminatedString { line, col });
        }
        self.bump();
        proof {
            lemma_byte_offset_mono(s, j, self.pos as int);
        }
        Scanned::Emit(self.token_here(start, line, col, TokenKind::Str, 0))
    }

    fn scan_equals(&mut self) -> (r: Scanned)
        requires
            old(self).wf(),
            old(self).pos < old(self).chars@.len(),
            old(self).chars@[old(self).pos as int] == '=',
        ensures
            final(self).wf(),
            final(self).chars@ == old(self).chars@,
            scan_agrees(old(self).chars@, old(self).pos as int, r, final(self).pos as int),
    {
        let ghost s = self.chars@;
        let ghost j = self.pos as int;
        let start = self.offset;
        let line = self.line;
        let col = self.col;
        proof {
            lemma_line_col_bounds(s, j);
        }
        self.bump();
        let next = self.peek();
        let kind = if next == Some('=') {
            self.bump();
            TokenKind::EqEq
        } else if next == Some('>') {
            self.bump();
            TokenKind::FatArrow
        } else {
            TokenKind::Eq
        };
        proof {
            lemma_byte_offset_mono(s, j, self.pos as int);
        }
        Scanned::Emit(self.token_here(start, line, col, kind, 0))
    }


    fn scan_word(&mut self) -> (r: Scanned)
        requires
            old(self).wf(),
            old(self).pos < old(self).chars@.len(),
            ({
                let c = old(self).chars@[old(self).pos as int];
                !is_digit(c) && c != '"' && c != '='
            }),
        ensures
            final(self).wf(),
            final(self).chars@ == old(self).chars@,
            scan_agrees(old(self).chars@, old(self).pos as int, r, final(self).pos as int),
    {
        let ghost s = self.chars@;
        let ghost j = self.pos as int;
        let start = self.offset;
        let line = self.line;
        let col = self.col;
        let i = self.pos;
        let c = self.chars[self.pos];
        proof {
            lemma_line_col_bounds(s, j);
        }
        match symbol_kind(c) {
            Some(kind) => {
                self.bump();
                proof {
                    lemma_byte_offset_mono(s, j, self.pos as int);
                }
                return Scanned::Emit(self.token_here(start, line, col, kind, 0));
            },
            None => {},
        }
        if char_is_alphabetic(c) || c == '_' {
            self.bump();
            proof {
                lemma_ident_end(s, j + 1);
            }
            while self.pos < self.chars.len() && (char_is_alphabetic(self.chars[self.pos]) || self.chars[self.pos] == '_'
                || (self.chars[self.pos] >= '0' && self.chars[self.pos] <= '9'))
                invariant
                    self.wf(),
                    self.chars@ == s,
                    s == old(self).chars@,
                    j == old(self).pos,
                    j + 1 <= self.pos <= s.len(),
                    ident_end(s, self.pos as int) == ident_end(s, j + 1),
                decreases s.len() - self.pos,
            {
                self.bump();
            }
            let kind = keyword_kind_exec(&self.chars, i, self.pos);
            proof {
                lemma_byte_offset_mono(s, j, self.pos as int);
            }
            return Scanned::Emit(self.token_here(start, line, col, kind, 0));
        }
        Scanned::Failed(LexerError::UnexpectedChar { line, col })
    }

    fn scan_token(&mut self) -> (r: Scanned)
        requires
            old(self).wf(),
            old(self).pos < old(self).chars@.len(),
        ensures
            final(self).wf(),
            final(self).chars@ == old(self).chars@,
            scan_agrees(old(self).chars@, old(self).pos as int, r, final(self).pos as int),
    {
        let c = self.chars[self.pos];
        if c >= '0' && c <= '9' {
            self.scan_number()
        } else if c == '"' {
            self.scan_string()
        } else if c == '=' {
            self.scan_equals()
        } else {
            self.scan_word()
        }
    }

    /// Tokenize the rest of the source. Fail-closed on any invalid input: the
    /// result is exactly `lex_from` of the source at the current position.
    pub fn tokenize(&mut self) -> (r: Result<Vec<Token>, LexerError>)
        requires
            old(self).wf(),
        ensures
            final(self).wf(),
            final(self).source() == old(self).source(),
            match r {
                Ok(v) => lex_from(old(self).source(), old(self).position()) == Ok::<Seq<Token>, LexerError>(v@),
                Err(e) => lex_from(old(self).source(), old(self).position()) == Err::<Seq<Token>, LexerError>(e),
            },
    {
        let ghost s = self.chars@;
        let ghost p0 = self.pos as int;
        let mut out: Vec<Token> = Vec::new();
        proof {
            assert(out@ + Seq::<Token>::empty() =~= out@);
            lemma_prepend_empty(lex_from(s, p0));
        }
        loop
            invariant
                self.wf(),
                self.chars@ == s,
                s == old(self).chars@,
                p0 == old(self).pos,
                lex_from(s, p0) == prepend(out@, lex_from(s, self.pos as int)),
            decreases s.len() - self.pos,
        {
            let ghost i = self.pos as int;
            self.skip_whitespace();
            proof {
                lemma_skip_ws(s, i);
            }
            if self.pos >= self.chars.len() {
                proof {
                    lemma_line_col_bounds(s, self.pos as int);
                }
                let t = Token { kind: TokenKind::Eof, start: self.offset, len: 0, num: 0, line: self.line, col: self.col };
                proof {
                    lemma_prepend_push(out@, t, Ok(Seq::<Token>::empty()));
                    assert(seq![t] =~= Seq::<Token>::empty() + seq![t]);
                    assert(out@.push(t) + Seq::<Token>::empty() =~= out@.push(t));
                }
                out.push(t);
                return Ok(out);
            }
            let ghost j = self.pos as int;
            proof {
                lemma_scan_progress(s, j);
            }
            let r = self.scan_token();
            match r {
                Scanned::Emit(t) => {
                    proof {
                        lemma_prepend_push(out@, t, lex_from(s, self.pos as int));
                    }
                    out.push(t);
                },
                Scanned::Failed(e) => {
                    return Err(e);
                },
            }
        }
    }

}


// ─── Where tokens lie ─────────────────────────────────────────────────

/// `b` is the byte offset of a character boundary of `s`.
pub open spec fn char_boundary(s: Seq<char>, b: int) -> bool {
    exists|k: int| 0 <= k <= s.len() && byte_offset(s, k) == b
}

/// `toks`, lexed from byte offset `from` of `s`, end with the one `Eof`
/// token, empty and at the end of the input; every other token is non-empty;
/// the spans ascend without overlapping, lie within `from..` the end, and
/// start and end on character boundaries.
pub open spec fn tokens_well_placed(s: Seq<char>, from: int, toks: Seq<Token>) -> bool {
    &&& toks.len() >= 1
    &&& toks.last().kind == TokenKind::Eof
    &&& toks.last().start == byte_offset(s, s.len() as int)
    &&& toks.last().len == 0
    &&& forall|k: int| 0 <= k < toks.len() - 1 ==> #[trigger] toks[k].kind != TokenKind::Eof && toks[k].len > 0
    &&& forall|k: int| 0 <= k < toks.len() - 1 ==> #[trigger] toks[k].start + toks[k].len <= toks[k + 1].start
    &&& forall|k: int|
        0 <= k < toks.len() ==> from <= #[trigger] toks[k].start && toks[k].start + toks[k].len <= byte_offset(s, s.len() as int)
    &&& forall|k: int|
        0 <= k < toks.len() ==> char_boundary(s, #[trigger] toks[k].start as int) && char_boundary(s, toks[k].start + toks[k].len)
}

/// Whatever the lexer accepts, its tokens are well placed: one final `Eof`
/// at the end of the input, ascending non-overlapping spans on character
/// boundaries.
pub proof fn law_tokens_well_placed(s: Seq<char>, i: int)
    requires
        0 <= i <= s.len(),
        encode_utf8(s).len() < u32::MAX,
        lex_from(s, i) is Ok,
    ensures
        tokens_well_placed(s, byte_offset(s, i), lex_from(s, i)->Ok_0),
    decreases s.len() - i,
{
    let j = skip_ws(s, i);
    lemma_skip_ws(s, i);
    lemma_byte_offset_mono(s, i, j);
    lemma_byte_offset_mono(s, j, s.len() as int);
    if j >= s.len() {
        let t = mk_token(s, j, j, TokenKind::Eof, 0);
        let toks = lex_from(s, i)->Ok_0;
        assert(toks == seq![t]);
        assert(char_boundary(s, t.start as int));
        assert(char_boundary(s, t.start + t.len));
    } else {
        lemma_scan_progress(s, j);
        match scan(s, j) {
            ScanStep::Emit { kind, end, num } => {
                let rest = lex_from(s, end)->Ok_0;
                law_tokens_well_placed(s, end);
                lemma_byte_offset_mono(s, j, end);
                lemma_byte_offset_mono(s, end, s.len() as int);
                lemma_byte_offset_step(s, j);
                lemma_encode_single(s[j]);
                lemma_encode_len_at_least(seq![s[j]]);
                lemma_byte_offset_mono(s, j + 1, end);
                let t = mk_token(s, j, end, kind, num);
                let toks = lex_from(s, i)->Ok_0;
                assert(kind != TokenKind::Eof);
                assert(toks == seq![t] + rest);
                assert(t.start == byte_offset(s, j));
                assert(t.start + t.len == byte_offset(s, end));
                assert(char_boundary(s, t.start as int));
                assert(char_boundary(s, t.start + t.len));
                assert(rest[0].start >= byte_offset(s, end));
                assert forall|k: int| 0 <= k < toks.len() - 1 implies #[trigger] toks[k].kind != TokenKind::Eof && toks[k].len > 0 by {
                    if k > 0 {
                        assert(toks[k] == rest[k - 1]);
                    }
                }
                assert forall|k: int| 0 <= k < toks.len() - 1 implies #[trigger] toks[k].start + toks[k].len <= toks[k + 1].start by {
                    assert(toks[k + 1] == rest[k]);
                    if k > 0 {
                        assert(toks[k] == rest[k - 1]);
                    }
                }
                assert forall|k: int| 0 <= k < toks.len() implies byte_offset(s, i) <= #[trigger] toks[k].start && toks[k].start + toks[k].len <= byte_offset(s, s.len() as int) by {
                    if k > 0 {
                        assert(toks[k] == rest[k - 1]);
                    }
                }
                assert forall|k: int| 0 <= k < toks.len() implies char_boundary(s, #[trigger] toks[k].start as int) && char_boundary(s, toks[k].start + toks[k].len) by {
                    if k > 0 {
                        assert(toks[k] == rest[k - 1]);
                    }
                }
                assert(toks.last() == rest.last());
            },
            ScanStep::Fail { err } => {},
        }
    }
}

/// Byte `b` lies inside the span of one of `toks`.
pub open spec fn covered(toks: Seq<Token>, b: int) -> bool {
    exists|t: int| 0 <= t < toks.len() && #[trigger] toks[t].start <= b < toks[t].start + toks[t].len
}

/// Whatever the lexer accepts is covered: every character from the start
/// position on is whitespace or lies inside a token's span. With the
/// spans disjoint and inside the source (`law_tokens_well_placed`), the
/// source is the tokens' texts in order with only whitespace between.
pub proof fn law_tokens_cover_source(s: Seq<char>, i: int)
    requires
        0 <= i <= s.len(),
        encode_utf8(s).len() < u32::MAX,
        lex_from(s, i) is Ok,
    ensures
        forall|k: int|
            i <= k < s.len() ==> unicode_whitespace(#[trigger] s[k]) || covered(lex_from(s, i)->Ok_0, byte_offset(s, k)),
    decreases s.len() - i,
{
    let j = skip_ws(s, i);
    lemma_skip_ws(s, i);
    if j < s.len() {
        lemma_scan_progress(s, j);
        match scan(s, j) {
            ScanStep::Emit { kind, end, num } => {
                law_tokens_cover_source(s, end);
                let rest = lex_from(s, end)->Ok_0;
                let t = mk_token(s, j, end, kind, num);
                let toks = lex_from(s, i)->Ok_0;
                assert(toks == seq![t] + rest);
                lemma_byte_offset_mono(s, j, end);
                lemma_byte_offset_mono(s, end, s.len() as int);
                assert forall|k: int| i <= k < s.len() implies unicode_whitespace(#[trigger] s[k]) || covered(
                    toks,
                    byte_offset(s, k),
                ) by {
                    if j <= k < end {
                        lemma_byte_offset_mono(s, j, k);
                        lemma_byte_offset_step(s, k);
                        lemma_encode_single(s[k]);
                        lemma_encode_len_at_least(seq![s[k]]);
                        lemma_byte_offset_mono(s, k + 1, end);
                        assert(toks[0] == t);
                        assert(t.start <= byte_offset(s, k) < t.start + t.len);
                    } else if end <= k {
                        if !unicode_whitespace(s[k]) {
                            assert(covered(rest, byte_offset(s, k)));
                            let u = choose|u: int|
                                0 <= u < rest.len() && #[trigger] rest[u].start <= byte_offset(s, k) < rest[u].start + rest[u].len;
                            assert(toks[u + 1] == rest[u]);
                        }
                    }
                }
            },
            ScanStep::Fail { err } => {},
        }
    }
}

// ─── What the symbols mean ────────────────────────────────────────────

/// Two symbols that are alternative spellings of one token: `·`, `*` and
/// `×` for multiplication, `,` and `،` for the comma, `¬` and `!` for not.
pub open spec fn same_symbol(c1: char, c2: char) -> bool {
    ||| c1 == c2
    ||| (c1 == '·' || c1 == '*' || c1 == '×') && (c2 == '·' || c2 == '*' || c2 == '×')
    ||| (c1 == ',' || c1 == '،') && (c2 == ',' || c2 == '،')
    ||| (c1 == '¬' || c1 == '!') && (c2 == '¬' || c2 == '!')
}

/// The sign a symbol token is written with (its first spelling where it
/// has several, as on `TokenKind`); none for the other kinds.
pub open spec fn kind_sign(k: TokenKind) -> Option<char> {
    match k {
        TokenKind::LBracket => Some('['),
        TokenKind::RBracket => Some(']'),
        TokenKind::Pipe => Some('|'),
        TokenKind::Assign => Some('≔'),
        TokenKind::Define => Some('≡'),
        TokenKind::Plus => Some('+'),
        TokenKind::Minus => Some('-'),
        TokenKind::Mul => Some('·'),
        TokenKind::Concat => Some('⊕'),
        TokenKind::LParen => Some('('),
        TokenKind::RParen => Some(')'),
        TokenKind::Comma => Some(','),
        TokenKind::Colon => Some(':'),
        TokenKind::Dot => Some('.'),
        TokenKind::LAngle => Some('⟨'),
        TokenKind::RAngle => Some('⟩'),
        TokenKind::Lt => Some('<'),
        TokenKind::Gt => Some('>'),
        TokenKind::Eq => Some('='),
        TokenKind::Neq => Some('≠'),
        TokenKind::Div => Some('/'),
        TokenKind::Mod => Some('%'),
        TokenKind::Pow => Some('^'),
        TokenKind::Le => Some('≤'),
        TokenKind::Ge => Some('≥'),
        TokenKind::Not => Some('¬'),
        TokenKind::And => Some('∧'),
        TokenKind::Or => Some('∨'),
        TokenKind::Question => Some('؟'),
        TokenKind::Forall => Some('∀'),
        TokenKind::Exists => Some('∃'),
        TokenKind::In => Some('∈'),
        TokenKind::Mu => Some('μ'),
        TokenKind::Lambda => Some('λ'),
        TokenKind::LBlock => Some('﴿'),
        TokenKind::RBlock => Some('﴾'),
        TokenKind::Diamond => Some('⋄'),
        TokenKind::LinearImplication => Some('⊸'),
        TokenKind::Read => Some('⊙'),
        TokenKind::Print => Some('⎕'),
        TokenKind::Sigma => Some('σ'),
        TokenKind::Pi => Some('π'),
        TokenKind::Rho => Some('ρ'),
        TokenKind::Gamma => Some('γ'),
        TokenKind::Tau => Some('τ'),
        TokenKind::Bowtie => Some('⋈'),
        TokenKind::LeftOuterJoin => Some('⟕'),
        TokenKind::RightOuterJoin => Some('⟖'),
        TokenKind::FullOuterJoin => Some('⟗'),
        TokenKind::LeftSemiJoin => Some('⋉'),
        TokenKind::RightSemiJoin => Some('⋊'),
        TokenKind::AntiJoin => Some('▷'),
        _ => None,
    }
}

/// Each symbol is read as the token whose sign it is (or one of that
/// sign's alternative spellings): the symbol table and the signs of the
/// token kinds agree, so no symbol is read as another operator.
pub proof fn law_symbol_signs(c: char)
    requires
        spec_symbol_kind(c) is Some,
    ensures
        kind_sign(spec_symbol_kind(c)->Some_0) is Some,
        same_symbol(c, kind_sign(spec_symbol_kind(c)->Some_0)->Some_0),
{
}

/// Different symbols make different tokens, except the alternative
/// spellings of one token: no two operators are confused.
pub proof fn law_symbols_distinct(c1: char, c2: char)
    requires
        spec_symbol_kind(c1) is Some,
        spec_symbol_kind(c1) == spec_symbol_kind(c2),
    ensures
        same_symbol(c1, c2),
{
}

/// The kind a token must have when it starts at character `j` of `s`, for
/// the comparison signs: `≠` is inequality, a lone `=` equality, `==` the
/// equality test, `=>` the arrow, and `<`, `>`, `≤`, `≥` the orderings.
pub open spec fn comparison_kind_ok(s: Seq<char>, j: int, k: TokenKind) -> bool {
    &&& s[j] == '≠' ==> k == TokenKind::Neq
    &&& s[j] == '<' ==> k == TokenKind::Lt
    &&& s[j] == '>' ==> k == TokenKind::Gt
    &&& s[j] == '≤' ==> k == TokenKind::Le
    &&& s[j] == '≥' ==> k == TokenKind::Ge
    &&& (s[j] == '=' && !(j + 1 < s.len() && (s[j + 1] == '=' || s[j + 1] == '>'))) ==> k == TokenKind::Eq
    &&& (s[j] == '=' && j + 1 < s.len() && s[j + 1] == '=') ==> k == TokenKind::EqEq
    &&& (s[j] == '=' && j + 1 < s.len() && s[j + 1] == '>') ==> k == TokenKind::FatArrow
}

proof fn lemma_byte_offset_strict(s: Seq<char>, a: int, b: int)
    requires
        0 <= a < b <= s.len(),
    ensures
        byte_offset(s, a) < byte_offset(s, b),
{
    lemma_byte_offset_step(s, a);
    lemma_encode_single(s[a]);
    lemma_encode_len_at_least(seq![s[a]]);
    lemma_byte_offset_mono(s, a + 1, b);
}

/// Whatever the lexer accepts, a token that starts at a comparison sign
/// has the kind of that sign: `x ≠ y` and `x = y` never lex alike.
#[verifier::rlimit(30)]
pub proof fn law_comparison_tokens(s: Seq<char>, i: int)
    requires
        0 <= i <= s.len(),
        encode_utf8(s).len() < u32::MAX,
        lex_from(s, i) is Ok,
    ensures
        forall|t: int, j: int|
            0 <= t < lex_from(s, i)->Ok_0.len() && i <= j < s.len() && (#[trigger] lex_from(s, i)->Ok_0[t]).start
                == #[trigger] byte_offset(s, j) ==> comparison_kind_ok(s, j, lex_from(s, i)->Ok_0[t].kind),
    decreases s.len() - i,
{
    let toks = lex_from(s, i)->Ok_0;
    let jj = skip_ws(s, i);
    lemma_skip_ws(s, i);
    lemma_byte_offset_bounds(s, s.len() as int);
    if jj >= s.len() {
        assert forall|t: int, j: int|
            0 <= t < toks.len() && i <= j < s.len() && (#[trigger] toks[t]).start == #[trigger] byte_offset(s, j) implies comparison_kind_ok(
            s,
            j,
            toks[t].kind,
        ) by {
            lemma_byte_offset_strict(s, j, s.len() as int);
            lemma_byte_offset_mono(s, jj, s.len() as int);
            assert(toks[t] == mk_token(s, jj, jj, TokenKind::Eof, 0));
        }
    } else {
        lemma_scan_progress(s, jj);
        match scan(s, jj) {
            ScanStep::Emit { kind, end, num } => {
                let rest = lex_from(s, end)->Ok_0;
                law_comparison_tokens(s, end);
                law_tokens_well_placed(s, end);
                let t0 = mk_token(s, jj, end, kind, num);
                assert(toks == seq![t0] + rest);
                lemma_byte_offset_mono(s, jj, end);
                lemma_byte_offset_mono(s, end, s.len() as int);
                assert forall|t: int, j: int|
                    0 <= t < toks.len() && i <= j < s.len() && (#[trigger] toks[t]).start == #[trigger] byte_offset(s, j) implies comparison_kind_ok(
                    s,
                    j,
                    toks[t].kind,
                ) by {
                    if t == 0 {
                        assert(toks[0] == t0);
                        if j < jj {
                            lemma_byte_offset_strict(s, j, jj);
                        } else if jj < j {
                            lemma_byte_offset_strict(s, jj, j);
                        }
                        assert(j == jj);
                    } else {
                        assert(toks[t] == rest[t - 1]);
                        assert(byte_offset(s, end) <= rest[t - 1].start);
                        if j < end {
                            lemma_byte_offset_strict(s, j, end);
                        }
                        assert(rest[t - 1].start == byte_offset(s, j));
                    }
                }
            },
            ScanStep::Fail { err } => {},
        }
    }
}

// ─── Byte-level comment helpers ───────────────────────────────────────

/// First byte index at or after `pos` holding a newline, or the length.
pub open spec fn byte_line_end(b: Seq<u8>, pos: int) -> int
    decreases b.len() - pos,
{
    if 0 <= pos < b.len() && b[pos] != 10 {
        byte_line_end(b, pos + 1)
    } else {
        pos
    }
}

/// Whether the source holds `//` at byte position `pos`.
pub fn is_line_comment(source: &str, pos: usize) -> (b: bool)
    requires
        pos < usize::MAX,
    ensures
        b == (pos + 1 < source.spec_bytes().len() && source.spec_bytes()[pos as int] == 47
            && source.spec_bytes()[pos + 1] == 47),
{
    let bytes = source.as_bytes();
    pos < bytes.len() && bytes[pos] == 47u8 && pos + 1 < bytes.len() && bytes[pos + 1] == 47u8
}

/// Byte position of the end of the line that holds `pos` (the next newline,
/// or the end of the source).
pub fn skip_to_eol(source: &str, pos: usize) -> (r: usize)
    ensures
        r == byte_line_end(source.spec_bytes(), pos as int),
{
    let bytes = source.as_bytes();
    let mut p = pos;
    while p < bytes.len() && bytes[p] != 10u8
        invariant
            bytes@ == source.spec_bytes(),
            pos <= p,
            p <= bytes@.len() || p == pos,
            byte_line_end(bytes@, p as int) == byte_line_end(bytes@, pos as int),
        decreases bytes@.len() - p,
    {
        p = p + 1;
    }
    p
}

} // verus!
