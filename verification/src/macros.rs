//! Hygienic macros: tokens tagged with the syntax context they come from,
//! token streams with substitution, and the hygiene check that no
//! identifier of a macro body carries the caller's context.
use vstd::prelude::*;
use vstd::string::StringExecFns;
use crate::text::str_eq;

verus! {

/// The context an identifier was written in: each macro expansion gets a
/// fresh one.
#[derive(Debug, Clone, Copy, PartialEq, Eq, Hash, Structural)]
pub struct SyntaxContext(pub u32);

impl SyntaxContext {
    /// The context of top-level code.
    pub fn root() -> (c: SyntaxContext)
        ensures
            c == SyntaxContext(0),
    {
        SyntaxContext(0)
    }
}

/// The kinds of tokens.
#[derive(Debug, PartialEq, Eq)]
pub enum TokenKind {
    Ident(String),
    Number(i64),
    String(String),
    Punct(char),
    Keyword(String),
    /// A group of tokens, as in `{ … }` or `( … )`.
    Group(Vec<Token>),
}

/// A token with its syntax context.
#[derive(Debug, PartialEq, Eq)]
pub struct Token {
    pub kind: TokenKind,
    pub context: SyntaxContext,
}

/// Two token kinds are alike: same variant and contents, groups alike
/// token by token.
pub open spec fn kind_eq(a: TokenKind, b: TokenKind) -> bool
    decreases a, 1nat, 0int,
{
    match (a, b) {
        (TokenKind::Ident(x), TokenKind::Ident(y)) => x@ == y@,
        (TokenKind::Number(x), TokenKind::Number(y)) => x == y,
        (TokenKind::String(x), TokenKind::String(y)) => x@ == y@,
        (TokenKind::Punct(x), TokenKind::Punct(y)) => x == y,
        (TokenKind::Keyword(x), TokenKind::Keyword(y)) => x@ == y@,
        (TokenKind::Group(x), TokenKind::Group(y)) => x@.len() == y@.len() && groups_eq(a, b, x@.len() as int),
        _ => false,
    }
}

/// The first `n` tokens of two groups are alike.
pub open spec fn groups_eq(a: TokenKind, b: TokenKind, n: int) -> bool
    decreases a, 0nat, n,
{
    match (a, b) {
        (TokenKind::Group(x), TokenKind::Group(y)) => if n <= 0 || n > x@.len() || n > y@.len() {
            n <= 0
        } else {
            proof {
                assert(decreases_to!(a => a->Group_0));
                assert(decreases_to!(x => x@));
                assert(decreases_to!(x@ => x@[n - 1]));
                assert(decreases_to!(x@[n - 1] => x@[n - 1].kind));
            }
            groups_eq(a, b, n - 1) && kind_eq(x@[n - 1].kind, y@[n - 1].kind) && x@[n - 1].context == y@[n - 1].context
        },
        _ => false,
    }
}

/// Two tokens are alike.
pub open spec fn tok_eq(a: Token, b: Token) -> bool {
    kind_eq(a.kind, b.kind) && a.context == b.context
}

impl TokenKind {
    /// A copy of the kind.
    pub fn copy(&self) -> (r: TokenKind)
        ensures
            kind_eq(r, *self),
        decreases self,
    {
        match self {
            TokenKind::Ident(s) => TokenKind::Ident(s.clone()),
            TokenKind::Number(n) => TokenKind::Number(*n),
            TokenKind::String(s) => TokenKind::String(s.clone()),
            TokenKind::Punct(c) => TokenKind::Punct(*c),
            TokenKind::Keyword(s) => TokenKind::Keyword(s.clone()),
            TokenKind::Group(v) => {
                let mut out: Vec<Token> = Vec::new();
                let mut i: usize = 0;
                while i < v.len()
                    invariant
                        i <= v@.len(),
                        *self == TokenKind::Group(*v),
                        out@.len() == i,
                        groups_eq(TokenKind::Group(out), *self, i as int),
                    decreases v@.len() - i,
                {
                    proof {
                        let w = (*self)->Group_0;
                        assert(decreases_to!(*self => (*self)->Group_0));
                        assert(decreases_to!(w => w@));
                        assert(decreases_to!(w@ => w@[i as int]));
                        assert(decreases_to!(w@[i as int] => w@[i as int].kind));
                    }
                    let ghost before = out;
                    let k = v[i].kind.copy();
                    out.push(Token { kind: k, context: v[i].context });
                    proof {
                        lemma_groups_eq_push(before, *v, i as int, out);
                    }
                    i = i + 1;
                }
                TokenKind::Group(out)
            },
        }
    }
}

/// Extending the first group by a token alike to the other's next one.
proof fn lemma_groups_eq_push(before: Vec<Token>, v: Vec<Token>, i: int, after: Vec<Token>)
    requires
        0 <= i < v@.len(),
        before@.len() == i,
        after@ == before@.push(after@[i]),
        kind_eq(after@[i].kind, v@[i].kind),
        after@[i].context == v@[i].context,
        groups_eq(TokenKind::Group(before), TokenKind::Group(v), i),
    ensures
        groups_eq(TokenKind::Group(after), TokenKind::Group(v), i + 1),
{
    lemma_groups_eq_prefix(before, after, v, i);
}

/// Alikeness of the first `n` tokens depends only on those tokens.
proof fn lemma_groups_eq_prefix(before: Vec<Token>, after: Vec<Token>, v: Vec<Token>, n: int)
    requires
        0 <= n <= before@.len(),
        n <= v@.len(),
        before@.len() <= after@.len(),
        forall|k: int| 0 <= k < before@.len() ==> after@[k] == before@[k],
        groups_eq(TokenKind::Group(before), TokenKind::Group(v), n),
    ensures
        groups_eq(TokenKind::Group(after), TokenKind::Group(v), n),
    decreases n,
{
    if n > 0 {
        lemma_groups_eq_prefix(before, after, v, n - 1);
    }
}

impl Token {
    /// The identifier `name`.
    pub fn ident(name: &str, context: SyntaxContext) -> (t: Token)
        ensures
            t.kind matches TokenKind::Ident(n) && n@ == name@,
            t.context == context,
    {
        Token { kind: TokenKind::Ident(String::from_str(name)), context }
    }

    /// The number `value`.
    pub fn number(value: i64, context: SyntaxContext) -> (t: Token)
        ensures
            t.kind == TokenKind::Number(value),
            t.context == context,
    {
        Token { kind: TokenKind::Number(value), context }
    }

    /// The punctuation `ch`.
    pub fn punct(ch: char, context: SyntaxContext) -> (t: Token)
        ensures
            t.kind == TokenKind::Punct(ch),
            t.context == context,
    {
        Token { kind: TokenKind::Punct(ch), context }
    }

    /// The keyword `name`.
    pub fn keyword(name: &str, context: SyntaxContext) -> (t: Token)
        ensures
            t.kind matches TokenKind::Keyword(n) && n@ == name@,
            t.context == context,
    {
        Token { kind: TokenKind::Keyword(String::from_str(name)), context }
    }

    /// The string literal `s`.
    pub fn string(s: &str, context: SyntaxContext) -> (t: Token)
        ensures
            t.kind matches TokenKind::String(n) && n@ == s@,
            t.context == context,
    {
        Token { kind: TokenKind::String(String::from_str(s)), context }
    }

    /// Whether this is an identifier.
    pub fn is_ident(&self) -> (b: bool)
        ensures
            b == (self.kind is Ident),
    {
        match self.kind {
            TokenKind::Ident(_) => true,
            _ => false,
        }
    }

    /// The identifier's name, if this is one.
    pub fn as_ident(&self) -> (r: Option<&str>)
        ensures
            match self.kind {
                TokenKind::Ident(n) => r matches Some(s) && s@ == n@,
                _ => r is None,
            },
    {
        match &self.kind {
            TokenKind::Ident(s) => Some(s.as_str()),
            _ => None,
        }
    }

    /// A copy of the token.
    pub fn copy(&self) -> (r: Token)
        ensures
            tok_eq(r, *self),
    {
        Token { kind: self.kind.copy(), context: self.context }
    }
}

impl Clone for Token {
    fn clone(&self) -> (r: Self)
        ensures
            tok_eq(r, *self),
    {
        self.copy()
    }
}

/// A sequence of tokens: what a macro takes and gives.
#[derive(Debug, PartialEq, Eq)]
pub struct TokenStream {
    pub tokens: Vec<Token>,
}

/// The identifiers of `ts` with their contexts, in order.
pub open spec fn idents_of(ts: Seq<Token>) -> Seq<(Seq<char>, SyntaxContext)>
    decreases ts.len(),
{
    if ts.len() == 0 {
        Seq::empty()
    } else {
        match ts.last().kind {
            TokenKind::Ident(n) => idents_of(ts.drop_last()).push((n@, ts.last().context)),
            _ => idents_of(ts.drop_last()),
        }
    }
}

/// `t` is `s` with every identifier named `from` replaced by `to`'s kind,
/// keeping its context.
pub open spec fn substituted(s: Seq<Token>, t: Seq<Token>, from: Seq<char>, to: Token) -> bool {
    &&& t.len() == s.len()
    &&& forall|i: int|
        0 <= i < s.len() ==> (if s[i].kind matches TokenKind::Ident(n) && n@ == from {
            kind_eq(#[trigger] t[i].kind, to.kind) && t[i].context == s[i].context
        } else {
            tok_eq(t[i], s[i])
        })
}

impl TokenStream {
    pub fn new(tokens: Vec<Token>) -> (r: TokenStream)
        ensures
            r.tokens == tokens,
    {
        TokenStream { tokens }
    }

    pub fn empty() -> (r: TokenStream)
        ensures
            r.tokens@.len() == 0,
    {
        TokenStream { tokens: Vec::new() }
    }

    pub fn len(&self) -> (n: usize)
        ensures
            n == self.tokens@.len(),
    {
        self.tokens.len()
    }

    pub fn is_empty(&self) -> (b: bool)
        ensures
            b == (self.tokens@.len() == 0),
    {
        self.tokens.len() == 0
    }

    /// The identifiers with their contexts, in order.
    pub fn find_idents(&self) -> (r: Vec<(&str, SyntaxContext)>)
        ensures
            r@.map_values(|p: (&str, SyntaxContext)| (p.0@, p.1)) == idents_of(self.tokens@),
    {
        let mut out: Vec<(&str, SyntaxContext)> = Vec::new();
        let mut i: usize = 0;
        while i < self.tokens.len()
            invariant
                i <= self.tokens@.len(),
                out@.map_values(|p: (&str, SyntaxContext)| (p.0@, p.1)) == idents_of(self.tokens@.take(i as int)),
            decreases self.tokens@.len() - i,
        {
            let ghost before = out@;
            let t = &self.tokens[i];
            proof {
                assert(self.tokens@.take(i as int + 1).drop_last() =~= self.tokens@.take(i as int));
                assert(self.tokens@.take(i as int + 1).last() == *t);
            }
            if let Some(name) = t.as_ident() {
                out.push((name, t.context));
                proof {
                    assert(out@.map_values(|p: (&str, SyntaxContext)| (p.0@, p.1)) =~= before.map_values(
                        |p: (&str, SyntaxContext)| (p.0@, p.1),
                    ).push((name@, t.context)));
                }
            }
            i = i + 1;
        }
        proof {
            assert(self.tokens@.take(i as int) =~= self.tokens@);
        }
        out
    }

    /// The stream with every identifier named `from` replaced by `to`,
    /// keeping the identifier's context.
    pub fn substitute(&self, from: &str, to: &Token) -> (r: TokenStream)
        ensures
            substituted(self.tokens@, r.tokens@, from@, *to),
    {
        let mut out: Vec<Token> = Vec::new();
        let mut i: usize = 0;
        while i < self.tokens.len()
            invariant
                i <= self.tokens@.len(),
                out@.len() == i,
                forall|k: int|
                    0 <= k < i ==> (if self.tokens@[k].kind matches TokenKind::Ident(n) && n@ == from@ {
                        kind_eq(#[trigger] out@[k].kind, to.kind) && out@[k].context == self.tokens@[k].context
                    } else {
                        tok_eq(out@[k], self.tokens@[k])
                    }),
            decreases self.tokens@.len() - i,
        {
            let t = &self.tokens[i];
            let replaced = match &t.kind {
                TokenKind::Ident(name) => str_eq(name.as_str(), from),
                _ => false,
            };
            if replaced {
                out.push(Token { kind: to.kind.copy(), context: t.context });
            } else {
                out.push(t.copy());
            }
            i = i + 1;
        }
        TokenStream { tokens: out }
    }
}

/// Why a macro could not be registered or expanded.
#[derive(Debug)]
pub enum MacroError {
    DuplicateMacro { name: String },
    UnknownMacro { name: String },
    ExpansionError { message: String },
}

impl MacroError {
    /// The error as a message.
    pub fn message(&self) -> (s: String)
        ensures
            s@ == match self {
                MacroError::DuplicateMacro { name } => "ماكرو مكرر: "@ + name@,
                MacroError::UnknownMacro { name } => "ماكرو غير معروف: "@ + name@,
                MacroError::ExpansionError { message } => "خطأ في التوسع: "@ + message@,
            },
    {
        match self {
            MacroError::DuplicateMacro { name } => {
                let mut s = String::from_str("ماكرو مكرر: ");
                s.append(name.as_str());
                s
            },
            MacroError::UnknownMacro { name } => {
                let mut s = String::from_str("ماكرو غير معروف: ");
                s.append(name.as_str());
                s
            },
            MacroError::ExpansionError { message } => {
                let mut s = String::from_str("خطأ في التوسع: ");
                s.append(message.as_str());
                s
            },
        }
    }
}

/// Hygiene: no identifier of `macro_body` carries the caller's context.
pub fn check_hygiene(macro_body: &TokenStream, caller_context: SyntaxContext) -> (b: bool)
    ensures
        b == (forall|i: int|
            0 <= i < macro_body.tokens@.len() ==> (#[trigger] macro_body.tokens@[i]).kind is Ident
                ==> macro_body.tokens@[i].context != caller_context),
{
    let mut i: usize = 0;
    while i < macro_body.tokens.len()
        invariant
            i <= macro_body.tokens@.len(),
            forall|k: int|
                0 <= k < i ==> (#[trigger] macro_body.tokens@[k]).kind is Ident ==> macro_body.tokens@[k].context
                    != caller_context,
        decreases macro_body.tokens@.len() - i,
    {
        let t = &macro_body.tokens[i];
        if t.is_ident() && t.context == caller_context {
            return false;
        }
        i = i + 1;
    }
    true
}


// ─── Macros and their registry ───────────────────────────────────────

/// A macro: a name and the expansion that turns the call's arguments into
/// tokens, marking what it introduces with the context it is given.
pub struct Macro<E> {
    pub name: String,
    pub expand: E,
}

impl<E: Fn(&TokenStream, SyntaxContext) -> TokenStream> Macro<E> {
    /// The macro `name` with expansion `expand`.
    pub fn new(name: String, expand: E) -> (r: Self)
        ensures
            r.name == name,
            r.expand == expand,
    {
        Macro { name, expand }
    }

    /// Expands the macro on `args` in `context`.
    pub fn expand(&self, args: &TokenStream, context: SyntaxContext) -> (r: TokenStream)
        requires
            call_requires(self.expand, (args, context)),
        ensures
            call_ensures(self.expand, (args, context), r),
    {
        (self.expand)(args, context)
    }
}

/// The registered macros, each name once, and the number of expansions
/// made so far, each of which got a fresh context.
pub struct MacroRegistry<E> {
    macros: Vec<Macro<E>>,
    context_counter: u32,
}

impl<E> MacroRegistry<E> {
    /// No two registered macros share a name.
    #[verifier::type_invariant]
    spec fn names_unique(&self) -> bool {
        forall|i: int, j: int|
            0 <= i < j < self.macros@.len() ==> (#[trigger] self.macros@[i]).name@ != (#[trigger] self.macros@[j]).name@
    }
}

impl<E: Fn(&TokenStream, SyntaxContext) -> TokenStream> MacroRegistry<E> {
    /// The registered macros, in the order of registration.
    pub closed spec fn entries(&self) -> Seq<Macro<E>> {
        self.macros@
    }

    /// The number of expansions made so far; the last one used this context.
    pub closed spec fn expansions(&self) -> u32 {
        self.context_counter
    }

    /// Whether a macro named `name` is registered.
    pub open spec fn has(&self, name: Seq<char>) -> bool {
        exists|i: int| 0 <= i < self.entries().len() && (#[trigger] self.entries()[i]).name@ == name
    }

    /// Every registered expansion can be called on any arguments.
    pub open spec fn callable(&self) -> bool {
        forall|i: int, a: &TokenStream, c: SyntaxContext|
            #![trigger call_requires(self.entries()[i].expand, (a, c))]
            0 <= i < self.entries().len() ==> call_requires(self.entries()[i].expand, (a, c))
    }

    /// An empty registry that has made no expansion.
    pub fn new() -> (r: Self)
        ensures
            r.entries().len() == 0,
            r.expansions() == 0,
    {
        MacroRegistry { macros: Vec::new(), context_counter: 0 }
    }

    /// The position of the macro named `name`.
    fn position(&self, name: &str) -> (r: Option<usize>)
        ensures
            match r {
                Some(i) => i < self.entries().len() && self.entries()[i as int].name@ == name@,
                None => !self.has(name@),
            },
    {
        let mut i: usize = 0;
        while i < self.macros.len()
            invariant
                i <= self.macros@.len(),
                forall|k: int| 0 <= k < i ==> self.macros@[k].name@ != name@,
            decreases self.macros@.len() - i,
        {
            if str_eq(self.macros[i].name.as_str(), name) {
                return Some(i);
            }
            i = i + 1;
        }
        None
    }

    /// Registers `macro_def`; a name can be registered once.
    pub fn register(&mut self, macro_def: Macro<E>) -> (r: Result<(), MacroError>)
        ensures
            old(self).has(macro_def.name@) ==> (r matches Err(MacroError::DuplicateMacro { name }) && name@
                == macro_def.name@ && final(self).entries() == old(self).entries()),
            !old(self).has(macro_def.name@) ==> (r is Ok && final(self).entries() == old(self).entries().push(macro_def)),
            final(self).expansions() == old(self).expansions(),
    {
        proof {
            use_type_invariant(&*self);
        }
        match self.position(macro_def.name.as_str()) {
            Some(_) => Err(MacroError::DuplicateMacro { name: macro_def.name.clone() }),
            None => {
                let mut v: Vec<Macro<E>> = Vec::new();
                std::mem::swap(&mut v, &mut self.macros);
                v.push(macro_def);
                self.macros = v;
                Ok(())
            },
        }
    }

    /// The macro named `name`.
    pub fn lookup(&self, name: &str) -> (r: Option<&Macro<E>>)
        ensures
            r is None <==> !self.has(name@),
            r matches Some(m) ==> m.name@ == name@ && exists|i: int|
                0 <= i < self.entries().len() && self.entries()[i] == *m,
    {
        match self.position(name) {
            Some(i) => Some(&self.macros[i]),
            None => None,
        }
    }

    /// Expands the macro named `name` on `args`, in a fresh context: the
    /// number of expansions made so far, plus one.
    pub fn expand(&mut self, name: &str, args: &TokenStream) -> (r: Result<TokenStream, MacroError>)
        requires
            old(self).callable(),
            old(self).has(name@) ==> old(self).expansions() < u32::MAX,
        ensures
            final(self).entries() == old(self).entries(),
            !old(self).has(name@) ==> (r matches Err(MacroError::UnknownMacro { name: n }) && n@ == name@
                && final(self).expansions() == old(self).expansions()),
            old(self).has(name@) ==> final(self).expansions() == old(self).expansions() + 1 && exists|i: int|
                0 <= i < old(self).entries().len() && (#[trigger] old(self).entries()[i]).name@ == name@ && (r matches Ok(
                t) && call_ensures(old(self).entries()[i].expand, (args, SyntaxContext(final(self).expansions())), t)),
    {
        proof {
            use_type_invariant(&*self);
        }
        match self.position(name) {
            None => Err(MacroError::UnknownMacro { name: String::from_str(name) }),
            Some(i) => {
                self.context_counter = self.context_counter + 1;
                let context = SyntaxContext(self.context_counter);
                let m = &self.macros[i];
                assert(call_requires(m.expand, (args, context)));
                let t = m.expand(args, context);
                Ok(t)
            },
        }
    }

    /// The number of registered macros.
    pub fn len(&self) -> (n: usize)
        ensures
            n == self.entries().len(),
    {
        self.macros.len()
    }

    /// Whether no macro is registered.
    pub fn is_empty(&self) -> (b: bool)
        ensures
            b == (self.entries().len() == 0),
    {
        self.macros.len() == 0
    }
}

impl<E: Fn(&TokenStream, SyntaxContext) -> TokenStream> Default for MacroRegistry<E> {
    fn default() -> (r: Self)
        ensures
            r.entries().len() == 0,
            r.expansions() == 0,
    {
        MacroRegistry::new()
    }
}

/// Expansion of `macro_name` at nesting `depth` stays within `max_depth`
/// and names a registered macro.
pub fn check_termination<E: Fn(&TokenStream, SyntaxContext) -> TokenStream>(
    registry: &MacroRegistry<E>,
    macro_name: &str,
    depth: usize,
    max_depth: usize,
) -> (b: bool)
    ensures
        b == (depth <= max_depth && registry.has(macro_name@)),
{
    if depth > max_depth {
        return false;
    }
    registry.lookup(macro_name).is_some()
}

} // verus!
