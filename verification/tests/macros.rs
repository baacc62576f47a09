use mal::macros::{
    check_hygiene, check_termination, Macro, MacroError, MacroRegistry, SyntaxContext, Token, TokenKind, TokenStream,
};

type ExpansionFn = Box<dyn Fn(&TokenStream, SyntaxContext) -> TokenStream + Send + Sync>;

fn new_macro(name: &str, f: ExpansionFn) -> Macro<ExpansionFn> {
    Macro::new(name.to_string(), f)
}

#[test]
fn test_simple_macro_expansion() {
    let mut registry: MacroRegistry<ExpansionFn> = MacroRegistry::new();
    let print_twice = new_macro(
        "اطبع_مرتين",
        Box::new(|args: &TokenStream, ctx: SyntaxContext| {
            let arg = args.tokens.first().expect("اطبع_مرتين requires one argument");
            TokenStream::new(vec![
                Token::punct('{', ctx),
                Token::ident("اطبع", ctx),
                Token::punct('(', ctx),
                arg.clone(),
                Token::punct(')', ctx),
                Token::punct(';', ctx),
                Token::ident("اطبع", ctx),
                Token::punct('(', ctx),
                arg.clone(),
                Token::punct(')', ctx),
                Token::punct(';', ctx),
                Token::punct('}', ctx),
            ])
        }),
    );
    registry.register(print_twice).unwrap();
    let args = TokenStream::new(vec![Token::ident("س", SyntaxContext::root())]);
    let expanded = registry.expand("اطبع_مرتين", &args).unwrap();
    assert_eq!(expanded.len(), 12);
    assert!(matches!(expanded.tokens[0].kind, TokenKind::Punct('{')));
}

#[test]
fn test_hygiene_no_capture() {
    let mut registry: MacroRegistry<ExpansionFn> = MacroRegistry::new();
    let let_temp = new_macro(
        "let_temp",
        Box::new(|args: &TokenStream, ctx: SyntaxContext| {
            let arg = args.tokens.first().expect("let_temp requires one argument");
            TokenStream::new(vec![
                Token::punct('{', ctx),
                Token::keyword("let", ctx),
                Token::ident("temp", ctx),
                Token::punct('=', ctx),
                arg.clone(),
                Token::punct(';', ctx),
                Token::ident("temp", ctx),
                Token::punct('}', ctx),
            ])
        }),
    );
    registry.register(let_temp).unwrap();
    let args = TokenStream::new(vec![Token::number(42, SyntaxContext::root())]);
    let expanded = registry.expand("let_temp", &args).unwrap();
    let temp_idents: Vec<_> = expanded.tokens.iter().filter(|t| t.as_ident() == Some("temp")).collect();
    assert_eq!(temp_idents.len(), 2);
    for temp in temp_idents {
        assert_ne!(temp.context, SyntaxContext::root(), "Hygiene violation: 'temp' captured caller context");
    }
}

#[test]
fn test_macro_with_patterns() {
    let mut registry: MacroRegistry<ExpansionFn> = MacroRegistry::new();
    let unless = new_macro(
        "unless",
        Box::new(|args: &TokenStream, ctx: SyntaxContext| {
            TokenStream::new(vec![
                Token::ident("if", ctx),
                Token::punct('!', ctx),
                args.tokens[0].clone(),
                args.tokens[1].clone(),
            ])
        }),
    );
    registry.register(unless).unwrap();
    let args = TokenStream::new(vec![
        Token::ident("س", SyntaxContext::root()),
        Token::punct('{', SyntaxContext::root()),
        Token::ident("اطبع", SyntaxContext::root()),
        Token::punct('}', SyntaxContext::root()),
    ]);
    let expanded = registry.expand("unless", &args).unwrap();
    assert!(expanded.len() > 0);
}

#[test]
fn test_macro_registry_lookup() {
    let mut registry: MacroRegistry<ExpansionFn> = MacroRegistry::new();
    let m1 = new_macro("m1", Box::new(|_: &TokenStream, _ctx: SyntaxContext| TokenStream::empty()));
    let m2 = new_macro("m2", Box::new(|_: &TokenStream, _ctx: SyntaxContext| TokenStream::empty()));
    registry.register(m1).unwrap();
    registry.register(m2).unwrap();
    assert_eq!(registry.len(), 2);
    assert!(registry.lookup("m1").is_some());
    assert!(registry.lookup("m2").is_some());
    assert!(registry.lookup("m3").is_none());
    let m1_dup = new_macro("m1", Box::new(|_: &TokenStream, _ctx: SyntaxContext| TokenStream::empty()));
    let result = registry.register(m1_dup);
    assert!(matches!(result, Err(MacroError::DuplicateMacro { .. })));
}

#[test]
fn test_expansion_termination() {
    let mut registry: MacroRegistry<ExpansionFn> = MacroRegistry::new();
    let m = new_macro("m", Box::new(|_: &TokenStream, _ctx: SyntaxContext| TokenStream::empty()));
    registry.register(m).unwrap();
    assert!(check_termination(&registry, "m", 0, 100));
    assert!(check_termination(&registry, "m", 50, 100));
    assert!(!check_termination(&registry, "unknown", 0, 100));
    let body = TokenStream::new(vec![Token::ident("x", SyntaxContext(1)), Token::ident("y", SyntaxContext(1))]);
    assert!(check_hygiene(&body, SyntaxContext::root()));
    let bad_body = TokenStream::new(vec![Token::ident("x", SyntaxContext::root())]);
    assert!(!check_hygiene(&bad_body, SyntaxContext::root()));
}

#[test]
fn each_expansion_gets_a_fresh_context() {
    let mut registry: MacroRegistry<ExpansionFn> = MacroRegistry::default();
    assert!(registry.is_empty());
    let mark = new_macro(
        "mark",
        Box::new(|_: &TokenStream, ctx: SyntaxContext| TokenStream::new(vec![Token::ident("t", ctx)])),
    );
    registry.register(mark).unwrap();
    let none = TokenStream::empty();
    let first = registry.expand("mark", &none).unwrap();
    let second = registry.expand("mark", &none).unwrap();
    assert_eq!(first.tokens[0].context, SyntaxContext(1));
    assert_eq!(second.tokens[0].context, SyntaxContext(2));
    assert!(matches!(registry.expand("nope", &none), Err(MacroError::UnknownMacro { ref name }) if name == "nope"));
    let third = registry.expand("mark", &none).unwrap();
    assert_eq!(third.tokens[0].context, SyntaxContext(3));
    assert!(!check_termination(&registry, "mark", 101, 100));
    assert_eq!(registry.lookup("mark").unwrap().name, "mark");
    let direct = registry.lookup("mark").unwrap().expand(&none, SyntaxContext(9));
    assert_eq!(direct.tokens[0].context, SyntaxContext(9));
}
