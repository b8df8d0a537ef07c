use church::alphabet::{get_alias, get_idx};
use church::ast::Ast;
use church::cu::{CodeUnit, Outcome};
use church::error::Error;
use church::former::{form, Form, Implicit};
use church::lexer::tokenize;
use church::parser::{parse_expr_only, parse_program};
use church::token::{ParserToken, Token};
use church::Term;

const LIMIT: usize = 10_000;

fn kinds(tokens: &[ParserToken]) -> Vec<Token> {
    tokens.iter().map(|t| t.1.clone()).collect()
}

fn ident(s: &str) -> Token {
    Token::Ident(s.to_string())
}

fn dump_expr(src: &str) -> Term {
    let tks = CodeUnit::into_tokens(src).unwrap();
    let expr = parse_expr_only(&tks).unwrap();
    let mut cu = CodeUnit::new();
    cu.scope.dump(&expr).unwrap()
}

fn canonical(t: &Term) -> Term {
    let mut c = t.clone();
    c.unique_alpha_redex();
    c
}

fn assert_alpha_eq(lhs: &str, rhs: &str) {
    assert_eq!(canonical(&dump_expr(lhs)), canonical(&dump_expr(rhs)))
}

fn assert_alpha_ne(lhs: &str, rhs: &str) {
    assert_ne!(canonical(&dump_expr(lhs)), canonical(&dump_expr(rhs)))
}

#[test]
fn greedy_expr() {
    assert_alpha_eq("λx -> x λy -> y x", "λx -> (x λy -> (y x))");
    assert_alpha_eq("λx -> x λy -> y x", "\\x . x \\y . y x");
}

#[test]
fn right_assoc_app() {
    assert_alpha_eq("a b (c d) e f", "(((a b) (c d)) e) f");
    assert_alpha_ne("a b (c d) e f", "a (((b (c d)) e) f)");
}

#[test]
fn lexer_tokens_and_spans() {
    let tokens = tokenize("let id = \\x -> x in\n\tuse \"a\\\"b\" # note\nλα.(α,β_1)").unwrap();
    assert_eq!(
        kinds(&tokens),
        vec![
            Token::LetKw,
            ident("id"),
            Token::Assign,
            Token::Lambda,
            ident("x"),
            Token::Dot,
            ident("x"),
            Token::InKw,
            Token::NewLine,
            Token::Tab,
            Token::UseKw,
            Token::Path("a\\\"b".to_string()),
            Token::NewLine,
            Token::Lambda,
            ident("α"),
            Token::Dot,
            Token::OpenParen,
            ident("α"),
            Token::Comma,
            ident("β_1"),
            Token::CloseParen,
        ]
    );
    assert_eq!((tokens[0].0, tokens[0].2), (0, 3));
    assert_eq!((tokens[1].0, tokens[1].2), (4, 6));
    assert_eq!((tokens[5].0, tokens[5].2), (12, 14));
    assert_eq!((tokens[11].0, tokens[11].2), (25, 31));
    // places are counted in bytes: `λ` and `α` take two each
    assert_eq!((tokens[12].0, tokens[12].2), (38, 39));
    assert_eq!((tokens[13].0, tokens[13].2), (39, 41));
    assert_eq!((tokens[14].0, tokens[14].2), (41, 43));
    assert_eq!((tokens[15].0, tokens[15].2), (43, 44));
    assert_eq!((tokens[17].0, tokens[17].2), (45, 47));
    assert_eq!((tokens[19].0, tokens[19].2), (48, 52));
    assert_eq!((tokens[20].0, tokens[20].2), (52, 53));
    // keywords win only on an exact match
    assert_eq!(kinds(&tokenize("letx inn use_ in").unwrap()), vec![
        ident("letx"),
        ident("inn"),
        ident("use_"),
        Token::InKw
    ]);
    assert!(tokenize("").unwrap().is_empty());
    assert!(tokenize("  # only a comment").unwrap().is_empty());
}

#[test]
fn lexer_errors_hold_the_place() {
    assert!(matches!(tokenize("a b ? c"), Err(Error::LexerError(4))));
    assert!(matches!(tokenize("a - b"), Err(Error::LexerError(2))));
    assert!(matches!(tokenize("λα ? c"), Err(Error::LexerError(5))));
    assert!(matches!(tokenize("x \"open"), Err(Error::LexerError(2))));
    assert!(matches!(tokenize("\"a\\qb\""), Err(Error::LexerError(0))));
    assert!(matches!(tokenize("λλ"), Ok(_)));
    assert!(matches!(CodeUnit::into_raw_tokens("a\rb"), Err(Error::LexerError(1))));
}

#[test]
fn rebuild_code_writes_tokens_with_spaces() {
    let tokens = tokenize("let a=\\x->x in a").unwrap();
    assert_eq!(Token::rebuild_code(&tokens), "let a = λ x . x in a ");
    assert_eq!(Token::rebuild_code(&[]), "");
}

#[test]
fn former_brackets_the_implied_groups() {
    let formed = form(tokenize("λx . x y").unwrap());
    assert_eq!(Token::rebuild_code(&formed), "λ x . ( x y ) ");
    // a synthetic bracket stands where the token before it ends
    assert_eq!((formed[3].0, formed[3].2), (5, 5));
    assert_eq!((formed[6].0, formed[6].2), (9, 9));
    let formed = form(tokenize("let a = λx.x, b = a in b a").unwrap());
    assert_eq!(
        Token::rebuild_code(&formed),
        "let a = λ x . ( x ) , b = a in ( b a ) "
    );
    // a newline ends the groups; a newline before a tab or a newline and a tab are dropped
    let formed = form(tokenize("a = λx.x\n\n\ty\nb = a").unwrap());
    assert_eq!(Token::rebuild_code(&formed), "a = λ x . ( x y ) b = a ");
    assert!(form(Vec::new()).is_empty());
}

#[test]
fn former_steps() {
    let mut f = Form::new(tokenize("a").unwrap());
    f.set();
    assert_eq!(kinds(&f.buf), vec![ident("a")]);
    f.push_depth(Implicit::Fn);
    f.push_depth(Implicit::Let);
    f.push_depth(Implicit::Fn);
    assert_eq!(f.stack, vec![Implicit::Fn, Implicit::Let, Implicit::Fn]);
    f.goto(Implicit::Let);
    assert_eq!(f.stack, vec![Implicit::Fn, Implicit::Let]);
    f.finish(Implicit::Let);
    assert_eq!(f.stack, vec![Implicit::Fn]);
    f.push_meta(Token::Comma);
    f.finish_all();
    assert!(f.stack.is_empty());
    assert_eq!(
        Token::rebuild_code(&f.buf),
        "a ( ( ( ) , ) "
    );
}

#[test]
fn parser_builds_the_tree() {
    let tokens = CodeUnit::into_tokens("id = λx. x\nuse \"lib.ac\"\nid a b").unwrap();
    let program = parse_program(&tokens).unwrap();
    let var = |s: &str| Box::new(Ast::Var(s.to_string()));
    assert_eq!(
        program,
        Ast::Program(vec![
            Ast::Assign("id".to_string(), Box::new(Ast::Abs("x".to_string(), var("x")))),
            Ast::Use("lib.ac".to_string()),
            Ast::App(Box::new(Ast::App(var("id"), var("a"))), var("b")),
        ])
    );
    let expr = CodeUnit::parse_expr("let a = x, b = y in a b").unwrap();
    assert_eq!(
        expr,
        Ast::Let(
            vec![
                Ast::Assign("a".to_string(), var("x")),
                Ast::Assign("b".to_string(), var("y")),
            ],
            Box::new(Ast::App(var("a"), var("b")))
        )
    );
    assert_eq!(CodeUnit::parse("").unwrap(), Ast::Program(vec![]));
}

#[test]
fn parser_errors_hold_the_place() {
    assert!(matches!(CodeUnit::parse("a = "), Err(Error::ParserError(3))));
    assert!(matches!(CodeUnit::parse("λ . x"), Err(Error::ParserError(3))));
    assert!(matches!(CodeUnit::parse("λ x y"), Err(Error::ParserError(5))));
    assert!(matches!(CodeUnit::parse("\\ . x"), Err(Error::ParserError(2))));
    assert!(matches!(CodeUnit::parse("( a b"), Err(Error::ParserError(5))));
    assert!(matches!(CodeUnit::parse("a ) b"), Err(Error::ParserError(2))));
    assert!(matches!(CodeUnit::parse("use a"), Err(Error::ParserError(4))));
    assert!(matches!(CodeUnit::parse("let a = b"), Err(Error::ParserError(9))));
    assert!(matches!(CodeUnit::parse_expr("a = b"), Err(Error::ParserError(2))));
    assert!(matches!(CodeUnit::parse_expr("a ? b"), Err(Error::LexerError(2))));
}

#[test]
fn alphabet_of_sixty_glyphs() {
    assert_eq!(get_alias(0), "α");
    assert_eq!(get_alias(16), "σ");
    assert_eq!(get_alias(17), "ς");
    assert_eq!(get_alias(24), "a");
    assert_eq!(get_alias(49), "z");
    assert_eq!(get_alias(59), "9");
    assert_eq!(get_alias(60), "αβ");
    assert_eq!(get_alias(24 + 60 * 25), "ab");
    assert_eq!(get_idx("a"), Some(24));
    assert_eq!(get_idx("ab"), Some(24 + 60 * 25));
    assert_eq!(get_idx("αβ"), Some(60));
    assert_eq!(get_idx(""), Some(0));
    assert_eq!(get_idx("A"), None);
    assert_eq!(get_idx("a_"), None);
    assert_eq!(get_idx("λ"), None);
    assert_eq!(get_idx("99999999999"), None);
    for n in [0usize, 1, 59, 60, 61, 3599, 3600, 123_456_789, usize::MAX] {
        assert_eq!(get_idx(&get_alias(n)), Some(n));
    }
}

#[test]
fn names_resolve_to_binders_then_definitions_then_identifiers() {
    let mut cu = CodeUnit::new();
    let program = CodeUnit::parse("K = λx. λy. x\nI = λx. x").unwrap();
    assert!(matches!(cu.eval(&program, 0), Ok((Outcome::Done, 2))));
    let t = cu.scope.dump(&CodeUnit::parse_expr("λK. K I a").unwrap()).unwrap();
    // the bound K is a variable, I is the definition, a is the free identifier 24
    let free: Vec<usize> = t.free_vars().into_iter().collect();
    assert_eq!(free, vec![24]);
    let id = cu.scope.dump(&CodeUnit::parse_expr("λq. q").unwrap()).unwrap();
    let expected = Term::abs(1000, Term::app(Term::app(Term::var(1000), id), Term::var(24)));
    assert!(t.alpha_eq(&expected));
    assert!(matches!(
        cu.scope.dump(&CodeUnit::parse_expr("λx. Unknown x").unwrap()),
        Err(Error::DefNotFound(name)) if name == "Unknown"
    ));
}

#[test]
fn bound_identifiers_are_fresh() {
    let mut cu = CodeUnit::new();
    // the free identifier a is 24; no binder may take that identifier
    let t = cu.scope.dump(&CodeUnit::parse_expr("λx. λy. λz. a x").unwrap()).unwrap();
    assert!(t.free_vars().contains(&24));
    assert!(!t.bounded_vars().contains(&24));
    let u = cu.scope.dump(&CodeUnit::parse_expr("λx. x").unwrap()).unwrap();
    for v in u.bounded_vars() {
        assert!(!t.bounded_vars().contains(&v));
    }
}

#[test]
fn insert_refuses_a_second_definition() {
    let mut cu = CodeUnit::new();
    let id = Term::abs(1, Term::var(1));
    assert!(cu.scope.insert("id".to_string(), id.clone()).is_ok());
    match cu.scope.insert("id".to_string(), Term::var(3)) {
        Err(Error::AlreadyDefined(name, term)) => {
            assert_eq!(name, "id");
            assert_eq!(term, id);
        }
        other => panic!("unexpected {:?}", other),
    }
    assert_eq!(cu.scope.get(&"id".to_string()), Some(&id));
    assert_eq!(cu.scope.get(&"other".to_string()), None);
    let program = CodeUnit::parse("id = λy. y").unwrap();
    assert!(matches!(cu.eval(&program, 0), Err(Error::AlreadyDefined(_, _))));
}

#[test]
fn pretty_show_recovers_names() {
    let mut cu = CodeUnit::new();
    let program = CodeUnit::parse("true = λa. λb. a\nfalse = λa. λb. b").unwrap();
    assert!(cu.eval(&program, 0).is_ok());
    let t = Term::abs(7, Term::abs(8, Term::var(7)));
    assert_eq!(cu.scope.pretty_show(&t), "true");
    assert_eq!(cu.scope.get_like(&t), Some(&"true".to_string()));
    let pair = Term::app(Term::var(24), Term::app(t, Term::abs(3, Term::abs(4, Term::var(4)))));
    assert_eq!(cu.scope.pretty_show(&pair), "a (true false)");
    let open = Term::abs(25, Term::app(Term::var(25), Term::var(24)));
    assert_eq!(cu.scope.pretty_show(&open), "λb b a");
    assert_eq!(church::compiler::Compiler::get_alias(61), "ββ");
}

#[test]
fn a_definition_that_names_itself_gets_the_fixed_point_combinator() {
    let mut cu = CodeUnit::new();
    let program = CodeUnit::parse("loop = λx. loop x").unwrap();
    assert!(cu.eval(&program, 0).is_ok());
    let stored = cu.scope.get(&"loop".to_string()).unwrap().clone();
    let own = get_idx("loop").unwrap();
    assert!(!stored.has_free(own));
    let y = church::compiler::get_y_combinator();
    let expected = Term::app(
        y,
        Term::abs(5000, Term::abs(5001, Term::app(Term::var(5000), Term::var(5001)))),
    );
    assert!(stored.alpha_eq(&expected));
}

#[test]
fn eval_hands_over_includes_and_values() {
    let mut cu = CodeUnit::new();
    let program = CodeUnit::parse("id = λx. x\nuse \"more.ac\"\nid b\nc = id").unwrap();
    match cu.eval(&program, 0) {
        Ok((Outcome::Include(path), 2)) => assert_eq!(path, "more.ac"),
        other => panic!("unexpected {:?}", other),
    }
    match cu.eval(&program, 2) {
        Ok((Outcome::Value(term), 3)) => {
            let reduced = term.beta_reduced(LIMIT);
            assert!(reduced.alpha_eq(&Term::var(25)));
        }
        other => panic!("unexpected {:?}", other),
    }
    assert!(matches!(cu.eval(&program, 3), Ok((Outcome::Done, 4))));
    assert!(cu.scope.get(&"c".to_string()).is_some());
    // a tree that is no program is a program of one atom
    let single = CodeUnit::parse_expr("id id").unwrap();
    assert!(matches!(cu.eval(&single, 0), Ok((Outcome::Value(_), 1))));
    assert!(matches!(cu.eval(&single, 1), Ok((Outcome::Done, 1))));
}

#[test]
fn let_is_undone_after_its_body() {
    let mut cu = CodeUnit::new();
    let program = CodeUnit::parse("id = λx. x").unwrap();
    assert!(cu.eval(&program, 0).is_ok());
    let before = cu.scope.defs.len();
    let t = cu
        .scope
        .dump(&CodeUnit::parse_expr("let k = λx. λy. x, id = k in id a b").unwrap())
        .unwrap();
    assert!(t.beta_reduced(LIMIT).alpha_eq(&Term::var(24)));
    assert_eq!(cu.scope.defs.len(), before);
    assert!(cu.scope.get(&"k".to_string()).is_none());
    assert!(cu.scope.get(&"id".to_string()).unwrap().alpha_eq(&Term::abs(1, Term::var(1))));
    // a failure inside the let leaves the table as it was, too
    assert!(matches!(
        cu.scope.dump(&CodeUnit::parse_expr("let k = λx. x in let j = Missing in k").unwrap()),
        Err(Error::DefNotFound(_))
    ));
    assert_eq!(cu.scope.defs.len(), before);
    assert_eq!(cu.scope.aliases.len(), before);
}

#[test]
fn the_binder_of_an_abstraction_is_a_new_identifier() {
    let mut cu = CodeUnit::new();
    // (λx. x) x: the outer x is the free variable 47
    assert_eq!(get_idx("x"), Some(47));
    let lambda = Ast::Abs("x".to_string(), Box::new(Ast::Var("x".to_string())));
    let ast = Ast::App(Box::new(lambda), Box::new(Ast::Var("x".to_string())));
    let t = cu.scope.dump(&ast).unwrap();
    let binders: Vec<usize> = t.bounded_vars().into_iter().collect();
    assert_eq!(binders.len(), 1);
    let k = binders[0];
    assert!(k >= 48 && k < cu.scope.next);
    assert_eq!(t, Term::app(Term::abs(k, Term::var(k)), Term::var(47)));
    // the next abstraction gets the next identifier
    let again = cu.scope.dump(&ast).unwrap();
    assert_eq!(again, Term::app(Term::abs(k + 1, Term::var(k + 1)), Term::var(47)));
    assert!(cu.scope.defs.is_empty() && cu.scope.aliases.is_empty());
}

#[test]
fn a_table_changed_from_outside_is_told() {
    let mut cu = CodeUnit::new();
    assert!(cu.scope.is_wf());
    cu.scope.insert("id".to_string(), dump_expr("λx. x")).unwrap();
    cu.scope.insert("k".to_string(), dump_expr("λx. λy. x")).unwrap();
    assert!(cu.scope.is_wf());
    // a definition without its canonical form
    let mut short = CodeUnit::new();
    short.scope.defs.push(("id".to_string(), Term::abs(0, Term::var(0))));
    assert!(!short.scope.is_wf());
    // a canonical form under another name
    let mut renamed = CodeUnit::new();
    renamed.scope.insert("id".to_string(), Term::abs(0, Term::var(0))).unwrap();
    renamed.scope.aliases[0].1 = "other".to_string();
    assert!(!renamed.scope.is_wf());
    // a canonical form that is none
    let mut loose = CodeUnit::new();
    loose.scope.insert("id".to_string(), Term::abs(0, Term::var(0))).unwrap();
    loose.scope.aliases[0].0 = Term::abs(3, Term::var(3));
    assert!(!loose.scope.is_wf());
    // a canonical form of another term
    let mut other = CodeUnit::new();
    other.scope.insert("id".to_string(), Term::abs(0, Term::var(0))).unwrap();
    other.scope.aliases[0].0 = Term::abs(0, Term::abs(1, Term::var(0)));
    assert!(!other.scope.is_wf());
    // a free variable that the counter has not passed
    let mut early = CodeUnit::new();
    early.scope.insert("v".to_string(), Term::var(5)).unwrap();
    early.scope.next = 5;
    assert!(!early.scope.is_wf());
    early.scope.next = 6;
    assert!(early.scope.is_wf());
}
