use church::plain::{try_from_iter, try_from_str, ParserBodyError};
use church::{Body, Term};
use std::str::FromStr;

fn canonical(t: &Term) -> Term {
    let mut c = t.clone();
    c.unique_alpha_redex();
    c
}

#[test]
fn id() {
    let parsed = Term::from_str("λx.x").unwrap();
    let built: Term = Body::Abs(0, Body::Var(0).into()).into();
    assert_eq!(canonical(&built), canonical(&parsed));
}

#[test]
fn ambiguous_expr() {
    const EQUIVALENTS: &[&str] = &["λx.x λy.y x", "λx . (x λy.y x)"];
    const DIFFERENTS: &[&str] = &["(λx.x) (λy.y) x"];
    for e in EQUIVALENTS {
        assert_eq!(
            canonical(&Term::from_str(EQUIVALENTS[0]).unwrap()),
            canonical(&Term::from_str(e).unwrap())
        );
    }
    for d in DIFFERENTS {
        assert_ne!(
            canonical(&Term::from_str(EQUIVALENTS[0]).unwrap()),
            canonical(&Term::from_str(d).unwrap())
        );
    }
}

#[test]
fn plain_notation_names_variables_by_their_characters() {
    let t = try_from_str("λa.a b").unwrap();
    assert_eq!(t.to_string(), "λ97.97 98");
    let chars: Vec<char> = "(ab)c)d".chars().collect();
    let (whole, after) = try_from_iter(&chars, 0).unwrap();
    assert_eq!(whole.to_string(), "(97 98) 99");
    assert_eq!(after, 5);
    let (inner, after) = try_from_iter(&chars, 1).unwrap();
    assert_eq!(inner.to_string(), "97 98");
    assert_eq!(after, 3);
}

#[test]
fn application_takes_its_operands_from_the_left() {
    let var = |c: char| Term::from(Body::Var(c as usize));
    let app = |m: Term, n: Term| Term::from(Body::App(m, n));
    let chars: Vec<char> = "abc".chars().collect();
    assert_eq!(
        try_from_iter(&chars, 0),
        Ok((app(app(var('a'), var('b')), var('c')), 3))
    );
    assert_eq!(
        try_from_str("a (b c) d"),
        Ok(app(app(var('a'), app(var('b'), var('c'))), var('d')))
    );
    assert_ne!(try_from_str("a b c"), Ok(app(var('a'), app(var('b'), var('c')))));
    // the body of an abstraction goes on as far as it can
    assert_eq!(
        try_from_str("a λx.x b").unwrap(),
        app(
            var('a'),
            Term::from(Body::Abs('x' as usize, app(var('x'), var('b'))))
        )
    );
    assert_eq!(
        try_from_str("(λx.x) b").unwrap(),
        app(Term::from(Body::Abs('x' as usize, var('x'))), var('b'))
    );
}

#[test]
fn plain_notation_errors() {
    assert_eq!(try_from_str(""), Err(ParserBodyError::UnexpectedEof));
    assert_eq!(try_from_str("   "), Err(ParserBodyError::UnexpectedEof));
    assert_eq!(try_from_str("λx"), Err(ParserBodyError::UnexpectedEof));
    assert_eq!(try_from_str("λxy"), Err(ParserBodyError::MissingDot));
    assert_eq!(try_from_str("a λxy"), Err(ParserBodyError::MissingDot));
    assert_eq!(try_from_str("λx."), Err(ParserBodyError::UnexpectedEof));
    assert_eq!(try_from_str("(x"), Err(ParserBodyError::UnexpectedEof));
    assert_eq!(try_from_str("(λx.x(y)z"), Err(ParserBodyError::UnexpectedEof));
    assert_eq!(try_from_str("a ("), Err(ParserBodyError::UnexpectedEof));
    assert!(try_from_str("((x)y)").is_ok());
}
