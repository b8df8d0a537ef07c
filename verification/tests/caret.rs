use church::caret::{get_global_parser, ParseError, Program, ProgramParser};
use church::ubody::{Ast, UnprocessedBody};

fn v(name: &str) -> Box<UnprocessedBody> {
    Box::new(UnprocessedBody::Var(name.to_string()))
}

fn ap(m: Box<UnprocessedBody>, n: Box<UnprocessedBody>) -> Box<UnprocessedBody> {
    Box::new(UnprocessedBody::App(m, n))
}

fn lam(name: &str, m: Box<UnprocessedBody>) -> Box<UnprocessedBody> {
    Box::new(UnprocessedBody::Abs(name.to_string(), m))
}

fn lines(src: &str) -> Vec<Ast> {
    get_global_parser().parse(src).unwrap().into_program()
}

#[test]
fn lambda_expressions() {
    assert!(get_global_parser().parse("^a.(a)").is_ok());
    assert!(get_global_parser().parse("^Param.(Function Param)").is_ok());
    assert!(get_global_parser().parse("Just a TEST").is_ok());
    assert!(get_global_parser().parse("Const").is_ok());
}

#[test]
fn the_trees_of_short_notation() {
    assert_eq!(lines("^a.(a)"), vec![Ast::Expr(lam("a", v("a")))]);
    assert_eq!(
        lines("^Param.(Function Param)"),
        vec![Ast::Expr(lam("Param", ap(v("Function"), v("Param"))))]
    );
    // operands are taken from the left
    assert_eq!(lines("Just a TEST"), vec![Ast::Expr(ap(ap(v("Just"), v("a")), v("TEST")))]);
    assert_eq!(lines("Const"), vec![Ast::Expr(v("Const"))]);
    assert_eq!(lines("f (g x) y"), vec![Ast::Expr(ap(ap(v("f"), ap(v("g"), v("x"))), v("y")))]);
    // the body of an abstraction goes on as far as it can
    assert_eq!(lines("^x. x y"), vec![Ast::Expr(lam("x", ap(v("x"), v("y"))))]);
    assert_eq!(lines("(^x. x) y"), vec![Ast::Expr(ap(lam("x", v("x")), v("y")))]);
    assert_eq!(lines("f ^x.^y. x"), vec![Ast::Expr(ap(v("f"), lam("x", lam("y", v("x")))))]);
    // the other signs of abstraction
    assert_eq!(lines("λx.x"), lines("^x.x"));
    assert_eq!(lines("\\ x . x"), lines("^x.x"));
}

#[test]
fn a_program_is_read_line_by_line() {
    let src = "\nid = ^x.x\n\n  two = ^f.^x. f (f x)\r\nid two\n";
    assert_eq!(
        lines(src),
        vec![
            Ast::LetExpr("id".to_string(), lam("x", v("x"))),
            Ast::LetExpr(
                "two".to_string(),
                lam("f", lam("x", ap(v("f"), ap(v("f"), v("x")))))
            ),
            Ast::Expr(ap(v("id"), v("two"))),
        ]
    );
    assert_eq!(lines(""), Vec::<Ast>::new());
    assert_eq!(lines(" \n\t\n"), Vec::<Ast>::new());
    let p = ProgramParser::new().parse("a").unwrap();
    assert_eq!(p, Program { lines: vec![Ast::Expr(v("a"))] });
}

#[test]
fn the_place_of_what_fits_no_rule() {
    let at = |src: &str| get_global_parser().parse(src).unwrap_err();
    assert_eq!(at("a)"), ParseError { at: 1 });
    assert_eq!(at("(a"), ParseError { at: 2 });
    assert_eq!(at("()"), ParseError { at: 1 });
    assert_eq!(at("^.x"), ParseError { at: 1 });
    assert_eq!(at("^x x"), ParseError { at: 3 });
    assert_eq!(at("^x."), ParseError { at: 3 });
    assert_eq!(at("a\n= b"), ParseError { at: 2 });
    assert_eq!(at("x = "), ParseError { at: 4 });
    assert_eq!(at("a ? b"), ParseError { at: 2 });
    assert_eq!(at("ab\ncd $"), ParseError { at: 6 });
    // places are counted in bytes
    assert_eq!(at("λx.x ?"), ParseError { at: 6 });
    assert_eq!(at("α β ?"), ParseError { at: 6 });
}
