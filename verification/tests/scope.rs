use church::notation::{parse, try_from_str, try_lexer, Error, Gramem, Sym};
use church::lines::{parse_bindings, tabulated_lines, TabulatedLines};
use church::scope::{delta_outcome, fixed_point_text, occurs, Scope, ScopeError};
use church::Term;
use std::str::FromStr;

const ROUNDS: usize = 100;
const LIMIT: usize = 10_000;

fn scope(pairs: &[(&str, &str)]) -> Scope {
    Scope {
        aliases: pairs.iter().map(|p| p.0.to_string()).collect(),
        defs: pairs.iter().map(|p| p.1.to_string()).collect(),
        indexes: Default::default(),
        need_update: true,
    }
}

fn strings(v: &[&str]) -> Vec<String> {
    v.iter().map(|s| s.to_string()).collect()
}

#[test]
fn names_are_replaced_by_their_texts() {
    let s = scope(&[("C", "(^x.(x x))"), ("A", "(a a)"), ("AB", "(b)")]);
    assert_eq!(
        s.redex_by_delta("C A"),
        Ok(("(^x.(x x)) (a a)".to_string(), true))
    );
    // of the names that stand at a place, the longest is replaced
    assert_eq!(s.redex_by_delta("AB A B"), Ok(("(b) (a a) B".to_string(), true)));
    assert_eq!(s.redex_by_delta("x y"), Ok(("x y".to_string(), false)));
    assert_eq!(scope(&[]).redex_by_delta("C A"), Ok(("C A".to_string(), false)));
}

#[test]
fn outcome_says_whether_the_text_changed() {
    assert_eq!(delta_outcome("a".to_string(), "a"), ("a".to_string(), false));
    assert_eq!(delta_outcome("a".to_string(), "b"), ("a".to_string(), true));
    assert_eq!(delta_outcome(String::new(), "b"), (String::new(), true));
}

#[test]
fn constants_replacement() {
    let mut s = Scope::from_str(
        "
C = ^x.(x x)
A = a a
        ",
    )
    .unwrap();
    let lhs = try_from_str(&s.delta_redex("C A", ROUNDS).unwrap().0)
        .unwrap()
        .beta_reduced(LIMIT);
    let rhs = try_from_str(&s.delta_redex("C (A)", ROUNDS).unwrap().0)
        .unwrap()
        .beta_reduced(LIMIT);
    assert!(lhs.alpha_eq(&rhs), "{} != {}", lhs.to_string(), rhs.to_string());
}

#[test]
fn definitions_text_by_text() {
    let mut s = Scope::from_str("\nC = ^x.(x x)\nA = a a\n        ").unwrap();
    assert_eq!(s.aliases, strings(&["C", "A"]));
    assert_eq!(s.defs, strings(&["(^x.(x x))", "(a a)"]));
    assert_eq!(s.delta_redex("C A", ROUNDS).unwrap().0, "(^x.(x x)) (a a)");
    assert_eq!(s.delta_redex("C (A)", ROUNDS).unwrap().0, "(^x.(x x)) ((a a))");
    // a term is known under the name of the last definition that spells it
    let twice = Term::abs(7, Term::app(Term::var(7), Term::var(7)));
    assert_eq!(s.get_from_alpha_key(&twice), Some(&"C".to_string()));
    assert_eq!(s.get_from_alpha_key(&Term::var(0)), None);
    let both = scope(&[("K", "^a.(^b.(a))"), ("bad", "^a."), ("T", "(^x.(^y.(x)))")]);
    let k = Term::abs(1, Term::abs(2, Term::var(1)));
    assert_eq!(both.get_from_alpha_key(&k), Some(&"T".to_string()));
}

#[test]
fn bracketed_notation() {
    let t = try_from_str("(^x.(x x)) (a b' c)").unwrap();
    assert_eq!(t.to_string(), "(λ23.23 23) (0 27) 2");
    assert!(t.closed == false);
    assert!(try_from_str("\\f -> (λx.(f x))").unwrap().closed);
    assert_eq!(
        try_lexer("^a'' ."),
        Ok(vec![
            Gramem { sym: Sym::LambdaChar, var: 0, start: 0, end: 1 },
            Gramem { sym: Sym::Var, var: 52, start: 1, end: 4 },
            Gramem { sym: Sym::Body, var: 0, start: 5, end: 6 },
        ])
    );
    assert_eq!(try_lexer("a B"), Err(Error::UnexpectedToken(Sym::Unknown(2, 3), 0)));
    // places are counted in bytes
    assert_eq!(try_lexer("λ a é"), Err(Error::UnexpectedToken(Sym::Unknown(5, 7), 0)));
    let greek = try_lexer("λa.a").unwrap();
    assert_eq!((greek[0].start, greek[0].end), (0, 2));
    assert_eq!((greek[1].start, greek[1].end), (2, 3));
    assert_eq!((greek[3].start, greek[3].end), (4, 5));
    assert_eq!(try_from_str(""), Err(Error::UnexpectedEof));
    assert_eq!(try_from_str("^x.x"), Err(Error::UnexpectedToken(Sym::Var, 3)));
    assert_eq!(try_from_str("^x.(x"), Err(Error::UnexpectedEof));
    assert_eq!(try_from_str("a )"), Err(Error::UnexpectedToken(Sym::CloseParen, 1)));
    assert_eq!(try_from_str("^.(a)"), Err(Error::UnexpectedToken(Sym::Body, 1)));
    assert_eq!(parse(&Vec::new()), Err(Error::UnexpectedEof));
}

#[test]
fn definitions_are_replaced_in_definitions() {
    let mut s = scope(&[("A", "(B B)"), ("B", "(C)"), ("C", "c")]);
    assert_eq!(s.internal_delta(ROUNDS), Ok(true));
    assert_eq!(s.defs, strings(&["((c) (c))", "(c)", "c"]));
    assert!(s.need_update);
    // a definition that holds its own name grows with every pass
    let mut grows = scope(&[("A", "A A")]);
    assert_eq!(grows.internal_delta(3), Ok(false));
    assert_eq!(grows.defs, vec![vec!["A"; 256].join(" ")]);
    let mut none = scope(&[("A", "A A")]);
    assert_eq!(none.internal_delta(0), Ok(false));
    assert_eq!(none.defs, strings(&["A A"]));
}

#[test]
fn update_settles_and_indexes_once() {
    let mut s = scope(&[("A", "one"), ("B", "A"), ("A", "two")]);
    assert_eq!(s.update(ROUNDS), Ok(true));
    assert!(!s.need_update);
    // the update indexes the names
    assert_eq!(s.get("A"), Some(&"two".to_string()));
    assert_eq!(s.get("B"), Some(&"one".to_string()));
    // the first A stands for the text of the last
    assert_eq!(s.defs, strings(&["two", "one", "two"]));
    assert_eq!(s.update(ROUNDS), Ok(true));
    assert_eq!(s.defs, strings(&["two", "one", "two"]));
    let mut more = Scope::new();
    more.extend(scope(&[("X", "x")]));
    more.extend(scope(&[("Y", "X X")]));
    assert!(more.need_update);
    assert_eq!(more.aliases, strings(&["X", "Y"]));
    assert_eq!(more.delta_redex("Y", ROUNDS), Ok(("x x".to_string(), true)));
    let mut idx = scope(&[("A", "1"), ("B", "b"), ("A", "2"), ("A", "3")]);
    idx.index();
    assert_eq!(idx.defs, strings(&["3", "b", "2", "3"]));
    assert_eq!(idx.indexes.get("A"), Some(&0));
    assert_eq!(idx.indexes.get("B"), Some(&1));
    assert_eq!(idx.indexes.len(), 2);
    assert_eq!(idx.get("A"), Some(&"3".to_string()));
    assert_eq!(idx.get("B"), Some(&"b".to_string()));
    assert_eq!(idx.get("C"), None);
}

#[test]
fn recursion_is_solved_with_a_fixed_point() {
    assert_eq!(Scope::get_free_name("b c"), Ok(0));
    assert_eq!(Scope::get_free_name("α γ β"), Ok(3));
    assert_eq!(Scope::solve_recursion("F", "^n.(G n)"), Ok(None));
    assert_eq!(
        Scope::solve_recursion("F", "^n.(F n)"),
        Ok(Some("(^f.(^x.(f (x x)) ^x.(f (x x))) ^α.(^n.(α n)))".to_string()))
    );
    assert_eq!(
        fixed_point_text("r", "r r"),
        "(^f.(^x.(f (x x)) ^x.(f (x x))) ^r.(r r))"
    );
    assert!(occurs("abc", "bc") && occurs("abc", "") && occurs("", ""));
    assert!(!occurs("abc", "cb") && !occurs("ab", "abc"));
}

#[test]
fn definitions_are_read_line_by_line() {
    let text = "A = a a # twice\n\nB =\n\tb\n  b\r\nnot a definition\nC=c=d";
    assert_eq!(
        tabulated_lines(text),
        strings(&["A = a a # twice", "", "B =\tb  b", "not a definition", "C=c=d"])
    );
    assert_eq!(
        parse_bindings(text),
        vec![
            ("A".to_string(), "a a".to_string()),
            ("B".to_string(), "b  b".to_string()),
            ("C".to_string(), "c=d".to_string()),
        ]
    );
    assert!(parse_bindings("").is_empty());
    let mut lines = TabulatedLines::new("a\n b\nc");
    assert_eq!(lines.next(), Some("a b".to_string()));
    assert_eq!(lines.next(), Some("c".to_string()));
    assert_eq!(lines.next(), None);
    assert_eq!(lines.next(), None);
    assert!(matches!(
        Scope::from_str("A = x\nA = y"),
        Err(ScopeError::Shadowing(name)) if name == "A"
    ));
    let s = Scope::from_str("F = ^n.(F n)\nG = g").unwrap();
    assert_eq!(
        s.defs,
        strings(&["(^f.(^x.(f (x x)) ^x.(f (x x))) ^α.(^n.(α n)))", "(g)"])
    );
}
