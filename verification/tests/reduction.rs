use church::beta::{BetaOrder, Halt};
use church::cu::CodeUnit;
use church::straight::StraightRedex;
use church::Term;

const LIMIT: usize = 10_000;

fn var(v: usize) -> Term {
    Term::var(v)
}

fn app(m: Term, n: Term) -> Term {
    Term::app(m, n)
}

fn abs(v: usize, m: Term) -> Term {
    Term::abs(v, m)
}

fn apps(ts: Vec<Term>) -> Term {
    let mut it = ts.into_iter();
    let mut t = it.next().unwrap();
    for a in it {
        t = app(t, a);
    }
    t
}

const A: usize = 24;
const B: usize = 25;
const D: usize = 27;
const E: usize = 28;

fn flip() -> Term {
    // λf x y. f y x
    abs(1, abs(2, abs(3, apps(vec![var(1), var(3), var(2)]))))
}

#[test]
fn flip_composition() {
    // flip flip is λx y z. y z x
    let mut t = app(flip(), flip());
    let (_, halt) = t.beta_redex(LIMIT);
    assert_eq!(halt, Halt::NormalForm);
    assert!(t.alpha_eq(&abs(1, abs(2, abs(3, apps(vec![var(2), var(3), var(1)]))))));
    // flip after flip is the identity, up to eta
    let mut twice = abs(9, app(flip(), app(flip(), var(9))));
    let (_, halt) = twice.beta_redex(LIMIT);
    assert_eq!(halt, Halt::NormalForm);
    assert!(twice.alpha_eq(&abs(1, var(1))));
    // and flip applied twice to a function gives the function back
    let mut back = app(flip(), app(flip(), var(A)));
    back.beta_redex(LIMIT);
    assert!(back.alpha_eq(&var(A)));
}

#[test]
fn capture_avoiding_xor() {
    // λa. λb. (λa. λb. a b a) ((λa. λb. a a b) a b) ((λa. a (λa. λb. b) (λa. λb. a)) ((λa. λb. a b a) a b))
    let and = || abs(A, abs(B, apps(vec![var(A), var(B), var(A)])));
    let or = || abs(A, abs(B, apps(vec![var(A), var(A), var(B)])));
    let fls = || abs(A, abs(B, var(B)));
    let tru = || abs(A, abs(B, var(A)));
    let not = abs(A, apps(vec![var(A), fls(), tru()]));
    let input = abs(
        A,
        abs(
            B,
            apps(vec![
                and(),
                apps(vec![or(), var(A), var(B)]),
                app(not, apps(vec![and(), var(A), var(B)])),
            ]),
        ),
    );
    // λa. λb. a a b (a b a (λd e. e) (λd e. d)) (a a b)
    let expected = abs(
        A,
        abs(
            B,
            apps(vec![
                var(A),
                var(A),
                var(B),
                apps(vec![
                    var(A),
                    var(B),
                    var(A),
                    abs(D, abs(E, var(E))),
                    abs(D, abs(E, var(D))),
                ]),
                apps(vec![var(A), var(A), var(B)]),
            ]),
        ),
    );
    let mut t = input;
    let (_, halt) = t.beta_redex(LIMIT);
    assert_eq!(halt, Halt::NormalForm);
    assert!(t.alpha_eq(&expected), "{}", t.to_string());
    // applied to truth values it is exclusive or
    for (l, r) in [(false, false), (false, true), (true, false), (true, true)] {
        let pick = |b: bool| if b { tru() } else { fls() };
        let value = apps(vec![t.clone(), pick(l), pick(r)]).beta_reduced(LIMIT);
        assert!(value.alpha_eq(&pick(l != r)));
    }
}

#[test]
fn church_zero_equals_false() {
    let zero = abs(1, abs(2, var(2)));
    let fls = abs(A, abs(B, var(B)));
    assert!(zero.alpha_eq(&fls));
    assert!(!zero.alpha_eq(&abs(A, abs(B, var(A)))));
}

#[test]
fn self_application_diverges_under_call_by_value() {
    let omega = app(abs(1, app(var(1), var(1))), abs(1, app(var(1), var(1))));
    let mut t = omega.clone();
    for limit in [1usize, 10, 100] {
        let (steps, halt) = t.beta_redex_by(BetaOrder::CallByValue, false, limit);
        assert_eq!((steps, halt), (limit, Halt::StepLimit));
        assert!(t.alpha_eq(&omega));
    }
}

#[test]
fn let_with_inner_shadowing() {
    let mut cu = CodeUnit::new();
    let expr = CodeUnit::parse_expr("let id = λx. x in let id = λy. id y in id a").unwrap();
    let t = cu.scope.dump(&expr).unwrap();
    let mut reduced = t;
    let (_, halt) = reduced.beta_redex(LIMIT);
    assert_eq!(halt, Halt::NormalForm);
    assert_eq!(reduced, var(A));
    assert_eq!(cu.scope.pretty_show(&reduced), "a");
    assert!(cu.scope.defs.is_empty());
}

#[test]
fn identity_on_identity_from_source() {
    let mut cu = CodeUnit::new();
    let program = CodeUnit::parse("i = λx. x\nj = λy. y").unwrap();
    assert!(cu.eval(&program, 0).is_ok());
    let t = cu.scope.dump(&CodeUnit::parse_expr("i j").unwrap()).unwrap();
    let reduced = t.beta_reduced(LIMIT);
    assert!(reduced.alpha_eq(&abs(1, var(1))));
    assert_eq!(cu.scope.pretty_show(&reduced), "j");
}

#[test]
fn straight_reduction_works_on_every_part() {
    // 9 ((λ1. 1) 3) ((λ2. 2 2) (λ4. 4))  ->  9 3 (λ4. 4)
    let t = apps(vec![
        var(9),
        app(abs(1, var(1)), var(3)),
        app(abs(2, app(var(2), var(2))), abs(4, var(4))),
    ]);
    let mut r = t.clone();
    r.straight_redex(10);
    assert!(r.alpha_eq(&apps(vec![var(9), var(3), abs(1, var(1))])));
    assert!(t.clone().straight_reduced(10).alpha_eq(&r));
    // nothing is contracted without an allowance
    assert_eq!(t.clone().straight_reduced(0), t);
    // an eta redex is contracted, and the work goes on with what is left
    let e = abs(1, app(app(abs(2, var(2)), var(5)), var(1)));
    assert_eq!(e.straight_reduced(10), var(5));
    // the allowance ends a reduction that has no end
    let omega = app(abs(1, app(var(1), var(1))), abs(1, app(var(1), var(1))));
    assert!(omega.clone().straight_reduced(7).alpha_eq(&omega));
}

#[test]
fn a_reduction_that_comes_back_is_found() {
    let dup = || Term::abs(0, Term::app(Term::var(0), Term::var(0)));
    let omega = Term::app(dup(), dup());
    // after two steps the term is what it was after one
    let again = omega.clone().cycle(10).unwrap();
    assert!(again.alpha_eq(&omega));
    assert!(again.is_canonical_form());
    assert_eq!(omega.clone().cycle(2).map(|t| t.alpha_eq(&omega)), Some(true));
    assert_eq!(omega.clone().cycle(1), None);
    assert_eq!(omega.clone().cycle(0), None);
    // a reduction that ends comes back to nothing
    let ends = Term::app(Term::abs(0, Term::var(0)), Term::var(7));
    assert_eq!(ends.cycle(10), None);
    assert_eq!(Term::var(1).cycle(10), None);
    // nor does one that grows with every step
    let tri = || Term::abs(0, Term::app(Term::app(Term::var(0), Term::var(0)), Term::var(0)));
    assert_eq!(Term::app(tri(), tri()).cycle(6), None);
    // the cycle may start late: (λy. Ω) z steps to Ω first
    let late = Term::app(Term::abs(3, omega.clone()), Term::var(9));
    let found = late.cycle(10).unwrap();
    assert!(found.alpha_eq(&omega));
}
