use church::beta::{BetaOrder, Halt};
use church::{Body, Term};
use std::sync::atomic::AtomicBool;

fn var(v: usize) -> Term {
    Term::from(Body::Var(v))
}

fn app(m: Term, n: Term) -> Term {
    Term::from(Body::App(m, n))
}

fn abs(v: usize, m: Term) -> Term {
    Term::from(Body::Abs(v, m))
}

fn canonical(t: &Term) -> Term {
    let mut c = t.clone();
    c.unique_alpha_redex();
    c
}

#[test]
fn id_formatting() {
    let id: Term = Body::Abs(0, Body::Var(0).into()).into();
    assert_eq!(id.to_string(), "λ0.0");
}

#[test]
fn uniq_redex() {
    let expr = canonical(&Term::from(Body::Abs(0, Body::Var(0).into())));
    let reduced_expr: Term = Body::Abs(0, Body::Var(0).into()).into();
    assert_eq!(expr, reduced_expr);
}

#[test]
fn capture_free_subst() {
    // (λf x . f x) (λf x . f x)
    let expr: Term = Body::App(
        Body::Abs(
            0,
            Body::Abs(
                1,
                Body::App(Body::Var(0).into(), Body::Var(1).into()).into(),
            )
            .into(),
        )
        .into(),
        Body::Abs(
            0,
            Body::Abs(
                1,
                Body::App(Body::Var(0).into(), Body::Var(1).into()).into(),
            )
            .into(),
        )
        .into(),
    )
    .into();

    let mut redex = expr;
    let expected: Term = Body::Abs(
        0,
        Body::Abs(
            1,
            Body::App(Body::Var(0).into(), Body::Var(1).into()).into(),
        )
        .into(),
    )
    .into();
    while redex.normal_beta_redex_step() {}
    assert_eq!(
        canonical(&redex),
        canonical(&expected),
        "{} is alpha-different from {}",
        redex.to_string(),
        expected.to_string()
    );
}

#[test]
fn printing_brackets_a_compound_function() {
    let t = app(app(var(1), var(2)), abs(3, var(3)));
    assert_eq!(t.to_string(), "(1 2) λ3.3");
    assert_eq!(church::term::write_alias(120), "120");
    assert_eq!(church::term::write_alias(0), "0");
}

#[test]
fn free_and_bound_variables() {
    // λ1. 1 2 (λ3. 3 4)
    let t = abs(1, app(app(var(1), var(2)), abs(3, app(var(3), var(4)))));
    let mut free: Vec<usize> = t.free_vars().into_iter().collect();
    free.sort();
    assert_eq!(free, vec![2, 4]);
    let mut bound: Vec<usize> = t.bounded_vars().into_iter().collect();
    bound.sort();
    assert_eq!(bound, vec![1, 3]);
    assert!(t.has_free(2));
    assert!(!t.has_free(1));
    assert_eq!(t.len(), 9);
    assert_eq!(t.checked_len(), Some(9));
}

#[test]
fn closedness_after_update() {
    // (λ1. 1) 2 : the function is closed, the whole is not
    let mut t = app(abs(1, var(1)), var(2));
    t.update_closed();
    assert!(!t.closed);
    match &*t.body {
        Body::App(m, n) => {
            assert!(m.closed);
            assert!(!n.closed);
            match &*m.body {
                Body::Abs(_, b) => assert!(!b.closed),
                _ => panic!("the function is an abstraction"),
            }
        }
        _ => panic!("the term is an application"),
    }
    let mut id = abs(5, var(5));
    id.update_closed();
    assert!(id.closed);
    assert!(id.free_vars().is_empty());
}

#[test]
fn alpha_equivalence_is_an_equivalence() {
    let a = abs(1, abs(2, app(var(1), var(2))));
    let b = abs(7, abs(3, app(var(7), var(3))));
    let c = abs(2, abs(1, app(var(2), var(1))));
    let d = abs(1, abs(2, app(var(2), var(1))));
    assert!(a.alpha_eq(&a));
    assert!(a.alpha_eq(&b) && b.alpha_eq(&a));
    assert!(b.alpha_eq(&c) && a.alpha_eq(&c));
    assert!(!a.alpha_eq(&d));
    // free variables are compared by their identifiers
    assert!(abs(1, var(9)).alpha_eq(&abs(2, var(9))));
    assert!(!abs(1, var(9)).alpha_eq(&abs(2, var(8))));
    assert!(!abs(1, var(1)).alpha_eq(&abs(2, var(1))));
}

#[test]
fn canonical_forms_of_equivalent_terms_are_equal() {
    let a = abs(10, abs(20, app(app(var(10), var(20)), var(0))));
    let b = abs(5, abs(6, app(app(var(5), var(6)), var(0))));
    let c = abs(5, abs(6, app(app(var(6), var(5)), var(0))));
    assert!(a.alpha_eq(&b));
    assert_eq!(canonical(&a), canonical(&b));
    assert!(!a.alpha_eq(&c));
    assert_ne!(canonical(&a), canonical(&c));
    // binders are numbered by depth, passing over the free variable 0
    assert_eq!(canonical(&a).to_string(), "λ1.λ2.(1 2) 0");
    // siblings at the same depth get the same name
    let s = app(abs(8, var(8)), abs(9, var(9)));
    assert_eq!(canonical(&s).to_string(), "(λ0.0) λ0.0");
    assert!(canonical(&s).alpha_eq(&s));
}

#[test]
fn debrejin_names_match() {
    let t = abs(4, app(var(4), var(1)));
    let mut a = t.clone();
    a.debrejin_redex();
    assert_eq!(a, t.clone().debrejin_reduced());
    assert_eq!(a, canonical(&t));
    assert_eq!(a.to_string(), "λ0.0 1");
}

#[test]
fn substitution_avoids_capture() {
    // (λ2. 1 2)[1 := 2] must not capture the free 2
    let mut t = abs(2, app(var(1), var(2)));
    let changed = t.apply_by(1, &var(2));
    assert!(changed);
    let mut free: Vec<usize> = t.free_vars().into_iter().collect();
    free.sort();
    assert_eq!(free, vec![2]);
    assert!(t.alpha_eq(&abs(7, app(var(2), var(7)))));
    // a shadowed variable is left alone
    let mut s = abs(1, var(1));
    assert!(!s.apply_by(1, &var(5)));
    assert_eq!(s, abs(1, var(1)));
    // apply is apply_by without the answer
    let mut u = app(var(1), var(3));
    u.apply(1, &abs(4, var(4)));
    assert_eq!(u, app(abs(4, var(4)), var(3)));
}

#[test]
fn safe_context_check_renames_colliding_binders() {
    let val = var(2);
    let mut t = abs(2, app(var(1), var(2)));
    let before = t.clone();
    t.safe_context_check(&val);
    assert!(t.alpha_eq(&before));
    assert!(!t.bounded_vars().contains(&2));
    // nothing to do where no binder collides
    let mut u = abs(3, var(3));
    u.safe_context_check(&val);
    assert_eq!(u, abs(3, var(3)));
}

#[test]
fn eta_step() {
    // λ1. 5 1  ->  5
    let mut t = abs(1, app(var(5), var(1)));
    assert!(t.eta_redex_step());
    assert_eq!(t, var(5));
    // λ1. 1 1 is no eta redex
    let mut u = abs(1, app(var(1), var(1)));
    assert!(!u.eta_redex_step());
    assert_eq!(u, abs(1, app(var(1), var(1))));
    // the eta law: λv. m v contracts to m where v is not free in m
    let m = abs(3, app(var(3), var(9)));
    let mut e = abs(1, app(m.clone(), var(1)));
    assert!(e.eta_redex_step());
    assert!(e.alpha_eq(&m));
}

#[test]
fn identity_on_identity() {
    let mut t = app(abs(1, var(1)), abs(2, var(2)));
    let (steps, halt) = t.beta_redex(100);
    assert_eq!(halt, Halt::NormalForm);
    assert_eq!(steps, 1);
    assert!(t.alpha_eq(&abs(7, var(7))));
    assert!(!t.alpha_eq(&abs(7, var(8))));
}

#[test]
fn normal_order_takes_the_leftmost_outermost_redex() {
    // (λ1. 9) ((λ2. 2 2) (λ2. 2 2)) : normal order drops the argument
    let omega = app(abs(2, app(var(2), var(2))), abs(2, app(var(2), var(2))));
    let mut t = app(abs(1, var(9)), omega.clone());
    assert!(t.normal_beta_redex_step());
    assert_eq!(t, var(9));
    assert!(!t.normal_beta_redex_step());
    // call by value reduces the argument first, and never ends
    let mut u = app(abs(1, var(9)), omega);
    let (steps, halt) = u.beta_redex_by(BetaOrder::CallByValue, false, 25);
    assert_eq!((steps, halt), (25, Halt::StepLimit));
}

#[test]
fn eta_is_a_choice() {
    // λ1. λ2. 1 2 has no beta redex; with eta it contracts to λ1. 1
    let t = abs(1, abs(2, app(var(1), var(2))));
    let mut pure = t.clone();
    assert!(!pure.normal_beta_redex_step());
    assert!(!pure.cbv_beta_redex_step());
    assert_eq!(pure, t);
    assert_eq!(pure.beta_redex_by(BetaOrder::Normal, false, 10), (0, Halt::NormalForm));
    let mut with_eta = t.clone();
    assert!(with_eta.beta_redex_step());
    assert_eq!(with_eta, abs(1, var(1)));
    let mut run = t.clone();
    assert_eq!(run.beta_redex(10), (1, Halt::NormalForm));
    assert_eq!(run, abs(1, var(1)));
    let mut by = t.clone();
    assert!(by.beta_redex_step_by(BetaOrder::CallByValue, true));
    assert_eq!(by, abs(1, var(1)));
}

#[test]
fn steps_report_whether_they_changed_the_term() {
    let mut v = var(3);
    assert!(!v.beta_redex_step());
    assert!(!v.cbv_beta_redex_step());
    let mut t = app(var(1), app(abs(2, var(2)), var(3)));
    assert!(t.beta_redex_step());
    assert_eq!(t, app(var(1), var(3)));
    assert!(!t.beta_redex_step());
}

#[test]
fn self_application_diverges_and_can_be_cancelled() {
    let omega = app(abs(1, app(var(1), var(1))), abs(1, app(var(1), var(1))));
    let mut t = omega.clone();
    let (steps, halt) = t.beta_redex_by(BetaOrder::CallByValue, true, 50);
    assert_eq!(steps, 50);
    assert_eq!(halt, Halt::StepLimit);
    assert!(t.alpha_eq(&omega));
    let cancel = AtomicBool::new(true);
    let mut u = omega.clone();
    let (steps, halt) = u.beta_redex_until(BetaOrder::CallByValue, true, 1000, &cancel);
    assert_eq!(steps, 0);
    assert_eq!(halt, Halt::Cancelled);
    assert_eq!(u, omega);
    let go = AtomicBool::new(false);
    let mut w = app(abs(1, var(1)), var(4));
    assert_eq!(w.beta_redex_until(BetaOrder::Normal, false, 10, &go), (1, Halt::NormalForm));
    assert_eq!(w, var(4));
}

#[test]
fn alpha_equivalent_terms_reduce_alike() {
    let a = app(abs(1, abs(2, app(var(1), var(2)))), abs(3, var(3)));
    let b = app(abs(5, abs(6, app(var(5), var(6)))), abs(7, var(7)));
    assert!(a.alpha_eq(&b));
    let na = a.beta_reduced(100);
    let nb = b.beta_reduced(100);
    assert!(na.alpha_eq(&nb));
    // λ2. (λ3. 3) 2 is an eta redex
    assert!(na.alpha_eq(&abs(1, var(1))));
}

#[test]
fn a_round_takes_the_flag_as_it_was_found() {
    let redex = app(abs(1, var(1)), var(4));
    // a set flag ends the run and leaves the term
    let mut t = redex.clone();
    assert_eq!(t.step_unless(BetaOrder::Normal, false, true, 5), Some(Halt::Cancelled));
    assert_eq!(t, redex);
    // so does the end of the steps
    assert_eq!(t.step_unless(BetaOrder::Normal, false, false, 0), Some(Halt::StepLimit));
    assert_eq!(t, redex);
    // else one step is made
    assert_eq!(t.step_unless(BetaOrder::Normal, false, false, 1), None);
    assert_eq!(t, var(4));
    assert_eq!(t.step_unless(BetaOrder::Normal, false, false, 1), Some(Halt::NormalForm));
    assert_eq!(t, var(4));
    // a run without steps ends at its limit, whatever the flag
    let set = AtomicBool::new(true);
    let mut u = redex.clone();
    assert_eq!(u.beta_redex_until(BetaOrder::Normal, false, 0, &set), (0, Halt::StepLimit));
    assert_eq!(u, redex);
}

#[test]
fn a_step_leaves_the_rest_of_the_term_as_it_stands() {
    // (λ0. 0) ((λ1. 1) 2): by value the argument is reduced first
    let mut t = app(abs(0, var(0)), app(abs(1, var(1)), var(2)));
    assert!(t.cbv_beta_redex_step());
    assert_eq!(t, app(abs(0, var(0)), var(2)));
    assert!(t.cbv_beta_redex_step());
    assert_eq!(t, var(2));
    assert!(!t.cbv_beta_redex_step());
    // in normal order the outer redex goes first, and the argument stays
    let mut u = app(abs(0, var(9)), app(abs(1, var(1)), var(2)));
    assert!(u.normal_beta_redex_step());
    assert_eq!(u, var(9));
    // under a binder, beside an operand
    let mut w = abs(7, app(var(7), app(abs(1, var(1)), var(2))));
    assert!(w.normal_beta_redex_step());
    assert_eq!(w, abs(7, app(var(7), var(2))));
}

#[test]
fn substitution_renames_nothing_where_nothing_collides() {
    let val = app(var(1), abs(2, var(2)));
    let mut t = var(3);
    t.apply(3, &val);
    assert_eq!(t, val);
    let mut u = var(4);
    u.apply(3, &val);
    assert_eq!(u, var(4));
    let mut w = abs(5, app(var(3), abs(3, var(3))));
    assert!(w.apply_by(3, &val));
    assert_eq!(w, abs(5, app(val.clone(), abs(3, var(3)))));
}

#[test]
fn a_flag_that_is_set_must_tell_the_truth() {
    assert!(var(1).is_wf());
    assert!(abs(1, var(1)).is_wf());
    let mut id = abs(1, var(1));
    id.update_closed();
    assert!(id.closed && id.is_wf());
    // a node marked closed over a free variable
    let wrong = Term { body: Box::new(Body::Var(1)), closed: true };
    assert!(!wrong.is_wf());
    assert!(!app(var(0), wrong.clone()).is_wf());
    assert!(!abs(2, wrong).is_wf());
    let bound = Term { body: Box::new(Body::Abs(1, var(1))), closed: true };
    assert!(bound.is_wf());
}

#[test]
fn the_representative_of_a_class_is_told_from_the_others() {
    // binders by depth from 0, passing over the free variables
    assert!(abs(0, abs(1, var(0))).is_canonical_form());
    assert!(!abs(1, abs(0, var(1))).is_canonical_form());
    assert!(!abs(5, var(5)).is_canonical_form());
    assert!(abs(1, app(var(1), var(0))).is_canonical_form());
    assert!(abs(0, app(var(0), var(0))).is_canonical_form());
    assert!(app(abs(0, var(0)), abs(0, var(0))).is_canonical_form());
    assert!(var(9).is_canonical_form());
    let t = abs(4, abs(7, app(var(4), var(0))));
    let mut c = t.clone();
    c.update_closed();
    assert!(c.debrejin_reduced().is_canonical_form());
    assert!(!t.is_canonical_form());
}

#[test]
fn a_binder_in_the_way_is_moved_before_the_substitution() {
    // (λ0. λ1. 0) 1: the inner binder would capture the argument
    let mut t = app(abs(0, abs(1, var(0))), var(1));
    assert!(t.normal_beta_redex_step());
    match &*t.body {
        Body::Abs(w, m) => {
            assert!(*w != 1 && *w != 0);
            assert_eq!(*m, var(1));
        }
        other => panic!("not an abstraction: {other:?}"),
    }
    assert!(t.alpha_eq(&abs(5, var(1))));
    // the same through the substitution itself
    let mut b = abs(1, app(var(0), var(1)));
    assert!(b.apply_by(0, &var(1)));
    match &*b.body {
        Body::Abs(w, m) => {
            assert!(*w != 1 && *w != 0);
            assert_eq!(*m, app(var(1), var(*w)));
        }
        other => panic!("not an abstraction: {other:?}"),
    }
}
