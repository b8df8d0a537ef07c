use church::beta::BetaOrder;
use church::cu::CodeUnit;
use church::enc::{bool as boolean, naturals};
use church::error::Error;
use church::settings::{Error as SettingError, Mode, Settings};
use church::ubody::{Ast as UbodyAst, UnprocessedBody};
use church::ui::{num_to_bin_list, Ui};
use church::Term;
use std::str::FromStr;

#[test]
fn settings_start_with_their_defaults() {
    let s = Settings::default();
    assert_eq!(s.prompt, "λ> ");
    assert!(!s.show_tokens && !s.show_ast && !s.show_form && !s.bench);
    assert!(s.run && s.show_output && s.prettify);
    assert_eq!(s.b_order, BetaOrder::Normal);
    assert_eq!(BetaOrder::default(), BetaOrder::Normal);
    assert_eq!(Mode::default(), Mode::Normal);
    let ui = Ui::default();
    assert!(ui.readable && !ui.bina_ext);
}

#[test]
fn orders_and_modes_by_name() {
    assert_eq!(BetaOrder::from_name("normal"), Ok(BetaOrder::Normal));
    assert_eq!(BetaOrder::from_name("call-by-value"), Ok(BetaOrder::CallByValue));
    assert_eq!(BetaOrder::from_name("Normal"), Err(SettingError::UnknownBetaOrder));
    assert_eq!(BetaOrder::from_str("call-by-value"), Ok(BetaOrder::CallByValue));
    assert_eq!(Mode::from_name("debug"), Ok(Mode::Debug));
    assert_eq!(Mode::from_name("visual"), Ok(Mode::Visual));
    assert_eq!(Mode::from_name("visualtrace"), Ok(Mode::VisualTrace));
    assert_eq!(Mode::from_name("trace"), Ok(Mode::Trace));
    assert_eq!(Mode::from_name("bench"), Ok(Mode::Bench));
    assert_eq!(Mode::from_str("normal"), Ok(Mode::Normal));
    assert_eq!(Mode::from_name(""), Err(SettingError::UnknownMode));
}

#[test]
fn modes_that_show_steps() {
    assert!(Mode::Debug.should_show());
    assert!(Mode::Visual.should_show());
    assert!(Mode::VisualTrace.should_show());
    assert!(!Mode::Trace.should_show());
    assert!(!Mode::Bench.should_show());
    assert!(!Mode::Normal.should_show());
}

#[test]
fn numbers_are_read_out_of_terms() {
    for n in [0usize, 1, 2, 7, 40] {
        assert_eq!(Ui::natural_from_church_encoding(&naturals::natural(n)), Some(n));
    }
    // λf. f is the number 1 as well
    assert_eq!(Ui::natural_from_church_encoding(&Term::abs(3, Term::var(3))), Some(1));
    assert_eq!(Ui::natural_from_church_encoding(&Term::abs(3, Term::var(4))), None);
    assert_eq!(Ui::natural_from_church_encoding(&boolean::t()), None);
    assert_eq!(Ui::natural_from_church_encoding(&Term::var(0)), None);
    // λf. λx. x f is no number
    let odd = Term::abs(0, Term::abs(1, Term::app(Term::var(1), Term::var(0))));
    assert_eq!(Ui::natural_from_church_encoding(&odd), None);
}

fn cons(head: Term, tail: Term) -> Term {
    Term::abs(9, Term::app(Term::app(Term::var(9), head), tail))
}

#[test]
fn lists_are_read_out_of_terms() {
    let nil = Term::var(50);
    let list = cons(Term::var(1), cons(Term::var(2), nil.clone()));
    assert_eq!(
        Ui::from_list(&list),
        Some(vec![Term::var(1), Term::var(2), nil.clone()])
    );
    assert_eq!(Ui::from_list(&nil), None);
    assert_eq!(Ui::from_list(&Term::abs(9, Term::var(9))), None);
    let other = Term::abs(9, Term::app(Term::app(Term::var(8), Term::var(1)), nil));
    assert_eq!(Ui::from_list(&other), None);
}

#[test]
fn binary_numbers_are_read_lowest_digit_first() {
    let t = Ui::get_true;
    let f = Ui::get_false;
    assert!(t().alpha_eq(&boolean::t()) && f().alpha_eq(&boolean::f()));
    assert_eq!(Ui::from_binary_number(&[]), None);
    assert_eq!(Ui::from_binary_number(&[f()]), Some(0));
    assert_eq!(Ui::from_binary_number(&[t()]), Some(1));
    assert_eq!(Ui::from_binary_number(&[f(), t(), t()]), Some(6));
    assert_eq!(Ui::from_binary_number(&[t(), f(), t(), f()]), Some(5));
    // the digits end before the first item that is no truth value
    assert_eq!(Ui::from_binary_number(&[t(), t(), Term::var(1), t()]), Some(3));
    assert_eq!(Ui::from_binary_number(&[Term::var(1), t()]), None);
    let mut many = vec![f(); 128];
    many.push(t());
    assert_eq!(Ui::from_binary_number(&many), Some(0));
    many[127] = t();
    assert_eq!(Ui::from_binary_number(&many), Some(1u128 << 127));
}

#[test]
fn binary_lists_as_source_text() {
    assert_eq!(num_to_bin_list(0), "(Cons False Nil)");
    assert_eq!(num_to_bin_list(1), "(Cons True (Cons False Nil))");
    assert_eq!(
        num_to_bin_list(6),
        "(Cons False (Cons True (Cons True (Cons False Nil))))"
    );
}

#[test]
fn coerce_works_on_a_copy() {
    let t = Term::abs(7, Term::var(7));
    let c = t.coerce(|copy| copy.debrejin_reduced());
    assert_eq!(c.to_string(), "λ0.0");
    assert_eq!(t.to_string(), "λ7.7");
}

#[test]
fn identifiers_out_of_range_are_refused() {
    let mut cu = CodeUnit::new();
    assert!(matches!(
        cu.scope.insert("big".to_string(), Term::var(usize::MAX)),
        Err(Error::OutOfRange)
    ));
    assert!(cu.scope.defs.is_empty());
    // the name of the greatest identifier leaves no identifier for a binder
    let name = church::alphabet::get_alias(usize::MAX);
    let expr = CodeUnit::parse_expr(&format!("λx. {name}")).unwrap();
    assert!(matches!(cu.scope.dump(&expr), Err(Error::OutOfRange)));
    let free = CodeUnit::parse_expr(&church::alphabet::get_alias(usize::MAX - 1)).unwrap();
    assert!(cu.scope.dump(&free).is_ok());
}

#[test]
fn terms_are_shown_as_what_they_are_known_as() {
    let mut cu = CodeUnit::new();
    let program = CodeUnit::parse("id = λx. x").unwrap();
    assert!(cu.eval(&program, 0).is_ok());
    let ui = Ui::default();
    let id = Term::abs(3, Term::var(3));
    // a name of the table comes first, then the number
    assert_eq!(ui.beautify(&cu.scope, &id), Some("id".to_string()));
    assert_eq!(ui.format_value(&cu.scope, &naturals::natural(3)), "3");
    assert_eq!(ui.beautify(&cu.scope, &Term::var(24)), None);
    let t = Term::abs(
        25,
        Term::app(Term::app(Term::var(24), id.clone()), Term::app(Term::var(25), Term::var(24))),
    );
    assert_eq!(ui.format_value(&cu.scope, &t), "λb.(a id (b a))");
    let plain = Ui { readable: false, bina_ext: false };
    assert_eq!(plain.format_value(&cu.scope, &id), "λ3.3");
    assert_eq!(plain.beautify(&cu.scope, &Term::var(24)), Some("24".to_string()));
}

#[test]
fn lists_are_shown_in_square_brackets() {
    let cu = CodeUnit::new();
    let ui = Ui { readable: true, bina_ext: true };
    let list = cons(Term::var(24), cons(Term::var(25), Term::var(26)));
    assert_eq!(ui.format_value(&cu.scope, &list), "[a, b, c]");
    let bits = cons(Ui::get_false(), cons(Ui::get_true(), Term::var(26)));
    assert_eq!(ui.format_value(&cu.scope, &bits), "2");
    // numbers are not read where lists are read as binary numbers
    assert_eq!(ui.beautify(&cu.scope, &naturals::natural(2)), None);
    // and lists are not read where they are not
    assert_eq!(Ui::default().beautify(&cu.scope, &list), None);
}

#[test]
fn levels_of_structure() {
    let cu = CodeUnit::new();
    let ui = Ui::default();
    let two = naturals::natural(2);
    let t = Term::app(Term::var(24), two.clone());
    assert_eq!(ui.format_in_level(&cu.scope, &t, 0), "a 2");
    assert_eq!(ui.format_in_level(&cu.scope, &t, 1), "a 2");
    assert_eq!(
        ui.format_in_level(&cu.scope, &t, 2),
        "a 󰘧α.(λβ.(α (α β)))"
    );
}

#[test]
fn expressions_before_their_names_are_resolved() {
    use_ubody();
}

fn use_ubody() {
    let var = |s: &str| Box::new(UnprocessedBody::Var(s.to_string()));
    let e = UnprocessedBody::Abs(
        "Param".to_string(),
        Box::new(UnprocessedBody::App(
            var("Function"),
            Box::new(UnprocessedBody::App(var("Param"), var("x"))),
        )),
    );
    assert_eq!(e.len(), 4);
    assert!(e.contains("Function") && e.contains("x"));
    assert!(!e.contains("Para") && !e.contains(""));
    // the name that an abstraction binds does not count unless it is used
    assert!(!UnprocessedBody::Abs("y".to_string(), var("z")).contains("y"));
    assert_eq!(e.to_string(), "λParam.(Function (Param x))");
    let line = UbodyAst::Expr(Box::new(UnprocessedBody::App(var("a"), var("b"))));
    let body = line.into_ubody();
    assert_eq!(body.to_string(), "a b");
    let mut cu = CodeUnit::new();
    let term = cu.scope.dump(&body.into_ast()).unwrap();
    assert_eq!(term, Term::app(Term::var(24), Term::var(25)));
}
