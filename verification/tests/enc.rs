use church::enc::{bool as boolean, naturals};
use church::Term;

const LIMIT: usize = 10_000;

fn bool_to_body(b: bool) -> Term {
    if b {
        boolean::t()
    } else {
        boolean::f()
    }
}

fn applied(f: Term, args: Vec<Term>) -> Term {
    let mut t = f;
    for a in args {
        t = Term::app(t, a);
    }
    t
}

fn with(t: Term, ids: Vec<usize>) -> Term {
    let mut t = t;
    for id in ids.into_iter().rev() {
        t = Term::abs(id, t);
    }
    t
}

fn test_case(f: fn() -> Term, l: bool, r: bool) -> Term {
    applied(f(), vec![bool_to_body(l), bool_to_body(r)]).beta_reduced(LIMIT)
}

const AND_LOGIC_TABLE: &[(bool, bool, bool)] = &[
    /* (a, b, output) */
    (false, false, false),
    (true, false, false),
    (false, true, false),
    (true, true, true),
];

const OR_LOGIC_TABLE: &[(bool, bool, bool)] = &[
    /* (a, b, output) */
    (false, false, false),
    (true, false, true),
    (false, true, true),
    (true, true, true),
];

const XOR_LOGIC_TABLE: &[(bool, bool, bool)] = &[
    /* (a, b, output) */
    (false, false, false),
    (true, false, true),
    (false, true, true),
    (true, true, false),
];

const NOT_LOGIC_TABLE: &[(bool, bool)] = &[/* (a, output) */ (false, true), (true, false)];

#[test]
fn false_like_zero() {
    let f = boolean::f();
    let zero = naturals::natural(0);
    assert!(f.alpha_eq(&zero));
}

#[test]
fn and() {
    for (l, r, out) in AND_LOGIC_TABLE {
        assert!(
            test_case(boolean::and, *l, *r).alpha_eq(&bool_to_body(*out)),
            "{} != {}",
            test_case(boolean::and, *l, *r).to_string(),
            bool_to_body(*out).to_string()
        )
    }
}

fn nand_term() -> Term {
    let and = applied(boolean::and(), vec![Term::var(0), Term::var(1)]);
    let not = Term::app(boolean::not(), and);
    with(not, vec![0, 1]).beta_reduced(LIMIT)
}

#[test]
fn nand() {
    for (l, r, out) in AND_LOGIC_TABLE {
        assert!(test_case(nand_term, *l, *r).alpha_eq(&bool_to_body(!*out)))
    }
}

#[test]
fn and_transitivity() {
    for (l, r, out) in AND_LOGIC_TABLE {
        assert!(test_case(boolean::and, *r, *l).alpha_eq(&bool_to_body(*out)))
    }
}

#[test]
fn or() {
    for (l, r, out) in OR_LOGIC_TABLE {
        assert!(test_case(boolean::or, *l, *r).alpha_eq(&bool_to_body(*out)))
    }
}

fn nor_term() -> Term {
    let or = applied(boolean::or(), vec![Term::var(0), Term::var(1)]);
    let not = Term::app(boolean::not(), or);
    with(not, vec![0, 1]).beta_reduced(LIMIT)
}

#[test]
fn nor() {
    for (l, r, out) in OR_LOGIC_TABLE {
        assert!(test_case(nor_term, *l, *r).alpha_eq(&bool_to_body(!*out)))
    }
}

#[test]
fn or_transitivity() {
    for (l, r, out) in OR_LOGIC_TABLE {
        assert!(test_case(boolean::or, *r, *l).alpha_eq(&bool_to_body(*out)))
    }
}

#[test]
fn xor() {
    for (l, r, out) in XOR_LOGIC_TABLE {
        assert!(test_case(boolean::xor, *l, *r).alpha_eq(&bool_to_body(*out)))
    }
}

#[test]
fn xor_transitivity() {
    for (l, r, out) in XOR_LOGIC_TABLE {
        assert!(test_case(boolean::xor, *r, *l).alpha_eq(&bool_to_body(*out)))
    }
}

#[test]
fn not() {
    for (l, out) in NOT_LOGIC_TABLE {
        assert!(applied(boolean::not(), vec![bool_to_body(*l)])
            .beta_reduced(LIMIT)
            .alpha_eq(&bool_to_body(*out)))
    }
}

fn new_xor() -> Term {
    let and = applied(boolean::and(), vec![Term::var(0), Term::var(1)]);
    let nand = Term::app(boolean::not(), and);
    let or = applied(boolean::or(), vec![Term::var(0), Term::var(1)]);
    let xor = applied(boolean::and(), vec![or, nand]);
    with(xor, vec![0, 1]).beta_reduced(LIMIT)
}

#[test]
fn xor_as_or_and_not_and() {
    for (l, r, out) in XOR_LOGIC_TABLE {
        assert!(
            test_case(new_xor, *l, *r).alpha_eq(&bool_to_body(*out)),
            "{}",
            test_case(new_xor, *l, *r).to_string()
        )
    }
}

#[test]
fn naturals_and_successor() {
    assert_eq!(naturals::natural(0).to_string(), "λ0.λ1.1");
    assert_eq!(naturals::natural(2).to_string(), "λ0.λ1.0 0 1");
    let three = Term::app(naturals::succ(), naturals::natural(2)).beta_reduced(LIMIT);
    assert!(three.alpha_eq(&naturals::natural(3)));
    assert!(!three.alpha_eq(&naturals::natural(2)));
    assert_eq!(boolean::t().to_string(), "λ0.λ1.0");
    assert_eq!(boolean::f().to_string(), "λ0.λ1.1");
}
