//! Truth values as terms: `true` takes the first of two arguments, `false`
//! the second.

use vstd::prelude::*;
use crate::nameless::{index_of_few, Nameless};
use crate::term::{Term, VarId};

verus! {

/// `λ. λ. b`, where `b` is the variable of the first or of the second
/// abstraction.
pub open spec fn choice_form(first: bool) -> Nameless {
    Nameless::Abs(
        Box::new(
            Nameless::Abs(
                Box::new(
                    Nameless::Bound(
                        if first {
                            1
                        } else {
                            0
                        },
                    ),
                ),
            ),
        ),
    )
}

/// `λ. λ. (1 x) y` for two of the bound variables, given by their indices.
pub open spec fn pick_form(x: int, y: int) -> Nameless {
    Nameless::Abs(
        Box::new(
            Nameless::Abs(
                Box::new(
                    Nameless::App(
                        Box::new(
                            Nameless::App(
                                Box::new(Nameless::Bound(1)),
                                Box::new(Nameless::Bound(x)),
                            ),
                        ),
                        Box::new(Nameless::Bound(y)),
                    ),
                ),
            ),
        ),
    )
}

/// The form of `not`: `λ. (0 false) true`.
pub open spec fn not_form() -> Nameless {
    Nameless::Abs(
        Box::new(
            Nameless::App(
                Box::new(
                    Nameless::App(Box::new(Nameless::Bound(0)), Box::new(choice_form(false))),
                ),
                Box::new(choice_form(true)),
            ),
        ),
    )
}

/// The form of `xor`: `λ. λ. (1 (not 0)) 0`.
pub open spec fn xor_form() -> Nameless {
    Nameless::Abs(
        Box::new(
            Nameless::Abs(
                Box::new(
                    Nameless::App(
                        Box::new(
                            Nameless::App(
                                Box::new(Nameless::Bound(1)),
                                Box::new(
                                    Nameless::App(
                                        Box::new(not_form()),
                                        Box::new(Nameless::Bound(0)),
                                    ),
                                ),
                            ),
                        ),
                        Box::new(Nameless::Bound(0)),
                    ),
                ),
            ),
        ),
    )
}

/// `true`: `λa. λb. a`.
#[must_use]
pub fn t() -> (r: Term)
    ensures
        r@ == choice_form(true),
        r.wf(),
        forall|env: Seq<VarId>| #[trigger] r.nameless_in(env) == choice_form(true),
{
    let r = Term::abs(0, Term::abs(1, Term::var(0)));
    proof {
        assert forall|env: Seq<VarId>| #[trigger] r.nameless_in(env) == choice_form(true) by {
            crate::nameless::index_of_push(env.push(0), 1, 0);
            crate::nameless::index_of_push(env, 0, 0);
        }
    }
    r
}

/// `false`: `λa. λb. b`.
#[must_use]
pub fn f() -> (r: Term)
    ensures
        r@ == choice_form(false),
        r.wf(),
        forall|env: Seq<VarId>| #[trigger] r.nameless_in(env) == choice_form(false),
{
    let r = Term::abs(0, Term::abs(1, Term::var(1)));
    proof {
        assert forall|env: Seq<VarId>| #[trigger] r.nameless_in(env) == choice_form(false) by {
            crate::nameless::index_of_push(env.push(0), 1, 1);
        }
    }
    r
}

/// `and`: `λa. λb. a b a`, which is `true` of two `true` and `false` of any
/// other two truth values.
#[must_use]
pub fn and() -> (r: Term)
    ensures
        r@ == pick_form(0, 1),
        r.wf(),
{
    let r = Term::abs(
        0,
        Term::abs(1, Term::app(Term::app(Term::var(0), Term::var(1)), Term::var(0))),
    );
    proof {
        index_of_few(0, 1, 0, 0);
        index_of_few(0, 1, 0, 1);
    }
    r
}

/// `or`: `λa. λb. a a b`, which is `false` of two `false` and `true` of any
/// other two truth values.
#[must_use]
pub fn or() -> (r: Term)
    ensures
        r@ == pick_form(1, 0),
        r.wf(),
{
    let r = Term::abs(
        0,
        Term::abs(1, Term::app(Term::app(Term::var(0), Term::var(0)), Term::var(1))),
    );
    proof {
        index_of_few(0, 1, 0, 0);
        index_of_few(0, 1, 0, 1);
    }
    r
}

/// `not`: `λa. a false true`, which turns a truth value into the other.
#[must_use]
pub fn not() -> (r: Term)
    ensures
        r@ == not_form(),
        r.wf(),
        forall|env: Seq<VarId>| #[trigger] r.nameless_in(env) == not_form(),
{
    let r = Term::abs(0, Term::app(Term::app(Term::var(0), f()), t()));
    proof {
        assert forall|env: Seq<VarId>| #[trigger] r.nameless_in(env) == not_form() by {
            crate::nameless::index_of_push(env, 0, 0);
        }
    }
    r
}

/// `xor`: `λa. λb. a (not b) b`, which is `true` of two different truth
/// values.
#[must_use]
pub fn xor() -> (r: Term)
    ensures
        r@ == xor_form(),
        r.wf(),
{
    let not_otherwise = Term::app(not(), Term::var(1));
    let r = Term::abs(
        0,
        Term::abs(1, Term::app(Term::app(Term::var(0), not_otherwise), Term::var(1))),
    );
    proof {
        index_of_few(0, 1, 0, 0);
        index_of_few(0, 1, 0, 1);
    }
    r
}

} // verus!
