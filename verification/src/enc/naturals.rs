//! Natural numbers as terms: the number `n` applies its first argument `n`
//! times to its second.

use vstd::prelude::*;
use crate::nameless::{index_of_few, Nameless};
use crate::term::{Term, VarId};

verus! {

/// `1` applied `n` times to `0`.
pub open spec fn iterate_form(n: nat) -> Nameless
    decreases n,
{
    if n == 0 {
        Nameless::Bound(0)
    } else {
        Nameless::App(Box::new(Nameless::Bound(1)), Box::new(iterate_form((n - 1) as nat)))
    }
}

/// The form of the number `n`: `λ. λ. 1 (1 (.. 0))` with `n` times `1`.
pub open spec fn natural_form(n: nat) -> Nameless {
    Nameless::Abs(Box::new(Nameless::Abs(Box::new(iterate_form(n)))))
}

/// The form of the successor: `λ. λ. λ. 1 ((2 1) 0)`.
pub open spec fn succ_form() -> Nameless {
    Nameless::Abs(
        Box::new(
            Nameless::Abs(
                Box::new(
                    Nameless::Abs(
                        Box::new(
                            Nameless::App(
                                Box::new(Nameless::Bound(1)),
                                Box::new(
                                    Nameless::App(
                                        Box::new(
                                            Nameless::App(
                                                Box::new(Nameless::Bound(2)),
                                                Box::new(Nameless::Bound(1)),
                                            ),
                                        ),
                                        Box::new(Nameless::Bound(0)),
                                    ),
                                ),
                            ),
                        ),
                    ),
                ),
            ),
        ),
    )
}

fn natural_body(n: usize) -> (r: Term)
    ensures
        r.nameless_in(Seq::<VarId>::empty().push(0).push(1)) == iterate_form(n as nat),
        r.wf(),
        r.size() == 2 * n + 1,
    decreases n,
{
    proof {
        index_of_few(0, 1, 0, 0);
        index_of_few(0, 1, 0, 1);
    }
    if n == 0 {
        Term::var(1)
    } else {
        Term::app(Term::var(0), natural_body(n - 1))
    }
}

/// The number `n`: `λf. λx. f (f (.. x))` with `n` times `f`.
#[must_use]
pub fn natural(n: usize) -> (r: Term)
    ensures
        r@ == natural_form(n as nat),
        r.wf(),
        r.size() == 2 * n + 3,
{
    Term::abs(0, Term::abs(1, natural_body(n)))
}

/// The successor: `λn. λf. λx. f (n f x)`.
#[must_use]
pub fn succ() -> (r: Term)
    ensures
        r@ == succ_form(),
        r.wf(),
{
    let r = Term::abs(
        0,
        Term::abs(
            1,
            Term::abs(
                2,
                Term::app(Term::var(1), Term::app(Term::app(Term::var(0), Term::var(1)), Term::var(2))),
            ),
        ),
    );
    proof {
        index_of_few(0, 1, 2, 0);
        index_of_few(0, 1, 2, 1);
        index_of_few(0, 1, 2, 2);
    }
    r
}

} // verus!
