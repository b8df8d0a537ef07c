//! Straight reduction: a term is reduced as a whole, every part at once,
//! as far as an allowance of contractions on each path goes.

use vstd::prelude::*;
use crate::beta::{eta_contracted, is_eta_redex};
use crate::nameless::{nameless_unfold, nodes_of_nameless, Nameless};
use crate::term::{Body, Term, VarId};

verus! {

impl Nameless {
    /// The term reduced straight on, with `fuel` contractions allowed on
    /// each path from the root:
    ///
    /// - a beta redex is contracted, and so is an abstraction that is an
    ///   eta redex, and the reduction goes on with what is left, on one
    ///   contraction less;
    /// - of any other application both parts are reduced, and of any other
    ///   abstraction the body;
    /// - a redex is left where the allowance is used up, and a beta redex
    ///   also where the term has outgrown the machine's range.
    pub open spec fn straight(self, fuel: nat) -> Nameless
        decreases fuel, self,
    {
        match self {
            Nameless::App(m, n) => if *m is Abs {
                if fuel > 0 && self.nodes() <= usize::MAX {
                    self.beta_contract().straight((fuel - 1) as nat)
                } else {
                    self
                }
            } else {
                Nameless::App(Box::new(m.straight(fuel)), Box::new(n.straight(fuel)))
            },
            Nameless::Abs(b) => if self.is_eta_redex() {
                if fuel > 0 {
                    self.eta_contract().straight((fuel - 1) as nat)
                } else {
                    self
                }
            } else {
                Nameless::Abs(Box::new(b.straight(fuel)))
            },
            _ => self,
        }
    }

    /// Straight reduction is reduction: what it makes of a term is reached
    /// from the term by contractions of redexes, one after the other.
    /// Returns the terms on the way, from the term itself to the result.
    pub proof fn straight_reduces(self, fuel: nat) -> (path: Seq<Nameless>)
        ensures
            is_reduction(path),
            path.first() == self,
            path.last() == self.straight(fuel),
        decreases fuel, self,
    {
        match self {
            Nameless::App(m, n) => {
                if *m is Abs {
                    if fuel > 0 && self.nodes() <= usize::MAX {
                        let rest = self.beta_contract().straight_reduces((fuel - 1) as nat);
                        let path = seq![self] + rest;
                        assert forall|i: int| 0 <= i < path.len() - 1 implies (
                        #[trigger] path[i]).contracts_to(path[i + 1]) by {
                            if i > 0 {
                                assert(path[i] == rest[i - 1]);
                                assert(path[i + 1] == rest[i]);
                            } else {
                                assert(path[1] == rest[0]);
                            }
                        }
                        path
                    } else {
                        seq![self]
                    }
                } else {
                    let left = m.straight_reduces(fuel);
                    let right = n.straight_reduces(fuel);
                    let first = Seq::new(
                        left.len(),
                        |i: int| Nameless::App(Box::new(left[i]), n),
                    );
                    let second = Seq::new(
                        right.len(),
                        |i: int| Nameless::App(Box::new(m.straight(fuel)), Box::new(right[i])),
                    );
                    let path = first + second.drop_first();
                    assert(first.last() == second.first());
                    assert forall|i: int| 0 <= i < path.len() - 1 implies (
                    #[trigger] path[i]).contracts_to(path[i + 1]) by {
                        if i < first.len() - 1 {
                            assert(left[i].contracts_to(left[i + 1]));
                            assert(path[i] == first[i] && path[i + 1] == first[i + 1]);
                        } else {
                            let j = i - (first.len() - 1);
                            assert(right[j].contracts_to(right[j + 1]));
                            assert(path[i] == second[j]);
                            assert(path[i + 1] == second[j + 1]);
                        }
                    }
                    assert(path.first() == self);
                    assert(path.last() == self.straight(fuel));
                    path
                }
            },
            Nameless::Abs(b) => {
                if self.is_eta_redex() {
                    if fuel > 0 {
                        let rest = self.eta_contract().straight_reduces((fuel - 1) as nat);
                        let path = seq![self] + rest;
                        assert forall|i: int| 0 <= i < path.len() - 1 implies (
                        #[trigger] path[i]).contracts_to(path[i + 1]) by {
                            if i > 0 {
                                assert(path[i] == rest[i - 1]);
                                assert(path[i + 1] == rest[i]);
                            } else {
                                assert(path[1] == rest[0]);
                            }
                        }
                        path
                    } else {
                        seq![self]
                    }
                } else {
                    let inner = b.straight_reduces(fuel);
                    let path = Seq::new(inner.len(), |i: int| Nameless::Abs(Box::new(inner[i])));
                    assert forall|i: int| 0 <= i < path.len() - 1 implies (
                    #[trigger] path[i]).contracts_to(path[i + 1]) by {
                        assert(inner[i].contracts_to(inner[i + 1]));
                    }
                    path
                }
            },
            _ => seq![self],
        }
    }
}

/// Each term of `path` but the last contracts to the one after it.
pub open spec fn is_reduction(path: Seq<Nameless>) -> bool {
    &&& path.len() >= 1
    &&& forall|i: int| 0 <= i < path.len() - 1 ==> (#[trigger] path[i]).contracts_to(path[i + 1])
}

/// `t` reduced straight on, below the binders `ctx`.
fn straightened(t: Term, fuel: usize, Ghost(ctx): Ghost<Seq<VarId>>) -> (r: Term)
    requires
        t.wf(),
    ensures
        r.nameless_in(ctx) == t.nameless_in(ctx).straight(fuel as nat),
        r.wf(),
        r.fv().subset_of(t.fv()),
    decreases fuel, t,
{
    proof {
        t.eta_redex_nameless(ctx);
        nameless_unfold(t, ctx);
        nodes_of_nameless(t, ctx);
    }
    if is_eta_redex(&t) {
        if fuel > 0 {
            let next = eta_contracted(t);
            return straightened(next, fuel - 1, Ghost(ctx));
        } else {
            return t;
        }
    }
    let fits = t.checked_len().is_some();
    let ghost t0 = t;
    let Term { body, closed } = t;
    match *body {
        Body::Var(v) => Term { body: Box::new(Body::Var(v)), closed },
        Body::App(m, n) => {
            if m.is_abs() {
                if fuel > 0 && fits {
                    let Term { body: mb, closed: _ } = m;
                    match *mb {
                        Body::Abs(x, b) => {
                            proof {
                                assert(m.wf());
                                assert(b.wf());
                                assert(m.fv() =~= b.fv().remove(x));
                                assert(m.size() == 1 + b.size());
                                assert(t0.size() == 1 + m.size() + n.size());
                                assert(t0.fv() =~= b.fv().remove(x).union(n.fv()));
                                nameless_unfold(m, ctx);
                            }
                            let mut next = b;
                            let _ = next.apply_in(x, &n, Ghost(ctx));
                            straightened(next, fuel - 1, Ghost(ctx))
                        },
                        other => {
                            proof {
                                assert(false);
                            }
                            Term { body: Box::new(other), closed: false }
                        },
                    }
                } else {
                    Term { body: Box::new(Body::App(m, n)), closed }
                }
            } else {
                let m2 = straightened(m, fuel, Ghost(ctx));
                let n2 = straightened(n, fuel, Ghost(ctx));
                let r = Term { body: Box::new(Body::App(m2, n2)), closed };
                proof {
                    nameless_unfold(m, ctx);
                    if closed {
                        assert(r.fv() =~= Set::<VarId>::empty());
                    }
                }
                r
            }
        },
        Body::Abs(x, b) => {
            let b2 = straightened(b, fuel, Ghost(ctx.push(x)));
            let r = Term { body: Box::new(Body::Abs(x, b2)), closed };
            proof {
                if closed {
                    assert(r.fv() =~= Set::<VarId>::empty());
                }
            }
            r
        },
    }
}

/// Values that can be reduced straight on.
pub trait StraightRedex: Sized {
    /// What the reduction needs of the value.
    spec fn straight_ready(&self) -> bool;

    /// `after` is what the reduction makes of the value on an allowance of
    /// `fuel` contractions on each path.
    spec fn straight_result(&self, fuel: usize, after: &Self) -> bool;

    /// Reduces the value straight on.
    fn straight_redex(&mut self, fuel: usize)
        requires
            old(self).straight_ready(),
        ensures
            final(self).straight_ready(),
            old(self).straight_result(fuel, final(self)),
    ;

    /// The value reduced straight on.
    fn straight_reduced(self, fuel: usize) -> (r: Self)
        requires
            self.straight_ready(),
        ensures
            r.straight_ready(),
            self.straight_result(fuel, &r),
    ;
}

impl StraightRedex for Term {
    /// The flags of the term tell the truth.
    open spec fn straight_ready(&self) -> bool {
        self.wf()
    }

    /// The nameless form of `after` is that of the term reduced straight
    /// on, and no variable is free in it that was not free before.
    open spec fn straight_result(&self, fuel: usize, after: &Term) -> bool {
        &&& after@ == self@.straight(fuel as nat)
        &&& after.fv().subset_of(self.fv())
    }

    fn straight_redex(&mut self, fuel: usize) {
        let t = Term::take(self);
        *self = straightened(t, fuel, Ghost(Seq::empty()));
    }

    fn straight_reduced(self, fuel: usize) -> (r: Term) {
        straightened(self, fuel, Ghost(Seq::empty()))
    }
}

} // verus!
