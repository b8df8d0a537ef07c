//! Beta and eta reduction of named terms, one step at a time and in bounded
//! runs, proved against the reduction of the nameless form.

use vstd::prelude::*;
use core::sync::atomic::AtomicBool;
use core::sync::atomic::Ordering;
use crate::alpha::alpha_equiv;
use crate::nameless::{index_of, index_of_bounds, index_of_push, nameless_unfold, Nameless};
use crate::subst::{index_of_injective, mentions_iff_free, nameless_lowered};
use crate::term::{Body, Term, VarId};

verus! {

/// The order in which redexes are contracted.
#[derive(Debug, Clone, Copy, PartialEq, Eq, Structural)]
pub enum BetaOrder {
    /// The leftmost outermost redex first.
    Normal,
    /// The argument of a redex before the redex.
    CallByValue,
}

/// Why a run of reduction steps ended.
#[derive(Debug, Clone, Copy, PartialEq, Eq, Structural)]
pub enum Halt {
    /// The term has no redex left.
    NormalForm,
    /// The allowed number of steps was made.
    StepLimit,
    /// The flag that cancels the run was found set.
    Cancelled,
    /// The term has outgrown the range of the machine's integers.
    OutOfRange,
}

impl Nameless {
    /// One step of reduction in the given order, with or without eta
    /// contraction.
    pub open spec fn step(self, order: BetaOrder, eta: bool) -> Option<Nameless> {
        match order {
            BetaOrder::Normal => self.normal_step(eta),
            BetaOrder::CallByValue => self.value_step(eta),
        }
    }

    /// The term after `k` steps in the given order; `None` where the term
    /// has no redex left before that.
    pub open spec fn steps(self, order: BetaOrder, eta: bool, k: nat) -> Option<Nameless>
        decreases k,
    {
        if k == 0 {
            Some(self)
        } else {
            match self.step(order, eta) {
                Some(next) => next.steps(order, eta, (k - 1) as nat),
                None => None,
            }
        }
    }

    /// One more step after `k` steps is `k + 1` steps.
    pub proof fn steps_then_step(self, order: BetaOrder, eta: bool, k: nat, mid: Nameless)
        requires
            self.steps(order, eta, k) == Some(mid),
        ensures
            self.steps(order, eta, k + 1) == mid.step(order, eta),
        decreases k,
    {
        if k > 0 {
            let next = self.step(order, eta)->0;
            next.steps_then_step(order, eta, (k - 1) as nat, mid);
            assert(self.steps(order, eta, k + 1) == next.steps(order, eta, k));
        } else {
            assert(self.steps(order, eta, 1) == match self.step(order, eta) {
                Some(next) => next.steps(order, eta, 0),
                None => None,
            });
        }
    }

    /// No run of steps goes on past a term without a redex.
    pub proof fn steps_end_at_normal_form(
        self,
        order: BetaOrder,
        eta: bool,
        i: nat,
        j: nat,
        end: Nameless,
    )
        requires
            self.steps(order, eta, i) == Some(end),
            end.step(order, eta) is None,
            self.steps(order, eta, j) is Some,
        ensures
            j <= i,
        decreases i,
    {
        if i > 0 && j > 0 {
            self.step(order, eta)->0.steps_end_at_normal_form(
                order,
                eta,
                (i - 1) as nat,
                (j - 1) as nat,
                end,
            );
        }
    }

    /// A step of reduction, in either order, contracts one redex of the
    /// term.
    pub proof fn step_contracts(self, order: BetaOrder, eta: bool)
        requires
            self.step(order, eta) is Some,
        ensures
            self.contracts_to(self.step(order, eta)->0),
        decreases self,
    {
        match self {
            Nameless::App(m, n) => {
                if *m is Abs {
                    if order == BetaOrder::CallByValue && n.step(order, eta) is Some {
                        n.step_contracts(order, eta);
                    }
                } else if m.step(order, eta) is Some {
                    m.step_contracts(order, eta);
                } else {
                    n.step_contracts(order, eta);
                }
            },
            Nameless::Abs(b) => {
                if !(eta && self.is_eta_redex()) {
                    b.step_contracts(order, eta);
                }
            },
            _ => {},
        }
    }

    /// Reduction frees no variable: every free name of a term after a step
    /// was a free name of the term before it.
    pub proof fn step_keeps_names(self, order: BetaOrder, eta: bool)
        requires
            self.step(order, eta) is Some,
        ensures
            self.step(order, eta)->0.names().subset_of(self.names()),
        decreases self,
    {
        let after = self.step(order, eta)->0;
        match self {
            Nameless::App(m, n) => {
                assert(self.names() == m.names().union(n.names()));
                if *m is Abs {
                    if order == BetaOrder::CallByValue && n.step(order, eta) is Some {
                        n.step_keeps_names(order, eta);
                        let n2 = n.step(order, eta)->0;
                        assert(after == Nameless::App(m, Box::new(n2)));
                        assert(after.names() == m.names().union(n2.names()));
                    } else {
                        let b = m->Abs_0;
                        b.open_names(0, *n);
                        assert(m.names() == b.names());
                        assert(after == b.open(0, *n));
                    }
                } else if m.step(order, eta) is Some {
                    m.step_keeps_names(order, eta);
                    let m2 = m.step(order, eta)->0;
                    assert(after == Nameless::App(Box::new(m2), n));
                    assert(after.names() == m2.names().union(n.names()));
                } else {
                    n.step_keeps_names(order, eta);
                    let n2 = n.step(order, eta)->0;
                    assert(after == Nameless::App(m, Box::new(n2)));
                    assert(after.names() == m.names().union(n2.names()));
                }
            },
            Nameless::Abs(b) => {
                assert(self.names() == b.names());
                if eta && self.is_eta_redex() {
                    let f = b->App_0;
                    f.lower_names(0);
                    assert(b.names() == f.names().union(b->App_1.names()));
                    assert(after == f.lower(0));
                } else {
                    b.step_keeps_names(order, eta);
                    let b2 = b.step(order, eta)->0;
                    assert(after == Nameless::Abs(Box::new(b2)));
                    assert(after.names() == b2.names());
                }
            },
            _ => {},
        }
    }

    /// Lowering leaves no more free names than there were.
    pub proof fn lower_names(self, j: int)
        ensures
            self.lower(j).names() == self.names(),
        decreases self,
    {
        match self {
            Nameless::App(m, n) => {
                m.lower_names(j);
                n.lower_names(j);
            },
            Nameless::Abs(b) => {
                b.lower_names(j + 1);
            },
            _ => {},
        }
    }
}

/// Reduction respects alpha-equivalence: two alpha-equivalent terms that
/// both reach a normal form, in the same order of reduction, reach
/// alpha-equivalent normal forms, and after as many steps. `na` is what `a`
/// has become after `i` steps and `nb` what `b` has become after `j`.
pub proof fn normal_forms_agree(
    a: Term,
    b: Term,
    order: BetaOrder,
    eta: bool,
    i: nat,
    na: Term,
    j: nat,
    nb: Term,
)
    requires
        alpha_equiv(a, b),
        a@.steps(order, eta, i) == Some(na@),
        na@.step(order, eta) is None,
        b@.steps(order, eta, j) == Some(nb@),
        nb@.step(order, eta) is None,
    ensures
        alpha_equiv(na, nb),
        i == j,
{
    a@.steps_end_at_normal_form(order, eta, i, j, na@);
    a@.steps_end_at_normal_form(order, eta, j, i, nb@);
}

/// What a step function owes: where the nameless form steps to `model`,
/// `r` is a term of that form and `changed` is set; where it has no redex,
/// `r` is `t` untouched. Flags stay truthful and no free variable appears.
pub open spec fn step_result(
    t: Term,
    r: Term,
    changed: bool,
    ctx: Seq<VarId>,
    model: Option<Nameless>,
) -> bool {
    &&& match model {
        Some(n) => changed && r.nameless_in(ctx) == n,
        None => !changed && r == t,
    }
    &&& r.wf()
    &&& r.fv().subset_of(t.fv())
}

/// Where a step changes a term: `r` is `t` with one redex contracted, and
/// all of `t` that lies outside that redex is in `r` as the same tree,
/// binder for binder.
///
/// - An eta redex that is contracted leaves its function, as it stands.
/// - A beta redex that is contracted leaves the argument in place of the
///   variable in the body made safe for it: the body as it stands, where
///   no binder that the substitution passes binds a free variable of the
///   argument.
/// - Where the step is made in a part of an application or in the body of
///   an abstraction, the other part and the binder stay.
pub open spec fn step_place(t: Term, r: Term, order: BetaOrder, eta: bool, ctx: Seq<VarId>) -> bool
    decreases t,
{
    if eta && t.is_eta_redex() {
        r == t.eta_body()
    } else {
        match *t.body {
            Body::Var(_) => true,
            Body::App(m, n) => if *m.body is Abs {
                if order == BetaOrder::CallByValue && n.nameless_in(ctx).step(order, eta) is Some {
                    match *r.body {
                        Body::App(m2, n2) => m2.same_tree(m) && step_place(n, n2, order, eta, ctx),
                        _ => false,
                    }
                } else {
                    exists|safe: Term| #[trigger]
                        m.body->Abs_1.made_safe(safe, n.fv(), ctx.push(m.body->Abs_0))
                            && r.same_tree(safe.replace_var(m.body->Abs_0, n))
                }
            } else if m.nameless_in(ctx).step(order, eta) is Some {
                match *r.body {
                    Body::App(m2, n2) => n2.same_tree(n) && step_place(m, m2, order, eta, ctx),
                    _ => false,
                }
            } else {
                match *r.body {
                    Body::App(m2, n2) => m2.same_tree(m) && step_place(n, n2, order, eta, ctx),
                    _ => false,
                }
            },
            Body::Abs(x, b) => match *r.body {
                Body::Abs(x2, b2) => x2 == x && step_place(b, b2, order, eta, ctx.push(x)),
                _ => false,
            },
        }
    }
}

impl Term {
    /// The term is `λx. f x` with `x` not free in `f`.
    pub open spec fn is_eta_redex(self) -> bool {
        match *self.body {
            Body::Abs(x, b) => match *b.body {
                Body::App(f, a) => match *a.body {
                    Body::Var(w) => w == x && !f.fv().contains(x),
                    _ => false,
                },
                _ => false,
            },
            _ => false,
        }
    }

    /// The `f` of an eta redex `λx. f x`.
    pub open spec fn eta_body(self) -> Term
        recommends
            self.is_eta_redex(),
    {
        match *self.body {
            Body::Abs(x, b) => match *b.body {
                Body::App(f, a) => f,
                _ => self,
            },
            _ => self,
        }
    }

    /// A named term is an eta redex exactly when its nameless form is one,
    /// and the `f` of `λx. f x` is the term that the nameless form contracts
    /// to.
    pub proof fn eta_redex_nameless(self, ctx: Seq<VarId>)
        ensures
            self.is_eta_redex() == self.nameless_in(ctx).is_eta_redex(),
            self.is_eta_redex() ==> {
                &&& self.eta_body().nameless_in(ctx) == self.nameless_in(ctx).eta_contract()
                &&& self.eta_body().size() < self.size()
                &&& self.eta_body().fv().subset_of(self.fv())
                &&& self.wf() ==> self.eta_body().wf()
            },
    {
        nameless_unfold(self, ctx);
        match *self.body {
            Body::Abs(x, b) => {
                nameless_unfold(b, ctx.push(x));
                assert(self.size() == 1 + b.size());
                assert(self.wf() ==> b.wf());
                match *b.body {
                    Body::App(f, a) => {
                        nameless_unfold(a, ctx.push(x));
                        assert(b.size() == 1 + f.size() + a.size());
                        assert(b.wf() ==> f.wf());
                        match *a.body {
                            Body::Var(w) => {
                                index_of_push(ctx, x, w);
                                index_of_bounds(ctx, w);
                                mentions_iff_free(f, ctx.push(x), 0);
                                index_of_push(ctx, x, x);
                                if f.nameless_in(ctx.push(x)).mentions(0) {
                                    let v = choose|v: VarId|
                                        f.fv().contains(v) && index_of(ctx.push(x), v) == Some(
                                            0int,
                                        );
                                    index_of_injective(ctx.push(x), v, x);
                                }
                                if self.is_eta_redex() {
                                    assert forall|v: VarId| f.fv().contains(v) implies index_of(
                                        ctx.push(x),
                                        v,
                                    ) != Some(0int) && index_of(ctx, v) == crate::subst::lowered(
                                        index_of(ctx.push(x), v),
                                        0,
                                    ) by {
                                        index_of_push(ctx, x, v);
                                        index_of_bounds(ctx, v);
                                    }
                                    nameless_lowered(f, ctx.push(x), ctx, 0);
                                    assert(b.fv() =~= f.fv().union(a.fv()));
                                    assert(self.fv() =~= b.fv().remove(x));
                                    assert(f.fv().subset_of(self.fv()));
                                    assert(f.nameless_in(ctx) == self.nameless_in(ctx).eta_contract());
                                }
                            },
                            _ => {},
                        }
                    },
                    _ => {},
                }
            },
            _ => {},
        }
    }
}

/// The eta law: where `v` is not free in `m`, the abstraction `λv. m v` is
/// an eta redex, and what it contracts to is alpha-equivalent to `m`.
pub proof fn eta_law(v: VarId, m: Term, whole: Term)
    requires
        !m.fv().contains(v),
        match *whole.body {
            Body::Abs(x, b) => x == v && match *b.body {
                Body::App(f, a) => f == m && *a.body == Body::Var(v),
                _ => false,
            },
            _ => false,
        },
    ensures
        whole@.is_eta_redex(),
        whole@.eta_contract() == m@,
        whole.is_eta_redex(),
        alpha_equiv(whole.eta_body(), m),
{
    whole.eta_redex_nameless(Seq::empty());
}

/// Whether `t` is `λx. f x` with `x` not free in `f`.
pub(crate) fn is_eta_redex(t: &Term) -> (r: bool)
    requires
        t.wf(),
    ensures
        r == t.is_eta_redex(),
{
    match &*t.body {
        Body::Abs(x, b) => match &*b.body {
            Body::App(f, a) => match &*a.body {
                Body::Var(w) => {
                    assert(b.wf());
                    assert(f.wf());
                    *w == *x && !f.has_free(*x)
                },
                _ => false,
            },
            _ => false,
        },
        _ => false,
    }
}

/// The `f` of the eta redex `t`.
pub(crate) fn eta_contracted(t: Term) -> (r: Term)
    requires
        t.is_eta_redex(),
    ensures
        r == t.eta_body(),
{
    let Term { body, closed: _ } = t;
    match *body {
        Body::Abs(x, b) => {
            let Term { body: bb, closed: _ } = b;
            match *bb {
                Body::App(f, a) => f,
                other => {
                    proof {
                        assert(false);
                    }
                    Term { body: Box::new(other), closed: false }
                },
            }
        },
        other => {
            proof {
                assert(false);
            }
            Term { body: Box::new(other), closed: false }
        },
    }
}

/// One step of reduction of `t` in the given order, below the binders
/// `ctx`.
fn stepped(t: Term, order: BetaOrder, eta: bool, Ghost(ctx): Ghost<Seq<VarId>>) -> (out: (
    Term,
    bool,
))
    requires
        t.wf(),
        t.size() <= usize::MAX,
    ensures
        step_result(t, out.0, out.1, ctx, t.nameless_in(ctx).step(order, eta)),
        out.1 ==> step_place(t, out.0, order, eta, ctx),
    decreases t,
{
    proof {
        t.eta_redex_nameless(ctx);
        nameless_unfold(t, ctx);
        t.same_tree_reflexive();
    }
    if eta && is_eta_redex(&t) {
        let r = eta_contracted(t);
        return (r, true);
    }
    let ghost t0 = t;
    let Term { body, closed } = t;
    match *body {
        Body::Var(v) => (Term { body: Box::new(Body::Var(v)), closed }, false),
        Body::App(m, n) => {
            if m.is_abs() {
                let (n2, cn) = match order {
                    BetaOrder::Normal => (n, false),
                    BetaOrder::CallByValue => stepped(n, order, eta, Ghost(ctx)),
                };
                if cn {
                    let r = Term { body: Box::new(Body::App(m, n2)), closed };
                    proof {
                        if closed {
                            assert(r.fv() =~= Set::<VarId>::empty());
                        }
                    }
                    (r, true)
                } else {
                    let Term { body: mb, closed: _ } = m;
                    match *mb {
                        Body::Abs(x, b) => {
                            proof {
                                assert(m.wf());
                                assert(b.wf());
                                assert(m.fv() =~= b.fv().remove(x));
                                assert(m.size() == 1 + b.size());
                                assert(t0.size() == 1 + m.size() + n.size());
                                assert(t0.fv() =~= b.fv().remove(x).union(n.fv()));
                                nameless_unfold(t0, ctx);
                                nameless_unfold(m, ctx);
                            }
                            let mut r = b;
                            let _ = r.apply_in(x, &n2, Ghost(ctx));
                            (r, true)
                        },
                        other => {
                            proof {
                                assert(false);
                            }
                            (Term { body: Box::new(other), closed: false }, false)
                        },
                    }
                }
            } else {
                let (m2, cm) = stepped(m, order, eta, Ghost(ctx));
                if cm {
                    let r = Term { body: Box::new(Body::App(m2, n)), closed };
                    proof {
                        if closed {
                            assert(r.fv() =~= Set::<VarId>::empty());
                        }
                    }
                    (r, true)
                } else {
                    let (n2, cn) = stepped(n, order, eta, Ghost(ctx));
                    let r = Term { body: Box::new(Body::App(m2, n2)), closed };
                    proof {
                        if closed {
                            assert(r.fv() =~= Set::<VarId>::empty());
                        }
                    }
                    (r, cn)
                }
            }
        },
        Body::Abs(x, b) => {
            let (b2, cb) = stepped(b, order, eta, Ghost(ctx.push(x)));
            let r = Term { body: Box::new(Body::Abs(x, b2)), closed };
            proof {
                if closed {
                    assert(r.fv() =~= Set::<VarId>::empty());
                }
            }
            (r, cb)
        },
    }
}

/// Why a round of a run ends, on the term `t`, with the flag that cancels
/// the run found as `cancelled` says and `left` steps left to make; nothing
/// where the run goes on with a step.
pub open spec fn round_end(t: Term, order: BetaOrder, eta: bool, cancelled: bool, left: usize) -> Option<
    Halt,
> {
    if cancelled {
        Some(Halt::Cancelled)
    } else if left == 0 {
        Some(Halt::StepLimit)
    } else if t.size() > usize::MAX {
        Some(Halt::OutOfRange)
    } else if t@.step(order, eta) is None {
        Some(Halt::NormalForm)
    } else {
        None
    }
}

/// Whether the flag that cancels a run is set.
fn cancelled(flag: Option<&AtomicBool>) -> (r: bool)
    ensures
        flag is None ==> !r,
{
    match flag {
        Some(flag) => flag.load(Ordering::Acquire),
        None => false,
    }
}

impl Term {
    /// Contracts the term where it is an eta redex `λx. f x` with `x` not
    /// free in `f`: it becomes `f`. Returns whether it was one.
    pub fn eta_redex_step(&mut self) -> (changed: bool)
        requires
            old(self).wf(),
        ensures
            changed == old(self)@.is_eta_redex(),
            changed ==> final(self)@ == old(self)@.eta_contract(),
            !changed ==> *final(self) == *old(self),
            final(self).wf(),
            final(self).fv().subset_of(old(self).fv()),
    {
        proof {
            self.eta_redex_nameless(Seq::empty());
        }
        if is_eta_redex(self) {
            let t = Term::take(self);
            *self = eta_contracted(t);
            true
        } else {
            false
        }
    }

    /// Makes one step of reduction in the given order, with eta contraction
    /// where `eta` is set, and returns whether there was a redex to
    /// contract.
    pub fn beta_redex_step_by(&mut self, order: BetaOrder, eta: bool) -> (changed: bool)
        requires
            old(self).wf(),
            old(self).size() <= usize::MAX,
        ensures
            step_result(
                *old(self),
                *final(self),
                changed,
                Seq::empty(),
                old(self)@.step(order, eta),
            ),
            changed ==> step_place(*old(self), *final(self), order, eta, Seq::empty()),
    {
        let t = Term::take(self);
        let (r, changed) = stepped(t, order, eta, Ghost(Seq::empty()));
        *self = r;
        changed
    }

    /// Makes one step of normal-order beta reduction: contracts the
    /// leftmost outermost beta redex. Returns whether there was one.
    pub fn normal_beta_redex_step(&mut self) -> (changed: bool)
        requires
            old(self).wf(),
            old(self).size() <= usize::MAX,
        ensures
            step_result(
                *old(self),
                *final(self),
                changed,
                Seq::empty(),
                old(self)@.normal_step(false),
            ),
            changed ==> step_place(
                *old(self),
                *final(self),
                BetaOrder::Normal,
                false,
                Seq::empty(),
            ),
    {
        self.beta_redex_step_by(BetaOrder::Normal, false)
    }

    /// Makes one step of call-by-value beta reduction: as normal order, but
    /// an argument is reduced as far as it goes before its redex is
    /// contracted. Returns whether there was a redex.
    pub fn cbv_beta_redex_step(&mut self) -> (changed: bool)
        requires
            old(self).wf(),
            old(self).size() <= usize::MAX,
        ensures
            step_result(
                *old(self),
                *final(self),
                changed,
                Seq::empty(),
                old(self)@.value_step(false),
            ),
            changed ==> step_place(
                *old(self),
                *final(self),
                BetaOrder::CallByValue,
                false,
                Seq::empty(),
            ),
    {
        self.beta_redex_step_by(BetaOrder::CallByValue, false)
    }

    /// Makes one step of reduction in normal order, where an abstraction
    /// that is an eta redex is contracted before anything in its body.
    /// Returns whether there was a redex.
    pub fn beta_redex_step(&mut self) -> (changed: bool)
        requires
            old(self).wf(),
            old(self).size() <= usize::MAX,
        ensures
            step_result(
                *old(self),
                *final(self),
                changed,
                Seq::empty(),
                old(self)@.normal_step(true),
            ),
            changed ==> step_place(
                *old(self),
                *final(self),
                BetaOrder::Normal,
                true,
                Seq::empty(),
            ),
    {
        self.beta_redex_step_by(BetaOrder::Normal, true)
    }

    /// One round of a run that can be cancelled, with the flag as it was
    /// found and the number of steps that are left to make:
    ///
    /// - where the flag is set, the run ends as cancelled and the term is
    ///   left as it is;
    /// - else, where no step is left, the run ends at its limit, and where
    ///   the term has outgrown the machine's range, it ends for that; the
    ///   term is left as it is;
    /// - else one step is made in the given order; a term without a redex
    ///   is left as it is, and the run ends at the normal form.
    ///
    /// Returns why the run ends, or nothing where it goes on.
    pub fn step_unless(&mut self, order: BetaOrder, eta: bool, cancelled: bool, left: usize) -> (r:
        Option<Halt>)
        requires
            old(self).wf(),
        ensures
            final(self).wf(),
            r == round_end(*old(self), order, eta, cancelled, left),
            r is Some ==> *final(self) == *old(self),
            r is None ==> step_result(
                *old(self),
                *final(self),
                true,
                Seq::empty(),
                old(self)@.step(order, eta),
            ) && step_place(*old(self), *final(self), order, eta, Seq::empty()),
    {
        if cancelled {
            return Some(Halt::Cancelled);
        }
        if left == 0 {
            return Some(Halt::StepLimit);
        }
        if self.checked_len().is_none() {
            return Some(Halt::OutOfRange);
        }
        if self.beta_redex_step_by(order, eta) {
            None
        } else {
            Some(Halt::NormalForm)
        }
    }

    fn run(&mut self, order: BetaOrder, eta: bool, limit: usize, cancel: Option<&AtomicBool>) -> (out:
        (usize, Halt))
        requires
            old(self).wf(),
        ensures
            final(self).wf(),
            out.0 <= limit,
            limit == 0 ==> out == (0usize, Halt::StepLimit) && *final(self) == *old(self),
            old(self)@.steps(order, eta, out.0 as nat) == Some(final(self)@),
            final(self).fv().subset_of(old(self).fv()),
            out.1 == Halt::NormalForm ==> final(self)@.step(order, eta) is None,
            out.1 == Halt::StepLimit ==> out.0 == limit,
            out.1 == Halt::OutOfRange ==> final(self).size() > usize::MAX,
            cancel is None ==> out.1 != Halt::Cancelled,
    {
        let mut done: usize = 0;
        loop
            invariant
                self.wf(),
                done <= limit,
                done == 0 ==> *self == *old(self),
                old(self)@.steps(order, eta, done as nat) == Some(self@),
                self.fv().subset_of(old(self).fv()),
            decreases limit - done,
        {
            if done >= limit {
                return (done, Halt::StepLimit);
            }
            let flag = cancelled(cancel);
            let ghost before = self@;
            match self.step_unless(order, eta, flag, limit - done) {
                Some(halt) => {
                    return (done, halt);
                },
                None => {},
            }
            proof {
                old(self)@.steps_then_step(order, eta, done as nat, before);
            }
            done = done + 1;
        }
    }

    /// Reduces the term in the given order, with eta contraction where
    /// `eta` is set, until it has no redex left or `limit` steps are made.
    /// Returns the number of steps made and why the run ended.
    pub fn beta_redex_by(&mut self, order: BetaOrder, eta: bool, limit: usize) -> (out: (
        usize,
        Halt,
    ))
        requires
            old(self).wf(),
        ensures
            final(self).wf(),
            out.0 <= limit,
            old(self)@.steps(order, eta, out.0 as nat) == Some(final(self)@),
            final(self).fv().subset_of(old(self).fv()),
            out.1 == Halt::NormalForm ==> final(self)@.step(order, eta) is None,
            out.1 == Halt::StepLimit ==> out.0 == limit,
            out.1 == Halt::OutOfRange ==> final(self).size() > usize::MAX,
            out.1 != Halt::Cancelled,
    {
        self.run(order, eta, limit, None)
    }

    /// Reduces the term in normal order, with eta contraction, until it has
    /// no redex left or `limit` steps are made.
    pub fn beta_redex(&mut self, limit: usize) -> (out: (usize, Halt))
        requires
            old(self).wf(),
        ensures
            final(self).wf(),
            out.0 <= limit,
            old(self)@.steps(BetaOrder::Normal, true, out.0 as nat) == Some(final(self)@),
            final(self).fv().subset_of(old(self).fv()),
            out.1 == Halt::NormalForm ==> final(self)@.normal_step(true) is None,
            out.1 == Halt::StepLimit ==> out.0 == limit,
            out.1 == Halt::OutOfRange ==> final(self).size() > usize::MAX,
            out.1 != Halt::Cancelled,
    {
        self.run(BetaOrder::Normal, true, limit, None)
    }

    /// What the term has become after a run in normal order, with eta
    /// contraction: its normal form, or what `limit` steps have made of it
    /// where it has not reached one by then.
    pub fn beta_reduced(self, limit: usize) -> (r: Term)
        requires
            self.wf(),
        ensures
            r.wf(),
            exists|k: nat|
                {
                    &&& k <= limit
                    &&& #[trigger] self@.steps(BetaOrder::Normal, true, k) == Some(r@)
                    &&& r@.normal_step(true) is None || k == limit || r.size() > usize::MAX
                },
            r.fv().subset_of(self.fv()),
    {
        let mut t = self;
        let (k, halt) = t.run(BetaOrder::Normal, true, limit, None);
        assert({
            &&& k as nat <= limit
            &&& self@.steps(BetaOrder::Normal, true, k as nat) == Some(t@)
            &&& t@.normal_step(true) is None || k == limit || t.size() > usize::MAX
        });
        t
    }

    /// Reduces the term in the given order until it has no redex left,
    /// `limit` steps are made, or `cancel` is found set. While steps are
    /// left, the flag is read before each, and each round is one call of
    /// `step_unless` with the flag as it was found: a run that the flag ends
    /// leaves the term as the last step made it.
    pub fn beta_redex_until(
        &mut self,
        order: BetaOrder,
        eta: bool,
        limit: usize,
        cancel: &AtomicBool,
    ) -> (out: (usize, Halt))
        requires
            old(self).wf(),
        ensures
            final(self).wf(),
            out.0 <= limit,
            old(self)@.steps(order, eta, out.0 as nat) == Some(final(self)@),
            final(self).fv().subset_of(old(self).fv()),
            out.1 == Halt::NormalForm ==> final(self)@.step(order, eta) is None,
            out.1 == Halt::StepLimit ==> out.0 == limit,
            out.1 == Halt::OutOfRange ==> final(self).size() > usize::MAX,
            limit == 0 ==> out == (0usize, Halt::StepLimit) && *final(self) == *old(self),
    {
        self.run(order, eta, limit, Some(cancel))
    }
}

} // verus!
