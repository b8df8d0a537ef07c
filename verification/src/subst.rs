//! Substitution of a term for a variable, proved against the nameless form.

use vstd::prelude::*;
use crate::nameless::{index_of, index_of_bounds, index_of_push, names_of_nameless, names_of_view, Nameless};
use crate::term::{Body, Term, VarId};

verus! {

/// The index that is left of `i` when the binder at index `k` goes.
pub open spec fn lowered(i: Option<int>, k: int) -> Option<int> {
    match i {
        Some(i) => Some(
            if i > k {
                i - 1
            } else {
                i
            },
        ),
        None => None,
    }
}

/// The index `i` seen from below `k` more binders, where it pointed past
/// `c` of them.
pub open spec fn lifted(i: Option<int>, k: int, c: int) -> Option<int> {
    match i {
        Some(i) => Some(
            if i >= c {
                i + k
            } else {
                i
            },
        ),
        None => None,
    }
}

impl Nameless {
    /// Shifting leaves the free names as they are.
    pub proof fn shift_names(self, k: int, c: int)
        ensures
            self.shift(k, c).names() == self.names(),
        decreases self,
    {
        match self {
            Nameless::App(m, n) => {
                m.shift_names(k, c);
                n.shift_names(k, c);
            },
            Nameless::Abs(b) => {
                b.shift_names(k, c + 1);
            },
            _ => {},
        }
    }

    /// The free names of an opened body: those of the body, and those of the
    /// argument where the body mentions its variable.
    pub proof fn open_names(self, j: int, arg: Nameless)
        ensures
            self.open(j, arg).names() == if self.mentions(j) {
                self.names().union(arg.names())
            } else {
                self.names()
            },
        decreases self,
    {
        match self {
            Nameless::Free(_) => {},
            Nameless::Bound(i) => {
                if i == j {
                    arg.shift_names(j, 0);
                    assert(self.names().union(arg.names()) =~= arg.names());
                }
            },
            Nameless::App(m, n) => {
                m.open_names(j, arg);
                n.open_names(j, arg);
                assert(self.open(j, arg).names() =~= if self.mentions(j) {
                    self.names().union(arg.names())
                } else {
                    self.names()
                });
            },
            Nameless::Abs(b) => {
                b.open_names(j + 1, arg);
            },
        }
    }

    /// Opening a body that does not mention its variable only lowers it.
    pub proof fn open_unmentioned(self, j: int, arg: Nameless)
        requires
            !self.mentions(j),
        ensures
            self.open(j, arg) == self.lower(j),
        decreases self,
    {
        match self {
            Nameless::App(m, n) => {
                m.open_unmentioned(j, arg);
                n.open_unmentioned(j, arg);
            },
            Nameless::Abs(b) => {
                b.open_unmentioned(j + 1, arg);
            },
            _ => {},
        }
    }
}

/// The nameless form of a term below a binder of `v` and the binders
/// `inner` is its form below `inner` alone, with `v` bound.
pub proof fn nameless_bind(t: Term, v: VarId, inner: Seq<VarId>)
    ensures
        t.nameless_in(seq![v] + inner) == t.nameless_in(inner).bind(v, inner.len() as int),
    decreases t,
{
    match *t.body {
        Body::Var(w) => {
            crate::canon::index_of_concat(seq![v], inner, w);
            assert(seq![v] =~= Seq::<VarId>::empty().push(v));
            index_of_push(Seq::<VarId>::empty(), v, w);
        },
        Body::App(m, n) => {
            nameless_bind(m, v, inner);
            nameless_bind(n, v, inner);
        },
        Body::Abs(y, m) => {
            nameless_bind(m, v, inner.push(y));
            assert((seq![v] + inner).push(y) =~= seq![v] + inner.push(y));
        },
    }
}

/// Two variables with the same index in a binder stack are the same.
pub proof fn index_of_injective(env: Seq<VarId>, v: VarId, w: VarId)
    requires
        index_of(env, v) is Some,
        index_of(env, v) == index_of(env, w),
    ensures
        v == w,
{
    index_of_bounds(env, v);
    index_of_bounds(env, w);
}

/// The nameless form mentions index `k` exactly when the variable that the
/// binder stack holds there is free in the term.
pub proof fn mentions_iff_free(t: Term, env: Seq<VarId>, k: int)
    requires
        0 <= k,
    ensures
        t.nameless_in(env).mentions(k) <==> exists|v: VarId|
            t.fv().contains(v) && index_of(env, v) == Some(k),
    decreases t,
{
    match *t.body {
        Body::Var(v) => {
            if t.nameless_in(env).mentions(k) {
                assert(t.fv().contains(v) && index_of(env, v) == Some(k));
            }
        },
        Body::App(m, n) => {
            mentions_iff_free(m, env, k);
            mentions_iff_free(n, env, k);
            if m.nameless_in(env).mentions(k) {
                let v = choose|v: VarId| m.fv().contains(v) && index_of(env, v) == Some(k);
                assert(t.fv().contains(v));
            }
            if n.nameless_in(env).mentions(k) {
                let v = choose|v: VarId| n.fv().contains(v) && index_of(env, v) == Some(k);
                assert(t.fv().contains(v));
            }
        },
        Body::Abs(y, m) => {
            mentions_iff_free(m, env.push(y), k + 1);
            if m.nameless_in(env.push(y)).mentions(k + 1) {
                let v = choose|v: VarId|
                    m.fv().contains(v) && index_of(env.push(y), v) == Some(k + 1);
                index_of_push(env, y, v);
                assert(t.fv().contains(v) && index_of(env, v) == Some(k));
            }
            if exists|v: VarId| t.fv().contains(v) && index_of(env, v) == Some(k) {
                let v = choose|v: VarId| t.fv().contains(v) && index_of(env, v) == Some(k);
                index_of_push(env, y, v);
                assert(m.fv().contains(v) && index_of(env.push(y), v) == Some(k + 1));
            }
        },
    }
}

/// Below `k` more binders that bind none of its free variables, the nameless
/// form of a term is the one it had, shifted by `k`.
pub proof fn nameless_lifted(t: Term, e1: Seq<VarId>, e2: Seq<VarId>, k: int, c: int)
    requires
        0 <= c,
        forall|v: VarId| t.fv().contains(v) ==> index_of(e2, v) == lifted(index_of(e1, v), k, c),
    ensures
        t.nameless_in(e2) == t.nameless_in(e1).shift(k, c),
    decreases t,
{
    match *t.body {
        Body::Var(v) => {
            assert(t.fv().contains(v));
        },
        Body::App(m, n) => {
            nameless_lifted(m, e1, e2, k, c);
            nameless_lifted(n, e1, e2, k, c);
        },
        Body::Abs(y, m) => {
            assert forall|v: VarId| m.fv().contains(v) implies index_of(e2.push(y), v) == lifted(
                index_of(e1.push(y), v),
                k,
                c + 1,
            ) by {
                index_of_push(e1, y, v);
                index_of_push(e2, y, v);
                if v != y {
                    assert(t.fv().contains(v));
                }
            }
            nameless_lifted(m, e1.push(y), e2.push(y), k, c + 1);
        },
    }
}

/// Where no free variable of a term belongs to the binder at index `k`, the
/// nameless form without that binder is the one with it, lowered.
pub proof fn nameless_lowered(t: Term, eb: Seq<VarId>, er: Seq<VarId>, k: int)
    requires
        0 <= k,
        forall|v: VarId|
            t.fv().contains(v) ==> index_of(eb, v) != Some(k) && index_of(er, v) == lowered(
                index_of(eb, v),
                k,
            ),
    ensures
        !t.nameless_in(eb).mentions(k),
        t.nameless_in(er) == t.nameless_in(eb).lower(k),
    decreases t,
{
    match *t.body {
        Body::Var(v) => {
            assert(t.fv().contains(v));
        },
        Body::App(m, n) => {
            nameless_lowered(m, eb, er, k);
            nameless_lowered(n, eb, er, k);
        },
        Body::Abs(y, m) => {
            assert forall|v: VarId| m.fv().contains(v) implies index_of(eb.push(y), v) != Some(
                k + 1,
            ) && index_of(er.push(y), v) == lowered(index_of(eb.push(y), v), k + 1) by {
                index_of_push(eb, y, v);
                index_of_push(er, y, v);
                if v != y {
                    assert(t.fv().contains(v));
                }
            }
            nameless_lowered(m, eb.push(y), er.push(y), k + 1);
        },
    }
}

/// `t` with `val` in place of every free occurrence of `var`, and whether
/// there was one. `eb` is the binder stack of `t`, which holds `var` at index
/// `k`; `er` is the stack without that binder, below which the result
/// stands; `env` is the stack of `val`.
fn replaced(
    t: Term,
    var: VarId,
    val: &Term,
    Ghost(eb): Ghost<Seq<VarId>>,
    Ghost(er): Ghost<Seq<VarId>>,
    Ghost(env): Ghost<Seq<VarId>>,
    Ghost(k): Ghost<int>,
) -> (out: (Term, bool))
    requires
        t.wf(),
        val.wf(),
        t.clear_of(val.fv()),
        index_of(eb, var) == Some(k),
        forall|v: VarId| v != var ==> index_of(er, v) == lowered(index_of(eb, v), k),
        forall|v: VarId| val.fv().contains(v) ==> index_of(er, v) == lifted(index_of(env, v), k, 0),
    ensures
        out.0.nameless_in(er) == t.nameless_in(eb).open(k, val.nameless_in(env)),
        out.0.wf(),
        out.1 == t.fv().contains(var),
        !out.1 ==> out.0 == t,
        out.0.fv().subset_of(t.fv().remove(var).union(val.fv())),
        out.0.same_tree(t.replace_var(var, *val)),
    decreases t,
{
    proof {
        index_of_bounds(eb, var);
        val.same_tree_reflexive();
        t.same_tree_reflexive();
    }
    if t.closed {
        proof {
            t.replace_absent(var, *val);
            t.replace_var(var, *val).same_tree_symmetric(t);
            nameless_lowered(t, eb, er, k);
            t.nameless_in(eb).open_unmentioned(k, val.nameless_in(env));
        }
        return (t, false);
    }
    let ghost t0 = t;
    let Term { body, closed } = t;
    match *body {
        Body::Var(v) => {
            if v == var {
                let r = val.clone();
                proof {
                    nameless_lifted(*val, env, er, k, 0);
                }
                (r, true)
            } else {
                let r = Term { body: Box::new(Body::Var(v)), closed };
                proof {
                    if index_of(eb, v) == Some(k) {
                        index_of_injective(eb, v, var);
                    }
                }
                (r, false)
            }
        },
        Body::App(m, n) => {
            let (m2, cm) = replaced(m, var, val, Ghost(eb), Ghost(er), Ghost(env), Ghost(k));
            let (n2, cn) = replaced(n, var, val, Ghost(eb), Ghost(er), Ghost(env), Ghost(k));
            let flag = (cm || cn) && m2.closed && n2.closed;
            let r = Term { body: Box::new(Body::App(m2, n2)), closed: flag };
            proof {
                if flag {
                    assert(r.fv() =~= Set::<VarId>::empty());
                }
                if !cm && !cn {
                    assert(r == t0);
                }
            }
            (r, cm || cn)
        },
        Body::Abs(y, m) => {
            if y == var {
                let r = Term { body: Box::new(Body::Abs(y, m)), closed };
                proof {
                    assert(r == t0);
                    assert forall|v: VarId| t0.fv().contains(v) implies index_of(eb, v) != Some(k)
                        && index_of(er, v) == lowered(index_of(eb, v), k) by {
                        if index_of(eb, v) == Some(k) {
                            index_of_injective(eb, v, var);
                        }
                    }
                    nameless_lowered(t0, eb, er, k);
                    t0.nameless_in(eb).open_unmentioned(k, val.nameless_in(env));
                }
                (r, false)
            } else {
                proof {
                    index_of_push(eb, y, var);
                    assert forall|v: VarId| v != var implies index_of(er.push(y), v) == lowered(
                        index_of(eb.push(y), v),
                        k + 1,
                    ) by {
                        index_of_push(eb, y, v);
                        index_of_push(er, y, v);
                    }
                    assert forall|v: VarId| val.fv().contains(v) implies index_of(er.push(y), v)
                        == lifted(index_of(env, v), k + 1, 0) by {
                        index_of_push(er, y, v);
                        index_of_bounds(env, v);
                    }
                }
                let (m2, cm) = replaced(
                    m,
                    var,
                    val,
                    Ghost(eb.push(y)),
                    Ghost(er.push(y)),
                    Ghost(env),
                    Ghost(k + 1),
                );
                let flag = cm && m2.closed;
                let r = Term { body: Box::new(Body::Abs(y, m2)), closed: flag };
                proof {
                    if flag {
                        assert(r.fv() =~= Set::<VarId>::empty());
                    }
                    if !cm {
                        assert(r == t0);
                    }
                }
                (r, cm)
            }
        },
    }
}

impl Term {
    /// The term with `val` put in place of every free occurrence of `var`,
    /// as it stands: nothing is renamed.
    pub open spec fn replace_var(self, var: VarId, val: Term) -> Term
        decreases self,
    {
        match *self.body {
            Body::Var(v) => if v == var {
                val
            } else {
                self
            },
            Body::App(m, n) => Term {
                body: Box::new(Body::App(m.replace_var(var, val), n.replace_var(var, val))),
                closed: false,
            },
            Body::Abs(y, m) => if y == var {
                self
            } else {
                Term { body: Box::new(Body::Abs(y, m.replace_var(var, val))), closed: false }
            },
        }
    }

    /// A term in which `var` is not free is left as it is.
    pub proof fn replace_absent(self, var: VarId, val: Term)
        requires
            !self.fv().contains(var),
        ensures
            self.replace_var(var, val).same_tree(self),
        decreases self,
    {
        self.same_tree_reflexive();
        match *self.body {
            Body::Var(_) => {},
            Body::App(m, n) => {
                m.replace_absent(var, val);
                n.replace_absent(var, val);
            },
            Body::Abs(y, m) => {
                if y != var {
                    m.replace_absent(var, val);
                }
            },
        }
    }

    /// The nameless form of `self` with `val` in place of the free variable
    /// `var`: what the redex `(λvar. self) val` contracts to.
    pub open spec fn instantiated(self, var: VarId, val: Term) -> Nameless {
        self.nameless_in(seq![var]).open(0, val@)
    }

    /// The free variables of a substitution: those of the term but the one
    /// replaced, and those of the value where there was an occurrence to
    /// replace.
    pub proof fn instantiated_names(self, var: VarId, val: Term)
        ensures
            self.instantiated(var, val).names() == if self.fv().contains(var) {
                self.fv().remove(var).union(val.fv())
            } else {
                self.fv()
            },
    {
        let env = seq![var];
        self.nameless_in(env).open_names(0, val@);
        names_of_nameless(self, env);
        names_of_view(val);
        mentions_iff_free(self, env, 0);
        assert(env =~= Seq::<VarId>::empty().push(var));
        assert(index_of(env, var) == Some(0int)) by {
            index_of_push(Seq::<VarId>::empty(), var, var);
        }
        assert forall|v: VarId| env.contains(v) <==> v == var by {
            if v == var {
                assert(env[0] == v);
            }
        }
        if self.nameless_in(env).mentions(0) {
            let v = choose|v: VarId| self.fv().contains(v) && index_of(env, v) == Some(0int);
            index_of_injective(env, v, var);
        }
        assert(self.fv().filter(|v: VarId| !env.contains(v)) =~= self.fv().remove(var));
        if !self.fv().contains(var) {
            assert(self.fv().remove(var) =~= self.fv());
        }
    }

    /// Substitutes `val` for `var` below the binders `ctx`, and says whether
    /// `var` occurred free. The binders of `self` are first moved away from
    /// the free variables of `val`, so that none of those is captured.
    pub(crate) fn apply_in(&mut self, var: VarId, val: &Term, Ghost(ctx): Ghost<Seq<VarId>>) -> (changed: bool)
        requires
            old(self).wf(),
            val.wf(),
            old(self).size() + val.size() <= usize::MAX,
        ensures
            final(self).nameless_in(ctx) == old(self).nameless_in(ctx.push(var)).open(
                0,
                val.nameless_in(ctx),
            ),
            final(self).wf(),
            changed == old(self).fv().contains(var),
            final(self).fv().subset_of(old(self).fv().remove(var).union(val.fv())),
            old(self).clear_of(val.fv()) ==> final(self).same_tree(
                old(self).replace_var(var, *val),
            ),
            exists|safe: Term| #[trigger]
                old(self).made_safe(safe, val.fv(), ctx.push(var)) && final(self).same_tree(
                    safe.replace_var(var, *val),
                ),
    {
        self.fix_captures_in(val, Ghost(ctx.push(var)));
        let t = Term::take(self);
        proof {
            names_of_nameless(t, ctx.push(var));
            names_of_nameless(*old(self), ctx.push(var));
            index_of_push(ctx, var, var);
            assert forall|v: VarId| v != var implies index_of(ctx, v) == lowered(
                index_of(ctx.push(var), v),
                0,
            ) by {
                index_of_push(ctx, var, v);
                index_of_bounds(ctx, v);
            }
        }
        let (r, changed) = replaced(
            t,
            var,
            val,
            Ghost(ctx.push(var)),
            Ghost(ctx),
            Ghost(ctx),
            Ghost(0),
        );
        *self = r;
        proof {
            fv_from_nameless(t, *old(self), ctx.push(var), var);
            assert(old(self).made_safe(t, val.fv(), ctx.push(var)) && self.same_tree(
                t.replace_var(var, *val),
            ));
        }
        changed
    }

    /// Substitutes `val` for the free occurrences of `var`, without capture:
    /// a free variable of `val` is free in the result wherever it lands.
    /// The result is `val` put in place of `var`, binder for binder, in
    /// `self` made safe for it. Where no binder of `self` that the
    /// substitution passes binds a free variable of `val`, that is `self`
    /// as it stands, and nothing is renamed. Returns whether `var` occurred
    /// free.
    pub fn apply_by(&mut self, var: VarId, val: &Term) -> (changed: bool)
        requires
            old(self).wf(),
            val.wf(),
            old(self).size() + val.size() <= usize::MAX,
        ensures
            final(self)@ == old(self).instantiated(var, *val),
            final(self).wf(),
            changed == old(self).fv().contains(var),
            final(self).fv() == if changed {
                old(self).fv().remove(var).union(val.fv())
            } else {
                old(self).fv()
            },
            old(self).clear_of(val.fv()) ==> final(self).same_tree(
                old(self).replace_var(var, *val),
            ),
            *old(self).body == Body::Var(var) ==> final(self).same_tree(*val),
            exists|safe: Term| #[trigger]
                old(self).made_safe(safe, val.fv(), seq![var]) && final(self).same_tree(
                    safe.replace_var(var, *val),
                ),
    {
        let changed = self.apply_in(var, val, Ghost(Seq::empty()));
        proof {
            assert(Seq::<VarId>::empty().push(var) =~= seq![var]);
            old(self).instantiated_names(var, *val);
            names_of_view(*self);
        }
        changed
    }

    /// Substitutes `val` for the free occurrences of `var`, without capture.
    pub fn apply(&mut self, var: VarId, val: &Term)
        requires
            old(self).wf(),
            val.wf(),
            old(self).size() + val.size() <= usize::MAX,
        ensures
            final(self)@ == old(self).instantiated(var, *val),
            final(self).wf(),
            final(self).fv() == if old(self).fv().contains(var) {
                old(self).fv().remove(var).union(val.fv())
            } else {
                old(self).fv()
            },
            old(self).clear_of(val.fv()) ==> final(self).same_tree(
                old(self).replace_var(var, *val),
            ),
            *old(self).body == Body::Var(var) ==> final(self).same_tree(*val),
            exists|safe: Term| #[trigger]
                old(self).made_safe(safe, val.fv(), seq![var]) && final(self).same_tree(
                    safe.replace_var(var, *val),
                ),
    {
        let _ = self.apply_by(var, val);
    }
}

/// Whether a variable is free in a term can be read from its nameless form
/// below any binder stack that holds the variable last.
proof fn fv_from_nameless(a: Term, b: Term, env: Seq<VarId>, var: VarId)
    requires
        a.nameless_in(env) == b.nameless_in(env),
        index_of(env, var) == Some(0int),
    ensures
        a.fv().contains(var) == b.fv().contains(var),
{
    mentions_iff_free(a, env, 0);
    mentions_iff_free(b, env, 0);
    if a.nameless_in(env).mentions(0) {
        let v = choose|v: VarId| a.fv().contains(v) && index_of(env, v) == Some(0int);
        index_of_injective(env, v, var);
        let w = choose|w: VarId| b.fv().contains(w) && index_of(env, w) == Some(0int);
        index_of_injective(env, w, var);
    }
}

} // verus!
