//! Terms without bound names. A bound variable is written as the number of
//! abstractions between it and its binder, so two named terms that differ
//! only in the names of their bound variables have the same nameless form.
//! Reduction is defined on this form; the named engine is proved against it.

use vstd::prelude::*;
use crate::term::{Body, Term, VarId};

verus! {

/// A lambda term in which bound variables are indices.
pub enum Nameless {
    /// A variable that no abstraction binds, by its identifier.
    Free(VarId),
    /// A bound variable: `Bound(i)` belongs to the abstraction reached by
    /// passing `i` others on the way up.
    Bound(int),
    App(Box<Nameless>, Box<Nameless>),
    Abs(Box<Nameless>),
}

/// Where `v` stands in the binder stack `env`, counted from its top: the
/// number of binders pushed after the last `v`.
pub open spec fn index_of(env: Seq<VarId>, v: VarId) -> Option<int>
    decreases env.len(),
{
    if env.len() == 0 {
        None
    } else if env.last() == v {
        Some(0)
    } else {
        match index_of(env.drop_last(), v) {
            Some(i) => Some(i + 1),
            None => None,
        }
    }
}

impl Nameless {
    /// Adds `k` to every index that points past `c` enclosing abstractions.
    pub open spec fn shift(self, k: int, c: int) -> Nameless
        decreases self,
    {
        match self {
            Nameless::Free(v) => Nameless::Free(v),
            Nameless::Bound(i) => if i >= c {
                Nameless::Bound(i + k)
            } else {
                Nameless::Bound(i)
            },
            Nameless::App(m, n) => Nameless::App(Box::new(m.shift(k, c)), Box::new(n.shift(k, c))),
            Nameless::Abs(b) => Nameless::Abs(Box::new(b.shift(k, c + 1))),
        }
    }

    /// The body of an abstraction with its variable, index `j`, replaced by
    /// `arg`: what is left when the abstraction meets the argument `arg`.
    /// Indices past `j` lose the binder that is gone.
    pub open spec fn open(self, j: int, arg: Nameless) -> Nameless
        decreases self,
    {
        match self {
            Nameless::Free(v) => Nameless::Free(v),
            Nameless::Bound(i) => if i == j {
                arg.shift(j, 0)
            } else if i > j {
                Nameless::Bound(i - 1)
            } else {
                Nameless::Bound(i)
            },
            Nameless::App(m, n) => Nameless::App(
                Box::new(m.open(j, arg)),
                Box::new(n.open(j, arg)),
            ),
            Nameless::Abs(b) => Nameless::Abs(Box::new(b.open(j + 1, arg))),
        }
    }

    /// Index `j` occurs in the term.
    pub open spec fn mentions(self, j: int) -> bool
        decreases self,
    {
        match self {
            Nameless::Free(_) => false,
            Nameless::Bound(i) => i == j,
            Nameless::App(m, n) => m.mentions(j) || n.mentions(j),
            Nameless::Abs(b) => b.mentions(j + 1),
        }
    }

    /// The term outside the binder of index `j`, which it does not mention:
    /// indices past `j` go down by one.
    pub open spec fn lower(self, j: int) -> Nameless
        decreases self,
    {
        match self {
            Nameless::Free(v) => Nameless::Free(v),
            Nameless::Bound(i) => if i > j {
                Nameless::Bound(i - 1)
            } else {
                Nameless::Bound(i)
            },
            Nameless::App(m, n) => Nameless::App(Box::new(m.lower(j)), Box::new(n.lower(j))),
            Nameless::Abs(b) => Nameless::Abs(Box::new(b.lower(j + 1))),
        }
    }

    /// The identifiers of the free variables.
    pub open spec fn names(self) -> Set<VarId>
        decreases self,
    {
        match self {
            Nameless::Free(v) => set![v],
            Nameless::Bound(_) => Set::empty(),
            Nameless::App(m, n) => m.names().union(n.names()),
            Nameless::Abs(b) => b.names(),
        }
    }

    /// The number of nodes of the term.
    pub open spec fn nodes(self) -> nat
        decreases self,
    {
        match self {
            Nameless::Free(_) => 1,
            Nameless::Bound(_) => 1,
            Nameless::App(m, n) => 1 + m.nodes() + n.nodes(),
            Nameless::Abs(b) => 1 + b.nodes(),
        }
    }

    /// The term below one more binder, which binds the free variable `v`:
    /// `depth` is the number of binders between that one and the place.
    pub open spec fn bind(self, v: VarId, depth: int) -> Nameless
        decreases self,
    {
        match self {
            Nameless::Free(w) => if w == v {
                Nameless::Bound(depth)
            } else {
                Nameless::Free(w)
            },
            Nameless::Bound(i) => Nameless::Bound(i),
            Nameless::App(m, n) => Nameless::App(
                Box::new(m.bind(v, depth)),
                Box::new(n.bind(v, depth)),
            ),
            Nameless::Abs(b) => Nameless::Abs(Box::new(b.bind(v, depth + 1))),
        }
    }

    /// Binding a variable leaves the number of nodes as it is.
    pub proof fn bind_nodes(self, v: VarId, depth: int)
        ensures
            self.bind(v, depth).nodes() == self.nodes(),
        decreases self,
    {
        match self {
            Nameless::App(m, n) => {
                m.bind_nodes(v, depth);
                n.bind_nodes(v, depth);
            },
            Nameless::Abs(b) => {
                b.bind_nodes(v, depth + 1);
            },
            _ => {},
        }
    }

    /// The term is `λ. f 0` for some `f` that does not mention the bound
    /// variable.
    pub open spec fn is_eta_redex(self) -> bool {
        match self {
            Nameless::Abs(b) => match *b {
                Nameless::App(f, x) => *x == Nameless::Bound(0) && !f.mentions(0),
                _ => false,
            },
            _ => false,
        }
    }

    /// What an eta redex `λ. f 0` contracts to: `f`, outside the binder.
    pub open spec fn eta_contract(self) -> Nameless
        recommends
            self.is_eta_redex(),
    {
        match self {
            Nameless::Abs(b) => match *b {
                Nameless::App(f, _) => f.lower(0),
                _ => self,
            },
            _ => self,
        }
    }

    /// The term is a beta redex: an abstraction applied to an argument.
    pub open spec fn is_beta_redex(self) -> bool {
        match self {
            Nameless::App(m, _) => *m is Abs,
            _ => false,
        }
    }

    /// What a beta redex `(λ. b) n` contracts to: `b` with `n` for its
    /// variable.
    pub open spec fn beta_contract(self) -> Nameless
        recommends
            self.is_beta_redex(),
    {
        match self {
            Nameless::App(m, n) => match *m {
                Nameless::Abs(b) => b.open(0, *n),
                _ => self,
            },
            _ => self,
        }
    }

    /// `other` is the term with one of its redexes contracted: the term
    /// itself where it is a beta or an eta redex, or a redex in one of its
    /// parts.
    pub open spec fn contracts_to(self, other: Nameless) -> bool
        decreases self,
    {
        ||| self.is_beta_redex() && other == self.beta_contract()
        ||| self.is_eta_redex() && other == self.eta_contract()
        ||| match (self, other) {
            (Nameless::App(m, n), Nameless::App(m2, n2)) => (m.contracts_to(*m2) && n == n2) || (m
                == m2 && n.contracts_to(*n2)),
            (Nameless::Abs(b), Nameless::Abs(b2)) => b.contracts_to(*b2),
            _ => false,
        }
    }

    /// One step of normal-order reduction: the leftmost outermost redex is
    /// contracted. With `eta` set, an abstraction that is an eta redex is
    /// one, and is contracted before anything in its body. `None` where the
    /// term has no redex.
    pub open spec fn normal_step(self, eta: bool) -> Option<Nameless>
        decreases self,
    {
        match self {
            Nameless::Free(_) => None,
            Nameless::Bound(_) => None,
            Nameless::App(m, n) => match *m {
                Nameless::Abs(b) => Some(b.open(0, *n)),
                _ => match m.normal_step(eta) {
                    Some(m2) => Some(Nameless::App(Box::new(m2), n)),
                    None => match n.normal_step(eta) {
                        Some(n2) => Some(Nameless::App(m, Box::new(n2))),
                        None => None,
                    },
                },
            },
            Nameless::Abs(b) => if eta && self.is_eta_redex() {
                Some(self.eta_contract())
            } else {
                match b.normal_step(eta) {
                    Some(b2) => Some(Nameless::Abs(Box::new(b2))),
                    None => None,
                }
            },
        }
    }

    /// One step of call-by-value reduction: as normal order, but the
    /// argument of a redex is reduced as far as it goes before the redex is
    /// contracted.
    pub open spec fn value_step(self, eta: bool) -> Option<Nameless>
        decreases self,
    {
        match self {
            Nameless::Free(_) => None,
            Nameless::Bound(_) => None,
            Nameless::App(m, n) => match *m {
                Nameless::Abs(b) => match n.value_step(eta) {
                    Some(n2) => Some(Nameless::App(m, Box::new(n2))),
                    None => Some(b.open(0, *n)),
                },
                _ => match m.value_step(eta) {
                    Some(m2) => Some(Nameless::App(Box::new(m2), n)),
                    None => match n.value_step(eta) {
                        Some(n2) => Some(Nameless::App(m, Box::new(n2))),
                        None => None,
                    },
                },
            },
            Nameless::Abs(b) => if eta && self.is_eta_redex() {
                Some(self.eta_contract())
            } else {
                match b.value_step(eta) {
                    Some(b2) => Some(Nameless::Abs(Box::new(b2))),
                    None => None,
                }
            },
        }
    }
}

impl Term {
    /// The nameless form of the term below the binders `env`, the innermost
    /// last. A variable that `env` does not hold stays free.
    pub open spec fn nameless_in(self, env: Seq<VarId>) -> Nameless
        decreases self,
    {
        match *self.body {
            Body::Var(v) => match index_of(env, v) {
                Some(i) => Nameless::Bound(i),
                None => Nameless::Free(v),
            },
            Body::App(m, n) => Nameless::App(
                Box::new(m.nameless_in(env)),
                Box::new(n.nameless_in(env)),
            ),
            Body::Abs(v, m) => Nameless::Abs(Box::new(m.nameless_in(env.push(v)))),
        }
    }
}

impl View for Term {
    type V = Nameless;

    /// The nameless form of the whole term.
    open spec fn view(&self) -> Nameless {
        self.nameless_in(Seq::empty())
    }
}

/// The nameless form of a term, one level down.
pub proof fn nameless_unfold(t: Term, env: Seq<VarId>)
    ensures
        match *t.body {
            Body::Var(v) => t.nameless_in(env) == match index_of(env, v) {
                Some(i) => Nameless::Bound(i),
                None => Nameless::Free(v),
            },
            Body::App(m, n) => t.nameless_in(env) == Nameless::App(
                Box::new(m.nameless_in(env)),
                Box::new(n.nameless_in(env)),
            ),
            Body::Abs(v, m) => t.nameless_in(env) == Nameless::Abs(
                Box::new(m.nameless_in(env.push(v))),
            ),
        },
{
}

/// Pushing a binder puts it at index 0 and moves every other one up.
pub proof fn index_of_push(env: Seq<VarId>, y: VarId, v: VarId)
    ensures
        index_of(env.push(y), v) == if y == v {
            Some(0int)
        } else {
            match index_of(env, v) {
                Some(i) => Some(i + 1),
                None => None,
            }
        },
{
    assert(env.push(y).drop_last() =~= env);
    assert(env.push(y).last() == y);
}

/// The indices in a stack of one, two and three binders.
pub proof fn index_of_few(a: VarId, b: VarId, c: VarId, v: VarId)
    ensures
        index_of(Seq::<VarId>::empty(), v) is None,
        index_of(Seq::<VarId>::empty().push(a), v) == if v == a {
            Some(0int)
        } else {
            None
        },
        index_of(Seq::<VarId>::empty().push(a).push(b), v) == if v == b {
            Some(0int)
        } else if v == a {
            Some(1int)
        } else {
            None
        },
        index_of(Seq::<VarId>::empty().push(a).push(b).push(c), v) == if v == c {
            Some(0int)
        } else if v == b {
            Some(1int)
        } else if v == a {
            Some(2int)
        } else {
            None
        },
{
    let e0 = Seq::<VarId>::empty();
    index_of_push(e0, a, v);
    index_of_push(e0.push(a), b, v);
    index_of_push(e0.push(a).push(b), c, v);
}

/// An index that `index_of` gives lies within the stack, and the binder
/// there is the variable asked for.
pub proof fn index_of_bounds(env: Seq<VarId>, v: VarId)
    ensures
        match index_of(env, v) {
            Some(i) => 0 <= i < env.len() && env[env.len() - 1 - i] == v,
            None => !env.contains(v),
        },
    decreases env.len(),
{
    if env.len() > 0 {
        index_of_bounds(env.drop_last(), v);
        if env.last() != v {
            match index_of(env.drop_last(), v) {
                Some(i) => {},
                None => {
                    assert forall|k: int| 0 <= k < env.len() implies env[k] != v by {
                        if k < env.len() - 1 {
                            assert(env.drop_last()[k] == env[k]);
                        }
                    }
                },
            }
        }
    }
}

/// The free names of the nameless form are the free variables of the term
/// that the binder stack does not hold.
pub proof fn names_of_nameless(t: Term, env: Seq<VarId>)
    ensures
        t.nameless_in(env).names() == t.fv().filter(|v: VarId| !env.contains(v)),
    decreases t,
{
    let keep = |v: VarId| !env.contains(v);
    match *t.body {
        Body::Var(v) => {
            index_of_bounds(env, v);
            assert(t.nameless_in(env).names() =~= t.fv().filter(keep));
        },
        Body::App(m, n) => {
            names_of_nameless(m, env);
            names_of_nameless(n, env);
            assert(t.nameless_in(env).names() =~= t.fv().filter(keep));
        },
        Body::Abs(y, m) => {
            names_of_nameless(m, env.push(y));
            assert forall|v: VarId| #[trigger] env.push(y).contains(v) == (v == y || env.contains(v)) by {
                if env.contains(v) {
                    let k = choose|k: int| 0 <= k < env.len() && env[k] == v;
                    assert(env.push(y)[k] == v);
                }
                if v == y {
                    assert(env.push(y)[env.len() as int] == y);
                }
            }
            assert(t.nameless_in(env).names() =~= t.fv().filter(keep));
        },
    }
}

/// The nameless form of a term has as many nodes as the term.
pub proof fn nodes_of_nameless(t: Term, env: Seq<VarId>)
    ensures
        t.nameless_in(env).nodes() == t.size(),
    decreases t,
{
    match *t.body {
        Body::Var(_) => {},
        Body::App(m, n) => {
            nodes_of_nameless(m, env);
            nodes_of_nameless(n, env);
        },
        Body::Abs(y, m) => {
            nodes_of_nameless(m, env.push(y));
        },
    }
}

/// The free variables of a term are the free names of its nameless form.
pub proof fn names_of_view(t: Term)
    ensures
        t@.names() == t.fv(),
{
    names_of_nameless(t, Seq::empty());
    assert(t.fv().filter(|v: VarId| !Seq::<VarId>::empty().contains(v)) =~= t.fv());
}

} // verus!
