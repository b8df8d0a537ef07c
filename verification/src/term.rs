//! Lambda terms with named variables, and the sets of variables that
//! occur free and bound in them.

use vstd::prelude::*;
use vstd::std_specs::hash::*;
use std::collections::HashSet;
use crate::nameless::{index_of, Nameless};
use crate::text::{decimal, push_decimal};

verus! {

broadcast use vstd::std_specs::hash::group_hash_axioms;

/// A variable is identified by a non-negative integer.
pub type VarId = usize;

/// The three shapes of a lambda term.
#[derive(Debug, PartialEq, Eq)]
pub enum Body {
    /// An occurrence of a variable.
    Var(VarId),
    /// `App(m, n)` applies `m` to `n`.
    App(Term, Term),
    /// `Abs(v, m)` binds `v` in `m`.
    Abs(VarId, Term),
}

/// A node of a term: its shape, and a flag that may record that no variable
/// occurs free below it. Two terms are equal when they are the same tree,
/// whatever their flags.
#[derive(Debug, Eq)]
pub struct Term {
    pub body: Box<Body>,
    pub closed: bool,
}

impl Term {
    /// The number of nodes of the term.
    pub open spec fn size(self) -> nat
        decreases self,
    {
        match *self.body {
            Body::Var(_) => 1,
            Body::App(m, n) => 1 + m.size() + n.size(),
            Body::Abs(_, m) => 1 + m.size(),
        }
    }

    /// The variables that occur free in the term.
    pub open spec fn fv(self) -> Set<VarId>
        decreases self,
    {
        match *self.body {
            Body::Var(v) => set![v],
            Body::App(m, n) => m.fv().union(n.fv()),
            Body::Abs(v, m) => m.fv().remove(v),
        }
    }

    /// The variables that some abstraction of the term binds.
    pub open spec fn bv(self) -> Set<VarId>
        decreases self,
    {
        match *self.body {
            Body::Var(_) => Set::empty(),
            Body::App(m, n) => m.bv().union(n.bv()),
            Body::Abs(v, m) => m.bv().insert(v),
        }
    }

    /// Every flag that is set tells the truth: below a node marked closed no
    /// variable occurs free.
    pub open spec fn wf(self) -> bool
        decreases self,
    {
        &&& self.closed ==> self.fv() == Set::<VarId>::empty()
        &&& match *self.body {
            Body::Var(_) => true,
            Body::App(m, n) => m.wf() && n.wf(),
            Body::Abs(_, m) => m.wf(),
        }
    }

    /// The flag that a new node over `body` gets: set where the flags of the
    /// children show at once that the node is closed.
    pub open spec fn flag_over(body: Body) -> bool {
        match body {
            Body::Var(_) => false,
            Body::App(m, n) => m.closed && n.closed,
            Body::Abs(_, m) => m.closed,
        }
    }

    /// Builds a node over `body`.
    pub fn new(body: Body) -> (t: Term)
        ensures
            *t.body == body,
            t.closed == Term::flag_over(body),
            body.wf() ==> t.wf(),
    {
        let closed = match &body {
            Body::Var(_) => false,
            Body::App(m, n) => m.closed && n.closed,
            Body::Abs(_, m) => m.closed,
        };
        let t = Term { body: Box::new(body), closed };
        proof {
            if closed && body.wf() {
                assert(t.fv() =~= Set::<VarId>::empty());
            }
        }
        t
    }

    /// The variable `v`.
    pub fn var(v: VarId) -> (t: Term)
        ensures
            *t.body == Body::Var(v),
            !t.closed,
            t.wf(),
            t.size() == 1,
            t.fv() == set![v],
            t.bv() == Set::<VarId>::empty(),
            forall|env: Seq<VarId>| #[trigger]
                t.nameless_in(env) == match index_of(env, v) {
                    Some(i) => Nameless::Bound(i),
                    None => Nameless::Free(v),
                },
    {
        Term { body: Box::new(Body::Var(v)), closed: false }
    }

    /// The application of `m` to `n`.
    pub fn app(m: Term, n: Term) -> (t: Term)
        ensures
            *t.body == Body::App(m, n),
            t.closed == (m.closed && n.closed),
            m.wf() && n.wf() ==> t.wf(),
            t.size() == 1 + m.size() + n.size(),
            t.fv() == m.fv().union(n.fv()),
            t.bv() == m.bv().union(n.bv()),
            forall|env: Seq<VarId>| #[trigger]
                t.nameless_in(env) == Nameless::App(
                    Box::new(m.nameless_in(env)),
                    Box::new(n.nameless_in(env)),
                ),
    {
        Term::new(Body::App(m, n))
    }

    /// The abstraction that binds `v` in `m`.
    pub fn abs(v: VarId, m: Term) -> (t: Term)
        ensures
            *t.body == Body::Abs(v, m),
            t.closed == m.closed,
            m.wf() ==> t.wf(),
            t.size() == 1 + m.size(),
            t.fv() == m.fv().remove(v),
            t.bv() == m.bv().insert(v),
            forall|env: Seq<VarId>| #[trigger]
                t.nameless_in(env) == Nameless::Abs(Box::new(m.nameless_in(env.push(v)))),
    {
        Term::new(Body::Abs(v, m))
    }

    /// What `f` makes of a copy of the term.
    pub fn coerce<F: FnOnce(Term) -> Term>(&self, f: F) -> (r: Term)
        requires
            f.requires((*self,)),
        ensures
            f.ensures((*self,), r),
    {
        f(self.clone())
    }

    /// The term as text, with identifiers as decimal numbers: a variable is
    /// its number, an application is its two parts with a space between, the
    /// first in round brackets unless it is a variable, and an abstraction is
    /// `λ`, its variable, a dot and its body.
    pub open spec fn show(self) -> Seq<char>
        decreases self,
    {
        match *self.body {
            Body::Var(v) => decimal(v as nat),
            Body::App(m, n) => (if *m.body is Var {
                m.show()
            } else {
                seq!['('] + m.show() + seq![')']
            }) + seq![' '] + n.show(),
            Body::Abs(v, m) => seq!['λ'] + decimal(v as nat) + seq!['.'] + m.show(),
        }
    }

    fn write_to(&self, out: &mut String)
        ensures
            final(out)@ == old(out)@ + self.show(),
        decreases self,
    {
        match &*self.body {
            Body::Var(v) => {
                push_decimal(out, *v);
            },
            Body::App(m, n) => {
                let bare = match &*m.body {
                    Body::Var(_) => true,
                    _ => false,
                };
                if bare {
                    m.write_to(out);
                } else {
                    out.push('(');
                    m.write_to(out);
                    out.push(')');
                }
                out.push(' ');
                n.write_to(out);
                assert(out@ =~= old(out)@ + self.show());
            },
            Body::Abs(v, m) => {
                out.push('λ');
                push_decimal(out, *v);
                out.push('.');
                m.write_to(out);
                assert(out@ =~= old(out)@ + self.show());
            },
        }
    }

    /// The term as text, with identifiers as decimal numbers.
    pub fn to_string(&self) -> (s: String)
        ensures
            s@ == self.show(),
    {
        let mut s = String::new();
        self.write_to(&mut s);
        assert(s@ =~= self.show());
        s
    }

    pub(crate) fn same(&self, other: &Term) -> (r: bool)
        ensures
            r == self.same_tree(*other),
        decreases self,
    {
        match (&*self.body, &*other.body) {
            (Body::Var(v), Body::Var(w)) => *v == *w,
            (Body::App(m, n), Body::App(p, q)) => m.same(p) && n.same(q),
            (Body::Abs(v, m), Body::Abs(w, p)) => *v == *w && m.same(p),
            _ => false,
        }
    }
}

impl PartialEq for Term {
    fn eq(&self, other: &Term) -> (r: bool) {
        self.same(other)
    }
}

impl vstd::std_specs::cmp::PartialEqSpecImpl for Term {
    open spec fn obeys_eq_spec() -> bool {
        true
    }

    open spec fn eq_spec(&self, other: &Term) -> bool {
        self.same_tree(*other)
    }
}

impl From<Body> for Term {
    fn from(value: Body) -> (t: Term) {
        Term::new(value)
    }
}

impl vstd::std_specs::convert::FromSpecImpl<Body> for Term {
    open spec fn obeys_from_spec() -> bool {
        true
    }

    open spec fn from_spec(value: Body) -> Term {
        Term { body: Box::new(value), closed: Term::flag_over(value) }
    }
}

/// The identifier `idx` as text: its decimal number.
pub fn write_alias(idx: usize) -> (s: String)
    ensures
        s@ == decimal(idx as nat),
{
    let mut s = String::new();
    push_decimal(&mut s, idx);
    assert(s@ =~= decimal(idx as nat));
    s
}

impl Term {
    /// Every flag says exactly whether a variable occurs free below it.
    pub open spec fn flags_exact(self) -> bool
        decreases self,
    {
        &&& self.closed == (self.fv() == Set::<VarId>::empty())
        &&& match *self.body {
            Body::Var(_) => true,
            Body::App(m, n) => m.flags_exact() && n.flags_exact(),
            Body::Abs(_, m) => m.flags_exact(),
        }
    }

    /// The two terms are the same tree of variables, applications and
    /// abstractions. The flags are not compared.
    pub open spec fn same_tree(self, other: Term) -> bool
        decreases self,
    {
        match (*self.body, *other.body) {
            (Body::Var(v), Body::Var(w)) => v == w,
            (Body::App(m, n), Body::App(p, q)) => m.same_tree(p) && n.same_tree(q),
            (Body::Abs(v, m), Body::Abs(w, p)) => v == w && m.same_tree(p),
            _ => false,
        }
    }

    /// The free variables of a term are finitely many.
    pub proof fn fv_finite(self)
        ensures
            self.fv().finite(),
        decreases self,
    {
        match *self.body {
            Body::Var(_) => {},
            Body::App(m, n) => {
                m.fv_finite();
                n.fv_finite();
            },
            Body::Abs(_, m) => {
                m.fv_finite();
            },
        }
    }

    /// Exact flags are truthful flags.
    pub proof fn exact_is_wf(self)
        requires
            self.flags_exact(),
        ensures
            self.wf(),
        decreases self,
    {
        match *self.body {
            Body::Var(_) => {},
            Body::App(m, n) => {
                m.exact_is_wf();
                n.exact_is_wf();
            },
            Body::Abs(_, m) => {
                m.exact_is_wf();
            },
        }
    }

    pub(crate) fn free_vars_from(&self, bound: &mut HashSet<VarId>, frees: &mut HashSet<VarId>)
        requires
            self.wf(),
        ensures
            final(bound)@ == old(bound)@,
            final(frees)@ == old(frees)@.union(self.fv().difference(old(bound)@)),
        decreases self,
    {
        if self.closed {
            assert(frees@ =~= old(frees)@.union(self.fv().difference(old(bound)@)));
            return ;
        }
        match &*self.body {
            Body::Var(v) => {
                if !bound.contains(v) {
                    frees.insert(*v);
                }
                assert(frees@ =~= old(frees)@.union(self.fv().difference(old(bound)@)));
            },
            Body::App(m, n) => {
                m.free_vars_from(bound, frees);
                n.free_vars_from(bound, frees);
                assert(frees@ =~= old(frees)@.union(self.fv().difference(old(bound)@)));
            },
            Body::Abs(v, m) => {
                let fresh = bound.insert(*v);
                m.free_vars_from(bound, frees);
                if fresh {
                    bound.remove(v);
                }
                assert(bound@ =~= old(bound)@);
                assert(frees@ =~= old(frees)@.union(self.fv().difference(old(bound)@)));
            },
        }
    }

    /// The variables that occur free in the term.
    pub fn free_vars(&self) -> (frees: HashSet<VarId>)
        requires
            self.wf(),
        ensures
            frees@ == self.fv(),
    {
        let mut bound: HashSet<VarId> = HashSet::new();
        let mut frees: HashSet<VarId> = HashSet::new();
        self.free_vars_from(&mut bound, &mut frees);
        assert(frees@ =~= self.fv());
        frees
    }

    fn bounded_vars_from(&self, set: &mut HashSet<VarId>)
        ensures
            final(set)@ == old(set)@.union(self.bv()),
        decreases self,
    {
        match &*self.body {
            Body::Var(_) => {
                assert(set@ =~= old(set)@.union(self.bv()));
            },
            Body::App(m, n) => {
                m.bounded_vars_from(set);
                n.bounded_vars_from(set);
                assert(set@ =~= old(set)@.union(self.bv()));
            },
            Body::Abs(v, m) => {
                set.insert(*v);
                m.bounded_vars_from(set);
                assert(set@ =~= old(set)@.union(self.bv()));
            },
        }
    }

    /// Whether `v` occurs free in the term.
    pub fn has_free(&self, v: VarId) -> (r: bool)
        requires
            self.wf(),
        ensures
            r == self.fv().contains(v),
        decreases self,
    {
        if self.closed {
            return false;
        }
        match &*self.body {
            Body::Var(w) => *w == v,
            Body::App(m, n) => m.has_free(v) || n.has_free(v),
            Body::Abs(w, m) => *w != v && m.has_free(v),
        }
    }

    /// The number of nodes of the term, where it fits the machine's range.
    pub fn checked_len(&self) -> (r: Option<usize>)
        ensures
            match r {
                Some(n) => n == self.size(),
                None => self.size() > usize::MAX,
            },
        decreases self,
    {
        match &*self.body {
            Body::Var(_) => Some(1),
            Body::App(m, n) => {
                let a = match m.checked_len() {
                    Some(a) => a,
                    None => {
                        return None;
                    },
                };
                let b = match n.checked_len() {
                    Some(b) => b,
                    None => {
                        return None;
                    },
                };
                match a.checked_add(b) {
                    Some(c) => c.checked_add(1),
                    None => None,
                }
            },
            Body::Abs(_, m) => match m.checked_len() {
                Some(a) => a.checked_add(1),
                None => None,
            },
        }
    }

    /// The number of nodes of the term, or the largest number of the
    /// machine's range where the term has more.
    pub fn len(&self) -> (n: usize)
        ensures
            n == if self.size() <= usize::MAX {
                self.size()
            } else {
                usize::MAX as nat
            },
    {
        match self.checked_len() {
            Some(n) => n,
            None => usize::MAX,
        }
    }

    /// Whether the term is an abstraction.
    pub fn is_abs(&self) -> (r: bool)
        ensures
            r == (*self.body is Abs),
    {
        match &*self.body {
            Body::Abs(_, _) => true,
            _ => false,
        }
    }

    /// The variables that some abstraction of the term binds.
    pub fn bounded_vars(&self) -> (bounds: HashSet<VarId>)
        ensures
            bounds@ == self.bv(),
    {
        let mut bounds: HashSet<VarId> = HashSet::new();
        self.bounded_vars_from(&mut bounds);
        assert(bounds@ =~= self.bv());
        bounds
    }

    /// Takes the term out of `slot`, leaving a single variable there.
    pub(crate) fn take(slot: &mut Term) -> (t: Term)
        ensures
            t == *old(slot),
            final(slot).wf(),
    {
        let mut t = Term { body: Box::new(Body::Var(0)), closed: false };
        core::mem::swap(slot, &mut t);
        t
    }

    /// The same tree with every flag set exactly.
    pub(crate) fn marked(self) -> (r: Term)
        ensures
            r.flags_exact(),
            r.wf(),
            r.same_tree(self),
        decreases self,
    {
        let Term { body, closed: _ } = self;
        let r = match *body {
            Body::Var(v) => Term { body: Box::new(Body::Var(v)), closed: false },
            Body::App(m, n) => {
                let m2 = m.marked();
                let n2 = n.marked();
                let closed = m2.closed && n2.closed;
                Term { body: Box::new(Body::App(m2, n2)), closed }
            },
            Body::Abs(v, m) => {
                let m2 = m.marked();
                let below = m2.closed;
                let mut t = Term { body: Box::new(Body::Abs(v, m2)), closed: false };
                if below {
                    t.closed = true;
                } else {
                    proof {
                        m2.exact_is_wf();
                    }
                    let frees = t.free_vars();
                    t.closed = frees.is_empty();
                    assert(t.closed == (t.fv() =~= Set::<VarId>::empty()));
                }
                t
            },
        };
        proof {
            r.emptiness_from_children();
            r.exact_is_wf();
        }
        r
    }

    /// Sets the flag of every node: after the call a node is marked closed
    /// exactly when no variable occurs free below it. The tree itself is
    /// left as it was.
    pub fn update_closed(&mut self)
        ensures
            final(self).flags_exact(),
            final(self).wf(),
            final(self).same_tree(*old(self)),
    {
        let t = Term::take(self);
        *self = t.marked();
    }

    /// Whether a variable occurs free in a term, read from the same question
    /// asked of its children.
    pub proof fn emptiness_from_children(self)
        ensures
            match *self.body {
                Body::Var(_) => self.fv() != Set::<VarId>::empty(),
                Body::App(m, n) => (self.fv() == Set::<VarId>::empty()) == (m.fv() == Set::<
                    VarId,
                >::empty() && n.fv() == Set::<VarId>::empty()),
                Body::Abs(_, m) => m.fv() == Set::<VarId>::empty() ==> self.fv() == Set::<
                    VarId,
                >::empty(),
            },
    {
        match *self.body {
            Body::Var(v) => {
                assert(self.fv().contains(v));
            },
            Body::App(m, n) => {
                if m.fv() == Set::<VarId>::empty() && n.fv() == Set::<VarId>::empty() {
                    assert(self.fv() =~= Set::<VarId>::empty());
                } else if m.fv() != Set::<VarId>::empty() {
                    assert(!(m.fv() =~= Set::<VarId>::empty()));
                    let v = choose|v: VarId| m.fv().contains(v);
                    assert(self.fv().contains(v));
                } else {
                    assert(!(n.fv() =~= Set::<VarId>::empty()));
                    let v = choose|v: VarId| n.fv().contains(v);
                    assert(self.fv().contains(v));
                }
            },
            Body::Abs(_, m) => {
                if m.fv() == Set::<VarId>::empty() {
                    assert(self.fv() =~= Set::<VarId>::empty());
                }
            },
        }
    }

    /// Every term is the same tree as itself.
    pub proof fn same_tree_reflexive(self)
        ensures
            self.same_tree(self),
        decreases self,
    {
        match *self.body {
            Body::Var(_) => {},
            Body::App(m, n) => {
                m.same_tree_reflexive();
                n.same_tree_reflexive();
            },
            Body::Abs(_, m) => {
                m.same_tree_reflexive();
            },
        }
    }

    /// Being the same tree does not depend on the order of the two terms.
    pub proof fn same_tree_symmetric(self, other: Term)
        requires
            self.same_tree(other),
        ensures
            other.same_tree(self),
        decreases self,
    {
        match (*self.body, *other.body) {
            (Body::App(m, n), Body::App(p, q)) => {
                m.same_tree_symmetric(p);
                n.same_tree_symmetric(q);
            },
            (Body::Abs(_, m), Body::Abs(_, p)) => {
                m.same_tree_symmetric(p);
            },
            _ => {},
        }
    }

    /// Terms that are the same tree have the same free and bound variables.
    pub proof fn same_tree_fv(self, other: Term)
        requires
            self.same_tree(other),
        ensures
            self.fv() == other.fv(),
            self.bv() == other.bv(),
            self.size() == other.size(),
        decreases self,
    {
        match (*self.body, *other.body) {
            (Body::App(m, n), Body::App(p, q)) => {
                m.same_tree_fv(p);
                n.same_tree_fv(q);
            },
            (Body::Abs(v, m), Body::Abs(w, p)) => {
                m.same_tree_fv(p);
            },
            _ => {},
        }
    }
}

impl Clone for Body {
    fn clone(&self) -> (r: Self)
        ensures
            r == *self,
        decreases *self,
    {
        match self {
            Body::Var(v) => Body::Var(*v),
            Body::App(m, n) => Body::App(m.clone(), n.clone()),
            Body::Abs(v, m) => Body::Abs(*v, m.clone()),
        }
    }
}

impl Clone for Term {
    fn clone(&self) -> (r: Self)
        ensures
            r == *self,
        decreases *self,
    {
        let body: &Body = &*self.body;
        Term { body: Box::new(body.clone()), closed: self.closed }
    }
}

impl Body {
    /// The terms directly below this shape are well formed.
    pub open spec fn wf(self) -> bool {
        match self {
            Body::Var(_) => true,
            Body::App(m, n) => m.wf() && n.wf(),
            Body::Abs(_, m) => m.wf(),
        }
    }
}

} // verus!
