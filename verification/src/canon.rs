//! Renaming of bound variables: the canonical numbering that gives every
//! class of alpha-equivalent terms one representative, and the renaming
//! that moves the binders of a term away from the free variables of
//! another.

use vstd::prelude::*;
use vstd::std_specs::hash::*;
use std::collections::HashSet;
use crate::alpha::{alpha_equiv, lookup, same_tree_same_nameless};
use crate::nameless::{index_of, index_of_bounds, index_of_push, names_of_view, Nameless};
use crate::term::{Body, Term, VarId};

verus! {

broadcast use vstd::std_specs::hash::group_hash_axioms;

/// `v` is the least identifier from `from` on that `avoid` does not hold.
pub open spec fn least_free(avoid: Set<VarId>, from: int, v: VarId) -> bool {
    &&& from <= v
    &&& !avoid.contains(v)
    &&& forall|m: VarId| from <= m < v ==> avoid.contains(m)
}

/// The members of `avoid` from `n` on.
pub open spec fn above(avoid: Set<VarId>, n: int) -> Set<VarId> {
    Set::new(|x: VarId| avoid.contains(x) && x >= n)
}

proof fn above_step(avoid: Set<VarId>, n: VarId)
    requires
        avoid.finite(),
    ensures
        above(avoid, n as int).finite(),
        above(avoid, n + 1).finite(),
        above(avoid, n as int).len() == above(avoid, n + 1).len() + if avoid.contains(n) {
            1nat
        } else {
            0nat
        },
{
    vstd::set_lib::lemma_len_subset(above(avoid, n as int), avoid);
    vstd::set_lib::lemma_len_subset(above(avoid, n + 1), avoid);
    if avoid.contains(n) {
        assert(above(avoid, n as int) =~= above(avoid, n + 1).insert(n));
    } else {
        assert(above(avoid, n as int) =~= above(avoid, n + 1));
    }
}

impl Term {
    /// The deepest nesting of abstractions in the term.
    pub open spec fn abs_depth(self) -> nat
        decreases self,
    {
        match *self.body {
            Body::Var(_) => 0,
            Body::App(m, n) => if m.abs_depth() >= n.abs_depth() {
                m.abs_depth()
            } else {
                n.abs_depth()
            },
            Body::Abs(_, m) => 1 + m.abs_depth(),
        }
    }

    /// The binders are numbered by depth: each abstraction binds the least
    /// identifier that is past the one bound around it and not in `avoid`.
    pub open spec fn canonical_from(self, avoid: Set<VarId>, next: int) -> bool
        decreases self,
    {
        match *self.body {
            Body::Var(_) => true,
            Body::App(m, n) => m.canonical_from(avoid, next) && n.canonical_from(avoid, next),
            Body::Abs(v, m) => least_free(avoid, next, v) && m.canonical_from(avoid, v + 1),
        }
    }

    /// The term is the representative of its alpha-equivalence class: its
    /// binders are numbered by depth from 0, passing over the identifiers of
    /// its free variables.
    pub open spec fn is_canonical(self) -> bool {
        self.canonical_from(self.fv(), 0)
    }

    /// No abstraction of the term binds a member of `avoid`, except below a
    /// node that is marked closed.
    pub open spec fn clear_of(self, avoid: Set<VarId>) -> bool
        decreases self,
    {
        self.closed || match *self.body {
            Body::Var(_) => true,
            Body::App(m, n) => m.clear_of(avoid) && n.clear_of(avoid),
            Body::Abs(v, m) => !avoid.contains(v) && m.clear_of(avoid),
        }
    }

    /// A term has no more free variables and nested binders than nodes.
    pub proof fn fv_and_depth_within_size(self)
        ensures
            self.fv().finite(),
            self.fv().len() + self.abs_depth() <= self.size(),
        decreases self,
    {
        self.fv_finite();
        match *self.body {
            Body::Var(v) => {
                assert(self.fv() =~= Set::<VarId>::empty().insert(v));
            },
            Body::App(m, n) => {
                m.fv_and_depth_within_size();
                n.fv_and_depth_within_size();
                vstd::set_lib::lemma_len_union(m.fv(), n.fv());
            },
            Body::Abs(v, m) => {
                m.fv_and_depth_within_size();
                vstd::set_lib::lemma_len_subset(self.fv(), m.fv());
            },
        }
    }

    /// Being clear of a set is being clear of each of its subsets.
    pub proof fn clear_of_subset(self, big: Set<VarId>, small: Set<VarId>)
        requires
            self.clear_of(big),
            small.subset_of(big),
        ensures
            self.clear_of(small),
        decreases self,
    {
        if !self.closed {
            match *self.body {
                Body::Var(_) => {},
                Body::App(m, n) => {
                    m.clear_of_subset(big, small);
                    n.clear_of_subset(big, small);
                },
                Body::Abs(_, m) => {
                    m.clear_of_subset(big, small);
                },
            }
        }
    }

    /// Whether the term is clear of `avoid`.
    pub fn is_clear_of(&self, avoid: &HashSet<VarId>) -> (r: bool)
        ensures
            r == self.clear_of(avoid@),
        decreases self,
    {
        if self.closed {
            return true;
        }
        match &*self.body {
            Body::Var(_) => true,
            Body::App(m, n) => m.is_clear_of(avoid) && n.is_clear_of(avoid),
            Body::Abs(v, m) => !avoid.contains(v) && m.is_clear_of(avoid),
        }
    }
}

/// The index of a variable in two stacks put end to end is its index in the
/// upper one, or past all of the upper one.
pub proof fn index_of_concat(lower: Seq<VarId>, upper: Seq<VarId>, v: VarId)
    ensures
        index_of(lower + upper, v) == match index_of(upper, v) {
            Some(i) => Some(i),
            None => match index_of(lower, v) {
                Some(i) => Some(i + upper.len()),
                None => None,
            },
        },
    decreases upper.len(),
{
    if upper.len() == 0 {
        assert(lower + upper =~= lower);
    } else {
        assert((lower + upper).drop_last() =~= lower + upper.drop_last());
        assert((lower + upper).last() == upper.last());
        index_of_concat(lower, upper.drop_last(), v);
    }
}

/// In a stack whose entries grow strictly, each entry is found where it
/// stands.
pub proof fn index_of_increasing(s: Seq<VarId>, p: int)
    requires
        0 <= p < s.len(),
        forall|i: int, j: int| 0 <= i < j < s.len() ==> s[i] < s[j],
    ensures
        index_of(s, s[p]) == Some(s.len() - 1 - p),
    decreases s.len(),
{
    if p < s.len() - 1 {
        assert(s.last() == s[s.len() - 1]);
        assert(s.drop_last()[p] == s[p]);
        index_of_increasing(s.drop_last(), p);
    }
}

/// The nameless form of a term depends on the binder stack only through
/// the indices of the term's free variables.
pub proof fn nameless_agrees(t: Term, e1: Seq<VarId>, e2: Seq<VarId>)
    requires
        forall|v: VarId| t.fv().contains(v) ==> index_of(e1, v) == index_of(e2, v),
    ensures
        t.nameless_in(e1) == t.nameless_in(e2),
    decreases t,
{
    match *t.body {
        Body::Var(v) => {
            assert(t.fv().contains(v));
        },
        Body::App(m, n) => {
            nameless_agrees(m, e1, e2);
            nameless_agrees(n, e1, e2);
        },
        Body::Abs(y, m) => {
            assert forall|v: VarId| m.fv().contains(v) implies index_of(e1.push(y), v)
                == index_of(e2.push(y), v) by {
                index_of_push(e1, y, v);
                index_of_push(e2, y, v);
                if v != y {
                    assert(t.fv().contains(v));
                }
            }
            nameless_agrees(m, e1.push(y), e2.push(y));
        },
    }
}

/// Terms that are the same tree are numbered alike.
pub proof fn same_tree_canonical(a: Term, b: Term, avoid: Set<VarId>, next: int)
    requires
        a.same_tree(b),
        a.canonical_from(avoid, next),
    ensures
        b.canonical_from(avoid, next),
    decreases a,
{
    match (*a.body, *b.body) {
        (Body::App(m, n), Body::App(p, q)) => {
            same_tree_canonical(m, p, avoid, next);
            same_tree_canonical(n, q, avoid, next);
        },
        (Body::Abs(v, m), Body::Abs(w, p)) => {
            same_tree_canonical(m, p, avoid, v + 1);
        },
        _ => {},
    }
}

/// `t` with its binders renamed by depth, from `next` on and outside
/// `avoid`. `olds` holds the binders passed on the way down and `news` the
/// names given to them. Where `thorough` is not set, what lies below a node
/// marked closed is left alone.
fn renamed(
    t: Term,
    avoid: &HashSet<VarId>,
    olds: &mut Vec<VarId>,
    news: &mut Vec<VarId>,
    next: usize,
    thorough: bool,
    Ghost(ctx): Ghost<Seq<VarId>>,
) -> (r: Term)
    requires
        t.wf(),
        avoid@.finite(),
        old(olds).len() == old(news).len(),
        forall|v: VarId| t.fv().contains(v) && !old(olds)@.contains(v) ==> avoid@.contains(v),
        forall|i: int| 0 <= i < old(news).len() ==> old(news)[i] < next && !avoid@.contains(#[trigger] old(news)[i]),
        forall|i: int, j: int| 0 <= i < j < old(news).len() ==> old(news)[i] < old(news)[j],
        next + t.abs_depth() + above(avoid@, next as int).len() <= usize::MAX,
    ensures
        final(olds)@ == old(olds)@,
        final(news)@ == old(news)@,
        r.nameless_in(ctx + old(news)@) == t.nameless_in(ctx + old(olds)@),
        r.wf(),
        r.size() == t.size(),
        r.clear_of(avoid@),
        thorough ==> r.canonical_from(avoid@, next as int),
        forall|v: VarId|
            (#[trigger] r.fv().contains(v)) ==> (t.fv().contains(v) && !old(olds)@.contains(v))
                || old(news)@.contains(v),
    decreases t,
{
    if t.closed && !thorough {
        proof {
            nameless_agrees(t, ctx + news@, ctx + olds@);
        }
        return t;
    }
    let Term { body, closed: _ } = t;
    match *body {
        Body::Var(v) => {
            let nv = match lookup(olds, v) {
                Some(i) => news[news.len() - 1 - i],
                None => v,
            };
            let r = Term { body: Box::new(Body::Var(nv)), closed: false };
            proof {
                index_of_concat(ctx, olds@, v);
                index_of_concat(ctx, news@, nv);
                match index_of(olds@, v) {
                    Some(i) => {
                        index_of_increasing(news@, news.len() - 1 - i);
                        assert(news@.contains(nv));
                    },
                    None => {
                        assert(t.fv().contains(v));
                        index_of_bounds(news@, v);
                        if index_of(news@, v) is Some {
                            let k = index_of(news@, v)->0;
                            assert(news[news.len() - 1 - k] == v);
                        }
                    },
                }
                assert forall|w: VarId| (#[trigger] r.fv().contains(w)) implies (t.fv().contains(
                    w,
                ) && !old(olds)@.contains(w)) || old(news)@.contains(w) by {
                    assert(w == nv);
                }
            }
            r
        },
        Body::App(m, n) => {
            let m2 = renamed(m, avoid, olds, news, next, thorough, Ghost(ctx));
            let n2 = renamed(n, avoid, olds, news, next, thorough, Ghost(ctx));
            let r = Term { body: Box::new(Body::App(m2, n2)), closed: false };
            proof {
                r.emptiness_not_claimed();
                assert forall|w: VarId| (#[trigger] r.fv().contains(w)) implies (t.fv().contains(
                    w,
                ) && !old(olds)@.contains(w)) || old(news)@.contains(w) by {
                    assert(m2.fv().contains(w) || n2.fv().contains(w));
                }
            }
            r
        },
        Body::Abs(y, m) => {
            let mut nv = next;
            while avoid.contains(&nv)
                invariant
                    next <= nv,
                    avoid@.finite(),
                    forall|k: VarId| next <= k < nv ==> avoid@.contains(k),
                    nv + t.abs_depth() + above(avoid@, nv as int).len() <= usize::MAX,
                    t.abs_depth() >= 1,
                decreases above(avoid@, nv as int).len(),
            {
                proof {
                    above_step(avoid@, nv);
                }
                nv = nv + 1;
            }
            proof {
                above_step(avoid@, nv);
                assert forall|v: VarId| m.fv().contains(v) && !olds@.push(y).contains(
                    v,
                ) implies avoid@.contains(v) by {
                    assert(olds@.push(y)[olds.len() as int] == y);
                    assert(t.fv().contains(v));
                    if olds@.contains(v) {
                        let k = choose|k: int| 0 <= k < olds.len() && olds[k] == v;
                        assert(olds@.push(y)[k] == v);
                    }
                }
            }
            olds.push(y);
            news.push(nv);
            let m2 = renamed(m, avoid, olds, news, nv + 1, thorough, Ghost(ctx));
            olds.pop();
            news.pop();
            let r = Term { body: Box::new(Body::Abs(nv, m2)), closed: false };
            proof {
                assert(olds@ =~= old(olds)@);
                assert(news@ =~= old(news)@);
                assert((ctx + old(news)@).push(nv) =~= ctx + old(news)@.push(nv));
                assert((ctx + old(olds)@).push(y) =~= ctx + old(olds)@.push(y));
                assert forall|v: VarId| (#[trigger] r.fv().contains(v)) implies (t.fv().contains(
                    v,
                ) && !old(olds)@.contains(v)) || old(news)@.contains(v) by {
                    assert(m2.fv().contains(v));
                    if old(news)@.push(nv).contains(v) {
                        let k = choose|k: int|
                            0 <= k < old(news)@.push(nv).len() && old(news)@.push(nv)[k] == v;
                        assert(old(news)@[k] == v);
                    } else {
                        assert(old(olds)@.push(y)[old(olds)@.len() as int] == y);
                        if old(olds)@.contains(v) {
                            let k = choose|k: int| 0 <= k < old(olds)@.len() && old(olds)@[k] == v;
                            assert(old(olds)@.push(y)[k] == v);
                        }
                    }
                }
            }
            r
        },
    }
}

/// Two terms numbered alike that have the same nameless form are the same
/// tree.
pub proof fn canonical_same_tree(a: Term, b: Term, avoid: Set<VarId>, next: int, env: Seq<VarId>)
    requires
        a.canonical_from(avoid, next),
        b.canonical_from(avoid, next),
        a.nameless_in(env) == b.nameless_in(env),
    ensures
        a.same_tree(b),
    decreases a,
{
    match (*a.body, *b.body) {
        (Body::Var(v), Body::Var(w)) => {
            index_of_bounds(env, v);
            index_of_bounds(env, w);
        },
        (Body::App(m, n), Body::App(p, q)) => {
            canonical_same_tree(m, p, avoid, next, env);
            canonical_same_tree(n, q, avoid, next, env);
        },
        (Body::Abs(v, m), Body::Abs(w, p)) => {
            assert(v == w);
            canonical_same_tree(m, p, avoid, v + 1, env.push(v));
        },
        (Body::Var(v), _) => {
            index_of_bounds(env, v);
        },
        (_, Body::Var(w)) => {
            index_of_bounds(env, w);
        },
        _ => {},
    }
}

/// Canonical forms decide alpha-equivalence: where `ca` is the canonical
/// term of the class of `a` and `cb` that of the class of `b`, `a` and `b`
/// are alpha-equivalent exactly when `ca` and `cb` are the same tree.
pub proof fn canonical_forms_decide_alpha(a: Term, b: Term, ca: Term, cb: Term)
    requires
        alpha_equiv(ca, a),
        ca.is_canonical(),
        alpha_equiv(cb, b),
        cb.is_canonical(),
    ensures
        alpha_equiv(a, b) <==> ca.same_tree(cb),
{
    if ca.same_tree(cb) {
        same_tree_same_nameless(ca, cb, Seq::empty());
    }
    if alpha_equiv(a, b) {
        names_of_view(ca);
        names_of_view(cb);
        canonical_same_tree(ca, cb, ca.fv(), 0, Seq::empty());
    }
}

impl Term {
    /// Renames every bound variable by its depth: the outermost binders get
    /// the least identifier that is not free in the term, those below them
    /// the next one, and so on. The result is the one canonical term of the
    /// alpha-equivalence class, with every flag set exactly.
    pub fn unique_alpha_redex(&mut self)
        requires
            old(self).wf(),
            old(self).size() <= usize::MAX,
        ensures
            alpha_equiv(*final(self), *old(self)),
            final(self).is_canonical(),
            final(self).flags_exact(),
            final(self).wf(),
            final(self).size() == old(self).size(),
    {
        let t = Term::take(self);
        let avoid = t.free_vars();
        let mut olds: Vec<VarId> = Vec::new();
        let mut news: Vec<VarId> = Vec::new();
        proof {
            t.fv_and_depth_within_size();
            vstd::set_lib::lemma_len_subset(above(avoid@, 0), avoid@);
            assert(Seq::<VarId>::empty() + olds@ =~= Seq::empty());
            assert(Seq::<VarId>::empty() + news@ =~= Seq::empty());
        }
        let r = renamed(t, &avoid, &mut olds, &mut news, 0, true, Ghost(Seq::empty()));
        let r2 = r.marked();
        proof {
            same_tree_same_nameless(r2, r, Seq::empty());
            r2.same_tree_symmetric(r);
            same_tree_canonical(r, r2, avoid@, 0);
            r2.same_tree_fv(r);
            names_of_view(r);
            names_of_view(t);
        }
        *self = r2;
    }

    /// The canonical renaming of the bound variables by depth; another name
    /// of [`Term::unique_alpha_redex`].
    pub fn debrejin_redex(&mut self)
        requires
            old(self).wf(),
            old(self).size() <= usize::MAX,
        ensures
            alpha_equiv(*final(self), *old(self)),
            final(self).is_canonical(),
            final(self).flags_exact(),
            final(self).wf(),
            final(self).size() == old(self).size(),
    {
        self.unique_alpha_redex();
    }

    /// The canonical term of the alpha-equivalence class of `self`.
    pub fn debrejin_reduced(self) -> (r: Term)
        requires
            self.wf(),
            self.size() <= usize::MAX,
        ensures
            alpha_equiv(r, self),
            r.is_canonical(),
            r.flags_exact(),
            r.wf(),
            r.size() == self.size(),
    {
        let mut t = self;
        t.unique_alpha_redex();
        t
    }

    /// Whether the term is the representative of its class. A term with
    /// more nodes than the machine can count is not looked at, and the
    /// answer for it is no.
    pub fn is_canonical_form(&self) -> (r: bool)
        ensures
            r ==> self.is_canonical(),
            self.is_canonical() && self.size() <= usize::MAX ==> r,
    {
        if self.checked_len().is_none() {
            return false;
        }
        let mut t = self.clone();
        t.update_closed();
        proof {
            t.same_tree_fv(*self);
            same_tree_same_nameless(t, *self, Seq::empty());
        }
        let c = t.debrejin_reduced();
        let r = c.same(self);
        proof {
            if r {
                c.same_tree_fv(*self);
                same_tree_canonical(c, *self, c.fv(), 0);
            }
            if self.is_canonical() {
                names_of_view(c);
                names_of_view(*self);
                canonical_same_tree(c, *self, c.fv(), 0, Seq::empty());
            }
        }
        r
    }

    /// `r` is `self` made safe for a substitution that brings in the
    /// variables `avoid`: below the binders `env` the two have one nameless
    /// form, the flags of `r` tell the truth, and no binder of `r` that a
    /// substitution passes binds a member of `avoid`. A term that is clear
    /// of `avoid` already is itself; in any other the binders of `r` are
    /// clear of the free variables of `self` as well.
    pub open spec fn made_safe(self, r: Term, avoid: Set<VarId>, env: Seq<VarId>) -> bool {
        &&& r.nameless_in(env) == self.nameless_in(env)
        &&& r.wf()
        &&& r.clear_of(avoid)
        &&& self.clear_of(avoid) ==> r == self
        &&& !self.clear_of(avoid) ==> r.clear_of(avoid.union(self.fv()))
    }

    /// Moves the binders of `self` away from the free variables of `val`,
    /// below the binders `ctx`: where `self` is not clear of them, its
    /// binders are renamed by depth outside the free variables of both.
    pub(crate) fn fix_captures_in(&mut self, val: &Term, Ghost(ctx): Ghost<Seq<VarId>>)
        requires
            old(self).wf(),
            val.wf(),
            old(self).size() + val.size() <= usize::MAX,
        ensures
            final(self).nameless_in(ctx) == old(self).nameless_in(ctx),
            final(self).clear_of(val.fv()),
            old(self).clear_of(val.fv()) ==> *final(self) == *old(self),
            !old(self).clear_of(val.fv()) ==> final(self).clear_of(
                val.fv().union(old(self).fv()),
            ),
            old(self).made_safe(*final(self), val.fv(), ctx),
            final(self).wf(),
            final(self).size() == old(self).size(),
            final(self).fv().subset_of(old(self).fv()),
    {
        let mut avoid = val.free_vars();
        if self.is_clear_of(&avoid) {
            return ;
        }
        let mut bound: HashSet<VarId> = HashSet::new();
        self.free_vars_from(&mut bound, &mut avoid);
        let t = Term::take(self);
        let mut olds: Vec<VarId> = Vec::new();
        let mut news: Vec<VarId> = Vec::new();
        proof {
            t.fv_and_depth_within_size();
            val.fv_and_depth_within_size();
            assert(avoid@ =~= val.fv().union(t.fv()));
            vstd::set_lib::lemma_len_union(val.fv(), t.fv());
            vstd::set_lib::lemma_len_subset(above(avoid@, 0), avoid@);
            assert(ctx + olds@ =~= ctx);
            assert(ctx + news@ =~= ctx);
        }
        let r = renamed(t, &avoid, &mut olds, &mut news, 0, false, Ghost(ctx));
        proof {
            r.clear_of_subset(avoid@, val.fv());
        }
        *self = r;
    }

    /// Makes `self` safe to substitute `val` into: after the call no
    /// abstraction that a substitution would pass binds a free variable of
    /// `val`, and `self` is still in its alpha-equivalence class. A term
    /// that is safe already is left as it is; in any other the binders are
    /// renamed by depth, to identifiers that are free neither in `val` nor
    /// in `self`.
    pub fn safe_context_check(&mut self, val: &Term)
        requires
            old(self).wf(),
            val.wf(),
            old(self).size() + val.size() <= usize::MAX,
        ensures
            alpha_equiv(*final(self), *old(self)),
            final(self).clear_of(val.fv()),
            old(self).clear_of(val.fv()) ==> *final(self) == *old(self),
            !old(self).clear_of(val.fv()) ==> final(self).clear_of(
                val.fv().union(old(self).fv()),
            ),
            final(self).wf(),
            final(self).size() == old(self).size(),
            final(self).fv() == old(self).fv(),
    {
        self.fix_captures_in(val, Ghost(Seq::empty()));
        proof {
            names_of_view(*self);
            names_of_view(*old(self));
        }
    }

    /// A node whose flag is not set claims nothing.
    pub proof fn emptiness_not_claimed(self)
        requires
            !self.closed,
            match *self.body {
                Body::Var(_) => true,
                Body::App(m, n) => m.wf() && n.wf(),
                Body::Abs(_, m) => m.wf(),
            },
        ensures
            self.wf(),
    {
    }
}

} // verus!
