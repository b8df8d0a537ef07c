//! Equality of terms up to the names of their bound variables.

use vstd::prelude::*;
use crate::nameless::{index_of, index_of_bounds, index_of_push, Nameless};
use crate::term::{Body, Term, VarId};

verus! {

/// Two terms are alpha-equivalent when they have the same nameless form:
/// each variable is bound at the same place in both, or free in both under
/// the same identifier.
pub open spec fn alpha_equiv(a: Term, b: Term) -> bool {
    a@ == b@
}

/// Every term is alpha-equivalent to itself.
pub proof fn alpha_equiv_reflexive(t: Term)
    ensures
        alpha_equiv(t, t),
{
}

/// Alpha-equivalence does not depend on the order of the two terms.
pub proof fn alpha_equiv_symmetric(a: Term, b: Term)
    requires
        alpha_equiv(a, b),
    ensures
        alpha_equiv(b, a),
{
}

/// Two terms that are both alpha-equivalent to a third are alpha-equivalent.
pub proof fn alpha_equiv_transitive(a: Term, b: Term, c: Term)
    requires
        alpha_equiv(a, b),
        alpha_equiv(b, c),
    ensures
        alpha_equiv(a, c),
{
}

/// Terms that are the same tree have the same nameless form under every
/// binder stack.
pub proof fn same_tree_same_nameless(a: Term, b: Term, env: Seq<VarId>)
    requires
        a.same_tree(b),
    ensures
        a.nameless_in(env) == b.nameless_in(env),
    decreases a,
{
    match (*a.body, *b.body) {
        (Body::App(m, n), Body::App(p, q)) => {
            same_tree_same_nameless(m, p, env);
            same_tree_same_nameless(n, q, env);
        },
        (Body::Abs(v, m), Body::Abs(w, p)) => {
            same_tree_same_nameless(m, p, env.push(v));
        },
        _ => {},
    }
}

/// The index of `v` in the binder stack, counted from the top.
pub(crate) fn lookup(env: &Vec<VarId>, v: VarId) -> (r: Option<usize>)
    ensures
        match r {
            Some(i) => index_of(env@, v) == Some(i as int) && i < env.len() && env[env.len() - 1
                - i] == v,
            None => index_of(env@, v) is None && !env@.contains(v),
        },
{
    let n = env.len();
    let mut i: usize = n;
    proof {
        assert(env@.subrange(0, n as int) =~= env@);
        index_of_bounds(env@, v);
    }
    while i > 0
        invariant
            i <= n,
            n == env.len(),
            index_of(env@, v) == match index_of(env@.subrange(0, i as int), v) {
                Some(k) => Some(k + (n - i)),
                None => None,
            },
            index_of(env@, v) is None ==> !env@.contains(v),
        decreases i,
    {
        let ghost rest = env@.subrange(0, i as int);
        assert(rest.last() == env[i - 1]);
        assert(rest.drop_last() =~= env@.subrange(0, i - 1));
        if env[i - 1] == v {
            return Some(n - i);
        }
        i = i - 1;
    }
    None
}

fn alpha_eq_in(a: &Term, b: &Term, ea: &mut Vec<VarId>, eb: &mut Vec<VarId>) -> (r: bool)
    ensures
        r == (a.nameless_in(old(ea)@) == b.nameless_in(old(eb)@)),
        final(ea)@ == old(ea)@,
        final(eb)@ == old(eb)@,
    decreases a,
{
    match (&*a.body, &*b.body) {
        (Body::Var(v), Body::Var(w)) => {
            let i = lookup(ea, *v);
            let j = lookup(eb, *w);
            match (i, j) {
                (Some(i), Some(j)) => i == j,
                (None, None) => *v == *w,
                _ => false,
            }
        },
        (Body::App(m, n), Body::App(p, q)) => {
            if alpha_eq_in(m, p, ea, eb) {
                alpha_eq_in(n, q, ea, eb)
            } else {
                false
            }
        },
        (Body::Abs(v, m), Body::Abs(w, p)) => {
            ea.push(*v);
            eb.push(*w);
            let r = alpha_eq_in(m, p, ea, eb);
            ea.pop();
            eb.pop();
            assert(ea@ =~= old(ea)@);
            assert(eb@ =~= old(eb)@);
            r
        },
        _ => false,
    }
}

/// The least number that every variable of `t` that `stack` does not hold is
/// less than.
fn free_bound_in(t: &Term, stack: &mut Vec<VarId>) -> (r: Option<usize>)
    ensures
        final(stack)@ == old(stack)@,
        match r {
            Some(b) => {
                &&& forall|v: VarId|
                    (#[trigger] t.fv().contains(v)) && !old(stack)@.contains(v) ==> v < b
                &&& b > 0 ==> t.fv().contains((b - 1) as usize) && !old(stack)@.contains(
                    (b - 1) as usize,
                )
            },
            None => t.fv().contains(usize::MAX) && !old(stack)@.contains(usize::MAX),
        },
    decreases t,
{
    match &*t.body {
        Body::Var(v) => {
            if lookup(stack, *v).is_some() {
                Some(0)
            } else {
                v.checked_add(1)
            }
        },
        Body::App(m, n) => {
            let a = match free_bound_in(m, stack) {
                Some(a) => a,
                None => {
                    return None;
                },
            };
            let b = match free_bound_in(n, stack) {
                Some(b) => b,
                None => {
                    return None;
                },
            };
            assert forall|v: VarId| (#[trigger] t.fv().contains(v)) && !old(stack)@.contains(
                v,
            ) implies v < a || v < b by {
                assert(m.fv().contains(v) || n.fv().contains(v));
            }
            if a >= b {
                Some(a)
            } else {
                Some(b)
            }
        },
        Body::Abs(y, m) => {
            stack.push(*y);
            let r = free_bound_in(m, stack);
            stack.pop();
            proof {
                assert(stack@ =~= old(stack)@);
                let pushed = old(stack)@.push(*y);
                assert(pushed[old(stack)@.len() as int] == *y);
                assert forall|v: VarId| pushed.contains(v) <==> (v == *y || old(stack)@.contains(
                    v,
                )) by {
                    if old(stack)@.contains(v) {
                        let k = choose|k: int| 0 <= k < old(stack)@.len() && old(stack)@[k] == v;
                        assert(pushed[k] == v);
                    }
                }
                match r {
                    Some(b) => {
                        assert forall|v: VarId| (#[trigger] t.fv().contains(v)) && !old(
                            stack,
                        )@.contains(v) implies v < b by {
                            assert(m.fv().contains(v));
                        }
                    },
                    None => {},
                }
            }
            r
        },
    }
}

impl Term {
    /// Every free variable of the term is less than `bound`.
    pub open spec fn free_below(self, bound: int) -> bool {
        forall|v: VarId| (#[trigger] self.fv().contains(v)) ==> v < bound
    }

    /// The least number that every free variable of the term is less than;
    /// `None` where the greatest identifier there is occurs free.
    pub fn free_bound(&self) -> (r: Option<usize>)
        ensures
            match r {
                Some(b) => self.free_below(b as int) && forall|c: int|
                    0 <= c && self.free_below(c) ==> b <= c,
                None => !self.free_below(usize::MAX as int),
            },
    {
        let mut stack: Vec<VarId> = Vec::new();
        let r = free_bound_in(self, &mut stack);
        proof {
            match r {
                Some(b) => {
                    assert forall|c: int| 0 <= c && self.free_below(c) implies b <= c by {
                        if b > 0 {
                            assert(self.fv().contains((b - 1) as usize));
                        }
                    }
                },
                None => {
                    assert(self.fv().contains(usize::MAX));
                },
            }
        }
        r
    }

    /// Whether every flag of the term that is set tells the truth.
    pub fn is_wf(&self) -> (r: bool)
        ensures
            r == self.wf(),
        decreases *self,
    {
        let below = match &*self.body {
            Body::Var(_) => true,
            Body::App(m, n) => m.is_wf() && n.is_wf(),
            Body::Abs(_, m) => m.is_wf(),
        };
        if !below {
            return false;
        }
        if !self.closed {
            return true;
        }
        match self.free_bound() {
            Some(b) => {
                proof {
                    if b == 0 {
                        assert(self.fv() =~= Set::<VarId>::empty());
                    } else {
                        assert(!self.free_below(0));
                    }
                }
                b == 0
            },
            None => false,
        }
    }

    /// Whether the two terms are alpha-equivalent.
    pub fn alpha_eq(&self, other: &Term) -> (r: bool)
        ensures
            r == alpha_equiv(*self, *other),
    {
        let mut ea: Vec<VarId> = Vec::new();
        let mut eb: Vec<VarId> = Vec::new();
        assert(ea@ =~= Seq::empty());
        assert(eb@ =~= Seq::empty());
        alpha_eq_in(self, other, &mut ea, &mut eb)
    }
}

} // verus!
