//! Reductions that come back to a term they have been at.

use vstd::prelude::*;
use crate::alpha::same_tree_same_nameless;
use crate::beta::BetaOrder;
use crate::canon::canonical_forms_decide_alpha;
use crate::nameless::{nodes_of_nameless, Nameless};
use crate::term::Term;

verus! {

impl Nameless {
    /// After `k` steps the term is what it was after fewer steps, one at
    /// least.
    pub open spec fn comes_again(self, order: BetaOrder, eta: bool, k: nat) -> bool {
        &&& self.steps(order, eta, k) is Some
        &&& exists|j: nat|
            1 <= j < k && #[trigger] self.steps(order, eta, j) == self.steps(order, eta, k)
    }

    /// `k` is the least number of steps after which the term comes again.
    pub open spec fn first_again(self, order: BetaOrder, eta: bool, k: nat) -> bool {
        &&& self.comes_again(order, eta, k)
        &&& forall|i: nat| i < k ==> !#[trigger] self.comes_again(order, eta, i)
    }

    /// The term and what it is after each number of steps up to `k` have no
    /// more nodes than the machine can count.
    pub open spec fn countable_to(self, order: BetaOrder, eta: bool, k: nat) -> bool {
        forall|i: nat|
            i <= k ==> match #[trigger] self.steps(order, eta, i) {
                Some(t) => t.nodes() <= usize::MAX,
                None => true,
            }
    }
}

/// The place in `seen` of a term that is the same tree as `t`.
fn place_among(seen: &Vec<Term>, t: &Term) -> (r: Option<usize>)
    ensures
        match r {
            Some(i) => i < seen.len() && seen[i as int].same_tree(*t),
            None => forall|i: int| 0 <= i < seen.len() ==> !(#[trigger] seen[i]).same_tree(*t),
        },
{
    let mut i: usize = 0;
    while i < seen.len()
        invariant
            i <= seen.len(),
            forall|j: int| 0 <= j < i ==> !(#[trigger] seen[j]).same_tree(*t),
        decreases seen.len() - i,
    {
        if seen[i].same(t) {
            return Some(i);
        }
        i = i + 1;
    }
    None
}

impl Term {
    /// Looks for a cycle: reduces the term in normal order, with eta
    /// contraction, by up to `limit` steps, and stops at the first term that
    /// comes again, up to the names of bound variables. That term is
    /// returned in its canonical form. There is none where the reduction
    /// ends or outgrows the machine's range before, or needs more steps.
    pub fn cycle(self, limit: usize) -> (r: Option<Term>)
        requires
            self.wf(),
        ensures
            match r {
                Some(t) => t.wf() && t.is_canonical() && exists|k: nat|
                    1 <= k <= limit && #[trigger] self@.first_again(BetaOrder::Normal, true, k)
                        && self@.countable_to(BetaOrder::Normal, true, k) && self@.steps(
                        BetaOrder::Normal,
                        true,
                        k,
                    ) == Some(t@),
                None => forall|k: nat|
                    1 <= k <= limit ==> !(#[trigger] self@.first_again(BetaOrder::Normal, true, k)
                        && self@.countable_to(BetaOrder::Normal, true, k)),
            },
    {
        let ghost start = self@;
        let ghost order = BetaOrder::Normal;
        let mut t = self;
        let mut seen: Vec<Term> = Vec::new();
        proof {
            nodes_of_nameless(t, Seq::empty());
        }
        if t.checked_len().is_none() {
            proof {
                assert forall|k: nat| 1 <= k <= limit implies !(#[trigger] start.first_again(
                    order,
                    true,
                    k,
                ) && start.countable_to(order, true, k)) by {
                    assert(start.steps(order, true, 0) == Some(start));
                }
            }
            return None;
        }
        loop
            invariant
                t.wf(),
                seen.len() <= limit,
                start == self@,
                order == BetaOrder::Normal,
                start.steps(order, true, seen.len() as nat) == Some(t@),
                forall|i: int|
                    0 <= i < seen.len() ==> (#[trigger] seen[i]).is_canonical() && start.steps(
                        order,
                        true,
                        (i + 1) as nat,
                    ) == Some(seen[i]@),
                forall|k: nat| k <= seen.len() ==> !#[trigger] start.comes_again(order, true, k),
                start.countable_to(order, true, seen.len() as nat),
            decreases limit - seen.len(),
        {
            let done = seen.len();
            if done >= limit {
                return None;
            }
            let ghost before = t@;
            proof {
                nodes_of_nameless(t, Seq::empty());
                assert(start.steps(order, true, done as nat) == Some(before));
            }
            let changed = t.beta_redex_step();
            if !changed {
                proof {
                    assert forall|k: nat| 1 <= k <= limit implies !(#[trigger] start.first_again(
                        order,
                        true,
                        k,
                    ) && start.countable_to(order, true, k)) by {
                        if start.steps(order, true, k) is Some {
                            start.steps_end_at_normal_form(order, true, done as nat, k, before);
                        }
                    }
                }
                return None;
            }
            proof {
                start.steps_then_step(order, true, done as nat, before);
                nodes_of_nameless(t, Seq::empty());
            }
            if t.checked_len().is_none() {
                proof {
                    assert forall|k: nat| 1 <= k <= limit implies !(#[trigger] start.first_again(
                        order,
                        true,
                        k,
                    ) && start.countable_to(order, true, k)) by {
                        if k > done {
                            assert(start.steps(order, true, (done + 1) as nat) == Some(t@));
                        }
                    }
                }
                return None;
            }
            t.debrejin_redex();
            proof {
                assert forall|i: nat| i <= done + 1 implies match #[trigger] start.steps(
                    order,
                    true,
                    i,
                ) {
                    Some(m) => m.nodes() <= usize::MAX,
                    None => true,
                } by {
                    if i <= done {
                        assert(start.countable_to(order, true, done as nat));
                    }
                }
            }
            match place_among(&seen, &t) {
                Some(i) => {
                    proof {
                        same_tree_same_nameless(seen[i as int], t, Seq::empty());
                        let k = (done + 1) as nat;
                        let j = (i + 1) as nat;
                        assert(start.steps(order, true, j) == start.steps(order, true, k));
                        assert(start.comes_again(order, true, k));
                        assert(start.first_again(order, true, k));
                    }
                    return Some(t);
                },
                None => {
                    proof {
                        let k = (done + 1) as nat;
                        assert forall|j: nat| 1 <= j < k implies start.steps(order, true, j)
                            != start.steps(order, true, k) by {
                            let old_one = seen[j - 1];
                            canonical_forms_decide_alpha(old_one, t, old_one, t);
                        }
                        assert(!start.comes_again(order, true, k));
                    }
                    seen.push(t.clone());
                },
            }
        }
    }
}

} // verus!
