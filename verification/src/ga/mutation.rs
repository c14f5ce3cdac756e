//! Swap mutation of a genome.
//!
//! Every position is chosen with the mutation probability, and the value at a
//! chosen position changes places with the value at a position drawn
//! uniformly from the whole genome. The draws make up a plan, which is then
//! carried out on the genome.

use crate::permutation::{
    is_permutation,
    lemma_swapped_keeps_values,
    lemma_swapped_permutation,
    swapped,
};
use crate::random::{chance, random_index, Probability};
use rand::rngs::StdRng;
use vstd::prelude::*;

verus! {

/// `plan` holds, for each position of a genome of length `len`, the position
/// to swap with where the position was chosen, and `None` where it was not.
pub open spec fn plan_fits(plan: Seq<Option<usize>>, len: nat) -> bool {
    &&& plan.len() == len
    &&& forall|i: int| 0 <= i < plan.len() ==> ((#[trigger] plan[i]) matches Some(j) ==> j < len)
}

/// The genome `s` after the swaps that `plan` holds for the positions below
/// `upto`, carried out in the order of the positions.
pub open spec fn apply_swaps(s: Seq<usize>, plan: Seq<Option<usize>>, upto: nat) -> Seq<usize>
    decreases upto,
{
    if upto == 0 {
        s
    } else {
        let before = apply_swaps(s, plan, (upto - 1) as nat);
        match plan[upto - 1] {
            None => before,
            Some(j) => swapped(before, upto - 1, j as int),
        }
    }
}

/// The genome `s` after all swaps of `plan`.
pub open spec fn mutated(s: Seq<usize>, plan: Seq<Option<usize>>) -> Seq<usize> {
    apply_swaps(s, plan, plan.len())
}

/// No position of `plan` is chosen.
pub open spec fn plan_is_idle(plan: Seq<Option<usize>>) -> bool {
    forall|i: int| 0 <= i < plan.len() ==> (#[trigger] plan[i]) is None
}

/// Every position of `plan` is chosen.
pub open spec fn plan_is_full(plan: Seq<Option<usize>>) -> bool {
    forall|i: int| 0 <= i < plan.len() ==> (#[trigger] plan[i]) is Some
}

/// Swaps keep the length of the genome and its values, each as often; a
/// permutation stays a permutation.
pub proof fn lemma_swaps_keep_values(s: Seq<usize>, plan: Seq<Option<usize>>, upto: nat)
    requires
        plan_fits(plan, s.len()),
        upto <= s.len(),
    ensures
        apply_swaps(s, plan, upto).len() == s.len(),
        apply_swaps(s, plan, upto).to_multiset() == s.to_multiset(),
        is_permutation(s) ==> is_permutation(apply_swaps(s, plan, upto)),
    decreases upto,
{
    if upto > 0 {
        let before = apply_swaps(s, plan, (upto - 1) as nat);
        lemma_swaps_keep_values(s, plan, (upto - 1) as nat);
        match plan[upto - 1] {
            None => {},
            Some(j) => {
                lemma_swapped_keeps_values(before, upto - 1, j as int);
                if is_permutation(s) {
                    lemma_swapped_permutation(before, upto - 1, j as int);
                }
            },
        }
    }
}

/// A plan without a chosen position leaves the genome as it is.
pub proof fn lemma_idle_plan_changes_nothing(s: Seq<usize>, plan: Seq<Option<usize>>, upto: nat)
    requires
        plan_is_idle(plan),
        upto <= plan.len(),
    ensures
        apply_swaps(s, plan, upto) == s,
    decreases upto,
{
    if upto > 0 {
        lemma_idle_plan_changes_nothing(s, plan, (upto - 1) as nat);
    }
}

/// Draws the plan of a mutation for a genome of length `len`: each position
/// is chosen with probability `rate`, and a chosen position gets a partner
/// drawn uniformly from all positions.
pub fn draw_swaps(len: usize, rate: Probability, rng: &mut StdRng) -> (plan: Vec<Option<usize>>)
    ensures
        plan_fits(plan@, len as nat),
        rate.is_never() ==> plan_is_idle(plan@),
        rate.is_certain() ==> plan_is_full(plan@),
{
    let mut plan: Vec<Option<usize>> = Vec::new();
    for i in 0..len
        invariant
            plan@.len() == i,
            forall|k: int| 0 <= k < plan@.len() ==> ((#[trigger] plan@[k]) matches Some(j) ==> j < len),
            rate.is_never() ==> plan_is_idle(plan@),
            rate.is_certain() ==> plan_is_full(plan@),
    {
        if chance(rng, rate) {
            let partner = random_index(rng, len);
            plan.push(Some(partner));
        } else {
            plan.push(None);
        }
    }
    plan
}

/// Carries out the swaps of `plan` on the genome, in the order of the
/// positions.
pub fn swap_by_plan(a: &mut [usize], plan: &[Option<usize>])
    requires
        plan_fits(plan@, old(a)@.len()),
    ensures
        final(a)@ == mutated(old(a)@, plan@),
        final(a)@.len() == old(a)@.len(),
        final(a)@.to_multiset() == old(a)@.to_multiset(),
        is_permutation(old(a)@) ==> is_permutation(final(a)@),
{
    let n = a.len();
    proof {
        lemma_swaps_keep_values(a@, plan@, plan@.len());
    }
    for i in 0..n
        invariant
            n == old(a)@.len(),
            plan_fits(plan@, n as nat),
            a@.len() == n,
            a@ == apply_swaps(old(a)@, plan@, i as nat),
    {
        if let Some(j) = plan[i] {
            let first = a[i];
            let second = a[j];
            a[i] = second;
            a[j] = first;
            assert(a@ =~= swapped(apply_swaps(old(a)@, plan@, i as nat), i as int, j as int));
        }
    }
}

/// Mutates the genome in place: every position is chosen with probability
/// `rate`, and the value at a chosen position changes places with the value
/// at a position drawn uniformly from the genome.
pub fn swap_mutation(a: &mut [usize], rate: Probability, rng: &mut StdRng)
    ensures
        exists|plan: Seq<Option<usize>>|
            {
                &&& plan_fits(plan, old(a)@.len())
                &&& rate.is_never() ==> plan_is_idle(plan)
                &&& rate.is_certain() ==> plan_is_full(plan)
                &&& final(a)@ == #[trigger] mutated(old(a)@, plan)
            },
        final(a)@.len() == old(a)@.len(),
        final(a)@.to_multiset() == old(a)@.to_multiset(),
        is_permutation(old(a)@) ==> is_permutation(final(a)@),
        rate.is_never() ==> final(a)@ == old(a)@,
{
    let plan = draw_swaps(a.len(), rate, rng);
    proof {
        if rate.is_never() {
            lemma_idle_plan_changes_nothing(a@, plan@, plan@.len());
        }
    }
    swap_by_plan(a, plan.as_slice());
}

} // verus!
