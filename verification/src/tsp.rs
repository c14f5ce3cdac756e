//! Tours of the travelling salesman problem as individuals of the engine.

use crate::ga::crossover::{pmx_child, pmx_crossover};
use crate::ga::mutation::{mutated, plan_fits, plan_is_full, plan_is_idle, swap_mutation};
use crate::ga::Individual;
use crate::permutation::{
    is_permutation,
    lemma_identity_is_permutation,
    lemma_rearranged_permutation,
};
use crate::random::{shuffle, Probability};
use rand::rngs::StdRng;
use vstd::prelude::*;

verus! {

/// A tour: the cities in the order in which they are visited. A valid tour of
/// `n` cities holds each of the cities `0..n` once.
#[derive(Debug)]
pub struct TspIndividual {
    pub cities: Vec<usize>,
}

impl Clone for TspIndividual {
    fn clone(&self) -> (copy: Self)
        ensures
            copy.cities@ == self.cities@,
    {
        TspIndividual { cities: self.cities.clone() }
    }
}

impl TspIndividual {
    /// A tour of the cities `0..len` in random order.
    pub fn random(len: usize, rng: &mut StdRng) -> (tour: TspIndividual)
        ensures
            is_permutation(tour.cities@),
            tour.cities@.len() == len,
            len > 0 ==> tour.well_formed(),
            tour.genome_len() == len,
    {
        let mut cities: Vec<usize> = Vec::new();
        for city in 0..len
            invariant
                cities@.len() == city,
                forall|i: int| 0 <= i < cities@.len() ==> (#[trigger] cities@[i]) == i,
        {
            cities.push(city);
        }
        let ghost ordered = cities@;
        shuffle(rng, &mut cities);
        proof {
            lemma_identity_is_permutation(ordered);
            lemma_rearranged_permutation(cities@, ordered);
        }
        TspIndividual { cities }
    }

    /// The leg of the round trip that starts at position `i` of the tour: the
    /// city there and the city visited next, which after the last city is the
    /// first.
    pub fn leg(&self, i: usize) -> (leg: (usize, usize))
        requires
            i < self.cities@.len(),
        ensures
            leg.0 == self.cities@[i as int],
            leg.1 == self.cities@[(i + 1) % (self.cities@.len() as int)],
            is_permutation(self.cities@) ==> leg.0 < self.cities@.len() && leg.1
                < self.cities@.len(),
    {
        let len = self.cities.len();
        let next = (i + 1) % len;
        (self.cities[i], self.cities[next])
    }
}

impl Individual for TspIndividual {
    /// The tour is not empty and visits each of its cities once.
    open spec fn well_formed(&self) -> bool {
        is_permutation(self.cities@) && self.cities@.len() > 0
    }

    open spec fn genome_len(&self) -> usize {
        self.cities.len()
    }

    proof fn lemma_clone_is_well_formed(individual: &Self, copy: &Self) {
    }

    /// The mutant is the tour after the swaps of some plan drawn with `rate`.
    open spec fn mutates_into(&self, rate: Probability, mutant: &Self) -> bool {
        exists|plan: Seq<Option<usize>>|
            {
                &&& plan_fits(plan, self.cities@.len())
                &&& rate.is_never() ==> plan_is_idle(plan)
                &&& rate.is_certain() ==> plan_is_full(plan)
                &&& mutant.cities@ == #[trigger] mutated(self.cities@, plan)
            }
    }

    /// The children are those of partially matched crossover between two
    /// split points.
    open spec fn crosses_into(&self, other: &Self, children: &(Self, Self)) -> bool {
        exists|split1: int, split2: int|
            {
                &&& 0 <= split1 <= split2 < self.cities@.len()
                &&& children.0.cities@ == #[trigger] pmx_child(
                    self.cities@,
                    other.cities@,
                    split1,
                    split2,
                )
                &&& children.1.cities@ == pmx_child(other.cities@, self.cities@, split1, split2)
            }
    }

    /// Swap mutation of the tour.
    fn mutate(self, rate: Probability, rng: &mut StdRng) -> (mutant: Self)
        ensures
            mutant.cities@.to_multiset() == self.cities@.to_multiset(),
            rate.is_never() ==> mutant.cities@ == self.cities@,
    {
        let mut cities = self.cities;
        swap_mutation(cities.as_mut_slice(), rate, rng);
        TspIndividual { cities }
    }

    /// Partially matched crossover of two tours.
    fn cross(&self, other: &Self, rng: &mut StdRng) -> (children: (Self, Self))
        ensures
            children.0.cities@.to_multiset() == self.cities@.to_multiset(),
            children.1.cities@.to_multiset() == other.cities@.to_multiset(),
    {
        let (cities1, cities2) = pmx_crossover(self.cities.as_slice(), other.cities.as_slice(), rng);
        (TspIndividual { cities: cities1 }, TspIndividual { cities: cities2 })
    }
}

} // verus!
