//! The engine: the evolving population and the operators on it.
//!
//! A generation is made from the one before it by tournament selection,
//! crossover of neighbouring pairs, mutation and evaluation. The engine has no
//! end of its own: each call of [`Ga::next`] makes one more generation.

pub mod breeding;
pub mod chain;
pub mod crossover;
pub mod mutation;
pub mod ranking;
pub mod selection;

pub use crate::ga::breeding::{next_iteration, partner, replace_pair};
pub use crate::ga::selection::{create_statistics, draw_entrants, select, tournament};

use crate::ga::breeding::bred_from;
use crate::ga::ranking::{
    always_comparable,
    comparable,
    compares_by_value,
    first_minimum,
    IncomparableFitness,
};
use crate::ga::selection::scores_of;
use crate::random::Probability;
use rand::rngs::StdRng;
use vstd::prelude::*;

verus! {

/// A candidate solution that can be mutated and crossed with another.
pub trait Individual: Sized + Clone {
    /// The individual is structurally valid.
    spec fn well_formed(&self) -> bool;

    /// The length of the individual's genome, which no operator changes.
    spec fn genome_len(&self) -> usize;

    /// A clone of a valid individual is valid and has a genome of the same
    /// length.
    proof fn lemma_clone_is_well_formed(individual: &Self, copy: &Self)
        requires
            cloned(*individual, *copy),
            individual.well_formed(),
        ensures
            copy.well_formed(),
            copy.genome_len() == individual.genome_len(),
    ;

    /// `mutant` is a possible result of mutating this individual with
    /// probability `rate`.
    spec fn mutates_into(&self, rate: Probability, mutant: &Self) -> bool;

    /// `children` is a possible result of crossing this individual with
    /// `other`.
    spec fn crosses_into(&self, other: &Self, children: &(Self, Self)) -> bool;

    /// Gives the individual back with random changes, each made with
    /// probability `rate`.
    fn mutate(self, rate: Probability, rng: &mut StdRng) -> (mutant: Self)
        requires
            self.well_formed(),
        ensures
            mutant.well_formed(),
            mutant.genome_len() == self.genome_len(),
            self.mutates_into(rate, &mutant),
    ;

    /// Recombines two individuals into two children.
    fn cross(&self, other: &Self, rng: &mut StdRng) -> (children: (Self, Self))
        requires
            self.well_formed(),
            other.well_formed(),
            self.genome_len() == other.genome_len(),
        ensures
            children.0.well_formed(),
            children.1.well_formed(),
            children.0.genome_len() == self.genome_len(),
            children.1.genome_len() == self.genome_len(),
            self.crosses_into(other, &children),
    ;
}

/// An optimisation problem: it makes random individuals and scores them.
/// Lower fitness is better.
pub trait Problem<I: Individual, O: PartialOrd> {
    /// The genome length of the problem's individuals.
    spec fn genome_len(&self) -> usize;

    /// The fitness of an individual. It depends on the individual alone.
    spec fn score(&self, individual: &I) -> O;

    /// Makes a random valid individual.
    fn generate_individual(&self, rng: &mut StdRng) -> (individual: I)
        ensures
            individual.well_formed(),
            individual.genome_len() == self.genome_len(),
    ;

    /// Evaluates an individual of this problem.
    fn fitness(&self, individual: &I) -> (fitness: O)
        requires
            individual.well_formed(),
            individual.genome_len() == self.genome_len(),
        ensures
            fitness == self.score(individual),
    ;
}

/// The configuration of a run.
pub struct GaParameters {
    /// Number of individuals in every generation.
    pub pop_size: usize,
    /// Number of individuals drawn for each tournament.
    pub tour_size: usize,
    /// Probability with which mutation changes a position of a genome.
    pub mutation_prob: Probability,
    /// Probability with which a pair of individuals is crossed.
    pub crossover_prob: Probability,
}

impl GaParameters {
    /// The population is not empty, and a tournament draws at least one
    /// individual and no more than the population holds.
    pub open spec fn well_formed(&self) -> bool {
        0 < self.tour_size <= self.pop_size
    }

    /// Tests whether a run can be made with these parameters.
    pub fn is_well_formed(&self) -> (ok: bool)
        ensures
            ok == self.well_formed(),
    {
        0 < self.tour_size && self.tour_size <= self.pop_size
    }
}

/// The best individual of a generation, and its fitness.
#[derive(Debug, Clone)]
pub struct IterationResult<I: Individual, O: PartialOrd> {
    pub best: I,
    pub best_fitness: O,
}

/// Every member is valid and has a genome of length `len`.
pub open spec fn population_fits<I: Individual, O>(population: Seq<(I, O)>, len: usize) -> bool {
    forall|k: int|
        0 <= k < population.len() ==> (#[trigger] population[k]).0.well_formed()
            && population[k].0.genome_len() == len
}

/// Every individual is valid and has a genome of length `len`.
pub open spec fn individuals_fit<I: Individual>(individuals: Seq<I>, len: usize) -> bool {
    forall|k: int|
        0 <= k < individuals.len() ==> (#[trigger] individuals[k]).well_formed()
            && individuals[k].genome_len() == len
}

/// Every member carries the fitness that the problem gives its individual.
pub open spec fn scored_by<I: Individual, O: PartialOrd, P: Problem<I, O>>(
    problem: &P,
    population: Seq<(I, O)>,
) -> bool {
    forall|k: int|
        0 <= k < population.len() ==> (#[trigger] population[k]).1 == problem.score(
            &population[k].0,
        )
}

/// The individuals of the members, in their order.
pub open spec fn individuals_of<I, O>(population: Seq<(I, O)>) -> Seq<I> {
    Seq::new(population.len(), |k: int| population[k].0)
}

/// A run of the genetic algorithm on a problem. It holds the current
/// generation, scored, and makes the next one on request.
pub struct Ga<'a, I, O, P> {
    problem: &'a P,
    params: &'a GaParameters,
    current_population: &'a mut Vec<(I, O)>,
    rng: &'a mut StdRng,
}

impl<'a, I: Individual + Clone, O: PartialOrd + Clone, P: Problem<I, O>> Ga<'a, I, O, P> {
    /// The current generation with its fitness values.
    pub closed spec fn population(&self) -> Seq<(I, O)> {
        self.current_population@
    }

    /// The problem that the run works on.
    pub closed spec fn problem(&self) -> &P {
        self.problem
    }

    /// The parameters of the run.
    pub closed spec fn params(&self) -> &GaParameters {
        self.params
    }

    /// The parameters allow a run, and the population has the size they give
    /// and holds valid individuals of the problem, each with its fitness.
    pub open spec fn well_formed(&self) -> bool {
        &&& self.params().well_formed()
        &&& self.population().len() == self.params().pop_size
        &&& population_fits(self.population(), self.problem().genome_len())
        &&& scored_by(self.problem(), self.population())
    }

    /// Starts a run: fills the vector with `pop_size` random individuals of
    /// the problem and their fitness. What the vector held before is dropped.
    pub fn new(
        problem: &'a P,
        params: &'a GaParameters,
        empty_vec: &'a mut Vec<(I, O)>,
        rng: &'a mut StdRng,
    ) -> (ga: Ga<'a, I, O, P>)
        requires
            params.well_formed(),
        ensures
            ga.well_formed(),
            ga.problem() == problem,
            ga.params() == params,
    {
        empty_vec.clear();
        for count in 0..params.pop_size
            invariant
                empty_vec@.len() == count,
                population_fits(empty_vec@, problem.genome_len()),
                scored_by(problem, empty_vec@),
        {
            let individual = problem.generate_individual(rng);
            let fitness = problem.fitness(&individual);
            empty_vec.push((individual, fitness));
        }
        Ga { problem, params, current_population: empty_vec, rng }
    }

    /// The current generation with its fitness values.
    pub fn current_population(&self) -> (population: &Vec<(I, O)>)
        ensures
            population@ == self.population(),
    {
        &*self.current_population
    }

    /// Replaces the population by the next generation and reports its best
    /// member. Where two fitness values cannot be ordered the step fails with
    /// their positions in the population as it then stands: the old one when
    /// selection failed, the new one when the best member could not be told.
    pub fn next(&mut self) -> (step: Result<IterationResult<I, O>, IncomparableFitness>)
        requires
            old(self).well_formed(),
        ensures
            final(self).well_formed(),
            final(self).problem() == old(self).problem(),
            final(self).params() == old(self).params(),
            step is Ok ==> bred_from(
                old(self).population(),
                old(self).params().tour_size as nat,
                old(self).params().crossover_prob,
                old(self).params().mutation_prob,
                individuals_of(final(self).population()),
            ),
            step is Err ==> final(self).population() == old(self).population() || bred_from(
                old(self).population(),
                old(self).params().tour_size as nat,
                old(self).params().crossover_prob,
                old(self).params().mutation_prob,
                individuals_of(final(self).population()),
            ),
            match step {
                Ok(result) => exists|best: int|
                    0 <= best < final(self).population().len() && cloned(
                        (#[trigger] final(self).population()[best]).0,
                        result.best,
                    ) && cloned(final(self).population()[best].1, result.best_fitness),
                Err(clash) => clash.first < final(self).population().len() && clash.second
                    < final(self).population().len(),
            },
            compares_by_value::<O>() ==> match step {
                Ok(result) => first_minimum(scores_of(final(self).population())) matches Ok(best)
                    && cloned(final(self).population()[best].0, result.best) && cloned(
                    final(self).population()[best].1,
                    result.best_fitness,
                ),
                Err(clash) => !comparable(
                    final(self).population()[clash.first as int].1,
                    final(self).population()[clash.second as int].1,
                ),
            },
            compares_by_value::<O>() && always_comparable::<O>() ==> step is Ok,
    {
        let ghost len = self.problem.genome_len();
        let offspring = match next_iteration(
            &*self.current_population,
            self.params.mutation_prob,
            self.params.tour_size,
            self.params.crossover_prob,
            self.rng,
        ) {
            Ok(individuals) => individuals,
            Err(clash) => {
                return Err(clash);
            },
        };

        let ghost unscored = offspring@;
        let mut new_population: Vec<(I, O)> = Vec::new();
        for individual in walk: offspring.into_iter()
            invariant
                walk.seq() == unscored,
                individuals_fit(unscored, len),
                len == self.problem.genome_len(),
                new_population@.len() == walk.index(),
                population_fits(new_population@, len),
                scored_by(self.problem, new_population@),
                forall|k: int|
                    0 <= k < new_population@.len() ==> (#[trigger] new_population@[k]).0
                        == unscored[k],
        {
            let fitness = self.problem.fitness(&individual);
            new_population.push((individual, fitness));
        }
        assert(individuals_of(new_population@) =~= unscored);
        self.current_population.clear();
        self.current_population.append(&mut new_population);
        create_statistics(&*self.current_population)
    }
}

} // verus!
