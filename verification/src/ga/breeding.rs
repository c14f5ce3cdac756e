//! From one generation to the individuals of the next: selection, crossover
//! of neighbouring pairs, and mutation.

use crate::ga::ranking::{all_comparable, comparable, compares_by_value, IncomparableFitness};
use crate::ga::selection::{scores_of, select, wins_tournament};
use crate::ga::{individuals_fit, population_fits, Individual};
use crate::random::{chance, Probability};
use rand::rngs::StdRng;
use vstd::prelude::*;

verus! {

/// The position that the position `i` is paired with for crossover: the next
/// one, and the first one for the last position of a population of odd size.
pub open spec fn partner_of(i: int, pop_size: int) -> int {
    (i + 1) % pop_size
}

/// The number of pairs that crossover visits in a population: its positions
/// `0, 2, 4, ...` each with its partner.
pub open spec fn pairs_of(pop_size: nat) -> nat {
    (pop_size + 1) / 2
}

/// `copy` is a clone of the individual of a member of the population; where
/// fitness values compare by value, of a member that won a tournament of
/// `tour_size` entrants.
pub open spec fn copy_of_selected<I: Individual, O: PartialOrd>(
    population: Seq<(I, O)>,
    tour_size: nat,
    copy: I,
) -> bool {
    exists|member: (I, O)|
        {
            &&& population.contains(member)
            &&& compares_by_value::<O>() ==> wins_tournament(population, tour_size, member)
            &&& #[trigger] cloned(member.0, copy)
        }
}

/// `copies` holds a copy of a selected member for each member of the
/// population.
pub open spec fn selected_from<I: Individual, O: PartialOrd>(
    population: Seq<(I, O)>,
    tour_size: nat,
    copies: Seq<I>,
) -> bool {
    &&& copies.len() == population.len()
    &&& forall|k: int|
        0 <= k < copies.len() ==> copy_of_selected(population, tour_size, #[trigger] copies[k])
}

/// The individuals after the first `upto` steps of a crossover pass. Step `j`
/// is for the pair at positions `2 * j` and its partner: it holds the two
/// children that take the places of the pair, or `None` where the pair is
/// left as it is.
pub open spec fn apply_crossings<I>(
    individuals: Seq<I>,
    steps: Seq<Option<(I, I)>>,
    upto: nat,
) -> Seq<I>
    decreases upto,
{
    if upto == 0 {
        individuals
    } else {
        let before = apply_crossings(individuals, steps, (upto - 1) as nat);
        let first = 2 * (upto - 1);
        match steps[upto - 1] {
            None => before,
            Some(children) => before.update(first, children.0).update(
                partner_of(first, individuals.len() as int),
                children.1,
            ),
        }
    }
}

/// `steps` is a crossover pass over the individuals: it has a step for every
/// pair, and the children of a step come from crossing the pair as the steps
/// before left it. With probability zero no pair is crossed, with probability
/// one every pair.
pub open spec fn crossing_fits<I: Individual>(
    individuals: Seq<I>,
    steps: Seq<Option<(I, I)>>,
    rate: Probability,
) -> bool {
    &&& steps.len() == pairs_of(individuals.len())
    &&& forall|j: int|
        0 <= j < steps.len() ==> ((#[trigger] steps[j]) matches Some(children) ==> pair_crosses_into(
            apply_crossings(individuals, steps, j as nat),
            2 * j,
            children,
        ))
    &&& rate.is_never() ==> forall|j: int| 0 <= j < steps.len() ==> (#[trigger] steps[j]) is None
    &&& rate.is_certain() ==> forall|j: int| 0 <= j < steps.len() ==> (#[trigger] steps[j]) is Some
}

/// `children` is a possible result of crossing the individual at position
/// `first` with its partner.
pub open spec fn pair_crosses_into<I: Individual>(
    individuals: Seq<I>,
    first: int,
    children: (I, I),
) -> bool {
    individuals[first].crosses_into(
        &individuals[partner_of(first, individuals.len() as int)],
        &children,
    )
}

/// Each of the `mutants` is a possible result of mutating the individual at
/// its position with probability `rate`.
pub open spec fn mutants_of<I: Individual>(individuals: Seq<I>, mutants: Seq<I>, rate: Probability) -> bool {
    &&& mutants.len() == individuals.len()
    &&& forall|k: int|
        0 <= k < mutants.len() ==> (#[trigger] individuals[k]).mutates_into(rate, &mutants[k])
}

/// `offspring` is bred from the population by way of `selected` and `steps`:
/// `selected` are copies of selected members, `steps` a crossover pass over
/// them, and `offspring` the mutants of what the pass gives.
pub open spec fn breeding<I: Individual, O: PartialOrd>(
    population: Seq<(I, O)>,
    tour_size: nat,
    crossover_prob: Probability,
    mutation_prob: Probability,
    selected: Seq<I>,
    steps: Seq<Option<(I, I)>>,
    offspring: Seq<I>,
) -> bool {
    &&& selected_from(population, tour_size, selected)
    &&& crossing_fits(selected, steps, crossover_prob)
    &&& mutants_of(apply_crossings(selected, steps, steps.len()), offspring, mutation_prob)
}

/// `offspring` can be the individuals of the generation after `population`:
/// mutants of crossed copies of selected members.
pub open spec fn bred_from<I: Individual, O: PartialOrd>(
    population: Seq<(I, O)>,
    tour_size: nat,
    crossover_prob: Probability,
    mutation_prob: Probability,
    offspring: Seq<I>,
) -> bool {
    exists|selected: Seq<I>, steps: Seq<Option<(I, I)>>|
        breeding(
            population,
            tour_size,
            crossover_prob,
            mutation_prob,
            selected,
            steps,
            offspring,
        )
}

/// The position that crossover pairs with the position `first`.
pub fn partner(first: usize, pop_size: usize) -> (position: usize)
    requires
        first < pop_size,
    ensures
        position == partner_of(first as int, pop_size as int),
        position < pop_size,
{
    (first + 1) % pop_size
}

/// Puts the two children of a crossing in the places of the pair they come
/// from: the first child at `first`, then the second at the partner of
/// `first`.
pub fn replace_pair<I>(individuals: &mut Vec<I>, first: usize, children: (I, I))
    requires
        first < old(individuals)@.len(),
    ensures
        final(individuals)@ == old(individuals)@.update(first as int, children.0).update(
            partner_of(first as int, old(individuals)@.len() as int),
            children.1,
        ),
{
    let second = partner(first, individuals.len());
    let (a, b) = children;
    individuals[first] = a;
    individuals[second] = b;
}

proof fn lemma_crossings_of_prefix<I>(
    individuals: Seq<I>,
    steps: Seq<Option<(I, I)>>,
    longer: Seq<Option<(I, I)>>,
    upto: nat,
)
    requires
        upto <= steps.len() <= longer.len(),
        forall|j: int| 0 <= j < steps.len() ==> longer[j] == steps[j],
    ensures
        apply_crossings(individuals, longer, upto) == apply_crossings(individuals, steps, upto),
    decreases upto,
{
    if upto > 0 {
        lemma_crossings_of_prefix(individuals, steps, longer, (upto - 1) as nat);
    }
}

/// Makes the individuals of the next generation. Members are selected by
/// tournament and copied; the copies are crossed in the pairs `(0, 1)`,
/// `(2, 3)` and so on, each pair with probability `crossover_prob`, where
/// the last individual of a population of odd size is paired with the first;
/// then every individual is mutated.
pub fn next_iteration<I: Individual + Clone, O: PartialOrd>(
    current_population: &Vec<(I, O)>,
    mutation_prob: Probability,
    tour_size: usize,
    crossover_prob: Probability,
    rng: &mut StdRng,
) -> (offspring: Result<Vec<I>, IncomparableFitness>)
    requires
        current_population@.len() > 0,
        tour_size > 0,
        population_fits(current_population@, current_population@[0].0.genome_len()),
    ensures
        match offspring {
            Ok(individuals) => {
                &&& individuals@.len() == current_population@.len()
                &&& individuals_fit(individuals@, current_population@[0].0.genome_len())
                &&& bred_from(
                    current_population@,
                    tour_size as nat,
                    crossover_prob,
                    mutation_prob,
                    individuals@,
                )
            },
            Err(clash) => clash.first < current_population@.len() && clash.second
                < current_population@.len(),
        },
        compares_by_value::<O>() ==> (offspring matches Err(clash) ==> !comparable(
            current_population@[clash.first as int].1,
            current_population@[clash.second as int].1,
        )),
        compares_by_value::<O>() && all_comparable(scores_of(current_population@))
            ==> offspring is Ok,
{
    let ghost len = current_population@[0].0.genome_len();
    let selection = match select(current_population, tour_size, rng) {
        Ok(chosen) => chosen,
        Err(clash) => {
            return Err(clash);
        },
    };

    let pop_size = selection.len();
    let mut pop: Vec<I> = Vec::new();
    for k in 0..pop_size
        invariant
            pop_size == selection@.len(),
            pop_size == current_population@.len(),
            pop@.len() == k,
            population_fits(current_population@, len),
            forall|j: int|
                0 <= j < selection@.len() ==> current_population@.contains(
                    *#[trigger] selection@[j],
                ),
            compares_by_value::<O>() ==> forall|j: int|
                0 <= j < selection@.len() ==> wins_tournament(
                    current_population@,
                    tour_size as nat,
                    *#[trigger] selection@[j],
                ),
            individuals_fit(pop@, len),
            forall|j: int|
                0 <= j < pop@.len() ==> copy_of_selected(
                    current_population@,
                    tour_size as nat,
                    #[trigger] pop@[j],
                ),
    {
        let copy = selection[k].0.clone();
        proof {
            let member = *selection@[k as int];
            assert(current_population@.contains(member));
            let at = choose|at: int|
                0 <= at < current_population@.len() && current_population@[at] == member;
            assert(current_population@[at].0.well_formed());
            I::lemma_clone_is_well_formed(&member.0, &copy);
            assert(cloned(member.0, copy));
            assert(copy_of_selected(current_population@, tour_size as nat, copy));
        }
        pop.push(copy);
    }

    let ghost selected = pop@;
    let ghost mut steps: Seq<Option<(I, I)>> = Seq::empty();
    let mut i: usize = 0;
    while i < pop_size
        invariant
            pop_size > 0,
            pop@.len() == pop_size,
            selected.len() == pop_size,
            individuals_fit(pop@, len),
            i < pop_size ==> i == 2 * steps.len(),
            i >= pop_size ==> steps.len() == pairs_of(pop_size as nat),
            steps.len() <= pairs_of(pop_size as nat),
            pop@ == apply_crossings(selected, steps, steps.len()),
            forall|j: int|
                0 <= j < steps.len() ==> ((#[trigger] steps[j]) matches Some(children)
                    ==> pair_crosses_into(
                    apply_crossings(selected, steps, j as nat),
                    2 * j,
                    children,
                )),
            crossover_prob.is_never() ==> forall|j: int|
                0 <= j < steps.len() ==> (#[trigger] steps[j]) is None,
            crossover_prob.is_certain() ==> forall|j: int|
                0 <= j < steps.len() ==> (#[trigger] steps[j]) is Some,
        decreases pop_size - i,
    {
        let ghost before = pop@;
        let ghost earlier = steps;
        let ghost mut step: Option<(I, I)> = None;
        if chance(rng, crossover_prob) {
            let children = pop[i].cross(&pop[partner(i, pop_size)], rng);
            proof {
                step = Some(children);
            }
            replace_pair(&mut pop, i, children);
        }
        proof {
            steps = earlier.push(step);
            assert forall|j: nat| j <= earlier.len() implies #[trigger] apply_crossings(
                selected,
                steps,
                j,
            ) == apply_crossings(selected, earlier, j) by {
                lemma_crossings_of_prefix(selected, earlier, steps, j);
            }
            let last = earlier.len();
            assert(steps[last as int] == step);
            assert(apply_crossings(selected, steps, last) == before);
            assert(2 * last == i);
            assert(pop@ =~= match step {
                None => before,
                Some(children) => before.update(i as int, children.0).update(
                    partner_of(i as int, pop_size as int),
                    children.1,
                ),
            });
            assert(steps.len() == last + 1);
            assert(pop@ == apply_crossings(selected, steps, (last + 1) as nat));
        }
        i = if pop_size - i > 2 {
            i + 2
        } else {
            pop_size
        };
    }

    let ghost crossed = pop@;
    let mut mutants: Vec<I> = Vec::new();
    for individual in walk: pop.into_iter()
        invariant
            walk.seq() == crossed,
            individuals_fit(crossed, len),
            mutants@.len() == walk.index(),
            individuals_fit(mutants@, len),
            forall|k: int|
                0 <= k < mutants@.len() ==> (#[trigger] crossed[k]).mutates_into(
                    mutation_prob,
                    &mutants@[k],
                ),
    {
        let mutant = individual.mutate(mutation_prob, rng);
        mutants.push(mutant);
    }
    proof {
        assert(breeding(
            current_population@,
            tour_size as nat,
            crossover_prob,
            mutation_prob,
            selected,
            steps,
            mutants@,
        ));
    }
    Ok(mutants)
}

} // verus!
