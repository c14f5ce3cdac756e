//! Tournament selection, and the best member of a population.
//!
//! A tournament draws its entrants from the population with replacement and
//! is won by the first entrant of minimal fitness.

use crate::ga::ranking::{
    all_comparable,
    comparable,
    compares_by_value,
    contest,
    first_minimum,
    lemma_contest_in_range,
    lemma_winner_is_first_minimum,
    loses_to,
    no_worse,
    totally_ordered,
    IncomparableFitness,
};
use crate::ga::{Individual, IterationResult};
use crate::random::uniform_index;
use rand::rngs::StdRng;
use vstd::prelude::*;

verus! {

/// The fitness values of the members, in their order.
pub open spec fn scores_of<I, O>(population: Seq<(I, O)>) -> Seq<O> {
    Seq::new(population.len(), |k: int| population[k].1)
}

/// The fitness values of the members that the entrants name, in the order of
/// the entrants.
pub open spec fn entrant_scores<I, O>(population: Seq<(I, O)>, entrants: Seq<usize>) -> Seq<O> {
    Seq::new(entrants.len(), |k: int| population[entrants[k] as int].1)
}

/// `entrants` are `tour_size` positions in a population of `pop_size`
/// members.
pub open spec fn entrants_fit(entrants: Seq<usize>, tour_size: nat, pop_size: nat) -> bool {
    &&& entrants.len() == tour_size
    &&& forall|k: int| 0 <= k < entrants.len() ==> (#[trigger] entrants[k]) < pop_size
}

/// The outcome of a tournament among the entrants: the position in the
/// population of the first entrant of minimal fitness, or the positions of the
/// first two entrants that could not be compared.
pub open spec fn tournament_outcome<I, O: PartialOrd>(
    population: Seq<(I, O)>,
    entrants: Seq<usize>,
) -> Result<usize, IncomparableFitness> {
    match first_minimum(entrant_scores(population, entrants)) {
        Ok(position) => Ok(entrants[position]),
        Err((leader, challenger)) => Err(
            IncomparableFitness { first: entrants[leader], second: entrants[challenger] },
        ),
    }
}

/// `member` won some tournament of `tour_size` entrants of the population.
pub open spec fn wins_tournament<I, O: PartialOrd>(
    population: Seq<(I, O)>,
    tour_size: nat,
    member: (I, O),
) -> bool {
    exists|entrants: Seq<usize>|
        {
            &&& entrants_fit(entrants, tour_size, population.len())
            &&& #[trigger] tournament_outcome(population, entrants) matches Ok(winner)
            &&& population[winner as int] == member
        }
}

/// Where the order on the entrants' fitness is total and transitive, the
/// tournament has a winner, the winner is an entrant, and no entrant has a
/// better fitness than the winner.
pub proof fn lemma_tournament_winner_is_minimal<I, O: PartialOrd>(
    population: Seq<(I, O)>,
    entrants: Seq<usize>,
)
    requires
        entrants.len() > 0,
        entrants_fit(entrants, entrants.len(), population.len()),
        totally_ordered(entrant_scores(population, entrants)),
    ensures
        tournament_outcome(population, entrants) matches Ok(winner) && entrants.contains(winner)
            && forall|k: int|
            0 <= k < entrants.len() ==> no_worse(
                population[winner as int].1,
                population[(#[trigger] entrants[k]) as int].1,
            ),
{
    let scores = entrant_scores(population, entrants);
    lemma_winner_is_first_minimum(scores, scores.len());
    let position = first_minimum(scores)->Ok_0;
    assert(entrants[position] == tournament_outcome(population, entrants)->Ok_0);
    assert forall|k: int| 0 <= k < entrants.len() implies no_worse(
        population[entrants[position] as int].1,
        population[(#[trigger] entrants[k]) as int].1,
    ) by {
        assert(no_worse(scores[position], scores[k]));
    }
}

proof fn lemma_clash_stays<O: PartialOrd>(scores: Seq<O>, at: nat, upto: nat)
    requires
        contest(scores, at) is Err,
        at <= upto,
    ensures
        contest(scores, upto) == contest(scores, at),
    decreases upto,
{
    if at < upto {
        lemma_clash_stays(scores, at, (upto - 1) as nat);
    }
}

/// Holds a tournament among the entrants, which are positions in the
/// population: the first entrant leads, and a later entrant takes the lead
/// only where the leader's fitness is strictly worse. Returns the winner's
/// position in the population.
pub fn tournament<I, O: PartialOrd>(population: &Vec<(I, O)>, entrants: &Vec<usize>) -> (outcome:
    Result<usize, IncomparableFitness>)
    requires
        entrants@.len() > 0,
        entrants_fit(entrants@, entrants@.len(), population@.len()),
    ensures
        match outcome {
            Ok(winner) => entrants@.contains(winner),
            Err(clash) => entrants@.contains(clash.first) && entrants@.contains(clash.second),
        },
        compares_by_value::<O>() ==> outcome == tournament_outcome(population@, entrants@),
{
    let ghost scores = entrant_scores(population@, entrants@);
    let ghost mut lead: int = 0;
    let mut best = entrants[0];
    let mut k: usize = 1;
    while k < entrants.len()
        invariant
            1 <= k <= entrants@.len(),
            entrants_fit(entrants@, entrants@.len(), population@.len()),
            scores == entrant_scores(population@, entrants@),
            0 <= lead < k,
            entrants@[lead] == best,
            compares_by_value::<O>() ==> contest(scores, k as nat) == Ok::<int, (int, int)>(lead),
        decreases entrants@.len() - k,
    {
        let challenger = entrants[k];
        match loses_to(&population[best].1, &population[challenger].1) {
            None => {
                proof {
                    if compares_by_value::<O>() {
                        assert(contest(scores, (k + 1) as nat) == Err::<int, (int, int)>(
                            (lead, k as int),
                        ));
                        lemma_clash_stays(scores, (k + 1) as nat, scores.len());
                    }
                }
                return Err(IncomparableFitness { first: best, second: challenger });
            },
            Some(true) => {
                best = challenger;
                proof {
                    lead = k as int;
                }
            },
            Some(false) => {},
        }
        k += 1;
    }
    Ok(best)
}

/// Draws the entrants of one tournament: `tour_size` positions, each drawn
/// uniformly from the population, so a member may enter more than once.
pub fn draw_entrants(pop_size: usize, tour_size: usize, rng: &mut StdRng) -> (entrants: Vec<usize>)
    requires
        pop_size > 0,
    ensures
        entrants_fit(entrants@, tour_size as nat, pop_size as nat),
{
    let mut entrants: Vec<usize> = Vec::new();
    for k in 0..tour_size
        invariant
            pop_size > 0,
            entrants_fit(entrants@, k as nat, pop_size as nat),
    {
        let position = uniform_index(rng, pop_size);
        entrants.push(position);
    }
    entrants
}

/// Selects as many members as the population holds, each the winner of a
/// tournament among `tour_size` members drawn at random.
pub fn select<'a, I, O: PartialOrd>(
    current_population: &'a Vec<(I, O)>,
    tour_size: usize,
    rng: &mut StdRng,
) -> (selection: Result<Vec<&'a (I, O)>, IncomparableFitness>)
    requires
        current_population@.len() > 0,
        tour_size > 0,
    ensures
        match selection {
            Ok(chosen) => chosen@.len() == current_population@.len() && forall|k: int|
                0 <= k < chosen@.len() ==> current_population@.contains(*#[trigger] chosen@[k]),
            Err(clash) => clash.first < current_population@.len() && clash.second
                < current_population@.len(),
        },
        compares_by_value::<O>() ==> match selection {
            Ok(chosen) => forall|k: int|
                0 <= k < chosen@.len() ==> wins_tournament(
                    current_population@,
                    tour_size as nat,
                    *#[trigger] chosen@[k],
                ),
            Err(clash) => !comparable(
                current_population@[clash.first as int].1,
                current_population@[clash.second as int].1,
            ),
        },
        compares_by_value::<O>() && all_comparable(scores_of(current_population@))
            ==> selection is Ok,
{
    let pop_size = current_population.len();
    let mut chosen: Vec<&'a (I, O)> = Vec::new();
    for slot in 0..pop_size
        invariant
            pop_size == current_population@.len(),
            pop_size > 0,
            tour_size > 0,
            chosen@.len() == slot,
            forall|k: int|
                0 <= k < chosen@.len() ==> current_population@.contains(*#[trigger] chosen@[k]),
            compares_by_value::<O>() ==> forall|k: int|
                0 <= k < chosen@.len() ==> wins_tournament(
                    current_population@,
                    tour_size as nat,
                    *#[trigger] chosen@[k],
                ),
    {
        let entrants = draw_entrants(pop_size, tour_size, rng);
        let ghost scores = entrant_scores(current_population@, entrants@);
        proof {
            lemma_contest_in_range(scores, scores.len());
            if all_comparable(scores_of(current_population@)) {
                assert forall|i: int, j: int|
                    0 <= i < scores.len() && 0 <= j < scores.len() implies #[trigger] comparable(
                    scores[i],
                    scores[j],
                ) by {
                    assert(comparable(
                        scores_of(current_population@)[entrants@[i] as int],
                        scores_of(current_population@)[entrants@[j] as int],
                    ));
                }
            }
        }
        match tournament(current_population, &entrants) {
            Ok(winner) => {
                chosen.push(&current_population[winner]);
                assert(current_population@.contains(current_population@[winner as int]));
            },
            Err(clash) => {
                return Err(clash);
            },
        }
    }
    Ok(chosen)
}

/// Finds the best member of the population, the first of minimal fitness, and
/// gives a copy of it.
pub fn create_statistics<I: Individual + Clone, O: PartialOrd + Clone>(
    population: &Vec<(I, O)>,
) -> (statistics: Result<IterationResult<I, O>, IncomparableFitness>)
    requires
        population@.len() > 0,
    ensures
        match statistics {
            Ok(result) => exists|best: int|
                0 <= best < population@.len() && cloned(
                    (#[trigger] population@[best]).0,
                    result.best,
                ) && cloned(population@[best].1, result.best_fitness),
            Err(clash) => clash.first < clash.second < population@.len(),
        },
        compares_by_value::<O>() ==> match statistics {
            Ok(result) => first_minimum(scores_of(population@)) matches Ok(best) && cloned(
                population@[best].0,
                result.best,
            ) && cloned(population@[best].1, result.best_fitness),
            Err(clash) => first_minimum(scores_of(population@)) == Err::<int, (int, int)>(
                (clash.first as int, clash.second as int),
            ) && !comparable(
                population@[clash.first as int].1,
                population@[clash.second as int].1,
            ),
        },
        compares_by_value::<O>() && all_comparable(scores_of(population@)) ==> statistics is Ok,
{
    let ghost scores = scores_of(population@);
    let mut best: usize = 0;
    let mut k: usize = 1;
    while k < population.len()
        invariant
            1 <= k <= population@.len(),
            scores == scores_of(population@),
            best < k,
            compares_by_value::<O>() ==> contest(scores, k as nat) == Ok::<int, (int, int)>(
                best as int,
            ),
        decreases population@.len() - k,
    {
        match loses_to(&population[best].1, &population[k].1) {
            None => {
                proof {
                    if compares_by_value::<O>() {
                        assert(contest(scores, (k + 1) as nat) == Err::<int, (int, int)>(
                            (best as int, k as int),
                        ));
                        lemma_clash_stays(scores, (k + 1) as nat, scores.len());
                    }
                }
                return Err(IncomparableFitness { first: best, second: k });
            },
            Some(true) => {
                best = k;
            },
            Some(false) => {},
        }
        k += 1;
    }
    proof {
        lemma_contest_in_range(scores, scores.len());
    }
    let individual = population[best].0.clone();
    let fitness = population[best].1.clone();
    Ok(IterationResult { best: individual, best_fitness: fitness })
}

} // verus!
