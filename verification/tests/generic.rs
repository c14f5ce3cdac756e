use rand::rngs::StdRng;
use rand::{Rng, SeedableRng};
use rust_tsp::ga::{next_iteration, partner, replace_pair};
use rust_tsp::random::chance;
use rust_tsp::{Ga, GaParameters, Individual, Probability, Problem};

fn ratio(numerator: u32, denominator: u32) -> Probability {
    Probability::new(numerator, denominator).unwrap()
}

/// An individual that counts how often it came out of a crossing.
#[derive(Clone, Debug, PartialEq)]
struct Marked {
    crossings: usize,
}

impl Individual for Marked {
    fn well_formed(&self) -> bool {
        true
    }

    fn genome_len(&self) -> usize {
        0
    }

    fn lemma_clone_is_well_formed(_individual: &Self, _copy: &Self) {}

    fn mutates_into(&self, _rate: Probability, mutant: &Self) -> bool {
        self == mutant
    }

    fn crosses_into(&self, other: &Self, children: &(Self, Self)) -> bool {
        children.0.crossings == self.crossings + 1 && children.1.crossings == other.crossings + 1
    }

    fn mutate(self, _rate: Probability, _rng: &mut StdRng) -> Self {
        self
    }

    fn cross(&self, other: &Self, _rng: &mut StdRng) -> (Self, Self) {
        (Marked { crossings: self.crossings + 1 }, Marked { crossings: other.crossings + 1 })
    }
}

fn crossings_after_one_pass(pop_size: usize, crossover_prob: Probability) -> Vec<usize> {
    let population: Vec<(Marked, u32)> = (0..pop_size).map(|_| (Marked { crossings: 0 }, 1)).collect();
    let mut rng = StdRng::seed_from_u64(101);
    next_iteration(&population, ratio(0, 1), 1, crossover_prob, &mut rng)
        .unwrap()
        .iter()
        .map(|individual| individual.crossings)
        .collect()
}

#[test]
fn the_partner_is_the_next_position_or_the_first() {
    assert_eq!(partner(0, 4), 1);
    assert_eq!(partner(2, 4), 3);
    assert_eq!(partner(0, 3), 1);
    assert_eq!(partner(2, 3), 0);
    assert_eq!(partner(0, 1), 0);
    assert_eq!(partner(6, 7), 0);
}

#[test]
fn children_take_the_places_of_their_pair() {
    let mut individuals = vec![10, 11, 12, 13];
    replace_pair(&mut individuals, 2, (22, 23));
    assert_eq!(individuals, vec![10, 11, 22, 23]);
    let mut individuals = vec![10, 11, 12];
    replace_pair(&mut individuals, 2, (22, 20));
    assert_eq!(individuals, vec![20, 11, 22]);
    let mut individuals = vec![10];
    replace_pair(&mut individuals, 0, (30, 31));
    assert_eq!(individuals, vec![31]);
}

#[test]
fn crossover_goes_over_neighbouring_pairs() {
    assert_eq!(crossings_after_one_pass(2, ratio(1, 1)), vec![1, 1]);
    assert_eq!(crossings_after_one_pass(4, ratio(1, 1)), vec![1, 1, 1, 1]);
    assert_eq!(crossings_after_one_pass(6, ratio(1, 1)), vec![1, 1, 1, 1, 1, 1]);
}

#[test]
fn the_last_of_an_odd_population_is_crossed_with_the_first() {
    assert_eq!(crossings_after_one_pass(3, ratio(1, 1)), vec![2, 1, 1]);
    assert_eq!(crossings_after_one_pass(5, ratio(1, 1)), vec![2, 1, 1, 1, 1]);
    assert_eq!(crossings_after_one_pass(1, ratio(1, 1)), vec![1]);
}

#[test]
fn without_crossover_no_pair_is_crossed() {
    assert_eq!(crossings_after_one_pass(5, ratio(0, 1)), vec![0, 0, 0, 0, 0]);
    assert_eq!(crossings_after_one_pass(4, ratio(0, 7)), vec![0, 0, 0, 0]);
}

#[test]
fn pairs_are_crossed_with_the_given_probability() {
    let mut crossed = 0;
    let population: Vec<(Marked, u32)> = (0..100).map(|_| (Marked { crossings: 0 }, 1)).collect();
    let mut rng = StdRng::seed_from_u64(103);
    for _ in 0..40 {
        let offspring = next_iteration(&population, ratio(0, 1), 1, ratio(7, 10), &mut rng).unwrap();
        crossed += offspring.iter().filter(|individual| individual.crossings == 1).count() / 2;
    }
    assert!(crossed > 1200, "{}", crossed);
    assert!(crossed < 1600, "{}", crossed);
}

#[test]
fn chance_follows_the_probability() {
    let mut rng = StdRng::seed_from_u64(107);
    let mut hits = 0;
    for _ in 0..1000 {
        assert!(!chance(&mut rng, ratio(0, 3)));
        assert!(chance(&mut rng, ratio(3, 3)));
        if chance(&mut rng, ratio(1, 4)) {
            hits += 1;
        }
    }
    assert!(hits > 180, "{}", hits);
    assert!(hits < 320, "{}", hits);
}

/// A string of bits, to be filled with ones.
#[derive(Clone, Debug)]
struct Bits {
    bits: Vec<bool>,
}

impl Individual for Bits {
    fn well_formed(&self) -> bool {
        !self.bits.is_empty()
    }

    fn genome_len(&self) -> usize {
        self.bits.len()
    }

    fn lemma_clone_is_well_formed(_individual: &Self, _copy: &Self) {}

    fn mutates_into(&self, _rate: Probability, mutant: &Self) -> bool {
        mutant.bits.len() == self.bits.len()
    }

    fn crosses_into(&self, other: &Self, children: &(Self, Self)) -> bool {
        children.0.bits.len() == self.bits.len() && children.1.bits.len() == other.bits.len()
    }

    fn mutate(self, rate: Probability, rng: &mut StdRng) -> Self {
        Bits { bits: self.bits.iter().map(|bit| bit ^ chance(rng, rate)).collect() }
    }

    fn cross(&self, other: &Self, rng: &mut StdRng) -> (Self, Self) {
        let cut = rng.gen_range(0..self.bits.len());
        let mut first = self.bits[..cut].to_vec();
        first.extend_from_slice(&other.bits[cut..]);
        let mut second = other.bits[..cut].to_vec();
        second.extend_from_slice(&self.bits[cut..]);
        (Bits { bits: first }, Bits { bits: second })
    }
}

struct AllOnes {
    len: usize,
}

impl Problem<Bits, usize> for AllOnes {
    fn genome_len(&self) -> usize {
        self.len
    }

    fn score(&self, individual: &Bits) -> usize {
        self.fitness(individual)
    }

    fn generate_individual(&self, rng: &mut StdRng) -> Bits {
        Bits { bits: (0..self.len).map(|_| rng.gen_range(0..2) == 1).collect() }
    }

    fn fitness(&self, individual: &Bits) -> usize {
        individual.bits.iter().filter(|bit| !**bit).count()
    }
}

#[test]
fn the_engine_runs_on_other_individuals() {
    let problem = AllOnes { len: 16 };
    let params = GaParameters {
        pop_size: 40,
        tour_size: 4,
        mutation_prob: ratio(1, 50),
        crossover_prob: ratio(7, 10),
    };
    let mut rng = StdRng::seed_from_u64(109);
    let mut buffer = Vec::new();
    let mut ga = Ga::new(&problem, &params, &mut buffer, &mut rng);
    let mut best = usize::MAX;
    for _ in 0..60 {
        let result = ga.next().unwrap();
        assert_eq!(ga.current_population().len(), 40);
        assert_eq!(result.best_fitness, problem.fitness(&result.best));
        let least = ga.current_population().iter().map(|member| member.1).min().unwrap();
        assert_eq!(result.best_fitness, least);
        best = best.min(result.best_fitness);
    }
    assert_eq!(best, 0);
}

#[test]
fn a_run_repeats_under_the_same_seed() {
    let problem = AllOnes { len: 12 };
    let params = GaParameters {
        pop_size: 9,
        tour_size: 2,
        mutation_prob: ratio(1, 10),
        crossover_prob: ratio(1, 2),
    };
    let run = |seed: u64| {
        let mut rng = StdRng::seed_from_u64(seed);
        let mut buffer = Vec::new();
        let mut ga = Ga::new(&problem, &params, &mut buffer, &mut rng);
        let mut history = Vec::new();
        for _ in 0..15 {
            let result = ga.next().unwrap();
            history.push((result.best.bits, result.best_fitness));
        }
        history
    };
    assert_eq!(run(5), run(5));
    assert_ne!(run(5), run(6));
}
