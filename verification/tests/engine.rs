use rand::rngs::StdRng;
use rand::SeedableRng;
use rust_tsp::ga::next_iteration;
use rust_tsp::{Ga, GaParameters, Individual, Probability, Problem, TspIndividual};

struct Cities {
    distances: Vec<Vec<f64>>,
}

impl Cities {
    fn new(cities: &[(f64, f64)]) -> Cities {
        let distances = cities
            .iter()
            .map(|from| cities.iter().map(|to| f64::hypot(to.0 - from.0, to.1 - from.1)).collect())
            .collect();
        Cities { distances }
    }

    fn unit_square() -> Cities {
        Cities::new(&[(0.0, 0.0), (0.0, 1.0), (1.0, 1.0), (1.0, 0.0)])
    }
}

impl Problem<TspIndividual, f64> for Cities {
    fn genome_len(&self) -> usize {
        self.distances.len()
    }

    fn score(&self, individual: &TspIndividual) -> f64 {
        self.fitness(individual)
    }

    fn generate_individual(&self, rng: &mut StdRng) -> TspIndividual {
        TspIndividual::random(self.distances.len(), rng)
    }

    fn fitness(&self, individual: &TspIndividual) -> f64 {
        let mut sum = 0.0;
        for i in 0..individual.cities.len() {
            let (from, to) = individual.leg(i);
            sum += self.distances[from][to];
        }
        sum
    }
}

struct Broken;

impl Problem<TspIndividual, f64> for Broken {
    fn genome_len(&self) -> usize {
        3
    }

    fn score(&self, individual: &TspIndividual) -> f64 {
        self.fitness(individual)
    }

    fn generate_individual(&self, rng: &mut StdRng) -> TspIndividual {
        TspIndividual::random(3, rng)
    }

    fn fitness(&self, _individual: &TspIndividual) -> f64 {
        f64::NAN
    }
}

fn ratio(numerator: u32, denominator: u32) -> Probability {
    Probability::new(numerator, denominator).unwrap()
}

fn is_tour(cities: &[usize], len: usize) -> bool {
    let mut seen = vec![false; len];
    for &city in cities {
        if city >= len || seen[city] {
            return false;
        }
        seen[city] = true;
    }
    cities.len() == len
}

#[test]
fn parameters_need_a_population_and_a_tournament_within_it() {
    let params = |pop_size, tour_size| GaParameters {
        pop_size,
        tour_size,
        mutation_prob: ratio(1, 10),
        crossover_prob: ratio(7, 10),
    };
    assert!(params(20, 3).is_well_formed());
    assert!(params(1, 1).is_well_formed());
    assert!(params(5, 5).is_well_formed());
    assert!(!params(0, 0).is_well_formed());
    assert!(!params(0, 1).is_well_formed());
    assert!(!params(5, 0).is_well_formed());
    assert!(!params(5, 6).is_well_formed());
}

#[test]
fn random_tours_are_permutations() {
    let mut rng = StdRng::seed_from_u64(61);
    let mut shuffled = 0;
    for _ in 0..100 {
        let tour = TspIndividual::random(9, &mut rng);
        assert!(is_tour(&tour.cities, 9));
        if tour.cities != vec![0, 1, 2, 3, 4, 5, 6, 7, 8] {
            shuffled += 1;
        }
    }
    assert!(shuffled > 90);
    assert!(TspIndividual::random(0, &mut rng).cities.is_empty());
    assert_eq!(TspIndividual::random(1, &mut rng).cities, vec![0]);
}

#[test]
fn the_legs_of_a_tour_close_the_round_trip() {
    let tour = TspIndividual { cities: vec![2, 0, 3, 1] };
    assert_eq!(tour.leg(0), (2, 0));
    assert_eq!(tour.leg(1), (0, 3));
    assert_eq!(tour.leg(2), (3, 1));
    assert_eq!(tour.leg(3), (1, 2));
    assert_eq!(TspIndividual { cities: vec![0] }.leg(0), (0, 0));
}

#[test]
fn the_length_of_a_round_trip_on_the_unit_square() {
    let problem = Cities::unit_square();
    assert_eq!(problem.fitness(&TspIndividual { cities: vec![0, 1, 2, 3] }), 4.0);
    assert_eq!(problem.fitness(&TspIndividual { cities: vec![3, 2, 1, 0] }), 4.0);
    let crossing = problem.fitness(&TspIndividual { cities: vec![0, 2, 1, 3] });
    assert!((crossing - (2.0 + 2.0 * 2.0_f64.sqrt())).abs() < 1e-12);
}

#[test]
fn tours_mutate_and_cross_into_tours() {
    let mut rng = StdRng::seed_from_u64(67);
    for _ in 0..100 {
        let a = TspIndividual::random(8, &mut rng);
        let b = TspIndividual::random(8, &mut rng);
        let (c, d) = a.cross(&b, &mut rng);
        assert!(is_tour(&c.cities, 8));
        assert!(is_tour(&d.cities, 8));
        let e = c.mutate(ratio(1, 4), &mut rng);
        assert!(is_tour(&e.cities, 8));
    }
}

#[test]
fn a_tour_mutated_with_rate_zero_is_unchanged() {
    let mut rng = StdRng::seed_from_u64(71);
    let tour = TspIndividual { cities: vec![2, 0, 3, 1] };
    assert_eq!(tour.mutate(ratio(0, 1), &mut rng).cities, vec![2, 0, 3, 1]);
}

#[test]
fn a_new_run_holds_a_scored_population() {
    let problem = Cities::unit_square();
    let params = GaParameters {
        pop_size: 20,
        tour_size: 3,
        mutation_prob: ratio(1, 10),
        crossover_prob: ratio(7, 10),
    };
    let mut rng = StdRng::seed_from_u64(73);
    let mut buffer = vec![(TspIndividual { cities: vec![0, 1, 2, 3] }, 0.0)];
    let ga = Ga::new(&problem, &params, &mut buffer, &mut rng);
    assert_eq!(ga.current_population().len(), 20);
    for (individual, fitness) in ga.current_population() {
        assert!(is_tour(&individual.cities, 4));
        assert_eq!(*fitness, problem.fitness(individual));
    }
}

#[test]
fn every_generation_keeps_size_and_scores() {
    let problem = Cities::unit_square();
    for pop_size in [1, 2, 3, 7, 20] {
        let params = GaParameters {
            pop_size,
            tour_size: 1,
            mutation_prob: ratio(1, 2),
            crossover_prob: ratio(1, 1),
        };
        let mut rng = StdRng::seed_from_u64(79);
        let mut buffer = Vec::new();
        let mut ga = Ga::new(&problem, &params, &mut buffer, &mut rng);
        for _ in 0..10 {
            let result = ga.next().unwrap();
            assert_eq!(ga.current_population().len(), pop_size);
            let mut least = f64::INFINITY;
            for (individual, fitness) in ga.current_population() {
                assert!(is_tour(&individual.cities, 4));
                assert_eq!(*fitness, problem.fitness(individual));
                if *fitness < least {
                    least = *fitness;
                }
            }
            assert_eq!(result.best_fitness, least);
            assert_eq!(result.best_fitness, problem.fitness(&result.best));
        }
    }
}

#[test]
fn next_iteration_gives_one_individual_for_each_member() {
    let problem = Cities::unit_square();
    let mut rng = StdRng::seed_from_u64(83);
    let population: Vec<(TspIndividual, f64)> = (0..5)
        .map(|_| {
            let individual = problem.generate_individual(&mut rng);
            let fitness = problem.fitness(&individual);
            (individual, fitness)
        })
        .collect();
    let offspring = next_iteration(&population, ratio(1, 10), 2, ratio(7, 10), &mut rng).unwrap();
    assert_eq!(offspring.len(), 5);
    for individual in offspring {
        assert!(is_tour(&individual.cities, 4));
    }
}

#[test]
fn without_crossover_and_mutation_the_offspring_are_selected_members() {
    let problem = Cities::unit_square();
    let mut rng = StdRng::seed_from_u64(89);
    let population: Vec<(TspIndividual, f64)> = (0..6)
        .map(|_| {
            let individual = problem.generate_individual(&mut rng);
            let fitness = problem.fitness(&individual);
            (individual, fitness)
        })
        .collect();
    let offspring = next_iteration(&population, ratio(0, 1), 3, ratio(0, 1), &mut rng).unwrap();
    for individual in offspring {
        assert!(population.iter().any(|member| member.0.cities == individual.cities));
    }
}

#[test]
fn the_unit_square_is_solved() {
    let problem = Cities::unit_square();
    let params = GaParameters {
        pop_size: 20,
        tour_size: 3,
        mutation_prob: ratio(1, 10),
        crossover_prob: ratio(7, 10),
    };
    for seed in 0..10 {
        let mut rng = StdRng::seed_from_u64(seed);
        let mut buffer = Vec::new();
        let mut ga = Ga::new(&problem, &params, &mut buffer, &mut rng);
        let mut best = f64::INFINITY;
        for _ in 0..50 {
            let result = ga.next().unwrap();
            if result.best_fitness < best {
                best = result.best_fitness;
            }
        }
        assert_eq!(best, 4.0);
    }
}

#[test]
fn the_best_of_a_generation_can_be_worse_than_the_one_before() {
    let problem = Cities::unit_square();
    let params = GaParameters {
        pop_size: 2,
        tour_size: 1,
        mutation_prob: ratio(1, 1),
        crossover_prob: ratio(1, 1),
    };
    let mut worsened = 0;
    for seed in 0..20 {
        let mut rng = StdRng::seed_from_u64(seed);
        let mut buffer = Vec::new();
        let mut ga = Ga::new(&problem, &params, &mut buffer, &mut rng);
        let mut last = ga.next().unwrap().best_fitness;
        let mut overall = last;
        for _ in 0..30 {
            let current = ga.next().unwrap().best_fitness;
            if current > last {
                worsened += 1;
            }
            if current < overall {
                overall = current;
            }
            last = current;
        }
        assert!(overall <= last);
    }
    assert!(worsened > 0);
}

#[test]
fn a_run_fails_on_fitness_that_cannot_be_ordered() {
    let params = GaParameters {
        pop_size: 4,
        tour_size: 2,
        mutation_prob: ratio(1, 10),
        crossover_prob: ratio(7, 10),
    };
    let mut rng = StdRng::seed_from_u64(97);
    let mut buffer = Vec::new();
    let mut ga = Ga::new(&Broken, &params, &mut buffer, &mut rng);
    let clash = ga.next().unwrap_err();
    assert!(clash.first < 4);
    assert!(clash.second < 4);
    assert!(ga.current_population()[clash.first].1.is_nan());
}
