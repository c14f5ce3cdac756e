use rand::rngs::StdRng;
use rand::SeedableRng;
use rust_tsp::ga::mutation::{draw_swaps, swap_by_plan, swap_mutation};
use rust_tsp::Probability;

fn sorted(genome: &[usize]) -> Vec<usize> {
    let mut values = genome.to_vec();
    values.sort();
    values
}

#[test]
fn probability_is_a_ratio_in_the_unit_interval() {
    assert!(Probability::new(0, 1).is_some());
    assert!(Probability::new(1, 1).is_some());
    assert!(Probability::new(1, 10).is_some());
    assert!(Probability::new(7, 7).is_some());
    assert!(Probability::new(2, 1).is_none());
    assert!(Probability::new(0, 0).is_none());
    assert!(Probability::new(1, 0).is_none());
}

#[test]
fn mutation_with_rate_zero_changes_nothing() {
    let never = Probability::new(0, 1).unwrap();
    for seed in 0..50 {
        let mut rng = StdRng::seed_from_u64(seed);
        let mut genome = vec![4, 2, 0, 3, 1, 5];
        swap_mutation(&mut genome, never, &mut rng);
        assert_eq!(genome, vec![4, 2, 0, 3, 1, 5]);
    }
}

#[test]
fn mutation_with_rate_one_chooses_every_position() {
    let always = Probability::new(1, 1).unwrap();
    for seed in 0..50 {
        let mut rng = StdRng::seed_from_u64(seed);
        let plan = draw_swaps(12, always, &mut rng);
        assert_eq!(plan.len(), 12);
        for partner in plan {
            assert!(matches!(partner, Some(j) if j < 12));
        }
    }
}

#[test]
fn mutation_with_rate_one_reaches_every_position() {
    let always = Probability::new(1, 1).unwrap();
    let start = vec![0, 1, 2, 3, 4, 5, 6, 7];
    let mut moved = vec![false; start.len()];
    let mut rng = StdRng::seed_from_u64(17);
    for _ in 0..200 {
        let mut genome = start.clone();
        swap_mutation(&mut genome, always, &mut rng);
        for (position, gene) in genome.iter().enumerate() {
            if *gene != start[position] {
                moved[position] = true;
            }
        }
    }
    assert_eq!(moved, vec![true; start.len()]);
}

#[test]
fn draw_swaps_with_rate_zero_is_idle() {
    let never = Probability::new(0, 5).unwrap();
    let mut rng = StdRng::seed_from_u64(1);
    assert_eq!(draw_swaps(6, never, &mut rng), vec![None; 6]);
    assert_eq!(draw_swaps(0, never, &mut rng), Vec::<Option<usize>>::new());
}

#[test]
fn draw_swaps_follows_the_rate() {
    let tenth = Probability::new(1, 10).unwrap();
    let mut rng = StdRng::seed_from_u64(23);
    let mut chosen = 0;
    for _ in 0..100 {
        let plan = draw_swaps(100, tenth, &mut rng);
        assert_eq!(plan.len(), 100);
        for partner in plan {
            if let Some(j) = partner {
                assert!(j < 100);
                chosen += 1;
            }
        }
    }
    assert!(chosen > 700, "{}", chosen);
    assert!(chosen < 1300, "{}", chosen);
}

#[test]
fn swap_by_plan_swaps_in_the_order_of_the_positions() {
    let mut genome = vec![0, 1, 2, 3];
    swap_by_plan(&mut genome, &[Some(2), None, Some(3), Some(0)]);
    assert_eq!(genome, vec![0, 1, 3, 2]);
}

#[test]
fn swap_by_plan_with_itself_as_partner_changes_nothing() {
    let mut genome = vec![2, 0, 1];
    swap_by_plan(&mut genome, &[Some(0), Some(1), Some(2)]);
    assert_eq!(genome, vec![2, 0, 1]);
}

#[test]
fn swap_by_plan_on_an_empty_genome() {
    let mut genome: Vec<usize> = Vec::new();
    swap_by_plan(&mut genome, &[]);
    assert!(genome.is_empty());
}

#[test]
fn mutation_keeps_the_values() {
    let half = Probability::new(1, 2).unwrap();
    let mut rng = StdRng::seed_from_u64(29);
    for _ in 0..300 {
        let mut genome = vec![3, 1, 4, 1, 5, 9, 2, 6, 5, 3];
        swap_mutation(&mut genome, half, &mut rng);
        assert_eq!(genome.len(), 10);
        assert_eq!(sorted(&genome), vec![1, 1, 2, 3, 3, 4, 5, 5, 6, 9]);
    }
}

#[test]
fn mutation_of_an_empty_genome() {
    let always = Probability::new(1, 1).unwrap();
    let mut rng = StdRng::seed_from_u64(2);
    let mut genome: Vec<usize> = Vec::new();
    swap_mutation(&mut genome, always, &mut rng);
    assert!(genome.is_empty());
}

#[test]
fn mutation_repeats_under_the_same_seed() {
    let third = Probability::new(1, 3).unwrap();
    for seed in 0..20 {
        let mut first = vec![0, 1, 2, 3, 4, 5, 6];
        let mut second = first.clone();
        swap_mutation(&mut first, third, &mut StdRng::seed_from_u64(seed));
        swap_mutation(&mut second, third, &mut StdRng::seed_from_u64(seed));
        assert_eq!(first, second);
    }
}
