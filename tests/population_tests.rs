use snake_evolve::agent::{Agent, Binary};
use snake_evolve::chance::Chance;
use snake_evolve::population::{breeding_plan, check_ranking, elite_count, plan_from_picks, Population};

fn ranking_by_true_count(agents: &[Binary]) -> Vec<usize> {
    let mut idx: Vec<usize> = (0..agents.len()).collect();
    idx.sort_by_key(|&i| agents[i].true_count());
    idx
}

fn best_count(p: &Population<Binary>) -> usize {
    p.get_agents().iter().map(|a| a.true_count()).max().unwrap()
}

fn fitness(b: &Binary) -> f64 {
    (b.true_count() as f64).powi(40)
}

#[test]
fn chance_accepts_only_probabilities() {
    assert!(Chance::new(1, 0).is_none());
    assert!(Chance::new(3, 2).is_none());
    assert_eq!(Chance::new(1, 20), Some(Chance { numerator: 1, denominator: 20 }));
    assert!(!Chance::new(0, 5).unwrap().occurs());
    assert!(Chance::new(5, 5).unwrap().occurs());
}

#[test]
fn binary_new_has_requested_length() {
    let b = Binary::new(8, Chance::new(1, 20).unwrap());
    assert_eq!(b.get_vals().len(), 8);
    assert_eq!(b.get_mutation_prob(), Chance::new(1, 20).unwrap());
}

#[test]
fn binary_true_count_and_fitness() {
    let b = Binary::from_bits(vec![true, false, true, true], Chance::new(1, 2).unwrap());
    assert_eq!(b.true_count(), 3);
    assert_eq!(fitness(&b), 3f64.powi(40));
}

#[test]
fn binary_crossover_takes_bits_from_parents() {
    let c = Chance::new(1, 2).unwrap();
    let a = Binary::from_bits(vec![true; 6], c);
    let b = Binary::from_bits(vec![false; 4], c);
    let child = Agent::crossover(&a, &b);
    assert_eq!(child.get_vals().len(), 4);
    let same = Binary::from_bits(vec![true, false, true], c).crossover(&Binary::from_bits(vec![true, false, true], c));
    assert_eq!(same.get_vals(), &[true, false, true]);
}

#[test]
fn binary_mutate_never_and_always() {
    let bits = vec![true, false, false, true, true];
    let keep = Binary::from_bits(bits.clone(), Chance::new(0, 3).unwrap());
    assert_eq!(keep.mutate().get_vals(), &bits[..]);
    let flip = Binary::from_bits(bits.clone(), Chance::new(3, 3).unwrap());
    assert_eq!(Agent::mutate(&flip).get_vals(), &[false, true, true, false, false]);
}

#[test]
fn elite_is_a_tenth_rounded_up() {
    assert_eq!(elite_count(1), 1);
    assert_eq!(elite_count(6), 1);
    assert_eq!(elite_count(10), 1);
    assert_eq!(elite_count(11), 2);
    assert_eq!(elite_count(100), 10);
}

#[test]
fn ranking_must_list_each_index_once() {
    assert!(check_ranking(&vec![2, 0, 1], 3));
    assert!(!check_ranking(&vec![2, 0, 0], 3));
    assert!(!check_ranking(&vec![2, 0, 3], 3));
    assert!(!check_ranking(&vec![0, 1], 3));
}

#[test]
fn plan_starts_with_best_and_draws_from_elite() {
    let ranking: Vec<usize> = (0..30).rev().collect();
    let plan = breeding_plan(&ranking);
    assert_eq!(plan.len(), 30);
    assert_eq!(plan[0], 0);
    // the elite is the last three of the ranking: agents 2, 1 and 0
    assert!(plan.iter().all(|&p| p <= 2));
}

#[test]
fn breed_keeps_size() {
    let c = Chance::new(1, 20).unwrap();
    let agents: Vec<Binary> = (0..13).map(|_| Binary::new(8, c)).collect();
    let pop = Population::new(agents);
    let ranking = ranking_by_true_count(pop.get_agents());
    let next = pop.breed(&ranking);
    assert_eq!(next.get_agents().len(), 13);
}

#[test]
fn breed_never_loses_the_best_score() {
    let c = Chance::new(1, 4).unwrap();
    let agents: Vec<Binary> = (0..20).map(|_| Binary::new(12, c)).collect();
    let mut pop = Population::new(agents);
    for _ in 0..30 {
        let before = best_count(&pop);
        let ranking = ranking_by_true_count(pop.get_agents());
        let best = pop.get_agents()[ranking[ranking.len() - 1]].get_vals().to_vec();
        pop = pop.breed(&ranking);
        assert_eq!(pop.get_agents()[0].get_vals(), &best[..]);
        assert!(best_count(&pop) >= before);
    }
}

#[test]
fn binary_population_evolves_towards_all_true() {
    let c = Chance::new(1, 20).unwrap();
    let agents: Vec<Binary> = (0..6).map(|_| Binary::new(8, c)).collect();
    let mut pop = Population::new(agents);
    let mut best = best_count(&pop);
    for _ in 0..100 {
        let ranking = ranking_by_true_count(pop.get_agents());
        pop = pop.breed(&ranking);
        assert_eq!(pop.get_agents().len(), 6);
        let now = best_count(&pop);
        assert!(now >= best);
        best = now;
    }
    assert_eq!(best, 8);
}

#[test]
fn plan_from_given_draws() {
    // twenty agents: the elite is the last two of the ranking
    let ranking: Vec<usize> = vec![5, 9, 0, 1, 2, 3, 4, 6, 7, 8, 10, 11, 12, 13, 14, 15, 16, 17, 19, 18];
    assert_eq!(plan_from_picks(&ranking, &vec![0, 1, 1, 0]), Some(vec![18, 18, 19, 19, 18]));
    assert_eq!(plan_from_picks(&ranking, &vec![]), Some(vec![18]));
    assert_eq!(plan_from_picks(&ranking, &vec![0, 2]), None);
}

#[test]
fn crossover_by_follows_the_coins() {
    let c = Chance::new(1, 2).unwrap();
    let a = Binary::from_bits(vec![true, true, true, true], c);
    let b = Binary::from_bits(vec![false, false, false], c);
    let child = a.crossover_by(&b, &vec![true, false, true]);
    assert_eq!(child.get_vals(), &[true, false, true]);
}

#[test]
fn mutate_by_flips_exactly_the_marked_bits() {
    let c = Chance::new(1, 2).unwrap();
    let a = Binary::from_bits(vec![true, false, true, false], c);
    let child = a.mutate_by(&vec![true, true, false, false]);
    assert_eq!(child.get_vals(), &[false, true, true, false]);
    assert_eq!(child.get_mutation_prob(), c);
}
