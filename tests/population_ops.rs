use rand::rngs::StdRng;
use rand::SeedableRng;
use tsp_ga::gene::Gene;
use tsp_ga::population::{Breeding, Population};

#[test]
fn new_population_has_requested_size() {
    let rand: StdRng = SeedableRng::from_seed([42u8; 32]);
    let p = Population::new(rand, 6, 5);
    assert_eq!(p.pops.len(), 5);
    for g in &p.pops {
        assert_eq!(g.gene.len(), 6);
        assert!(g.is_valid());
    }
}

#[test]
fn population_draws_in_sequence() {
    let rand: StdRng = SeedableRng::from_seed([42u8; 32]);
    let p = Population::new(rand, 8, 2);
    let mut r: StdRng = SeedableRng::from_seed([42u8; 32]);
    assert_eq!(p.pops[0], Gene::new(&mut r, 8));
    assert_eq!(p.pops[1], Gene::new(&mut r, 8));
}

#[test]
fn replication_copies_parent() {
    let rand: StdRng = SeedableRng::from_seed([1u8; 32]);
    let p = Population::new(rand, 5, 3);
    let mut r: StdRng = SeedableRng::from_seed([2u8; 32]);
    let mut next = vec![];
    p.breed(&mut r, Breeding::Replication(1), &mut next);
    assert_eq!(next, vec![p.pops[1].clone()]);
}

#[test]
fn mutation_adds_one_swapped_child() {
    let p = Population { pops: vec![Gene { gene: vec![0, 1, 2, 3] }] };
    let mut r: StdRng = SeedableRng::from_seed([9u8; 32]);
    let mut next = vec![];
    p.breed(&mut r, Breeding::Mutation(0), &mut next);
    assert_eq!(next.len(), 1);
    assert!(next[0].is_valid());
    let diff = (0..4).filter(|&i| next[0].gene[i] != i).count();
    assert!(diff == 0 || diff == 2);
}

#[test]
fn crossover_adds_two_children() {
    let p = Population {
        pops: vec![Gene { gene: vec![0, 1, 2, 3] }, Gene { gene: vec![3, 2, 1, 0] }],
    };
    let mut r: StdRng = SeedableRng::from_seed([9u8; 32]);
    let mut next = vec![Gene { gene: vec![1, 0, 2, 3] }];
    p.breed(&mut r, Breeding::Crossover(0, 1), &mut next);
    assert_eq!(next.len(), 3);
    assert_eq!(next[0], Gene { gene: vec![1, 0, 2, 3] });
    assert!(next[1].is_valid() && next[2].is_valid());
}

#[test]
fn crossover_only_generation_fills_even_size() {
    let rand: StdRng = SeedableRng::from_seed([5u8; 32]);
    let p = Population::new(rand, 7, 6);
    let mut r: StdRng = SeedableRng::from_seed([6u8; 32]);
    let mut next = vec![];
    let mut i = 0;
    while next.len() < 6 {
        p.breed(&mut r, Breeding::Crossover(i % 6, (i + 1) % 6), &mut next);
        i += 1;
    }
    assert_eq!(next.len(), 6);
    for g in &next {
        assert!(g.is_valid());
    }
}

#[test]
fn crossover_only_generation_overshoots_odd_size() {
    let rand: StdRng = SeedableRng::from_seed([5u8; 32]);
    let p = Population::new(rand, 7, 5);
    let mut r: StdRng = SeedableRng::from_seed([6u8; 32]);
    let mut next = vec![];
    while next.len() < 5 {
        p.breed(&mut r, Breeding::Crossover(0, 1), &mut next);
    }
    assert_eq!(next.len(), 6);
}
