use rand::rngs::StdRng;
use rand::SeedableRng;
use tsp_ga::gene::Gene;
use tsp_ga::rank::{count_below, find, order};

fn sorted(g: &Gene) -> Vec<usize> {
    let mut v = g.gene.clone();
    v.sort();
    v
}

#[test]
fn new_gene() {
    let mut rand: StdRng = SeedableRng::from_seed([42u8; 32]);
    let a = Gene::new(&mut rand, 8);
    assert_eq!(a, Gene { gene: vec![5, 1, 4, 6, 7, 3, 0, 2] });
}

#[test]
fn crossover_gene() {
    let mut rand: StdRng = SeedableRng::from_seed([12u8; 32]);
    let mut a = Gene::new(&mut rand, 8);
    let mut b = Gene::new(&mut rand, 8);
    a.crossover(&mut rand, &mut b);
    assert_eq!(a, Gene { gene: vec![5, 3, 1, 4, 2, 7, 0, 6] });
    assert_eq!(b, Gene { gene: vec![6, 5, 3, 1, 0, 4, 7, 2] });
}

#[test]
fn mutate_gene() {
    let mut rand: StdRng = SeedableRng::from_seed([42u8; 32]);
    let mut a = Gene::new(&mut rand, 8);
    a.mutate(&mut rand);
    assert_eq!(a, Gene { gene: vec![6, 1, 4, 5, 7, 3, 0, 2] });
}

#[test]
fn test_order() {
    let vec = vec![5, 3, 8, 7];
    assert_eq!(order(vec), vec![(1, 5), (0, 3), (3, 8), (2, 7)])
}

#[test]
fn order_of_empty_is_empty() {
    assert_eq!(order(vec![]), vec![]);
}

#[test]
fn count_below_counts_smaller_entries() {
    assert_eq!(count_below(&vec![5, 3, 8, 7], 7), 2);
    assert_eq!(count_below(&vec![5, 3, 8, 7], 0), 0);
    assert_eq!(count_below(&vec![5, 3, 8, 7], 100), 4);
}

#[test]
fn find_first_match_or_none() {
    let v = vec![(2, 10), (0, 11), (2, 12)];
    assert_eq!(find(&v, 2), Some(0));
    assert_eq!(find(&v, 0), Some(1));
    assert_eq!(find(&v, 1), None);
    assert_eq!(find(&[], 0), None);
}

#[test]
fn crossover_at_fixed_cut() {
    let mut a = Gene { gene: vec![0, 1, 2, 3, 4] };
    let mut b = Gene { gene: vec![4, 3, 2, 1, 0] };
    a.crossover_at(&mut b, 2);
    assert_eq!(a.gene, vec![0, 1, 4, 3, 2]);
    assert_eq!(b.gene, vec![4, 3, 0, 1, 2]);
}

#[test]
fn crossover_keeps_tail_values() {
    let a0 = vec![3, 0, 5, 1, 4, 2];
    let b0 = vec![1, 5, 2, 0, 3, 4];
    for cut in 0..=6 {
        let mut a = Gene { gene: a0.clone() };
        let mut b = Gene { gene: b0.clone() };
        a.crossover_at(&mut b, cut);
        assert_eq!(a.gene[..cut], a0[..cut]);
        assert_eq!(b.gene[..cut], b0[..cut]);
        let mut ta = a.gene[cut..].to_vec();
        let mut ta0 = a0[cut..].to_vec();
        ta.sort();
        ta0.sort();
        assert_eq!(ta, ta0);
        let mut tb = b.gene[cut..].to_vec();
        let mut tb0 = b0[cut..].to_vec();
        tb.sort();
        tb0.sort();
        assert_eq!(tb, tb0);
    }
}

#[test]
fn crossover_at_zero_exchanges_rank_patterns() {
    let mut a = Gene { gene: vec![2, 0, 1] };
    let mut b = Gene { gene: vec![0, 2, 1] };
    a.crossover_at(&mut b, 0);
    assert_eq!(a.gene, vec![0, 2, 1]);
    assert_eq!(b.gene, vec![2, 0, 1]);
}

#[test]
fn mutate_at_swaps_two_entries() {
    let mut a = Gene { gene: vec![0, 1, 2, 3] };
    a.mutate_at(0, 3);
    assert_eq!(a.gene, vec![3, 1, 2, 0]);
    a.mutate_at(2, 2);
    assert_eq!(a.gene, vec![3, 1, 2, 0]);
}

#[test]
fn operators_keep_permutations() {
    let mut rand: StdRng = SeedableRng::from_seed([7u8; 32]);
    let mut a = Gene::new(&mut rand, 16);
    let mut b = Gene::new(&mut rand, 16);
    for _ in 0..50 {
        a.crossover(&mut rand, &mut b);
        a.mutate(&mut rand);
        b.mutate(&mut rand);
        assert!(a.is_valid());
        assert!(b.is_valid());
        assert_eq!(sorted(&a), (0..16).collect::<Vec<usize>>());
        assert_eq!(sorted(&b), (0..16).collect::<Vec<usize>>());
    }
}

#[test]
fn same_seed_same_genes() {
    let mut r1: StdRng = SeedableRng::from_seed([3u8; 32]);
    let mut r2: StdRng = SeedableRng::from_seed([3u8; 32]);
    let mut a1 = Gene::new(&mut r1, 10);
    let mut b1 = Gene::new(&mut r1, 10);
    let mut a2 = Gene::new(&mut r2, 10);
    let mut b2 = Gene::new(&mut r2, 10);
    a1.crossover(&mut r1, &mut b1);
    a2.crossover(&mut r2, &mut b2);
    a1.mutate(&mut r1);
    a2.mutate(&mut r2);
    assert_eq!(a1, a2);
    assert_eq!(b1, b2);
}

#[test]
fn validity_check() {
    assert!(Gene { gene: vec![0, 1] }.is_valid());
    assert!(Gene { gene: vec![2, 0, 1] }.is_valid());
    assert!(Gene { gene: vec![] }.is_valid());
    assert!(!Gene { gene: vec![1, 1] }.is_valid());
    assert!(!Gene { gene: vec![0, 2] }.is_valid());
}

#[test]
fn invalid_permutation_has_no_legs() {
    assert_eq!(Gene { gene: vec![1, 1] }.legs(), None);
}

#[test]
fn legs_of_open_path() {
    assert_eq!(Gene { gene: vec![0, 1] }.legs(), Some(vec![(0, 1)]));
    assert_eq!(Gene { gene: vec![2, 0, 1] }.legs(), Some(vec![(2, 0), (0, 1)]));
    assert_eq!(Gene { gene: vec![0] }.legs(), Some(vec![]));
    assert_eq!(Gene { gene: vec![] }.legs(), Some(vec![]));
}
