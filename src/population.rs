//! The population of candidate tours, and how one reproduction event adds
//! to the next generation.

use vstd::prelude::*;
use rand::rngs::StdRng;
use crate::gene::{
    Gene, is_crossover_child, is_permutation, is_swap, lemma_crossover_keeps_permutation,
    lemma_swap_keeps_permutation,
};

verus! {

/// Every gene of `genes` is a tour of `n` cities.
pub open spec fn all_tours(genes: Seq<Gene>, n: nat) -> bool {
    forall|i: int|
        0 <= i < genes.len() ==> {
            &&& (#[trigger] genes[i]).gene@.len() == n
            &&& is_permutation(genes[i].gene@)
        }
}

/// One reproduction event of a generation step, its parents already chosen
/// by their positions in the current population.
#[derive(Debug, Clone, Copy)]
pub enum Breeding {
    /// The two parents are crossed over and both children kept.
    Crossover(usize, usize),
    /// The parent is mutated by a swap.
    Mutation(usize),
    /// The parent is copied unchanged.
    Replication(usize),
}

/// The genes of one generation.
#[derive(Debug)]
pub struct Population {
    pub pops: Vec<Gene>,
}

/// An exact copy of a gene.
fn copy_gene(g: &Gene) -> (r: Gene)
    ensures
        r.gene@ == g.gene@,
{
    let mut v: Vec<usize> = Vec::new();
    let mut i: usize = 0;
    while i < g.gene.len()
        invariant
            i <= g.gene@.len(),
            v@ == g.gene@.subrange(0, i as int),
        decreases g.gene@.len() - i,
    {
        v.push(g.gene[i]);
        i = i + 1;
    }
    assert(v@ =~= g.gene@);
    Gene { gene: v }
}

impl Population {
    /// `max_pops` independent random tours of `len` cities, drawn one after
    /// the other from `rand`.
    pub fn new(rand: StdRng, len: usize, max_pops: usize) -> (r: Population)
        ensures
            r.pops@.len() == max_pops,
            all_tours(r.pops@, len as nat),
    {
        let mut rand = rand;
        let mut pops: Vec<Gene> = Vec::new();
        let mut i: usize = 0;
        while i < max_pops
            invariant
                i <= max_pops,
                pops@.len() == i,
                all_tours(pops@, len as nat),
            decreases max_pops - i,
        {
            let g = Gene::new(&mut rand, len);
            pops.push(g);
            i = i + 1;
        }
        Population { pops }
    }

    /// The number of cities in each tour: the length of the first gene.
    pub open spec fn cities(&self) -> nat {
        self.pops@[0].gene@.len()
    }

    /// A population that can breed: at least one gene, and every gene a
    /// tour of the same, positive number of cities.
    pub open spec fn wf(&self) -> bool {
        &&& self.pops@.len() > 0
        &&& self.cities() > 0
        &&& all_tours(self.pops@, self.cities())
    }

    /// Carries out one reproduction event and appends its offspring to
    /// `next`: two children for a crossover, one otherwise.  The parents in
    /// the population itself are left as they are.
    pub fn breed(&self, rand: &mut StdRng, event: Breeding, next: &mut Vec<Gene>)
        requires
            self.wf(),
            match event {
                Breeding::Crossover(a, b) => a < self.pops@.len() && b < self.pops@.len(),
                Breeding::Mutation(a) => a < self.pops@.len(),
                Breeding::Replication(a) => a < self.pops@.len(),
            },
        ensures
            final(next)@.subrange(0, old(next)@.len() as int) == old(next)@,
            match event {
                Breeding::Crossover(a, b) => {
                    &&& final(next)@.len() == old(next)@.len() + 2
                    &&& exists|cut: int|
                        0 <= cut < self.cities() && is_crossover_child(
                            self.pops@[a as int].gene@,
                            self.pops@[b as int].gene@,
                            cut,
                            final(next)@[old(next)@.len() as int].gene@,
                        ) && is_crossover_child(
                            self.pops@[b as int].gene@,
                            self.pops@[a as int].gene@,
                            cut,
                            final(next)@[old(next)@.len() as int + 1].gene@,
                        )
                },
                Breeding::Mutation(a) => {
                    &&& final(next)@.len() == old(next)@.len() + 1
                    &&& exists|j: int, k: int|
                        is_swap(self.pops@[a as int].gene@, j, k, final(next)@.last().gene@)
                },
                Breeding::Replication(a) => {
                    &&& final(next)@.len() == old(next)@.len() + 1
                    &&& final(next)@.last().gene@ == self.pops@[a as int].gene@
                },
            },
            forall|i: int|
                old(next)@.len() <= i < final(next)@.len() ==> {
                    &&& (#[trigger] final(next)@[i]).gene@.len() == self.cities()
                    &&& is_permutation(final(next)@[i].gene@)
                },
    {
        let ghost n = self.cities();
        let ghost before = next@;
        match event {
            Breeding::Crossover(a, b) => {
                let mut x = copy_gene(&self.pops[a]);
                let mut y = copy_gene(&self.pops[b]);
                let ghost gx = x.gene@;
                let ghost gy = y.gene@;
                assert(self.pops@[a as int].gene@.len() == n);
                assert(self.pops@[b as int].gene@.len() == n);
                x.crossover(rand, &mut y);
                let ghost cut = choose|cut: int|
                    0 <= cut < gx.len() && is_crossover_child(gx, gy, cut, x.gene@)
                        && is_crossover_child(gy, gx, cut, y.gene@);
                proof {
                    lemma_crossover_keeps_permutation(gx, gy, cut, x.gene@);
                    lemma_crossover_keeps_permutation(gy, gx, cut, y.gene@);
                }
                let ghost cx = x.gene@;
                let ghost cy = y.gene@;
                next.push(x);
                next.push(y);
                assert(next@.subrange(0, before.len() as int) =~= before);
                assert(next@[before.len() as int].gene@ == cx);
                assert(next@[before.len() as int + 1].gene@ == cy);
                assert(gx == self.pops@[a as int].gene@ && gy == self.pops@[b as int].gene@);
                assert(0 <= cut < self.cities() && is_crossover_child(gx, gy, cut, next@[before.len() as int].gene@)
                    && is_crossover_child(gy, gx, cut, next@[before.len() as int + 1].gene@));
            },
            Breeding::Mutation(a) => {
                let mut x = copy_gene(&self.pops[a]);
                let ghost gx = x.gene@;
                assert(gx.len() == n);
                x.mutate(rand);
                let ghost (j, k) = choose|j: int, k: int| is_swap(gx, j, k, x.gene@);
                proof {
                    lemma_swap_keeps_permutation(gx, j, k, x.gene@);
                }
                next.push(x);
                assert(next@.subrange(0, before.len() as int) =~= before);
                assert(is_swap(self.pops@[a as int].gene@, j, k, next@.last().gene@));
            },
            Breeding::Replication(a) => {
                let x = copy_gene(&self.pops[a]);
                assert(x.gene@.len() == n);
                next.push(x);
                assert(next@.subrange(0, before.len() as int) =~= before);
            },
        }
    }
}

} // verus!
