//! Tours as permutations, and the operators that breed them.

use vstd::prelude::*;
use rand::rngs::StdRng;
use crate::random::{draw_index, shuffle};
use crate::rank::{find, order, rank, lemma_rank_bound, lemma_rank_injective, lemma_rank_onto};

verus! {

/// A tour of `n` cities is a permutation of `0..n`: `n` distinct indices,
/// each below `n` (equivalently, sorted it reads `0, 1, ..., n - 1`).
pub open spec fn is_permutation(s: Seq<usize>) -> bool {
    &&& s.no_duplicates()
    &&& forall|i: int| 0 <= i < s.len() ==> #[trigger] s[i] < s.len()
}

/// The entries of `s` from position `cut` on.
pub open spec fn tail(s: Seq<usize>, cut: int) -> Seq<usize> {
    s.subrange(cut, s.len() as int)
}

/// `child` is what order-based crossover at `cut` makes of `parent` with
/// `partner`: the head `[0, cut)` of `parent` unchanged, then at each tail
/// position `i` the entry of `parent`'s tail whose rank in that tail is the
/// rank of `partner[i]` in `partner`'s tail.
pub open spec fn is_crossover_child(
    parent: Seq<usize>,
    partner: Seq<usize>,
    cut: int,
    child: Seq<usize>,
) -> bool {
    &&& child.len() == parent.len()
    &&& child.subrange(0, cut) == parent.subrange(0, cut)
    &&& forall|i: int|
        cut <= i < child.len() ==> {
            &&& tail(parent, cut).contains(#[trigger] child[i])
            &&& rank(tail(parent, cut), child[i]) == rank(tail(partner, cut), partner[i])
        }
}

/// The legs of the open path that visits `s` in order: each entry paired
/// with the next one.
pub open spec fn legs_of(s: Seq<usize>) -> Seq<(usize, usize)> {
    let n: int = if s.len() == 0 { 0 } else { s.len() - 1 };
    Seq::new(n as nat, |i: int| (s[i], s[i + 1]))
}

/// `after` is `before` with the entries at `j` and `k` exchanged.
pub open spec fn is_swap(before: Seq<usize>, j: int, k: int, after: Seq<usize>) -> bool {
    &&& 0 <= j < before.len()
    &&& 0 <= k < before.len()
    &&& after == before.update(j, before[k]).update(k, before[j])
}

/// Crossover keeps entries distinct, and every entry of a child comes from
/// its parent.
pub proof fn lemma_crossover_child_distinct(
    parent: Seq<usize>,
    partner: Seq<usize>,
    cut: int,
    child: Seq<usize>,
)
    requires
        parent.no_duplicates(),
        partner.no_duplicates(),
        parent.len() == partner.len(),
        0 <= cut <= parent.len(),
        is_crossover_child(parent, partner, cut, child),
    ensures
        child.no_duplicates(),
        forall|i: int| 0 <= i < child.len() ==> parent.contains(#[trigger] child[i]),
{
    let tp = tail(parent, cut);
    let tq = tail(partner, cut);
    assert forall|i: int| 0 <= i < child.len() implies parent.contains(#[trigger] child[i]) by {
        if i < cut {
            assert(child.subrange(0, cut)[i] == parent.subrange(0, cut)[i]);
            assert(parent[i] == child[i]);
        } else {
            let k = choose|k: int| 0 <= k < tp.len() && tp[k] == child[i];
            assert(parent[cut + k] == child[i]);
        }
    }
    assert forall|i: int, j: int| 0 <= i < child.len() && 0 <= j < child.len() && i < j
        implies child[i] != child[j] by {
        if j < cut {
            assert(child.subrange(0, cut)[i] == parent.subrange(0, cut)[i]);
            assert(child.subrange(0, cut)[j] == parent.subrange(0, cut)[j]);
        } else if i < cut {
            assert(child.subrange(0, cut)[i] == parent.subrange(0, cut)[i]);
            let k = choose|k: int| 0 <= k < tp.len() && tp[k] == child[j];
            assert(parent[cut + k] == child[j]);
        } else if child[i] == child[j] {
            assert(tq[i - cut] == partner[i] && tq[j - cut] == partner[j]);
            assert(tq.contains(partner[i]) && tq.contains(partner[j]));
            lemma_rank_injective(tq, partner[i], partner[j]);
        }
    }
}

/// Crossover turns tours of `n` cities into tours of `n` cities.
pub proof fn lemma_crossover_keeps_permutation(
    parent: Seq<usize>,
    partner: Seq<usize>,
    cut: int,
    child: Seq<usize>,
)
    requires
        is_permutation(parent),
        is_permutation(partner),
        parent.len() == partner.len(),
        0 <= cut <= parent.len(),
        is_crossover_child(parent, partner, cut, child),
    ensures
        is_permutation(child),
{
    lemma_crossover_child_distinct(parent, partner, cut, child);
    assert forall|i: int| 0 <= i < child.len() implies #[trigger] child[i] < child.len() by {
        assert(parent.contains(child[i]));
    }
}

/// Crossover at `cut` only reorders the tail: the child's tail holds the
/// same values, with the same multiplicities, as the parent's tail.
pub proof fn lemma_crossover_tail_multiset(
    parent: Seq<usize>,
    partner: Seq<usize>,
    cut: int,
    child: Seq<usize>,
)
    requires
        parent.no_duplicates(),
        partner.no_duplicates(),
        parent.len() == partner.len(),
        0 <= cut <= parent.len(),
        is_crossover_child(parent, partner, cut, child),
    ensures
        tail(child, cut).to_multiset() == tail(parent, cut).to_multiset(),
{
    broadcast use vstd::seq_lib::group_to_multiset_ensures;

    let tp = tail(parent, cut);
    let tq = tail(partner, cut);
    let tc = tail(child, cut);
    lemma_crossover_child_distinct(parent, partner, cut, child);
    lemma_tail_no_duplicates(parent, cut);
    lemma_tail_no_duplicates(partner, cut);
    lemma_tail_no_duplicates(child, cut);
    assert forall|x: usize| tc.contains(x) <==> tp.contains(x) by {
        if tc.contains(x) {
            let k = choose|k: int| 0 <= k < tc.len() && tc[k] == x;
            assert(child[cut + k] == x);
        }
        if tp.contains(x) {
            lemma_rank_bound(tp, x);
            lemma_rank_onto(tq, rank(tp, x));
            let i = choose|i: int| 0 <= i < tq.len() && rank(tq, #[trigger] tq[i]) == rank(tp, x);
            assert(tq[i] == partner[cut + i]);
            assert(tp.contains(child[cut + i]));
            lemma_rank_injective(tp, child[cut + i], x);
            assert(tc[i] == x);
        }
    }
    tc.lemma_multiset_has_no_duplicates();
    tp.lemma_multiset_has_no_duplicates();
    assert forall|x: usize| tc.to_multiset().count(x) == tp.to_multiset().count(x) by {
        assert(tc.contains(x) <==> tp.contains(x));
    }
    assert(tc.to_multiset() =~= tp.to_multiset());
}

/// The crossover child is determined by its parents and the cut point.
pub proof fn lemma_crossover_child_unique(
    parent: Seq<usize>,
    partner: Seq<usize>,
    cut: int,
    a: Seq<usize>,
    b: Seq<usize>,
)
    requires
        0 <= cut <= parent.len(),
        is_crossover_child(parent, partner, cut, a),
        is_crossover_child(parent, partner, cut, b),
    ensures
        a == b,
{
    assert forall|i: int| 0 <= i < a.len() implies a[i] == b[i] by {
        if i < cut {
            assert(a.subrange(0, cut)[i] == b.subrange(0, cut)[i]);
        } else {
            lemma_rank_injective(tail(parent, cut), a[i], b[i]);
        }
    }
    assert(a =~= b);
}

/// Exchanging two entries of a tour gives a tour of the same cities.
pub proof fn lemma_swap_keeps_permutation(before: Seq<usize>, j: int, k: int, after: Seq<usize>)
    requires
        is_permutation(before),
        is_swap(before, j, k, after),
    ensures
        is_permutation(after),
{
    assert forall|a: int, b: int| 0 <= a < after.len() && 0 <= b < after.len() && a != b
        implies after[a] != after[b] by {
        let pa = if a == j { k } else if a == k { j } else { a };
        let pb = if b == j { k } else if b == k { j } else { b };
        assert(after[a] == before[pa] && after[b] == before[pb]);
    }
    assert forall|a: int| 0 <= a < after.len() implies #[trigger] after[a] < after.len() by {
        let pa = if a == j { k } else if a == k { j } else { a };
        assert(after[a] == before[pa]);
    }
}

/// A sequence with the multiset of entries of a tour is a tour too.
proof fn lemma_same_multiset_permutation(s: Seq<usize>, t: Seq<usize>)
    requires
        is_permutation(s),
        t.to_multiset() == s.to_multiset(),
    ensures
        is_permutation(t),
{
    broadcast use vstd::seq_lib::group_to_multiset_ensures;

    s.lemma_multiset_has_no_duplicates();
    t.lemma_multiset_has_no_duplicates_conv();
    assert(t.len() == s.len()) by {
        assert(t.len() == t.to_multiset().len());
        assert(s.len() == s.to_multiset().len());
    }
    assert forall|i: int| 0 <= i < t.len() implies #[trigger] t[i] < t.len() by {
        assert(t.contains(t[i]));
        assert(t.to_multiset().count(t[i]) > 0);
        assert(s.to_multiset().count(t[i]) > 0);
        let j = choose|j: int| 0 <= j < s.len() && s[j] == t[i];
        assert(s[j] < s.len());
    }
}

/// A candidate tour: the order in which the cities are visited.
#[derive(Debug, Clone, PartialEq, Eq)]
pub struct Gene {
    pub gene: Vec<usize>,
}

/// Sequences without duplicates keep none in their tails.
proof fn lemma_tail_no_duplicates(s: Seq<usize>, cut: int)
    requires
        s.no_duplicates(),
        0 <= cut <= s.len(),
    ensures
        tail(s, cut).no_duplicates(),
{
    let t = tail(s, cut);
    assert forall|i: int, j: int| 0 <= i < t.len() && 0 <= j < t.len() && i != j
        implies t[i] != t[j] by {
        assert(t[i] == s[cut + i] && t[j] == s[cut + j]);
    }
}

impl Gene {
    /// A uniformly shuffled tour of the cities `0..x`.
    pub fn new(rand: &mut StdRng, x: usize) -> (r: Gene)
        ensures
            r.gene@.len() == x,
            is_permutation(r.gene@),
    {
        let mut gene: Vec<usize> = Vec::new();
        let mut i: usize = 0;
        while i < x
            invariant
                i <= x,
                gene@.len() == i,
                forall|j: int| 0 <= j < i ==> #[trigger] gene@[j] == j,
            decreases x - i,
        {
            gene.push(i);
            i = i + 1;
        }
        proof {
            assert forall|a: int, b: int| 0 <= a < gene@.len() && 0 <= b < gene@.len() && a != b
                implies gene@[a] != gene@[b] by {}
        }
        let ghost ordered = gene@;
        shuffle(&mut gene, rand);
        proof {
            broadcast use vstd::seq_lib::group_to_multiset_ensures;
            assert(gene@.len() == gene@.to_multiset().len());
            lemma_same_multiset_permutation(ordered, gene@);
        }
        Gene { gene }
    }

    /// Swap mutation at given positions: the entries at `j` and `k` are
    /// exchanged (nothing changes when `j == k`).
    pub fn mutate_at(&mut self, j: usize, k: usize)
        requires
            j < old(self).gene@.len(),
            k < old(self).gene@.len(),
        ensures
            is_swap(old(self).gene@, j as int, k as int, final(self).gene@),
    {
        let a = self.gene[j];
        let b = self.gene[k];
        self.gene.set(j, b);
        self.gene.set(k, a);
    }

    /// Swap mutation: two positions are drawn independently and uniformly
    /// and their entries exchanged.
    pub fn mutate(&mut self, rand: &mut StdRng)
        requires
            old(self).gene@.len() > 0,
        ensures
            exists|j: int, k: int| is_swap(old(self).gene@, j, k, final(self).gene@),
    {
        let n = self.gene.len();
        let j = draw_index(rand, n);
        let k = draw_index(rand, n);
        self.mutate_at(j, k);
    }

    /// Order-based crossover at a uniformly drawn cut point in `[0, n)`;
    /// both genes are replaced by their children.
    pub fn crossover(&mut self, rand: &mut StdRng, g1_: &mut Gene)
        requires
            old(self).gene@.len() == old(g1_).gene@.len(),
            old(self).gene@.len() > 0,
            old(self).gene@.no_duplicates(),
            old(g1_).gene@.no_duplicates(),
        ensures
            exists|cut: int|
                0 <= cut < old(self).gene@.len() && is_crossover_child(
                    old(self).gene@,
                    old(g1_).gene@,
                    cut,
                    final(self).gene@,
                ) && is_crossover_child(old(g1_).gene@, old(self).gene@, cut, final(g1_).gene@),
    {
        let n = draw_index(rand, self.gene.len());
        self.crossover_at(g1_, n);
    }

    /// Whether the gene is a tour of its own length, i.e. a permutation of
    /// `0..n`.
    pub fn is_valid(&self) -> (r: bool)
        ensures
            r == is_permutation(self.gene@),
    {
        let n = self.gene.len();
        let mut seen: Vec<bool> = Vec::new();
        let mut v: usize = 0;
        while v < n
            invariant
                v <= n,
                seen@.len() == v,
                forall|w: int| 0 <= w < v ==> !(#[trigger] seen@[w]),
            decreases n - v,
        {
            seen.push(false);
            v = v + 1;
        }
        let mut i: usize = 0;
        while i < n
            invariant
                n == self.gene@.len(),
                seen@.len() == n,
                i <= n,
                forall|w: int| 0 <= w < n ==> (#[trigger] seen@[w] <==> self.gene@.subrange(0, i as int).contains(w as usize)),
                forall|a: int| 0 <= a < i ==> #[trigger] self.gene@[a] < n,
                forall|a: int, b: int| 0 <= a < i && 0 <= b < i && a != b ==> self.gene@[a] != self.gene@[b],
            decreases n - i,
        {
            let x = self.gene[i];
            if x >= n {
                return false;
            }
            if seen[x] {
                proof {
                    let a = choose|a: int| 0 <= a < i && self.gene@.subrange(0, i as int)[a] == x;
                    assert(self.gene@[a] == self.gene@[i as int]);
                }
                return false;
            }
            seen.set(x, true);
            proof {
                let prev = self.gene@.subrange(0, i as int);
                let next = self.gene@.subrange(0, i + 1);
                assert(next == prev.push(x));
                assert forall|w: int| 0 <= w < n implies (#[trigger] seen@[w] <==> next.contains(w as usize)) by {
                    if prev.contains(w as usize) {
                        let a = choose|a: int| 0 <= a < prev.len() && prev[a] == w as usize;
                        assert(next[a] == w as usize);
                    }
                    if next.contains(w as usize) && w != x {
                        let a = choose|a: int| 0 <= a < next.len() && next[a] == w as usize;
                        assert(prev[a] == w as usize);
                    }
                    if w == x {
                        assert(next[i as int] == x);
                    }
                }
                assert forall|a: int, b: int| 0 <= a < i + 1 && 0 <= b < i + 1 && a != b
                    implies self.gene@[a] != self.gene@[b] by {
                    if a == i && b < i {
                        assert(prev[b] == self.gene@[b]);
                    }
                    if b == i && a < i {
                        assert(prev[a] == self.gene@[a]);
                    }
                }
            }
            i = i + 1;
        }
        true
    }

    /// The legs of the tour, each city paired with the next, or `None` when
    /// the gene is not a permutation of `0..n`.  The tour is an open path: it
    /// has `n - 1` legs and does not return to its start.
    pub fn legs(&self) -> (r: Option<Vec<(usize, usize)>>)
        ensures
            match r {
                Some(v) => is_permutation(self.gene@) && v@ == legs_of(self.gene@),
                None => !is_permutation(self.gene@),
            },
    {
        if !self.is_valid() {
            return None;
        }
        let mut v: Vec<(usize, usize)> = Vec::new();
        let mut i: usize = 1;
        while i < self.gene.len()
            invariant
                1 <= i,
                i <= self.gene@.len() || i == 1,
                v@.len() == i - 1,
                forall|a: int| 0 <= a < v@.len() ==> #[trigger] v@[a] == (self.gene@[a], self.gene@[a + 1]),
            decreases self.gene@.len() - i,
        {
            v.push((self.gene[i - 1], self.gene[i]));
            i = i + 1;
        }
        assert(v@ =~= legs_of(self.gene@));
        Some(v)
    }

    /// Order-based crossover at a given cut point.  Both genes keep their
    /// heads `[0, cut)`; each tail is reordered to follow the rank pattern of
    /// the other gene's tail.
    pub fn crossover_at(&mut self, other: &mut Gene, cut: usize)
        requires
            old(self).gene@.len() == old(other).gene@.len(),
            cut <= old(self).gene@.len(),
            old(self).gene@.no_duplicates(),
            old(other).gene@.no_duplicates(),
        ensures
            is_crossover_child(old(self).gene@, old(other).gene@, cut as int, final(self).gene@),
            is_crossover_child(old(other).gene@, old(self).gene@, cut as int, final(other).gene@),
    {
        let ghost g0 = self.gene@;
        let ghost g1 = other.gene@;
        let ghost c = cut as int;
        let t0 = self.gene.split_off(cut);
        let t1 = other.gene.split_off(cut);
        assert(t0@ == tail(g0, c));
        assert(t1@ == tail(g1, c));
        proof {
            lemma_tail_no_duplicates(g0, c);
            lemma_tail_no_duplicates(g1, c);
        }
        let ghost s0 = t0@;
        let ghost s1 = t1@;
        let len = t0.len();
        let o0 = order(t0);
        let o1 = order(t1);
        let mut i: usize = 0;
        while i < len
            invariant
                len == s0.len(),
                len == s1.len(),
                0 <= c <= g0.len(),
                g0.len() == g1.len(),
                c + len == g0.len(),
                s0 == tail(g0, c),
                s1 == tail(g1, c),
                s0.no_duplicates(),
                s1.no_duplicates(),
                o0@.len() == len,
                o1@.len() == len,
                forall|j: int| 0 <= j < len ==> (#[trigger] o0@[j]).0 == rank(s0, s0[j]) && o0@[j].1 == s0[j],
                forall|j: int| 0 <= j < len ==> (#[trigger] o1@[j]).0 == rank(s1, s1[j]) && o1@[j].1 == s1[j],
                i <= len,
                self.gene@.len() == c + i,
                other.gene@.len() == c + i,
                self.gene@.subrange(0, c) == g0.subrange(0, c),
                other.gene@.subrange(0, c) == g1.subrange(0, c),
                forall|j: int| 0 <= j < i ==> {
                    &&& s0.contains(#[trigger] self.gene@[c + j])
                    &&& rank(s0, self.gene@[c + j]) == rank(s1, s1[j])
                },
                forall|j: int| 0 <= j < i ==> {
                    &&& s1.contains(#[trigger] other.gene@[c + j])
                    &&& rank(s1, other.gene@[c + j]) == rank(s0, s0[j])
                },
            decreases len - i,
        {
            let (k0, _) = o0[i];
            let (k1, _) = o1[i];
            proof {
                lemma_rank_bound(s0, s0[i as int]);
                lemma_rank_bound(s1, s1[i as int]);
                assert(s0.contains(s0[i as int]));
                assert(s1.contains(s1[i as int]));
                lemma_rank_onto(s0, k1 as nat);
                lemma_rank_onto(s1, k0 as nat);
            }
            let n0 = match find(o0.as_slice(), k1) {
                Some(p) => p,
                None => {
                    proof {
                        let p = choose|p: int| 0 <= p < len && rank(s0, #[trigger] s0[p]) == k1;
                        assert(o0@[p].0 == k1);
                    }
                    0
                },
            };
            let n1 = match find(o1.as_slice(), k0) {
                Some(p) => p,
                None => {
                    proof {
                        let p = choose|p: int| 0 <= p < len && rank(s1, #[trigger] s1[p]) == k0;
                        assert(o1@[p].0 == k0);
                    }
                    0
                },
            };
            let (_, v0) = o0[n0];
            let (_, v1) = o1[n1];
            proof {
                assert(s0.contains(s0[n0 as int]));
                assert(s1.contains(s1[n1 as int]));
            }
            let ghost before0 = self.gene@;
            let ghost before1 = other.gene@;
            self.gene.push(v0);
            other.gene.push(v1);
            proof {
                assert(self.gene@.subrange(0, c) =~= before0.subrange(0, c));
                assert(other.gene@.subrange(0, c) =~= before1.subrange(0, c));
            }
            i = i + 1;
        }
        proof {
            assert forall|j: int| c <= j < self.gene@.len() implies {
                &&& tail(g0, c).contains(#[trigger] self.gene@[j])
                &&& rank(tail(g0, c), self.gene@[j]) == rank(tail(g1, c), g1[j])
            } by {
                assert(self.gene@[c + (j - c)] == self.gene@[j]);
                assert(s1[j - c] == g1[j]);
            }
            assert forall|j: int| c <= j < other.gene@.len() implies {
                &&& tail(g1, c).contains(#[trigger] other.gene@[j])
                &&& rank(tail(g1, c), other.gene@[j]) == rank(tail(g0, c), g0[j])
            } by {
                assert(other.gene@[c + (j - c)] == other.gene@[j]);
                assert(s0[j - c] == g0[j]);
            }
        }
    }
}

} // verus!
