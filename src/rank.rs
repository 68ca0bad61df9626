//! Ranks: where a value falls among the entries of a sequence.
//!
//! The rank of `v` in `s` is the number of entries of `s` below `v`.  For a
//! sequence without duplicates this is the position `v` takes once `s` is
//! sorted ascending, and the ranks of its entries are exactly `0..s.len()`.

use vstd::prelude::*;

verus! {

/// The number of entries of `s` that are smaller than `v`.
pub open spec fn rank(s: Seq<usize>, v: usize) -> nat
    decreases s.len(),
{
    if s.len() == 0 {
        0
    } else {
        rank(s.drop_last(), v) + if s.last() < v { 1nat } else { 0nat }
    }
}

/// A rank never exceeds the length, and an entry's own rank is below it.
pub proof fn lemma_rank_bound(s: Seq<usize>, v: usize)
    ensures
        rank(s, v) <= s.len(),
        s.contains(v) ==> rank(s, v) < s.len(),
    decreases s.len(),
{
    if s.len() > 0 {
        lemma_rank_bound(s.drop_last(), v);
        if s.contains(v) && s.last() != v {
            let i = choose|i: int| 0 <= i < s.len() && s[i] == v;
            assert(s.drop_last()[i] == v);
        }
    }
}

/// Ranks grow with the value.
pub proof fn lemma_rank_monotone(s: Seq<usize>, a: usize, b: usize)
    requires
        a <= b,
    ensures
        rank(s, a) <= rank(s, b),
    decreases s.len(),
{
    if s.len() > 0 {
        lemma_rank_monotone(s.drop_last(), a, b);
    }
}

/// An entry has a smaller rank than any larger value.
pub proof fn lemma_rank_strict(s: Seq<usize>, a: usize, b: usize)
    requires
        a < b,
        s.contains(a),
    ensures
        rank(s, a) < rank(s, b),
    decreases s.len(),
{
    if s.len() > 0 {
        if s.last() == a {
            lemma_rank_monotone(s.drop_last(), a, b);
        } else {
            let i = choose|i: int| 0 <= i < s.len() && s[i] == a;
            assert(s.drop_last()[i] == a);
            lemma_rank_strict(s.drop_last(), a, b);
        }
    }
}

/// Two entries with the same rank are the same value.
pub proof fn lemma_rank_injective(s: Seq<usize>, a: usize, b: usize)
    requires
        s.contains(a),
        s.contains(b),
        rank(s, a) == rank(s, b),
    ensures
        a == b,
{
    if a < b {
        lemma_rank_strict(s, a, b);
    } else if b < a {
        lemma_rank_strict(s, b, a);
    }
}

/// In a sequence without duplicates every rank below the length is the rank
/// of some entry.
pub proof fn lemma_rank_onto(s: Seq<usize>, r: nat)
    requires
        s.no_duplicates(),
        r < s.len(),
    ensures
        exists|i: int| 0 <= i < s.len() && rank(s, #[trigger] s[i]) == r,
    decreases s.len(),
{
    let p = s.drop_last();
    let x = s.last();
    let rx = rank(p, x);
    lemma_rank_bound(p, x);
    assert(!p.contains(x)) by {
        if p.contains(x) {
            let j = choose|j: int| 0 <= j < p.len() && p[j] == x;
            assert(s[j] == s[s.len() - 1]);
        }
    }
    assert(p.no_duplicates()) by {
        assert forall|i: int, j: int| 0 <= i < p.len() && 0 <= j < p.len() && i != j
            implies p[i] != p[j] by {
            assert(s[i] == p[i] && s[j] == p[j]);
        }
    }
    if r == rx {
        assert(rank(s, s[s.len() - 1]) == r);
    } else if r < rx {
        lemma_rank_onto(p, r);
        let i = choose|i: int| 0 <= i < p.len() && rank(p, #[trigger] p[i]) == r;
        let y = p[i];
        assert(p.contains(y));
        if y > x {
            lemma_rank_monotone(p, x, y);
        }
        assert(y != x);
        assert(s[i] == y);
        assert(rank(s, s[i]) == r);
    } else {
        lemma_rank_onto(p, (r - 1) as nat);
        let i = choose|i: int| 0 <= i < p.len() && rank(p, #[trigger] p[i]) == r - 1;
        let y = p[i];
        assert(p.contains(y));
        if y < x {
            lemma_rank_strict(p, y, x);
        }
        assert(y != x);
        assert(s[i] == y);
        assert(rank(s, s[i]) == r);
    }
}

/// The rank of `v` among the entries of `s`, counted in one pass.
pub fn count_below(s: &Vec<usize>, v: usize) -> (r: usize)
    ensures
        r == rank(s@, v),
{
    let mut count: usize = 0;
    let mut i: usize = 0;
    while i < s.len()
        invariant
            i <= s.len(),
            count == rank(s@.subrange(0, i as int), v),
            count <= i,
        decreases s.len() - i,
    {
        assert(s@.subrange(0, i + 1).drop_last() == s@.subrange(0, i as int));
        if s[i] < v {
            count = count + 1;
        }
        i = i + 1;
    }
    assert(s@.subrange(0, s.len() as int) == s@);
    count
}

/// Pairs each entry of `vec` with its rank: entry `u` becomes
/// `(rank(vec, u), u)`, in the order of `vec`.
pub fn order(vec: Vec<usize>) -> (r: Vec<(usize, usize)>)
    ensures
        r@.len() == vec@.len(),
        forall|i: int| 0 <= i < r@.len() ==> (#[trigger] r@[i]).0 == rank(vec@, vec@[i]) && r@[i].1 == vec@[i],
{
    let mut res: Vec<(usize, usize)> = Vec::new();
    let mut i: usize = 0;
    while i < vec.len()
        invariant
            i <= vec.len(),
            res@.len() == i,
            forall|j: int| 0 <= j < i ==> (#[trigger] res@[j]).0 == rank(vec@, vec@[j]) && res@[j].1 == vec@[j],
        decreases vec.len() - i,
    {
        let u = vec[i];
        let k = count_below(&vec, u);
        res.push((k, u));
        i = i + 1;
    }
    res
}

/// The first position whose rank component is `n`, if any.
pub fn find(vec: &[(usize, usize)], n: usize) -> (r: Option<usize>)
    ensures
        match r {
            Some(i) => i < vec@.len() && vec@[i as int].0 == n
                && forall|j: int| 0 <= j < i ==> (#[trigger] vec@[j]).0 != n,
            None => forall|j: int| 0 <= j < vec@.len() ==> (#[trigger] vec@[j]).0 != n,
        },
{
    let mut i: usize = 0;
    while i < vec.len()
        invariant
            i <= vec@.len(),
            forall|j: int| 0 <= j < i ==> (#[trigger] vec@[j]).0 != n,
        decreases vec.len() - i,
    {
        let (j, _) = vec[i];
        if j == n {
            return Some(i);
        }
        i = i + 1;
    }
    None
}

} // verus!
