//! Occurrence and pair counts over sequences of triplet codes.
//!
//! The scanner keeps, for a sliding window of triplets, the number of
//! occurrences of each triplet and the number of pairs of equal triplets.
//! These spec functions say what those running numbers are.
use vstd::prelude::*;

verus! {

/// Number of occurrences of `x` in `s`.
pub open spec fn count(s: Seq<usize>, x: usize) -> int
    decreases s.len(),
{
    if s.len() == 0 {
        0
    } else {
        count(s.drop_last(), x) + if s.last() == x { 1int } else { 0int }
    }
}

/// Number of pairs of positions `i < j` with `s[i] == s[j]`.
pub open spec fn pairs(s: Seq<usize>) -> int
    decreases s.len(),
{
    if s.len() == 0 {
        0
    } else {
        pairs(s.drop_last()) + count(s.drop_last(), s.last())
    }
}

pub proof fn lemma_count_push(s: Seq<usize>, y: usize, x: usize)
    ensures
        count(s.push(y), x) == count(s, x) + if y == x { 1int } else { 0int },
{
    assert(s.push(y).drop_last() =~= s);
}

pub proof fn lemma_pairs_push(s: Seq<usize>, y: usize)
    ensures
        pairs(s.push(y)) == pairs(s) + count(s, y),
{
    assert(s.push(y).drop_last() =~= s);
}

pub proof fn lemma_count_drop_first(s: Seq<usize>, x: usize)
    requires
        s.len() > 0,
    ensures
        count(s, x) == count(s.drop_first(), x) + if s[0] == x { 1int } else { 0int },
    decreases s.len(),
{
    if s.len() == 1 {
        assert(s.drop_last().len() == 0);
        assert(s.drop_first().len() == 0);
        assert(s[0] == s.last());
        assert(count(s.drop_first(), x) == 0);
        assert(count(s.drop_last(), x) == 0);
    } else {
        assert(s.drop_last()[0] == s[0]);
        lemma_count_drop_first(s.drop_last(), x);
        assert(s.drop_last().drop_first() =~= s.drop_first().drop_last());
        assert(s.drop_first().last() == s.last());
    }
}

pub proof fn lemma_pairs_drop_first(s: Seq<usize>)
    requires
        s.len() > 0,
    ensures
        pairs(s) == pairs(s.drop_first()) + count(s.drop_first(), s[0]),
    decreases s.len(),
{
    if s.len() == 1 {
        assert(s.drop_last().len() == 0);
        assert(s.drop_first().len() == 0);
        assert(pairs(s.drop_last()) == 0);
        assert(count(s.drop_last(), s.last()) == 0);
    } else {
        let p = s.drop_last();
        lemma_pairs_drop_first(p);
        lemma_count_drop_first(p, s.last());
        assert(p.drop_first() =~= s.drop_first().drop_last());
        assert(p[0] == s[0]);
        lemma_count_push(p.drop_first(), s.last(), s[0]);
        assert(p.drop_first().push(s.last()) =~= s.drop_first());
    }
}

pub proof fn lemma_count_bound(s: Seq<usize>, x: usize)
    ensures
        0 <= count(s, x) <= s.len(),
    decreases s.len(),
{
    if s.len() > 0 {
        lemma_count_bound(s.drop_last(), x);
    }
}

pub proof fn lemma_pairs_bound(s: Seq<usize>)
    ensures
        0 <= pairs(s) <= s.len() * s.len(),
    decreases s.len(),
{
    if s.len() > 0 {
        let p = s.drop_last();
        lemma_pairs_bound(p);
        lemma_count_bound(p, s.last());
        let n = p.len() as int;
        assert(n * n + n <= (n + 1) * (n + 1)) by (nonlinear_arith)
            requires
                n >= 0,
        ;
    }
}

} // verus!
