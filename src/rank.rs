//! Stable ranking of scored items by descending score.
use vstd::prelude::*;

verus! {

/// An item's index with its score.
pub type Scored = (usize, u128);

/// Where `x` goes in a list ranked by descending score: before the first entry that scores less.
pub open spec fn slot(s: Seq<Scored>, x: Scored) -> int
    decreases s.len(),
{
    if s.len() == 0 {
        0
    } else if s[0].1 < x.1 {
        0
    } else {
        1 + slot(s.drop_first(), x)
    }
}

/// The items in descending order of score; equal scores keep their order of appearance.
pub open spec fn ranked(s: Seq<Scored>) -> Seq<Scored>
    decreases s.len(),
{
    if s.len() == 0 {
        s
    } else {
        ranked(s.drop_last()).insert(slot(ranked(s.drop_last()), s.last()), s.last())
    }
}

/// The first `k` entries of `s`, or all of them when there are fewer.
pub open spec fn first_n<A>(s: Seq<A>, k: int) -> Seq<A> {
    if k < s.len() {
        s.take(k)
    } else {
        s
    }
}

/// Scores are non-increasing along `s`.
pub open spec fn descending(s: Seq<Scored>) -> bool {
    forall|i: int, j: int| 0 <= i < j < s.len() ==> s[j].1 <= s[i].1
}

proof fn lemma_slot_bounds(s: Seq<Scored>, x: Scored)
    ensures
        0 <= slot(s, x) <= s.len(),
        forall|i: int| 0 <= i < slot(s, x) ==> x.1 <= s[i].1,
        slot(s, x) < s.len() ==> s[slot(s, x)].1 < x.1,
    decreases s.len(),
{
    if s.len() > 0 && !(s[0].1 < x.1) {
        lemma_slot_bounds(s.drop_first(), x);
        assert forall|i: int| 0 <= i < slot(s, x) implies x.1 <= s[i].1 by {
            if i > 0 {
                assert(s[i] == s.drop_first()[i - 1]);
            }
        }
    }
}

/// Ranking keeps every item and orders them by descending score.
pub proof fn lemma_ranked_sorted(s: Seq<Scored>)
    ensures
        ranked(s).len() == s.len(),
        ranked(s).to_multiset() == s.to_multiset(),
        descending(ranked(s)),
    decreases s.len(),
{
    if s.len() > 0 {
        let r = ranked(s.drop_last());
        let x = s.last();
        lemma_ranked_sorted(s.drop_last());
        lemma_slot_bounds(r, x);
        let k = slot(r, x);
        let n = r.insert(k, x);
        assert(s =~= s.drop_last().push(x));
        vstd::seq_lib::to_multiset_insert(r, k, x);
        vstd::seq_lib::to_multiset_build(s.drop_last(), x);
        assert forall|i: int, j: int| 0 <= i < j < n.len() implies n[j].1 <= n[i].1 by {
            if j < k {
            } else if j == k {
            } else if i < k {
                if k < r.len() {
                    assert(r[k].1 <= r[i].1);
                }
                assert(n[j] == r[j - 1]);
            } else if i == k {
                assert(n[j] == r[j - 1]);
                assert(r[j - 1].1 <= r[k].1 || j - 1 == k);
            } else {
                assert(n[j] == r[j - 1]);
                assert(n[i] == r[i - 1]);
            }
        }
    }
}

/// The items of `items` in descending order of score; a stable insertion sort.
pub fn rank_desc(items: &Vec<Scored>) -> (r: Vec<Scored>)
    ensures
        r@ == ranked(items@),
{
    let mut out: Vec<Scored> = Vec::new();
    let mut i: usize = 0;
    while i < items.len()
        invariant
            i <= items.len(),
            out@ == ranked(items@.take(i as int)),
        decreases items.len() - i,
    {
        let x = items[i];
        let mut k: usize = 0;
        proof {
            lemma_ranked_sorted(items@.take(i as int));
            assert(out@.skip(0) =~= out@);
        }
        while k < out.len() && !(out[k].1 < x.1)
            invariant
                k <= out.len(),
                slot(out@, x) == k + slot(out@.skip(k as int), x),
            decreases out.len() - k,
        {
            assert(out@.skip(k as int).drop_first() =~= out@.skip(k + 1));
            k = k + 1;
        }
        proof {
            lemma_slot_bounds(out@, x);
            if k < out.len() {
                assert(out@.skip(k as int)[0] == out@[k as int]);
            }
            assert(items@.take(i + 1).drop_last() =~= items@.take(i as int));
        }
        out.insert(k, x);
        i = i + 1;
    }
    assert(items@.take(i as int) =~= items@);
    out
}

} // verus!
