//! Ordering the counts, highest first, keeping the order of equal counts.
use vstd::prelude::*;
use vstd::seq_lib::to_multiset_insert;
use crate::event::{reversed, TrackPlayCount};

verus! {

/// Number of leading entries whose count is at least `c`: where a new entry
/// with count `c` goes so that it follows every entry it ties with.
pub open spec fn insert_pos<T>(r: Seq<TrackPlayCount<T>>, c: u64) -> int
    decreases r.len(),
{
    if r.len() == 0 {
        0
    } else if r[0].count >= c {
        1 + insert_pos(r.drop_first(), c)
    } else {
        0
    }
}

/// The stable descending order of `s` by count: each entry is placed after
/// every earlier entry whose count is not smaller.
pub open spec fn ranked<T>(s: Seq<TrackPlayCount<T>>) -> Seq<TrackPlayCount<T>>
    decreases s.len(),
{
    if s.len() == 0 {
        Seq::empty()
    } else {
        let r = ranked(s.drop_last());
        r.insert(insert_pos(r, s.last().count), s.last())
    }
}

pub open spec fn sorted_desc<T>(s: Seq<TrackPlayCount<T>>) -> bool {
    forall|i: int, j: int| 0 <= i < j < s.len() ==> #[trigger] s[i].count >= #[trigger] s[j].count
}

proof fn lemma_insert_pos<T>(r: Seq<TrackPlayCount<T>>, c: u64)
    ensures
        0 <= insert_pos(r, c) <= r.len(),
        forall|q: int| 0 <= q < insert_pos(r, c) ==> #[trigger] r[q].count >= c,
        insert_pos(r, c) < r.len() ==> r[insert_pos(r, c)].count < c,
    decreases r.len(),
{
    if r.len() > 0 && r[0].count >= c {
        let rest = r.drop_first();
        lemma_insert_pos(rest, c);
        assert forall|q: int| 0 <= q < insert_pos(r, c) implies #[trigger] r[q].count >= c by {
            if q > 0 {
                assert(r[q] == rest[q - 1]);
            }
        }
    }
}

proof fn lemma_insert_pos_is<T>(r: Seq<TrackPlayCount<T>>, c: u64, p: int)
    requires
        0 <= p <= r.len(),
        forall|q: int| 0 <= q < p ==> #[trigger] r[q].count >= c,
        p < r.len() ==> r[p].count < c,
    ensures
        insert_pos(r, c) == p,
    decreases r.len(),
{
    if r.len() > 0 && p > 0 {
        let rest = r.drop_first();
        assert forall|q: int| 0 <= q < p - 1 implies #[trigger] rest[q].count >= c by {
            assert(rest[q] == r[q + 1]);
        }
        lemma_insert_pos_is(rest, c, p - 1);
    }
}

/// The ranking is ordered by count, highest first.
pub proof fn lemma_ranked_sorted<T>(s: Seq<TrackPlayCount<T>>)
    ensures
        sorted_desc(ranked(s)),
        ranked(s).len() == s.len(),
    decreases s.len(),
{
    if s.len() > 0 {
        let r = ranked(s.drop_last());
        lemma_ranked_sorted(s.drop_last());
        let c = s.last().count;
        let p = insert_pos(r, c);
        lemma_insert_pos(r, c);
        let t = r.insert(p, s.last());
        assert forall|i: int, j: int| 0 <= i < j < t.len() implies #[trigger] t[i].count >= #[trigger] t[j].count by {
            if j < p {
                assert(t[i] == r[i] && t[j] == r[j]);
            } else if j == p {
                assert(t[i] == r[i]);
            } else if i < p {
                assert(t[i] == r[i] && t[j] == r[j - 1]);
            } else if i == p {
                assert(t[j] == r[j - 1]);
                assert(r[p].count < c);
                if j - 1 > p {
                    assert(r[p].count >= r[j - 1].count);
                }
            } else {
                assert(t[i] == r[i - 1] && t[j] == r[j - 1]);
            }
        }
    }
}

/// The ranking holds exactly the entries it was given.
pub proof fn lemma_ranked_permutes<T>(s: Seq<TrackPlayCount<T>>)
    ensures
        ranked(s).to_multiset() == s.to_multiset(),
    decreases s.len(),
{
    broadcast use vstd::seq_lib::group_to_multiset_ensures;

    if s.len() > 0 {
        let r = ranked(s.drop_last());
        lemma_ranked_permutes(s.drop_last());
        lemma_insert_pos(r, s.last().count);
        to_multiset_insert(r, insert_pos(r, s.last().count), s.last());
        assert(s.drop_last().push(s.last()) =~= s);
    }
}

/// Ranking an already ranked sequence changes nothing.
pub proof fn lemma_ranked_idempotent<T>(s: Seq<TrackPlayCount<T>>)
    ensures
        ranked(ranked(s)) == ranked(s),
{
    lemma_ranked_sorted(s);
    lemma_ranked_of_sorted(ranked(s));
}

/// A sequence already in descending order is its own ranking.
pub proof fn lemma_ranked_of_sorted<T>(s: Seq<TrackPlayCount<T>>)
    requires
        sorted_desc(s),
    ensures
        ranked(s) == s,
    decreases s.len(),
{
    if s.len() > 0 {
        let d = s.drop_last();
        assert(sorted_desc(d));
        lemma_ranked_of_sorted(d);
        assert forall|q: int| 0 <= q < d.len() implies #[trigger] d[q].count >= s.last().count by {
            assert(d[q] == s[q]);
        }
        lemma_insert_pos_is(d, s.last().count, d.len() as int);
        assert(d.insert(d.len() as int, s.last()) =~= s);
    }
}

/// Orders `counts` by count, highest first, with a stable sort: entries with
/// equal counts keep their relative order.
pub fn rank<T>(counts: Vec<TrackPlayCount<T>>) -> (r: Vec<TrackPlayCount<T>>)
    ensures
        r@ == ranked(counts@),
        sorted_desc(r@),
        r@.to_multiset() == counts@.to_multiset(),
{
    let ghost orig = counts@;
    let n = counts.len();
    let mut pending = reversed(counts);
    let mut out: Vec<TrackPlayCount<T>> = Vec::new();
    let mut k: usize = 0;
    while pending.len() > 0
        invariant
            k + pending.len() == n,
            n == orig.len(),
            forall|i: int| 0 <= i < pending.len() ==> #[trigger] pending@[i] == orig[n - 1 - i],
            out@ == ranked(orig.take(k as int)),
        decreases pending.len(),
    {
        let x = pending.pop().unwrap();
        proof {
            assert(x == orig[k as int]);
            assert(orig.take(k + 1).drop_last() =~= orig.take(k as int));
            lemma_ranked_sorted(orig.take(k as int));
        }
        let mut p: usize = 0;
        while p < out.len() && out[p].count >= x.count
            invariant
                p <= out.len(),
                forall|q: int| 0 <= q < p ==> #[trigger] out@[q].count >= x.count,
            decreases out.len() - p,
        {
            p = p + 1;
        }
        proof {
            lemma_insert_pos_is(out@, x.count, p as int);
        }
        out.insert(p, x);
        k = k + 1;
    }
    assert(orig.take(n as int) =~= orig);
    proof {
        lemma_ranked_sorted(orig);
        lemma_ranked_permutes(orig);
    }
    out
}

} // verus!
