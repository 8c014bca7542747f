//! The whole computation: merged window, counts per track, ranking.
use vstd::prelude::*;
use crate::aggregate::{aggregate, identified_count, lemma_counts_conserved, lemma_unidentified_add_nothing, tally, total_count};
use crate::event::{DayDocument, PlayEvent, TrackPlayCount};
use crate::rank::{lemma_ranked_idempotent, lemma_ranked_permutes, rank, ranked, sorted_desc};
use crate::window::{is_fatal, merge_days, merged, FetchError, WindowError};

verus! {

/// The ranked play counts of a sequence of events.
pub open spec fn play_counts_spec<T>(events: Seq<PlayEvent<T>>) -> Seq<TrackPlayCount<T>> {
    ranked(tally(events))
}

/// Counts the plays of each track identity in `events` and ranks them by
/// count, highest first; ties keep the order of first appearance.
pub fn play_counts<T>(events: Vec<PlayEvent<T>>) -> (r: Vec<TrackPlayCount<T>>)
    ensures
        r@ == play_counts_spec(events@),
        sorted_desc(r@),
        r@.len() <= identified_count(events@),
        total_count(r@) == identified_count(events@),
{
    let ghost e = events@;
    assert(e.len() == events.len());
    assert(e.len() <= u64::MAX);
    let counts = aggregate(events);
    let r = rank(counts);
    proof {
        lemma_pipeline_conserves(e);
    }
    r
}

/// Merges what was read for each day of a window and ranks the play counts.
///
/// Fails, naming the first such day, when any day failed fatally; days that
/// were unavailable are skipped.
pub fn window_play_counts<T>(results: Vec<Result<DayDocument<T>, FetchError>>, latest_first: bool) -> (r: Result<Vec<TrackPlayCount<T>>, WindowError>)
    ensures
        r is Err <==> exists|i: int| 0 <= i < results.len() && is_fatal(#[trigger] results@[i]),
        r matches Ok(counts) ==> counts@ == play_counts_spec(merged(results@, latest_first)),
        r matches Err(WindowError::Fatal { day }) ==> day < results.len() && is_fatal(results@[day as int])
            && forall|i: int| 0 <= i < day ==> !is_fatal(#[trigger] results@[i]),
{
    match merge_days(results, latest_first) {
        Ok(events) => Ok(play_counts(events)),
        Err(e) => Err(e),
    }
}

/// Multisets over entries keep the sum of counts.
proof fn lemma_total_of_permutation<T>(a: Seq<TrackPlayCount<T>>, b: Seq<TrackPlayCount<T>>)
    requires
        a.to_multiset() == b.to_multiset(),
    ensures
        total_count(a) == total_count(b),
    decreases a.len(),
{
    broadcast use vstd::seq_lib::group_to_multiset_ensures;

    if a.len() == 0 {
        b.to_multiset_ensures();
        assert(b.len() == 0);
    } else {
        let x = a.last();
        a.to_multiset_ensures();
        assert(a.to_multiset().count(x) > 0);
        assert(b.contains(x));
        let j = choose|j: int| 0 <= j < b.len() && b[j] == x;
        let b2 = b.remove(j);
        vstd::seq_lib::to_multiset_remove(b, j);
        assert(a.drop_last().push(x) =~= a);
        vstd::seq_lib::to_multiset_build(a.drop_last(), x);
        assert(a.drop_last().to_multiset() =~= a.to_multiset().remove(x));
        lemma_total_of_permutation(a.drop_last(), b2);
        lemma_total_remove(b, j);
    }
}

proof fn lemma_total_remove<T>(s: Seq<TrackPlayCount<T>>, j: int)
    requires
        0 <= j < s.len(),
    ensures
        total_count(s.remove(j)) + s[j].count == total_count(s),
    decreases s.len(),
{
    if j == s.len() - 1 {
        assert(s.remove(j) =~= s.drop_last());
    } else {
        lemma_total_remove(s.drop_last(), j);
        assert(s.remove(j).drop_last() =~= s.drop_last().remove(j));
        assert(s.remove(j).last() == s.last());
    }
}

/// After ranking, there are still no more entries than identified events, and
/// the counts still add up to the number of identified events.
pub proof fn lemma_pipeline_conserves<T>(events: Seq<PlayEvent<T>>)
    requires
        events.len() <= u64::MAX,
    ensures
        play_counts_spec(events).len() <= identified_count(events),
        total_count(play_counts_spec(events)) == identified_count(events),
        sorted_desc(play_counts_spec(events)),
{
    broadcast use vstd::seq_lib::group_to_multiset_ensures;

    let t = tally(events);
    lemma_unidentified_add_nothing(events);
    lemma_counts_conserved(events);
    lemma_ranked_permutes(t);
    crate::rank::lemma_ranked_sorted(t);
    lemma_total_of_permutation(ranked(t), t);
}

/// Counting and ranking the same events again gives the same entries in the
/// same order, and ranking a ranked result again changes nothing.
pub proof fn lemma_pipeline_idempotent<T>(first: Seq<PlayEvent<T>>, second: Seq<PlayEvent<T>>)
    requires
        first == second,
    ensures
        play_counts_spec(first) == play_counts_spec(second),
        ranked(play_counts_spec(first)) == play_counts_spec(first),
{
    lemma_ranked_idempotent(tally(first));
}

/// Whether a failed snapshot write fails the run.
#[derive(Clone, Copy, Debug, PartialEq, Eq, Structural)]
pub enum PublishPolicy {
    /// A failed write fails the run.
    Strict,
    /// A failed write is reported and the run still succeeds.
    Lenient,
}

/// Whether the run succeeds once the snapshot write has or has not succeeded.
pub fn run_succeeds(policy: PublishPolicy, published: bool) -> (r: bool)
    ensures
        r == (published || policy == PublishPolicy::Lenient),
{
    match policy {
        PublishPolicy::Strict => published,
        PublishPolicy::Lenient => true,
    }
}

} // verus!
