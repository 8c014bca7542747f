//! Grouping play events by track identity and counting them.
use vstd::prelude::*;
use crate::event::{reversed, PlayEvent, TrackPlayCount};

verus! {

/// Index of the first entry with identity `id`.
pub open spec fn position_of<T>(acc: Seq<TrackPlayCount<T>>, id: Seq<char>) -> Option<int>
    decreases acc.len(),
{
    if acc.len() == 0 {
        None
    } else if acc[0].track_id@ == id {
        Some(0)
    } else {
        match position_of(acc.drop_first(), id) {
            Some(i) => Some(i + 1),
            None => None,
        }
    }
}

/// The entry list after one more event: events without identity change
/// nothing, a known identity gains one, a new identity is appended with a
/// count of one and the event's track.
pub open spec fn add_event<T>(acc: Seq<TrackPlayCount<T>>, e: PlayEvent<T>) -> Seq<TrackPlayCount<T>> {
    match e.track_id {
        None => acc,
        Some(id) => match position_of(acc, id@) {
            Some(i) => acc.update(
                i,
                TrackPlayCount { track_id: acc[i].track_id, track: acc[i].track, count: (acc[i].count + 1) as u64 },
            ),
            None => acc.push(TrackPlayCount { track_id: id, track: e.track, count: 1 }),
        },
    }
}

/// The entries produced by a single pass over `events`, in order of the
/// first appearance of each identity.
pub open spec fn tally<T>(events: Seq<PlayEvent<T>>) -> Seq<TrackPlayCount<T>>
    decreases events.len(),
{
    if events.len() == 0 {
        Seq::empty()
    } else {
        add_event(tally(events.drop_last()), events.last())
    }
}

/// Number of events that carry a track identity.
pub open spec fn identified_count<T>(events: Seq<PlayEvent<T>>) -> nat
    decreases events.len(),
{
    if events.len() == 0 {
        0
    } else {
        identified_count(events.drop_last()) + if events.last().track_id is Some { 1nat } else { 0nat }
    }
}

/// Sum of the counts of all entries.
pub open spec fn total_count<T>(acc: Seq<TrackPlayCount<T>>) -> nat
    decreases acc.len(),
{
    if acc.len() == 0 {
        0
    } else {
        total_count(acc.drop_last()) + acc.last().count as nat
    }
}

/// One entry per identity, each with a positive count.
pub open spec fn entries_wf<T>(acc: Seq<TrackPlayCount<T>>) -> bool {
    &&& forall|i: int| 0 <= i < acc.len() ==> #[trigger] acc[i].count >= 1
    &&& forall|i: int, j: int|
        0 <= i < j < acc.len() ==> #[trigger] acc[i].track_id@ != #[trigger] acc[j].track_id@
}

proof fn lemma_position_of<T>(acc: Seq<TrackPlayCount<T>>, id: Seq<char>, j: int)
    requires
        0 <= j <= acc.len(),
        forall|k: int| 0 <= k < j ==> #[trigger] acc[k].track_id@ != id,
        j < acc.len() ==> acc[j].track_id@ == id,
    ensures
        position_of(acc, id) == (if j < acc.len() { Some(j) } else { None::<int> }),
    decreases acc.len(),
{
    if acc.len() > 0 && j > 0 {
        let rest = acc.drop_first();
        assert forall|k: int| 0 <= k < j - 1 implies #[trigger] rest[k].track_id@ != id by {
            assert(rest[k] == acc[k + 1]);
        }
        lemma_position_of(rest, id, j - 1);
    }
}

proof fn lemma_position_of_found<T>(acc: Seq<TrackPlayCount<T>>, id: Seq<char>)
    ensures
        position_of(acc, id) matches Some(i) ==> 0 <= i < acc.len() && acc[i].track_id@ == id,
        position_of(acc, id) is None ==> forall|k: int| 0 <= k < acc.len() ==> #[trigger] acc[k].track_id@ != id,
    decreases acc.len(),
{
    if acc.len() > 0 {
        let rest = acc.drop_first();
        lemma_position_of_found(rest, id);
        if acc[0].track_id@ != id {
            assert forall|k: int| 0 <= k < acc.len() && position_of(acc, id) is None implies #[trigger] acc[k].track_id@ != id by {
                if k > 0 {
                    assert(acc[k] == rest[k - 1]);
                }
            }
        }
    }
}

proof fn lemma_total_update<T>(acc: Seq<TrackPlayCount<T>>, i: int, v: TrackPlayCount<T>)
    requires
        0 <= i < acc.len(),
    ensures
        total_count(acc.update(i, v)) + acc[i].count == total_count(acc) + v.count,
    decreases acc.len(),
{
    let u = acc.update(i, v);
    if i == acc.len() - 1 {
        assert(u.drop_last() =~= acc.drop_last());
    } else {
        assert(u.drop_last() =~= acc.drop_last().update(i, v));
        lemma_total_update(acc.drop_last(), i, v);
    }
}

/// Counting keeps one entry per identity, each with a positive count.
pub proof fn lemma_tally_wf<T>(events: Seq<PlayEvent<T>>)
    requires
        events.len() <= u64::MAX,
    ensures
        entries_wf(tally(events)),
    decreases events.len(),
{
    if events.len() > 0 {
        let acc = tally(events.drop_last());
        lemma_tally_wf(events.drop_last());
        let e = events.last();
        lemma_tally_bounded(events.drop_last());
        if let Some(id) = e.track_id {
            lemma_position_of_found(acc, id@);
            let r = tally(events);
            match position_of(acc, id@) {
                Some(i) => {
                    assert forall|a: int, b: int| 0 <= a < b < r.len() implies #[trigger] r[a].track_id@ != #[trigger] r[b].track_id@ by {
                        assert(r[a].track_id == acc[a].track_id);
                        assert(r[b].track_id == acc[b].track_id);
                    }
                }
                None => {
                    assert forall|a: int, b: int| 0 <= a < b < r.len() implies #[trigger] r[a].track_id@ != #[trigger] r[b].track_id@ by {
                        if b == acc.len() {
                            assert(r[a] == acc[a]);
                        } else {
                            assert(r[a] == acc[a]);
                            assert(r[b] == acc[b]);
                        }
                    }
                }
            }
        }
    }
}

/// Events without an identity add no entry: there are never more entries
/// than events that carry an identity.
pub proof fn lemma_unidentified_add_nothing<T>(events: Seq<PlayEvent<T>>)
    ensures
        tally(events).len() <= identified_count(events),
    decreases events.len(),
{
    if events.len() > 0 {
        lemma_unidentified_add_nothing(events.drop_last());
        if let Some(id) = events.last().track_id {
            lemma_position_of_found(tally(events.drop_last()), id@);
        }
    }
}

/// Whether an event carries a track identity.
pub open spec fn is_identified<T>(e: PlayEvent<T>) -> bool {
    e.track_id is Some
}

/// Events without an identity are ignored altogether: removing them from the
/// input leaves the entries, their order, tracks and counts unchanged.
pub proof fn lemma_unidentified_ignored<T>(events: Seq<PlayEvent<T>>)
    ensures
        tally(events) == tally(events.filter(|e: PlayEvent<T>| is_identified(e))),
    decreases events.len(),
{
    let p = |e: PlayEvent<T>| is_identified(e);
    if events.len() == 0 {
        assert(events.filter(p) =~= Seq::<PlayEvent<T>>::empty()) by {
            reveal(Seq::filter);
        }
    } else {
        let d = events.drop_last();
        let x = events.last();
        lemma_unidentified_ignored(d);
        assert(d.push(x) =~= events);
        d.lemma_filter_push(x, p);
        if is_identified(x) {
            assert(d.filter(p).push(x).drop_last() =~= d.filter(p));
        }
    }
}

/// Conservation: the counts add up to the number of events that carry an
/// identity.
pub proof fn lemma_counts_conserved<T>(events: Seq<PlayEvent<T>>)
    requires
        events.len() <= u64::MAX,
    ensures
        total_count(tally(events)) == identified_count(events),
    decreases events.len(),
{
    if events.len() > 0 {
        let acc = tally(events.drop_last());
        lemma_counts_conserved(events.drop_last());
        lemma_tally_bounded(events.drop_last());
        let e = events.last();
        if let Some(id) = e.track_id {
            lemma_position_of_found(acc, id@);
            match position_of(acc, id@) {
                Some(i) => {
                    lemma_total_update(
                        acc,
                        i,
                        TrackPlayCount { track_id: acc[i].track_id, track: acc[i].track, count: (acc[i].count + 1) as u64 },
                    );
                    lemma_tally_bounded(events.drop_last());
                }
                None => {
                    let r = tally(events);
                    assert(r.drop_last() =~= acc);
                }
            }
        }
    }
}

/// No count exceeds the number of events counted.
pub proof fn lemma_tally_bounded<T>(events: Seq<PlayEvent<T>>)
    ensures
        forall|i: int| 0 <= i < tally(events).len() ==> #[trigger] tally(events)[i].count <= events.len(),
    decreases events.len(),
{
    if events.len() > 0 {
        let acc = tally(events.drop_last());
        lemma_tally_bounded(events.drop_last());
        let e = events.last();
        if let Some(id) = e.track_id {
            lemma_position_of_found(acc, id@);
        }
        let r = tally(events);
        assert forall|i: int| 0 <= i < r.len() implies #[trigger] r[i].count <= events.len() by {
            if i < acc.len() {
                assert(acc[i].count <= events.len() - 1);
            }
        }
    }
}

/// Counts the plays of each track identity in one pass over `events`.
///
/// Events without an identity are skipped. Entries come in order of the first
/// appearance of their identity, and each keeps the track of that first event.
pub fn aggregate<T>(events: Vec<PlayEvent<T>>) -> (r: Vec<TrackPlayCount<T>>)
    ensures
        r@ == tally(events@),
        entries_wf(r@),
{
    let ghost orig = events@;
    let n = events.len();
    let mut pending = reversed(events);
    let mut acc: Vec<TrackPlayCount<T>> = Vec::new();
    let mut k: usize = 0;
    while pending.len() > 0
        invariant
            k + pending.len() == n,
            n == orig.len(),
            forall|i: int| 0 <= i < pending.len() ==> #[trigger] pending@[i] == orig[n - 1 - i],
            acc@ == tally(orig.take(k as int)),
        decreases pending.len(),
    {
        let e = pending.pop().unwrap();
        let ghost prefix = orig.take(k as int);
        proof {
            assert(e == orig[k as int]);
            assert(orig.take(k + 1).drop_last() =~= prefix);
            lemma_tally_bounded(prefix);
        }
        let PlayEvent { track, track_id } = e;
        match track_id {
            None => {},
            Some(id) => {
                let mut j: usize = 0;
                while j < acc.len()
                    invariant
                        j <= acc.len(),
                        forall|q: int| 0 <= q < j ==> #[trigger] acc@[q].track_id@ != id@,
                    ensures
                        j <= acc.len(),
                        forall|q: int| 0 <= q < j ==> #[trigger] acc@[q].track_id@ != id@,
                        j < acc.len() ==> acc@[j as int].track_id@ == id@,
                    decreases acc.len() - j,
                {
                    if acc[j].track_id == id {
                        break;
                    }
                    j = j + 1;
                }
                proof {
                    lemma_position_of(acc@, id@, j as int);
                }
                if j < acc.len() {
                    assert(acc@[j as int].count <= k);
                    acc[j].count = acc[j].count + 1;
                } else {
                    acc.push(TrackPlayCount { track_id: id, track, count: 1 });
                }
            },
        }
        k = k + 1;
        assert(acc@ =~= tally(orig.take(k as int)));
    }
    assert(orig.take(n as int) =~= orig);
    proof {
        lemma_tally_wf(orig);
    }
    acc
}

} // verus!
