//! Play events, day documents and per-track counts.
use vstd::prelude::*;

verus! {

/// One listening event. `track` is carried through untouched; only the
/// identity is read.
pub struct PlayEvent<T> {
    pub track: T,
    /// Stable identity of the track; absent for local or unrecognised tracks.
    pub track_id: Option<String>,
}

/// The decoded plays of one calendar day, oldest first.
pub struct DayDocument<T> {
    pub items: Vec<PlayEvent<T>>,
}

/// How many qualifying plays one track identity has.
pub struct TrackPlayCount<T> {
    pub track_id: String,
    /// The record of the first play seen with this identity.
    pub track: T,
    pub count: u64,
}

impl<T> PlayEvent<T> {
    /// The identity of the event as a character sequence, if it has one.
    pub open spec fn id_view(self) -> Option<Seq<char>> {
        match self.track_id {
            Some(id) => Some(id@),
            None => None,
        }
    }

    pub fn new(track: T, track_id: Option<String>) -> (r: PlayEvent<T>)
        ensures
            r.track == track,
            r.track_id == track_id,
    {
        PlayEvent { track, track_id }
    }
}

impl<T> DayDocument<T> {
    pub fn new(items: Vec<PlayEvent<T>>) -> (r: DayDocument<T>)
        ensures
            r.items == items,
    {
        DayDocument { items }
    }
}

/// The elements of `v` in reverse order, moved rather than copied.
///
/// Popping from the result yields the elements of `v` in their original order.
pub fn reversed<A>(v: Vec<A>) -> (r: Vec<A>)
    ensures
        r.len() == v.len(),
        forall|i: int| 0 <= i < r.len() ==> #[trigger] r@[i] == v@[v.len() - 1 - i],
{
    let ghost orig = v@;
    let n = v.len();
    let mut v = v;
    let mut r: Vec<A> = Vec::new();
    while v.len() > 0
        invariant
            v@ == orig.take(v.len() as int),
            v.len() + r.len() == n,
            n == orig.len(),
            forall|i: int| 0 <= i < r.len() ==> #[trigger] r@[i] == orig[n - 1 - i],
        decreases v.len(),
    {
        let x = v.pop().unwrap();
        r.push(x);
    }
    r
}

} // verus!
