//! The trailing window of days, and the merge of what was read for each day.
use vstd::prelude::*;
use crate::calendar::CalendarDay;
use crate::event::{reversed, DayDocument, PlayEvent};
use crate::keys::{day_key, day_key_spec, lemma_day_key_injective};

verus! {

/// Which days to read and in which order to take each day's plays.
#[derive(Clone, Copy, Debug, PartialEq, Eq, Structural)]
pub struct AggregationWindow {
    pub length_days: usize,
    /// The newest day of the window.
    pub anchor: CalendarDay,
    /// Take each day's plays newest first instead of as stored (oldest first).
    pub latest_first: bool,
}

/// Why one day's document could not be used.
#[derive(Clone, Copy, Debug, PartialEq, Eq, Structural)]
pub enum FetchError {
    /// Missing or undecodable: the day is skipped.
    DayUnavailable,
    /// The store itself failed (credentials, transport): the window is abandoned.
    Fatal,
}

/// Why a whole window could not be merged.
#[derive(Clone, Copy, Debug, PartialEq, Eq, Structural)]
pub enum WindowError {
    /// The store failed fatally on the day at this position of the window.
    Fatal { day: usize },
}

/// `n` days walking backward from `d`, `d` included; shorter only where the
/// earliest representable day is reached.
pub open spec fn days_back(d: CalendarDay, n: nat) -> Seq<CalendarDay>
    decreases n,
{
    if n == 0 {
        Seq::empty()
    } else {
        seq![d] + match d.pred_spec() {
            Some(p) => days_back(p, (n - 1) as nat),
            None => Seq::empty(),
        }
    }
}

/// The plays of one day in the order the window asks for.
pub open spec fn day_events<T>(doc: DayDocument<T>, latest_first: bool) -> Seq<PlayEvent<T>> {
    if latest_first {
        Seq::new(doc.items@.len(), |i: int| doc.items@[doc.items@.len() - 1 - i])
    } else {
        doc.items@
    }
}

/// The concatenation, in window order, of the plays of every day that was read.
pub open spec fn merged<T>(results: Seq<Result<DayDocument<T>, FetchError>>, latest_first: bool) -> Seq<PlayEvent<T>>
    decreases results.len(),
{
    if results.len() == 0 {
        Seq::empty()
    } else {
        merged(results.drop_last(), latest_first) + match results.last() {
            Ok(doc) => day_events(doc, latest_first),
            Err(_) => Seq::empty(),
        }
    }
}

pub open spec fn is_fatal<T>(r: Result<DayDocument<T>, FetchError>) -> bool {
    r matches Err(FetchError::Fatal)
}

impl AggregationWindow {
    pub open spec fn days_spec(self) -> Seq<CalendarDay> {
        days_back(self.anchor, self.length_days as nat)
    }

    /// A window of `length_days` days ending today (UTC).
    pub fn ending_today(length_days: usize, latest_first: bool) -> (r: AggregationWindow)
        ensures
            r.length_days == length_days,
            r.latest_first == latest_first,
            r.anchor.wf(),
    {
        AggregationWindow { length_days, anchor: CalendarDay::today(), latest_first }
    }

    /// Where each day's document is found: `<data_path>/<YYYY-MM-DD>.json`,
    /// one path per day of the window, newest first.
    pub fn document_paths(&self, data_path: &str) -> (r: Vec<String>)
        requires
            self.anchor.wf(),
        ensures
            r.len() == self.days_spec().len(),
            forall|i: int| 0 <= i < r.len() ==>
                (#[trigger] r@[i])@ == data_path@ + seq!['/'] + day_key_spec(self.days_spec()[i]),
    {
        let days = self.days();
        proof {
            lemma_window_days(self.anchor, self.length_days as nat);
        }
        let mut r: Vec<String> = Vec::new();
        let mut i: usize = 0;
        while i < days.len()
            invariant
                i <= days.len(),
                r.len() == i,
                days@ == self.days_spec(),
                forall|j: int| 0 <= j < days.len() ==> (#[trigger] days@[j]).wf(),
                forall|j: int| 0 <= j < i ==>
                    (#[trigger] r@[j])@ == data_path@ + seq!['/'] + day_key_spec(self.days_spec()[j]),
            decreases days.len() - i,
        {
            proof {
                reveal_strlit("/");
            }
            let mut p = String::from_str(data_path);
            p.append("/");
            let key = day_key(&days[i]);
            p.append(key.as_str());
            let ghost before = r@;
            r.push(p);
            proof {
                assert(r@[i as int]@ == data_path@ + seq!['/'] + day_key_spec(self.days_spec()[i as int]));
                assert forall|j: int| 0 <= j < i implies (#[trigger] r@[j]) == before[j] by {}
            }
            i = i + 1;
        }
        r
    }

    /// The days of the window, newest first.
    pub fn days(&self) -> (r: Vec<CalendarDay>)
        requires
            self.anchor.wf(),
        ensures
            r@ == self.days_spec(),
    {
        let n = self.length_days;
        let mut r: Vec<CalendarDay> = Vec::new();
        let mut d = self.anchor;
        let mut k: usize = 0;
        while k < n
            invariant
                k <= n == self.length_days,
                d.wf(),
                r@ + days_back(d, (n - k) as nat) == self.days_spec(),
            decreases n - k,
        {
            let ghost before = r@;
            let ghost rest = days_back(d, (n - k) as nat);
            r.push(d);
            k = k + 1;
            if k == n {
                proof {
                    if let Some(p) = d.pred_spec() {
                        assert(days_back(p, 0) =~= Seq::<CalendarDay>::empty());
                    }
                }
                assert(rest =~= seq![d]);
                assert(r@ =~= before + rest);
                return r;
            }
            match d.pred() {
                Some(p) => {
                    assert(r@ + days_back(p, (n - k) as nat) =~= before + rest);
                    d = p;
                },
                None => {
                    assert(r@ =~= before + rest);
                    return r;
                },
            }
        }
        assert(days_back(d, 0) =~= Seq::<CalendarDay>::empty());
        assert(r@ =~= r@ + days_back(d, 0));
        r
    }
}

/// The window walks back one calendar day at a time from its anchor: every
/// day is real, each follows the previous one by exactly one day, no day or
/// document name repeats, and the window has its full length unless it
/// reached the earliest representable day.
pub proof fn lemma_window_days(anchor: CalendarDay, n: nat)
    requires
        anchor.wf(),
    ensures
        days_back(anchor, n).len() <= n,
        days_back(anchor, n).len() == n || days_back(anchor, n).last().is_earliest(),
        (forall|i: int| 0 <= i < days_back(anchor, n).len() ==> !(#[trigger] days_back(anchor, n)[i]).is_earliest())
            ==> days_back(anchor, n).len() == n,
        n > 0 ==> days_back(anchor, n)[0] == anchor,
        forall|i: int| 0 <= i < days_back(anchor, n).len() ==> (#[trigger] days_back(anchor, n)[i]).wf(),
        forall|i: int| 0 <= i < days_back(anchor, n).len() ==> (#[trigger] days_back(anchor, n)[i]).ordinal() <= anchor.ordinal(),
        forall|i: int| 0 <= i < days_back(anchor, n).len() - 1 ==>
            (#[trigger] days_back(anchor, n)[i]).pred_spec() == Some(days_back(anchor, n)[i + 1]),
        forall|i: int, j: int| 0 <= i < j < days_back(anchor, n).len() ==>
            (#[trigger] days_back(anchor, n)[i]).ordinal() > (#[trigger] days_back(anchor, n)[j]).ordinal(),
        forall|i: int, j: int| 0 <= i < j < days_back(anchor, n).len() ==>
            day_key_spec(#[trigger] days_back(anchor, n)[i]) != day_key_spec(#[trigger] days_back(anchor, n)[j]),
    decreases n,
{
    let s = days_back(anchor, n);
    if n > 0 {
        crate::calendar::lemma_pred_wf(anchor);
        match anchor.pred_spec() {
            Some(p) => {
                lemma_window_days(p, (n - 1) as nat);
                let t = days_back(p, (n - 1) as nat);
                assert(s == seq![anchor] + t);
                assert forall|i: int| 0 <= i < s.len() implies (#[trigger] s[i]).wf() && s[i].ordinal() <= anchor.ordinal() by {
                    if i > 0 {
                        assert(s[i] == t[i - 1]);
                    }
                }
                assert forall|i: int| 0 <= i < s.len() - 1 implies (#[trigger] s[i]).pred_spec() == Some(s[i + 1]) by {
                    if i > 0 {
                        assert(s[i] == t[i - 1]);
                        assert(s[i + 1] == t[i]);
                    } else if n > 1 {
                        assert(s[1] == t[0]);
                    }
                }
                assert forall|i: int, j: int| 0 <= i < j < s.len() implies (#[trigger] s[i]).ordinal() > (#[trigger] s[j]).ordinal() by {
                    assert(s[j] == t[j - 1]);
                    if i > 0 {
                        assert(s[i] == t[i - 1]);
                    }
                }
                if n == 1 {
                    assert(t.len() == 0);
                } else if t.len() > 0 {
                    assert(s.last() == t.last());
                }
            },
            None => {
                assert(s =~= seq![anchor]);
            },
        }
        assert forall|i: int, j: int| 0 <= i < j < s.len() implies
            day_key_spec(#[trigger] s[i]) != day_key_spec(#[trigger] s[j]) by {
            if day_key_spec(s[i]) == day_key_spec(s[j]) {
                lemma_day_key_injective(s[i], s[j]);
            }
        }
    }
}

/// Leaving out a day that could not be read changes nothing in the merge.
pub proof fn lemma_skipped_day_contributes_nothing<T>(
    results: Seq<Result<DayDocument<T>, FetchError>>,
    latest_first: bool,
    j: int,
)
    requires
        0 <= j < results.len(),
        results[j] is Err,
    ensures
        merged(results, latest_first) == merged(results.remove(j), latest_first),
    decreases results.len(),
{
    if j == results.len() - 1 {
        assert(results.remove(j) =~= results.drop_last());
        assert(merged(results, latest_first) =~= merged(results.drop_last(), latest_first));
    } else {
        lemma_skipped_day_contributes_nothing(results.drop_last(), latest_first, j);
        assert(results.remove(j).drop_last() =~= results.drop_last().remove(j));
        assert(results.remove(j).last() == results.last());
    }
}

/// Partial failure: when exactly one day of the window is unavailable and the
/// others were read, the merge succeeds with the plays of the other days.
pub proof fn lemma_one_day_unavailable<T>(
    results: Seq<Result<DayDocument<T>, FetchError>>,
    latest_first: bool,
    j: int,
)
    requires
        0 <= j < results.len(),
        results[j] == Err::<DayDocument<T>, FetchError>(FetchError::DayUnavailable),
        forall|i: int| 0 <= i < results.len() && i != j ==> (#[trigger] results[i]) is Ok,
    ensures
        forall|i: int| 0 <= i < results.len() ==> !is_fatal(#[trigger] results[i]),
        merged(results, latest_first) == merged(results.remove(j), latest_first),
        forall|i: int| 0 <= i < results.remove(j).len() ==> (#[trigger] results.remove(j)[i]) is Ok,
{
    lemma_skipped_day_contributes_nothing(results, latest_first, j);
    assert forall|i: int| 0 <= i < results.remove(j).len() implies (#[trigger] results.remove(j)[i]) is Ok by {
        if i < j {
            assert(results.remove(j)[i] == results[i]);
        } else {
            assert(results.remove(j)[i] == results[i + 1]);
        }
    }
}

/// Concatenates the plays of the days that were read, in window order.
///
/// A day whose document was unavailable is skipped. A fatal failure on any day
/// abandons the window and names the first such day. With `latest_first`
/// each day's plays are taken newest first.
pub fn merge_days<T>(results: Vec<Result<DayDocument<T>, FetchError>>, latest_first: bool) -> (r: Result<Vec<PlayEvent<T>>, WindowError>)
    ensures
        r is Err <==> exists|i: int| 0 <= i < results.len() && is_fatal(#[trigger] results@[i]),
        r matches Ok(events) ==> events@ == merged(results@, latest_first),
        r matches Err(WindowError::Fatal { day }) ==> day < results.len() && is_fatal(results@[day as int])
            && forall|i: int| 0 <= i < day ==> !is_fatal(#[trigger] results@[i]),
{
    let ghost orig = results@;
    let n = results.len();
    let mut pending = reversed(results);
    let mut out: Vec<PlayEvent<T>> = Vec::new();
    let mut k: usize = 0;
    while pending.len() > 0
        invariant
            k + pending.len() == n,
            n == orig.len(),
            orig == results@,
            forall|i: int| 0 <= i < pending.len() ==> #[trigger] pending@[i] == orig[n - 1 - i],
            forall|i: int| 0 <= i < k ==> !is_fatal(#[trigger] orig[i]),
            out@ == merged(orig.take(k as int), latest_first),
        decreases pending.len(),
    {
        let day = pending.pop().unwrap();
        proof {
            assert(day == orig[k as int]);
            assert(orig.take(k + 1).drop_last() =~= orig.take(k as int));
        }
        match day {
            Ok(doc) => {
                let ghost before = out@;
                let ghost src = doc.items@;
                let mut items = doc.items;
                if latest_first {
                    let m = items.len();
                    while items.len() > 0
                        invariant
                            items@ == src.take(items.len() as int),
                            m == src.len(),
                            items.len() <= m,
                            out@ == before + Seq::new((m - items.len()) as nat, |i: int| src[m - 1 - i]),
                        decreases items.len(),
                    {
                        let e = items.pop().unwrap();
                        assert(e == src[items.len() as int]);
                        assert(items@ =~= src.take(items.len() as int));
                        out.push(e);
                        assert(out@ =~= before + Seq::new((m - items.len()) as nat, |i: int| src[m - 1 - i]));
                    }
                } else {
                    out.append(&mut items);
                }
                assert(out@ =~= merged(orig.take(k + 1), latest_first));
            },
            Err(FetchError::DayUnavailable) => {
                assert(out@ =~= merged(orig.take(k + 1), latest_first));
            },
            Err(FetchError::Fatal) => {
                assert(is_fatal(orig[k as int]));
                return Err(WindowError::Fatal { day: k });
            },
        }
        k = k + 1;
    }
    assert(orig.take(n as int) =~= orig);
    Ok(out)
}

} // verus!
