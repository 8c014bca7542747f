use play_counts::calendar::CalendarDay;
use play_counts::event::{DayDocument, PlayEvent, TrackPlayCount};
use play_counts::aggregate::aggregate;
use play_counts::rank::rank;
use play_counts::pipeline::{play_counts, run_succeeds, window_play_counts, PublishPolicy};
use play_counts::window::{merge_days, AggregationWindow, FetchError, WindowError};
use play_counts::keys::{day_key, snapshot_name};

fn ev(track: &'static str, id: Option<&str>) -> PlayEvent<&'static str> {
    PlayEvent::new(track, id.map(|s| s.to_string()))
}

fn day(y: i32, m: u32, d: u32) -> CalendarDay {
    CalendarDay { year: y, month: m, day: d }
}

fn entry(id: &str, count: u64) -> TrackPlayCount<&'static str> {
    TrackPlayCount { track_id: id.to_string(), track: "x", count }
}

fn summary(counts: &[TrackPlayCount<&'static str>]) -> Vec<(String, u64)> {
    counts.iter().map(|c| (c.track_id.clone(), c.count)).collect()
}

#[test]
fn ranking_puts_ties_first_in_input_order() {
    let ranked = rank(vec![entry("A", 5), entry("B", 9), entry("C", 9)]);
    assert_eq!(
        summary(&ranked),
        vec![("B".to_string(), 9), ("C".to_string(), 9), ("A".to_string(), 5)]
    );
}

#[test]
fn ranking_is_stable_for_all_equal_counts() {
    let ranked = rank(vec![entry("c", 1), entry("a", 1), entry("b", 1)]);
    assert_eq!(
        summary(&ranked),
        vec![("c".to_string(), 1), ("a".to_string(), 1), ("b".to_string(), 1)]
    );
}

#[test]
fn ranking_empty_is_empty() {
    assert!(rank(Vec::<TrackPlayCount<&'static str>>::new()).is_empty());
}

#[test]
fn two_days_end_to_end() {
    let day1 = DayDocument::new(vec![ev("one", Some("t1")), ev("one", Some("t1"))]);
    let day2 = DayDocument::new(vec![ev("two", Some("t2"))]);
    let counts = window_play_counts(vec![Ok(day1), Ok(day2)], false).ok().unwrap();
    assert_eq!(summary(&counts), vec![("t1".to_string(), 2), ("t2".to_string(), 1)]);
    assert_eq!(counts[0].track, "one");
    assert_eq!(counts[1].track, "two");
}

#[test]
fn event_without_identity_is_not_counted() {
    let day1 = DayDocument::new(vec![ev("local", None), ev("one", Some("t1"))]);
    let counts = window_play_counts(vec![Ok(day1)], false).ok().unwrap();
    assert_eq!(summary(&counts), vec![("t1".to_string(), 1)]);
}

#[test]
fn only_unidentified_events_give_nothing() {
    let counts = play_counts(vec![ev("a", None), ev("b", None)]);
    assert!(counts.is_empty());
}

#[test]
fn counts_add_up_to_identified_events() {
    let events = vec![
        ev("a", Some("x")),
        ev("b", None),
        ev("c", Some("y")),
        ev("d", Some("x")),
        ev("e", Some("z")),
        ev("f", Some("x")),
    ];
    let counts = play_counts(events);
    let total: u64 = counts.iter().map(|c| c.count).sum();
    assert_eq!(total, 5);
    assert!(counts.len() <= 5);
    assert_eq!(
        summary(&counts),
        vec![("x".to_string(), 3), ("y".to_string(), 1), ("z".to_string(), 1)]
    );
}

#[test]
fn first_event_supplies_the_track() {
    let counts = aggregate(vec![ev("first", Some("x")), ev("second", Some("x"))]);
    assert_eq!(counts.len(), 1);
    assert_eq!(counts[0].track, "first");
    assert_eq!(counts[0].count, 2);
}

#[test]
fn aggregation_keeps_first_appearance_order() {
    let counts = aggregate(vec![ev("b", Some("b")), ev("a", Some("a")), ev("a", Some("a"))]);
    assert_eq!(summary(&counts), vec![("b".to_string(), 1), ("a".to_string(), 2)]);
}

#[test]
fn running_twice_gives_same_result() {
    let make = || vec![ev("a", Some("a")), ev("b", Some("b")), ev("b", Some("b")), ev("c", Some("c"))];
    let first = play_counts(make());
    let second = play_counts(make());
    assert_eq!(summary(&first), summary(&second));
    let again = rank(first);
    assert_eq!(summary(&again), summary(&second));
}

#[test]
fn unavailable_day_is_skipped() {
    let day1 = DayDocument::new(vec![ev("a", Some("a"))]);
    let day3 = DayDocument::new(vec![ev("b", Some("b")), ev("c", Some("c"))]);
    let merged = merge_days(vec![Ok(day1), Err(FetchError::DayUnavailable), Ok(day3)], false)
        .ok()
        .unwrap();
    let ids: Vec<Option<String>> = merged.into_iter().map(|e| e.track_id).collect();
    assert_eq!(
        ids,
        vec![Some("a".to_string()), Some("b".to_string()), Some("c".to_string())]
    );
}

#[test]
fn fatal_day_abandons_window() {
    let day1 = DayDocument::new(vec![ev("a", Some("a"))]);
    let r = merge_days(
        vec![Ok(day1), Err(FetchError::Fatal), Err(FetchError::Fatal)],
        false,
    );
    assert!(matches!(r, Err(WindowError::Fatal { day: 1 })));
    let r2 = window_play_counts::<&'static str>(vec![Err(FetchError::Fatal)], false);
    assert!(matches!(r2, Err(WindowError::Fatal { day: 0 })));
}

#[test]
fn latest_first_reverses_each_day_only() {
    let day1 = DayDocument::new(vec![ev("a", Some("1")), ev("b", Some("2"))]);
    let day2 = DayDocument::new(vec![ev("c", Some("3")), ev("d", Some("4"))]);
    let merged = merge_days(vec![Ok(day1), Ok(day2)], true).ok().unwrap();
    let tracks: Vec<&str> = merged.iter().map(|e| e.track).collect();
    assert_eq!(tracks, vec!["b", "a", "d", "c"]);
}

#[test]
fn empty_window_merges_to_nothing() {
    let merged = merge_days::<&'static str>(Vec::new(), false).ok().unwrap();
    assert!(merged.is_empty());
}

#[test]
fn window_walks_back_over_leap_day() {
    let w = AggregationWindow { length_days: 3, anchor: day(2024, 3, 1), latest_first: false };
    assert_eq!(w.days(), vec![day(2024, 3, 1), day(2024, 2, 29), day(2024, 2, 28)]);
}

#[test]
fn window_walks_back_over_new_year() {
    let w = AggregationWindow { length_days: 2, anchor: day(2024, 1, 1), latest_first: false };
    assert_eq!(w.days(), vec![day(2024, 1, 1), day(2023, 12, 31)]);
    let w2 = AggregationWindow { length_days: 2, anchor: day(2023, 3, 1), latest_first: false };
    assert_eq!(w2.days(), vec![day(2023, 3, 1), day(2023, 2, 28)]);
    let w3 = AggregationWindow { length_days: 2, anchor: day(1900, 3, 1), latest_first: false };
    assert_eq!(w3.days(), vec![day(1900, 3, 1), day(1900, 2, 28)]);
    let w4 = AggregationWindow { length_days: 2, anchor: day(2000, 3, 1), latest_first: false };
    assert_eq!(w4.days(), vec![day(2000, 3, 1), day(2000, 2, 29)]);
}

#[test]
fn window_has_distinct_consecutive_days() {
    let w = AggregationWindow { length_days: 40, anchor: day(2023, 2, 10), latest_first: false };
    let days = w.days();
    assert_eq!(days.len(), 40);
    assert_eq!(days[0], day(2023, 2, 10));
    assert_eq!(days[39], day(2023, 1, 2));
    let keys: Vec<String> = days.iter().map(day_key).collect();
    for i in 0..keys.len() {
        for j in (i + 1)..keys.len() {
            assert_ne!(keys[i], keys[j]);
        }
    }
}

#[test]
fn zero_length_window_has_no_days() {
    let w = AggregationWindow { length_days: 0, anchor: day(2023, 2, 10), latest_first: false };
    assert!(w.days().is_empty());
}

#[test]
fn window_stops_at_earliest_day() {
    let earliest = day(-262143, 1, 1);
    assert_eq!(earliest.pred(), None);
    let w = AggregationWindow { length_days: 3, anchor: day(-262143, 1, 2), latest_first: false };
    assert_eq!(w.days(), vec![day(-262143, 1, 2), earliest]);
}

#[test]
fn previous_day_of_month_start() {
    assert_eq!(day(2023, 5, 1).pred(), Some(day(2023, 4, 30)));
    assert_eq!(day(2023, 5, 17).pred(), Some(day(2023, 5, 16)));
}

#[test]
fn today_is_a_real_day() {
    let t = CalendarDay::today();
    assert!(t.year >= 2000 && (1..=12).contains(&t.month) && (1..=31).contains(&t.day));
    let w = AggregationWindow::ending_today(3, true);
    assert_eq!(w.length_days, 3);
    assert!(w.latest_first);
    assert_eq!(w.days().len(), 3);
}

#[test]
fn day_keys_are_zero_padded() {
    assert_eq!(day_key(&day(2024, 3, 5)), "2024-03-05.json");
    assert_eq!(day_key(&day(2023, 12, 31)), "2023-12-31.json");
    assert_eq!(day_key(&day(7, 1, 9)), "0007-01-09.json");
    assert_eq!(day_key(&day(987, 11, 30)), "0987-11-30.json");
    assert_eq!(day_key(&day(0, 2, 29)), "0000-02-29.json");
    assert_eq!(day_key(&day(-44, 3, 15)), "-044-03-15.json");
    assert_eq!(day_key(&day(-1234, 3, 15)), "-1234-03-15.json");
    assert_eq!(day_key(&day(12345, 6, 7)), "12345-06-07.json");
}

#[test]
fn document_paths_follow_window() {
    let w = AggregationWindow { length_days: 2, anchor: day(2022, 10, 1), latest_first: false };
    assert_eq!(
        w.document_paths("data"),
        vec!["data/2022-10-01.json".to_string(), "data/2022-09-30.json".to_string()]
    );
}

#[test]
fn snapshot_name_holds_window_length() {
    assert_eq!(snapshot_name(1), "last-1-days-play-counts.json");
    assert_eq!(snapshot_name(30), "last-30-days-play-counts.json");
    assert_eq!(snapshot_name(0), "last-0-days-play-counts.json");
}

#[test]
fn publish_policy_decides_run_outcome() {
    assert!(run_succeeds(PublishPolicy::Strict, true));
    assert!(!run_succeeds(PublishPolicy::Strict, false));
    assert!(run_succeeds(PublishPolicy::Lenient, false));
    assert!(run_succeeds(PublishPolicy::Lenient, true));
}

#[test]
fn removing_unidentified_events_changes_nothing() {
    let with = vec![ev("n1", None), ev("a", Some("a")), ev("n2", None), ev("b", Some("b")), ev("a2", Some("a"))];
    let without = vec![ev("a", Some("a")), ev("b", Some("b")), ev("a2", Some("a"))];
    let c1 = aggregate(with);
    let c2 = aggregate(without);
    assert_eq!(summary(&c1), summary(&c2));
    let tracks1: Vec<&str> = c1.iter().map(|c| c.track).collect();
    let tracks2: Vec<&str> = c2.iter().map(|c| c.track).collect();
    assert_eq!(tracks1, tracks2);
}
