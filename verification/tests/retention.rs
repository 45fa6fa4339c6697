use rib::retention::{select_for_removal, Entry};

fn entries(ts: &[i64]) -> Vec<Entry> {
    ts.iter()
        .map(|&t| Entry {
            name: format!("e{}", t),
            ts: t,
        })
        .collect()
}

fn removed_ts(ts: &[i64], now: i64) -> Vec<i64> {
    select_for_removal(entries(ts), now)
        .into_iter()
        .map(|e| e.ts)
        .collect()
}

#[test]
fn empty_input_removes_nothing() {
    assert_eq!(removed_ts(&[], 1000), Vec::<i64>::new());
}

#[test]
fn future_entries_are_never_selected() {
    assert_eq!(removed_ts(&[1000, 1001, 3000], 1000), Vec::<i64>::new());
}

#[test]
fn single_old_entry_survives() {
    assert_eq!(removed_ts(&[5], 1000), Vec::<i64>::new());
}

#[test]
fn recent_unit_windows_survive() {
    // Five entries in the five most recent one-second windows: all kept.
    assert_eq!(removed_ts(&[995, 996, 997, 998, 999], 1000), Vec::<i64>::new());
}

#[test]
fn reference_scenario() {
    // The primary regression fixture: the old cluster at 100..=107 falls
    // into one wide window once the granularity has grown; 107 survives as
    // that window's newest entry, 150 and 300 survive their own windows,
    // 3000 is in the future and untouched.
    let res = removed_ts(&[100, 101, 102, 103, 104, 105, 107, 150, 300, 3000], 1000);
    assert_eq!(res, vec![105, 104, 103, 102, 101, 100]);
}

#[test]
fn reference_scenario_names() {
    let input = entries(&[100, 101, 102, 103, 104, 105, 107, 150, 300, 3000]);
    let names: Vec<String> = select_for_removal(input, 1000)
        .into_iter()
        .map(|e| e.name)
        .collect();
    assert_eq!(names, vec!["e105", "e104", "e103", "e102", "e101", "e100"]);
}

#[test]
fn rerun_over_remainder_is_noop() {
    let all = [100i64, 101, 102, 103, 104, 105, 107, 150, 300, 3000];
    let removed = removed_ts(&all, 1000);
    let remaining: Vec<i64> = all
        .iter()
        .copied()
        .filter(|t| !removed.contains(t))
        .collect();
    assert_eq!(remaining, vec![107, 150, 300, 3000]);
    assert_eq!(removed_ts(&remaining, 1000), Vec::<i64>::new());
}

#[test]
fn removal_grows_with_the_entry_set() {
    // A superset (distinct timestamps) removes at least what the subset
    // removed: 101 shields 100 in both sets, and 102 additionally takes
    // the survivor place from 101.
    let small = removed_ts(&[100, 101], 1000);
    let large = removed_ts(&[100, 101, 102], 1000);
    assert_eq!(small, vec![100]);
    assert_eq!(large, vec![101, 100]);
    assert!(small.iter().all(|t| large.contains(t)));
}

#[test]
fn duplicate_timestamp_keeps_one_survivor() {
    let res = removed_ts(&[500, 500], 1000);
    assert_eq!(res, vec![500]);
}

#[test]
fn unsorted_input_is_handled() {
    let res = removed_ts(&[300, 100, 3000, 102, 105, 101, 150, 104, 107, 103], 1000);
    assert_eq!(res, vec![105, 104, 103, 102, 101, 100]);
}
