use std::time::{SystemTime, UNIX_EPOCH};

use bh::stats::{
    all_selected_commands, date_str_from_epoch, date_to_days, days_ago_from, days_since, days_to_ymd,
    prune_old_data, record_selection, selections_in_range, stats_dir, stats_path, today_str, total_selections,
    update_first_seen, update_snapshot, ymd_to_days, Stats,
};
use bh::history::HistoryEntry;
use bh::strmap::StrMap;

fn now() -> u64 {
    SystemTime::now().duration_since(UNIX_EPOCH).unwrap_or_default().as_secs()
}

#[test]
fn test_date_roundtrip() {
    let s = date_str_from_epoch(0);
    assert_eq!(s, "1970-01-01");

    let s = date_str_from_epoch(86400);
    assert_eq!(s, "1970-01-02");
}

#[test]
fn test_ymd_to_days_roundtrip() {
    for days in [0, 1000, 18000, 20000, 20529] {
        let (y, m, d) = days_to_ymd(days);
        let back = ymd_to_days(y, m, d);
        assert_eq!(days, back, "roundtrip failed for days={days} -> {y}-{m}-{d}");
    }
}

#[test]
fn test_days_since() {
    let t = now();
    let today = today_str(t);
    assert_eq!(days_since(&today, t), Some(0));
}

#[test]
fn test_date_to_days() {
    assert_eq!(date_to_days("1970-01-01"), Some(0));
    assert_eq!(date_to_days("1970-01-02"), Some(1));
}

#[test]
fn test_selections_in_range() {
    let mut daily: StrMap<StrMap<u32>> = StrMap::new();
    let mut day1 = StrMap::new();
    day1.insert("git push".to_string(), 3);
    daily.insert("2026-03-15".to_string(), day1);

    let mut day2 = StrMap::new();
    day2.insert("git push".to_string(), 2);
    daily.insert("2026-03-16".to_string(), day2);

    assert_eq!(selections_in_range(&daily, "git push", "2026-03-15", "2026-03-16"), 5);
    assert_eq!(selections_in_range(&daily, "git push", "2026-03-16", "2026-03-16"), 2);
    assert_eq!(selections_in_range(&daily, "git status", "2026-03-15", "2026-03-16"), 0);
}

#[test]
fn test_prune_old_data() {
    let t = now();
    let mut stats = Stats::default();
    stats.daily_selections.insert("2020-01-01".to_string(), StrMap::new());
    stats.daily_selections.insert(today_str(t), StrMap::new());

    prune_old_data(&mut stats, t);
    assert_eq!(stats.daily_selections.len(), 1);
    assert!(stats.daily_selections.contains_key(&today_str(t)));
}

#[test]
fn test_record_selection() {
    let t = now();
    let mut stats = Stats::default();
    record_selection(&mut stats, "git push", t);
    record_selection(&mut stats, "git push", t);
    record_selection(&mut stats, "ls", t);

    let today = today_str(t);
    let day = stats.daily_selections.get(&today).unwrap();
    assert_eq!(day.get("git push"), Some(&2));
    assert_eq!(day.get("ls"), Some(&1));
}

// ── Dates ──────────────────────────────────────────────────────────────

#[test]
fn known_civil_dates() {
    assert_eq!(ymd_to_days(2000, 3, 1), 11017);
    assert_eq!(days_to_ymd(20528), (2026, 3, 16));
    assert_eq!(days_to_ymd(11016), (2000, 2, 29));
    assert_eq!(days_to_ymd(-1), (1969, 12, 31));
}

#[test]
fn date_parsing_rejects_malformed() {
    assert_eq!(date_to_days("2026-03"), None);
    assert_eq!(date_to_days("2026-03-xx"), None);
    assert_eq!(date_to_days(""), None);
}

#[test]
fn days_ago_then_since_gives_back_n() {
    let t = 20528 * 86400 + 3600;
    let back = days_ago_from(&today_str(t), 30).unwrap();
    assert_eq!(back, "2026-02-14");
    assert_eq!(days_since(&back, t), Some(30));
    assert_eq!(days_ago_from("not a date", 1), None);
}

// ── Recording and pruning ──────────────────────────────────────────────

#[test]
fn record_selection_on_a_fixed_day() {
    let t = 20528 * 86400;
    let mut stats = Stats::default();
    record_selection(&mut stats, "ls", t);
    assert_eq!(stats.daily_selections.key_at(0), "2026-03-16");
    assert_eq!(stats.daily_selections.value_at(0).get("ls"), Some(&1));
}

#[test]
fn prune_keeps_the_cutoff_day() {
    let t = 20528 * 86400;
    let mut stats = Stats::default();
    stats.daily_selections.insert("2026-02-13".to_string(), StrMap::new());
    stats.daily_selections.insert("2026-02-14".to_string(), StrMap::new());
    stats.daily_selections.insert("2026-03-01".to_string(), StrMap::new());
    prune_old_data(&mut stats, t);
    assert_eq!(stats.daily_selections.len(), 2);
    assert_eq!(stats.daily_selections.key_at(0), "2026-02-14");
}

#[test]
fn first_run_dates_commands_thirty_days_back() {
    let t = 20528 * 86400;
    let mut stats = Stats::default();
    update_first_seen(&mut stats, &["ls".to_string(), "pwd".to_string()], t);
    assert_eq!(stats.first_seen.get("ls").map(|s| s.as_str()), Some("2026-02-14"));
    // Later runs keep existing dates and date new commands today.
    update_first_seen(&mut stats, &["ls".to_string(), "cargo".to_string()], t + 86400);
    assert_eq!(stats.first_seen.get("ls").map(|s| s.as_str()), Some("2026-02-14"));
    assert_eq!(stats.first_seen.get("cargo").map(|s| s.as_str()), Some("2026-03-17"));
    assert_eq!(stats.first_seen.len(), 3);
}

#[test]
fn snapshot_once_per_day() {
    let t = 20528 * 86400;
    let entries = vec![HistoryEntry { command: "ls".to_string(), frequency: 4, recency_rank: 0, score: 0 }];
    let mut stats = Stats::default();
    update_snapshot(&mut stats, &entries, t);
    let more = vec![HistoryEntry { command: "ls".to_string(), frequency: 9, recency_rank: 0, score: 0 }];
    update_snapshot(&mut stats, &more, t + 60);
    assert_eq!(stats.history_snapshot.as_ref().unwrap().frequencies.get("ls"), Some(&4));
    assert!(stats.prev_snapshot.is_none());
    update_snapshot(&mut stats, &more, t + 86400);
    assert_eq!(stats.history_snapshot.as_ref().unwrap().date, "2026-03-17");
    assert_eq!(stats.history_snapshot.as_ref().unwrap().frequencies.get("ls"), Some(&9));
    assert_eq!(stats.prev_snapshot.as_ref().unwrap().frequencies.get("ls"), Some(&4));
}

#[test]
fn totals_and_selected_commands() {
    let mut daily: StrMap<StrMap<u32>> = StrMap::new();
    let mut d1 = StrMap::new();
    d1.insert("a".to_string(), 2);
    d1.insert("b".to_string(), 1);
    daily.insert("2026-03-15".to_string(), d1);
    let mut d2 = StrMap::new();
    d2.insert("b".to_string(), 4);
    d2.insert("c".to_string(), 1);
    daily.insert("2026-03-16".to_string(), d2);
    assert_eq!(all_selected_commands(&daily), vec!["a", "b", "c"]);
    let totals = total_selections(&daily);
    assert_eq!(totals.get("a"), Some(&2));
    assert_eq!(totals.get("b"), Some(&5));
    assert_eq!(totals.get("c"), Some(&1));
    assert_eq!(totals.get("d"), None);
}

#[test]
fn stats_files_under_home() {
    assert_eq!(stats_dir("/home/u"), "/home/u/.bh");
    assert_eq!(stats_path("/home/u"), "/home/u/.bh/stats.json");
}

#[test]
fn first_seen_update_twice_changes_nothing() {
    let mut stats = Stats::default();
    stats.first_seen.insert("ls".to_string(), "2026-01-01".to_string());
    let commands = vec!["ls".to_string(), "git status".to_string()];
    update_first_seen(&mut stats, &commands, 20528 * 86400);
    let once: Vec<(String, String)> =
        (0..stats.first_seen.len()).map(|i| (stats.first_seen.key_at(i).clone(), stats.first_seen.value_at(i).clone())).collect();
    update_first_seen(&mut stats, &commands, 20529 * 86400);
    let twice: Vec<(String, String)> =
        (0..stats.first_seen.len()).map(|i| (stats.first_seen.key_at(i).clone(), stats.first_seen.value_at(i).clone())).collect();
    assert_eq!(once, twice);
    assert_eq!(stats.first_seen.get("git status"), Some(&"2026-03-16".to_string()));
}

#[test]
fn pruning_twice_keeps_the_same_days() {
    let mut stats = Stats::default();
    for date in ["2026-01-01", "2026-02-14", "2026-02-15", "2026-03-10"] {
        let mut day = StrMap::new();
        day.insert("ls".to_string(), 1);
        stats.daily_selections.insert(date.to_string(), day);
    }
    let now = 20528 * 86400;
    prune_old_data(&mut stats, now);
    let once: Vec<String> = (0..stats.daily_selections.len()).map(|i| stats.daily_selections.key_at(i).clone()).collect();
    prune_old_data(&mut stats, now);
    let twice: Vec<String> = (0..stats.daily_selections.len()).map(|i| stats.daily_selections.key_at(i).clone()).collect();
    assert_eq!(once, vec!["2026-02-14".to_string(), "2026-02-15".to_string(), "2026-03-10".to_string()]);
    assert_eq!(once, twice);
}

#[test]
fn range_sums_grow_with_the_range() {
    let mut daily: StrMap<StrMap<u32>> = StrMap::new();
    for (date, n) in [("2026-03-01", 2), ("2026-03-05", 3), ("2026-03-09", 4)] {
        let mut day = StrMap::new();
        day.insert("ls".to_string(), n);
        daily.insert(date.to_string(), day);
    }
    assert_eq!(selections_in_range(&daily, "ls", "2026-03-05", "2026-03-05"), 3);
    assert_eq!(selections_in_range(&daily, "ls", "2026-03-01", "2026-03-09"), 9);
    assert_eq!(selections_in_range(&daily, "ls", "2026-03-09", "2026-03-01"), 0);
    let totals = total_selections(&daily);
    assert_eq!(totals.get("ls"), Some(&9));
}

#[test]
fn days_back_compose() {
    let a = days_ago_from("2026-03-16", 10).unwrap();
    let b = days_ago_from(&a, 20).unwrap();
    assert_eq!(b, days_ago_from("2026-03-16", 30).unwrap());
    assert_eq!(b, "2026-02-14");
}

#[test]
fn consecutive_days_are_consecutive_dates() {
    let feb28 = ymd_to_days(2024, 2, 28);
    assert_eq!(days_to_ymd(feb28 + 1), (2024, 2, 29));
    assert_eq!(days_to_ymd(feb28 + 2), (2024, 3, 1));
    assert_eq!(days_to_ymd(ymd_to_days(2023, 2, 28) + 1), (2023, 3, 1));
    assert_eq!(days_to_ymd(ymd_to_days(2023, 12, 31) + 1), (2024, 1, 1));
    assert_eq!(days_to_ymd(ymd_to_days(2000, 2, 29) + 1), (2000, 3, 1));
    assert_eq!(days_to_ymd(ymd_to_days(2100, 2, 28) + 1), (2100, 3, 1));
}

#[test]
fn date_strings_sort_in_time_order() {
    let readings = [0u64, 86_399, 86_400, 951_782_400, 1_709_164_800, 1_709_251_200, 4_102_444_800];
    for w in readings.windows(2) {
        assert!(date_str_from_epoch(w[0]) <= date_str_from_epoch(w[1]));
    }
}
