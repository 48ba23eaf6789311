use std::time::{SystemTime, UNIX_EPOCH};

use bh::history::HistoryEntry;
use bh::labels::{compute_labels, compute_labels_with, entry_extras, labels_fit_check, stale_targets, Label};
use bh::stats_display::report_fits_check;
use bh::stats::{days_ago_from, today_str, Snapshot, Stats};
use bh::strmap::StrMap;

fn now() -> u64 {
    SystemTime::now().duration_since(UNIX_EPOCH).unwrap_or_default().as_secs()
}

fn make_stats() -> Stats {
    Stats::default()
}

fn make_entry(command: &str, frequency: usize) -> HistoryEntry {
    HistoryEntry {
        command: command.to_string(),
        frequency,
        recency_rank: 0,
        score: 0,
    }
}

#[test]
fn test_empty_stats_no_labels() {
    let stats = make_stats();
    let labels = compute_labels(&stats, now());
    assert!(labels.is_empty());
}

#[test]
fn test_new_label() {
    let t = now();
    let mut stats = make_stats();
    let today = today_str(t);
    stats.first_seen.insert("new_cmd".to_string(), today);

    let labels = compute_labels(&stats, t);
    assert_eq!(labels.get("new_cmd"), Some(&Label::New));
}

#[test]
fn test_old_command_not_new() {
    let mut stats = make_stats();
    stats.first_seen.insert("old_cmd".to_string(), "2020-01-01".to_string());

    let labels = compute_labels(&stats, now());
    assert_ne!(labels.get("old_cmd"), Some(&Label::New));
}

#[test]
fn test_top_label() {
    let t = now();
    let mut stats = make_stats();
    let prev_date = days_ago_from(&today_str(t), 10).unwrap();

    let mut day = StrMap::new();
    day.insert("cmd1".to_string(), 10);
    day.insert("cmd2".to_string(), 8);
    day.insert("cmd3".to_string(), 6);
    day.insert("cmd4".to_string(), 4);
    day.insert("cmd5".to_string(), 2);
    day.insert("cmd6".to_string(), 1);
    stats.daily_selections.insert(prev_date, day);

    let labels = compute_labels(&stats, t);
    assert_eq!(labels.get("cmd1"), Some(&Label::Top { count: 10 }));
    assert_eq!(labels.get("cmd2"), None);
    assert_eq!(labels.get("cmd4"), None);
}

#[test]
fn test_hot_selection_trend() {
    let t = now();
    let mut stats = make_stats();
    let today = today_str(t);

    let mut recent_day = StrMap::new();
    recent_day.insert("trending_cmd".to_string(), 6);
    stats.daily_selections.insert(today.clone(), recent_day);

    let prev_date = days_ago_from(&today, 10).unwrap();
    let mut prev_day = StrMap::new();
    prev_day.insert("trending_cmd".to_string(), 2);
    stats.daily_selections.insert(prev_date, prev_day);

    let labels = compute_labels(&stats, t);
    assert_eq!(labels.get("trending_cmd"), Some(&Label::Hot { count: 6 }));
}

#[test]
fn test_hot_overrides_new() {
    let t = now();
    let mut stats = make_stats();
    let today = today_str(t);

    stats.first_seen.insert("hot_new_cmd".to_string(), today.clone());

    let mut recent_day = StrMap::new();
    recent_day.insert("hot_new_cmd".to_string(), 5);
    stats.daily_selections.insert(today.clone(), recent_day);

    let labels = compute_labels(&stats, t);
    assert_eq!(labels.get("hot_new_cmd"), Some(&Label::Hot { count: 5 }));
}

#[test]
fn test_hot_history_spike() {
    let mut stats = make_stats();

    let mut prev = StrMap::new();
    prev.insert("spiked_cmd".to_string(), 5);
    for i in 0..100 {
        prev.insert(format!("other_cmd_{i}"), 10);
    }
    stats.prev_snapshot = Some(Snapshot { date: "2026-03-15".to_string(), frequencies: prev });

    let mut curr = StrMap::new();
    curr.insert("spiked_cmd".to_string(), 15);
    for i in 0..100 {
        curr.insert(format!("other_cmd_{i}"), 10);
    }
    stats.history_snapshot = Some(Snapshot { date: "2026-03-16".to_string(), frequencies: curr });

    let labels = compute_labels(&stats, now());
    assert!(matches!(labels.get("spiked_cmd"), Some(&Label::Hot { .. })));
}

#[test]
fn test_stale_label() {
    let t = now();
    let mut stats = make_stats();
    let old_date = days_ago_from(&today_str(t), 20).unwrap();
    stats.first_seen.insert("old_cmd".to_string(), old_date);

    let entries = vec![make_entry("old_cmd", 1)];
    let labels = compute_labels_with(&stats, &entries, t);
    assert_eq!(labels.get("old_cmd"), Some(&Label::Stale));
}

#[test]
fn test_stale_not_if_recently_selected() {
    let t = now();
    let mut stats = make_stats();
    let old_date = days_ago_from(&today_str(t), 20).unwrap();
    stats.first_seen.insert("old_cmd".to_string(), old_date);

    let today = today_str(t);
    let mut day = StrMap::new();
    day.insert("old_cmd".to_string(), 1);
    stats.daily_selections.insert(today, day);

    let entries = vec![make_entry("old_cmd", 1)];
    let labels = compute_labels_with(&stats, &entries, t);
    assert_ne!(labels.get("old_cmd"), Some(&Label::Stale));
}

#[test]
fn test_stale_not_if_high_frequency() {
    let t = now();
    let mut stats = make_stats();
    let old_date = days_ago_from(&today_str(t), 20).unwrap();
    stats.first_seen.insert("frequent_cmd".to_string(), old_date);

    let entries = vec![make_entry("frequent_cmd", 5)];
    let labels = compute_labels_with(&stats, &entries, t);
    assert_ne!(labels.get("frequent_cmd"), Some(&Label::Stale));
}

#[test]
fn test_stale_not_if_new() {
    let t = now();
    let mut stats = make_stats();
    let recent_date = days_ago_from(&today_str(t), 3).unwrap();
    stats.first_seen.insert("recent_cmd".to_string(), recent_date);

    let entries = vec![make_entry("recent_cmd", 1)];
    let labels = compute_labels_with(&stats, &entries, t);
    assert_ne!(labels.get("recent_cmd"), Some(&Label::Stale));
}

#[test]
fn test_hot_overrides_stale() {
    let t = now();
    let mut stats = make_stats();
    let old_date = days_ago_from(&today_str(t), 20).unwrap();
    stats.first_seen.insert("cmd".to_string(), old_date);

    let today = today_str(t);
    let mut day = StrMap::new();
    day.insert("cmd".to_string(), 6);
    stats.daily_selections.insert(today, day);

    let entries = vec![make_entry("cmd", 1)];
    let labels = compute_labels_with(&stats, &entries, t);
    assert_eq!(labels.get("cmd"), Some(&Label::Hot { count: 6 }));
}

#[test]
fn test_priority_hot_over_top() {
    let t = now();
    let mut stats = make_stats();
    let today = today_str(t);

    let mut recent_day = StrMap::new();
    recent_day.insert("popular_cmd".to_string(), 20);
    stats.daily_selections.insert(today.clone(), recent_day);

    let labels = compute_labels(&stats, t);
    assert_eq!(labels.get("popular_cmd"), Some(&Label::Hot { count: 20 }));
}

// ── Fixed clock ────────────────────────────────────────────────────────

/// 2026-03-16 00:00:00 UTC.
const MAR_16_2026: u64 = 20528 * 86400;

#[test]
fn label_display_texts() {
    assert_eq!(Label::Stale.display(), "💤");
    assert_eq!(Label::New.display(), "✅");
    assert_eq!(Label::Hot { count: 7 }.display(), "🔥7");
    assert_eq!(Label::Top { count: 12 }.display(), "⭐12");
    assert!(Label::Stale.is_stale());
    assert!(!Label::New.is_stale());
}

#[test]
fn new_beats_top_and_stale() {
    let mut stats = make_stats();
    stats.first_seen.insert("cmd".to_string(), "2026-03-15".to_string());
    let mut day = StrMap::new();
    day.insert("cmd".to_string(), 2);
    stats.daily_selections.insert("2026-03-10".to_string(), day);
    let labels = compute_labels_with(&stats, &[make_entry("cmd", 1)], MAR_16_2026);
    assert_eq!(labels.get("cmd"), Some(&Label::New));
}

#[test]
fn trend_needs_five_recent_selections() {
    let mut stats = make_stats();
    let mut day = StrMap::new();
    day.insert("cmd".to_string(), 4);
    stats.daily_selections.insert("2026-03-16".to_string(), day);
    let labels = compute_labels(&stats, MAR_16_2026);
    assert_eq!(labels.get("cmd"), Some(&Label::Top { count: 4 }));
}

#[test]
fn trend_needs_double_the_previous_week() {
    let mut stats = make_stats();
    let mut recent = StrMap::new();
    recent.insert("cmd".to_string(), 5);
    stats.daily_selections.insert("2026-03-16".to_string(), recent);
    let mut before = StrMap::new();
    before.insert("cmd".to_string(), 3);
    stats.daily_selections.insert("2026-03-06".to_string(), before);
    let labels = compute_labels(&stats, MAR_16_2026);
    assert_eq!(labels.get("cmd"), Some(&Label::Top { count: 8 }));
}

#[test]
fn stale_needs_first_seen_over_fourteen_days() {
    let mut stats = make_stats();
    stats.first_seen.insert("a".to_string(), "2026-03-02".to_string());
    stats.first_seen.insert("b".to_string(), "2026-03-01".to_string());
    let entries = vec![make_entry("a", 2), make_entry("b", 2)];
    let labels = compute_labels_with(&stats, &entries, MAR_16_2026);
    assert_eq!(labels.get("a"), None);
    assert_eq!(labels.get("b"), Some(&Label::Stale));
}

#[test]
fn spike_needs_increase_of_three() {
    let mut stats = make_stats();
    let mut prev = StrMap::new();
    prev.insert("cmd".to_string(), 5);
    stats.prev_snapshot = Some(Snapshot { date: "2026-03-15".to_string(), frequencies: prev });
    let mut curr = StrMap::new();
    curr.insert("cmd".to_string(), 7);
    stats.history_snapshot = Some(Snapshot { date: "2026-03-16".to_string(), frequencies: curr });
    assert_eq!(compute_labels(&stats, MAR_16_2026).get("cmd"), None);
}

#[test]
fn spike_takes_top_five_percent() {
    // 21 commands grew: the top 5% is ceil(21 / 20) = 2 of them.
    let mut stats = make_stats();
    let mut prev = StrMap::new();
    let mut curr = StrMap::new();
    for i in 0..21usize {
        prev.insert(format!("c{i}"), 0);
        curr.insert(format!("c{i}"), 3 + i);
    }
    stats.prev_snapshot = Some(Snapshot { date: "2026-03-15".to_string(), frequencies: prev });
    stats.history_snapshot = Some(Snapshot { date: "2026-03-16".to_string(), frequencies: curr });
    let labels = compute_labels(&stats, MAR_16_2026);
    assert_eq!(labels.len(), 2);
    assert_eq!(labels.get("c20"), Some(&Label::Hot { count: 23 }));
    assert_eq!(labels.get("c19"), Some(&Label::Hot { count: 22 }));
}

#[test]
fn top_is_unique_and_the_maximum() {
    let mut stats = make_stats();
    let mut day = StrMap::new();
    day.insert("a".to_string(), 3);
    day.insert("b".to_string(), 4);
    day.insert("c".to_string(), 4);
    stats.daily_selections.insert("2026-03-12".to_string(), day);
    let labels = compute_labels(&stats, MAR_16_2026);
    let tops: Vec<&str> = ["a", "b", "c"]
        .into_iter()
        .filter(|c| matches!(labels.get(c), Some(Label::Top { .. })))
        .collect();
    assert_eq!(tops, vec!["b"]);
    assert_eq!(labels.get("b"), Some(&Label::Top { count: 4 }));
}

#[test]
fn labels_without_entries_are_never_stale() {
    let mut stats = make_stats();
    stats.first_seen.insert("old".to_string(), "2026-01-01".to_string());
    let labels = compute_labels(&stats, MAR_16_2026);
    assert_ne!(labels.get("old"), Some(&Label::Stale));
    let with_entry = compute_labels_with(&stats, &[make_entry("old", 1)], MAR_16_2026);
    assert_eq!(with_entry.get("old"), Some(&Label::Stale));
}

#[test]
fn trend_hot_counts_last_seven_days() {
    let mut stats = make_stats();
    let mut recent = StrMap::new();
    recent.insert("cmd".to_string(), 4);
    stats.daily_selections.insert("2026-03-15".to_string(), recent);
    let mut recent2 = StrMap::new();
    recent2.insert("cmd".to_string(), 3);
    stats.daily_selections.insert("2026-03-10".to_string(), recent2);
    let labels = compute_labels(&stats, MAR_16_2026);
    assert_eq!(labels.get("cmd"), Some(&Label::Hot { count: 7 }));
}

#[test]
fn new_only_within_a_day() {
    let mut stats = make_stats();
    stats.first_seen.insert("yesterday".to_string(), "2026-03-15".to_string());
    stats.first_seen.insert("two_days".to_string(), "2026-03-14".to_string());
    let labels = compute_labels(&stats, MAR_16_2026);
    assert_eq!(labels.get("yesterday"), Some(&Label::New));
    assert_eq!(labels.get("two_days"), None);
}

#[test]
fn stale_targets_are_the_stale_entries() {
    let mut stats = make_stats();
    stats.first_seen.insert("old".to_string(), "2026-01-01".to_string());
    stats.first_seen.insert("fresh".to_string(), "2026-03-16".to_string());
    let entries = [make_entry("old", 1), make_entry("fresh", 1), make_entry("busy", 9)];
    let labels = compute_labels_with(&stats, &entries, MAR_16_2026);
    assert_eq!(stale_targets(&entries, &labels), vec!["old".to_string()]);
}

#[test]
fn extras_show_label_and_count() {
    let mut labels = StrMap::new();
    labels.insert("ls".to_string(), Label::Hot { count: 6 });
    let mut counts = StrMap::new();
    counts.insert("ls".to_string(), 12u32);
    counts.insert("pwd".to_string(), 3u32);
    assert_eq!(entry_extras("ls", &labels, &counts), " 🔥6 12");
    assert_eq!(entry_extras("pwd", &labels, &counts), " 3");
    assert_eq!(entry_extras("cd", &labels, &counts), "");
}

#[test]
fn limit_checks_match_the_preconditions() {
    let mut stats = make_stats();
    let mut day = StrMap::new();
    day.insert("ls".to_string(), 5u32);
    stats.daily_selections.insert("2026-03-15".to_string(), day);
    assert!(labels_fit_check(&stats, MAR_16_2026));
    assert!(report_fits_check(&stats, MAR_16_2026));
    let mut prev = StrMap::new();
    prev.insert("ls".to_string(), 3_000_000_000u32);
    stats.daily_selections.insert("2026-03-06".to_string(), prev);
    assert!(!labels_fit_check(&stats, MAR_16_2026));
    let mut stats2 = make_stats();
    stats2.first_seen.insert("x".to_string(), "9223372036854775807-01-01".to_string());
    assert!(!labels_fit_check(&stats2, MAR_16_2026));
    let mut stats3 = make_stats();
    let mut odd = StrMap::new();
    odd.insert("ls".to_string(), 1u32);
    stats3.daily_selections.insert("not a date".to_string(), odd);
    assert!(report_fits_check(&stats3, MAR_16_2026));
}
