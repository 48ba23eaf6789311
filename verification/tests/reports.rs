use bh::config::{config_path, default_true, stats_enabled, Config, StatsConfig};
use bh::export::table_summary;
use bh::history::HistoryEntry;
use bh::labels::Label;
use bh::stats::Stats;
use bh::stats_display::stats_report;
use bh::strmap::StrMap;

/// 2026-03-16 00:00:00 UTC.
const MAR_16_2026: u64 = 20528 * 86400;

fn entry(cmd: &str, frequency: usize) -> HistoryEntry {
    HistoryEntry { command: cmd.to_string(), frequency, recency_rank: 0, score: 0 }
}

#[test]
fn table_summary_figures() {
    let entries = vec![
        entry("cargo build", 5),
        entry("git push", 3),
        entry("  cargo test --all", 4),
        entry("ls", 1),
        entry("   ", 1),
        entry("git\tstatus", 3),
    ];
    let s = table_summary(&entries);
    assert_eq!(s.total_freq, 17);
    assert_eq!(s.single_use, 2);
    assert_eq!(
        s.base_counts,
        vec![("cargo".to_string(), 9), ("git".to_string(), 6), ("ls".to_string(), 1)]
    );
}

#[test]
fn table_summary_of_nothing() {
    let s = table_summary(&[]);
    assert_eq!(s.total_freq, 0);
    assert_eq!(s.single_use, 0);
    assert!(s.base_counts.is_empty());
}

fn day(pairs: &[(&str, u32)]) -> StrMap<u32> {
    let mut d = StrMap::new();
    for (c, n) in pairs {
        d.insert(c.to_string(), *n);
    }
    d
}

#[test]
fn stats_report_sections() {
    let mut stats = Stats::default();
    stats.daily_selections.insert("2026-03-16".to_string(), day(&[("a", 6), ("b", 3)]));
    stats.daily_selections.insert("2026-03-05".to_string(), day(&[("a", 2), ("b", 1), ("c", 9)]));
    stats.daily_selections.insert("2026-01-01".to_string(), day(&[("d", 4)]));
    stats.first_seen.insert("a".to_string(), "2026-03-14".to_string());
    stats.first_seen.insert("b".to_string(), "2025-12-30".to_string());
    stats.first_seen.insert("n".to_string(), "2026-03-16".to_string());
    let r = stats_report(&stats, MAR_16_2026);
    assert_eq!(r.earliest, "2025-12-30");
    assert_eq!(r.days_tracked, 76);
    let top: Vec<(&str, u32)> = r.top_selected.iter().map(|(c, n)| (c.as_str(), *n)).collect();
    assert_eq!(top, vec![("c", 9), ("a", 8), ("b", 4)]);
    // a: 2 -> 6 (+200%), b: 1 -> 3 (+200%): equal growth keeps their order.
    let trending: Vec<(&str, u32, u32)> = r.trending.iter().map(|(c, p, n)| (c.as_str(), *p, *n)).collect();
    assert_eq!(trending, vec![("a", 2, 6), ("b", 1, 3)]);
    assert_eq!(r.new_commands, vec!["a", "n"]);
    assert_eq!(r.total_commands, 3);
    assert_eq!(r.total_selections, 25);
    assert_eq!(r.labels.get("a"), Some(&Label::Hot { count: 6 }));
    assert_eq!(r.labels.get("c"), Some(&Label::Top { count: 9 }));
    assert_eq!(r.labels.get("n"), Some(&Label::New));
}

#[test]
fn trending_orders_by_growth() {
    let mut stats = Stats::default();
    stats.daily_selections.insert("2026-03-15".to_string(), day(&[("slow", 3), ("fast", 4)]));
    stats.daily_selections.insert("2026-03-04".to_string(), day(&[("slow", 2), ("fast", 1)]));
    let r = stats_report(&stats, MAR_16_2026);
    let names: Vec<&str> = r.trending.iter().map(|t| t.0.as_str()).collect();
    assert_eq!(names, vec!["fast", "slow"]);
}

#[test]
fn empty_stats_report() {
    let r = stats_report(&Stats::default(), MAR_16_2026);
    assert_eq!(r.earliest, "2026-03-16");
    assert_eq!(r.days_tracked, 0);
    assert!(r.top_selected.is_empty());
    assert!(r.trending.is_empty());
    assert!(r.new_commands.is_empty());
    assert_eq!(r.total_selections, 0);
}

#[test]
fn config_defaults_and_path() {
    assert!(default_true());
    assert!(StatsConfig::default().enabled);
    assert!(Config::default().stats.enabled);
    assert_eq!(config_path("/home/u"), "/home/u/.config/bh/config.toml");
    assert!(!stats_enabled(&None));
    assert!(stats_enabled(&Some(Config::default())));
    assert!(!stats_enabled(&Some(Config { stats: StatsConfig { enabled: false } })));
}

#[test]
fn user_paths_share_the_home_directory() {
    if let Some(p) = bh::config::user_paths() {
        assert!(p.history.starts_with(&p.home) && p.history.ends_with("/.bash_history"));
        assert!(p.config.starts_with(&p.home) && p.config.ends_with("/.config/bh/config.toml"));
        assert!(p.stats_dir.starts_with(&p.home) && p.stats_dir.ends_with("/.bh"));
        assert_eq!(p.stats, format!("{}/stats.json", p.stats_dir));
    }
}

#[test]
fn paths_under_a_home() {
    let p = bh::config::paths_under("/home/u".to_string());
    assert_eq!(p.home, "/home/u");
    assert_eq!(p.history, "/home/u/.bash_history");
    assert_eq!(p.config, "/home/u/.config/bh/config.toml");
    assert_eq!(p.stats_dir, "/home/u/.bh");
    assert_eq!(p.stats, "/home/u/.bh/stats.json");
}
