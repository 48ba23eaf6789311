use bh::history::{
    delete_command, history_path, history_without, match_command, quality_lt, rank_entries, search,
    search_adaptive, tally_history, HistoryEntry, MatchQuality,
};

fn make_entry(cmd: &str) -> HistoryEntry {
    HistoryEntry {
        command: cmd.to_string(),
        frequency: 5,
        recency_rank: 0,
        score: 1_000_000,
    }
}

fn entry(cmd: &str, frequency: usize, score: u64) -> HistoryEntry {
    HistoryEntry {
        command: cmd.to_string(),
        frequency,
        recency_rank: 0,
        score,
    }
}

fn search_cmds(commands: &[&str], query: &str) -> Vec<String> {
    let entries: Vec<HistoryEntry> = commands.iter().map(|c| make_entry(c)).collect();
    search(&entries, query)
        .into_iter()
        .map(|r| r.entry.command)
        .collect()
}

#[test]
fn exact_substring_match() {
    let results = search_cmds(&["git push", "git pull", "echo hello"], "push");
    assert_eq!(results, vec!["git push"]);
}

#[test]
fn fuzzy_gtp_matches_git_push() {
    let results = search_cmds(&["git push", "git pull", "echo hello", "ls -la"], "gtp");
    assert!(results.contains(&"git push".to_string()), "gtp should match 'git push'");
}

#[test]
fn fuzzy_gpl_matches_git_pull() {
    let results = search_cmds(&["git push", "git pull", "echo hello"], "gpl");
    assert!(results.contains(&"git pull".to_string()), "gpl should match 'git pull'");
}

#[test]
fn exact_match_ranks_above_fuzzy() {
    let entries = vec![make_entry("git pull"), make_entry("gp"), make_entry("git push")];
    let results = search(&entries, "gp");
    assert_eq!(results[0].entry.command, "gp");
}

#[test]
fn fuzzy_prefers_tighter_match() {
    let entries = vec![make_entry("grep something_pattern"), make_entry("git push")];
    let results = search(&entries, "gp");
    assert_eq!(results[0].entry.command, "git push");
}

#[test]
fn empty_query_returns_all() {
    let results = search_cmds(&["git push", "echo hello"], "");
    assert_eq!(results.len(), 2);
}

#[test]
fn no_match_returns_empty() {
    let results = search_cmds(&["git push", "echo hello"], "zzz");
    assert!(results.is_empty());
}

#[test]
fn fuzzy_case_insensitive() {
    let results = search_cmds(&["Git Push"], "gtp");
    assert_eq!(results.len(), 1);
}

#[test]
fn match_positions_are_correct_for_substring() {
    let entries = vec![make_entry("git push")];
    let results = search(&entries, "push");
    assert_eq!(results[0].match_positions, vec![4, 5, 6, 7]);
}

#[test]
fn match_positions_are_correct_for_fuzzy() {
    let entries = vec![make_entry("git push")];
    let results = search(&entries, "gp");
    let positions = &results[0].match_positions;
    assert_eq!(positions.len(), 2);
    assert_eq!(positions[0], 0);
    assert_eq!(positions[1], 4);
}

// ── Match quality ──────────────────────────────────────────────────────

#[test]
fn substring_quality_exact_value() {
    // "push" in "git push" at bytes 4..8: bonuses 1 + 5 (after a space),
    // then 9 for each of the three consecutive characters = 33; tightness
    // 4 * 4 / 4 = 4; early 3 / (1 + 0.4) = 2 + 8/56; plus 100.
    let (pos, quality) = match_command("git push", "push").unwrap();
    assert_eq!(pos, vec![4, 5, 6, 7]);
    assert_eq!(quality, MatchQuality { whole: 139, num: 8, den: 56 });
    let value = quality.whole as f64 + quality.num as f64 / quality.den as f64;
    assert!((value - (137.0 + 3.0 / 1.4)).abs() < 1e-9);
}

#[test]
fn fuzzy_quality_exact_value() {
    // "gp" in "git push": g at 0 (start: 6 + 1), p at 4 (after a space:
    // 5 + 1) = 13; tightness 4 * 2 / 5 = 1.6; early 3.
    let (pos, quality) = match_command("git push", "gp").unwrap();
    assert_eq!(pos, vec![0, 4]);
    assert_eq!(quality, MatchQuality { whole: 17, num: 30, den: 50 });
}

#[test]
fn close_qualities_compare_exactly() {
    // 16/29 + 30/61 = 1 + 77/1769 and 8/9 + 30/194 = 1 + 76/1746 differ
    // only in the seventh decimal place.
    let a = MatchQuality { whole: 5, num: 77, den: 1769 };
    let b = MatchQuality { whole: 5, num: 76, den: 1746 };
    assert!(quality_lt(&a, &b));
    assert!(!quality_lt(&b, &a));
    assert!(!quality_lt(&a, &a));
    let c = MatchQuality { whole: 5, num: 2, den: 4 };
    let d = MatchQuality { whole: 5, num: 1, den: 2 };
    assert!(!quality_lt(&c, &d) && !quality_lt(&d, &c));
    assert!(quality_lt(&d, &MatchQuality { whole: 6, num: 0, den: 7 }));
}

#[test]
fn fuzzy_match_takes_tightest_cluster() {
    // Forward pass ends at the last 'b'; going back, 'a' is taken at its
    // latest place before it.
    let (pos, _) = match_command("a a b", "ab").unwrap();
    assert_eq!(pos, vec![2, 4]);
}

#[test]
fn no_match_when_characters_out_of_order() {
    assert!(match_command("git push", "pg").is_none());
}

#[test]
fn empty_lowered_query_is_a_substring_match() {
    let (pos, quality) = match_command("ls", "").unwrap();
    assert!(pos.is_empty());
    assert_eq!(quality, MatchQuality { whole: 100, num: 0, den: 1 });
}

#[test]
fn match_positions_are_byte_offsets() {
    // 'é' takes two bytes, so 'x' starts at byte 2.
    let (pos, _) = match_command("éx", "x").unwrap();
    assert_eq!(pos, vec![2]);
}

#[test]
fn substring_beats_long_fuzzy_match() {
    let entries = vec![
        make_entry("a-b-c-d-e-f-g-h-i-j-k-l-m-n-o-p"),
        make_entry("xx abcdefghijklmnop"),
    ];
    let results = search(&entries, "abcdefghijklmnop");
    assert_eq!(results[0].entry.command, "xx abcdefghijklmnop");
    assert_eq!(results.len(), 2);
}

#[test]
fn equal_quality_ties_broken_by_score() {
    let entries = vec![entry("make a", 3, 1_000_000), entry("make b", 3, 2_000_000)];
    let results = search(&entries, "make");
    assert_eq!(results[0].entry.command, "make b");
    assert_eq!(results[1].entry.command, "make a");
}

#[test]
fn empty_query_results_have_no_match() {
    let entries = vec![make_entry("ls")];
    let results = search(&entries, "");
    assert!(results[0].match_positions.is_empty());
    assert_eq!(results[0].match_quality, MatchQuality { whole: 0, num: 0, den: 1 });
}

#[test]
fn uppercase_query_is_lowercased() {
    let results = search_cmds(&["git push"], "PUSH");
    assert_eq!(results, vec!["git push"]);
}

// ── Adaptive filtering ─────────────────────────────────────────────────

#[test]
fn adaptive_without_query_hides_single_use() {
    let entries = vec![entry("once", 1, 5), entry("twice", 2, 4)];
    let results = search_adaptive(&entries, "");
    let cmds: Vec<String> = results.into_iter().map(|r| r.entry.command).collect();
    assert_eq!(cmds, vec!["twice"]);
}

#[test]
fn adaptive_keeps_few_results() {
    let entries: Vec<HistoryEntry> = (0..20).map(|i| entry(&format!("cmd{i}"), 1, i)).collect();
    assert_eq!(search_adaptive(&entries, "cmd").len(), 20);
}

#[test]
fn adaptive_cuts_low_scores_of_many_results() {
    // 21 hits with equal quality sort by score, highest first: 20..=0.
    // The hit at 21 / 3 = 7 has score 13; keep scores of at least 6.5.
    let entries: Vec<HistoryEntry> = (0..21).map(|i| entry(&format!("cmd{i:02}"), 2, i)).collect();
    let results = search_adaptive(&entries, "cmd");
    assert_eq!(results.len(), 14);
    assert!(results.iter().all(|r| 2 * r.entry.score >= 13));
}

// ── Reading and ranking the history ────────────────────────────────────

#[test]
fn tally_counts_uses_and_last_line() {
    let content = "ls\n  git push \n# comment\n\nls\ngit push\r\ncargo build";
    let (cmds, total) = tally_history(content);
    assert_eq!(total, 7);
    assert_eq!(
        cmds,
        vec![
            ("ls".to_string(), 2, 4),
            ("git push".to_string(), 2, 5),
            ("cargo build".to_string(), 1, 6),
        ]
    );
}

#[test]
fn tally_of_empty_history() {
    let (cmds, total) = tally_history("");
    assert!(cmds.is_empty());
    assert_eq!(total, 0);
}

#[test]
fn rank_orders_by_score_and_numbers() {
    let ranked = rank_entries(vec![entry("a", 1, 10), entry("b", 1, 30), entry("c", 1, 20), entry("d", 1, 30)]);
    let names: Vec<&str> = ranked.iter().map(|e| e.command.as_str()).collect();
    assert_eq!(names, vec!["b", "d", "c", "a"]);
    let ranks: Vec<usize> = ranked.iter().map(|e| e.recency_rank).collect();
    assert_eq!(ranks, vec![0, 1, 2, 3]);
}

// ── Deleting ───────────────────────────────────────────────────────────

#[test]
fn delete_removes_every_entry_of_command() {
    let mut entries = vec![make_entry("ls"), make_entry("git push"), make_entry("pwd")];
    delete_command(&mut entries, "git push");
    let names: Vec<&str> = entries.iter().map(|e| e.command.as_str()).collect();
    assert_eq!(names, vec!["ls", "pwd"]);
}

#[test]
fn history_without_drops_trimmed_matches() {
    let content = "ls\n git push \npwd\ngit push\n";
    assert_eq!(history_without(content, "git push"), "ls\npwd\n");
}

#[test]
fn history_without_everything_leaves_newline() {
    assert_eq!(history_without("ls\nls\n", "ls"), "\n");
}

#[test]
fn history_path_under_home() {
    assert_eq!(history_path("/home/u"), "/home/u/.bash_history");
}

#[test]
fn hits_are_exactly_the_in_order_matches() {
    let entries = vec![make_entry("git push"), make_entry("ls -la"), make_entry("grep x")];
    let results = search(&entries, "gp");
    let mut commands: Vec<&str> = results.iter().map(|r| r.entry.command.as_str()).collect();
    commands.sort();
    assert_eq!(commands, vec!["git push", "grep x"]);
}

#[test]
fn backslash_is_no_word_boundary() {
    let (_, after_backslash) = match_command("a\\b", "b").unwrap();
    let (_, after_slash) = match_command("a/b", "b").unwrap();
    assert_eq!(after_backslash, MatchQuality { whole: 103, num: 6, den: 12 });
    assert_eq!(after_slash, MatchQuality { whole: 108, num: 6, den: 12 });
}
