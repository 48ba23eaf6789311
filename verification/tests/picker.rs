use bh::history::{search, HistoryEntry, SearchResult};
use bh::input::{decode_escape, decode_first_byte, is_ascii_letter, utf8_key, EscapeTail, FirstByte, Key};
use bh::tui::{
    char_width, confirms_delete, help_origin, many_delete_prompt, one_delete_prompt, plan_entry, plan_frame,
    prompt_bar, stale_delete_prompt, str_width, truncate_str, write_hline, Action, Confirm, Marker, TuiState,
};

fn entry(cmd: &str, frequency: usize) -> HistoryEntry {
    HistoryEntry { command: cmd.to_string(), frequency, recency_rank: 0, score: 0 }
}

fn results(cmds: &[&str]) -> Vec<SearchResult> {
    let entries: Vec<HistoryEntry> = cmds.iter().map(|c| entry(c, 2)).collect();
    search(&entries, "")
}

fn type_str(state: &mut TuiState, s: &str, rs: &[SearchResult]) {
    for c in s.chars() {
        state.on_key(Key::Char(c), rs, 10);
    }
}

// ── Widths ─────────────────────────────────────────────────────────────

#[test]
fn widths_of_characters() {
    assert_eq!(char_width('a'), 1);
    assert_eq!(char_width('\t'), 0);
    assert_eq!(char_width('\u{85}'), 0);
    assert_eq!(char_width('日'), 2);
    assert_eq!(char_width('\u{301}'), 0);
    assert_eq!(str_width("ab日本"), 6);
}

#[test]
fn truncation_marks_the_cut() {
    assert_eq!(truncate_str("hello", 10), "hello");
    assert_eq!(truncate_str("hello", 3), "hel…");
    assert_eq!(truncate_str("日本語", 5), "日本…");
    assert_eq!(truncate_str("abc", 0), "…");
    assert_eq!(truncate_str("", 0), "");
}

#[test]
fn hline_appends_lines() {
    let mut s = String::from("x");
    write_hline(&mut s, 3);
    assert_eq!(s, "x───");
}

// ── Keys ───────────────────────────────────────────────────────────────

#[test]
fn first_bytes_decode() {
    assert_eq!(decode_first_byte(0x01), FirstByte::Key(Key::CtrlA));
    assert_eq!(decode_first_byte(0x0d), FirstByte::Key(Key::Enter));
    assert_eq!(decode_first_byte(0x7f), FirstByte::Key(Key::Backspace));
    assert_eq!(decode_first_byte(0x08), FirstByte::Key(Key::Backspace));
    assert_eq!(decode_first_byte(b'q'), FirstByte::Key(Key::Char('q')));
    assert_eq!(decode_first_byte(0x1b), FirstByte::Escape);
    assert_eq!(decode_first_byte(0xc3), FirstByte::Utf8(2));
    assert_eq!(decode_first_byte(0xe6), FirstByte::Utf8(3));
    assert_eq!(decode_first_byte(0xf0), FirstByte::Utf8(4));
    assert_eq!(decode_first_byte(0x80), FirstByte::Key(Key::Unknown));
    assert_eq!(decode_first_byte(0x02), FirstByte::Key(Key::Unknown));
}

#[test]
fn escape_sequences_decode() {
    assert_eq!(decode_escape(b"[A"), (Key::Up, EscapeTail::Nothing));
    assert_eq!(decode_escape(b"[Z"), (Key::ShiftTab, EscapeTail::Nothing));
    assert_eq!(decode_escape(b"[M"), (Key::Unknown, EscapeTail::Bytes(3)));
    assert_eq!(decode_escape(b"[<"), (Key::Unknown, EscapeTail::ThroughLetter));
    assert_eq!(decode_escape(b"[x"), (Key::Unknown, EscapeTail::Nothing));
    assert_eq!(decode_escape(b"OA"), (Key::Escape, EscapeTail::Nothing));
    assert_eq!(decode_escape(b"["), (Key::Escape, EscapeTail::Nothing));
    assert_eq!(decode_escape(b""), (Key::Escape, EscapeTail::Nothing));
    assert!(is_ascii_letter(b'm'));
    assert!(!is_ascii_letter(b';'));
}

#[test]
fn utf8_characters_decode() {
    assert_eq!(utf8_key(&[0xc3, 0xa9]), Key::Char('é'));
    assert_eq!(utf8_key("日".as_bytes()), Key::Char('日'));
    assert_eq!(utf8_key(&[0xc3, 0x28]), Key::Unknown);
}

// ── The state machine ──────────────────────────────────────────────────

#[test]
fn typing_edits_query_at_cursor() {
    let rs = results(&[]);
    let mut s = TuiState::new();
    type_str(&mut s, "gt", &rs);
    s.on_key(Key::Left, &rs, 10);
    s.on_key(Key::Char('i'), &rs, 10);
    assert_eq!(s.query, "git");
    assert_eq!(s.cursor_pos, 2);
    s.on_key(Key::Backspace, &rs, 10);
    assert_eq!(s.query, "gt");
    assert_eq!(s.cursor_pos, 1);
    s.on_key(Key::CtrlE, &rs, 10);
    assert_eq!(s.cursor_pos, 2);
    s.on_key(Key::CtrlA, &rs, 10);
    s.on_key(Key::Right, &rs, 10);
    s.on_key(Key::CtrlL, &rs, 10);
    assert_eq!(s.query, "g");
}

#[test]
fn question_mark_opens_help() {
    let rs = results(&[]);
    let mut s = TuiState::new();
    assert!(matches!(s.on_key(Key::Char('?'), &rs, 10), Action::Redraw));
    assert!(s.show_help);
    assert_eq!(s.query, "");
    s.on_key(Key::Char('x'), &rs, 10);
    assert!(!s.show_help);
    assert_eq!(s.query, "");
}

#[test]
fn moving_the_selection() {
    let rs = results(&["a", "b", "c", "d", "e"]);
    let mut s = TuiState::new();
    s.on_key(Key::Down, &rs, 10);
    s.on_key(Key::CtrlN, &rs, 10);
    assert_eq!(s.selected, 2);
    s.on_key(Key::Up, &rs, 10);
    assert_eq!(s.selected, 1);
    s.on_key(Key::CtrlD, &rs, 6);
    assert_eq!(s.selected, 4);
    s.on_key(Key::Down, &rs, 6);
    assert_eq!(s.selected, 4);
    s.on_key(Key::CtrlU, &rs, 6);
    assert_eq!(s.selected, 1);
    s.on_key(Key::CtrlU, &rs, 6);
    assert_eq!(s.selected, 0);
}

#[test]
fn enter_picks_the_selection() {
    let rs = results(&["ls", "pwd"]);
    let mut s = TuiState::new();
    s.on_key(Key::Down, &rs, 10);
    match s.on_key(Key::Enter, &rs, 10) {
        Action::Finish(Some(c)) => assert_eq!(c, "pwd"),
        _ => panic!("expected a command"),
    }
    let none = results(&[]);
    assert!(matches!(TuiState::new().on_key(Key::Enter, &none, 10), Action::Finish(None)));
}

#[test]
fn tab_marks_and_escape_clears_before_quitting() {
    let rs = results(&["ls", "pwd"]);
    let mut s = TuiState::new();
    s.on_key(Key::Tab, &rs, 10);
    assert_eq!(s.multi_select, vec!["ls"]);
    assert_eq!(s.selected, 1);
    s.on_key(Key::Tab, &rs, 10);
    assert_eq!(s.multi_select.len(), 2);
    s.on_key(Key::ShiftTab, &rs, 10);
    assert_eq!(s.multi_select, vec!["ls"]);
    assert_eq!(s.selected, 0);
    assert!(matches!(s.on_key(Key::Escape, &rs, 10), Action::Redraw));
    assert!(s.multi_select.is_empty());
    assert!(matches!(s.on_key(Key::CtrlQ, &rs, 10), Action::Finish(None)));
}

#[test]
fn delete_key_asks_for_marked_or_selected() {
    let rs = results(&["ls", "pwd"]);
    let mut s = TuiState::new();
    match s.on_key(Key::CtrlX, &rs, 10) {
        Action::ConfirmDeleteOne(c) => assert_eq!(c, "ls"),
        _ => panic!("expected one command"),
    }
    s.on_key(Key::Tab, &rs, 10);
    match s.on_key(Key::CtrlX, &rs, 10) {
        Action::ConfirmDeleteMany(v) => assert_eq!(v, vec!["ls"]),
        _ => panic!("expected the marked commands"),
    }
    assert!(matches!(TuiState::new().on_key(Key::CtrlX, &results(&[]), 10), Action::Redraw));
}

#[test]
fn confirming_deletions() {
    let rs = results(&["ls", "pwd"]);
    let mut s = TuiState::new();
    s.on_key(Key::Tab, &rs, 10);
    assert_eq!(s.on_confirm_many_key(Key::Char('x')), Confirm::Wait);
    assert_eq!(s.on_confirm_many_key(Key::Char('N')), Confirm::No);
    assert_eq!(s.on_confirm_many_key(Key::Char('y')), Confirm::Yes);
    assert_eq!(s.multi_select.len(), 1);
    assert_eq!(s.on_confirm_many_key(Key::CtrlC), Confirm::No);
    assert!(s.multi_select.is_empty());
    s.on_key(Key::Tab, &rs, 10);
    s.after_many_deleted();
    assert!(s.multi_select.is_empty());
    assert_eq!((s.selected, s.scroll_offset), (0, 0));
    assert!(confirms_delete(Key::Char('y')));
    assert!(!confirms_delete(Key::Char('Y')));
    s.selected = 3;
    s.after_one_deleted(3);
    assert_eq!(s.selected, 2);
    s.after_one_deleted(3);
    assert_eq!(s.selected, 2);
}

#[test]
fn fitting_keeps_selection_on_screen() {
    let mut s = TuiState::new();
    s.selected = 9;
    s.fit_selection(5, 3);
    assert_eq!((s.selected, s.scroll_offset), (4, 2));
    s.selected = 0;
    s.fit_selection(5, 3);
    assert_eq!((s.selected, s.scroll_offset), (0, 0));
    s.selected = 3;
    s.fit_selection(0, 3);
    assert_eq!((s.selected, s.scroll_offset), (0, 0));
}

// ── Prompts and layout ─────────────────────────────────────────────────

#[test]
fn delete_prompts() {
    assert_eq!(many_delete_prompt(3), " Delete 3 entries? (y/N/C-c cancel): ");
    assert_eq!(one_delete_prompt("git push origin", 30), " Delete? (y/N): git push o…");
    let (text, pad) = prompt_bar(" Delete? (y/N): ls", 25);
    assert_eq!(text, " Delete? (y/N): ls");
    assert_eq!(pad, 7);
}

#[test]
fn frame_layout() {
    let rs = results(&["ls", "pwd", "cargo build"]);
    let mut s = TuiState::new();
    s.query = "ca".to_string();
    s.cursor_pos = 2;
    s.selected = 1;
    s.multi_select = vec!["cargo build".to_string()];
    let p = plan_frame(&s, &rs, 40, 8, 10);
    assert_eq!(p.max_items, 2);
    assert_eq!(p.title_fill, 34);
    assert_eq!(p.query_shown, 2);
    assert!(p.cursor_block);
    assert_eq!(p.count_text, " 3/10 ");
    assert_eq!(p.count_fill, 32);
    assert_eq!(p.rows.len(), 2);
    assert_eq!(p.rows[0].result, Some(0));
    assert_eq!(p.rows[0].marker, Marker::Plain);
    assert_eq!(p.rows[1].marker, Marker::Selected);
    assert!(p.rows[1].selected);
    assert_eq!(p.bottom_row, 5);
    assert_eq!(p.bottom_fill, 29);
    s.scroll_offset = 1;
    let p = plan_frame(&s, &rs, 40, 8, 10);
    assert_eq!(p.rows[1].result, Some(2));
    assert_eq!(p.rows[1].marker, Marker::Multi);
}

#[test]
fn entry_layout() {
    let entries = vec![entry("git push origin main", 12)];
    let rs = search(&entries, "push");
    let p = plan_entry(&rs[0], 14);
    assert_eq!(p.freq_text, " 12x");
    assert!(p.ellipsis);
    let shown: String = p.cells.iter().map(|c| c.0).collect();
    assert_eq!(shown, "git push ");
    let lit: Vec<bool> = p.cells.iter().map(|c| c.1).collect();
    assert_eq!(lit, vec![false, false, false, false, true, true, true, true, false]);
    assert_eq!(p.padding, 0);
    let p = plan_entry(&rs[0], 40);
    assert!(!p.ellipsis);
    assert_eq!(p.padding, 16);
}

#[test]
fn help_box_is_centred() {
    assert_eq!(help_origin(80, 24, 13), (21, 3));
    assert_eq!(help_origin(20, 10, 13), (0, 0));
}

#[test]
fn ctrl_g_asks_to_delete_stale_commands() {
    assert_eq!(decode_first_byte(0x07), FirstByte::Key(Key::CtrlG));
    let rs = results(&["ls", "pwd"]);
    let mut s = TuiState::new();
    s.on_key(Key::Down, &rs, 10);
    assert!(matches!(s.on_key(Key::CtrlG, &rs, 10), Action::ConfirmDeleteStale));
    assert_eq!(s.selected, 1);
    s.after_stale_deleted();
    assert_eq!(s.selected, 0);
    assert_eq!(stale_delete_prompt(3), " Delete 3 stale commands? (y/N): ");
}

#[test]
fn bulk_delete_targets_are_distinct() {
    let rs = results(&["ls", "pwd", "ls"]);
    let mut s = TuiState::new();
    s.on_key(Key::Tab, &rs, 10);
    s.on_key(Key::Tab, &rs, 10);
    s.on_key(Key::Tab, &rs, 10);
    assert_eq!(s.multi_select, vec!["pwd"]);
    match s.on_key(Key::CtrlX, &rs, 10) {
        Action::ConfirmDeleteMany(v) => assert_eq!(v, vec!["pwd"]),
        _ => panic!("expected a bulk delete"),
    }
}
