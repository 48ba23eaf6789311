//! The interactive picker's logic: display widths, the key-driven state
//! machine, and what each part of the screen shows. Drawing on the
//! terminal is left to the caller.

use vstd::prelude::*;
use unicode_width::UnicodeWidthChar;
use crate::history::SearchResult;
use crate::input::Key;
use crate::text::{
    byte_offset, char_offsets, chars_of, dec, fmt_u64, lemma_dec_len, push_dec, push_repeat, push_str,
    repeat_char, str_eq, string_from_chars, string_push, to_string_of,
};

verus! {

// ── Display width ──────────────────────────────────────────────────────

/// Column width of `c` in the width tables of the `unicode-width` crate
/// (UAX #11, ambiguous characters narrow), for characters from U+00A0 on.
pub uninterp spec fn table_width(c: char) -> u8;

/// `UnicodeWidthChar::width` of the `unicode-width` crate: `None` for the
/// control characters U+0000..U+001F and U+007F..U+009F, 1 for printable
/// ASCII, and from U+00A0 on the width in the crate's tables, at most 3.
#[verifier::external_body]
fn unicode_char_width(c: char) -> (r: Option<usize>)
    ensures
        r == (if (c as u32) < 0x20 || (0x7f <= (c as u32) && (c as u32) < 0xa0) {
            None
        } else if (c as u32) < 0x7f {
            Some(1usize)
        } else {
            Some(table_width(c) as usize)
        }),
        r matches Some(w) ==> w <= 3,
{
    UnicodeWidthChar::width(c)
}

/// `char::is_control`: the general category Cc.
pub open spec fn is_control(c: char) -> bool {
    (c as u32) < 0x20 || (0x7f <= (c as u32) && (c as u32) < 0xa0)
}

/// Columns that `c` takes on the terminal: 0 for control characters.
pub open spec fn char_width_spec(c: char) -> nat {
    if is_control(c) {
        0
    } else if (c as u32) < 0x7f {
        1
    } else {
        table_width(c) as nat
    }
}

/// Columns that a string takes.
pub open spec fn str_width_spec(s: Seq<char>) -> nat
    decreases s.len(),
{
    if s.len() == 0 {
        0
    } else {
        str_width_spec(s.drop_last()) + char_width_spec(s.last())
    }
}

/// Columns of one character.
pub fn char_width(c: char) -> (w: usize)
    ensures
        w == char_width_spec(c),
        w <= 3,
{
    let u = c as u32;
    if u < 0x20 || (0x7f <= u && u < 0xa0) {
        0
    } else {
        match unicode_char_width(c) {
            Some(w) => w,
            None => 1,
        }
    }
}

/// Columns of a string.
pub fn str_width(s: &str) -> (w: usize)
    requires
        3 * s@.len() <= usize::MAX,
    ensures
        w == str_width_spec(s@),
        w <= 3 * s@.len(),
{
    let cs = chars_of(s);
    let mut w: usize = 0;
    let mut i: usize = 0;
    while i < cs.len()
        invariant
            i <= cs@.len(),
            cs@ == s@,
            3 * s@.len() <= usize::MAX,
            w == str_width_spec(cs@.take(i as int)),
            w <= 3 * i,
        decreases cs@.len() - i,
    {
        proof {
            assert(cs@.take(i + 1).drop_last() =~= cs@.take(i as int));
        }
        w = w + char_width(cs[i]);
        i = i + 1;
    }
    assert(cs@.take(cs@.len() as int) =~= cs@);
    w
}

/// How many leading characters of `s` fit in `max` columns, taken in order
/// until the first one that no longer fits.
pub open spec fn fit_len(s: Seq<char>, max: int) -> nat
    decreases s.len(),
{
    if s.len() == 0 {
        0
    } else if char_width_spec(s[0]) > max {
        0
    } else {
        1 + fit_len(s.drop_first(), max - char_width_spec(s[0]))
    }
}

/// `s` cut to `max` columns: the characters that fit, then `'…'` when some
/// did not.
pub open spec fn truncate_spec(s: Seq<char>, max: int) -> Seq<char> {
    let k = fit_len(s, max);
    if k == s.len() {
        s
    } else {
        s.take(k as int).push('…')
    }
}

proof fn lemma_fit_len_bound(s: Seq<char>, max: int)
    ensures
        fit_len(s, max) <= s.len(),
    decreases s.len(),
{
    if s.len() > 0 && char_width_spec(s[0]) <= max {
        lemma_fit_len_bound(s.drop_first(), max - char_width_spec(s[0]));
    }
}

proof fn lemma_truncate_len(s: Seq<char>, max: int)
    ensures
        truncate_spec(s, max).len() <= s.len() + 1,
{
    lemma_fit_len_bound(s, max);
}

/// Cuts `s` to `max_width` columns, marking the cut with `'…'`.
pub fn truncate_str(s: &str, max_width: usize) -> (r: String)
    ensures
        r@ == truncate_spec(s@, max_width as int),
{
    let cs = chars_of(s);
    let mut out = String::new();
    let mut w: usize = 0;
    let mut i: usize = 0;
    assert(cs@.skip(0) =~= cs@);
    assert(out@ =~= cs@.take(0));
    while i < cs.len()
        invariant
            i <= cs@.len(),
            cs@ == s@,
            w <= max_width,
            out@ == cs@.take(i as int),
            fit_len(cs@, max_width as int) == i + fit_len(cs@.skip(i as int), max_width - w),
        decreases cs@.len() - i,
    {
        let c = cs[i];
        let cw = char_width(c);
        proof {
            assert(cs@.skip(i as int)[0] == c);
            assert(cs@.skip(i as int).drop_first() =~= cs@.skip(i + 1));
        }
        if cw > max_width - w {
            proof {
                lemma_fit_len_bound(cs@, max_width as int);
            }
            string_push(&mut out, '…');
            return out;
        }
        string_push(&mut out, c);
        w = w + cw;
        i = i + 1;
        assert(out@ =~= cs@.take(i as int));
    }
    assert(cs@.take(cs@.len() as int) =~= cs@);
    out
}

/// Appends `count` horizontal box-drawing lines to `buf`.
pub fn write_hline(buf: &mut String, count: usize)
    ensures
        final(buf)@ == old(buf)@ + repeat_char('─', count as nat),
{
    push_repeat(buf, '─', count);
}


// ── The picker's state ─────────────────────────────────────────────────

/// The picker between two keys: the query and its cursor (in characters),
/// the selected result and the first one shown, the commands marked for
/// deletion, and whether the help overlay is up.
pub struct TuiState {
    pub query: String,
    pub cursor_pos: usize,
    pub selected: usize,
    pub scroll_offset: usize,
    pub multi_select: Vec<String>,
    pub show_help: bool,
}

/// The model of the picker's state.
pub struct TuiModel {
    pub query: Seq<char>,
    pub cursor: int,
    pub selected: int,
    pub scroll: int,
    pub multi: Set<Seq<char>>,
    pub show_help: bool,
}

/// The characters of each string.
pub open spec fn strs(v: Seq<String>) -> Seq<Seq<char>> {
    v.map_values(|s: String| s@)
}

/// The commands of a list of strings, as a set.
pub open spec fn string_set(v: Seq<String>) -> Set<Seq<char>> {
    strs(v).to_set()
}

impl View for TuiState {
    type V = TuiModel;

    open spec fn view(&self) -> TuiModel {
        TuiModel {
            query: self.query@,
            cursor: self.cursor_pos as int,
            selected: self.selected as int,
            scroll: self.scroll_offset as int,
            multi: string_set(self.multi_select@),
            show_help: self.show_help,
        }
    }
}

/// What the caller does after a key.
pub enum Action {
    /// Draw the screen again and read the next key.
    Redraw,
    /// Leave the picker with this command, or with none.
    Finish(Option<String>),
    /// Ask whether to delete all these commands.
    ConfirmDeleteMany(Vec<String>),
    /// Ask whether to delete this command.
    ConfirmDeleteOne(String),
    /// Ask whether to delete all the stale commands.
    ConfirmDeleteStale,
}

/// The model of an action.
pub enum ActionModel {
    Redraw,
    Finish(Option<Seq<char>>),
    ConfirmDeleteMany(Set<Seq<char>>),
    ConfirmDeleteOne(Seq<char>),
    ConfirmDeleteStale,
}

pub open spec fn action_model(a: Action) -> ActionModel {
    match a {
        Action::Redraw => ActionModel::Redraw,
        Action::Finish(c) => ActionModel::Finish(
            match c {
                Some(s) => Some(s@),
                None => None,
            },
        ),
        Action::ConfirmDeleteMany(v) => ActionModel::ConfirmDeleteMany(string_set(v@)),
        Action::ConfirmDeleteOne(s) => ActionModel::ConfirmDeleteOne(s@),
        Action::ConfirmDeleteStale => ActionModel::ConfirmDeleteStale,
    }
}

impl TuiState {
    /// No command is marked twice.
    pub open spec fn marks_distinct(&self) -> bool {
        strs(self.multi_select@).no_duplicates()
    }

    /// The state at start: empty query, first result selected.
    pub fn new() -> (s: TuiState)
        ensures
            s.marks_distinct(),
            s@.query.len() == 0,
            s@.cursor == 0 && s@.selected == 0 && s@.scroll == 0,
            s@.multi == Set::<Seq<char>>::empty(),
            !s@.show_help,
    {
        let s = TuiState {
            query: String::new(),
            cursor_pos: 0,
            selected: 0,
            scroll_offset: 0,
            multi_select: Vec::new(),
            show_help: false,
        };
        assert(string_set(s.multi_select@) =~= Set::<Seq<char>>::empty());
        assert(strs(s.multi_select@) =~= Seq::<Seq<char>>::empty());
        s
    }
}

pub open spec fn with_selection(m: TuiModel, selected: int, scroll: int) -> TuiModel {
    TuiModel { query: m.query, cursor: m.cursor, selected, scroll, multi: m.multi, show_help: m.show_help }
}

pub open spec fn with_multi(m: TuiModel, multi: Set<Seq<char>>) -> TuiModel {
    TuiModel { query: m.query, cursor: m.cursor, selected: m.selected, scroll: m.scroll, multi, show_help: m.show_help }
}

pub open spec fn with_help(m: TuiModel, show_help: bool) -> TuiModel {
    TuiModel { query: m.query, cursor: m.cursor, selected: m.selected, scroll: m.scroll, multi: m.multi, show_help }
}

pub open spec fn with_cursor(m: TuiModel, cursor: int) -> TuiModel {
    TuiModel { query: m.query, cursor, selected: m.selected, scroll: m.scroll, multi: m.multi, show_help: m.show_help }
}

/// A new query and cursor; the selection goes back to the top.
pub open spec fn with_query(m: TuiModel, query: Seq<char>, cursor: int) -> TuiModel {
    TuiModel { query, cursor, selected: 0, scroll: 0, multi: m.multi, show_help: m.show_help }
}

/// `n - k`, or 0 when `k > n`.
pub open spec fn sat_sub(n: int, k: int) -> int {
    if n > k {
        n - k
    } else {
        0
    }
}

/// Keeps the selection inside the `n` results and on screen, where
/// `max_items` results fit.
pub open spec fn fit_spec(m: TuiModel, n: int, max_items: int) -> TuiModel {
    let s1 = if m.selected >= n && n > 0 { n - 1 } else { m.selected };
    let s2 = if n == 0 { 0 } else { s1 };
    let o2 = if n == 0 { 0 } else { m.scroll };
    let o3 = if s2 < o2 { s2 } else { o2 };
    let o4 = if s2 >= o3 + max_items && max_items > 0 { s2 - max_items + 1 } else { o3 };
    with_selection(m, s2, o4)
}

/// What a key does to the picker whose results have the commands `cmds`,
/// with `max_items` results on screen: the next state and the action.
pub open spec fn key_spec(m: TuiModel, key: Key, cmds: Seq<Seq<char>>, max_items: int) -> (TuiModel, ActionModel) {
    let n = cmds.len() as int;
    let sel = m.selected;
    let has_sel = 0 <= sel < n;
    let q = m.query;
    if m.show_help {
        (with_help(m, false), ActionModel::Redraw)
    } else {
        match key {
            Key::CtrlC | Key::CtrlQ | Key::Escape => if m.multi != Set::<Seq<char>>::empty() {
                (with_multi(m, Set::empty()), ActionModel::Redraw)
            } else {
                (m, ActionModel::Finish(None))
            },
            Key::Enter => (m, ActionModel::Finish(if has_sel { Some(cmds[sel]) } else { None })),
            Key::Tab => if has_sel {
                let c = cmds[sel];
                let multi = if m.multi.contains(c) { m.multi.remove(c) } else { m.multi.insert(c) };
                (with_selection(with_multi(m, multi), if sel + 1 < n { sel + 1 } else { sel }, m.scroll), ActionModel::Redraw)
            } else {
                (m, ActionModel::Redraw)
            },
            Key::ShiftTab => {
                let multi = if has_sel { m.multi.remove(cmds[sel]) } else { m.multi };
                (with_selection(with_multi(m, multi), sat_sub(sel, 1), m.scroll), ActionModel::Redraw)
            },
            Key::Backspace => if m.cursor > 0 {
                if m.cursor - 1 < q.len() {
                    (with_query(m, q.take(m.cursor - 1) + q.skip(m.cursor), m.cursor - 1), ActionModel::Redraw)
                } else {
                    (with_query(m, q, m.cursor), ActionModel::Redraw)
                }
            } else {
                (m, ActionModel::Redraw)
            },
            Key::Left => (with_cursor(m, sat_sub(m.cursor, 1)), ActionModel::Redraw),
            Key::Right => (with_cursor(m, if m.cursor < q.len() { m.cursor + 1 } else { m.cursor }), ActionModel::Redraw),
            Key::CtrlA => (with_cursor(m, 0), ActionModel::Redraw),
            Key::CtrlE => (with_cursor(m, q.len() as int), ActionModel::Redraw),
            Key::CtrlL => if m.cursor < q.len() {
                (with_query(m, q.take(m.cursor), m.cursor), ActionModel::Redraw)
            } else {
                (m, ActionModel::Redraw)
            },
            Key::CtrlU => (with_selection(m, sat_sub(sel, max_items / 2), m.scroll), ActionModel::Redraw),
            Key::CtrlD => if n > 0 {
                let t = sel + max_items / 2;
                (with_selection(m, if t < n - 1 { t } else { n - 1 }, m.scroll), ActionModel::Redraw)
            } else {
                (m, ActionModel::Redraw)
            },
            Key::Up | Key::CtrlP | Key::CtrlK => (with_selection(m, sat_sub(sel, 1), m.scroll), ActionModel::Redraw),
            Key::Down | Key::CtrlN | Key::CtrlJ => (
                with_selection(m, if sel + 1 < n { sel + 1 } else { sel }, m.scroll),
                ActionModel::Redraw,
            ),
            Key::CtrlX => if m.multi != Set::<Seq<char>>::empty() {
                (m, ActionModel::ConfirmDeleteMany(m.multi))
            } else if has_sel {
                (m, ActionModel::ConfirmDeleteOne(cmds[sel]))
            } else {
                (m, ActionModel::Redraw)
            },
            Key::CtrlG => (m, ActionModel::ConfirmDeleteStale),
            Key::CtrlSlash => (with_help(m, true), ActionModel::Redraw),
            Key::Char(c) => if c == '?' {
                (with_help(m, true), ActionModel::Redraw)
            } else {
                let pos = if m.cursor < q.len() { m.cursor } else { q.len() as int };
                (with_query(m, q.take(pos).push(c) + q.skip(pos), m.cursor + 1), ActionModel::Redraw)
            },
            Key::Unknown => (m, ActionModel::Redraw),
        }
    }
}

/// The keys that `on_key` takes without an arithmetic overflow: typing
/// needs room for the cursor to move on, moving down for the selection.
pub open spec fn key_fits(m: TuiModel, key: Key, max_items: int) -> bool {
    match key {
        Key::Char(_) => m.cursor < usize::MAX,
        Key::CtrlD => m.selected + max_items / 2 <= usize::MAX,
        Key::Down | Key::CtrlN | Key::CtrlJ => m.selected < usize::MAX,
        _ => true,
    }
}

/// The commands of search results.
pub open spec fn result_commands(rs: Seq<SearchResult>) -> Seq<Seq<char>> {
    rs.map_values(|r: SearchResult| r.entry.command@)
}

proof fn lemma_set_push(s: Seq<Seq<char>>, x: Seq<char>)
    ensures
        s.push(x).to_set() == s.to_set().insert(x),
{
    let t = s.push(x);
    assert forall|y: Seq<char>| t.to_set().contains(y) <==> s.to_set().insert(x).contains(y) by {
        if t.contains(y) {
            let j = choose|j: int| 0 <= j < t.len() && #[trigger] t[j] == y;
            if j < s.len() {
                assert(s[j] == y);
            }
        }
        if s.contains(y) {
            let j = choose|j: int| 0 <= j < s.len() && #[trigger] s[j] == y;
            assert(t[j] == y);
        }
        if y == x {
            assert(t[s.len() as int] == x);
        }
    }
    assert(t.to_set() =~= s.to_set().insert(x));
}

fn multi_contains(v: &Vec<String>, c: &str) -> (b: bool)
    ensures
        b == string_set(v@).contains(c@),
{
    let mut i: usize = 0;
    while i < v.len()
        invariant
            i <= v@.len(),
            forall|j: int| 0 <= j < i ==> v@[j]@ != c@,
        decreases v@.len() - i,
    {
        if str_eq(v[i].as_str(), c) {
            assert(strs(v@)[i as int] == c@);
            return true;
        }
        i = i + 1;
    }
    let ghost vv = strs(v@);
    assert(!vv.contains(c@)) by {
        if vv.contains(c@) {
            let j = choose|j: int| 0 <= j < vv.len() && #[trigger] vv[j] == c@;
            assert(v@[j]@ == c@);
        }
    }
    false
}

fn multi_without(v: &Vec<String>, c: &str) -> (r: Vec<String>)
    ensures
        string_set(r@) == string_set(v@).remove(c@),
        strs(v@).no_duplicates() ==> strs(r@).no_duplicates(),
{
    let ghost vv = strs(v@);
    let mut out: Vec<String> = Vec::new();
    let mut i: usize = 0;
    while i < v.len()
        invariant
            i <= v@.len(),
            vv == strs(v@),
            forall|x: Seq<char>| #[trigger] strs(out@).contains(x) <==> (vv.take(i as int).contains(x) && x != c@),
            vv.no_duplicates() ==> strs(out@).no_duplicates(),
        decreases v@.len() - i,
    {
        let ghost before = strs(out@);
        let keep = !str_eq(v[i].as_str(), c);
        if keep {
            out.push(v[i].clone());
        }
        proof {
            let after = strs(out@);
            assert(vv.take(i + 1) =~= vv.take(i as int).push(vv[i as int]));
            if keep {
                assert(after =~= before.push(vv[i as int]));
                if vv.no_duplicates() {
                    assert(!before.contains(vv[i as int])) by {
                        if before.contains(vv[i as int]) {
                            let k = choose|k: int| 0 <= k < i && #[trigger] vv.take(i as int)[k] == vv[i as int];
                            assert(vv[k] == vv[i as int]);
                        }
                    }
                    assert forall|a: int, b: int| 0 <= a < after.len() && 0 <= b < after.len() && a != b implies after[a] != after[b] by {
                        if a < before.len() && b < before.len() {
                            assert(after[a] == before[a] && after[b] == before[b]);
                        } else if a < before.len() {
                            assert(after[a] == before[a]);
                        } else {
                            assert(after[b] == before[b]);
                        }
                    }
                }
            } else {
                assert(after =~= before);
            }
            assert forall|x: Seq<char>| #[trigger] after.contains(x) <==> (vv.take(i + 1).contains(x) && x != c@) by {
                if after.contains(x) {
                    let j = choose|j: int| 0 <= j < after.len() && #[trigger] after[j] == x;
                    if j < before.len() {
                        assert(before[j] == x);
                        assert(before.contains(x));
                        let k = choose|k: int| 0 <= k < i && #[trigger] vv.take(i as int)[k] == x;
                        assert(vv.take(i + 1)[k] == x);
                    } else {
                        assert(vv.take(i + 1)[i as int] == x);
                    }
                }
                if vv.take(i + 1).contains(x) && x != c@ {
                    let k = choose|k: int| 0 <= k < i + 1 && #[trigger] vv.take(i + 1)[k] == x;
                    if k < i {
                        assert(vv.take(i as int)[k] == x);
                        assert(before.contains(x));
                        let j = choose|j: int| 0 <= j < before.len() && #[trigger] before[j] == x;
                        assert(after[j] == x);
                    } else {
                        assert(after[after.len() - 1] == x);
                    }
                }
            }
        }
        i = i + 1;
    }
    assert(vv.take(v@.len() as int) =~= vv);
    assert(string_set(out@) =~= string_set(v@).remove(c@));
    out
}

fn copy_strings(v: &Vec<String>) -> (r: Vec<String>)
    ensures
        strs(r@) == strs(v@),
{
    let mut out: Vec<String> = Vec::new();
    let mut i: usize = 0;
    while i < v.len()
        invariant
            i <= v@.len(),
            strs(out@) == strs(v@).take(i as int),
        decreases v@.len() - i,
    {
        let ghost before = out@;
        out.push(v[i].clone());
        assert(strs(out@) =~= strs(before).push(v@[i as int]@));
        i = i + 1;
        assert(strs(out@) =~= strs(v@).take(i as int));
    }
    assert(strs(v@).take(v@.len() as int) =~= strs(v@));
    out
}

impl TuiState {
    /// Keeps the selection inside the `n` results and on screen.
    pub fn fit_selection(&mut self, n: usize, max_items: usize)
        ensures
            final(self).multi_select@ == old(self).multi_select@,
            final(self)@ == fit_spec(old(self)@, n as int, max_items as int),
    {
        if self.selected >= n && n > 0 {
            self.selected = n - 1;
        }
        if n == 0 {
            self.selected = 0;
            self.scroll_offset = 0;
        }
        if self.selected < self.scroll_offset {
            self.scroll_offset = self.selected;
        }
        if max_items > 0 && self.selected - self.scroll_offset >= max_items {
            self.scroll_offset = self.selected - max_items + 1;
        }
    }

    /// Applies a key to the picker, given the current results and how many
    /// fit on screen; says what the caller does next.
    pub fn on_key(&mut self, key: Key, results: &[SearchResult], max_items: usize) -> (a: Action)
        requires
            key_fits(old(self)@, key, max_items as int),
            old(self).marks_distinct(),
        ensures
            (final(self)@, action_model(a)) == key_spec(old(self)@, key, result_commands(results@), max_items as int),
            final(self).marks_distinct(),
            a matches Action::ConfirmDeleteMany(v) ==> strs(v@).no_duplicates() && strs(v@) == strs(
                final(self).multi_select@,
            ),
    {
        let ghost cmds = result_commands(results@);
        let n = results.len();
        if self.show_help {
            self.show_help = false;
            return Action::Redraw;
        }
        let sel = self.selected;
        let has_sel = sel < n;
        if has_sel {
            assert(cmds[sel as int] == results@[sel as int].entry.command@);
        }
        match key {
            Key::CtrlC | Key::CtrlQ | Key::Escape => {
                if self.multi_select.len() > 0 {
                    assert(strs(self.multi_select@)[0] == self.multi_select@[0]@);
                    assert(string_set(self.multi_select@).contains(self.multi_select@[0]@));
                    self.multi_select = Vec::new();
                    assert(string_set(self.multi_select@) =~= Set::<Seq<char>>::empty());
                    assert(strs(self.multi_select@) =~= Seq::<Seq<char>>::empty());
                    Action::Redraw
                } else {
                    assert(string_set(self.multi_select@) =~= Set::<Seq<char>>::empty());
                    Action::Finish(None)
                }
            },
            Key::Enter => {
                if has_sel {
                    Action::Finish(Some(results[sel].entry.command.clone()))
                } else {
                    Action::Finish(None)
                }
            },
            Key::Tab => {
                if has_sel {
                    let c = results[sel].entry.command.as_str();
                    if multi_contains(&self.multi_select, c) {
                        let v = multi_without(&self.multi_select, c);
                        self.multi_select = v;
                    } else {
                        let ghost before = self.multi_select@;
                        self.multi_select.push(results[sel].entry.command.clone());
                        assert(string_set(self.multi_select@) == string_set(before).insert(c@)) by {
                            assert(strs(self.multi_select@) =~= strs(before).push(c@));
                            lemma_set_push(strs(before), c@);
                        }
                        proof {
                            let after = strs(self.multi_select@);
                            assert(after =~= strs(before).push(c@));
                            assert forall|a: int, b: int| 0 <= a < after.len() && 0 <= b < after.len() && a != b implies after[a] != after[b] by {
                                if a < strs(before).len() && b < strs(before).len() {
                                    assert(after[a] == strs(before)[a] && after[b] == strs(before)[b]);
                                } else if a < strs(before).len() {
                                    assert(after[a] == strs(before)[a]);
                                    assert(string_set(before).contains(after[a]));
                                } else {
                                    assert(after[b] == strs(before)[b]);
                                    assert(string_set(before).contains(after[b]));
                                }
                            }
                        }
                    }
                    if sel < n - 1 {
                        self.selected = sel + 1;
                    }
                }
                Action::Redraw
            },
            Key::ShiftTab => {
                if has_sel {
                    let v = multi_without(&self.multi_select, results[sel].entry.command.as_str());
                    self.multi_select = v;
                }
                if sel > 0 {
                    self.selected = sel - 1;
                }
                Action::Redraw
            },
            Key::Backspace => {
                if self.cursor_pos > 0 {
                    let q = chars_of(self.query.as_str());
                    if self.cursor_pos - 1 < q.len() {
                        let mut nq: Vec<char> = Vec::new();
                        let mut i: usize = 0;
                        while i < q.len()
                            invariant
                                i <= q@.len(),
                                1 <= self.cursor_pos <= q@.len(),
                                nq@ == (if i < self.cursor_pos { q@.take(i as int) } else {
                                    q@.take(self.cursor_pos - 1) + q@.subrange(self.cursor_pos as int, i as int)
                                }),
                            decreases q@.len() - i,
                        {
                            if i != self.cursor_pos - 1 {
                                nq.push(q[i]);
                            }
                            i = i + 1;
                            proof {
                                if i < self.cursor_pos {
                                    assert(nq@ =~= q@.take(i as int));
                                } else if i == self.cursor_pos {
                                    assert(nq@ =~= q@.take(self.cursor_pos - 1) + q@.subrange(self.cursor_pos as int, i as int));
                                } else {
                                    assert(nq@ =~= q@.take(self.cursor_pos - 1) + q@.subrange(self.cursor_pos as int, i as int));
                                }
                            }
                        }
                        assert(q@.subrange(self.cursor_pos as int, q@.len() as int) =~= q@.skip(self.cursor_pos as int));
                        self.query = string_from_chars(nq.as_slice());
                        self.cursor_pos = self.cursor_pos - 1;
                    }
                    self.selected = 0;
                    self.scroll_offset = 0;
                }
                Action::Redraw
            },
            Key::Left => {
                if self.cursor_pos > 0 {
                    self.cursor_pos = self.cursor_pos - 1;
                }
                Action::Redraw
            },
            Key::Right => {
                let q = chars_of(self.query.as_str());
                if self.cursor_pos < q.len() {
                    self.cursor_pos = self.cursor_pos + 1;
                }
                Action::Redraw
            },
            Key::CtrlA => {
                self.cursor_pos = 0;
                Action::Redraw
            },
            Key::CtrlE => {
                let q = chars_of(self.query.as_str());
                self.cursor_pos = q.len();
                Action::Redraw
            },
            Key::CtrlL => {
                let q = chars_of(self.query.as_str());
                if self.cursor_pos < q.len() {
                    let nq = crate::text::slice_chars(&q, 0, self.cursor_pos);
                    assert(nq@ =~= q@.take(self.cursor_pos as int));
                    self.query = string_from_chars(nq.as_slice());
                    self.selected = 0;
                    self.scroll_offset = 0;
                }
                Action::Redraw
            },
            Key::CtrlU => {
                let half = max_items / 2;
                self.selected = if sel > half { sel - half } else { 0 };
                Action::Redraw
            },
            Key::CtrlD => {
                let half = max_items / 2;
                if n > 0 {
                    let t = sel + half;
                    self.selected = if t < n - 1 { t } else { n - 1 };
                }
                Action::Redraw
            },
            Key::Up | Key::CtrlP | Key::CtrlK => {
                if sel > 0 {
                    self.selected = sel - 1;
                }
                Action::Redraw
            },
            Key::Down | Key::CtrlN | Key::CtrlJ => {
                if sel + 1 < n {
                    self.selected = sel + 1;
                }
                Action::Redraw
            },
            Key::CtrlX => {
                if self.multi_select.len() > 0 {
                    assert(strs(self.multi_select@)[0] == self.multi_select@[0]@);
                    assert(string_set(self.multi_select@).contains(self.multi_select@[0]@));
                    let targets = copy_strings(&self.multi_select);
                    Action::ConfirmDeleteMany(targets)
                } else {
                    assert(string_set(self.multi_select@) =~= Set::<Seq<char>>::empty());
                    if has_sel {
                        Action::ConfirmDeleteOne(results[sel].entry.command.clone())
                    } else {
                        Action::Redraw
                    }
                }
            },
            Key::CtrlG => Action::ConfirmDeleteStale,
            Key::CtrlSlash => {
                self.show_help = true;
                Action::Redraw
            },
            Key::Char(c) => {
                if c == '?' {
                    self.show_help = true;
                } else {
                    let q = chars_of(self.query.as_str());
                    let pos = if self.cursor_pos < q.len() { self.cursor_pos } else { q.len() };
                    let mut nq = crate::text::slice_chars(&q, 0, pos);
                    nq.push(c);
                    let tail = crate::text::slice_chars(&q, pos, q.len());
                    let mut i: usize = 0;
                    let ghost head = nq@;
                    while i < tail.len()
                        invariant
                            i <= tail@.len(),
                            nq@ == head + tail@.take(i as int),
                        decreases tail@.len() - i,
                    {
                        nq.push(tail[i]);
                        i = i + 1;
                        assert(nq@ =~= head + tail@.take(i as int));
                    }
                    assert(tail@.take(tail@.len() as int) =~= q@.skip(pos as int));
                    assert(head =~= q@.take(pos as int).push(c));
                    self.query = string_from_chars(nq.as_slice());
                    self.cursor_pos = self.cursor_pos + 1;
                    self.selected = 0;
                    self.scroll_offset = 0;
                }
                Action::Redraw
            },
            Key::Unknown => Action::Redraw,
        }
    }
}


// ── Confirming deletions ───────────────────────────────────────────────

/// An answer to a deletion prompt.
#[derive(Debug, Clone, Copy, PartialEq, Eq, Structural)]
pub enum Confirm {
    Yes,
    No,
    /// Not an answer: read another key.
    Wait,
}

/// A key at the prompt for deleting the marked commands: `y` confirms,
/// `n`, `N` and Escape decline, Ctrl-C declines and unmarks them all;
/// other keys are ignored.
pub open spec fn many_confirm_spec(m: TuiModel, key: Key) -> (TuiModel, Confirm) {
    match key {
        Key::Char(c) => if c == 'y' {
            (m, Confirm::Yes)
        } else if c == 'n' || c == 'N' {
            (m, Confirm::No)
        } else {
            (m, Confirm::Wait)
        },
        Key::Escape => (m, Confirm::No),
        Key::CtrlC => (with_multi(m, Set::empty()), Confirm::No),
        _ => (m, Confirm::Wait),
    }
}

impl TuiState {
    /// A key at the prompt for deleting the marked commands.
    pub fn on_confirm_many_key(&mut self, key: Key) -> (r: Confirm)
        ensures
            (final(self)@, r) == many_confirm_spec(old(self)@, key),
            old(self).marks_distinct() ==> final(self).marks_distinct(),
    {
        match key {
            Key::Char(c) => {
                if c == 'y' {
                    Confirm::Yes
                } else if c == 'n' || c == 'N' {
                    Confirm::No
                } else {
                    Confirm::Wait
                }
            },
            Key::Escape => Confirm::No,
            Key::CtrlC => {
                self.multi_select = Vec::new();
                assert(string_set(self.multi_select@) =~= Set::<Seq<char>>::empty());
                assert(strs(self.multi_select@) =~= Seq::<Seq<char>>::empty());
                Confirm::No
            },
            _ => Confirm::Wait,
        }
    }

    /// After the marked commands were deleted: none is marked, and the
    /// selection goes back to the top.
    pub fn after_many_deleted(&mut self)
        ensures
            final(self)@ == with_selection(with_multi(old(self)@, Set::empty()), 0, 0),
            final(self).marks_distinct(),
    {
        self.multi_select = Vec::new();
        assert(string_set(self.multi_select@) =~= Set::<Seq<char>>::empty());
        assert(strs(self.multi_select@) =~= Seq::<Seq<char>>::empty());
        self.selected = 0;
        self.scroll_offset = 0;
    }

    /// After the stale commands were deleted: the selection goes back to
    /// the top.
    pub fn after_stale_deleted(&mut self)
        ensures
            final(self)@ == with_selection(old(self)@, 0, 0),
            final(self).multi_select@ == old(self).multi_select@,
    {
        self.selected = 0;
        self.scroll_offset = 0;
    }

    /// After one command was deleted, leaving `remaining` entries: a
    /// selection past them moves up by one.
    pub fn after_one_deleted(&mut self, remaining: usize)
        ensures
            final(self).multi_select@ == old(self).multi_select@,
            final(self)@ == with_selection(
                old(self)@,
                if old(self)@.selected > 0 && old(self)@.selected >= remaining {
                    old(self)@.selected - 1
                } else {
                    old(self)@.selected
                },
                old(self)@.scroll,
            ),
    {
        if self.selected > 0 && self.selected >= remaining {
            self.selected = self.selected - 1;
        }
    }
}

/// The prompt for deleting one command confirms on `y` only.
pub fn confirms_delete(key: Key) -> (b: bool)
    ensures
        b == (key == Key::Char('y')),
{
    key == Key::Char('y')
}

/// The prompt for deleting the `count` marked commands.
pub fn many_delete_prompt(count: usize) -> (s: String)
    ensures
        s@ == " Delete "@ + dec(count as nat) + " entries? (y/N/C-c cancel): "@,
{
    let mut s = to_string_of(" Delete ");
    push_dec(&mut s, count as u64);
    push_str(&mut s, " entries? (y/N/C-c cancel): ");
    s
}

/// The prompt for deleting the `count` stale commands.
pub fn stale_delete_prompt(count: usize) -> (s: String)
    ensures
        s@ == " Delete "@ + dec(count as nat) + " stale commands? (y/N): "@,
{
    let mut s = to_string_of(" Delete ");
    push_dec(&mut s, count as u64);
    push_str(&mut s, " stale commands? (y/N): ");
    s
}

/// The prompt for deleting one command, cut to fit a terminal `cols` wide.
pub fn one_delete_prompt(cmd: &str, cols: u16) -> (s: String)
    requires
        cols >= 20,
    ensures
        s@ == " Delete? (y/N): "@ + truncate_spec(cmd@, cols - 20),
{
    let mut s = to_string_of(" Delete? (y/N): ");
    let t = truncate_str(cmd, (cols - 20) as usize);
    push_str(&mut s, t.as_str());
    s
}

/// The prompt bar: the prompt cut to the terminal's width, and the number
/// of blanks that fill the rest of the row.
pub fn prompt_bar(prompt: &str, cols: u16) -> (r: (String, usize))
    requires
        3 * (prompt@.len() + 1) <= usize::MAX,
    ensures
        r.0@ == truncate_spec(prompt@, cols as int),
        r.1 == sat_sub(cols as int, str_width_spec(r.0@) as int),
{
    let display = truncate_str(prompt, cols as usize);
    proof {
        lemma_truncate_len(prompt@, cols as int);
    }
    let w = str_width(display.as_str());
    let pad = if (cols as usize) > w { cols as usize - w } else { 0 };
    (display, pad)
}

// ── What the screen shows ──────────────────────────────────────────────

/// How a result's row is marked on the left.
#[derive(Debug, Clone, Copy, PartialEq, Eq, Structural)]
pub enum Marker {
    /// ` * `: marked for deletion.
    Multi,
    /// ` > `: the selection.
    Selected,
    /// Blank.
    Plain,
}

/// One row of the result list: the screen row, the result shown there (if
/// any), its marker and whether it is the selection.
#[derive(Debug, Clone, Copy, PartialEq, Eq, Structural)]
pub struct RowPlan {
    pub row: u16,
    pub result: Option<usize>,
    pub marker: Marker,
    pub selected: bool,
}

/// The layout of the picker's screen, `cols` by `rows`.
pub struct FramePlan {
    /// How many results fit: `rows - 6`.
    pub max_items: usize,
    /// Line characters after the title on the top border.
    pub title_fill: usize,
    /// How many query characters are shown.
    pub query_shown: usize,
    /// Whether the cursor is a block after the query.
    pub cursor_block: bool,
    /// ` <results>/<entries> ` on the separator row.
    pub count_text: String,
    /// Line characters before the count.
    pub count_fill: usize,
    /// The result rows, top down.
    pub rows: Vec<RowPlan>,
    /// The row of the bottom border.
    pub bottom_row: u16,
    /// Line characters before the help hint on the bottom border.
    pub bottom_fill: usize,
}

/// How many result rows are drawn on a screen `rows` high.
pub open spec fn shown_rows(rows: int) -> int {
    let max_items = sat_sub(rows, 6);
    let limit = sat_sub(sat_sub(rows, 1), 3);
    if max_items < limit {
        max_items
    } else {
        limit
    }
}

/// The `i`-th result row.
pub open spec fn row_spec(m: TuiModel, cmds: Seq<Seq<char>>, i: int) -> RowPlan {
    let idx = m.scroll + i;
    RowPlan {
        row: (3 + i) as u16,
        result: if idx < cmds.len() { Some(idx as usize) } else { None },
        marker: if idx < cmds.len() && m.multi.contains(cmds[idx]) {
            Marker::Multi
        } else if idx == m.selected {
            Marker::Selected
        } else {
            Marker::Plain
        },
        selected: idx == m.selected,
    }
}

/// Lays out the screen for the state, its results and the number of
/// entries in all.
pub fn plan_frame(state: &TuiState, results: &[SearchResult], cols: u16, rows: u16, total_count: usize) -> (p: FramePlan)
    requires
        sat_sub(rows as int, 6) == 0 || state.scroll_offset + sat_sub(rows as int, 6) - 1 <= usize::MAX,
    ensures
        p.max_items == sat_sub(rows as int, 6),
        p.title_fill == sat_sub(cols as int, 6),
        p.query_shown == fit_len(state@.query, sat_sub(cols as int, 6)),
        p.cursor_block == (state@.cursor >= state@.query.len()),
        p.count_text@ == " "@ + dec(results@.len() as nat) + "/"@ + dec(total_count as nat) + " "@,
        p.count_fill == sat_sub(cols as int, 2 + str_width_spec(p.count_text@) as int),
        p.rows@.len() == shown_rows(rows as int),
        forall|i: int| 0 <= i < p.rows@.len() ==> #[trigger] p.rows@[i] == row_spec(state@, result_commands(results@), i),
        p.bottom_row as int == (if sat_sub(rows as int, 1) < 3 + sat_sub(rows as int, 6) {
            sat_sub(rows as int, 1)
        } else {
            3 + sat_sub(rows as int, 6)
        }),
        p.bottom_fill == sat_sub(cols as int, 11int),
{
    let ghost cmds = result_commands(results@);
    let w = cols as usize;
    let max_items: usize = if rows >= 6 { (rows - 6) as usize } else { 0 };
    let title_fill: usize = if w > 6 { w - 6 } else { 0 };
    let q = chars_of(state.query.as_str());
    let max_query_w: usize = if w > 6 { w - 6 } else { 0 };
    let mut qw: usize = 0;
    let mut shown: usize = 0;
    assert(q@.skip(0) =~= q@);
    while shown < q.len()
        invariant
            shown <= q@.len(),
            q@ == state@.query,
            qw <= max_query_w,
            fit_len(q@, max_query_w as int) == shown + fit_len(q@.skip(shown as int), max_query_w - qw),
        ensures
            shown == fit_len(q@, max_query_w as int),
        decreases q@.len() - shown,
    {
        let cw = char_width(q[shown]);
        proof {
            assert(q@.skip(shown as int)[0] == q@[shown as int]);
            assert(q@.skip(shown as int).drop_first() =~= q@.skip(shown + 1));
        }
        if cw > max_query_w - qw {
            break;
        }
        qw = qw + cw;
        shown = shown + 1;
    }
    let cursor_block = state.cursor_pos >= q.len();
    let n = results.len();
    let mut count_text = to_string_of(" ");
    push_dec(&mut count_text, n as u64);
    push_str(&mut count_text, "/");
    push_dec(&mut count_text, total_count as u64);
    push_str(&mut count_text, " ");
    proof {
        reveal_strlit(" ");
        reveal_strlit("/");
        lemma_dec_len(n as nat);
        lemma_dec_len(total_count as nat);
    }
    let count_w = str_width(count_text.as_str());
    let count_fill: usize = if w > 2 + count_w { w - (2 + count_w) } else { 0 };
    let limit: usize = if rows >= 4 { (rows - 4) as usize } else { 0 };
    let shown_n: usize = if max_items < limit { max_items } else { limit };
    let mut plan_rows: Vec<RowPlan> = Vec::new();
    let mut i: usize = 0;
    while i < shown_n
        invariant
            i <= shown_n <= max_items,
            shown_n == shown_rows(rows as int),
            max_items == sat_sub(rows as int, 6),
            max_items == 0 || state.scroll_offset + max_items - 1 <= usize::MAX,
            n == results@.len() == cmds.len(),
            cmds == result_commands(results@),
            plan_rows@.len() == i,
            forall|j: int| 0 <= j < i ==> #[trigger] plan_rows@[j] == row_spec(state@, cmds, j),
        decreases shown_n - i,
    {
        let idx = state.scroll_offset + i;
        let (result, marker) = if idx < n {
            assert(cmds[idx as int] == results@[idx as int].entry.command@);
            let marker = if multi_contains(&state.multi_select, results[idx].entry.command.as_str()) {
                Marker::Multi
            } else if idx == state.selected {
                Marker::Selected
            } else {
                Marker::Plain
            };
            (Some(idx), marker)
        } else {
            (None, if idx == state.selected { Marker::Selected } else { Marker::Plain })
        };
        plan_rows.push(RowPlan { row: (3 + i) as u16, result, marker, selected: idx == state.selected });
        i = i + 1;
    }
    let bottom_row: u16 = {
        let last: u16 = if rows >= 1 { rows - 1 } else { 0 };
        let under = 3 + max_items;
        if (last as usize) < under { last } else { under as u16 }
    };
    let bottom_fill: usize = if w > 11 { w - 11 } else { 0 };
    FramePlan {
        max_items,
        title_fill,
        query_shown: shown,
        cursor_block,
        count_text,
        count_fill,
        rows: plan_rows,
        bottom_row,
        bottom_fill,
    }
}

/// The characters among the first `k` of a command that take room on
/// screen, each with whether its byte offset is a matched position.
pub open spec fn entry_cells(cmd: Seq<char>, positions: Seq<int>, k: int) -> Seq<(char, bool)>
    decreases k,
{
    if k <= 0 {
        Seq::empty()
    } else {
        let prev = entry_cells(cmd, positions, k - 1);
        let c = cmd[k - 1];
        if char_width_spec(c) == 0 {
            prev
        } else {
            prev.push((c, positions.contains(byte_offset(cmd, k - 1) as int)))
        }
    }
}

/// How one result is drawn in `available` columns: the command's
/// characters that fit (each with whether it is highlighted), `'…'` when
/// some did not, blanks, and the frequency ` <n>x` on the right.
pub struct EntryPlan {
    pub cells: Vec<(char, bool)>,
    pub ellipsis: bool,
    pub padding: usize,
    pub freq_text: String,
}

/// Columns left for the command: `available` less the frequency and one
/// column for a `'…'`.
pub open spec fn command_room(available: int, freq_text: Seq<char>) -> int {
    sat_sub(available, str_width_spec(freq_text) as int + 1)
}

/// Lays out one result row.
pub fn plan_entry(result: &SearchResult, available: usize) -> (p: EntryPlan)
    ensures
        p.freq_text@ == " "@ + dec(result.entry.frequency as nat) + "x"@,
        ({
            let cmd = result.entry.command@;
            let room = command_room(available as int, p.freq_text@);
            let k = fit_len(cmd, room);
            &&& p.ellipsis == (k < cmd.len())
            &&& p.cells@ == entry_cells(cmd, result.match_positions@.map_values(|x: usize| x as int), k as int)
            &&& p.padding == sat_sub(
                available as int,
                str_width_spec(cmd.take(k as int)) + (if p.ellipsis { 1int } else { 0int }) + str_width_spec(p.freq_text@),
            )
        }),
{
    let mut freq_text = to_string_of(" ");
    push_dec(&mut freq_text, result.entry.frequency as u64);
    push_str(&mut freq_text, "x");
    proof {
        reveal_strlit(" ");
        reveal_strlit("x");
        lemma_dec_len(result.entry.frequency as nat);
    }
    let freq_w = str_width(freq_text.as_str());
    let cmd_max: usize = if available > freq_w + 1 { available - (freq_w + 1) } else { 0 };
    let (cs, offs) = char_offsets(result.entry.command.as_str());
    let ghost cmd = result.entry.command@;
    let ghost pos = result.match_positions@.map_values(|x: usize| x as int);
    let mut cells: Vec<(char, bool)> = Vec::new();
    let mut written: usize = 0;
    let mut i: usize = 0;
    let mut ellipsis = false;
    assert(cs@.skip(0) =~= cs@);
    assert(cs@.take(0) =~= Seq::<char>::empty());
    while i < cs.len()
        invariant_except_break
            !ellipsis,
        invariant
            i <= cs@.len(),
            cs@ == cmd,
            cmd == result.entry.command@,
            pos == result.match_positions@.map_values(|x: usize| x as int),
            offs@.len() == cmd.len() + 1,
            forall|j: int| 0 <= j <= cmd.len() ==> offs@[j] == #[trigger] byte_offset(cmd, j),
            written <= cmd_max,
            written == str_width_spec(cmd.take(i as int)),
            fit_len(cmd, cmd_max as int) == i + fit_len(cmd.skip(i as int), cmd_max - written),
            cells@ == entry_cells(cmd, pos, i as int),
        ensures
            written <= cmd_max,
            ellipsis == (fit_len(cmd, cmd_max as int) < cmd.len()),
            written == str_width_spec(cmd.take(fit_len(cmd, cmd_max as int) as int)),
            cells@ == entry_cells(cmd, pos, fit_len(cmd, cmd_max as int) as int),
        decreases cs@.len() - i,
    {
        let c = cs[i];
        let cw = char_width(c);
        proof {
            assert(cmd.skip(i as int)[0] == c);
            assert(cmd.skip(i as int).drop_first() =~= cmd.skip(i + 1));
            assert(cmd.take(i + 1).drop_last() =~= cmd.take(i as int));
        }
        if cw > cmd_max - written {
            proof {
                lemma_fit_len_bound(cmd, cmd_max as int);
            }
            ellipsis = true;
            break;
        }
        if cw > 0 {
            let bi = offs[i];
            let mut hl = false;
            let mut t: usize = 0;
            while t < result.match_positions.len()
                invariant
                    t <= pos.len() == result.match_positions@.len(),
                    pos == result.match_positions@.map_values(|x: usize| x as int),
                    hl == pos.take(t as int).contains(bi as int),
                decreases pos.len() - t,
            {
                proof {
                    assert(pos.take(t + 1) =~= pos.take(t as int).push(pos[t as int]));
                    if pos.take(t as int).contains(bi as int) {
                        let j = choose|j: int| 0 <= j < t && #[trigger] pos.take(t as int)[j] == bi as int;
                        assert(pos.take(t + 1)[j] == bi as int);
                    }
                    if pos[t as int] == bi as int {
                        assert(pos.take(t + 1)[t as int] == bi as int);
                    }
                    if pos.take(t + 1).contains(bi as int) && !pos.take(t as int).contains(bi as int) {
                        let j = choose|j: int| 0 <= j < t + 1 && #[trigger] pos.take(t + 1)[j] == bi as int;
                        if j < t {
                            assert(pos.take(t as int)[j] == bi as int);
                        }
                    }
                }
                if result.match_positions[t] == bi {
                    hl = true;
                }
                t = t + 1;
            }
            assert(pos.take(pos.len() as int) =~= pos);
            cells.push((c, hl));
        }
        written = written + cw;
        i = i + 1;
    }
    if !ellipsis {
        assert(cmd.take(cmd.len() as int) =~= cmd);
    }
    let used = written + (if ellipsis { 1usize } else { 0usize });
    let padding: usize = if available > used + freq_w { available - (used + freq_w) } else { 0 };
    EntryPlan { cells, ellipsis, padding, freq_text }
}

/// Top-left corner of the help box, `n_lines` lines of help in a box 37
/// columns wide and `n_lines + 4` rows high, centred on the screen.
pub fn help_origin(cols: u16, rows: u16, n_lines: u16) -> (r: (u16, u16))
    requires
        n_lines + 4 <= u16::MAX,
    ensures
        r.0 == sat_sub(cols as int, 37) / 2,
        r.1 == sat_sub(rows as int, n_lines + 4) / 2,
{
    let box_h = n_lines + 4;
    let x = if cols > 37 { cols - 37 } else { 0 };
    let y = if rows > box_h { rows - box_h } else { 0 };
    (x / 2, y / 2)
}

// ── Laws ───────────────────────────────────────────────────────────────

/// After fitting, the selection is one of the results (the first place
/// when there are none), never above the first row shown, and on screen.
pub proof fn lemma_fit_keeps_selection_visible(m: TuiModel, n: int, max_items: int)
    requires
        m.selected >= 0,
        m.scroll >= 0,
        n >= 0,
        max_items >= 0,
    ensures
        n > 0 ==> 0 <= fit_spec(m, n, max_items).selected < n,
        n == 0 ==> fit_spec(m, n, max_items).selected == 0 && fit_spec(m, n, max_items).scroll == 0,
        0 <= fit_spec(m, n, max_items).scroll <= fit_spec(m, n, max_items).selected,
        max_items > 0 ==> fit_spec(m, n, max_items).selected < fit_spec(m, n, max_items).scroll + max_items,
{
}

/// Typing a character and then Backspace gives back the query and cursor.
pub proof fn lemma_type_then_backspace(m: TuiModel, c: char, cmds: Seq<Seq<char>>, max_items: int)
    requires
        !m.show_help,
        c != '?',
        0 <= m.cursor <= m.query.len(),
    ensures
        key_spec(key_spec(m, Key::Char(c), cmds, max_items).0, Key::Backspace, cmds, max_items).0.query == m.query,
        key_spec(key_spec(m, Key::Char(c), cmds, max_items).0, Key::Backspace, cmds, max_items).0.cursor == m.cursor,
{
    let q = m.query;
    let pos = m.cursor;
    let m1 = key_spec(m, Key::Char(c), cmds, max_items).0;
    assert(m1.query == q.take(pos).push(c) + q.skip(pos));
    assert(m1.cursor == pos + 1);
    let q1 = m1.query;
    assert(q1.take(pos) + q1.skip(pos + 1) =~= q);
}

/// The characters that `truncate_str` keeps fit in the width asked for.
pub proof fn lemma_truncate_fits(s: Seq<char>, max: int)
    requires
        max >= 0,
    ensures
        str_width_spec(s.take(fit_len(s, max) as int)) <= max,
    decreases s.len(),
{
    if s.len() > 0 && char_width_spec(s[0]) <= max {
        let w0 = char_width_spec(s[0]);
        let t = s.drop_first();
        let k = fit_len(t, max - w0);
        lemma_truncate_fits(t, max - w0);
        lemma_fit_len_bound(t, max - w0);
        assert(s.take(k + 1int) =~= seq![s[0]] + t.take(k as int));
        lemma_str_width_cons(s[0], t.take(k as int));
    } else {
        assert(s.take(0) =~= Seq::<char>::empty());
    }
}

proof fn lemma_str_width_cons(c: char, t: Seq<char>)
    ensures
        str_width_spec(seq![c] + t) == char_width_spec(c) + str_width_spec(t),
    decreases t.len(),
{
    if t.len() == 0 {
        assert(seq![c] + t =~= seq![c]);
        assert(seq![c].drop_last() =~= Seq::<char>::empty());
        assert(seq![c].last() == c);
        assert(str_width_spec(Seq::<char>::empty()) == 0);
    } else {
        lemma_str_width_cons(c, t.drop_last());
        assert((seq![c] + t).drop_last() =~= seq![c] + t.drop_last());
        assert((seq![c] + t).last() == t.last());
    }
}


/// Only the selection moves: query, cursor, scroll, marks and help stay.
pub open spec fn same_but_selection(m: TuiModel, m2: TuiModel) -> bool {
    &&& m2.query == m.query
    &&& m2.cursor == m.cursor
    &&& m2.scroll == m.scroll
    &&& m2.multi == m.multi
    &&& m2.show_help == m.show_help
}

/// Moving the selection, with the help overlay closed: Up, C-p and C-k
/// move it up one result (not above the first); Down, C-n and C-j move it
/// down one result (not past the last); nothing else changes, and the
/// picker redraws.
pub proof fn lemma_move_keys(m: TuiModel, key: Key, cmds: Seq<Seq<char>>, max_items: int)
    requires
        !m.show_help,
        m.selected >= 0,
    ensures
        key == Key::Up || key == Key::CtrlP || key == Key::CtrlK ==> {
            let (m2, a) = key_spec(m, key, cmds, max_items);
            &&& m2.selected == (if m.selected > 0 { m.selected - 1 } else { 0 })
            &&& same_but_selection(m, m2)
            &&& a is Redraw
        },
        key == Key::Down || key == Key::CtrlN || key == Key::CtrlJ ==> {
            let (m2, a) = key_spec(m, key, cmds, max_items);
            &&& m2.selected == (if m.selected + 1 < cmds.len() { m.selected + 1 } else { m.selected })
            &&& same_but_selection(m, m2)
            &&& a is Redraw
        },
{
}

/// Half-page moves, with the help overlay closed: C-u moves the selection
/// up by half the results on screen (not above the first), C-d down by as
/// many (not past the last); nothing else changes.
pub proof fn lemma_half_page_keys(m: TuiModel, cmds: Seq<Seq<char>>, max_items: int)
    requires
        !m.show_help,
        m.selected >= 0,
        max_items >= 0,
    ensures
        ({
            let (m2, a) = key_spec(m, Key::CtrlU, cmds, max_items);
            &&& m2.selected == (if m.selected > max_items / 2 { m.selected - max_items / 2 } else { 0 })
            &&& same_but_selection(m, m2)
            &&& a is Redraw
        }),
        cmds.len() > 0 ==> {
            let (m2, a) = key_spec(m, Key::CtrlD, cmds, max_items);
            &&& m2.selected == (if m.selected + max_items / 2 < cmds.len() - 1 {
                m.selected + max_items / 2
            } else {
                cmds.len() - 1
            })
            &&& same_but_selection(m, m2)
            &&& a is Redraw
        },
{
}

/// Enter, with the help overlay closed, leaves the picker with the
/// highlighted command, or with none when no result is highlighted.
pub proof fn lemma_enter_selects(m: TuiModel, cmds: Seq<Seq<char>>, max_items: int)
    requires
        !m.show_help,
    ensures
        key_spec(m, Key::Enter, cmds, max_items).1 == (if 0 <= m.selected < cmds.len() {
            ActionModel::Finish(Some(cmds[m.selected]))
        } else {
            ActionModel::Finish(None)
        }),
        key_spec(m, Key::Enter, cmds, max_items).0 == m,
{
}


/// Editing the query, with the help overlay closed: a typed character
/// other than `?` is inserted at the cursor, which moves past it;
/// Backspace removes the character before the cursor. Either way the
/// selection goes back to the top.
pub proof fn lemma_edit_keys(m: TuiModel, c: char, cmds: Seq<Seq<char>>, max_items: int)
    requires
        !m.show_help,
        0 <= m.cursor <= m.query.len(),
    ensures
        c != '?' ==> {
            let (m2, a) = key_spec(m, Key::Char(c), cmds, max_items);
            &&& m2.query.len() == m.query.len() + 1
            &&& m2.query[m.cursor] == c
            &&& m2.query.take(m.cursor) == m.query.take(m.cursor)
            &&& m2.query.skip(m.cursor + 1) == m.query.skip(m.cursor)
            &&& m2.cursor == m.cursor + 1
            &&& m2.selected == 0 && m2.scroll == 0
            &&& m2.multi == m.multi && !m2.show_help
            &&& a is Redraw
        },
        m.cursor > 0 ==> {
            let (m2, a) = key_spec(m, Key::Backspace, cmds, max_items);
            &&& m2.query == m.query.take(m.cursor - 1) + m.query.skip(m.cursor)
            &&& m2.cursor == m.cursor - 1
            &&& m2.selected == 0 && m2.scroll == 0
            &&& m2.multi == m.multi && !m2.show_help
            &&& a is Redraw
        },
{
    let q = m.query;
    let n = q.take(m.cursor).push(c) + q.skip(m.cursor);
    assert(n.take(m.cursor) =~= q.take(m.cursor));
    assert(n.skip(m.cursor + 1) =~= q.skip(m.cursor));
}

/// Marking, with the help overlay closed: Tab marks the highlighted
/// command, or unmarks it when it was marked, and moves down one result;
/// Escape, C-c and C-q clear the marks when there are any, and else leave
/// the picker with no command; C-x asks to delete the marked commands, or
/// without marks the highlighted one.
pub proof fn lemma_mark_keys(m: TuiModel, key: Key, cmds: Seq<Seq<char>>, max_items: int)
    requires
        !m.show_help,
        0 <= m.selected < cmds.len(),
    ensures
        key == Key::Tab ==> {
            let (m2, a) = key_spec(m, key, cmds, max_items);
            &&& m2.multi.contains(cmds[m.selected]) == !m.multi.contains(cmds[m.selected])
            &&& forall|x: Seq<char>| x != cmds[m.selected] ==> m2.multi.contains(x) == m.multi.contains(x)
            &&& m2.selected == (if m.selected + 1 < cmds.len() { m.selected + 1 } else { m.selected })
            &&& a is Redraw
        },
        key == Key::Escape || key == Key::CtrlC || key == Key::CtrlQ ==> {
            let (m2, a) = key_spec(m, key, cmds, max_items);
            if m.multi.is_empty() {
                m2 == m && a == ActionModel::Finish(None)
            } else {
                m2.multi.is_empty() && a is Redraw
            }
        },
        key == Key::CtrlX ==> {
            let (m2, a) = key_spec(m, key, cmds, max_items);
            &&& m2 == m
            &&& if m.multi.is_empty() {
                a == ActionModel::ConfirmDeleteOne(cmds[m.selected])
            } else {
                a == ActionModel::ConfirmDeleteMany(m.multi)
            }
        },
{
    if !m.multi.is_empty() {
        assert(m.multi != Set::<Seq<char>>::empty());
    } else {
        assert(m.multi =~= Set::<Seq<char>>::empty());
    }
}

/// With the help overlay open, any key only closes it.
pub proof fn lemma_help_closes(m: TuiModel, key: Key, cmds: Seq<Seq<char>>, max_items: int)
    requires
        m.show_help,
    ensures
        key_spec(m, key, cmds, max_items).0 == with_help(m, false),
        key_spec(m, key, cmds, max_items).1 is Redraw,
{
}

} // verus!
