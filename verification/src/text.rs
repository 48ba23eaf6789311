//! Character-level helpers on strings: UTF-8 lengths, whitespace, trimming,
//! line splitting, comparison, decimal formatting and parsing.

use vstd::prelude::*;

verus! {

// ── Building strings ───────────────────────────────────────────────────

/// The characters of `s`, in order.
pub fn chars_of(s: &str) -> (v: Vec<char>)
    ensures
        v@ == s@,
{
    let mut v: Vec<char> = Vec::new();
    for c in it: s.chars()
        invariant
            v@ == it.seq().take(it.index() as int),
    {
        v.push(c);
    }
    assert(v@ =~= s@);
    v
}

/// `String::push`: appends one character.
#[verifier::external_body]
pub(crate) fn string_push(s: &mut String, c: char)
    ensures
        final(s)@ == old(s)@.push(c),
{
    s.push(c);
}

/// An owned copy of `s`.
pub fn to_string_of(s: &str) -> (r: String)
    ensures
        r@ == s@,
{
    s.to_owned()
}

/// Whether `a` and `b` hold the same characters.
pub(crate) fn str_eq(a: &str, b: &str) -> (r: bool)
    ensures
        r == (a@ == b@),
{
    let x = to_string_of(a);
    let y = to_string_of(b);
    x == y
}

/// A `String` holding the characters of `v`.
pub fn string_from_chars(v: &[char]) -> (s: String)
    ensures
        s@ == v@,
{
    let mut s = String::new();
    let mut i: usize = 0;
    while i < v.len()
        invariant
            i <= v@.len(),
            s@ == v@.take(i as int),
        decreases v@.len() - i,
    {
        string_push(&mut s, v[i]);
        i = i + 1;
        assert(s@ =~= v@.take(i as int));
    }
    assert(v@.take(v@.len() as int) =~= v@);
    s
}

/// Appends all of `t` to `s`.
pub fn push_str(s: &mut String, t: &str)
    ensures
        final(s)@ == old(s)@ + t@,
{
    let cs = chars_of(t);
    let mut i: usize = 0;
    while i < cs.len()
        invariant
            i <= cs@.len(),
            cs@ == t@,
            s@ == old(s)@ + t@.take(i as int),
        decreases cs@.len() - i,
    {
        string_push(s, cs[i]);
        i = i + 1;
        assert(s@ =~= old(s)@ + t@.take(i as int));
    }
    assert(t@.take(t@.len() as int) =~= t@);
}

/// `n` copies of `c`.
pub open spec fn repeat_char(c: char, n: nat) -> Seq<char> {
    Seq::new(n, |i: int| c)
}

/// Appends `n` copies of `c` to `s`.
pub fn push_repeat(s: &mut String, c: char, n: usize)
    ensures
        final(s)@ == old(s)@ + repeat_char(c, n as nat),
{
    let mut i: usize = 0;
    while i < n
        invariant
            i <= n,
            s@ == old(s)@ + repeat_char(c, i as nat),
        decreases n - i,
    {
        string_push(s, c);
        i = i + 1;
        assert(s@ =~= old(s)@ + repeat_char(c, i as nat));
    }
}

// ── UTF-8 lengths ──────────────────────────────────────────────────────

/// Number of bytes of `c` in UTF-8.
pub open spec fn utf8_len(c: char) -> nat {
    if (c as u32) < 0x80 {
        1
    } else if (c as u32) < 0x800 {
        2
    } else if (c as u32) < 0x10000 {
        3
    } else {
        4
    }
}

/// Number of bytes of `s` in UTF-8: the byte offset just past its last character.
pub open spec fn utf8_len_seq(s: Seq<char>) -> nat
    decreases s.len(),
{
    if s.len() == 0 {
        0
    } else {
        utf8_len_seq(s.drop_last()) + utf8_len(s.last())
    }
}

/// Byte offset of the character at index `i` of `s`.
pub open spec fn byte_offset(s: Seq<char>, i: int) -> nat {
    utf8_len_seq(s.take(i))
}

pub fn char_utf8_len(c: char) -> (n: usize)
    ensures
        n == utf8_len(c),
{
    let u = c as u32;
    if u < 0x80 {
        1
    } else if u < 0x800 {
        2
    } else if u < 0x10000 {
        3
    } else {
        4
    }
}

pub proof fn lemma_utf8_len_take_step(s: Seq<char>, i: int)
    requires
        0 <= i < s.len(),
    ensures
        utf8_len_seq(s.take(i + 1)) == utf8_len_seq(s.take(i)) + utf8_len(s[i]),
{
    assert(s.take(i + 1).drop_last() =~= s.take(i));
}

pub proof fn lemma_utf8_len_monotone(s: Seq<char>, i: int, j: int)
    requires
        0 <= i <= j <= s.len(),
    ensures
        utf8_len_seq(s.take(i)) + (j - i) <= utf8_len_seq(s.take(j)),
    decreases j - i,
{
    if i < j {
        lemma_utf8_len_monotone(s, i, j - 1);
        lemma_utf8_len_take_step(s, j - 1);
    }
}

// ── Whitespace and trimming ────────────────────────────────────────────

/// `char::is_whitespace`: the Unicode `White_Space` property.
pub open spec fn is_ws(c: char) -> bool {
    let u = c as u32;
    (0x09 <= u <= 0x0d) || u == 0x20 || u == 0x85 || u == 0xa0 || u == 0x1680
        || (0x2000 <= u <= 0x200a) || u == 0x2028 || u == 0x2029 || u == 0x202f
        || u == 0x205f || u == 0x3000
}

pub fn char_is_ws(c: char) -> (b: bool)
    ensures
        b == is_ws(c),
{
    let u = c as u32;
    (0x09 <= u && u <= 0x0d) || u == 0x20 || u == 0x85 || u == 0xa0 || u == 0x1680
        || (0x2000 <= u && u <= 0x200a) || u == 0x2028 || u == 0x2029 || u == 0x202f
        || u == 0x205f || u == 0x3000
}

/// Number of leading whitespace characters.
pub open spec fn ws_prefix_len(s: Seq<char>) -> nat
    decreases s.len(),
{
    if s.len() > 0 && is_ws(s[0]) {
        1 + ws_prefix_len(s.drop_first())
    } else {
        0
    }
}

/// Number of trailing whitespace characters.
pub open spec fn ws_suffix_len(s: Seq<char>) -> nat
    decreases s.len(),
{
    if s.len() > 0 && is_ws(s.last()) {
        1 + ws_suffix_len(s.drop_last())
    } else {
        0
    }
}

/// `str::trim`: `s` without leading and trailing whitespace.
pub open spec fn trim(s: Seq<char>) -> Seq<char> {
    let t = s.skip(ws_prefix_len(s) as int);
    t.take(t.len() - ws_suffix_len(t))
}

/// `ws_prefix_len` read off by scanning: the first `k` characters are whitespace
/// and character `k` (if any) is not.
proof fn lemma_ws_prefix_char(s: Seq<char>, k: int)
    requires
        0 <= k <= s.len(),
        forall|j: int| 0 <= j < k ==> is_ws(s[j]),
        k == s.len() || !is_ws(s[k]),
    ensures
        ws_prefix_len(s) == k,
    decreases k,
{
    if k > 0 {
        let t = s.drop_first();
        assert forall|j: int| 0 <= j < k - 1 implies is_ws(t[j]) by {
            assert(t[j] == s[j + 1]);
        }
        if k < s.len() {
            assert(t[k - 1] == s[k]);
        }
        lemma_ws_prefix_char(t, k - 1);
    }
}

proof fn lemma_ws_suffix_char(s: Seq<char>, k: int)
    requires
        0 <= k <= s.len(),
        forall|j: int| s.len() - k <= j < s.len() ==> is_ws(s[j]),
        k == s.len() || !is_ws(s[s.len() - k - 1]),
    ensures
        ws_suffix_len(s) == k,
    decreases k,
{
    if k > 0 {
        let t = s.drop_last();
        assert forall|j: int| t.len() - (k - 1) <= j < t.len() implies is_ws(t[j]) by {
            assert(t[j] == s[j]);
        }
        lemma_ws_suffix_char(t, k - 1);
    }
}

/// Trims a character sequence; returns the bounds `[a, b)` of the trimmed part.
pub fn trim_bounds(s: &[char]) -> (r: (usize, usize))
    ensures
        r.0 <= r.1 <= s@.len(),
        s@.subrange(r.0 as int, r.1 as int) == trim(s@),
{
    let n = s.len();
    let mut a: usize = 0;
    while a < n && char_is_ws(s[a])
        invariant
            a <= n == s@.len(),
            forall|j: int| 0 <= j < a ==> is_ws(s@[j]),
        decreases n - a,
    {
        a = a + 1;
    }
    proof {
        lemma_ws_prefix_char(s@, a as int);
    }
    let ghost t = s@.skip(a as int);
    let mut b: usize = n;
    while b > a && char_is_ws(s[b - 1])
        invariant
            a <= b <= n == s@.len(),
            t == s@.skip(a as int),
            forall|j: int| b <= j < n ==> is_ws(s@[j]),
        decreases b,
    {
        b = b - 1;
    }
    proof {
        let k = (n - b) as int;
        assert forall|j: int| t.len() - k <= j < t.len() implies is_ws(t[j]) by {
            assert(t[j] == s@[j + a]);
        }
        if k < t.len() {
            assert(t[t.len() - k - 1] == s@[b - 1]);
        }
        lemma_ws_suffix_char(t, k);
        assert(s@.subrange(a as int, b as int) =~= t.take(t.len() - k));
    }
    (a, b)
}

/// The characters of `v` in `[a, b)`.
pub fn slice_chars(v: &Vec<char>, a: usize, b: usize) -> (r: Vec<char>)
    requires
        a <= b <= v@.len(),
    ensures
        r@ == v@.subrange(a as int, b as int),
{
    let mut r: Vec<char> = Vec::new();
    let mut i = a;
    while i < b
        invariant
            a <= i <= b <= v@.len(),
            r@ == v@.subrange(a as int, i as int),
        decreases b - i,
    {
        r.push(v[i]);
        i = i + 1;
        assert(r@ =~= v@.subrange(a as int, i as int));
    }
    r
}

// ── Splitting ──────────────────────────────────────────────────────────

/// `str::split(sep)`: the pieces of `s` between occurrences of `sep`.
pub open spec fn split_on(s: Seq<char>, sep: char) -> Seq<Seq<char>>
    decreases s.len(),
{
    if s.len() == 0 {
        seq![Seq::<char>::empty()]
    } else {
        let p = split_on(s.drop_last(), sep);
        if s.last() == sep {
            p.push(Seq::<char>::empty())
        } else {
            p.update(p.len() - 1, p.last().push(s.last()))
        }
    }
}

proof fn lemma_split_nonempty(s: Seq<char>, sep: char)
    ensures
        split_on(s, sep).len() >= 1,
    decreases s.len(),
{
    if s.len() > 0 {
        lemma_split_nonempty(s.drop_last(), sep);
    }
}

/// Drops one trailing `'\r'`.
pub open spec fn strip_cr(s: Seq<char>) -> Seq<char> {
    if s.len() > 0 && s.last() == '\r' {
        s.drop_last()
    } else {
        s
    }
}

/// `str::lines`: pieces between `'\n'`, no final empty piece; a piece
/// that a `'\n'` ends loses one trailing `'\r'`.
pub open spec fn lines_of(s: Seq<char>) -> Seq<Seq<char>> {
    let p = split_on(s, '\n');
    let body = p.drop_last().map_values(|l: Seq<char>| strip_cr(l));
    if p.last().len() == 0 {
        body
    } else {
        body.push(p.last())
    }
}

/// The pieces of `s` between occurrences of `sep`.
pub fn split_chars(s: &[char], sep: char) -> (r: Vec<Vec<char>>)
    ensures
        r@.len() == split_on(s@, sep).len(),
        forall|i: int| 0 <= i < r@.len() ==> r@[i]@ == #[trigger] split_on(s@, sep)[i],
{
    let mut done: Vec<Vec<char>> = Vec::new();
    let mut cur: Vec<char> = Vec::new();
    let mut k: usize = 0;
    while k < s.len()
        invariant
            k <= s@.len(),
            done@.len() + 1 == split_on(s@.take(k as int), sep).len(),
            forall|i: int| 0 <= i < done@.len() ==> done@[i]@ == #[trigger] split_on(s@.take(k as int), sep)[i],
            cur@ == split_on(s@.take(k as int), sep).last(),
        decreases s@.len() - k,
    {
        proof {
            lemma_split_nonempty(s@.take(k as int), sep);
            assert(s@.take(k + 1).drop_last() =~= s@.take(k as int));
        }
        if s[k] == sep {
            let old_cur = cur;
            done.push(old_cur);
            cur = Vec::new();
            k = k + 1;
            assert(cur@ =~= Seq::<char>::empty());
        } else {
            cur.push(s[k]);
            k = k + 1;
        }
    }
    assert(s@.take(s@.len() as int) =~= s@);
    proof {
        lemma_split_nonempty(s@, sep);
    }
    done.push(cur);
    done
}


/// `str::lines` on a character sequence.
pub fn lines_chars(s: &[char]) -> (r: Vec<Vec<char>>)
    ensures
        r@.len() == lines_of(s@).len(),
        forall|i: int| 0 <= i < r@.len() ==> r@[i]@ == #[trigger] lines_of(s@)[i],
{
    let parts = split_chars(s, '\n');
    proof {
        lemma_split_nonempty(s@, '\n');
    }
    let ghost p = split_on(s@, '\n');
    let ghost body = p.drop_last().map_values(|l: Seq<char>| strip_cr(l));
    let n = parts.len() - 1;
    let mut r: Vec<Vec<char>> = Vec::new();
    let mut i: usize = 0;
    while i < n
        invariant
            i <= n,
            n + 1 == parts@.len() == p.len(),
            p == split_on(s@, '\n'),
            body == p.drop_last().map_values(|l: Seq<char>| strip_cr(l)),
            forall|j: int| 0 <= j < parts@.len() ==> parts@[j]@ == #[trigger] p[j],
            r@.len() == i,
            forall|j: int| 0 <= j < i ==> r@[j]@ == #[trigger] body[j],
        decreases n - i,
    {
        let line = &parts[i];
        let len = line.len();
        assert(line@ == p[i as int]);
        assert(body[i as int] == strip_cr(p[i as int]));
        if len > 0 && line[len - 1] == '\r' {
            let piece = slice_chars(line, 0, len - 1);
            assert(piece@ =~= strip_cr(p[i as int]));
            r.push(piece);
        } else {
            let piece = slice_chars(line, 0, len);
            assert(piece@ =~= strip_cr(p[i as int]));
            r.push(piece);
        }
        i = i + 1;
    }
    assert(parts@[n as int]@ == p.last());
    if parts[n].len() > 0 {
        let piece = slice_chars(&parts[n], 0, parts[n].len());
        assert(piece@ =~= p.last());
        r.push(piece);
        assert forall|j: int| 0 <= j < r@.len() implies r@[j]@ == #[trigger] lines_of(s@)[j] by {
            if j < n {
                assert(lines_of(s@)[j] == body[j]);
            }
        }
    }
    r
}

// ── Ordering ───────────────────────────────────────────────────────────

/// Lexicographic `<` on character sequences (the order of `str`).
pub open spec fn lex_lt(a: Seq<char>, b: Seq<char>) -> bool
    decreases a.len(),
{
    if a.len() == 0 {
        b.len() > 0
    } else if b.len() == 0 {
        false
    } else if a[0] != b[0] {
        (a[0] as u32) < (b[0] as u32)
    } else {
        lex_lt(a.drop_first(), b.drop_first())
    }
}

/// Lexicographic `<=`.
pub open spec fn lex_le(a: Seq<char>, b: Seq<char>) -> bool {
    a == b || lex_lt(a, b)
}

/// No string comes before itself.
pub proof fn lemma_lex_lt_irreflexive(a: Seq<char>)
    ensures
        !lex_lt(a, a),
    decreases a.len(),
{
    if a.len() > 0 {
        lemma_lex_lt_irreflexive(a.drop_first());
    }
}

/// String order is transitive.
pub proof fn lemma_lex_lt_transitive(a: Seq<char>, b: Seq<char>, c: Seq<char>)
    requires
        lex_lt(a, b),
        lex_lt(b, c),
    ensures
        lex_lt(a, c),
    decreases a.len(),
{
    if a.len() > 0 && b.len() > 0 && c.len() > 0 && a[0] == b[0] && b[0] == c[0] {
        lemma_lex_lt_transitive(a.drop_first(), b.drop_first(), c.drop_first());
    }
}

/// `lex_le` is transitive, and a string before another is not after it.
pub proof fn lemma_lex_le_transitive(a: Seq<char>, b: Seq<char>, c: Seq<char>)
    ensures
        lex_le(a, b) && lex_le(b, c) ==> lex_le(a, c),
        lex_lt(a, b) ==> !lex_le(b, a),
{
    if lex_lt(a, b) && lex_lt(b, c) {
        lemma_lex_lt_transitive(a, b, c);
    }
    if lex_lt(a, b) {
        lemma_lex_lt_irreflexive(a);
        if lex_lt(b, a) {
            lemma_lex_lt_transitive(a, b, a);
        }
    }
}

proof fn lemma_lex_lt_skip(a: Seq<char>, b: Seq<char>, i: int)
    requires
        0 <= i <= a.len(),
        i <= b.len(),
        a.take(i) == b.take(i),
    ensures
        lex_lt(a, b) == lex_lt(a.skip(i), b.skip(i)),
    decreases i,
{
    if i > 0 {
        assert(a[0] == a.take(i)[0]);
        assert(b[0] == b.take(i)[0]);
        assert(a.drop_first().take(i - 1) =~= a.take(i).drop_first());
        assert(b.drop_first().take(i - 1) =~= b.take(i).drop_first());
        lemma_lex_lt_skip(a.drop_first(), b.drop_first(), i - 1);
        assert(a.drop_first().skip(i - 1) =~= a.skip(i));
        assert(b.drop_first().skip(i - 1) =~= b.skip(i));
    } else {
        assert(a.skip(0) =~= a);
        assert(b.skip(0) =~= b);
    }
}

/// Lexicographic comparison: `(a < b, a == b)`.
pub fn lex_order(a: &[char], b: &[char]) -> (r: (bool, bool))
    ensures
        r.0 == lex_lt(a@, b@),
        r.1 == (a@ == b@),
{
    let mut i: usize = 0;
    while i < a.len() && i < b.len() && a[i] == b[i]
        invariant
            i <= a@.len(),
            i <= b@.len(),
            a@.take(i as int) == b@.take(i as int),
        decreases a@.len() - i,
    {
        assert(a@.take(i + 1) =~= a@.take(i as int).push(a@[i as int]));
        assert(b@.take(i + 1) =~= b@.take(i as int).push(b@[i as int]));
        i = i + 1;
    }
    proof {
        lemma_lex_lt_skip(a@, b@, i as int);
    }
    if i == a.len() && i == b.len() {
        assert(a@ =~= a@.take(i as int));
        assert(b@ =~= b@.take(i as int));
        (false, true)
    } else if i == a.len() {
        assert(a@.len() != b@.len());
        (true, false)
    } else if i == b.len() {
        assert(a@.len() != b@.len());
        (false, false)
    } else {
        assert(a@.skip(i as int)[0] == a@[i as int]);
        assert(b@.skip(i as int)[0] == b@[i as int]);
        assert(a@[i as int] != b@[i as int]);
        ((a[i] as u32) < (b[i] as u32), false)
    }
}

/// `a <= b` in the order of `str`.
pub fn str_le(a: &str, b: &str) -> (r: bool)
    ensures
        r == lex_le(a@, b@),
{
    let ca = chars_of(a);
    let cb = chars_of(b);
    let (lt, eq) = lex_order(ca.as_slice(), cb.as_slice());
    lt || eq
}

// ── Decimal numbers ────────────────────────────────────────────────────

pub open spec fn digit_char(d: int) -> char {
    if d == 0 { '0' }
    else if d == 1 { '1' }
    else if d == 2 { '2' }
    else if d == 3 { '3' }
    else if d == 4 { '4' }
    else if d == 5 { '5' }
    else if d == 6 { '6' }
    else if d == 7 { '7' }
    else if d == 8 { '8' }
    else { '9' }
}

fn digit_char_exec(d: u64) -> (c: char)
    requires
        d < 10,
    ensures
        c == digit_char(d as int),
{
    if d == 0 { '0' }
    else if d == 1 { '1' }
    else if d == 2 { '2' }
    else if d == 3 { '3' }
    else if d == 4 { '4' }
    else if d == 5 { '5' }
    else if d == 6 { '6' }
    else if d == 7 { '7' }
    else if d == 8 { '8' }
    else { '9' }
}

/// Decimal digits of `n`, without leading zeros (`"0"` for zero).
pub open spec fn dec(n: nat) -> Seq<char>
    decreases n,
{
    if n < 10 {
        seq![digit_char(n as int)]
    } else {
        dec(n / 10).push(digit_char((n % 10) as int))
    }
}

/// Appends the decimal digits of `n`.
pub fn push_dec(s: &mut String, n: u64)
    ensures
        final(s)@ == old(s)@ + dec(n as nat),
    decreases n,
{
    if n >= 10 {
        push_dec(s, n / 10);
    }
    string_push(s, digit_char_exec(n % 10));
    assert(final(s)@ =~= old(s)@ + dec(n as nat));
}

/// `format!("{n}")` for an unsigned integer.
pub fn fmt_u64(n: u64) -> (s: String)
    ensures
        s@ == dec(n as nat),
{
    let mut s = String::new();
    push_dec(&mut s, n);
    assert(s@ =~= dec(n as nat));
    s
}

/// `format!("{n:0w$}")`: sign, then zeros up to width `w`, then digits.
pub open spec fn zero_pad(n: int, w: nat) -> Seq<char> {
    if n >= 0 {
        let d = dec(n as nat);
        repeat_char('0', (if w > d.len() { w - d.len() } else { 0 }) as nat) + d
    } else {
        let d = dec((-n) as nat);
        seq!['-'] + repeat_char('0', (if w > d.len() + 1 { w - d.len() - 1 } else { 0 }) as nat) + d
    }
}

/// `format!("{n:0w$}")` for a signed integer.
pub fn fmt_i64_zero_pad(n: i64, w: usize) -> (s: String)
    requires
        w <= 64,
    ensures
        s@ == zero_pad(n as int, w as nat),
{
    let mag: u64 = if n >= 0 { n as u64 } else { ((-(n + 1)) as u64) + 1 };
    let digits = fmt_u64(mag);
    let dl = digits.as_str().unicode_len();
    let mut s = String::new();
    if n >= 0 {
        let pad = if w > dl { w - dl } else { 0 };
        push_repeat(&mut s, '0', pad);
        push_str(&mut s, digits.as_str());
    } else {
        string_push(&mut s, '-');
        let pad = if dl < w && w - dl > 1 { w - dl - 1 } else { 0 };
        push_repeat(&mut s, '0', pad);
        push_str(&mut s, digits.as_str());
    }
    assert(s@ =~= zero_pad(n as int, w as nat));
    s
}

/// The value of a nonempty run of ASCII digits.
pub open spec fn is_digit(c: char) -> bool {
    48 <= (c as u32) <= 57
}

pub open spec fn all_digits(s: Seq<char>) -> bool {
    forall|i: int| 0 <= i < s.len() ==> is_digit(#[trigger] s[i])
}

pub open spec fn digits_val(s: Seq<char>) -> int
    decreases s.len(),
{
    if s.len() == 0 {
        0
    } else {
        digits_val(s.drop_last()) * 10 + ((s.last() as u32) - 48)
    }
}

/// `str::parse::<i64>`: an optional `+` or `-`, then one or more ASCII digits,
/// with the value in range.
pub open spec fn parse_i64(s: Seq<char>) -> Option<i64> {
    let neg = s.len() > 0 && s[0] == '-';
    let body = if s.len() > 0 && (s[0] == '-' || s[0] == '+') { s.drop_first() } else { s };
    if body.len() == 0 || !all_digits(body) {
        None
    } else {
        let v = if neg { -digits_val(body) } else { digits_val(body) };
        if i64::MIN <= v <= i64::MAX {
            Some(v as i64)
        } else {
            None
        }
    }
}

proof fn lemma_digits_val_nonneg(s: Seq<char>)
    requires
        all_digits(s),
    ensures
        digits_val(s) >= 0,
    decreases s.len(),
{
    if s.len() > 0 {
        assert(all_digits(s.drop_last())) by {
            assert forall|i: int| 0 <= i < s.drop_last().len() implies is_digit(#[trigger] s.drop_last()[i]) by {
                assert(s.drop_last()[i] == s[i]);
            }
        }
        lemma_digits_val_nonneg(s.drop_last());
        assert(is_digit(s[s.len() - 1]));
    }
}

proof fn lemma_digits_val_prefix(s: Seq<char>, k: int)
    requires
        all_digits(s),
        0 <= k <= s.len(),
    ensures
        digits_val(s) >= digits_val(s.take(k)),
    decreases s.len() - k,
{
    if k < s.len() {
        let t = s.take(k + 1);
        assert(all_digits(t)) by {
            assert forall|i: int| 0 <= i < t.len() implies is_digit(#[trigger] t[i]) by {
                assert(t[i] == s[i]);
            }
        }
        assert(t.drop_last() =~= s.take(k));
        assert(all_digits(s.take(k))) by {
            assert forall|i: int| 0 <= i < k implies is_digit(#[trigger] s.take(k)[i]) by {
                assert(s.take(k)[i] == s[i]);
            }
        }
        lemma_digits_val_nonneg(s.take(k));
        assert(is_digit(t[k]));
        assert(t.last() == t[k]);
        assert(digits_val(t) == digits_val(t.drop_last()) * 10 + ((t.last() as u32) - 48));
        assert(digits_val(t) >= digits_val(s.take(k)));
        lemma_digits_val_prefix(s, k + 1);
    } else {
        assert(s.take(k) =~= s);
    }
}

/// `str::parse::<i64>` on a character sequence.
pub fn parse_i64_chars(s: &[char]) -> (r: Option<i64>)
    ensures
        r == parse_i64(s@),
{
    let n = s.len();
    let neg = n > 0 && s[0] == '-';
    let start: usize = if n > 0 && (s[0] == '-' || s[0] == '+') { 1 } else { 0 };
    let ghost body = if s@.len() > 0 && (s@[0] == '-' || s@[0] == '+') { s@.drop_first() } else { s@ };
    assert(body =~= s@.skip(start as int));
    if start == n {
        return None;
    }
    let mut mag: u64 = 0;
    let mut i: usize = start;
    while i < n
        invariant
            start <= i <= n == s@.len(),
            start < n,
            body == s@.skip(start as int),
            body == (if s@.len() > 0 && (s@[0] == '-' || s@[0] == '+') { s@.drop_first() } else { s@ }),
            all_digits(body.take(i - start)),
            mag as int == digits_val(body.take(i - start)),
            mag <= 0x8000_0000_0000_0000u64,
        decreases n - i,
    {
        let c = s[i];
        let u = c as u32;
        if u < 48 || u > 57 {
            assert(body[i - start] == c);
            assert(!is_digit(c));
            assert(!all_digits(body));
            assert(body.len() > 0);
            return None;
        }
        let next: u128 = (mag as u128) * 10 + ((u - 48) as u128);
        let ghost k = (i - start) as int;
        assert(body.take(k + 1).drop_last() =~= body.take(k));
        assert(body.take(k + 1).last() == c);
        assert(all_digits(body.take(k + 1))) by {
            assert forall|j: int| 0 <= j < k + 1 implies is_digit(#[trigger] body.take(k + 1)[j]) by {
                if j < k {
                    assert(body.take(k + 1)[j] == body.take(k)[j]);
                }
            }
        }
        if next > 0x8000_0000_0000_0000u128 {
            proof {
                if all_digits(body) {
                    lemma_digits_val_prefix(body, k + 1);
                }
            }
            return None;
        }
        mag = next as u64;
        i = i + 1;
    }
    assert(body.take(n - start) =~= body);
    if neg {
        if mag == 0x8000_0000_0000_0000u64 {
            Some(i64::MIN)
        } else {
            Some(-(mag as i64))
        }
    } else {
        if mag > 0x7fff_ffff_ffff_ffffu64 {
            None
        } else {
            Some(mag as i64)
        }
    }
}

// ── Paths ──────────────────────────────────────────────────────────────

/// `Path::join` of a relative component: adds a `/` unless `base` is empty
/// or already ends with one.
pub open spec fn path_join(base: Seq<char>, comp: Seq<char>) -> Seq<char> {
    if base.len() == 0 {
        comp
    } else if base.last() == '/' {
        base + comp
    } else {
        base + seq!['/'] + comp
    }
}

pub fn join_path(base: &str, comp: &str) -> (r: String)
    ensures
        r@ == path_join(base@, comp@),
{
    let cs = chars_of(base);
    let mut r = string_from_chars(cs.as_slice());
    if cs.len() > 0 && cs[cs.len() - 1] != '/' {
        string_push(&mut r, '/');
    }
    push_str(&mut r, comp);
    r
}


// ── Reading back what was written ──────────────────────────────────────

/// Splitting at a separator splits the two sides independently.
pub proof fn lemma_split_concat(a: Seq<char>, b: Seq<char>, sep: char)
    ensures
        split_on(a + seq![sep] + b, sep) == split_on(a, sep) + split_on(b, sep),
    decreases b.len(),
{
    let x = a + seq![sep] + b;
    if b.len() == 0 {
        assert(x.drop_last() =~= a);
        assert(split_on(x, sep) =~= split_on(a, sep) + split_on(b, sep));
    } else {
        let b1 = b.drop_last();
        assert(x.drop_last() =~= a + seq![sep] + b1);
        lemma_split_concat(a, b1, sep);
        lemma_split_nonempty(b1, sep);
        lemma_split_nonempty(a, sep);
        assert(x.last() == b.last());
        let pa = split_on(a, sep);
        let pb = split_on(b1, sep);
        if b.last() == sep {
            assert(split_on(x, sep) =~= pa + pb.push(Seq::<char>::empty()));
        } else {
            let p = pa + pb;
            assert(p.last() == pb.last());
            assert(p.update(p.len() - 1, p.last().push(b.last())) =~= pa + pb.update(
                pb.len() - 1,
                pb.last().push(b.last()),
            ));
        }
    }
}

/// A piece without the separator splits into itself.
pub proof fn lemma_split_single(a: Seq<char>, sep: char)
    requires
        forall|i: int| 0 <= i < a.len() ==> a[i] != sep,
    ensures
        split_on(a, sep) == seq![a],
    decreases a.len(),
{
    if a.len() == 0 {
        assert(a =~= Seq::<char>::empty());
        assert(split_on(a, sep) =~= seq![a]);
    } else {
        lemma_split_single(a.drop_last(), sep);
        assert(split_on(a, sep) =~= seq![a.drop_last().push(a.last())]);
        assert(a.drop_last().push(a.last()) =~= a);
    }
}

proof fn lemma_digit_char(d: int)
    requires
        0 <= d < 10,
    ensures
        digit_char(d) as u32 == 48 + d,
{
    if d == 0 {
    } else if d == 1 {
    } else if d == 2 {
    } else if d == 3 {
    } else if d == 4 {
    } else if d == 5 {
    } else if d == 6 {
    } else if d == 7 {
    } else if d == 8 {
    } else {
    }
}

proof fn lemma_dec_digits(n: nat)
    ensures
        dec(n).len() >= 1,
        all_digits(dec(n)),
        digits_val(dec(n)) == n,
    decreases n,
{
    lemma_digit_char((n % 10) as int);
    if n < 10 {
        assert(dec(n).drop_last() =~= Seq::<char>::empty());
        assert(dec(n).last() == digit_char(n as int));
        assert(digits_val(dec(n)) == digits_val(dec(n).drop_last()) * 10 + ((dec(n).last() as u32) - 48));
    } else {
        lemma_dec_digits(n / 10);
        let t = dec(n);
        assert(t.drop_last() =~= dec(n / 10));
        assert(t.last() == digit_char((n % 10) as int));
        assert(digits_val(t) == digits_val(t.drop_last()) * 10 + ((t.last() as u32) - 48));
        assert forall|i: int| 0 <= i < t.len() implies is_digit(#[trigger] t[i]) by {
            if i < t.len() - 1 {
                assert(t[i] == dec(n / 10)[i]);
            }
        }
    }
}

/// `10` to the power `k`.
pub open spec fn pow10(k: nat) -> nat
    decreases k,
{
    if k == 0 {
        1
    } else {
        10 * pow10((k - 1) as nat)
    }
}

proof fn lemma_dec_len_pow(n: nat, k: nat)
    requires
        k >= 1,
        n < pow10(k),
    ensures
        dec(n).len() <= k,
    decreases n,
{
    if n >= 10 {
        assert(k >= 2) by {
            if k == 1 {
                assert(pow10(1) == 10 * pow10(0));
            }
        }
        let k1 = (k - 1) as nat;
        assert(pow10(k) == 10 * pow10(k1));
        assert(n / 10 < pow10(k1)) by (nonlinear_arith)
            requires
                n < 10 * pow10(k1),
        ;
        lemma_dec_len_pow(n / 10, k1);
    }
}

/// A `u64` has at most 20 decimal digits.
pub proof fn lemma_dec_len(n: nat)
    requires
        n <= u64::MAX,
    ensures
        1 <= dec(n).len() <= 20,
{
    assert(pow10(20) == 100_000_000_000_000_000_000) by {
        reveal_with_fuel(pow10, 21);
    }
    lemma_dec_len_pow(n, 20);
    lemma_dec_digits(n);
}

proof fn lemma_digits_val_zeros(k: nat, t: Seq<char>)
    requires
        all_digits(t),
    ensures
        all_digits(repeat_char('0', k) + t),
        digits_val(repeat_char('0', k) + t) == digits_val(t),
    decreases t.len() + k,
{
    let x = repeat_char('0', k) + t;
    assert forall|i: int| 0 <= i < x.len() implies is_digit(#[trigger] x[i]) by {
        if i >= k {
            assert(x[i] == t[i - k]);
        }
    }
    if t.len() > 0 {
        assert(x.drop_last() =~= repeat_char('0', k) + t.drop_last());
        assert(all_digits(t.drop_last())) by {
            assert forall|i: int| 0 <= i < t.drop_last().len() implies is_digit(#[trigger] t.drop_last()[i]) by {
                assert(t.drop_last()[i] == t[i]);
            }
        }
        lemma_digits_val_zeros(k, t.drop_last());
    } else if k > 0 {
        assert(x.drop_last() =~= repeat_char('0', (k - 1) as nat) + t);
        lemma_digits_val_zeros((k - 1) as nat, t);
    } else {
        assert(x =~= t);
    }
}

/// A zero-padded nonnegative number reads back as itself, and has no `-`.
pub proof fn lemma_parse_zero_pad(n: int, w: nat)
    requires
        0 <= n <= i64::MAX,
    ensures
        parse_i64(zero_pad(n, w)) == Some(n as i64),
        forall|i: int| 0 <= i < zero_pad(n, w).len() ==> is_digit(#[trigger] zero_pad(n, w)[i]),
{
    let d = dec(n as nat);
    lemma_dec_digits(n as nat);
    let k = (if w > d.len() { w - d.len() } else { 0 }) as nat;
    lemma_digits_val_zeros(k, d);
    let x = zero_pad(n, w);
    assert(x == repeat_char('0', k) + d);
    assert(is_digit(x[0]));
    assert(x[0] != '-' && x[0] != '+');
}


// ── Byte offsets of characters ─────────────────────────────────────────

proof fn lemma_utf8_len_cons(c: char, t: Seq<char>)
    ensures
        utf8_len_seq(seq![c] + t) == utf8_len(c) + utf8_len_seq(t),
    decreases t.len(),
{
    let x = seq![c] + t;
    if t.len() > 0 {
        assert(x.drop_last() =~= seq![c] + t.drop_last());
        assert(x.last() == t.last());
        lemma_utf8_len_cons(c, t.drop_last());
        assert(utf8_len_seq(x) == utf8_len_seq(x.drop_last()) + utf8_len(x.last()));
        assert(utf8_len_seq(t) == utf8_len_seq(t.drop_last()) + utf8_len(t.last()));
    } else {
        assert(x =~= seq![c]);
        assert(x.drop_last() =~= Seq::<char>::empty());
        assert(utf8_len_seq(x) == utf8_len_seq(x.drop_last()) + utf8_len(x.last()));
    }
}

proof fn lemma_encode_scalar_len(c: char)
    ensures
        vstd::utf8::encode_scalar(c as u32).len() == utf8_len(c),
{
    let v = c as u32;
    assert(v <= 0x10FFFF);
    assert(!(0xD800 <= v <= 0xDFFF));
}

/// `utf8_len_seq` is the length of the UTF-8 encoding.
pub proof fn lemma_utf8_len_encode(s: Seq<char>)
    ensures
        utf8_len_seq(s) == vstd::utf8::encode_utf8(s).len(),
    decreases s.len(),
{
    if s.len() > 0 {
        lemma_utf8_len_encode(s.drop_first());
        assert(s =~= seq![s[0]] + s.drop_first());
        lemma_utf8_len_cons(s[0], s.drop_first());
        lemma_encode_scalar_len(s[0]);
    }
}

/// The characters of `s` and the byte offset of each (plus the total length).
pub fn char_offsets(s: &str) -> (r: (Vec<char>, Vec<usize>))
    ensures
        r.0@ == s@,
        r.1@.len() == s@.len() + 1,
        forall|i: int| 0 <= i <= s@.len() ==> r.1@[i] == #[trigger] byte_offset(s@, i),
{
    let total = s.as_bytes().len();
    proof {
        lemma_utf8_len_encode(s@);
    }
    let cs = chars_of(s);
    let mut offs: Vec<usize> = Vec::new();
    offs.push(0);
    let mut acc: usize = 0;
    let mut i: usize = 0;
    assert(s@.take(0) =~= Seq::<char>::empty());
    while i < cs.len()
        invariant
            i <= cs@.len(),
            cs@ == s@,
            total as int == utf8_len_seq(s@),
            acc == byte_offset(s@, i as int),
            offs@.len() == i + 1,
            forall|j: int| 0 <= j <= i ==> offs@[j] == #[trigger] byte_offset(s@, j),
        decreases cs@.len() - i,
    {
        proof {
            lemma_utf8_len_take_step(s@, i as int);
            lemma_utf8_len_monotone(s@, i + 1, s@.len() as int);
            assert(s@.take(s@.len() as int) =~= s@);
        }
        acc = acc + char_utf8_len(cs[i]);
        offs.push(acc);
        i = i + 1;
    }
    (cs, offs)
}


/// Of two strings of one length, the earlier stays earlier whatever
/// follows each.
pub proof fn lemma_lex_lt_append(x: Seq<char>, y: Seq<char>, s: Seq<char>, t: Seq<char>)
    requires
        x.len() == y.len(),
        lex_lt(x, y),
    ensures
        lex_lt(x + s, y + t),
    decreases x.len(),
{
    assert((x + s)[0] == x[0] && (y + t)[0] == y[0]);
    if x[0] == y[0] {
        lemma_lex_lt_append(x.drop_first(), y.drop_first(), s, t);
        assert((x + s).drop_first() =~= x.drop_first() + s);
        assert((y + t).drop_first() =~= y.drop_first() + t);
    }
}

/// After a common prefix, what follows decides the order.
pub proof fn lemma_lex_lt_common_prefix(x: Seq<char>, s: Seq<char>, t: Seq<char>)
    ensures
        lex_lt(x + s, x + t) == lex_lt(s, t),
{
    let n = x.len() as int;
    assert((x + s).take(n) =~= x);
    assert((x + t).take(n) =~= x);
    lemma_lex_lt_skip(x + s, x + t, n);
    assert((x + s).skip(n) =~= s);
    assert((x + t).skip(n) =~= t);
}

/// Smaller numbers have no more decimal digits.
proof fn lemma_dec_len_monotone(a: nat, b: nat)
    requires
        a <= b,
    ensures
        dec(a).len() <= dec(b).len(),
    decreases b,
{
    lemma_dec_digits(a);
    lemma_dec_digits(b);
    if a >= 10 {
        lemma_dec_len_monotone(a / 10, b / 10);
        lemma_dec_digits(a / 10);
        lemma_dec_digits(b / 10);
    }
}

/// Below `10^k`, a number has at most `k` decimal digits.
pub proof fn lemma_dec_width(n: nat, k: nat)
    requires
        k >= 1,
        n < pow10(k),
    ensures
        dec(n).len() <= k,
{
    lemma_dec_len_pow(n, k);
}

/// Zero-padding to width `k >= 2` pads the number without its last digit
/// to width `k - 1`, then appends that digit.
proof fn lemma_zero_pad_split(a: int, k: nat)
    requires
        0 <= a,
        k >= 2,
        dec(a as nat).len() <= k,
    ensures
        zero_pad(a, k) == zero_pad(a / 10, (k - 1) as nat).push(digit_char(a % 10)),
{
    let x = digit_char(a % 10);
    if a >= 10 {
        let d1 = dec((a / 10) as nat);
        assert(dec(a as nat) == d1.push(x));
        let c = (k - 1 - d1.len()) as nat;
        assert(zero_pad(a, k) == repeat_char('0', c) + d1.push(x));
        assert(zero_pad(a / 10, (k - 1) as nat) == repeat_char('0', c) + d1);
        assert(repeat_char('0', c) + d1.push(x) =~= (repeat_char('0', c) + d1).push(x));
    } else {
        assert(dec(a as nat) == seq![x]);
        assert(dec(0) == seq!['0']);
        assert(zero_pad(a, k) == repeat_char('0', (k - 1) as nat) + seq![x]);
        assert(zero_pad(0, (k - 1) as nat) == repeat_char('0', (k - 2) as nat) + seq!['0']);
        assert(repeat_char('0', (k - 2) as nat) + seq!['0'] =~= repeat_char('0', (k - 1) as nat));
        assert(repeat_char('0', (k - 1) as nat) + seq![x] =~= repeat_char('0', (k - 1) as nat).push(x));
    }
}

/// Numbers zero-padded to one width compare as strings as they do as numbers.
pub proof fn lemma_zero_pad_lt(a: int, b: int, k: nat)
    requires
        0 <= a < b,
        dec(b as nat).len() <= k,
    ensures
        lex_lt(zero_pad(a, k), zero_pad(b, k)),
        zero_pad(a, k).len() == k,
        zero_pad(b, k).len() == k,
    decreases k,
{
    lemma_dec_len_monotone(a as nat, b as nat);
    lemma_dec_digits(a as nat);
    lemma_dec_digits(b as nat);
    lemma_digit_char(a % 10);
    lemma_digit_char(b % 10);
    if b < 10 {
        let z = repeat_char('0', (k - 1) as nat);
        assert(dec(a as nat) == seq![digit_char(a % 10)]);
        assert(dec(b as nat) == seq![digit_char(b % 10)]);
        assert(zero_pad(a, k) == z + seq![digit_char(a % 10)]);
        assert(zero_pad(b, k) == z + seq![digit_char(b % 10)]);
        lemma_lex_lt_common_prefix(z, seq![digit_char(a % 10)], seq![digit_char(b % 10)]);
    } else {
        lemma_dec_digits((b / 10) as nat);
        assert(dec(b as nat).len() == dec((b / 10) as nat).len() + 1);
        let k1 = (k - 1) as nat;
        lemma_zero_pad_split(a, k);
        lemma_zero_pad_split(b, k);
        let pa = zero_pad(a / 10, k1);
        let pb = zero_pad(b / 10, k1);
        assert(pa.push(digit_char(a % 10)) =~= pa + seq![digit_char(a % 10)]);
        assert(pb.push(digit_char(b % 10)) =~= pb + seq![digit_char(b % 10)]);
        if a / 10 < b / 10 {
            lemma_zero_pad_lt(a / 10, b / 10, k1);
            lemma_lex_lt_append(pa, pb, seq![digit_char(a % 10)], seq![digit_char(b % 10)]);
        } else {
            assert(a / 10 == b / 10);
            lemma_dec_len_monotone((a / 10) as nat, (b / 10) as nat);
            lemma_lex_lt_common_prefix(pa, seq![digit_char(a % 10)], seq![digit_char(b % 10)]);
        }
    }
}


/// No piece of a split holds the separator.
pub proof fn lemma_split_pieces(s: Seq<char>, sep: char)
    ensures
        split_on(s, sep).len() >= 1,
        forall|k: int, j: int| 0 <= k < split_on(s, sep).len() && 0 <= j < split_on(s, sep)[k].len()
            ==> #[trigger] split_on(s, sep)[k][j] != sep,
    decreases s.len(),
{
    if s.len() > 0 {
        let p = split_on(s.drop_last(), sep);
        lemma_split_pieces(s.drop_last(), sep);
        let r = split_on(s, sep);
        assert forall|k: int, j: int| 0 <= k < r.len() && 0 <= j < r[k].len() implies #[trigger] r[k][j] != sep by {
            if s.last() == sep {
                if k < p.len() {
                    assert(r[k] == p[k]);
                }
            } else {
                if k < p.len() - 1 {
                    assert(r[k] == p[k]);
                } else {
                    assert(r[k] == p.last().push(s.last()));
                    if j < p.last().len() {
                        assert(r[k][j] == p[p.len() - 1][j]);
                    }
                }
            }
        }
    }
}

/// No line of a text holds a newline.
pub proof fn lemma_lines_no_newline(s: Seq<char>)
    ensures
        forall|k: int, j: int| 0 <= k < lines_of(s).len() && 0 <= j < lines_of(s)[k].len()
            ==> #[trigger] lines_of(s)[k][j] != '\n',
{
    let p = split_on(s, '\n');
    lemma_split_pieces(s, '\n');
    let l = lines_of(s);
    assert forall|k: int, j: int| 0 <= k < l.len() && 0 <= j < l[k].len() implies #[trigger] l[k][j] != '\n' by {
        if k < p.len() - 1 {
            assert(l[k] == strip_cr(p[k]));
            assert(l[k][j] == p[k][j]);
        } else {
            assert(l[k] == p[p.len() - 1]);
        }
    }
}


/// Any two different strings are ordered one way or the other.
pub proof fn lemma_lex_total(a: Seq<char>, b: Seq<char>)
    ensures
        a == b || lex_lt(a, b) || lex_lt(b, a),
    decreases a.len(),
{
    if a.len() > 0 && b.len() > 0 && a[0] == b[0] {
        lemma_lex_total(a.drop_first(), b.drop_first());
        if a.drop_first() == b.drop_first() {
            assert(a =~= seq![a[0]] + a.drop_first());
            assert(b =~= seq![b[0]] + b.drop_first());
        }
    } else if a.len() == 0 && b.len() == 0 {
        assert(a =~= b);
    } else if a.len() > 0 && b.len() > 0 {
        let (x, y) = (a[0], b[0]);
        vstd::utf8::char_u32_cast(x, x as u32);
        vstd::utf8::char_u32_cast(y, y as u32);
        assert((x as u32) != (y as u32));
    }
}

} // verus!
