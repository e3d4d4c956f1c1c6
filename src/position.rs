//! Paths that may carry a position: `path:row`, `path:row:column`,
//! `path(row)` and `path(row,column)`.
use crate::components::{
    chars_of, component_spans, components, file_name, span_is_normal, spans_of, spans_view,
};
use crate::digits::{
    all_digits, digit_run_end, digits_value, find_digit_run_end, is_digit, parse_u64,
};
use crate::text::slice_chars;
use vstd::prelude::*;

verus! {

/// A delimiter to use in `path_query:row_number:column_number` strings parsing.
pub const FILE_ROW_COLUMN_DELIMITER: char = ':';

/// White space as `char::is_whitespace` defines it (the Unicode `White_Space` property).
pub open spec fn is_white(c: char) -> bool {
    ('\u{9}' <= c && c <= '\u{d}') || c == ' ' || c == '\u{85}' || c == '\u{a0}' || c == '\u{1680}'
        || ('\u{2000}' <= c && c <= '\u{200a}') || c == '\u{2028}' || c == '\u{2029}' || c
        == '\u{202f}' || c == '\u{205f}' || c == '\u{3000}'
}

/// Index of the first character at or after `i` that is not white space.
pub open spec fn trim_start_index(s: Seq<char>, i: int) -> int
    decreases s.len() - i,
{
    if 0 <= i < s.len() && is_white(s[i]) {
        trim_start_index(s, i + 1)
    } else {
        i
    }
}

/// One past the last character before `j` that is not white space.
pub open spec fn trim_end_index(s: Seq<char>, j: int) -> int
    decreases j,
{
    if 0 < j <= s.len() && is_white(s[j - 1]) {
        trim_end_index(s, j - 1)
    } else {
        j
    }
}

/// `s` without leading and trailing white space.
pub open spec fn trim(s: Seq<char>) -> Seq<char> {
    let a = trim_start_index(s, 0);
    let b = trim_end_index(s, s.len() as int);
    if a < b {
        s.subrange(a, b)
    } else {
        Seq::empty()
    }
}

/// End of the run of `:` that starts at `i`.
pub open spec fn colon_run_end(f: Seq<char>, i: int) -> int
    decreases f.len() - i,
{
    if 0 <= i < f.len() && f[i] == ':' {
        colon_run_end(f, i + 1)
    } else {
        i
    }
}

/// From `i` to the end, `f` is all `:`.
pub open spec fn colons_to_end(f: Seq<char>, i: int) -> bool {
    forall|k: int| i <= k < f.len() ==> #[trigger] f[k] == ':'
}

/// The spans `(start, end)` of what a match captures, one after the other:
/// the name, the row, the column (the last two empty when absent).
pub type Captures = (int, int, int, int, int, int);

/// `f[p..]` reads `:+ row : column :*` to the end.
pub open spec fn colon_row_column(f: Seq<char>, i: int, p: int) -> Option<Captures> {
    let c = colon_run_end(f, p);
    let d = digit_run_end(f, c);
    let e = digit_run_end(f, d + 1);
    if c > p && d > c && d < f.len() && f[d] == ':' && e > d + 1 && colons_to_end(f, e) {
        Some((i, p, c, d, d + 1, e))
    } else {
        None
    }
}

/// `f[p..]` reads `:+ row :*` to the end.
pub open spec fn colon_row(f: Seq<char>, i: int, p: int) -> Option<Captures> {
    let c = colon_run_end(f, p);
    let d = digit_run_end(f, c);
    if c > p && d > c && colons_to_end(f, d) {
        Some((i, p, c, d, d, d))
    } else {
        None
    }
}

/// The shortest name `f[i..p]` (no line break in it) after which one of the
/// colon forms runs to the end: `:row:column`, then `:row`, then bare colons.
pub open spec fn colon_form_from(f: Seq<char>, i: int, p: int) -> Option<Captures>
    decreases f.len() + 1 - p,
{
    if p <= i || p > f.len() || f[p - 1] == '\n' {
        None
    } else if colon_row_column(f, i, p) is Some {
        colon_row_column(f, i, p)
    } else if colon_row(f, i, p) is Some {
        colon_row(f, i, p)
    } else if colons_to_end(f, p) {
        Some((i, p, p, p, p, p))
    } else {
        colon_form_from(f, i, p + 1)
    }
}

/// Index of the first `(` at or after `i`, or the length.
pub open spec fn next_paren(f: Seq<char>, i: int) -> int
    decreases f.len() - i,
{
    if 0 <= i < f.len() && f[i] != '(' {
        next_paren(f, i + 1)
    } else {
        i
    }
}

/// A name `f[i..j]` free of `(`, then `(row,column)` or `(row)`; whatever
/// follows the closing parenthesis is not looked at.
pub open spec fn paren_form(f: Seq<char>, i: int) -> Option<Captures> {
    let j = next_paren(f, i);
    let d = digit_run_end(f, j + 1);
    let e = digit_run_end(f, d + 1);
    if !(i < j < f.len()) || d == j + 1 {
        None
    } else if d < f.len() && f[d] == ',' && e > d + 1 && e < f.len() && f[e] == ')' {
        Some((i, j, j + 1, d, d + 1, e))
    } else if d < f.len() && f[d] == ')' {
        Some((i, j, j + 1, d, d, d))
    } else {
        None
    }
}

/// The leftmost match in `f` at or after `i`; at one start the parenthesized
/// forms come before the colon forms.
pub open spec fn find_position(f: Seq<char>, i: int) -> Option<Captures>
    decreases f.len() - i,
{
    if i < 0 || i >= f.len() {
        None
    } else if paren_form(f, i) is Some {
        paren_form(f, i)
    } else if colon_form_from(f, i, i + 1) is Some {
        colon_form_from(f, i, i + 1)
    } else {
        find_position(f, i + 1)
    }
}

/// A row or column number: digits whose value fits in a `u32`.
pub open spec fn number_of(t: Seq<char>) -> Option<u32> {
    if t.len() > 0 && digits_value(t) <= u32::MAX {
        Some(digits_value(t) as u32)
    } else {
        None
    }
}

/// The meaning of a path with an optional position, as `(path, row, column)`.
/// Surrounding white space is trimmed and the position is looked for in the
/// final component. The text after the name that the match captured, however
/// long, is cut from the end of the trimmed input. When the final component
/// names no entry, or nothing matches, the input is the path as given. When a
/// row is written but does not fit in a `u32`, the trimmed input is the path.
pub open spec fn parse_position(s: Seq<char>) -> (Seq<char>, Option<u32>, Option<u32>) {
    let t = trim(s);
    match file_name(t) {
        None => (s, None, None),
        Some(f) => match find_position(f, 0) {
            None => (s, None, None),
            Some(m) => {
                let row = f.subrange(m.2, m.3);
                let column = f.subrange(m.4, m.5);
                if row.len() > 0 && number_of(row) is None {
                    (t, None, None)
                } else {
                    let cut = f.len() - (m.1 - m.0);
                    (t.subrange(0, t.len() - cut), number_of(row), number_of(column))
                }
            },
        },
    }
}

/// The captured spans as integers.
pub open spec fn captures_view(c: (usize, usize, usize, usize, usize, usize)) -> Captures {
    (c.0 as int, c.1 as int, c.2 as int, c.3 as int, c.4 as int, c.5 as int)
}

/// The captured spans are ordered and lie within a text of length `n`.
pub open spec fn captures_within(c: Option<(usize, usize, usize, usize, usize, usize)>, n: int) -> bool {
    match c {
        Some(x) => x.0 <= x.1 <= n && x.2 <= x.3 <= n && x.4 <= x.5 <= n,
        None => true,
    }
}

pub open spec fn option_captures_view(
    c: Option<(usize, usize, usize, usize, usize, usize)>,
) -> Option<Captures> {
    match c {
        Some(x) => Some(captures_view(x)),
        None => None,
    }
}

fn is_white_char(c: char) -> (r: bool)
    ensures
        r == is_white(c),
{
    ('\u{9}' <= c && c <= '\u{d}') || c == ' ' || c == '\u{85}' || c == '\u{a0}' || c == '\u{1680}'
        || ('\u{2000}' <= c && c <= '\u{200a}') || c == '\u{2028}' || c == '\u{2029}' || c
        == '\u{202f}' || c == '\u{205f}' || c == '\u{3000}'
}

/// The bounds of `v` without its surrounding white space.
fn trim_bounds(v: &Vec<char>) -> (r: (usize, usize))
    ensures
        r.0 <= r.1 <= v@.len(),
        v@.subrange(r.0 as int, r.1 as int) == trim(v@),
{
    let mut a: usize = 0;
    while a < v.len() && is_white_char(v[a])
        invariant
            a <= v@.len(),
            trim_start_index(v@, 0) == trim_start_index(v@, a as int),
        decreases v@.len() - a,
    {
        a += 1;
    }
    let mut b: usize = v.len();
    while b > 0 && is_white_char(v[b - 1])
        invariant
            b <= v@.len(),
            trim_end_index(v@, v@.len() as int) == trim_end_index(v@, b as int),
        decreases b,
    {
        b -= 1;
    }
    if a < b {
        (a, b)
    } else {
        assert(v@.subrange(a as int, a as int) =~= Seq::<char>::empty());
        (a, a)
    }
}

fn find_colon_run_end(f: &Vec<char>, i: usize) -> (r: usize)
    requires
        i <= f@.len(),
    ensures
        r == colon_run_end(f@, i as int),
        i <= r <= f@.len(),
{
    let mut c = i;
    while c < f.len() && f[c] == ':'
        invariant
            i <= c <= f@.len(),
            colon_run_end(f@, i as int) == colon_run_end(f@, c as int),
        decreases f@.len() - c,
    {
        c += 1;
    }
    c
}

fn is_colons_to_end(f: &Vec<char>, i: usize) -> (r: bool)
    requires
        i <= f@.len(),
    ensures
        r == colons_to_end(f@, i as int),
{
    let mut k = i;
    while k < f.len()
        invariant
            i <= k <= f@.len(),
            forall|j: int| i <= j < k ==> #[trigger] f@[j] == ':',
        decreases f@.len() - k,
    {
        if f[k] != ':' {
            return false;
        }
        k += 1;
    }
    true
}

fn match_colon_row_column(f: &Vec<char>, i: usize, p: usize) -> (r: Option<(usize, usize, usize, usize, usize, usize)>)
    requires
        i <= p <= f@.len(),
    ensures
        option_captures_view(r) == colon_row_column(f@, i as int, p as int),
        captures_within(r, f@.len() as int),
{
    let c = find_colon_run_end(f, p);
    let d = find_digit_run_end(f, c);
    if c > p && d > c && d < f.len() && f[d] == ':' {
        let e = find_digit_run_end(f, d + 1);
        if e > d + 1 && is_colons_to_end(f, e) {
            return Some((i, p, c, d, d + 1, e));
        }
    }
    None
}

fn match_colon_row(f: &Vec<char>, i: usize, p: usize) -> (r: Option<(usize, usize, usize, usize, usize, usize)>)
    requires
        i <= p <= f@.len(),
    ensures
        option_captures_view(r) == colon_row(f@, i as int, p as int),
        captures_within(r, f@.len() as int),
{
    let c = find_colon_run_end(f, p);
    let d = find_digit_run_end(f, c);
    if c > p && d > c && is_colons_to_end(f, d) {
        Some((i, p, c, d, d, d))
    } else {
        None
    }
}

/// The colon forms of a match that starts at `i`.
fn match_colon_form(f: &Vec<char>, i: usize) -> (r: Option<(usize, usize, usize, usize, usize, usize)>)
    requires
        i < f@.len(),
    ensures
        option_captures_view(r) == colon_form_from(f@, i as int, i + 1),
        captures_within(r, f@.len() as int),
{
    let mut q = i;
    while q < f.len()
        invariant
            i <= q <= f@.len(),
            colon_form_from(f@, i as int, i + 1) == colon_form_from(f@, i as int, q + 1),
        decreases f@.len() - q,
    {
        let p = q + 1;
        if f[q] == '\n' {
            return None;
        }
        let rc = match_colon_row_column(f, i, p);
        if rc.is_some() {
            return rc;
        }
        let r = match_colon_row(f, i, p);
        if r.is_some() {
            return r;
        }
        if is_colons_to_end(f, p) {
            return Some((i, p, p, p, p, p));
        }
        q += 1;
    }
    None
}

fn find_next_paren(f: &Vec<char>, i: usize) -> (r: usize)
    requires
        i <= f@.len(),
    ensures
        r == next_paren(f@, i as int),
        i <= r <= f@.len(),
{
    let mut j = i;
    while j < f.len() && f[j] != '('
        invariant
            i <= j <= f@.len(),
            next_paren(f@, i as int) == next_paren(f@, j as int),
        decreases f@.len() - j,
    {
        j += 1;
    }
    j
}

fn match_paren_form(f: &Vec<char>, i: usize) -> (r: Option<(usize, usize, usize, usize, usize, usize)>)
    requires
        i < f@.len(),
    ensures
        option_captures_view(r) == paren_form(f@, i as int),
        captures_within(r, f@.len() as int),
{
    let j = find_next_paren(f, i);
    if !(i < j && j < f.len()) {
        return None;
    }
    let d = find_digit_run_end(f, j + 1);
    if d == j + 1 {
        return None;
    }
    if d < f.len() && f[d] == ',' {
        let e = find_digit_run_end(f, d + 1);
        if e > d + 1 && e < f.len() && f[e] == ')' {
            return Some((i, j, j + 1, d, d + 1, e));
        }
    }
    if d < f.len() && f[d] == ')' {
        return Some((i, j, j + 1, d, d, d));
    }
    None
}

/// The leftmost position suffix in the file name `f`.
fn find_position_in(f: &Vec<char>) -> (r: Option<(usize, usize, usize, usize, usize, usize)>)
    ensures
        option_captures_view(r) == find_position(f@, 0),
        captures_within(r, f@.len() as int),
{
    let mut i: usize = 0;
    while i < f.len()
        invariant
            i <= f@.len(),
            find_position(f@, 0) == find_position(f@, i as int),
        decreases f@.len() - i,
    {
        let pf = match_paren_form(f, i);
        if pf.is_some() {
            return pf;
        }
        let cf = match_colon_form(f, i);
        if cf.is_some() {
            return cf;
        }
        i += 1;
    }
    None
}

/// The captured spans are ordered, lie within `f`, the row and the column
/// are digits, and a column comes only with a row.
pub open spec fn captures_ok(f: Seq<char>, m: Captures) -> bool {
    &&& 0 <= m.0 <= m.1 <= f.len()
    &&& 0 <= m.2 <= m.3 <= f.len()
    &&& 0 <= m.4 <= m.5 <= f.len()
    &&& all_digits(f.subrange(m.2, m.3))
    &&& all_digits(f.subrange(m.4, m.5))
    &&& m.4 < m.5 ==> m.2 < m.3
}

proof fn lemma_digit_span(f: Seq<char>, c: int)
    requires
        0 <= c <= f.len(),
    ensures
        c <= digit_run_end(f, c) <= f.len(),
        all_digits(f.subrange(c, digit_run_end(f, c))),
{
    crate::digits::lemma_digit_run_end(f, c);
    let d = digit_run_end(f, c);
    let r = f.subrange(c, d);
    assert forall|k: int| 0 <= k < r.len() implies is_digit(#[trigger] r[k]) by {
        assert(r[k] == f[c + k]);
    }
}

proof fn lemma_colon_run_end(f: Seq<char>, i: int)
    requires
        0 <= i <= f.len(),
    ensures
        i <= colon_run_end(f, i) <= f.len(),
    decreases f.len() - i,
{
    if i < f.len() && f[i] == ':' {
        lemma_colon_run_end(f, i + 1);
    }
}

proof fn lemma_empty_digits(f: Seq<char>, c: int)
    requires
        0 <= c <= f.len(),
    ensures
        all_digits(f.subrange(c, c)),
{
}

proof fn lemma_colon_form_ok(f: Seq<char>, i: int, p: int)
    requires
        0 <= i,
    ensures
        colon_form_from(f, i, p) matches Some(m) ==> captures_ok(f, m),
    decreases f.len() + 1 - p,
{
    if p <= i || p > f.len() || f[p - 1] == '\n' {
    } else {
        lemma_colon_run_end(f, p);
        let c = colon_run_end(f, p);
        lemma_digit_span(f, c);
        let d = digit_run_end(f, c);
        lemma_empty_digits(f, d);
        lemma_empty_digits(f, p);
        if d < f.len() {
            lemma_digit_span(f, d + 1);
        }
        if colon_row_column(f, i, p) is Some {
        } else if colon_row(f, i, p) is Some {
        } else if colons_to_end(f, p) {
        } else {
            lemma_colon_form_ok(f, i, p + 1);
        }
    }
}

proof fn lemma_paren_form_ok(f: Seq<char>, i: int)
    requires
        0 <= i,
    ensures
        paren_form(f, i) matches Some(m) ==> captures_ok(f, m),
{
    let j = next_paren(f, i);
    if i < j < f.len() {
        lemma_digit_span(f, j + 1);
        let d = digit_run_end(f, j + 1);
        lemma_empty_digits(f, d);
        if d < f.len() {
            lemma_digit_span(f, d + 1);
        }
    }
}

/// What a match captures is well formed.
pub proof fn lemma_find_position_ok(f: Seq<char>, i: int)
    requires
        0 <= i,
    ensures
        find_position(f, i) matches Some(m) ==> captures_ok(f, m),
    decreases f.len() - i,
{
    if 0 <= i < f.len() {
        lemma_paren_form_ok(f, i);
        lemma_colon_form_ok(f, i, i + 1);
        lemma_find_position_ok(f, i + 1);
    }
}

/// A path-like string with optional row and column numbers, such as `te`,
/// `test.rs:22`, `te:22:5`, `test.c(22)` or `test.c(22,5)`.
#[derive(Debug, Clone, PartialEq, Eq, Hash)]
pub struct PathWithPosition {
    pub path: String,
    pub row: Option<u32>,
    /// Absent if row is absent.
    pub column: Option<u32>,
}

/// The decimal digits.
pub open spec fn digit_chars() -> Seq<char> {
    seq!['0', '1', '2', '3', '4', '5', '6', '7', '8', '9']
}

/// `n` written in decimal, without leading zeros.
pub open spec fn decimal(n: nat) -> Seq<char>
    decreases n,
{
    if n < 10 {
        seq![digit_chars()[n as int]]
    } else {
        decimal(n / 10).push(digit_chars()[(n % 10) as int])
    }
}

/// A path followed by its position: `path:row:column`, `path:row`, or the
/// path alone when there is no row.
pub open spec fn with_position(path: Seq<char>, row: Option<u32>, column: Option<u32>) -> Seq<char> {
    match row {
        Some(r) => match column {
            Some(c) => path + seq![':'] + decimal(r as nat) + seq![':'] + decimal(c as nat),
            None => path + seq![':'] + decimal(r as nat),
        },
        None => path,
    }
}

/// Appends `n` in decimal to `out`.
fn push_decimal(out: &mut String, n: u32)
    ensures
        final(out)@ == old(out)@ + decimal(n as nat),
    decreases n,
{
    if n >= 10 {
        push_decimal(out, n / 10);
    }
    let d = (n % 10) as usize;
    let digits = "0123456789";
    proof {
        reveal_strlit("0123456789");
    }
    assert(digits@ == digit_chars());
    out.append(digits.substring_char(d, d + 1));
    proof {
        assert(digits@.subrange(d as int, d + 1) =~= seq![digit_chars()[d as int]]);
        if n < 10 {
            assert(decimal(n as nat) == seq![digit_chars()[n as int]]);
        } else {
            assert(decimal(n as nat) == decimal((n / 10) as nat).push(digit_chars()[(n % 10) as int]));
        }
    }
    assert(final(out)@ =~= old(out)@ + decimal(n as nat));
}

impl PathWithPosition {
    /// A column comes only with a row.
    pub open spec fn wf(&self) -> bool {
        self.column is Some ==> self.row is Some
    }

    /// A path without a position.
    pub fn from_path(path: String) -> (r: Self)
        ensures
            r.path == path,
            r.row is None,
            r.column is None,
            r.wf(),
    {
        PathWithPosition { path, row: None, column: None }
    }

    /// Parses a string that may end in a `:row`, `:row:column`, `(row)` or
    /// `(row,column)` suffix; trailing `:`s are ignored, so `test.rs:22:` is
    /// parsed as `test.rs:22`. Only the final suffix is taken off: `a:1::2`
    /// has the path `a:1` and the row 2. A suffix that does not parse leaves
    /// the whole string as the path (`test.rs:a`).
    pub fn parse_str(s: &str) -> (r: Self)
        ensures
            (r.path@, r.row, r.column) == parse_position(s@),
            r.wf(),
    {
        let sv = chars_of(s);
        let (a, b) = trim_bounds(&sv);
        let tv = slice_chars(&sv, a, b);
        let spans = spans_of(&tv);
        let n = spans.len();
        proof {
            crate::components::lemma_component_spans_bounds(tv@);
        }
        if n == 0 {
            return PathWithPosition { path: String::from_str(s), row: None, column: None };
        }
        let (fs, fe) = spans[n - 1];
        assert(spans_view(spans@)[n - 1] == component_spans(tv@)[n - 1]);
        if !span_is_normal(&tv, fs, fe) {
            return PathWithPosition { path: String::from_str(s), row: None, column: None };
        }
        let f = slice_chars(&tv, fs, fe);
        assert(components(tv@).last() == f@);
        assert(file_name(tv@) == Some(f@));
        proof {
            lemma_find_position_ok(f@, 0);
        }
        match find_position_in(&f) {
            None => PathWithPosition { path: String::from_str(s), row: None, column: None },
            Some(m) => {
                proof {
                    crate::digits::lemma_digits_value_bounds(f@.subrange(m.2 as int, m.3 as int));
                    crate::digits::lemma_digits_value_bounds(f@.subrange(m.4 as int, m.5 as int));
                }
                let row = match parse_u64(&f, m.2, m.3) {
                    Some(v) => if v <= 4294967295 {
                        Some(v as u32)
                    } else {
                        None
                    },
                    None => None,
                };
                let column = match parse_u64(&f, m.4, m.5) {
                    Some(v) => if v <= 4294967295 {
                        Some(v as u32)
                    } else {
                        None
                    },
                    None => None,
                };
                assert(row == number_of(f@.subrange(m.2 as int, m.3 as int)));
                assert(column == number_of(f@.subrange(m.4 as int, m.5 as int)));
                let trimmed = s.substring_char(a, b);
                if m.3 > m.2 && row.is_none() {
                    return PathWithPosition { path: String::from_str(trimmed), row: None, column: None };
                }
                let cut = f.len() - (m.1 - m.0);
                let kept = tv.len() - cut;
                let path = s.substring_char(a, a + kept);
                assert(path@ =~= tv@.subrange(0, kept as int));
                PathWithPosition { path: String::from_str(path), row, column }
            },
        }
    }

    /// Replaces the path by what `mapping` makes of it, keeping the position;
    /// an error of `mapping` is passed on.
    pub fn map_path<E>(self, mapping: impl FnOnce(String) -> Result<String, E>) -> (r: Result<
        PathWithPosition,
        E,
    >)
        requires
            mapping.requires((self.path,)),
        ensures
            match r {
                Ok(p) => mapping.ensures((self.path,), Ok(p.path)) && p.row == self.row && p.column
                    == self.column,
                Err(e) => mapping.ensures((self.path,), Err(e)),
            },
    {
        let row = self.row;
        let column = self.column;
        match mapping(self.path) {
            Ok(path) => Ok(PathWithPosition { path, row, column }),
            Err(e) => Err(e),
        }
    }

    /// The path as `path_to_string` renders it, followed by `:row:column`,
    /// `:row`, or nothing, as the position is known.
    pub fn to_string(&self, path_to_string: impl Fn(&String) -> String) -> (r: String)
        requires
            path_to_string.requires((&self.path,)),
        ensures
            exists|p: String|
                path_to_string.ensures((&self.path,), p) && r@ == with_position(
                    p@,
                    self.row,
                    self.column,
                ),
    {
        let mut out = path_to_string(&self.path);
        let ghost p = out;
        match self.row {
            Some(row) => {
                out.append(":");
                push_decimal(&mut out, row);
                match self.column {
                    Some(column) => {
                        out.append(":");
                        push_decimal(&mut out, column);
                    },
                    None => {},
                }
            },
            None => {},
        }
        proof {
            reveal_strlit(":");
        }
        assert(out@ =~= with_position(p@, self.row, self.column));
        out
    }
}

/// `f` ends in `:` followed by one or more digits.
pub open spec fn ends_in_colon_number(f: Seq<char>) -> bool {
    exists|c: int|
        0 < c < f.len() && f[c - 1] == ':' && #[trigger] all_digits(f.subrange(c, f.len() as int))
}

/// `s` carries no position: its final component, when it names an entry,
/// does not end in `:`, nor in `:` and digits, and holds no `(row)` or
/// `(row,column)` at its first `(`.
pub open spec fn has_no_position_suffix(s: Seq<char>) -> bool {
    match file_name(s) {
        Some(f) => (f.len() > 0 ==> f.last() != ':') && !ends_in_colon_number(f) && paren_form(f, 0) is None,
        None => true,
    }
}

proof fn lemma_colon_run(f: Seq<char>, p: int)
    requires
        0 <= p <= f.len(),
    ensures
        p <= colon_run_end(f, p) <= f.len(),
        forall|k: int| p <= k < colon_run_end(f, p) ==> f[k] == ':',
    decreases f.len() - p,
{
    if p < f.len() && f[p] == ':' {
        lemma_colon_run(f, p + 1);
    }
}

proof fn lemma_only_whole_name_matches(f: Seq<char>, p: int)
    requires
        1 <= p <= f.len(),
        forall|k: int| 0 <= k < f.len() ==> f[k] != '\n',
        f.last() != ':',
        !ends_in_colon_number(f),
    ensures
        colon_form_from(f, 0, p) == Some(
            (0int, f.len() as int, f.len() as int, f.len() as int, f.len() as int, f.len() as int),
        ),
    decreases f.len() - p,
{
    let n = f.len() as int;
    lemma_colon_run(f, p);
    let c = colon_run_end(f, p);
    lemma_digit_span(f, c);
    let d = digit_run_end(f, c);
    assert(f[p - 1] != '\n');
    if c > p && d > c && d < n && f[d] == ':' {
        lemma_digit_span(f, d + 1);
        let e = digit_run_end(f, d + 1);
        if e > d + 1 && colons_to_end(f, e) {
            if e < n {
                assert(f[n - 1] == ':');
            } else {
                assert(f[(d + 1) - 1] == ':' && all_digits(f.subrange(d + 1, n)));
            }
        }
    }
    assert(colon_row_column(f, 0, p) is None);
    if c > p && d > c && colons_to_end(f, d) {
        if d < n {
            assert(f[n - 1] == ':');
        } else {
            assert(f[c - 1] == ':' && all_digits(f.subrange(c, n)));
        }
    }
    assert(colon_row(f, 0, p) is None);
    if p < n {
        assert(!colons_to_end(f, p)) by {
            assert(f[n - 1] != ':');
        }
        lemma_only_whole_name_matches(f, p + 1);
    }
}

/// A string that carries no position parses to itself with no row or
/// column, and so renders back to itself. A line break in the final component
/// is left out: the colon forms cannot span one, so a name such as `x`, line
/// break, `y` parses to the path `x`.
pub proof fn lemma_parse_round_trip_without_suffix(s: Seq<char>)
    requires
        trim(s) == s,
        file_name(s) matches Some(f) ==> forall|k: int| 0 <= k < f.len() ==> f[k] != '\n',
        has_no_position_suffix(s),
    ensures
        parse_position(s) == (s, None::<u32>, None::<u32>),
        with_position(parse_position(s).0, parse_position(s).1, parse_position(s).2) == s,
{
    if let Some(f) = file_name(s) {
        let n = f.len() as int;
        if n > 0 {
            lemma_only_whole_name_matches(f, 1);
            assert(find_position(f, 0) == Some((0int, n, n, n, n, n)));
            assert(f.subrange(n, n).len() == 0);
            assert(s.subrange(0, s.len() as int) =~= s);
        }
    }
}

} // verus!
