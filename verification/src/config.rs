//! The configuration-file grammar.
//!
//! A configuration is text, read line by line.  Lines are trimmed of
//! surrounding whitespace (space, tab, carriage return) and only the
//! *data lines* — those whose first character is a decimal digit or a
//! parenthesis — are kept.  The first data line gives the vertex count
//! `N`; the next `N` data lines each give `id ip port`; the following
//! data lines give undirected weighted edges `(u,v) w`, until a line of
//! the shape `(leader)` names the root vertex and ends the
//! configuration (anything after it is ignored).  Each vertex's edge
//! list is finally sorted by weight (stably), while its neighbor list
//! keeps the order in which the edges were read.
//!
//! The whole grammar is given as spec functions over character
//! sequences; `parse_config` computes exactly what the grammar says,
//! error cases included.

use vstd::prelude::*;
use vstd::string::StrSliceExecFns;
use vstd::string::StringExecFns;

use crate::node::NodeData;

verus! {

/// Whitespace tolerated around lines and between fields.
pub open spec fn is_space(c: char) -> bool {
    c == ' ' || c == '\t' || c == '\r'
}

/// A decimal digit.
pub open spec fn is_digit(c: char) -> bool {
    48 <= c as int && c as int <= 57
}

/// A parenthesis, as used by edge and leader lines.
pub open spec fn is_paren(c: char) -> bool {
    c == '(' || c == ')'
}

/// The characters a data line may start with.
pub open spec fn is_data_start(c: char) -> bool {
    is_digit(c) || is_paren(c)
}

fn is_space_char(c: char) -> (r: bool)
    ensures
        r == is_space(c),
{
    c == ' ' || c == '\t' || c == '\r'
}

fn is_digit_char(c: char) -> (r: bool)
    ensures
        r == is_digit(c),
{
    let u = c as u32;
    48 <= u && u <= 57
}

fn is_paren_char(c: char) -> (r: bool)
    ensures
        r == is_paren(c),
{
    c == '(' || c == ')'
}

fn is_data_start_char(c: char) -> (r: bool)
    ensures
        r == is_data_start(c),
{
    is_digit_char(c) || is_paren_char(c)
}

/// The position of the first line break at or after `i`, or the end.
pub open spec fn line_end(s: Seq<char>, i: int) -> int
    decreases s.len() - i,
{
    if i < 0 || i >= s.len() {
        s.len() as int
    } else if s[i] == '\n' {
        i
    } else {
        line_end(s, i + 1)
    }
}

/// The position of the first whitespace at or after `i`, or the end.
pub open spec fn token_end(s: Seq<char>, i: int) -> int
    decreases s.len() - i,
{
    if i < 0 || i >= s.len() {
        s.len() as int
    } else if is_space(s[i]) {
        i
    } else {
        token_end(s, i + 1)
    }
}

/// The position of the first comma at or after `i`, or the end.
pub open spec fn comma_end(s: Seq<char>, i: int) -> int
    decreases s.len() - i,
{
    if i < 0 || i >= s.len() {
        s.len() as int
    } else if s[i] == ',' {
        i
    } else {
        comma_end(s, i + 1)
    }
}

proof fn lemma_line_end_bounds(s: Seq<char>, i: int)
    requires
        0 <= i <= s.len(),
    ensures
        i <= line_end(s, i) <= s.len(),
    decreases s.len() - i,
{
    if i < s.len() && s[i] != '\n' {
        lemma_line_end_bounds(s, i + 1);
    }
}

proof fn lemma_token_end_bounds(s: Seq<char>, i: int)
    requires
        0 <= i <= s.len(),
    ensures
        i <= token_end(s, i) <= s.len(),
    decreases s.len() - i,
{
    if i < s.len() && !is_space(s[i]) {
        lemma_token_end_bounds(s, i + 1);
    }
}

proof fn lemma_comma_end_bounds(s: Seq<char>, i: int)
    requires
        0 <= i <= s.len(),
    ensures
        i <= comma_end(s, i) <= s.len(),
    decreases s.len() - i,
{
    if i < s.len() && s[i] != ',' {
        lemma_comma_end_bounds(s, i + 1);
    }
}

proof fn lemma_scan_line_end(s: Seq<char>, i: int, x: int)
    requires
        0 <= i <= x <= s.len(),
        forall|m: int| i <= m < x ==> s[m] != '\n',
        x < s.len() ==> s[x] == '\n',
    ensures
        line_end(s, i) == x,
    decreases x - i,
{
    if i < x {
        lemma_scan_line_end(s, i + 1, x);
    }
}

proof fn lemma_scan_token_end(s: Seq<char>, i: int, x: int)
    requires
        0 <= i <= x <= s.len(),
        forall|m: int| i <= m < x ==> !is_space(s[m]),
        x < s.len() ==> is_space(s[x]),
    ensures
        token_end(s, i) == x,
    decreases x - i,
{
    if i < x {
        lemma_scan_token_end(s, i + 1, x);
    }
}

proof fn lemma_scan_comma_end(s: Seq<char>, i: int, x: int)
    requires
        0 <= i <= x <= s.len(),
        forall|m: int| i <= m < x ==> s[m] != ',',
        x < s.len() ==> s[x] == ',',
    ensures
        comma_end(s, i) == x,
    decreases x - i,
{
    if i < x {
        lemma_scan_comma_end(s, i + 1, x);
    }
}

/// The text split at line breaks; the breaks themselves are dropped.
pub open spec fn split_lines(s: Seq<char>) -> Seq<Seq<char>>
    decreases s.len(),
    via split_lines_dec
{
    let e = line_end(s, 0);
    if e >= s.len() {
        seq![s]
    } else {
        seq![s.take(e)] + split_lines(s.skip(e + 1))
    }
}

#[via_fn]
proof fn split_lines_dec(s: Seq<char>) {
    lemma_line_end_bounds(s, 0);
}

/// The text split at commas; empty segments are kept, so the split of a
/// non-empty text has one segment more than it has commas.
pub open spec fn split_commas(s: Seq<char>) -> Seq<Seq<char>>
    decreases s.len(),
    via split_commas_dec
{
    let e = comma_end(s, 0);
    if e >= s.len() {
        seq![s]
    } else {
        seq![s.take(e)] + split_commas(s.skip(e + 1))
    }
}

#[via_fn]
proof fn split_commas_dec(s: Seq<char>) {
    lemma_comma_end_bounds(s, 0);
}

/// The whitespace-separated tokens of a line, in order, each non-empty.
pub open spec fn split_tokens(s: Seq<char>) -> Seq<Seq<char>>
    decreases s.len(),
    via split_tokens_dec
{
    if s.len() == 0 {
        Seq::empty()
    } else if is_space(s[0]) {
        split_tokens(s.skip(1))
    } else {
        let e = token_end(s, 0);
        seq![s.take(e)] + split_tokens(s.skip(e))
    }
}

#[via_fn]
proof fn split_tokens_dec(s: Seq<char>) {
    if s.len() > 0 && !is_space(s[0]) {
        lemma_token_end_bounds(s, 1);
    }
}

/// `s` without leading whitespace.
pub open spec fn trim_front(s: Seq<char>) -> Seq<char>
    decreases s.len(),
{
    if s.len() > 0 && is_space(s[0]) {
        trim_front(s.skip(1))
    } else {
        s
    }
}

/// `s` without trailing whitespace.
pub open spec fn trim_back(s: Seq<char>) -> Seq<char>
    decreases s.len(),
{
    if s.len() > 0 && is_space(s.last()) {
        trim_back(s.drop_last())
    } else {
        s
    }
}

/// `s` without surrounding whitespace.
pub open spec fn spec_trim(s: Seq<char>) -> Seq<char> {
    trim_back(trim_front(s))
}

/// `s` without leading parentheses.
pub open spec fn trim_parens_front(s: Seq<char>) -> Seq<char>
    decreases s.len(),
{
    if s.len() > 0 && is_paren(s[0]) {
        trim_parens_front(s.skip(1))
    } else {
        s
    }
}

/// `s` without trailing parentheses.
pub open spec fn trim_parens_back(s: Seq<char>) -> Seq<char>
    decreases s.len(),
{
    if s.len() > 0 && is_paren(s.last()) {
        trim_parens_back(s.drop_last())
    } else {
        s
    }
}

/// `s` without surrounding parentheses.
pub open spec fn spec_trim_parens(s: Seq<char>) -> Seq<char> {
    trim_parens_back(trim_parens_front(s))
}

proof fn lemma_trim_front_is_skip(s: Seq<char>, x: int)
    requires
        0 <= x <= s.len(),
        forall|m: int| 0 <= m < x ==> is_space(s[m]),
        x < s.len() ==> !is_space(s[x]),
    ensures
        trim_front(s) == s.skip(x),
    decreases x,
{
    if x == 0 {
        assert(s.skip(0) =~= s);
    } else {
        lemma_trim_front_is_skip(s.skip(1), x - 1);
        assert(s.skip(1).skip(x - 1) =~= s.skip(x));
    }
}

proof fn lemma_trim_back_is_take(s: Seq<char>, x: int)
    requires
        0 <= x <= s.len(),
        forall|m: int| x <= m < s.len() ==> is_space(s[m]),
        x > 0 ==> !is_space(s[x - 1]),
    ensures
        trim_back(s) == s.take(x),
    decreases s.len(),
{
    if x == s.len() {
        assert(s.take(x) =~= s);
    } else {
        lemma_trim_back_is_take(s.drop_last(), x);
        assert(s.drop_last().take(x) =~= s.take(x));
    }
}

proof fn lemma_trim_parens_front_is_skip(s: Seq<char>, x: int)
    requires
        0 <= x <= s.len(),
        forall|m: int| 0 <= m < x ==> is_paren(s[m]),
        x < s.len() ==> !is_paren(s[x]),
    ensures
        trim_parens_front(s) == s.skip(x),
    decreases x,
{
    if x == 0 {
        assert(s.skip(0) =~= s);
    } else {
        lemma_trim_parens_front_is_skip(s.skip(1), x - 1);
        assert(s.skip(1).skip(x - 1) =~= s.skip(x));
    }
}

proof fn lemma_trim_parens_back_is_take(s: Seq<char>, x: int)
    requires
        0 <= x <= s.len(),
        forall|m: int| x <= m < s.len() ==> is_paren(s[m]),
        x > 0 ==> !is_paren(s[x - 1]),
    ensures
        trim_parens_back(s) == s.take(x),
    decreases s.len(),
{
    if x == s.len() {
        assert(s.take(x) =~= s);
    } else {
        lemma_trim_parens_back_is_take(s.drop_last(), x);
        assert(s.drop_last().take(x) =~= s.take(x));
    }
}

/// `s` without surrounding whitespace, as a slice of `s`.
pub fn trim_str<'a>(s: &'a str) -> (r: &'a str)
    ensures
        r@ == spec_trim(s@),
{
    let n = s.unicode_len();
    let mut start: usize = 0;
    while start < n && is_space_char(s.get_char(start))
        invariant
            n == s@.len(),
            start <= n,
            forall|m: int| 0 <= m < start ==> is_space(s@[m]),
        decreases n - start,
    {
        start = start + 1;
    }
    let mut end: usize = n;
    while end > start && is_space_char(s.get_char(end - 1))
        invariant
            n == s@.len(),
            start <= end <= n,
            forall|m: int| end <= m < n ==> is_space(s@[m]),
        decreases end,
    {
        end = end - 1;
    }
    proof {
        lemma_trim_front_is_skip(s@, start as int);
        let t = s@.skip(start as int);
        assert forall|m: int| end - start <= m < t.len() implies is_space(t[m]) by {
            assert(t[m] == s@[start + m]);
        }
        lemma_trim_back_is_take(t, end - start);
        assert(t.take(end - start) =~= s@.subrange(start as int, end as int));
    }
    s.substring_char(start, end)
}

/// `s` without surrounding parentheses, as a slice of `s`.
pub fn trim_parens_str<'a>(s: &'a str) -> (r: &'a str)
    ensures
        r@ == spec_trim_parens(s@),
{
    let n = s.unicode_len();
    let mut start: usize = 0;
    while start < n && is_paren_char(s.get_char(start))
        invariant
            n == s@.len(),
            start <= n,
            forall|m: int| 0 <= m < start ==> is_paren(s@[m]),
        decreases n - start,
    {
        start = start + 1;
    }
    let mut end: usize = n;
    while end > start && is_paren_char(s.get_char(end - 1))
        invariant
            n == s@.len(),
            start <= end <= n,
            forall|m: int| end <= m < n ==> is_paren(s@[m]),
        decreases end,
    {
        end = end - 1;
    }
    proof {
        lemma_trim_parens_front_is_skip(s@, start as int);
        let t = s@.skip(start as int);
        assert forall|m: int| end - start <= m < t.len() implies is_paren(t[m]) by {
            assert(t[m] == s@[start + m]);
        }
        lemma_trim_parens_back_is_take(t, end - start);
        assert(t.take(end - start) =~= s@.subrange(start as int, end as int));
    }
    s.substring_char(start, end)
}

/// The value of a digit string, most significant digit first.
pub open spec fn digits_val(t: Seq<char>) -> int
    decreases t.len(),
{
    if t.len() == 0 {
        0
    } else {
        digits_val(t.drop_last()) * 10 + (t.last() as int - 48)
    }
}

/// Every character of `t` is a decimal digit.
pub open spec fn all_digits(t: Seq<char>) -> bool {
    forall|i: int| 0 <= i < t.len() ==> is_digit(#[trigger] t[i])
}

/// The `i32` a token denotes, exactly as Rust's integer grammar has it:
/// an optional sign, then one or more digits, the value within range.
pub open spec fn spec_parse_i32(t: Seq<char>) -> Option<i32> {
    let neg = t.len() > 0 && t[0] == '-';
    let digits = if t.len() > 0 && (t[0] == '-' || t[0] == '+') {
        t.skip(1)
    } else {
        t
    };
    if digits.len() > 0 && all_digits(digits) {
        let v = if neg {
            -digits_val(digits)
        } else {
            digits_val(digits)
        };
        if i32::MIN <= v <= i32::MAX {
            Some(v as i32)
        } else {
            None
        }
    } else {
        None
    }
}

proof fn lemma_digits_val_nonneg(t: Seq<char>)
    requires
        all_digits(t),
    ensures
        digits_val(t) >= 0,
    decreases t.len(),
{
    if t.len() > 0 {
        assert(forall|i: int|
            0 <= i < t.drop_last().len() ==> is_digit(#[trigger] t.drop_last()[i]));
        lemma_digits_val_nonneg(t.drop_last());
    }
}

proof fn lemma_digits_val_mono(t: Seq<char>, j: int)
    requires
        all_digits(t),
        0 <= j <= t.len(),
    ensures
        digits_val(t.take(j)) <= digits_val(t),
    decreases t.len() - j,
{
    if j == t.len() {
        assert(t.take(j) =~= t);
    } else {
        assert(forall|i: int| 0 <= i < t.take(j).len() ==> is_digit(#[trigger] t.take(j)[i]));
        lemma_digits_val_nonneg(t.take(j));
        assert(t.take(j + 1).drop_last() =~= t.take(j));
        assert(t.take(j + 1).last() == t[j]);
        lemma_digits_val_mono(t, j + 1);
    }
}

/// Parse a token as an `i32`; `None` exactly when the token does not
/// denote an in-range integer.
pub fn parse_i32(s: &str) -> (r: Option<i32>)
    ensures
        r == spec_parse_i32(s@),
{
    let n = s.unicode_len();
    if n == 0 {
        return None;
    }
    let c0 = s.get_char(0);
    let neg = c0 == '-';
    let off: usize = if c0 == '-' || c0 == '+' {
        1
    } else {
        0
    };
    let ghost digits = s@.skip(off as int);
    proof {
        if off == 0 {
            assert(digits =~= s@);
        }
    }
    if n == off {
        return None;
    }
    let mut acc: i64 = 0;
    let mut j: usize = off;
    while j < n
        invariant
            off <= j <= n,
            n == s@.len(),
            digits == s@.skip(off as int),
            digits == (if s@.len() > 0 && (s@[0] == '-' || s@[0] == '+') {
                s@.skip(1)
            } else {
                s@
            }),
            neg == (s@.len() > 0 && s@[0] == '-'),
            off < n,
            all_digits(digits.take(j - off)),
            acc == digits_val(digits.take(j - off)),
            0 <= acc <= 2147483648,
        decreases n - j,
    {
        let c = s.get_char(j);
        if !is_digit_char(c) {
            proof {
                assert(digits[j - off] == s@[j as int]);
                assert(!is_digit(digits[j - off]));
            }
            return None;
        }
        let d: i64 = ((c as u32) - 48) as i64;
        proof {
            assert((c as u32) as int == c as int);
            assert(d == c as int - 48);
        }
        acc = acc * 10 + d;
        proof {
            assert(digits.take(j - off + 1).drop_last() =~= digits.take(j - off));
            assert(digits.take(j - off + 1).last() == digits[j - off]);
            assert(digits[j - off] == s@[j as int]);
            assert(forall|m: int|
                0 <= m < digits.take(j - off + 1).len() ==> is_digit(
                    #[trigger] digits.take(j - off + 1)[m],
                ));
        }
        j = j + 1;
        if acc > 2147483648 {
            proof {
                if all_digits(digits) {
                    lemma_digits_val_mono(digits, j - off);
                }
            }
            return None;
        }
    }
    proof {
        assert(digits.take(n - off) =~= digits);
    }
    if neg {
        Some((-acc) as i32)
    } else {
        if acc > 2147483647 {
            None
        } else {
            Some(acc as i32)
        }
    }
}

/// The lines of `s`, split at breaks, from position `p` on.
fn split_lines_from<'a>(s: &'a str, p: usize) -> (r: Vec<&'a str>)
    requires
        p <= s@.len(),
    ensures
        r@.map_values(|l: &'a str| l@) == split_lines(s@.skip(p as int)),
    decreases s@.len() - p,
{
    let n = s.unicode_len();
    let mut e: usize = p;
    while e < n && s.get_char(e) != '\n'
        invariant
            p <= e <= n,
            n == s@.len(),
            forall|m: int| p <= m < e ==> s@[m] != '\n',
        decreases n - e,
    {
        e = e + 1;
    }
    let ghost t = s@.skip(p as int);
    proof {
        assert forall|m: int| 0 <= m < e - p implies t[m] != '\n' by {
            assert(t[m] == s@[p + m]);
        }
        assert(e < n ==> t[e - p] == s@[e as int]);
        lemma_scan_line_end(t, 0, e - p);
    }
    let line = s.substring_char(p, e);
    proof {
        assert(line@ =~= t.take(e - p));
    }
    if e == n {
        let mut r: Vec<&'a str> = Vec::new();
        r.push(line);
        proof {
            assert(t.take(e - p) =~= t);
            assert(r@.map_values(|l: &'a str| l@) =~= split_lines(t));
        }
        r
    } else {
        let mut rest = split_lines_from(s, e + 1);
        let ghost rest0 = rest@;
        rest.insert(0, line);
        proof {
            assert(t.skip((e - p) + 1) =~= s@.skip(e + 1));
            assert(rest@.map_values(|l: &'a str| l@) =~= seq![line@] + rest0.map_values(
                |l: &'a str| l@,
            ));
            assert(rest@.map_values(|l: &'a str| l@) =~= split_lines(t));
        }
        rest
    }
}

/// A non-empty trimmed line that opens with a digit or a parenthesis.
pub open spec fn is_data_line(l: Seq<char>) -> bool {
    l.len() > 0 && is_data_start(l[0])
}

/// The trimmed data lines among `lines`, in order.
pub open spec fn data_lines_of(lines: Seq<Seq<char>>) -> Seq<Seq<char>>
    decreases lines.len(),
{
    if lines.len() == 0 {
        Seq::empty()
    } else {
        let t = spec_trim(lines[0]);
        let rest = data_lines_of(lines.skip(1));
        if is_data_line(t) {
            seq![t] + rest
        } else {
            rest
        }
    }
}

/// The trimmed data lines of the whole text, in order: what the parser
/// actually reads.
pub open spec fn data_lines(s: Seq<char>) -> Seq<Seq<char>> {
    data_lines_of(split_lines(s))
}

/// Collect the trimmed data lines of `s`.
pub fn collect_data_lines<'a>(s: &'a str) -> (r: Vec<&'a str>)
    ensures
        r@.map_values(|l: &'a str| l@) == data_lines(s@),
{
    proof {
        assert(s@.skip(0) =~= s@);
    }
    let all = split_lines_from(s, 0);
    let ghost sl = all@.map_values(|l: &'a str| l@);
    let mut out: Vec<&'a str> = Vec::new();
    let mut j: usize = 0;
    proof {
        assert(sl.skip(0) =~= sl);
        assert(out@.map_values(|l: &'a str| l@) + data_lines_of(sl) =~= data_lines_of(sl));
    }
    while j < all.len()
        invariant
            j <= all@.len(),
            sl == all@.map_values(|l: &'a str| l@),
            sl == split_lines(s@),
            out@.map_values(|l: &'a str| l@) + data_lines_of(sl.skip(j as int)) == data_lines_of(
                sl,
            ),
        decreases all@.len() - j,
    {
        let ghost pre = out@.map_values(|l: &'a str| l@);
        let t = trim_str(all[j]);
        let keep = if t.unicode_len() == 0 {
            false
        } else {
            is_data_start_char(t.get_char(0))
        };
        proof {
            assert(sl.skip(j as int)[0] == sl[j as int]);
            assert(sl[j as int] == all@[j as int]@);
            assert(sl.skip(j as int).skip(1) =~= sl.skip(j + 1));
            assert(keep == is_data_line(t@));
        }
        if keep {
            out.push(t);
            proof {
                assert(out@.map_values(|l: &'a str| l@) =~= pre.push(t@));
                assert(pre.push(t@) + data_lines_of(sl.skip(j + 1)) =~= pre + data_lines_of(
                    sl.skip(j as int),
                ));
            }
        } else {
            proof {
                assert(data_lines_of(sl.skip(j + 1)) =~= data_lines_of(sl.skip(j as int)));
            }
        }
        j = j + 1;
    }
    proof {
        assert(sl.skip(j as int) =~= Seq::<Seq<char>>::empty());
        assert(out@.map_values(|l: &'a str| l@) =~= out@.map_values(|l: &'a str| l@)
            + data_lines_of(sl.skip(j as int)));
    }
    out
}

/// The ways a configuration can be rejected, each tied by
/// `spec_parse_config` to exactly the inputs that produce it.
#[derive(Clone, Copy, PartialEq, Eq, Structural, Debug)]
pub enum ConfigError {
    /// The text holds no data line at all.
    Empty,
    /// The first data line is not an integer vertex count.
    BadCount,
    /// A vertex line's first field is not an integer id.
    BadNodeId,
    /// A vertex line ends before its address field.
    MissingIp,
    /// A vertex line ends before its port field.
    MissingPort,
    /// A vertex line's port field is not an integer.
    BadPort,
    /// A parenthesized id on an edge or leader line is not an integer.
    BadEdgeVertex,
    /// The parentheses hold neither one id (a leader) nor two (an edge).
    BadEdgeShape,
    /// An edge line ends before its weight field.
    MissingWeight,
    /// An edge line's weight field is not an integer.
    BadWeight,
    /// An edge names a vertex id that no vertex line declared.
    UnknownEndpoint,
    /// The text ends before a leader line.
    NoLeader,
}

/// The spec-level image of one vertex record.
#[verifier::ext_equal]
pub struct NodeDataModel {
    pub ip: Seq<char>,
    pub port: i32,
    pub edges: Seq<(i32, i32)>,
    pub neighbors: Seq<i32>,
}

/// The spec-level image of a parsed configuration: the vertex table in
/// declaration order, and the leader id.
#[verifier::ext_equal]
pub struct ConfigModel {
    pub nodes: Seq<(i32, NodeDataModel)>,
    pub leader: i32,
}

/// The spec-level image of a vertex record held in executable form.
pub open spec fn node_data_model(d: NodeData) -> NodeDataModel {
    NodeDataModel { ip: d.ip@, port: d.port, edges: d.edges@, neighbors: d.neighbors@ }
}

/// The spec-level image of the executable vertex table.
pub open spec fn nodes_model(v: Seq<(i32, NodeData)>) -> Seq<(i32, NodeDataModel)> {
    v.map_values(|p: (i32, NodeData)| (p.0, node_data_model(p.1)))
}

/// Every id of the vertex table occurs once.
pub open spec fn table_unique(s: Seq<(i32, NodeDataModel)>) -> bool {
    forall|i: int, j: int| 0 <= i < j < s.len() ==> s[i].0 != s[j].0
}

/// The vertex table has a record for `k`.
pub open spec fn table_has(s: Seq<(i32, NodeDataModel)>, k: i32) -> bool {
    exists|i: int| 0 <= i < s.len() && s[i].0 == k
}

/// The position of `k`'s record.
pub open spec fn table_idx(s: Seq<(i32, NodeDataModel)>, k: i32) -> int {
    choose|i: int| 0 <= i < s.len() && s[i].0 == k
}

/// The vertex table with `k` bound to `d`: an existing record is
/// replaced in place, a new one is appended.
pub open spec fn table_put(s: Seq<(i32, NodeDataModel)>, k: i32, d: NodeDataModel) -> Seq<
    (i32, NodeDataModel),
> {
    if table_has(s, k) {
        s.update(table_idx(s, k), (k, d))
    } else {
        s.push((k, d))
    }
}

/// The vertex table with the directed half-edge `u -> to` of weight `w`
/// appended to `u`'s record: the edge goes on `u`'s edge list and `to`
/// on `u`'s neighbor list.
pub open spec fn table_add_edge(s: Seq<(i32, NodeDataModel)>, u: i32, to: i32, w: i32) -> Seq<
    (i32, NodeDataModel),
>
    recommends
        table_has(s, u),
{
    let i = table_idx(s, u);
    let d = s[i].1;
    s.update(
        i,
        (u, NodeDataModel { edges: d.edges.push((to, w)), neighbors: d.neighbors.push(to), ..d }),
    )
}

/// `table_add_edge` changes no id: the table keeps its length and its
/// keys, position by position.
proof fn lemma_table_add_edge_keys(s: Seq<(i32, NodeDataModel)>, u: i32, to: i32, w: i32)
    requires
        table_unique(s),
        table_has(s, u),
    ensures
        table_add_edge(s, u, to, w).len() == s.len(),
        forall|m: int| 0 <= m < s.len() ==> #[trigger] table_add_edge(s, u, to, w)[m].0 == s[m].0,
        table_unique(table_add_edge(s, u, to, w)),
        forall|k: i32| table_has(s, k) ==> #[trigger] table_has(table_add_edge(s, u, to, w), k),
{
    let t = table_add_edge(s, u, to, w);
    assert forall|k: i32| table_has(s, k) implies #[trigger] table_has(t, k) by {
        let m = choose|m: int| 0 <= m < s.len() && s[m].0 == k;
        assert(t[m].0 == k);
    }
}

/// One vertex line `id ip port`, parsed: extra fields are ignored,
/// missing or malformed ones are errors.
pub open spec fn parse_node_line(l: Seq<char>) -> Result<(i32, NodeDataModel), ConfigError> {
    let toks = split_tokens(l);
    if toks.len() == 0 {
        Err(ConfigError::BadNodeId)
    } else {
        match spec_parse_i32(toks[0]) {
            None => Err(ConfigError::BadNodeId),
            Some(id) => if toks.len() < 2 {
                Err(ConfigError::MissingIp)
            } else if toks.len() < 3 {
                Err(ConfigError::MissingPort)
            } else {
                match spec_parse_i32(toks[2]) {
                    None => Err(ConfigError::BadPort),
                    Some(port) => Ok(
                        (
                            id,
                            NodeDataModel {
                                ip: toks[1],
                                port,
                                edges: Seq::empty(),
                                neighbors: Seq::empty(),
                            },
                        ),
                    ),
                }
            },
        }
    }
}

/// The vertex lines folded into a table, later records replacing
/// earlier ones of the same id.
pub open spec fn parse_node_lines(
    lines: Seq<Seq<char>>,
    acc: Seq<(i32, NodeDataModel)>,
) -> Result<Seq<(i32, NodeDataModel)>, ConfigError>
    decreases lines.len(),
{
    if lines.len() == 0 {
        Ok(acc)
    } else {
        match parse_node_line(lines[0]) {
            Err(e) => Err(e),
            Ok(n) => parse_node_lines(lines.skip(1), table_put(acc, n.0, n.1)),
        }
    }
}

/// The comma-separated segments each parsed as an id.
pub open spec fn parse_ids(segs: Seq<Seq<char>>) -> Result<Seq<i32>, ConfigError>
    decreases segs.len(),
{
    if segs.len() == 0 {
        Ok(Seq::empty())
    } else {
        match spec_parse_i32(segs[0]) {
            None => Err(ConfigError::BadEdgeVertex),
            Some(v) => match parse_ids(segs.skip(1)) {
                Err(e) => Err(e),
                Ok(r) => Ok(seq![v] + r),
            },
        }
    }
}

/// The ids inside an edge or leader token: parentheses stripped from
/// both ends, the rest split at commas, each segment an integer.
pub open spec fn parse_edge_ids(tok: Seq<char>) -> Result<Seq<i32>, ConfigError> {
    parse_ids(split_commas(spec_trim_parens(tok)))
}

/// The edge lines folded into the table, until a one-id line names the
/// leader (what follows it is ignored) or the lines run out.  Each edge
/// `(u,v) w` appends a half-edge to both endpoints, which must already
/// be declared.
pub open spec fn parse_edge_lines(
    lines: Seq<Seq<char>>,
    acc: Seq<(i32, NodeDataModel)>,
) -> Result<(Seq<(i32, NodeDataModel)>, i32), ConfigError>
    decreases lines.len(),
{
    if lines.len() == 0 {
        Err(ConfigError::NoLeader)
    } else {
        let toks = split_tokens(lines[0]);
        if toks.len() == 0 {
            Err(ConfigError::BadEdgeShape)
        } else {
            match parse_edge_ids(toks[0]) {
                Err(e) => Err(e),
                Ok(ids) => if ids.len() == 1 {
                    Ok((acc, ids[0]))
                } else if ids.len() != 2 {
                    Err(ConfigError::BadEdgeShape)
                } else if toks.len() < 2 {
                    Err(ConfigError::MissingWeight)
                } else {
                    match spec_parse_i32(toks[1]) {
                        None => Err(ConfigError::BadWeight),
                        Some(w) => if !table_has(acc, ids[0]) || !table_has(acc, ids[1]) {
                            Err(ConfigError::UnknownEndpoint)
                        } else {
                            parse_edge_lines(
                                lines.skip(1),
                                table_add_edge(
                                    table_add_edge(acc, ids[0], ids[1], w),
                                    ids[1],
                                    ids[0],
                                    w,
                                ),
                            )
                        },
                    }
                },
            }
        }
    }
}

/// Non-decreasing by weight.
pub open spec fn weight_sorted(s: Seq<(i32, i32)>) -> bool {
    forall|a: int, b: int| 0 <= a < b < s.len() ==> s[a].1 <= s[b].1
}

/// `e` slid into `s` behind every entry of equal or smaller weight.
pub open spec fn sorted_insert(e: (i32, i32), s: Seq<(i32, i32)>) -> Seq<(i32, i32)>
    decreases s.len(),
{
    if s.len() > 0 && s[0].1 <= e.1 {
        seq![s[0]] + sorted_insert(e, s.skip(1))
    } else {
        seq![e] + s
    }
}

/// The stable sort of an edge list by weight: entries of equal weight
/// keep their order.
pub open spec fn sort_edges(s: Seq<(i32, i32)>) -> Seq<(i32, i32)>
    decreases s.len(),
{
    if s.len() == 0 {
        Seq::empty()
    } else {
        sorted_insert(s.last(), sort_edges(s.drop_last()))
    }
}

proof fn lemma_sorted_insert_at(e: (i32, i32), s: Seq<(i32, i32)>, x: int)
    requires
        0 <= x <= s.len(),
        forall|m: int| 0 <= m < x ==> s[m].1 <= e.1,
        x < s.len() ==> s[x].1 > e.1,
    ensures
        sorted_insert(e, s) == s.insert(x, e),
    decreases x,
{
    if x == 0 {
        assert(seq![e] + s =~= s.insert(0, e));
    } else {
        lemma_sorted_insert_at(e, s.skip(1), x - 1);
        assert(seq![s[0]] + s.skip(1).insert(x - 1, e) =~= s.insert(x, e));
    }
}

proof fn lemma_sorted_insert_elems(e: (i32, i32), s: Seq<(i32, i32)>)
    ensures
        sorted_insert(e, s).len() == s.len() + 1,
        forall|m: int|
            0 <= m < sorted_insert(e, s).len() ==> (#[trigger] sorted_insert(e, s)[m] == e
                || s.contains(sorted_insert(e, s)[m])),
    decreases s.len(),
{
    if s.len() > 0 && s[0].1 <= e.1 {
        lemma_sorted_insert_elems(e, s.skip(1));
        assert forall|m: int|
            0 <= m < sorted_insert(e, s).len() implies (#[trigger] sorted_insert(e, s)[m] == e
            || s.contains(sorted_insert(e, s)[m])) by {
            if m > 0 {
                let t = sorted_insert(e, s.skip(1));
                assert(sorted_insert(e, s)[m] == t[m - 1]);
                if t[m - 1] != e {
                    let w = choose|i: int| 0 <= i < s.skip(1).len() && s.skip(1)[i] == t[m - 1];
                    assert(s[w + 1] == t[m - 1]);
                }
            } else {
                assert(sorted_insert(e, s)[0] == s[0]);
            }
        }
    }
}

proof fn lemma_sorted_insert_sorted(e: (i32, i32), s: Seq<(i32, i32)>)
    requires
        weight_sorted(s),
    ensures
        weight_sorted(sorted_insert(e, s)),
    decreases s.len(),
{
    if s.len() > 0 && s[0].1 <= e.1 {
        assert(forall|a: int, b: int|
            0 <= a < b < s.skip(1).len() ==> s.skip(1)[a].1 <= s.skip(1)[b].1);
        lemma_sorted_insert_sorted(e, s.skip(1));
        lemma_sorted_insert_elems(e, s.skip(1));
        let t = sorted_insert(e, s);
        let r = sorted_insert(e, s.skip(1));
        assert forall|a: int, b: int| 0 <= a < b < t.len() implies t[a].1 <= t[b].1 by {
            if a == 0 {
                assert(t[0] == s[0]);
                assert(t[b] == r[b - 1]);
                if r[b - 1] == e {
                } else {
                    let w = choose|i: int|
                        0 <= i < s.skip(1).len() && s.skip(1)[i] == r[b - 1];
                    assert(s[w + 1] == r[b - 1]);
                    assert(s[0].1 <= s[w + 1].1);
                }
            } else {
                assert(t[a] == r[a - 1] && t[b] == r[b - 1]);
            }
        }
    }
}

/// A sorted edge list comes out of `sort_edges` for every input.
pub proof fn lemma_sort_edges_sorted(s: Seq<(i32, i32)>)
    ensures
        weight_sorted(sort_edges(s)),
    decreases s.len(),
{
    if s.len() > 0 {
        lemma_sort_edges_sorted(s.drop_last());
        lemma_sorted_insert_sorted(s.last(), sort_edges(s.drop_last()));
    }
}

/// The table with every record's edge list sorted by weight; ids,
/// order, addresses and neighbor lists unchanged.
pub open spec fn sort_tables(s: Seq<(i32, NodeDataModel)>) -> Seq<(i32, NodeDataModel)> {
    s.map_values(
        |p: (i32, NodeDataModel)|
            (p.0, NodeDataModel { edges: sort_edges(p.1.edges), ..p.1 }),
    )
}

/// The whole configuration grammar: the vertex count from the first
/// data line, that many vertex lines (fewer if the text runs short),
/// then edge lines up to the leader line; finally every edge list is
/// sorted by weight.
pub open spec fn spec_parse_config(text: Seq<char>) -> Result<ConfigModel, ConfigError> {
    let dl = data_lines(text);
    if dl.len() == 0 {
        Err(ConfigError::Empty)
    } else {
        match spec_parse_i32(dl[0]) {
            None => Err(ConfigError::BadCount),
            Some(n) => {
                let k = if n < 0 {
                    0int
                } else if n as int > dl.len() - 1 {
                    dl.len() - 1
                } else {
                    n as int
                };
                match parse_node_lines(dl.subrange(1, 1 + k), Seq::empty()) {
                    Err(e) => Err(e),
                    Ok(nodes) => match parse_edge_lines(dl.skip(1 + k), nodes) {
                        Err(e) => Err(e),
                        Ok(res) => Ok(ConfigModel { nodes: sort_tables(res.0), leader: res.1 }),
                    },
                }
            },
        }
    }
}

/// The whitespace-separated tokens of `s` from position `p` on.
fn split_tokens_from<'a>(s: &'a str, p: usize) -> (r: Vec<&'a str>)
    requires
        p <= s@.len(),
    ensures
        r@.map_values(|t: &'a str| t@) == split_tokens(s@.skip(p as int)),
    decreases s@.len() - p,
{
    let n = s.unicode_len();
    let ghost t = s@.skip(p as int);
    if p == n {
        let r: Vec<&'a str> = Vec::new();
        proof {
            assert(t =~= Seq::<char>::empty());
            assert(r@.map_values(|x: &'a str| x@) =~= split_tokens(t));
        }
        r
    } else {
        let c = s.get_char(p);
        proof {
            assert(t[0] == s@[p as int]);
        }
        if is_space_char(c) {
            proof {
                assert(t.skip(1) =~= s@.skip(p + 1));
            }
            split_tokens_from(s, p + 1)
        } else {
            let mut e: usize = p + 1;
            while e < n && !is_space_char(s.get_char(e))
                invariant
                    p < e <= n,
                    n == s@.len(),
                    forall|m: int| p <= m < e ==> !is_space(s@[m]),
                decreases n - e,
            {
                e = e + 1;
            }
            proof {
                assert forall|m: int| 0 <= m < e - p implies !is_space(t[m]) by {
                    assert(t[m] == s@[p + m]);
                }
                assert(e < n ==> t[e - p] == s@[e as int]);
                lemma_scan_token_end(t, 0, e - p);
            }
            let tok = s.substring_char(p, e);
            let mut rest = split_tokens_from(s, e);
            let ghost rest0 = rest@;
            rest.insert(0, tok);
            proof {
                assert(tok@ =~= t.take(e - p));
                assert(t.skip(e - p) =~= s@.skip(e as int));
                assert(rest@.map_values(|x: &'a str| x@) =~= seq![tok@] + rest0.map_values(
                    |x: &'a str| x@,
                ));
                assert(rest@.map_values(|x: &'a str| x@) =~= split_tokens(t));
            }
            rest
        }
    }
}

/// The comma-separated segments of `s` from position `p` on; empty
/// segments are kept.
fn split_commas_from<'a>(s: &'a str, p: usize) -> (r: Vec<&'a str>)
    requires
        p <= s@.len(),
    ensures
        r@.map_values(|t: &'a str| t@) == split_commas(s@.skip(p as int)),
    decreases s@.len() - p,
{
    let n = s.unicode_len();
    let mut e: usize = p;
    while e < n && s.get_char(e) != ','
        invariant
            p <= e <= n,
            n == s@.len(),
            forall|m: int| p <= m < e ==> s@[m] != ',',
        decreases n - e,
    {
        e = e + 1;
    }
    let ghost t = s@.skip(p as int);
    proof {
        assert forall|m: int| 0 <= m < e - p implies t[m] != ',' by {
            assert(t[m] == s@[p + m]);
        }
        assert(e < n ==> t[e - p] == s@[e as int]);
        lemma_scan_comma_end(t, 0, e - p);
    }
    let seg = s.substring_char(p, e);
    proof {
        assert(seg@ =~= t.take(e - p));
    }
    if e == n {
        let mut r: Vec<&'a str> = Vec::new();
        r.push(seg);
        proof {
            assert(t.take(e - p) =~= t);
            assert(r@.map_values(|x: &'a str| x@) =~= split_commas(t));
        }
        r
    } else {
        let mut rest = split_commas_from(s, e + 1);
        let ghost rest0 = rest@;
        rest.insert(0, seg);
        proof {
            assert(t.skip((e - p) + 1) =~= s@.skip(e + 1));
            assert(rest@.map_values(|x: &'a str| x@) =~= seq![seg@] + rest0.map_values(
                |x: &'a str| x@,
            ));
            assert(rest@.map_values(|x: &'a str| x@) =~= split_commas(t));
        }
        rest
    }
}

/// The segments from position `q` on, each parsed as an id.
fn parse_ids_from(segs: &Vec<&str>, q: usize) -> (r: Result<Vec<i32>, ConfigError>)
    requires
        q <= segs@.len(),
    ensures
        ({
            let sr = parse_ids(segs@.map_values(|t: &str| t@).skip(q as int));
            match r {
                Ok(v) => sr == Result::<Seq<i32>, ConfigError>::Ok(v@),
                Err(e) => sr == Result::<Seq<i32>, ConfigError>::Err(e),
            }
        }),
    decreases segs@.len() - q,
{
    let ghost sm = segs@.map_values(|t: &str| t@);
    if q == segs.len() {
        let r: Vec<i32> = Vec::new();
        proof {
            assert(sm.skip(q as int) =~= Seq::<Seq<char>>::empty());
            assert(r@ =~= Seq::<i32>::empty());
        }
        Ok(r)
    } else {
        proof {
            assert(sm.skip(q as int)[0] == sm[q as int]);
            assert(sm[q as int] == segs@[q as int]@);
            assert(sm.skip(q as int).skip(1) =~= sm.skip(q + 1));
        }
        match parse_i32(segs[q]) {
            None => Err(ConfigError::BadEdgeVertex),
            Some(x) => {
                match parse_ids_from(segs, q + 1) {
                    Err(e) => Err(e),
                    Ok(rest) => {
                        let ghost rest0 = rest@;
                        let mut out = rest;
                        out.insert(0, x);
                        proof {
                            assert(out@ =~= seq![x] + rest0);
                        }
                        Ok(out)
                    },
                }
            },
        }
    }
}

/// One vertex line, parsed to an executable record.
fn parse_node_line_exec(line: &str) -> (r: Result<(i32, NodeData), ConfigError>)
    ensures
        ({
            let sr = parse_node_line(line@);
            match r {
                Ok(p) => sr == Result::<(i32, NodeDataModel), ConfigError>::Ok(
                    (p.0, node_data_model(p.1)),
                ),
                Err(e) => sr == Result::<(i32, NodeDataModel), ConfigError>::Err(e),
            }
        }),
{
    proof {
        assert(line@.skip(0) =~= line@);
    }
    let toks = split_tokens_from(line, 0);
    let ghost tm = split_tokens(line@);
    if toks.len() == 0 {
        return Err(ConfigError::BadNodeId);
    }
    proof {
        assert(tm[0] == toks@[0]@);
    }
    let id = match parse_i32(toks[0]) {
        None => {
            return Err(ConfigError::BadNodeId);
        },
        Some(x) => x,
    };
    if toks.len() < 2 {
        return Err(ConfigError::MissingIp);
    }
    if toks.len() < 3 {
        return Err(ConfigError::MissingPort);
    }
    proof {
        assert(tm[1] == toks@[1]@);
        assert(tm[2] == toks@[2]@);
    }
    let port = match parse_i32(toks[2]) {
        None => {
            return Err(ConfigError::BadPort);
        },
        Some(x) => x,
    };
    let ip = String::from_str(toks[1]);
    let d = NodeData { ip, port, edges: Vec::new(), neighbors: Vec::new() };
    proof {
        assert(node_data_model(d) =~= (NodeDataModel {
            ip: tm[1],
            port,
            edges: Seq::empty(),
            neighbors: Seq::empty(),
        }));
    }
    Ok((id, d))
}

/// True exactly when the table holds a record for `k`.
fn table_has_exec(v: &Vec<(i32, NodeData)>, k: i32) -> (r: bool)
    ensures
        r == table_has(nodes_model(v@), k),
{
    let mut i: usize = 0;
    while i < v.len()
        invariant
            i <= v@.len(),
            forall|m: int| 0 <= m < i ==> v@[m].0 != k,
        decreases v@.len() - i,
    {
        if v[i].0 == k {
            proof {
                assert(nodes_model(v@)[i as int].0 == k);
            }
            return true;
        }
        i = i + 1;
    }
    proof {
        assert forall|m: int| 0 <= m < nodes_model(v@).len() implies nodes_model(v@)[m].0 != k by {
            assert(nodes_model(v@)[m].0 == v@[m].0);
        }
    }
    false
}

/// Bind `k` to `d` in the table, replacing any record of the same id.
fn table_put_exec(v: &mut Vec<(i32, NodeData)>, k: i32, d: NodeData)
    requires
        table_unique(nodes_model(old(v)@)),
    ensures
        nodes_model(final(v)@) == table_put(nodes_model(old(v)@), k, node_data_model(d)),
        table_unique(nodes_model(final(v)@)),
{
    let ghost s = nodes_model(old(v)@);
    let mut i: usize = 0;
    while i < v.len()
        invariant
            i <= v@.len(),
            *v == *old(v),
            s == nodes_model(old(v)@),
            table_unique(s),
            forall|m: int| 0 <= m < i ==> v@[m].0 != k,
        decreases v@.len() - i,
    {
        if v[i].0 == k {
            let ghost dm = node_data_model(d);
            let entry = &mut v[i];
            *entry = (k, d);
            proof {
                assert(s[i as int].0 == k);
                assert(table_has(s, k));
                let w = table_idx(s, k);
                assert(0 <= w < s.len() && s[w].0 == k);
                assert forall|m: int| 0 <= m < s.len() && m != i implies s[m].0 != k by {
                    assert(s[m].0 == old(v)@[m].0);
                }
                assert(w == i);
                assert(nodes_model(v@) =~= s.update(i as int, (k, dm)));
                assert forall|a: int, b: int|
                    0 <= a < b < nodes_model(v@).len() implies nodes_model(v@)[a].0 != nodes_model(
                    v@,
                )[b].0 by {
                    assert(s[a].0 != s[b].0);
                }
            }
            return;
        }
        i = i + 1;
    }
    proof {
        assert forall|m: int| 0 <= m < s.len() implies s[m].0 != k by {
            assert(s[m].0 == v@[m].0);
        }
        assert(!table_has(s, k));
    }
    let ghost pre = v@;
    v.push((k, d));
    proof {
        assert(nodes_model(v@) =~= s.push((k, node_data_model(d))));
        assert forall|a: int, b: int|
            0 <= a < b < nodes_model(v@).len() implies nodes_model(v@)[a].0 != nodes_model(
            v@,
        )[b].0 by {
            if b < s.len() {
                assert(s[a].0 != s[b].0);
            } else {
                assert(nodes_model(v@)[a].0 == s[a].0 && s[a].0 == pre[a].0);
            }
        }
    }
}

/// Append the half-edge `u -> to` of weight `w` to `u`'s record.
fn table_add_edge_exec(v: &mut Vec<(i32, NodeData)>, u: i32, to: i32, w: i32)
    requires
        table_unique(nodes_model(old(v)@)),
        table_has(nodes_model(old(v)@), u),
    ensures
        nodes_model(final(v)@) == table_add_edge(nodes_model(old(v)@), u, to, w),
        table_unique(nodes_model(final(v)@)),
{
    let ghost s = nodes_model(old(v)@);
    let mut i: usize = 0;
    while i < v.len()
        invariant
            i <= v@.len(),
            *v == *old(v),
            s == nodes_model(old(v)@),
            table_unique(s),
            table_has(s, u),
            forall|m: int| 0 <= m < i ==> v@[m].0 != u,
        decreases v@.len() - i,
    {
        if v[i].0 == u {
            let entry = &mut v[i];
            entry.1.edges.push((to, w));
            entry.1.neighbors.push(to);
            proof {
                lemma_table_add_edge_keys(s, u, to, w);
                assert(s[i as int].0 == u);
                let wi = table_idx(s, u);
                assert(0 <= wi < s.len() && s[wi].0 == u);
                assert forall|m: int| 0 <= m < s.len() && m != i implies s[m].0 != u by {
                    assert(s[m].0 == old(v)@[m].0);
                }
                assert(wi == i);
                assert(node_data_model(v@[i as int].1) =~= (NodeDataModel {
                    edges: s[i as int].1.edges.push((to, w)),
                    neighbors: s[i as int].1.neighbors.push(to),
                    ..s[i as int].1
                }));
                assert(nodes_model(v@) =~= table_add_edge(s, u, to, w));
            }
            return;
        }
        i = i + 1;
    }
    proof {
        let wi = table_idx(s, u);
        assert(0 <= wi < s.len() && s[wi].0 == u);
        assert(s[wi].0 == v@[wi].0);
        assert(false);
    }
}

/// Sort an edge list stably by weight, in place.
fn sort_edges_exec(v: &mut Vec<(i32, i32)>)
    ensures
        final(v)@ == sort_edges(old(v)@),
{
    let mut out: Vec<(i32, i32)> = Vec::new();
    let mut j: usize = 0;
    proof {
        assert(old(v)@.take(0) =~= Seq::<(i32, i32)>::empty());
    }
    while j < v.len()
        invariant
            j <= v@.len(),
            *v == *old(v),
            out@ == sort_edges(v@.take(j as int)),
        decreases v@.len() - j,
    {
        let e = v[j];
        let mut pos: usize = 0;
        while pos < out.len() && out[pos].1 <= e.1
            invariant
                pos <= out@.len(),
                forall|m: int| 0 <= m < pos ==> out@[m].1 <= e.1,
            decreases out@.len() - pos,
        {
            pos = pos + 1;
        }
        let ghost pre = out@;
        out.insert(pos, e);
        proof {
            lemma_sorted_insert_at(e, pre, pos as int);
            assert(v@.take(j + 1).drop_last() =~= v@.take(j as int));
            assert(v@.take(j + 1).last() == v@[j as int]);
        }
        j = j + 1;
    }
    proof {
        assert(v@.take(v@.len() as int) =~= v@);
    }
    *v = out;
}

/// Parse a configuration text: exactly what the grammar
/// `spec_parse_config` yields, value and error cases alike.  On
/// success the vertex table comes back in declaration order with each
/// edge list sorted by weight, together with the leader id.
pub fn parse_config(text: &str) -> (r: Result<(Vec<(i32, NodeData)>, i32), ConfigError>)
    ensures
        ({
            let sr = spec_parse_config(text@);
            match r {
                Ok(p) => sr matches Ok(c) && c.nodes == nodes_model(p.0@) && c.leader == p.1,
                Err(e) => sr == Result::<ConfigModel, ConfigError>::Err(e),
            }
        }),
{
    let lines = collect_data_lines(text);
    let ghost dl = data_lines(text@);
    if lines.len() == 0 {
        return Err(ConfigError::Empty);
    }
    proof {
        assert(dl[0] == lines@[0]@);
    }
    let n = match parse_i32(lines[0]) {
        None => {
            return Err(ConfigError::BadCount);
        },
        Some(x) => x,
    };
    let k: usize = if n <= 0 {
        0
    } else {
        let nn = n as usize;
        if nn > lines.len() - 1 {
            lines.len() - 1
        } else {
            nn
        }
    };
    let ghost ks = if n < 0 {
        0int
    } else if n as int > dl.len() - 1 {
        dl.len() - 1
    } else {
        n as int
    };
    proof {
        assert(k as int == ks);
    }
    let mut nodes: Vec<(i32, NodeData)> = Vec::new();
    let mut j: usize = 1;
    proof {
        assert(nodes_model(nodes@) =~= Seq::<(i32, NodeDataModel)>::empty());
        assert(dl.subrange(1, 1 + k as int) =~= dl.subrange(1, 1 + k as int));
    }
    while j <= k
        invariant
            1 <= j <= k + 1,
            k < lines@.len(),
            k < usize::MAX,
            lines@.map_values(|l: &str| l@) == dl,
            table_unique(nodes_model(nodes@)),
            parse_node_lines(dl.subrange(1, 1 + k as int), Seq::empty()) == parse_node_lines(
                dl.subrange(j as int, 1 + k as int),
                nodes_model(nodes@),
            ),
            spec_parse_config(text@) == (match parse_node_lines(
                dl.subrange(1, 1 + k as int),
                Seq::empty(),
            ) {
                Err(e) => Err(e),
                Ok(tbl) => match parse_edge_lines(dl.skip(1 + k as int), tbl) {
                    Err(e) => Err(e),
                    Ok(res) => Ok(ConfigModel { nodes: sort_tables(res.0), leader: res.1 }),
                },
            }),
        decreases k + 1 - j,
    {
        let ghost seg = dl.subrange(j as int, 1 + k as int);
        proof {
            assert(seg[0] == dl[j as int]);
            assert(dl[j as int] == lines@[j as int]@);
            assert(seg.skip(1) =~= dl.subrange(j + 1, 1 + k as int));
        }
        match parse_node_line_exec(lines[j]) {
            Err(e) => {
                return Err(e);
            },
            Ok(p) => {
                let (id, d) = p;
                table_put_exec(&mut nodes, id, d);
            },
        }
        j = j + 1;
    }
    proof {
        assert(dl.subrange(j as int, 1 + k as int) =~= Seq::<Seq<char>>::empty());
    }
    let ghost nodes0 = nodes_model(nodes@);
    let mut i: usize = k + 1;
    while i < lines.len()
        invariant
            k + 1 <= i <= lines@.len(),
            lines@.map_values(|l: &str| l@) == dl,
            table_unique(nodes_model(nodes@)),
            parse_edge_lines(dl.skip(1 + k as int), nodes0) == parse_edge_lines(
                dl.skip(i as int),
                nodes_model(nodes@),
            ),
            spec_parse_config(text@) == (match parse_edge_lines(dl.skip(1 + k as int), nodes0) {
                Err(e) => Err(e),
                Ok(res) => Ok(ConfigModel { nodes: sort_tables(res.0), leader: res.1 }),
            }),
        decreases lines@.len() - i,
    {
        let ghost seg = dl.skip(i as int);
        proof {
            assert(seg[0] == dl[i as int]);
            assert(dl[i as int] == lines@[i as int]@);
            assert(seg.skip(1) =~= dl.skip(i + 1));
            assert(lines@[i as int]@.skip(0) =~= lines@[i as int]@);
        }
        let toks = split_tokens_from(lines[i], 0);
        let ghost tm = split_tokens(dl[i as int]);
        if toks.len() == 0 {
            return Err(ConfigError::BadEdgeShape);
        }
        proof {
            assert(tm[0] == toks@[0]@);
        }
        let first = trim_parens_str(toks[0]);
        proof {
            assert(first@.skip(0) =~= first@);
        }
        let segs = split_commas_from(first, 0);
        let ids = match parse_ids_from(&segs, 0) {
            Err(e) => {
                proof {
                    assert(segs@.map_values(|t: &str| t@).skip(0) =~= segs@.map_values(
                        |t: &str| t@,
                    ));
                }
                return Err(e);
            },
            Ok(v) => {
                proof {
                    assert(segs@.map_values(|t: &str| t@).skip(0) =~= segs@.map_values(
                        |t: &str| t@,
                    ));
                }
                v
            },
        };
        if ids.len() == 1 {
            let leader = ids[0];
            let mut q: usize = 0;
            let ghost found = nodes_model(nodes@);
            while q < nodes.len()
                invariant
                    q <= nodes@.len(),
                    nodes_model(nodes@).len() == found.len(),
                    forall|m: int|
                        q <= m < found.len() ==> nodes_model(nodes@)[m] == found[m],
                    forall|m: int|
                        0 <= m < q ==> nodes_model(nodes@)[m] == sort_tables(found)[m],
                decreases nodes@.len() - q,
            {
                let ghost before = nodes@;
                let entry = &mut nodes[q];
                sort_edges_exec(&mut entry.1.edges);
                proof {
                    assert(nodes_model(nodes@) =~= nodes_model(before).update(
                        q as int,
                        (
                            before[q as int].0,
                            NodeDataModel {
                                edges: sort_edges(node_data_model(before[q as int].1).edges),
                                ..node_data_model(before[q as int].1)
                            },
                        ),
                    ));
                    assert(sort_tables(found)[q as int] == (
                        found[q as int].0,
                        NodeDataModel { edges: sort_edges(found[q as int].1.edges), ..found[
                            q as int
                        ].1 },
                    ));
                }
                q = q + 1;
            }
            proof {
                assert(nodes_model(nodes@) =~= sort_tables(found));
            }
            return Ok((nodes, leader));
        }
        if ids.len() != 2 {
            return Err(ConfigError::BadEdgeShape);
        }
        if toks.len() < 2 {
            return Err(ConfigError::MissingWeight);
        }
        proof {
            assert(tm[1] == toks@[1]@);
        }
        let w = match parse_i32(toks[1]) {
            None => {
                return Err(ConfigError::BadWeight);
            },
            Some(x) => x,
        };
        let u = ids[0];
        let t = ids[1];
        let has_u = table_has_exec(&nodes, u);
        let has_t = table_has_exec(&nodes, t);
        if !has_u || !has_t {
            return Err(ConfigError::UnknownEndpoint);
        }
        proof {
            lemma_table_add_edge_keys(nodes_model(nodes@), u, t, w);
        }
        table_add_edge_exec(&mut nodes, u, t, w);
        table_add_edge_exec(&mut nodes, t, u, w);
        i = i + 1;
    }
    proof {
        assert(dl.skip(i as int) =~= Seq::<Seq<char>>::empty());
    }
    Err(ConfigError::NoLeader)
}

} // verus!
