//! Diagnostics: errors of every phase rendered against the source, with the line and a
//! caret under the blamed bytes.

use vstd::prelude::*;
use vstd::string::StringSliceAdditionalSpecFns;

use crate::check::error::{type_error_text, TypeError, TypeErrorKind};
use crate::elaborate::error::ElaborateError;
use crate::elaborate::lowering::{
    first_key, lemma_first_key_bounds, spans_bounded, SpanTable, SpanTableM,
};
use crate::surface::ast::Span;
use crate::surface::parser::ParseError;
use crate::text::{chars_of, decimal, decimal_m, owned, push, push_char, utf8_lossy, utf8_lossy_string};

verus! {

broadcast use vstd::std_specs::vec::group_vec_axioms, vstd::seq::group_seq_axioms;

/// How a run ends: success, diagnostics for the user, or an internal failure.
#[derive(Debug, Clone, Copy, PartialEq, Eq, Structural)]
pub enum ExitCode {
    Success,
    Diagnostics,
    Internal,
}

pub open spec fn exit_code_m(c: ExitCode) -> i32 {
    match c {
        ExitCode::Success => 0,
        ExitCode::Diagnostics => 1,
        ExitCode::Internal => 2,
    }
}

impl ExitCode {
    /// The process exit status.
    pub fn code(self) -> (r: i32)
        ensures
            r == exit_code_m(self),
    {
        match self {
            ExitCode::Success => 0,
            ExitCode::Diagnostics => 1,
            ExitCode::Internal => 2,
        }
    }
}

// ---------------------------------------------------------------------------------------
// Lines of the source.
pub open spec fn newline_count(b: Seq<u8>) -> nat
    decreases b.len(),
{
    if b.len() == 0 {
        0
    } else {
        newline_count(b.drop_last()) + if b.last() == 10 {
            1nat
        } else {
            0nat
        }
    }
}

/// Where the last line of `b` starts: just after its last newline.
pub open spec fn line_start_m(b: Seq<u8>) -> int
    decreases b.len(),
{
    if b.len() == 0 {
        0
    } else if b.last() == 10 {
        b.len() as int
    } else {
        line_start_m(b.drop_last())
    }
}

/// The first newline of `b` at or after `from`, or the end.
pub open spec fn line_end_m(b: Seq<u8>, from: int) -> int
    decreases b.len() - from,
{
    if from >= b.len() || from < 0 {
        b.len() as int
    } else if b[from] == 10 {
        from
    } else {
        line_end_m(b, from + 1)
    }
}

pub open spec fn sat_sub(a: int, b: int) -> int {
    if a > b {
        a - b
    } else {
        0
    }
}

/// The line (from one) and column (from one, in bytes) of `offset`, and the bounds of its
/// line.
pub open spec fn line_info_m(src: Seq<u8>, offset: usize) -> (int, int, int, int) {
    let upto = if offset < src.len() {
        offset as int
    } else {
        src.len() as int
    };
    let prefix = src.subrange(0, upto);
    let ls = line_start_m(prefix);
    ((1 + newline_count(prefix)) as int, sat_sub(offset as int, ls) + 1, ls, line_end_m(src, ls))
}

pub open spec fn repeat_m(c: char, n: int) -> Seq<char> {
    Seq::new(if n > 0 {
        n as nat
    } else {
        0
    }, |i: int| c)
}

/// A number right-aligned in two columns.
pub open spec fn pad2_m(s: Seq<char>) -> Seq<char> {
    if s.len() < 2 {
        repeat_m(' ', 2 - s.len()) + s
    } else {
        s
    }
}

/// A diagnostic with its kind (`error` or `note`), the message, the file position, the
/// source line and a caret under the span (at least one, at most to the end of the line).
pub open spec fn render_m(kind: Seq<char>, path: Seq<char>, src: Seq<u8>, span: Span, message: Seq<char>) -> Seq<char> {
    let (line_no, col_no, ls, le) = line_info_m(src, span.start);
    let line = utf8_lossy(src.subrange(ls, le));
    let line_len = le - ls;
    let caret_start = if sat_sub(span.start as int, ls) < line_len {
        sat_sub(span.start as int, ls)
    } else {
        line_len
    };
    let want = if sat_sub(span.end as int, span.start as int) > 1 {
        sat_sub(span.end as int, span.start as int)
    } else {
        1
    };
    let room = if sat_sub(line_len, caret_start) > 1 {
        sat_sub(line_len, caret_start)
    } else {
        1
    };
    let caret_len = if want < room {
        want
    } else {
        room
    };
    kind + ": "@ + message + "\n --> "@ + path + ":"@ + decimal_m(line_no as nat) + ":"@
        + decimal_m(col_no as nat) + "\n  |\n"@ + pad2_m(decimal_m(line_no as nat)) + " | "@ + line
        + "\n  | "@ + repeat_m(' ', caret_start) + repeat_m('^', caret_len) + "\n"@
}

proof fn lemma_line_start_bound(b: Seq<u8>)
    ensures
        0 <= line_start_m(b) <= b.len(),
        newline_count(b) <= b.len(),
    decreases b.len(),
{
    if b.len() > 0 {
        lemma_line_start_bound(b.drop_last());
    }
}

proof fn lemma_line_end_bound(b: Seq<u8>, from: int)
    requires
        0 <= from <= b.len(),
    ensures
        from <= line_end_m(b, from) <= b.len(),
    decreases b.len() - from,
{
    if from < b.len() && b[from] != 10 {
        lemma_line_end_bound(b, from + 1);
    }
}

/// Line number, column, and line bounds of `offset` in `src`.
fn line_info(src: &[u8], offset: usize) -> (r: (usize, usize, usize, usize))
    requires
        offset < usize::MAX,
    ensures
        r.0 as int == line_info_m(src@, offset).0,
        r.1 as int == line_info_m(src@, offset).1,
        r.2 as int == line_info_m(src@, offset).2,
        r.3 as int == line_info_m(src@, offset).3,
        r.2 <= r.3 <= src@.len(),
{
    let upto = if offset < src.len() {
        offset
    } else {
        src.len()
    };
    let mut line_no: usize = 1;
    let mut line_start: usize = 0;
    let mut idx: usize = 0;
    proof {
        assert(src@.subrange(0, 0) =~= Seq::<u8>::empty());
    }
    while idx < upto
        invariant
            idx <= upto <= src@.len(),
            line_no as int == 1 + newline_count(src@.subrange(0, idx as int)),
            line_start as int == line_start_m(src@.subrange(0, idx as int)),
            line_start <= idx,
            line_no <= idx + 1,
            upto <= offset < usize::MAX,
        decreases upto - idx,
    {
        proof {
            let next = src@.subrange(0, idx as int + 1);
            assert(next.drop_last() =~= src@.subrange(0, idx as int));
            assert(next.last() == src@[idx as int]);
            lemma_line_start_bound(src@.subrange(0, idx as int));
        }
        if src[idx] == 10 {
            line_no = line_no + 1;
            line_start = idx + 1;
        }
        idx += 1;
    }
    let mut line_end: usize = line_start;
    proof {
        assert(line_end_m(src@, line_start as int) == line_end_m(src@, line_start as int));
    }
    while line_end < src.len() && src[line_end] != 10
        invariant
            line_start <= line_end <= src@.len(),
            line_end_m(src@, line_start as int) == line_end_m(src@, line_end as int),
        decreases src@.len() - line_end,
    {
        line_end += 1;
    }
    let col = if offset > line_start {
        offset - line_start
    } else {
        0
    };
    (line_no, col + 1, line_start, line_end)
}

fn push_repeat(out: &mut String, c: char, n: usize)
    ensures
        final(out)@ == old(out)@ + repeat_m(c, n as int),
{
    let mut i: usize = 0;
    while i < n
        invariant
            i <= n,
            out@ == old(out)@ + repeat_m(c, i as int),
        decreases n - i,
    {
        let ghost before = out@;
        push_char(out, c);
        proof {
            assert(repeat_m(c, i as int + 1) =~= repeat_m(c, i as int).push(c));
            assert(out@ =~= old(out)@ + repeat_m(c, i as int + 1));
        }
        i += 1;
    }
}

/// Renders one diagnostic of kind `kind` at `span`.
fn render(kind: &str, path: &str, src: &str, span: Span, message: &str) -> (r: String)
    requires
        span.start < usize::MAX,
    ensures
        r@ == render_m(kind@, path@, src.spec_bytes(), span, message@),
{
    let bytes = src.as_bytes();
    let (line_no, col_no, ls, le) = line_info(bytes, span.start);
    let line = utf8_lossy_string(bytes, ls, le);
    let line_len = le - ls;
    let from_start = if span.start > ls {
        span.start - ls
    } else {
        0
    };
    let caret_start = if from_start < line_len {
        from_start
    } else {
        line_len
    };
    let width = if span.end > span.start {
        span.end - span.start
    } else {
        0
    };
    let want = if width > 1 {
        width
    } else {
        1
    };
    let left = line_len - caret_start;
    let room = if left > 1 {
        left
    } else {
        1
    };
    let caret_len = if want < room {
        want
    } else {
        room
    };
    let line_text = decimal(line_no as u64);
    let mut out = owned(kind);
    push(&mut out, ": ");
    push(&mut out, message);
    push(&mut out, "\n --> ");
    push(&mut out, path);
    push(&mut out, ":");
    push(&mut out, line_text.as_str());
    push(&mut out, ":");
    let col_text = decimal(col_no as u64);
    push(&mut out, col_text.as_str());
    push(&mut out, "\n  |\n");
    let digits = chars_of(line_text.as_str()).len();
    if digits < 2 {
        push_repeat(&mut out, ' ', 2 - digits);
    }
    push(&mut out, line_text.as_str());
    push(&mut out, " | ");
    push(&mut out, line.as_str());
    push(&mut out, "\n  | ");
    push_repeat(&mut out, ' ', caret_start);
    push_repeat(&mut out, '^', caret_len);
    push(&mut out, "\n");
    out
}

// ---------------------------------------------------------------------------------------
// Searching messages.
/// `pat` occurs in `s` at `i`.
pub open spec fn occurs_at(s: Seq<char>, pat: Seq<char>, i: int) -> bool {
    0 <= i && i + pat.len() <= s.len() && s.subrange(i, i + pat.len()) == pat
}

/// The first occurrence of `pat` in `s` at or after `from`.
pub open spec fn find_from_m(s: Seq<char>, pat: Seq<char>, from: int) -> Option<int>
    decreases s.len() - from,
{
    if from < 0 || from + pat.len() > s.len() {
        None
    } else if occurs_at(s, pat, from) {
        Some(from)
    } else {
        proof {
            if pat.len() == 0 {
                assert(s.subrange(from, from) =~= pat);
            }
        }
        find_from_m(s, pat, from + 1)
    }
}

pub open spec fn find_m(s: Seq<char>, pat: Seq<char>) -> Option<int> {
    find_from_m(s, pat, 0)
}

pub proof fn lemma_find_valid(s: Seq<char>, pat: Seq<char>, from: int)
    ensures
        find_from_m(s, pat, from) matches Some(i) ==> from <= i && occurs_at(s, pat, i),
    decreases s.len() - from,
{
    if !(from < 0 || from + pat.len() > s.len()) && !occurs_at(s, pat, from) {
        if pat.len() == 0 {
            assert(s.subrange(from, from) =~= pat);
        }
        lemma_find_valid(s, pat, from + 1);
    }
}

/// `s` from `pos` on with every occurrence of `pat` replaced by `to`, left to right.
pub open spec fn replace_from_m(s: Seq<char>, pat: Seq<char>, to: Seq<char>, pos: int) -> Seq<char>
    decreases s.len() - pos,
{
    if pat.len() == 0 || pos < 0 || pos > s.len() {
        s.subrange(if 0 <= pos <= s.len() {
            pos
        } else {
            s.len() as int
        }, s.len() as int)
    } else {
        match find_from_m(s, pat, pos) {
            None => s.subrange(pos, s.len() as int),
            Some(i) => {
                proof {
                    lemma_find_valid(s, pat, pos);
                }
                s.subrange(pos, i) + to + replace_from_m(s, pat, to, i + pat.len())
            },
        }
    }
}

/// `s` with every occurrence of `pat` replaced by `to` (`str::replace`).
pub open spec fn replace_all_m(s: Seq<char>, pat: Seq<char>, to: Seq<char>) -> Seq<char> {
    replace_from_m(s, pat, to, 0)
}

/// `s` up to the first occurrence of `pat` (the first piece of `str::split`).
pub open spec fn split_first_m(s: Seq<char>, pat: Seq<char>) -> Seq<char> {
    match find_m(s, pat) {
        Some(i) => s.subrange(0, i),
        None => s,
    }
}

fn occurs(s: &Vec<char>, pat: &Vec<char>, i: usize) -> (r: bool)
    requires
        i + pat@.len() <= s@.len(),
    ensures
        r == occurs_at(s@, pat@, i as int),
{
    let n = s.len();
    let mut k: usize = 0;
    while k < pat.len()
        invariant
            k <= pat@.len(),
            i + pat@.len() <= s@.len(),
            n == s@.len(),
            forall|j: int| 0 <= j < k ==> s@[i + j] == pat@[j],
        decreases pat@.len() - k,
    {
        if s[i + k] != pat[k] {
            proof {
                assert(s@.subrange(i as int, i + pat@.len())[k as int] != pat@[k as int]);
            }
            return false;
        }
        k += 1;
    }
    proof {
        assert(s@.subrange(i as int, i + pat@.len()) =~= pat@);
    }
    true
}

/// The first occurrence of `pat` in `s` at or after `from`.
fn find_from(s: &Vec<char>, pat: &Vec<char>, from: usize) -> (r: Option<usize>)
    ensures
        match find_from_m(s@, pat@, from as int) {
            Some(i) => r == Some(i as usize),
            None => r is None,
        },
{
    let mut i: usize = from;
    while i <= s.len() && pat.len() <= s.len() - i
        invariant
            from <= i,
            find_from_m(s@, pat@, from as int) == find_from_m(s@, pat@, i as int),
        decreases s@.len() + 1 - i,
    {
        if occurs(s, pat, i) {
            return Some(i);
        }
        proof {
            if pat@.len() == 0 {
                assert(s@.subrange(i as int, i as int) =~= pat@);
            }
        }
        i += 1;
    }
    None
}

/// The characters `cs[start..end]` as a `String`.
fn text_of(cs: &Vec<char>, start: usize, end: usize) -> (r: String)
    requires
        start <= end <= cs@.len(),
    ensures
        r@ == cs@.subrange(start as int, end as int),
{
    let mut out = String::new();
    let mut i: usize = start;
    while i < end
        invariant
            start <= i <= end <= cs@.len(),
            out@ == cs@.subrange(start as int, i as int),
        decreases end - i,
    {
        push_char(&mut out, cs[i]);
        proof {
            assert(out@ =~= cs@.subrange(start as int, i as int + 1));
        }
        i += 1;
    }
    out
}

fn replace_all(s: &Vec<char>, pat: &Vec<char>, to: &str) -> (r: String)
    requires
        pat@.len() > 0,
    ensures
        r@ == replace_all_m(s@, pat@, to@),
{
    let mut out = String::new();
    let mut pos: usize = 0;
    let n = s.len();
    loop
        invariant
            n == s@.len(),
            pat@.len() > 0,
            pos <= s@.len(),
            out@ + replace_from_m(s@, pat@, to@, pos as int) == replace_all_m(s@, pat@, to@),
        decreases s@.len() - pos,
    {
        let ghost fi = find_from_m(s@, pat@, pos as int);
        proof {
            lemma_find_valid(s@, pat@, pos as int);
        }
        match find_from(s, pat, pos) {
            None => {
                let rest = text_of(s, pos, s.len());
                push(&mut out, rest.as_str());
                return out;
            },
            Some(i) => {
                assert(fi == Some(i as int));
                assert(pos <= i && i + pat@.len() <= s@.len());
                let piece = text_of(s, pos, i);
                let ghost before = out@;
                push(&mut out, piece.as_str());
                push(&mut out, to);
                proof {
                    assert(before + replace_from_m(s@, pat@, to@, pos as int) == before + (piece@ + to@
                        + replace_from_m(s@, pat@, to@, i + pat@.len())));
                    assert(out@ + replace_from_m(s@, pat@, to@, i + pat@.len()) =~= before + (piece@
                        + to@ + replace_from_m(s@, pat@, to@, i + pat@.len())));
                }
                pos = i + pat.len();
            },
        }
    }
}

// ---------------------------------------------------------------------------------------
// Numbers in messages.
pub open spec fn is_digit(c: char) -> bool {
    '0' <= c <= '9'
}

pub open spec fn digits_value(d: Seq<char>) -> nat
    decreases d.len(),
{
    if d.len() == 0 {
        0
    } else {
        digits_value(d.drop_last()) * 10 + ((d.last() as int - '0' as int) as nat)
    }
}

/// `str::parse::<usize>`: an optional `+`, then decimal digits, no more than `usize::MAX`.
pub open spec fn parse_usize_m(s: Seq<char>) -> Option<usize> {
    parse_usize_m_digits(
        if s.len() > 0 && s[0] == '+' {
            s.drop_first()
        } else {
            s
        },
    )
}

pub open spec fn parse_usize_m_digits(d: Seq<char>) -> Option<usize> {
    if d.len() == 0 || !(forall|i: int| 0 <= i < d.len() ==> is_digit(#[trigger] d[i])) {
        None
    } else if digits_value(d) > usize::MAX {
        None
    } else {
        Some(digits_value(d) as usize)
    }
}

proof fn lemma_digits_mono(d: Seq<char>, k: int)
    requires
        0 <= k <= d.len(),
        forall|i: int| 0 <= i < d.len() ==> is_digit(#[trigger] d[i]),
    ensures
        digits_value(d.subrange(0, k)) <= digits_value(d),
    decreases d.len() - k,
{
    if k < d.len() {
        let next = d.subrange(0, k + 1);
        assert(next.drop_last() =~= d.subrange(0, k));
        assert(is_digit(d[k]));
        lemma_digits_mono(d, k + 1);
    } else {
        assert(d.subrange(0, k) =~= d);
    }
}

fn parse_usize(cs: &Vec<char>, start: usize, end: usize) -> (r: Option<usize>)
    requires
        start <= end <= cs@.len(),
    ensures
        r == parse_usize_m(cs@.subrange(start as int, end as int)),
{
    let ghost s = cs@.subrange(start as int, end as int);
    let mut i = start;
    if i < end && cs[i] == '+' {
        i += 1;
    }
    let ghost d = cs@.subrange(i as int, end as int);
    proof {
        if s.len() > 0 && s[0] == '+' {
            assert(s.drop_first() =~= d);
        } else {
            assert(s =~= d);
        }
        assert(parse_usize_m(s) == parse_usize_m_digits(d));
    }
    if i == end {
        return None;
    }
    let first = i;
    let mut value: usize = 0;
    proof {
        assert(d.subrange(0, 0) =~= Seq::<char>::empty());
    }
    while i < end
        invariant
            first <= i <= end <= cs@.len(),
            d == cs@.subrange(first as int, end as int),
            s == cs@.subrange(start as int, end as int),
            parse_usize_m(s) == parse_usize_m_digits(d),
            forall|j: int| 0 <= j < i - first ==> is_digit(#[trigger] d[j]),
            value as nat == digits_value(d.subrange(0, i - first)),
        decreases end - i,
    {
        let c = cs[i];
        if !('0' <= c && c <= '9') {
            proof {
                assert(!is_digit(d[i - first]));
            }
            return None;
        }
        let digit: usize = if c == '0' {
            0
        } else if c == '1' {
            1
        } else if c == '2' {
            2
        } else if c == '3' {
            3
        } else if c == '4' {
            4
        } else if c == '5' {
            5
        } else if c == '6' {
            6
        } else if c == '7' {
            7
        } else if c == '8' {
            8
        } else {
            9
        };
        proof {
            let next = d.subrange(0, i - first + 1);
            assert(next.drop_last() =~= d.subrange(0, i - first));
            assert(next.last() == c);
            assert(digit == (c as int - '0' as int)) by {
                assert('0' as int == 48);
            }
        }
        let ghost before = value as nat;
        let ghost next_value = digits_value(d.subrange(0, i - first + 1));
        proof {
            assert(next_value == before * 10 + digit);
        }
        match value.checked_mul(10) {
            None => {
                proof {
                    assert(before * 10 > usize::MAX);
                    if forall|j: int| 0 <= j < d.len() ==> is_digit(#[trigger] d[j]) {
                        lemma_digits_mono(d, i - first + 1);
                        assert(digits_value(d) > usize::MAX);
                    }
                }
                return None;
            },
            Some(v) => match v.checked_add(digit) {
                None => {
                    proof {
                        assert(before * 10 + digit > usize::MAX);
                        if forall|j: int| 0 <= j < d.len() ==> is_digit(#[trigger] d[j]) {
                            lemma_digits_mono(d, i - first + 1);
                            assert(digits_value(d) > usize::MAX);
                        }
                    }
                    return None;
                },
                Some(w) => {
                    value = w;
                },
            },
        }
        i += 1;
    }
    proof {
        assert(d.subrange(0, d.len() as int) =~= d);
    }
    Some(value)
}

// ---------------------------------------------------------------------------------------
// Messages of reused unique values.
/// A message that names both uses of a unique value by byte ranges is shortened to its text:
/// the ranges go, and the first use is labelled as both.
pub open spec fn sanitize_m(m: Seq<char>) -> Seq<char> {
    if find_m(m, "consumed here -> bytes "@) is Some && find_m(m, "; used again here -> bytes "@) is Some {
        replace_all_m(split_first_m(m, " -> bytes "@), "consumed here"@, "consumed here; used again here"@)
    } else {
        m
    }
}

/// The byte range of the first use, read back from such a message.
pub open spec fn consumed_span_m(m: Seq<char>) -> Option<Span> {
    let marker = "consumed here -> bytes "@;
    match find_m(m, marker) {
        None => None,
        Some(i) => {
            let start = i + marker.len();
            match find_from_m(m, ".."@, start) {
                None => None,
                Some(j) => {
                    let after = j + 2;
                    let hi_end = match find_from_m(m, ";"@, after) {
                        Some(k) => k,
                        None => m.len() as int,
                    };
                    match (parse_usize_m(m.subrange(start, j)), parse_usize_m(m.subrange(after, hi_end))) {
                        (Some(lo), Some(hi)) => Some(Span { start: lo, end: hi }),
                        _ => None,
                    }
                },
            }
        },
    }
}

fn chars_lit(s: &str) -> (r: Vec<char>)
    ensures
        r@ == s@,
{
    chars_of(s)
}

fn sanitize_consumption_message(message: &str) -> (r: String)
    ensures
        r@ == sanitize_m(message@),
{
    let m = chars_of(message);
    let first = chars_lit("consumed here -> bytes ");
    let again = chars_lit("; used again here -> bytes ");
    let sep = chars_lit(" -> bytes ");
    let n = m.len();
    if find_from(&m, &first, 0).is_some() && find_from(&m, &again, 0).is_some() {
        let before = match find_from(&m, &sep, 0) {
            Some(i) => {
                proof {
                    lemma_find_valid(m@, sep@, 0);
                }
                text_of(&m, 0, i)
            },
            None => text_of(&m, 0, n),
        };
        proof {
            assert(m@.subrange(0, n as int) =~= m@);
        }
        let b = chars_of(before.as_str());
        let pat = chars_lit("consumed here");
        proof {
            reveal_strlit("consumed here");
        }
        return replace_all(&b, &pat, "consumed here; used again here");
    }
    owned(message)
}

fn consumed_span_from_message(message: &str) -> (r: Option<Span>)
    ensures
        r == consumed_span_m(message@),
{
    let m = chars_of(message);
    let n = m.len();
    let marker = chars_lit("consumed here -> bytes ");
    proof {
        reveal_strlit("consumed here -> bytes ");
    }
    let i = match find_from(&m, &marker, 0) {
        None => {
            return None;
        },
        Some(i) => i,
    };
    proof {
        lemma_find_valid(m@, marker@, 0);
    }
    let start = i + marker.len();
    let dots = chars_lit("..");
    proof {
        reveal_strlit("..");
    }
    let j = match find_from(&m, &dots, start) {
        None => {
            return None;
        },
        Some(j) => j,
    };
    proof {
        lemma_find_valid(m@, dots@, start as int);
    }
    let after = j + 2;
    let semi = chars_lit(";");
    let hi_end = match find_from(&m, &semi, after) {
        Some(k) => {
            proof {
                lemma_find_valid(m@, semi@, after as int);
            }
            k
        },
        None => n,
    };
    let lo = parse_usize(&m, start, j);
    let hi = parse_usize(&m, after, hi_end);
    match (lo, hi) {
        (Some(a), Some(b)) => Some(Span { start: a, end: b }),
        _ => None,
    }
}

// ---------------------------------------------------------------------------------------
// Errors with a place in the source.
/// An error that can be shown against the source: its span and message, and possibly a
/// second span with a label.
pub trait SourceError {
    spec fn span_m(&self) -> Span;

    spec fn message_m(&self) -> Seq<char>;

    spec fn secondary_m(&self) -> Option<(Span, Seq<char>)>;

    fn span(&self) -> (r: Span)
        ensures
            r == self.span_m(),
    ;

    fn message(&self) -> (r: String)
        ensures
            r@ == self.message_m(),
    ;

    fn secondary_span(&self) -> (r: Option<(Span, String)>)
        ensures
            match self.secondary_m() {
                None => r is None,
                Some((sp, label)) => r matches Some(x) && x.0 == sp && x.1@ == label,
            },
    ;
}

impl SourceError for ParseError {
    open spec fn span_m(&self) -> Span {
        self.span
    }

    open spec fn message_m(&self) -> Seq<char> {
        self.message@
    }

    open spec fn secondary_m(&self) -> Option<(Span, Seq<char>)> {
        None
    }

    fn span(&self) -> (r: Span) {
        self.span
    }

    fn message(&self) -> (r: String) {
        owned(self.message.as_str())
    }

    fn secondary_span(&self) -> (r: Option<(Span, String)>) {
        None
    }
}

impl SourceError for ElaborateError {
    open spec fn span_m(&self) -> Span {
        self.span
    }

    open spec fn message_m(&self) -> Seq<char> {
        sanitize_m(self.message@)
    }

    open spec fn secondary_m(&self) -> Option<(Span, Seq<char>)> {
        match consumed_span_m(self.message@) {
            Some(sp) => Some((sp, "first consumption here"@)),
            None => None,
        }
    }

    fn span(&self) -> (r: Span) {
        self.span
    }

    fn message(&self) -> (r: String) {
        sanitize_consumption_message(self.message.as_str())
    }

    fn secondary_span(&self) -> (r: Option<(Span, String)>) {
        match consumed_span_from_message(self.message.as_str()) {
            Some(sp) => Some((sp, owned("first consumption here"))),
            None => None,
        }
    }
}

/// The rendering of a source error: the error, and a note at its second span if any.
pub open spec fn source_error_text<E: SourceError>(path: Seq<char>, src: Seq<u8>, err: E) -> Seq<char> {
    render_m("error"@, path, src, err.span_m(), err.message_m()) + match err.secondary_m() {
        Some((sp, label)) => render_m("note"@, path, src, sp, label),
        None => Seq::empty(),
    }
}

/// Renders a lexer, parser or elaboration error against `src`, read from `path`.
pub fn render_source_error<E: SourceError>(path: &str, src: &str, err: &E) -> (r: String)
    requires
        err.span_m().start < usize::MAX,
        err.secondary_m() matches Some((sp, _)) ==> sp.start < usize::MAX,
    ensures
        r@ == source_error_text(path@, src.spec_bytes(), *err),
{
    let message = err.message();
    let mut rendered = render("error", path, src, err.span(), message.as_str());
    match err.secondary_span() {
        Some((span, label)) => {
            let note = render("note", path, src, span, label.as_str());
            push(&mut rendered, note.as_str());
        },
        None => {},
    }
    rendered
}

// ---------------------------------------------------------------------------------------
// Type errors, placed through the span table.
pub open spec fn term_span_m(t: SpanTableM, term: Seq<char>) -> Option<Span> {
    match first_key(t.terms, term) {
        Some(i) => Some(t.terms[i].1),
        None => None,
    }
}

pub open spec fn var_span_m(t: SpanTableM, name: Seq<char>) -> Option<Span> {
    match first_key(t.vars, name) {
        Some(i) => if t.vars[i].1.len() > 0 {
            Some(t.vars[i].1[0])
        } else {
            None
        },
        None => None,
    }
}

/// The first use of the continuation named between the first two backquotes of `message`.
pub open spec fn continuation_span_m(message: Seq<char>, t: SpanTableM) -> Option<Span> {
    match find_m(message, "`"@) {
        None => None,
        Some(i) => match find_from_m(message, "`"@, i + 1) {
            None => None,
            Some(j) => var_span_m(t, message.subrange(i + 1, j)),
        },
    }
}

/// Where a type error is shown: a continuation-usage error at the continuation it names,
/// else at the rejected term; the start of the file when neither is known.
pub open spec fn type_error_span_m(e: crate::check::error::TypeErrorM, t: SpanTableM) -> Span {
    let by_term = term_span_m(t, e.term);
    let found = match e.kind {
        crate::check::error::TypeErrorKindM::HandlerContinuationUsage(m) => match continuation_span_m(m, t) {
            Some(sp) => Some(sp),
            None => by_term,
        },
        _ => by_term,
    };
    match found {
        Some(sp) => sp,
        None => Span { start: 0, end: 0 },
    }
}

proof fn lemma_span_bounded(t: SpanTableM, e: crate::check::error::TypeErrorM)
    requires
        spans_bounded(t),
    ensures
        type_error_span_m(e, t).start < usize::MAX,
{
    lemma_first_key_bounds(t.terms, e.term);
    match e.kind {
        crate::check::error::TypeErrorKindM::HandlerContinuationUsage(m) => {
            match find_m(m, "`"@) {
                Some(i) => match find_from_m(m, "`"@, i + 1) {
                    Some(j) => {
                        let name = m.subrange(i + 1, j);
                        lemma_first_key_bounds(t.vars, name);
                        match first_key(t.vars, name) {
                            Some(x) => if t.vars[x].1.len() > 0 {
                                assert(t.vars[x].1[0].start < usize::MAX);
                            },
                            None => {},
                        }
                    },
                    None => {},
                },
                None => {},
            }
        },
        _ => {},
    }
}

fn continuation_span(message: &str, spans: &SpanTable) -> (r: Option<Span>)
    ensures
        r == continuation_span_m(message@, spans@),
{
    let m = chars_of(message);
    let n = m.len();
    let tick = chars_lit("`");
    proof {
        reveal_strlit("`");
    }
    let i = match find_from(&m, &tick, 0) {
        None => {
            return None;
        },
        Some(i) => i,
    };
    proof {
        lemma_find_valid(m@, tick@, 0);
    }
    let j = match find_from(&m, &tick, i + 1) {
        None => {
            return None;
        },
        Some(j) => j,
    };
    proof {
        lemma_find_valid(m@, tick@, i + 1);
    }
    let name = text_of(&m, i + 1, j);
    spans.span_for_var(name.as_str())
}

/// Renders a type error of the core checker against `src`, placed through `spans`.
pub fn render_type_error(path: &str, src: &str, err: &TypeError, spans: &SpanTable) -> (r: String)
    requires
        spans_bounded(spans@),
    ensures
        r@ == render_m("error"@, path@, src.spec_bytes(), type_error_span_m(err@, spans@), type_error_text(err@)),
{
    let by_term = spans.span_for_term_string(err.term.as_str());
    let found = match &*err.kind {
        TypeErrorKind::HandlerContinuationUsage(message) => match continuation_span(message.as_str(), spans) {
            Some(sp) => Some(sp),
            None => by_term,
        },
        _ => by_term,
    };
    let span = match found {
        Some(sp) => sp,
        None => Span::new(0, 0),
    };
    proof {
        lemma_span_bounded(spans@, err@);
    }
    let text = err.to_text();
    render("error", path, src, span, text.as_str())
}

} // verus!
