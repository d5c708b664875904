//! The decisions of the `atli` command line: how values are shown, the directives of example
//! files, and the verdicts of the example runner on the outputs it collected.

use vstd::prelude::*;

use crate::core_ast::{Term, TermM};
use crate::core_text::term_text;
use crate::diagnostics::{find_from_m, find_m, lemma_find_valid};
use crate::text::{chars_of, decimal, decimal_m, owned, push, push_char};

verus! {

broadcast use vstd::std_specs::vec::group_vec_axioms, vstd::seq::group_seq_axioms;

// ---------------------------------------------------------------------------------------
// Values.
/// The number a numeral `succ(…succ(zero))` denotes.
pub open spec fn numeral_m(t: TermM) -> Option<nat>
    decreases t,
{
    match t {
        TermM::Zero => Some(0),
        TermM::Succ(inner) => match numeral_m(*inner) {
            Some(n) => Some(n + 1),
            None => None,
        },
        _ => None,
    }
}

/// The number of a numeral that fits in a `u64`.
pub fn nat_value(term: &Term) -> (r: Option<u64>)
    ensures
        match numeral_m(term@) {
            Some(n) => if n <= u64::MAX {
                r == Some(n as u64)
            } else {
                r is None
            },
            None => r is None,
        },
    decreases term,
{
    match term {
        Term::Zero => Some(0),
        Term::Succ(inner) => match nat_value(inner) {
            Some(v) => v.checked_add(1),
            None => None,
        },
        _ => None,
    }
}

/// What `run` prints for a value: a numeral as its number, anything else as a term.
pub open spec fn value_text_m(t: TermM) -> Seq<char> {
    match numeral_m(t) {
        Some(n) => if n <= u64::MAX {
            decimal_m(n)
        } else {
            term_text(t)
        },
        None => term_text(t),
    }
}

pub fn render_value(term: &Term) -> (r: String)
    ensures
        r@ == value_text_m(term@),
{
    match nat_value(term) {
        Some(v) => decimal(v),
        None => term.to_text(),
    }
}

// ---------------------------------------------------------------------------------------
// Text helpers.
/// `char::is_whitespace`: the characters with the Unicode `White_Space` property.
pub open spec fn is_space(c: char) -> bool {
    ||| c == '\t' || c == '\n' || c == '\u{0B}' || c == '\u{0C}' || c == '\r' || c == ' '
    ||| c == '\u{85}' || c == '\u{A0}' || c == '\u{1680}'
    ||| ('\u{2000}' <= c && c <= '\u{200A}')
    ||| c == '\u{2028}' || c == '\u{2029}' || c == '\u{202F}' || c == '\u{205F}' || c == '\u{3000}'
}

fn space(c: char) -> (r: bool)
    ensures
        r == is_space(c),
{
    c == '\t' || c == '\n' || c == '\u{0B}' || c == '\u{0C}' || c == '\r' || c == ' ' || c
        == '\u{85}' || c == '\u{A0}' || c == '\u{1680}' || ('\u{2000}' <= c && c <= '\u{200A}')
        || c == '\u{2028}' || c == '\u{2029}' || c == '\u{202F}' || c == '\u{205F}' || c
        == '\u{3000}'
}

/// `s` without its leading whitespace (`str::trim_start`).
pub open spec fn trim_start_m(s: Seq<char>) -> Seq<char>
    decreases s.len(),
{
    if s.len() > 0 && is_space(s[0]) {
        trim_start_m(s.drop_first())
    } else {
        s
    }
}

/// `s` without its trailing whitespace (`str::trim_end`).
pub open spec fn trim_end_m(s: Seq<char>) -> Seq<char>
    decreases s.len(),
{
    if s.len() > 0 && is_space(s.last()) {
        trim_end_m(s.drop_last())
    } else {
        s
    }
}

/// Where `trim_start_m` of `s[from..to]` begins.
fn skip_space(s: &Vec<char>, from: usize, to: usize) -> (r: usize)
    requires
        from <= to <= s@.len(),
    ensures
        from <= r <= to,
        trim_start_m(s@.subrange(from as int, to as int)) == s@.subrange(r as int, to as int),
{
    let mut i = from;
    while i < to && space(s[i])
        invariant
            from <= i <= to <= s@.len(),
            trim_start_m(s@.subrange(from as int, to as int)) == trim_start_m(s@.subrange(i as int, to as int)),
        decreases to - i,
    {
        proof {
            assert(s@.subrange(i as int, to as int).drop_first() =~= s@.subrange(i + 1, to as int));
        }
        i += 1;
    }
    i
}

/// Where `trim_end_m` of `s[from..to]` ends.
fn skip_space_back(s: &Vec<char>, from: usize, to: usize) -> (r: usize)
    requires
        from <= to <= s@.len(),
    ensures
        from <= r <= to,
        trim_end_m(s@.subrange(from as int, to as int)) == s@.subrange(from as int, r as int),
{
    let mut i = to;
    while i > from && space(s[i - 1])
        invariant
            from <= i <= to <= s@.len(),
            trim_end_m(s@.subrange(from as int, to as int)) == trim_end_m(s@.subrange(from as int, i as int)),
        decreases i,
    {
        proof {
            assert(s@.subrange(from as int, i as int).drop_last() =~= s@.subrange(from as int, i - 1));
        }
        i -= 1;
    }
    i
}

fn text_of(cs: &Vec<char>, start: usize, end: usize) -> (r: String)
    requires
        start <= end <= cs@.len(),
    ensures
        r@ == cs@.subrange(start as int, end as int),
{
    let mut out = String::new();
    let mut i: usize = start;
    while i < end
        invariant
            start <= i <= end <= cs@.len(),
            out@ == cs@.subrange(start as int, i as int),
        decreases end - i,
    {
        push_char(&mut out, cs[i]);
        proof {
            assert(out@ =~= cs@.subrange(start as int, i as int + 1));
        }
        i += 1;
    }
    out
}

/// Whether `s[at..]` starts with `pat`.
fn starts_with_at(s: &Vec<char>, at: usize, end: usize, pat: &Vec<char>) -> (r: bool)
    requires
        at <= end <= s@.len(),
    ensures
        r == (pat@.len() <= end - at && s@.subrange(at as int, at + pat@.len()) == pat@),
{
    if pat.len() > end - at {
        return false;
    }
    let mut k: usize = 0;
    while k < pat.len()
        invariant
            k <= pat@.len(),
            pat@.len() <= end - at,
            at <= end <= s@.len(),
            forall|j: int| 0 <= j < k ==> s@[at + j] == pat@[j],
        decreases pat@.len() - k,
    {
        if s[at + k] != pat[k] {
            proof {
                assert(s@.subrange(at as int, at + pat@.len())[k as int] != pat@[k as int]);
            }
            return false;
        }
        k += 1;
    }
    proof {
        assert(s@.subrange(at as int, at + pat@.len()) =~= pat@);
    }
    true
}

fn contains(s: &str, pat: &str) -> (r: bool)
    ensures
        r == (find_m(s@, pat@) is Some),
{
    let cs = chars_of(s);
    let ps = chars_of(pat);
    let n = cs.len();
    let mut i: usize = 0;
    while i <= n && ps.len() <= n - i
        invariant
            n == cs@.len(),
            cs@ == s@,
            ps@ == pat@,
            find_m(cs@, ps@) == find_from_m(cs@, ps@, i as int),
        decreases n + 1 - i,
    {
        if starts_with_at(&cs, i, n, &ps) {
            proof {
                assert(cs@.subrange(i as int, i + ps@.len()) == ps@);
                assert(crate::diagnostics::occurs_at(cs@, ps@, i as int));
                assert(find_from_m(cs@, ps@, i as int) == Some(i as int));
            }
            return true;
        }
        proof {
            if ps@.len() == 0 {
                assert(cs@.subrange(i as int, i as int) =~= ps@);
            }
        }
        i += 1;
    }
    false
}

// ---------------------------------------------------------------------------------------
// Directives of example files.
/// What an example file expects, from its leading comment lines.
#[derive(Debug, Default)]
pub struct TestDirectives {
    pub expect: Option<String>,
    pub expect_oracle: Option<String>,
    pub expect_compiled: Option<String>,
    pub expect_check_error: Option<String>,
    pub env: Vec<(String, String)>,
}

/// Model of the directives.
pub struct DirectivesM {
    pub expect: Option<Seq<char>>,
    pub expect_oracle: Option<Seq<char>>,
    pub expect_compiled: Option<Seq<char>>,
    pub expect_check_error: Option<Seq<char>>,
    pub env: Seq<(Seq<char>, Seq<char>)>,
}

pub open spec fn opt_view(o: Option<String>) -> Option<Seq<char>> {
    match o {
        Some(s) => Some(s@),
        None => None,
    }
}

impl View for TestDirectives {
    type V = DirectivesM;

    open spec fn view(&self) -> DirectivesM {
        DirectivesM {
            expect: opt_view(self.expect),
            expect_oracle: opt_view(self.expect_oracle),
            expect_compiled: opt_view(self.expect_compiled),
            expect_check_error: opt_view(self.expect_check_error),
            env: self.env@.map_values(|p: (String, String)| (p.0@, p.1@)),
        }
    }
}

/// The lines of `s` (`str::lines`): split at `\n`, a `\r` before it dropped, no empty
/// line after a final `\n`.
pub open spec fn lines_m(s: Seq<char>) -> Seq<Seq<char>>
    decreases s.len(),
{
    if s.len() == 0 {
        Seq::empty()
    } else {
        match find_m(s, seq!['\n']) {
            None => seq![s],
            Some(i) => {
                proof {
                    lemma_find_valid(s, seq!['\n'], 0);
                }
                let line = s.subrange(0, i);
                let line = if line.len() > 0 && line.last() == '\r' {
                    line.drop_last()
                } else {
                    line
                };
                seq![line] + lines_m(s.subrange(i + 1, s.len() as int))
            },
        }
    }
}

/// `line` starts with `pat`; the rest.
pub open spec fn strip_prefix_m(line: Seq<char>, pat: Seq<char>) -> Option<Seq<char>> {
    if pat.len() <= line.len() && line.subrange(0, pat.len() as int) == pat {
        Some(line.subrange(pat.len() as int, line.len() as int))
    } else {
        None
    }
}

/// One comment line's effect on the directives.
pub open spec fn directive_m(d: DirectivesM, rest: Seq<char>) -> DirectivesM {
    match strip_prefix_m(rest, "expect: "@) {
        Some(v) => DirectivesM { expect: Some(v), ..d },
        None => match strip_prefix_m(rest, "expect-oracle: "@) {
            Some(v) => DirectivesM { expect_oracle: Some(v), ..d },
            None => match strip_prefix_m(rest, "expect-compiled: "@) {
                Some(v) => DirectivesM { expect_compiled: Some(v), ..d },
                None => match strip_prefix_m(rest, "expect-check-error: "@) {
                    Some(v) => DirectivesM { expect_check_error: Some(v), ..d },
                    None => match strip_prefix_m(rest, "env: "@) {
                        Some(v) => match find_m(v, seq!['=']) {
                            Some(k) => DirectivesM {
                                env: d.env.push((v.subrange(0, k), v.subrange(k + 1, v.len() as int))),
                                ..d
                            },
                            None => d,
                        },
                        None => d,
                    },
                },
            },
        },
    }
}

/// The directives of the leading comment lines: blank lines are skipped, the first other
/// line that is not a `//` comment ends them.
pub open spec fn directives_m(lines: Seq<Seq<char>>, d: DirectivesM) -> DirectivesM
    decreases lines.len(),
{
    if lines.len() == 0 {
        d
    } else {
        let line = lines[0];
        match strip_prefix_m(trim_start_m(line), "//"@) {
            Some(rest) => directives_m(lines.drop_first(), directive_m(d, trim_start_m(rest))),
            None => if trim_start_m(line).len() == 0 {
                directives_m(lines.drop_first(), d)
            } else {
                d
            },
        }
    }
}

pub open spec fn no_directives() -> DirectivesM {
    DirectivesM {
        expect: None,
        expect_oracle: None,
        expect_compiled: None,
        expect_check_error: None,
        env: Seq::empty(),
    }
}

/// The first `c` in `t` at or after `from`, when it is at `k`.
proof fn lemma_find_char(t: Seq<char>, c: char, from: int, k: int)
    requires
        0 <= from <= k <= t.len(),
        forall|i: int| from <= i < k ==> t[i] != c,
    ensures
        k < t.len() && t[k] == c ==> find_from_m(t, seq![c], from) == Some(k),
        k == t.len() ==> find_from_m(t, seq![c], from) is None,
    decreases k - from,
{
    if from < k {
        assert(t.subrange(from, from + 1) =~= seq![t[from]]);
        if t.subrange(from, from + 1) == seq![c] {
            assert(t.subrange(from, from + 1)[0] == c);
        }
        assert(!crate::diagnostics::occurs_at(t, seq![c], from));
        lemma_find_char(t, c, from + 1, k);
    } else if k < t.len() && t[k] == c {
        assert(t.subrange(k, k + 1) =~= seq![c]);
    }
}

/// The position of the first `c` in `s[from..to]`, or `to`.
fn find_char(s: &Vec<char>, c: char, from: usize, to: usize) -> (r: usize)
    requires
        from <= to <= s@.len(),
    ensures
        from <= r <= to,
        forall|i: int| from <= i < r ==> s@[i] != c,
        r < to ==> s@[r as int] == c,
{
    let mut j = from;
    while j < to && s[j] != c
        invariant
            from <= j <= to <= s@.len(),
            forall|i: int| from <= i < j ==> s@[i] != c,
        decreases to - j,
    {
        j += 1;
    }
    j
}

fn set_field(d: &mut TestDirectives, which: usize, v: String)
    requires
        which < 4,
    ensures
        final(d)@ == (if which == 0 {
            DirectivesM { expect: Some(v@), ..old(d)@ }
        } else if which == 1 {
            DirectivesM { expect_oracle: Some(v@), ..old(d)@ }
        } else if which == 2 {
            DirectivesM { expect_compiled: Some(v@), ..old(d)@ }
        } else {
            DirectivesM { expect_check_error: Some(v@), ..old(d)@ }
        }),
{
    if which == 0 {
        d.expect = Some(v);
    } else if which == 1 {
        d.expect_oracle = Some(v);
    } else if which == 2 {
        d.expect_compiled = Some(v);
    } else {
        d.expect_check_error = Some(v);
    }
}

/// Applies the directive in `s[rs..le]`.
fn apply_directive(d: &mut TestDirectives, s: &Vec<char>, rs: usize, le: usize)
    requires
        rs <= le <= s@.len(),
    ensures
        final(d)@ == directive_m(old(d)@, s@.subrange(rs as int, le as int)),
{
    let ghost rest = s@.subrange(rs as int, le as int);
    let prefixes = [chars_of("expect: "), chars_of("expect-oracle: "), chars_of("expect-compiled: "), chars_of("expect-check-error: ")];
    let mut which: usize = 0;
    while which < 4
        invariant
            which <= 4,
            rs <= le <= s@.len(),
            rest == s@.subrange(rs as int, le as int),
            prefixes@[0]@ == "expect: "@,
            prefixes@[1]@ == "expect-oracle: "@,
            prefixes@[2]@ == "expect-compiled: "@,
            prefixes@[3]@ == "expect-check-error: "@,
            *d == *old(d),
            which >= 1 ==> strip_prefix_m(rest, "expect: "@) is None,
            which >= 2 ==> strip_prefix_m(rest, "expect-oracle: "@) is None,
            which >= 3 ==> strip_prefix_m(rest, "expect-compiled: "@) is None,
            which >= 4 ==> strip_prefix_m(rest, "expect-check-error: "@) is None,
        decreases 4 - which,
    {
        let pat = &prefixes[which];
        let k = pat.len();
        if starts_with_at(s, rs, le, pat) {
            proof {
                assert(rest.subrange(0, k as int) =~= s@.subrange(rs as int, rs + k));
                assert(rest.subrange(k as int, rest.len() as int) =~= s@.subrange(rs + k, le as int));
            }
            let v = text_of(s, rs + k, le);
            set_field(d, which, v);
            return;
        }
        proof {
            if k <= rest.len() {
                assert(rest.subrange(0, k as int) =~= s@.subrange(rs as int, rs + k));
            }
        }
        which += 1;
    }
    let env = chars_of("env: ");
    let el = env.len();
    if starts_with_at(s, rs, le, &env) {
        let vs = rs + el;
        proof {
            assert(rest.subrange(0, el as int) =~= s@.subrange(rs as int, rs + el));
        }
        let ghost v = rest.subrange(el as int, rest.len() as int);
        proof {
            assert(v =~= s@.subrange(vs as int, le as int));
        }
        let k = find_char(s, '=', vs, le);
        proof {
            assert forall|i: int| 0 <= i < k - vs implies v[i] != '=' by {
                assert(v[i] == s@[vs + i]);
            }
            if k < le {
                assert(v[k - vs] == s@[k as int]);
            }
            lemma_find_char(v, '=', 0, k - vs);
        }
        if k < le {
            let key = text_of(s, vs, k);
            let value = text_of(s, k + 1, le);
            proof {
                assert(key@ =~= v.subrange(0, k - vs));
                assert(value@ =~= v.subrange(k - vs + 1, v.len() as int));
            }
            let ghost before = d@;
            d.env.push((key, value));
            proof {
                assert(d@.env =~= before.env.push((key@, value@)));
            }
        }
        return;
    }
    proof {
        if el <= rest.len() {
            assert(rest.subrange(0, el as int) =~= s@.subrange(rs as int, rs + el));
        }
    }
}

/// The directives of an example file.
pub fn parse_test_directives(src: &str) -> (r: TestDirectives)
    ensures
        r@ == directives_m(lines_m(src@), no_directives()),
{
    let s = chars_of(src);
    let n = s.len();
    let slashes = chars_of("//");
    let sl = slashes.len();
    proof {
        reveal_strlit("//");
    }
    let mut d = TestDirectives {
        expect: None,
        expect_oracle: None,
        expect_compiled: None,
        expect_check_error: None,
        env: Vec::new(),
    };
    proof {
        assert(d@.env =~= Seq::<(Seq<char>, Seq<char>)>::empty());
        assert(s@.subrange(0, n as int) =~= s@);
    }
    let mut pos: usize = 0;
    loop
        invariant_except_break
            pos <= n,
            directives_m(lines_m(src@), no_directives()) == directives_m(
                lines_m(s@.subrange(pos as int, n as int)),
                d@,
            ),
        invariant
            n == s@.len(),
            s@ == src@,
            slashes@ == "//"@,
            sl == 2,
            slashes@.len() == sl,
        ensures
            d@ == directives_m(lines_m(src@), no_directives()),
        decreases n - pos,
    {
        if pos >= n {
            proof {
                assert(s@.subrange(pos as int, n as int) =~= Seq::<char>::empty());
            }
            break;
        }
        let ghost t = s@.subrange(pos as int, n as int);
        proof {
            reveal_strlit("//");
        }
        let e = find_char(&s, '\n', pos, n);
        proof {
            assert forall|i: int| 0 <= i < e - pos implies t[i] != '\n' by {
                assert(t[i] == s@[pos + i]);
            }
            lemma_find_char(t, '\n', 0, e - pos);
            lemma_find_valid(t, seq!['\n'], 0);
        }
        let le = if e < n && e > pos && s[e - 1] == '\r' {
            e - 1
        } else {
            e
        };
        let ghost line = s@.subrange(pos as int, le as int);
        let ghost next = if e < n {
            s@.subrange(e + 1, n as int)
        } else {
            Seq::<char>::empty()
        };
        proof {
            if e < n {
                assert(t.subrange(0, e - pos) =~= s@.subrange(pos as int, e as int));
                assert(t.subrange(e - pos + 1, t.len() as int) =~= next);
                if e > pos && s@[e - 1] == '\r' {
                    assert(s@.subrange(pos as int, e as int).drop_last() =~= line);
                }
                assert(lines_m(t) == seq![line] + lines_m(next));
            } else {
                assert(t =~= line);
                assert(lines_m(next) =~= Seq::<Seq<char>>::empty());
                assert(lines_m(t) == seq![t]);
            }
            let ls = seq![line] + lines_m(next);
            assert(ls[0] == line);
            assert(ls.drop_first() =~= lines_m(next));
        }
        let ts = skip_space(&s, pos, le);
        let ghost d0 = d@;
        let ghost ls = seq![line] + lines_m(next);
        let ghost tl = s@.subrange(ts as int, le as int);
        proof {
            assert(lines_m(t) == ls);
            assert(trim_start_m(line) == tl);
        }
        if starts_with_at(&s, ts, le, &slashes) {
            let rs = skip_space(&s, ts + sl, le);
            proof {
                assert(tl.subrange(0, 2) =~= s@.subrange(ts as int, ts + 2));
                assert(tl.subrange(2, tl.len() as int) =~= s@.subrange(ts + 2, le as int));
                assert(strip_prefix_m(tl, "//"@) == Some(s@.subrange(ts + 2, le as int)));
                assert(directives_m(ls, d0) == directives_m(ls.drop_first(), directive_m(
                    d0,
                    s@.subrange(rs as int, le as int),
                )));
            }
            apply_directive(&mut d, &s, rs, le);
        } else {
            proof {
                if 2 <= tl.len() {
                    assert(tl.subrange(0, 2) =~= s@.subrange(ts as int, ts + 2));
                }
                assert(strip_prefix_m(tl, "//"@) is None);
            }
            if ts < le {
                proof {
                    assert(tl.len() > 0);
                    assert(directives_m(ls, d0) == d0);
                }
                break;
            }
            proof {
                assert(directives_m(ls, d0) == directives_m(ls.drop_first(), d0));
            }
        }
        pos = if e < n {
            e + 1
        } else {
            n
        };
        proof {
            if e >= n {
                assert(s@.subrange(pos as int, n as int) =~= Seq::<char>::empty());
            }
        }
    }
    d
}

// ---------------------------------------------------------------------------------------
// Verdicts of the example runner.
/// A file needs at least one expectation.
pub open spec fn expects_nothing_m(d: DirectivesM) -> bool {
    d.expect is None && d.expect_oracle is None && d.expect_compiled is None
        && d.expect_check_error is None
}

pub fn expects_nothing(d: &TestDirectives) -> (r: bool)
    ensures
        r == expects_nothing_m(d@),
{
    d.expect.is_none() && d.expect_oracle.is_none() && d.expect_compiled.is_none()
        && d.expect_check_error.is_none()
}

/// The runs a test file asks for: a `check` whose failure must name `check_error`, or a
/// run on the oracle and a compiled run, each against its expected output.
pub struct TestPlan {
    pub check_error: Option<String>,
    pub oracle: Option<String>,
    pub compiled: Option<String>,
}

/// The first of two optional texts that is present.
pub open spec fn either_m(a: Option<Seq<char>>, b: Option<Seq<char>>) -> Option<Seq<char>> {
    match a {
        Some(x) => Some(x),
        None => b,
    }
}

fn copy_text(o: &Option<String>) -> (r: Option<String>)
    ensures
        opt_view(r) == opt_view(*o),
{
    match o {
        Some(s) => Some(owned(s.as_str())),
        None => None,
    }
}

/// The runs the directives ask for: an expected check error excludes the other runs; a
/// run-specific expectation takes precedence over the shared one.
pub fn test_plan(d: &TestDirectives) -> (r: TestPlan)
    ensures
        opt_view(r.check_error) == d@.expect_check_error,
        d@.expect_check_error is Some ==> r.oracle is None && r.compiled is None,
        d@.expect_check_error is None ==> opt_view(r.oracle) == either_m(d@.expect_oracle, d@.expect)
            && opt_view(r.compiled) == either_m(d@.expect_compiled, d@.expect),
{
    if d.expect_check_error.is_some() {
        return TestPlan { check_error: copy_text(&d.expect_check_error), oracle: None, compiled: None };
    }
    let oracle = if d.expect_oracle.is_some() {
        copy_text(&d.expect_oracle)
    } else {
        copy_text(&d.expect)
    };
    let compiled = if d.expect_compiled.is_some() {
        copy_text(&d.expect_compiled)
    } else {
        copy_text(&d.expect)
    };
    TestPlan { check_error: None, oracle, compiled }
}

/// The signed decimal text of `n`.
pub open spec fn int_text_m(n: i32) -> Seq<char> {
    if n < 0 {
        "-"@ + decimal_m((-n) as nat)
    } else {
        decimal_m(n as nat)
    }
}

fn int_text(n: i32) -> (r: String)
    ensures
        r@ == int_text_m(n),
{
    if n < 0 {
        let mut out = owned("-");
        let magnitude: i64 = -(n as i64);
        let digits = decimal(magnitude as u64);
        push(&mut out, digits.as_str());
        out
    } else {
        decimal(n as u64)
    }
}

/// The verdict on a file that expects checking to fail with `needle` among the diagnostics:
/// the line to print, or the failure.
pub open spec fn check_error_verdict_m(
    path: Seq<char>,
    needle: Seq<char>,
    status: i32,
    stdout: Seq<char>,
    stderr: Seq<char>,
) -> Result<Seq<char>, Seq<char>> {
    if status == 0 {
        Err(path + ": expected check failure containing `"@ + needle + "`"@)
    } else if find_m(stdout + stderr, needle) is None {
        Err(path + ": diagnostic did not contain `"@ + needle + "`\n"@ + stdout + stderr)
    } else {
        Ok("ok "@ + path + " check-error"@)
    }
}

pub fn check_error_verdict(path: &str, needle: &str, status: i32, stdout: &str, stderr: &str) -> (r: Result<
    String,
    String,
>)
    ensures
        match check_error_verdict_m(path@, needle@, status, stdout@, stderr@) {
            Ok(line) => r matches Ok(x) && x@ == line,
            Err(f) => r matches Err(x) && x@ == f,
        },
{
    if status == 0 {
        let mut out = owned(path);
        push(&mut out, ": expected check failure containing `");
        push(&mut out, needle);
        push(&mut out, "`");
        return Err(out);
    }
    let mut combined = owned(stdout);
    push(&mut combined, stderr);
    if !contains(combined.as_str(), needle) {
        let mut out = owned(path);
        push(&mut out, ": diagnostic did not contain `");
        push(&mut out, needle);
        push(&mut out, "`\n");
        push(&mut out, combined.as_str());
        return Err(out);
    }
    let mut out = owned("ok ");
    push(&mut out, path);
    push(&mut out, " check-error");
    Ok(out)
}

/// `s` without trailing whitespace, as a `String`.
fn trimmed_end(s: &str) -> (r: String)
    ensures
        r@ == trim_end_m(s@),
{
    let cs = chars_of(s);
    let e = skip_space_back(&cs, 0, cs.len());
    proof {
        assert(cs@.subrange(0, cs@.len() as int) =~= cs@);
    }
    text_of(&cs, 0, e)
}

fn same_text(a: &str, b: &str) -> (r: bool)
    ensures
        r == (a@ == b@),
{
    let x = chars_of(a);
    let y = chars_of(b);
    if x.len() != y.len() {
        return false;
    }
    let mut i: usize = 0;
    while i < x.len()
        invariant
            i <= x@.len(),
            x@.len() == y@.len(),
            x@ == a@,
            y@ == b@,
            forall|j: int| 0 <= j < i ==> x@[j] == y@[j],
        decreases x@.len() - i,
    {
        if x[i] != y[i] {
            proof {
                assert(x@[i as int] != y@[i as int]);
            }
            return false;
        }
        i += 1;
    }
    proof {
        assert(x@ =~= y@);
    }
    true
}

/// How a run's outputs are reported in a failure.
pub open spec fn run_report_m(
    path: Seq<char>,
    which: Seq<char>,
    expect: Seq<char>,
    status: i32,
    stdout: Seq<char>,
    stderr: Seq<char>,
) -> Seq<char> {
    path + ": "@ + which + " expected `"@ + trim_end_m(expect) + "`, got status "@ + int_text_m(
        status,
    ) + " stdout `"@ + trim_end_m(stdout) + "` stderr `"@ + trim_end_m(stderr) + "`"@
}

fn run_report(path: &str, which: &str, expect: &str, status: i32, stdout: &str, stderr: &str) -> (r: String)
    ensures
        r@ == run_report_m(path@, which@, expect@, status, stdout@, stderr@),
{
    let mut out = owned(path);
    push(&mut out, ": ");
    push(&mut out, which);
    push(&mut out, " expected `");
    push(&mut out, trimmed_end(expect).as_str());
    push(&mut out, "`, got status ");
    push(&mut out, int_text(status).as_str());
    push(&mut out, " stdout `");
    push(&mut out, trimmed_end(stdout).as_str());
    push(&mut out, "` stderr `");
    push(&mut out, trimmed_end(stderr).as_str());
    push(&mut out, "`");
    out
}

/// The failure, if any, of the interpreter's run of a file against its expectation.
pub open spec fn oracle_verdict_m(
    path: Seq<char>,
    expect: Seq<char>,
    status: i32,
    stdout: Seq<char>,
    stderr: Seq<char>,
) -> Option<Seq<char>> {
    if status != 0 || trim_end_m(stdout) != trim_end_m(expect) {
        Some(run_report_m(path, "oracle"@, expect, status, stdout, stderr))
    } else {
        None
    }
}

pub fn oracle_verdict(path: &str, expect: &str, status: i32, stdout: &str, stderr: &str) -> (r: Option<String>)
    ensures
        match oracle_verdict_m(path@, expect@, status, stdout@, stderr@) {
            Some(f) => r matches Some(x) && x@ == f,
            None => r is None,
        },
{
    let out = trimmed_end(stdout);
    let want = trimmed_end(expect);
    if status != 0 || !same_text(out.as_str(), want.as_str()) {
        Some(run_report(path, "oracle", expect, status, stdout, stderr))
    } else {
        None
    }
}

/// The failure, if any, of the native run of a file: its output must be the expectation,
/// or hold it somewhere in stdout and stderr.
pub open spec fn compiled_verdict_m(
    path: Seq<char>,
    expect: Seq<char>,
    status: i32,
    stdout: Seq<char>,
    stderr: Seq<char>,
) -> Option<Seq<char>> {
    let stdout_match = trim_end_m(stdout) == trim_end_m(expect);
    let combined_match = find_m(stdout + stderr, trim_end_m(expect)) is Some;
    if status != 0 || !(stdout_match || combined_match) {
        Some(run_report_m(path, "compiled"@, expect, status, stdout, stderr))
    } else {
        None
    }
}

pub fn compiled_verdict(path: &str, expect: &str, status: i32, stdout: &str, stderr: &str) -> (r: Option<String>)
    ensures
        match compiled_verdict_m(path@, expect@, status, stdout@, stderr@) {
            Some(f) => r matches Some(x) && x@ == f,
            None => r is None,
        },
{
    let out = trimmed_end(stdout);
    let want = trimmed_end(expect);
    let stdout_match = same_text(out.as_str(), want.as_str());
    let mut combined = owned(stdout);
    push(&mut combined, stderr);
    let combined_match = contains(combined.as_str(), want.as_str());
    if status != 0 || !(stdout_match || combined_match) {
        Some(run_report(path, "compiled", expect, status, stdout, stderr))
    } else {
        None
    }
}

/// `s` begins with `prefix`.
pub open spec fn starts_with_m(s: Seq<char>, prefix: Seq<char>) -> bool {
    prefix.len() <= s.len() && s.subrange(0, prefix.len() as int) == prefix
}

/// The line reporting a passed file, unless the last failure is about it.
pub open spec fn ok_line_m(path: Seq<char>, last_failure: Option<Seq<char>>) -> Option<Seq<char>> {
    match last_failure {
        Some(f) => if starts_with_m(f, path) {
            None
        } else {
            Some("ok "@ + path)
        },
        None => Some("ok "@ + path),
    }
}

pub fn ok_line(path: &str, last_failure: Option<&str>) -> (r: Option<String>)
    ensures
        match ok_line_m(path@, match last_failure {
            Some(f) => Some(f@),
            None => None,
        }) {
            Some(l) => r matches Some(x) && x@ == l,
            None => r is None,
        },
{
    let passed = match last_failure {
        None => true,
        Some(f) => {
            let fs = chars_of(f);
            let ps = chars_of(path);
            let n = fs.len();
            !starts_with_at(&fs, 0, n, &ps)
        },
    };
    if passed {
        let mut out = owned("ok ");
        push(&mut out, path);
        Some(out)
    } else {
        None
    }
}

} // verus!
