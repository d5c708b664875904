//! String helpers shared by the library: comparison, interning and text building.

use vstd::prelude::*;
use vstd::std_specs::iter::IteratorSpec;

verus! {

/// Equality of string slices (`<str as PartialEq>::eq`): same characters.
#[verifier::external_body]
pub(crate) fn str_eq(a: &str, b: &str) -> (r: bool)
    ensures
        r == (a@ == b@),
{
    a == b
}

/// Gives an owned copy of `name` a `'static` lifetime (`String::leak`); the text is unchanged.
#[verifier::external_body]
pub(crate) fn leak_name(name: &str) -> (r: &'static str)
    ensures
        r@ == name@,
{
    String::leak(name.to_owned())
}

/// Whether a `String` holds exactly the characters of `b`.
pub(crate) fn string_is(a: &String, b: &str) -> (r: bool)
    ensures
        r == (a@ == b@),
{
    str_eq(a.as_str(), b)
}

/// Decimal digits of `n`, most significant first.
pub open spec fn decimal_m(n: nat) -> Seq<char>
    decreases n,
{
    if n < 10 {
        seq![digit_m(n)]
    } else {
        decimal_m(n / 10) + seq![digit_m(n % 10)]
    }
}

pub open spec fn digit_m(d: nat) -> char {
    if d == 0 {
        '0'
    } else if d == 1 {
        '1'
    } else if d == 2 {
        '2'
    } else if d == 3 {
        '3'
    } else if d == 4 {
        '4'
    } else if d == 5 {
        '5'
    } else if d == 6 {
        '6'
    } else if d == 7 {
        '7'
    } else if d == 8 {
        '8'
    } else {
        '9'
    }
}

/// Decimal rendering of an integer (`<u64 as ToString>::to_string`): its digits, most
/// significant first, without sign or leading zeros.
#[verifier::external_body]
pub(crate) fn decimal(n: u64) -> (r: String)
    ensures
        r@ == decimal_m(n as nat),
{
    n.to_string()
}

/// Appends `s` to `out`.
pub(crate) fn push(out: &mut String, s: &str)
    ensures
        final(out)@ == old(out)@ + s@,
{
    out.append(s);
}

/// A fresh `String` holding the characters of `s`.
pub(crate) fn owned(s: &str) -> (r: String)
    ensures
        r@ == s@,
{
    s.to_owned()
}

/// The characters of `s`.
pub fn chars_of(s: &str) -> (r: Vec<char>)
    ensures
        r@ == s@,
{
    broadcast use vstd::string::axiom_spec_iter, vstd::string::next_postcondition;

    let mut out: Vec<char> = Vec::new();
    let mut it = s.chars();
    let ghost total = s@;
    loop
        invariant
            total == s@,
            out@.len() <= total.len(),
            it.remaining() == total.subrange(out@.len() as int, total.len() as int),
            out@ == total.subrange(0, out@.len() as int),
            it.decrease() is Some,
        ensures
            out@ == s@,
        decreases it.decrease()->0,
    {
        let ghost before = out@;
        match it.next() {
            Some(c) => {
                out.push(c);
                proof {
                    assert(out@ =~= total.subrange(0, out@.len() as int));
                    assert(it.remaining() =~= total.subrange(out@.len() as int, total.len() as int));
                }
            },
            None => {
                proof {
                    assert(out@ =~= total);
                }
                break;
            },
        }
    }
    out
}

/// What `String::from_utf8_lossy` makes of `bytes`: the characters they encode, with
/// U+FFFD for each invalid sequence.
pub uninterp spec fn utf8_lossy(bytes: Seq<u8>) -> Seq<char>;

/// The characters of ASCII bytes.
pub open spec fn ascii_chars(b: Seq<u8>) -> Seq<char> {
    b.map_values(|x: u8| x as char)
}

/// `bytes[start..end]` as a `String`, through `String::from_utf8_lossy`: named by
/// `utf8_lossy`; ASCII, being valid UTF-8, comes out unchanged, one character per byte.
#[verifier::external_body]
pub(crate) fn utf8_lossy_string(bytes: &[u8], start: usize, end: usize) -> (r: String)
    requires
        start <= end <= bytes@.len(),
    ensures
        r@ == utf8_lossy(bytes@.subrange(start as int, end as int)),
        (forall|k: int| start <= k < end ==> bytes@[k] < 128) ==> r@ == ascii_chars(
            bytes@.subrange(start as int, end as int),
        ),
{
    String::from_utf8_lossy(&bytes[start..end]).into_owned()
}

/// Appends `c` to `out` (`String::push`).
#[verifier::external_body]
pub(crate) fn push_char(out: &mut String, c: char)
    ensures
        final(out)@ == old(out)@.push(c),
{
    out.push(c);
}

/// Lexicographic order of character sequences, which is the order of `String`.
pub open spec fn chars_lt(a: Seq<char>, b: Seq<char>) -> bool
    decreases a.len(),
{
    if b.len() == 0 {
        false
    } else if a.len() == 0 {
        true
    } else if a[0] != b[0] {
        (a[0] as u32) < (b[0] as u32)
    } else {
        chars_lt(a.drop_first(), b.drop_first())
    }
}

pub fn text_lt(a: &Vec<char>, b: &Vec<char>) -> (r: bool)
    ensures
        r == chars_lt(a@, b@),
{
    let mut i: usize = 0;
    proof {
        assert(a@.subrange(0, a@.len() as int) =~= a@);
        assert(b@.subrange(0, b@.len() as int) =~= b@);
    }
    while i < a.len() && i < b.len()
        invariant
            i <= a@.len(),
            i <= b@.len(),
            chars_lt(a@, b@) == chars_lt(a@.subrange(i as int, a@.len() as int), b@.subrange(
                i as int,
                b@.len() as int,
            )),
        decreases a@.len() - i,
    {
        if a[i] != b[i] {
            proof {
                assert(a@.subrange(i as int, a@.len() as int)[0] == a@[i as int]);
                assert(b@.subrange(i as int, b@.len() as int)[0] == b@[i as int]);
            }
            return (a[i] as u32) < (b[i] as u32);
        }
        proof {
            assert(a@.subrange(i as int, a@.len() as int).drop_first() =~= a@.subrange(
                i + 1,
                a@.len() as int,
            ));
            assert(b@.subrange(i as int, b@.len() as int).drop_first() =~= b@.subrange(
                i + 1,
                b@.len() as int,
            ));
        }
        i += 1;
    }
    proof {
        if i == b@.len() {
            assert(b@.subrange(i as int, b@.len() as int).len() == 0);
        } else {
            assert(a@.subrange(i as int, a@.len() as int).len() == 0);
        }
    }
    i == a.len() && i < b.len()
}

pub proof fn lemma_chars_lt_irrefl(a: Seq<char>)
    ensures
        !chars_lt(a, a),
    decreases a.len(),
{
    if a.len() > 0 {
        assert(a[0] == a[0]);
        lemma_chars_lt_irrefl(a.drop_first());
    }
}

/// If `a` is not below `b` and `c` is below `b`, then `a` is not below `c`.
pub proof fn lemma_chars_lt_trans_not(a: Seq<char>, b: Seq<char>, c: Seq<char>)
    requires
        !chars_lt(a, b),
        chars_lt(c, b),
    ensures
        !chars_lt(a, c),
    decreases a.len(),
{
    if a.len() > 0 && c.len() > 0 && b.len() > 0 && a[0] == c[0] && c[0] == b[0] {
        lemma_chars_lt_trans_not(a.drop_first(), b.drop_first(), c.drop_first());
    }
}


/// Two different sequences are ordered one way or the other.
pub proof fn lemma_chars_lt_total(a: Seq<char>, b: Seq<char>)
    requires
        a != b,
    ensures
        chars_lt(a, b) || chars_lt(b, a),
    decreases a.len(),
{
    if a.len() > 0 && b.len() > 0 && a[0] == b[0] {
        if a.drop_first() == b.drop_first() {
            assert(a =~= seq![a[0]] + a.drop_first());
            assert(b =~= seq![b[0]] + b.drop_first());
        }
        lemma_chars_lt_total(a.drop_first(), b.drop_first());
    } else if a.len() == 0 && b.len() == 0 {
        assert(a =~= b);
    } else if a.len() > 0 && b.len() > 0 {
        lemma_char_code(a[0], b[0]);
    }
}

/// Different characters have different codes.
proof fn lemma_char_code(x: char, y: char)
    requires
        x != y,
    ensures
        (x as u32) != (y as u32),
{
}

pub proof fn lemma_chars_lt_trans(a: Seq<char>, b: Seq<char>, c: Seq<char>)
    requires
        chars_lt(a, b),
        chars_lt(b, c),
    ensures
        chars_lt(a, c),
    decreases a.len(),
{
    if a.len() > 0 && b.len() > 0 && c.len() > 0 && a[0] == b[0] && b[0] == c[0] {
        lemma_chars_lt_trans(a.drop_first(), b.drop_first(), c.drop_first());
    }
}

} // verus!
