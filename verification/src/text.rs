//! Small verified text utilities shared by the lexer, the parser, the
//! printer and the environment: character-wise string equality, decimal
//! rendering and decimal parsing of integers.

use vstd::prelude::*;
use vstd::string::StrSliceExecFns;

verus! {

broadcast use vstd::seq::group_seq_axioms;

/// Relies on `String::push`: appends exactly the one character at the end.
#[verifier::external_body]
pub(crate) fn push_char(s: &mut String, c: char)
    ensures
        final(s)@ == old(s)@.push(c),
{
    s.push(c);
}

/// Character-wise equality of two text slices.
pub fn str_eqs(a: &str, b: &str) -> (r: bool)
    ensures
        r == (a@ == b@),
{
    let na = a.unicode_len();
    let nb = b.unicode_len();
    if na != nb {
        return false;
    }
    let mut i: usize = 0;
    while i < na
        invariant
            a@.len() == na,
            b@.len() == nb,
            na == nb,
            i <= na,
            forall|j: int| 0 <= j < i ==> a@[j] == b@[j],
        decreases na - i,
    {
        if a.get_char(i) != b.get_char(i) {
            return false;
        }
        i = i + 1;
    }
    proof {
        assert(a@ =~= b@);
    }
    true
}

/// The decimal digit characters of a natural number, most significant
/// first.
pub open spec fn dec_digits(n: nat) -> Seq<char>
    decreases n,
{
    if n < 10 {
        seq![digit_char(n)]
    } else {
        dec_digits(n / 10).push(digit_char(n % 10))
    }
}

pub open spec fn digit_char(d: nat) -> char {
    if d == 0 {
        '0'
    } else if d == 1 {
        '1'
    } else if d == 2 {
        '2'
    } else if d == 3 {
        '3'
    } else if d == 4 {
        '4'
    } else if d == 5 {
        '5'
    } else if d == 6 {
        '6'
    } else if d == 7 {
        '7'
    } else if d == 8 {
        '8'
    } else {
        '9'
    }
}

/// The decimal rendering of a signed integer: a minus sign, if negative,
/// then the digits of its magnitude.
pub open spec fn int_text(i: int) -> Seq<char> {
    if i < 0 {
        seq!['-'] + dec_digits((-i) as nat)
    } else {
        dec_digits(i as nat)
    }
}

fn digit_of(d: u64) -> (c: char)
    requires
        d < 10,
    ensures
        c == digit_char(d as nat),
{
    if d == 0 {
        '0'
    } else if d == 1 {
        '1'
    } else if d == 2 {
        '2'
    } else if d == 3 {
        '3'
    } else if d == 4 {
        '4'
    } else if d == 5 {
        '5'
    } else if d == 6 {
        '6'
    } else if d == 7 {
        '7'
    } else if d == 8 {
        '8'
    } else {
        '9'
    }
}

fn fmt_u64(n: u64) -> (r: String)
    ensures
        r@ == dec_digits(n as nat),
    decreases n,
{
    if n < 10 {
        let mut s = String::new();
        push_char(&mut s, digit_of(n));
        proof {
            assert(s@ =~= dec_digits(n as nat));
        }
        s
    } else {
        let mut s = fmt_u64(n / 10);
        push_char(&mut s, digit_of(n % 10));
        s
    }
}

/// Renders a signed integer in decimal.
pub fn fmt_i64(i: i64) -> (r: String)
    ensures
        r@ == int_text(i as int),
{
    if i >= 0 {
        fmt_u64(i as u64)
    } else {
        let mag: u64 = if i == i64::MIN {
            9223372036854775808u64
        } else {
            (-i) as u64
        };
        let mut s = String::new();
        push_char(&mut s, '-');
        let digits = fmt_u64(mag);
        s.append(digits.as_str());
        proof {
            assert(s@ =~= int_text(i as int));
        }
        s
    }
}

/// Whether a character is a decimal digit.
pub open spec fn is_digit(c: char) -> bool {
    '0' <= c <= '9'
}

pub open spec fn digit_val(c: char) -> nat {
    if c == '0' {
        0
    } else if c == '1' {
        1
    } else if c == '2' {
        2
    } else if c == '3' {
        3
    } else if c == '4' {
        4
    } else if c == '5' {
        5
    } else if c == '6' {
        6
    } else if c == '7' {
        7
    } else if c == '8' {
        8
    } else {
        9
    }
}

/// Whether the text matches an optionally-signed run of decimal digits,
/// the shape the parser classifies as an integer literal.
pub open spec fn is_int_literal(s: Seq<char>) -> bool {
    &&& s.len() > 0
    &&& (if s[0] == '-' {
        s.len() > 1 && (forall|i: int| 1 <= i < s.len() ==> is_digit(#[trigger] s[i]))
    } else {
        forall|i: int| 0 <= i < s.len() ==> is_digit(#[trigger] s[i])
    })
}

/// The numeric value of a run of decimal digits.
pub open spec fn digits_val(s: Seq<char>) -> nat
    decreases s.len(),
{
    if s.len() == 0 {
        0
    } else {
        digits_val(s.subrange(0, s.len() - 1)) * 10 + digit_val(s[s.len() - 1])
    }
}

/// The integer value of an optionally-signed run of decimal digits.
pub open spec fn int_literal_val(s: Seq<char>) -> int {
    if s.len() > 0 && s[0] == '-' {
        -(digits_val(s.subrange(1, s.len() as int)) as int)
    } else {
        digits_val(s) as int
    }
}

fn digit_value(c: char) -> (d: u64)
    requires
        is_digit(c),
    ensures
        d == digit_val(c),
{
    if c == '0' {
        0
    } else if c == '1' {
        1
    } else if c == '2' {
        2
    } else if c == '3' {
        3
    } else if c == '4' {
        4
    } else if c == '5' {
        5
    } else if c == '6' {
        6
    } else if c == '7' {
        7
    } else if c == '8' {
        8
    } else {
        9
    }
}

fn is_digit_char(c: char) -> (r: bool)
    ensures
        r == is_digit(c),
{
    '0' <= c && c <= '9'
}

/// Whether the text has the shape of an integer literal.
pub fn matches_int_literal(s: &str) -> (r: bool)
    ensures
        r == is_int_literal(s@),
{
    let n = s.unicode_len();
    if n == 0 {
        return false;
    }
    let first = s.get_char(0);
    let start: usize = if first == '-' {
        1
    } else {
        0
    };
    if start == 1 && n == 1 {
        return false;
    }
    let mut i: usize = start;
    while i < n
        invariant
            s@.len() == n,
            start <= i <= n,
            start == (if s@[0] == '-' {
                1int
            } else {
                0int
            }),
            n > start,
            forall|j: int| start <= j < i ==> is_digit(#[trigger] s@[j]),
        decreases n - i,
    {
        if !is_digit_char(s.get_char(i)) {
            return false;
        }
        i = i + 1;
    }
    true
}

/// Parses an optionally-signed decimal literal as a 64-bit integer;
/// `None` when the value does not fit.
pub fn parse_i64(s: &str) -> (r: Option<i64>)
    requires
        is_int_literal(s@),
    ensures
        i64::MIN <= int_literal_val(s@) <= i64::MAX ==> (r matches Option::Some(v) && v
            == int_literal_val(s@)),
        !(i64::MIN <= int_literal_val(s@) <= i64::MAX) ==> r is None,
{
    let n = s.unicode_len();
    let negative = s.get_char(0) == '-';
    let start: usize = if negative {
        1
    } else {
        0
    };
    // accumulate as a non-positive number so that i64::MIN parses
    let mut acc: i64 = 0;
    let mut i: usize = start;
    let ghost digs = s@.subrange(start as int, n as int);
    while i < n
        invariant
            s@.len() == n,
            is_int_literal(s@),
            start <= i <= n,
            negative == (s@[0] == '-'),
            start == (if negative {
                1int
            } else {
                0int
            }),
            digs == s@.subrange(start as int, n as int),
            acc == -(digits_val(s@.subrange(start as int, i as int)) as int),
        decreases n - i,
    {
        let c = s.get_char(i);
        proof {
            assert(is_digit(s@[i as int]));
        }
        let d = digit_value(c);
        proof {
            if negative {
                assert(digs =~= s@.subrange(1, s@.len() as int));
            } else {
                assert(digs =~= s@);
            }
        }
        let acc10 = match acc.checked_mul(10) {
            Option::Some(x) => x,
            Option::None => {
                proof {
                    let p = s@.subrange(start as int, i as int);
                    lemma_digits_val_grows(p, digs);
                    assert(digits_val(digs) >= 10 * digits_val(p));
                }
                return Option::None;
            },
        };
        acc = match acc10.checked_sub(d as i64) {
            Option::Some(x) => x,
            Option::None => {
                proof {
                    let p = s@.subrange(start as int, i as int);
                    let p2 = p.push(s@[i as int]);
                    assert(p2 =~= s@.subrange(start as int, i + 1));
                    lemma_digits_val_push(p, s@[i as int]);
                    lemma_digits_val_grows(p2, digs);
                }
                return Option::None;
            },
        };
        proof {
            assert(s@.subrange(start as int, i + 1) =~= s@.subrange(start as int, i as int).push(
                s@[i as int],
            ));
            lemma_digits_val_push(s@.subrange(start as int, i as int), s@[i as int]);
        }
        i = i + 1;
    }
    proof {
        assert(s@.subrange(start as int, n as int) =~= digs);
    }
    if negative {
        proof {
            assert(digs =~= s@.subrange(1, s@.len() as int));
        }
        Option::Some(acc)
    } else {
        if acc == i64::MIN {
            proof {
                assert(digs =~= s@);
            }
            return Option::None;
        }
        proof {
            assert(digs =~= s@);
        }
        Option::Some(-acc)
    }
}

proof fn lemma_digits_val_push(s: Seq<char>, c: char)
    ensures
        digits_val(s.push(c)) == digits_val(s) * 10 + digit_val(c),
{
    let t = s.push(c);
    assert(t.subrange(0, t.len() - 1) =~= s);
    assert(t[t.len() - 1] == c);
}

/// A longer run of digits never has a smaller value.
proof fn lemma_digits_val_grows(p: Seq<char>, s: Seq<char>)
    requires
        p.len() <= s.len(),
        forall|i: int| 0 <= i < p.len() ==> p[i] == s[i],
    ensures
        digits_val(p) <= digits_val(s),
        p.len() < s.len() ==> digits_val(s) >= 10 * digits_val(p),
    decreases s.len(),
{
    if p.len() == s.len() {
        assert(p =~= s);
    } else {
        lemma_digits_val_grows(p, s.subrange(0, s.len() - 1));
    }
}

} // verus!
