//! Decimal rendering of octets and lexicographic ordering of strings.

use vstd::prelude::*;
use vstd::arithmetic::div_mod::lemma_div_denominator;

verus! {

/// The character for a single decimal digit.
pub open spec fn digit_char(d: int) -> char {
    if d == 0 {
        '0'
    } else if d == 1 {
        '1'
    } else if d == 2 {
        '2'
    } else if d == 3 {
        '3'
    } else if d == 4 {
        '4'
    } else if d == 5 {
        '5'
    } else if d == 6 {
        '6'
    } else if d == 7 {
        '7'
    } else if d == 8 {
        '8'
    } else {
        '9'
    }
}

/// The decimal representation of a non-negative integer, without leading
/// zeros (a lone zero is rendered as "0").
pub open spec fn dec_of(n: int) -> Seq<char>
    recommends
        n >= 0,
    decreases n,
{
    if n < 10 {
        seq![digit_char(n)]
    } else {
        dec_of(n / 10).push(digit_char(n % 10))
    }
}

fn digit_str(d: u8) -> (r: &'static str)
    requires
        d <= 9,
    ensures
        r@ == seq![digit_char(d as int)],
{
    proof {
        reveal_strlit("0");
        reveal_strlit("1");
        reveal_strlit("2");
        reveal_strlit("3");
        reveal_strlit("4");
        reveal_strlit("5");
        reveal_strlit("6");
        reveal_strlit("7");
        reveal_strlit("8");
        reveal_strlit("9");
    }
    let r: &'static str = if d == 0 {
        "0"
    } else if d == 1 {
        "1"
    } else if d == 2 {
        "2"
    } else if d == 3 {
        "3"
    } else if d == 4 {
        "4"
    } else if d == 5 {
        "5"
    } else if d == 6 {
        "6"
    } else if d == 7 {
        "7"
    } else if d == 8 {
        "8"
    } else {
        "9"
    };
    proof {
        assert(r@ =~= seq![digit_char(d as int)]);
    }
    r
}

/// Renders an octet in decimal, without leading zeros.
pub fn u8_to_string(x: u8) -> (s: String)
    ensures
        s@ == dec_of(x as int),
{
    let mut s = String::new();
    if x >= 100 {
        s.append(digit_str(x / 100));
    }
    if x >= 10 {
        s.append(digit_str((x / 10) % 10));
    }
    s.append(digit_str(x % 10));
    proof {
        let n = x as int;
        if n < 10 {
            assert(s@ =~= dec_of(n));
        } else if n < 100 {
            assert(n / 10 < 10);
            assert((n / 10) % 10 == n / 10);
            assert(dec_of(n) == dec_of(n / 10).push(digit_char(n % 10)));
            assert(dec_of(n / 10) == seq![digit_char(n / 10)]);
            assert(s@ =~= dec_of(n));
        } else {
            lemma_div_denominator(n, 10, 10);
            assert(n / 10 / 10 == n / 100);
            assert(n / 100 < 10);
            assert(n / 10 >= 10);
            assert(dec_of(n) == dec_of(n / 10).push(digit_char(n % 10)));
            assert(dec_of(n / 10) == dec_of(n / 10 / 10).push(digit_char((n / 10) % 10)));
            assert(dec_of(n / 100) == seq![digit_char(n / 100)]);
            assert(s@ =~= dec_of(n));
        }
    }
    s
}

/// Lexicographic order on character sequences, by code point. This is the
/// order std documents for `str` (lexicographic over UTF-8 bytes, which
/// ranks code points identically).
pub open spec fn lex_le(a: Seq<char>, b: Seq<char>) -> bool
    decreases a.len(),
{
    if a.len() == 0 {
        true
    } else if b.len() == 0 {
        false
    } else if a[0] == b[0] {
        lex_le(a.drop_first(), b.drop_first())
    } else {
        (a[0] as u32) < (b[0] as u32)
    }
}

/// The order is total.
pub proof fn lemma_lex_le_total(a: Seq<char>, b: Seq<char>)
    ensures
        lex_le(a, b) || lex_le(b, a),
    decreases a.len(),
{
    if a.len() == 0 || b.len() == 0 {
    } else if a[0] == b[0] {
        lemma_lex_le_total(a.drop_first(), b.drop_first());
    } else {
        vstd::utf8::char_u32_cast(a[0], a[0] as u32);
        vstd::utf8::char_u32_cast(b[0], b[0] as u32);
        assert((a[0] as u32) != (b[0] as u32));
    }
}

/// The order is antisymmetric: mutually ordered sequences are equal.
pub proof fn lemma_lex_le_antisymmetric(a: Seq<char>, b: Seq<char>)
    requires
        lex_le(a, b),
        lex_le(b, a),
    ensures
        a == b,
    decreases a.len(),
{
    if a.len() == 0 {
        assert(b.len() == 0);
        assert(a =~= b);
    } else {
        assert(b.len() > 0);
        assert(a[0] == b[0]);
        lemma_lex_le_antisymmetric(a.drop_first(), b.drop_first());
        assert(a =~= seq![a[0]] + a.drop_first());
        assert(b =~= seq![b[0]] + b.drop_first());
    }
}

/// The order is transitive.
pub proof fn lemma_lex_le_transitive(a: Seq<char>, b: Seq<char>, c: Seq<char>)
    requires
        lex_le(a, b),
        lex_le(b, c),
    ensures
        lex_le(a, c),
    decreases a.len(),
{
    if a.len() == 0 {
    } else {
        assert(b.len() > 0);
        assert(c.len() > 0);
        if a[0] == b[0] && b[0] == c[0] {
            lemma_lex_le_transitive(a.drop_first(), b.drop_first(), c.drop_first());
        }
    }
}

/// Relies on `str`'s `PartialOrd::le`: std documents that strings compare
/// lexicographically (over UTF-8 bytes, whose order is the code-point order
/// that `lex_le` states).
#[verifier::external_body]
pub(crate) fn str_le(a: &str, b: &str) -> (r: bool)
    ensures
        r == lex_le(a@, b@),
{
    a <= b
}

} // verus!
