//! The `YYYY-MM-DD` date string grammar: its shape, the date it names,
//! zero-padded formatting, and proofs that formatting and parsing invert
//! each other.

use vstd::prelude::*;
use crate::calendar::{
    day_number, days_in_month_x, lemma_day_number_injective, valid_date,
};
use crate::digits::{
    digit_char, digit_str, digit_val, digit_val_x, digits_val, is_digit, is_digit_x,
    lemma_digit_char_val,
};

verus! {

/// Four-digit zero-padded decimal rendering (for values below 10000).
pub open spec fn pad4(n: int) -> Seq<char> {
    seq![
        digit_char(n / 1000 % 10),
        digit_char(n / 100 % 10),
        digit_char(n / 10 % 10),
        digit_char(n % 10),
    ]
}

/// Two-digit zero-padded decimal rendering (for values below 100).
pub open spec fn pad2(n: int) -> Seq<char> {
    seq![digit_char(n / 10 % 10), digit_char(n % 10)]
}

/// The canonical text of the date `y`-`m`-`d`.
pub open spec fn date_seq(y: int, m: int, d: int) -> Seq<char> {
    pad4(y) + seq!['-'] + pad2(m) + seq!['-'] + pad2(d)
}

/// Ten characters laid out as `DDDD-DD-DD`.
pub open spec fn date_shaped(s: Seq<char>) -> bool {
    &&& s.len() == 10
    &&& s[4] == '-'
    &&& s[7] == '-'
    &&& is_digit(s[0])
    &&& is_digit(s[1])
    &&& is_digit(s[2])
    &&& is_digit(s[3])
    &&& is_digit(s[5])
    &&& is_digit(s[6])
    &&& is_digit(s[8])
    &&& is_digit(s[9])
}

pub open spec fn str_year(s: Seq<char>) -> int {
    digits_val(s.subrange(0, 4))
}

pub open spec fn str_month(s: Seq<char>) -> int {
    digits_val(s.subrange(5, 7))
}

pub open spec fn str_day(s: Seq<char>) -> int {
    digits_val(s.subrange(8, 10))
}

/// A date string: shaped as `DDDD-DD-DD` and naming a real calendar date.
pub open spec fn valid_date_str(s: Seq<char>) -> bool {
    date_shaped(s) && valid_date(str_year(s), str_month(s), str_day(s))
}

/// Absolute day number of the date a valid date string names.
pub open spec fn str_day_number(s: Seq<char>) -> int {
    day_number(str_year(s), str_month(s), str_day(s))
}

proof fn lemma_digits_val_len2(s: Seq<char>)
    requires
        s.len() == 2,
    ensures
        digits_val(s) == digit_val(s[0]) * 10 + digit_val(s[1]),
{
    reveal_with_fuel(digits_val, 3);
    let s1 = s.drop_last();
    assert(s1.drop_last() =~= Seq::<char>::empty());
    assert(digits_val(Seq::<char>::empty()) == 0);
    assert(s1.last() == s[0]);
    assert(s.last() == s[1]);
}

proof fn lemma_digits_val_len4(s: Seq<char>)
    requires
        s.len() == 4,
    ensures
        digits_val(s) == digit_val(s[0]) * 1000 + digit_val(s[1]) * 100 + digit_val(s[2]) * 10
            + digit_val(s[3]),
{
    reveal_with_fuel(digits_val, 5);
    let s3 = s.drop_last();
    let s2 = s3.drop_last();
    lemma_digits_val_len2(s2);
    assert(s2[0] == s[0] && s2[1] == s[1]);
    assert(s3.last() == s[2]);
    assert(s.last() == s[3]);
}

/// Formatting a date yields a shaped string that reads back to the same
/// year, month and day.
#[verifier::rlimit(30)]
pub proof fn lemma_format_reads_back(y: int, m: int, d: int)
    requires
        0 <= y <= 9999,
        0 <= m <= 99,
        0 <= d <= 99,
    ensures
        date_seq(y, m, d).len() == 10,
        date_shaped(date_seq(y, m, d)),
        str_year(date_seq(y, m, d)) == y,
        str_month(date_seq(y, m, d)) == m,
        str_day(date_seq(y, m, d)) == d,
{
    let s = date_seq(y, m, d);
    lemma_digit_char_val(y / 1000 % 10);
    lemma_digit_char_val(y / 100 % 10);
    lemma_digit_char_val(y / 10 % 10);
    lemma_digit_char_val(y % 10);
    lemma_digit_char_val(m / 10 % 10);
    lemma_digit_char_val(m % 10);
    lemma_digit_char_val(d / 10 % 10);
    lemma_digit_char_val(d % 10);
    assert(s.subrange(0, 4) =~= pad4(y));
    assert(s.subrange(5, 7) =~= pad2(m));
    assert(s.subrange(8, 10) =~= pad2(d));
    lemma_digits_val_len4(pad4(y));
    lemma_digits_val_len2(pad2(m));
    lemma_digits_val_len2(pad2(d));
    assert((y / 1000 % 10) * 1000 + (y / 100 % 10) * 100 + (y / 10 % 10) * 10 + y % 10 == y);
    assert((m / 10 % 10) * 10 + m % 10 == m);
    assert((d / 10 % 10) * 10 + d % 10 == d);
}

/// A shaped string is exactly the formatted text of the date it reads as.
pub proof fn lemma_shaped_is_format(s: Seq<char>)
    requires
        date_shaped(s),
    ensures
        0 <= str_year(s) <= 9999,
        0 <= str_month(s) <= 99,
        0 <= str_day(s) <= 99,
        s =~= date_seq(str_year(s), str_month(s), str_day(s)),
{
    lemma_digit_char_val(0);
    lemma_digits_val_len4(s.subrange(0, 4));
    lemma_digits_val_len2(s.subrange(5, 7));
    lemma_digits_val_len2(s.subrange(8, 10));
    let a0 = digit_val(s[0]);
    let a1 = digit_val(s[1]);
    let a2 = digit_val(s[2]);
    let a3 = digit_val(s[3]);
    lemma_digit_val_cases(s[0]);
    lemma_digit_val_cases(s[1]);
    lemma_digit_val_cases(s[2]);
    lemma_digit_val_cases(s[3]);
    lemma_digit_val_cases(s[5]);
    lemma_digit_val_cases(s[6]);
    lemma_digit_val_cases(s[8]);
    lemma_digit_val_cases(s[9]);
    let y = str_year(s);
    assert(y == a0 * 1000 + a1 * 100 + a2 * 10 + a3);
    assert(y / 1000 % 10 == a0 && y / 100 % 10 == a1 && y / 10 % 10 == a2 && y % 10 == a3) by {
        assert(y / 1000 == a0 && y % 1000 == a1 * 100 + a2 * 10 + a3) by {
            lemma_div_digit(y, a0, a1 * 100 + a2 * 10 + a3, 1000);
        }
        assert((a1 * 100 + a2 * 10 + a3) / 100 == a1 && (a1 * 100 + a2 * 10 + a3) % 100 == a2 * 10
            + a3) by {
            lemma_div_digit(a1 * 100 + a2 * 10 + a3, a1, a2 * 10 + a3, 100);
        }
        assert((a2 * 10 + a3) / 10 == a2 && (a2 * 10 + a3) % 10 == a3) by {
            lemma_div_digit(a2 * 10 + a3, a2, a3, 10);
        }
        assert(y / 100 == a0 * 10 + a1) by {
            lemma_div_digit(y, a0 * 10 + a1, a2 * 10 + a3, 100);
        }
        assert(y / 10 == a0 * 100 + a1 * 10 + a2) by {
            lemma_div_digit(y, a0 * 100 + a1 * 10 + a2, a3, 10);
        }
    }
    let m = str_month(s);
    assert(m / 10 % 10 == digit_val(s[5]) && m % 10 == digit_val(s[6])) by {
        lemma_div_digit(m, digit_val(s[5]), digit_val(s[6]), 10);
    }
    let d = str_day(s);
    assert(d / 10 % 10 == digit_val(s[8]) && d % 10 == digit_val(s[9])) by {
        lemma_div_digit(d, digit_val(s[8]), digit_val(s[9]), 10);
    }
}

/// Splitting `n` as `q * b + r` with `0 <= r < b` fixes `n / b` and `n % b`.
proof fn lemma_div_digit(n: int, q: int, r: int, b: int)
    requires
        b > 0,
        0 <= r < b,
        n == q * b + r,
    ensures
        n / b == q,
        n % b == r,
{
    assert(n / b == q && n % b == r) by (nonlinear_arith)
        requires
            b > 0,
            0 <= r < b,
            n == q * b + r,
    ;
}

proof fn lemma_digit_val_cases(c: char)
    requires
        is_digit(c),
    ensures
        0 <= digit_val(c) < 10,
        digit_char(digit_val(c)) == c,
{
}

/// No two distinct valid date strings name the same day.
pub proof fn lemma_date_str_unique(a: Seq<char>, b: Seq<char>)
    requires
        valid_date_str(a),
        valid_date_str(b),
        str_day_number(a) == str_day_number(b),
    ensures
        a == b,
{
    lemma_day_number_injective(
        str_year(a),
        str_month(a),
        str_day(a),
        str_year(b),
        str_month(b),
        str_day(b),
    );
    lemma_shaped_is_format(a);
    lemma_shaped_is_format(b);
}

/// Read a `YYYY-MM-DD` string; `None` exactly when it is not a valid date.
pub fn parse_date(s: &str) -> (r: Option<(u64, u64, u64)>)
    ensures
        r is Some ==> valid_date_str(s@) && (r->0).0 == str_year(s@) && (r->0).1 == str_month(s@)
            && (r->0).2 == str_day(s@),
        r is None ==> !valid_date_str(s@),
{
    let n = s.unicode_len();
    if n != 10 {
        return None;
    }
    if s.get_char(4) != '-' || s.get_char(7) != '-' {
        return None;
    }
    let c0 = s.get_char(0);
    let c1 = s.get_char(1);
    let c2 = s.get_char(2);
    let c3 = s.get_char(3);
    let c5 = s.get_char(5);
    let c6 = s.get_char(6);
    let c8 = s.get_char(8);
    let c9 = s.get_char(9);
    if !(is_digit_x(c0) && is_digit_x(c1) && is_digit_x(c2) && is_digit_x(c3) && is_digit_x(c5)
        && is_digit_x(c6) && is_digit_x(c8) && is_digit_x(c9)) {
        return None;
    }
    let y = digit_val_x(c0) * 1000 + digit_val_x(c1) * 100 + digit_val_x(c2) * 10 + digit_val_x(c3);
    let m = digit_val_x(c5) * 10 + digit_val_x(c6);
    let d = digit_val_x(c8) * 10 + digit_val_x(c9);
    proof {
        lemma_digits_val_len4(s@.subrange(0, 4));
        lemma_digits_val_len2(s@.subrange(5, 7));
        lemma_digits_val_len2(s@.subrange(8, 10));
        assert(s@.subrange(0, 4)[0] == s@[0] && s@.subrange(0, 4)[1] == s@[1] && s@.subrange(0, 4)[2]
            == s@[2] && s@.subrange(0, 4)[3] == s@[3]);
        assert(s@.subrange(5, 7)[0] == s@[5] && s@.subrange(5, 7)[1] == s@[6]);
        assert(s@.subrange(8, 10)[0] == s@[8] && s@.subrange(8, 10)[1] == s@[9]);
    }
    if m < 1 || m > 12 {
        return None;
    }
    if d < 1 || d > days_in_month_x(y, m) {
        return None;
    }
    Some((y, m, d))
}

/// Write the date `y`-`m`-`d` as its canonical `YYYY-MM-DD` text.
pub fn format_date(y: u64, m: u64, d: u64) -> (r: String)
    requires
        y <= 9999,
        m <= 99,
        d <= 99,
    ensures
        r@ == date_seq(y as int, m as int, d as int),
{
    let mut out = String::new();
    out.append(digit_str(y / 1000));
    out.append(digit_str(y / 100 % 10));
    out.append(digit_str(y / 10 % 10));
    out.append(digit_str(y % 10));
    out.append(hyphen_str());
    out.append(digit_str(m / 10));
    out.append(digit_str(m % 10));
    out.append(hyphen_str());
    out.append(digit_str(d / 10));
    out.append(digit_str(d % 10));
    proof {
        assert(y as int / 1000 % 10 == y as int / 1000);
        assert(m as int / 10 % 10 == m as int / 10);
        assert(d as int / 10 % 10 == d as int / 10);
        assert(out@ =~= date_seq(y as int, m as int, d as int));
    }
    out
}

fn hyphen_str() -> (r: &'static str)
    ensures
        r@ =~= seq!['-'],
{
    proof {
        reveal_strlit("-");
    }
    "-"
}

} // verus!
