//! Conversion between calendar dates and a day-count "epoch" anchored at
//! 2021-03-01 (epoch day 0). A token that is one or more digits, optionally
//! followed by a hyphen and a two-digit sub-index, is read as an epoch day
//! and converted to the date that many days after the anchor; any other
//! token is read as a `YYYY-MM-DD` date and converted to its day offset,
//! printed with the fixed `-01` sub-index.

use vstd::prelude::*;

pub mod calendar;
pub mod datestr;
pub mod digits;
pub mod token;

use crate::calendar::{
    date_of_day_number, day_number, day_number_x, lemma_day_number_in_year,
    lemma_days_before_year_mono, lemma_last_day,
};
use crate::datestr::{
    format_date, lemma_format_reads_back, parse_date, str_day_number, valid_date_str,
};
use crate::digits::{dec_str, is_digit, lemma_dec_str_val, push_decimal};
use crate::token::{epoch_digits, epoch_like, epoch_num, is_epoch_like, parse_epoch_num};

verus! {

/// Absolute day number of the reference date 2021-03-01, epoch day 0.
pub open spec fn epoch_zero_day() -> int {
    day_number(2021, 3, 1)
}

/// Largest epoch day count with a representable date: 9999-12-31.
pub open spec fn max_epoch_day() -> int {
    day_number(9999, 12, 31) - epoch_zero_day()
}

/// Epoch day count named by a valid date string (negative before the
/// reference date).
pub open spec fn date_epoch(s: Seq<char>) -> int {
    str_day_number(s) - epoch_zero_day()
}

/// Text produced for a date `days` days after the reference date: the
/// count in decimal, then the fixed `-01` sub-index.
pub open spec fn epoch_output(days: int) -> Seq<char> {
    dec_str(days) + seq!['-', '0', '1']
}

fn epoch_zero_day_x() -> (r: u64)
    ensures
        r == epoch_zero_day(),
        r < 3661000,
{
    day_number_x(2021, 3, 1)
}

fn max_epoch_day_x() -> (r: u64)
    ensures
        r == max_epoch_day(),
        r < 3661000,
{
    proof {
        lemma_day_number_in_year(2021, 3, 1);
        lemma_day_number_in_year(9999, 12, 31);
        lemma_days_before_year_mono(2022, 9999);
    }
    day_number_x(9999, 12, 31) - day_number_x(2021, 3, 1)
}

/// Convert an epoch-like token to the date that many days after the
/// reference date. The result is the unique valid date string whose epoch
/// day count equals the token's leading digit run; the optional `-DD`
/// sub-index takes no part in the computation.
pub fn convert_epoch(epoch: &str) -> (r: String)
    requires
        epoch_like(epoch@),
        epoch_num(epoch@) <= max_epoch_day(),
    ensures
        valid_date_str(r@),
        date_epoch(r@) == epoch_num(epoch@),
{
    let max = max_epoch_day_x();
    match parse_epoch_num(epoch, max) {
        Some(v) => {
            let zero = epoch_zero_day_x();
            let abs = zero + v;
            proof {
                lemma_last_day();
            }
            let (y, m, d) = date_of_day_number(abs);
            let out = format_date(y, m, d);
            proof {
                lemma_format_reads_back(y as int, m as int, d as int);
            }
            out
        },
        None => {
            proof {
                assert(false);
            }
            String::new()
        },
    }
}

/// Convert a `YYYY-MM-DD` date string to its epoch day count, written in
/// decimal with the fixed `-01` sub-index. A well-formed date earlier than
/// the reference date is refused with its own message; anything that is
/// not a valid date is refused as invalid.
pub fn convert_date(date: &str) -> (r: Result<String, &'static str>)
    ensures
        valid_date_str(date@) && date_epoch(date@) >= 0 ==> r is Ok && r->Ok_0@ == epoch_output(
            date_epoch(date@),
        ),
        valid_date_str(date@) && date_epoch(date@) < 0 ==> r is Err && r->Err_0@
            == "Date must be on or after 2021-03-01"@,
        !valid_date_str(date@) ==> r is Err && r->Err_0@ == "Invalid epoch or date"@,
{
    match parse_date(date) {
        Some((y, m, d)) => {
            let num = day_number_x(y, m, d);
            let zero = epoch_zero_day_x();
            if num < zero {
                Err("Date must be on or after 2021-03-01")
            } else {
                let days = num - zero;
                let mut out = String::new();
                push_decimal(&mut out, days);
                out.append(suffix_01());
                proof {
                    assert(out@ =~= epoch_output(days as int));
                }
                Ok(out)
            }
        },
        None => Err("Invalid epoch or date"),
    }
}

/// Convert one token either way: an epoch-like token to its date, and any
/// other token as a date to its epoch day count. An epoch-like token whose
/// day count has no representable date, and a token that is neither kind,
/// are refused as invalid.
pub fn convert_input(input: &str) -> (r: Result<String, &'static str>)
    ensures
        epoch_like(input@) && epoch_num(input@) <= max_epoch_day() ==> r is Ok && valid_date_str(
            r->Ok_0@,
        ) && date_epoch(r->Ok_0@) == epoch_num(input@),
        epoch_like(input@) && epoch_num(input@) > max_epoch_day() ==> r is Err && r->Err_0@
            == "Invalid epoch or date"@,
        !epoch_like(input@) && valid_date_str(input@) && date_epoch(input@) >= 0 ==> r is Ok
            && r->Ok_0@ == epoch_output(date_epoch(input@)),
        !epoch_like(input@) && valid_date_str(input@) && date_epoch(input@) < 0 ==> r is Err
            && r->Err_0@ == "Date must be on or after 2021-03-01"@,
        !epoch_like(input@) && !valid_date_str(input@) ==> r is Err && r->Err_0@
            == "Invalid epoch or date"@,
{
    if is_epoch_like(input) {
        let max = max_epoch_day_x();
        match parse_epoch_num(input, max) {
            Some(_) => Ok(convert_epoch(input)),
            None => Err("Invalid epoch or date"),
        }
    } else {
        convert_date(input)
    }
}

/// Drop the leading program name and hand back the remaining arguments in
/// their original order; an empty remainder is refused.
pub fn get_inputs(args: Vec<String>) -> (r: Result<Vec<String>, &'static str>)
    requires
        args@.len() >= 1,
    ensures
        args@.len() > 1 ==> r is Ok && r->Ok_0@ == args@.subrange(1, args@.len() as int),
        args@.len() == 1 ==> r is Err && r->Err_0@
            == "You need to provide at least one epoch or date"@,
{
    let ghost orig = args@;
    let mut rest = args;
    rest.remove(0);
    if rest.len() == 0 {
        Err("You need to provide at least one epoch or date")
    } else {
        proof {
            assert(rest@ =~= orig.subrange(1, orig.len() as int));
        }
        Ok(rest)
    }
}

fn suffix_01() -> (r: &'static str)
    ensures
        r@ =~= seq!['-', '0', '1'],
{
    proof {
        reveal_strlit("-01");
    }
    "-01"
}

/// Law: a day count rendered in decimal is itself an epoch-like token and
/// reads back to the same count, and the date it converts to converts back
/// to exactly that count followed by the fixed `-01` sub-index.
pub proof fn lemma_epoch_round_trip(n: int, date: Seq<char>)
    requires
        0 <= n <= max_epoch_day(),
        valid_date_str(date),
        date_epoch(date) == n,
    ensures
        epoch_like(dec_str(n)),
        epoch_num(dec_str(n)) == n,
        epoch_output(date_epoch(date)) == dec_str(n) + seq!['-', '0', '1'],
{
    lemma_dec_str_val(n);
    let s = dec_str(n);
    if s.len() >= 4 {
        assert(is_digit(s[s.len() - 3]));
        assert(s[s.len() - 3] != '-');
    }
    assert(epoch_digits(s) == s);
}

} // verus!

