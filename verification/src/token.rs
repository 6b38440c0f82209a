//! Classification of an input token as "epoch-like": one or more decimal
//! digits, optionally followed by a hyphen and exactly two digits, and
//! parsing of the day count such a token carries.

use vstd::prelude::*;
use crate::digits::{
    all_digits, digit_val_x, digits_val, is_digit, is_digit_x, lemma_digits_val_nonneg,
};

verus! {

/// The leading digit run of an epoch-like token: everything before the
/// optional `-` sub-index, or the whole token when no sub-index is present.
pub open spec fn epoch_digits(s: Seq<char>) -> Seq<char> {
    if s.len() >= 4 && s[s.len() - 3] == '-' {
        s.subrange(0, s.len() - 3)
    } else {
        s
    }
}

/// One or more digits, optionally followed by a hyphen and two digits.
pub open spec fn epoch_like(s: Seq<char>) -> bool {
    let d = epoch_digits(s);
    &&& d.len() >= 1
    &&& all_digits(d)
    &&& (d.len() == s.len() || (is_digit(s[s.len() - 2]) && is_digit(s[s.len() - 1])))
}

/// Day count named by an epoch-like token: the value of its digit run.
pub open spec fn epoch_num(s: Seq<char>) -> int {
    digits_val(epoch_digits(s))
}

/// Whether every character of `s` at a position in `[from, to)` is a digit.
pub(crate) fn digits_in_range(s: &str, from: usize, to: usize) -> (r: bool)
    requires
        from <= to <= s@.len(),
    ensures
        r == all_digits(s@.subrange(from as int, to as int)),
{
    let mut i = from;
    while i < to
        invariant
            from <= i <= to <= s@.len(),
            forall|j: int| from <= j < i ==> is_digit(#[trigger] s@[j]),
        decreases to - i,
    {
        if !is_digit_x(s.get_char(i)) {
            assert(s@.subrange(from as int, to as int)[i - from] == s@[i as int]);
            return false;
        }
        i = i + 1;
    }
    assert forall|k: int| 0 <= k < to - from implies is_digit(
        #[trigger] s@.subrange(from as int, to as int)[k],
    ) by {
        assert(s@.subrange(from as int, to as int)[k] == s@[from + k]);
    }
    true
}

/// Decide whether `s` is an epoch-like token.
pub fn is_epoch_like(s: &str) -> (r: bool)
    ensures
        r == epoch_like(s@),
{
    let n = s.unicode_len();
    if n >= 4 && s.get_char(n - 3) == '-' {
        proof {
            assert(epoch_digits(s@) =~= s@.subrange(0, n - 3));
        }
        digits_in_range(s, 0, n - 3) && is_digit_x(s.get_char(n - 2)) && is_digit_x(
            s.get_char(n - 1),
        )
    } else {
        proof {
            assert(epoch_digits(s@) =~= s@);
            assert(s@.subrange(0, n as int) =~= s@);
        }
        n >= 1 && digits_in_range(s, 0, n)
    }
}

/// Read the day count of an epoch-like token, refusing values above `max`.
pub fn parse_epoch_num(s: &str, max: u64) -> (r: Option<u64>)
    requires
        epoch_like(s@),
        max < 400000000,
    ensures
        r is Some <==> epoch_num(s@) <= max,
        r is Some ==> r->0 == epoch_num(s@),
{
    let n = s.unicode_len();
    let k = if n >= 4 && s.get_char(n - 3) == '-' {
        n - 3
    } else {
        n
    };
    let ghost d = epoch_digits(s@);
    proof {
        assert(d =~= s@.subrange(0, k as int));
    }
    let mut val: u64 = 0;
    let mut over: bool = false;
    let mut i: usize = 0;
    while i < k
        invariant
            i <= k <= s@.len(),
            k == d.len(),
            d =~= s@.subrange(0, k as int),
            all_digits(d),
            max < 400000000,
            !over ==> val == digits_val(d.subrange(0, i as int)) && val <= max,
            over ==> digits_val(d.subrange(0, i as int)) > max,
        decreases k - i,
    {
        let c = s.get_char(i);
        proof {
            assert(d[i as int] == s@[i as int]);
            assert(d.subrange(0, i + 1).drop_last() =~= d.subrange(0, i as int));
            assert(d.subrange(0, i + 1).last() == d[i as int]);
        }
        let dv = digit_val_x(c);
        if !over {
            let next = val * 10 + dv;
            if next > max {
                over = true;
            } else {
                val = next;
            }
        } else {
            proof {
                lemma_digits_val_nonneg(d.subrange(0, i as int));
            }
        }
        i = i + 1;
    }
    proof {
        assert(d.subrange(0, k as int) =~= d);
    }
    if over {
        None
    } else {
        Some(val)
    }
}

} // verus!
