//! Which texts are numbers.

use vstd::prelude::*;

use crate::text::{decimal, digit, digit_value, digits_value, parsed_u64};

verus! {

/// Nothing but decimal digits, and one at least.
pub open spec fn all_digits(s: Seq<char>) -> bool {
    s.len() > 0 && forall|i: int| 0 <= i < s.len() ==> '0' <= #[trigger] s[i] && s[i] <= '9'
}

/// The text behind a plus sign, or the whole text without one.
pub open spec fn behind_plus(s: Seq<char>) -> Seq<char> {
    if s.len() > 0 && s[0] == '+' {
        s.skip(1)
    } else {
        s
    }
}

proof fn lemma_digits(s: Seq<char>)
    ensures
        digits_value(s) is Some <==> all_digits(s),
    decreases s.len(),
{
    if s.len() > 1 {
        let before = s.drop_last();
        lemma_digits(before);
        assert(s.last() == s[s.len() - 1]);
        if all_digits(before) && '0' <= s.last() && s.last() <= '9' {
            assert forall|i: int| 0 <= i < s.len() implies '0' <= #[trigger] s[i] && s[i] <= '9' by {
                if i < before.len() {
                    assert(before[i] == s[i]);
                }
            }
        }
        if all_digits(s) {
            assert forall|i: int| 0 <= i < before.len() implies '0' <= #[trigger] before[i]
                && before[i] <= '9' by {
                assert(s[i] == before[i]);
            }
        }
    }
}

/// Only digits are read as a number, with or without a plus sign before them.
pub proof fn law_only_digits_are_a_number(s: Seq<char>)
    ensures
        parsed_u64(s) is Some ==> all_digits(behind_plus(s)),
        parsed_u64(s) is Some ==> parsed_u64(s) == parsed_u64(behind_plus(s)),
{
    lemma_digits(behind_plus(s));
    let rest = behind_plus(s);
    if parsed_u64(s) is Some && rest[0] == '+' {
        assert('0' <= rest[0]);
    }
}

/// One more digit makes ten times the number and the digit, where 64 bits can hold
/// that, and else no number.
pub proof fn law_one_more_digit_counts_ten_times(s: Seq<char>, d: int)
    requires
        all_digits(s),
        0 <= d < 10,
    ensures
        match parsed_u64(s) {
            Some(n) => if n * 10 + d <= u64::MAX {
                parsed_u64(s.push(digit(d))) == Some((n * 10 + d) as u64)
            } else {
                parsed_u64(s.push(digit(d))) is None
            },
            None => parsed_u64(s.push(digit(d))) is None,
        },
        parsed_u64(seq![digit(d)]) == Some(d as u64),
{
    let more = s.push(digit(d));
    lemma_digits(s);
    assert(s[0] != '+') by {
        assert('0' <= s[0]);
    }
    assert(more[0] == s[0]);
    assert(more.drop_last() =~= s);
    assert(more.last() == digit(d));
    assert(digit_value(digit(d)) == Some(d as nat));
}

/// The digits of a number end with its last digit, behind those of a tenth of it,
/// and start with a zero only where the number is zero.
pub proof fn law_decimal_digits(n: nat)
    ensures
        n < 10 ==> decimal(n) == seq![digit(n as int)],
        n >= 10 ==> decimal(n) == decimal(n / 10).push(digit((n % 10) as int)),
        n > 0 ==> decimal(n).len() > 0 && decimal(n)[0] != '0',
    decreases n,
{
    if n >= 10 {
        law_decimal_digits(n / 10);
    }
}

} // verus!
