//! Reading whole numbers from text.

use crate::chunking::is_digit;
use crate::text::{chars_of, decimal, digit};
use vstd::prelude::*;

verus! {

/// Whether a text is made of digits, at least one.
pub open spec fn is_digits(s: Seq<char>) -> bool {
    s.len() > 0 && forall|i: int| 0 <= i < s.len() ==> is_digit(#[trigger] s[i])
}

/// The number that digits stand for.
pub open spec fn digits_value(s: Seq<char>) -> nat
    decreases s.len(),
{
    if s.len() == 0 {
        0
    } else {
        digits_value(s.drop_last()) * 10 + (s.last() as nat - 48) as nat
    }
}

/// The number that a text stands for: digits, with a plus or a minus sign before them
/// or with none.
pub open spec fn number_value(s: Seq<char>) -> Option<int> {
    if s.len() > 0 && s[0] == '-' {
        if is_digits(s.skip(1)) {
            Some(-(digits_value(s.skip(1)) as int))
        } else {
            None
        }
    } else if s.len() > 0 && s[0] == '+' {
        if is_digits(s.skip(1)) {
            Some(digits_value(s.skip(1)) as int)
        } else {
            None
        }
    } else if is_digits(s) {
        Some(digits_value(s) as int)
    } else {
        None
    }
}

/// A number without a minus sign, up to `max`.
pub open spec fn unsigned_value(s: Seq<char>, max: nat) -> Option<int> {
    if s.len() > 0 && s[0] == '-' {
        None
    } else {
        match number_value(s) {
            Some(n) => if n <= max {
                Some(n)
            } else {
                None
            },
            None => None,
        }
    }
}

/// A number from `min` to `max`.
pub open spec fn signed_value(s: Seq<char>, min: int, max: int) -> Option<int> {
    match number_value(s) {
        Some(n) => if min <= n <= max {
            Some(n)
        } else {
            None
        },
        None => None,
    }
}

/// A number in decimal is read back as itself.
pub proof fn lemma_decimal_reads_back(n: nat)
    ensures
        is_digits(decimal(n)),
        digits_value(decimal(n)) == n,
        number_value(decimal(n)) == Some(n as int),
    decreases n,
{
    let s = decimal(n);
    assert((48 + n % 10) as u8 as char as u32 == 48 + n % 10);
    assert(digit(n % 10) as nat == 48 + n % 10);
    if n >= 10 {
        lemma_decimal_reads_back(n / 10);
        assert(s.drop_last() =~= decimal(n / 10));
        assert forall|i: int| 0 <= i < s.len() implies is_digit(#[trigger] s[i]) by {
            if i < s.len() - 1 {
                assert(s[i] == decimal(n / 10)[i]);
            }
        }
    } else {
        assert(s.drop_last() =~= Seq::<char>::empty());
        assert(digits_value(Seq::<char>::empty()) == 0);
    }
    assert(s.last() == digit(n % 10));
    assert((s.last() as nat - 48) as nat == n % 10);
    assert(digits_value(s) == digits_value(s.drop_last()) * 10 + n % 10);
    assert(is_digit(s[0]));
}

/// The number that `digits` stand for, if it is at most `limit`.
fn magnitude(digits: &[char], limit: u64) -> (value: Option<u64>)
    ensures
        match value {
            Some(value) => is_digits(digits@) && digits_value(digits@) == value && value <= limit,
            None => !is_digits(digits@) || digits_value(digits@) > limit,
        },
{
    if digits.len() == 0 {
        return None;
    }
    let mut value: u64 = 0;
    let mut too_large = false;
    let mut i: usize = 0;
    while i < digits.len()
        invariant
            i <= digits.len(),
            forall|j: int| 0 <= j < i ==> is_digit(#[trigger] digits@[j]),
            too_large ==> digits_value(digits@.take(i as int)) > limit,
            !too_large ==> digits_value(digits@.take(i as int)) == value && value <= limit,
        decreases digits.len() - i,
    {
        let c: char = digits[i];
        if !('0' <= c && c <= '9') {
            proof {
                assert(!is_digit(digits@[i as int]));
            }
            return None;
        }
        proof {
            assert(digits@.take(i + 1).drop_last() =~= digits@.take(i as int));
        }
        if !too_large {
            let next: u128 = (value as u128) * 10 + (c as u32 - 48) as u128;
            if next > limit as u128 {
                too_large = true;
            } else {
                value = next as u64;
            }
        }
        i = i + 1;
    }
    proof {
        assert(digits@.take(i as int) =~= digits@);
    }
    if too_large {
        None
    } else {
        Some(value)
    }
}

/// Reads a number without a minus sign, up to `max`.
pub fn parse_unsigned(s: &str, max: u64) -> (value: Option<u64>)
    ensures
        match value {
            Some(value) => unsigned_value(s@, max as nat) == Some(value as int),
            None => unsigned_value(s@, max as nat) is None,
        },
{
    let chars: Vec<char> = chars_of(s);
    if chars.len() > 0 && chars[0] == '-' {
        return None;
    }
    if chars.len() > 0 && chars[0] == '+' {
        let rest: &[char] = vstd::slice::slice_subrange(chars.as_slice(), 1, chars.len());
        proof {
            assert(rest@ =~= s@.skip(1));
        }
        magnitude(rest, max)
    } else {
        magnitude(chars.as_slice(), max)
    }
}

/// Reads a number.
pub fn parse_i64(s: &str) -> (value: Option<i64>)
    ensures
        match value {
            Some(value) => signed_value(s@, i64::MIN as int, i64::MAX as int) == Some(
                value as int,
            ),
            None => signed_value(s@, i64::MIN as int, i64::MAX as int) is None,
        },
{
    let chars: Vec<char> = chars_of(s);
    if chars.len() > 0 && chars[0] == '-' {
        let rest: &[char] = vstd::slice::slice_subrange(chars.as_slice(), 1, chars.len());
        proof {
            assert(rest@ =~= s@.skip(1));
        }
        match magnitude(rest, 0x8000_0000_0000_0000) {
            Some(value) => Some((-(value as i128)) as i64),
            None => None,
        }
    } else {
        match parse_unsigned(s, 0x7fff_ffff_ffff_ffff) {
            Some(value) => Some(value as i64),
            None => {
                proof {
                    if number_value(s@) is Some {
                        assert(number_value(s@).unwrap() > 0x7fff_ffff_ffff_ffff);
                    }
                }
                None
            },
        }
    }
}

/// A number in decimal is read back with each sign before it, and with zeros before it.
pub proof fn lemma_signs_read_back(n: nat)
    ensures
        number_value(seq!['-'] + decimal(n)) == Some(-(n as int)),
        number_value(seq!['+'] + decimal(n)) == Some(n as int),
        number_value(seq!['0'] + decimal(n)) == Some(n as int),
{
    lemma_decimal_reads_back(n);
    let s = decimal(n);
    assert((seq!['-'] + s).skip(1) =~= s);
    assert((seq!['+'] + s).skip(1) =~= s);
    lemma_zero_before(s);
    let zero = seq!['0'] + s;
    assert forall|i: int| 0 <= i < zero.len() implies is_digit(#[trigger] zero[i]) by {
        if i > 0 {
            assert(zero[i] == s[i - 1]);
        }
    }
}

proof fn lemma_zero_before(s: Seq<char>)
    ensures
        digits_value(seq!['0'] + s) == digits_value(s),
    decreases s.len(),
{
    let zero = seq!['0'] + s;
    if s.len() > 0 {
        lemma_zero_before(s.drop_last());
        assert(zero.drop_last() =~= seq!['0'] + s.drop_last());
    } else {
        assert(zero.drop_last() =~= s);
    }
}

/// What is no number: nothing, a sign alone, and what has anything but `0` to `9` after its
/// first character, or anything but these and a sign as the first one.
pub proof fn lemma_no_number(s: Seq<char>)
    ensures
        number_value(s) is Some <==> {
            &&& s.len() > 0
            &&& s[0] == '+' || s[0] == '-' ==> s.len() > 1
            &&& s[0] == '+' || s[0] == '-' || '0' <= s[0] <= '9'
            &&& forall|i: int| 1 <= i < s.len() ==> '0' <= #[trigger] s[i] <= '9'
        },
{
    if s.len() > 0 {
        let rest = s.skip(1);
        if forall|i: int| 1 <= i < s.len() ==> '0' <= #[trigger] s[i] <= '9' {
            assert forall|i: int| 0 <= i < rest.len() implies is_digit(#[trigger] rest[i]) by {
                assert(rest[i] == s[i + 1]);
            }
            if '0' <= s[0] <= '9' {
                assert forall|i: int| 0 <= i < s.len() implies is_digit(#[trigger] s[i]) by {}
            }
        } else {
            let i = choose|i: int| 1 <= i < s.len() && !('0' <= #[trigger] s[i] <= '9');
            assert(rest[i - 1] == s[i]);
            assert(!is_digit(rest[i - 1]));
            assert(!is_digit(s[i]));
        }
        if !('0' <= s[0] <= '9') {
            assert(!is_digit(s[0]));
        }
    }
}

} // verus!
