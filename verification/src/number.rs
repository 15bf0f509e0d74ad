//! Unsigned decimal numbers, written as code points.

use vstd::prelude::*;

verus! {

/// Whether a code point is one of the decimal digits `0` to `9`.
pub open spec fn is_digit(cp: u32) -> bool {
    0x30 <= cp <= 0x39
}

/// Whether `digits` holds decimal digits only.
pub open spec fn all_digits(digits: Seq<u32>) -> bool {
    forall|i: int| 0 <= i < digits.len() ==> is_digit(#[trigger] digits[i])
}

/// The number that a sequence of decimal digits denotes, the most
/// significant digit first.
pub open spec fn digits_value(digits: Seq<u32>) -> nat
    decreases digits.len(),
{
    if digits.len() == 0 {
        0
    } else {
        10 * digits_value(digits.drop_last()) + (digits.last() - 0x30) as nat
    }
}

/// A word without the one plus sign that may stand in front of its digits.
pub open spec fn unsigned_part(word: Seq<u32>) -> Seq<u32> {
    if word.len() > 0 && word[0] == 0x2b {
        word.drop_first()
    } else {
        word
    }
}

/// The number that a word denotes: an optional plus sign, then at least
/// one decimal digit and nothing else, with a value that fits in 64 bits.
/// Leading zeros are allowed. Any other word denotes no number.
pub open spec fn number(word: Seq<u32>) -> Option<u64> {
    let digits = unsigned_part(word);
    if digits.len() > 0 && all_digits(digits) && digits_value(digits) <= u64::MAX {
        Some(digits_value(digits) as u64)
    } else {
        None
    }
}

/// A prefix of a digit sequence never denotes more than the whole.
pub proof fn lemma_prefix_value(digits: Seq<u32>, k: int)
    requires
        all_digits(digits),
        0 <= k <= digits.len(),
    ensures
        digits_value(digits.take(k)) <= digits_value(digits),
    decreases digits.len(),
{
    if k == digits.len() {
        assert(digits.take(k) =~= digits);
    } else {
        let init = digits.drop_last();
        assert(init.take(k) =~= digits.take(k));
        lemma_prefix_value(init, k);
    }
}

/// Reads a word as an unsigned decimal number of 64 bits.
pub fn parse_number(word: &[u32]) -> (r: Option<u64>)
    ensures
        r == number(word@),
{
    let n: usize = word.len();
    let start: usize = if n > 0 && word[0] == 0x2b {
        1
    } else {
        0
    };
    let ghost digits = unsigned_part(word@);
    if start == n {
        return None;
    }
    let mut value: u64 = 0;
    let mut at: usize = start;
    while at < n
        invariant
            n == word.len(),
            start <= at <= n,
            digits == unsigned_part(word@),
            digits == word@.skip(start as int),
            all_digits(digits.take(at - start)),
            value == digits_value(digits.take(at - start)),
        decreases n - at,
    {
        let cp: u32 = word[at];
        if cp < 0x30 || cp > 0x39 {
            assert(!is_digit(digits[at - start]));
            return None;
        }
        let digit: u64 = (cp - 0x30) as u64;
        let ghost longer = digits.take(at - start + 1);
        assert(longer.drop_last() =~= digits.take(at - start));
        if value > (u64::MAX - digit) / 10 {
            proof {
                if all_digits(digits) {
                    lemma_prefix_value(digits, at - start + 1);
                }
            }
            return None;
        }
        value = value * 10 + digit;
        at = at + 1;
    }
    assert(digits.take(at - start) =~= digits);
    Some(value)
}

} // verus!
