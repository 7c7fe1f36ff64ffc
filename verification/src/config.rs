//! The size of the reader pool: one number, given as text when the engine is
//! first used and fixed from then on.

use vstd::prelude::*;

verus! {

/// The number of readers where the setting is missing or is no number.
pub const DEFAULT_READ_THREADS: usize = 4;

/// `c` is one of the ten decimal digits.
pub open spec fn is_digit(c: char) -> bool {
    48 <= c as u32 <= 57
}

/// The number that a sequence of decimal digits writes.
pub open spec fn value_of(digits: Seq<char>) -> nat
    decreases digits.len(),
{
    if digits.len() == 0 {
        0
    } else {
        (value_of(digits.drop_last()) * 10 + (digits.last() as u32 - 48)) as nat
    }
}

/// What is left of `text` once a leading `+` is taken off.
pub open spec fn unsigned_part(text: Seq<char>) -> Seq<char> {
    if text.len() > 0 && text[0] == '+' {
        text.skip(1)
    } else {
        text
    }
}

/// The count that `text` writes: an optional `+`, then one or more decimal
/// digits and nothing else, whose number fits the machine's word. Any other
/// text writes none.
pub open spec fn count_in(text: Seq<char>) -> Option<usize> {
    let digits = unsigned_part(text);
    if digits.len() > 0 && (forall|i: int| 0 <= i < digits.len() ==> is_digit(#[trigger] digits[i]))
        && value_of(digits) <= usize::MAX {
        Some(value_of(digits) as usize)
    } else {
        None
    }
}

/// The size of the reader pool under `setting`: the count that the setting
/// writes, and the default where the setting is missing or writes none.
pub open spec fn read_threads(setting: Option<Seq<char>>) -> usize {
    match setting {
        Some(text) => match count_in(text) {
            Some(count) => count,
            None => DEFAULT_READ_THREADS,
        },
        None => DEFAULT_READ_THREADS,
    }
}

/// Digits that follow can only make the number larger.
proof fn lemma_value_of_grows(digits: Seq<char>, k: int)
    requires
        0 <= k <= digits.len(),
        forall|i: int| 0 <= i < digits.len() ==> is_digit(#[trigger] digits[i]),
    ensures
        value_of(digits.take(k)) <= value_of(digits),
    decreases digits.len() - k,
{
    if k < digits.len() {
        lemma_value_of_grows(digits, k + 1);
        assert(digits.take(k + 1).drop_last() =~= digits.take(k));
        assert(is_digit(digits[k]));
    } else {
        assert(digits.take(k) =~= digits);
    }
}

/// Reads the count that `text` writes.
pub fn parse_count(text: &str) -> (count: Option<usize>)
    ensures
        count == count_in(text@),
{
    let n: usize = text.unicode_len();
    let start: usize = if n > 0 && text.get_char(0) == '+' {
        1
    } else {
        0
    };
    let ghost digits = unsigned_part(text@);
    proof {
        assert(text@.skip(0) =~= text@);
    }
    if start == n {
        return None;
    }
    let mut acc: usize = 0;
    let mut i: usize = start;
    while i < n
        invariant
            start <= i <= n,
            n == text@.len(),
            digits == text@.skip(start as int),
            digits == unsigned_part(text@),
            forall|j: int| 0 <= j < i - start ==> is_digit(#[trigger] digits[j]),
            acc == value_of(digits.take(i - start)),
        decreases n - i,
    {
        let c: char = text.get_char(i);
        let code: u32 = c as u32;
        assert(digits[i - start] == c);
        if code < 48 || code > 57 {
            return None;
        }
        let digit: usize = (code - 48) as usize;
        proof {
            assert(digits.take(i - start + 1).drop_last() =~= digits.take(i - start));
            assert(value_of(digits.take(i - start + 1)) == acc * 10 + digit);
        }
        if acc > (usize::MAX - digit) / 10 {
            proof {
                assert(acc * 10 + digit > usize::MAX);
                if forall|j: int| 0 <= j < digits.len() ==> is_digit(#[trigger] digits[j]) {
                    lemma_value_of_grows(digits, i - start + 1);
                }
            }
            return None;
        }
        acc = acc * 10 + digit;
        i = i + 1;
    }
    proof {
        assert(digits.take(i - start) =~= digits);
    }
    Some(acc)
}

/// The size of the reader pool under `setting`.
pub fn read_thread_count(setting: Option<&str>) -> (count: usize)
    ensures
        count == read_threads(
            match setting {
                Some(text) => Some(text@),
                None => None,
            },
        ),
{
    match setting {
        Some(text) => match parse_count(text) {
            Some(count) => count,
            None => DEFAULT_READ_THREADS,
        },
        None => DEFAULT_READ_THREADS,
    }
}

} // verus!
