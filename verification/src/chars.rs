//! Decimal digits and digit runs inside character sequences, shared by the
//! directive parser and the probe-output scanner.

use vstd::prelude::*;
use vstd::string::StrSliceExecFns;

verus! {

pub open spec fn spec_is_digit(c: char) -> bool {
    48 <= c as u32 && c as u32 <= 57
}

pub open spec fn spec_digit_val(c: char) -> int {
    c as u32 - 48
}

/// Length of the longest all-digit prefix of `s`.
pub open spec fn digit_run_len(s: Seq<char>) -> nat
    decreases s.len(),
{
    if s.len() > 0 && spec_is_digit(s[0]) {
        1 + digit_run_len(s.drop_first())
    } else {
        0
    }
}

pub broadcast proof fn lemma_digit_run_len_le(s: Seq<char>)
    ensures
        #[trigger] digit_run_len(s) <= s.len(),
    decreases s.len(),
{
    if s.len() > 0 && spec_is_digit(s[0]) {
        lemma_digit_run_len_le(s.drop_first());
    }
}

/// A digit run is exactly the index of the first non-digit character.
pub proof fn lemma_digit_run_len_is(t: Seq<char>, m: int)
    requires
        0 <= m <= t.len(),
        forall|j: int| 0 <= j < m ==> spec_is_digit(t[j]),
        m == t.len() || !spec_is_digit(t[m]),
    ensures
        digit_run_len(t) == m,
    decreases m,
{
    if m > 0 {
        assert(spec_is_digit(t[0]));
        lemma_digit_run_len_is(t.drop_first(), m - 1);
    }
}

/// Value of a string of decimal digits, most significant first.
pub open spec fn digits_val(s: Seq<char>) -> int
    decreases s.len(),
{
    if s.len() == 0 {
        0
    } else {
        digits_val(s.drop_last()) * 10 + spec_digit_val(s.last())
    }
}

/// Every character of the digit run is a digit.
pub proof fn lemma_digit_run_all(s: Seq<char>)
    ensures
        forall|j: int| 0 <= j < digit_run_len(s) ==> spec_is_digit(s[j]),
    decreases s.len(),
{
    lemma_digit_run_len_le(s);
    if s.len() > 0 && spec_is_digit(s[0]) {
        lemma_digit_run_all(s.drop_first());
        lemma_digit_run_len_le(s.drop_first());
        assert forall|j: int| 0 <= j < digit_run_len(s) implies spec_is_digit(s[j]) by {
            if j > 0 {
                assert(s.drop_first()[j - 1] == s[j]);
            }
        }
    }
}

pub open spec fn pow10(n: nat) -> int
    decreases n,
{
    if n == 0 {
        1
    } else {
        10 * pow10((n - 1) as nat)
    }
}

/// A digit string's value is non-negative and below ten to its length.
pub proof fn lemma_digits_val_bounds(s: Seq<char>)
    requires
        forall|j: int| 0 <= j < s.len() ==> spec_is_digit(s[j]),
    ensures
        0 <= digits_val(s) < pow10(s.len()),
    decreases s.len(),
{
    if s.len() > 0 {
        assert(forall|j: int|
            0 <= j < s.drop_last().len() ==> s.drop_last()[j] == s[j] && spec_is_digit(
                s.drop_last()[j],
            ));
        lemma_digits_val_bounds(s.drop_last());
        assert(spec_is_digit(s.last()));
    }
}

pub fn is_digit_char(c: char) -> (b: bool)
    ensures
        b == spec_is_digit(c),
{
    let u: u32 = c as u32;
    48 <= u && u <= 57
}

/// Scans the digit run of `s` that starts at `start`.  The returned
/// accumulator equals the run's value when that is at most `0x8000_0000`, and
/// is `0x8000_0001` when the value is larger.
pub fn scan_digits(s: &str, start: usize, n: usize) -> (r: (usize, u64))
    requires
        start <= n,
        n == s@.len(),
    ensures
        start <= r.0 <= n,
        r.0 - start == digit_run_len(s@.skip(start as int)),
        r.1 <= 0x8000_0000u64 ==> r.1 == digits_val(s@.subrange(start as int, r.0 as int)),
        r.1 > 0x8000_0000u64 ==> digits_val(s@.subrange(start as int, r.0 as int)) > 0x8000_0000,
{
    let mut i: usize = start;
    let mut acc: u64 = 0;
    loop
        invariant
            start <= i <= n,
            n == s@.len(),
            forall|j: int| start <= j < i ==> spec_is_digit(s@[j]),
            acc <= 0x8000_0001u64,
            acc <= 0x8000_0000u64 ==> acc == digits_val(s@.subrange(start as int, i as int)),
            acc > 0x8000_0000u64 ==> digits_val(s@.subrange(start as int, i as int)) > 0x8000_0000,
        ensures
            i == n || !spec_is_digit(s@[i as int]),
        decreases n - i,
    {
        if i >= n {
            break;
        }
        let c: char = s.get_char(i);
        if !is_digit_char(c) {
            break;
        }
        let d: u64 = (c as u32 - 48) as u64;
        proof {
            assert(s@.subrange(start as int, i as int + 1).drop_last() =~= s@.subrange(
                start as int,
                i as int,
            ));
            assert(s@.subrange(start as int, i as int + 1).last() == s@[i as int]);
        }
        if acc <= 0x8000_0000u64 {
            acc = acc * 10 + d;
            if acc > 0x8000_0000u64 {
                acc = 0x8000_0001u64;
            }
        }
        i = i + 1;
    }
    proof {
        lemma_digit_run_len_is(s@.skip(start as int), i - start);
    }
    (i, acc)
}

} // verus!
