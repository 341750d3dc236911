//! What the carry correction means: read as numbers in base ten, the raw
//! digits and the corrected digits denote the same number, up to a carry
//! out of the first place, which has nowhere to go and is dropped.
use vstd::prelude::*;
use vstd::arithmetic::div_mod::lemma_fundamental_div_mod_converse;
use crate::pi_digits_iter::corrected;
use crate::pi_digits_iter::held_after;
use crate::pi_digits_iter::lemma_corrected_are_decimal;
use crate::pi_digits_iter::lemma_corrected_len;
use crate::pi_digits_iter::lemma_settled_len;
use crate::pi_digits_iter::run_of;
use crate::pi_digits_iter::settled;

verus! {

/// Ten to the power `n`.
pub open spec fn pow10(n: nat) -> int
    decreases n,
{
    if n == 0 {
        1
    } else {
        10 * pow10((n - 1) as nat)
    }
}

/// The number that raw digits denote, the first being the most
/// significant: a raw digit of ten or more reaches into the place before it.
pub open spec fn raw_value(raw: Seq<i32>) -> int
    decreases raw.len(),
{
    if raw.len() == 0 {
        0
    } else {
        10 * raw_value(raw.drop_last()) + raw.last()
    }
}

/// The number that digits denote, the first being the most significant.
pub open spec fn digits_value(digits: Seq<u8>) -> int
    decreases digits.len(),
{
    if digits.len() == 0 {
        0
    } else {
        10 * digits_value(digits.drop_last()) + digits.last()
    }
}

/// Appending a digit multiplies by ten and adds the digit.
pub proof fn lemma_value_push(digits: Seq<u8>, last: u8)
    ensures
        digits_value(digits.push(last)) == 10 * digits_value(digits) + last,
{
    assert(digits.push(last).drop_last() =~= digits);
}

/// Appending zeros multiplies by a power of ten.
pub proof fn lemma_value_append_zeros(digits: Seq<u8>, count: nat)
    ensures
        digits_value(digits + run_of(0, count)) == digits_value(digits) * pow10(count),
    decreases count,
{
    if count == 0 {
        assert(digits + run_of(0, count) =~= digits);
    } else {
        let shorter = (count - 1) as nat;
        lemma_value_append_zeros(digits, shorter);
        assert(digits + run_of(0, count) =~= (digits + run_of(0, shorter)).push(0));
        lemma_value_push(digits + run_of(0, shorter), 0);
        assert(10 * (digits_value(digits) * pow10(shorter)) == digits_value(digits) * (10 * pow10(
            shorter,
        ))) by (nonlinear_arith);
    }
}

/// Appending nines leads to one below what appending zeros to the
/// successor leads to.
pub proof fn lemma_value_append_nines(digits: Seq<u8>, count: nat)
    ensures
        digits_value(digits + run_of(9, count)) == (digits_value(digits) + 1) * pow10(count) - 1,
    decreases count,
{
    if count == 0 {
        assert(digits + run_of(9, count) =~= digits);
    } else {
        let shorter = (count - 1) as nat;
        lemma_value_append_nines(digits, shorter);
        assert(digits + run_of(9, count) =~= (digits + run_of(9, shorter)).push(9));
        lemma_value_push(digits + run_of(9, shorter), 9);
        assert(10 * ((digits_value(digits) + 1) * pow10(shorter)) == (digits_value(digits) + 1) * (
        10 * pow10(shorter))) by (nonlinear_arith);
    }
}

/// Decimal digits denote a number below the power of ten of their count.
pub proof fn lemma_decimal_value_bounds(digits: Seq<u8>)
    requires
        forall|k: int| 0 <= k < digits.len() ==> #[trigger] digits[k] <= 9,
    ensures
        0 <= digits_value(digits) < pow10(digits.len()),
    decreases digits.len(),
{
    if digits.len() > 0 {
        let init = digits.drop_last();
        assert forall|k: int| 0 <= k < init.len() implies #[trigger] init[k] <= 9 by {
            assert(init[k] == digits[k]);
        }
        lemma_decimal_value_bounds(init);
    }
}

/// As long as no digit is held, every raw digit so far was a nine and
/// nothing is final.
pub proof fn lemma_nothing_held_means_all_nines(raw: Seq<i32>)
    requires
        held_after(raw).digit is None,
    ensures
        held_after(raw).nines == raw.len(),
        settled(raw).len() == 0,
        raw_value(raw) == pow10(raw.len()) - 1,
    decreases raw.len(),
{
    if raw.len() > 0 {
        lemma_nothing_held_means_all_nines(raw.drop_last());
    }
}

/// The raw digits denote the number that the corrected digits denote, or
/// that number and one more in the place before the first.
pub proof fn lemma_correction_keeps_value(raw: Seq<i32>)
    requires
        forall|i: int| 0 <= i < raw.len() ==> 0 <= #[trigger] raw[i] <= 18,
    ensures
        raw_value(raw) == digits_value(corrected(raw)) || raw_value(raw) == digits_value(
            corrected(raw),
        ) + pow10(raw.len()),
    decreases raw.len(),
{
    if raw.len() > 0 {
        let init = raw.drop_last();
        let d = raw.last();
        assert forall|i: int| 0 <= i < init.len() implies 0 <= #[trigger] init[i] <= 18 by {
            assert(init[i] == raw[i]);
        }
        lemma_correction_keeps_value(init);
        lemma_corrected_are_decimal(init);
        let held = held_after(init);
        let before = corrected(init);
        let k = held.nines;
        if d < 10 {
            // The digit joins what is held or becomes the held digit:
            // either way the corrected digits just get longer by it.
            assert(corrected(raw) =~= before.push(d as u8));
            lemma_value_push(before, d as u8);
        } else {
            let low = (d - 10) as u8;
            assert(d % 10 == d - 10);
            match held.digit {
                Some(p) => {
                    let head = settled(init);
                    assert(before =~= head.push(p as u8) + run_of(9, k));
                    assert(corrected(raw) =~= (head.push((p + 1) as u8) + run_of(0, k)).push(low));
                    lemma_value_append_nines(head.push(p as u8), k);
                    lemma_value_append_zeros(head.push((p + 1) as u8), k);
                    lemma_value_push(head, p as u8);
                    lemma_value_push(head, (p + 1) as u8);
                    lemma_value_push(head.push((p + 1) as u8) + run_of(0, k), low);
                },
                None => {
                    lemma_nothing_held_means_all_nines(init);
                    lemma_settled_len(init);
                    let none = Seq::<u8>::empty();
                    assert(corrected(raw) =~= (none + run_of(0, k)).push(low));
                    lemma_value_append_zeros(none, k);
                    lemma_value_push(none + run_of(0, k), low);
                    assert(digits_value(none) * pow10(k) == 0) by (nonlinear_arith)
                        requires
                            digits_value(none) == 0,
                    ;
                },
            }
        }
    }
}

/// The corrected digits are the decimal digits of the number that the raw
/// digits denote, as many of them from the low end as there are raw digits.
pub proof fn lemma_corrected_is_decimal_expansion(raw: Seq<i32>)
    requires
        forall|i: int| 0 <= i < raw.len() ==> 0 <= #[trigger] raw[i] <= 18,
    ensures
        corrected(raw).len() == raw.len(),
        forall|k: int| 0 <= k < corrected(raw).len() ==> #[trigger] corrected(raw)[k] <= 9,
        digits_value(corrected(raw)) == raw_value(raw) % pow10(raw.len()),
{
    lemma_correction_keeps_value(raw);
    lemma_corrected_are_decimal(raw);
    lemma_corrected_len(raw);
    lemma_decimal_value_bounds(corrected(raw));
    let value = digits_value(corrected(raw));
    let modulus = pow10(raw.len());
    if raw_value(raw) == value {
        lemma_fundamental_div_mod_converse(raw_value(raw), modulus, 0, value);
    } else {
        lemma_fundamental_div_mod_converse(raw_value(raw), modulus, 1, value);
    }
}

} // verus!
