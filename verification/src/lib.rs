//! Decimal digits of pi by the Rabinowitz-Wagon spigot.
//!
//! The digits come out of a mixed-radix accumulator one sweep at a time
//! ([`accumulator`], [`raw_digits`]) and pass through a carry-correcting
//! stream ([`pi_digits_iter`]), which keeps the number that the raw digits
//! denote ([`denotation`]). The accumulator can be cut into balanced
//! segments ([`balanced_chunks_mut`]) that are swept one after the other
//! ([`pipeline`]): in one thread, by a thread each, or by the ranks of a
//! message-passing job ([`mpi_pi`]). However it is cut, the digits are the
//! same.
use vstd::prelude::*;
use vstd::std_specs::iter::IteratorSpec;
use crate::pi_digits_iter::corrected;
use crate::pi_digits_iter::lemma_corrected_are_decimal;
use crate::pi_digits_iter::lemma_corrected_len;
use crate::pi_digits_iter::lemma_first_digit_settles;
use crate::pi_digits_iter::PiDigitsIter;
use crate::pipeline::StagedDigits;
use crate::raw_digits::columns_for;
use crate::raw_digits::initial_cells;
use crate::raw_digits::lemma_first_raw_digits;
use crate::raw_digits::lemma_raw_stream_bounds;
use crate::raw_digits::lemma_raw_stream_is_prefix;
use crate::raw_digits::raw_stream;
use crate::pi_digits_iter::lemma_settled_is_stable;
use crate::pi_digits_iter::settled;
use crate::raw_digits::lemma_raw_stream_len;
use crate::raw_digits::raw_digits;
use crate::raw_digits::RawDigits;
use crate::raw_digits::MAX_DIGITS;

pub mod accumulator;
pub mod balanced_chunks_mut;
pub mod denotation;
pub mod mpi_pi;
pub mod raw_digits;
pub mod pi_digits_iter;
pub mod pipeline;

verus! {

/// Denominator of column `i`: `2i + 1`, with `10` at column `0`, which
/// folds the extraction of the digit into the last division.
pub open spec fn den_of(i: int) -> int {
    if i == 0 {
        10
    } else {
        2 * i + 1
    }
}

/// The denominator of column `i`, for every `i` whose double fits in an `i32`.
pub fn den(i: i32) -> (d: i32)
    requires
        -0x4000_0000 <= i <= 0x3fff_ffff,
    ensures
        d == den_of(i as int),
{
    if i == 0 {
        10
    } else {
        i * 2 + 1
    }
}

/// The digits that a run for `n` digits yields: the corrected raw digits
/// of `n` sweeps over an accumulator of `10 n / 3` columns.
pub open spec fn pi_digits(n: nat) -> Seq<u8> {
    corrected(raw_digits(n))
}

/// A run for `n` digits yields `n` digits.
pub proof fn lemma_pi_digits_len(n: nat)
    ensures
        pi_digits(n).len() == n,
{
    lemma_raw_stream_len(initial_cells(columns_for(n)), n);
    lemma_corrected_len(raw_digits(n));
}

/// Every digit of a run is a decimal digit.
pub proof fn lemma_pi_digits_are_decimal(n: nat)
    requires
        n <= MAX_DIGITS,
    ensures
        forall|k: int| 0 <= k < pi_digits(n).len() ==> #[trigger] pi_digits(n)[k] <= 9,
{
    lemma_raw_stream_bounds(initial_cells(columns_for(n)), n);
    lemma_corrected_are_decimal(raw_digits(n));
}

/// A run for two digits or more starts with `3`.
pub proof fn lemma_pi_digits_start_with_three(n: nat)
    requires
        2 <= n <= MAX_DIGITS,
    ensures
        pi_digits(n).len() == n,
        pi_digits(n)[0] == 3,
{
    lemma_first_raw_digits(n);
    lemma_first_digit_settles(raw_digits(n));
}

/// Over one accumulator, the digits that are final after fewer sweeps are
/// the first digits of a run of more sweeps. Runs for different numbers of
/// digits have accumulators of different lengths, of which this says
/// nothing.
pub proof fn lemma_more_sweeps_keep_final_digits(cells: Seq<i32>, fewer: nat, more: nat)
    requires
        fewer <= more,
    ensures
        settled(raw_stream(cells, fewer)).is_prefix_of(corrected(raw_stream(cells, more))),
{
    lemma_raw_stream_is_prefix(cells, fewer, more);
    let short = raw_stream(cells, fewer);
    let long = raw_stream(cells, more);
    assert(long =~= short + long.skip(short.len() as int));
    lemma_settled_is_stable(short, long.skip(short.len() as int));
}

/// The digits of pi by the spigot, one sweep over the whole accumulator
/// for each raw digit: a stream that yields `pi_digits(n_digits)`.
pub fn calculate_pi_sequential(n_digits: usize) -> (digits: PiDigitsIter<RawDigits>)
    requires
        n_digits <= MAX_DIGITS,
    ensures
        digits.wf(),
        digits.source().obeys_prophetic_iter_laws(),
        digits.delivered() == Seq::<u8>::empty(),
        digits.input(digits.source().remaining()) == raw_digits(n_digits as nat),
        raw_digits(n_digits as nat).len() == n_digits,
        corrected(digits.input(digits.source().remaining())) == pi_digits(n_digits as nat),
        pi_digits(n_digits as nat).len() == n_digits,
        forall|k: int| 0 <= k < n_digits ==> #[trigger] pi_digits(n_digits as nat)[k] <= 9,
        n_digits >= 2 ==> pi_digits(n_digits as nat)[0] == 3,
{
    let digits = PiDigitsIter::new(RawDigits::new(n_digits));
    proof {
        assert(Seq::<i32>::empty() + raw_digits(n_digits as nat) =~= raw_digits(n_digits as nat));
        lemma_pi_digits_len(n_digits as nat);
        lemma_raw_stream_len(initial_cells(columns_for(n_digits as nat)), n_digits as nat);
        lemma_pi_digits_are_decimal(n_digits as nat);
        if n_digits >= 2 {
            lemma_pi_digits_start_with_three(n_digits as nat);
        }
    }
    digits
}

/// The digits of pi by a pipeline of `num_stages` stages that sweep one
/// after the other in a single thread: the digits of the sequential run,
/// whatever the number of stages, and none at all without stages.
pub fn calculate_pi_pipelined(n_digits: usize, num_stages: usize) -> (digits: PiDigitsIter<
    StagedDigits,
>)
    requires
        n_digits <= MAX_DIGITS,
    ensures
        digits.wf(),
        digits.source().obeys_prophetic_iter_laws(),
        digits.delivered() == Seq::<u8>::empty(),
        digits.input(digits.source().remaining()) == if num_stages == 0 {
            Seq::<i32>::empty()
        } else {
            raw_digits(n_digits as nat)
        },
        digits.input(digits.source().remaining()).len() <= n_digits,
        num_stages > 0 ==> corrected(digits.input(digits.source().remaining())) == pi_digits(
            n_digits as nat,
        ),
{
    let digits = PiDigitsIter::new(StagedDigits::new(n_digits, num_stages));
    proof {
        let raw = digits.source().remaining();
        assert(Seq::<i32>::empty() + raw =~= raw);
        lemma_raw_stream_len(
            initial_cells(columns_for(n_digits as nat)),
            n_digits as nat,
        );
    }
    digits
}

} // verus!
