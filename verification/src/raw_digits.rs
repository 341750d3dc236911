//! The raw digits of the spigot: one per sweep over the whole accumulator.
use vstd::prelude::*;
use vstd::std_specs::iter::IteratorSpecImpl;
use crate::accumulator::fold_carry;
use crate::accumulator::fold_cells;
use crate::accumulator::lemma_fold_reduced;
use crate::accumulator::lemma_fold_split;
use crate::accumulator::cell_sum;
use crate::den_of;
use crate::accumulator::reduced;
use crate::accumulator::sweep_segment;
use crate::accumulator::MAX_COLUMNS;

verus! {

/// The most digits that can be asked for: their accumulator still has at
/// most `MAX_COLUMNS` columns.
pub const MAX_DIGITS: usize = 322_122_547;

/// The number of columns that `n` digits take: the floor of `10 n / 3`.
pub open spec fn columns_for(n: nat) -> nat {
    10 * n / 3
}

/// The number of columns that `n_digits` digits take.
pub fn column_count(n_digits: usize) -> (len: usize)
    requires
        n_digits <= MAX_DIGITS,
    ensures
        len == columns_for(n_digits as nat),
        len <= MAX_COLUMNS,
{
    n_digits / 3 * 10 + n_digits % 3 * 10 / 3
}

/// The accumulator before the first sweep: a `2` in every column.
pub open spec fn initial_cells(len: nat) -> Seq<i32> {
    Seq::new(len, |j: int| 2i32)
}

/// The raw digits of `count` sweeps over `cells`, one after the other.
pub open spec fn raw_stream(cells: Seq<i32>, count: nat) -> Seq<i32>
    decreases count,
{
    if count == 0 {
        Seq::empty()
    } else {
        seq![fold_carry(cells, 0, 0) as i32] + raw_stream(
            fold_cells(cells, 0, 0),
            (count - 1) as nat,
        )
    }
}

/// The raw digits of a run that was asked for `n` digits.
pub open spec fn raw_digits(n: nat) -> Seq<i32> {
    raw_stream(initial_cells(columns_for(n)), n)
}

/// The carry that leaves column `0` of a reduced accumulator is at most `11`.
pub proof fn lemma_raw_digit_bound(cells: Seq<i32>)
    requires
        cells.len() <= MAX_COLUMNS,
        reduced(cells, 0),
    ensures
        0 <= fold_carry(cells, 0, 0) <= 11,
{
    if cells.len() > 0 {
        let first = cells.take(1);
        let above = cells.skip(1);
        assert(cells =~= first + above);
        assert(reduced(above, 1)) by {
            assert forall|j: int| 0 <= j < above.len() implies 0 <= #[trigger] above[j] < den_of(
                1 + j,
            ) by {
                assert(above[j] == cells[1 + j]);
            }
        }
        lemma_fold_reduced(above, 1, 0);
        lemma_fold_split(first, above, 0, 0);
        let down = fold_carry(above, 1, 0);
        let sum = cell_sum(first[0] as int, down, 0);
        assert(den_of(0) == 10);
        assert(first.drop_last().len() == 0);
        assert(fold_carry(first.drop_last(), 0, sum / 10) == sum / 10);
        assert(0 <= first[0] < 10);
    }
}

/// A run of sweeps over a reduced accumulator yields raw digits between
/// `0` and `11`.
pub proof fn lemma_raw_stream_bounds(cells: Seq<i32>, count: nat)
    requires
        cells.len() <= MAX_COLUMNS,
        reduced(cells, 0),
    ensures
        raw_stream(cells, count).len() == count,
        forall|t: int| 0 <= t < count ==> 0 <= #[trigger] raw_stream(cells, count)[t] <= 11,
    decreases count,
{
    if count > 0 {
        lemma_raw_digit_bound(cells);
        lemma_fold_reduced(cells, 0, 0);
        lemma_raw_stream_bounds(fold_cells(cells, 0, 0), (count - 1) as nat);
    }
}

/// A run of sweeps yields one raw digit per sweep.
pub proof fn lemma_raw_stream_len(cells: Seq<i32>, count: nat)
    ensures
        raw_stream(cells, count).len() == count,
    decreases count,
{
    if count > 0 {
        lemma_raw_stream_len(fold_cells(cells, 0, 0), (count - 1) as nat);
    }
}

/// Fewer sweeps over the same accumulator yield the first raw digits of more.
pub proof fn lemma_raw_stream_is_prefix(cells: Seq<i32>, fewer: nat, more: nat)
    requires
        fewer <= more,
    ensures
        raw_stream(cells, fewer).is_prefix_of(raw_stream(cells, more)),
    decreases fewer,
{
    lemma_raw_stream_len(cells, fewer);
    lemma_raw_stream_len(cells, more);
    if fewer > 0 {
        lemma_raw_stream_is_prefix(
            fold_cells(cells, 0, 0),
            (fewer - 1) as nat,
            (more - 1) as nat,
        );
    }
}

/// What a sweep does at the four lowest columns, given the carry `carry`
/// that reaches column `3` from above: the carry out of column `0` and the
/// cell left there.
proof fn lemma_sweep_low_columns(cells: Seq<i32>, carry: int)
    requires
        cells.len() == 4,
    ensures
        ({
            let q3 = cell_sum(cells[3] as int, carry, 3) / 7;
            let q2 = cell_sum(cells[2] as int, q3, 2) / 5;
            let q1 = cell_sum(cells[1] as int, q2, 1) / 3;
            let sum = cell_sum(cells[0] as int, q1, 0);
            &&& fold_carry(cells, 0, carry) == sum / 10
            &&& fold_cells(cells, 0, carry).len() == 4
            &&& fold_cells(cells, 0, carry)[0] == (sum % 10) as i32
        }),
{
    let c3 = cells.drop_last();
    let c2 = c3.drop_last();
    let c1 = c2.drop_last();
    let c0 = c1.drop_last();
    let q3 = cell_sum(cells[3] as int, carry, 3) / 7;
    let q2 = cell_sum(cells[2] as int, q3, 2) / 5;
    let q1 = cell_sum(cells[1] as int, q2, 1) / 3;
    let sum = cell_sum(cells[0] as int, q1, 0);
    assert(den_of(3) == 7 && den_of(2) == 5 && den_of(1) == 3 && den_of(0) == 10);
    assert(c0.len() == 0);
    assert(fold_carry(c0, 0, sum / 10) == sum / 10);
    assert(fold_carry(c1, 0, q1) == sum / 10);
    assert(fold_carry(c2, 0, q2) == sum / 10);
    assert(fold_carry(c3, 0, q3) == sum / 10);
    assert(fold_cells(c0, 0, sum / 10).len() == 0);
    assert(fold_cells(c1, 0, q1) =~= seq![(sum % 10) as i32]);
    assert(fold_cells(c2, 0, q2).len() == 2 && fold_cells(c2, 0, q2)[0] == (sum % 10) as i32);
    assert(fold_cells(c3, 0, q3).len() == 3 && fold_cells(c3, 0, q3)[0] == (sum % 10) as i32);
}

/// Over an accumulator of at least four columns that holds a `2` in each,
/// the first sweep yields `3` and the second at most `6`.
pub proof fn lemma_first_sweeps(len: nat)
    requires
        4 <= len <= MAX_COLUMNS,
    ensures
        fold_carry(initial_cells(len), 0, 0) == 3,
        0 <= fold_carry(fold_cells(initial_cells(len), 0, 0), 0, 0) <= 6,
{
    let cells = initial_cells(len);
    let low = cells.take(4);
    let high = cells.skip(4);
    assert(cells =~= low + high);
    assert(reduced(high, 4)) by {
        assert forall|j: int| 0 <= j < high.len() implies 0 <= #[trigger] high[j] < den_of(
            4 + j,
        ) by {}
    }
    lemma_fold_reduced(high, 4, 0);
    lemma_fold_split(low, high, 0, 0);
    let carry = fold_carry(high, 4, 0);
    lemma_sweep_low_columns(low, carry);
    let swept = fold_cells(cells, 0, 0);
    lemma_fold_reduced(cells, 0, 0);
    assert(swept[0] == fold_cells(low, 0, carry)[0]);
    assert(0 <= swept[0] <= 4);

    let first = swept.take(1);
    let above = swept.skip(1);
    assert(swept =~= first + above);
    assert(reduced(above, 1)) by {
        assert forall|j: int| 0 <= j < above.len() implies 0 <= #[trigger] above[j] < den_of(
            1 + j,
        ) by {
            assert(above[j] == swept[1 + j]);
        }
    }
    lemma_fold_reduced(above, 1, 0);
    lemma_fold_split(first, above, 0, 0);
    let down = fold_carry(above, 1, 0);
    assert(first.drop_last().len() == 0);
    assert(fold_carry(first, 0, down) == cell_sum(first[0] as int, down, 0) / 10) by {
        assert(den_of(0) == 10);
        assert(fold_carry(first.drop_last(), 0, cell_sum(first[0] as int, down, 0) / 10)
            == cell_sum(first[0] as int, down, 0) / 10);
    }
}

/// The first two raw digits of a run for at least two digits: `3`, then at
/// most `6`.
pub proof fn lemma_first_raw_digits(n: nat)
    requires
        2 <= n <= MAX_DIGITS,
    ensures
        raw_digits(n).len() == n,
        raw_digits(n)[0] == 3,
        0 <= raw_digits(n)[1] <= 6,
{
    let len = columns_for(n);
    let cells = initial_cells(len);
    lemma_raw_stream_len(cells, n);
    lemma_first_sweeps(len);
    let swept = fold_cells(cells, 0, 0);
    let tail = raw_stream(swept, (n - 1) as nat);
    lemma_raw_stream_len(swept, (n - 1) as nat);
    assert(raw_digits(n)[1] == tail[0]);
    assert(tail[0] == fold_carry(swept, 0, 0) as i32);
}

/// The spigot itself: the accumulator and the number of sweeps still to make.
pub struct RawDigits {
    /// The accumulator, column `0` first.
    cells: Vec<i32>,
    /// The number of sweeps still to make.
    left: usize,
}

impl RawDigits {
    /// The accumulator is reduced and has no more columns than it may.
    #[verifier::type_invariant]
    spec fn well_formed(self) -> bool {
        &&& self.cells@.len() <= MAX_COLUMNS
        &&& reduced(self.cells@, 0)
    }

    /// The raw digits that are still to come.
    pub closed spec fn pending(&self) -> Seq<i32> {
        raw_stream(self.cells@, self.left as nat)
    }

    /// A spigot for `n_digits` digits, before its first sweep.
    pub fn new(n_digits: usize) -> (spigot: Self)
        requires
            n_digits <= MAX_DIGITS,
        ensures
            spigot.pending() == raw_digits(n_digits as nat),
    {
        let len: usize = column_count(n_digits);
        let mut cells: Vec<i32> = Vec::with_capacity(len);
        while cells.len() < len
            invariant
                cells@.len() <= len,
                cells@ == initial_cells(cells@.len()),
            decreases len - cells@.len(),
        {
            cells.push(2);
            assert(cells@ =~= initial_cells(cells@.len()));
        }
        RawDigits { cells, left: n_digits }
    }
}

impl Iterator for RawDigits {
    type Item = i32;

    /// Makes one sweep and hands out its raw digit, as long as sweeps are left.
    fn next(&mut self) -> (raw: Option<i32>)
        ensures
            match raw {
                Some(digit) => old(self).pending().len() > 0 && digit == old(self).pending()[0]
                    && final(self).pending() == old(self).pending().drop_first(),
                None => old(self).pending().len() == 0 && final(self).pending() == old(
                    self,
                ).pending(),
            },
    {
        proof {
            use_type_invariant(&*self);
        }
        if self.left == 0 {
            None
        } else {
            let ghost before = self.cells@;
            // The sweep works on the cells outside the spigot, whose
            // invariant admits no borrow of a field that may be left
            // half-written.
            let mut cells: Vec<i32> = Vec::new();
            std::mem::swap(&mut self.cells, &mut cells);
            let carry = sweep_segment(cells.as_mut_slice(), 0, 0);
            std::mem::swap(&mut self.cells, &mut cells);
            self.left = self.left - 1;
            proof {
                assert(raw_stream(before, (self.left + 1) as nat).drop_first() =~= raw_stream(
                    self.cells@,
                    self.left as nat,
                ));
            }
            Some(carry)
        }
    }
}

impl IteratorSpecImpl for RawDigits {
    /// The spigot keeps the laws of iterators whatever its state.
    open spec fn obeys_prophetic_iter_laws(&self) -> bool {
        true
    }

    /// What the spigot will yield is what its state determines.
    open spec fn remaining(&self) -> Seq<i32> {
        self.pending()
    }

    /// The spigot ends: every sweep is a finite loop.
    open spec fn will_return_none(&self) -> bool {
        true
    }

    /// The number of sweeps left goes down with every raw digit.
    closed spec fn decrease(&self) -> Option<nat> {
        Some(self.left as nat)
    }

    /// Nothing more is known of a spigot in a loop than of any other.
    open spec fn initial_value_relation(&self, init: &Self) -> bool {
        true
    }

    /// No raw digit is known before its sweep.
    open spec fn peek(&self, index: int) -> Option<i32> {
        None
    }
}

} // verus!
