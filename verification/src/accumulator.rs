//! The accumulator of the spigot and the right-to-left sweep over it.
//!
//! A cell at column `j` carries the fraction `j / (2j + 1)`. One sweep
//! multiplies every cell by ten, adds what the column above hands down,
//! keeps the remainder by the column's denominator and hands the quotient
//! on. What leaves column `0` is a raw digit.
use vstd::prelude::*;
use vstd::arithmetic::div_mod::lemma_fundamental_div_mod;
use vstd::arithmetic::div_mod::lemma_fundamental_div_mod_converse;
use crate::den;
use crate::den_of;

verus! {

/// The most columns an accumulator may have: every denominator then fits
/// in an `i32`.
pub const MAX_COLUMNS: usize = 0x4000_0000;

/// The carry that a sweep started with `0` never exceeds.
pub const CARRY_BOUND: i32 = 20;

/// What stands at column `col` in the middle of a sweep: the rescaled cell
/// plus the carry from above, which enters with numerator `col + 1`.
pub open spec fn cell_sum(cell: int, carry: int, col: int) -> int {
    10 * cell + carry * (col + 1)
}

/// Every cell is a remainder by its column's denominator. `start` is the
/// column of the first cell.
pub open spec fn reduced(cells: Seq<i32>, start: int) -> bool {
    forall|j: int| 0 <= j < cells.len() ==> 0 <= #[trigger] cells[j] < den_of(start + j)
}

/// The carry that leaves the low end of `cells` when `carry` enters at the
/// high end.
pub open spec fn fold_carry(cells: Seq<i32>, start: int, carry: int) -> int
    decreases cells.len(),
{
    if cells.len() == 0 {
        carry
    } else {
        let col = start + cells.len() - 1;
        let sum = cell_sum(cells.last() as int, carry, col);
        fold_carry(cells.drop_last(), start, sum / den_of(col))
    }
}

/// The cells after the sweep that `fold_carry` describes.
pub open spec fn fold_cells(cells: Seq<i32>, start: int, carry: int) -> Seq<i32>
    decreases cells.len(),
{
    if cells.len() == 0 {
        cells
    } else {
        let col = start + cells.len() - 1;
        let sum = cell_sum(cells.last() as int, carry, col);
        fold_cells(cells.drop_last(), start, sum / den_of(col)).push((sum % den_of(col)) as i32)
    }
}

/// The larger of a carry and `CARRY_BOUND`.
pub open spec fn carry_cap(carry: int) -> int {
    if carry <= CARRY_BOUND {
        CARRY_BOUND as int
    } else {
        carry
    }
}

/// A sweep keeps the number of cells.
pub proof fn lemma_fold_len(cells: Seq<i32>, start: int, carry: int)
    ensures
        fold_cells(cells, start, carry).len() == cells.len(),
    decreases cells.len(),
{
    if cells.len() > 0 {
        let col = start + cells.len() - 1;
        let sum = cell_sum(cells.last() as int, carry, col);
        lemma_fold_len(cells.drop_last(), start, sum / den_of(col));
    }
}

/// One column of a sweep keeps the cell reduced and the carry under its cap.
pub proof fn lemma_cell_step(cell: int, carry: int, col: int)
    requires
        0 <= col,
        0 <= cell < den_of(col),
        0 <= carry,
    ensures
        0 <= cell_sum(cell, carry, col) % den_of(col) < den_of(col),
        0 <= cell_sum(cell, carry, col) / den_of(col) <= carry_cap(carry),
        0 <= cell_sum(cell, carry, col) <= carry_cap(carry) * den_of(col),
{
    let d = den_of(col);
    let m = carry_cap(carry);
    let sum = cell_sum(cell, carry, col);
    assert(0 <= carry * (col + 1) <= m * (col + 1)) by (nonlinear_arith)
        requires
            0 <= carry <= m,
            0 <= col,
    ;
    assert(sum <= m * d) by (nonlinear_arith)
        requires
            sum == 10 * cell + carry * (col + 1),
            carry * (col + 1) <= m * (col + 1),
            0 <= cell < d,
            d == if col == 0 { 10 } else { 2 * col + 1 },
            0 <= col,
            m >= 20,
    ;
    assert(0 <= sum % d < d && 0 <= sum / d <= m) by (nonlinear_arith)
        requires
            0 <= sum <= m * d,
            d > 0,
    ;
}

/// A sweep leaves reduced cells reduced and hands on a carry that is at
/// most the larger of the carry it was given and `CARRY_BOUND`.
pub proof fn lemma_fold_reduced(cells: Seq<i32>, start: int, carry: int)
    requires
        0 <= start,
        start + cells.len() <= MAX_COLUMNS,
        reduced(cells, start),
        0 <= carry,
    ensures
        fold_cells(cells, start, carry).len() == cells.len(),
        reduced(fold_cells(cells, start, carry), start),
        0 <= fold_carry(cells, start, carry) <= carry_cap(carry),
    decreases cells.len(),
{
    if cells.len() > 0 {
        let col = start + cells.len() - 1;
        let sum = cell_sum(cells.last() as int, carry, col);
        lemma_cell_step(cells.last() as int, carry, col);
        let rest = cells.drop_last();
        let next = sum / den_of(col);
        assert(reduced(rest, start)) by {
            assert forall|j: int| 0 <= j < rest.len() implies 0 <= #[trigger] rest[j] < den_of(
                start + j,
            ) by {
                assert(rest[j] == cells[j]);
            }
        }
        lemma_fold_reduced(rest, start, next);
        let swept = fold_cells(cells, start, carry);
        assert forall|j: int| 0 <= j < swept.len() implies 0 <= #[trigger] swept[j] < den_of(
            start + j,
        ) by {
            if j < rest.len() {
                assert(swept[j] == fold_cells(rest, start, next)[j]);
            }
        }
    }
}

/// Sweeping two adjacent runs of cells, the high one first and its carry
/// into the low one, is sweeping their concatenation.
pub proof fn lemma_fold_split(low: Seq<i32>, high: Seq<i32>, start: int, carry: int)
    ensures
        fold_carry(low + high, start, carry) == fold_carry(
            low,
            start,
            fold_carry(high, start + low.len(), carry),
        ),
        fold_cells(low + high, start, carry) == fold_cells(
            low,
            start,
            fold_carry(high, start + low.len(), carry),
        ) + fold_cells(high, start + low.len(), carry),
    decreases high.len(),
{
    let all = low + high;
    if high.len() == 0 {
        assert(all =~= low);
        assert(fold_cells(low, start, carry) + high =~= fold_cells(low, start, carry));
    } else {
        let col = start + all.len() - 1;
        let sum = cell_sum(high.last() as int, carry, col);
        let next = sum / den_of(col);
        assert(all.drop_last() =~= low + high.drop_last());
        assert(all.last() == high.last());
        lemma_fold_split(low, high.drop_last(), start, next);
        let mid = fold_carry(high.drop_last(), start + low.len(), next);
        assert(fold_cells(low + high, start, carry) =~= fold_cells(low, start, mid) + fold_cells(
            high,
            start + low.len(),
            carry,
        ));
    }
}

/// The sum at a column, with the cell divided ahead of the carry: the
/// tenfold cell gives `quotient` and `rest`, half the carry goes into the
/// quotient as it is, and the remainders add up to less than twice the
/// denominator.
proof fn lemma_split_carry(cell: int, carry: int, col: int, quotient: int, rest: int)
    requires
        10 <= col,
        0 <= cell < den_of(col),
        0 <= carry <= 21,
        10 * cell == den_of(col) * quotient + rest,
        0 <= rest < den_of(col),
    ensures
        ({
            let d = den_of(col);
            let extra = rest + carry / 2 + (carry % 2) * (col + 1);
            let sum = cell_sum(cell, carry, col);
            &&& 0 <= quotient <= 9
            &&& 0 <= (carry % 2) * (col + 1) <= col + 1
            &&& 0 <= extra < 2 * d
            &&& extra >= d ==> sum / d == quotient + carry / 2 + 1 && sum % d == extra - d
            &&& extra < d ==> sum / d == quotient + carry / 2 && sum % d == extra
        }),
{
    let d = den_of(col);
    let half = carry / 2;
    let odd = carry % 2;
    let extra = rest + half + odd * (col + 1);
    let sum = cell_sum(cell, carry, col);
    assert(0 <= quotient <= 9) by (nonlinear_arith)
        requires
            10 * cell == d * quotient + rest,
            0 <= rest < d,
            0 <= cell < d,
    ;
    assert(0 <= odd * (col + 1) <= col + 1) by (nonlinear_arith)
        requires
            0 <= odd <= 1,
            0 <= col,
    ;
    assert(sum == (quotient + half) * d + extra) by (nonlinear_arith)
        requires
            sum == 10 * cell + carry * (col + 1),
            10 * cell == d * quotient + rest,
            carry == 2 * half + odd,
            d == 2 * col + 1,
            extra == rest + half + odd * (col + 1),
    ;
    if extra >= d {
        assert(sum == (quotient + half + 1) * d + (extra - d)) by (nonlinear_arith)
            requires
                sum == (quotient + half) * d + extra,
        ;
        lemma_fundamental_div_mod_converse(sum, d, quotient + half + 1, extra - d);
    } else {
        lemma_fundamental_div_mod_converse(sum, d, quotient + half, extra);
    }
}

/// One column of a sweep: what is kept in the cell at column `col`, and
/// the carry handed on to the column below.
#[inline]
fn sweep_cell(cell: i32, carry: i32, col: usize) -> (swept: (i32, i32))
    requires
        col < MAX_COLUMNS,
        0 <= cell < den_of(col as int),
        0 <= carry,
    ensures
        swept.0 == cell_sum(cell as int, carry as int, col as int) % den_of(col as int),
        swept.1 == cell_sum(cell as int, carry as int, col as int) / den_of(col as int),
        0 <= swept.0 < den_of(col as int),
        0 <= swept.1 <= carry_cap(carry as int),
{
    let d: i32 = den(col as i32);
    proof {
        lemma_cell_step(cell as int, carry as int, col as int);
    }
    if col >= 10 && carry <= 21 && cell <= 0x1999_9999 {
        // The usual case. The cell is divided ahead of the carry, so that
        // no division waits for the column above: half the carry goes into
        // the quotient as it is, and what is left of it raises the
        // quotient by one at most.
        let by: u32 = d as u32;
        let scaled: u32 = 10 * (cell as u32);
        let quotient: u32 = scaled / by;
        let rest: u32 = scaled % by;
        let half: u32 = carry as u32 / 2;
        let odd: u32 = carry as u32 % 2;
        proof {
            lemma_fundamental_div_mod(scaled as int, by as int);
            lemma_split_carry(cell as int, carry as int, col as int, quotient as int, rest as int);
        }
        let extra: u32 = rest + half + odd * (col as u32 + 1);
        // One or zero, without a branch: which of them is hard to foresee.
        let over: u32 = if extra >= by {
            1
        } else {
            0
        };
        assert(over * by == if over == 1 {
            by as int
        } else {
            0
        }) by (nonlinear_arith)
            requires
                over == 0 || over == 1,
        ;
        ((extra - over * by) as i32, (quotient + half + over) as i32)
    } else {
        assert(0 <= (carry as int) * (col + 1) <= 0x7fff_ffff * 0x4000_0000) by (nonlinear_arith)
            requires
                0 <= carry <= 0x7fff_ffff,
                0 <= col < 0x4000_0000,
        ;
        let wide: i64 = d as i64;
        let sum: i64 = 10 * (cell as i64) + (carry as i64) * (col as i64 + 1);
        ((sum % wide) as i32, (sum / wide) as i32)
    }
}

/// Sweeps the cells of a segment whose first cell stands at column `start`:
/// `carry_in` enters at the high end, and the carry that leaves the low end
/// is returned.
pub fn sweep_segment(cells: &mut [i32], start: usize, carry_in: i32) -> (carry_out: i32)
    requires
        start + old(cells)@.len() <= MAX_COLUMNS,
        reduced(old(cells)@, start as int),
        0 <= carry_in,
    ensures
        final(cells)@ == fold_cells(old(cells)@, start as int, carry_in as int),
        carry_out == fold_carry(old(cells)@, start as int, carry_in as int),
        final(cells)@.len() == old(cells)@.len(),
        reduced(final(cells)@, start as int),
        0 <= carry_out <= carry_cap(carry_in as int),
{
    let ghost before = cells@;
    let mut carry: i32 = carry_in;
    let mut i: usize = cells.len();
    proof {
        assert(before.take(i as int) =~= before);
        assert(fold_cells(before, start as int, carry_in as int) + cells@.skip(i as int)
            =~= fold_cells(before, start as int, carry_in as int));
    }
    while i > 0
        invariant
            i <= before.len(),
            cells@.len() == before.len(),
            start + before.len() <= MAX_COLUMNS,
            reduced(before, start as int),
            forall|j: int| 0 <= j < i ==> cells@[j] == before[j],
            0 <= carry <= carry_cap(carry_in as int),
            fold_carry(before, start as int, carry_in as int) == fold_carry(
                before.take(i as int),
                start as int,
                carry as int,
            ),
            fold_cells(before, start as int, carry_in as int) == fold_cells(
                before.take(i as int),
                start as int,
                carry as int,
            ) + cells@.skip(i as int),
        decreases i,
    {
        let ghost upper = cells@.skip(i as int);
        let ghost head = before.take(i as int);
        i -= 1;
        let col: usize = start + i;
        let cell: i32 = cells[i];
        proof {
            assert(cell == before[i as int]);
            assert(head.drop_last() =~= before.take(i as int));
            assert(head.last() == before[i as int]);
        }
        let (kept, next) = sweep_cell(cell, carry, col);
        cells[i] = kept;
        carry = next;
        proof {
            assert(cells@.skip(i as int) =~= seq![kept] + upper);
            assert(fold_cells(before.take(i as int), start as int, carry as int).push(kept) + upper
                =~= fold_cells(before.take(i as int), start as int, carry as int) + cells@.skip(
                i as int,
            ));
        }
    }
    proof {
        assert(before.take(0) =~= Seq::<i32>::empty());
        assert(cells@.skip(0) =~= cells@);
        assert(Seq::<i32>::empty() + cells@ =~= cells@);
        lemma_fold_reduced(before, start as int, carry_in as int);
    }
    carry
}

} // verus!
