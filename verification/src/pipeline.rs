//! The sweep as a pipeline: the accumulator cut into balanced segments,
//! one per stage, and the carry of each sweep handed from the stage at the
//! high end down to the stage at the low end.
use vstd::prelude::*;
use vstd::std_specs::iter::IteratorSpecImpl;
use crate::accumulator::carry_cap;
use crate::accumulator::fold_carry;
use crate::accumulator::fold_cells;
use crate::accumulator::lemma_fold_len;
use crate::accumulator::lemma_fold_split;
use crate::accumulator::reduced;
use crate::accumulator::sweep_segment;
use crate::accumulator::MAX_COLUMNS;
use crate::balanced_chunks_mut::balanced_chunks;
use crate::balanced_chunks_mut::chunk_offset;
use crate::balanced_chunks_mut::chunk_start;
use crate::balanced_chunks_mut::lemma_chunk_bounds;
use crate::balanced_chunks_mut::lemma_chunk_start_nonnegative;
use crate::pi_digits;
use crate::pi_digits_iter::corrected;
use crate::raw_digits::column_count;
use crate::raw_digits::columns_for;
use crate::raw_digits::initial_cells;
use crate::raw_digits::raw_digits;
use crate::raw_digits::raw_stream;
use crate::raw_digits::MAX_DIGITS;

verus! {

/// The column at which the chunk of stage `j` starts.
pub open spec fn stage_start(cells: Seq<i32>, stages: nat, j: int) -> int {
    chunk_start(cells.len() as int, stages as int, j)
}

/// The carry that stage `from` hands down when `carry` enters the stage at
/// the high end and every stage from there down to `from` has swept its
/// chunk of `cells`.
pub open spec fn staged_carry(cells: Seq<i32>, stages: nat, from: nat, carry: int) -> int
    decreases stages - from,
{
    if from >= stages {
        carry
    } else {
        fold_carry(
            balanced_chunks(cells, stages)[from as int],
            stage_start(cells, stages, from as int),
            staged_carry(cells, stages, from + 1, carry),
        )
    }
}

/// The chunk of stage `j` after that sweep.
pub open spec fn staged_chunk(cells: Seq<i32>, stages: nat, j: nat, carry: int) -> Seq<i32> {
    fold_cells(
        balanced_chunks(cells, stages)[j as int],
        stage_start(cells, stages, j as int),
        staged_carry(cells, stages, j + 1, carry),
    )
}

/// The chunks of the stages from `from` up after that sweep, put end to end.
pub open spec fn staged_cells(cells: Seq<i32>, stages: nat, from: nat, carry: int) -> Seq<i32>
    decreases stages - from,
{
    if from >= stages {
        Seq::empty()
    } else {
        staged_chunk(cells, stages, from, carry) + staged_cells(cells, stages, from + 1, carry)
    }
}

/// The raw digits of `count` sweeps made by `stages` stages.
pub open spec fn staged_stream(cells: Seq<i32>, stages: nat, count: nat) -> Seq<i32>
    decreases count,
{
    if count == 0 {
        Seq::empty()
    } else {
        seq![staged_carry(cells, stages, 0, 0) as i32] + staged_stream(
            staged_cells(cells, stages, 0, 0),
            stages,
            (count - 1) as nat,
        )
    }
}

/// The stages from `from` up do together what one sweep does to the
/// columns from the start of stage `from` up.
pub proof fn lemma_stages_sweep_upper_columns(cells: Seq<i32>, stages: nat, from: nat, carry: int)
    requires
        from <= stages,
        stages > 0,
    ensures
        0 <= stage_start(cells, stages, from as int) <= cells.len(),
        staged_carry(cells, stages, from, carry) == fold_carry(
            cells.skip(stage_start(cells, stages, from as int)),
            stage_start(cells, stages, from as int),
            carry,
        ),
        staged_cells(cells, stages, from, carry) == fold_cells(
            cells.skip(stage_start(cells, stages, from as int)),
            stage_start(cells, stages, from as int),
            carry,
        ),
    decreases stages - from,
{
    let len = cells.len() as int;
    let start = stage_start(cells, stages, from as int);
    if from == stages {
        lemma_chunk_bounds(len, stages as int, 0);
        assert(cells.skip(start) =~= Seq::<i32>::empty());
    } else {
        lemma_chunk_bounds(len, stages as int, from as int);
        lemma_chunk_start_nonnegative(len, stages as int, from as int);
        lemma_stages_sweep_upper_columns(cells, stages, from + 1, carry);
        let next = stage_start(cells, stages, from as int + 1);
        let chunk = balanced_chunks(cells, stages)[from as int];
        assert(chunk == cells.subrange(start, next));
        assert(cells.skip(start) =~= chunk + cells.skip(next));
        lemma_fold_split(chunk, cells.skip(next), start, carry);
    }
}

/// A sweep made stage by stage is the sweep over the whole accumulator:
/// the same raw digit leaves the lowest stage and the same cells are left.
pub proof fn lemma_staged_sweep_is_sweep(cells: Seq<i32>, stages: nat, carry: int)
    requires
        stages > 0,
    ensures
        staged_carry(cells, stages, 0, carry) == fold_carry(cells, 0, carry),
        staged_cells(cells, stages, 0, carry) == fold_cells(cells, 0, carry),
{
    lemma_stages_sweep_upper_columns(cells, stages, 0, carry);
    lemma_chunk_bounds(cells.len() as int, stages as int, 0);
    assert(cells.skip(0) =~= cells);
}

/// After a sweep each stage holds its chunk of the swept accumulator.
pub proof fn lemma_stage_keeps_its_chunk(cells: Seq<i32>, stages: nat, j: nat, carry: int)
    requires
        j < stages,
    ensures
        balanced_chunks(fold_cells(cells, 0, carry), stages)[j as int] == staged_chunk(
            cells,
            stages,
            j,
            carry,
        ),
{
    let len = cells.len() as int;
    let start = stage_start(cells, stages, j as int);
    let next = stage_start(cells, stages, j as int + 1);
    lemma_chunk_bounds(len, stages as int, j as int);
    lemma_chunk_start_nonnegative(len, stages as int, j as int);
    lemma_stages_sweep_upper_columns(cells, stages, j + 1, carry);
    let low = cells.take(start);
    let chunk = balanced_chunks(cells, stages)[j as int];
    let high = cells.skip(next);
    assert(chunk == cells.subrange(start, next));
    assert(cells.skip(start) =~= chunk + high);
    assert(cells =~= low + cells.skip(start));
    lemma_fold_split(low, cells.skip(start), 0, carry);
    lemma_fold_split(chunk, high, start, carry);
    lemma_fold_len(low, 0, fold_carry(cells.skip(start), start, carry));
    lemma_fold_len(chunk, start, fold_carry(high, next, carry));
    lemma_fold_len(high, next, carry);
    lemma_fold_len(cells, 0, carry);
    let swept = fold_cells(cells, 0, carry);
    assert(swept.subrange(start, next) =~= staged_chunk(cells, stages, j, carry));
}

/// Sweeps made by any number of stages yield the raw digits of sweeps
/// over the whole accumulator.
pub proof fn lemma_staged_stream_is_raw_stream(cells: Seq<i32>, stages: nat, count: nat)
    requires
        stages > 0,
    ensures
        staged_stream(cells, stages, count) == raw_stream(cells, count),
    decreases count,
{
    if count > 0 {
        lemma_staged_sweep_is_sweep(cells, stages, 0);
        lemma_staged_stream_is_raw_stream(fold_cells(cells, 0, 0), stages, (count - 1) as nat);
    }
}

/// The pipeline yields the digits of the sequential run, whatever the
/// number of stages.
pub proof fn lemma_pipeline_yields_pi_digits(n: nat, stages: nat)
    requires
        stages > 0,
    ensures
        corrected(staged_stream(initial_cells(columns_for(n)), stages, n)) == pi_digits(n),
{
    lemma_staged_stream_is_raw_stream(initial_cells(columns_for(n)), stages, n);
}

/// The segment of one stage: its cells and the column of the first of them.
pub struct Segment {
    cells: Vec<i32>,
    start: usize,
}

impl Segment {
    /// The cells of the segment, from its low end to its high end.
    pub closed spec fn cells(&self) -> Seq<i32> {
        self.cells@
    }

    /// The column of the first cell.
    pub closed spec fn start(&self) -> int {
        self.start as int
    }

    /// The segment lies within the columns an accumulator may have, and
    /// its cells are reduced.
    pub closed spec fn wf(&self) -> bool {
        &&& self.start + self.cells@.len() <= MAX_COLUMNS
        &&& reduced(self.cells@, self.start as int)
    }

    /// The segment of stage `worker_idx` of `num_workers` before the first
    /// sweep over an accumulator of `total_len` columns: its chunk of the
    /// initial accumulator.
    pub fn new(total_len: usize, num_workers: usize, worker_idx: usize) -> (segment: Self)
        requires
            total_len <= MAX_COLUMNS,
            worker_idx < num_workers,
        ensures
            segment.wf(),
            segment.start() == chunk_start(
                total_len as int,
                num_workers as int,
                worker_idx as int,
            ),
            segment.cells() == balanced_chunks(
                initial_cells(total_len as nat),
                num_workers as nat,
            )[worker_idx as int],
    {
        let base_size = total_len / num_workers;
        let remainder = total_len % num_workers;
        let chunk_size = base_size + if worker_idx < remainder {
            1
        } else {
            0
        };
        let start = chunk_offset(total_len, num_workers, worker_idx);
        let mut cells: Vec<i32> = Vec::with_capacity(chunk_size);
        while cells.len() < chunk_size
            invariant
                cells@.len() <= chunk_size,
                cells@ == initial_cells(cells@.len()),
            decreases chunk_size - cells@.len(),
        {
            cells.push(2);
            assert(cells@ =~= initial_cells(cells@.len()));
        }
        proof {
            lemma_chunk_start_nonnegative(total_len as int, num_workers as int, worker_idx as int);
            assert(cells@ =~= balanced_chunks(
                initial_cells(total_len as nat),
                num_workers as nat,
            )[worker_idx as int]);
        }
        Segment { cells, start }
    }

    /// Sweeps the segment: `carry_in` enters at its high end, and the
    /// carry that leaves its low end is returned.
    pub fn process(&mut self, carry_in: i32) -> (carry_out: i32)
        requires
            old(self).wf(),
            0 <= carry_in,
        ensures
            final(self).wf(),
            final(self).start() == old(self).start(),
            final(self).cells() == fold_cells(
                old(self).cells(),
                old(self).start(),
                carry_in as int,
            ),
            carry_out == fold_carry(old(self).cells(), old(self).start(), carry_in as int),
            0 <= carry_out <= carry_cap(carry_in as int),
    {
        sweep_segment(self.cells.as_mut_slice(), self.start, carry_in)
    }
}

/// The stage `j` of `stages` holds its chunk of the accumulator `cells`.
spec fn holds_chunk(segment: Segment, cells: Seq<i32>, stages: nat, j: int) -> bool {
    &&& segment.wf()
    &&& segment.start() == stage_start(cells, stages, j)
    &&& segment.cells() == balanced_chunks(cells, stages)[j]
}

/// The stages of a pipeline, the one at the low end first, and the number
/// of sweeps they have yet to make.
struct Stages {
    segments: Vec<Segment>,
    left: usize,
    /// The accumulator that the segments make up.
    cells: Ghost<Seq<i32>>,
}

impl Stages {
    /// Every stage holds its chunk of the accumulator, and a pipeline
    /// without stages has no sweep to make.
    spec fn wf(&self) -> bool {
        &&& self.cells@.len() <= MAX_COLUMNS
        &&& self.segments@.len() == 0 ==> self.left == 0
        &&& forall|j: int|
            0 <= j < self.segments@.len() ==> holds_chunk(
                #[trigger] self.segments@[j],
                self.cells@,
                self.segments@.len(),
                j,
            )
    }

    /// One sweep: the carry goes from the stage at the high end down to
    /// the stage at the low end, which hands out the raw digit.
    fn sweep(&mut self) -> (raw: i32)
        requires
            old(self).wf(),
            old(self).left > 0,
        ensures
            final(self).wf(),
            final(self).left == old(self).left - 1,
            final(self).cells@ == fold_cells(old(self).cells@, 0, 0),
            raw == fold_carry(old(self).cells@, 0, 0),
    {
        let ghost cells = self.cells@;
        let ghost stages = self.segments@.len();
        let mut carry: i32 = 0;
        let mut j: usize = self.segments.len();
        while j > 0
            invariant
                j <= stages,
                stages == self.segments@.len(),
                stages > 0,
                cells.len() <= MAX_COLUMNS,
                0 <= carry <= 20,
                carry == staged_carry(cells, stages, j as nat, 0),
                forall|i: int|
                    0 <= i < j ==> holds_chunk(#[trigger] self.segments@[i], cells, stages, i),
                forall|i: int|
                    j <= i < stages ==> {
                        &&& (#[trigger] self.segments@[i]).wf()
                        &&& self.segments@[i].start() == stage_start(cells, stages, i)
                        &&& self.segments@[i].cells() == staged_chunk(cells, stages, i as nat, 0)
                    },
                self.left == old(self).left,
                self.cells@ == cells,
            decreases j,
        {
            j -= 1;
            let ghost before = self.segments@;
            carry = self.segments[j].process(carry);
            assert(forall|i: int| 0 <= i < stages && i != j ==> self.segments@[i] == before[i]);
        }
        proof {
            lemma_staged_sweep_is_sweep(cells, stages, 0);
            lemma_fold_len(cells, 0, 0);
            self.cells@ = fold_cells(cells, 0, 0);
            assert forall|i: int| 0 <= i < stages implies holds_chunk(
                #[trigger] self.segments@[i],
                self.cells@,
                stages,
                i,
            ) by {
                lemma_stage_keeps_its_chunk(cells, stages, i as nat, 0);
            }
        }
        self.left = self.left - 1;
        carry
    }
}

/// The raw digits of the spigot, made by a pipeline of stages that sweep
/// one after the other in a single thread.
pub struct StagedDigits {
    state: Stages,
}

impl StagedDigits {
    /// The stages hold their chunks of one accumulator.
    #[verifier::type_invariant]
    spec fn well_formed(self) -> bool {
        self.state.wf()
    }

    /// The raw digits that are still to come.
    pub closed spec fn pending(&self) -> Seq<i32> {
        raw_stream(self.state.cells@, self.state.left as nat)
    }

    /// A pipeline of `num_stages` stages for `n_digits` digits, before its
    /// first sweep. Without stages it yields nothing.
    pub fn new(n_digits: usize, num_stages: usize) -> (pipeline: Self)
        requires
            n_digits <= MAX_DIGITS,
        ensures
            pipeline.pending() == if num_stages == 0 {
                Seq::<i32>::empty()
            } else {
                raw_digits(n_digits as nat)
            },
    {
        let total_len = column_count(n_digits);
        let ghost cells = initial_cells(total_len as nat);
        let mut segments: Vec<Segment> = Vec::with_capacity(num_stages);
        while segments.len() < num_stages
            invariant
                segments@.len() <= num_stages,
                total_len <= MAX_COLUMNS,
                cells == initial_cells(total_len as nat),
                forall|j: int|
                    0 <= j < segments@.len() ==> holds_chunk(
                        #[trigger] segments@[j],
                        cells,
                        num_stages as nat,
                        j,
                    ),
            decreases num_stages - segments@.len(),
        {
            let segment = Segment::new(total_len, num_stages, segments.len());
            segments.push(segment);
        }
        let left = if num_stages == 0 {
            0
        } else {
            n_digits
        };
        StagedDigits { state: Stages { segments, left, cells: Ghost(cells) } }
    }
}

impl Iterator for StagedDigits {
    type Item = i32;

    /// Makes one sweep through all stages and hands out its raw digit, as
    /// long as sweeps are left.
    fn next(&mut self) -> (raw: Option<i32>)
        ensures
            match raw {
                Some(digit) => old(self).pending().len() > 0 && digit == old(self).pending()[0]
                    && final(self).pending() == old(self).pending().drop_first(),
                None => old(self).pending().len() == 0 && final(self).pending() == old(
                    self,
                ).pending(),
            },
    {
        proof {
            use_type_invariant(&*self);
        }
        if self.state.left == 0 {
            None
        } else {
            // The stages work outside the pipeline, whose invariant admits
            // no state in which only some of them have swept.
            let mut state = Stages { segments: Vec::new(), left: 0, cells: Ghost(Seq::empty()) };
            std::mem::swap(&mut self.state, &mut state);
            let ghost before = state.cells@;
            let carry = state.sweep();
            proof {
                assert(raw_stream(before, (state.left + 1) as nat).drop_first() =~= raw_stream(
                    state.cells@,
                    state.left as nat,
                ));
            }
            std::mem::swap(&mut self.state, &mut state);
            Some(carry)
        }
    }
}

impl IteratorSpecImpl for StagedDigits {
    /// The pipeline keeps the laws of iterators whatever its state.
    open spec fn obeys_prophetic_iter_laws(&self) -> bool {
        true
    }

    /// What the pipeline will yield is what its state determines.
    open spec fn remaining(&self) -> Seq<i32> {
        self.pending()
    }

    /// The pipeline ends: every sweep is a finite loop.
    open spec fn will_return_none(&self) -> bool {
        true
    }

    /// The number of sweeps left goes down with every raw digit.
    closed spec fn decrease(&self) -> Option<nat> {
        Some(self.state.left as nat)
    }

    /// Nothing more is known of a pipeline in a loop than of any other.
    open spec fn initial_value_relation(&self, init: &Self) -> bool {
        true
    }

    /// No raw digit is known before its sweep.
    open spec fn peek(&self, index: int) -> Option<i32> {
        None
    }
}

} // verus!
