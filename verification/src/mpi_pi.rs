//! The pipeline across the ranks of a message-passing job.
//!
//! Rank `0` coordinates: it sends one trigger for each digit to the
//! highest rank, then the end mark, and collects the raw digits from rank
//! `1`. Every other rank is a stage: rank `1` holds the segment at the low
//! end of the accumulator, the highest rank the one at the high end.
//! This module decides what each rank does next; sending and receiving is
//! left to the caller.
use vstd::prelude::*;
use crate::accumulator::fold_carry;
use crate::accumulator::fold_cells;
use crate::balanced_chunks_mut::balanced_chunks;
use crate::balanced_chunks_mut::chunk_start;
use crate::lemma_pi_digits_are_decimal;
use crate::lemma_pi_digits_len;
use crate::pi_digits;
use crate::pi_digits_iter::corrected;
use crate::pi_digits_iter::lemma_corrected_are_decimal;
use crate::pi_digits_iter::lemma_corrected_len;
use crate::pipeline::lemma_pipeline_yields_pi_digits;
use crate::pipeline::staged_stream;
use crate::pipeline::Segment;
use crate::raw_digits::column_count;
use crate::raw_digits::columns_for;
use crate::raw_digits::initial_cells;
use crate::raw_digits::MAX_DIGITS;

verus! {

/// The tags of the messages between ranks.
#[derive(Debug, Clone, Copy)]
pub enum MpiTag {
    /// A carry, a trigger or the end mark.
    Carry,
}

impl MpiTag {
    /// The number that stands for the tag on the wire.
    pub fn as_i32(self) -> (tag: i32)
        ensures
            tag == 0,
    {
        match self {
            MpiTag::Carry => 0,
        }
    }
}

/// The value that ends the stream of carries.
pub const END_OF_STREAM: i32 = -1;

/// The value that starts a sweep at the high end of the accumulator.
pub const TRIGGER: i32 = 0;

/// One step of the coordinator.
#[derive(Debug, Clone, Copy, PartialEq, Eq)]
pub enum CoordinatorAction {
    /// Send `value` to rank `to`.
    Send { to: i32, value: i32 },
    /// Receive a raw digit from rank `from` and hand it to the stream.
    Receive { from: i32 },
    /// Hand `value` to the stream as a raw digit: no stage computes any.
    Emit { value: i32 },
}

/// What the coordinator of a job of `size` ranks does for `n` digits, in
/// order: with stages, a trigger for each digit and the end mark to the
/// highest rank, then a raw digit for each digit from rank `1`; alone, a
/// zero for each digit.
pub open spec fn coordinator_schedule(size: i32, n: nat) -> Seq<CoordinatorAction> {
    if size > 1 {
        Seq::new(n, |i: int| CoordinatorAction::Send { to: (size - 1) as i32, value: TRIGGER })
            + seq![CoordinatorAction::Send { to: (size - 1) as i32, value: END_OF_STREAM }]
            + Seq::new(n, |i: int| CoordinatorAction::Receive { from: 1 })
    } else {
        Seq::new(n, |i: int| CoordinatorAction::Emit { value: TRIGGER })
    }
}

/// The coordinator: what is left of its schedule.
pub struct Coordinator {
    /// The rank that gets the triggers.
    last_rank: i32,
    /// Triggers still to send.
    triggers: usize,
    /// Whether the end mark is still to send.
    end_mark: bool,
    /// Raw digits still to receive.
    results: usize,
    /// Zeros still to hand to the stream.
    zeros: usize,
}

impl View for Coordinator {
    type V = Seq<CoordinatorAction>;

    /// The steps still to take, in order.
    closed spec fn view(&self) -> Seq<CoordinatorAction> {
        Seq::new(
            self.triggers as nat,
            |i: int| CoordinatorAction::Send { to: self.last_rank, value: TRIGGER },
        ) + (if self.end_mark {
            seq![CoordinatorAction::Send { to: self.last_rank, value: END_OF_STREAM }]
        } else {
            Seq::empty()
        }) + Seq::new(self.results as nat, |i: int| CoordinatorAction::Receive { from: 1 })
            + Seq::new(self.zeros as nat, |i: int| CoordinatorAction::Emit { value: TRIGGER })
    }
}

impl Coordinator {
    /// The coordinator of a job of `size` ranks, before its first step.
    pub fn new(size: i32, n_digits: usize) -> (coordinator: Self)
        requires
            size >= 1,
        ensures
            coordinator@ == coordinator_schedule(size, n_digits as nat),
    {
        let coordinator = if size > 1 {
            Coordinator {
                last_rank: size - 1,
                triggers: n_digits,
                end_mark: true,
                results: n_digits,
                zeros: 0,
            }
        } else {
            Coordinator { last_rank: 0, triggers: 0, end_mark: false, results: 0, zeros: n_digits }
        };
        assert(coordinator@ =~= coordinator_schedule(size, n_digits as nat));
        coordinator
    }

    /// The next step, or `None` when the schedule is done.
    pub fn next_action(&mut self) -> (action: Option<CoordinatorAction>)
        ensures
            match action {
                Some(step) => old(self)@.len() > 0 && step == old(self)@.first() && final(self)@
                    == old(self)@.drop_first(),
                None => old(self)@.len() == 0 && final(self)@ == old(self)@,
            },
    {
        if self.triggers > 0 {
            self.triggers -= 1;
            assert(self@ =~= old(self)@.drop_first());
            Some(CoordinatorAction::Send { to: self.last_rank, value: TRIGGER })
        } else if self.end_mark {
            self.end_mark = false;
            assert(self@ =~= old(self)@.drop_first());
            Some(CoordinatorAction::Send { to: self.last_rank, value: END_OF_STREAM })
        } else if self.results > 0 {
            self.results -= 1;
            assert(self@ =~= old(self)@.drop_first());
            Some(CoordinatorAction::Receive { from: 1 })
        } else if self.zeros > 0 {
            self.zeros -= 1;
            assert(self@ =~= old(self)@.drop_first());
            Some(CoordinatorAction::Emit { value: TRIGGER })
        } else {
            None
        }
    }
}

/// The raw digits that reach the coordinator of a job of `size` ranks for
/// `n` digits: with stages, those of the pipeline of `size - 1` stages;
/// alone, a zero for each digit.
pub open spec fn job_raw_digits(size: i32, n: nat) -> Seq<i32> {
    if size > 1 {
        staged_stream(initial_cells(columns_for(n)), (size - 1) as nat, n)
    } else {
        Seq::new(n, |i: int| TRIGGER)
    }
}

/// A job yields as many digits as were asked for, all of them decimal,
/// and with at least one stage the digits of the sequential run.
pub proof fn lemma_job_digits(size: i32, n: nat)
    requires
        size >= 1,
        n <= MAX_DIGITS,
    ensures
        corrected(job_raw_digits(size, n)).len() == n,
        forall|k: int|
            0 <= k < n ==> #[trigger] corrected(job_raw_digits(size, n))[k] <= 9,
        size > 1 ==> corrected(job_raw_digits(size, n)) == pi_digits(n),
{
    if size > 1 {
        lemma_pipeline_yields_pi_digits(n, (size - 1) as nat);
        lemma_pi_digits_len(n);
        lemma_pi_digits_are_decimal(n);
    } else {
        lemma_corrected_len(job_raw_digits(size, n));
        lemma_corrected_are_decimal(job_raw_digits(size, n));
    }
}

/// The rank from which the stage at `rank` receives: the next higher
/// rank, or the coordinator for the highest rank.
pub fn upstream_rank(rank: i32, size: i32) -> (from: i32)
    requires
        1 <= rank < size,
    ensures
        from == if rank == size - 1 {
            0
        } else {
            rank + 1
        },
{
    if rank == size - 1 {
        0
    } else {
        rank + 1
    }
}

/// The segment of the stage at `rank` in a job of `size` ranks for
/// `n_digits` digits: the stages are the ranks from `1` up, so the stage at
/// `rank` holds chunk `rank - 1` of `size - 1`.
pub fn worker_segment(n_digits: usize, rank: i32, size: i32) -> (segment: Segment)
    requires
        n_digits <= MAX_DIGITS,
        1 <= rank < size,
    ensures
        segment.wf(),
        segment.start() == chunk_start(
            columns_for(n_digits as nat) as int,
            size - 1,
            rank - 1,
        ),
        segment.cells() == balanced_chunks(
            initial_cells(columns_for(n_digits as nat)),
            (size - 1) as nat,
        )[rank - 1],
{
    let total_len = column_count(n_digits);
    let num_workers = (size - 1) as usize;
    let worker_idx = (rank - 1) as usize;
    Segment::new(total_len, num_workers, worker_idx)
}

/// What a stage does with a value it has received.
#[derive(Debug, Clone, Copy, PartialEq, Eq)]
pub enum WorkerAction {
    /// Send `value`, the carry out of the segment, to rank `to`.
    Send { to: i32, value: i32 },
    /// The stream has ended: pass the end mark on to `forward_to`, if any,
    /// and leave.
    Stop { forward_to: Option<i32> },
    /// The value is neither a carry nor the end mark: give up.
    Abort,
}

/// What the stage at `rank` does when `received` arrives and its segment
/// holds `cells` from column `start` on.
pub open spec fn worker_reaction(cells: Seq<i32>, start: int, rank: i32, received: i32)
    -> WorkerAction {
    if received == END_OF_STREAM {
        WorkerAction::Stop {
            forward_to: if rank > 1 {
                Some((rank - 1) as i32)
            } else {
                None
            },
        }
    } else if received >= 0 {
        WorkerAction::Send {
            to: (rank - 1) as i32,
            value: fold_carry(cells, start, received as int) as i32,
        }
    } else {
        WorkerAction::Abort
    }
}

/// Handles one received value at the stage at `rank`: on a carry the
/// segment is swept and its carry goes to the next lower rank; on the end
/// mark the stage stops, after passing the mark on unless it is rank `1`.
pub fn worker_step(segment: &mut Segment, rank: i32, received: i32) -> (action: WorkerAction)
    requires
        old(segment).wf(),
        1 <= rank,
    ensures
        final(segment).wf(),
        final(segment).start() == old(segment).start(),
        action == worker_reaction(old(segment).cells(), old(segment).start(), rank, received),
        final(segment).cells() == if received >= 0 {
            fold_cells(old(segment).cells(), old(segment).start(), received as int)
        } else {
            old(segment).cells()
        },
{
    if received == END_OF_STREAM {
        WorkerAction::Stop {
            forward_to: if rank > 1 {
                Some(rank - 1)
            } else {
                None
            },
        }
    } else if received >= 0 {
        let carry = segment.process(received);
        WorkerAction::Send { to: rank - 1, value: carry }
    } else {
        WorkerAction::Abort
    }
}

} // verus!
