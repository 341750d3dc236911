//! The carry-correcting stream behind the spigot.
//!
//! A raw digit of the spigot is provisional: a later raw digit of ten or
//! more carries one into the digit before it, across any nines in
//! between. The stream therefore holds back one digit and counts the nines
//! behind it until the next raw digit decides what they become.
use vstd::prelude::*;
use vstd::std_specs::iter::IteratorSpec;
use std::collections::VecDeque;

verus! {

/// What the correction holds back: the last digit that a carry can still
/// reach, and the number of nines behind it.
pub struct Held {
    pub digit: Option<i32>,
    pub nines: nat,
}

/// The byte that is kept of a raw value once it is handed out.
pub open spec fn low_byte(value: int) -> u8 {
    (value as i32) as u8
}

/// Nothing held: the state before the first raw digit.
pub open spec fn nothing_held() -> Held {
    Held { digit: None, nines: 0 }
}

/// `count` copies of `digit`.
pub open spec fn run_of(digit: u8, count: nat) -> Seq<u8> {
    Seq::new(count, |i: int| digit)
}

/// The digits that leave when the held ones are let go: the held digit
/// raised by `bump`, then `fill` once for each nine.
pub open spec fn release(held: Held, bump: int, fill: u8) -> Seq<u8> {
    let first = match held.digit {
        Some(p) => seq![low_byte(p + bump)],
        None => Seq::<u8>::empty(),
    };
    first + run_of(fill, held.nines)
}

/// What is held once the raw digit `raw` has arrived.
pub open spec fn advance(held: Held, raw: i32) -> Held {
    if raw == 9 {
        Held { digit: held.digit, nines: held.nines + 1 }
    } else if raw < 9 {
        Held { digit: Some(raw), nines: 0 }
    } else {
        Held { digit: Some(raw % 10), nines: 0 }
    }
}

/// The digits that become final when the raw digit `raw` arrives: none for
/// a nine; the held digit and its nines as they are for a smaller one; the
/// held digit plus one and a zero for each nine for a larger one.
pub open spec fn settle(held: Held, raw: i32) -> Seq<u8> {
    if raw == 9 {
        Seq::<u8>::empty()
    } else if raw < 9 {
        release(held, 0, 9)
    } else {
        release(held, 1, 0)
    }
}

/// What is held after the raw digits `raw`.
pub open spec fn held_after(raw: Seq<i32>) -> Held
    decreases raw.len(),
{
    if raw.len() == 0 {
        nothing_held()
    } else {
        advance(held_after(raw.drop_last()), raw.last())
    }
}

/// The digits that are final after the raw digits `raw`, with more to come.
pub open spec fn settled(raw: Seq<i32>) -> Seq<u8>
    decreases raw.len(),
{
    if raw.len() == 0 {
        Seq::<u8>::empty()
    } else {
        settled(raw.drop_last()) + settle(held_after(raw.drop_last()), raw.last())
    }
}

/// The corrected digits of a raw stream that ends after `raw`: what was
/// final, then the held digit and its nines as they are.
pub open spec fn corrected(raw: Seq<i32>) -> Seq<u8> {
    settled(raw) + release(held_after(raw), 0, 9)
}

/// The item at place `k` of a stream that yields `items` and then ends.
pub open spec fn item_at(items: Seq<u8>, k: nat) -> Option<u8> {
    if k < items.len() {
        Some(items[k as int])
    } else {
        None
    }
}

/// The number of raw digits that `held` stands for.
pub open spec fn held_count(held: Held) -> nat {
    held.nines + if held.digit is Some {
        1nat
    } else {
        0nat
    }
}

/// Every raw digit is either final or held, and a held digit is at most nine.
pub proof fn lemma_settled_len(raw: Seq<i32>)
    ensures
        settled(raw).len() + held_count(held_after(raw)) == raw.len(),
        held_after(raw).digit matches Some(p) ==> p <= 9,
    decreases raw.len(),
{
    if raw.len() > 0 {
        lemma_settled_len(raw.drop_last());
    }
}

/// The correction preserves length.
pub proof fn lemma_corrected_len(raw: Seq<i32>)
    ensures
        corrected(raw).len() == raw.len(),
{
    lemma_settled_len(raw);
}

/// Digits that are final stay as they are whatever follows: they are the
/// first digits of the corrected stream however the raw stream goes on.
pub proof fn lemma_settled_is_stable(raw: Seq<i32>, more: Seq<i32>)
    ensures
        settled(raw).is_prefix_of(settled(raw + more)),
        settled(raw).is_prefix_of(corrected(raw + more)),
    decreases more.len(),
{
    if more.len() == 0 {
        assert(raw + more =~= raw);
    } else {
        assert((raw + more).drop_last() =~= raw + more.drop_last());
        lemma_settled_is_stable(raw, more.drop_last());
    }
}

/// Raw digits from `0` to `18` give decimal digits: none above nine.
pub proof fn lemma_corrected_are_decimal(raw: Seq<i32>)
    requires
        forall|i: int| 0 <= i < raw.len() ==> 0 <= #[trigger] raw[i] <= 18,
    ensures
        forall|k: int| 0 <= k < corrected(raw).len() ==> #[trigger] corrected(raw)[k] <= 9,
        forall|k: int| 0 <= k < settled(raw).len() ==> #[trigger] settled(raw)[k] <= 9,
        held_after(raw).digit matches Some(p) ==> 0 <= p <= 8,
    decreases raw.len(),
{
    if raw.len() > 0 {
        let init = raw.drop_last();
        assert forall|i: int| 0 <= i < init.len() implies 0 <= #[trigger] init[i] <= 18 by {
            assert(init[i] == raw[i]);
        }
        lemma_corrected_are_decimal(init);
        let held = held_after(init);
        let out = settle(held, raw.last());
        assert forall|k: int| 0 <= k < out.len() implies #[trigger] out[k] <= 9 by {}
        assert forall|k: int| 0 <= k < settled(raw).len() implies #[trigger] settled(raw)[k]
            <= 9 by {
            if k >= settled(init).len() {
                assert(settled(raw)[k] == out[k - settled(init).len()]);
            }
        }
    }
    let last = release(held_after(raw), 0, 9);
    assert forall|k: int| 0 <= k < corrected(raw).len() implies #[trigger] corrected(raw)[k]
        <= 9 by {
        if k >= settled(raw).len() {
            assert(corrected(raw)[k] == last[k - settled(raw).len()]);
        }
    }
}


/// A first raw digit below nine that is followed by another raw digit
/// below nine comes out as it is.
pub proof fn lemma_first_digit_settles(raw: Seq<i32>)
    requires
        raw.len() >= 2,
        raw[0] < 9,
        raw[1] < 9,
    ensures
        corrected(raw).len() == raw.len(),
        corrected(raw)[0] == low_byte(raw[0] as int),
{
    let two = raw.take(2);
    let one = two.drop_last();
    assert(raw =~= two + raw.skip(2));
    let none = one.drop_last();
    assert(none.len() == 0);
    assert(one.last() == raw[0] && two.last() == raw[1]);
    assert(held_after(none) == nothing_held());
    assert(held_after(one) == Held { digit: Some(raw[0]), nines: 0 });
    assert(release(nothing_held(), 0, 9) =~= Seq::<u8>::empty());
    assert(settled(none) =~= Seq::<u8>::empty());
    assert(settled(one) =~= Seq::<u8>::empty());
    assert(release(held_after(one), 0, 9) =~= seq![low_byte(raw[0] as int)]);
    assert(settled(two) =~= seq![low_byte(raw[0] as int)]);
    lemma_settled_is_stable(two, raw.skip(2));
    lemma_corrected_len(raw);
    assert(settled(two)[0] == corrected(two + raw.skip(2))[0]);
}

/// A stream of corrected digits over a source of raw digits.
///
/// `next` is a method of the stream itself: what it promises is said of a
/// well-formed stream over a source that keeps the laws of iterators, and
/// `std::iter::from_fn` turns the stream into an iterator where one is
/// wanted.
pub struct PiDigitsIter<I> {
    /// The source of raw digits.
    iter: I,
    /// The digit that is held back: a carry can still reach it.
    predigit: Option<i32>,
    /// The number of nines that wait behind the held digit.
    nines: usize,
    /// Digits that are final and wait to be handed out.
    buffer: VecDeque<u8>,
    /// Whether the source has ended and the held digits have been let go.
    done: bool,
    /// The raw digits taken from the source so far.
    consumed: Ghost<Seq<i32>>,
    /// The digits handed out so far.
    delivered: Ghost<Seq<u8>>,
}

impl<I: Iterator<Item = i32>> PiDigitsIter<I> {
    /// The source of raw digits, as it stands.
    pub closed spec fn source(&self) -> I {
        self.iter
    }

    /// The raw digits taken from the source so far.
    pub closed spec fn consumed(&self) -> Seq<i32> {
        self.consumed@
    }

    /// The digits handed out so far.
    pub closed spec fn delivered(&self) -> Seq<u8> {
        self.delivered@
    }

    /// Whether the source has been seen to end.
    pub closed spec fn finished(&self) -> bool {
        self.done
    }

    /// The digits that are final and wait to be handed out.
    pub closed spec fn queued(&self) -> Seq<u8> {
        self.buffer@
    }

    /// The whole raw stream, given what the source has yet to yield: what
    /// was taken, then what is to come unless the source has ended.
    pub open spec fn input(&self, upcoming: Seq<i32>) -> Seq<i32> {
        if self.finished() {
            self.consumed()
        } else {
            self.consumed() + upcoming
        }
    }

    /// The fields agree with the raw digits taken so far: the held digit
    /// and the nines are those of the correction, and what was handed out
    /// or waits in the buffer is what the correction has made final.
    pub closed spec fn wf(&self) -> bool {
        &&& held_after(self.consumed@) == Held {
            digit: self.predigit,
            nines: self.nines as nat,
        }
        &&& self.delivered@ + self.buffer@ == if self.done {
            corrected(self.consumed@)
        } else {
            settled(self.consumed@)
        }
    }

    /// What a well-formed stream has made of the raw digits it has taken:
    /// the digits handed out and those that wait are the digits that are
    /// final, and all corrected digits once the source has ended.
    pub proof fn lemma_output_so_far(&self)
        requires
            self.wf(),
        ensures
            self.delivered() + self.queued() == if self.finished() {
                corrected(self.consumed())
            } else {
                settled(self.consumed())
            },
            (self.delivered() + self.queued()).len() <= self.consumed().len(),
    {
        lemma_settled_len(self.consumed@);
    }

    /// The correction is a function of the raw digits: two streams that
    /// have taken the same raw digits to the end have made the same
    /// digits of them.
    pub proof fn lemma_same_input_same_output<J: Iterator<Item = i32>>(
        &self,
        other: &PiDigitsIter<J>,
    )
        requires
            self.wf(),
            other.wf(),
            self.finished(),
            other.finished(),
            self.consumed() == other.consumed(),
        ensures
            self.delivered() + self.queued() == other.delivered() + other.queued(),
            self.delivered() + self.queued() == corrected(self.consumed()),
    {
    }

    /// A stream over `iter` that has taken and handed out nothing yet.
    pub fn new(iter: I) -> (stream: Self)
        ensures
            stream.wf(),
            stream.source() == iter,
            stream.consumed() == Seq::<i32>::empty(),
            stream.delivered() == Seq::<u8>::empty(),
            stream.queued() == Seq::<u8>::empty(),
            !stream.finished(),
    {
        let stream = PiDigitsIter {
            iter,
            predigit: None,
            nines: 0,
            buffer: VecDeque::new(),
            done: false,
            consumed: Ghost(Seq::empty()),
            delivered: Ghost(Seq::empty()),
        };
        assert(stream.delivered@ + stream.buffer@ =~= settled(stream.consumed@));
        stream
    }

    /// Puts the low byte of `digit` at the end of the buffer.
    fn queue_digit(&mut self, digit: i32)
        ensures
            final(self).buffer@ == old(self).buffer@.push(low_byte(digit as int)),
            final(self).iter == old(self).iter,
            final(self).predigit == old(self).predigit,
            final(self).nines == old(self).nines,
            final(self).done == old(self).done,
            final(self).consumed == old(self).consumed,
            final(self).delivered == old(self).delivered,
    {
        self.buffer.push_back(#[verifier::truncate] (digit as u8));
    }

    /// Lets the held digits go into the buffer: the held digit raised by
    /// `bump`, then `fill` once for each nine.
    fn queue_held(&mut self, bump: i32, fill: i32)
        requires
            0 <= bump <= 1,
            0 <= fill <= 9,
            old(self).predigit matches Some(p) ==> p <= 9,
        ensures
            final(self).buffer@ == old(self).buffer@ + release(
                Held { digit: old(self).predigit, nines: old(self).nines as nat },
                bump as int,
                fill as u8,
            ),
            final(self).iter == old(self).iter,
            final(self).predigit == old(self).predigit,
            final(self).nines == old(self).nines,
            final(self).done == old(self).done,
            final(self).consumed == old(self).consumed,
            final(self).delivered == old(self).delivered,
    {
        let ghost held = Held { digit: self.predigit, nines: self.nines as nat };
        let ghost first = match held.digit {
            Some(p) => seq![low_byte(p + bump)],
            None => Seq::<u8>::empty(),
        };
        if let Some(p) = self.predigit {
            self.queue_digit(p + bump);
        }
        assert(self.buffer@ =~= old(self).buffer@ + first);
        let mut i: usize = 0;
        while i < self.nines
            invariant
                i <= self.nines,
                0 <= fill <= 9,
                self.buffer@ == old(self).buffer@ + first + run_of(fill as u8, i as nat),
                self.iter == old(self).iter,
                self.predigit == old(self).predigit,
                self.nines == old(self).nines,
                self.done == old(self).done,
                self.consumed == old(self).consumed,
                self.delivered == old(self).delivered,
            decreases self.nines - i,
        {
            self.queue_digit(fill);
            i += 1;
            assert(self.buffer@ =~= old(self).buffer@ + first + run_of(fill as u8, i as nat));
        }
        assert(self.buffer@ =~= old(self).buffer@ + release(held, bump as int, fill as u8));
    }

    /// Takes the first digit out of the buffer and counts it as handed out.
    fn hand_out(&mut self) -> (digit: Option<u8>)
        requires
            old(self).buffer@.len() > 0,
        ensures
            digit == Some(old(self).buffer@[0]),
            final(self).delivered@ == old(self).delivered@.push(old(self).buffer@[0]),
            final(self).delivered@ + final(self).buffer@ == old(self).delivered@ + old(
                self,
            ).buffer@,
            final(self).iter == old(self).iter,
            final(self).predigit == old(self).predigit,
            final(self).nines == old(self).nines,
            final(self).done == old(self).done,
            final(self).consumed == old(self).consumed,
    {
        let digit = self.buffer.pop_front();
        proof {
            self.delivered@ = self.delivered@.push(old(self).buffer@[0]);
            assert(self.delivered@ + self.buffer@ =~= old(self).delivered@ + old(self).buffer@);
        }
        digit
    }

    /// The next corrected digit, or `None` once the stream has ended.
    ///
    /// The digit handed out is the one at the place of this call in the
    /// correction of the whole raw stream. Raw digits are taken from the
    /// source only while no digit is ready, and no more of them than it
    /// takes to make one ready or to see the source end.
    pub fn next(&mut self) -> (digit: Option<u8>)
        requires
            old(self).wf(),
            old(self).source().obeys_prophetic_iter_laws(),
            old(self).input(old(self).source().remaining()).len() <= usize::MAX,
        ensures
            final(self).wf(),
            final(self).source().obeys_prophetic_iter_laws(),
            final(self).input(final(self).source().remaining()) == old(self).input(
                old(self).source().remaining(),
            ),
            digit == item_at(
                corrected(old(self).input(old(self).source().remaining())),
                old(self).delivered().len(),
            ),
            final(self).delivered() == match digit {
                Some(d) => old(self).delivered().push(d),
                None => old(self).delivered(),
            },
            digit is None ==> final(self).finished(),
            old(self).finished() ==> final(self).finished(),
            old(self).consumed().is_prefix_of(final(self).consumed()),
            old(self).queued().len() > 0 ==> final(self).consumed() == old(self).consumed()
                && final(self).finished() == old(self).finished(),
            forall|m: int|
                old(self).consumed().len() <= m < final(self).consumed().len() ==> settled(
                    #[trigger] old(self).input(old(self).source().remaining()).take(m),
                ).len() == old(self).delivered().len(),
    {
        let ghost whole = self.input(self.iter.remaining());
        proof {
            if !self.done {
                lemma_settled_is_stable(self.consumed@, self.iter.remaining());
            }
            lemma_corrected_len(whole);
        }
        if self.buffer.len() > 0 {
            assert((self.delivered@ + self.buffer@)[self.delivered@.len() as int]
                == self.buffer@[0]);
            return self.hand_out();
        }
        if self.done {
            assert(self.delivered@ =~= self.delivered@ + self.buffer@);
            return None;
        }
        loop
            invariant_except_break
                self.buffer@.len() == 0,
                settled(self.consumed@).len() == self.delivered@.len(),
            invariant
                self.wf(),
                !self.done,
                self.iter.obeys_prophetic_iter_laws(),
                self.consumed@ + self.iter.remaining() == whole,
                whole.len() <= usize::MAX,
                whole == old(self).input(old(self).iter.remaining()),
                self.delivered == old(self).delivered,
                old(self).buffer@.len() == 0,
                old(self).consumed@.is_prefix_of(self.consumed@),
                forall|m: int|
                    old(self).consumed@.len() <= m < self.consumed@.len() ==> settled(
                        #[trigger] whole.take(m),
                    ).len() == self.delivered@.len(),
            ensures
                self.iter.remaining().len() == 0,
            decreases usize::MAX - self.consumed@.len(),
        {
            let ghost taken = self.consumed@;
            let ghost rest = self.iter.remaining();
            match self.iter.next() {
                None => {
                    break ;
                },
                Some(d) => {
                    proof {
                        lemma_settled_len(taken);
                        self.consumed@ = taken.push(d);
                        assert(taken.push(d).drop_last() =~= taken);
                        assert(taken.push(d) + self.iter.remaining() =~= taken + rest);
                        assert(whole.take(taken.len() as int) =~= taken);
                    }
                    if d == 9 {
                        self.nines += 1;
                        assert(self.delivered@ + self.buffer@ =~= settled(self.consumed@));
                    } else if d < 9 {
                        self.queue_held(0, 9);
                        self.predigit = Some(d);
                        self.nines = 0;
                        assert(self.delivered@ + self.buffer@ =~= settled(self.consumed@));
                    } else {
                        self.queue_held(1, 0);
                        self.predigit = Some(d % 10);
                        self.nines = 0;
                        assert(self.delivered@ + self.buffer@ =~= settled(self.consumed@));
                    }
                    if self.buffer.len() > 0 {
                        proof {
                            lemma_settled_is_stable(self.consumed@, self.iter.remaining());
                            assert((self.delivered@ + self.buffer@)[self.delivered@.len() as int]
                                == self.buffer@[0]);
                        }
                        return self.hand_out();
                    }
                },
            }
        }
        proof {
            lemma_settled_len(self.consumed@);
            assert(self.consumed@ + self.iter.remaining() =~= self.consumed@);
        }
        self.done = true;
        self.queue_held(0, 9);
        assert(self.delivered@ + self.buffer@ =~= corrected(self.consumed@));
        if self.buffer.len() > 0 {
            assert((self.delivered@ + self.buffer@)[self.delivered@.len() as int]
                == self.buffer@[0]);
            self.hand_out()
        } else {
            assert(self.delivered@ =~= self.delivered@ + self.buffer@);
            None
        }
    }
}

} // verus!
