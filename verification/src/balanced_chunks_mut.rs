//! Cutting a buffer into a given number of chunks of nearly equal length.
//!
//! Where the length does not divide evenly, the first chunks are one longer
//! than the others, so no two chunks differ by more than one element.
use vstd::prelude::*;
use vstd::arithmetic::div_mod::lemma_fundamental_div_mod_converse;

verus! {

/// The length of chunk `j` when `len` elements are cut into `chunks` chunks.
pub open spec fn chunk_len(len: int, chunks: int, j: int) -> int {
    len / chunks + if j < len % chunks {
        1int
    } else {
        0int
    }
}

/// The index of the first element of chunk `j`.
pub open spec fn chunk_start(len: int, chunks: int, j: int) -> int {
    j * (len / chunks) + if j < len % chunks {
        j
    } else {
        len % chunks
    }
}

/// The chunks of `buffer`, from the low end to the high end.
pub open spec fn balanced_chunks<T>(buffer: Seq<T>, chunks: nat) -> Seq<Seq<T>> {
    Seq::new(
        chunks,
        |j: int|
            buffer.subrange(
                chunk_start(buffer.len() as int, chunks as int, j),
                chunk_start(buffer.len() as int, chunks as int, j) + chunk_len(
                    buffer.len() as int,
                    chunks as int,
                    j,
                ),
            ),
    )
}

/// Chunk lengths and starts, read off any way of writing `len` as `chunks`
/// times `base` plus at most `chunks` extra elements.
pub proof fn lemma_chunk_layout(len: int, chunks: int, base: int, extra: int, j: int)
    requires
        chunks > 0,
        0 <= base,
        len == base * chunks + extra,
        0 <= extra <= chunks,
        0 <= j <= chunks,
    ensures
        j < chunks ==> chunk_len(len, chunks, j) == base + if j < extra {
            1int
        } else {
            0int
        },
        chunk_start(len, chunks, j) == j * base + if j < extra {
            j
        } else {
            extra
        },
        j < chunks ==> chunk_start(len, chunks, j) + chunk_len(len, chunks, j) == chunk_start(
            len,
            chunks,
            j + 1,
        ),
        chunk_start(len, chunks, j) <= len,
        chunk_start(len, chunks, chunks) == len,
{
    let q = len / chunks;
    let r = len % chunks;
    if extra < chunks {
        lemma_fundamental_div_mod_converse(len, chunks, base, extra);
    } else {
        assert(len == (base + 1) * chunks) by (nonlinear_arith)
            requires
                len == base * chunks + extra,
                extra == chunks,
        ;
        lemma_fundamental_div_mod_converse(len, chunks, base + 1, 0);
        assert(j * (base + 1) == j * base + j) by (nonlinear_arith);
        assert(chunks * (base + 1) == chunks * base + chunks) by (nonlinear_arith);
        assert((j + 1) * (base + 1) == (j + 1) * base + (j + 1)) by (nonlinear_arith);
    }
    assert((j + 1) * q == j * q + q) by (nonlinear_arith);
    assert(j * q <= chunks * q) by (nonlinear_arith)
        requires
            j <= chunks,
            q >= 0,
    ;
    assert(len == chunks * q + r) by (nonlinear_arith)
        requires
            (extra < chunks && q == base && r == extra) || (extra == chunks && q == base + 1 && r
                == 0),
            len == base * chunks + extra,
    ;
}

/// Chunks start at or after the low end of the buffer.
pub proof fn lemma_chunk_start_nonnegative(len: int, chunks: int, j: int)
    requires
        0 <= len,
        0 <= j < chunks,
    ensures
        0 <= chunk_start(len, chunks, j),
{
    assert(0 <= j * (len / chunks)) by (nonlinear_arith)
        requires
            0 <= len,
            0 <= j,
            0 < chunks,
    ;
}

/// Every chunk lies inside the buffer, and the chunks follow one another.
pub proof fn lemma_chunk_bounds(len: int, chunks: int, j: int)
    requires
        0 <= len,
        0 <= j < chunks,
    ensures
        chunk_start(len, chunks, j) + chunk_len(len, chunks, j) == chunk_start(len, chunks, j + 1),
        chunk_start(len, chunks, j + 1) <= len,
        chunk_start(len, chunks, 0) == 0,
        chunk_start(len, chunks, chunks) == len,
{
    let base = len / chunks;
    let extra = len % chunks;
    assert(len == base * chunks + extra) by (nonlinear_arith)
        requires
            chunks > 0,
            base == len / chunks,
            extra == len % chunks,
    ;
    lemma_chunk_layout(len, chunks, base, extra, j);
    lemma_chunk_layout(len, chunks, base, extra, j + 1);
    lemma_chunk_layout(len, chunks, base, extra, 0);
}

/// Chunk `j` of a buffer has the length that the cut gives it: the floor
/// of the buffer's length by the number of chunks, and one more for each
/// of the first chunks as far as the remainder goes.
pub proof fn lemma_chunk_has_its_length<T>(buffer: Seq<T>, chunks: nat, j: int)
    requires
        0 <= j < chunks,
    ensures
        balanced_chunks(buffer, chunks)[j].len() == chunk_len(
            buffer.len() as int,
            chunks as int,
            j,
        ),
{
    lemma_chunk_bounds(buffer.len() as int, chunks as int, j);
    lemma_chunk_start_nonnegative(buffer.len() as int, chunks as int, j);
}

/// No two chunks differ in length by more than one element, and no chunk
/// is longer than one before it.
pub proof fn lemma_chunk_lengths_differ_by_at_most_one<T>(
    buffer: Seq<T>,
    chunks: nat,
    i: int,
    j: int,
)
    requires
        0 <= i < chunks,
        0 <= j < chunks,
    ensures
        balanced_chunks(buffer, chunks)[i].len() <= balanced_chunks(buffer, chunks)[j].len() + 1,
        i <= j ==> balanced_chunks(buffer, chunks)[i].len() >= balanced_chunks(
            buffer,
            chunks,
        )[j].len(),
{
    lemma_chunk_has_its_length(buffer, chunks, i);
    lemma_chunk_has_its_length(buffer, chunks, j);
}

/// Without its first chunk, a balanced cut is the balanced cut of the rest
/// of the buffer into one chunk fewer.
pub proof fn lemma_drop_first_chunk<T>(buffer: Seq<T>, chunks: nat)
    requires
        chunks > 0,
    ensures
        0 <= chunk_len(buffer.len() as int, chunks as int, 0) <= buffer.len(),
        balanced_chunks(buffer, chunks).first() == buffer.take(
            chunk_len(buffer.len() as int, chunks as int, 0),
        ),
        balanced_chunks(buffer, chunks).drop_first() == balanced_chunks(
            buffer.skip(chunk_len(buffer.len() as int, chunks as int, 0)),
            (chunks - 1) as nat,
        ),
{
    let len = buffer.len() as int;
    let k = chunks as int;
    let base = len / k;
    let extra = len % k;
    let first = chunk_len(len, chunks as int, 0);
    assert(len == base * k + extra) by (nonlinear_arith)
        requires
            k > 0,
            base == len / k,
            extra == len % k,
    ;
    lemma_chunk_bounds(len, k, 0);
    let rest = buffer.skip(first);
    let fewer = (chunks - 1) as nat;
    let left = if extra > 0 {
        extra - 1
    } else {
        0int
    };
    assert(base * k == base * (k - 1) + base) by (nonlinear_arith);
    assert(rest.len() == base * (k - 1) + left);
    let a = balanced_chunks(buffer, chunks).drop_first();
    let b = balanced_chunks(rest, fewer);
    assert(a.len() == b.len());
    assert forall|j: int| 0 <= j < a.len() implies a[j] == b[j] by {
        lemma_chunk_layout(len, chunks as int, base, extra, j + 1);
        lemma_chunk_layout(rest.len() as int, fewer as int, base, left, j);
        lemma_chunk_bounds(len, chunks as int, j + 1);
        lemma_chunk_bounds(rest.len() as int, fewer as int, j);
        assert((j + 1) * base == j * base + base) by (nonlinear_arith);
        let lo = chunk_start(rest.len() as int, fewer as int, j);
        let hi = lo + chunk_len(rest.len() as int, fewer as int, j);
        assert(rest.subrange(lo, hi) =~= buffer.subrange(first + lo, first + hi));
    }
    assert(a =~= b);
    assert(balanced_chunks(buffer, chunks).first() =~= buffer.take(first));
}

/// Without its last chunk, a balanced cut is the balanced cut of the rest
/// of the buffer into one chunk fewer.
pub proof fn lemma_drop_last_chunk<T>(buffer: Seq<T>, chunks: nat)
    requires
        chunks > 0,
    ensures
        0 <= chunk_len(buffer.len() as int, chunks as int, chunks - 1) <= buffer.len(),
        balanced_chunks(buffer, chunks).last() == buffer.skip(
            buffer.len() - chunk_len(buffer.len() as int, chunks as int, chunks - 1),
        ),
        balanced_chunks(buffer, chunks).drop_last() == balanced_chunks(
            buffer.take(buffer.len() - chunk_len(buffer.len() as int, chunks as int, chunks - 1)),
            (chunks - 1) as nat,
        ),
{
    let len = buffer.len() as int;
    let k = chunks as int;
    let base = len / k;
    let extra = len % k;
    let fewer = (chunks - 1) as nat;
    let last = chunk_len(len, chunks as int, fewer as int);
    assert(len == base * k + extra) by (nonlinear_arith)
        requires
            k > 0,
            base == len / k,
            extra == len % k,
    ;
    lemma_chunk_bounds(len, k, fewer as int);
    let rest = buffer.take(len - last);
    assert(base * k == base * (k - 1) + base) by (nonlinear_arith);
    assert(rest.len() == base * (k - 1) + extra);
    let a = balanced_chunks(buffer, chunks).drop_last();
    let b = balanced_chunks(rest, fewer);
    assert(a.len() == b.len());
    assert forall|j: int| 0 <= j < a.len() implies a[j] == b[j] by {
        lemma_chunk_layout(len, chunks as int, base, extra, j);
        lemma_chunk_layout(rest.len() as int, fewer as int, base, extra, j);
        lemma_chunk_bounds(len, chunks as int, j);
        lemma_chunk_bounds(rest.len() as int, fewer as int, j);
        let lo = chunk_start(rest.len() as int, fewer as int, j);
        let hi = lo + chunk_len(rest.len() as int, fewer as int, j);
        assert(rest.subrange(lo, hi) =~= buffer.subrange(lo, hi));
    }
    assert(a =~= b);
    assert(balanced_chunks(buffer, chunks).last() =~= buffer.skip(len - last));
}

/// The chunks, put end to end, are the buffer.
pub proof fn lemma_chunks_concatenate_to_buffer<T>(buffer: Seq<T>, chunks: nat)
    requires
        chunks > 0,
    ensures
        balanced_chunks(buffer, chunks).flatten() == buffer,
    decreases chunks,
{
    let cut = balanced_chunks(buffer, chunks);
    let first = chunk_len(buffer.len() as int, chunks as int, 0);
    lemma_drop_first_chunk(buffer, chunks);
    if chunks == 1 {
        lemma_chunk_bounds(buffer.len() as int, 1, 0);
        assert(first == buffer.len());
        assert(cut.drop_first().flatten() =~= Seq::<T>::empty());
        assert(buffer.take(first) =~= buffer);
        assert(cut.flatten() =~= buffer);
    } else {
        lemma_chunks_concatenate_to_buffer(buffer.skip(first), (chunks - 1) as nat);
        assert(buffer.take(first) + buffer.skip(first) =~= buffer);
    }
}


/// The chunks in the order in which taking from the low end yields them:
/// each time the first chunk of what is left.
pub open spec fn taken_from_front<T>(buffer: Seq<T>, chunks: nat) -> Seq<Seq<T>>
    decreases chunks,
{
    if chunks == 0 {
        Seq::empty()
    } else {
        let first = chunk_len(buffer.len() as int, chunks as int, 0);
        seq![buffer.take(first)] + taken_from_front(buffer.skip(first), (chunks - 1) as nat)
    }
}

/// The chunks in the order in which taking from the high end yields them:
/// each time the last chunk of what is left.
pub open spec fn taken_from_back<T>(buffer: Seq<T>, chunks: nat) -> Seq<Seq<T>>
    decreases chunks,
{
    if chunks == 0 {
        Seq::empty()
    } else {
        let last = chunk_len(buffer.len() as int, chunks as int, chunks - 1);
        seq![buffer.skip(buffer.len() - last)] + taken_from_back(
            buffer.take(buffer.len() - last),
            (chunks - 1) as nat,
        )
    }
}

/// Taking from the low end yields the chunks of the balanced cut in order.
pub proof fn lemma_front_traversal<T>(buffer: Seq<T>, chunks: nat)
    ensures
        taken_from_front(buffer, chunks) == balanced_chunks(buffer, chunks),
    decreases chunks,
{
    if chunks == 0 {
        assert(balanced_chunks(buffer, chunks) =~= Seq::<Seq<T>>::empty());
    } else {
        let first = chunk_len(buffer.len() as int, chunks as int, 0);
        lemma_drop_first_chunk(buffer, chunks);
        lemma_front_traversal(buffer.skip(first), (chunks - 1) as nat);
        let cut = balanced_chunks(buffer, chunks);
        assert(cut =~= seq![cut.first()] + cut.drop_first());
    }
}

/// Taking from the high end yields the chunks of the balanced cut in
/// reverse order.
pub proof fn lemma_back_traversal<T>(buffer: Seq<T>, chunks: nat)
    ensures
        taken_from_back(buffer, chunks) == balanced_chunks(buffer, chunks).reverse(),
    decreases chunks,
{
    if chunks == 0 {
        assert(balanced_chunks(buffer, chunks).reverse() =~= Seq::<Seq<T>>::empty());
    } else {
        let last = chunk_len(buffer.len() as int, chunks as int, chunks - 1);
        lemma_drop_last_chunk(buffer, chunks);
        lemma_back_traversal(buffer.take(buffer.len() - last), (chunks - 1) as nat);
        let cut = balanced_chunks(buffer, chunks);
        assert(cut.reverse() =~= seq![cut.last()] + cut.drop_last().reverse());
    }
}

/// Both traversals yield the same chunks: the one from the high end
/// yields, in reverse order, what the one from the low end yields.
pub proof fn lemma_traversals_agree<T>(buffer: Seq<T>, chunks: nat)
    ensures
        taken_from_back(buffer, chunks) == taken_from_front(buffer, chunks).reverse(),
        taken_from_back(buffer, chunks).to_multiset() == taken_from_front(
            buffer,
            chunks,
        ).to_multiset(),
{
    lemma_front_traversal(buffer, chunks);
    lemma_back_traversal(buffer, chunks);
    let cut = balanced_chunks(buffer, chunks);
    cut.lemma_reverse_to_multiset();
}

/// The index at which chunk `j` starts when `len` elements are cut into
/// `chunks` chunks.
pub fn chunk_offset(len: usize, chunks: usize, j: usize) -> (offset: usize)
    requires
        j < chunks,
    ensures
        offset == chunk_start(len as int, chunks as int, j as int),
        offset + chunk_len(len as int, chunks as int, j as int) <= len,
{
    let base_size = len / chunks;
    let remainder = len % chunks;
    proof {
        lemma_chunk_bounds(len as int, chunks as int, j as int);
        assert(0 <= j * base_size == base_size * j) by (nonlinear_arith)
            requires
                0 <= j,
                0 <= base_size,
        ;
    }
    base_size * j + if j < remainder {
        j
    } else {
        remainder
    }
}

/// Hands out the chunks of a mutable slice one by one, from either end.
pub struct BalancedChunksMut<'a, T> {
    /// What has not been handed out yet; `None` once nothing is left to cut.
    remaining: Option<&'a mut [T]>,
    /// The number of chunks still to hand out.
    chunks_left: usize,
    /// The length of a chunk that gets no extra element.
    base_size: usize,
    /// The number of chunks, counted from the low end, that are one longer.
    remainder: usize,
}

impl<'a, T> View for BalancedChunksMut<'a, T> {
    type V = Seq<Seq<T>>;

    /// The chunks still to hand out, from the low end to the high end.
    closed spec fn view(&self) -> Seq<Seq<T>> {
        balanced_chunks(self.rest(), self.chunks_left as nat)
    }
}

impl<'a, T> BalancedChunksMut<'a, T> {
    /// The elements that have not been handed out yet.
    pub closed spec fn rest(&self) -> Seq<T> {
        match self.remaining {
            Some(slice) => slice@,
            None => Seq::empty(),
        }
    }

    /// The counters describe the slice that is left: it holds `base_size`
    /// elements for each chunk and one more for each of the first
    /// `remainder` chunks.
    pub closed spec fn wf(&self) -> bool {
        &&& self.remaining is Some <==> self.chunks_left > 0
        &&& self.remainder <= self.chunks_left
        &&& self.rest().len() == self.base_size * self.chunks_left + self.remainder
    }

    /// Cuts `slice` into `num_chunks` chunks; none at all if `num_chunks` is `0`.
    pub fn new(slice: &'a mut [T], num_chunks: usize) -> (chunks: Self)
        ensures
            chunks.wf(),
            chunks@ == balanced_chunks(old(slice)@, num_chunks as nat),
    {
        if num_chunks == 0 {
            let chunks = BalancedChunksMut {
                remaining: None,
                chunks_left: 0,
                base_size: 0,
                remainder: 0,
            };
            assert(chunks@ =~= balanced_chunks(old(slice)@, 0));
            chunks
        } else {
            let len = slice.len();
            assert(len == (len / num_chunks) * num_chunks + len % num_chunks) by (nonlinear_arith)
                requires
                    num_chunks > 0,
            ;
            BalancedChunksMut {
                remaining: Some(slice),
                chunks_left: num_chunks,
                base_size: len / num_chunks,
                remainder: len % num_chunks,
            }
        }
    }

    /// The number of chunks still to hand out.
    pub fn len(&self) -> (n: usize)
        ensures
            n == self@.len(),
    {
        self.chunks_left
    }

    /// Hands out the chunk at the low end, if any is left.
    pub fn next(&mut self) -> (chunk: Option<&'a mut [T]>)
        requires
            old(self).wf(),
        ensures
            final(self).wf(),
            match chunk {
                Some(c) => old(self)@.len() > 0 && c@ == old(self)@.first() && final(self)@ == old(
                    self,
                )@.drop_first(),
                None => old(self)@.len() == 0 && final(self)@ == old(self)@,
            },
    {
        if self.chunks_left == 0 {
            return None;
        }
        let ghost rest = self.rest();
        let ghost left = self.chunks_left as int;
        proof {
            lemma_drop_first_chunk(rest, left as nat);
            lemma_chunk_layout(
                rest.len() as int,
                left,
                self.base_size as int,
                self.remainder as int,
                0,
            );
            assert(self.base_size * left == self.base_size * (left - 1) + self.base_size)
                by (nonlinear_arith);
            assert(self.base_size * left >= self.base_size) by (nonlinear_arith)
                requires
                    left >= 1,
            ;
        }
        let slice = match self.remaining.take() {
            Some(slice) => slice,
            None => { return None; },
        };
        let total = slice.len();
        assert(slice@ == rest);
        let current_size = self.base_size + if self.remainder > 0 {
            1
        } else {
            0
        };
        self.chunks_left -= 1;
        if self.remainder > 0 {
            self.remainder -= 1;
        }
        if self.chunks_left == 0 {
            assert(rest.take(current_size as int) =~= rest);
            assert(self@ =~= old(self)@.drop_first());
            Some(slice)
        } else {
            let (head, tail) = slice.split_at_mut(current_size);
            assert(head@ =~= rest.take(current_size as int));
            assert(tail@ =~= rest.skip(current_size as int));
            self.remaining = Some(tail);
            Some(head)
        }
    }

    /// Hands out the chunk at the high end, if any is left.
    pub fn next_back(&mut self) -> (chunk: Option<&'a mut [T]>)
        requires
            old(self).wf(),
        ensures
            final(self).wf(),
            match chunk {
                Some(c) => old(self)@.len() > 0 && c@ == old(self)@.last() && final(self)@ == old(
                    self,
                )@.drop_last(),
                None => old(self)@.len() == 0 && final(self)@ == old(self)@,
            },
    {
        if self.chunks_left == 0 {
            return None;
        }
        let ghost rest = self.rest();
        let ghost left = self.chunks_left as int;
        proof {
            lemma_drop_last_chunk(rest, left as nat);
            lemma_chunk_layout(
                rest.len() as int,
                left,
                self.base_size as int,
                self.remainder as int,
                left - 1,
            );
            assert(self.base_size * left == self.base_size * (left - 1) + self.base_size)
                by (nonlinear_arith);
            assert(self.base_size * left >= self.base_size) by (nonlinear_arith)
                requires
                    left >= 1,
            ;
        }
        let slice = match self.remaining.take() {
            Some(slice) => slice,
            None => { return None; },
        };
        let total = slice.len();
        assert(slice@ == rest);
        // The chunks that are one longer are the first `remainder` ones, so
        // the last chunk is one of them only if all that are left are.
        let is_bonus_chunk = self.chunks_left - 1 < self.remainder;
        let current_size = self.base_size + if is_bonus_chunk {
            1
        } else {
            0
        };
        self.chunks_left -= 1;
        if is_bonus_chunk {
            self.remainder -= 1;
        }
        if self.chunks_left == 0 {
            assert(self.base_size * 1 == self.base_size) by (nonlinear_arith);
            assert(rest.skip(rest.len() - current_size) =~= rest);
            assert(self@ =~= old(self)@.drop_last());
            return Some(slice);
        }
        let split_idx = slice.len() - current_size;
        let (head, tail) = slice.split_at_mut(split_idx);
        assert(head@ =~= rest.take(split_idx as int));
        assert(tail@ =~= rest.skip(split_idx as int));
        self.remaining = Some(head);
        Some(tail)
    }
}

} // verus!
