//! How a buffer of `total` samples is cut into chunks of `size` samples.
//!
//! Chunk `index` covers the half-open range of offsets from
//! `chunk_start(size, index)` to `chunk_end(total, size, index)`. Every chunk
//! is `size` samples long, except that the last one holds what is left when
//! `size` does not divide `total`.

use vstd::arithmetic::div_mod::{lemma_fundamental_div_mod, lemma_fundamental_div_mod_converse};
use vstd::prelude::*;

verus! {

/// Number of chunks: `total / size` rounded up, and zero when `size` is zero.
pub open spec fn chunk_count(total: nat, size: nat) -> nat {
    if size == 0 {
        0
    } else {
        ((total + size - 1) / (size as int)) as nat
    }
}

/// Offset of the first sample of chunk `index`.
pub open spec fn chunk_start(size: nat, index: int) -> int {
    index * size
}

/// Offset one past the last sample of chunk `index`: a full stride after its
/// start, cut off at the end of the buffer.
pub open spec fn chunk_end(total: nat, size: nat, index: int) -> int {
    if chunk_start(size, index + 1) <= total {
        chunk_start(size, index + 1)
    } else {
        total as int
    }
}

/// Number of samples in chunk `index`.
pub open spec fn chunk_len(total: nat, size: nat, index: int) -> int {
    chunk_end(total, size, index) - chunk_start(size, index)
}

/// Number of samples in the last chunk: what is left of `total` after the
/// full chunks, or a full chunk when nothing is left.
pub open spec fn last_chunk_len(total: nat, size: nat) -> int {
    if total % size == 0 {
        size as int
    } else {
        total as int % size as int
    }
}

/// The samples of chunk `index`.
pub open spec fn chunk<T>(samples: Seq<T>, size: nat, index: int) -> Seq<T> {
    samples.subrange(chunk_start(size, index), chunk_end(samples.len(), size, index))
}

/// The count is `total / size` rounded up: a number lies below it exactly
/// when that many strides of `size` samples stop short of the end of the
/// buffer, so the count is the least number of strides that cover it.
pub proof fn lemma_chunk_count_rounds_up(total: nat, size: nat, index: int)
    requires
        size > 0,
        index >= 0,
    ensures
        index < chunk_count(total, size) <==> chunk_start(size, index) < total,
{
    let padded = total + size - 1;
    let count = padded / (size as int);
    lemma_fundamental_div_mod(padded, size as int);
    assert(0 <= padded % (size as int) < size);
    assert(index < count ==> index * size < total) by (nonlinear_arith)
        requires
            size > 0,
            index >= 0,
            size * count <= total + size - 1,
    ;
    assert(index * size < total ==> index < count) by (nonlinear_arith)
        requires
            size > 0,
            index >= 0,
            size * count > total - 1,
    ;
}

/// There is no chunk exactly when the buffer is empty or the chunk size is
/// zero.
pub proof fn lemma_chunk_count_zero(total: nat, size: nat)
    ensures
        chunk_count(total, size) == 0 <==> total == 0 || size == 0,
{
    if size > 0 {
        lemma_chunk_count_rounds_up(total, size, 0);
        assert(chunk_start(size, 0) == 0);
    }
}

/// The count is the number of full chunks, and one more when samples are left
/// over.
pub proof fn lemma_chunk_count_by_division(total: nat, size: nat)
    requires
        size > 0,
    ensures
        total % size == 0 ==> chunk_count(total, size) == total / size,
        total % size != 0 ==> chunk_count(total, size) == total / size + 1,
        chunk_count(total, size) <= total,
{
    let full = total as int / size as int;
    let rest = total as int % size as int;
    lemma_fundamental_div_mod(total as int, size as int);
    assert(size * full == full * size) by (nonlinear_arith);
    assert(full <= full * size) by (nonlinear_arith)
        requires
            size > 0,
            full >= 0,
    ;
    if rest == 0 {
        lemma_fundamental_div_mod_converse(total + size - 1, size as int, full, size - 1);
    } else {
        assert((full + 1) * size == full * size + size) by (nonlinear_arith);
        lemma_fundamental_div_mod_converse(total + size - 1, size as int, full + 1, rest - 1);
    }
}

/// The chunks follow one another without gap or overlap and end where the
/// buffer ends. Each holds `size` samples, but for the last one, which holds
/// the remainder of `total` by `size` when that is not zero.
pub proof fn lemma_chunk_shape(total: nat, size: nat, index: int)
    requires
        0 <= index < chunk_count(total, size),
    ensures
        0 <= chunk_start(size, index) < chunk_end(total, size, index) <= total,
        index == 0 ==> chunk_start(size, index) == 0,
        index + 1 < chunk_count(total, size) ==> chunk_end(total, size, index) == chunk_start(
            size,
            index + 1,
        ),
        index + 1 < chunk_count(total, size) ==> chunk_len(total, size, index) == size,
        index + 1 == chunk_count(total, size) ==> chunk_end(total, size, index) == total,
        index + 1 == chunk_count(total, size) ==> chunk_len(total, size, index) == last_chunk_len(
            total,
            size,
        ),
        0 < last_chunk_len(total, size) <= size,
{
    lemma_chunk_count_rounds_up(total, size, index);
    lemma_chunk_count_rounds_up(total, size, index + 1);
    lemma_chunk_count_by_division(total, size);
    lemma_fundamental_div_mod(total as int, size as int);
    let full = total as int / size as int;
    assert(index * size >= 0) by (nonlinear_arith)
        requires
            index >= 0,
            size > 0,
    ;
    assert((index + 1) * size == index * size + size) by (nonlinear_arith);
    assert(size * full == full * size) by (nonlinear_arith);
    if index + 1 == chunk_count(total, size) && total % size != 0 {
        assert(index == full);
    }
    if index + 1 == chunk_count(total, size) && total % size == 0 {
        assert(index + 1 == full);
    }
}

/// The first `upto` chunks of `samples`, one after the other.
pub open spec fn joined_chunks<T>(samples: Seq<T>, size: nat, upto: nat) -> Seq<T>
    decreases upto,
{
    if upto == 0 {
        Seq::empty()
    } else {
        joined_chunks(samples, size, (upto - 1) as nat) + chunk(samples, size, upto - 1)
    }
}

/// The first `upto` chunks, joined, are the samples before the end of the
/// last of them.
pub proof fn lemma_joined_chunks_prefix<T>(samples: Seq<T>, size: nat, upto: nat)
    requires
        0 < upto <= chunk_count(samples.len(), size),
    ensures
        joined_chunks(samples, size, upto) == samples.subrange(
            0,
            chunk_end(samples.len(), size, upto - 1),
        ),
    decreases upto,
{
    let total = samples.len();
    lemma_chunk_shape(total, size, upto - 1);
    if upto == 1 {
        assert(joined_chunks(samples, size, 0) == Seq::<T>::empty());
        assert(joined_chunks(samples, size, 1) =~= chunk(samples, size, 0));
    } else {
        lemma_joined_chunks_prefix(samples, size, (upto - 1) as nat);
        lemma_chunk_shape(total, size, upto - 2);
        assert(joined_chunks(samples, size, upto) =~= samples.subrange(
            0,
            chunk_end(total, size, upto - 1),
        ));
    }
}

/// Cutting loses nothing and invents nothing: all the chunks, joined in
/// order, are the buffer.
pub proof fn lemma_chunks_cover<T>(samples: Seq<T>, size: nat)
    requires
        size > 0,
    ensures
        joined_chunks(samples, size, chunk_count(samples.len(), size)) == samples,
{
    let count = chunk_count(samples.len(), size);
    lemma_chunk_count_zero(samples.len(), size);
    if count == 0 {
        assert(joined_chunks(samples, size, 0) =~= samples);
    } else {
        lemma_joined_chunks_prefix(samples, size, count);
        lemma_chunk_shape(samples.len(), size, count - 1);
        assert(samples.subrange(0, samples.len() as int) =~= samples);
    }
}

/// Counts the chunks of a buffer of `total` samples cut every `size` samples.
pub fn num_chunks(total: usize, size: usize) -> (count: usize)
    ensures
        count == chunk_count(total as nat, size as nat),
{
    if size == 0 {
        return 0;
    }
    proof {
        lemma_chunk_count_by_division(total as nat, size as nat);
    }
    if total % size == 0 {
        total / size
    } else {
        total / size + 1
    }
}

} // verus!
