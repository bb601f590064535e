//! The walk over the chunks of a buffer.
//!
//! Each chunk is handed to a reducer that turns it into an amplitude, and the
//! amplitude to a converter that turns it into a level. The two stages are
//! parameters: what this module fixes is which samples each stage sees, in
//! which order, and where each level ends up in the profile.

use crate::partition::{
    chunk,
    chunk_count,
    chunk_start,
    lemma_chunk_count_zero,
    lemma_chunk_count_rounds_up,
    num_chunks,
};
use vstd::prelude::*;
use vstd::slice::slice_subrange;

verus! {

/// `level` is what the converter may give for an amplitude that the reducer
/// may give for the samples `window`.
pub open spec fn is_chunk_level<T, A, R, Reduce, Convert>(
    reducer: Reduce,
    converter: Convert,
    window: Seq<T>,
    level: R,
) -> bool where Reduce: Fn(&[T]) -> A, Convert: Fn(A) -> R {
    exists|view: &[T], amplitude: A|
        {
            &&& view@ == window
            &&& #[trigger] reducer.ensures((view,), amplitude)
            &&& #[trigger] converter.ensures((amplitude,), level)
        }
}

/// `levels` is a profile of `samples` cut every `size` samples: one level per
/// chunk, in chunk order, each one a level of its own chunk.
pub open spec fn is_level_profile<T, A, R, Reduce, Convert>(
    reducer: Reduce,
    converter: Convert,
    samples: Seq<T>,
    size: nat,
    levels: Seq<R>,
) -> bool where Reduce: Fn(&[T]) -> A, Convert: Fn(A) -> R {
    &&& levels.len() == chunk_count(samples.len(), size)
    &&& forall|index: int|
        0 <= index < levels.len() ==> is_chunk_level(
            reducer,
            converter,
            chunk(samples, size, index),
            #[trigger] levels[index],
        )
}

/// The reducer accepts every chunk of `samples`, and the converter accepts
/// every amplitude that the reducer may give for one of them.
pub open spec fn stages_accept<T, A, R, Reduce, Convert>(
    reducer: Reduce,
    converter: Convert,
    samples: Seq<T>,
    size: nat,
) -> bool where Reduce: Fn(&[T]) -> A, Convert: Fn(A) -> R {
    &&& forall|index: int, view: &[T]|
        #![trigger chunk(samples, size, index), reducer.requires((view,))]
        0 <= index < chunk_count(samples.len(), size) && view@ == chunk(samples, size, index)
            ==> reducer.requires((view,))
    &&& forall|index: int, view: &[T], amplitude: A|
        #![trigger chunk(samples, size, index), reducer.ensures((view,), amplitude)]
        0 <= index < chunk_count(samples.len(), size) && view@ == chunk(samples, size, index)
            && reducer.ensures((view,), amplitude) ==> converter.requires((amplitude,))
}

/// Each stage gives one output for one input.
pub open spec fn stages_are_functions<T, A, R, Reduce, Convert>(
    reducer: Reduce,
    converter: Convert,
) -> bool where Reduce: Fn(&[T]) -> A, Convert: Fn(A) -> R {
    &&& forall|view: &[T], first: A, second: A|
        #![trigger reducer.ensures((view,), first), reducer.ensures((view,), second)]
        reducer.ensures((view,), first) && reducer.ensures((view,), second) ==> first == second
    &&& forall|amplitude: A, first: R, second: R|
        #![trigger converter.ensures((amplitude,), first), converter.ensures((amplitude,), second)]
        converter.ensures((amplitude,), first) && converter.ensures((amplitude,), second) ==> first
            == second
}

/// A level depends on nothing but the samples of its own chunk: where two
/// chunks, of one buffer or of two, hold the same samples, their levels are
/// the same, whenever each stage gives one output for one input.
pub proof fn lemma_level_depends_on_its_chunk<T, A, R, Reduce, Convert>(
    reducer: Reduce,
    converter: Convert,
    window: Seq<T>,
    first: R,
    second: R,
) where Reduce: Fn(&[T]) -> A, Convert: Fn(A) -> R
    requires
        stages_are_functions(reducer, converter),
        is_chunk_level(reducer, converter, window, first),
        is_chunk_level(reducer, converter, window, second),
    ensures
        first == second,
{
    let (view_one, amplitude_one) = choose|view: &[T], amplitude: A|
        {
            &&& view@ == window
            &&& #[trigger] reducer.ensures((view,), amplitude)
            &&& #[trigger] converter.ensures((amplitude,), first)
        };
    let (view_two, amplitude_two) = choose|view: &[T], amplitude: A|
        {
            &&& view@ == window
            &&& #[trigger] reducer.ensures((view,), amplitude)
            &&& #[trigger] converter.ensures((amplitude,), second)
        };
    assert(view_one =~= view_two);
    assert(amplitude_one == amplitude_two);
}

/// Analysing the same samples with the same chunk size again gives the same
/// profile, element for element, whenever each stage gives one output for one
/// input.
pub proof fn lemma_profile_is_unique<T, A, R, Reduce, Convert>(
    reducer: Reduce,
    converter: Convert,
    samples: Seq<T>,
    size: nat,
    first: Seq<R>,
    second: Seq<R>,
) where Reduce: Fn(&[T]) -> A, Convert: Fn(A) -> R
    requires
        stages_are_functions(reducer, converter),
        is_level_profile(reducer, converter, samples, size, first),
        is_level_profile(reducer, converter, samples, size, second),
    ensures
        first == second,
{
    assert forall|index: int| 0 <= index < first.len() implies first[index] == second[index] by {
        lemma_level_depends_on_its_chunk(
            reducer,
            converter,
            chunk(samples, size, index),
            first[index],
            second[index],
        );
    }
    assert(first =~= second);
}

/// Where the reducer computes `amplitude_of` and the converter computes
/// `level_of`, the profile is `level_of(amplitude_of(..))` of each chunk, in
/// chunk order.
pub proof fn lemma_profile_of_modelled_stages<T, A, R, Reduce, Convert>(
    reducer: Reduce,
    converter: Convert,
    amplitude_of: spec_fn(Seq<T>) -> A,
    level_of: spec_fn(A) -> R,
    samples: Seq<T>,
    size: nat,
    levels: Seq<R>,
) where Reduce: Fn(&[T]) -> A, Convert: Fn(A) -> R
    requires
        forall|view: &[T], amplitude: A| #[trigger]
            reducer.ensures((view,), amplitude) ==> amplitude == amplitude_of(view@),
        forall|amplitude: A, level: R| #[trigger]
            converter.ensures((amplitude,), level) ==> level == level_of(amplitude),
        is_level_profile(reducer, converter, samples, size, levels),
    ensures
        levels == Seq::new(
            chunk_count(samples.len(), size),
            |index: int| level_of(amplitude_of(chunk(samples, size, index))),
        ),
{
    assert forall|index: int| 0 <= index < levels.len() implies levels[index] == level_of(
        amplitude_of(chunk(samples, size, index)),
    ) by {
        assert(is_chunk_level(reducer, converter, chunk(samples, size, index), levels[index]));
    }
    assert(levels =~= Seq::new(
        chunk_count(samples.len(), size),
        |index: int| level_of(amplitude_of(chunk(samples, size, index))),
    ));
}

/// Cuts `pcm_data` into chunks of `chunk_size_samples` samples, the last one
/// holding what is left, and gives the level of each chunk in chunk order.
///
/// An empty buffer or a chunk size of zero gives an empty profile.
pub fn analyze_audio_rms<T, A, R, Reduce, Convert>(
    pcm_data: &[T],
    chunk_size_samples: usize,
    reducer: Reduce,
    converter: Convert,
) -> (levels: Vec<R>) where Reduce: Fn(&[T]) -> A, Convert: Fn(A) -> R
    requires
        stages_accept(reducer, converter, pcm_data@, chunk_size_samples as nat),
    ensures
        levels@.len() == chunk_count(pcm_data@.len(), chunk_size_samples as nat),
        (pcm_data@.len() == 0 || chunk_size_samples == 0) ==> levels@.len() == 0,
        is_level_profile(reducer, converter, pcm_data@, chunk_size_samples as nat, levels@),
{
    let total = pcm_data.len();
    proof {
        lemma_chunk_count_zero(total as nat, chunk_size_samples as nat);
    }
    if total == 0 || chunk_size_samples == 0 {
        return Vec::new();
    }
    let count = num_chunks(total, chunk_size_samples);
    let mut levels: Vec<R> = Vec::with_capacity(count);
    let mut start: usize = 0;
    let ghost size = chunk_size_samples as nat;
    assert(count > 0 && chunk_start(size, 0) == 0);
    while start < total
        invariant
            total == pcm_data@.len(),
            size == chunk_size_samples,
            size > 0,
            count == chunk_count(total as nat, size),
            levels@.len() <= count,
            start <= total,
            start == if levels@.len() < count {
                chunk_start(size, levels@.len() as int)
            } else {
                total as int
            },
            stages_accept(reducer, converter, pcm_data@, size),
            forall|index: int|
                0 <= index < levels@.len() ==> is_chunk_level(
                    reducer,
                    converter,
                    chunk(pcm_data@, size, index),
                    #[trigger] levels@[index],
                ),
        decreases total - start,
    {
        let ghost index = levels@.len() as int;
        let end = if total - start > chunk_size_samples {
            start + chunk_size_samples
        } else {
            total
        };
        proof {
            lemma_chunk_count_rounds_up(total as nat, size, index);
            lemma_chunk_count_rounds_up(total as nat, size, index + 1);
            assert((index + 1) * size == index * size + size) by (nonlinear_arith);
        }
        let view = slice_subrange(pcm_data, start, end);
        assert(view@ == chunk(pcm_data@, size, index));
        let amplitude = reducer(view);
        let level = converter(amplitude);
        levels.push(level);
        start = end;
        assert(is_chunk_level(reducer, converter, chunk(pcm_data@, size, index), level));
    }
    proof {
        lemma_chunk_count_rounds_up(total as nat, size, levels@.len() as int);
    }
    levels
}

} // verus!
