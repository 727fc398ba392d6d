//! The construction pipeline: a dictionary is trained on a sample of the
//! values, and all the values are compressed with it, in their order.

use crate::compression::{compress_value, spec_compress_value};
use crate::error::IkvblobError;
use crate::reorder::{lemma_recover_order_restores, reordering_of};
use crate::utils::{drawn_at, recover_order, reservoir_of, sample, thread_rng};
use rand::seq::SliceRandom;
use vstd::prelude::*;

verus! {

/// The number of values that are compressed as one piece of work.
pub const CHUNK_SIZE: usize = 4096;

/// The number of bytes of all the samples together.
pub open spec fn total_len(samples: Seq<&Vec<u8>>) -> nat
    decreases samples.len(),
{
    if samples.len() == 0 {
        0
    } else {
        total_len(samples.drop_last()) + samples.last()@.len()
    }
}

/// The bytes of the samples.
pub open spec fn sample_bytes(samples: Seq<&Vec<u8>>) -> Seq<Seq<u8>> {
    Seq::new(samples.len(), |i: int| samples[i]@)
}

/// The dictionary of at most `max_size` bytes that Zstandard trains on the
/// samples, or `None` where it trains none: on too few or too small samples.
pub uninterp spec fn zstd_trained(samples: Seq<Seq<u8>>, max_size: usize) -> Option<Seq<u8>>;

/// Trains a dictionary of at most `max_size` bytes on the samples.
///
/// Trusted: `zstd::dict::from_samples` copies the samples into one buffer,
/// for which it allocates the sum of their lengths, allocates `max_size`
/// bytes for the dictionary (std refuses both above `isize::MAX`), and
/// returns what `ZDICT_trainFromBuffer` trains, single-threaded with fixed
/// parameters, or an error, which is `None` here. The result depends on the
/// samples and the size alone; it is given the name `zstd_trained`.
#[verifier::external_body]
fn train_dictionary(samples: &Vec<&Vec<u8>>, max_size: usize) -> (dict: Option<Vec<u8>>)
    requires
        max_size <= isize::MAX,
        total_len(samples@) <= isize::MAX,
    ensures
        match dict {
            Some(d) => zstd_trained(sample_bytes(samples@), max_size) == Some(d@),
            None => zstd_trained(sample_bytes(samples@), max_size) is None,
        },
{
    zstd::dict::from_samples(samples, max_size).ok()
}

/// `chosen` holds `amount` of the values, or all of them where there are
/// fewer, each from another place.
pub open spec fn choice_of(chosen: Seq<&Vec<u8>>, data: Seq<Vec<u8>>, amount: nat) -> bool {
    &&& chosen.len() == (if amount <= data.len() {
        amount
    } else {
        data.len()
    })
    &&& exists|places: Seq<int>| #[trigger] drawn_at(chosen, data, places)
}

/// Chooses `amount` of the values at random, or all of them where there are
/// fewer.
///
/// Trusted: `rand::seq::SliceRandom::choose_multiple` yields references to
/// `min(amount, len)` elements of the slice, at distinct places. Which ones
/// is left open.
#[verifier::external_body]
fn choose_multiple<'a>(data: &'a [Vec<u8>], rng: &mut rand::rngs::ThreadRng, amount: usize) -> (chosen:
    Vec<&'a Vec<u8>>)
    ensures
        choice_of(chosen@, data@, amount as nat),
{
    data.choose_multiple(rng, amount).collect()
}

/// Whether the samples have few enough bytes to be held in one buffer.
fn samples_fit(samples: &Vec<&Vec<u8>>) -> (fit: bool)
    ensures
        fit == (total_len(samples@) <= isize::MAX),
{
    let mut total: usize = 0;
    let mut i: usize = 0;
    while i < samples.len()
        invariant
            i <= samples@.len(),
            total == total_len(samples@.take(i as int)),
            total <= isize::MAX,
        decreases samples@.len() - i,
    {
        proof {
            assert(samples@.take(i + 1).drop_last() =~= samples@.take(i as int));
            assert(samples@.take(i + 1).last() == samples@[i as int]);
        }
        let length = samples[i].len();
        if length > isize::MAX as usize - total {
            proof {
                lemma_total_len_grows(samples@, i + 1);
            }
            return false;
        }
        total = total + length;
        i += 1;
    }
    assert(samples@.take(i as int) =~= samples@);
    true
}

/// The samples have at least as many bytes as the first of them.
pub proof fn lemma_total_len_grows(samples: Seq<&Vec<u8>>, n: int)
    requires
        0 <= n <= samples.len(),
    ensures
        total_len(samples.take(n)) <= total_len(samples),
    decreases samples.len(),
{
    if n < samples.len() {
        assert(samples.drop_last().take(n) =~= samples.take(n));
        lemma_total_len_grows(samples.drop_last(), n);
    } else {
        assert(samples.take(n) =~= samples);
    }
}

/// What the training of a dictionary gives: the dictionary, or an error where
/// Zstandard trained none.
pub fn trained_or_error(trained: Option<Vec<u8>>) -> (dict: Result<Vec<u8>, IkvblobError>)
    ensures
        match trained {
            Some(d) => dict == Ok::<Vec<u8>, IkvblobError>(d),
            None => dict == Err::<Vec<u8>, IkvblobError>(IkvblobError::DictionaryTrainingFailed),
        },
{
    match trained {
        Some(d) => Ok(d),
        None => Err(IkvblobError::DictionaryTrainingFailed),
    }
}

/// The dictionary of at most `max_size` bytes for the samples: what
/// Zstandard trains on them. There is none where the size or the samples
/// together are larger than one allocation may be, or where Zstandard trains
/// none.
pub open spec fn spec_dictionary(samples: Seq<&Vec<u8>>, max_size: usize) -> Result<
    Seq<u8>,
    IkvblobError,
> {
    if max_size > isize::MAX || total_len(samples) > isize::MAX {
        Err(IkvblobError::DictionaryTrainingFailed)
    } else {
        match zstd_trained(sample_bytes(samples), max_size) {
            Some(dict) => Ok(dict),
            None => Err(IkvblobError::DictionaryTrainingFailed),
        }
    }
}

/// The bytes of a dictionary, or its error.
pub open spec fn dictionary_view(dict: Result<Vec<u8>, IkvblobError>) -> Result<
    Seq<u8>,
    IkvblobError,
> {
    match dict {
        Ok(d) => Ok(d@),
        Err(e) => Err(e),
    }
}

/// Trains a dictionary on the samples, where their sizes allow it.
pub fn dictionary_from(samples: &Vec<&Vec<u8>>, max_dict_size_in_bytes: usize) -> (dict: Result<
    Vec<u8>,
    IkvblobError,
>)
    ensures
        dictionary_view(dict) == spec_dictionary(samples@, max_dict_size_in_bytes),
{
    if max_dict_size_in_bytes > isize::MAX as usize || !samples_fit(samples) {
        return Err(IkvblobError::DictionaryTrainingFailed);
    }
    trained_or_error(train_dictionary(samples, max_dict_size_in_bytes))
}

/// Trains a compression dictionary of at most `max_dict_size_in_bytes` bytes
/// on a uniform random sample of at most `sample_count` of the values, taken
/// in one pass.
///
/// Which values are sampled is left to chance: the dictionary is the one for
/// some sample that a reservoir of `sample_count` places takes of the values.
pub fn build_zstd_dictionary_from_sample(
    values: &[Vec<u8>],
    max_dict_size_in_bytes: usize,
    sample_count: usize,
) -> (dict: Result<Vec<u8>, IkvblobError>)
    ensures
        exists|samples: Seq<&Vec<u8>>| #[trigger]
            reservoir_of(samples, values@, sample_count as nat) && dictionary_view(dict)
                == spec_dictionary(samples, max_dict_size_in_bytes),
        max_dict_size_in_bytes > isize::MAX ==> dict == Err::<Vec<u8>, IkvblobError>(
            IkvblobError::DictionaryTrainingFailed,
        ),
{
    let mut rng = thread_rng();
    let samples = sample(&mut rng, sample_count, values);
    let dict = dictionary_from(&samples, max_dict_size_in_bytes);
    assert(reservoir_of(samples@, values@, sample_count as nat) && dictionary_view(dict)
        == spec_dictionary(samples@, max_dict_size_in_bytes));
    dict
}

/// As `build_zstd_dictionary_from_sample`, with a sample that is chosen from
/// all the values at once.
pub fn build_zstd_dictionary_from_choice(
    data: &[Vec<u8>],
    max_dict_size_in_bytes: usize,
    sample_count: usize,
) -> (dict: Result<Vec<u8>, IkvblobError>)
    ensures
        exists|samples: Seq<&Vec<u8>>| #[trigger]
            choice_of(samples, data@, sample_count as nat) && dictionary_view(dict)
                == spec_dictionary(samples, max_dict_size_in_bytes),
        max_dict_size_in_bytes > isize::MAX ==> dict == Err::<Vec<u8>, IkvblobError>(
            IkvblobError::DictionaryTrainingFailed,
        ),
{
    let mut rng = thread_rng();
    let samples = choose_multiple(data, &mut rng, sample_count);
    let dict = dictionary_from(&samples, max_dict_size_in_bytes);
    assert(choice_of(samples@, data@, sample_count as nat) && dictionary_view(dict)
        == spec_dictionary(samples@, max_dict_size_in_bytes));
    dict
}

/// The frames of the values, in their order, or the error of the first value
/// that cannot be compressed.
pub open spec fn spec_compress_all(dict: Seq<u8>, values: Seq<Vec<u8>>) -> Result<
    Seq<Seq<u8>>,
    IkvblobError,
>
    decreases values.len(),
{
    if values.len() == 0 {
        Ok(Seq::empty())
    } else {
        match spec_compress_all(dict, values.drop_last()) {
            Err(e) => Err(e),
            Ok(frames) => match spec_compress_value(dict, values.last()@) {
                Err(e) => Err(e),
                Ok(frame) => Ok(frames.push(frame)),
            },
        }
    }
}

/// An error among the first values is the error of them all.
pub proof fn lemma_compress_error_stays(dict: Seq<u8>, values: Seq<Vec<u8>>, n: int)
    requires
        0 <= n <= values.len(),
        spec_compress_all(dict, values.take(n)) is Err,
    ensures
        spec_compress_all(dict, values) == spec_compress_all(dict, values.take(n)),
    decreases values.len(),
{
    if n < values.len() {
        assert(values.drop_last().take(n) =~= values.take(n));
        lemma_compress_error_stays(dict, values.drop_last(), n);
    } else {
        assert(values.take(n) =~= values);
    }
}

/// The views of a sequence of frames.
pub open spec fn frame_views(frames: Seq<Vec<u8>>) -> Seq<Seq<u8>> {
    Seq::new(frames.len(), |i: int| frames[i]@)
}

/// Compresses the values from `start` up to `end`, and appends each frame,
/// with the place of its value as its number, to `arrivals`: one piece of
/// work of the pipeline.
pub fn compress_chunk(
    dict: &[u8],
    values: &[Vec<u8>],
    start: usize,
    end: usize,
    arrivals: &mut Vec<(usize, Vec<u8>)>,
) -> (done: Result<(), IkvblobError>)
    requires
        start <= end <= values@.len(),
    ensures
        final(arrivals)@.take(old(arrivals)@.len() as int) == old(arrivals)@,
        match done {
            Ok(()) => {
                &&& final(arrivals)@.len() == old(arrivals)@.len() + (end - start)
                &&& forall|j: int|
                    0 <= j < end - start ==> (#[trigger] final(arrivals)@[old(arrivals)@.len() + j]).0
                        == start + j && spec_compress_value(dict@, values@[start + j]@) == Ok::<
                        Seq<u8>,
                        IkvblobError,
                    >(final(arrivals)@[old(arrivals)@.len() + j].1@)
            },
            Err(e) => exists|i: int|
                start <= i < end && #[trigger] spec_compress_value(dict@, values@[i]@) == Err::<
                    Seq<u8>,
                    IkvblobError,
                >(e) && forall|j: int|
                    start <= j < i ==> (#[trigger] spec_compress_value(dict@, values@[j]@)) is Ok,
        },
{
    let ghost base = arrivals@.len();
    let mut i: usize = start;
    while i < end
        invariant
            start <= i <= end <= values@.len(),
            base == old(arrivals)@.len(),
            arrivals@.len() == base + (i - start),
            arrivals@.take(base as int) == old(arrivals)@,
            forall|j: int|
                0 <= j < i - start ==> (#[trigger] arrivals@[base + j]).0 == start + j
                    && spec_compress_value(dict@, values@[start + j]@) == Ok::<
                    Seq<u8>,
                    IkvblobError,
                >(arrivals@[base + j].1@),
        decreases end - i,
    {
        let ghost before = arrivals@;
        match compress_value(dict, values[i].as_slice()) {
            Ok(frame) => {
                arrivals.push((i, frame));
                assert(arrivals@.take(base as int) =~= before.take(base as int));
                assert forall|j: int| 0 <= j < i + 1 - start implies (
                #[trigger] arrivals@[base + j]).0 == start + j && spec_compress_value(
                    dict@,
                    values@[start + j]@,
                ) == Ok::<Seq<u8>, IkvblobError>(arrivals@[base + j].1@) by {
                    if j < i - start {
                        assert(arrivals@[base + j] == before[base + j]);
                    }
                }
            },
            Err(e) => {
                assert forall|j: int| start <= j < i implies (#[trigger] spec_compress_value(
                    dict@,
                    values@[j]@,
                )) is Ok by {
                    assert(before[base + (j - start)].0 == start + (j - start));
                }
                return Err(e);
            },
        }
        i += 1;
    }
    Ok(())
}

/// Where each of the first `n` values has a frame, those are the frames of
/// the first `n` values.
pub proof fn lemma_compress_all_ok(dict: Seq<u8>, values: Seq<Vec<u8>>, frames: Seq<Seq<u8>>, n: int)
    requires
        0 <= n <= values.len(),
        n <= frames.len(),
        forall|j: int|
            0 <= j < n ==> #[trigger] spec_compress_value(dict, values[j]@) == Ok::<
                Seq<u8>,
                IkvblobError,
            >(frames[j]),
    ensures
        spec_compress_all(dict, values.take(n)) == Ok::<Seq<Seq<u8>>, IkvblobError>(frames.take(n)),
    decreases n,
{
    if n > 0 {
        lemma_compress_all_ok(dict, values, frames, n - 1);
        assert(values.take(n).drop_last() =~= values.take(n - 1));
        assert(values.take(n).last() == values[n - 1]);
        assert(spec_compress_value(dict, values[n - 1]@) == Ok::<Seq<u8>, IkvblobError>(
            frames[n - 1],
        ));
        assert(frames.take(n - 1).push(frames[n - 1]) =~= frames.take(n));
    } else {
        assert(values.take(0) =~= Seq::<Vec<u8>>::empty());
        assert(frames.take(0) =~= Seq::<Seq<u8>>::empty());
    }
}

/// Where the value `i` is the first that has no frame, its error is the error
/// of all the values.
pub proof fn lemma_compress_all_err(
    dict: Seq<u8>,
    values: Seq<Vec<u8>>,
    i: int,
    e: IkvblobError,
)
    requires
        0 <= i < values.len(),
        spec_compress_value(dict, values[i]@) == Err::<Seq<u8>, IkvblobError>(e),
        forall|j: int| 0 <= j < i ==> (#[trigger] spec_compress_value(dict, values[j]@)) is Ok,
    ensures
        spec_compress_all(dict, values) == Err::<Seq<Seq<u8>>, IkvblobError>(e),
{
    let frames = Seq::new(i as nat, |j: int| spec_compress_value(dict, values[j]@)->Ok_0);
    assert forall|j: int| 0 <= j < i implies #[trigger] spec_compress_value(dict, values[j]@)
        == Ok::<Seq<u8>, IkvblobError>(frames[j]) by {
        assert(spec_compress_value(dict, values[j]@) is Ok);
    }
    lemma_compress_all_ok(dict, values, frames, i);
    assert(values.take(i + 1).drop_last() =~= values.take(i));
    assert(values.take(i + 1).last() == values[i]);
    lemma_compress_error_stays(dict, values, i + 1);
}

/// Where the piece of work ends that begins at `start`: `chunk_size` values
/// on, or where the values end.
pub fn chunk_end(len: usize, start: usize, chunk_size: usize) -> (end: usize)
    requires
        start <= len,
    ensures
        end == (if len - start <= chunk_size {
            len as int
        } else {
            start + chunk_size
        }),
        start <= end <= len,
{
    if len - start <= chunk_size {
        len
    } else {
        start + chunk_size
    }
}

/// Compresses all the values with the dictionary, in pieces of `chunk_size`
/// values, and hands the frames on in the order of the values: each frame
/// carries the place of its value, and the frames go through the reordering
/// that also serves pieces that are worked on side by side.
pub fn compress_ordered(dict: &[u8], values: &[Vec<u8>], chunk_size: usize) -> (frames: Result<
    Vec<Vec<u8>>,
    IkvblobError,
>)
    requires
        chunk_size > 0,
    ensures
        match frames {
            Ok(f) => spec_compress_all(dict@, values@) == Ok::<Seq<Seq<u8>>, IkvblobError>(
                frame_views(f@),
            ),
            Err(e) => spec_compress_all(dict@, values@) == Err::<Seq<Seq<u8>>, IkvblobError>(e),
        },
{
    let mut arrivals: Vec<(usize, Vec<u8>)> = Vec::new();
    let len = values.len();
    let mut start: usize = 0;
    while start < len
        invariant
            start <= len == values@.len(),
            chunk_size > 0,
            arrivals@.len() == start,
            forall|j: int|
                0 <= j < start ==> (#[trigger] arrivals@[j]).0 == j && spec_compress_value(
                    dict@,
                    values@[j]@,
                ) == Ok::<Seq<u8>, IkvblobError>(arrivals@[j].1@),
        decreases len - start,
    {
        let end = chunk_end(len, start, chunk_size);
        let ghost before = arrivals@;
        match compress_chunk(dict, values, start, end, &mut arrivals) {
            Ok(()) => {
                assert forall|j: int| 0 <= j < end implies (#[trigger] arrivals@[j]).0 == j
                    && spec_compress_value(dict@, values@[j]@) == Ok::<Seq<u8>, IkvblobError>(
                    arrivals@[j].1@,
                ) by {
                    if j < start {
                        assert(arrivals@.take(start as int)[j] == before[j]);
                    } else {
                        assert(arrivals@[start + (j - start)].0 == start + (j - start));
                    }
                }
            },
            Err(e) => {
                proof {
                    let i = choose|i: int|
                        start <= i < end && #[trigger] spec_compress_value(dict@, values@[i]@)
                            == Err::<Seq<u8>, IkvblobError>(e) && forall|j: int|
                            start <= j < i ==> (#[trigger] spec_compress_value(
                                dict@,
                                values@[j]@,
                            )) is Ok;
                    assert forall|j: int| 0 <= j < i implies (#[trigger] spec_compress_value(
                        dict@,
                        values@[j]@,
                    )) is Ok by {
                        if j < start {
                            assert(before[j].0 == j);
                        }
                    }
                    lemma_compress_all_err(dict@, values@, i, e);
                }
                return Err(e);
            },
        }
        start = end;
    }
    let ghost in_order = Seq::new(len as nat, |j: int| arrivals@[j].1);
    proof {
        assert(reordering_of(arrivals@, in_order));
        lemma_recover_order_restores(arrivals@, in_order);
        let views = frame_views(in_order);
        assert forall|j: int| 0 <= j < len implies #[trigger] spec_compress_value(
            dict@,
            values@[j]@,
        ) == Ok::<Seq<u8>, IkvblobError>(views[j]) by {
            assert(arrivals@[j].0 == j);
        }
        lemma_compress_all_ok(dict@, values@, views, len as int);
        assert(values@.take(len as int) =~= values@);
        assert(views.take(len as int) =~= views);
    }
    Ok(recover_order(arrivals))
}

/// Compresses all the values with the dictionary, one after the other.
pub fn compress_all(dict: &[u8], values: &[Vec<u8>]) -> (frames: Result<Vec<Vec<u8>>, IkvblobError>)
    ensures
        match frames {
            Ok(f) => spec_compress_all(dict@, values@) == Ok::<Seq<Seq<u8>>, IkvblobError>(
                frame_views(f@),
            ),
            Err(e) => spec_compress_all(dict@, values@) == Err::<Seq<Seq<u8>>, IkvblobError>(e),
        },
{
    let mut frames: Vec<Vec<u8>> = Vec::new();
    let mut i: usize = 0;
    assert(values@.take(0) =~= Seq::<Vec<u8>>::empty());
    assert(frame_views(frames@) =~= Seq::<Seq<u8>>::empty());
    while i < values.len()
        invariant
            i <= values@.len(),
            spec_compress_all(dict@, values@.take(i as int)) == Ok::<
                Seq<Seq<u8>>,
                IkvblobError,
            >(frame_views(frames@)),
        decreases values@.len() - i,
    {
        proof {
            assert(values@.take(i + 1).drop_last() =~= values@.take(i as int));
            assert(values@.take(i + 1).last() == values@[i as int]);
        }
        let ghost before = frames@;
        match compress_value(dict, values[i].as_slice()) {
            Ok(frame) => {
                frames.push(frame);
                assert(frame_views(frames@) =~= frame_views(before).push(frame@));
            },
            Err(e) => {
                proof {
                    lemma_compress_error_stays(dict@, values@, i + 1);
                }
                return Err(e);
            },
        }
        i += 1;
    }
    assert(values@.take(i as int) =~= values@);
    Ok(frames)
}

/// The dictionary and the frames of a construction, or its error.
pub open spec fn construction_view(built: Result<(Vec<u8>, Vec<Vec<u8>>), IkvblobError>) -> Result<
    (Seq<u8>, Seq<Seq<u8>>),
    IkvblobError,
> {
    match built {
        Ok((dict, frames)) => Ok((dict@, frame_views(frames@))),
        Err(e) => Err(e),
    }
}

/// What a construction gives with the dictionary that was trained on
/// `samples`: the dictionary and the frames of all the values under it, in
/// their order; the error of the training where no dictionary was trained;
/// the error of the first value that cannot be compressed.
pub open spec fn spec_construct(samples: Seq<&Vec<u8>>, values: Seq<Vec<u8>>, max_size: usize) -> Result<
    (Seq<u8>, Seq<Seq<u8>>),
    IkvblobError,
> {
    match spec_dictionary(samples, max_size) {
        Err(e) => Err(e),
        Ok(dict) => match spec_compress_all(dict, values) {
            Err(e) => Err(e),
            Ok(frames) => Ok((dict, frames)),
        },
    }
}

/// Compresses all the values in pieces with a dictionary that was trained, or
/// hands on the error of the training.
fn compress_with(
    dict: Result<Vec<u8>, IkvblobError>,
    values: &[Vec<u8>],
    Ghost(samples): Ghost<Seq<&Vec<u8>>>,
    Ghost(max_size): Ghost<usize>,
    in_pieces: bool,
) -> (built: Result<(Vec<u8>, Vec<Vec<u8>>), IkvblobError>)
    requires
        dictionary_view(dict) == spec_dictionary(samples, max_size),
    ensures
        construction_view(built) == spec_construct(samples, values@, max_size),
{
    let dict = match dict {
        Ok(dict) => dict,
        Err(e) => {
            return Err(e);
        },
    };
    let frames = if in_pieces {
        compress_ordered(dict.as_slice(), values, CHUNK_SIZE)
    } else {
        compress_all(dict.as_slice(), values)
    };
    match frames {
        Ok(frames) => Ok((dict, frames)),
        Err(e) => Err(e),
    }
}

/// Builds the dictionary and the stored form of the values: trains the
/// dictionary on a reservoir sample of at most `sample_count` values, then
/// compresses all the values in pieces of `CHUNK_SIZE`, in their order.
///
/// Which values are sampled is left to chance: the result is what
/// `spec_construct` gives for some sample that a reservoir of `sample_count`
/// places takes of the values.
pub fn construct(values: &[Vec<u8>], max_dict_size_in_bytes: usize, sample_count: usize) -> (built:
    Result<(Vec<u8>, Vec<Vec<u8>>), IkvblobError>)
    ensures
        exists|samples: Seq<&Vec<u8>>| #[trigger]
            reservoir_of(samples, values@, sample_count as nat) && construction_view(built)
                == spec_construct(samples, values@, max_dict_size_in_bytes),
        max_dict_size_in_bytes > isize::MAX ==> built == Err::<
            (Vec<u8>, Vec<Vec<u8>>),
            IkvblobError,
        >(IkvblobError::DictionaryTrainingFailed),
{
    let mut rng = thread_rng();
    let samples = sample(&mut rng, sample_count, values);
    let dict = dictionary_from(&samples, max_dict_size_in_bytes);
    let built = compress_with(dict, values, Ghost(samples@), Ghost(max_dict_size_in_bytes), true);
    assert(reservoir_of(samples@, values@, sample_count as nat) && construction_view(built)
        == spec_construct(samples@, values@, max_dict_size_in_bytes));
    built
}

/// As `construct`, with a sample that is chosen from all the values at once.
pub fn construct_simple(data: &[Vec<u8>], max_dict_size_in_bytes: usize, sample_count: usize) -> (built:
    Result<(Vec<u8>, Vec<Vec<u8>>), IkvblobError>)
    ensures
        exists|samples: Seq<&Vec<u8>>| #[trigger]
            choice_of(samples, data@, sample_count as nat) && construction_view(built)
                == spec_construct(samples, data@, max_dict_size_in_bytes),
        max_dict_size_in_bytes > isize::MAX ==> built == Err::<
            (Vec<u8>, Vec<Vec<u8>>),
            IkvblobError,
        >(IkvblobError::DictionaryTrainingFailed),
{
    let mut rng = thread_rng();
    let samples = choose_multiple(data, &mut rng, sample_count);
    let dict = dictionary_from(&samples, max_dict_size_in_bytes);
    let built = compress_with(dict, data, Ghost(samples@), Ghost(max_dict_size_in_bytes), true);
    assert(choice_of(samples@, data@, sample_count as nat) && construction_view(built)
        == spec_construct(samples@, data@, max_dict_size_in_bytes));
    built
}

/// As `construct_simple`, with the values compressed one after the other.
pub fn construct_simple2(data: &[Vec<u8>], max_dict_size_in_bytes: usize, sample_count: usize) -> (built:
    Result<(Vec<u8>, Vec<Vec<u8>>), IkvblobError>)
    ensures
        exists|samples: Seq<&Vec<u8>>| #[trigger]
            choice_of(samples, data@, sample_count as nat) && construction_view(built)
                == spec_construct(samples, data@, max_dict_size_in_bytes),
        max_dict_size_in_bytes > isize::MAX ==> built == Err::<
            (Vec<u8>, Vec<Vec<u8>>),
            IkvblobError,
        >(IkvblobError::DictionaryTrainingFailed),
{
    let mut rng = thread_rng();
    let samples = choose_multiple(data, &mut rng, sample_count);
    let dict = dictionary_from(&samples, max_dict_size_in_bytes);
    let built = compress_with(dict, data, Ghost(samples@), Ghost(max_dict_size_in_bytes), false);
    assert(choice_of(samples@, data@, sample_count as nat) && construction_view(built)
        == spec_construct(samples@, data@, max_dict_size_in_bytes));
    built
}

} // verus!
