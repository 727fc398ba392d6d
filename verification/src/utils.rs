//! Tools of the construction: the checksum of what is written, reservoir
//! sampling, and the reordering of results that arrive out of order.

use crate::bytes::{append_bytes, u32_from_le, u64_from_le};
use crate::error::IkvblobError;
use crate::reorder::{spec_recover_order, spec_replay, OrderRecoverer};
use base64::Engine;
use rand::Rng;
use vstd::prelude::*;
use vstd::slice::slice_subrange;

verus! {

/// The CRC-32 checksum of `bytes`.
pub uninterp spec fn crc32(bytes: Seq<u8>) -> u32;

/// Computes the CRC-32 checksum of `bytes`.
///
/// Trusted: `crc32fast::hash` returns the CRC-32 of a byte slice. The result
/// depends on the bytes alone; it is given the name `crc32`.
#[verifier::external_body]
pub(crate) fn crc32_of_bytes(bytes: &[u8]) -> (crc: u32)
    ensures
        crc == crc32(bytes@),
{
    crc32fast::hash(bytes)
}

/// A sink of bytes that knows the checksum of all that was written to it.
pub struct CRC32Writer {
    inner: Vec<u8>,
    written: Vec<u8>,
}

impl CRC32Writer {
    /// All the bytes of the sink: those that it was made with, then those
    /// that were written to it.
    pub closed spec fn sink(self) -> Seq<u8> {
        self.inner@ + self.written@
    }

    /// The bytes that were written to the sink.
    pub closed spec fn written(self) -> Seq<u8> {
        self.written@
    }

    /// A writer onto `inner`. Nothing counts as written yet.
    pub fn new(inner: Vec<u8>) -> (writer: Self)
        ensures
            writer.sink() == inner@,
            writer.written() == Seq::<u8>::empty(),
    {
        let writer = CRC32Writer { inner, written: Vec::new() };
        assert(writer.sink() =~= inner@);
        writer
    }

    /// Writes all of `buf`, and returns the number of bytes written.
    pub fn write(&mut self, buf: &[u8]) -> (count: usize)
        ensures
            count == buf@.len(),
            final(self).sink() == old(self).sink() + buf@,
            final(self).written() == old(self).written() + buf@,
    {
        append_bytes(&mut self.written, buf);
        assert(self.sink() =~= old(self).sink() + buf@);
        buf.len()
    }

    /// The checksum of the bytes that were written so far.
    pub fn current_crc(&mut self) -> (crc: u32)
        ensures
            crc == crc32(old(self).written()),
            final(self).sink() == old(self).sink(),
            final(self).written() == old(self).written(),
    {
        crc32_of_bytes(self.written.as_slice())
    }

    /// The sink with all that was written to it.
    pub fn into_inner(self) -> (inner: Vec<u8>)
        ensures
            inner@ == self.sink(),
    {
        let mut inner = self.inner;
        let mut written = self.written;
        inner.append(&mut written);
        inner
    }
}

/// Whether the last four bytes of `file` are the checksum, least significant
/// byte first, of all the bytes before them.
pub open spec fn spec_checksum_holds(file: Seq<u8>) -> bool {
    file.len() >= 4 && vstd::bytes::spec_u32_from_le_bytes(file.skip(file.len() - 4)) == crc32(
        file.take(file.len() - 4),
    )
}

/// The thread-local generator of random numbers of the `rand` crate.
#[verifier::external_type_specification]
#[verifier::external_body]
pub struct ExThreadRng(rand::rngs::ThreadRng);

/// The generator of random numbers of the calling thread.
///
/// Trusted: `rand::thread_rng` returns a handle to the thread-local
/// generator, which the system seeds. Nothing is claimed of it.
#[verifier::external_body]
pub(crate) fn thread_rng() -> rand::rngs::ThreadRng {
    rand::thread_rng()
}

/// A random number below `bound`.
///
/// Trusted: `rand::Rng::gen_range` returns a value of the range that it is
/// given, here `0..bound`, and panics on an empty range. Which value comes is
/// left open.
#[verifier::external_body]
fn random_below(rng: &mut rand::rngs::ThreadRng, bound: usize) -> (index: usize)
    requires
        bound > 0,
    ensures
        index < bound,
{
    rng.gen_range(0..bound)
}

/// The samples after the element number `count` of a stream, counting from
/// one, has been offered to a reservoir of `sample_size` places that begins
/// at `original_length`: the first `sample_size` elements fill the
/// reservoir; a later one takes the place `index`, drawn below `count`, if
/// that is a place of the reservoir, and is dropped if not.
pub open spec fn spec_reservoir_step<T>(
    samples: Seq<T>,
    original_length: nat,
    sample_size: nat,
    count: nat,
    index: nat,
    element: T,
) -> Seq<T> {
    if count <= sample_size {
        samples.push(element)
    } else if index < sample_size {
        samples.update((original_length + index) as int, element)
    } else {
        samples
    }
}

/// Offers one element of a stream to the reservoir.
pub fn reservoir_step<T>(
    samples: &mut Vec<T>,
    original_length: usize,
    sample_size: usize,
    count: usize,
    index: usize,
    element: T,
)
    requires
        count > sample_size ==> original_length + sample_size <= old(samples)@.len(),
    ensures
        final(samples)@ == spec_reservoir_step(
            old(samples)@,
            original_length as nat,
            sample_size as nat,
            count as nat,
            index as nat,
            element,
        ),
{
    let len = samples.len();
    if count <= sample_size {
        samples.push(element);
    } else if index < sample_size {
        samples[original_length + index] = element;
    }
}

/// The samples are items of `items`, each taken from another place: the
/// sample in place `j` is the item in place `places[j]`.
pub open spec fn drawn_at<T>(samples: Seq<&T>, items: Seq<T>, places: Seq<int>) -> bool {
    &&& places.len() == samples.len()
    &&& forall|j: int|
        0 <= j < samples.len() ==> 0 <= #[trigger] places[j] < items.len() && *samples[j]
            == items[places[j]]
    &&& forall|i: int, j: int|
        0 <= i < j < places.len() ==> #[trigger] places[i] != #[trigger] places[j]
}

/// The places from which a reservoir of `sample_size` places was filled: the
/// place `j` of the reservoir holds the item `j`, or a later one from
/// `sample_size` on.
pub open spec fn reservoir_places(places: Seq<int>, sample_size: nat) -> bool {
    forall|j: int| 0 <= j < places.len() ==> #[trigger] places[j] == j || places[j] >= sample_size
}

/// `samples` is a sample of the `items` as a reservoir of `sample_size`
/// places takes it: as many as there is room for, each from another place of
/// the input, the place `j` of the sample from the place `j` of the input or
/// from a later one from `sample_size` on.
pub open spec fn reservoir_of<T>(samples: Seq<&T>, items: Seq<T>, sample_size: nat) -> bool {
    &&& samples.len() == (if items.len() <= sample_size {
        items.len()
    } else {
        sample_size
    })
    &&& exists|places: Seq<int>| #[trigger]
        drawn_at(samples, items, places) && reservoir_places(places, sample_size)
}

/// Adds to `samples` a uniform random sample of at most `sample_size` of the
/// `items`, in one pass: each item is kept with a probability that falls as
/// the pass goes on.
///
/// Whatever the random numbers: what `samples` held stays; the first
/// `sample_size` items, or all of them if there are fewer, are added in their
/// order, and a later item either replaces one that was added or is dropped.
/// So the samples come from distinct places of the input, the sample in
/// place `j` from the place `j` or from a later one from `sample_size` on.
pub fn sample_into<'a, T>(
    samples: &mut Vec<&'a T>,
    rng: &mut rand::rngs::ThreadRng,
    sample_size: usize,
    items: &'a [T],
)
    ensures
        final(samples)@.len() >= old(samples)@.len(),
        final(samples)@.take(old(samples)@.len() as int) == old(samples)@,
        reservoir_of(final(samples)@.skip(old(samples)@.len() as int), items@, sample_size as nat),
        items@.len() <= sample_size ==> forall|k: int|
            0 <= k < items@.len() ==> *#[trigger] final(samples)@.skip(
                old(samples)@.len() as int,
            )[k] == items@[k],
{
    let original_length = samples.len();
    let mut count: usize = 0;
    let ghost mut places: Seq<int> = Seq::empty();
    while count < items.len()
        invariant
            count <= items@.len(),
            original_length == old(samples)@.len(),
            samples@.len() == original_length + (if count <= sample_size {
                count as nat
            } else {
                sample_size as nat
            }),
            samples@.take(original_length as int) == old(samples)@,
            drawn_at(samples@.skip(original_length as int), items@, places),
            reservoir_places(places, sample_size as nat),
            forall|j: int| 0 <= j < places.len() ==> #[trigger] places[j] < count,
            count <= sample_size ==> forall|k: int|
                0 <= k < count ==> *#[trigger] samples@[original_length + k] == items@[k],
        decreases items@.len() - count,
    {
        let element = &items[count];
        let ghost before = samples@;
        let ghost places_before = places;
        let ghost seen = count as int;
        count += 1;
        let index = if count <= sample_size {
            0
        } else {
            random_below(rng, count)
        };
        reservoir_step(samples, original_length, sample_size, count, index, element);
        proof {
            assert(samples@.take(original_length as int) =~= before.take(original_length as int));
            let was = before.skip(original_length as int);
            let now = samples@.skip(original_length as int);
            if count <= sample_size {
                places = places_before.push(seen);
                assert(now =~= was.push(element));
            } else if index < sample_size {
                places = places_before.update(index as int, seen);
                assert(now =~= was.update(index as int, element));
            } else {
                assert(now =~= was);
            }
            assert forall|j: int| 0 <= j < now.len() implies 0 <= #[trigger] places[j]
                < items@.len() && *now[j] == items@[places[j]] by {
                if places[j] != seen {
                    assert(places[j] == places_before[j]);
                    assert(now[j] == was[j]);
                }
            }
            assert forall|i: int, j: int| 0 <= i < j < places.len() implies #[trigger] places[i]
                != #[trigger] places[j] by {
                if places[i] != seen && places[j] != seen {
                    assert(places[i] == places_before[i]);
                    assert(places[j] == places_before[j]);
                } else if places[i] == seen && places[j] != seen {
                    assert(places[j] == places_before[j]);
                } else if places[j] == seen && places[i] != seen {
                    assert(places[i] == places_before[i]);
                }
            }
            assert forall|j: int| 0 <= j < places.len() implies #[trigger] places[j] < count by {
                if places[j] != seen {
                    assert(places[j] == places_before[j]);
                }
            }
            assert forall|j: int| 0 <= j < places.len() implies #[trigger] places[j] == j
                || places[j] >= sample_size by {
                if places[j] != seen {
                    assert(places[j] == places_before[j]);
                }
            }
        }
    }
    proof {
        if items@.len() <= sample_size {
            let added = samples@.skip(original_length as int);
            assert forall|k: int| 0 <= k < items@.len() implies *#[trigger] added[k] == items@[k] by {
                assert(added[k] == samples@[original_length + k]);
            }
        }
    }
}

/// A uniform random sample of at most `sample_size` of the `items`.
pub fn sample<'a, T>(rng: &mut rand::rngs::ThreadRng, sample_size: usize, items: &'a [T]) -> (samples:
    Vec<&'a T>)
    ensures
        reservoir_of(samples@, items@, sample_size as nat),
        items@.len() <= sample_size ==> forall|k: int|
            0 <= k < items@.len() ==> *#[trigger] samples@[k] == items@[k],
{
    let mut samples: Vec<&'a T> = Vec::new();
    sample_into(&mut samples, rng, sample_size, items);
    assert(samples@.skip(0) =~= samples@);
    samples
}

/// Puts results that arrived in the order `arrivals`, each with its sequence
/// number, back into the order of the numbers, which count from zero.
///
/// Every result must have had its turn at the end. Arrivals that leave a
/// result waiting, because one before it never came or one came twice, are a
/// fault that must stop the construction: they are left out here, and
/// `OrderRecoverer::finish` tells a caller that cannot know.
pub fn recover_order<T>(arrivals: Vec<(usize, T)>) -> (ordered: Vec<T>)
    requires
        forall|a: int| 0 <= a < arrivals@.len() ==> (#[trigger] arrivals@[a]).0 < usize::MAX,
        spec_recover_order(arrivals@) is Ok,
    ensures
        spec_recover_order(arrivals@) == Ok::<Seq<T>, IkvblobError>(ordered@),
{
    let mut recoverer: OrderRecoverer<T> = OrderRecoverer::new();
    let mut ordered: Vec<T> = Vec::new();
    let ghost all = arrivals@;
    for pair in it: arrivals
        invariant
            all == it.seq(),
            forall|a: int| 0 <= a < all.len() ==> (#[trigger] all[a]).0 < usize::MAX,
            recoverer.next() == ordered@.len(),
            (ordered@, recoverer.pending()) == spec_replay(all.take(it.index() as int)),
    {
        let ghost before = ordered@;
        proof {
            assert(all.take(it.index() + 1).drop_last() =~= all.take(it.index() as int));
            assert(all.take(it.index() + 1).last() == pair);
        }
        let (i, value) = pair;
        recoverer.accept(i, value, &mut ordered);
        assert(ordered@.take(before.len() as int) == before);
        assert(ordered@ =~= before + ordered@.skip(before.len() as int));
    }
    assert(all.take(all.len() as int) =~= all);
    ordered
}

/// The value of a hexadecimal digit, in either case.
pub open spec fn hex_digit(c: u8) -> Option<u8> {
    if 0x30 <= c <= 0x39 {
        Some((c - 0x30) as u8)
    } else if 0x41 <= c <= 0x46 {
        Some((c - 0x41 + 10) as u8)
    } else if 0x61 <= c <= 0x66 {
        Some((c - 0x61 + 10) as u8)
    } else {
        None
    }
}

/// The bytes that a hexadecimal text stands for, two digits a byte; `None`
/// where the text has an odd length or holds another character.
pub open spec fn spec_hex_decode(text: Seq<u8>) -> Option<Seq<u8>> {
    if text.len() % 2 != 0 || exists|i: int| 0 <= i < text.len() && hex_digit(#[trigger] text[i])
        is None {
        None
    } else {
        Some(
            Seq::new(
                text.len() / 2,
                |i: int|
                    (hex_digit(text[2 * i]).unwrap() * 16 + hex_digit(text[2 * i + 1]).unwrap()) as u8,
            ),
        )
    }
}

/// The bytes that a text in standard base64 with padding stands for, or
/// `None` where the text is not such a text.
pub uninterp spec fn base64_decoded(text: Seq<u8>) -> Option<Seq<u8>>;

/// Decodes a hexadecimal text.
///
/// Trusted: `hex::decode` fails on a text of odd length and on a character
/// that is no hexadecimal digit of either case, and else returns, for each
/// pair of digits, the byte with the first as its high half and the second as
/// its low half.
#[verifier::external_body]
fn hex_decode(text: &[u8]) -> (bytes: Option<Vec<u8>>)
    ensures
        match bytes {
            Some(b) => spec_hex_decode(text@) == Some(b@),
            None => spec_hex_decode(text@) is None,
        },
{
    hex::decode(text).ok()
}

/// Decodes a text in standard base64.
///
/// Trusted: `base64::Engine::decode` of `base64::prelude::BASE64_STANDARD`
/// returns the bytes that the text encodes in the standard alphabet with
/// padding, or an error. The result depends on the text alone; it is given
/// the name `base64_decoded`.
#[verifier::external_body]
fn base64_decode(text: &[u8]) -> (bytes: Option<Vec<u8>>)
    ensures
        match bytes {
            Some(b) => base64_decoded(text@) == Some(b@),
            None => base64_decoded(text@) is None,
        },
{
    base64::prelude::BASE64_STANDARD.decode(text).ok()
}

/// Where the first comma of `line` at or after `from` stands; the length of
/// the line where there is none.
pub open spec fn first_comma(line: Seq<u8>, from: int) -> int
    decreases line.len() - from,
{
    if from < 0 || from >= line.len() {
        line.len() as int
    } else if line[from] == 0x2c {
        from
    } else {
        first_comma(line, from + 1)
    }
}

/// The key and the value of a line of a listing: the line holds the key in
/// hexadecimal, a comma, and the value in base64; a second comma ends the
/// value. `None` where the line has no comma or a field cannot be decoded.
pub open spec fn spec_parse_signature_line(line: Seq<u8>) -> Option<(Seq<u8>, Seq<u8>)> {
    let key_end = first_comma(line, 0);
    if key_end >= line.len() {
        None
    } else {
        let value_end = first_comma(line, key_end + 1);
        match (
            spec_hex_decode(line.subrange(0, key_end)),
            base64_decoded(line.subrange(key_end + 1, value_end)),
        ) {
            (Some(key), Some(value)) => Some((key, value)),
            _ => None,
        }
    }
}

/// Finds the first comma of `line` at or after `from`.
fn find_comma(line: &[u8], from: usize) -> (at: usize)
    requires
        from <= line@.len(),
    ensures
        at == first_comma(line@, from as int),
        from <= at <= line@.len(),
{
    let mut i: usize = from;
    while i < line.len()
        invariant
            from <= i <= line@.len(),
            first_comma(line@, from as int) == first_comma(line@, i as int),
        decreases line@.len() - i,
    {
        if line[i] == 0x2c {
            return i;
        }
        i += 1;
    }
    i
}

/// Parses one line of a listing of keys and values.
pub fn parse_signature_line(line: &[u8]) -> (entry: Option<(Vec<u8>, Vec<u8>)>)
    ensures
        match entry {
            Some((key, value)) => spec_parse_signature_line(line@) == Some((key@, value@)),
            None => spec_parse_signature_line(line@) is None,
        },
{
    let key_end = find_comma(line, 0);
    if key_end >= line.len() {
        return None;
    }
    let value_end = find_comma(line, key_end + 1);
    let key = hex_decode(slice_subrange(line, 0, key_end));
    let value = base64_decode(slice_subrange(line, key_end + 1, value_end));
    match (key, value) {
        (Some(key), Some(value)) => Some((key, value)),
        _ => None,
    }
}

/// The number of bytes of a record of an index file.
pub const INDEX_RECORD_SIZE: usize = 12;

/// The locator that a record of an index file holds: the offset as eight
/// bytes and the length as four, each least significant byte first.
pub open spec fn spec_index_record(buf: Seq<u8>) -> Option<(u64, u32)> {
    if buf.len() < 12 {
        None
    } else {
        Some(
            (
                vstd::bytes::spec_u64_from_le_bytes(buf.subrange(0, 8)),
                vstd::bytes::spec_u32_from_le_bytes(buf.subrange(8, 12)),
            ),
        )
    }
}

/// Decodes one record of an index file.
pub fn decode_index_record(buf: &[u8]) -> (locator: Option<(u64, u32)>)
    ensures
        locator == spec_index_record(buf@),
{
    if buf.len() < 12 {
        return None;
    }
    let offset = u64_from_le(buf);
    let tail = slice_subrange(buf, 8, 12);
    assert(tail@.subrange(0, 4) =~= buf@.subrange(8, 12));
    let length = u32_from_le(tail);
    Some((offset, length))
}

} // verus!
