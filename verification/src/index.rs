//! Builders of the index of a value blob: each value that is pushed gets the
//! locator under which it will be found.

use vstd::prelude::*;

verus! {

/// A builder that assigns an index of type `I` to each value of type `V`, in
/// the order in which the values are pushed.
pub trait IndexBuilder<I, V>: Sized {
    /// Whether `entry` can still be pushed: the index has room for it.
    spec fn can_push(&self, entry: &V) -> bool;

    /// The builder after `entry` has been pushed, and the index of `entry`.
    spec fn pushed(&self, entry: &V) -> (Self, I);

    /// Pushes a value, and returns its index.
    fn push(&mut self, entry: &V) -> (idx: I)
        requires
            old(self).can_push(entry),
        ensures
            (*final(self), idx) == old(self).pushed(entry),
    ;
}

/// Numbers the values from zero.
pub struct EntryIndexBuilder {
    pub current_index: usize,
}

impl EntryIndexBuilder {
    /// A builder whose first index is zero.
    pub fn new() -> (builder: Self)
        ensures
            builder.current_index == 0,
    {
        EntryIndexBuilder { current_index: 0 }
    }
}

impl<V> IndexBuilder<usize, V> for EntryIndexBuilder {
    open spec fn can_push(&self, entry: &V) -> bool {
        self.current_index < usize::MAX
    }

    open spec fn pushed(&self, entry: &V) -> (Self, usize) {
        (EntryIndexBuilder { current_index: (self.current_index + 1) as usize }, self.current_index)
    }

    fn push(&mut self, _entry: &V) -> (idx: usize) {
        let idx = self.current_index;
        self.current_index += 1;
        idx
    }
}

/// Gives each value its locator in the concatenation of all the values: the
/// offset at which it begins, and its length.
pub struct OffsetIndexBuilder {
    pub current_offset: u64,
}

impl OffsetIndexBuilder {
    /// A builder whose first value begins at offset zero.
    pub fn new() -> (builder: Self)
        ensures
            builder.current_offset == 0,
    {
        OffsetIndexBuilder { current_offset: 0 }
    }
}

impl IndexBuilder<(u64, u32), Vec<u8>> for OffsetIndexBuilder {
    /// The length fits 32 bits, and the end of the value 64.
    open spec fn can_push(&self, entry: &Vec<u8>) -> bool {
        entry@.len() <= u32::MAX && self.current_offset + entry@.len() <= u64::MAX
    }

    open spec fn pushed(&self, entry: &Vec<u8>) -> (Self, (u64, u32)) {
        (
            OffsetIndexBuilder { current_offset: (self.current_offset + entry@.len()) as u64 },
            (self.current_offset, entry@.len() as u32),
        )
    }

    fn push(&mut self, entry: &Vec<u8>) -> (idx: (u64, u32)) {
        let len = entry.len() as u32;
        let res = (self.current_offset, len);
        self.current_offset += len as u64;
        res
    }
}

/// The locators of a sequence of values in their concatenation.
pub open spec fn spec_locators(values: Seq<Vec<u8>>) -> Seq<(u64, u64)>
    decreases values.len(),
{
    if values.len() == 0 {
        Seq::empty()
    } else {
        spec_locators(values.drop_last()).push(
            (spec_blob(values.drop_last()).len() as u64, values.last()@.len() as u64),
        )
    }
}

/// The concatenation of a sequence of values: the value blob.
pub open spec fn spec_blob(values: Seq<Vec<u8>>) -> Seq<u8>
    decreases values.len(),
{
    if values.len() == 0 {
        Seq::empty()
    } else {
        spec_blob(values.drop_last()) + values.last()@
    }
}

/// Lays the values out one after the other: the value blob, and for each
/// value its locator in the blob. `None` where the blob would have more
/// bytes than can be counted.
pub fn layout_values(values: &[Vec<u8>]) -> (laid: Option<(Vec<u8>, Vec<(u64, u64)>)>)
    ensures
        match laid {
            Some((blob, locators)) => blob@ == spec_blob(values@) && locators@ == spec_locators(
                values@,
            ),
            None => spec_blob(values@).len() > usize::MAX,
        },
{
    let mut blob: Vec<u8> = Vec::new();
    let mut locators: Vec<(u64, u64)> = Vec::new();
    let mut i: usize = 0;
    assert(values@.take(0) =~= Seq::<Vec<u8>>::empty());
    while i < values.len()
        invariant
            i <= values@.len(),
            blob@ == spec_blob(values@.take(i as int)),
            locators@ == spec_locators(values@.take(i as int)),
        decreases values@.len() - i,
    {
        proof {
            assert(values@.take(i + 1).drop_last() =~= values@.take(i as int));
            assert(values@.take(i + 1).last() == values@[i as int]);
        }
        let offset = blob.len();
        if values[i].len() > usize::MAX - offset {
            proof {
                lemma_blob_grows(values@, i + 1);
            }
            return None;
        }
        crate::bytes::append_bytes(&mut blob, values[i].as_slice());
        locators.push((offset as u64, values[i].len() as u64));
        i += 1;
    }
    assert(values@.take(i as int) =~= values@);
    Some((blob, locators))
}

/// The blob of all the values is at least as long as that of the first.
pub proof fn lemma_blob_grows(values: Seq<Vec<u8>>, n: int)
    requires
        0 <= n <= values.len(),
    ensures
        spec_blob(values.take(n)).len() <= spec_blob(values).len(),
    decreases values.len(),
{
    if n < values.len() {
        assert(values.drop_last().take(n) =~= values.take(n));
        lemma_blob_grows(values.drop_last(), n);
    } else {
        assert(values.take(n) =~= values);
    }
}

/// Each locator addresses its value: the bytes of the blob from the offset of
/// the locator on, as many as its length, are the value.
pub proof fn lemma_locator_addresses_value(values: Seq<Vec<u8>>, i: int)
    requires
        0 <= i < values.len(),
        spec_blob(values).len() <= u64::MAX,
    ensures
        spec_locators(values).len() == values.len(),
        spec_locators(values)[i].0 + spec_locators(values)[i].1 <= spec_blob(values).len(),
        spec_blob(values).subrange(
            spec_locators(values)[i].0 as int,
            spec_locators(values)[i].0 + spec_locators(values)[i].1,
        ) == values[i]@,
    decreases values.len(),
{
    let front = values.drop_last();
    lemma_locators_len(values);
    lemma_locators_len(front);
    if i == values.len() - 1 {
        assert(spec_blob(values).subrange(
            spec_blob(front).len() as int,
            (spec_blob(front).len() + values.last()@.len()) as int,
        ) =~= values[i]@);
    } else {
        lemma_locator_addresses_value(front, i);
        assert(front[i] == values[i]);
        assert(spec_locators(values)[i] == spec_locators(front)[i]);
        assert(spec_blob(values).subrange(
            spec_locators(front)[i].0 as int,
            spec_locators(front)[i].0 + spec_locators(front)[i].1,
        ) =~= spec_blob(front).subrange(
            spec_locators(front)[i].0 as int,
            spec_locators(front)[i].0 + spec_locators(front)[i].1,
        ));
    }
}

/// There is a locator for each value.
pub proof fn lemma_locators_len(values: Seq<Vec<u8>>)
    ensures
        spec_locators(values).len() == values.len(),
    decreases values.len(),
{
    if values.len() > 0 {
        lemma_locators_len(values.drop_last());
    }
}

} // verus!
