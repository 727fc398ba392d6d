//! What holds of every table that the construction returns: each key is in
//! exactly one slot, which a lookup finds, and holds the value that was
//! inserted last for it.

use crate::cuckoo::{
    build, empty_slots, find, first_holding, first_taking, key_bucket, lemma_first_taking_none,
    lemma_probe_none, place, probe, put, shaped, slot_holds, slot_takes, Slots, MAX_DISPLACEMENTS,
};
use crate::fileformat_write::StaticSizeSerializable;
use vstd::prelude::*;

verus! {

/// `(b, s)` is a slot of the table.
pub open spec fn in_table<K, V>(slots: Slots<K, V>, b: int, s: int) -> bool {
    0 <= b < slots.len() && 0 <= s < slots[b].len()
}

/// The key of an occupied slot.
pub open spec fn key_of<K, V>(slot: Option<(K, V)>) -> K {
    slot.unwrap().0
}

/// The value of an occupied slot.
pub open spec fn value_of<K, V>(slot: Option<(K, V)>) -> V {
    slot.unwrap().1
}

/// Every entry lies where an insertion of its key would look first: in the
/// first slot, in the order of a lookup, that is empty or holds its key. So
/// every entry is in a bucket of its key, and no key is in two slots.
pub open spec fn well_placed<K: StaticSizeSerializable, V>(
    slots: Slots<K, V>,
    params: Seq<u64>,
) -> bool {
    forall|b: int, s: int|
        in_table(slots, b, s) && (#[trigger] slots[b][s]) is Some ==> probe(
            slots,
            params,
            key_of(slots[b][s]),
            0,
        ) == Some((b, s))
}

/// The table holds the entries of `entries`, and no others.
pub open spec fn reflects<K, V>(slots: Slots<K, V>, entries: Map<K, V>) -> bool {
    &&& forall|b: int, s: int|
        in_table(slots, b, s) && (#[trigger] slots[b][s]) is Some ==> entries.contains_key(
            key_of(slots[b][s]),
        ) && entries[key_of(slots[b][s])] == value_of(slots[b][s])
    &&& forall|k: K| #[trigger]
        entries.contains_key(k) ==> exists|b: int, s: int|
            in_table(slots, b, s) && slot_holds(#[trigger] slots[b][s], k)
}

/// What `first_taking` returns is the first slot that takes the key.
pub proof fn lemma_first_taking_some<K, V>(bucket: Seq<Option<(K, V)>>, key: K, from: int)
    requires
        0 <= from,
        first_taking(bucket, key, from) is Some,
    ensures
        from <= first_taking(bucket, key, from)->0 < bucket.len(),
        slot_takes(bucket[first_taking(bucket, key, from)->0], key),
        forall|t: int|
            from <= t < first_taking(bucket, key, from)->0 ==> !slot_takes(#[trigger] bucket[t], key),
    decreases bucket.len() - from,
{
    if from < bucket.len() && !slot_takes(bucket[from], key) {
        lemma_first_taking_some(bucket, key, from + 1);
    }
}

/// The first slot that takes the key is what `first_taking` returns.
pub proof fn lemma_first_taking_is<K, V>(bucket: Seq<Option<(K, V)>>, key: K, from: int, s: int)
    requires
        0 <= from <= s < bucket.len(),
        slot_takes(bucket[s], key),
        forall|t: int| from <= t < s ==> !slot_takes(#[trigger] bucket[t], key),
    ensures
        first_taking(bucket, key, from) == Some(s),
    decreases s - from,
{
    if from < s {
        lemma_first_taking_is(bucket, key, from + 1, s);
    }
}

/// What `first_holding` returns is the first slot that holds the key.
pub proof fn lemma_first_holding_some<K, V>(bucket: Seq<Option<(K, V)>>, key: K, from: int)
    requires
        0 <= from,
        first_holding(bucket, key, from) is Some,
    ensures
        from <= first_holding(bucket, key, from)->0 < bucket.len(),
        slot_holds(bucket[first_holding(bucket, key, from)->0], key),
    decreases bucket.len() - from,
{
    if from < bucket.len() && !slot_holds(bucket[from], key) {
        lemma_first_holding_some(bucket, key, from + 1);
    }
}

/// Where the first slot that takes the key holds it, it is also the first
/// slot that holds it.
pub proof fn lemma_first_holding_is_taking<K, V>(bucket: Seq<Option<(K, V)>>, key: K, from: int)
    requires
        0 <= from,
    ensures
        first_taking(bucket, key, from) is None ==> first_holding(bucket, key, from) is None,
        first_taking(bucket, key, from) matches Some(s) ==> (slot_holds(bucket[s], key)
            ==> first_holding(bucket, key, from) == Some(s)),
    decreases bucket.len() - from,
{
    if from < bucket.len() && !slot_takes(bucket[from], key) {
        lemma_first_holding_is_taking(bucket, key, from + 1);
    }
}

/// `first_taking` sees of a bucket only which slots take the key.
pub proof fn lemma_first_taking_alike<K, V>(
    bucket: Seq<Option<(K, V)>>,
    other: Seq<Option<(K, V)>>,
    key: K,
    from: int,
)
    requires
        0 <= from,
        bucket.len() == other.len(),
        forall|t: int|
            from <= t < bucket.len() ==> slot_takes(#[trigger] bucket[t], key) == slot_takes(
                other[t],
                key,
            ),
    ensures
        first_taking(bucket, key, from) == first_taking(other, key, from),
    decreases bucket.len() - from,
{
    if from < bucket.len() {
        assert(slot_takes(bucket[from], key) == slot_takes(other[from], key));
        if !slot_takes(bucket[from], key) {
            lemma_first_taking_alike(bucket, other, key, from + 1);
        }
    }
}

/// A key's bucket is a bucket of the table.
pub proof fn lemma_key_bucket_range<K: StaticSizeSerializable>(param: u64, key: K, buckets: nat)
    requires
        buckets > 0,
    ensures
        0 <= key_bucket(param, key, buckets) < buckets,
{
    vstd::arithmetic::div_mod::lemma_mod_pos_bound(
        siphash24_of(param, key) as int,
        buckets as int,
    );
}

/// The hash that `key_bucket` reduces.
pub open spec fn siphash24_of<K: StaticSizeSerializable>(param: u64, key: K) -> u64 {
    crate::parametrized_hasher::siphash24(param, 0, key.spec_write()->Ok_0)
}

/// What `probe` returns is a slot of the table that takes the key, the first
/// of its bucket to do so.
pub proof fn lemma_probe_some<K: StaticSizeSerializable, V>(
    slots: Slots<K, V>,
    params: Seq<u64>,
    key: K,
    from: int,
)
    requires
        0 <= from,
        probe(slots, params, key, from) is Some,
    ensures
        probe(slots, params, key, from) matches Some((b, s)) && in_table(slots, b, s) && slot_takes(
            slots[b][s],
            key,
        ) && first_taking(slots[b], key, 0) == Some(s),
    decreases params.len() - from,
{
    if from < params.len() && slots.len() > 0 {
        let b = key_bucket(params[from], key, slots.len());
        lemma_key_bucket_range(params[from], key, slots.len());
        if first_taking(slots[b], key, 0) is Some {
            lemma_first_taking_some(slots[b], key, 0);
        } else {
            lemma_probe_some(slots, params, key, from + 1);
        }
    }
}

/// `probe` sees of a table only which slots take the key.
pub proof fn lemma_probe_alike<K: StaticSizeSerializable, V>(
    slots: Slots<K, V>,
    other: Slots<K, V>,
    params: Seq<u64>,
    key: K,
    from: int,
)
    requires
        0 <= from,
        slots.len() == other.len(),
        forall|b: int| 0 <= b < slots.len() ==> (#[trigger] slots[b]).len() == other[b].len(),
        forall|b: int, s: int|
            in_table(slots, b, s) ==> slot_takes(#[trigger] slots[b][s], key) == slot_takes(
                other[b][s],
                key,
            ),
    ensures
        probe(slots, params, key, from) == probe(other, params, key, from),
    decreases params.len() - from,
{
    if from < params.len() && slots.len() > 0 {
        let b = key_bucket(params[from], key, slots.len());
        lemma_key_bucket_range(params[from], key, slots.len());
        assert(slots[b].len() == other[b].len());
        assert forall|t: int| 0 <= t < slots[b].len() implies slot_takes(
            #[trigger] slots[b][t],
            key,
        ) == slot_takes(other[b][t], key) by {
            assert(in_table(slots, b, t));
        }
        lemma_first_taking_alike(slots[b], other[b], key, 0);
        lemma_probe_alike(slots, other, params, key, from + 1);
    }
}

/// Writing to a slot that took the key, and that `probe` did not return,
/// leaves what `probe` returns for the key: the slot came later in the order.
pub proof fn lemma_probe_skip<K: StaticSizeSerializable, V>(
    slots: Slots<K, V>,
    params: Seq<u64>,
    key: K,
    from: int,
    b: int,
    s: int,
    entry: Option<(K, V)>,
)
    requires
        0 <= from,
        in_table(slots, b, s),
        slot_takes(slots[b][s], key),
        probe(slots, params, key, from) is Some,
        probe(slots, params, key, from) != Some((b, s)),
    ensures
        probe(slots.update(b, slots[b].update(s, entry)), params, key, from) == probe(
            slots,
            params,
            key,
            from,
        ),
    decreases params.len() - from,
{
    let after = slots.update(b, slots[b].update(s, entry));
    if from < params.len() && slots.len() > 0 {
        let home = key_bucket(params[from], key, slots.len());
        lemma_key_bucket_range(params[from], key, slots.len());
        match first_taking(slots[home], key, 0) {
            Some(first) => {
                lemma_first_taking_some(slots[home], key, 0);
                if home == b {
                    assert(first != s);
                    assert(first < s);
                    assert forall|t: int| 0 <= t < first implies !slot_takes(
                        #[trigger] after[home][t],
                        key,
                    ) by {
                        assert(after[home][t] == slots[home][t]);
                    }
                    lemma_first_taking_is(after[home], key, 0, first);
                } else {
                    assert(after[home] == slots[home]);
                }
            },
            None => {
                lemma_first_taking_none(slots[home], key, 0);
                assert(home != b);
                assert(after[home] == slots[home]);
                lemma_probe_skip(slots, params, key, from + 1, b, s, entry);
            },
        }
    }
}

/// After the key has displaced an entry, in a table where no slot took it,
/// `probe` returns the slot where it now lies.
pub proof fn lemma_probe_sole<K: StaticSizeSerializable, V>(
    slots: Slots<K, V>,
    params: Seq<u64>,
    key: K,
    val: V,
    outer: int,
    s: int,
    from: int,
)
    requires
        0 <= from <= outer < params.len(),
        slots.len() > 0,
        probe(slots, params, key, from) is None,
        0 <= s < slots[key_bucket(params[outer], key, slots.len())].len(),
    ensures
        probe(
            put(slots, key_bucket(params[outer], key, slots.len()), s, key, val),
            params,
            key,
            from,
        ) == Some((key_bucket(params[outer], key, slots.len()), s)),
    decreases params.len() - from,
{
    let b = key_bucket(params[outer], key, slots.len());
    let after = put(slots, b, s, key, val);
    let home = key_bucket(params[from], key, slots.len());
    lemma_key_bucket_range(params[from], key, slots.len());
    lemma_key_bucket_range(params[outer], key, slots.len());
    lemma_first_taking_none(slots[home], key, 0);
    if home == b {
        assert forall|t: int| 0 <= t < s implies !slot_takes(#[trigger] after[b][t], key) by {
            assert(after[b][t] == slots[b][t]);
        }
        lemma_first_taking_is(after[b], key, 0, s);
    } else {
        assert(after[home] == slots[home]);
        assert(from < outer);
        lemma_probe_sole(slots, params, key, val, outer, s, from + 1);
    }
}

/// Writing an entry to the slot that `probe` finds for its key keeps the
/// table well placed, and adds the entry to what the table holds.
pub proof fn lemma_put_free<K: StaticSizeSerializable, V>(
    slots: Slots<K, V>,
    params: Seq<u64>,
    bs: nat,
    key: K,
    val: V,
    entries: Map<K, V>,
)
    requires
        shaped(slots, bs),
        well_placed(slots, params),
        reflects(slots, entries),
        probe(slots, params, key, 0) is Some,
    ensures
        probe(slots, params, key, 0) matches Some((b, s)) && {
            let after = put(slots, b, s, key, val);
            &&& after.len() == slots.len()
            &&& shaped(after, bs)
            &&& well_placed(after, params)
            &&& reflects(after, entries.insert(key, val))
        },
{
    lemma_probe_some(slots, params, key, 0);
    let (b, s) = probe(slots, params, key, 0)->0;
    let after = put(slots, b, s, key, val);
    assert forall|b2: int| 0 <= b2 < after.len() implies (#[trigger] after[b2]).len() == bs by {
        assert(slots[b2].len() == bs);
    }
    assert forall|b2: int, s2: int|
        in_table(after, b2, s2) && (#[trigger] after[b2][s2]) is Some implies probe(
            after,
            params,
            key_of(after[b2][s2]),
            0,
        ) == Some((b2, s2)) by {
        assert(slots[b2].len() == bs);
        if b2 == b && s2 == s {
            assert forall|b3: int, s3: int| in_table(slots, b3, s3) implies slot_takes(
                #[trigger] slots[b3][s3],
                key,
            ) == slot_takes(after[b3][s3], key) by {}
            lemma_probe_alike(slots, after, params, key, 0);
        } else {
            assert(after[b2][s2] == slots[b2][s2]);
            let k2 = key_of(slots[b2][s2]);
            assert(probe(slots, params, k2, 0) == Some((b2, s2)));
            assert(k2 != key);
            if slots[b][s] is None {
                lemma_probe_skip(slots, params, k2, 0, b, s, Some((key, val)));
            } else {
                assert forall|b3: int, s3: int| in_table(slots, b3, s3) implies slot_takes(
                    #[trigger] slots[b3][s3],
                    k2,
                ) == slot_takes(after[b3][s3], k2) by {}
                lemma_probe_alike(slots, after, params, k2, 0);
            }
        }
    }
    let grown = entries.insert(key, val);
    assert forall|b2: int, s2: int|
        in_table(after, b2, s2) && (#[trigger] after[b2][s2]) is Some implies grown.contains_key(
            key_of(after[b2][s2]),
        ) && grown[key_of(after[b2][s2])] == value_of(after[b2][s2]) by {
        assert(slots[b2].len() == bs);
        if !(b2 == b && s2 == s) {
            assert(after[b2][s2] == slots[b2][s2]);
            let k2 = key_of(slots[b2][s2]);
            assert(probe(slots, params, k2, 0) == Some((b2, s2)));
        }
    }
    assert forall|k: K| #[trigger] grown.contains_key(k) implies exists|b2: int, s2: int|
        in_table(after, b2, s2) && slot_holds(#[trigger] after[b2][s2], k) by {
        if k == key {
            assert(in_table(after, b, s) && slot_holds(after[b][s], k));
        } else {
            assert(entries.contains_key(k));
            let (b3, s3) = choose|b3: int, s3: int|
                in_table(slots, b3, s3) && slot_holds(#[trigger] slots[b3][s3], k);
            assert(after[b3][s3] == slots[b3][s3]);
            assert(in_table(after, b3, s3) && slot_holds(after[b3][s3], k));
        }
    }
}

/// Where no slot takes the key, writing its entry over the entry of one of
/// its buckets keeps the table well placed; the table then holds the new
/// entry in place of the displaced one.
pub proof fn lemma_put_evict<K: StaticSizeSerializable, V>(
    slots: Slots<K, V>,
    params: Seq<u64>,
    bs: nat,
    key: K,
    val: V,
    outer: int,
    inner: int,
    entries: Map<K, V>,
)
    requires
        shaped(slots, bs),
        well_placed(slots, params),
        reflects(slots, entries),
        slots.len() > 0,
        0 <= outer < params.len(),
        0 <= inner < bs,
        probe(slots, params, key, 0) is None,
    ensures
        ({
            let b = key_bucket(params[outer], key, slots.len());
            let after = put(slots, b, inner, key, val);
            let displaced = slots[b][inner];
            &&& displaced is Some
            &&& key_of(displaced) != key
            &&& entries.contains_key(key_of(displaced))
            &&& entries[key_of(displaced)] == value_of(displaced)
            &&& after.len() == slots.len()
            &&& shaped(after, bs)
            &&& well_placed(after, params)
            &&& reflects(after, entries.remove(key_of(displaced)).insert(key, val))
        }),
{
    let b = key_bucket(params[outer], key, slots.len());
    lemma_key_bucket_range(params[outer], key, slots.len());
    assert(slots[b].len() == bs);
    lemma_probe_none(slots, params, key, 0);
    let displaced = slots[b][inner];
    assert(!slot_takes(slots[key_bucket(params[outer], key, slots.len())][inner], key));
    let dk = key_of(displaced);
    assert(in_table(slots, b, inner));
    assert(probe(slots, params, dk, 0) == Some((b, inner)));
    let after = put(slots, b, inner, key, val);
    assert forall|b2: int| 0 <= b2 < after.len() implies (#[trigger] after[b2]).len() == bs by {
        assert(slots[b2].len() == bs);
    }
    assert forall|b2: int, s2: int|
        in_table(after, b2, s2) && (#[trigger] after[b2][s2]) is Some implies probe(
            after,
            params,
            key_of(after[b2][s2]),
            0,
        ) == Some((b2, s2)) by {
        assert(slots[b2].len() == bs);
        if b2 == b && s2 == inner {
            lemma_probe_sole(slots, params, key, val, outer, inner, 0);
        } else {
            assert(after[b2][s2] == slots[b2][s2]);
            let k2 = key_of(slots[b2][s2]);
            assert(probe(slots, params, k2, 0) == Some((b2, s2)));
            assert(k2 != key);
            assert(k2 != dk);
            assert forall|b3: int, s3: int| in_table(slots, b3, s3) implies slot_takes(
                #[trigger] slots[b3][s3],
                k2,
            ) == slot_takes(after[b3][s3], k2) by {}
            lemma_probe_alike(slots, after, params, k2, 0);
        }
    }
    let moved = entries.remove(dk).insert(key, val);
    assert forall|b2: int, s2: int|
        in_table(after, b2, s2) && (#[trigger] after[b2][s2]) is Some implies moved.contains_key(
            key_of(after[b2][s2]),
        ) && moved[key_of(after[b2][s2])] == value_of(after[b2][s2]) by {
        assert(slots[b2].len() == bs);
        if !(b2 == b && s2 == inner) {
            assert(after[b2][s2] == slots[b2][s2]);
            let k2 = key_of(slots[b2][s2]);
            assert(probe(slots, params, k2, 0) == Some((b2, s2)));
        }
    }
    assert forall|k: K| #[trigger] moved.contains_key(k) implies exists|b2: int, s2: int|
        in_table(after, b2, s2) && slot_holds(#[trigger] after[b2][s2], k) by {
        if k == key {
            assert(in_table(after, b, inner) && slot_holds(after[b][inner], k));
        } else {
            assert(entries.contains_key(k));
            let (b3, s3) = choose|b3: int, s3: int|
                in_table(slots, b3, s3) && slot_holds(#[trigger] slots[b3][s3], k);
            assert(after[b3][s3] == slots[b3][s3]);
            assert(in_table(after, b3, s3) && slot_holds(after[b3][s3], k));
        }
    }
}

/// An insertion that succeeds keeps the table well placed, and adds its entry
/// to what the table holds: whatever was displaced on the way is back in the
/// table at the end.
pub proof fn lemma_place<K: StaticSizeSerializable, V>(
    slots: Slots<K, V>,
    params: Seq<u64>,
    bs: nat,
    key: K,
    val: V,
    done: nat,
    outer: int,
    inner: int,
    entries: Map<K, V>,
)
    requires
        shaped(slots, bs),
        well_placed(slots, params),
        reflects(slots, entries),
        params.len() > 0 ==> 0 <= outer < params.len(),
        bs > 0 ==> 0 <= inner < bs,
        place(slots, params, bs, key, val, done, outer, inner) is Ok,
    ensures
        ({
            let placed = place(slots, params, bs, key, val, done, outer, inner)->Ok_0;
            &&& placed.len() == slots.len()
            &&& shaped(placed, bs)
            &&& well_placed(placed, params)
            &&& reflects(placed, entries.insert(key, val))
        }),
    decreases MAX_DISPLACEMENTS - done,
{
    if probe(slots, params, key, 0) is Some {
        lemma_put_free(slots, params, bs, key, val, entries);
    } else {
        lemma_put_evict(slots, params, bs, key, val, outer, inner, entries);
        let b = key_bucket(params[outer], key, slots.len());
        let displaced = slots[b][inner];
        let after = put(slots, b, inner, key, val);
        let next_outer = (outer + 1) % (params.len() as int);
        let next_inner = (next_outer + 1) % (bs as int);
        vstd::arithmetic::div_mod::lemma_mod_pos_bound(outer + 1, params.len() as int);
        vstd::arithmetic::div_mod::lemma_mod_pos_bound(next_outer + 1, bs as int);
        let moved = entries.remove(key_of(displaced)).insert(key, val);
        lemma_place(
            after,
            params,
            bs,
            key_of(displaced),
            value_of(displaced),
            done + 1,
            next_outer,
            next_inner,
            moved,
        );
        assert(moved.insert(key_of(displaced), value_of(displaced)) =~= entries.insert(key, val));
    }
}

/// The entries that a sequence of insertions leaves: for each key, the value
/// that was inserted last.
pub open spec fn entries_of<K, V>(elems: Seq<(K, V)>) -> Map<K, V>
    decreases elems.len(),
{
    if elems.len() == 0 {
        Map::empty()
    } else {
        entries_of(elems.drop_last()).insert(elems.last().0, elems.last().1)
    }
}

/// `entries_of` has the keys of the sequence, each with the value of its
/// last occurrence, and there are finitely many of them.
pub proof fn lemma_entries_of<K, V>(elems: Seq<(K, V)>)
    ensures
        entries_of(elems).dom().finite(),
        forall|k: K| #[trigger]
            entries_of(elems).contains_key(k) <==> exists|i: int|
                0 <= i < elems.len() && (#[trigger] elems[i]).0 == k,
        forall|i: int|
            0 <= i < elems.len() && (forall|j: int|
                i < j < elems.len() ==> (#[trigger] elems[j]).0 != elems[i].0) ==> entries_of(
                elems,
            )[(#[trigger] elems[i]).0] == elems[i].1,
    decreases elems.len(),
{
    if elems.len() > 0 {
        let front = elems.drop_last();
        lemma_entries_of(front);
        let last = elems.last();
        assert forall|k: K| #[trigger] entries_of(elems).contains_key(k) implies exists|i: int|
            0 <= i < elems.len() && (#[trigger] elems[i]).0 == k by {
            if k == last.0 {
                assert(elems[elems.len() - 1].0 == k);
            } else {
                assert(entries_of(front).contains_key(k));
                let i = choose|i: int| 0 <= i < front.len() && (#[trigger] front[i]).0 == k;
                assert(elems[i].0 == k);
            }
        }
        assert forall|k: K|
            (exists|i: int|
                0 <= i < elems.len() && (#[trigger] elems[i]).0 == k) implies #[trigger] entries_of(
            elems,
        ).contains_key(k) by {
            let i = choose|i: int| 0 <= i < elems.len() && (#[trigger] elems[i]).0 == k;
            if i < front.len() {
                assert(front[i].0 == k);
            }
        }
        assert forall|i: int|
            0 <= i < elems.len() && (forall|j: int|
                i < j < elems.len() ==> (#[trigger] elems[j]).0 != elems[i].0) implies entries_of(
            elems,
        )[(#[trigger] elems[i]).0] == elems[i].1 by {
            if i < front.len() {
                assert(elems[elems.len() - 1].0 != elems[i].0);
                assert(front[i] == elems[i]);
                assert forall|j: int| i < j < front.len() implies (#[trigger] front[j]).0
                    != front[i].0 by {
                    assert(elems[j].0 != elems[i].0);
                }
            }
        }
    }
}

/// A table that the construction returns has the size that was asked for, is
/// well placed, and holds the entries that the insertions leave.
pub proof fn lemma_build_holds<K: StaticSizeSerializable, V>(
    elems: Seq<(K, V)>,
    buckets: nat,
    bs: nat,
    params: Seq<u64>,
)
    requires
        build(elems, buckets, bs, params) is Ok,
    ensures
        ({
            let built = build(elems, buckets, bs, params)->Ok_0;
            &&& built.len() == buckets
            &&& shaped(built, bs)
            &&& well_placed(built, params)
            &&& reflects(built, entries_of(elems))
        }),
    decreases elems.len(),
{
    if elems.len() == 0 {
        let built = empty_slots::<K, V>(buckets, bs);
        assert(shaped(built, bs));
        assert(well_placed(built, params));
        assert(reflects(built, Map::<K, V>::empty()));
    } else {
        let front = elems.drop_last();
        lemma_build_holds(front, buckets, bs, params);
        let before = build(front, buckets, bs, params)->Ok_0;
        lemma_place(
            before,
            params,
            bs,
            elems.last().0,
            elems.last().1,
            0,
            0,
            0,
            entries_of(front),
        );
    }
}

/// Where `probe` returns a slot that holds the key, a lookup returns the value
/// of that slot.
pub proof fn lemma_find_follows_probe<K: StaticSizeSerializable, V>(
    slots: Slots<K, V>,
    params: Seq<u64>,
    key: K,
    from: int,
)
    requires
        0 <= from,
        probe(slots, params, key, from) matches Some((b, s)) && slot_holds(slots[b][s], key),
    ensures
        probe(slots, params, key, from) matches Some((b, s)) && find(slots, params, key, from)
            == Some(value_of(slots[b][s])),
    decreases params.len() - from,
{
    if from < params.len() && slots.len() > 0 {
        let home = key_bucket(params[from], key, slots.len());
        lemma_first_holding_is_taking(slots[home], key, 0);
        if first_taking(slots[home], key, 0) is None {
            lemma_find_follows_probe(slots, params, key, from + 1);
        }
    }
}

/// What a lookup returns is the value of a slot that holds the key.
pub proof fn lemma_find_some<K: StaticSizeSerializable, V>(
    slots: Slots<K, V>,
    params: Seq<u64>,
    key: K,
    from: int,
)
    requires
        0 <= from,
        find(slots, params, key, from) is Some,
    ensures
        exists|b: int, s: int|
            in_table(slots, b, s) && slot_holds(#[trigger] slots[b][s], key) && find(
                slots,
                params,
                key,
                from,
            ) == Some(value_of(slots[b][s])),
    decreases params.len() - from,
{
    if from < params.len() && slots.len() > 0 {
        let home = key_bucket(params[from], key, slots.len());
        lemma_key_bucket_range(params[from], key, slots.len());
        match first_holding(slots[home], key, 0) {
            Some(s) => {
                lemma_first_holding_some(slots[home], key, 0);
                assert(in_table(slots, home, s) && slot_holds(slots[home][s], key));
            },
            None => {
                lemma_find_some(slots, params, key, from + 1);
            },
        }
    }
}

/// In a well-placed table a lookup returns the value that the table holds for
/// the key, and `None` for a key that it does not hold.
pub proof fn lemma_find_in_well_placed<K: StaticSizeSerializable, V>(
    slots: Slots<K, V>,
    params: Seq<u64>,
    entries: Map<K, V>,
    key: K,
)
    requires
        well_placed(slots, params),
        reflects(slots, entries),
    ensures
        find(slots, params, key, 0) == (if entries.contains_key(key) {
            Some(entries[key])
        } else {
            None
        }),
{
    if entries.contains_key(key) {
        let (b, s) = choose|b: int, s: int|
            in_table(slots, b, s) && slot_holds(#[trigger] slots[b][s], key);
        assert(probe(slots, params, key_of(slots[b][s]), 0) == Some((b, s)));
        lemma_find_follows_probe(slots, params, key, 0);
    } else {
        if find(slots, params, key, 0) is Some {
            lemma_find_some(slots, params, key, 0);
            let (b, s) = choose|b: int, s: int|
                in_table(slots, b, s) && slot_holds(#[trigger] slots[b][s], key) && find(
                    slots,
                    params,
                    key,
                    0,
                ) == Some(value_of(slots[b][s]));
            assert(entries.contains_key(key_of(slots[b][s])));
        }
    }
}

/// Round trip. In a table that the construction returns, every key that was
/// inserted looks up to the value that was inserted last for it, and every
/// other key looks up to `None`.
pub proof fn lemma_lookup_after_build<K: StaticSizeSerializable, V>(
    elems: Seq<(K, V)>,
    buckets: nat,
    bs: nat,
    params: Seq<u64>,
    key: K,
)
    requires
        build(elems, buckets, bs, params) is Ok,
    ensures
        find(build(elems, buckets, bs, params)->Ok_0, params, key, 0) == (if entries_of(
            elems,
        ).contains_key(key) {
            Some(entries_of(elems)[key])
        } else {
            None
        }),
{
    lemma_build_holds(elems, buckets, bs, params);
    lemma_find_in_well_placed(
        build(elems, buckets, bs, params)->Ok_0,
        params,
        entries_of(elems),
        key,
    );
}

/// Duplicate keys. In a table that the construction returns, a key that was
/// inserted, however often, lies in exactly one slot, with the value that was
/// inserted last for it.
pub proof fn lemma_one_slot_per_key<K: StaticSizeSerializable, V>(
    elems: Seq<(K, V)>,
    buckets: nat,
    bs: nat,
    params: Seq<u64>,
    key: K,
)
    requires
        build(elems, buckets, bs, params) is Ok,
        entries_of(elems).contains_key(key),
    ensures
        ({
            let built = build(elems, buckets, bs, params)->Ok_0;
            exists|b: int, s: int|
                {
                    &&& in_table(built, b, s)
                    &&& #[trigger] built[b][s] == Some((key, entries_of(elems)[key]))
                    &&& forall|b2: int, s2: int|
                        in_table(built, b2, s2) && slot_holds(#[trigger] built[b2][s2], key) ==> b2
                            == b && s2 == s
                }
        }),
{
    lemma_build_holds(elems, buckets, bs, params);
    let built = build(elems, buckets, bs, params)->Ok_0;
    let (b, s) = choose|b: int, s: int|
        in_table(built, b, s) && slot_holds(#[trigger] built[b][s], key);
    assert(built[b][s] is Some);
    assert(probe(built, params, key_of(built[b][s]), 0) == Some((b, s)));
    assert(built[b][s] == Some((key, entries_of(elems)[key])));
    assert forall|b2: int, s2: int|
        in_table(built, b2, s2) && slot_holds(#[trigger] built[b2][s2], key) implies b2 == b && s2
        == s by {
        assert(probe(built, params, key_of(built[b2][s2]), 0) == Some((b2, s2)));
    }
}

/// The number of a slot, counting through the buckets in order.
pub open spec fn slot_number(b: int, s: int, bs: nat) -> int {
    b * bs + s
}

/// Slots with the same number are the same slot.
pub proof fn lemma_slot_number(b1: int, s1: int, b2: int, s2: int, buckets: nat, bs: nat)
    requires
        0 <= b1 < buckets,
        0 <= b2 < buckets,
        0 <= s1 < bs,
        0 <= s2 < bs,
    ensures
        0 <= slot_number(b1, s1, bs) < buckets * bs,
        slot_number(b1, s1, bs) == slot_number(b2, s2, bs) ==> b1 == b2 && s1 == s2,
{
    assert(0 <= b1 * bs + s1 < buckets * bs) by (nonlinear_arith)
        requires
            0 <= b1 < buckets,
            0 <= s1 < bs,
    ;
    assert(b1 * bs + s1 == b2 * bs + s2 ==> b1 == b2) by (nonlinear_arith)
        requires
            0 <= s1 < bs,
            0 <= s2 < bs,
    ;
}

/// Displacement bound. A table has room for one key in each slot: where the
/// entries have more different keys than the table has slots, the
/// construction fails.
pub proof fn lemma_more_keys_than_slots<K: StaticSizeSerializable, V>(
    elems: Seq<(K, V)>,
    buckets: nat,
    bs: nat,
    params: Seq<u64>,
)
    ensures
        entries_of(elems).dom().finite(),
        entries_of(elems).dom().len() > buckets * bs ==> build(elems, buckets, bs, params) is Err,
{
    lemma_entries_of(elems);
    if build(elems, buckets, bs, params) is Ok {
        lemma_build_holds(elems, buckets, bs, params);
        let built = build(elems, buckets, bs, params)->Ok_0;
        let keys = entries_of(elems).dom();
        let number = |k: K|
            {
                let slot = probe(built, params, k, 0).unwrap();
                slot_number(slot.0, slot.1, bs)
            };
        let numbers = keys.map(number);
        let all = vstd::set_lib::set_int_range(0, (buckets * bs) as int);
        assert forall|k: K| keys.contains(k) implies {
            let slot = probe(built, params, k, 0).unwrap();
            &&& in_table(built, slot.0, slot.1)
            &&& slot_holds(built[slot.0][slot.1], k)
        } by {
            assert(entries_of(elems).contains_key(k));
            let (b, s) = choose|b: int, s: int|
                in_table(built, b, s) && slot_holds(#[trigger] built[b][s], k);
            assert(probe(built, params, key_of(built[b][s]), 0) == Some((b, s)));
        }
        assert forall|k1: K, k2: K|
            keys.contains(k1) && keys.contains(k2) && #[trigger] number(k1) == #[trigger] number(
                k2,
            ) implies k1 == k2 by {
            let slot1 = probe(built, params, k1, 0).unwrap();
            let slot2 = probe(built, params, k2, 0).unwrap();
            assert(built[slot1.0].len() == bs);
            assert(built[slot2.0].len() == bs);
            lemma_slot_number(slot1.0, slot1.1, slot2.0, slot2.1, buckets, bs);
        }
        assert(vstd::relations::injective_on(number, keys));
        vstd::set_lib::lemma_map_size(keys, numbers, number);
        assert forall|n: int| numbers.contains(n) implies all.contains(n) by {
            let k = choose|k: K| keys.contains(k) && n == number(k);
            let slot = probe(built, params, k, 0).unwrap();
            assert(built[slot.0].len() == bs);
            lemma_slot_number(slot.0, slot.1, slot.0, slot.1, buckets, bs);
        }
        assert(0 <= buckets * bs) by (nonlinear_arith);
        vstd::set_lib::lemma_int_range(0, (buckets * bs) as int);
        vstd::set_lib::lemma_len_subset(numbers, all);
    }
}

/// The bucket of what `probe` returns is a bucket of the key.
pub proof fn lemma_probe_home<K: StaticSizeSerializable, V>(
    slots: Slots<K, V>,
    params: Seq<u64>,
    key: K,
    from: int,
)
    requires
        0 <= from,
        probe(slots, params, key, from) is Some,
    ensures
        exists|j: int|
            from <= j < params.len() && #[trigger] key_bucket(params[j], key, slots.len()) == probe(
                slots,
                params,
                key,
                from,
            ).unwrap().0,
    decreases params.len() - from,
{
    if from < params.len() && slots.len() > 0 {
        let b = key_bucket(params[from], key, slots.len());
        if first_taking(slots[b], key, 0) is None {
            lemma_probe_home(slots, params, key, from + 1);
            let j = choose|j: int|
                from + 1 <= j < params.len() && #[trigger] key_bucket(params[j], key, slots.len())
                    == probe(slots, params, key, from + 1).unwrap().0;
            assert(from <= j < params.len() && key_bucket(params[j], key, slots.len()) == probe(
                slots,
                params,
                key,
                from,
            ).unwrap().0);
        } else {
            assert(key_bucket(params[from], key, slots.len()) == b);
        }
    }
}

/// In a table that the construction returns, every entry lies in a bucket to
/// which one of the hash functions sends its key.
pub proof fn lemma_entries_are_home<K: StaticSizeSerializable, V>(
    elems: Seq<(K, V)>,
    buckets: nat,
    bs: nat,
    params: Seq<u64>,
    b: int,
    s: int,
)
    requires
        build(elems, buckets, bs, params) is Ok,
        in_table(build(elems, buckets, bs, params)->Ok_0, b, s),
        build(elems, buckets, bs, params)->Ok_0[b][s] is Some,
    ensures
        exists|j: int|
            0 <= j < params.len() && #[trigger] key_bucket(
                params[j],
                key_of(build(elems, buckets, bs, params)->Ok_0[b][s]),
                buckets,
            ) == b,
{
    lemma_build_holds(elems, buckets, bs, params);
    let built = build(elems, buckets, bs, params)->Ok_0;
    let key = key_of(built[b][s]);
    assert(probe(built, params, key, 0) == Some((b, s)));
    lemma_probe_home(built, params, key, 0);
}

} // verus!
