//! The static cuckoo-hash index: a table of buckets of a fixed number of
//! slots, built once from all its entries and then only read.

use crate::error::IkvblobError;
use crate::fileformat_write::StaticSizeSerializable;
use crate::multihash::Multihash;
use crate::parametrized_hasher::{siphash24, SipHasherFactory};
use vstd::prelude::*;

verus! {

/// The number of displacements after which an insertion gives up.
pub const MAX_DISPLACEMENTS: usize = 1000;

/// What the index asks of a key: a serialisation that never fails, which is
/// what the hash functions read, and a test for equality.
pub trait TableKey: StaticSizeSerializable + Copy {
    /// Whether two keys are the same key.
    fn same_key(&self, other: &Self) -> (same: bool)
        ensures
            same == (*self == *other),
    ;

    /// Every key has bytes.
    proof fn lemma_key_has_bytes(&self)
        ensures
            self.spec_write() is Ok,
    ;
}

impl TableKey for u64 {
    fn same_key(&self, other: &Self) -> (same: bool) {
        *self == *other
    }

    proof fn lemma_key_has_bytes(&self) {
    }
}

impl TableKey for Multihash<32> {
    fn same_key(&self, other: &Self) -> (same: bool) {
        self.same(other)
    }

    proof fn lemma_key_has_bytes(&self) {
    }
}

/// The slots of a table: for each bucket, its slots in order.
pub type Slots<K, V> = Seq<Seq<Option<(K, V)>>>;

/// The slots of a table held as a sequence of arrays.
pub open spec fn slots_of<K, V, const BS: usize>(table: Seq<[Option<(K, V)>; BS]>) -> Slots<K, V> {
    Seq::new(table.len(), |b: int| table[b]@)
}

/// The parameters of a sequence of hash functions.
pub open spec fn params_of(hashers: Seq<SipHasherFactory>) -> Seq<u64> {
    Seq::new(hashers.len(), |j: int| hashers[j].p)
}

/// The parameters of the hash functions of a table that is built here: the
/// numbers from 1 to `count`.
pub open spec fn standard_params(count: nat) -> Seq<u64> {
    Seq::new(count, |j: int| (j + 1) as u64)
}

/// A table of `buckets` buckets of `bs` empty slots.
pub open spec fn empty_slots<K, V>(buckets: nat, bs: nat) -> Slots<K, V> {
    Seq::new(buckets, |b: int| Seq::new(bs, |s: int| None::<(K, V)>))
}

/// Every bucket of `slots` has `bs` slots.
pub open spec fn shaped<K, V>(slots: Slots<K, V>, bs: nat) -> bool {
    forall|b: int| 0 <= b < slots.len() ==> (#[trigger] slots[b]).len() == bs
}

/// The bucket, among `buckets` of them, to which the hash function with
/// parameter `param` sends `key`.
pub open spec fn key_bucket<K: StaticSizeSerializable>(param: u64, key: K, buckets: nat) -> int
    recommends
        buckets > 0,
{
    siphash24(param, 0, key.spec_write()->Ok_0) as int % buckets as int
}

/// The slot is empty or holds `key`: an entry for `key` may be written there.
pub open spec fn slot_takes<K, V>(slot: Option<(K, V)>, key: K) -> bool {
    match slot {
        None => true,
        Some((k, _)) => k == key,
    }
}

/// The slot holds an entry for `key`.
pub open spec fn slot_holds<K, V>(slot: Option<(K, V)>, key: K) -> bool {
    match slot {
        None => false,
        Some((k, _)) => k == key,
    }
}

/// The first slot of `bucket`, from `from` on, that takes `key`.
pub open spec fn first_taking<K, V>(bucket: Seq<Option<(K, V)>>, key: K, from: int) -> Option<int>
    decreases bucket.len() - from,
{
    if from < 0 || from >= bucket.len() {
        None
    } else if slot_takes(bucket[from], key) {
        Some(from)
    } else {
        first_taking(bucket, key, from + 1)
    }
}

/// The first slot of `bucket`, from `from` on, that holds `key`.
pub open spec fn first_holding<K, V>(bucket: Seq<Option<(K, V)>>, key: K, from: int) -> Option<int>
    decreases bucket.len() - from,
{
    if from < 0 || from >= bucket.len() {
        None
    } else if slot_holds(bucket[from], key) {
        Some(from)
    } else {
        first_holding(bucket, key, from + 1)
    }
}

/// Where an entry for `key` can be written without displacing another: the
/// first slot that takes `key`, going through the hash functions from `from`
/// on in order and through each one's bucket from its first slot.
pub open spec fn probe<K: StaticSizeSerializable, V>(
    slots: Slots<K, V>,
    params: Seq<u64>,
    key: K,
    from: int,
) -> Option<(int, int)>
    decreases params.len() - from,
{
    if from < 0 || from >= params.len() || slots.len() == 0 {
        None
    } else {
        let b = key_bucket(params[from], key, slots.len());
        match first_taking(slots[b], key, 0) {
            Some(s) => Some((b, s)),
            None => probe(slots, params, key, from + 1),
        }
    }
}

/// What a lookup of `key` returns: the value of the first slot that holds
/// `key`, going through the hash functions from `from` on in order and
/// through each one's bucket from its first slot; `None` where no such slot
/// holds it.
pub open spec fn find<K: StaticSizeSerializable, V>(
    slots: Slots<K, V>,
    params: Seq<u64>,
    key: K,
    from: int,
) -> Option<V>
    decreases params.len() - from,
{
    if from < 0 || from >= params.len() || slots.len() == 0 {
        None
    } else {
        let b = key_bucket(params[from], key, slots.len());
        match first_holding(slots[b], key, 0) {
            Some(s) => {
                let entry = slots[b][s]->0;
                Some(entry.1)
            },
            None => find(slots, params, key, from + 1),
        }
    }
}

/// The table with the entry (`key`, `val`) written to slot `s` of bucket `b`.
pub open spec fn put<K, V>(slots: Slots<K, V>, b: int, s: int, key: K, val: V) -> Slots<K, V> {
    slots.update(b, slots[b].update(s, Some((key, val))))
}

/// The table after the insertion of (`key`, `val`), or the number of
/// displacements after which the insertion gave up.
///
/// The entry goes to the slot that `probe` finds. Where there is none, it
/// displaces the entry in slot `inner` of the bucket to which hash function
/// `outer` sends `key`, and the displaced entry is inserted in turn, with the
/// next hash function and the next slot. `done` counts the displacements so
/// far; after `MAX_DISPLACEMENTS` of them the insertion fails. It fails at
/// once in a table without buckets, slots or hash functions.
pub open spec fn place<K: StaticSizeSerializable, V>(
    slots: Slots<K, V>,
    params: Seq<u64>,
    bs: nat,
    key: K,
    val: V,
    done: nat,
    outer: int,
    inner: int,
) -> Result<Slots<K, V>, nat>
    decreases MAX_DISPLACEMENTS - done,
{
    match probe(slots, params, key, 0) {
        Some((b, s)) => Ok(put(slots, b, s, key, val)),
        None => if slots.len() == 0 || params.len() == 0 || bs == 0 || done >= MAX_DISPLACEMENTS {
            Err(done)
        } else {
            let b = key_bucket(params[outer], key, slots.len());
            let displaced = slots[b][inner]->0;
            let next_outer = (outer + 1) % (params.len() as int);
            let next_inner = (next_outer + 1) % (bs as int);
            place(
                put(slots, b, inner, key, val),
                params,
                bs,
                displaced.0,
                displaced.1,
                done + 1,
                next_outer,
                next_inner,
            )
        },
    }
}

/// The table built from `elems`, inserted in order into an empty table of
/// `buckets` buckets of `bs` slots, or the failure of the first insertion
/// that fails.
pub open spec fn build<K: StaticSizeSerializable, V>(
    elems: Seq<(K, V)>,
    buckets: nat,
    bs: nat,
    params: Seq<u64>,
) -> Result<Slots<K, V>, IkvblobError>
    decreases elems.len(),
{
    if elems.len() == 0 {
        Ok(empty_slots(buckets, bs))
    } else {
        match build(elems.drop_last(), buckets, bs, params) {
            Err(e) => Err(e),
            Ok(slots) => match place(slots, params, bs, elems.last().0, elems.last().1, 0, 0, 0) {
                Ok(placed) => Ok(placed),
                Err(done) => Err(
                    IkvblobError::CollisionBoundExceeded {
                        input: (elems.len() - 1) as usize,
                        displacements: done as usize,
                    },
                ),
            },
        }
    }
}

/// The bucket of `key` under `hasher` in a table of `buckets` buckets.
fn bucket_index<K: TableKey>(hasher: &SipHasherFactory, key: &K, buckets: usize) -> (b: usize)
    requires
        buckets > 0,
    ensures
        b == key_bucket(hasher.p, *key, buckets as nat),
        b < buckets,
{
    proof {
        key.lemma_key_has_bytes();
    }
    (hasher.hash(key) % (buckets as u64)) as usize
}

/// Looks `key` up in a table: goes through the hash functions in order and
/// through each one's bucket from its first slot, and returns the value of
/// the first slot that holds `key`.
pub fn view_based_lookup<'a, K: TableKey, V, const BS: usize, const HS: usize>(
    table: &'a [[Option<(K, V)>; BS]],
    key: &K,
    hashers: &[SipHasherFactory; HS],
) -> (found: Option<&'a V>)
    ensures
        match find(slots_of(table@), params_of(hashers@), *key, 0) {
            Some(v) => found == Some(&v),
            None => found is None,
        },
{
    let ghost slots = slots_of(table@);
    let ghost params = params_of(hashers@);
    if table.len() == 0 {
        return None;
    }
    let mut j: usize = 0;
    while j < HS
        invariant
            j <= HS,
            table@.len() > 0,
            slots == slots_of(table@),
            params == params_of(hashers@),
            find(slots, params, *key, 0) == find(slots, params, *key, j as int),
        decreases HS - j,
    {
        let b = bucket_index(&hashers[j], key, table.len());
        let bucket = &table[b];
        let mut s: usize = 0;
        while s < BS
            invariant
                s <= BS,
                j < HS,
                b < table@.len(),
                b == key_bucket(params[j as int], *key, slots.len()),
                *bucket == table@[b as int],
                slots == slots_of(table@),
                params == params_of(hashers@),
                find(slots, params, *key, 0) == find(slots, params, *key, j as int),
                first_holding(slots[b as int], *key, 0) == first_holding(
                    slots[b as int],
                    *key,
                    s as int,
                ),
            decreases BS - s,
        {
            match &bucket[s] {
                Some((k, v)) => {
                    if k.same_key(key) {
                        return Some(v);
                    }
                },
                None => {},
            }
            s += 1;
        }
        j += 1;
    }
    None
}

/// The first slot, in the order of a lookup, to which an entry for `key` can
/// be written without displacing another.
fn probe_key<K: TableKey, V, const BS: usize, const HS: usize>(
    table: &Vec<[Option<(K, V)>; BS]>,
    hashers: &[SipHasherFactory; HS],
    key: &K,
) -> (place: Option<(usize, usize)>)
    ensures
        match place {
            Some((b, s)) => {
                &&& b < table@.len()
                &&& s < BS
                &&& probe(slots_of(table@), params_of(hashers@), *key, 0) == Some(
                    (b as int, s as int),
                )
            },
            None => probe(slots_of(table@), params_of(hashers@), *key, 0) is None,
        },
{
    let ghost slots = slots_of(table@);
    let ghost params = params_of(hashers@);
    if table.len() == 0 {
        return None;
    }
    let mut j: usize = 0;
    while j < HS
        invariant
            j <= HS,
            table@.len() > 0,
            slots == slots_of(table@),
            params == params_of(hashers@),
            probe(slots, params, *key, 0) == probe(slots, params, *key, j as int),
        decreases HS - j,
    {
        let b = bucket_index(&hashers[j], key, table.len());
        let mut s: usize = 0;
        while s < BS
            invariant
                s <= BS,
                j < HS,
                b < table@.len(),
                b == key_bucket(params[j as int], *key, slots.len()),
                slots == slots_of(table@),
                params == params_of(hashers@),
                probe(slots, params, *key, 0) == probe(slots, params, *key, j as int),
                first_taking(slots[b as int], *key, 0) == first_taking(
                    slots[b as int],
                    *key,
                    s as int,
                ),
            decreases BS - s,
        {
            match &table[b][s] {
                Some((k, _)) => {
                    if k.same_key(key) {
                        return Some((b, s));
                    }
                },
                None => {
                    return Some((b, s));
                },
            }
            s += 1;
        }
        j += 1;
    }
    None
}

/// Where no slot from `from` on takes `key`, none does.
pub proof fn lemma_first_taking_none<K, V>(bucket: Seq<Option<(K, V)>>, key: K, from: int)
    requires
        0 <= from,
        first_taking(bucket, key, from) is None,
    ensures
        forall|s: int| from <= s < bucket.len() ==> !slot_takes(#[trigger] bucket[s], key),
    decreases bucket.len() - from,
{
    if from < bucket.len() {
        lemma_first_taking_none(bucket, key, from + 1);
    }
}

/// Where `probe` finds no slot, every slot of every bucket of `key` holds
/// another key.
pub proof fn lemma_probe_none<K: StaticSizeSerializable, V>(
    slots: Slots<K, V>,
    params: Seq<u64>,
    key: K,
    from: int,
)
    requires
        0 <= from,
        slots.len() > 0,
        probe(slots, params, key, from) is None,
    ensures
        forall|j: int, s: int|
            #![trigger slots[key_bucket(params[j], key, slots.len())][s]]
            from <= j < params.len() && 0 <= s < slots[key_bucket(
                params[j],
                key,
                slots.len(),
            )].len() ==> !slot_takes(slots[key_bucket(params[j], key, slots.len())][s], key),
    decreases params.len() - from,
{
    if from < params.len() {
        let b = key_bucket(params[from], key, slots.len());
        lemma_first_taking_none(slots[b], key, 0);
        lemma_probe_none(slots, params, key, from + 1);
    }
}

/// A static cuckoo-hash table of buckets of `BS` slots with `HS` hash
/// functions.
pub struct StaticCuckooTable<const BS: usize, const HS: usize, K: TableKey, V: Copy> {
    pub table: Vec<[Option<(K, V)>; BS]>,
    pub hashers: [SipHasherFactory; HS],
}

impl<const BS: usize, const HS: usize, K: TableKey, V: Copy> StaticCuckooTable<BS, HS, K, V> {
    /// The slots of the table.
    pub open spec fn slots(&self) -> Slots<K, V> {
        slots_of(self.table@)
    }

    /// The parameters of the table's hash functions.
    pub open spec fn params(&self) -> Seq<u64> {
        params_of(self.hashers@)
    }

    /// What a lookup of `key` returns.
    pub open spec fn spec_lookup(&self, key: K) -> Option<V> {
        find(self.slots(), self.params(), key, 0)
    }

    /// Looks `key` up. All the hash functions are tried before `None` is
    /// returned, since a displacement may have moved an entry to any of its
    /// buckets.
    pub fn lookup(&self, key: &K) -> (found: Option<&V>)
        ensures
            match self.spec_lookup(*key) {
                Some(v) => found == Some(&v),
                None => found is None,
            },
    {
        view_based_lookup(self.table.as_slice(), key, &self.hashers)
    }

    /// A table of `outer_size` buckets of empty slots, with the hash
    /// functions of parameters 1 to `HS`.
    fn empty(outer_size: usize) -> (made: Self)
        ensures
            made.slots() == empty_slots::<K, V>(outer_size as nat, BS as nat),
            made.params() == standard_params(HS as nat),
    {
        let mut table: Vec<[Option<(K, V)>; BS]> = Vec::new();
        let mut b: usize = 0;
        while b < outer_size
            invariant
                b <= outer_size,
                table@.len() == b,
                forall|i: int, s: int|
                    0 <= i < b && 0 <= s < BS ==> (#[trigger] table@[i]@[s]) == None::<(K, V)>,
            decreases outer_size - b,
        {
            let bucket: [Option<(K, V)>; BS] = [None; BS];
            table.push(bucket);
            b += 1;
        }
        let mut hashers: [SipHasherFactory; HS] = [SipHasherFactory::new(0); HS];
        let mut j: usize = 0;
        while j < HS
            invariant
                j <= HS,
                forall|i: int| 0 <= i < j ==> (#[trigger] hashers@[i]).p == i + 1,
            decreases HS - j,
        {
            hashers[j] = SipHasherFactory::new(j as u64 + 1);
            j += 1;
        }
        let made = StaticCuckooTable { table, hashers };
        assert(made.slots() =~~= empty_slots::<K, V>(outer_size as nat, BS as nat));
        assert(made.params() =~= standard_params(HS as nat));
        made
    }

    /// Inserts an entry, displacing others where it must.
    fn insert(&mut self, key: K, val: V) -> (done: Result<(), usize>)
        ensures
            final(self).params() == old(self).params(),
            place(old(self).slots(), old(self).params(), BS as nat, key, val, 0, 0, 0) == match done {
                Ok(()) => Ok::<Slots<K, V>, nat>(final(self).slots()),
                Err(count) => Err::<Slots<K, V>, nat>(count as nat),
            },
    {
        let ghost params = self.params();
        let ghost goal = place(self.slots(), params, BS as nat, key, val, 0, 0, 0);
        let mut cur_key = key;
        let mut cur_val = val;
        let mut count: usize = 0;
        let mut outer: usize = 0;
        let mut inner: usize = 0;
        loop
            invariant
                params == old(self).params(),
                goal == place(old(self).slots(), params, BS as nat, key, val, 0, 0, 0),
                self.params() == params,
                count <= MAX_DISPLACEMENTS,
                HS > 0 ==> outer < HS,
                BS > 0 ==> inner < BS,
                place(
                    self.slots(),
                    params,
                    BS as nat,
                    cur_key,
                    cur_val,
                    count as nat,
                    outer as int,
                    inner as int,
                ) == goal,
            decreases MAX_DISPLACEMENTS - count,
        {
            let ghost before = self.slots();
            match probe_key(&self.table, &self.hashers, &cur_key) {
                Some((b, s)) => {
                    self.table[b][s] = Some((cur_key, cur_val));
                    assert(self.slots() =~~= put(before, b as int, s as int, cur_key, cur_val));
                    return Ok(());
                },
                None => {},
            }
            if self.table.len() == 0 || HS == 0 || BS == 0 || count >= MAX_DISPLACEMENTS {
                return Err(count);
            }
            let b = bucket_index(&self.hashers[outer], &cur_key, self.table.len());
            let (next_key, next_val) = match self.table[b][inner] {
                Some((k, v)) => (k, v),
                None => {
                    proof {
                        lemma_probe_none(before, params, cur_key, 0);
                        assert(!slot_takes(
                            before[key_bucket(params[outer as int], cur_key, before.len())][inner as int],
                            cur_key,
                        ));
                    }
                    return Err(count);
                },
            };
            self.table[b][inner] = Some((cur_key, cur_val));
            assert(self.slots() =~~= put(before, b as int, inner as int, cur_key, cur_val));
            outer = (outer + 1) % HS;
            inner = (outer + 1) % BS;
            cur_key = next_key;
            cur_val = next_val;
            count += 1;
        }
    }

    /// Builds the table of `outer_size` buckets that holds `elems`, inserted
    /// in order; of two entries with the same key the later one stays. The
    /// hash functions have the parameters 1 to `HS`.
    ///
    /// An entry that cannot be placed within `MAX_DISPLACEMENTS` displacements
    /// fails the construction, with the position of that entry in `elems`: a
    /// larger table or more hash functions may hold the entries.
    pub fn from_iter(elems: Vec<(K, V)>, outer_size: usize) -> (built: Result<Self, IkvblobError>)
        ensures
            build(elems@, outer_size as nat, BS as nat, standard_params(HS as nat)) == match built {
                Ok(table) => Ok::<Slots<K, V>, IkvblobError>(table.slots()),
                Err(e) => Err::<Slots<K, V>, IkvblobError>(e),
            },
            built matches Ok(table) ==> table.params() == standard_params(HS as nat),
    {
        let mut made = Self::empty(outer_size);
        let ghost params = standard_params(HS as nat);
        let mut n: usize = 0;
        while n < elems.len()
            invariant
                n <= elems@.len(),
                made.params() == params,
                params == standard_params(HS as nat),
                build(elems@.take(n as int), outer_size as nat, BS as nat, params) == Ok::<
                    Slots<K, V>,
                    IkvblobError,
                >(made.slots()),
            decreases elems@.len() - n,
        {
            let (key, val) = elems[n];
            proof {
                assert(elems@.take(n + 1).drop_last() =~= elems@.take(n as int));
                assert(elems@.take(n + 1).last() == elems@[n as int]);
            }
            match made.insert(key, val) {
                Ok(()) => {},
                Err(count) => {
                    proof {
                        lemma_build_failure_stays(
                            elems@,
                            (n + 1) as nat,
                            outer_size as nat,
                            BS as nat,
                            params,
                        );
                    }
                    return Err(IkvblobError::CollisionBoundExceeded { input: n, displacements: count });
                },
            }
            n += 1;
        }
        assert(elems@.take(n as int) =~= elems@);
        Ok(made)
    }
}

/// Once the construction has failed on a prefix of the entries, it has failed
/// in the same way on all of them.
pub proof fn lemma_build_failure_stays<K: StaticSizeSerializable, V>(
    elems: Seq<(K, V)>,
    n: nat,
    buckets: nat,
    bs: nat,
    params: Seq<u64>,
)
    requires
        n <= elems.len(),
        build(elems.take(n as int), buckets, bs, params) is Err,
    ensures
        build(elems, buckets, bs, params) == build(elems.take(n as int), buckets, bs, params),
    decreases elems.len(),
{
    if n < elems.len() {
        assert(elems.drop_last().take(n as int) =~= elems.take(n as int));
        lemma_build_failure_stays(elems.drop_last(), n, buckets, bs, params);
    } else {
        assert(elems.take(n as int) =~= elems);
    }
}

} // verus!
