//! Putting results that arrive out of order back into the order of their
//! sequence numbers, with a side buffer: a result is handed on as soon as all
//! the results before it have been, and nothing is sorted.

use crate::error::IkvblobError;
use std::collections::HashMap;
use vstd::prelude::*;
use vstd::std_specs::hash::group_hash_axioms;

verus! {

broadcast use group_hash_axioms;

/// The results that wait for an earlier one, by sequence number.
pub type Pending<T> = Map<usize, T>;

/// Whether a result with the sequence number `k` waits.
pub open spec fn waits<T>(pending: Pending<T>, k: int) -> bool {
    0 <= k <= usize::MAX && pending.contains_key(k as usize)
}

/// `to` is where the run ends that begins at `from`: the results with the
/// numbers from `from` up to `to` all wait, and the one with the number `to`
/// does not.
pub open spec fn ends_run<T>(pending: Pending<T>, from: int, to: int) -> bool {
    &&& from <= to
    &&& !waits(pending, to)
    &&& forall|k: int| from <= k < to ==> waits(pending, k)
}

/// Where the run ends that begins at `from`.
pub open spec fn run_end<T>(pending: Pending<T>, from: int) -> int {
    choose|to: int| ends_run(pending, from, to)
}

/// The sequence numbers from `from` up to `to`.
pub open spec fn numbers(from: int, to: int) -> Set<usize> {
    Set::new(|k: usize| from <= k < to)
}

/// The results with the numbers from `from` up to `to`, in order.
pub open spec fn run<T>(pending: Pending<T>, from: int, to: int) -> Seq<T> {
    Seq::new((to - from) as nat, |j: int| pending[(from + j) as usize])
}

/// Every run ends, and in one place only.
pub proof fn lemma_run_end<T>(pending: Pending<T>, from: int)
    requires
        0 <= from,
    ensures
        ends_run(pending, from, run_end(pending, from)),
        forall|to: int| ends_run(pending, from, to) ==> to == run_end(pending, from),
    decreases usize::MAX + 1 - from,
{
    if waits(pending, from) {
        lemma_run_end(pending, from + 1);
        let end = run_end(pending, from + 1);
        assert(ends_run(pending, from, end));
    } else {
        assert(ends_run(pending, from, from));
    }
    let chosen = run_end(pending, from);
    assert forall|to: int| ends_run(pending, from, to) implies to == chosen by {
        if to < chosen {
            assert(waits(pending, to));
        } else if chosen < to {
            assert(waits(pending, chosen));
        }
    }
}

/// What the arrival of the result `value` with the number `i` does, where
/// `next` is the number of the next result to hand on: the new `next`, the
/// results that wait then, and the results that are handed on, in order.
///
/// The result that is next is handed on together with the run of waiting
/// results that follows it. Any other result waits.
pub open spec fn spec_accept<T>(next: int, pending: Pending<T>, i: usize, value: T) -> (
    int,
    Pending<T>,
    Seq<T>,
) {
    let all = pending.insert(i, value);
    if i == next {
        let end = run_end(all, next);
        (end, all.remove_keys(numbers(next, end)), run(all, next, end))
    } else {
        (next, all, Seq::empty())
    }
}

/// The results handed on, and those that wait, after the arrivals `arrivals`
/// in that order.
pub open spec fn spec_replay<T>(arrivals: Seq<(usize, T)>) -> (Seq<T>, Pending<T>)
    decreases arrivals.len(),
{
    if arrivals.len() == 0 {
        (Seq::empty(), Map::empty())
    } else {
        let (handed, pending) = spec_replay(arrivals.drop_last());
        let (_, waiting, more) = spec_accept(
            handed.len() as int,
            pending,
            arrivals.last().0,
            arrivals.last().1,
        );
        (handed + more, waiting)
    }
}

/// The results in the order of their numbers, after all of `arrivals`: an
/// error where some still wait at the end, which means that a result never
/// came or came twice.
pub open spec fn spec_recover_order<T>(arrivals: Seq<(usize, T)>) -> Result<Seq<T>, IkvblobError> {
    let (handed, pending) = spec_replay(arrivals);
    if pending.dom().len() == 0 {
        Ok(handed)
    } else {
        Err(IkvblobError::ItemsLostInReordering { pending: pending.dom().len() as usize })
    }
}

/// The side buffer, and the number of the next result to hand on.
pub struct OrderRecoverer<T> {
    next_index: usize,
    buffer: HashMap<usize, T>,
}

impl<T> OrderRecoverer<T> {
    /// The number of the next result to hand on.
    pub closed spec fn next(&self) -> int {
        self.next_index as int
    }

    /// The results that wait.
    pub closed spec fn pending(&self) -> Pending<T> {
        self.buffer@
    }

    /// The next result does not wait, and no number is the largest that the
    /// machine has.
    #[verifier::type_invariant]
    pub closed spec fn wf(&self) -> bool {
        &&& self.buffer@.dom().finite()
        &&& !waits(self.buffer@, self.next_index as int)
        &&& !waits(self.buffer@, usize::MAX as int)
    }

    /// A buffer in which nothing waits, for results numbered from zero.
    pub fn new() -> (made: Self)
        ensures
            made.next() == 0,
            made.pending() == Map::<usize, T>::empty(),
    {
        OrderRecoverer { next_index: 0, buffer: HashMap::new() }
    }

    /// Takes the result `value` with the number `i`, and appends to `sink`
    /// the results that can be handed on now.
    pub fn accept(&mut self, i: usize, value: T, sink: &mut Vec<T>)
        requires
            i < usize::MAX,
        ensures
            (final(self).next(), final(self).pending(), final(sink)@.skip(old(sink)@.len() as int))
                == spec_accept(old(self).next(), old(self).pending(), i, value),
            final(sink)@.take(old(sink)@.len() as int) == old(sink)@,
            final(sink)@.len() - old(sink)@.len() == final(self).next() - old(self).next(),
            final(self).next() >= old(self).next(),
    {
        proof {
            use_type_invariant(&*self);
        }
        let ghost pending = self.buffer@;
        let ghost all = pending.insert(i, value);
        let ghost first = self.next_index as int;
        let mut buffer: HashMap<usize, T> = HashMap::new();
        std::mem::swap(&mut self.buffer, &mut buffer);
        let mut next: usize = self.next_index;
        if i == next {
            sink.push(value);
            next = next + 1;
            loop
                invariant
                    0 <= first < next <= usize::MAX,
                    i == first,
                    all == pending.insert(i, value),
                    !waits(pending, first),
                    !waits(pending, usize::MAX as int),
                    pending.dom().finite(),
                    forall|k: int| first <= k < next ==> waits(all, k),
                    buffer@ == all.remove_keys(numbers(first, next as int)),
                    sink@ == old(sink)@ + run(all, first, next as int),
                ensures
                    ends_run(all, first, next as int),
                    buffer@ == all.remove_keys(numbers(first, next as int)),
                    sink@ == old(sink)@ + run(all, first, next as int),
                    first < next <= usize::MAX,
                decreases usize::MAX - next,
            {
                let ghost before = buffer@;
                let ghost here = next;
                match buffer.remove(&next) {
                    Some(held) => {
                        assert(waits(all, here as int));
                        assert(here < usize::MAX);
                        sink.push(held);
                        next = next + 1;
                        assert(buffer@ =~= all.remove_keys(numbers(first, next as int)));
                        assert(sink@ =~= old(sink)@ + run(all, first, next as int));
                    },
                    None => {
                        assert(buffer@ =~= before);
                        assert(!waits(all, here as int));
                        break ;
                    },
                }
            }
            proof {
                lemma_run_end(all, first);
                assert(sink@.skip(old(sink)@.len() as int) =~= run(all, first, next as int));
                assert(sink@.take(old(sink)@.len() as int) =~= old(sink)@);
                assert(buffer@.dom().subset_of(all.dom()));
                vstd::set_lib::lemma_set_subset_finite(all.dom(), buffer@.dom());
            }
        } else {
            buffer.insert(i, value);
            assert(sink@.skip(old(sink)@.len() as int) =~= Seq::<T>::empty());
            assert(sink@.take(old(sink)@.len() as int) =~= old(sink)@);
        }
        self.next_index = next;
        std::mem::swap(&mut self.buffer, &mut buffer);
    }

    /// Ends the reordering: an error where results still wait, which means
    /// that one before them never came.
    pub fn finish(self) -> (done: Result<(), IkvblobError>)
        ensures
            self.pending().dom().len() == 0 ==> done is Ok,
            self.pending().dom().len() != 0 ==> done == Err::<(), IkvblobError>(
                IkvblobError::ItemsLostInReordering {
                    pending: self.pending().dom().len() as usize,
                },
            ),
    {
        let waiting = self.buffer.len();
        if waiting == 0 {
            Ok(())
        } else {
            Err(IkvblobError::ItemsLostInReordering { pending: waiting })
        }
    }
}

/// `arrivals` holds the `values`, each once with its place as its number, in
/// some order.
pub open spec fn reordering_of<T>(arrivals: Seq<(usize, T)>, values: Seq<T>) -> bool {
    &&& arrivals.len() == values.len()
    &&& forall|a: int|
        0 <= a < arrivals.len() ==> (#[trigger] arrivals[a]).0 < values.len() && arrivals[a].1
            == values[arrivals[a].0 as int]
    &&& forall|a: int, b: int|
        0 <= a < b < arrivals.len() ==> (#[trigger] arrivals[a]).0 != (#[trigger] arrivals[b]).0
}

/// The result with the number `i` is among the first `m` arrivals.
pub open spec fn arrived<T>(arrivals: Seq<(usize, T)>, m: int, i: int) -> bool {
    exists|a: int| 0 <= a < m && (#[trigger] arrivals[a]).0 == i
}

/// The result in place `i` of those handed on is the value of that place,
/// and it is among the first `m` arrivals.
pub open spec fn in_place<T>(
    handed: Seq<T>,
    arrivals: Seq<(usize, T)>,
    values: Seq<T>,
    m: int,
    i: int,
) -> bool {
    i < values.len() && handed[i] == values[i] && arrived(arrivals, m, i)
}

/// The result that waits with the number `k` is the value of that place, which
/// is one after the next to hand on, and it is among the first `m` arrivals.
pub open spec fn in_waiting<T>(
    pending: Pending<T>,
    next: int,
    arrivals: Seq<(usize, T)>,
    values: Seq<T>,
    m: int,
    k: usize,
) -> bool {
    next < k < values.len() && pending[k] == values[k as int] && arrived(arrivals, m, k as int)
}

/// The result with the number `x` has been handed on or waits.
pub open spec fn accounted<T>(pending: Pending<T>, next: int, x: usize) -> bool {
    x < next || pending.contains_key(x)
}

/// After the first `m` arrivals of a reordering, the results handed on are
/// the first of the values, and those that wait are values with later
/// numbers.
pub open spec fn replayed_in_order<T>(arrivals: Seq<(usize, T)>, values: Seq<T>, m: int) -> bool {
    let (handed, pending) = spec_replay(arrivals.take(m));
    &&& pending.dom().finite()
    &&& !waits(pending, handed.len() as int)
    &&& forall|i: int|
        0 <= i < handed.len() ==> #[trigger] in_place(handed, arrivals, values, m, i)
    &&& forall|k: usize|
        pending.contains_key(k) ==> #[trigger] in_waiting(
            pending,
            handed.len() as int,
            arrivals,
            values,
            m,
            k,
        )
    &&& forall|a: int|
        0 <= a < m ==> #[trigger] accounted(pending, handed.len() as int, arrivals[a].0)
}

/// One arrived before, then also now.
pub proof fn lemma_arrived_stays<T>(arrivals: Seq<(usize, T)>, m: int, i: int)
    requires
        arrived(arrivals, m - 1, i),
    ensures
        arrived(arrivals, m, i),
{
    let a = choose|a: int| 0 <= a < m - 1 && (#[trigger] arrivals[a]).0 == i;
    assert(0 <= a < m && arrivals[a].0 == i);
}

/// The invariant of a replay of a reordering.
pub proof fn lemma_replayed_in_order<T>(arrivals: Seq<(usize, T)>, values: Seq<T>, m: int)
    requires
        reordering_of(arrivals, values),
        0 <= m <= arrivals.len(),
    ensures
        replayed_in_order(arrivals, values, m),
    decreases m,
{
    if m == 0 {
        assert(arrivals.take(0) =~= Seq::<(usize, T)>::empty());
    } else {
        lemma_replayed_in_order(arrivals, values, m - 1);
        let prefix = arrivals.take(m);
        assert(prefix.drop_last() =~= arrivals.take(m - 1));
        assert(prefix.last() == arrivals[m - 1]);
        let (handed, pending) = spec_replay(arrivals.take(m - 1));
        let i = arrivals[m - 1].0;
        let value = arrivals[m - 1].1;
        let next = handed.len() as int;
        let all = pending.insert(i, value);
        // the result that arrives has not arrived before
        assert(!arrived(arrivals, m - 1, i as int)) by {
            if arrived(arrivals, m - 1, i as int) {
                let a = choose|a: int| 0 <= a < m - 1 && (#[trigger] arrivals[a]).0 == i;
                assert(arrivals[a].0 != arrivals[m - 1].0);
            }
        }
        assert(i >= next) by {
            if i < next {
                assert(in_place(handed, arrivals, values, m - 1, i as int));
            }
        }
        assert(!pending.contains_key(i)) by {
            if pending.contains_key(i) {
                assert(in_waiting(pending, next, arrivals, values, m - 1, i));
            }
        }
        let (handed2, pending2) = spec_replay(prefix);
        assert(arrived(arrivals, m, i as int)) by {
            assert(0 <= m - 1 < m && arrivals[m - 1].0 == i);
        }
        assert(accounted(pending, next, arrivals[m - 1].0) || true);
        if i == next {
            lemma_run_end(all, next);
            let end = run_end(all, next);
            let more = run(all, next, end);
            assert(handed2 == handed + more);
            assert(pending2 == all.remove_keys(numbers(next, end)));
            assert(handed2.len() == end);
            assert forall|j: int| 0 <= j < handed2.len() implies #[trigger] in_place(
                handed2,
                arrivals,
                values,
                m,
                j,
            ) by {
                if j < next {
                    assert(handed2[j] == handed[j]);
                    assert(in_place(handed, arrivals, values, m - 1, j));
                    lemma_arrived_stays(arrivals, m, j);
                } else {
                    assert(handed2[j] == more[j - next]);
                    assert(waits(all, j));
                    assert(more[j - next] == all[(next + (j - next)) as usize]);
                    if j != i {
                        assert(pending.contains_key(j as usize));
                        assert(in_waiting(pending, next, arrivals, values, m - 1, j as usize));
                        lemma_arrived_stays(arrivals, m, j);
                    }
                }
            }
            assert forall|k: usize| pending2.contains_key(k) implies #[trigger] in_waiting(
                pending2,
                handed2.len() as int,
                arrivals,
                values,
                m,
                k,
            ) by {
                assert(all.contains_key(k) && !numbers(next, end).contains(k));
                assert(k != i);
                assert(pending.contains_key(k));
                assert(in_waiting(pending, next, arrivals, values, m - 1, k));
                lemma_arrived_stays(arrivals, m, k as int);
                if k == end {
                    assert(waits(all, end));
                }
            }
            assert(!waits(pending2, handed2.len() as int));
            assert forall|a: int| 0 <= a < m implies #[trigger] accounted(
                pending2,
                handed2.len() as int,
                arrivals[a].0,
            ) by {
                let x = arrivals[a].0;
                if a < m - 1 {
                    assert(accounted(pending, next, arrivals[a].0));
                }
                if x >= end {
                    assert(all.contains_key(x));
                    assert(!numbers(next, end).contains(x));
                }
            }
            assert(pending2.dom().subset_of(all.dom()));
            vstd::set_lib::lemma_set_subset_finite(all.dom(), pending2.dom());
        } else {
            assert(handed2 =~= handed);
            assert(pending2 == all);
            assert forall|j: int| 0 <= j < handed2.len() implies #[trigger] in_place(
                handed2,
                arrivals,
                values,
                m,
                j,
            ) by {
                assert(in_place(handed, arrivals, values, m - 1, j));
                lemma_arrived_stays(arrivals, m, j);
            }
            assert forall|k: usize| pending2.contains_key(k) implies #[trigger] in_waiting(
                pending2,
                handed2.len() as int,
                arrivals,
                values,
                m,
                k,
            ) by {
                if k != i {
                    assert(pending.contains_key(k));
                    assert(in_waiting(pending, next, arrivals, values, m - 1, k));
                    lemma_arrived_stays(arrivals, m, k as int);
                }
            }
            assert forall|a: int| 0 <= a < m implies #[trigger] accounted(
                pending2,
                handed2.len() as int,
                arrivals[a].0,
            ) by {
                if a < m - 1 {
                    assert(accounted(pending, next, arrivals[a].0));
                }
            }
            assert(!waits(pending2, handed2.len() as int));
        }
    }
}

/// In a reordering every number arrives.
pub proof fn lemma_every_number_arrives<T>(arrivals: Seq<(usize, T)>, values: Seq<T>, i: int)
    requires
        reordering_of(arrivals, values),
        0 <= i < values.len(),
    ensures
        arrived(arrivals, arrivals.len() as int, i),
{
    let n = arrivals.len() as int;
    let places = vstd::set_lib::set_int_range(0, n);
    let number = |a: int| arrivals[a].0 as int;
    let found = places.map(number);
    vstd::set_lib::lemma_int_range(0, n);
    assert forall|a: int, b: int|
        places.contains(a) && places.contains(b) && #[trigger] number(a) == #[trigger] number(
            b,
        ) implies a == b by {
        if a < b {
            assert(arrivals[a].0 != arrivals[b].0);
        } else if b < a {
            assert(arrivals[b].0 != arrivals[a].0);
        }
    }
    assert(vstd::relations::injective_on(number, places));
    vstd::set_lib::lemma_map_size(places, found, number);
    assert forall|x: int| found.contains(x) implies places.contains(x) by {
        let a = choose|a: int| places.contains(a) && x == number(a);
        assert(arrivals[a].0 < values.len());
    }
    vstd::set_lib::lemma_subset_equality(found, places);
    assert(found.contains(i));
    let a = choose|a: int| places.contains(a) && i == number(a);
    assert(0 <= a < n && arrivals[a].0 == i);
}

/// Order preservation. Whatever the order in which the results of a pass
/// arrive, each with its place as its number, they are handed on in the order
/// of the pass.
pub proof fn lemma_recover_order_restores<T>(arrivals: Seq<(usize, T)>, values: Seq<T>)
    requires
        reordering_of(arrivals, values),
    ensures
        spec_recover_order(arrivals) == Ok::<Seq<T>, IkvblobError>(values),
{
    let n = arrivals.len() as int;
    lemma_replayed_in_order(arrivals, values, n);
    assert(arrivals.take(n) =~= arrivals);
    let (handed, pending) = spec_replay(arrivals);
    if handed.len() < n {
        let x = handed.len() as int;
        lemma_every_number_arrives(arrivals, values, x);
        let a = choose|a: int| 0 <= a < n && (#[trigger] arrivals[a]).0 == x;
        assert(accounted(pending, handed.len() as int, arrivals[a].0));
        assert(waits(pending, x));
    }
    if handed.len() > n {
        assert(in_place(handed, arrivals, values, n, n));
    }
    assert forall|j: int| 0 <= j < handed.len() implies handed[j] == values[j] by {
        assert(in_place(handed, arrivals, values, n, j));
    }
    assert(handed =~= values);
    assert(pending.dom() =~= Set::<usize>::empty()) by {
        assert forall|k: usize| !pending.dom().contains(k) by {
            if pending.contains_key(k) {
                assert(in_waiting(pending, handed.len() as int, arrivals, values, n, k));
            }
        }
    }
}

} // verus!
