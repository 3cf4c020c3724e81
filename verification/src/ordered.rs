//! The queue of messages that wait for their place in the chronological
//! order, and the flush that releases them at a thread boundary.

use std::cmp::Ordering;
use vstd::prelude::*;
use vstd::std_specs::cmp::{PartialEqSpecImpl, PartialOrdSpecImpl};
use crate::time::{compare_diff, sorts_before, Sort};

verus! {

/// A payload with the date and the sort mode by which it is ordered.
#[derive(Debug)]
pub struct OrderMessage<T>(pub i64, pub Sort, pub T);

/// How two dates compare for a heap that hands out its greatest entry
/// first: under oldest first the earlier date is the greater, in every
/// other mode the later one.
pub open spec fn date_order(a: i64, b: i64, sort: Sort) -> Ordering {
    if a == b {
        Ordering::Equal
    } else if sorts_before(a, b, sort) {
        Ordering::Greater
    } else {
        Ordering::Less
    }
}

impl<T> PartialEq for OrderMessage<T> {
    /// Entries are equal when their dates are.
    fn eq(&self, other: &Self) -> (same: bool) {
        self.0 == other.0
    }
}

impl<T> PartialEqSpecImpl for OrderMessage<T> {
    open spec fn obeys_eq_spec() -> bool {
        true
    }

    open spec fn eq_spec(&self, other: &Self) -> bool {
        self.0 == other.0
    }
}

impl<T> PartialOrd for OrderMessage<T> {
    /// Entries compare by date, in the direction of the left entry's mode.
    fn partial_cmp(&self, other: &Self) -> (order: Option<Ordering>) {
        Some(self.cmp(other))
    }
}

impl<T> PartialOrdSpecImpl for OrderMessage<T> {
    open spec fn obeys_partial_cmp_spec() -> bool {
        true
    }

    open spec fn partial_cmp_spec(&self, other: &Self) -> Option<Ordering> {
        Some(date_order(self.0, other.0, self.1))
    }
}

impl<T> OrderMessage<T> {
    /// Compares two entries by date, in the direction of the left entry's
    /// mode: the one that leaves the heap first is the greater.
    pub fn cmp(&self, other: &Self) -> (order: Ordering)
        ensures
            order == date_order(self.0, other.0, self.1),
    {
        if self.0 == other.0 {
            Ordering::Equal
        } else if compare_diff(self.0, other.0, self.1) {
            Ordering::Greater
        } else {
            Ordering::Less
        }
    }
}

/// The messages held back, ordered for extraction: earliest date first
/// when `sort` is oldest first, latest date first in every other mode.
/// Among equal dates the one pushed first leaves first.
pub struct Heap<T> {
    sort: Sort,
    /// The entry to leave next is the last one.
    entries: Vec<OrderMessage<T>>,
}

/// Mathematical view of a [`Heap`]: its mode, which is also the mode of
/// every entry, and the dates and payloads that wait, the next to leave
/// last.
pub struct HeapView<V> {
    pub sort: Sort,
    pub pending: Seq<(i64, V)>,
}

/// No entry stands behind one that leaves strictly before it: the last
/// entry is the next to leave.
pub open spec fn ordered<V>(pending: Seq<(i64, V)>, sort: Sort) -> bool {
    forall|i: int, j: int|
        0 <= i < j < pending.len() ==> !sorts_before(
            (#[trigger] pending[i]).0,
            (#[trigger] pending[j]).0,
            sort,
        )
}

/// Where an entry dated `date` goes: behind the entries that it leaves
/// strictly before, in front of all others.
pub open spec fn slot<V>(pending: Seq<(i64, V)>, date: i64, sort: Sort) -> int
    decreases pending.len(),
{
    if pending.len() > 0 && sorts_before(date, pending[0].0, sort) {
        1 + slot(pending.drop_first(), date, sort)
    } else {
        0
    }
}

/// The entries in the order in which they leave.
pub open spec fn extraction<V>(pending: Seq<(i64, V)>) -> Seq<V> {
    Seq::new(pending.len(), |i: int| pending[pending.len() - 1 - i].1)
}

/// How many entries leave in a flush without limit: those at the leaving
/// end, up to the first that sorts strictly before `reference`.
pub open spec fn due<V>(pending: Seq<(i64, V)>, sort: Sort, reference: i64) -> nat
    decreases pending.len(),
{
    if pending.len() > 0 && !sorts_before(pending.last().0, reference, sort) {
        1 + due(pending.drop_last(), sort, reference)
    } else {
        0
    }
}

/// An entry goes to a place within the queue.
pub proof fn lemma_slot_bounded<V>(pending: Seq<(i64, V)>, date: i64, sort: Sort)
    ensures
        0 <= slot(pending, date, sort) <= pending.len(),
    decreases pending.len(),
{
    if pending.len() > 0 {
        lemma_slot_bounded(pending.drop_first(), date, sort);
    }
}

/// No more entries are due than wait.
pub proof fn lemma_due_bounded<V>(pending: Seq<(i64, V)>, sort: Sort, reference: i64)
    ensures
        due(pending, sort, reference) <= pending.len(),
    decreases pending.len(),
{
    if pending.len() > 0 {
        lemma_due_bounded(pending.drop_last(), sort, reference);
    }
}

/// What is left of a skip count after `available` entries could be
/// discarded: nothing when the count was reached by discarding, else the
/// remainder.
pub open spec fn skip_left(skip: Option<usize>, available: nat) -> Option<usize> {
    match skip {
        Some(s) => if 0 < s <= available {
            None
        } else {
            Some((s - available) as usize)
        },
        None => None,
    }
}

/// How many entries a skip count discards from `available` entries.
pub open spec fn skipped(skip: Option<usize>, available: nat) -> nat {
    match skip {
        Some(s) => if s <= available {
            s as nat
        } else {
            available
        },
        None => 0,
    }
}

/// How many of `wanted` entries a limit lets through.
pub open spec fn allowed(limit: Option<usize>, wanted: nat) -> nat {
    match limit {
        Some(l) => if l <= wanted {
            l as nat
        } else {
            wanted
        },
        None => wanted,
    }
}

impl<T: DeepView> View for Heap<T> {
    type V = HeapView<T::V>;

    closed spec fn view(&self) -> HeapView<T::V> {
        HeapView {
            sort: self.sort,
            pending: self.entries@.map_values(|e: OrderMessage<T>| (e.0, e.2.deep_view())),
        }
    }
}

impl<T: DeepView> Heap<T> {
    /// The mode that orders this heap.
    pub open spec fn sort(&self) -> Sort {
        self@.sort
    }

    /// Every entry carries the heap's mode, as the view takes for granted.
    pub closed spec fn tagged(&self) -> bool {
        forall|i: int| 0 <= i < self.entries.len() ==> (#[trigger] self.entries[i]).1 == self.sort
    }

    /// The heap is well formed: its entries are ordered for extraction.
    pub open spec fn wf(&self) -> bool {
        self.tagged() && ordered(self@.pending, self.sort())
    }

    /// An empty heap ordered by `sort`.
    pub fn new(sort: Sort) -> (heap: Self)
        ensures
            heap.wf(),
            heap.sort() == sort,
            heap@.pending == Seq::<(i64, T::V)>::empty(),
    {
        let heap = Heap { sort, entries: Vec::new() };
        assert(heap@.pending =~= Seq::<(i64, T::V)>::empty());
        heap
    }

    /// Number of entries held.
    pub fn len(&self) -> (n: usize)
        ensures
            n == self@.pending.len(),
    {
        self.entries.len()
    }

    /// Adds `payload` under `date`, behind the entries that leave after it.
    pub fn push(&mut self, date: i64, payload: T)
        requires
            old(self).wf(),
        ensures
            final(self).wf(),
            final(self).sort() == old(self).sort(),
            final(self)@.pending == old(self)@.pending.insert(
                slot(old(self)@.pending, date, old(self).sort()),
                (date, payload.deep_view()),
            ),
    {
        let sort = self.sort;
        let mut i: usize = 0;
        assert(self@.pending.skip(0) =~= self@.pending);
        while i < self.entries.len() && compare_diff(date, self.entries[i].0, sort)
            invariant
                i <= self.entries.len(),
                sort == self.sort,
                *self == *old(self),
                forall|k: int| 0 <= k < i ==> sorts_before(date, (#[trigger] self@.pending[k]).0, sort),
                slot(self@.pending, date, sort) == i + slot(self@.pending.skip(i as int), date, sort),
            decreases self.entries.len() - i,
        {
            proof {
                let rest = self@.pending.skip(i as int);
                assert(rest[0] == self@.pending[i as int]);
                assert(rest.drop_first() =~= self@.pending.skip(i + 1));
            }
            i = i + 1;
        }
        proof {
            let rest = self@.pending.skip(i as int);
            if i < self.entries.len() {
                assert(rest[0] == self@.pending[i as int]);
            }
            assert(slot(rest, date, sort) == 0);
            assert(self@.pending.skip(0) =~= self@.pending);
        }
        let ghost before = self@.pending;
        self.entries.insert(i, OrderMessage(date, sort, payload));
        proof {
            let entry = (date, payload.deep_view());
            assert(self@.pending =~= before.insert(i as int, entry));
            assert forall|a: int, b: int| 0 <= a < b < self@.pending.len() implies !sorts_before(
                (#[trigger] self@.pending[a]).0,
                (#[trigger] self@.pending[b]).0,
                sort,
            ) by {
                let x = if a < i { a } else { a - 1 };
                let y = if b < i { b } else { b - 1 };
                if a != i && b != i {
                    assert(self@.pending[a] == before[x]);
                    assert(self@.pending[b] == before[y]);
                } else if a == i {
                    assert(self@.pending[b] == before[y]);
                    assert(!sorts_before(before[i as int].0, before[y].0, sort));
                } else {
                    assert(self@.pending[a] == before[x]);
                }
            }
        }
    }

    /// The date of the entry that leaves next.
    pub fn peek(&self) -> (date: Option<i64>)
        ensures
            date == if self@.pending.len() > 0 {
                Some(self@.pending.last().0)
            } else {
                None
            },
    {
        let n = self.entries.len();
        if n == 0 {
            None
        } else {
            Some(self.entries[n - 1].0)
        }
    }

    /// Takes out the entry that leaves next.
    pub fn pop(&mut self) -> (top: Option<OrderMessage<T>>)
        requires
            old(self).wf(),
        ensures
            final(self).wf(),
            final(self).sort() == old(self).sort(),
            match top {
                Some(entry) => {
                    &&& old(self)@.pending.len() > 0
                    &&& final(self)@.pending == old(self)@.pending.drop_last()
                    &&& (entry.0, entry.2.deep_view()) == old(self)@.pending.last()
                    &&& entry.1 == old(self).sort()
                },
                None => old(self)@.pending.len() == 0 && final(self)@.pending == old(self)@.pending,
            },
    {
        let ghost before = self@.pending;
        let top = self.entries.pop();
        proof {
            if top is Some {
                assert(self@.pending =~= before.drop_last());
            }
        }
        top
    }
}

/// Discards entries from the leaving end until `skip` of them are gone or
/// the heap is empty, and returns what is left of the count. A count of
/// zero is met only by discarding, so it asks for an empty heap.
pub fn skips<T: DeepView>(heap: &mut Heap<T>, skip: Option<usize>) -> (left: Option<usize>)
    requires
        old(heap).wf(),
        skip == Some(0usize) ==> old(heap)@.pending.len() == 0,
    ensures
        final(heap).wf(),
        final(heap).sort() == old(heap).sort(),
        final(heap)@.pending == old(heap)@.pending.take(old(heap)@.pending.len() - skipped(skip, old(heap)@.pending.len())),
        left == skip_left(skip, old(heap)@.pending.len()),
        left == Some(0usize) ==> final(heap)@.pending.len() == 0,
{
    match skip {
        Some(count) => {
            if count == 0 {
                assert(old(heap)@.pending.take(0) =~= old(heap)@.pending);
                return Some(0);
            }
            let mut s: usize = count;
            assert(old(heap)@.pending.take(old(heap)@.pending.len() as int) =~= old(heap)@.pending);
            loop
                invariant
                    skip == Some(count),
                    heap.wf(),
                    heap.sort() == old(heap).sort(),
                    0 < s <= count,
                    count - s <= old(heap)@.pending.len(),
                    heap@.pending == old(heap)@.pending.take(old(heap)@.pending.len() - (count - s)),
                decreases heap@.pending.len(),
            {
                let ghost before = heap@.pending;
                match heap.pop() {
                    None => {
                        assert(heap@.pending.len() == 0);
                        assert(old(heap)@.pending.take(0) =~= heap@.pending);
                        return Some(s);
                    },
                    Some(_) => {
                        s = s - 1;
                        assert(heap@.pending =~= old(heap)@.pending.take(old(heap)@.pending.len() - (count - s)));
                        if s == 0 {
                            return None;
                        }
                    },
                }
            }
        },
        None => {
            assert(old(heap)@.pending.take(old(heap)@.pending.len() as int) =~= old(heap)@.pending);
            None
        },
    }
}

/// What is left of a limit after `n` entries went through.
pub open spec fn limit_left(limit: Option<usize>, n: nat) -> Option<usize> {
    match limit {
        Some(l) => Some((l - n) as usize),
        None => None,
    }
}

/// Releases the entries whose turn has come at a thread boundary.
///
/// First `skip` entries are discarded, as [`skips`] does. Then entries
/// leave in extraction order for as long as the next one does not sort
/// strictly before `reference` under `sort`, and at most as many as
/// `limit` allows. The payloads that left are returned in the order in
/// which they left; `skip` and `limit` are counted down.
pub fn flush_messages<T: DeepView>(
    heap: &mut Heap<T>,
    sort: Sort,
    reference: i64,
    skip: &mut Option<usize>,
    limit: &mut Option<usize>,
) -> (out: Vec<T>)
    requires
        old(heap).wf(),
        *old(skip) == Some(0usize) ==> old(heap)@.pending.len() == 0,
    ensures
        final(heap).wf(),
        final(heap).sort() == old(heap).sort(),
        *final(skip) == skip_left(*old(skip), old(heap)@.pending.len()),
        *final(skip) == Some(0usize) ==> final(heap)@.pending.len() == 0,
        ({
            let kept = old(heap)@.pending.take(
                old(heap)@.pending.len() - skipped(*old(skip), old(heap)@.pending.len()),
            );
            let n = allowed(*old(limit), due(kept, sort, reference));
            &&& final(heap)@.pending == kept.take(kept.len() - n)
            &&& out.deep_view() == extraction(kept.skip(kept.len() - n))
            &&& *final(limit) == limit_left(*old(limit), n)
        }),
{
    let left = skips(heap, *skip);
    *skip = left;
    let ghost kept = heap@.pending;
    let mut out: Vec<T> = Vec::new();
    assert(kept.take(kept.len() as int) =~= kept);
    loop
        invariant
            heap.wf(),
            heap.sort() == old(heap).sort(),
            out.len() <= kept.len(),
            heap@.pending == kept.take(kept.len() - out.len()),
            forall|i: int|
                0 <= i < out.len() ==> (#[trigger] out[i]).deep_view() == kept[kept.len() - 1 - i].1,
            due(kept, sort, reference) == out.len() + due(heap@.pending, sort, reference),
            match *old(limit) {
                Some(l) => *limit == Some((l - out.len()) as usize) && out.len() <= l,
                None => *limit is None,
            },
        ensures
            heap.wf(),
            heap.sort() == old(heap).sort(),
            out.len() == allowed(*old(limit), due(kept, sort, reference)),
            out.len() <= kept.len(),
            heap@.pending == kept.take(kept.len() - out.len()),
            forall|i: int|
                0 <= i < out.len() ==> (#[trigger] out[i]).deep_view() == kept[kept.len() - 1 - i].1,
            *limit == limit_left(*old(limit), out.len() as nat),
        decreases heap@.pending.len(),
    {
        let date = match heap.peek() {
            Some(date) => date,
            None => {
                break ;
            },
        };
        if compare_diff(date, reference, sort) {
            break ;
        }
        match *limit {
            Some(l) => {
                if l == 0 {
                    break ;
                }
                *limit = Some(l - 1);
            },
            None => {},
        }
        let ghost before = heap@.pending;
        match heap.pop() {
            Some(top) => {
                out.push(top.2);
                assert(heap@.pending =~= kept.take(kept.len() - out.len()));
                assert(before.last() == kept[kept.len() - out.len()]);
            },
            None => {},
        }
    }
    proof {
        let n = out.len() as int;
        let tail = kept.skip(kept.len() - n);
        assert(out.deep_view() =~= extraction(tail)) by {
            assert(out.deep_view().len() == tail.len());
            assert forall|i: int| 0 <= i < n implies out.deep_view()[i] == extraction(tail)[i] by {
                assert(out.deep_view()[i] == out[i].deep_view());
                assert(tail[tail.len() - 1 - i] == kept[kept.len() - 1 - i]);
            }
        }
    }
    out
}

/// Takes out every entry, in extraction order.
pub fn drain<T: DeepView>(heap: &mut Heap<T>) -> (out: Vec<T>)
    requires
        old(heap).wf(),
    ensures
        final(heap).wf(),
        final(heap).sort() == old(heap).sort(),
        final(heap)@.pending == Seq::<(i64, T::V)>::empty(),
        out.deep_view() == extraction(old(heap)@.pending),
{
    let mut out: Vec<T> = Vec::new();
    assert(heap@.pending.take(heap@.pending.len() as int) =~= heap@.pending);
    loop
        invariant
            heap.wf(),
            heap.sort() == old(heap).sort(),
            out.len() <= old(heap)@.pending.len(),
            heap@.pending == old(heap)@.pending.take(old(heap)@.pending.len() - out.len()),
            forall|i: int|
                0 <= i < out.len() ==> (#[trigger] out[i]).deep_view() == old(heap)@.pending[old(
                    heap,
                )@.pending.len() - 1 - i].1,
        ensures
            heap.wf(),
            heap.sort() == old(heap).sort(),
            out.len() == old(heap)@.pending.len(),
            heap@.pending.len() == 0,
            forall|i: int|
                0 <= i < out.len() ==> (#[trigger] out[i]).deep_view() == old(heap)@.pending[old(
                    heap,
                )@.pending.len() - 1 - i].1,
        decreases heap@.pending.len(),
    {
        let ghost before = heap@.pending;
        match heap.pop() {
            Some(top) => {
                out.push(top.2);
                assert(heap@.pending =~= old(heap)@.pending.take(old(heap)@.pending.len() - out.len()));
                assert(before.last() == old(heap)@.pending[old(heap)@.pending.len() - out.len()]);
            },
            None => {
                break ;
            },
        }
    }
    assert(heap@.pending =~= Seq::<(i64, T::V)>::empty());
    assert(out.deep_view() =~= extraction(old(heap)@.pending)) by {
        assert forall|i: int| 0 <= i < out.len() implies out.deep_view()[i] == extraction(
            old(heap)@.pending,
        )[i] by {
            assert(out.deep_view()[i] == out[i].deep_view());
        }
    }
    out
}

} // verus!
