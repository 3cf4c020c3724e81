//! The merge scheduler: matched messages of successive threads brought
//! into one chronological stream, with a heap for those that have to wait.

use vstd::prelude::*;
use crate::error::Error;
use crate::message::{
    forest_preorder, forest_size, lemma_deep_view, lemma_replies_view, preorder, tree_size,
    Message, MessageView,
};
use crate::ordered::{
    drain, due, extraction, flush_messages, lemma_due_bounded, lemma_slot_bounded, slot, Heap,
};
use crate::runtime::{shows_of, Runtime, RuntimeView, Show, ShowView};
use crate::template::{parse, Parsed};
use crate::thread::{Thread, ThreadView};
use crate::time::{boundary, compare_diff, compare_time, sorts_before, Sort};

verus! {

/// Where a merge stands: the records that wait, ordered for extraction
/// with the next to leave last, and the records emitted so far.
pub struct MergeState {
    pub pending: Seq<(i64, ShowView)>,
    pub emitted: Seq<ShowView>,
}

impl RuntimeView {
    /// One message met by the walk at position `index`. A message that is
    /// not matched changes nothing. A matched one is rendered from the
    /// entry template; it waits when its date sorts strictly before the
    /// thread's boundary `reference`, and is emitted at once otherwise.
    pub open spec fn offer(
        self,
        state: MergeState,
        m: MessageView,
        index: int,
        reference: i64,
        total: i32,
    ) -> Result<MergeState, Error> {
        if !m.matched {
            Ok(state)
        } else {
            match self.message_record(self.entry_template(), m, None, index as i32, total) {
                Err(e) => Err(e),
                Ok(show) => if sorts_before(m.date, reference, self.sort) {
                    Ok(
                        MergeState {
                            pending: state.pending.insert(
                                slot(state.pending, m.date, self.sort),
                                (m.date, show),
                            ),
                            emitted: state.emitted,
                        },
                    )
                } else {
                    Ok(MergeState { pending: state.pending, emitted: state.emitted.push(show) })
                },
            }
        }
    }

    /// The messages `pre` met in turn, the first at position `start + 1`.
    /// The first one that cannot be rendered is the error of them all.
    pub open spec fn offer_all(
        self,
        state: MergeState,
        pre: Seq<MessageView>,
        start: int,
        reference: i64,
        total: i32,
    ) -> Result<MergeState, Error>
        decreases pre.len(),
    {
        if pre.len() == 0 {
            Ok(state)
        } else {
            match self.offer_all(state, pre.drop_last(), start, reference, total) {
                Err(e) => Err(e),
                Ok(s) => self.offer(s, pre.last(), start + pre.len(), reference, total),
            }
        }
    }

    /// The state that meeting `pre` reaches: the state after all of them
    /// where each can be rendered, else the state before the first one
    /// that cannot.
    pub open spec fn offer_reached(
        self,
        state: MergeState,
        pre: Seq<MessageView>,
        start: int,
        reference: i64,
        total: i32,
    ) -> MergeState
        decreases pre.len(),
    {
        if pre.len() == 0 {
            state
        } else {
            match self.offer_all(state, pre.drop_last(), start, reference, total) {
                Err(_) => self.offer_reached(state, pre.drop_last(), start, reference, total),
                Ok(s) => match self.offer(s, pre.last(), start + pre.len(), reference, total) {
                    Err(_) => s,
                    Ok(next) => next,
                },
            }
        }
    }

    /// The state that one thread reaches: that after the thread where it
    /// succeeds, else that before the first message that cannot be
    /// rendered, with the flush at the boundary done.
    pub open spec fn thread_reached(self, state: MergeState, t: ThreadView) -> MergeState {
        self.offer_reached(
            released(state, self.sort, boundary(t, self.sort)),
            forest_preorder(t.toplevel_messages),
            0,
            boundary(t, self.sort),
            t.total_messages,
        )
    }

    /// One thread: first the waiting records whose turn has come at the
    /// thread's boundary date leave, then the thread's messages are met in
    /// depth-first pre-order, numbered from one.
    pub open spec fn thread_step(self, state: MergeState, t: ThreadView) -> Result<
        MergeState,
        Error,
    > {
        self.offer_all(
            released(state, self.sort, boundary(t, self.sort)),
            forest_preorder(t.toplevel_messages),
            0,
            boundary(t, self.sort),
            t.total_messages,
        )
    }

    /// The first `n` threads in turn, from an empty state.
    pub open spec fn thread_steps(self, threads: Seq<ThreadView>, n: nat) -> Result<
        MergeState,
        Error,
    >
        decreases n,
    {
        if n == 0 {
            Ok(MergeState { pending: Seq::empty(), emitted: Seq::empty() })
        } else {
            match self.thread_steps(threads, (n - 1) as nat) {
                Err(e) => Err(e),
                Ok(s) => self.thread_step(s, threads[n - 1]),
            }
        }
    }

    /// The whole stream: what the threads emit in turn, then what still
    /// waits, in extraction order.
    pub open spec fn merged(self, threads: Seq<ThreadView>) -> Result<Seq<ShowView>, Error> {
        match self.thread_steps(threads, threads.len()) {
            Err(e) => Err(e),
            Ok(s) => Ok(s.emitted + extraction(s.pending)),
        }
    }
}

/// The flush at a boundary: the waiting records leave in extraction order
/// up to the first whose date sorts strictly before `reference`.
pub open spec fn released(state: MergeState, sort: Sort, reference: i64) -> MergeState {
    let n = due(state.pending, sort, reference);
    MergeState {
        pending: state.pending.take(state.pending.len() - n),
        emitted: state.emitted + extraction(state.pending.skip(state.pending.len() - n)),
    }
}

/// Messages met in two runs are met as one: the second run goes on from
/// the state and the position that the first one reached.
pub proof fn lemma_offer_append(
    rt: RuntimeView,
    state: MergeState,
    a: Seq<MessageView>,
    b: Seq<MessageView>,
    start: int,
    reference: i64,
    total: i32,
)
    ensures
        rt.offer_all(state, a + b, start, reference, total) == match rt.offer_all(
            state,
            a,
            start,
            reference,
            total,
        ) {
            Err(e) => Err::<MergeState, Error>(e),
            Ok(s) => rt.offer_all(s, b, start + a.len(), reference, total),
        },
    decreases b.len(),
{
    if b.len() == 0 {
        assert(a + b =~= a);
    } else {
        lemma_offer_append(rt, state, a, b.drop_last(), start, reference, total);
        assert((a + b).drop_last() =~= a + b.drop_last());
        assert((a + b).last() == b.last());
    }
}

/// What two runs reach is what the second reaches from where the first
/// ended, or, where the first fails, what the first reaches.
pub proof fn lemma_reached_append(
    rt: RuntimeView,
    state: MergeState,
    a: Seq<MessageView>,
    b: Seq<MessageView>,
    start: int,
    reference: i64,
    total: i32,
)
    ensures
        rt.offer_reached(state, a + b, start, reference, total) == match rt.offer_all(
            state,
            a,
            start,
            reference,
            total,
        ) {
            Err(_) => rt.offer_reached(state, a, start, reference, total),
            Ok(s) => rt.offer_reached(s, b, start + a.len(), reference, total),
        },
    decreases b.len(),
{
    if b.len() == 0 {
        assert(a + b =~= a);
    } else {
        lemma_reached_append(rt, state, a, b.drop_last(), start, reference, total);
        lemma_offer_append(rt, state, a, b.drop_last(), start, reference, total);
        assert((a + b).drop_last() =~= a + b.drop_last());
        assert((a + b).last() == b.last());
    }
}

/// One round of the walk: the messages met so far, then the next one, then
/// its replies. The first failure is the failure of the whole walk, and
/// the walk reaches the state before it.
pub proof fn lemma_offer_step(
    rt: RuntimeView,
    state: MergeState,
    done: Seq<MessageView>,
    m: MessageView,
    inner: Seq<MessageView>,
    after: Seq<MessageView>,
    start: int,
    reference: i64,
    total: i32,
)
    requires
        rt.offer_all(state, done, start, reference, total) is Ok,
    ensures
        ({
            let so_far = rt.offer_all(state, done, start, reference, total)->Ok_0;
            let all = ((done + seq![m]) + inner) + after;
            let whole = rt.offer_all(state, all, start, reference, total);
            let reached = rt.offer_reached(state, all, start, reference, total);
            match rt.offer(so_far, m, start + done.len() + 1, reference, total) {
                Err(e) => whole == Err::<MergeState, Error>(e) && reached == so_far,
                Ok(s) => {
                    &&& rt.offer_all(state, done + seq![m], start, reference, total) == Ok::<
                        MergeState,
                        Error,
                    >(s)
                    &&& match rt.offer_all(s, inner, start + done.len() + 1, reference, total) {
                        Err(e) => whole == Err::<MergeState, Error>(e) && reached
                            == rt.offer_reached(s, inner, start + done.len() + 1, reference, total),
                        Ok(below) => rt.offer_all(
                            state,
                            (done + seq![m]) + inner,
                            start,
                            reference,
                            total,
                        ) == Ok::<MergeState, Error>(below),
                    }
                },
            }
        }),
{
    assert((done + seq![m]).drop_last() =~= done);
    assert((done + seq![m]).last() == m);
    lemma_offer_append(rt, state, done + seq![m], inner, start, reference, total);
    lemma_offer_append(rt, state, (done + seq![m]) + inner, after, start, reference, total);
    lemma_reached_append(rt, state, done + seq![m], inner, start, reference, total);
    lemma_reached_append(rt, state, (done + seq![m]) + inner, after, start, reference, total);
}

impl Runtime {
    /// Meets one message at position `index`.
    fn offer(
        &self,
        entry: &Option<Parsed>,
        message: &Message,
        index: i32,
        reference: i64,
        total: i32,
        out: &mut Vec<Show>,
        heap: &mut Heap<Show>,
    ) -> (done: Result<(), Error>)
        requires
            entry.deep_view() == self@.entry_template(),
            old(heap).wf(),
            old(heap).sort() == self.sort,
        ensures
            ({
                let before = MergeState { pending: old(heap)@.pending, emitted: old(out).deep_view() };
                let step = self@.offer(before, message@, index as int, reference, total);
                &&& final(heap).wf()
                &&& final(heap).sort() == self.sort
                &&& match done {
                    Ok(()) => step == Ok::<MergeState, Error>(
                        MergeState { pending: final(heap)@.pending, emitted: final(out).deep_view() },
                    ),
                    Err(e) => {
                        &&& step == Err::<MergeState, Error>(e)
                        &&& final(heap)@.pending == old(heap)@.pending
                        &&& final(out).deep_view() == old(out).deep_view()
                    },
                }
            }),
    {
        if message.matched {
            match self.message_record(entry, message, None, index, total) {
                Err(e) => {
                    return Err(e);
                },
                Ok(show) => {
                    if compare_diff(message.date, reference, self.sort) {
                        heap.push(message.date, show);
                    } else {
                        let ghost shown = out.deep_view();
                        out.push(show);
                        assert(out.deep_view() =~= shown.push(show@));
                    }
                },
            }
        }
        Ok(())
    }

    /// Walks sibling trees in depth-first pre-order and meets every
    /// message: a matched one is emitted to `out` or held back in `heap`.
    /// Every message advances the position, matched or not. Returns the
    /// number of messages visited so far in the thread.
    fn show_messages_helper(
        &self,
        entry: &Option<Parsed>,
        messages: &Vec<Message>,
        reference: i64,
        num: i32,
        total: i32,
        out: &mut Vec<Show>,
        heap: &mut Heap<Show>,
    ) -> (counter: Result<i32, Error>)
        requires
            entry.deep_view() == self@.entry_template(),
            old(heap).wf(),
            old(heap).sort() == self.sort,
            0 <= num,
            num + forest_size(messages.deep_view()) <= i32::MAX,
        ensures
            ({
                let before = MergeState { pending: old(heap)@.pending, emitted: old(out).deep_view() };
                let walk = self@.offer_all(
                    before,
                    forest_preorder(messages.deep_view()),
                    num as int,
                    reference,
                    total,
                );
                &&& final(heap).wf()
                &&& final(heap).sort() == self.sort
                &&& (MergeState { pending: final(heap)@.pending, emitted: final(out).deep_view() })
                    == self@.offer_reached(
                    before,
                    forest_preorder(messages.deep_view()),
                    num as int,
                    reference,
                    total,
                )
                &&& match counter {
                    Ok(n) => {
                        &&& n == num + forest_size(messages.deep_view())
                        &&& walk == Ok::<MergeState, Error>(
                            MergeState { pending: final(heap)@.pending, emitted: final(out).deep_view() },
                        )
                    },
                    Err(e) => walk == Err::<MergeState, Error>(e),
                }
            }),
        decreases messages,
    {
        let ghost forest = messages.deep_view();
        let ghost before = MergeState { pending: old(heap)@.pending, emitted: old(out).deep_view() };
        let ghost mut done: Seq<MessageView> = Seq::empty();
        let mut n: i32 = num;
        let mut j: usize = 0;
        proof {
            lemma_deep_view(messages);
            assert(forest.skip(0) =~= forest);
            assert(done + forest_preorder(forest) =~= forest_preorder(forest));
        }
        while j < messages.len()
            invariant
                j <= messages.len(),
                forest == messages.deep_view(),
                forest.len() == messages.len(),
                entry.deep_view() == self@.entry_template(),
                heap.wf(),
                heap.sort() == self.sort,
                0 <= num <= n,
                n == num + done.len(),
                before == (MergeState { pending: old(heap)@.pending, emitted: old(out).deep_view() }),
                num + forest_size(forest) <= i32::MAX,
                n + forest_size(forest.skip(j as int)) == num + forest_size(forest),
                forest_preorder(forest) == done + forest_preorder(forest.skip(j as int)),
                self@.offer_all(before, done, num as int, reference, total) == Ok::<
                    MergeState,
                    Error,
                >(MergeState { pending: heap@.pending, emitted: out.deep_view() }),
            decreases messages.len() - j,
        {
            let message = &messages[j];
            let ghost rest = forest.skip(j as int);
            let ghost m = message@;
            let ghost inner = forest_preorder(m.replies);
            let ghost after = forest_preorder(rest.drop_first());
            proof {
                lemma_deep_view(messages);
                lemma_replies_view(message);
                assert(rest[0] == m);
                assert(rest.drop_first() =~= forest.skip(j + 1));
                assert(forest_preorder(rest) == preorder(m) + after);
                assert(preorder(m) == seq![m] + inner);
                assert(forest_size(rest) == tree_size(m) + forest_size(rest.drop_first()));
                assert(tree_size(m) == 1 + forest_size(m.replies));
                crate::message::lemma_preorder_len(m.replies);
                assert(forest_preorder(forest) =~= ((done + seq![m]) + inner) + after);
                lemma_offer_step(self@, before, done, m, inner, after, num as int, reference, total);
            }
            match self.offer(entry, message, n + 1, reference, total, out, heap) {
                Err(e) => {
                    return Err(e);
                },
                Ok(()) => {},
            }
            match self.show_messages_helper(
                entry,
                &message.replies,
                reference,
                n + 1,
                total,
                out,
                heap,
            ) {
                Err(e) => {
                    return Err(e);
                },
                Ok(k) => {
                    n = k;
                },
            }
            proof {
                done = (done + seq![m]) + inner;
            }
            j = j + 1;
        }
        proof {
            assert(forest.skip(messages.len() as int) =~= Seq::<MessageView>::empty());
            assert(done + Seq::<MessageView>::empty() =~= done);
        }
        Ok(n)
    }

    /// One thread of the merge, on the records emitted so far.
    fn merge_step(
        &self,
        entry: &Option<Parsed>,
        thread: &Thread,
        out: &mut Vec<Show>,
        heap: &mut Heap<Show>,
    ) -> (done: Result<(), Error>)
        requires
            entry.deep_view() == self@.entry_template(),
            old(heap).wf(),
            old(heap).sort() == self.sort,
            forest_size(thread@.toplevel_messages) <= i32::MAX,
        ensures
            ({
                let before = MergeState { pending: old(heap)@.pending, emitted: old(out).deep_view() };
                let step = self@.thread_step(before, thread@);
                &&& final(heap).wf()
                &&& final(heap).sort() == self.sort
                &&& (MergeState { pending: final(heap)@.pending, emitted: final(out).deep_view() })
                    == self@.thread_reached(before, thread@)
                &&& match done {
                    Ok(()) => step == Ok::<MergeState, Error>(
                        MergeState { pending: final(heap)@.pending, emitted: final(out).deep_view() },
                    ),
                    Err(e) => step == Err::<MergeState, Error>(e),
                }
            }),
    {
        let reference = compare_time(thread, self.sort);
        let mut skip: Option<usize> = None;
        let mut limit: Option<usize> = None;
        let ghost waiting = heap@.pending;
        let ghost shown = out.deep_view();
        let mut flushed = flush_messages(heap, self.sort, reference, &mut skip, &mut limit);
        proof {
            assert(waiting.take(waiting.len() as int) =~= waiting);
        }
        let ghost left = flushed.deep_view();
        out.append(&mut flushed);
        assert(out.deep_view() =~= shown + left);
        match self.show_messages_helper(
            entry,
            &thread.toplevel_messages,
            reference,
            0,
            thread.total_messages,
            out,
            heap,
        ) {
            Ok(_) => Ok(()),
            Err(e) => Err(e),
        }
    }

    /// An empty heap for a merge under this configuration.
    pub fn new_heap(&self) -> (heap: Heap<Show>)
        ensures
            heap.wf(),
            heap.sort() == self.sort,
            heap@.pending == Seq::<(i64, ShowView)>::empty(),
    {
        Heap::new(self.sort)
    }

    /// One thread of a streamed merge: appends to `out` the records to
    /// emit now and keeps in `heap` those that wait. After the last
    /// thread, [`drain`] gives the rest. Where a message cannot be
    /// rendered the thread ends there with the error; `out` and `heap`
    /// then hold what was emitted and held back before that message.
    pub fn merge_thread(&self, thread: &Thread, heap: &mut Heap<Show>, out: &mut Vec<Show>) -> (done:
        Result<(), Error>)
        requires
            old(heap).wf(),
            old(heap).sort() == self.sort,
            forest_size(thread@.toplevel_messages) <= i32::MAX,
        ensures
            ({
                let before = MergeState { pending: old(heap)@.pending, emitted: old(out).deep_view() };
                let step = self@.thread_step(before, thread@);
                &&& final(heap).wf()
                &&& final(heap).sort() == self.sort
                &&& (MergeState { pending: final(heap)@.pending, emitted: final(out).deep_view() })
                    == self@.thread_reached(before, thread@)
                &&& match done {
                    Ok(()) => step == Ok::<MergeState, Error>(
                        MergeState { pending: final(heap)@.pending, emitted: final(out).deep_view() },
                    ),
                    Err(e) => step == Err::<MergeState, Error>(e),
                }
            }),
    {
        let entry = parse(self.templ.regex.as_str(), self.templ.templ_message.as_str());
        self.merge_step(&entry, thread, out, heap)
    }

    /// The matched messages of all threads as one stream. Threads are
    /// taken in the order given. At each thread the records that wait and
    /// whose date does not sort before the thread's boundary date leave
    /// the heap; then each matched message of the thread is emitted, or
    /// held back when its date sorts before the boundary. At the end the
    /// heap is emptied in order.
    pub fn show_messages(&self, threads: &Vec<Thread>) -> (out: Result<Vec<Show>, Error>)
        requires
            forall|i: int|
                0 <= i < threads.len() ==> forest_size(
                    (#[trigger] threads[i])@.toplevel_messages,
                ) <= i32::MAX,
        ensures
            shows_of(out) == self@.merged(threads.deep_view()),
    {
        let entry = parse(self.templ.regex.as_str(), self.templ.templ_message.as_str());
        let mut heap: Heap<Show> = Heap::new(self.sort);
        let mut out: Vec<Show> = Vec::new();
        assert(out.deep_view() =~= Seq::<ShowView>::empty());
        let mut i: usize = 0;
        while i < threads.len()
            invariant
                i <= threads.len(),
                entry.deep_view() == self@.entry_template(),
                heap.wf(),
                heap.sort() == self.sort,
                forall|k: int|
                    0 <= k < threads.len() ==> forest_size(
                        (#[trigger] threads[k])@.toplevel_messages,
                    ) <= i32::MAX,
                self@.thread_steps(threads.deep_view(), i as nat) == Ok::<MergeState, Error>(
                    MergeState { pending: heap@.pending, emitted: out.deep_view() },
                ),
            decreases threads.len() - i,
        {
            assert(threads.deep_view()[i as int] == threads[i as int]@);
            match self.merge_step(&entry, &threads[i], &mut out, &mut heap) {
                Ok(()) => {},
                Err(e) => {
                    proof {
                        lemma_steps_error(self@, threads.deep_view(), i as nat, threads.len() as nat);
                    }
                    return Err(e);
                },
            }
            i = i + 1;
        }
        let ghost shown = out.deep_view();
        let mut rest = drain(&mut heap);
        let ghost left = rest.deep_view();
        out.append(&mut rest);
        assert(out.deep_view() =~= shown + left);
        Ok(out)
    }
}

/// A thread that fails ends the merge, however many follow.
proof fn lemma_steps_error(rt: RuntimeView, threads: Seq<ThreadView>, i: nat, n: nat)
    requires
        i < n,
        rt.thread_steps(threads, i) is Ok,
        rt.thread_step(rt.thread_steps(threads, i)->Ok_0, threads[i as int]) is Err,
    ensures
        rt.thread_steps(threads, n) == Err::<MergeState, Error>(
            rt.thread_step(rt.thread_steps(threads, i)->Ok_0, threads[i as int])->Err_0,
        ),
    decreases n,
{
    if n > i + 1 {
        lemma_steps_error(rt, threads, i, (n - 1) as nat);
    }
}

/// How many of `pre` are matched.
pub open spec fn matched_count(pre: Seq<MessageView>) -> nat
    decreases pre.len(),
{
    if pre.len() == 0 {
        0
    } else {
        matched_count(pre.drop_last()) + if pre.last().matched {
            1nat
        } else {
            0nat
        }
    }
}

/// How many messages of the first `n` threads are matched.
pub open spec fn matched_total(threads: Seq<ThreadView>, n: nat) -> nat
    decreases n,
{
    if n == 0 {
        0
    } else {
        matched_total(threads, (n - 1) as nat) + matched_count(
            forest_preorder(threads[n - 1].toplevel_messages),
        )
    }
}

/// Meeting messages adds one record, waiting or emitted, per matched
/// message.
pub proof fn lemma_offer_all_counts(
    rt: RuntimeView,
    state: MergeState,
    pre: Seq<MessageView>,
    start: int,
    reference: i64,
    total: i32,
)
    requires
        rt.offer_all(state, pre, start, reference, total) is Ok,
    ensures
        ({
            let after = rt.offer_all(state, pre, start, reference, total)->Ok_0;
            after.pending.len() + after.emitted.len() == state.pending.len() + state.emitted.len()
                + matched_count(pre)
        }),
    decreases pre.len(),
{
    if pre.len() > 0 {
        lemma_offer_all_counts(rt, state, pre.drop_last(), start, reference, total);
        let so_far = rt.offer_all(state, pre.drop_last(), start, reference, total)->Ok_0;
        lemma_slot_bounded(so_far.pending, pre.last().date, rt.sort);
    }
}

/// The merge neither loses nor repeats a message: where it succeeds, it
/// emits exactly as many records as the threads hold matched messages.
pub proof fn lemma_merge_emits_every_match(rt: RuntimeView, threads: Seq<ThreadView>)
    requires
        rt.merged(threads) is Ok,
    ensures
        rt.merged(threads)->Ok_0.len() == matched_total(threads, threads.len()),
{
    lemma_steps_count(rt, threads, threads.len());
}

/// After any number of threads, the records that wait and those emitted
/// are together as many as the matched messages met.
pub proof fn lemma_steps_count(rt: RuntimeView, threads: Seq<ThreadView>, n: nat)
    requires
        rt.thread_steps(threads, n) is Ok,
    ensures
        ({
            let s = rt.thread_steps(threads, n)->Ok_0;
            s.pending.len() + s.emitted.len() == matched_total(threads, n)
        }),
    decreases n,
{
    if n > 0 {
        lemma_steps_count(rt, threads, (n - 1) as nat);
        let before = rt.thread_steps(threads, (n - 1) as nat)->Ok_0;
        let t = threads[n - 1];
        let reference = boundary(t, rt.sort);
        lemma_due_bounded(before.pending, rt.sort, reference);
        lemma_offer_all_counts(
            rt,
            released(before, rt.sort, reference),
            forest_preorder(t.toplevel_messages),
            0,
            reference,
            t.total_messages,
        );
    }
}

} // verus!
