//! The walk over the message trees of one thread: the full tree with its
//! connectors, and the first matched message.

use vstd::prelude::*;
use crate::error::Error;
use crate::message::{
    forest_preorder, forest_size, lemma_deep_view, lemma_replies_view, preorder, tree_size,
    Message, MessageView,
};
use crate::runtime::{show_of, shows_of, Runtime, RuntimeView, Show, ShowView};
use crate::template::{parse, Parsed};
use crate::text::{chars_of, push_all, string_of};
use crate::thread::{Thread, ThreadView};

verus! {

/// One step of the walk: the message, its position in the thread counted
/// from one, and the connector text when the message is drawn as a reply.
pub struct Visit {
    pub message: MessageView,
    pub index: int,
    pub response: Option<Seq<char>>,
}

/// The connector of a message: the prefix handed down from its parent, an
/// elbow or a tee by whether it is the last of its siblings, and a joint
/// by whether it has replies. The very first message of the walk has no
/// elbow or tee.
pub open spec fn connector(prefix: Seq<char>, n: int, last: bool, has_replies: bool) -> Seq<char> {
    prefix + (if n == 0 {
        Seq::empty()
    } else if last {
        "└─"@
    } else {
        "├─"@
    }) + (if has_replies {
        "┬"@
    } else {
        "─"@
    })
}

/// The prefix that a message hands down to its replies: its own, plus a
/// bar when siblings follow it and blanks when none does. The very first
/// message of the walk hands down its own prefix.
pub open spec fn child_prefix(prefix: Seq<char>, n: int, last: bool) -> Seq<char> {
    prefix + (if n == 0 {
        Seq::empty()
    } else if last {
        "  "@
    } else {
        "│ "@
    })
}

/// The step that visits `m` when `n` messages were visited before it.
/// Only a message below the top level is drawn as a reply.
pub open spec fn visit_of(m: MessageView, level: int, prefix: Seq<char>, n: int, last: bool) -> Visit {
    Visit {
        message: m,
        index: n + 1,
        response: if level > 0 && n > 0 {
            Some(connector(prefix, n, last, m.replies.len() > 0))
        } else {
            None
        },
    }
}

/// The walk of the tree rooted at `m`, which is visited when `n` messages
/// were visited before it: `m` itself, then its replies.
pub open spec fn tree_visits(m: MessageView, level: int, prefix: Seq<char>, n: int, last: bool) -> Seq<
    Visit,
>
    decreases m, 0int,
{
    seq![visit_of(m, level, prefix, n, last)] + forest_visits(
        m.replies,
        level + 1,
        child_prefix(prefix, n, last),
        n + 1,
    )
}

/// The walk of sibling trees, left to right, each tree wholly before the
/// next.
pub open spec fn forest_visits(ms: Seq<MessageView>, level: int, prefix: Seq<char>, n: int) -> Seq<
    Visit,
>
    decreases ms, 1int,
{
    if ms.len() == 0 {
        Seq::empty()
    } else {
        tree_visits(ms[0], level, prefix, n, ms.len() == 1) + forest_visits(
            ms.drop_first(),
            level,
            prefix,
            n + tree_size(ms[0]),
        )
    }
}

/// The walk of a whole thread.
pub open spec fn thread_visits(t: ThreadView) -> Seq<Visit> {
    forest_visits(t.toplevel_messages, 0, Seq::empty(), 0)
}

/// The walk visits the messages in depth-first pre-order and numbers them
/// consecutively.
pub proof fn lemma_visits_numbered(ms: Seq<MessageView>, level: int, prefix: Seq<char>, n: int)
    ensures
        forest_visits(ms, level, prefix, n).len() == forest_size(ms),
        forest_preorder(ms).len() == forest_size(ms),
        forall|i: int|
            0 <= i < forest_size(ms) ==> {
                &&& (#[trigger] forest_visits(ms, level, prefix, n)[i]).index == n + i + 1
                &&& forest_visits(ms, level, prefix, n)[i].message == forest_preorder(ms)[i]
            },
    decreases ms,
{
    if ms.len() > 0 {
        let m = ms[0];
        let rest = ms.drop_first();
        let inner = forest_visits(m.replies, level + 1, child_prefix(prefix, n, ms.len() == 1), n + 1);
        let head = tree_visits(m, level, prefix, n, ms.len() == 1);
        let tail = forest_visits(rest, level, prefix, n + tree_size(m));
        lemma_visits_numbered(m.replies, level + 1, child_prefix(prefix, n, ms.len() == 1), n + 1);
        lemma_visits_numbered(rest, level, prefix, n + tree_size(m));
        assert(head == seq![head[0]] + inner);
        assert(head.len() == 1 + inner.len());
        assert(tree_size(m) == 1 + forest_size(m.replies));
        assert(preorder(m) == seq![m] + forest_preorder(m.replies));
        assert(forest_preorder(ms) == preorder(m) + forest_preorder(rest));
        assert(forest_size(ms) == tree_size(m) + forest_size(rest));
        assert(forest_visits(ms, level, prefix, n) == head + tail);
        assert forall|i: int| 0 <= i < forest_size(ms) implies {
            &&& (#[trigger] forest_visits(ms, level, prefix, n)[i]).index == n + i + 1
            &&& forest_visits(ms, level, prefix, n)[i].message == forest_preorder(ms)[i]
        } by {
            if i == 0 {
                assert(head[0].index == n + 1);
            } else if i < tree_size(m) {
                assert(head[i] == inner[i - 1]);
                assert(preorder(m)[i] == forest_preorder(m.replies)[i - 1]);
            } else {
                assert((head + tail)[i] == tail[i - tree_size(m)]);
                assert(forest_preorder(ms)[i] == forest_preorder(rest)[i - tree_size(m)]);
            }
        }
    }
}

impl RuntimeView {
    /// The record of one step of the walk: a step with a connector is
    /// rendered from the reply template, every other from the entry
    /// template.
    pub open spec fn visit_record(self, v: Visit, total: i32) -> Result<ShowView, Error> {
        self.message_record(
            if v.response is Some {
                self.reply_template()
            } else {
                self.entry_template()
            },
            v.message,
            v.response,
            v.index as i32,
            total,
        )
    }
}

/// The records of a walk, one per step and in its order, or the error of
/// the first step that cannot be rendered.
pub open spec fn records(rt: RuntimeView, visits: Seq<Visit>, total: i32) -> Result<
    Seq<ShowView>,
    Error,
>
    decreases visits.len(),
{
    if visits.len() == 0 {
        Ok(Seq::empty())
    } else {
        match records(rt, visits.drop_last(), total) {
            Err(e) => Err(e),
            Ok(shows) => match rt.visit_record(visits.last(), total) {
                Err(e) => Err(e),
                Ok(show) => Ok(shows.push(show)),
            },
        }
    }
}

/// The records of a thread's full tree.
pub open spec fn tree_records(rt: RuntimeView, t: ThreadView) -> Result<Seq<ShowView>, Error> {
    records(rt, thread_visits(t), t.total_messages)
}

/// The records that a walk reaches: all of them where it succeeds, and
/// where a step cannot be rendered, the records of the steps before the
/// first such step.
pub open spec fn records_reached(rt: RuntimeView, visits: Seq<Visit>, total: i32) -> Seq<ShowView>
    decreases visits.len(),
{
    if visits.len() == 0 {
        Seq::empty()
    } else {
        match records(rt, visits.drop_last(), total) {
            Err(_) => records_reached(rt, visits.drop_last(), total),
            Ok(shows) => match rt.visit_record(visits.last(), total) {
                Err(_) => shows,
                Ok(show) => shows.push(show),
            },
        }
    }
}

/// A walk that succeeds reaches all its records.
pub proof fn lemma_reached_all(rt: RuntimeView, visits: Seq<Visit>, total: i32)
    requires
        records(rt, visits, total) is Ok,
    ensures
        records_reached(rt, visits, total) == records(rt, visits, total)->Ok_0,
{
}

/// What two walks in a row reach: all of the first and what the second
/// reaches, or, where the first fails, what the first reaches.
pub proof fn lemma_reached_append(rt: RuntimeView, a: Seq<Visit>, b: Seq<Visit>, total: i32)
    ensures
        records_reached(rt, a + b, total) == match records(rt, a, total) {
            Err(_) => records_reached(rt, a, total),
            Ok(first) => first + records_reached(rt, b, total),
        },
    decreases b.len(),
{
    if b.len() == 0 {
        assert(a + b =~= a);
        if records(rt, a, total) is Ok {
            lemma_reached_all(rt, a, total);
            assert(records(rt, a, total)->Ok_0 + Seq::<ShowView>::empty() =~= records(
                rt,
                a,
                total,
            )->Ok_0);
        }
    } else {
        lemma_reached_append(rt, a, b.drop_last(), total);
        lemma_records_append(rt, a, b.drop_last(), total);
        assert((a + b).drop_last() =~= a + b.drop_last());
        assert((a + b).last() == b.last());
        match (records(rt, a, total), records(rt, b.drop_last(), total)) {
            (Ok(first), Ok(second)) => {
                match rt.visit_record(b.last(), total) {
                    Ok(show) => {
                        assert((first + second).push(show) =~= first + second.push(show));
                    },
                    Err(_) => {},
                }
            },
            _ => {},
        }
    }
}

/// The records of two walks in a row: those of the first, then those of
/// the second; an error in the first hides the second.
pub proof fn lemma_records_append(rt: RuntimeView, a: Seq<Visit>, b: Seq<Visit>, total: i32)
    ensures
        records(rt, a + b, total) == match records(rt, a, total) {
            Err(e) => Err::<Seq<ShowView>, Error>(e),
            Ok(first) => match records(rt, b, total) {
                Err(e) => Err(e),
                Ok(second) => Ok(first + second),
            },
        },
    decreases b.len(),
{
    if b.len() == 0 {
        assert(a + b =~= a);
        if records(rt, a, total) is Ok {
            assert(records(rt, a, total)->Ok_0 + Seq::<ShowView>::empty() =~= records(
                rt,
                a,
                total,
            )->Ok_0);
        }
    } else {
        lemma_records_append(rt, a, b.drop_last(), total);
        assert((a + b).drop_last() =~= a + b.drop_last());
        assert((a + b).last() == b.last());
        match (records(rt, a, total), records(rt, b.drop_last(), total)) {
            (Ok(first), Ok(second)) => {
                match rt.visit_record(b.last(), total) {
                    Ok(show) => {
                        assert((first + second).push(show) =~= first + second.push(show));
                    },
                    Err(_) => {},
                }
            },
            _ => {},
        }
    }
}

/// The records of a walk that succeeds are as many as its steps, and each
/// is the record of its step.
pub proof fn lemma_records_pointwise(rt: RuntimeView, visits: Seq<Visit>, total: i32)
    requires
        records(rt, visits, total) is Ok,
    ensures
        records(rt, visits, total)->Ok_0.len() == visits.len(),
        forall|i: int|
            0 <= i < visits.len() ==> rt.visit_record(#[trigger] visits[i], total) == Ok::<
                ShowView,
                Error,
            >(records(rt, visits, total)->Ok_0[i]),
    decreases visits.len(),
{
    if visits.len() > 0 {
        lemma_records_pointwise(rt, visits.drop_last(), total);
        assert forall|i: int| 0 <= i < visits.len() implies rt.visit_record(
            #[trigger] visits[i],
            total,
        ) == Ok::<ShowView, Error>(records(rt, visits, total)->Ok_0[i]) by {
            if i < visits.len() - 1 {
                assert(visits.drop_last()[i] == visits[i]);
            }
        }
    }
}

/// The walk of sibling trees, taken apart: the first root, the walk below
/// it, and the walk of the siblings that follow.
pub proof fn lemma_forest_step(ms: Seq<MessageView>, level: int, prefix: Seq<char>, n: int)
    requires
        ms.len() > 0,
    ensures
        forest_visits(ms, level, prefix, n) == (seq![
            visit_of(ms[0], level, prefix, n, ms.len() == 1),
        ] + forest_visits(
            ms[0].replies,
            level + 1,
            child_prefix(prefix, n, ms.len() == 1),
            n + 1,
        )) + forest_visits(ms.drop_first(), level, prefix, n + tree_size(ms[0])),
        forest_size(ms) == 1 + forest_size(ms[0].replies) + forest_size(ms.drop_first()),
        tree_size(ms[0]) == 1 + forest_size(ms[0].replies),
{
    let last = ms.len() == 1;
    assert(tree_visits(ms[0], level, prefix, n, last) == seq![
        visit_of(ms[0], level, prefix, n, last),
    ] + forest_visits(ms[0].replies, level + 1, child_prefix(prefix, n, last), n + 1));
    assert(tree_size(ms[0]) == 1 + forest_size(ms[0].replies));
    assert(forest_size(ms) == tree_size(ms[0]) + forest_size(ms.drop_first()));
}

/// One round of the walk: the records so far, then the record of the next
/// step, then the records below it; the first error is the error of the
/// whole walk, and the walk reaches the records before it.
pub proof fn lemma_walk_step(
    rt: RuntimeView,
    done: Seq<Visit>,
    v: Visit,
    inner: Seq<Visit>,
    after: Seq<Visit>,
    total: i32,
)
    requires
        records(rt, done, total) is Ok,
    ensures
        ({
            let whole = ((done + seq![v]) + inner) + after;
            let first = records(rt, done, total)->Ok_0;
            match rt.visit_record(v, total) {
                Err(e) => {
                    &&& records(rt, whole, total) == Err::<Seq<ShowView>, Error>(e)
                    &&& records_reached(rt, whole, total) == first
                },
                Ok(show) => {
                    &&& records(rt, done + seq![v], total) == Ok::<Seq<ShowView>, Error>(
                        first.push(show),
                    )
                    &&& match records(rt, inner, total) {
                        Err(e) => {
                            &&& records(rt, whole, total) == Err::<Seq<ShowView>, Error>(e)
                            &&& records_reached(rt, whole, total) == first.push(show)
                                + records_reached(rt, inner, total)
                        },
                        Ok(below) => records(rt, (done + seq![v]) + inner, total) == Ok::<
                            Seq<ShowView>,
                            Error,
                        >(first.push(show) + below),
                    }
                },
            }
        }),
{
    assert((done + seq![v]).drop_last() =~= done);
    assert((done + seq![v]).last() == v);
    lemma_records_append(rt, done + seq![v], inner, total);
    lemma_records_append(rt, (done + seq![v]) + inner, after, total);
    lemma_reached_append(rt, done + seq![v], inner, total);
    lemma_reached_append(rt, (done + seq![v]) + inner, after, total);
}

/// A copy of `prefix` with `more` appended.
fn extended(prefix: &Vec<char>, more: &str) -> (out: Vec<char>)
    ensures
        out@ == prefix@ + more@,
{
    let mut out: Vec<char> = Vec::new();
    push_all(&mut out, prefix);
    push_all(&mut out, &chars_of(more));
    out
}

/// The connector of a message.
fn connector_chars(prefix: &Vec<char>, n: i32, last: bool, has_replies: bool) -> (out: Vec<char>)
    ensures
        out@ == connector(prefix@, n as int, last, has_replies),
{
    let elbow = if n == 0 {
        extended(prefix, "")
    } else if last {
        extended(prefix, "└─")
    } else {
        extended(prefix, "├─")
    };
    proof {
        reveal_strlit("");
        assert(prefix@ + ""@ =~= prefix@ + Seq::<char>::empty());
    }
    if has_replies {
        extended(&elbow, "┬")
    } else {
        extended(&elbow, "─")
    }
}

/// The prefix that a message hands down to its replies.
fn child_prefix_chars(prefix: &Vec<char>, n: i32, last: bool) -> (out: Vec<char>)
    ensures
        out@ == child_prefix(prefix@, n as int, last),
{
    proof {
        reveal_strlit("");
        assert(prefix@ + ""@ =~= prefix@ + Seq::<char>::empty());
    }
    if n == 0 {
        extended(prefix, "")
    } else if last {
        extended(prefix, "  ")
    } else {
        extended(prefix, "│ ")
    }
}

impl Runtime {
    /// The record of the step that visits `message`.
    fn visit_message(
        &self,
        entry: &Option<Parsed>,
        reply: &Option<Parsed>,
        message: &Message,
        level: i32,
        prestring: &Vec<char>,
        n: i32,
        last: bool,
        total: i32,
    ) -> (out: Result<Show, Error>)
        requires
            entry.deep_view() == self@.entry_template(),
            reply.deep_view() == self@.reply_template(),
            0 <= n < i32::MAX,
        ensures
            show_of(out) == self@.visit_record(
                visit_of(message@, level as int, prestring@, n as int, last),
                total,
            ),
    {
        proof {
            lemma_replies_view(message);
        }
        let has_replies = message.replies.len() > 0;
        if level > 0 && n > 0 {
            let response = Some(string_of(&connector_chars(prestring, n, last, has_replies)));
            self.message_record(reply, message, response, n + 1, total)
        } else {
            self.message_record(entry, message, None, n + 1, total)
        }
    }

    /// Walks sibling trees and appends one record per message to `vec`.
    /// Returns the number of messages visited so far in the thread. Where
    /// a message cannot be rendered the walk ends there: `vec` then holds,
    /// behind what it held, the records of the messages before that one,
    /// and no record of that one or of any later message.
    fn show_message_tree(
        &self,
        entry: &Option<Parsed>,
        reply: &Option<Parsed>,
        messages: &Vec<Message>,
        level: i32,
        prestring: &Vec<char>,
        num: i32,
        total: i32,
        vec: &mut Vec<Show>,
    ) -> (out: Result<i32, Error>)
        requires
            entry.deep_view() == self@.entry_template(),
            reply.deep_view() == self@.reply_template(),
            0 <= level <= num,
            num + forest_size(messages.deep_view()) <= i32::MAX,
        ensures
            final(vec).deep_view() == old(vec).deep_view() + records_reached(
                self@,
                forest_visits(messages.deep_view(), level as int, prestring@, num as int),
                total,
            ),
            match out {
                Ok(n) => {
                    &&& n == num + forest_size(messages.deep_view())
                    &&& records(
                        self@,
                        forest_visits(messages.deep_view(), level as int, prestring@, num as int),
                        total,
                    ) matches Ok(shows)
                    &&& final(vec).deep_view() == old(vec).deep_view() + shows
                },
                Err(e) => records(
                    self@,
                    forest_visits(messages.deep_view(), level as int, prestring@, num as int),
                    total,
                ) == Err::<Seq<ShowView>, Error>(e),
            },
        decreases messages,
    {
        let ghost forest = messages.deep_view();
        let ghost all = forest_visits(forest, level as int, prestring@, num as int);
        let ghost mut done: Seq<Visit> = Seq::empty();
        let mut n: i32 = num;
        let mut j: usize = 0;
        proof {
            lemma_deep_view(messages);
            assert(forest.skip(0) =~= forest);
            assert(done + all =~= all);
            assert(old(vec).deep_view() + Seq::<ShowView>::empty() =~= old(vec).deep_view());
        }
        while j < messages.len()
            invariant
                j <= messages.len(),
                forest == messages.deep_view(),
                forest.len() == messages.len(),
                entry.deep_view() == self@.entry_template(),
                reply.deep_view() == self@.reply_template(),
                0 <= level <= num <= n,
                num + forest_size(forest) <= i32::MAX,
                n + forest_size(forest.skip(j as int)) == num + forest_size(forest),
                all == forest_visits(forest, level as int, prestring@, num as int),
                all == done + forest_visits(forest.skip(j as int), level as int, prestring@, n as int),
                records(self@, done, total) matches Ok(shows) && vec.deep_view() == old(
                    vec,
                ).deep_view() + shows,
            decreases messages.len() - j,
        {
            let message = &messages[j];
            let last = j + 1 == messages.len();
            let ghost rest = forest.skip(j as int);
            let ghost m = message@;
            let ghost visit = visit_of(m, level as int, prestring@, n as int, last);
            let ghost below = child_prefix(prestring@, n as int, last);
            let ghost inner = forest_visits(m.replies, level + 1, below, n + 1);
            let ghost after = forest_visits(
                rest.drop_first(),
                level as int,
                prestring@,
                n + tree_size(m),
            );
            let ghost first = records(self@, done, total)->Ok_0;
            proof {
                lemma_deep_view(messages);
                lemma_replies_view(message);
                assert(rest[0] == m);
                assert(rest.drop_first() =~= forest.skip(j + 1));
                lemma_forest_step(rest, level as int, prestring@, n as int);
                lemma_walk_step(self@, done, visit, inner, after, total);
                assert(all =~= ((done + seq![visit]) + inner) + after);
            }
            let ghost shown = vec.deep_view();
            match self.visit_message(entry, reply, message, level, prestring, n, last, total) {
                Err(e) => {
                    return Err(e);
                },
                Ok(show) => {
                    vec.push(show);
                    assert(vec.deep_view() =~= shown.push(show@));
                    assert(shown.push(show@) =~= old(vec).deep_view() + first.push(show@));
                },
            }
            let newstring = child_prefix_chars(prestring, n, last);
            match self.show_message_tree(
                entry,
                reply,
                &message.replies,
                level + 1,
                &newstring,
                n + 1,
                total,
                vec,
            ) {
                Err(e) => {
                    return Err(e);
                },
                Ok(k) => {
                    n = k;
                },
            }
            proof {
                let second = records(self@, inner, total)->Ok_0;
                assert(vec.deep_view() =~= old(vec).deep_view() + (first.push(
                    self@.visit_record(visit, total)->Ok_0,
                ) + second));
                done = (done + seq![visit]) + inner;
            }
            j = j + 1;
        }
        proof {
            assert(forest.skip(messages.len() as int) =~= Seq::<MessageView>::empty());
            assert(done + Seq::<Visit>::empty() =~= done);
        }
        Ok(n)
    }

    /// Renders the full tree of one thread: one record per message, in
    /// depth-first pre-order. Top-level messages and the first message are
    /// rendered from the entry template, replies from the reply template
    /// with their connector as `response`. The first message that cannot be
    /// rendered ends the walk with its error.
    pub fn render_tree(&self, thread: &Thread) -> (out: Result<Vec<Show>, Error>)
        requires
            forest_size(thread@.toplevel_messages) <= i32::MAX,
        ensures
            shows_of(out) == tree_records(self@, thread@),
    {
        let entry = parse(self.templ.regex.as_str(), self.templ.templ_message.as_str());
        let reply = parse(self.templ.regex.as_str(), self.templ.templ_respons.as_str());
        let mut vec: Vec<Show> = Vec::new();
        let prestring: Vec<char> = Vec::new();
        assert(vec.deep_view() =~= Seq::<ShowView>::empty());
        assert(prestring@ =~= Seq::<char>::empty());
        match self.show_message_tree(
            &entry,
            &reply,
            &thread.toplevel_messages,
            0,
            &prestring,
            0,
            thread.total_messages,
            &mut vec,
        ) {
            Ok(_) => {
                assert(vec.deep_view() =~= tree_records(self@, thread@)->Ok_0);
                Ok(vec)
            },
            Err(e) => Err(e),
        }
    }
}

/// The first step of a walk whose message is matched.
pub open spec fn first_matched(visits: Seq<Visit>) -> Option<Visit>
    decreases visits.len(),
{
    if visits.len() == 0 {
        None
    } else if visits[0].message.matched {
        Some(visits[0])
    } else {
        first_matched(visits.drop_first())
    }
}

/// The record of the first matched message of a thread, if it has one.
/// No other message is rendered, so no other message can fail.
pub open spec fn single_record(rt: RuntimeView, t: ThreadView) -> Result<Option<ShowView>, Error> {
    match first_matched(thread_visits(t)) {
        None => Ok(None),
        Some(v) => match rt.visit_record(v, t.total_messages) {
            Ok(show) => Ok(Some(show)),
            Err(e) => Err(e),
        },
    }
}

/// The first matched step of two walks in a row is that of the first
/// walk, or else that of the second.
pub proof fn lemma_first_matched_append(a: Seq<Visit>, b: Seq<Visit>)
    ensures
        first_matched(a + b) == if first_matched(a) is Some {
            first_matched(a)
        } else {
            first_matched(b)
        },
    decreases a.len(),
{
    if a.len() == 0 {
        assert(a + b =~= b);
    } else {
        assert((a + b)[0] == a[0]);
        assert((a + b).drop_first() =~= a.drop_first() + b);
        lemma_first_matched_append(a.drop_first(), b);
    }
}

/// The first matched step is the earliest step with a matched message,
/// and there is one as soon as any message is matched.
pub proof fn lemma_first_matched(visits: Seq<Visit>)
    ensures
        match first_matched(visits) {
            Some(v) => exists|k: int|
                {
                    &&& 0 <= k < visits.len()
                    &&& #[trigger] visits[k] == v
                    &&& v.message.matched
                    &&& forall|j: int| 0 <= j < k ==> !(#[trigger] visits[j]).message.matched
                },
            None => forall|j: int| 0 <= j < visits.len() ==> !(#[trigger] visits[j]).message.matched,
        },
    decreases visits.len(),
{
    if visits.len() > 0 {
        if visits[0].message.matched {
            assert(visits[0] == first_matched(visits)->0);
        } else {
            let rest = visits.drop_first();
            lemma_first_matched(rest);
            match first_matched(rest) {
                Some(v) => {
                    let k = choose|k: int|
                        {
                            &&& 0 <= k < rest.len()
                            &&& #[trigger] rest[k] == v
                            &&& v.message.matched
                            &&& forall|j: int| 0 <= j < k ==> !(#[trigger] rest[j]).message.matched
                        };
                    assert(visits[k + 1] == v);
                    assert forall|j: int| 0 <= j < k + 1 implies !(
                    #[trigger] visits[j]).message.matched by {
                        if j > 0 {
                            assert(visits[j] == rest[j - 1]);
                        }
                    }
                },
                None => {
                    assert forall|j: int| 0 <= j < visits.len() implies !(
                    #[trigger] visits[j]).message.matched by {
                        if j > 0 {
                            assert(visits[j] == rest[j - 1]);
                        }
                    }
                },
            }
        }
    }
}

/// One round of the search for the first matched message.
pub proof fn lemma_single_step(done: Seq<Visit>, v: Visit, inner: Seq<Visit>, after: Seq<Visit>)
    requires
        first_matched(done) is None,
    ensures
        first_matched(((done + seq![v]) + inner) + after) == if v.message.matched {
            Some(v)
        } else if first_matched(inner) is Some {
            first_matched(inner)
        } else {
            first_matched(after)
        },
        first_matched((done + seq![v]) + inner) == if v.message.matched {
            Some(v)
        } else {
            first_matched(inner)
        },
{
    lemma_first_matched_append(done, seq![v]);
    lemma_first_matched_append(done + seq![v], inner);
    lemma_first_matched_append((done + seq![v]) + inner, after);
    assert(seq![v].drop_first() =~= Seq::<Visit>::empty());
    assert(seq![v][0] == v);
    assert(first_matched(Seq::<Visit>::empty()) is None);
    assert(first_matched(seq![v]) == if v.message.matched {
        Some(v)
    } else {
        None
    });
}

/// How the search for the first matched message ended below some point of
/// the tree.
enum Single {
    /// The record of the first matched message.
    Found(Show),
    /// No message is matched; the number of messages visited so far.
    Passed(i32),
}

impl Runtime {
    /// Walks sibling trees up to the first matched message and renders
    /// that one.
    fn show_message_tree_single(
        &self,
        entry: &Option<Parsed>,
        reply: &Option<Parsed>,
        messages: &Vec<Message>,
        level: i32,
        prestring: &Vec<char>,
        num: i32,
        total: i32,
    ) -> (out: Result<Single, Error>)
        requires
            entry.deep_view() == self@.entry_template(),
            reply.deep_view() == self@.reply_template(),
            0 <= level <= num,
            num + forest_size(messages.deep_view()) <= i32::MAX,
        ensures
            ({
                let first = first_matched(
                    forest_visits(messages.deep_view(), level as int, prestring@, num as int),
                );
                match out {
                    Ok(Single::Found(show)) => first matches Some(v) && self@.visit_record(v, total)
                        == Ok::<ShowView, Error>(show@),
                    Ok(Single::Passed(n)) => first is None && n == num + forest_size(
                        messages.deep_view(),
                    ),
                    Err(e) => first matches Some(v) && self@.visit_record(v, total) == Err::<
                        ShowView,
                        Error,
                    >(e),
                }
            }),
        decreases messages,
    {
        let ghost forest = messages.deep_view();
        let ghost all = forest_visits(forest, level as int, prestring@, num as int);
        let ghost mut done: Seq<Visit> = Seq::empty();
        let mut n: i32 = num;
        let mut j: usize = 0;
        proof {
            lemma_deep_view(messages);
            assert(forest.skip(0) =~= forest);
            assert(done + all =~= all);
        }
        while j < messages.len()
            invariant
                j <= messages.len(),
                forest == messages.deep_view(),
                forest.len() == messages.len(),
                entry.deep_view() == self@.entry_template(),
                reply.deep_view() == self@.reply_template(),
                0 <= level <= num <= n,
                num + forest_size(forest) <= i32::MAX,
                n + forest_size(forest.skip(j as int)) == num + forest_size(forest),
                all == forest_visits(forest, level as int, prestring@, num as int),
                all == done + forest_visits(forest.skip(j as int), level as int, prestring@, n as int),
                first_matched(done) is None,
            decreases messages.len() - j,
        {
            let message = &messages[j];
            let last = j + 1 == messages.len();
            let ghost rest = forest.skip(j as int);
            let ghost m = message@;
            let ghost visit = visit_of(m, level as int, prestring@, n as int, last);
            let ghost below = child_prefix(prestring@, n as int, last);
            let ghost inner = forest_visits(m.replies, level + 1, below, n + 1);
            let ghost after = forest_visits(
                rest.drop_first(),
                level as int,
                prestring@,
                n + tree_size(m),
            );
            proof {
                lemma_deep_view(messages);
                lemma_replies_view(message);
                assert(rest[0] == m);
                assert(rest.drop_first() =~= forest.skip(j + 1));
                lemma_forest_step(rest, level as int, prestring@, n as int);
                lemma_single_step(done, visit, inner, after);
                assert(all =~= ((done + seq![visit]) + inner) + after);
            }
            if message.matched {
                return match self.visit_message(entry, reply, message, level, prestring, n, last, total) {
                    Ok(show) => Ok(Single::Found(show)),
                    Err(e) => Err(e),
                };
            }
            let newstring = child_prefix_chars(prestring, n, last);
            match self.show_message_tree_single(
                entry,
                reply,
                &message.replies,
                level + 1,
                &newstring,
                n + 1,
                total,
            ) {
                Err(e) => {
                    return Err(e);
                },
                Ok(Single::Found(show)) => {
                    return Ok(Single::Found(show));
                },
                Ok(Single::Passed(k)) => {
                    n = k;
                },
            }
            proof {
                done = (done + seq![visit]) + inner;
            }
            j = j + 1;
        }
        proof {
            assert(forest.skip(messages.len() as int) =~= Seq::<MessageView>::empty());
            assert(done + Seq::<Visit>::empty() =~= done);
        }
        Ok(Single::Passed(n))
    }

    /// Renders the first matched message of one thread, in depth-first
    /// pre-order, as it stands in the full tree; `None` when no message
    /// of the thread is matched.
    pub fn render_single(&self, thread: &Thread) -> (out: Result<Option<Show>, Error>)
        requires
            forest_size(thread@.toplevel_messages) <= i32::MAX,
        ensures
            match out {
                Ok(Some(show)) => single_record(self@, thread@) == Ok::<Option<ShowView>, Error>(
                    Some(show@),
                ),
                Ok(None) => single_record(self@, thread@) == Ok::<Option<ShowView>, Error>(None),
                Err(e) => single_record(self@, thread@) == Err::<Option<ShowView>, Error>(e),
            },
    {
        let entry = parse(self.templ.regex.as_str(), self.templ.templ_message.as_str());
        let reply = parse(self.templ.regex.as_str(), self.templ.templ_respons.as_str());
        let prestring: Vec<char> = Vec::new();
        assert(prestring@ =~= Seq::<char>::empty());
        match self.show_message_tree_single(
            &entry,
            &reply,
            &thread.toplevel_messages,
            0,
            &prestring,
            0,
            thread.total_messages,
        ) {
            Ok(Single::Found(show)) => Ok(Some(show)),
            Ok(Single::Passed(_)) => Ok(None),
            Err(e) => Err(e),
        }
    }
}

/// The full trees of the first `n` threads, one list of records per
/// thread, or the error of the first thread that cannot be rendered.
pub open spec fn all_tree_records(rt: RuntimeView, threads: Seq<ThreadView>, n: nat) -> Result<
    Seq<Seq<ShowView>>,
    Error,
>
    decreases n,
{
    if n == 0 {
        Ok(Seq::empty())
    } else {
        match all_tree_records(rt, threads, (n - 1) as nat) {
            Err(e) => Err(e),
            Ok(trees) => match tree_records(rt, threads[n - 1]) {
                Err(e) => Err(e),
                Ok(tree) => Ok(trees.push(tree)),
            },
        }
    }
}

/// The first matched messages of the first `n` threads, one record for
/// each thread that has a matched message, or the error of the first
/// thread whose record cannot be rendered.
pub open spec fn all_single_records(rt: RuntimeView, threads: Seq<ThreadView>, n: nat) -> Result<
    Seq<ShowView>,
    Error,
>
    decreases n,
{
    if n == 0 {
        Ok(Seq::empty())
    } else {
        match all_single_records(rt, threads, (n - 1) as nat) {
            Err(e) => Err(e),
            Ok(shows) => match single_record(rt, threads[n - 1]) {
                Err(e) => Err(e),
                Ok(Some(show)) => Ok(shows.push(show)),
                Ok(None) => Ok(shows),
            },
        }
    }
}

proof fn lemma_trees_error(rt: RuntimeView, threads: Seq<ThreadView>, i: nat, n: nat)
    requires
        i < n,
        all_tree_records(rt, threads, i) is Ok,
        tree_records(rt, threads[i as int]) is Err,
    ensures
        all_tree_records(rt, threads, n) == Err::<Seq<Seq<ShowView>>, Error>(
            tree_records(rt, threads[i as int])->Err_0,
        ),
    decreases n,
{
    if n > i + 1 {
        lemma_trees_error(rt, threads, i, (n - 1) as nat);
    }
}

proof fn lemma_singles_error(rt: RuntimeView, threads: Seq<ThreadView>, i: nat, n: nat)
    requires
        i < n,
        all_single_records(rt, threads, i) is Ok,
        single_record(rt, threads[i as int]) is Err,
    ensures
        all_single_records(rt, threads, n) == Err::<Seq<ShowView>, Error>(
            single_record(rt, threads[i as int])->Err_0,
        ),
    decreases n,
{
    if n > i + 1 {
        lemma_singles_error(rt, threads, i, (n - 1) as nat);
    }
}

/// The views of lists of records.
pub open spec fn tables_of(out: Result<Vec<Vec<Show>>, Error>) -> Result<Seq<Seq<ShowView>>, Error> {
    match out {
        Ok(tables) => Ok(tables.deep_view()),
        Err(e) => Err(e),
    }
}

impl Runtime {
    /// The full tree of every thread, in the order given: one list of
    /// records per thread. The first message that cannot be rendered ends
    /// the run with its error.
    pub fn show_thread_tree(&self, threads: &Vec<Thread>) -> (out: Result<Vec<Vec<Show>>, Error>)
        requires
            forall|i: int|
                0 <= i < threads.len() ==> forest_size(
                    (#[trigger] threads[i])@.toplevel_messages,
                ) <= i32::MAX,
        ensures
            tables_of(out) == all_tree_records(self@, threads.deep_view(), threads.len() as nat),
    {
        let mut trees: Vec<Vec<Show>> = Vec::new();
        assert(trees.deep_view() =~= Seq::<Seq<ShowView>>::empty());
        let mut i: usize = 0;
        while i < threads.len()
            invariant
                i <= threads.len(),
                forall|k: int|
                    0 <= k < threads.len() ==> forest_size(
                        (#[trigger] threads[k])@.toplevel_messages,
                    ) <= i32::MAX,
                all_tree_records(self@, threads.deep_view(), i as nat) == Ok::<
                    Seq<Seq<ShowView>>,
                    Error,
                >(trees.deep_view()),
            decreases threads.len() - i,
        {
            assert(threads.deep_view()[i as int] == threads[i as int]@);
            match self.render_tree(&threads[i]) {
                Ok(tree) => {
                    let ghost before = trees.deep_view();
                    let ghost shown = tree.deep_view();
                    trees.push(tree);
                    assert(trees.deep_view() =~= before.push(shown));
                },
                Err(e) => {
                    proof {
                        lemma_trees_error(self@, threads.deep_view(), i as nat, threads.len() as nat);
                    }
                    return Err(e);
                },
            }
            i = i + 1;
        }
        Ok(trees)
    }

    /// The first matched message of every thread that has one, in the
    /// order of the threads. The first record that cannot be rendered ends
    /// the run with its error.
    pub fn show_thread_single(&self, threads: &Vec<Thread>) -> (out: Result<Vec<Show>, Error>)
        requires
            forall|i: int|
                0 <= i < threads.len() ==> forest_size(
                    (#[trigger] threads[i])@.toplevel_messages,
                ) <= i32::MAX,
        ensures
            shows_of(out) == all_single_records(self@, threads.deep_view(), threads.len() as nat),
    {
        let mut shows: Vec<Show> = Vec::new();
        assert(shows.deep_view() =~= Seq::<ShowView>::empty());
        let mut i: usize = 0;
        while i < threads.len()
            invariant
                i <= threads.len(),
                forall|k: int|
                    0 <= k < threads.len() ==> forest_size(
                        (#[trigger] threads[k])@.toplevel_messages,
                    ) <= i32::MAX,
                all_single_records(self@, threads.deep_view(), i as nat) == Ok::<
                    Seq<ShowView>,
                    Error,
                >(shows.deep_view()),
            decreases threads.len() - i,
        {
            assert(threads.deep_view()[i as int] == threads[i as int]@);
            match self.render_single(&threads[i]) {
                Ok(Some(show)) => {
                    let ghost before = shows.deep_view();
                    shows.push(show);
                    assert(shows.deep_view() =~= before.push(show@));
                },
                Ok(None) => {},
                Err(e) => {
                    proof {
                        lemma_singles_error(
                            self@,
                            threads.deep_view(),
                            i as nat,
                            threads.len() as nat,
                        );
                    }
                    return Err(e);
                },
            }
            i = i + 1;
        }
        Ok(shows)
    }
}

/// The full-tree renderer emits one record per message of the thread, in
/// depth-first pre-order, and numbers the messages from one upwards: the
/// `i`-th record is that of the `i`-th message in pre-order, rendered at
/// position `i + 1`. Where the thread's count agrees with its trees, the
/// records are as many as the count says and every position lies between
/// one and the count.
pub proof fn lemma_tree_records_numbered(rt: RuntimeView, t: ThreadView)
    requires
        tree_records(rt, t) is Ok,
    ensures
        tree_records(rt, t)->Ok_0.len() == forest_size(t.toplevel_messages),
        thread_visits(t).len() == forest_size(t.toplevel_messages),
        forest_preorder(t.toplevel_messages).len() == forest_size(t.toplevel_messages),
        t.counts_agree() ==> tree_records(rt, t)->Ok_0.len() == t.total_messages,
        forall|i: int|
            0 <= i < forest_size(t.toplevel_messages) ==> {
                let visit = #[trigger] thread_visits(t)[i];
                &&& visit.index == i + 1
                &&& visit.message == forest_preorder(t.toplevel_messages)[i]
                &&& rt.visit_record(visit, t.total_messages) == Ok::<ShowView, Error>(
                    tree_records(rt, t)->Ok_0[i],
                )
                &&& tree_records(rt, t)->Ok_0[i].id == forest_preorder(t.toplevel_messages)[i].id
                &&& t.counts_agree() ==> 1 <= visit.index <= t.total_messages
            },
        forall|i: int, j: int|
            0 <= i < j < forest_size(t.toplevel_messages) ==> (#[trigger] thread_visits(t)[i]).index
                < (#[trigger] thread_visits(t)[j]).index,
{
    lemma_visits_numbered(t.toplevel_messages, 0, Seq::empty(), 0);
    lemma_records_pointwise(rt, thread_visits(t), t.total_messages);
}

/// The single-match renderer emits the first matched message in
/// depth-first pre-order: when it emits a record, that record is the one
/// of the earliest matched message of the walk; it emits none only when no
/// message of the thread is matched.
pub proof fn lemma_single_first_match(rt: RuntimeView, t: ThreadView)
    ensures
        ({
            let pre = forest_preorder(t.toplevel_messages);
            let visits = thread_visits(t);
            &&& visits.len() == pre.len()
            &&& single_record(rt, t) == Ok::<Option<ShowView>, Error>(None) <==> forall|j: int|
                0 <= j < pre.len() ==> !(#[trigger] pre[j]).matched
            &&& single_record(rt, t) matches Ok(Some(show)) ==> exists|k: int|
                {
                    &&& 0 <= k < pre.len()
                    &&& (#[trigger] pre[k]).matched
                    &&& forall|j: int| 0 <= j < k ==> !(#[trigger] pre[j]).matched
                    &&& show.id == pre[k].id
                    &&& rt.visit_record(visits[k], t.total_messages) == Ok::<ShowView, Error>(show)
                    &&& visits[k].index == k + 1
                }
        }),
{
    let pre = forest_preorder(t.toplevel_messages);
    let visits = thread_visits(t);
    lemma_visits_numbered(t.toplevel_messages, 0, Seq::empty(), 0);
    lemma_first_matched(visits);
    assert forall|j: int| 0 <= j < pre.len() implies (#[trigger] pre[j]).matched
        == visits[j].message.matched by {
        assert(visits[j].message == pre[j]);
    }
    match first_matched(visits) {
        Some(v) => {
            let k = choose|k: int|
                {
                    &&& 0 <= k < visits.len()
                    &&& #[trigger] visits[k] == v
                    &&& v.message.matched
                    &&& forall|j: int| 0 <= j < k ==> !(#[trigger] visits[j]).message.matched
                };
            assert(pre[k].matched);
            assert forall|j: int| 0 <= j < k implies !(#[trigger] pre[j]).matched by {
                assert(!visits[j].message.matched);
            }
            if single_record(rt, t) is Ok {
                assert(single_record(rt, t)->Ok_0 is Some);
                let show = single_record(rt, t)->Ok_0->0;
                assert(show.id == pre[k].id);
            }
        },
        None => {
            assert forall|j: int| 0 <= j < pre.len() implies !(#[trigger] pre[j]).matched by {
                assert(!visits[j].message.matched);
            }
        },
    }
}

/// Rendering is repeatable: two runs of a renderer on the same thread
/// under the same configuration give the same records, character for
/// character, or the same error.
pub proof fn lemma_rendering_repeatable(
    rt: RuntimeView,
    t: ThreadView,
    first: Result<Vec<Show>, Error>,
    second: Result<Vec<Show>, Error>,
)
    requires
        shows_of(first) == tree_records(rt, t),
        shows_of(second) == tree_records(rt, t),
    ensures
        shows_of(first) == shows_of(second),
        first matches Ok(a) ==> second matches Ok(b) && a.len() == b.len() && forall|i: int|
            0 <= i < a.len() ==> {
                &&& (#[trigger] a[i]).id@ == b[i].id@
                &&& a[i].entry@ == b[i].entry@
                &&& a[i].highlight == b[i].highlight
            },
{
    match (first, second) {
        (Ok(a), Ok(b)) => {
            assert(a.deep_view() == b.deep_view());
            assert(a.deep_view().len() == a.len());
            assert(b.deep_view().len() == b.len());
            assert forall|i: int| 0 <= i < a.len() implies {
                &&& (#[trigger] a[i]).id@ == b[i].id@
                &&& a[i].entry@ == b[i].entry@
                &&& a[i].highlight == b[i].highlight
            } by {
                assert(a.deep_view()[i] == a[i]@);
                assert(b.deep_view()[i] == b[i]@);
            }
        },
        _ => {},
    }
}

} // verus!
