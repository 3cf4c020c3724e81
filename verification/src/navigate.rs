//! Finding a message by its id within the trees of a thread: the chain of
//! its ancestors, and the subtree of its replies.

use vstd::prelude::*;
use crate::message::{
    forest_preorder, lemma_deep_view, lemma_replies_view, preorder, Message, MessageView,
};
use crate::runtime::Runtime;
use crate::text::{chars_of, push_all, string_of};
use crate::thread::{Thread, ThreadView};

verus! {

/// The ancestors of the first message with `id` in the tree rooted at `m`,
/// the root first and the message itself left out; `None` when the tree
/// has no such message.
pub open spec fn ancestors(m: MessageView, id: Seq<char>) -> Option<Seq<MessageView>>
    decreases m, 0int,
{
    if m.id == id {
        Some(Seq::empty())
    } else {
        match ancestors_in(m.replies, id) {
            Some(path) => Some(seq![m] + path),
            None => None,
        }
    }
}

/// The ancestors of the first message with `id`, in depth-first order,
/// among sibling trees.
pub open spec fn ancestors_in(ms: Seq<MessageView>, id: Seq<char>) -> Option<Seq<MessageView>>
    decreases ms, 1int,
{
    if ms.len() == 0 {
        None
    } else {
        match ancestors(ms[0], id) {
            Some(path) => Some(path),
            None => ancestors_in(ms.drop_first(), id),
        }
    }
}

/// The first message with `id` in the tree rooted at `m`, in depth-first
/// order.
pub open spec fn found(m: MessageView, id: Seq<char>) -> Option<MessageView>
    decreases m, 0int,
{
    if m.id == id {
        Some(m)
    } else {
        found_in(m.replies, id)
    }
}

/// The first message with `id`, in depth-first order, among sibling trees.
pub open spec fn found_in(ms: Seq<MessageView>, id: Seq<char>) -> Option<MessageView>
    decreases ms, 1int,
{
    if ms.len() == 0 {
        None
    } else {
        match found(ms[0], id) {
            Some(m) => Some(m),
            None => found_in(ms.drop_first(), id),
        }
    }
}

/// The views of borrowed messages.
pub open spec fn views_of(ms: Seq<&Message>) -> Seq<MessageView> {
    ms.map_values(|m: &Message| m@)
}

/// The ancestors of the message with `id`, from the root down to its
/// parent; `None` when no message has that id.
pub fn forward<'a>(id: &str, messages: &'a Vec<Message>) -> (path: Option<Vec<&'a Message>>)
    ensures
        match path {
            Some(p) => ancestors_in(messages.deep_view(), id@) == Some(views_of(p@)),
            None => ancestors_in(messages.deep_view(), id@) is None,
        },
    decreases messages,
{
    let ghost forest = messages.deep_view();
    let mut j: usize = 0;
    proof {
        lemma_deep_view(messages);
        assert(forest.skip(0) =~= forest);
    }
    while j < messages.len()
        invariant
            j <= messages.len(),
            forest == messages.deep_view(),
            forest.len() == messages.len(),
            ancestors_in(forest, id@) == ancestors_in(forest.skip(j as int), id@),
        decreases messages.len() - j,
    {
        let message = &messages[j];
        let ghost rest = forest.skip(j as int);
        proof {
            lemma_deep_view(messages);
            lemma_replies_view(message);
            assert(rest[0] == message@);
            assert(rest.drop_first() =~= forest.skip(j + 1));
            assert(ancestors_in(rest, id@) == match ancestors(rest[0], id@) {
                Some(path) => Some(path),
                None => ancestors_in(rest.drop_first(), id@),
            });
            assert(ancestors(message@, id@) == if message@.id == id@ {
                Some(Seq::<MessageView>::empty())
            } else {
                match ancestors_in(message@.replies, id@) {
                    Some(path) => Some(seq![message@] + path),
                    None => None,
                }
            });
        }
        if crate::text::same_str(message.id.as_str(), id) {
            let found: Vec<&'a Message> = Vec::new();
            assert(views_of(found@) =~= Seq::<MessageView>::empty());
            return Some(found);
        }
        match forward(id, &message.replies) {
            Some(below) => {
                let mut path: Vec<&'a Message> = Vec::new();
                path.push(message);
                let mut k: usize = 0;
                while k < below.len()
                    invariant
                        k <= below.len(),
                        path@ == seq![message] + below@.take(k as int),
                    decreases below.len() - k,
                {
                    path.push(below[k]);
                    k = k + 1;
                    assert(path@ =~= seq![message] + below@.take(k as int));
                }
                assert(below@.take(below.len() as int) =~= below@);
                assert(views_of(path@) =~= seq![message@] + views_of(below@));
                return Some(path);
            },
            None => {},
        }
        j = j + 1;
    }
    assert(forest.skip(messages.len() as int) =~= Seq::<MessageView>::empty());
    None
}

/// The first message with `id`, in depth-first order; `None` when no
/// message has that id.
pub fn search<'a>(id: &str, messages: &'a Vec<Message>) -> (hit: Option<&'a Message>)
    ensures
        match hit {
            Some(m) => found_in(messages.deep_view(), id@) == Some(m@),
            None => found_in(messages.deep_view(), id@) is None,
        },
    decreases messages,
{
    let ghost forest = messages.deep_view();
    let mut j: usize = 0;
    proof {
        lemma_deep_view(messages);
        assert(forest.skip(0) =~= forest);
    }
    while j < messages.len()
        invariant
            j <= messages.len(),
            forest == messages.deep_view(),
            forest.len() == messages.len(),
            found_in(forest, id@) == found_in(forest.skip(j as int), id@),
        decreases messages.len() - j,
    {
        let message = &messages[j];
        let ghost rest = forest.skip(j as int);
        proof {
            lemma_deep_view(messages);
            lemma_replies_view(message);
            assert(rest[0] == message@);
            assert(rest.drop_first() =~= forest.skip(j + 1));
            assert(found_in(rest, id@) == match found(rest[0], id@) {
                Some(m) => Some(m),
                None => found_in(rest.drop_first(), id@),
            });
            assert(found(message@, id@) == if message@.id == id@ {
                Some(message@)
            } else {
                found_in(message@.replies, id@)
            });
        }
        if crate::text::same_str(message.id.as_str(), id) {
            return Some(message);
        }
        match search(id, &message.replies) {
            Some(hit) => {
                return Some(hit);
            },
            None => {},
        }
        j = j + 1;
    }
    assert(forest.skip(messages.len() as int) =~= Seq::<MessageView>::empty());
    None
}

/// Appends the messages of sibling trees to `out`, in depth-first
/// pre-order.
pub fn print_tree<'a>(messages: &'a Vec<Message>, out: &mut Vec<&'a Message>)
    ensures
        views_of(final(out)@) == views_of(old(out)@) + forest_preorder(messages.deep_view()),
    decreases messages,
{
    let ghost forest = messages.deep_view();
    let mut j: usize = 0;
    proof {
        lemma_deep_view(messages);
        assert(forest.skip(0) =~= forest);
        assert(views_of(out@) =~= views_of(old(out)@) + Seq::<MessageView>::empty());
    }
    let ghost mut done: Seq<MessageView> = Seq::empty();
    while j < messages.len()
        invariant
            j <= messages.len(),
            forest == messages.deep_view(),
            forest.len() == messages.len(),
            forest_preorder(forest) == done + forest_preorder(forest.skip(j as int)),
            views_of(out@) == views_of(old(out)@) + done,
        decreases messages.len() - j,
    {
        let message = &messages[j];
        let ghost rest = forest.skip(j as int);
        proof {
            lemma_deep_view(messages);
            lemma_replies_view(message);
            assert(rest[0] == message@);
            assert(rest.drop_first() =~= forest.skip(j + 1));
            assert(forest_preorder(rest) == preorder(rest[0]) + forest_preorder(rest.drop_first()));
            assert(preorder(message@) == seq![message@] + forest_preorder(message@.replies));
        }
        let ghost before = out@;
        out.push(message);
        assert(views_of(out@) =~= views_of(before).push(message@));
        print_tree(&message.replies, out);
        proof {
            let below = forest_preorder(message@.replies);
            assert(views_of(out@) =~= views_of(old(out)@) + ((done + seq![message@]) + below));
            assert(forest_preorder(forest) =~= ((done + seq![message@]) + below) + forest_preorder(
                forest.skip(j + 1),
            ));
            done = (done + seq![message@]) + below;
        }
        j = j + 1;
    }
    proof {
        assert(forest.skip(messages.len() as int) =~= Seq::<MessageView>::empty());
        assert(done + Seq::<MessageView>::empty() =~= done);
    }
}

/// The query that finds the thread of the message with `id`, narrowed by
/// `filter` where there is one.
pub open spec fn query_text(id: Seq<char>, filter: Option<Seq<char>>) -> Seq<char> {
    "mid:"@ + id + match filter {
        Some(more) => " and "@ + more,
        None => Seq::empty(),
    }
}

/// Writes the query for the thread of one message.
pub fn message_query(id: &str, filter: Option<&str>) -> (query: String)
    ensures
        query@ == query_text(
            id@,
            match filter {
                Some(more) => Some(more@),
                None => None,
            },
        ),
{
    let mut query: Vec<char> = Vec::new();
    push_all(&mut query, &chars_of("mid:"));
    push_all(&mut query, &chars_of(id));
    match filter {
        Some(more) => {
            push_all(&mut query, &chars_of(" and "));
            push_all(&mut query, &chars_of(more));
            assert(query@ =~= "mid:"@ + id@ + (" and "@ + more@));
        },
        None => {
            assert(query@ =~= "mid:"@ + id@ + Seq::<char>::empty());
        },
    }
    string_of(&query)
}

/// A message emitted on its own, outside any tree: at position `index` of
/// `total`, which are both one.
#[derive(Debug)]
pub struct Flat<'a> {
    pub message: &'a Message,
    pub index: i32,
    pub total: i32,
}

/// Mathematical view of a [`Flat`].
pub struct FlatView {
    pub message: MessageView,
    pub index: i32,
    pub total: i32,
}

impl<'a> View for Flat<'a> {
    type V = FlatView;

    open spec fn view(&self) -> FlatView {
        FlatView { message: self.message@, index: self.index, total: self.total }
    }
}

impl<'a> DeepView for Flat<'a> {
    type V = FlatView;

    open spec fn deep_view(&self) -> FlatView {
        self.view()
    }
}

/// Each of `ms` as a standalone record, at position one of one.
pub open spec fn flat_of(ms: Seq<MessageView>) -> Seq<FlatView> {
    ms.map_values(|m: MessageView| FlatView { message: m, index: 1, total: 1 })
}

/// What `before` emits for the trees `roots`: the ancestors of the message
/// with `id`, root first; nothing when no message has that id.
pub open spec fn before_messages(roots: Seq<MessageView>, id: Seq<char>) -> Seq<MessageView> {
    match ancestors_in(roots, id) {
        Some(path) => path,
        None => Seq::empty(),
    }
}

/// What `after` emits for the trees `roots`: the replies below the message
/// with `id`, in depth-first pre-order; nothing when no message has that
/// id.
pub open spec fn after_messages(roots: Seq<MessageView>, id: Seq<char>) -> Seq<MessageView> {
    match found_in(roots, id) {
        Some(target) => forest_preorder(target.replies),
        None => Seq::empty(),
    }
}

/// The trees in which `before` and `after` look: those of the first
/// thread, none when there is no thread.
pub open spec fn first_roots(threads: Seq<ThreadView>) -> Seq<MessageView> {
    if threads.len() > 0 {
        threads[0].toplevel_messages
    } else {
        Seq::empty()
    }
}

/// Each of `messages` as a standalone record.
fn flat<'a>(messages: Vec<&'a Message>) -> (out: Vec<Flat<'a>>)
    ensures
        out.deep_view() == flat_of(views_of(messages@)),
{
    let mut out: Vec<Flat<'a>> = Vec::new();
    let mut i: usize = 0;
    while i < messages.len()
        invariant
            i <= messages.len(),
            out.len() == i,
            forall|k: int|
                0 <= k < i ==> (#[trigger] out[k])@ == (FlatView {
                    message: messages[k]@,
                    index: 1,
                    total: 1,
                }),
        decreases messages.len() - i,
    {
        out.push(Flat { message: messages[i], index: 1, total: 1 });
        i = i + 1;
    }
    assert(out.deep_view() =~= flat_of(views_of(messages@)));
    out
}

impl Runtime {
    /// The ancestors of the message with `id` in the first of `threads`,
    /// from the root down to its parent, each as a standalone record.
    /// Nothing is emitted when the message is not found.
    pub fn show_before_message<'a>(&self, id: &str, threads: &'a Vec<Thread>) -> (out: Vec<Flat<'a>>)
        ensures
            out.deep_view() == flat_of(before_messages(first_roots(threads.deep_view()), id@)),
    {
        if threads.len() == 0 {
            assert(ancestors_in(Seq::<MessageView>::empty(), id@) is None);
            return flat(Vec::new());
        }
        let thread = &threads[0];
        assert(threads.deep_view()[0] == thread@);
        match forward(id, &thread.toplevel_messages) {
            Some(path) => flat(path),
            None => flat(Vec::new()),
        }
    }

    /// The replies below the message with `id` in the first of `threads`,
    /// in depth-first pre-order, each as a standalone record. Nothing is
    /// emitted when the message is not found.
    pub fn show_after_message<'a>(&self, id: &str, threads: &'a Vec<Thread>) -> (out: Vec<Flat<'a>>)
        ensures
            out.deep_view() == flat_of(after_messages(first_roots(threads.deep_view()), id@)),
    {
        if threads.len() == 0 {
            assert(found_in(Seq::<MessageView>::empty(), id@) is None);
            return flat(Vec::new());
        }
        let thread = &threads[0];
        assert(threads.deep_view()[0] == thread@);
        match search(id, &thread.toplevel_messages) {
            Some(target) => {
                let mut below: Vec<&Message> = Vec::new();
                assert(views_of(below@) =~= Seq::<MessageView>::empty());
                print_tree(&target.replies, &mut below);
                proof {
                    lemma_replies_view(target);
                    assert(views_of(below@) =~= forest_preorder(target@.replies));
                }
                flat(below)
            },
            None => flat(Vec::new()),
        }
    }
}

/// `path` leads down to `target` reply by reply: each message of the path
/// is a reply of the one before it, and `target` is a reply of the last.
pub open spec fn leads_to(path: Seq<MessageView>, target: MessageView) -> bool {
    &&& forall|i: int| 0 <= i < path.len() - 1 ==> (#[trigger] path[i]).replies.contains(path[i + 1])
    &&& path.len() > 0 ==> path.last().replies.contains(target)
}

/// The ancestors found in one tree are a chain from its root down to the
/// message with the id, which is the message that a search finds.
pub proof fn lemma_ancestors_tree(m: MessageView, id: Seq<char>)
    requires
        ancestors(m, id) is Some,
    ensures
        found(m, id) matches Some(target) && target.id == id && leads_to(
            ancestors(m, id)->0,
            target,
        ) && if ancestors(m, id)->0.len() == 0 {
            target == m
        } else {
            ancestors(m, id)->0[0] == m
        },
        forall|i: int| 0 <= i < ancestors(m, id)->0.len() ==> (#[trigger] ancestors(m, id)->0[i]).id != id,
    decreases m, 0int,
{
    if m.id != id {
        lemma_ancestors_forest(m.replies, id);
        let below = ancestors_in(m.replies, id)->0;
        let path = ancestors(m, id)->0;
        let target = found_in(m.replies, id)->0;
        assert(path == seq![m] + below);
        assert(found(m, id) == found_in(m.replies, id));
        assert forall|i: int| 0 <= i < path.len() - 1 implies (#[trigger] path[i]).replies.contains(
            path[i + 1],
        ) by {
            if i > 0 {
                assert(path[i] == below[i - 1]);
                assert(path[i + 1] == below[i]);
            } else {
                assert(path[1] == below[0]);
            }
        }
        if below.len() > 0 {
            assert(path.last() == below.last());
        }
        assert forall|i: int| 0 <= i < path.len() implies (#[trigger] path[i]).id != id by {
            if i > 0 {
                assert(path[i] == below[i - 1]);
            }
        }
    }
}

/// The ancestors found among sibling trees are a chain from one of the
/// roots down to the message with the id, which is the message that a
/// search finds; without ancestors, that message is itself a root.
pub proof fn lemma_ancestors_forest(ms: Seq<MessageView>, id: Seq<char>)
    requires
        ancestors_in(ms, id) is Some,
    ensures
        found_in(ms, id) matches Some(target) && target.id == id && leads_to(
            ancestors_in(ms, id)->0,
            target,
        ) && if ancestors_in(ms, id)->0.len() == 0 {
            ms.contains(target)
        } else {
            ms.contains(ancestors_in(ms, id)->0[0])
        },
        forall|i: int|
            0 <= i < ancestors_in(ms, id)->0.len() ==> (#[trigger] ancestors_in(ms, id)->0[i]).id
                != id,
    decreases ms, 1int,
{
    if ms.len() > 0 {
        if ancestors(ms[0], id) is Some {
            lemma_ancestors_tree(ms[0], id);
            assert(found_in(ms, id) == found(ms[0], id));
            assert(ms.contains(ms[0]));
        } else {
            lemma_not_found(ms[0], id);
            lemma_ancestors_forest(ms.drop_first(), id);
            assert(found_in(ms, id) == found_in(ms.drop_first(), id));
            let rest = ms.drop_first();
            assert forall|x: MessageView| rest.contains(x) implies ms.contains(x) by {
                let k = choose|k: int| 0 <= k < rest.len() && rest[k] == x;
                assert(ms[k + 1] == x);
            }
        }
    }
}

/// A tree without ancestors for an id holds no message with that id.
pub proof fn lemma_not_found(m: MessageView, id: Seq<char>)
    requires
        ancestors(m, id) is None,
    ensures
        found(m, id) is None,
    decreases m, 0int,
{
    lemma_not_found_in(m.replies, id);
}

/// Sibling trees without ancestors for an id hold no message with that id.
pub proof fn lemma_not_found_in(ms: Seq<MessageView>, id: Seq<char>)
    requires
        ancestors_in(ms, id) is None,
    ensures
        found_in(ms, id) is None,
    decreases ms, 1int,
{
    if ms.len() > 0 {
        lemma_not_found(ms[0], id);
        lemma_not_found_in(ms.drop_first(), id);
    }
}

} // verus!
