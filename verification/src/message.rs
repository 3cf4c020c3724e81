//! Messages as the renderer sees them: plain values read from the store,
//! with the replies owned by their parent.

use vstd::prelude::*;

verus! {

/// The outcome of reading one header of a message.
#[derive(Debug)]
pub enum Header {
    /// The message has no such header.
    Missing,
    /// The raw, unparsed value.
    Value(String),
    /// The store failed to decode the header.
    Failed,
}

/// Mathematical view of a [`Header`].
pub enum HeaderView {
    Missing,
    Value(Seq<char>),
    Failed,
}

impl View for Header {
    type V = HeaderView;

    open spec fn view(&self) -> HeaderView {
        match self {
            Header::Missing => HeaderView::Missing,
            Header::Value(s) => HeaderView::Value(s@),
            Header::Failed => HeaderView::Failed,
        }
    }
}

impl HeaderView {
    /// The value that a successful read stands for: a missing header reads
    /// as the empty string. `None` when the read failed.
    pub open spec fn text(self) -> Option<Seq<char>> {
        match self {
            HeaderView::Missing => Some(Seq::empty()),
            HeaderView::Value(s) => Some(s),
            HeaderView::Failed => None,
        }
    }
}

impl Header {
    /// The value that a successful read stands for: a missing header reads
    /// as the empty string. `None` when the read failed.
    pub fn text(&self) -> (out: Option<String>)
        ensures
            out.deep_view() == self@.text(),
    {
        match self {
            Header::Missing => Some(String::new()),
            Header::Value(s) => Some(s.clone()),
            Header::Failed => None,
        }
    }
}

/// One message of a thread, with its replies.
#[derive(Debug)]
pub struct Message {
    pub id: String,
    /// Unix seconds.
    pub date: i64,
    pub from: Header,
    pub subject: Header,
    pub tags: Vec<String>,
    /// The message satisfies the search query.
    pub matched: bool,
    /// The message is excluded by the query's exclusion rules.
    pub excluded: bool,
    /// Direct replies, in the store's order.
    pub replies: Vec<Message>,
}

/// Mathematical view of a [`Message`].
pub struct MessageView {
    pub id: Seq<char>,
    pub date: i64,
    pub from: HeaderView,
    pub subject: HeaderView,
    pub tags: Seq<Seq<char>>,
    pub matched: bool,
    pub excluded: bool,
    pub replies: Seq<MessageView>,
}

/// The view of a message: its values, and the views of its replies.
pub open spec fn message_view(m: Message) -> MessageView
    decreases m,
{
    MessageView {
        id: m.id@,
        date: m.date,
        from: m.from@,
        subject: m.subject@,
        tags: m.tags.deep_view(),
        matched: m.matched,
        excluded: m.excluded,
        replies: message_views(m.replies@),
    }
}

/// The views of a sequence of messages, one for one.
pub open spec fn message_views(ms: Seq<Message>) -> Seq<MessageView>
    decreases ms,
{
    if ms.len() == 0 {
        Seq::empty()
    } else {
        message_views(ms.drop_last()).push(message_view(ms.last()))
    }
}

impl View for Message {
    type V = MessageView;

    open spec fn view(&self) -> MessageView {
        message_view(*self)
    }
}

impl DeepView for Message {
    type V = MessageView;

    open spec fn deep_view(&self) -> MessageView {
        message_view(*self)
    }
}

/// `message_views` keeps length and positions.
pub proof fn lemma_message_views(ms: Seq<Message>)
    ensures
        message_views(ms).len() == ms.len(),
        forall|i: int| 0 <= i < ms.len() ==> #[trigger] message_views(ms)[i] == message_view(ms[i]),
    decreases ms.len(),
{
    if ms.len() > 0 {
        lemma_message_views(ms.drop_last());
    }
}

/// Number of messages in the tree rooted at `m`.
pub open spec fn tree_size(m: MessageView) -> nat
    decreases m,
{
    1 + forest_size(m.replies)
}

/// Number of messages in the trees rooted at `ms`.
pub open spec fn forest_size(ms: Seq<MessageView>) -> nat
    decreases ms,
{
    if ms.len() == 0 {
        0
    } else {
        tree_size(ms[0]) + forest_size(ms.drop_first())
    }
}

/// The messages of the tree rooted at `m` in depth-first pre-order: `m`
/// itself, then each reply's whole subtree, replies taken left to right.
pub open spec fn preorder(m: MessageView) -> Seq<MessageView>
    decreases m,
{
    seq![m] + forest_preorder(m.replies)
}

/// The messages of a forest in depth-first pre-order.
pub open spec fn forest_preorder(ms: Seq<MessageView>) -> Seq<MessageView>
    decreases ms,
{
    if ms.len() == 0 {
        Seq::empty()
    } else {
        preorder(ms[0]) + forest_preorder(ms.drop_first())
    }
}

/// The views of the replies are the replies of the view.
pub proof fn lemma_replies_view(m: &Message)
    ensures
        m@.replies == m.replies.deep_view(),
        m@.replies.len() == m.replies.len(),
        forall|i: int| 0 <= i < m.replies.len() ==> #[trigger] m@.replies[i] == m.replies[i]@,
{
    lemma_message_views(m.replies@);
    assert(m@.replies =~= m.replies.deep_view());
}

/// The deep view of a vector of messages, spelled out.
pub proof fn lemma_deep_view(ms: &Vec<Message>)
    ensures
        ms.deep_view() == message_views(ms@),
        ms.deep_view().len() == ms.len(),
        forall|i: int| 0 <= i < ms.len() ==> #[trigger] ms.deep_view()[i] == ms[i]@,
{
    lemma_message_views(ms@);
    assert(ms.deep_view() =~= message_views(ms@));
}

/// A forest splits into its first `i` trees and the rest.
pub proof fn lemma_forest_size_split(ms: Seq<MessageView>, i: int)
    requires
        0 <= i <= ms.len(),
    ensures
        forest_size(ms) == forest_size(ms.take(i)) + forest_size(ms.skip(i)),
    decreases i,
{
    if i == 0 {
        assert(ms.skip(0) =~= ms);
        assert(ms.take(0) =~= Seq::<MessageView>::empty());
    } else {
        lemma_forest_size_split(ms.drop_first(), i - 1);
        assert(ms.drop_first().take(i - 1) =~= ms.take(i).drop_first());
        assert(ms.drop_first().skip(i - 1) =~= ms.skip(i));
        assert(ms.take(i)[0] == ms[0]);
    }
}

/// Pre-order visits every message once: it is as long as the forest is
/// large.
pub proof fn lemma_preorder_len(ms: Seq<MessageView>)
    ensures
        forest_preorder(ms).len() == forest_size(ms),
    decreases ms,
{
    if ms.len() > 0 {
        lemma_preorder_len(ms[0].replies);
        lemma_preorder_len(ms.drop_first());
        assert(preorder(ms[0]).len() == 1 + forest_preorder(ms[0].replies).len());
        assert(tree_size(ms[0]) == 1 + forest_size(ms[0].replies));
        assert(forest_preorder(ms) == preorder(ms[0]) + forest_preorder(ms.drop_first()));
        assert(forest_size(ms) == tree_size(ms[0]) + forest_size(ms.drop_first()));
    }
}

/// Counts the messages of sibling trees; `None` when they are more than
/// an `i32` can count.
pub fn count_messages(messages: &Vec<Message>) -> (count: Option<i32>)
    ensures
        match count {
            Some(n) => n == forest_size(messages.deep_view()),
            None => forest_size(messages.deep_view()) > i32::MAX,
        },
    decreases messages,
{
    let ghost forest = messages.deep_view();
    let mut n: i32 = 0;
    let mut j: usize = 0;
    proof {
        lemma_deep_view(messages);
        assert(forest.skip(0) =~= forest);
    }
    while j < messages.len()
        invariant
            j <= messages.len(),
            forest == messages.deep_view(),
            forest.len() == messages.len(),
            0 <= n,
            n + forest_size(forest.skip(j as int)) == forest_size(forest),
        decreases messages.len() - j,
    {
        let message = &messages[j];
        let ghost rest = forest.skip(j as int);
        proof {
            lemma_deep_view(messages);
            lemma_replies_view(message);
            assert(rest[0] == message@);
            assert(rest.drop_first() =~= forest.skip(j + 1));
            assert(forest_size(rest) == tree_size(rest[0]) + forest_size(rest.drop_first()));
            assert(tree_size(message@) == 1 + forest_size(message@.replies));
        }
        let below = match count_messages(&message.replies) {
            Some(below) => below,
            None => {
                return None;
            },
        };
        let tree = match below.checked_add(1) {
            Some(tree) => tree,
            None => {
                return None;
            },
        };
        n = match n.checked_add(tree) {
            Some(sum) => sum,
            None => {
                return None;
            },
        };
        j = j + 1;
    }
    assert(forest.skip(messages.len() as int) =~= Seq::<MessageView>::empty());
    Some(n)
}

} // verus!
