//! Threads as the store delivers them.

use vstd::prelude::*;
use crate::message::{Message, MessageView, forest_size};

verus! {

/// A thread: summary values and the trees of its messages.
#[derive(Debug)]
pub struct Thread {
    pub id: String,
    /// Unix seconds of the newest message.
    pub newest_date: i64,
    /// Unix seconds of the oldest message.
    pub oldest_date: i64,
    pub total_messages: i32,
    pub matched_messages: i32,
    pub authors: Vec<String>,
    pub subject: String,
    pub tags: Vec<String>,
    /// The roots of the message trees.
    pub toplevel_messages: Vec<Message>,
}

/// Mathematical view of a [`Thread`].
pub struct ThreadView {
    pub id: Seq<char>,
    pub newest_date: i64,
    pub oldest_date: i64,
    pub total_messages: i32,
    pub matched_messages: i32,
    pub authors: Seq<Seq<char>>,
    pub subject: Seq<char>,
    pub tags: Seq<Seq<char>>,
    pub toplevel_messages: Seq<MessageView>,
}

impl View for Thread {
    type V = ThreadView;

    open spec fn view(&self) -> ThreadView {
        ThreadView {
            id: self.id@,
            newest_date: self.newest_date,
            oldest_date: self.oldest_date,
            total_messages: self.total_messages,
            matched_messages: self.matched_messages,
            authors: self.authors.deep_view(),
            subject: self.subject@,
            tags: self.tags.deep_view(),
            toplevel_messages: self.toplevel_messages.deep_view(),
        }
    }
}

impl DeepView for Thread {
    type V = ThreadView;

    open spec fn deep_view(&self) -> ThreadView {
        self.view()
    }
}

impl ThreadView {
    /// The summary agrees with the trees: `total_messages` counts the
    /// messages that the trees hold.
    pub open spec fn counts_agree(self) -> bool {
        self.total_messages == forest_size(self.toplevel_messages)
    }
}

} // verus!
