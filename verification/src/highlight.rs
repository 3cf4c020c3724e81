//! The highlight predicate: an optional set of conditions, all of which a
//! message has to meet to be marked.

use vstd::prelude::*;
use crate::error::Error;
use crate::message::{Message, MessageView};
use crate::text::{contains_str, contains_text};
use crate::time::{show_time, utc_text};

verus! {

/// The conditions of a highlight. A field that is `None` asks nothing.
#[derive(Clone, Debug, PartialEq, Eq)]
pub struct Highlight {
    /// The message id, exactly.
    pub id: Option<String>,
    /// A part of the date written as year-month-day.
    pub date: Option<String>,
    /// The position of the message in its thread.
    pub num: Option<i32>,
    /// The size of the thread.
    pub total: Option<i32>,
    /// A part of the raw `From` header.
    pub from: Option<String>,
    /// The raw `Subject` header, exactly.
    pub subject: Option<String>,
    /// Tags that the message must all carry.
    pub tags: Option<Vec<String>>,
    pub matched: Option<bool>,
    pub excluded: Option<bool>,
}

/// Mathematical view of a [`Highlight`].
pub struct HighlightView {
    pub id: Option<Seq<char>>,
    pub date: Option<Seq<char>>,
    pub num: Option<i32>,
    pub total: Option<i32>,
    pub from: Option<Seq<char>>,
    pub subject: Option<Seq<char>>,
    pub tags: Option<Seq<Seq<char>>>,
    pub matched: Option<bool>,
    pub excluded: Option<bool>,
}

impl View for Highlight {
    type V = HighlightView;

    open spec fn view(&self) -> HighlightView {
        HighlightView {
            id: self.id.deep_view(),
            date: self.date.deep_view(),
            num: self.num,
            total: self.total,
            from: self.from.deep_view(),
            subject: self.subject.deep_view(),
            tags: self.tags.deep_view(),
            matched: self.matched,
            excluded: self.excluded,
        }
    }
}

impl DeepView for Highlight {
    type V = HighlightView;

    open spec fn deep_view(&self) -> HighlightView {
        self.view()
    }
}

/// Every tag of `wanted` is among `tags`.
pub open spec fn has_all_tags(tags: Seq<Seq<char>>, wanted: Seq<Seq<char>>) -> bool {
    forall|i: int| 0 <= i < wanted.len() ==> tags.contains(#[trigger] wanted[i])
}

impl HighlightView {
    /// No condition is set: such a highlight marks nothing.
    pub open spec fn inert(self) -> bool {
        &&& self.id is None
        &&& self.date is None
        &&& self.num is None
        &&& self.total is None
        &&& self.from is None
        &&& self.subject is None
        &&& self.tags is None
        &&& self.matched is None
        &&& self.excluded is None
    }

    /// The `id` condition is absent or met.
    pub open spec fn id_ok(self, m: MessageView) -> bool {
        self.id matches Some(id) ==> id == m.id
    }

    /// The `date` condition is absent, or the date of the message could be
    /// written and its text `day` holds the configured part.
    pub open spec fn date_ok(self, day: Option<Seq<char>>) -> bool {
        self.date matches Some(part) ==> (day matches Some(text) && contains_text(text, part))
    }

    /// The `date` condition needs a date text and there is none.
    pub open spec fn date_fails(self, day: Option<Seq<char>>) -> bool {
        self.date is Some && day is None
    }

    /// The `num` and `total` conditions are absent or met.
    pub open spec fn position_ok(self, num: i32, total: i32) -> bool {
        &&& self.num matches Some(n) ==> n == num
        &&& self.total matches Some(t) ==> t == total
    }

    /// The `from` condition is absent or met by a header that could be read.
    pub open spec fn from_ok(self, m: MessageView) -> bool {
        self.from matches Some(part) ==> (m.from.text() matches Some(from) && contains_text(
            from,
            part,
        ))
    }

    /// The `subject` condition is absent or met by a header that could be
    /// read.
    pub open spec fn subject_ok(self, m: MessageView) -> bool {
        self.subject matches Some(subject) ==> m.subject.text() == Some(subject)
    }

    /// The `tags` condition is absent or met.
    pub open spec fn tags_ok(self, m: MessageView) -> bool {
        self.tags matches Some(wanted) ==> has_all_tags(m.tags, wanted)
    }

    /// The `matched` and `excluded` conditions are absent or met.
    pub open spec fn flags_ok(self, m: MessageView) -> bool {
        &&& self.matched matches Some(b) ==> b == m.matched
        &&& self.excluded matches Some(b) ==> b == m.excluded
    }

    /// Whether the message at position `num` of `total` is highlighted,
    /// where `day` is the text of its date in the active date format, or
    /// `None` when that text cannot be written.
    ///
    /// An inert highlight marks nothing. Otherwise the conditions are tried
    /// in the order id, date, position, from, subject, tags, flags; the
    /// first one that is not met answers `false`, and a date or header that
    /// a condition needs but cannot have is an error at that point.
    pub open spec fn marks_on_day(
        self,
        m: MessageView,
        num: i32,
        total: i32,
        day: Option<Seq<char>>,
    ) -> Result<bool, Error> {
        if self.inert() {
            Ok(false)
        } else if !self.id_ok(m) {
            Ok(false)
        } else if self.date_fails(day) {
            Err(Error::Date)
        } else if !self.date_ok(day) {
            Ok(false)
        } else if !self.position_ok(num, total) {
            Ok(false)
        } else if self.from is Some && m.from is Failed {
            Err(Error::HeaderAccess)
        } else if !self.from_ok(m) {
            Ok(false)
        } else if self.subject is Some && m.subject is Failed {
            Err(Error::HeaderAccess)
        } else if !self.subject_ok(m) {
            Ok(false)
        } else {
            Ok(self.tags_ok(m) && self.flags_ok(m))
        }
    }

    /// Whether the message at position `num` of `total` is highlighted
    /// when dates are written in `date_format`: the `date` condition sees
    /// the message's date in that format.
    pub open spec fn marks(self, m: MessageView, num: i32, total: i32, date_format: Seq<char>) -> Result<
        bool,
        Error,
    > {
        self.marks_on_day(m, num, total, utc_text(m.date, date_format))
    }
}

/// The highlight flag of a message under an optional highlight: without a
/// highlight nothing is marked.
pub open spec fn marked(
    highlight: Option<HighlightView>,
    m: MessageView,
    num: i32,
    total: i32,
    date_format: Seq<char>,
) -> Result<bool, Error> {
    match highlight {
        None => Ok(false),
        Some(hl) => hl.marks(m, num, total, date_format),
    }
}

/// Whether `tags` holds `tag`.
fn has_tag(tags: &Vec<String>, tag: &String) -> (found: bool)
    ensures
        found == tags.deep_view().contains(tag@),
{
    let mut i: usize = 0;
    while i < tags.len()
        invariant
            i <= tags.len(),
            forall|j: int| 0 <= j < i ==> tags.deep_view()[j] != tag@,
        decreases tags.len() - i,
    {
        if tags[i] == *tag {
            assert(tags.deep_view()[i as int] == tag@);
            return true;
        }
        i = i + 1;
    }
    false
}

/// Whether `tags` holds every tag of `wanted`.
fn has_tags(tags: &Vec<String>, wanted: &Vec<String>) -> (all: bool)
    ensures
        all == has_all_tags(tags.deep_view(), wanted.deep_view()),
{
    let mut i: usize = 0;
    while i < wanted.len()
        invariant
            i <= wanted.len(),
            forall|j: int| 0 <= j < i ==> tags.deep_view().contains(#[trigger] wanted.deep_view()[j]),
        decreases wanted.len() - i,
    {
        if !has_tag(tags, &wanted[i]) {
            assert(wanted.deep_view()[i as int] == wanted[i as int]@);
            return false;
        }
        assert(wanted.deep_view()[i as int] == wanted[i as int]@);
        i = i + 1;
    }
    true
}

/// No condition of `hl` is set.
pub fn check(hl: &Highlight) -> (inert: bool)
    ensures
        inert == hl@.inert(),
{
    hl.id.is_none() && hl.date.is_none() && hl.num.is_none() && hl.total.is_none()
        && hl.from.is_none() && hl.subject.is_none() && hl.tags.is_none() && hl.matched.is_none()
        && hl.excluded.is_none()
}

/// Normalises a configured highlight: one without any condition becomes
/// no highlight at all, every other stays as it is.
pub fn empty(hl: Option<Highlight>) -> (out: Option<Highlight>)
    ensures
        match hl {
            Some(h) => if h@.inert() {
                out is None
            } else {
                out == hl
            },
            None => out is None,
        },
{
    match hl {
        Some(h) => {
            if check(&h) {
                None
            } else {
                Some(h)
            }
        },
        None => None,
    }
}

impl Highlight {
    /// Decides whether `message`, at position `num` of `total` in its
    /// thread, is highlighted when dates are written in `date_format`.
    pub fn message(&self, message: &Message, num: i32, total: i32, date_format: &str) -> (out: Result<
        bool,
        Error,
    >)
        ensures
            out == self@.marks(message@, num, total, date_format@),
    {
        let day = if self.date.is_some() {
            show_time(message.date, date_format)
        } else {
            None
        };
        self.message_on_day(message, num, total, &day)
    }

    /// Decides whether `message`, at position `num` of `total` in its
    /// thread, is highlighted, given the text `day` of its date in the
    /// active date format (`None`: the date cannot be written). Without a
    /// `date` condition `day` is not looked at.
    pub fn message_on_day(
        &self,
        message: &Message,
        num: i32,
        total: i32,
        day: &Option<String>,
    ) -> (out: Result<bool, Error>)
        ensures
            out == self@.marks_on_day(message@, num, total, day.deep_view()),
            self.date is None ==> forall|other: Option<Seq<char>>|
                out == #[trigger] self@.marks_on_day(message@, num, total, other),
    {
        if check(self) {
            return Ok(false);
        }
        if let Some(mid) = &self.id {
            if *mid != message.id {
                return Ok(false);
            }
        }
        if let Some(mdate) = &self.date {
            match day {
                None => {
                    return Err(Error::Date);
                },
                Some(text) => {
                    if !contains_str(text.as_str(), mdate.as_str()) {
                        return Ok(false);
                    }
                },
            }
        }
        if let Some(mnum) = self.num {
            if mnum != num {
                return Ok(false);
            }
        }
        if let Some(mtotal) = self.total {
            if mtotal != total {
                return Ok(false);
            }
        }
        if let Some(mfrom) = &self.from {
            let from = match message.from.text() {
                Some(from) => from,
                None => {
                    return Err(Error::HeaderAccess);
                },
            };
            if !contains_str(from.as_str(), mfrom.as_str()) {
                return Ok(false);
            }
        }
        if let Some(msubject) = &self.subject {
            let subject = match message.subject.text() {
                Some(subject) => subject,
                None => {
                    return Err(Error::HeaderAccess);
                },
            };
            if *msubject != subject {
                return Ok(false);
            }
        }
        if let Some(mtags) = &self.tags {
            if !has_tags(&message.tags, mtags) {
                return Ok(false);
            }
        }
        if let Some(mmatched) = self.matched {
            if mmatched != message.matched {
                return Ok(false);
            }
        }
        if let Some(mexcluded) = self.excluded {
            if mexcluded != message.excluded {
                return Ok(false);
            }
        }
        Ok(true)
    }
}

/// Without a highlight, and under a highlight without any condition, no
/// message is marked, whatever the message, its position and the date
/// format.
pub proof fn lemma_inert_marks_nothing(
    hl: HighlightView,
    m: MessageView,
    num: i32,
    total: i32,
    date_format: Seq<char>,
)
    requires
        hl.inert(),
    ensures
        hl.marks(m, num, total, date_format) == Ok::<bool, Error>(false),
        marked(Some(hl), m, num, total, date_format) == Ok::<bool, Error>(false),
        marked(None, m, num, total, date_format) == Ok::<bool, Error>(false),
{
}

/// Under a highlight whose only condition is a list of tags, a message is
/// marked exactly when it carries every tag of the list, whatever its
/// other values, its headers, its position and the date format; for a list
/// of one tag, exactly when it carries that tag.
pub proof fn lemma_tags_only(
    hl: HighlightView,
    m: MessageView,
    num: i32,
    total: i32,
    date_format: Seq<char>,
)
    requires
        hl.tags is Some,
        hl.id is None,
        hl.date is None,
        hl.num is None,
        hl.total is None,
        hl.from is None,
        hl.subject is None,
        hl.matched is None,
        hl.excluded is None,
    ensures
        hl.marks(m, num, total, date_format) == Ok::<bool, Error>(
            has_all_tags(m.tags, hl.tags->0),
        ),
        hl.tags->0.len() == 1 ==> hl.marks(m, num, total, date_format) == Ok::<bool, Error>(
            m.tags.contains(hl.tags->0[0]),
        ),
{
    let wanted = hl.tags->0;
    if wanted.len() == 1 {
        if m.tags.contains(wanted[0]) {
            assert forall|i: int| 0 <= i < wanted.len() implies m.tags.contains(
                #[trigger] wanted[i],
            ) by {}
        }
    }
}

/// The `date` condition goes by the active date format: a highlight whose
/// only condition is a date part marks a message exactly when the
/// message's date, written in that format, holds the part; where the date
/// cannot be written, the answer is the date error.
pub proof fn lemma_date_only(
    hl: HighlightView,
    m: MessageView,
    num: i32,
    total: i32,
    date_format: Seq<char>,
)
    requires
        hl.date is Some,
        hl.id is None,
        hl.num is None,
        hl.total is None,
        hl.from is None,
        hl.subject is None,
        hl.tags is None,
        hl.matched is None,
        hl.excluded is None,
    ensures
        hl.marks(m, num, total, date_format) == match utc_text(m.date, date_format) {
            Some(day) => Ok::<bool, Error>(contains_text(day, hl.date->0)),
            None => Err(Error::Date),
        },
{
}

} // verus!
