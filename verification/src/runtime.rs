//! The configuration of a run and the rendering of one message or thread
//! into an output record.

use vstd::prelude::*;
use crate::error::Error;
use crate::highlight::{marked, Highlight, HighlightView};
use crate::message::{Message, MessageView};
use crate::template::{
    fill, filled, parse, parsed, text_of, Context, ContextView, Parsed, ParsedView, Templ,
    TemplView,
};
use crate::text::{fix_subject, fixed_subject, join, joined, pad_right, pad_right_chars, chars_of,
    string_of};
use crate::thread::{Thread, ThreadView};
use crate::time::{humanize_span, relative_text, show_time, utc_text, Sort};

verus! {

/// What a run is configured with.
#[derive(Debug)]
pub struct Runtime {
    pub templ: Templ,
    pub sort: Sort,
    pub highlight: Option<Highlight>,
    /// strftime-style format of dates.
    pub date_format: String,
    /// Unix seconds; a date after this moment is written in words.
    pub humanize_range: i64,
    /// Unix seconds of the present, from which dates in words are counted.
    pub now: i64,
}

/// Mathematical view of a [`Runtime`].
pub struct RuntimeView {
    pub templ: TemplView,
    pub sort: Sort,
    pub highlight: Option<HighlightView>,
    pub date_format: Seq<char>,
    pub humanize_range: i64,
    pub now: i64,
}

impl View for Runtime {
    type V = RuntimeView;

    open spec fn view(&self) -> RuntimeView {
        RuntimeView {
            templ: self.templ@,
            sort: self.sort,
            highlight: self.highlight.deep_view(),
            date_format: self.date_format@,
            humanize_range: self.humanize_range,
            now: self.now,
        }
    }
}

/// One output record.
#[derive(Debug, PartialEq, Eq)]
pub struct Show {
    /// The id of the message or thread.
    pub id: String,
    /// The rendered template.
    pub entry: String,
    pub highlight: bool,
}

/// Mathematical view of a [`Show`].
pub struct ShowView {
    pub id: Seq<char>,
    pub entry: Seq<char>,
    pub highlight: bool,
}

impl View for Show {
    type V = ShowView;

    open spec fn view(&self) -> ShowView {
        ShowView { id: self.id@, entry: self.entry@, highlight: self.highlight }
    }
}

impl DeepView for Show {
    type V = ShowView;

    open spec fn deep_view(&self) -> ShowView {
        self.view()
    }
}

/// The separator between tags and between authors.
pub open spec fn comma() -> Seq<char> {
    ", "@
}

impl RuntimeView {
    /// The date for the `Date` field: in words, counted from `now`, when
    /// it is later than `humanize_range`, else in the date format. `None`
    /// when it cannot be written.
    pub open spec fn human_text(self, date: i64) -> Option<Seq<char>> {
        if date > self.humanize_range {
            if i64::MIN <= date - self.now <= i64::MAX {
                relative_text((date - self.now) as i64)
            } else {
                None
            }
        } else {
            utc_text(date, self.date_format)
        }
    }

    /// The field values of a message at position `num` of `total`. Both
    /// headers are read, whatever the template uses: a failed read is an
    /// error.
    pub open spec fn message_context(
        self,
        m: MessageView,
        response: Option<Seq<char>>,
        num: i32,
        total: i32,
    ) -> Result<ContextView, Error> {
        match (m.from.text(), m.subject.text()) {
            (Some(from), Some(subject)) => Ok(
                ContextView {
                    date: utc_text(m.date, self.date_format),
                    human_date: self.human_text(m.date),
                    index: num,
                    total,
                    from,
                    subject: fixed_subject(subject),
                    tags: joined(m.tags, comma()),
                    response,
                },
            ),
            _ => Err(Error::HeaderAccess),
        }
    }

    /// The field values of a thread: its newest date, the matched and
    /// total counts for `index` and `total`, its authors for `from`.
    pub open spec fn thread_context(self, t: ThreadView) -> ContextView {
        ContextView {
            date: utc_text(t.newest_date, self.date_format),
            human_date: self.human_text(t.newest_date),
            index: t.matched_messages,
            total: t.total_messages,
            from: joined(t.authors, comma()),
            subject: fixed_subject(t.subject),
            tags: joined(t.tags, comma()),
            response: None,
        }
    }

    /// The entry of a message under a cut template.
    pub open spec fn message_entry(
        self,
        template: Option<ParsedView>,
        m: MessageView,
        response: Option<Seq<char>>,
        num: i32,
        total: i32,
    ) -> Result<Seq<char>, Error> {
        match self.message_context(m, response, num, total) {
            Ok(ctx) => filled(template, ctx),
            Err(e) => Err(e),
        }
    }

    /// The record of a message: its highlight flag is decided first, the
    /// `date` condition seeing the date in the configured date format;
    /// then its entry is rendered. The first failure is the record's.
    pub open spec fn message_record(
        self,
        template: Option<ParsedView>,
        m: MessageView,
        response: Option<Seq<char>>,
        num: i32,
        total: i32,
    ) -> Result<ShowView, Error> {
        match marked(self.highlight, m, num, total, self.date_format) {
            Err(e) => Err(e),
            Ok(highlight) => match self.message_entry(template, m, response, num, total) {
                Err(e) => Err(e),
                Ok(entry) => Ok(ShowView { id: m.id, entry, highlight }),
            },
        }
    }

    /// The record of a thread: never highlighted.
    pub open spec fn thread_record(self, t: ThreadView) -> Result<ShowView, Error> {
        match filled(parsed(self.templ.regex, self.templ.templ_message), self.thread_context(t)) {
            Err(e) => Err(e),
            Ok(entry) => Ok(ShowView { id: t.id, entry, highlight: false }),
        }
    }

    /// The entry template, cut at its placeholders.
    pub open spec fn entry_template(self) -> Option<ParsedView> {
        parsed(self.templ.regex, self.templ.templ_message)
    }

    /// The reply template, cut at its placeholders.
    pub open spec fn reply_template(self) -> Option<ParsedView> {
        parsed(self.templ.regex, self.templ.templ_respons)
    }
}

/// The view of a record, or the error.
pub open spec fn show_of(out: Result<Show, Error>) -> Result<ShowView, Error> {
    match out {
        Ok(show) => Ok(show@),
        Err(e) => Err(e),
    }
}

/// The views of a list of records, or the error.
pub open spec fn shows_of(out: Result<Vec<Show>, Error>) -> Result<Seq<ShowView>, Error> {
    match out {
        Ok(shows) => Ok(shows.deep_view()),
        Err(e) => Err(e),
    }
}

impl Runtime {
    /// The date for the `Date` field, left-aligned in `pad` characters:
    /// in words when recent, else in the date format. `None` when the date
    /// cannot be written.
    pub fn humanize(&self, date: i64, pad: usize) -> (out: Option<String>)
        ensures
            out.deep_view() == match self@.human_text(date) {
                Some(text) => Some(pad_right(text, pad as int)),
                None => None,
            },
    {
        let text = if date > self.humanize_range {
            match date.checked_sub(self.now) {
                Some(delta) => humanize_span(delta),
                None => None,
            }
        } else {
            show_time(date, self.date_format.as_str())
        };
        match text {
            Some(t) => Some(string_of(&pad_right_chars(&chars_of(t.as_str()), pad))),
            None => None,
        }
    }

    /// Collects the field values of a message.
    pub fn message_context(
        &self,
        message: &Message,
        response: Option<String>,
        num: i32,
        total: i32,
    ) -> (out: Result<Context, Error>)
        ensures
            match out {
                Ok(ctx) => self@.message_context(message@, response.deep_view(), num, total) == Ok::<
                    ContextView,
                    Error,
                >(ctx@),
                Err(e) => self@.message_context(message@, response.deep_view(), num, total) == Err::<
                    ContextView,
                    Error,
                >(e),
            },
    {
        let from = match message.from.text() {
            Some(from) => from,
            None => {
                return Err(Error::HeaderAccess);
            },
        };
        let tags = join(&message.tags, ", ");
        let date = show_time(message.date, self.date_format.as_str());
        let subject = match message.subject.text() {
            Some(subject) => subject,
            None => {
                return Err(Error::HeaderAccess);
            },
        };
        let subfixed = fix_subject(subject.as_str());
        let human_date = self.humanize(message.date, 0);
        proof {
            if self@.human_text(message.date) is Some {
                assert(pad_right(self@.human_text(message.date)->0, 0) =~= self@.human_text(
                    message.date,
                )->0);
            }
        }
        Ok(
            Context {
                date,
                human_date,
                index: num,
                total,
                from,
                subject: subfixed,
                tags,
                response,
            },
        )
    }

    /// Collects the field values of a thread.
    pub fn thread_context(&self, thread: &Thread) -> (ctx: Context)
        ensures
            ctx@ == self@.thread_context(thread@),
    {
        let subfixed = fix_subject(thread.subject.as_str());
        let authors = join(&thread.authors, ", ");
        let date = show_time(thread.newest_date, self.date_format.as_str());
        let tags = join(&thread.tags, ", ");
        let human_date = self.humanize(thread.newest_date, 0);
        proof {
            if self@.human_text(thread.newest_date) is Some {
                assert(pad_right(self@.human_text(thread.newest_date)->0, 0)
                    =~= self@.human_text(thread.newest_date)->0);
            }
        }
        Context {
            date,
            human_date,
            index: thread.matched_messages,
            total: thread.total_messages,
            from: authors,
            subject: subfixed,
            tags,
            response: None,
        }
    }

    /// Renders the entry of a message at position `num` of `total` from
    /// `template`; `response` is the tree connector of a reply.
    pub fn template_message(
        &self,
        template: &str,
        message: &Message,
        response: Option<String>,
        num: i32,
        total: i32,
    ) -> (out: Result<String, Error>)
        ensures
            text_of(out) == self@.message_entry(
                parsed(self@.templ.regex, template@),
                message@,
                response.deep_view(),
                num,
                total,
            ),
    {
        let ctx = match self.message_context(message, response, num, total) {
            Ok(ctx) => ctx,
            Err(e) => {
                return Err(e);
            },
        };
        let cut = parse(self.templ.regex.as_str(), template);
        fill(&cut, &ctx)
    }

    /// Renders the entry of a thread from `template`.
    pub fn template_thread(&self, template: &str, thread: &Thread) -> (out: Result<String, Error>)
        ensures
            text_of(out) == filled(
                parsed(self@.templ.regex, template@),
                self@.thread_context(thread@),
            ),
    {
        let ctx = self.thread_context(thread);
        let cut = parse(self.templ.regex.as_str(), template);
        fill(&cut, &ctx)
    }

    /// The record of a message under a cut template.
    pub fn message_record(
        &self,
        template: &Option<Parsed>,
        message: &Message,
        response: Option<String>,
        num: i32,
        total: i32,
    ) -> (out: Result<Show, Error>)
        ensures
            show_of(out) == self@.message_record(
                template.deep_view(),
                message@,
                response.deep_view(),
                num,
                total,
            ),
    {
        let highlight = match &self.highlight {
            None => false,
            Some(hl) => match hl.message(message, num, total, self.date_format.as_str()) {
                Ok(highlight) => highlight,
                Err(e) => {
                    return Err(e);
                },
            },
        };
        let ctx = match self.message_context(message, response, num, total) {
            Ok(ctx) => ctx,
            Err(e) => {
                return Err(e);
            },
        };
        match fill(template, &ctx) {
            Ok(entry) => Ok(Show { id: message.id.clone(), entry, highlight }),
            Err(e) => Err(e),
        }
    }

    /// One record per thread, in the order given: the thread's id and its
    /// entry under the entry template, never highlighted. The first thread
    /// that cannot be rendered ends the run with its error.
    pub fn show_threads(&self, threads: &Vec<Thread>) -> (out: Result<Vec<Show>, Error>)
        ensures
            shows_of(out) == thread_records(self@, threads.deep_view(), threads.len() as nat),
    {
        let cut = parse(self.templ.regex.as_str(), self.templ.templ_message.as_str());
        let mut shows: Vec<Show> = Vec::new();
        assert(shows.deep_view() =~= Seq::<ShowView>::empty());
        let mut i: usize = 0;
        while i < threads.len()
            invariant
                i <= threads.len(),
                cut.deep_view() == self@.entry_template(),
                thread_records(self@, threads.deep_view(), i as nat) == Ok::<Seq<ShowView>, Error>(
                    shows.deep_view(),
                ),
            decreases threads.len() - i,
        {
            let thread = &threads[i];
            assert(threads.deep_view()[i as int] == thread@);
            let ctx = self.thread_context(thread);
            match fill(&cut, &ctx) {
                Ok(entry) => {
                    let ghost before = shows.deep_view();
                    let show = Show { id: thread.id.clone(), entry, highlight: false };
                    shows.push(show);
                    assert(shows.deep_view() =~= before.push(show@));
                },
                Err(e) => {
                    proof {
                        lemma_thread_error(self@, threads.deep_view(), i as nat, threads.len() as nat);
                    }
                    return Err(e);
                },
            }
            i = i + 1;
        }
        Ok(shows)
    }
}

/// The records of the first `n` threads, or the error of the first one
/// among them that cannot be rendered.
pub open spec fn thread_records(rt: RuntimeView, threads: Seq<ThreadView>, n: nat) -> Result<
    Seq<ShowView>,
    Error,
>
    decreases n,
{
    if n == 0 {
        Ok(Seq::empty())
    } else {
        match thread_records(rt, threads, (n - 1) as nat) {
            Err(e) => Err(e),
            Ok(shows) => match rt.thread_record(threads[n - 1]) {
                Err(e) => Err(e),
                Ok(show) => Ok(shows.push(show)),
            },
        }
    }
}

/// A thread that cannot be rendered fails the run, however many follow.
proof fn lemma_thread_error(rt: RuntimeView, threads: Seq<ThreadView>, i: nat, n: nat)
    requires
        i < n,
        thread_records(rt, threads, i) is Ok,
        rt.thread_record(threads[i as int]) is Err,
    ensures
        thread_records(rt, threads, n) == Err::<Seq<ShowView>, Error>(
            rt.thread_record(threads[i as int])->Err_0,
        ),
    decreases n,
{
    if n > i + 1 {
        lemma_thread_error(rt, threads, i, (n - 1) as nat);
    }
}

} // verus!
