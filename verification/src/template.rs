//! The template engine: placeholders of a template string are found with a
//! regular expression and replaced by the fields of a context.

use vstd::prelude::*;
use crate::error::{Error, TemplateFault};
use crate::text::{
    chars_of, decimal, decimal_chars, pad_right, pad_right_chars, pad_zeros, pad_zeros_chars,
    push_all, same_chars, string_of, trim_chars, trimmed,
};

verus! {

/// The pattern of the placeholder grammar: `{field}` or `{field:width}`.
/// Its first group is the field name, its second the width.
pub const PLACEHOLDER: &'static str = r"\{([^:]*?):?(\d+)?\}";

/// The placeholder pattern and the two template strings: one for threads
/// and top-level messages, one for replies inside a tree.
#[derive(Clone, Debug, PartialEq, Eq)]
pub struct Templ {
    /// Source of the regular expression that finds placeholders.
    pub regex: String,
    pub templ_message: String,
    pub templ_respons: String,
}

/// Mathematical view of a [`Templ`].
pub struct TemplView {
    pub regex: Seq<char>,
    pub templ_message: Seq<char>,
    pub templ_respons: Seq<char>,
}

impl View for Templ {
    type V = TemplView;

    open spec fn view(&self) -> TemplView {
        TemplView {
            regex: self.regex@,
            templ_message: self.templ_message@,
            templ_respons: self.templ_respons@,
        }
    }
}

/// The values that placeholders stand for, for one message or thread.
#[derive(Clone, Debug, PartialEq, Eq)]
pub struct Context {
    /// The date in the configured format; `None` when it cannot be written.
    pub date: Option<String>,
    /// The date in words when recent, else as `date`; `None` when it cannot
    /// be written.
    pub human_date: Option<String>,
    pub index: i32,
    pub total: i32,
    pub from: String,
    pub subject: String,
    pub tags: String,
    /// The tree connector; only replies inside a tree have one.
    pub response: Option<String>,
}

/// Mathematical view of a [`Context`].
pub struct ContextView {
    pub date: Option<Seq<char>>,
    pub human_date: Option<Seq<char>>,
    pub index: i32,
    pub total: i32,
    pub from: Seq<char>,
    pub subject: Seq<char>,
    pub tags: Seq<char>,
    pub response: Option<Seq<char>>,
}

impl View for Context {
    type V = ContextView;

    open spec fn view(&self) -> ContextView {
        ContextView {
            date: self.date.deep_view(),
            human_date: self.human_date.deep_view(),
            index: self.index,
            total: self.total,
            from: self.from@,
            subject: self.subject@,
            tags: self.tags@,
            response: self.response.deep_view(),
        }
    }
}

/// One match of the placeholder pattern: the text of its first two groups,
/// where they took part in the match.
#[derive(Clone, Debug, PartialEq, Eq)]
pub struct Placeholder {
    pub field: Option<String>,
    pub width: Option<String>,
}

impl View for Placeholder {
    type V = (Option<Seq<char>>, Option<Seq<char>>);

    open spec fn view(&self) -> (Option<Seq<char>>, Option<Seq<char>>) {
        (self.field.deep_view(), self.width.deep_view())
    }
}

impl DeepView for Placeholder {
    type V = (Option<Seq<char>>, Option<Seq<char>>);

    open spec fn deep_view(&self) -> (Option<Seq<char>>, Option<Seq<char>>) {
        self.view()
    }
}

/// A template cut at its placeholders.
#[derive(Clone, Debug, PartialEq, Eq)]
pub struct Parsed {
    /// The text before, between and after the placeholders.
    pub literals: Vec<String>,
    /// The placeholders, in the order in which they occur.
    pub groups: Vec<Placeholder>,
}

/// Mathematical view of a [`Parsed`].
pub struct ParsedView {
    pub literals: Seq<Seq<char>>,
    pub groups: Seq<(Option<Seq<char>>, Option<Seq<char>>)>,
}

impl View for Parsed {
    type V = ParsedView;

    open spec fn view(&self) -> ParsedView {
        ParsedView { literals: self.literals.deep_view(), groups: self.groups.deep_view() }
    }
}

impl DeepView for Parsed {
    type V = ParsedView;

    open spec fn deep_view(&self) -> ParsedView {
        self.view()
    }
}

/// The parts of `text` that no match of the regular expression `pattern`
/// covers, as the regex crate's `split` yields them; `None` when `pattern`
/// does not compile.
pub uninterp spec fn literal_runs(pattern: Seq<char>, text: Seq<char>) -> Option<Seq<Seq<char>>>;

/// For each successive non-overlapping match of the regular expression
/// `pattern` in `text`, as the regex crate's `captures_iter` yields them,
/// what its groups 1 and 2 matched; `None` when `pattern` does not compile.
pub uninterp spec fn placeholder_groups(pattern: Seq<char>, text: Seq<char>) -> Option<
    Seq<(Option<Seq<char>>, Option<Seq<char>>)>,
>;

/// Cuts `text` at the matches of `pattern` with `regex::Regex::split`, the
/// pattern compiled by `Regex::new`. Returns the substrings that `split`
/// yields, in order, or `None` when the pattern does not compile.
#[verifier::external_body]
fn split_literals(pattern: &str, text: &str) -> (out: Option<Vec<String>>)
    ensures
        out.deep_view() == literal_runs(pattern@, text@),
{
    match regex::Regex::new(pattern) {
        Ok(re) => Some(re.split(text).map(|run| run.to_string()).collect()),
        Err(_) => None,
    }
}

/// Finds the matches of `pattern` in `text` with
/// `regex::Regex::captures_iter`, the pattern compiled by `Regex::new`.
/// Returns, for each match in order, the text of groups 1 and 2 (`None` for
/// a group that did not take part), or `None` when the pattern does not
/// compile.
#[verifier::external_body]
fn find_placeholders(pattern: &str, text: &str) -> (out: Option<Vec<Placeholder>>)
    ensures
        out.deep_view() == placeholder_groups(pattern@, text@),
{
    match regex::Regex::new(pattern) {
        Ok(re) => Some(
            re.captures_iter(text).map(
                |caps|
                    Placeholder {
                        field: caps.get(1).map(|m| m.as_str().to_string()),
                        width: caps.get(2).map(|m| m.as_str().to_string()),
                    },
            ).collect(),
        ),
        Err(_) => None,
    }
}

/// `template` cut at the placeholders that `pattern` finds; `None` when the
/// pattern does not compile.
pub open spec fn parsed(pattern: Seq<char>, template: Seq<char>) -> Option<ParsedView> {
    match (literal_runs(pattern, template), placeholder_groups(pattern, template)) {
        (Some(literals), Some(groups)) => Some(ParsedView { literals, groups }),
        _ => None,
    }
}

/// Cuts a template at its placeholders.
pub fn parse(pattern: &str, template: &str) -> (out: Option<Parsed>)
    ensures
        out.deep_view() == parsed(pattern@, template@),
{
    match split_literals(pattern, template) {
        Some(literals) => match find_placeholders(pattern, template) {
            Some(groups) => Some(Parsed { literals, groups }),
            None => None,
        },
        None => None,
    }
}

/// The value of an ASCII decimal digit; `None` for any other character.
pub open spec fn digit_value(c: char) -> Option<nat> {
    if '0' <= c && c <= '9' {
        Some((c as nat - '0' as nat) as nat)
    } else {
        None
    }
}

/// The number that a non-empty string of ASCII digits writes; `None` for
/// any other string.
pub open spec fn number(s: Seq<char>) -> Option<nat>
    decreases s.len(),
{
    if s.len() == 0 {
        None
    } else {
        match digit_value(s.last()) {
            None => None,
            Some(d) => if s.len() == 1 {
                Some(d)
            } else {
                match number(s.drop_last()) {
                    None => None,
                    Some(n) => Some(10 * n + d),
                }
            },
        }
    }
}

/// The field width that a placeholder asks for: zero without a width
/// group, else the number that the group writes; `None` when the group is
/// not such a number or the number does not fit a `usize`.
pub open spec fn width_of(group: Option<Seq<char>>) -> Option<usize> {
    match group {
        None => Some(0usize),
        Some(text) => match number(text) {
            Some(n) => if n <= usize::MAX {
                Some(n as usize)
            } else {
                None
            },
            None => None,
        },
    }
}

/// The text of the field `name` in a field of `width` characters: the two
/// counters are right-aligned and filled with zeros, every other field is
/// left-aligned and filled with spaces.
pub open spec fn field_text(ctx: ContextView, name: Seq<char>, width: usize) -> Result<
    Seq<char>,
    Error,
> {
    if name == "Date"@ {
        match ctx.human_date {
            Some(date) => Ok(pad_right(date, width as int)),
            None => Err(Error::Date),
        }
    } else if name == "date"@ {
        match ctx.date {
            Some(date) => Ok(pad_right(date, width as int)),
            None => Err(Error::Date),
        }
    } else if name == "index"@ {
        Ok(pad_zeros(decimal(ctx.index as int), width as int))
    } else if name == "total"@ {
        Ok(pad_zeros(decimal(ctx.total as int), width as int))
    } else if name == "from"@ {
        Ok(pad_right(ctx.from, width as int))
    } else if name == "subject"@ {
        Ok(pad_right(ctx.subject, width as int))
    } else if name == "response"@ {
        match ctx.response {
            Some(response) => Ok(pad_right(response, width as int)),
            None => Err(Error::Template(TemplateFault::ResponseOutsideTree)),
        }
    } else if name == "tags"@ {
        Ok(pad_right(ctx.tags, width as int))
    } else {
        Err(Error::Template(TemplateFault::UnknownField))
    }
}

/// What one placeholder is replaced by. The width is read first, then the
/// field name, with the white space around it removed.
pub open spec fn expansion(ctx: ContextView, group: (Option<Seq<char>>, Option<Seq<char>>)) -> Result<
    Seq<char>,
    Error,
> {
    match width_of(group.1) {
        None => Err(Error::Template(TemplateFault::Width)),
        Some(width) => match group.0 {
            None => Err(Error::Template(TemplateFault::Syntax)),
            Some(name) => field_text(ctx, trimmed(name), width),
        },
    }
}

/// What the first `n` placeholders are replaced by, or the error of the
/// first one among them that has none.
pub open spec fn expansions(
    ctx: ContextView,
    groups: Seq<(Option<Seq<char>>, Option<Seq<char>>)>,
    n: nat,
) -> Result<Seq<Seq<char>>, Error>
    decreases n,
{
    if n == 0 {
        Ok(Seq::empty())
    } else {
        match expansions(ctx, groups, (n - 1) as nat) {
            Err(e) => Err(e),
            Ok(fills) => match expansion(ctx, groups[n - 1]) {
                Err(e) => Err(e),
                Ok(fill) => Ok(fills.push(fill)),
            },
        }
    }
}

/// The `i`-th of `parts`, or nothing where there is no such part.
pub open spec fn part_at(parts: Seq<Seq<char>>, i: int) -> Seq<char> {
    if 0 <= i < parts.len() {
        parts[i]
    } else {
        Seq::empty()
    }
}

/// The first `n` literals and fills in turn, a literal first.
pub open spec fn woven(literals: Seq<Seq<char>>, fills: Seq<Seq<char>>, n: nat) -> Seq<char>
    decreases n,
{
    if n == 0 {
        Seq::empty()
    } else {
        woven(literals, fills, (n - 1) as nat) + part_at(literals, n - 1) + part_at(fills, n - 1)
    }
}

/// All literals and fills in turn, a literal first.
pub open spec fn interleaved(literals: Seq<Seq<char>>, fills: Seq<Seq<char>>) -> Seq<char> {
    woven(
        literals,
        fills,
        if literals.len() >= fills.len() {
            literals.len()
        } else {
            fills.len()
        },
    )
}

/// The template with each placeholder replaced by its expansion, or the
/// error of the first placeholder that has none.
pub open spec fn substituted(template: ParsedView, ctx: ContextView) -> Result<Seq<char>, Error> {
    match expansions(ctx, template.groups, template.groups.len()) {
        Ok(fills) => Ok(interleaved(template.literals, fills)),
        Err(e) => Err(e),
    }
}

/// What a cut template renders to; one whose pattern did not compile
/// renders to a pattern fault.
pub open spec fn filled(template: Option<ParsedView>, ctx: ContextView) -> Result<Seq<char>, Error> {
    match template {
        Some(t) => substituted(t, ctx),
        None => Err(Error::Template(TemplateFault::Pattern)),
    }
}

/// What `template` renders to in `ctx` when `pattern` finds its
/// placeholders.
pub open spec fn rendered(pattern: Seq<char>, template: Seq<char>, ctx: ContextView) -> Result<
    Seq<char>,
    Error,
> {
    filled(parsed(pattern, template), ctx)
}

/// The characters of a rendered text, or the error.
pub open spec fn text_of(out: Result<String, Error>) -> Result<Seq<char>, Error> {
    match out {
        Ok(s) => Ok(s@),
        Err(e) => Err(e),
    }
}

/// Executable form of [`digit_value`].
fn digit_of(c: char) -> (d: Option<usize>)
    ensures
        match d {
            Some(v) => digit_value(c) == Some(v as nat) && v <= 9,
            None => digit_value(c) is None,
        },
{
    if '0' <= c && c <= '9' {
        Some((c as u32 - '0' as u32) as usize)
    } else {
        None
    }
}

/// A number only grows when a digit is appended.
proof fn lemma_number_grows(s: Seq<char>, k: int)
    requires
        1 <= k <= s.len(),
    ensures
        number(s) matches Some(n) ==> (number(s.take(k)) matches Some(m) && m <= n),
    decreases s.len() - k,
{
    if k == s.len() {
        assert(s.take(k) =~= s);
    } else {
        lemma_number_grows(s.drop_last(), k);
        assert(s.drop_last().take(k) =~= s.take(k));
    }
}

/// Reads the width group of a placeholder.
pub fn parse_width(group: &Option<String>) -> (width: Option<usize>)
    ensures
        width == width_of(group.deep_view()),
{
    match group {
        None => Some(0),
        Some(text) => {
            let chars = chars_of(text.as_str());
            if chars.len() == 0 {
                return None;
            }
            let mut acc: usize = 0;
            let mut i: usize = 0;
            while i < chars.len()
                invariant
                    i <= chars.len(),
                    chars@ == text@,
                    group.deep_view() == Some(text@),
                    i > 0 ==> number(chars@.take(i as int)) == Some(acc as nat),
                    i == 0 ==> acc == 0,
                decreases chars.len() - i,
            {
                proof {
                    let upto = chars@.take(i + 1);
                    lemma_number_grows(chars@, i + 1);
                    assert(upto.drop_last() =~= chars@.take(i as int));
                    assert(upto.last() == chars@[i as int]);
                    assert(digit_value(upto.last()) matches Some(d) ==> number(upto) == Some(
                        10 * (acc as nat) + d,
                    ));
                    assert(digit_value(upto.last()) is None ==> number(upto) is None);
                }
                let d = match digit_of(chars[i]) {
                    Some(d) => d,
                    None => {
                        return None;
                    },
                };
                let tenfold = match acc.checked_mul(10) {
                    Some(t) => t,
                    None => {
                        return None;
                    },
                };
                acc = match tenfold.checked_add(d) {
                    Some(t) => t,
                    None => {
                        return None;
                    },
                };
                i = i + 1;
            }
            assert(chars@.take(chars.len() as int) =~= chars@);
            Some(acc)
        },
    }
}

/// The character sequences that a vector of character vectors holds.
pub open spec fn rows(v: Seq<Vec<char>>) -> Seq<Seq<char>> {
    v.map_values(|row: Vec<char>| row@)
}

/// Whether `name` spells `word`.
fn spells(name: &Vec<char>, word: &str) -> (same: bool)
    ensures
        same == (name@ == word@),
{
    let w = chars_of(word);
    same_chars(name, &w)
}

/// The text of one field, padded to `width`.
pub fn field(ctx: &Context, name: &Vec<char>, width: usize) -> (out: Result<Vec<char>, Error>)
    ensures
        match out {
            Ok(text) => field_text(ctx@, name@, width) == Ok::<Seq<char>, Error>(text@),
            Err(e) => field_text(ctx@, name@, width) == Err::<Seq<char>, Error>(e),
        },
{
    if spells(name, "Date") {
        match &ctx.human_date {
            Some(date) => Ok(pad_right_chars(&chars_of(date.as_str()), width)),
            None => Err(Error::Date),
        }
    } else if spells(name, "date") {
        match &ctx.date {
            Some(date) => Ok(pad_right_chars(&chars_of(date.as_str()), width)),
            None => Err(Error::Date),
        }
    } else if spells(name, "index") {
        Ok(pad_zeros_chars(&decimal_chars(ctx.index), width))
    } else if spells(name, "total") {
        Ok(pad_zeros_chars(&decimal_chars(ctx.total), width))
    } else if spells(name, "from") {
        Ok(pad_right_chars(&chars_of(ctx.from.as_str()), width))
    } else if spells(name, "subject") {
        Ok(pad_right_chars(&chars_of(ctx.subject.as_str()), width))
    } else if spells(name, "response") {
        match &ctx.response {
            Some(response) => Ok(pad_right_chars(&chars_of(response.as_str()), width)),
            None => Err(Error::Template(TemplateFault::ResponseOutsideTree)),
        }
    } else if spells(name, "tags") {
        Ok(pad_right_chars(&chars_of(ctx.tags.as_str()), width))
    } else {
        Err(Error::Template(TemplateFault::UnknownField))
    }
}

/// What one placeholder is replaced by.
pub fn expand(ctx: &Context, group: &Placeholder) -> (out: Result<Vec<char>, Error>)
    ensures
        match out {
            Ok(text) => expansion(ctx@, group@) == Ok::<Seq<char>, Error>(text@),
            Err(e) => expansion(ctx@, group@) == Err::<Seq<char>, Error>(e),
        },
{
    let width = match parse_width(&group.width) {
        Some(width) => width,
        None => {
            return Err(Error::Template(TemplateFault::Width));
        },
    };
    match &group.field {
        None => Err(Error::Template(TemplateFault::Syntax)),
        Some(raw) => {
            let name = trim_chars(&chars_of(raw.as_str()));
            field(ctx, &name, width)
        },
    }
}

/// Replaces the placeholders of a cut template by their expansions in
/// `ctx`. The first placeholder that cannot be expanded gives the error.
pub fn substitute(template: &Parsed, ctx: &Context) -> (out: Result<String, Error>)
    ensures
        text_of(out) == substituted(template@, ctx@),
{
    let mut fills: Vec<Vec<char>> = Vec::new();
    assert(rows(fills@) =~= Seq::<Seq<char>>::empty());
    let mut i: usize = 0;
    while i < template.groups.len()
        invariant
            i <= template.groups.len(),
            expansions(ctx@, template@.groups, i as nat) == Ok::<Seq<Seq<char>>, Error>(
                rows(fills@),
            ),
        decreases template.groups.len() - i,
    {
        assert(template@.groups[i as int] == template.groups[i as int]@);
        match expand(ctx, &template.groups[i]) {
            Err(e) => {
                proof {
                    lemma_first_error(ctx@, template@.groups, i as nat, template.groups.len() as nat);
                }
                return Err(e);
            },
            Ok(fill) => {
                let ghost before = rows(fills@);
                fills.push(fill);
                assert(rows(fills@) =~= before.push(fill@));
            },
        }
        i = i + 1;
    }
    let rounds: usize = if template.literals.len() >= fills.len() {
        template.literals.len()
    } else {
        fills.len()
    };
    let mut text: Vec<char> = Vec::new();
    let mut k: usize = 0;
    while k < rounds
        invariant
            k <= rounds,
            text@ == woven(template@.literals, rows(fills@), k as nat),
        decreases rounds - k,
    {
        if k < template.literals.len() {
            assert(template@.literals[k as int] == template.literals[k as int]@);
            push_all(&mut text, &chars_of(template.literals[k].as_str()));
        }
        if k < fills.len() {
            assert(rows(fills@)[k as int] == fills[k as int]@);
            push_all(&mut text, &fills[k]);
        }
        k = k + 1;
        assert(text@ =~= woven(template@.literals, rows(fills@), k as nat));
    }
    Ok(string_of(&text))
}

/// An error among the first placeholders is the error of them all.
proof fn lemma_first_error(
    ctx: ContextView,
    groups: Seq<(Option<Seq<char>>, Option<Seq<char>>)>,
    i: nat,
    n: nat,
)
    requires
        i < n,
        expansions(ctx, groups, i) is Ok,
        expansion(ctx, groups[i as int]) is Err,
    ensures
        expansions(ctx, groups, n) == Err::<Seq<Seq<char>>, Error>(
            expansion(ctx, groups[i as int])->Err_0,
        ),
    decreases n,
{
    if n > i + 1 {
        lemma_first_error(ctx, groups, i, (n - 1) as nat);
    }
}

/// Renders a cut template; one whose pattern did not compile gives a
/// pattern fault.
pub fn fill(template: &Option<Parsed>, ctx: &Context) -> (out: Result<String, Error>)
    ensures
        text_of(out) == filled(template.deep_view(), ctx@),
{
    match template {
        Some(t) => substitute(t, ctx),
        None => Err(Error::Template(TemplateFault::Pattern)),
    }
}

/// Renders `template` in `ctx`, the placeholders found by `pattern`.
pub fn render(pattern: &str, template: &str, ctx: &Context) -> (out: Result<String, Error>)
    ensures
        text_of(out) == rendered(pattern@, template@, ctx@),
{
    let cut = parse(pattern, template);
    fill(&cut, ctx)
}

} // verus!
