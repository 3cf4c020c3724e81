use nm_livesearch::error::{Error, TemplateFault};
use nm_livesearch::template::{
    expand, fill, parse, parse_width, render, substitute, Context, Parsed, Placeholder,
    PLACEHOLDER,
};

fn context() -> Context {
    Context {
        date: Some("2021-11-09".to_string()),
        human_date: Some("3 days ago".to_string()),
        index: 7,
        total: 12,
        from: "a@b.com".to_string(),
        subject: "Hello".to_string(),
        tags: "inbox, unread".to_string(),
        response: None,
    }
}

fn placeholder(field: Option<&str>, width: Option<&str>) -> Placeholder {
    Placeholder { field: field.map(|s| s.to_string()), width: width.map(|s| s.to_string()) }
}

fn chars(text: Result<Vec<char>, Error>) -> Result<String, Error> {
    text.map(|c| c.into_iter().collect())
}

#[test]
fn index_is_zero_padded() {
    assert_eq!(render(PLACEHOLDER, "{index:03}", &context()), Ok("007".to_string()));
}

#[test]
fn from_is_space_padded_to_width() {
    assert_eq!(render(PLACEHOLDER, "{from:10}", &context()), Ok("a@b.com   ".to_string()));
}

#[test]
fn total_is_zero_padded() {
    assert_eq!(render(PLACEHOLDER, "[{index:02}/{total:02}]", &context()), Ok("[07/12]".to_string()));
    assert_eq!(render(PLACEHOLDER, "{total:5}", &context()), Ok("00012".to_string()));
    assert_eq!(render(PLACEHOLDER, "{total:1}", &context()), Ok("12".to_string()));
}

#[test]
fn the_default_entry_template() {
    let out = render(
        PLACEHOLDER,
        "{date} [{index:02}/{total:02}] {from:25}│ {subject} ({tags})",
        &context(),
    );
    assert_eq!(
        out,
        Ok("2021-11-09 [07/12] a@b.com                  │ Hello (inbox, unread)".to_string())
    );
}

#[test]
fn the_default_reply_template() {
    let mut ctx = context();
    ctx.response = Some("│ └──".to_string());
    let out = render(
        PLACEHOLDER,
        "{date} [{index:02}/{total:02}] {from:25}│ {response}▶ ({tags})",
        &ctx,
    );
    assert_eq!(
        out,
        Ok("2021-11-09 [07/12] a@b.com                  │ │ └──▶ (inbox, unread)".to_string())
    );
}

#[test]
fn text_without_placeholders_is_kept() {
    assert_eq!(render(PLACEHOLDER, "no fields here", &context()), Ok("no fields here".to_string()));
    assert_eq!(render(PLACEHOLDER, "", &context()), Ok(String::new()));
}

#[test]
fn human_date_and_date_fields() {
    assert_eq!(render(PLACEHOLDER, "{Date:12}|", &context()), Ok("3 days ago  |".to_string()));
    assert_eq!(render(PLACEHOLDER, "{date:12}|", &context()), Ok("2021-11-09  |".to_string()));
    assert_eq!(render(PLACEHOLDER, "{date:3}|", &context()), Ok("2021-11-09|".to_string()));
}

#[test]
fn field_names_are_trimmed() {
    assert_eq!(render(PLACEHOLDER, "{ subject }", &context()), Ok("Hello".to_string()));
    assert_eq!(render(PLACEHOLDER, "{subject :7}|", &context()), Ok("Hello  |".to_string()));
}

#[test]
fn width_may_follow_the_name_directly() {
    assert_eq!(render(PLACEHOLDER, "{index03}", &context()), Ok("007".to_string()));
}

#[test]
fn adjacent_placeholders() {
    assert_eq!(render(PLACEHOLDER, "{index}{total}", &context()), Ok("712".to_string()));
    assert_eq!(render(PLACEHOLDER, "{index}-{total}-", &context()), Ok("7-12-".to_string()));
}

#[test]
fn unmatched_braces_stay_literal() {
    assert_eq!(render(PLACEHOLDER, "{a:b}", &context()), Ok("{a:b}".to_string()));
    assert_eq!(render(PLACEHOLDER, "{subject", &context()), Ok("{subject".to_string()));
    assert_eq!(render(PLACEHOLDER, "{subject}}", &context()), Ok("Hello}".to_string()));
}

#[test]
fn unknown_field_is_a_template_error() {
    assert_eq!(
        render(PLACEHOLDER, "{to}", &context()),
        Err(Error::Template(TemplateFault::UnknownField))
    );
    assert_eq!(
        render(PLACEHOLDER, "{}", &context()),
        Err(Error::Template(TemplateFault::UnknownField))
    );
    assert_eq!(
        render(PLACEHOLDER, "{12}", &context()),
        Err(Error::Template(TemplateFault::UnknownField))
    );
    assert_eq!(
        render(PLACEHOLDER, "{Subject}", &context()),
        Err(Error::Template(TemplateFault::UnknownField))
    );
}

#[test]
fn response_outside_a_tree_is_a_template_error() {
    assert_eq!(
        render(PLACEHOLDER, "{subject} {response}", &context()),
        Err(Error::Template(TemplateFault::ResponseOutsideTree))
    );
}

#[test]
fn the_first_failing_placeholder_decides() {
    assert_eq!(
        render(PLACEHOLDER, "{response} {to}", &context()),
        Err(Error::Template(TemplateFault::ResponseOutsideTree))
    );
    assert_eq!(
        render(PLACEHOLDER, "{to} {response}", &context()),
        Err(Error::Template(TemplateFault::UnknownField))
    );
}

#[test]
fn a_date_that_cannot_be_written_fails_only_where_used() {
    let mut ctx = context();
    ctx.date = None;
    ctx.human_date = None;
    assert_eq!(render(PLACEHOLDER, "{subject}", &ctx), Ok("Hello".to_string()));
    assert_eq!(render(PLACEHOLDER, "{date}", &ctx), Err(Error::Date));
    assert_eq!(render(PLACEHOLDER, "{Date}", &ctx), Err(Error::Date));
}

#[test]
fn width_must_be_ascii_digits_that_fit() {
    assert_eq!(
        render(PLACEHOLDER, "{index:٣}", &context()),
        Err(Error::Template(TemplateFault::Width))
    );
    assert_eq!(
        render(PLACEHOLDER, "{index:99999999999999999999999999}", &context()),
        Err(Error::Template(TemplateFault::Width))
    );
}

#[test]
fn width_is_read_before_the_field() {
    assert_eq!(
        render(PLACEHOLDER, "{to:٣}", &context()),
        Err(Error::Template(TemplateFault::Width))
    );
}

#[test]
fn invalid_pattern_is_a_template_error() {
    assert_eq!(
        render("(", "{index}", &context()),
        Err(Error::Template(TemplateFault::Pattern))
    );
    assert_eq!(parse("(", "{index}"), None);
    assert_eq!(fill(&None, &context()), Err(Error::Template(TemplateFault::Pattern)));
}

#[test]
fn a_match_without_field_group_is_a_syntax_error() {
    assert_eq!(
        render(r"<(\w+)?>", "<>", &context()),
        Err(Error::Template(TemplateFault::Syntax))
    );
    assert_eq!(render(r"<(\w+)?>", "<index>", &context()), Ok("7".to_string()));
}

#[test]
fn another_pattern_finds_other_placeholders() {
    assert_eq!(
        render(r"%(\w+)(?:\.(\d+))?%", "%index.4% {index}", &context()),
        Ok("0007 {index}".to_string())
    );
}

#[test]
fn parse_cuts_at_placeholders() {
    let cut = parse(PLACEHOLDER, "a {index:03} b {from} c");
    assert_eq!(
        cut,
        Some(Parsed {
            literals: vec!["a ".to_string(), " b ".to_string(), " c".to_string()],
            groups: vec![placeholder(Some("index"), Some("03")), placeholder(Some("from"), None)],
        })
    );
}

#[test]
fn parse_of_plain_and_empty_text() {
    assert_eq!(
        parse(PLACEHOLDER, "plain"),
        Some(Parsed { literals: vec!["plain".to_string()], groups: Vec::new() })
    );
    assert_eq!(
        parse(PLACEHOLDER, ""),
        Some(Parsed { literals: vec![String::new()], groups: Vec::new() })
    );
    assert_eq!(
        parse(PLACEHOLDER, "{tags}"),
        Some(Parsed {
            literals: vec![String::new(), String::new()],
            groups: vec![placeholder(Some("tags"), None)],
        })
    );
}

#[test]
fn substitute_weaves_literals_and_fills() {
    let cut = Parsed {
        literals: vec!["<".to_string(), "|".to_string(), ">".to_string()],
        groups: vec![placeholder(Some("index"), Some("2")), placeholder(Some("subject"), None)],
    };
    assert_eq!(substitute(&cut, &context()), Ok("<07|Hello>".to_string()));
}

#[test]
fn substitute_with_uneven_parts() {
    let more_fills = Parsed {
        literals: vec!["<".to_string()],
        groups: vec![placeholder(Some("index"), None), placeholder(Some("total"), None)],
    };
    assert_eq!(substitute(&more_fills, &context()), Ok("<712".to_string()));
    let more_literals = Parsed {
        literals: vec!["a".to_string(), "b".to_string(), "c".to_string()],
        groups: vec![placeholder(Some("index"), None)],
    };
    assert_eq!(substitute(&more_literals, &context()), Ok("a7bc".to_string()));
    let nothing = Parsed { literals: Vec::new(), groups: Vec::new() };
    assert_eq!(substitute(&nothing, &context()), Ok(String::new()));
}

#[test]
fn parse_width_reads_decimal_numbers() {
    assert_eq!(parse_width(&None), Some(0));
    assert_eq!(parse_width(&Some("0".to_string())), Some(0));
    assert_eq!(parse_width(&Some("03".to_string())), Some(3));
    assert_eq!(parse_width(&Some("25".to_string())), Some(25));
    assert_eq!(parse_width(&Some(usize::MAX.to_string())), Some(usize::MAX));
}

#[test]
fn parse_width_refuses_everything_else() {
    assert_eq!(parse_width(&Some(String::new())), None);
    assert_eq!(parse_width(&Some("+5".to_string())), None);
    assert_eq!(parse_width(&Some("-5".to_string())), None);
    assert_eq!(parse_width(&Some("5 ".to_string())), None);
    assert_eq!(parse_width(&Some("1a".to_string())), None);
    assert_eq!(parse_width(&Some("18446744073709551616".to_string())), None);
    assert_eq!(parse_width(&Some("99999999999999999999x".to_string())), None);
}

#[test]
fn expand_one_placeholder() {
    assert_eq!(chars(expand(&context(), &placeholder(Some("tags"), Some("15")))), Ok("inbox, unread  ".to_string()));
    assert_eq!(
        chars(expand(&context(), &placeholder(None, None))),
        Err(Error::Template(TemplateFault::Syntax))
    );
    assert_eq!(
        chars(expand(&context(), &placeholder(None, Some("x")))),
        Err(Error::Template(TemplateFault::Width))
    );
}

#[test]
fn negative_counters_keep_their_sign_behind_the_zeros() {
    let mut ctx = context();
    ctx.index = -5;
    assert_eq!(render(PLACEHOLDER, "{index:4}", &ctx), Ok("00-5".to_string()));
}
