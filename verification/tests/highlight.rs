use nm_livesearch::error::Error;
use nm_livesearch::highlight::{check, empty, Highlight};
use nm_livesearch::message::{Header, Message};

fn none() -> Highlight {
    Highlight {
        id: None,
        date: None,
        num: None,
        total: None,
        from: None,
        subject: None,
        tags: None,
        matched: None,
        excluded: None,
    }
}

fn message() -> Message {
    Message {
        id: "m1@example.org".to_string(),
        date: 1_636_416_000,
        from: Header::Value("Mr Apa <apa@bep.com>".to_string()),
        subject: Header::Value("Hello".to_string()),
        tags: vec!["inbox".to_string(), "x".to_string()],
        matched: true,
        excluded: false,
        replies: Vec::new(),
    }
}

#[test]
fn highlight_without_conditions_marks_nothing() {
    let hl = none();
    assert_eq!(hl.message(&message(), 1, 1, "%Y-%m-%d"), Ok(false));
    let mut other = message();
    other.from = Header::Failed;
    other.subject = Header::Failed;
    other.date = i64::MAX;
    assert_eq!(hl.message(&other, 3, 9, "%Y-%m-%d"), Ok(false));
}

#[test]
fn tags_only_marks_messages_with_the_tag() {
    let mut hl = none();
    hl.tags = Some(vec!["x".to_string()]);
    assert_eq!(hl.message(&message(), 1, 1, "%Y-%m-%d"), Ok(true));
    let mut without = message();
    without.tags = vec!["inbox".to_string()];
    assert_eq!(hl.message(&without, 1, 1, "%Y-%m-%d"), Ok(false));
    let mut broken = message();
    broken.from = Header::Failed;
    broken.subject = Header::Failed;
    broken.date = i64::MAX;
    broken.matched = false;
    assert_eq!(hl.message(&broken, 5, 7, "%Y-%m-%d"), Ok(true));
}

#[test]
fn tags_need_not_be_exhaustive_but_all_present() {
    let mut hl = none();
    hl.tags = Some(vec!["x".to_string(), "inbox".to_string()]);
    assert_eq!(hl.message(&message(), 1, 1, "%Y-%m-%d"), Ok(true));
    hl.tags = Some(vec!["x".to_string(), "unread".to_string()]);
    assert_eq!(hl.message(&message(), 1, 1, "%Y-%m-%d"), Ok(false));
    hl.tags = Some(Vec::new());
    assert_eq!(hl.message(&message(), 1, 1, "%Y-%m-%d"), Ok(true));
}

#[test]
fn id_is_compared_exactly() {
    let mut hl = none();
    hl.id = Some("m1@example.org".to_string());
    assert_eq!(hl.message(&message(), 1, 1, "%Y-%m-%d"), Ok(true));
    hl.id = Some("m1@example".to_string());
    assert_eq!(hl.message(&message(), 1, 1, "%Y-%m-%d"), Ok(false));
}

#[test]
fn date_matches_a_part_of_the_day() {
    let mut hl = none();
    hl.date = Some("2021-11".to_string());
    assert_eq!(hl.message(&message(), 1, 1, "%Y-%m-%d"), Ok(true));
    hl.date = Some("2021-11-09".to_string());
    assert_eq!(hl.message(&message(), 1, 1, "%Y-%m-%d"), Ok(true));
    hl.date = Some("2021-12".to_string());
    assert_eq!(hl.message(&message(), 1, 1, "%Y-%m-%d"), Ok(false));
}

#[test]
fn date_is_seen_in_the_active_format() {
    let mut hl = none();
    hl.date = Some("2021-11".to_string());
    assert_eq!(hl.message(&message(), 1, 1, "%d/%m/%Y"), Ok(false));
    assert_eq!(hl.message(&message(), 1, 1, "%Y-%m-%d %H:%M"), Ok(true));
    hl.date = Some("09/11".to_string());
    assert_eq!(hl.message(&message(), 1, 1, "%d/%m/%Y"), Ok(true));
    assert_eq!(hl.message(&message(), 1, 1, "%Y-%m-%d"), Ok(false));
    hl.date = Some("Nov".to_string());
    assert_eq!(hl.message(&message(), 1, 1, "%e %b %Y"), Ok(true));
}

#[test]
fn date_under_an_invalid_format_is_an_error() {
    let mut hl = none();
    hl.date = Some("2021".to_string());
    assert_eq!(hl.message(&message(), 1, 1, "%Q"), Err(Error::Date));
    hl.id = Some("other".to_string());
    assert_eq!(hl.message(&message(), 1, 1, "%Q"), Ok(false));
    let mut tags = none();
    tags.tags = Some(vec!["x".to_string()]);
    assert_eq!(tags.message(&message(), 1, 1, "%Q"), Ok(true));
}

#[test]
fn message_on_day_takes_the_date_text() {
    let mut hl = none();
    hl.date = Some("2021-11".to_string());
    let m = message();
    assert_eq!(hl.message_on_day(&m, 1, 1, &Some("2021-11-09".to_string())), Ok(true));
    assert_eq!(hl.message_on_day(&m, 1, 1, &Some("09/11/2021".to_string())), Ok(false));
    assert_eq!(hl.message_on_day(&m, 1, 1, &Some(String::new())), Ok(false));
    assert_eq!(hl.message_on_day(&m, 1, 1, &None), Err(Error::Date));
    hl.date = Some(String::new());
    assert_eq!(hl.message_on_day(&m, 1, 1, &Some("anything".to_string())), Ok(true));
}

#[test]
fn message_on_day_ignores_the_text_without_date_condition() {
    let mut hl = none();
    hl.num = Some(1);
    let m = message();
    assert_eq!(hl.message_on_day(&m, 1, 1, &None), Ok(true));
    assert_eq!(hl.message_on_day(&m, 1, 1, &Some("x".to_string())), Ok(true));
    assert_eq!(hl.message_on_day(&m, 2, 1, &None), Ok(false));
    assert_eq!(none().message_on_day(&m, 1, 1, &None), Ok(false));
}

#[test]
fn date_that_cannot_be_written_is_an_error() {
    let mut hl = none();
    hl.date = Some("2021".to_string());
    let mut m = message();
    m.date = i64::MAX;
    assert_eq!(hl.message(&m, 1, 1, "%Y-%m-%d"), Err(Error::Date));
}

#[test]
fn position_is_compared_exactly() {
    let mut hl = none();
    hl.num = Some(2);
    assert_eq!(hl.message(&message(), 2, 5, "%Y-%m-%d"), Ok(true));
    assert_eq!(hl.message(&message(), 3, 5, "%Y-%m-%d"), Ok(false));
    hl.total = Some(5);
    assert_eq!(hl.message(&message(), 2, 5, "%Y-%m-%d"), Ok(true));
    assert_eq!(hl.message(&message(), 2, 6, "%Y-%m-%d"), Ok(false));
}

#[test]
fn from_matches_a_part_of_the_raw_header() {
    let mut hl = none();
    hl.from = Some("apa@bep.com".to_string());
    assert_eq!(hl.message(&message(), 1, 1, "%Y-%m-%d"), Ok(true));
    hl.from = Some("bep@apa.com".to_string());
    assert_eq!(hl.message(&message(), 1, 1, "%Y-%m-%d"), Ok(false));
    let mut missing = message();
    missing.from = Header::Missing;
    assert_eq!(hl.message(&missing, 1, 1, "%Y-%m-%d"), Ok(false));
    hl.from = Some(String::new());
    assert_eq!(hl.message(&missing, 1, 1, "%Y-%m-%d"), Ok(true));
}

#[test]
fn subject_is_compared_exactly() {
    let mut hl = none();
    hl.subject = Some("Hello".to_string());
    assert_eq!(hl.message(&message(), 1, 1, "%Y-%m-%d"), Ok(true));
    hl.subject = Some("Hell".to_string());
    assert_eq!(hl.message(&message(), 1, 1, "%Y-%m-%d"), Ok(false));
    let mut missing = message();
    missing.subject = Header::Missing;
    assert_eq!(hl.message(&missing, 1, 1, "%Y-%m-%d"), Ok(false));
    hl.subject = Some(String::new());
    assert_eq!(hl.message(&missing, 1, 1, "%Y-%m-%d"), Ok(true));
}

#[test]
fn flags_are_compared_exactly() {
    let mut hl = none();
    hl.matched = Some(true);
    assert_eq!(hl.message(&message(), 1, 1, "%Y-%m-%d"), Ok(true));
    hl.matched = Some(false);
    assert_eq!(hl.message(&message(), 1, 1, "%Y-%m-%d"), Ok(false));
    let mut hl = none();
    hl.excluded = Some(false);
    assert_eq!(hl.message(&message(), 1, 1, "%Y-%m-%d"), Ok(true));
    hl.excluded = Some(true);
    assert_eq!(hl.message(&message(), 1, 1, "%Y-%m-%d"), Ok(false));
}

#[test]
fn failed_header_is_an_error_only_when_read() {
    let mut m = message();
    m.from = Header::Failed;
    m.subject = Header::Failed;
    let mut hl = none();
    hl.from = Some("apa".to_string());
    assert_eq!(hl.message(&m, 1, 1, "%Y-%m-%d"), Err(Error::HeaderAccess));
    let mut hl = none();
    hl.subject = Some("Hello".to_string());
    assert_eq!(hl.message(&m, 1, 1, "%Y-%m-%d"), Err(Error::HeaderAccess));
    let mut hl = none();
    hl.id = Some("other".to_string());
    hl.from = Some("apa".to_string());
    assert_eq!(hl.message(&m, 1, 1, "%Y-%m-%d"), Ok(false));
    let mut hl = none();
    hl.num = Some(4);
    hl.subject = Some("Hello".to_string());
    assert_eq!(hl.message(&m, 1, 1, "%Y-%m-%d"), Ok(false));
}

#[test]
fn every_condition_has_to_hold() {
    let mut hl = none();
    hl.id = Some("m1@example.org".to_string());
    hl.date = Some("2021".to_string());
    hl.num = Some(1);
    hl.total = Some(1);
    hl.from = Some("Apa".to_string());
    hl.subject = Some("Hello".to_string());
    hl.tags = Some(vec!["inbox".to_string()]);
    hl.matched = Some(true);
    hl.excluded = Some(false);
    assert_eq!(hl.message(&message(), 1, 1, "%Y-%m-%d"), Ok(true));
    hl.excluded = Some(true);
    assert_eq!(hl.message(&message(), 1, 1, "%Y-%m-%d"), Ok(false));
}

#[test]
fn check_tells_inert_highlights() {
    assert!(check(&none()));
    let mut hl = none();
    hl.excluded = Some(false);
    assert!(!check(&hl));
    let mut hl = none();
    hl.tags = Some(Vec::new());
    assert!(!check(&hl));
}

#[test]
fn empty_normalises_inert_highlights() {
    assert_eq!(empty(None), None);
    assert_eq!(empty(Some(none())), None);
    let mut hl = none();
    hl.num = Some(3);
    let kept = empty(Some(hl.clone()));
    assert_eq!(kept, Some(hl));
}
