use std::cmp::Ordering;

use nm_livesearch::highlight::Highlight;
use nm_livesearch::ordered::OrderMessage;
use nm_livesearch::runtime::Runtime;
use nm_livesearch::template::{Templ, PLACEHOLDER};
use nm_livesearch::thread::Thread;
use nm_livesearch::time::{compare_diff, compare_time, from_str, show_time, Sort};

fn runtime(now: i64, days: i64) -> Runtime {
    let highlight: Option<Highlight> = None;
    Runtime {
        templ: Templ {
            regex: PLACEHOLDER.to_string(),
            templ_message: "{date} {subject}".to_string(),
            templ_respons: "{date} {response}".to_string(),
        },
        sort: Sort::OldestFirst,
        highlight,
        date_format: "%Y-%m-%d".to_string(),
        humanize_range: now - days * 86_400,
        now,
    }
}

fn thread(oldest: i64, newest: i64) -> Thread {
    Thread {
        id: "t".to_string(),
        newest_date: newest,
        oldest_date: oldest,
        total_messages: 0,
        matched_messages: 0,
        authors: Vec::new(),
        subject: String::new(),
        tags: Vec::new(),
        toplevel_messages: Vec::new(),
    }
}

#[test]
fn show_time_formats_utc_dates() {
    assert_eq!(show_time(0, "%Y-%m-%d"), Some("1970-01-01".to_string()));
    assert_eq!(show_time(1_636_416_000, "%Y-%m-%d"), Some("2021-11-09".to_string()));
    assert_eq!(show_time(1_636_416_000 + 3_661, "%H:%M:%S"), Some("01:01:01".to_string()));
    assert_eq!(show_time(-1, "%Y-%m-%d %H:%M:%S"), Some("1969-12-31 23:59:59".to_string()));
}

#[test]
fn show_time_copies_literal_text() {
    assert_eq!(show_time(0, "on %d.%m."), Some("on 01.01.".to_string()));
    assert_eq!(show_time(0, ""), Some(String::new()));
}

#[test]
fn show_time_refuses_dates_out_of_range() {
    assert_eq!(show_time(i64::MAX, "%Y-%m-%d"), None);
    assert_eq!(show_time(i64::MIN, "%Y-%m-%d"), None);
}

#[test]
fn show_time_refuses_invalid_formats() {
    assert_eq!(show_time(0, "%Q"), None);
}

#[test]
fn from_str_reads_the_four_modes() {
    assert_eq!(from_str("oldest"), Some(Sort::OldestFirst));
    assert_eq!(from_str("newest"), Some(Sort::NewestFirst));
    assert_eq!(from_str("message-id"), Some(Sort::MessageID));
    assert_eq!(from_str("unsorted"), Some(Sort::Unsorted));
}

#[test]
fn from_str_refuses_other_words() {
    assert_eq!(from_str(""), None);
    assert_eq!(from_str("Oldest"), None);
    assert_eq!(from_str("oldest "), None);
}

#[test]
fn compare_time_picks_the_boundary() {
    let t = thread(10, 90);
    assert_eq!(compare_time(&t, Sort::OldestFirst), 10);
    assert_eq!(compare_time(&t, Sort::NewestFirst), 90);
    assert_eq!(compare_time(&t, Sort::MessageID), 90);
    assert_eq!(compare_time(&t, Sort::Unsorted), 90);
}

#[test]
fn compare_diff_follows_the_mode() {
    assert!(compare_diff(5, 10, Sort::OldestFirst));
    assert!(!compare_diff(10, 10, Sort::OldestFirst));
    assert!(!compare_diff(15, 10, Sort::OldestFirst));
    assert!(compare_diff(15, 10, Sort::NewestFirst));
    assert!(!compare_diff(10, 10, Sort::NewestFirst));
    assert!(!compare_diff(5, 10, Sort::NewestFirst));
    assert!(compare_diff(15, 10, Sort::Unsorted));
    assert!(!compare_diff(5, 10, Sort::MessageID));
}

#[test]
fn humanize_writes_recent_dates_in_words() {
    let now = 1_700_000_000;
    let rt = runtime(now, 5);
    assert_eq!(rt.humanize(now - 3 * 86_400, 0), Some("3 days ago".to_string()));
    assert_eq!(rt.humanize(now - 2 * 3_600, 0), Some("2 hours ago".to_string()));
    assert_eq!(rt.humanize(now, 0), Some("now".to_string()));
    assert_eq!(rt.humanize(now + 120, 0), Some("in 2 minutes".to_string()));
}

#[test]
fn humanize_falls_back_to_the_date_format() {
    let now = 1_700_000_000;
    let rt = runtime(now, 5);
    assert_eq!(rt.humanize(1_636_416_000, 0), Some("2021-11-09".to_string()));
    assert_eq!(rt.humanize(now - 5 * 86_400, 0), Some("2023-11-09".to_string()));
}

#[test]
fn humanize_pads_to_the_width() {
    let now = 1_700_000_000;
    let rt = runtime(now, 5);
    assert_eq!(rt.humanize(now - 3 * 86_400, 12), Some("3 days ago  ".to_string()));
    assert_eq!(rt.humanize(1_636_416_000, 12), Some("2021-11-09  ".to_string()));
    assert_eq!(rt.humanize(1_636_416_000, 4), Some("2021-11-09".to_string()));
}

#[test]
fn humanize_fails_where_no_text_exists() {
    let rt = runtime(0, 5);
    assert_eq!(rt.humanize(i64::MIN, 0), None);
    assert_eq!(rt.humanize(i64::MAX, 0), None);
    let far = runtime(i64::MIN, 0);
    assert_eq!(far.humanize(i64::MAX, 0), None);
}

#[test]
fn order_message_compares_by_date_and_mode() {
    let old_a = OrderMessage(5, Sort::OldestFirst, "a");
    let old_b = OrderMessage(9, Sort::OldestFirst, "b");
    assert_eq!(old_a.cmp(&old_b), Ordering::Greater);
    assert_eq!(old_b.cmp(&old_a), Ordering::Less);
    assert_eq!(old_a.cmp(&old_a), Ordering::Equal);
    let new_a = OrderMessage(5, Sort::NewestFirst, "a");
    let new_b = OrderMessage(9, Sort::NewestFirst, "b");
    assert_eq!(new_a.cmp(&new_b), Ordering::Less);
    assert_eq!(new_b.cmp(&new_a), Ordering::Greater);
    assert_eq!(new_a.partial_cmp(&new_b), Some(Ordering::Less));
    assert!(old_a > old_b);
    assert!(new_a < new_b);
}

#[test]
fn order_message_is_equal_on_equal_dates() {
    let a = OrderMessage(5, Sort::OldestFirst, "a");
    let b = OrderMessage(5, Sort::NewestFirst, "b");
    assert!(a == b);
    assert!(a != OrderMessage(6, Sort::OldestFirst, "a"));
}
