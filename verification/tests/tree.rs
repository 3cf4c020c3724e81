use nm_livesearch::error::{Error, TemplateFault};
use nm_livesearch::highlight::Highlight;
use nm_livesearch::message::{count_messages, Header, Message};
use nm_livesearch::navigate::{forward, message_query, print_tree, search, Flat};
use nm_livesearch::runtime::{Runtime, Show};
use nm_livesearch::template::{Templ, PLACEHOLDER};
use nm_livesearch::thread::Thread;
use nm_livesearch::time::Sort;

fn msg(id: &str, matched: bool, replies: Vec<Message>) -> Message {
    Message {
        id: id.to_string(),
        date: 1_636_416_000,
        from: Header::Value(format!("{}@example.org", id)),
        subject: Header::Value(format!("About {}", id)),
        tags: vec!["inbox".to_string()],
        matched,
        excluded: false,
        replies,
    }
}

fn thread(id: &str, roots: Vec<Message>) -> Thread {
    let total = count_messages(&roots).unwrap();
    Thread {
        id: id.to_string(),
        newest_date: 1_636_416_000,
        oldest_date: 1_636_416_000,
        total_messages: total,
        matched_messages: 1,
        authors: vec!["Ann".to_string(), "Bob".to_string()],
        subject: "First\nline".to_string(),
        tags: vec!["inbox".to_string(), "list".to_string()],
        toplevel_messages: roots,
    }
}

fn runtime(entry: &str, reply: &str) -> Runtime {
    let highlight: Option<Highlight> = None;
    Runtime {
        templ: Templ {
            regex: PLACEHOLDER.to_string(),
            templ_message: entry.to_string(),
            templ_respons: reply.to_string(),
        },
        sort: Sort::OldestFirst,
        highlight,
        date_format: "%Y-%m-%d".to_string(),
        humanize_range: 1_700_000_000,
        now: 1_700_000_000,
    }
}

fn show(id: &str, entry: &str) -> Show {
    Show { id: id.to_string(), entry: entry.to_string(), highlight: false }
}

fn ids(shows: &Vec<Show>) -> Vec<String> {
    shows.iter().map(|s| s.id.clone()).collect()
}

fn sample() -> Thread {
    thread(
        "t1",
        vec![msg(
            "r",
            false,
            vec![msg("a", false, vec![msg("a1", true, Vec::new())]), msg("b", true, Vec::new())],
        )],
    )
}

fn chain() -> Thread {
    thread(
        "t2",
        vec![msg("root", false, vec![msg("child", false, vec![msg("grandchild", true, Vec::new())])])],
    )
}

#[test]
fn full_tree_draws_connectors() {
    let rt = runtime("{index}/{total} {subject}", "{index}/{total} {response}> {subject}");
    let out = rt.render_tree(&sample());
    assert_eq!(
        out,
        Ok(vec![
            show("r", "1/4 About r"),
            show("a", "2/4 ├─┬> About a"),
            show("a1", "3/4 │ └──> About a1"),
            show("b", "4/4 └──> About b"),
        ])
    );
}

#[test]
fn full_tree_of_several_roots() {
    let rt = runtime("{index} {subject}", "{index} {response}");
    let t = thread(
        "t",
        vec![
            msg("r1", false, vec![msg("x", false, Vec::new())]),
            msg("r2", false, vec![msg("y", false, vec![msg("z", false, Vec::new())]), msg("w", false, Vec::new())]),
            msg("r3", false, Vec::new()),
        ],
    );
    let out = rt.render_tree(&t);
    assert_eq!(
        out,
        Ok(vec![
            show("r1", "1 About r1"),
            show("x", "2 └──"),
            show("r2", "3 About r2"),
            show("y", "4 │ ├─┬"),
            show("z", "5 │ │ └──"),
            show("w", "6 │ └──"),
            show("r3", "7 About r3"),
        ])
    );
}

#[test]
fn full_tree_emits_one_record_per_message() {
    let rt = runtime("{index:03}", "{index:03}");
    let t = sample();
    let out = rt.render_tree(&t).unwrap();
    assert_eq!(out.len(), t.total_messages as usize);
    let entries: Vec<String> = out.iter().map(|s| s.entry.clone()).collect();
    assert_eq!(entries, vec!["001", "002", "003", "004"]);
    assert_eq!(ids(&out), vec!["r", "a", "a1", "b"]);
}

#[test]
fn full_tree_of_an_empty_thread() {
    let rt = runtime("{index}", "{index}");
    assert_eq!(rt.render_tree(&thread("t", Vec::new())), Ok(Vec::new()));
}

#[test]
fn full_tree_stops_at_the_first_error() {
    let rt = runtime("{index}", "{index} {response}");
    let mut t = sample();
    t.toplevel_messages[0].replies[0].subject = Header::Failed;
    assert_eq!(rt.render_tree(&t), Err(Error::HeaderAccess));
    let bad = runtime("{index}", "{nothing}");
    assert_eq!(bad.render_tree(&sample()), Err(Error::Template(TemplateFault::UnknownField)));
    let top = runtime("{response}", "{index}");
    assert_eq!(top.render_tree(&sample()), Err(Error::Template(TemplateFault::ResponseOutsideTree)));
}

#[test]
fn full_tree_with_invalid_pattern() {
    let mut rt = runtime("{index}", "{index}");
    rt.templ.regex = "(".to_string();
    assert_eq!(rt.render_tree(&sample()), Err(Error::Template(TemplateFault::Pattern)));
    assert_eq!(rt.render_tree(&thread("t", Vec::new())), Ok(Vec::new()));
}

#[test]
fn full_tree_marks_highlighted_messages() {
    let mut rt = runtime("{index}", "{index}");
    let hl = Highlight {
        id: None,
        date: None,
        num: Some(3),
        total: None,
        from: None,
        subject: None,
        tags: None,
        matched: None,
        excluded: None,
    };
    rt.highlight = Some(hl);
    let out = rt.render_tree(&sample()).unwrap();
    let marks: Vec<bool> = out.iter().map(|s| s.highlight).collect();
    assert_eq!(marks, vec![false, false, true, false]);
}

#[test]
fn full_tree_highlights_by_the_active_date_format() {
    let mut rt = runtime("{index}", "{index}");
    let hl = Highlight {
        id: None,
        date: Some("2021-11".to_string()),
        num: None,
        total: None,
        from: None,
        subject: None,
        tags: None,
        matched: None,
        excluded: None,
    };
    rt.highlight = Some(hl);
    let marks: Vec<bool> = rt.render_tree(&chain()).unwrap().iter().map(|s| s.highlight).collect();
    assert_eq!(marks, vec![true, true, true]);
    rt.date_format = "%d/%m/%Y".to_string();
    let marks: Vec<bool> = rt.render_tree(&chain()).unwrap().iter().map(|s| s.highlight).collect();
    assert_eq!(marks, vec![false, false, false]);
}

#[test]
fn rendering_twice_gives_the_same_records() {
    let rt = runtime("{Date} {date} {index}/{total} {from:20} {subject} ({tags})", "{response}");
    let t = sample();
    let first = rt.render_tree(&t);
    let second = rt.render_tree(&t);
    assert!(first.is_ok());
    assert_eq!(first, second);
    assert_eq!(rt.render_single(&t), rt.render_single(&t));
}

#[test]
fn show_thread_tree_gives_one_list_per_thread() {
    let rt = runtime("{index}", "{index}{response}");
    let out = rt.show_thread_tree(&vec![chain(), thread("e", Vec::new()), sample()]).unwrap();
    assert_eq!(out.len(), 3);
    assert_eq!(ids(&out[0]), vec!["root", "child", "grandchild"]);
    assert_eq!(out[1], Vec::new());
    assert_eq!(ids(&out[2]), vec!["r", "a", "a1", "b"]);
    assert_eq!(out[0][2], show("grandchild", "3  └──"));
}

#[test]
fn single_emits_the_first_match_in_preorder() {
    let rt = runtime("{index}/{total} {subject}", "{index}/{total} {response}> {subject}");
    assert_eq!(rt.render_single(&sample()), Ok(Some(show("a1", "3/4 │ └──> About a1"))));
}

#[test]
fn single_emits_a_matched_root_from_the_entry_template() {
    let rt = runtime("{index} {subject}", "{response}");
    let t = thread("t", vec![msg("r1", false, Vec::new()), msg("r2", true, vec![msg("x", true, Vec::new())])]);
    assert_eq!(rt.render_single(&t), Ok(Some(show("r2", "2 About r2"))));
}

#[test]
fn single_emits_nothing_without_a_match() {
    let rt = runtime("{index}", "{response}");
    let t = thread("t", vec![msg("r", false, vec![msg("a", false, Vec::new())])]);
    assert_eq!(rt.render_single(&t), Ok(None));
    assert_eq!(rt.render_single(&thread("e", Vec::new())), Ok(None));
}

#[test]
fn single_renders_only_the_match() {
    let rt = runtime("{index}", "{index}");
    let mut t = sample();
    t.toplevel_messages[0].subject = Header::Failed;
    assert_eq!(rt.render_single(&t), Ok(Some(show("a1", "3"))));
    t.toplevel_messages[0].replies[0].replies[0].from = Header::Failed;
    assert_eq!(rt.render_single(&t), Err(Error::HeaderAccess));
}

#[test]
fn show_thread_single_gives_at_most_one_record_per_thread() {
    let rt = runtime("{index}", "{index}");
    let none = thread("n", vec![msg("q", false, Vec::new())]);
    let out = rt.show_thread_single(&vec![sample(), none, chain()]).unwrap();
    assert_eq!(ids(&out), vec!["a1", "grandchild"]);
}

fn flat_ids(flats: &Vec<Flat>) -> Vec<String> {
    flats.iter().map(|f| f.message.id.clone()).collect()
}

#[test]
fn before_emits_ancestors_from_the_root() {
    let rt = runtime("{index}/{total} {subject}", "{response}");
    let threads = vec![chain()];
    let out = rt.show_before_message("grandchild", &threads);
    assert_eq!(flat_ids(&out), vec!["root", "child"]);
    let positions: Vec<(i32, i32)> = out.iter().map(|f| (f.index, f.total)).collect();
    assert_eq!(positions, vec![(1, 1), (1, 1)]);
}

#[test]
fn after_emits_the_replies_below() {
    let rt = runtime("{index}/{total} {subject}", "{response}");
    let threads = vec![chain()];
    let out = rt.show_after_message("child", &threads);
    assert_eq!(flat_ids(&out), vec!["grandchild"]);
    assert_eq!((out[0].index, out[0].total), (1, 1));
    let threads = vec![sample()];
    let all = rt.show_after_message("r", &threads);
    assert_eq!(flat_ids(&all), vec!["a", "a1", "b"]);
    let positions: Vec<(i32, i32)> = all.iter().map(|f| (f.index, f.total)).collect();
    assert_eq!(positions, vec![(1, 1), (1, 1), (1, 1)]);
}

#[test]
fn before_and_after_of_a_root_or_a_leaf() {
    let rt = runtime("{subject}", "{response}");
    let threads = vec![chain()];
    assert!(rt.show_before_message("root", &threads).is_empty());
    assert!(rt.show_after_message("grandchild", &threads).is_empty());
}

#[test]
fn before_and_after_of_an_unknown_id() {
    let rt = runtime("{subject}", "{response}");
    let threads = vec![chain()];
    assert!(rt.show_before_message("nobody", &threads).is_empty());
    assert!(rt.show_after_message("nobody", &threads).is_empty());
    let none: Vec<Thread> = Vec::new();
    assert!(rt.show_before_message("root", &none).is_empty());
    assert!(rt.show_after_message("root", &none).is_empty());
}

#[test]
fn before_and_after_look_at_the_first_thread_only() {
    let rt = runtime("{subject}", "{response}");
    let threads = vec![sample(), chain()];
    assert!(rt.show_before_message("grandchild", &threads).is_empty());
    assert_eq!(flat_ids(&rt.show_before_message("a1", &threads)), vec!["r", "a"]);
}

#[test]
fn before_and_after_hand_back_the_messages_themselves() {
    let rt = runtime("{nothing}", "{nothing}");
    let mut t = chain();
    t.toplevel_messages[0].subject = Header::Failed;
    t.toplevel_messages[0].replies[0].date = 77;
    let threads = vec![t];
    let out = rt.show_before_message("grandchild", &threads);
    assert_eq!(flat_ids(&out), vec!["root", "child"]);
    assert!(matches!(out[0].message.subject, Header::Failed));
    assert_eq!(out[1].message.date, 77);
}

#[test]
fn forward_search_and_print_tree() {
    let t = sample();
    let path = forward("a1", &t.toplevel_messages).unwrap();
    let names: Vec<&str> = path.iter().map(|m| m.id.as_str()).collect();
    assert_eq!(names, vec!["r", "a"]);
    assert!(forward("zz", &t.toplevel_messages).is_none());
    assert_eq!(search("b", &t.toplevel_messages).map(|m| m.id.as_str()), Some("b"));
    assert!(search("zz", &t.toplevel_messages).is_none());
    let mut flat: Vec<&Message> = Vec::new();
    print_tree(&t.toplevel_messages, &mut flat);
    let names: Vec<&str> = flat.iter().map(|m| m.id.as_str()).collect();
    assert_eq!(names, vec!["r", "a", "a1", "b"]);
}

#[test]
fn search_takes_the_first_in_preorder() {
    let mut first = msg("dup", false, Vec::new());
    first.date = 1;
    let mut second = msg("dup", false, Vec::new());
    second.date = 2;
    let roots = vec![msg("r", false, vec![first]), second];
    assert_eq!(search("dup", &roots).map(|m| m.date), Some(1));
    let path = forward("dup", &roots).unwrap();
    assert_eq!(path.len(), 1);
}

#[test]
fn message_query_names_the_message() {
    assert_eq!(message_query("m1@example.org", None), "mid:m1@example.org");
    assert_eq!(
        message_query("m1@example.org", Some("tag:inbox")),
        "mid:m1@example.org and tag:inbox"
    );
}

#[test]
fn count_messages_counts_every_node() {
    assert_eq!(count_messages(&Vec::new()), Some(0));
    assert_eq!(count_messages(&sample().toplevel_messages), Some(4));
    assert_eq!(count_messages(&chain().toplevel_messages), Some(3));
}

#[test]
fn show_threads_renders_thread_summaries() {
    let rt = runtime("{date} [{index}/{total:02}] {from}: {subject} ({tags})", "{response}");
    let out = rt.show_threads(&vec![sample()]);
    assert_eq!(out, Ok(vec![show("t1", "2021-11-09 [1/04] Ann, Bob: First line (inbox, list)")]));
}

#[test]
fn show_thread_num() {
    let rt = runtime("{subject}", "{response}");
    let threads = vec![sample(), chain(), thread("e", Vec::new())];
    let shown = rt.show_threads(&threads).unwrap();
    assert_eq!(threads.len(), shown.len());
}

#[test]
fn show_threads_refuses_response() {
    let rt = runtime("{response}", "{response}");
    assert_eq!(
        rt.show_threads(&vec![sample()]),
        Err(Error::Template(TemplateFault::ResponseOutsideTree))
    );
}

#[test]
fn template_message_and_template_thread() {
    let rt = runtime("{subject}", "{response}");
    let t = sample();
    let m = &t.toplevel_messages[0];
    assert_eq!(
        rt.template_message("{index:02}/{total:02} {from} {tags}", m, None, 2, 3),
        Ok("02/03 r@example.org inbox".to_string())
    );
    assert_eq!(
        rt.template_message("{response}!", m, Some("└──".to_string()), 2, 3),
        Ok("└──!".to_string())
    );
    assert_eq!(rt.template_thread("{from}|{subject}", &t), Ok("Ann, Bob|First line".to_string()));
}

#[test]
fn missing_headers_read_as_empty() {
    let rt = runtime("<{from}|{subject}>", "{response}");
    let mut m = msg("m", true, Vec::new());
    m.from = Header::Missing;
    m.subject = Header::Missing;
    assert_eq!(rt.template_message("<{from}|{subject}>", &m, None, 1, 1), Ok("<|>".to_string()));
}

#[test]
fn failed_headers_fail_every_template() {
    let rt = runtime("{index}", "{response}");
    let mut m = msg("m", true, Vec::new());
    m.subject = Header::Failed;
    assert_eq!(rt.template_message("{index}", &m, None, 1, 1), Err(Error::HeaderAccess));
}
