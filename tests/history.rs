use chatbot::channel::Channel;
use chatbot::message::Message;
use chatbot::thread::Thread;
use chatbot::workspace::Workspace;
use std::sync::Arc;

fn msg(channel: &str, ts: &str, thread_ts: Option<&str>, text: &str) -> Message {
    Message {
        text: text.to_string(),
        user: "U1".to_string(),
        ts: ts.to_string(),
        thread_ts: thread_ts.map(|t| t.to_string()),
        reply_count: 0,
        channel: channel.to_string(),
        is_mention: false,
    }
}

fn stamps(v: &[Arc<Message>]) -> Vec<String> {
    v.iter().map(|m| m.ts.clone()).collect()
}

#[test]
fn thread_boundary_history() {
    let mut ws = Workspace::new();
    ws.insert(Arc::new(msg("C", "10", Some("10"), "root")));
    ws.insert(Arc::new(msg("C", "11", Some("10"), "a")));
    ws.insert(Arc::new(msg("C", "12", Some("10"), "b")));
    ws.insert(Arc::new(msg("C", "13", Some("10"), "c")));
    ws.insert(Arc::new(msg("C", "20", None, "later")));
    let h = ws.history(&msg("C", "13", Some("10"), "c"), 10).unwrap();
    assert_eq!(stamps(&h), vec!["13", "12", "11", "10"]);
}

#[test]
fn history_of_latest_lists_earlier_messages_newest_first() {
    let mut ws = Workspace::new();
    for ts in ["1636040000.000100", "1636040000.000200", "1636040001.000000", "1636040002.000050"] {
        ws.insert(Arc::new(msg("C", ts, None, "x")));
    }
    let last = msg("C", "1636040002.000050", None, "x");
    let h = ws.history(&last, 100).unwrap();
    assert_eq!(
        stamps(&h),
        vec!["1636040002.000050", "1636040001.000000", "1636040000.000200", "1636040000.000100"]
    );
}

#[test]
fn history_ignores_insertion_order() {
    let mut ws = Workspace::new();
    for ts in ["30", "10", "40", "20"] {
        ws.insert(Arc::new(msg("C", ts, None, "x")));
    }
    let h = ws.history(&msg("C", "30", None, "x"), 10).unwrap();
    assert_eq!(stamps(&h), vec!["30", "20", "10"]);
}

#[test]
fn history_respects_limit() {
    let mut ws = Workspace::new();
    for ts in ["1", "2", "3", "4"] {
        ws.insert(Arc::new(msg("C", ts, None, "x")));
    }
    let h = ws.history(&msg("C", "4", None, "x"), 2).unwrap();
    assert_eq!(stamps(&h), vec!["4", "3"]);
    let none = ws.history(&msg("C", "4", None, "x"), 0).unwrap();
    assert!(none.is_empty());
}

#[test]
fn history_limit_spans_thread_and_main() {
    let mut ws = Workspace::new();
    ws.insert(Arc::new(msg("C", "05", None, "before")));
    ws.insert(Arc::new(msg("C", "10", None, "root")));
    ws.insert(Arc::new(msg("C", "11", Some("10"), "a")));
    ws.insert(Arc::new(msg("C", "12", Some("10"), "b")));
    let h = ws.history(&msg("C", "12", Some("10"), "b"), 3).unwrap();
    assert_eq!(stamps(&h), vec!["12", "11", "10"]);
    let all = ws.history(&msg("C", "12", Some("10"), "b"), 9).unwrap();
    assert_eq!(stamps(&all), vec!["12", "11", "10", "05"]);
}

#[test]
fn history_of_unknown_channel_is_none() {
    let mut ws = Workspace::new();
    ws.insert(Arc::new(msg("C", "1", None, "x")));
    assert!(ws.history(&msg("D", "1", None, "x"), 5).is_none());
}

#[test]
fn history_of_reply_in_unseen_thread_shows_main_before_root() {
    let mut ws = Workspace::new();
    ws.insert(Arc::new(msg("C", "10", None, "root")));
    ws.insert(Arc::new(msg("C", "15", None, "after root")));
    let h = ws.history(&msg("C", "16", Some("10"), "reply"), 5).unwrap();
    assert_eq!(stamps(&h), vec!["10"]);
}

#[test]
fn insert_twice_is_idempotent() {
    let mut once = Workspace::new();
    let mut twice = Workspace::new();
    let m = msg("C", "5", Some("3"), "hi");
    once.insert(Arc::new(msg("C", "3", None, "root")));
    twice.insert(Arc::new(msg("C", "3", None, "root")));
    assert!(once.insert(Arc::new(m.clone())));
    assert!(twice.insert(Arc::new(m.clone())));
    assert!(!twice.insert(Arc::new(m.clone())));
    assert_eq!(once.contains(&m), twice.contains(&m));
    assert_eq!(
        stamps(&once.history(&m, 10).unwrap()),
        stamps(&twice.history(&m, 10).unwrap())
    );
    assert_eq!(stamps(&twice.history(&m, 10).unwrap()), vec!["5", "3"]);
}

#[test]
fn contains_before_and_after_insert() {
    let mut ws = Workspace::new();
    let m = msg("C", "1636048583.000400", Some("1636047059.000300"), "asdf");
    assert!(!ws.contains(&m));
    ws.insert(Arc::new(m.clone()));
    assert!(ws.contains(&m));
    let other = msg("C", "1636048583.000401", Some("1636047059.000300"), "asdf");
    assert!(!ws.contains(&other));
}

#[test]
fn parent_of_messages() {
    let mut ws = Workspace::new();
    let root = msg("C", "10", None, "the root");
    let reply = msg("C", "11", Some("10"), "a reply");
    ws.insert(Arc::new(root.clone()));
    ws.insert(Arc::new(reply.clone()));
    assert!(ws.parent(&root).is_none());
    let p = ws.parent(&reply).unwrap();
    assert_eq!(p.ts, "10");
    assert_eq!(p.text, "the root");
    assert!(ws.parent(&msg("D", "11", Some("10"), "x")).is_none());
}

#[test]
fn ingest_skips_mentions() {
    let mut ws = Workspace::new();
    let mut m = msg("C", "1", None, "hey <@UBOT>");
    m.is_mention = true;
    assert!(!ws.ingest(Arc::new(m.clone())));
    assert!(!ws.contains(&m));
    let plain = msg("C", "2", None, "hello");
    assert!(ws.ingest(Arc::new(plain.clone())));
    assert!(!ws.ingest(Arc::new(plain.clone())));
    assert!(ws.contains(&plain));
}

#[test]
fn thread_find_and_get() {
    let mut t = Thread::new();
    assert_eq!(t.find("5"), Err(0));
    assert!(t.history("5", 3).is_empty());
    t.insert(Arc::new(msg("C", "2", None, "b")));
    t.insert(Arc::new(msg("C", "4", None, "d")));
    t.insert(Arc::new(msg("C", "1", None, "a")));
    assert_eq!(t.find("1"), Ok(0));
    assert_eq!(t.find("4"), Ok(2));
    assert_eq!(t.find("3"), Err(2));
    assert_eq!(t.find("9"), Err(3));
    assert!(t.contains("2"));
    assert!(!t.contains("3"));
    assert_eq!(t.get("4").unwrap().text, "d");
    assert!(t.get("0").is_none());
    assert_eq!(stamps(&t.history("3", 10)), vec!["2", "1"]);
    assert!(t.history("0", 10).is_empty());
}

#[test]
fn channel_threads() {
    let mut c = Channel::new();
    let reply = msg("C", "11", Some("10"), "r");
    assert!(c.thread(&reply).is_none());
    assert!(c.thread(&msg("C", "10", Some("10"), "root")).is_some());
    c.insert(Arc::new(reply.clone()));
    assert!(c.thread(&reply).unwrap().contains("11"));
    assert!(c.contains(&reply));
    assert!(!c.contains(&msg("C", "11", None, "same ts, main thread")));
    assert!(c.parent(&reply).is_none());
    c.insert(Arc::new(msg("C", "10", Some("10"), "root")));
    assert_eq!(c.parent(&reply).unwrap().text, "root");
    assert_eq!(stamps(&c.history(&reply, 5)), vec!["11", "10"]);
}

#[test]
fn many_reply_threads_stay_apart() {
    let mut c = Channel::new();
    for root in ["50", "10", "30", "20", "40"] {
        c.insert(Arc::new(msg("C", root, None, "root")));
    }
    for (root, reply) in [("30", "31"), ("10", "11"), ("50", "51"), ("10", "12"), ("40", "41"), ("20", "21")] {
        c.insert(Arc::new(msg("C", reply, Some(root), "reply")));
    }
    assert_eq!(stamps(&c.history(&msg("C", "12", Some("10"), "reply"), 10)), vec!["12", "11", "10"]);
    assert_eq!(stamps(&c.history(&msg("C", "41", Some("40"), "reply"), 10)), vec!["41", "40", "30", "20", "10"]);
    assert_eq!(stamps(&c.history(&msg("C", "51", Some("50"), "reply"), 3)), vec!["51", "50", "40"]);
    assert!(c.thread(&msg("C", "61", Some("60"), "reply")).is_none());
    assert!(c.contains(&msg("C", "21", Some("20"), "reply")));
    assert!(!c.contains(&msg("C", "21", Some("30"), "reply")));
}
