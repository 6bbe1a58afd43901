use chatbot::message::{accept_event, api_result, thread_to_fetch, with_channel, Message};
use chatbot::script::{render_script, script_line};
use chatbot::timestamp::compare_ts;
use std::cmp::Ordering;

fn plain(text: &str) -> Message {
    Message {
        text: text.to_string(),
        user: "U1".to_string(),
        ts: "1".to_string(),
        thread_ts: None,
        reply_count: 0,
        channel: String::new(),
        is_mention: false,
    }
}

#[test]
fn script_lines_trim_text() {
    assert_eq!(script_line("SHREK", "  what are you doing in my swamp \n"), "SHREK: what are you doing in my swamp");
}

#[test]
fn scripts_run_oldest_first() {
    let lines = vec!["C: 3".to_string(), "B: 2".to_string(), "A: 1".to_string()];
    assert_eq!(render_script(&lines), "A: 1\nB: 2\nC: 3");
    assert_eq!(render_script(&vec!["ONLY: one".to_string()]), "ONLY: one");
    assert_eq!(render_script(&Vec::new()), "");
}

#[test]
fn timestamps_compare_as_strings() {
    assert_eq!(compare_ts("1636048583.000400", "1636047059.000300"), Ordering::Greater);
    assert_eq!(compare_ts("1636047059.000300", "1636048583.000400"), Ordering::Less);
    assert_eq!(compare_ts("1636048583.000400", "1636048583.000400"), Ordering::Equal);
    assert_eq!(compare_ts("163604", "1636048583"), Ordering::Less);
    assert_eq!(compare_ts("", ""), Ordering::Equal);
    assert_eq!(compare_ts("é", "z"), Ordering::Greater);
}

#[test]
fn events_mentioning_the_bot_are_marked() {
    let bot = "UBOT".to_string();
    let m = accept_event(plain("hey <@UBOT> speak"), &bot).unwrap();
    assert!(m.is_mention);
    let n = accept_event(plain("hey there"), &bot).unwrap();
    assert!(!n.is_mention);
    assert_eq!(n.text, "hey there");
    assert!(accept_event(plain(""), &bot).is_none());
}

#[test]
fn fetched_messages_get_their_channel() {
    let out = with_channel(vec![plain("a"), plain("b")], "CLXKXACCF");
    assert_eq!(out.len(), 2);
    assert!(out.iter().all(|m| m.channel == "CLXKXACCF"));
    assert_eq!(out[0].text, "a");
    assert_eq!(out[1].text, "b");
    assert!(with_channel(Vec::new(), "C").is_empty());
}

#[test]
fn backfill_fetches_threads() {
    let mut m = plain("x");
    assert_eq!(thread_to_fetch(&m), None);
    m.thread_ts = Some("1636047059.000300".to_string());
    assert_eq!(thread_to_fetch(&m).as_deref(), Some("1636047059.000300"));
}

#[test]
fn api_answers() {
    assert_eq!(api_result(true, None, Some(7), "{}"), Ok(7));
    assert_eq!(api_result::<i32>(false, Some("not_in_channel".to_string()), None, "{}"), Err("not_in_channel".to_string()));
    assert_eq!(api_result::<i32>(true, None, None, "{\"ok\":true}"), Err("unexpected format: {\"ok\":true}".to_string()));
    assert_eq!(api_result::<i32>(false, None, None, "x"), Err("unexpected format: x".to_string()));
}

#[test]
fn script_lines_trim_unicode_white_space() {
    assert_eq!(script_line("FIONA", "\u{3000}\u{a0}ogres have layers\u{2029}"), "FIONA: ogres have layers");
    assert_eq!(script_line("DONKEY", " \t "), "DONKEY: ");
}
