use chatbot::bus::{route, Chatbot, Route, BACKLOG};
use chatbot::message::Message;
use tokio::sync::broadcast::error::TryRecvError;

fn event(user: &str, ts: &str) -> Message {
    Message {
        text: "hello".to_string(),
        user: user.to_string(),
        ts: ts.to_string(),
        thread_ts: None,
        reply_count: 0,
        channel: "C".to_string(),
        is_mention: false,
    }
}

#[test]
fn bot_events_stay_off_the_filtered_channel() {
    let mut bot = Chatbot::new("UBOT".to_string());
    let mut raw = bot.raw_messages().receiver();
    let mut filtered = bot.messages().receiver();
    let r = bot.publish(event("UBOT", "1"));
    assert_eq!(r, Route { raw: true, filtered: false });
    assert_eq!(raw.try_recv().unwrap().ts, "1");
    assert!(matches!(filtered.try_recv(), Err(TryRecvError::Empty)));
    let r = bot.publish(event("U2", "2"));
    assert_eq!(r, Route { raw: true, filtered: true });
    assert_eq!(raw.try_recv().unwrap().ts, "2");
    assert_eq!(filtered.try_recv().unwrap().ts, "2");
}

#[test]
fn late_subscriber_with_small_backlog_sees_no_reordering() {
    let mut bot = Chatbot::with_capacity("UBOT".to_string(), 1);
    bot.publish(event("U2", "A"));
    bot.publish(event("U2", "B"));
    bot.publish(event("U2", "C"));
    let mut rx = bot.raw_messages().receiver();
    assert!(matches!(rx.try_recv(), Err(TryRecvError::Empty)));
    bot.publish(event("U2", "D"));
    bot.publish(event("U2", "E"));
    let mut seen = Vec::new();
    loop {
        match rx.try_recv() {
            Ok(m) => seen.push(m.ts.clone()),
            Err(TryRecvError::Lagged(_)) => continue,
            Err(_) => break,
        }
    }
    assert_eq!(seen, vec!["E"]);
}

#[test]
fn default_backlog_and_identity() {
    assert_eq!(BACKLOG, 256);
    let mut bot = Chatbot::new("UBOT".to_string());
    assert_eq!(bot.bot_user_id(), "UBOT");
    let mut rx = bot.messages().receiver();
    for i in 0..10 {
        bot.publish(event("U2", &i.to_string()));
    }
    let got: Vec<String> = (0..10).map(|_| rx.try_recv().unwrap().ts.clone()).collect();
    assert_eq!(got, (0..10).map(|i| i.to_string()).collect::<Vec<_>>());
}

#[test]
fn route_by_author() {
    let bot = "UBOT".to_string();
    assert_eq!(route(&event("UBOT", "1"), &bot), Route { raw: true, filtered: false });
    assert_eq!(route(&event("UL6H0F39R", "1"), &bot), Route { raw: true, filtered: true });
}

#[test]
fn it_works() {
    assert_eq!(2 + 2, 4);
}

#[test]
fn subscriptions_start_empty_on_their_own_channel() {
    let mut bot = Chatbot::new("UBOT".to_string());
    bot.publish(event("U2", "before"));
    let mut raw = bot.raw_messages().receiver();
    let mut filtered = bot.messages().receiver();
    assert!(matches!(raw.try_recv(), Err(TryRecvError::Empty)));
    assert!(matches!(filtered.try_recv(), Err(TryRecvError::Empty)));
    bot.publish(event("UBOT", "own"));
    bot.publish(event("U2", "after"));
    assert_eq!(raw.try_recv().unwrap().ts, "own");
    assert_eq!(raw.try_recv().unwrap().ts, "after");
    assert_eq!(filtered.try_recv().unwrap().ts, "after");
    assert!(matches!(filtered.try_recv(), Err(TryRecvError::Empty)));
}
