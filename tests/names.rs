use chatbot::names::{preferred_name, UserCache};

#[test]
fn resolving_twice_keeps_one_entry() {
    let mut cache = UserCache::new();
    assert!(cache.read("U1").is_none());
    let first = cache.resolve("U1".to_string(), "Shrek");
    let second = cache.resolve("U1".to_string(), "Shrek");
    assert_eq!(first, "SHREK");
    assert_eq!(first, second);
    assert_eq!(cache.read("U1").as_deref(), Some("SHREK"));
}

#[test]
fn cache_insert_and_read() {
    let mut cache = UserCache::new();
    cache.insert("U1".to_string(), "DONKEY".to_string());
    cache.insert("U2".to_string(), "FIONA".to_string());
    cache.insert("U1".to_string(), "LORD FARQUAAD".to_string());
    assert_eq!(cache.read("U1").as_deref(), Some("LORD FARQUAAD"));
    assert_eq!(cache.read("U2").as_deref(), Some("FIONA"));
    assert!(cache.read("U3").is_none());
}

#[test]
fn resolve_upper_cases_unicode() {
    let mut cache = UserCache::new();
    assert_eq!(cache.resolve("U9".to_string(), "straße"), "STRASSE");
}

#[test]
fn preferred_name_falls_back_to_real_name() {
    assert_eq!(preferred_name(String::new(), "Real Name".to_string()), "Real Name");
    assert_eq!(preferred_name("shrek".to_string(), "Real Name".to_string()), "shrek");
}
