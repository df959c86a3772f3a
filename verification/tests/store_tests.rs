use emoji_input::store::parse_recent_list;
use emoji_input::{EmojiEngine, RecentHistory};

#[test]
fn parse_recent_list_reads_arrays_of_strings() {
    assert_eq!(
        parse_recent_list("[\"😀\", \"🎉\"]"),
        Some(vec!["😀".to_string(), "🎉".to_string()])
    );
    assert_eq!(parse_recent_list("  []  "), Some(vec![]));
    assert_eq!(parse_recent_list("[\"a\\\"b\"]"), Some(vec!["a\"b".to_string()]));
}

#[test]
fn parse_recent_list_refuses_other_text() {
    assert_eq!(parse_recent_list(""), None);
    assert_eq!(parse_recent_list("[\"😀\", 1]"), None);
    assert_eq!(parse_recent_list("{\"a\": \"b\"}"), None);
    assert_eq!(parse_recent_list("[\"😀\"] trailing"), None);
}

#[test]
fn engine_loads_recents() {
    let mut engine = EmojiEngine::new();
    assert!(engine.load_recents("[\"🎉\",\"😀\"]"));
    assert_eq!(engine.recents, vec!["🎉".to_string(), "😀".to_string()]);
    assert_eq!(engine.history.recent_tick, 2);
    assert_eq!(engine.history.recents[0].last_used, 2);
    assert_eq!(engine.history.recents[1].last_used, 1);
    assert_eq!(engine.history.recents[1].count, 1);
}

#[test]
fn engine_keeps_recents_on_bad_text() {
    let mut engine = EmojiEngine::new();
    engine.record_usage("😀".to_string());
    assert!(!engine.load_recents("not json"));
    assert_eq!(engine.recents, vec!["😀".to_string()]);
}

#[test]
fn history_from_legacy_text() {
    let history = RecentHistory::from_legacy_text("[\"🎉\",\"😀\"]").expect("a list of strings");
    assert_eq!(history.recent_tick, 2);
    assert_eq!(history.recents.len(), 2);
    assert_eq!(history.recents[0].char, "🎉");
    assert_eq!(history.recents[0].count, 1);
    assert_eq!(history.recents[0].last_used, 2);
    assert_eq!(history.recents[1].char, "😀");
    assert_eq!(history.recents[1].last_used, 1);
    assert!(RecentHistory::from_legacy_text("[{\"char\": \"x\"}]").is_none());
}
