use emoji_input::picker::{
    format_variant_preferences, keywords_text, name_label, order_variants, parse_variant_preferences,
    popup_key_action, selected_commit, wrap_selection, PopupAction, PopupKey, VariantPreferences,
};
use emoji_input::Emoji;

fn strings(v: &[&str]) -> Vec<String> {
    v.iter().map(|s| s.to_string()).collect()
}

#[test]
fn parse_skips_entries_without_equals_and_keeps_last() {
    let prefs = parse_variant_preferences(&strings(&["👍=👍🏻", "junk", "👋=👋🏽", "👍=👍🏿", "a=b=c"]));
    assert_eq!(prefs.get("👍"), Some("👍🏿".to_string()));
    assert_eq!(prefs.get("👋"), Some("👋🏽".to_string()));
    assert_eq!(prefs.get("a"), Some("b=c".to_string()));
    assert_eq!(prefs.get("junk"), None);
    let lines = format_variant_preferences(&prefs);
    assert_eq!(lines.len(), 3);
}

#[test]
fn preferences_round_trip() {
    let mut prefs = VariantPreferences::new();
    prefs.insert("👍".to_string(), "👍🏻".to_string());
    prefs.insert("👋".to_string(), "👋🏾".to_string());
    prefs.insert("👍".to_string(), "👍🏼".to_string());
    let lines = format_variant_preferences(&prefs);
    assert_eq!(lines, strings(&["👋=👋🏾", "👍=👍🏼"]));
    let back = parse_variant_preferences(&lines);
    assert_eq!(back.get("👍"), Some("👍🏼".to_string()));
    assert_eq!(back.get("👋"), Some("👋🏾".to_string()));
    assert_eq!(format_variant_preferences(&back), lines);
}

#[test]
fn preferred_variant_first() {
    let variants = strings(&["1", "2", "3", "2"]);
    assert_eq!(order_variants(&variants, Some("2".to_string())), strings(&["2", "2", "1", "3"]));
    assert_eq!(order_variants(&variants, Some("9".to_string())), variants);
    assert_eq!(order_variants(&variants, None), variants);
}

#[test]
fn row_texts() {
    assert_eq!(keywords_text(&vec![]), " ");
    assert_eq!(keywords_text(&strings(&["happy"])), "happy");
    assert_eq!(keywords_text(&strings(&["happy", "joy", "glad"])), "happy, joy, glad");
    assert_eq!(name_label("smile"), ":smile");
}

#[test]
fn selection_wraps() {
    assert_eq!(wrap_selection(0, -1, 5), 4);
    assert_eq!(wrap_selection(4, 1, 5), 0);
    assert_eq!(wrap_selection(2, 1, 5), 3);
    assert_eq!(wrap_selection(0, -11, 5), 4);
    assert_eq!(wrap_selection(-10, 0, 5), 0);
    assert_eq!(wrap_selection(i32::MAX, 0, 7), i32::MAX.rem_euclid(7));
    assert_eq!(wrap_selection(i32::MIN, 0, 7), i32::MIN.rem_euclid(7));
    assert_eq!(wrap_selection(wrap_selection(3, 1, 4), -1, 4), 3);
}

#[test]
fn popup_keys() {
    assert_eq!(popup_key_action(PopupKey::Escape), PopupAction::Hide);
    assert_eq!(popup_key_action(PopupKey::Return), PopupAction::CommitSelected);
    assert_eq!(popup_key_action(PopupKey::KeypadEnter), PopupAction::CommitSelected);
    assert_eq!(popup_key_action(PopupKey::Up), PopupAction::Move(-1));
    assert_eq!(popup_key_action(PopupKey::Left), PopupAction::Move(-1));
    assert_eq!(popup_key_action(PopupKey::BackTab), PopupAction::Move(-1));
    assert_eq!(popup_key_action(PopupKey::Down), PopupAction::Move(1));
    assert_eq!(popup_key_action(PopupKey::Right), PopupAction::Move(1));
    assert_eq!(popup_key_action(PopupKey::Tab), PopupAction::Move(1));
    assert_eq!(popup_key_action(PopupKey::Other), PopupAction::Pass);
}

#[test]
fn row_activation_commits_row() {
    let results = vec![
        Emoji { char: "a".to_string(), name: "a".to_string(), keywords: vec![], variants: vec![] },
        Emoji { char: "b".to_string(), name: "b".to_string(), keywords: vec![], variants: vec![] },
    ];
    assert_eq!(selected_commit(&results, 1), Some("b".to_string()));
    assert_eq!(selected_commit(&results, 2), None);
    assert_eq!(selected_commit(&results, -1), None);
}
