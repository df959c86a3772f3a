use emoji_input::engine::{KEY_BACKSPACE, KEY_DOWN, KEY_ESCAPE, KEY_RETURN, KEY_UP, RELEASE_MASK, SUPER_MASK};
use emoji_input::{Emoji, EmojiDatabase, EmojiEngine, RecentEmoji, RecentHistory, Settings};

fn emoji(c: &str, name: &str, keywords: &[&str], variants: &[&str]) -> Emoji {
    Emoji {
        char: c.to_string(),
        name: name.to_string(),
        keywords: keywords.iter().map(|k| k.to_string()).collect(),
        variants: variants.iter().map(|v| v.to_string()).collect(),
    }
}

#[test]
fn test_engine_creation() {
    let engine = EmojiEngine::new();
    assert_eq!(engine.buffer, "");
    assert_eq!(engine.enabled, false);
}

#[test]
fn test_trigger_logic() {
    let db = EmojiDatabase {
        version: "test".to_string(),
        emojis: vec![
            Emoji { char: "🙂".to_string(), name: "smile".to_string(), keywords: vec![], variants: vec![] },
            Emoji { char: "❤️".to_string(), name: "heart".to_string(), keywords: vec![], variants: vec![] },
        ],
    };
    let mut engine = EmojiEngine::with_database(db);
    engine.internal_enable();

    // Type ':'
    let (handled, commit) = engine.internal_process_key_event(0x3a, 0, 0);
    assert!(handled);
    assert_eq!(commit, None);
    assert_eq!(engine.buffer, ":");

    // Type 's'
    let (handled, commit) = engine.internal_process_key_event(0x73, 0, 0);
    assert!(handled);
    assert_eq!(commit, None);
    assert_eq!(engine.buffer, ":s");

    // Press Enter
    let (handled, commit) = engine.internal_process_key_event(0xff0d, 0, 0);
    assert!(handled);
    assert_eq!(commit, Some("🙂".to_string()));
    assert_eq!(engine.buffer, "");
}

#[test]
fn test_search_logic() {
    let db = EmojiDatabase {
        version: "test".to_string(),
        emojis: vec![
            Emoji { char: "🙂".to_string(), name: "smile".to_string(), keywords: vec![], variants: vec![] },
            Emoji { char: "😊".to_string(), name: "blush".to_string(), keywords: vec!["happy".to_string()], variants: vec![] },
        ],
    };

    assert_eq!(db.search("smi", &[]).len(), 1);
    assert_eq!(db.search("smi", &[])[0].char, "🙂");

    // Search by keyword
    assert_eq!(db.search("hap", &[]).len(), 1);
    assert_eq!(db.search("hap", &[])[0].char, "😊");

    // No match
    assert_eq!(db.search("xyz", &[]).len(), 0);
}

#[test]
fn test_variant_expansion() {
    let db = EmojiDatabase {
        version: "test".to_string(),
        emojis: vec![Emoji {
            char: "👍".to_string(),
            name: "thumbsup".to_string(),
            keywords: vec![],
            variants: vec!["👍🏻".to_string(), "👍🏼".to_string()],
        }],
    };

    let results = db.search("thumb", &[]);
    assert_eq!(results.len(), 3);
    assert_eq!(results[0].char, "👍");
    assert_eq!(results[1].char, "👍🏻");
    assert_eq!(results[2].char, "👍🏼");
}

#[test]
fn test_recents_prioritization() {
    let db = EmojiDatabase {
        version: "test".to_string(),
        emojis: vec![
            Emoji { char: "🙂".to_string(), name: "smile1".to_string(), keywords: vec![], variants: vec![] },
            Emoji { char: "😊".to_string(), name: "smile2".to_string(), keywords: vec![], variants: vec![] },
            Emoji { char: "😄".to_string(), name: "smile3".to_string(), keywords: vec![], variants: vec![] },
        ],
    };

    // Initially sorted by database order
    let results = db.search("smile", &[]);
    assert_eq!(results[0].char, "🙂");
    assert_eq!(results[1].char, "😊");

    // Prioritize smile2
    let results = db.search("smile", &["😊".to_string()]);
    assert_eq!(results[0].char, "😊");
    assert_eq!(results[1].char, "🙂");
    assert_eq!(results[2].char, "😄");

    // Prioritize smile3 then smile2
    let results = db.search("smile", &["😄".to_string(), "😊".to_string()]);
    assert_eq!(results[0].char, "😄");
    assert_eq!(results[1].char, "😊");
    assert_eq!(results[2].char, "🙂");
}

#[test]
fn test_recents_recording() {
    let mut engine = EmojiEngine::new();
    engine.recents = vec![];

    engine.record_usage("👍".to_string());
    assert_eq!(engine.recents, vec!["👍".to_string()]);

    engine.record_usage("❤️".to_string());
    assert_eq!(engine.recents, vec!["❤️".to_string(), "👍".to_string()]);

    // Move to front if repeated
    engine.record_usage("👍".to_string());
    assert_eq!(engine.recents, vec!["👍".to_string(), "❤️".to_string()]);
}

fn sample_engine() -> EmojiEngine {
    let db = EmojiDatabase {
        version: "1".to_string(),
        emojis: vec![
            emoji("🙂", "smile", &["happy"], &[]),
            emoji("😄", "smiley", &[], &["😄x"]),
            emoji("❤️", "heart", &["love"], &[]),
        ],
    };
    let mut engine = EmojiEngine::with_database(db);
    engine.internal_enable();
    engine
}

#[test]
fn disabled_engine_passes_every_key() {
    let mut engine = EmojiEngine::with_database(EmojiDatabase::default());
    assert_eq!(engine.internal_process_key_event(0x3a, 0, 0), (false, None));
    assert_eq!(engine.internal_process_key_event(KEY_RETURN, 0, 0), (false, None));
    assert_eq!(engine.buffer, "");
}

#[test]
fn printable_key_without_composition_passes() {
    let mut engine = sample_engine();
    assert_eq!(engine.internal_process_key_event(0x61, 0, 0), (false, None));
    assert_eq!(engine.buffer, "");
}

#[test]
fn super_semicolon_opens_composition() {
    let mut engine = sample_engine();
    assert_eq!(engine.internal_process_key_event(0x3b, 0, SUPER_MASK), (true, None));
    assert_eq!(engine.buffer, ":");
    // a second press leaves the buffer as it is
    assert_eq!(engine.internal_process_key_event(0x3b, 0, SUPER_MASK), (true, None));
    assert_eq!(engine.buffer, ":");
    // with the release bit it is an ordinary ';'
    let mut engine = sample_engine();
    assert_eq!(engine.internal_process_key_event(0x3b, 0, SUPER_MASK | RELEASE_MASK), (false, None));
    assert_eq!(engine.buffer, "");
}

#[test]
fn custom_trigger_character() {
    let mut engine = sample_engine();
    engine.settings = Settings { trigger_char: "#!".to_string() };
    assert_eq!(engine.internal_process_key_event(0x3a, 0, 0), (false, None));
    assert_eq!(engine.internal_process_key_event(0x23, 0, 0), (true, None));
    assert_eq!(engine.buffer, "#");
    engine.settings = Settings { trigger_char: String::new() };
    engine.internal_reset();
    assert_eq!(engine.internal_process_key_event(0x3a, 0, 0), (true, None));
    assert_eq!(engine.buffer, ":");
}

#[test]
fn backspace_and_escape() {
    let mut engine = sample_engine();
    engine.internal_process_key_event(0x3a, 0, 0);
    engine.internal_process_key_event(0x73, 0, 0);
    assert_eq!(engine.internal_process_key_event(KEY_BACKSPACE, 0, 0), (true, None));
    assert_eq!(engine.buffer, ":");
    assert_eq!(engine.internal_process_key_event(KEY_BACKSPACE, 0, 0), (true, None));
    assert_eq!(engine.buffer, "");
    assert_eq!(engine.internal_process_key_event(KEY_BACKSPACE, 0, 0), (false, None));
    engine.internal_process_key_event(0x3a, 0, 0);
    engine.internal_process_key_event(0x68, 0, 0);
    assert_eq!(engine.internal_process_key_event(KEY_ESCAPE, 0, 0), (true, None));
    assert_eq!(engine.buffer, "");
    // Escape is consumed even without a composition
    assert_eq!(engine.internal_process_key_event(KEY_ESCAPE, 0, 0), (true, None));
}

#[test]
fn other_key_cancels_composition() {
    let mut engine = sample_engine();
    engine.internal_process_key_event(0x3a, 0, 0);
    assert_eq!(engine.internal_process_key_event(0xffe1, 0, 0), (false, None));
    assert_eq!(engine.buffer, "");
}

#[test]
fn arrows_cycle_and_undo_each_other() {
    let mut engine = sample_engine();
    engine.internal_process_key_event(0x3a, 0, 0);
    engine.internal_process_key_event(0x73, 0, 0);
    // ":s" finds smile, smiley and its variant
    assert_eq!(engine.internal_process_key_event(KEY_DOWN, 0, 0), (true, None));
    assert_eq!(engine.selected_index, 1);
    assert_eq!(engine.internal_process_key_event(KEY_UP, 0, 0), (true, None));
    assert_eq!(engine.selected_index, 0);
    assert_eq!(engine.internal_process_key_event(KEY_UP, 0, 0), (true, None));
    assert_eq!(engine.selected_index, 2);
    assert_eq!(engine.internal_process_key_event(KEY_DOWN, 0, 0), (true, None));
    assert_eq!(engine.selected_index, 0);
    let (handled, commit) = engine.internal_process_key_event(KEY_UP, 0, 0);
    assert!(handled && commit.is_none());
    assert_eq!(engine.internal_process_key_event(KEY_RETURN, 0, 0), (true, Some("😄x".to_string())));
    assert_eq!(engine.recents, vec!["😄x".to_string()]);
}

#[test]
fn arrows_without_results_pass() {
    let mut engine = sample_engine();
    engine.internal_process_key_event(0x3a, 0, 0);
    engine.internal_process_key_event(0x7a, 0, 0);
    assert_eq!(engine.internal_process_key_event(KEY_DOWN, 0, 0), (false, None));
    assert_eq!(engine.internal_process_key_event(KEY_RETURN, 0, 0), (false, None));
    assert_eq!(engine.buffer, ":z");
}

#[test]
fn return_with_selection_past_results_passes() {
    let mut engine = sample_engine();
    engine.internal_process_key_event(0x3a, 0, 0);
    engine.internal_process_key_event(0x68, 0, 0);
    engine.selected_index = 5;
    assert_eq!(engine.internal_process_key_event(KEY_RETURN, 0, 0), (false, None));
    assert_eq!(engine.buffer, ":h");
}

#[test]
fn search_is_case_insensitive() {
    let engine = sample_engine();
    let results = engine.database.search("HEA", &[]);
    assert_eq!(results.len(), 1);
    assert_eq!(results[0].char, "❤️");
    let results = engine.database.search("LoV", &[]);
    assert_eq!(results[0].char, "❤️");
    assert_eq!(engine.database.search("", &[]).len(), 0);
}

#[test]
fn search_variant_entries_carry_name_and_no_variants() {
    let engine = sample_engine();
    let results = engine.database.search("smiley", &[]);
    assert_eq!(results.len(), 2);
    assert_eq!(results[1].char, "😄x");
    assert_eq!(results[1].name, "smiley");
    assert!(results[1].variants.is_empty());
    assert_eq!(results[0].variants, vec!["😄x".to_string()]);
}

#[test]
fn recent_variant_moves_ahead_of_base() {
    let engine = sample_engine();
    let results = engine.database.search("smi", &["😄x".to_string(), "nothing".to_string()]);
    let chars: Vec<&str> = results.iter().map(|e| e.char.as_str()).collect();
    assert_eq!(chars, vec!["😄x", "🙂", "😄"]);
}

#[test]
fn record_usage_keeps_twenty() {
    let mut engine = EmojiEngine::new();
    for i in 0..25 {
        engine.record_usage(format!("e{}", i));
    }
    assert_eq!(engine.recents.len(), 20);
    assert_eq!(engine.recents[0], "e24");
    assert_eq!(engine.recents[19], "e5");
    engine.record_usage("e10".to_string());
    assert_eq!(engine.recents.len(), 20);
    assert_eq!(engine.recents[0], "e10");
    assert_eq!(engine.recents[1], "e24");
    // using the first emoji again keeps the order
    let before = engine.recents.clone();
    engine.record_usage("e10".to_string());
    assert_eq!(engine.recents, before);
}

#[test]
fn record_usage_ranks_by_count_then_recency() {
    let mut engine = EmojiEngine::new();
    engine.record_usage("a".to_string());
    engine.record_usage("a".to_string());
    engine.record_usage("b".to_string());
    engine.record_usage("c".to_string());
    // a was used twice, c more recently than b
    assert_eq!(engine.recents, vec!["a".to_string(), "c".to_string(), "b".to_string()]);
    assert_eq!(engine.history.recent_tick, 4);
    assert_eq!(engine.history.recents[0].count, 2);
    assert_eq!(engine.history.recents[0].last_used, 2);
    assert_eq!(engine.history.recents[1].last_used, 4);
    engine.record_usage("b".to_string());
    engine.record_usage("b".to_string());
    assert_eq!(engine.recents, vec!["b".to_string(), "a".to_string(), "c".to_string()]);
    assert_eq!(engine.history.recents[0].count, 3);
}

#[test]
fn load_history_sets_recents_in_history_order() {
    let mut engine = EmojiEngine::new();
    let history = RecentHistory::from_entries(vec![
        RecentEmoji { char: "x".to_string(), count: 3, last_used: 7 },
        RecentEmoji { char: "y".to_string(), count: 1, last_used: 9 },
    ]);
    engine.load_history(history);
    assert_eq!(engine.recents, vec!["x".to_string(), "y".to_string()]);
    assert_eq!(engine.history.recent_tick, 9);
    engine.record_usage("y".to_string());
    assert_eq!(engine.history.recent_tick, 10);
    assert_eq!(engine.recents, vec!["x".to_string(), "y".to_string()]);
}

#[test]
fn enable_disable_reset() {
    let mut engine = sample_engine();
    engine.internal_process_key_event(0x3a, 0, 0);
    engine.internal_disable();
    assert!(!engine.enabled);
    assert_eq!(engine.buffer, "");
    engine.buffer = ":x".to_string();
    engine.internal_enable();
    assert!(engine.enabled);
    assert_eq!(engine.buffer, "");
    let d = EmojiEngine::default();
    assert!(!d.enabled);
    assert_eq!(d.settings.trigger_char, ":");
}

#[test]
fn key_release_reports_nothing() {
    let mut engine = sample_engine();
    assert!(engine.process_key_event(0x3a, 0, RELEASE_MASK).is_none());
    assert_eq!(engine.buffer, "");
}

#[test]
fn key_press_outcome_carries_preedit_and_results() {
    let mut engine = sample_engine();
    let o = engine.process_key_event(0x3a, 0, 0).unwrap();
    assert!(o.handled);
    assert_eq!(o.preedit_text, ":");
    assert_eq!(o.preedit_cursor, 1);
    assert!(o.preedit_visible);
    assert!(o.show_results);
    assert!(o.results.is_empty());
    let o = engine.process_key_event(0x73, 0, 0).unwrap();
    assert_eq!(o.results.len(), 3);
    assert_eq!(o.selected, 0);
    engine.selected_index = 7;
    let o = engine.process_key_event(0x6d, 0, 0).unwrap();
    assert_eq!(o.results.len(), 3);
    assert_eq!(o.selected, 0);
    assert_eq!(engine.selected_index, 0);
    let o = engine.process_key_event(KEY_RETURN, 0, 0).unwrap();
    assert_eq!(o.commit, Some("🙂".to_string()));
    assert_eq!(o.preedit_text, "");
    assert!(!o.preedit_visible);
    assert!(!o.show_results);
    assert!(o.results.is_empty());
    assert_eq!(o.selected, 0);
}

#[test]
fn super_semicolon_through_the_bus_opens_a_composition() {
    let mut engine = sample_engine();
    let o = engine.process_key_event(0x3b, 0, SUPER_MASK).unwrap();
    assert!(o.handled);
    assert_eq!(engine.buffer, ":");
    assert_eq!(o.preedit_text, ":");
    assert!(o.show_results);
    // a plain ';' outside a composition is passed on
    let mut engine = sample_engine();
    let o = engine.process_key_event(0x3b, 0, 0).unwrap();
    assert!(!o.handled);
    assert_eq!(engine.buffer, "");
}

#[test]
fn emoji_shortcut_inserts_smile() {
    let mut engine = sample_engine();
    for k in [0x3a, 0x65, 0x6d, 0x6f, 0x6a, 0x69] {
        assert_eq!(engine.internal_process_key_event(k, 0, 0), (true, None));
    }
    assert_eq!(engine.buffer, ":emoji");
    assert_eq!(engine.internal_process_key_event(0x3a, 0, 0), (true, Some("🙂".to_string())));
    assert_eq!(engine.buffer, "");
    assert!(engine.recents.is_empty());
    // through the bus
    engine.buffer = ":emoji".to_string();
    let o = engine.process_key_event(0x3a, 0, 0).unwrap();
    assert_eq!(o.commit, Some("🙂".to_string()));
    assert!(o.handled);
    assert_eq!(o.preedit_text, "");
    // ':' after another buffer is typed into it
    engine.buffer = ":emo".to_string();
    assert_eq!(engine.internal_process_key_event(0x3a, 0, 0), (true, None));
    assert_eq!(engine.buffer, ":emo:");
    // with another trigger, ':' after ':emoji' is typed into the buffer
    let mut engine = sample_engine();
    engine.settings = Settings { trigger_char: "/".to_string() };
    engine.buffer = ":emoji".to_string();
    assert_eq!(engine.internal_process_key_event(0x3a, 0, 0), (true, None));
    assert_eq!(engine.buffer, ":emoji:");
}

#[test]
fn recents_stay_distinct_and_capped() {
    let mut engine = EmojiEngine::new();
    for i in 0..30 {
        engine.record_usage(format!("e{}", i % 23));
    }
    assert!(!engine.recents.is_empty() && engine.recents.len() <= 20);
    let mut seen = engine.recents.clone();
    seen.sort();
    seen.dedup();
    assert_eq!(seen.len(), engine.recents.len());
}

#[test]
fn preedit_cursor_counts_bytes() {
    let mut engine = sample_engine();
    engine.settings = Settings { trigger_char: "é".to_string() };
    engine.buffer = "é".to_string();
    let o = engine.process_key_event(0x61, 0, 0).unwrap();
    assert_eq!(o.preedit_text, "éa");
    assert_eq!(o.preedit_cursor, 3);
}

#[test]
fn commit_from_popup() {
    let mut engine = sample_engine();
    engine.buffer = ":sm".to_string();
    assert_eq!(engine.commit_emoji("❤️".to_string()), Some("❤️".to_string()));
    assert_eq!(engine.buffer, "");
    assert_eq!(engine.recents, vec!["❤️".to_string()]);
    engine.buffer = ":x".to_string();
    assert_eq!(engine.commit_emoji(String::new()), None);
    assert_eq!(engine.buffer, "");
    assert_eq!(engine.recents, vec!["❤️".to_string()]);
}
