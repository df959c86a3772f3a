use emoji_input::search::{matches_query, normalize_query, prefix_matches, search, search_normalized, sort_by_recents};
use emoji_input::{Emoji, EmojiDatabase, RecentEmoji, RecentHistory};

fn emoji(c: &str, name: &str, keywords: &[&str]) -> Emoji {
    Emoji {
        char: c.to_string(),
        name: name.to_string(),
        keywords: keywords.iter().map(|k| k.to_string()).collect(),
        variants: vec![],
    }
}

fn recent(c: &str, count: u32, last_used: u64) -> RecentEmoji {
    RecentEmoji { char: c.to_string(), count, last_used }
}

fn chars(v: &[Emoji]) -> Vec<&str> {
    v.iter().map(|e| e.char.as_str()).collect()
}

#[test]
fn normalize_trims_and_lowercases() {
    assert_eq!(normalize_query("  SmIlE \t\n"), "smile");
    assert_eq!(normalize_query("\u{3000}Ünïcode\u{a0}"), "ünïcode");
    assert_eq!(normalize_query("   "), "");
    assert_eq!(normalize_query("a b"), "a b");
}

#[test]
fn trim_matches_std() {
    for s in ["", " a ", "\u{85}x\u{2009}", "\u{200b}y\u{200b}", "\t\r\n z \u{202f}", "\u{1680}\u{205f}"] {
        assert_eq!(emoji_input::text::trim(s), s.trim());
    }
}

#[test]
fn match_on_name_or_keyword() {
    let e = emoji("😊", "Blush", &["Happy", "glad"]);
    assert!(matches_query(&e, "bl"));
    assert!(matches_query(&e, "hap"));
    assert!(matches_query(&e, "gla"));
    assert!(!matches_query(&e, "lush"));
    assert!(!matches_query(&e, ""));
}

#[test]
fn prefix_matches_takes_lowered_text() {
    let kws = vec!["happy".to_string()];
    assert!(prefix_matches("blush", &kws, "bl"));
    assert!(!prefix_matches("Blush", &vec![], "bl"));
    assert!(prefix_matches("x", &kws, "ha"));
    assert!(!prefix_matches("x", &kws, ""));
}

#[test]
fn sort_by_history_rank() {
    let mut results = vec![
        emoji("a", "a", &[]),
        emoji("b", "b", &[]),
        emoji("c", "c", &[]),
        emoji("d", "d", &[]),
        emoji("e", "e", &[]),
    ];
    let recents = vec![recent("d", 2, 1), recent("b", 2, 5), recent("e", 7, 0), recent("d", 1, 3)];
    sort_by_recents(&mut results, &recents);
    // e: (7,0); b: (2,5); d: last entry wins (1,3); a, c unranked in order
    assert_eq!(chars(&results), vec!["e", "b", "d", "a", "c"]);
}

#[test]
fn ranked_search_filters_and_orders() {
    let db = EmojiDatabase {
        version: "v".to_string(),
        emojis: vec![emoji("🙂", "smile", &[]), emoji("😺", "cat", &["smiling"]), emoji("❤️", "heart", &[])],
    };
    let recents = vec![recent("😺", 3, 9)];
    assert_eq!(chars(&search(&db, " SMI ", &recents)), vec!["😺", "🙂"]);
    assert_eq!(chars(&search(&db, "smi", &[])), vec!["🙂", "😺"]);
    assert!(search(&db, "  ", &recents).is_empty());
    assert_eq!(chars(&search_normalized(&db, "he", &recents)), vec!["❤️"]);
}

#[test]
fn history_counts_and_orders() {
    let mut h = RecentHistory::new();
    h.record_usage("a".to_string());
    h.record_usage("b".to_string());
    h.record_usage("a".to_string());
    assert_eq!(h.recent_tick, 3);
    let view: Vec<(&str, u32, u64)> = h.recents.iter().map(|r| (r.char.as_str(), r.count, r.last_used)).collect();
    assert_eq!(view, vec![("a", 2, 3), ("b", 1, 2)]);
    h.record_usage("c".to_string());
    let view: Vec<(&str, u32, u64)> = h.recents.iter().map(|r| (r.char.as_str(), r.count, r.last_used)).collect();
    assert_eq!(view, vec![("a", 2, 3), ("c", 1, 4), ("b", 1, 2)]);
}

#[test]
fn history_keeps_twenty_and_saturates() {
    let mut h = RecentHistory::from_entries(vec![recent("x", u32::MAX, u64::MAX)]);
    assert_eq!(h.recent_tick, u64::MAX);
    h.record_usage("x".to_string());
    assert_eq!(h.recent_tick, u64::MAX);
    assert_eq!(h.recents[0].count, u32::MAX);
    let mut h = RecentHistory::new();
    for i in 0..30 {
        h.record_usage(format!("e{}", i));
    }
    assert_eq!(h.recents.len(), 20);
    assert_eq!(h.recents[0].char, "e29");
    assert_eq!(h.recents[19].char, "e10");
}

#[test]
fn history_from_stored_forms() {
    let h = RecentHistory::from_entries(vec![recent("a", 1, 4), recent("b", 2, 9), recent("c", 1, 2)]);
    assert_eq!(h.recent_tick, 9);
    assert_eq!(RecentHistory::from_entries(vec![]).recent_tick, 0);
    let h = RecentHistory::from_legacy(vec!["x".to_string(), "y".to_string(), "z".to_string()]);
    assert_eq!(h.recent_tick, 3);
    let view: Vec<(&str, u32, u64)> = h.recents.iter().map(|r| (r.char.as_str(), r.count, r.last_used)).collect();
    assert_eq!(view, vec![("x", 1, 3), ("y", 1, 2), ("z", 1, 1)]);
}

#[test]
fn normalizing_twice_equals_once() {
    for q in ["  SmIlE \t", "heart", "A B ", "", "Thumbs_Up"] {
        let once = normalize_query(q);
        assert_eq!(normalize_query(&once), once);
    }
}

#[test]
fn ascii_query_case_does_not_matter() {
    let db = EmojiDatabase {
        version: "t".to_string(),
        emojis: vec![emoji("🙂", "Smile", &["happy"]), emoji("😊", "blush", &["Smiling"])],
    };
    let lower = db.search("smi", &[]);
    let upper = db.search("SMI", &[]);
    let mixed = db.search("sMi", &[]);
    assert_eq!(chars(&lower), vec!["🙂", "😊"]);
    assert_eq!(chars(&upper), chars(&lower));
    assert_eq!(chars(&mixed), chars(&lower));
}
