use emoji_input::ibus::choose_address;
use emoji_input::ibus::{
    cache_is_current, commit_token_accepted, database_file, install_prefix, is_address_file,
    parse_ibus_address, split_lines,
};
use emoji_input::Settings;

#[test]
fn lines_like_std() {
    for s in ["", "a", "a\n", "a\r\nb", "a\n\nb\r", "\n", "x\r\n\r\ny\n", "\r"] {
        let expected: Vec<String> = s.lines().map(|l| l.to_string()).collect();
        assert_eq!(split_lines(s), expected, "{:?}", s);
    }
}

#[test]
fn address_file_value() {
    let content = "# comment\nIBUS_ADDRESS_X=no\nIBUS_ADDRESS= unix:path=/tmp/ibus \r\nIBUS_ADDRESS=second\n";
    assert_eq!(parse_ibus_address(content), Some("unix:path=/tmp/ibus".to_string()));
    assert_eq!(parse_ibus_address("IBUS_DAEMON_PID=1\n"), None);
    assert_eq!(parse_ibus_address(""), None);
    assert_eq!(parse_ibus_address("IBUS_ADDRESS="), Some(String::new()));
}

#[test]
fn address_file_selection() {
    assert!(is_address_file("abc123-unix-wayland-0", "abc123\n"));
    assert!(!is_address_file("xyz-unix-0", "abc123\n"));
    assert!(is_address_file("anything", "  \n"));
}

#[test]
fn data_paths() {
    assert_eq!(install_prefix(Some("/opt/x".to_string()), Some("/home/u".to_string())), "/opt/x");
    assert_eq!(install_prefix(None, Some("/home/u".to_string())), "/home/u/.local");
    assert_eq!(install_prefix(None, None), "/usr/local/.local");
    assert_eq!(database_file("/home/u/.local", None), "/home/u/.local/share/gnome-emoji-input/emojis.json");
    assert_eq!(database_file("/p", Some("/data".to_string())), "/data/emojis.json");
}

#[test]
fn cache_and_token_rules() {
    assert!(cache_is_current(false, 1, 2));
    assert!(cache_is_current(true, 5, 5));
    assert!(!cache_is_current(true, 5, 6));
    assert!(commit_token_accepted("abc-1", "abc-1"));
    assert!(!commit_token_accepted("abc-1", "abc-2"));
    assert!(!commit_token_accepted("", "abc"));
}

#[test]
fn stored_trigger_setting() {
    assert_eq!(Settings::from_stored_trigger(String::new()).trigger_char, ":");
    assert_eq!(Settings::from_stored_trigger("#".to_string()).trigger_char, "#");
    assert_eq!(Settings::default().trigger(), ':');
    assert_eq!(Settings { trigger_char: "#$".to_string() }.trigger(), '#');
    assert_eq!(Settings { trigger_char: String::new() }.trigger(), ':');
}

#[test]
fn address_from_environment_first() {
    assert_eq!(
        choose_address(Some("unix:path=/a".to_string()), Some("unix:path=/b".to_string())),
        Some("unix:path=/a".to_string())
    );
    assert_eq!(choose_address(Some(String::new()), Some("unix:path=/b".to_string())), Some("unix:path=/b".to_string()));
    assert_eq!(choose_address(None, Some("unix:path=/b".to_string())), Some("unix:path=/b".to_string()));
    assert_eq!(choose_address(None, None), None);
}
