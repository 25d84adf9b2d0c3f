use tuicher::config::{Config, Theme};
use tuicher::results::{Action, CopyText, TUIResult};

#[test]
fn new_result_has_only_text_and_info() {
    let r = TUIResult::new("label", "payload");
    assert_eq!(r.text, "label");
    assert_eq!(r.info, "payload");
    assert_eq!(r.icon_path, None);
    assert_eq!(r.secondary_text, None);
    assert_eq!(r.action, None);
}

#[test]
fn builders_update_and_return_the_entry() {
    let mut r = TUIResult::new("label", "payload");
    let with_icon = r.set_icon_path("/tmp/icon.png");
    assert_eq!(with_icon.icon_path, Some("/tmp/icon.png".to_string()));
    let with_secondary = r.set_secondary_text("more");
    assert_eq!(with_secondary.secondary_text, Some("more".to_string()));
    assert_eq!(with_secondary.icon_path, Some("/tmp/icon.png".to_string()));
    let with_action = r.set_action(Action::CopyText(CopyText::new("words")));
    assert_eq!(with_action.action, Some(Action::CopyText(CopyText::new("words"))));
    assert_eq!(with_action.text, "label");
    assert_eq!(with_action.info, "payload");
}

#[test]
fn builder_copies_are_independent() {
    let mut r = TUIResult::new("label", "payload");
    let first = r.set_secondary_text("one");
    let mut second = first.clone();
    second.set_secondary_text("two");
    assert_eq!(first.secondary_text, Some("one".to_string()));
    assert_eq!(second.secondary_text, Some("two".to_string()));
}

#[test]
fn default_config_first_run_values() {
    let c = Config::default();
    assert_eq!(c.plugins.len(), 0);
    assert_eq!(c.search_engines.len(), 3);
    assert_eq!(c.search_engines[0].id, 0);
    assert_eq!(c.search_engines[0].keyword, "ec");
    assert_eq!(c.search_engines[0].name, "Ecosia");
    assert_eq!(
        c.search_engines[0].url,
        "https://www.ecosia.org/search?method=index&q=%s"
    );
    assert_eq!(c.search_engines[1].id, 1);
    assert_eq!(c.search_engines[1].keyword, "gs");
    assert_eq!(c.search_engines[1].name, "Google");
    assert_eq!(c.search_engines[1].url, "https://www.google.com/search?q=%s");
    assert_eq!(c.search_engines[2].id, 2);
    assert_eq!(c.search_engines[2].keyword, "ds");
    assert_eq!(c.search_engines[2].name, "DuckDuckGo");
    assert_eq!(c.search_engines[2].url, "https://duckduckgo.com/?q=%s");
    assert_eq!(c.height, 800);
    assert_eq!(c.width, 900);
    assert_eq!(c.default_search_engine, 0);
    assert_eq!(c.bookmarks.len(), 0);
    assert_eq!(c.emojis_keyword, "em");
    assert!(c.enable_emojis);
    assert_eq!(c.bookmarks_keyword, "bm");
    assert!(c.enable_bookmarks);
    assert_eq!(c.session_manager_keyword, "sm");
    assert!(c.enable_session_manager);
    assert!(c.show_bookmarks_favicon);
}

#[test]
fn default_theme_palette() {
    let t = Theme::default();
    assert_eq!(t.background, "#141414");
    assert_eq!(t.secondary, "#1F1F1F");
    assert_eq!(t.tertiary, "#383838");
    assert_eq!(t.disabled, "#1F1F1F");
    assert_eq!(t.text, "#F2F2F2");
    assert_eq!(t.text_secondary, "#E5E5E5");
    assert_eq!(t.text_tertiary, "#C2C2C2");
    assert_eq!(t.on_text, "#000000");
    assert_eq!(t.warning, "#FFAD72");
}
