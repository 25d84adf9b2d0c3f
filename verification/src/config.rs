//! The persisted configuration's data model: plugin registrations,
//! search engines, theme palette, window geometry, bookmarks and the
//! built-in feature toggles.  Loading and saving the JSON file is the
//! surrounding application's business; this module pins down the types
//! and the defaults written on first run.

use vstd::prelude::*;

verus! {

#[derive(Debug, PartialEq)]
pub struct Config {
    pub plugins: Vec<PluginConfig>,
    pub search_engines: Vec<SearchEngine>,
    pub theme: Theme,
    pub height: u16,
    pub width: u16,
    pub default_search_engine: usize,
    pub bookmarks: Vec<BookmarkConfig>,
    pub emojis_keyword: String,
    pub enable_emojis: bool,
    pub bookmarks_keyword: String,
    pub enable_bookmarks: bool,
    pub session_manager_keyword: String,
    pub enable_session_manager: bool,
    pub show_bookmarks_favicon: bool,
}

/// Binds a plugin to the keyword that routes queries to it.
#[derive(Debug, PartialEq)]
pub struct PluginConfig {
    pub id: String,
    pub keyword: String,
}

/// One search engine: its routing keyword and a URL template holding a
/// `%s` placeholder for the query.
#[derive(Debug, PartialEq)]
pub struct SearchEngine {
    pub id: usize,
    pub keyword: String,
    pub name: String,
    pub url: String,
}

/// The nine named colors of the palette.
#[derive(Debug, PartialEq)]
pub struct Theme {
    pub background: String,
    pub secondary: String,
    pub tertiary: String,
    pub disabled: String,
    pub text: String,
    pub text_secondary: String,
    pub text_tertiary: String,
    pub on_text: String,
    pub warning: String,
}

#[derive(Debug, PartialEq)]
pub struct BookmarkConfig {
    pub id: usize,
    pub name: String,
    pub url: String,
}

/// The palette written on first run.
pub open spec fn is_default_theme(t: Theme) -> bool {
    &&& t.background@ == "#141414"@
    &&& t.secondary@ == "#1F1F1F"@
    &&& t.tertiary@ == "#383838"@
    &&& t.disabled@ == "#1F1F1F"@
    &&& t.text@ == "#F2F2F2"@
    &&& t.text_secondary@ == "#E5E5E5"@
    &&& t.text_tertiary@ == "#C2C2C2"@
    &&& t.on_text@ == "#000000"@
    &&& t.warning@ == "#FFAD72"@
}

/// The configuration written on first run: no plugins, three search
/// engines, the default palette, and every built-in feature switched on.
pub open spec fn is_default_config(c: Config) -> bool {
    &&& c.plugins@.len() == 0
    &&& c.search_engines@.len() == 3
    &&& c.search_engines@[0].id == 0
    &&& c.search_engines@[0].keyword@ == "ec"@
    &&& c.search_engines@[0].name@ == "Ecosia"@
    &&& c.search_engines@[0].url@ == "https://www.ecosia.org/search?method=index&q=%s"@
    &&& c.search_engines@[1].id == 1
    &&& c.search_engines@[1].keyword@ == "gs"@
    &&& c.search_engines@[1].name@ == "Google"@
    &&& c.search_engines@[1].url@ == "https://www.google.com/search?q=%s"@
    &&& c.search_engines@[2].id == 2
    &&& c.search_engines@[2].keyword@ == "ds"@
    &&& c.search_engines@[2].name@ == "DuckDuckGo"@
    &&& c.search_engines@[2].url@ == "https://duckduckgo.com/?q=%s"@
    &&& is_default_theme(c.theme)
    &&& c.height == 800
    &&& c.width == 900
    &&& c.default_search_engine == 0
    &&& c.bookmarks@.len() == 0
    &&& c.emojis_keyword@ == "em"@
    &&& c.enable_emojis == true
    &&& c.bookmarks_keyword@ == "bm"@
    &&& c.enable_bookmarks == true
    &&& c.session_manager_keyword@ == "sm"@
    &&& c.enable_session_manager == true
    &&& c.show_bookmarks_favicon == true
}

impl Default for Theme {
    /// The palette written on first run.
    fn default() -> (t: Self)
        ensures
            is_default_theme(t),
    {
        Theme {
            background: "#141414".to_owned(),
            secondary: "#1F1F1F".to_owned(),
            tertiary: "#383838".to_owned(),
            disabled: "#1F1F1F".to_owned(),
            text: "#F2F2F2".to_owned(),
            text_secondary: "#E5E5E5".to_owned(),
            text_tertiary: "#C2C2C2".to_owned(),
            on_text: "#000000".to_owned(),
            warning: "#FFAD72".to_owned(),
        }
    }
}

impl Default for Config {
    /// The configuration written on first run.
    fn default() -> (c: Self)
        ensures
            is_default_config(c),
    {
        let mut search_engines: Vec<SearchEngine> = Vec::new();
        search_engines.push(
            SearchEngine {
                id: 0,
                keyword: "ec".to_owned(),
                name: "Ecosia".to_owned(),
                url: "https://www.ecosia.org/search?method=index&q=%s".to_owned(),
            },
        );
        search_engines.push(
            SearchEngine {
                id: 1,
                keyword: "gs".to_owned(),
                name: "Google".to_owned(),
                url: "https://www.google.com/search?q=%s".to_owned(),
            },
        );
        search_engines.push(
            SearchEngine {
                id: 2,
                keyword: "ds".to_owned(),
                name: "DuckDuckGo".to_owned(),
                url: "https://duckduckgo.com/?q=%s".to_owned(),
            },
        );
        Config {
            plugins: Vec::new(),
            search_engines,
            theme: Theme::default(),
            height: 800,
            width: 900,
            default_search_engine: 0,
            bookmarks: Vec::new(),
            enable_emojis: true,
            enable_bookmarks: true,
            enable_session_manager: true,
            emojis_keyword: "em".to_owned(),
            bookmarks_keyword: "bm".to_owned(),
            session_manager_keyword: "sm".to_owned(),
            show_bookmarks_favicon: true,
        }
    }
}

} // verus!
