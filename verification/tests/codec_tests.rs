use tuicher::codec::{decode_plugin_action, decode_results, encode_plugin_action, encode_results};
use tuicher::plugin::{ExchangePhase, PluginAction, PluginExchange, ProtocolError};
use tuicher::results::{
    Action, AddBookmark, Bookmark, CopyImage, CopyText, OpenApp, OpenFile, OpenURL,
    RemoveBookmark, Session, ShowResults, TUIResult,
};

fn sample_result() -> TUIResult {
    let mut r = TUIResult::new("Open the manual", "manual-token");
    r.set_icon_path("/usr/share/icons/book.png");
    r.set_secondary_text("documentation");
    r.set_action(Action::OpenURL(OpenURL::new("https://example.org/manual")))
}

#[test]
fn round_trip_results_request() {
    let action = PluginAction::Results { text: "find me".to_string() };
    let bytes = encode_plugin_action(&action);
    assert_eq!(decode_plugin_action(&bytes).unwrap(), action);
}

#[test]
fn round_trip_run_request_with_info() {
    let action = PluginAction::Run {
        custom_action: "play".to_string(),
        info: Some(vec!["track 1".to_string(), "album".to_string()]),
    };
    let bytes = encode_plugin_action(&action);
    assert_eq!(decode_plugin_action(&bytes).unwrap(), action);
}

#[test]
fn round_trip_run_request_without_info() {
    let action = PluginAction::Run { custom_action: "refresh".to_string(), info: None };
    let bytes = encode_plugin_action(&action);
    assert_eq!(decode_plugin_action(&bytes).unwrap(), action);
}

#[test]
fn round_trip_every_action_variant() {
    let actions = vec![
        Action::OpenApp(OpenApp::new("/usr/bin/editor")),
        Action::OpenFile(OpenFile::new("/home/user/notes.txt")),
        Action::OpenURL(OpenURL::new("https://example.org")),
        Action::CopyText(CopyText::new("copied words")),
        Action::CopyImage(CopyImage::new("/tmp/shot.png")),
        Action::ShowResults(ShowResults::new(vec![sample_result()])),
        Action::OpenSettings,
        Action::Session(Session::Shutdown),
        Action::Session(Session::Restart),
        Action::Session(Session::Suspend),
        Action::Session(Session::Logout),
        Action::Bookmark(Bookmark::Add(AddBookmark {
            name: "news".to_string(),
            url: "https://news.example.org".to_string(),
        })),
        Action::Bookmark(Bookmark::Remove(RemoveBookmark { id: 42 })),
    ];
    let mut results = Vec::new();
    for (i, action) in actions.into_iter().enumerate() {
        let mut r = TUIResult::new("entry", &format!("token-{i}"));
        results.push(r.set_action(action));
    }
    let bytes = encode_results(&results);
    assert_eq!(decode_results(&bytes).unwrap(), results);
}

#[test]
fn round_trip_result_with_unicode_text() {
    let r = TUIResult::new("ouvrir le fichier — déjà vu ✓ 世界", "información");
    let results = vec![r];
    let bytes = encode_results(&results);
    assert_eq!(decode_results(&bytes).unwrap(), results);
}

#[test]
fn round_trip_empty_result_list() {
    let results: Vec<TUIResult> = Vec::new();
    let bytes = encode_results(&results);
    assert_eq!(bytes.len(), 8);
    assert_eq!(decode_results(&bytes).unwrap(), results);
}

#[test]
fn round_trip_nested_show_results_three_levels() {
    let leaf = sample_result();
    let mut level2 = TUIResult::new("level two", "t2");
    let level2 = level2.set_action(Action::ShowResults(ShowResults::new(vec![leaf])));
    let mut level1 = TUIResult::new("level one", "t1");
    let level1 = level1.set_action(Action::ShowResults(ShowResults::new(vec![level2])));
    let mut top = TUIResult::new("top", "t0");
    let top = top.set_action(Action::ShowResults(ShowResults::new(vec![level1])));
    let results = vec![top];
    let bytes = encode_results(&results);
    assert_eq!(decode_results(&bytes).unwrap(), results);
}

#[test]
fn decode_truncated_buffer_fails() {
    // A valid request tag with none of the variant's fields behind it.
    assert!(decode_plugin_action(&[0u8]).is_err());
    assert!(decode_plugin_action(&[1u8]).is_err());
    // A result list that announces one entry and ends.
    assert!(decode_results(&[1, 0, 0, 0, 0, 0, 0, 0]).is_err());
    // A string length prefix cut short.
    let action = PluginAction::Results { text: "abc".to_string() };
    let bytes = encode_plugin_action(&action);
    assert!(decode_plugin_action(&bytes[..bytes.len() - 1]).is_err());
}

#[test]
fn decode_trailing_garbage_fails() {
    let action = PluginAction::Results { text: "abc".to_string() };
    let mut bytes = encode_plugin_action(&action);
    bytes.push(0);
    assert!(decode_plugin_action(&bytes).is_err());

    let results = vec![sample_result()];
    let mut bytes = encode_results(&results);
    bytes.push(7);
    assert!(decode_results(&bytes).is_err());
}

#[test]
fn decode_out_of_range_request_tag_fails() {
    assert!(decode_plugin_action(&[9u8]).is_err());
}

#[test]
fn decode_surrogate_code_point_fails() {
    // Request tag 0, one character, whose code point 0xD800 no char holds.
    let bytes = [0u8, 1, 0, 0, 0, 0, 0, 0, 0, 0x00, 0xD8, 0, 0];
    assert!(decode_plugin_action(&bytes).is_err());
}

#[test]
fn decode_empty_buffer_fails() {
    assert!(decode_plugin_action(&[]).is_err());
    assert!(decode_results(&[]).is_err());
}

#[test]
fn parse_request_distinguishes_empty_from_malformed() {
    assert_eq!(
        tuicher::plugin::parse_plugin_request(&[]),
        Err(ProtocolError::EmptyInput)
    );
    assert_eq!(
        tuicher::plugin::parse_plugin_request(&[9u8, 9, 9]),
        Err(ProtocolError::MalformedRequest)
    );
    let bytes = encode_plugin_action(&PluginAction::Results { text: "q".to_string() });
    assert_eq!(
        tuicher::plugin::parse_plugin_request(&bytes).unwrap(),
        PluginAction::Results { text: "q".to_string() }
    );
}

#[test]
fn exchange_responds_exactly_once() {
    let mut exchange = PluginExchange::new();
    assert_eq!(exchange.phase, ExchangePhase::AwaitingRequest);
    let request = encode_plugin_action(&PluginAction::Results { text: "q".to_string() });
    let received = exchange.receive_request(&request).unwrap();
    assert_eq!(received, PluginAction::Results { text: "q".to_string() });
    let results = vec![sample_result()];
    let bytes = exchange.respond(&results);
    assert_eq!(exchange.phase, ExchangePhase::Responded);
    assert_eq!(bytes, encode_results(&results));
}

#[test]
fn encoding_is_deterministic() {
    let results = vec![sample_result(), sample_result()];
    assert_eq!(encode_results(&results), encode_results(&results));
}
