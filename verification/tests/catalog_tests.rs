use worker_bridge::catalog;
use worker_bridge::JsonValue;

fn pair(k: &str, v: JsonValue) -> (Vec<u8>, JsonValue) {
    (k.as_bytes().to_vec(), v)
}

fn s(text: &str) -> JsonValue {
    JsonValue::Str(text.as_bytes().to_vec())
}

#[test]
fn greet_text() {
    let r = catalog::greet(&b"World".to_vec());
    assert_eq!(r, b"Hello, World! You've been greeted from Rust!".to_vec());
}

#[test]
fn hello_backend_request() {
    let r = catalog::hello_backend(b"alice".to_vec(), 1700000000);
    assert_eq!(r.command, b"hello".to_vec());
    assert_eq!(
        r.payload.entries,
        vec![pair("name", s("alice")), pair("timestamp", s("1700000000"))]
    );
}

#[test]
fn url_requests() {
    let r = catalog::process_url(b"u".to_vec());
    assert_eq!(r.command, b"process_url".to_vec());
    assert_eq!(r.payload.entries, vec![pair("url", s("u"))]);

    let r = catalog::summarize_page(b"u".to_vec());
    assert_eq!(r.command, b"summarize_page".to_vec());
    assert_eq!(r.payload.entries, vec![pair("url", s("u"))]);
}

#[test]
fn browser_data_and_content() {
    let r = catalog::get_browser_data(b"bookmarks".to_vec());
    assert_eq!(r.command, b"get_browser_data".to_vec());
    assert_eq!(r.payload.entries, vec![pair("type", s("bookmarks"))]);

    let r = catalog::analyze_content(b"some text".to_vec());
    assert_eq!(r.command, b"analyze_content".to_vec());
    assert_eq!(r.payload.entries, vec![pair("content", s("some text"))]);
}

#[test]
fn init_and_clear_have_empty_payloads() {
    assert_eq!(catalog::init_database().command, b"init_database".to_vec());
    assert!(catalog::init_database().payload.entries.is_empty());
    assert_eq!(catalog::clear_browser_history().command, b"clear_browser_history".to_vec());
    assert!(catalog::clear_browser_history().payload.entries.is_empty());
}

#[test]
fn chat_uses_caller_session() {
    let r = catalog::chat_with_llm(b"hi".to_vec(), Some(b"sess-1".to_vec()));
    assert_eq!(r.command, b"chat_with_llm".to_vec());
    assert_eq!(
        r.payload.entries,
        vec![pair("message", s("hi")), pair("session_id", s("sess-1"))]
    );
}

#[test]
fn chat_generates_session_when_absent() {
    let r = catalog::chat_with_llm(b"hi".to_vec(), None);
    assert_eq!(r.payload.entries.len(), 2);
    assert_eq!(r.payload.entries[0], pair("message", s("hi")));
    assert_eq!(r.payload.entries[1].0, b"session_id".to_vec());
    match &r.payload.entries[1].1 {
        JsonValue::Str(id) => assert_eq!(id.len(), 36),
        other => panic!("session_id should be a string, got {:?}", other),
    }
}

#[test]
fn save_bookmark_optional_content() {
    let r = catalog::save_bookmark(b"u".to_vec(), b"t".to_vec(), Some(b"c".to_vec()));
    assert_eq!(
        r.payload.entries,
        vec![pair("url", s("u")), pair("title", s("t")), pair("content", s("c"))]
    );
    let r = catalog::save_bookmark(b"u".to_vec(), b"t".to_vec(), None);
    assert_eq!(r.payload.entries, vec![pair("url", s("u")), pair("title", s("t"))]);
}

#[test]
fn history_and_search_requests() {
    let r = catalog::get_chat_history(Some(b"sess".to_vec()), Some(25));
    assert_eq!(
        r.payload.entries,
        vec![pair("session_id", s("sess")), pair("limit", JsonValue::Int(25))]
    );
    let r = catalog::get_chat_history(None, None);
    assert!(r.payload.entries.is_empty());

    let r = catalog::get_bookmarks(Some(b"rust".to_vec()));
    assert_eq!(r.payload.entries, vec![pair("search_query", s("rust"))]);

    let r = catalog::search_bookmarks(b"q".to_vec(), Some(5));
    assert_eq!(r.payload.entries, vec![pair("query", s("q")), pair("limit", JsonValue::Int(5))]);

    let r = catalog::get_browser_history(Some(10), Some(b"q".to_vec()));
    assert_eq!(
        r.payload.entries,
        vec![pair("limit", JsonValue::Int(10)), pair("search_query", s("q"))]
    );

    let r = catalog::search_web(b"q".to_vec(), Some(b"duck".to_vec()), Some(3));
    assert_eq!(
        r.payload.entries,
        vec![pair("query", s("q")), pair("provider", s("duck")), pair("limit", JsonValue::Int(3))]
    );
    let r = catalog::search_web(b"q".to_vec(), None, None);
    assert_eq!(r.payload.entries, vec![pair("query", s("q"))]);
}

#[test]
fn add_history_entry_timestamps() {
    let r = catalog::add_history_entry(
        b"u".to_vec(),
        b"t".to_vec(),
        Some(b"123".to_vec()),
        999,
    );
    assert_eq!(
        r.payload.entries,
        vec![pair("url", s("u")), pair("title", s("t")), pair("visit_time", s("123"))]
    );
    let r = catalog::add_history_entry(b"u".to_vec(), b"t".to_vec(), None, 1699999999);
    assert_eq!(r.payload.entries[2], pair("visit_time", s("1699999999")));
}

#[test]
fn settings_requests() {
    let r = catalog::set_user_setting(b"theme".to_vec(), b"dark".to_vec());
    assert_eq!(r.payload.entries, vec![pair("key", s("theme")), pair("value", s("dark"))]);
    let r = catalog::get_user_setting(b"theme".to_vec());
    assert_eq!(r.payload.entries, vec![pair("key", s("theme"))]);
}

#[test]
fn clear_session_scoped_requests() {
    let r = catalog::clear_chat_history(Some(b"sess".to_vec()));
    assert_eq!(r.command, b"clear_chat_history".to_vec());
    assert_eq!(r.payload.entries, vec![pair("session_id", s("sess"))]);
    assert!(catalog::clear_chat_history(None).payload.entries.is_empty());

    let r = catalog::clear_conversation_context(None);
    assert_eq!(r.command, b"clear_conversation_context".to_vec());
    assert!(r.payload.entries.is_empty());
}

#[test]
fn session_or_fresh_behaviour() {
    assert_eq!(catalog::session_or_fresh(Some(b"keep".to_vec())), b"keep".to_vec());
    assert_eq!(catalog::session_or_fresh(None).len(), 36);
}
