use codex_ps::titles::TitleResolver;

const STATE: &str = r#"{"thread-titles":{"titles":{"019c2590-5605-7cd1-81b8-8a488af219a3":"Hello"}}}"#;

#[test]
fn resolves_title_from_global_state() {
    let mut r = TitleResolver::new("/tmp/scope");
    r.refresh_from_text(Some(1), STATE).expect("refresh");
    let title = r.get_title("019c2590-5605-7cd1-81b8-8a488af219a3").expect("title present");
    assert_eq!(title.as_str(), "Hello");
}

#[test]
fn returns_none_for_unknown_thread() {
    let mut r = TitleResolver::new("/tmp/scope");
    r.refresh_from_text(Some(1), r#"{"thread-titles":{"titles":{}}}"#).expect("refresh");
    assert!(r.get_title("missing").is_none());
}

#[test]
fn clears_cache_when_global_state_disappears() {
    let mut r = TitleResolver::new("/tmp/scope");
    r.refresh_from_text(Some(1), STATE).expect("refresh");
    assert!(r.get_title("019c2590-5605-7cd1-81b8-8a488af219a3").is_some());
    r.note_missing();
    assert!(r.get_title("019c2590-5605-7cd1-81b8-8a488af219a3").is_none());
}

#[test]
fn unparseable_global_state_is_an_error_and_keeps_prior_titles() {
    let mut r = TitleResolver::new("/tmp/scope");
    r.refresh_from_text(Some(1), STATE).expect("refresh");
    let err = r.refresh_from_text(Some(2), "{broken").unwrap_err();
    assert_eq!(err.as_str(), "parse codex global state JSON: /tmp/scope/.codex-global-state.json");
    assert!(r.get_title("019c2590-5605-7cd1-81b8-8a488af219a3").is_some());
}
