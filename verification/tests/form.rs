use nullae::ui::{FormAction, FormEvent, FormState};

fn submit(state: FormState, input: &str) -> (FormState, Vec<FormAction>) {
    state.step(FormEvent::Submit { input: input.to_string() })
}

#[test]
fn fresh_form_is_idle() {
    let s = FormState::new();
    assert_eq!(s.response, None);
    assert!(!s.loading && !s.copied);
    assert_eq!(s.submit_label(), "Submit");
    assert_eq!(s.copy_label(), "Copy to clipboard");
    assert!(!s.shows_link());
}

#[test]
fn empty_submit_does_nothing() {
    let (s, actions) = submit(FormState::new(), "");
    assert_eq!(s.response, None);
    assert!(!s.loading);
    assert!(actions.is_empty());
}

#[test]
fn invalid_url_shows_a_message_and_clears_the_input() {
    let (s, actions) = submit(FormState::new(), "not a url");
    assert_eq!(s.response.as_deref(), Some("URL validation failed: not a url"));
    assert!(!s.loading);
    assert_eq!(actions.len(), 1);
    assert!(matches!(actions[0], FormAction::ClearInput));
    assert!(!s.shows_link());
}

#[test]
fn valid_url_sends_the_request() {
    let (s, actions) = submit(FormState::new(), "https://example.com/a");
    assert_eq!(s.response, None);
    assert!(s.loading);
    assert_eq!(s.submit_label(), "Loading...");
    assert_eq!(actions.len(), 2);
    match &actions[0] {
        FormAction::Send { api_url, request } => {
            assert_eq!(api_url, "http://localhost:3000/api/v1/short");
            assert_eq!(request.url, "https://example.com/a");
        }
        _ => panic!("the first action is not the request"),
    }
    assert!(matches!(actions[1], FormAction::ClearInput));
}

#[test]
fn enter_key_submits_and_other_keys_do_not() {
    let (s, actions) = FormState::new().step(FormEvent::Key {
        key: "a".to_string(),
        input: "https://example.com".to_string(),
    });
    assert!(!s.loading && actions.is_empty());
    let (s, actions) = FormState::new().step(FormEvent::Key {
        key: "Enter".to_string(),
        input: "https://example.com".to_string(),
    });
    assert!(s.loading);
    assert_eq!(actions.len(), 3);
    assert!(matches!(actions[0], FormAction::PreventDefault));
    assert!(matches!(actions[1], FormAction::Send { .. }));
    assert!(matches!(actions[2], FormAction::ClearInput));
}

#[test]
fn answers_and_copying() {
    let (s, _) = submit(FormState::new(), "https://example.com");
    let (s, actions) =
        s.step(FormEvent::Answered { result: Ok("https://0ae.ru/ab12cd34".to_string()) });
    assert!(actions.is_empty());
    assert!(!s.loading);
    assert!(s.shows_link());
    let (s, actions) = s.step(FormEvent::CopyClicked);
    match &actions[..] {
        [FormAction::WriteClipboard { text }] => assert_eq!(text, "https://0ae.ru/ab12cd34"),
        _ => panic!("expected one clipboard write"),
    }
    let (s, actions) = s.step(FormEvent::Copied);
    assert!(s.copied);
    assert_eq!(s.copy_label(), "Copied!");
    assert!(matches!(actions[..], [FormAction::StartCopyTimer { millis: 2000 }]));
    let (s, actions) = s.step(FormEvent::CopyTimeout);
    assert!(!s.copied && actions.is_empty());
    assert_eq!(s.response.as_deref(), Some("https://0ae.ru/ab12cd34"));
}

#[test]
fn failed_request_shows_the_error() {
    let (s, _) = submit(FormState::new(), "https://example.com");
    let (s, actions) = s.step(FormEvent::Answered { result: Err("HTTP error: 500".to_string()) });
    assert!(actions.is_empty());
    assert!(!s.loading);
    assert_eq!(s.response.as_deref(), Some("Error: HTTP error: 500"));
    assert!(!s.shows_link());
    let (_, actions) = FormState::new().step(FormEvent::CopyClicked);
    assert!(actions.is_empty());
}
