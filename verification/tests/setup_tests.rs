use trakbit::setup::{SetupKey, SetupResult, SetupState, SetupStep, ValidationOutcome};

fn typed(s: &str) -> Vec<SetupKey> {
    s.chars().map(SetupKey::Char).collect()
}

#[test]
fn test_typing_and_enter_asks_for_check() {
    let mut st = SetupState::new();
    let mut keys = typed("abc");
    keys.push(SetupKey::Enter);
    assert!(matches!(st.handle_keys(&keys), SetupStep::Continue));
    assert_eq!(st.token, "abc");
    assert!(st.is_validating);
    assert!(st.error_msg.is_empty());
}

#[test]
fn test_d_with_no_token_picks_demo() {
    let mut st = SetupState::new();
    assert!(matches!(st.handle_keys(&vec![SetupKey::Char('D')]), SetupStep::Finished(SetupResult::Demo)));
    let mut spaces = SetupState::new();
    let mut keys = typed("  ");
    keys.push(SetupKey::Char('d'));
    keys.push(SetupKey::Char('x'));
    assert!(matches!(spaces.handle_keys(&keys), SetupStep::Finished(SetupResult::Demo)));
    assert_eq!(spaces.token, "  ");
}

#[test]
fn test_d_after_token_is_typed() {
    let mut st = SetupState::new();
    assert!(matches!(st.handle_keys(&typed("xd")), SetupStep::Continue));
    assert_eq!(st.token, "xd");
    assert!(!st.is_validating);
}

#[test]
fn test_enter_on_empty_token_complains() {
    let mut st = SetupState::new();
    let keys = vec![SetupKey::Char(' '), SetupKey::Enter];
    assert!(matches!(st.handle_keys(&keys), SetupStep::Continue));
    assert_eq!(st.error_msg, "Token cannot be empty");
    assert!(!st.is_validating);
    // Typing clears the error.
    st.handle_keys(&typed("t"));
    assert!(st.error_msg.is_empty());
}

#[test]
fn test_type_then_backspace() {
    let mut st = SetupState::new();
    st.handle_keys(&typed("ab"));
    st.error_msg = "Invalid Access Token".to_string();
    st.handle_keys(&vec![SetupKey::Char('c'), SetupKey::Backspace]);
    assert_eq!(st.token, "ab");
    assert!(st.error_msg.is_empty());
    st.handle_keys(&vec![SetupKey::Backspace, SetupKey::Backspace, SetupKey::Backspace]);
    assert_eq!(st.token, "");
}

#[test]
fn test_escape_cancels_and_ignores_the_rest() {
    let mut st = SetupState::new();
    let mut keys = typed("ab");
    keys.push(SetupKey::Esc);
    keys.push(SetupKey::Char('c'));
    assert!(matches!(st.handle_keys(&keys), SetupStep::Cancelled));
    assert_eq!(st.token, "ab");
}

#[test]
fn test_other_keys_are_ignored() {
    let mut st = SetupState::new();
    assert!(matches!(st.handle_keys(&vec![SetupKey::Other]), SetupStep::Continue));
    assert_eq!(st.token, "");
    assert!(!st.is_validating);
}

#[test]
fn test_validation_outcomes() {
    let mut st = SetupState::new();
    st.handle_keys(&typed(" tok \t"));
    st.is_validating = true;
    match st.finish_validation(ValidationOutcome::Accepted) {
        SetupStep::Finished(SetupResult::Token(t)) => assert_eq!(t, "tok"),
        _ => panic!("expected the token"),
    }
    assert!(!st.is_validating);

    let mut st = SetupState::new();
    st.is_validating = true;
    assert!(matches!(st.finish_validation(ValidationOutcome::Unauthorized), SetupStep::Continue));
    assert_eq!(st.error_msg, "Invalid Access Token");
    assert!(!st.is_validating);
    st.finish_validation(ValidationOutcome::Rejected("500 Internal Server Error".to_string()));
    assert_eq!(st.error_msg, "API Error: 500 Internal Server Error");
    st.finish_validation(ValidationOutcome::Failed("connection refused".to_string()));
    assert_eq!(st.error_msg, "Network/Request Error: connection refused");
}

#[test]
fn test_masked_token() {
    let mut st = SetupState::new();
    st.handle_keys(&typed("abcdef"));
    assert_eq!(st.masked_token(4), "****");
    assert_eq!(st.masked_token(10), "******");
    assert_eq!(st.masked_token(0), "");
    let mut wide = SetupState::new();
    wide.handle_keys(&typed("é"));
    // One star per byte of the token.
    assert_eq!(wide.masked_token(10), "**");
}

#[test]
fn test_trimmed_token() {
    let mut st = SetupState::new();
    st.handle_keys(&typed("\t abc def  "));
    assert_eq!(st.trimmed_token(), "abc def");
    assert_eq!(st.token, "\t abc def  ");
}
