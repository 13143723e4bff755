use backend::preferences::{Preferences, QuoteModeLength, TypingTestMode};
use backend::results::{
    is_duplicate_entry_message, page_response, PostResultError, TestResult, TestResultWithId,
};

fn with_id(id: u32, at: i64) -> TestResultWithId {
    TestResultWithId {
        id,
        test_params: format!("{{\"n\":{}}}", id),
        test_completed_timestamp: at,
        wpm: 1,
        raw_wpm: 2,
        accuracy: 3,
    }
}

#[test]
fn duplicate_entry_message_is_recognised() {
    assert!(is_duplicate_entry_message(
        "Duplicate entry '1-{}-2024-01-01' for key 'unique_result'"
    ));
    assert!(!is_duplicate_entry_message(
        "Duplicate entry '1' for key 'PRIMARY'"
    ));
    assert!(!is_duplicate_entry_message("Table 'result' doesn't exist"));
    assert!(!is_duplicate_entry_message(""));
    assert!(!is_duplicate_entry_message("duplicate entry x for key 'unique_result'"));
}

#[test]
fn storage_failures_are_classified() {
    assert_eq!(
        PostResultError::from_storage_failure(Some(
            "Duplicate entry 'x' for key 'unique_result'"
        )),
        PostResultError::DuplicateResult
    );
    assert_eq!(
        PostResultError::from_storage_failure(Some("Lock wait timeout exceeded")),
        PostResultError::Other
    );
    assert_eq!(PostResultError::from_storage_failure(None), PostResultError::Other);
}

#[test]
fn errors_map_to_status_and_text() {
    assert_eq!(PostResultError::DuplicateResult.status_code(), 422);
    assert_eq!(PostResultError::DuplicateResult.message(), "Duplicate result");
    assert_eq!(PostResultError::Other.status_code(), 500);
    assert_eq!(PostResultError::Other.message(), "Internal server error");
}

#[test]
fn page_response_takes_the_last_id_as_cursor() {
    let rows = vec![with_id(9, 90), with_id(7, 70), with_id(4, 40)];
    let r = page_response(&rows);
    assert_eq!(r.cursor, 4);
    let stamps: Vec<i64> = r.results.iter().map(|t| t.test_completed_timestamp).collect();
    assert_eq!(stamps, vec![90, 70, 40]);
    assert_eq!(r.results[1].test_params, "{\"n\":7}");
}

#[test]
fn page_response_of_nothing_has_cursor_zero() {
    let r = page_response(&Vec::new());
    assert_eq!(r.cursor, 0);
    assert!(r.results.is_empty());
}

#[test]
fn record_converts_to_result() {
    let t: TestResult = with_id(3, 30).into();
    assert_eq!(t.test_params, "{\"n\":3}");
    assert_eq!(t.test_completed_timestamp, 30);
    assert_eq!((t.wpm, t.raw_wpm, t.accuracy), (1, 2, 3));
}

#[test]
fn default_preferences() {
    let p = Preferences::default();
    assert_eq!(p.current_mode, TypingTestMode::Words);
    assert_eq!(p.words_mode_length, 0);
    assert_eq!(p.time_mode_duration, 0);
    assert_eq!(p.language, "");
    assert_eq!(p.quote_mode_max_length, None);
    assert!(!p.show_all_lines);
    assert_eq!(QuoteModeLength::default(), QuoteModeLength::Medium);
    assert_eq!(TypingTestMode::default(), TypingTestMode::Words);
}
