use backend::ledger::Ledger;
use backend::results::{GetResultsParams, PostResultError, TestResult};

fn result(params: &str, at: i64) -> TestResult {
    TestResult {
        test_params: params.to_string(),
        test_completed_timestamp: at,
        wpm: 61.5f32.to_bits(),
        raw_wpm: 64.0f32.to_bits(),
        accuracy: 0.97f32.to_bits(),
    }
}

fn page(ledger: &Ledger, user: u32, cursor: Option<u32>, limit: u32) -> (u32, Vec<i64>) {
    let r = ledger.list_results(user, &GetResultsParams { cursor, limit });
    let stamps = r.results.iter().map(|t| t.test_completed_timestamp).collect();
    (r.cursor, stamps)
}

fn five_for_one_user() -> Ledger {
    let mut ledger = Ledger::new();
    for at in 1..=5i64 {
        assert_eq!(ledger.submit(7, result("{\"mode\":\"words\"}", at)), Ok(at as u32));
    }
    ledger
}

#[test]
fn pages_of_two_over_five_records() {
    let ledger = five_for_one_user();
    assert_eq!(page(&ledger, 7, None, 2), (4, vec![5, 4]));
    assert_eq!(page(&ledger, 7, Some(4), 2), (2, vec![3, 2]));
    assert_eq!(page(&ledger, 7, Some(2), 2), (1, vec![1]));
    assert_eq!(page(&ledger, 7, Some(1), 2), (0, vec![]));
}

#[test]
fn ids_increase_across_users() {
    let mut ledger = Ledger::new();
    let a = ledger.submit(1, result("{}", 100)).unwrap();
    let b = ledger.submit(2, result("{}", 100)).unwrap();
    let c = ledger.submit(1, result("{}", 101)).unwrap();
    assert_eq!(a, 1);
    assert!(a < b && b < c);
}

#[test]
fn duplicate_submission_is_refused_once_recorded() {
    let mut ledger = Ledger::new();
    assert_eq!(ledger.submit(3, result("{\"mode\":\"time\"}", 42)), Ok(1));
    assert_eq!(
        ledger.submit(3, result("{\"mode\":\"time\"}", 42)),
        Err(PostResultError::DuplicateResult)
    );
    assert_eq!(ledger.len(), 1);
    // a different instant, configuration or user is a new submission
    assert_eq!(ledger.submit(3, result("{\"mode\":\"time\"}", 43)), Ok(2));
    assert_eq!(ledger.submit(3, result("{\"mode\":\"quote\"}", 42)), Ok(3));
    assert_eq!(ledger.submit(4, result("{\"mode\":\"time\"}", 42)), Ok(4));
    assert_eq!(ledger.len(), 4);
}

#[test]
fn chained_pages_return_every_record_once() {
    let mut ledger = Ledger::new();
    for at in 0..7i64 {
        ledger.submit(1, result("{}", at)).unwrap();
        ledger.submit(2, result("{}", at)).unwrap();
    }
    let mut seen = Vec::new();
    let mut cursor = None;
    loop {
        let r = ledger.list_results(1, &GetResultsParams { cursor, limit: 3 });
        if r.results.is_empty() {
            assert_eq!(r.cursor, 0);
            break;
        }
        seen.extend(r.results.iter().map(|t| t.test_completed_timestamp));
        cursor = Some(r.cursor);
    }
    assert_eq!(seen, vec![6, 5, 4, 3, 2, 1, 0]);
}

#[test]
fn insert_between_pages_does_not_shift_the_next_page() {
    let mut ledger = five_for_one_user();
    let first = ledger.list_results(7, &GetResultsParams { cursor: None, limit: 2 });
    assert_eq!(first.cursor, 4);
    ledger.submit(7, result("{\"mode\":\"words\"}", 6)).unwrap();
    assert_eq!(page(&ledger, 7, Some(first.cursor), 2), (2, vec![3, 2]));
    assert_eq!(page(&ledger, 7, None, 2), (5, vec![6, 5]));
}

#[test]
fn listing_never_shows_another_users_records() {
    let mut ledger = Ledger::new();
    ledger.submit(1, result("{\"u\":1}", 10)).unwrap();
    ledger.submit(2, result("{\"u\":2}", 20)).unwrap();
    ledger.submit(1, result("{\"u\":1}", 30)).unwrap();
    for cursor in [None, Some(0), Some(2), Some(3), Some(100)] {
        for limit in [0, 1, 5] {
            let r = ledger.list_results(1, &GetResultsParams { cursor, limit });
            assert!(r.results.iter().all(|t| t.test_params == "{\"u\":1}"));
        }
    }
    assert_eq!(page(&ledger, 2, None, 5), (2, vec![20]));
    assert_eq!(page(&ledger, 9, None, 5), (0, vec![]));
}

#[test]
fn zero_limit_gives_an_empty_page() {
    let ledger = five_for_one_user();
    assert_eq!(page(&ledger, 7, None, 0), (0, vec![]));
}

#[test]
fn results_come_back_unchanged() {
    let mut ledger = Ledger::new();
    let sent = result("{\"mode\":\"quote\",\"length\":\"Long\"}", 1_700_000_000_123);
    ledger.submit(5, sent.copy_result()).unwrap();
    let r = ledger.list_results(5, &GetResultsParams { cursor: None, limit: 10 });
    assert_eq!(r.cursor, 1);
    assert_eq!(r.results.len(), 1);
    let got = &r.results[0];
    assert_eq!(got.test_params, sent.test_params);
    assert_eq!(got.test_completed_timestamp, 1_700_000_000_123);
    assert_eq!(f32::from_bits(got.wpm), 61.5);
    assert_eq!(f32::from_bits(got.raw_wpm), 64.0);
    assert_eq!(f32::from_bits(got.accuracy), 0.97);
}

#[test]
fn query_page_keeps_identifiers() {
    let ledger = five_for_one_user();
    let rows = ledger.query_page(7, Some(5), 3);
    let ids: Vec<u32> = rows.iter().map(|w| w.id).collect();
    assert_eq!(ids, vec![4, 3, 2]);
}
