use existence::commands::pace::{after_attempt, wait_ms, Step};
use existence::commands::source_check::web::Fetch;

#[test]
fn requests_are_a_rate_apart() {
    assert_eq!(wait_ms(None, 1_000), 0);
    assert_eq!(wait_ms(Some(0), 1_000), 1_000);
    assert_eq!(wait_ms(Some(400), 1_000), 600);
    assert_eq!(wait_ms(Some(1_000), 1_000), 0);
    assert_eq!(wait_ms(Some(5_000), 1_000), 0);
}

#[test]
fn an_error_is_retried_once() {
    match after_attempt(Err("reset".to_string()), false, 1_000) {
        Step::Retry(wait) => assert_eq!(wait, 1_000),
        other => panic!("{other:?}"),
    }
    match after_attempt(Err("reset".to_string()), true, 1_000) {
        Step::Take(Fetch::Unreachable(reason)) => assert_eq!(reason, "reset"),
        other => panic!("{other:?}"),
    }
    match after_attempt(Ok((404, "gone".to_string())), false, 1_000) {
        Step::Take(Fetch::Response { status, body }) => {
            assert_eq!((status, body.as_str()), (404, "gone"))
        }
        other => panic!("{other:?}"),
    }
}
