use mdnr_map_downloader::fetch::{after_failure, RetryAction, MAX_ATTEMPTS};
use mdnr_map_downloader::location::LocationError;

#[test]
fn server_error_is_retried_with_growing_delay() {
    let err = LocationError::ResponceCode(500);
    assert_eq!(after_failure(0, &err), RetryAction::Retry { attempts: 1, delay_secs: 1 });
    assert_eq!(after_failure(3, &err), RetryAction::Retry { attempts: 4, delay_secs: 4 });
    assert_eq!(after_failure(9, &err), RetryAction::Retry { attempts: 10, delay_secs: 10 });
}

#[test]
fn client_error_gives_up() {
    assert_eq!(after_failure(0, &LocationError::ResponceCode(404)), RetryAction::GiveUp);
    assert_eq!(after_failure(0, &LocationError::ResponceCode(400)), RetryAction::GiveUp);
    assert_eq!(after_failure(0, &LocationError::ResponceCode(499)), RetryAction::GiveUp);
    assert_eq!(
        after_failure(0, &LocationError::ResponceCode(500)),
        RetryAction::Retry { attempts: 1, delay_secs: 1 }
    );
    assert_eq!(
        after_failure(0, &LocationError::ResponceCode(399)),
        RetryAction::Retry { attempts: 1, delay_secs: 1 }
    );
}

#[test]
fn gives_up_after_ten_retries() {
    assert_eq!(MAX_ATTEMPTS, 10);
    let err = LocationError::ResponceCode(503);
    assert_eq!(after_failure(10, &err), RetryAction::GiveUp);
    let mut attempts = 0;
    let mut retries = 0;
    while let RetryAction::Retry { attempts: a, .. } = after_failure(attempts, &err) {
        attempts = a;
        retries += 1;
    }
    assert_eq!(retries, 10);
}

fn client_error_value() -> reqwest::Error {
    reqwest::blocking::get("not a url").unwrap_err()
}

#[test]
fn error_from_http_client() {
    match LocationError::from(client_error_value()) {
        LocationError::ReqwestErr(_) => {}
        other => panic!("unexpected {:?}", other),
    }
}

#[test]
fn client_failure_is_retried() {
    let err = LocationError::from(client_error_value());
    assert_eq!(after_failure(0, &err), RetryAction::Retry { attempts: 1, delay_secs: 1 });
    assert_eq!(after_failure(10, &err), RetryAction::GiveUp);
}
