//! The retry policy for tile downloads: after each failed request, whether to
//! try again and how long to wait first.

use vstd::prelude::*;
use crate::location::LocationError;

verus! {

/// How many times a tile request is retried before the download gives up.
pub const MAX_ATTEMPTS: u32 = 10;

/// What to do after a failed tile request.
#[derive(Debug, Clone, Copy, PartialEq, Eq, Structural)]
pub enum RetryAction {
    /// Stop and report the error.
    GiveUp,
    /// Wait about `delay_secs` seconds, then make retry number `attempts`.
    Retry { attempts: u32, delay_secs: u64 },
}

/// The server refused the request itself (an HTTP status from 400 to 499),
/// so asking again will not help.
pub open spec fn is_client_error(err: LocationError) -> bool {
    err matches LocationError::ResponceCode(code) && 400 <= code < 500
}

/// The decision after a request failed with `err` when `attempts` retries
/// have been made: give up once `MAX_ATTEMPTS` retries have been made or the
/// server refused the request; otherwise retry, waiting one second more than
/// the time before.
pub fn after_failure(attempts: u32, err: &LocationError) -> (action: RetryAction)
    ensures
        attempts >= MAX_ATTEMPTS ==> action == RetryAction::GiveUp,
        attempts < MAX_ATTEMPTS && is_client_error(*err) ==> action == RetryAction::GiveUp,
        attempts < MAX_ATTEMPTS && !is_client_error(*err) ==> action == (RetryAction::Retry {
            attempts: (attempts + 1) as u32,
            delay_secs: (attempts + 1) as u64,
        }),
        action matches RetryAction::Retry { attempts: a, .. } ==> a <= MAX_ATTEMPTS,
{
    if attempts < MAX_ATTEMPTS {
        let attempts = attempts + 1;
        match err {
            LocationError::ResponceCode(code) => {
                if 400 <= *code && *code < 500 {
                    return RetryAction::GiveUp;
                }
            },
            _ => {},
        }
        return RetryAction::Retry { attempts, delay_secs: attempts as u64 };
    }
    RetryAction::GiveUp
}

} // verus!
