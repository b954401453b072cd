//! When a request may go out, and when it goes out again.

use vstd::prelude::*;

use crate::commands::source_check::web::{Fetch, FetchModel};

verus! {

/// How long to wait before the next request, in milliseconds: until `rate_ms`
/// have gone by since the last one, and not at all before the first.
pub fn wait_ms(elapsed_ms: Option<u64>, rate_ms: u64) -> (r: u64)
    ensures
        elapsed_ms is None ==> r == 0,
        elapsed_ms matches Some(e) ==> e + r >= rate_ms && (r > 0 ==> e + r == rate_ms),
        r == (match elapsed_ms {
            Some(e) => if e < rate_ms {
                (rate_ms - e) as u64
            } else {
                0
            },
            None => 0,
        }),
{
    match elapsed_ms {
        Some(e) => if e < rate_ms {
            rate_ms - e
        } else {
            0
        },
        None => 0,
    }
}

/// What follows an attempt to fetch a page.
#[derive(Debug, Clone)]
pub enum Step {
    /// The page is taken as it came.
    Take(Fetch),
    /// Another attempt after this many milliseconds.
    Retry(u64),
}

/// What follows an attempt.
pub enum StepModel {
    Take(FetchModel),
    Retry(u64),
}

impl View for Step {
    type V = StepModel;

    open spec fn view(&self) -> StepModel {
        match self {
            Step::Take(fetch) => StepModel::Take(fetch@),
            Step::Retry(wait) => StepModel::Retry(*wait),
        }
    }
}

/// What follows an attempt that came to a response (its status and body) or to
/// a transport error. An error is retried once after one rate interval: a
/// reset connection must not write off a whole host.
pub fn after_attempt(outcome: Result<(u16, String), String>, retried: bool, rate_ms: u64) -> (r:
    Step)
    ensures
        r@ is Retry <==> outcome is Err && !retried,
        r@ matches StepModel::Retry(wait) ==> wait == rate_ms,
        outcome matches Ok(response) ==> r@ == StepModel::Take(
            FetchModel::Response { status: response.0, body: response.1@ },
        ),
        r@ == (match outcome {
            Ok(response) => StepModel::Take(
                FetchModel::Response { status: response.0, body: response.1@ },
            ),
            Err(reason) => if retried {
                StepModel::Take(FetchModel::Unreachable(reason@))
            } else {
                StepModel::Retry(rate_ms)
            },
        }),
{
    match outcome {
        Ok((status, body)) => Step::Take(Fetch::Response { status, body }),
        Err(reason) => if retried {
            Step::Take(Fetch::Unreachable(reason))
        } else {
            Step::Retry(rate_ms)
        },
    }
}

}
