//! How long to sample, with how many threads, and what to say when that is not
//! permitted.

use vstd::prelude::*;

use crate::btrfs::is_permission_error;
use crate::text::owned;

verus! {

/// How long to sample where nothing is said.
pub const DEFAULT_SECONDS: u64 = 10;

/// For how many seconds to sample, if for a fixed time.
pub open spec fn fixed_time(seconds: Option<u64>, samples: Option<u64>) -> Option<u64> {
    match seconds {
        Some(s) => Some(s),
        None => if samples is None {
            Some(10u64)
        } else {
            None
        },
    }
}

/// For how many seconds to sample, if for a fixed time: as asked, or for the
/// default time if not even a number of samples is asked for.
pub fn sampling_seconds(seconds: Option<u64>, samples: Option<u64>) -> (r: Option<u64>)
    ensures
        r == fixed_time(seconds, samples),
{
    match seconds {
        Some(s) => Some(s),
        None => if samples.is_none() {
            Some(DEFAULT_SECONDS)
        } else {
            None
        },
    }
}

/// Whether sampling is over.
pub open spec fn over(samples: Option<u64>, taken: u64, time_is_up: bool) -> bool {
    (samples matches Some(n) && taken >= n) || time_is_up
}

/// Whether sampling is over: `taken` samples reach the number asked for, or the
/// time is up.
pub fn is_over(samples: Option<u64>, taken: u64, time_is_up: bool) -> (r: bool)
    ensures
        r == over(samples, taken, time_is_up),
{
    match samples {
        Some(n) => taken >= n || time_is_up,
        None => time_is_up,
    }
}

/// With how many threads to sample.
pub open spec fn workers(threads: Option<usize>, processors: Option<usize>) -> usize {
    let n = match threads {
        Some(n) => n,
        None => match processors {
            Some(n) => n,
            None => 4,
        },
    };
    if n > 0 {
        n
    } else {
        1
    }
}

/// With how many threads to sample: as asked, or one for each processor, or
/// four where their number is not known; at least one.
pub fn worker_count(threads: Option<usize>, processors: Option<usize>) -> (r: usize)
    ensures
        r == workers(threads, processors),
{
    let n = match threads {
        Some(n) => n,
        None => match processors {
            Some(n) => n,
            None => 4,
        },
    };
    if n > 0 {
        n
    } else {
        1
    }
}

/// What to say of an error that kept the filesystem from being opened.
pub open spec fn hint(code: Option<i32>, text: Seq<char>) -> Seq<char> {
    if code == Some(1i32) || code == Some(13i32) {
        "permission denied: btdua needs root (try sudo), or use --import FILE to view saved results"@
    } else {
        text
    }
}

/// What to say of an error that kept the filesystem from being opened: for want
/// of permission what to do about it, else its text.
pub fn root_hint(code: Option<i32>, text: &str) -> (r: String)
    ensures
        r@ == hint(code, text@),
{
    if is_permission_error(code) {
        owned(
            "permission denied: btdua needs root (try sudo), or use --import FILE to view saved results",
        )
    } else {
        owned(text)
    }
}

/// A time that is asked for is kept, whatever else is asked for. Who asks for a number
/// of samples alone waits for them, however long they take; who asks for nothing waits
/// for ten seconds.
pub proof fn law_time_is_as_asked_for(n: u64, samples: Option<u64>)
    ensures
        fixed_time(Some(n), samples) == Some(n),
        fixed_time(None, Some(n)) is None,
        fixed_time(None, None) == Some(10u64),
{
}

/// Sampling ends when the time is up. Until then it ends with the sample that makes up
/// the number asked for and not before, and it never goes on once it has ended; without
/// such a number it goes on.
pub proof fn law_sampling_ends_with_the_number_asked_for(n: u64, samples: Option<u64>, taken: u64)
    ensures
        over(samples, taken, true),
        !over(None, taken, false),
        taken >= n ==> over(Some(n), taken, false),
        taken < n ==> !over(Some(n), taken, false),
{
}

/// There is always a thread. A number that is asked for is kept, whatever the machine
/// has; else there is one for each processor.
pub proof fn law_threads_are_as_asked_for(n: usize, processors: Option<usize>)
    requires
        n > 0,
    ensures
        workers(Some(n), processors) == n,
        workers(None, Some(n)) == n,
        workers(None, None) == 4,
        workers(Some(0), processors) == 1,
        workers(None, Some(0)) == 1,
{
}

/// Only the two errors that are about permission are explained; the text of any other
/// is passed on.
pub proof fn law_only_missing_permission_is_explained(
    code: Option<i32>,
    text: Seq<char>,
    other: Seq<char>,
)
    ensures
        code != Some(1i32) && code != Some(13i32) ==> hint(code, text) == text,
        code == Some(1i32) || code == Some(13i32) ==> hint(code, text) == hint(code, other) && hint(
            Some(1i32),
            text,
        ) == hint(Some(13i32), other) && hint(code, text)
            == "permission denied: btdua needs root (try sudo), or use --import FILE to view saved results"@,
{
}

} // verus!
