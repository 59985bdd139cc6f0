//! What the results of the semaphore calls mean to the exchange.
use vstd::prelude::*;

verus! {

/// The result of a wait that ended because the semaphore was signalled.
pub const WAIT_OBJECT_0: u32 = 0;

/// How long a worker waits for a semaphore, in milliseconds.
pub const SEMA_WAIT_MS: u32 = 500000000;

/// Initial count of a newly created semaphore.
pub const SEMA_INITIAL_COUNT: i32 = 0;

/// Maximum count of a semaphore.
pub const SEMA_MAXIMUM_COUNT: i32 = 1;

/// Amount by which a release raises a semaphore's count.
pub const SEMA_RELEASE_COUNT: i32 = 1;

/// How a wait for a semaphore ended.
#[derive(Debug, Clone, Copy, PartialEq, Eq, Structural)]
pub enum WaitOutcome {
    /// The semaphore was signalled and is now owned.
    Acquired,
    /// The wait ended otherwise (timeout, abandoned or failed).
    Failed,
}

/// Classifies the result of a wait: acquired exactly when it is `WAIT_OBJECT_0`.
pub fn wait_outcome(wait_result: u32) -> (r: WaitOutcome)
    ensures
        r == WaitOutcome::Acquired <==> wait_result == WAIT_OBJECT_0,
        r == WaitOutcome::Failed <==> wait_result != WAIT_OBJECT_0,
{
    if wait_result == WAIT_OBJECT_0 {
        WaitOutcome::Acquired
    } else {
        WaitOutcome::Failed
    }
}

/// Whether a call that returns a Windows `BOOL` (closing a handle, releasing
/// a semaphore) succeeded: any value but zero.
pub fn call_succeeded(result: i32) -> (r: bool)
    ensures
        r == (result != 0),
{
    result != 0
}

} // verus!
