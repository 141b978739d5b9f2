//! Decision kernels of the user-library call protocols.
//!
//! The user library loops around system calls it cannot decide for
//! itself: waiting retries while no child has exited, sleeping retries
//! until the clock has moved far enough, console reads retry while no
//! byte has arrived. The calls themselves cross into the kernel and stay
//! outside this crate; the decisions the loops turn on are here.

use vstd::prelude::*;

verus! {

/// The wait protocol's in-band marker for "children exist but none has
/// exited yet": the caller should yield and retry.
pub const WAIT_AGAIN: isize = -2;

/// Interpret one `sys_waitpid` result: retry on the in-band marker,
/// otherwise the loop is done and hands the code (a pid, or -1 for "no
/// such child") to the caller.
pub fn wait_decision(code: isize) -> (r: Option<isize>)
    ensures
        code == WAIT_AGAIN <==> r is None,
        r is Some ==> r.unwrap() == code,
{
    if code == WAIT_AGAIN {
        None
    } else {
        Some(code)
    }
}

/// Has a sleep that started at `start` milliseconds slept its whole
/// period by time `now`? While not, the loop yields and retries.
pub fn sleep_done(start: isize, now: isize, period_ms: usize) -> (r: bool)
    requires
        0 <= start,
        period_ms <= isize::MAX as usize,
        start + period_ms <= isize::MAX,
    ensures
        r == (now >= start + period_ms),
{
    now >= start + period_ms as isize
}

/// Interpret one console poll: zero means no byte has arrived yet and
/// the loop should yield and retry; anything else is the byte read.
pub fn console_read_decision(code: usize) -> (r: Option<u8>)
    ensures
        code == 0 <==> r is None,
        r is Some ==> r.unwrap() == code as u8,
{
    if code == 0 {
        None
    } else {
        Some(code as u8)
    }
}

} // verus!
