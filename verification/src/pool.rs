//! The decisions a thread pool takes while it shuts down, one worker at a
//! time. Joining the threads and reading the clock stay with the caller.
use crate::errors::ThreadPoolErr;
use crate::text::{decimal, push_decimal};
use vstd::prelude::*;
use vstd::string::StringExecFns;

verus! {

/// The text of a `ThreadJoin` error for the worker `id`.
pub open spec fn join_failure_text(id: nat) -> Seq<char> {
    "Worker "@ + decimal(id) + " failed to join"@
}

/// The text of a `ThreadExec` error for the worker `id` whose job failed
/// with the error shown as `shown`.
pub open spec fn exec_failure_text(id: nat, shown: Seq<char>) -> Seq<char> {
    "Worker "@ + decimal(id) + " encounter the following error during execution : "@ + shown
}

/// What the pool makes of worker `id` while shutting down: out of time before
/// joining it (`time_left` false), a `ShutdownTimeout`; a thread that could
/// not be joined, a `ThreadJoin`; a worker whose job failed (its error shown
/// as `error_shown`), a `ThreadExec`; otherwise on to the next worker.
pub fn worker_shutdown(id: usize, time_left: bool, joined: bool, error_shown: Option<String>) -> (r:
    Result<(), ThreadPoolErr>)
    ensures
        match r {
            Err(ThreadPoolErr::ShutdownTimeout) => !time_left,
            Err(ThreadPoolErr::ThreadJoin(s)) => time_left && !joined && s@ == join_failure_text(
                id as nat,
            ),
            Err(ThreadPoolErr::ThreadExec(s)) => time_left && joined && error_shown is Some && s@
                == exec_failure_text(id as nat, error_shown->0@),
            Err(ThreadPoolErr::JobSignal(_)) => false,
            Ok(()) => time_left && joined && error_shown is None,
        },
{
    if !time_left {
        return Err(ThreadPoolErr::ShutdownTimeout);
    }
    if !joined {
        let mut s = String::from_str("Worker ");
        push_decimal(&mut s, id as u64);
        s.append(" failed to join");
        return Err(ThreadPoolErr::ThreadJoin(s));
    }
    match error_shown {
        Some(e) => {
            let mut s = String::from_str("Worker ");
            push_decimal(&mut s, id as u64);
            s.append(" encounter the following error during execution : ");
            s.append(e.as_str());
            Err(ThreadPoolErr::ThreadExec(s))
        },
        None => Ok(()),
    }
}

} // verus!
