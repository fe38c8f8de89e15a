//! Decisions of an explicit, user-confirmed SIGTERM request.
//!
//! Only a plain SIGTERM to a process of the same user, after checking that
//! the pid still names the process the user saw (its start-time marker
//! matches); no elevation and no force-kill.  The process table lookup and
//! the signal itself are the caller's.

use crate::text::string_from;
use vstd::prelude::*;

verus! {

/// Largest value of a signed 32-bit `pid_t`.
pub const PID_MAX: u32 = 2147483647;

/// Pids that are never signalled: 0, init, out-of-range values and this
/// process itself.
pub open spec fn protected_pid(pid: u32, own_pid: u32) -> bool {
    pid <= 1 || pid > PID_MAX || pid == own_pid
}

/// Refuse protected pids.
pub fn check_termination_target(pid: u32, own_pid: u32) -> (r: Result<(), String>)
    ensures
        match r {
            Ok(()) => !protected_pid(pid, own_pid),
            Err(e) => protected_pid(pid, own_pid) && e@ == "protected"@,
        },
{
    if pid <= 1 || pid > PID_MAX || pid == own_pid {
        return Err(string_from("protected"));
    }
    Ok(())
}

/// What the process table says about the pid.
pub enum ProcessLookup {
    /// No such process.
    Gone,
    /// The process, with its start-time marker and owner (if readable).
    Found { start_time: u64, owner_uid: Option<u32> },
}

/// The pid must still name the process the user saw, and that process
/// must belong to the caller's effective user.
pub fn check_process_identity(lookup: ProcessLookup, start_marker: u64, my_uid: u32) -> (r: Result<
    (),
    String,
>)
    ensures
        match lookup {
            ProcessLookup::Gone => r matches Err(e) && e@ == "gone"@,
            ProcessLookup::Found { start_time, owner_uid } => if start_marker == 0 || start_time
                != start_marker {
                r matches Err(e) && e@ == "changed"@
            } else if owner_uid != Some(my_uid) {
                r matches Err(e) && e@ == "permission"@
            } else {
                r is Ok
            },
        },
{
    match lookup {
        ProcessLookup::Gone => Err(string_from("gone")),
        ProcessLookup::Found { start_time, owner_uid } => {
            if start_marker == 0 || start_time != start_marker {
                return Err(string_from("changed"));
            }
            match owner_uid {
                Some(u) => if u == my_uid {
                    Ok(())
                } else {
                    Err(string_from("permission"))
                },
                None => Err(string_from("permission")),
            }
        },
    }
}

/// Why a `kill` call failed.
pub enum KillErrno {
    /// `ESRCH`: the process is gone.
    NoSuchProcess,
    /// `EPERM`: not allowed.
    NotPermitted,
    /// Anything else.
    Other,
}

/// The outcome reported for a `kill` call that returned `rc`.
pub fn kill_outcome(rc: i32, errno: KillErrno) -> (r: Result<(), String>)
    ensures
        rc == 0 ==> r is Ok,
        rc != 0 ==> (r matches Err(e) && e@ == match errno {
            KillErrno::NoSuchProcess => "gone"@,
            KillErrno::NotPermitted => "permission"@,
            KillErrno::Other => "failed"@,
        }),
{
    if rc == 0 {
        return Ok(());
    }
    Err(
        match errno {
            KillErrno::NoSuchProcess => string_from("gone"),
            KillErrno::NotPermitted => string_from("permission"),
            KillErrno::Other => string_from("failed"),
        },
    )
}

} // verus!
