//! Decisions of the system-command runner.
//!
//! A command's stdout is captured under a hard size cap while the process is
//! polled against a deadline; a hung command is killed and reported as timed
//! out.  The process handling itself (spawn, pipes, clocks) lives with the
//! caller; this module owns the capture buffer, the per-poll decision and
//! the interpretation of the finished output.

use vstd::prelude::*;
use crate::text::string_from;

verus! {

/// Default per-command timeout in milliseconds.
pub const DEFAULT_TIMEOUT_MS: u64 = 5000;

/// Cap on captured stdout, to bound memory from a malformed or verbose tool.
pub const MAX_OUTPUT_BYTES: usize = 4 * 1024 * 1024;

pub struct CmdOutput {
    pub status_success: bool,
    pub stdout: Vec<u8>,
    /// True if the command was killed for exceeding the timeout.
    pub timed_out: bool,
}

/// What `String::from_utf8_lossy` makes of `bytes`.
pub uninterp spec fn utf8_lossy(bytes: Seq<u8>) -> Seq<char>;

/// `String::from_utf8_lossy`: decodes `bytes` as UTF-8, replacing each
/// invalid sequence with U+FFFD; valid UTF-8 is decoded unchanged.
#[verifier::external_body]
pub(crate) fn from_utf8_lossy(bytes: &[u8]) -> (s: String)
    ensures
        s@ == utf8_lossy(bytes@),
        vstd::utf8::valid_utf8(bytes@) ==> s@ == vstd::utf8::decode_utf8(bytes@),
{
    String::from_utf8_lossy(bytes).into_owned()
}

impl CmdOutput {
    /// Stdout as a lossy string if the command succeeded and did not time
    /// out; otherwise an `Err` describing the failure.
    pub fn to_result(&self) -> (r: Result<String, String>)
        ensures
            match r {
                Ok(s) => !self.timed_out && self.status_success && s@ == utf8_lossy(self.stdout@),
                Err(e) => if self.timed_out {
                    e@ == "command timed out"@
                } else {
                    !self.status_success && e@ == "command exited non-zero"@
                },
            },
    {
        if self.timed_out {
            return Err(string_from("command timed out"));
        }
        if !self.status_success {
            return Err(string_from("command exited non-zero"));
        }
        Ok(from_utf8_lossy(self.stdout.as_slice()))
    }
}

/// `buf` after a chunk of output arrives: the chunk is appended up to the cap.
pub open spec fn capped_append(buf: Seq<u8>, chunk: Seq<u8>) -> Seq<u8> {
    if buf.len() < MAX_OUTPUT_BYTES {
        let room = MAX_OUTPUT_BYTES - buf.len();
        buf + chunk.take(if chunk.len() < room { chunk.len() as int } else { room as int })
    } else {
        buf
    }
}

/// Append a chunk of captured output, keeping at most `MAX_OUTPUT_BYTES`.
pub fn append_capped(buf: &mut Vec<u8>, chunk: &[u8])
    ensures
        final(buf)@ == capped_append(old(buf)@, chunk@),
{
    if buf.len() < MAX_OUTPUT_BYTES {
        let room = MAX_OUTPUT_BYTES - buf.len();
        let take = if chunk.len() < room {
            chunk.len()
        } else {
            room
        };
        let ghost start = buf@;
        let mut i: usize = 0;
        while i < take
            invariant
                take <= chunk.len(),
                i <= take,
                buf@ == start + chunk@.take(i as int),
            decreases take - i,
        {
            buf.push(chunk[i]);
            proof {
                assert(chunk@.take(i + 1) =~= chunk@.take(i as int).push(chunk@[i as int]));
            }
            i = i + 1;
        }
    }
}

/// The capture never grows past the cap, and what is kept is a prefix of
/// everything that arrived.
pub proof fn law_capture_is_bounded_prefix(buf: Seq<u8>, chunk: Seq<u8>)
    requires
        buf.len() <= MAX_OUTPUT_BYTES,
    ensures
        capped_append(buf, chunk).len() <= MAX_OUTPUT_BYTES,
        capped_append(buf, chunk).is_prefix_of(buf + chunk),
        buf.is_prefix_of(capped_append(buf, chunk)),
{
    let r = capped_append(buf, chunk);
    assert(r.len() <= (buf + chunk).len());
    assert forall|i: int| 0 <= i < r.len() implies r[i] == (buf + chunk)[i] by {}
}

/// Everything a command printed, chunk after chunk.
pub open spec fn joined(chunks: Seq<Seq<u8>>) -> Seq<u8>
    decreases chunks.len(),
{
    if chunks.len() == 0 {
        Seq::empty()
    } else {
        joined(chunks.drop_last()) + chunks.last()
    }
}

/// The capture after the chunks arrived one by one, starting empty.
pub open spec fn captured(chunks: Seq<Seq<u8>>) -> Seq<u8>
    decreases chunks.len(),
{
    if chunks.len() == 0 {
        Seq::empty()
    } else {
        capped_append(captured(chunks.drop_last()), chunks.last())
    }
}

/// Over a whole run the capture keeps exactly the first `MAX_OUTPUT_BYTES`
/// bytes of the output: all of it when it fits, and never more than the cap.
pub proof fn law_capture_keeps_the_output_prefix(chunks: Seq<Seq<u8>>)
    ensures
        captured(chunks).len() <= MAX_OUTPUT_BYTES,
        captured(chunks).is_prefix_of(joined(chunks)),
        captured(chunks).len() == if joined(chunks).len() < MAX_OUTPUT_BYTES {
            joined(chunks).len()
        } else {
            MAX_OUTPUT_BYTES as nat
        },
    decreases chunks.len(),
{
    if chunks.len() > 0 {
        let pre = chunks.drop_last();
        let c = chunks.last();
        law_capture_keeps_the_output_prefix(pre);
        let b = captured(pre);
        let j = joined(pre);
        law_capture_is_bounded_prefix(b, c);
        let r = captured(chunks);
        assert(joined(chunks) == j + c);
        assert forall|i: int| 0 <= i < r.len() implies r[i] == (j + c)[i] by {
            if i < b.len() {
                assert(r[i] == b[i]);
                assert(b[i] == j[i]);
            } else {
                assert(b.len() == j.len());
                assert(r[i] == (b + c)[i]);
            }
        }
    }
}

/// What the child process looked like at one poll.
pub enum WaitState {
    /// It exited; `success` is its exit status.
    Exited { success: bool },
    /// It is still running.
    Running,
    /// Waiting on it failed.
    WaitFailed,
}

/// What to do after one poll.
#[derive(PartialEq, Eq, Structural)]
pub enum PollStep {
    /// The child exited: drain trailing output and report it.
    Finish { success: bool },
    /// The deadline passed: kill the child and report a timeout.
    KillTimedOut,
    /// Waiting failed: kill the child and report an error.
    KillFailed,
    /// Stdout is closed: sleep briefly before polling again.
    Nap,
    /// Wait briefly for the next chunk of output before polling again.
    AwaitChunk,
}

/// The step to take after polling the child, given whether the deadline
/// has passed and whether stdout has reached end of file.
pub fn poll_step(wait: WaitState, past_deadline: bool, reader_eof: bool) -> (s: PollStep)
    ensures
        s == match wait {
            WaitState::Exited { success } => PollStep::Finish { success },
            WaitState::WaitFailed => PollStep::KillFailed,
            WaitState::Running => if past_deadline {
                PollStep::KillTimedOut
            } else if reader_eof {
                PollStep::Nap
            } else {
                PollStep::AwaitChunk
            },
        },
{
    match wait {
        WaitState::Exited { success } => PollStep::Finish { success },
        WaitState::WaitFailed => PollStep::KillFailed,
        WaitState::Running => if past_deadline {
            PollStep::KillTimedOut
        } else if reader_eof {
            PollStep::Nap
        } else {
            PollStep::AwaitChunk
        },
    }
}

/// The output reported for a command killed at its deadline.
pub fn timed_out_output(buf: Vec<u8>) -> (out: CmdOutput)
    ensures
        out.timed_out,
        !out.status_success,
        out.stdout@ == buf@,
{
    CmdOutput { status_success: false, stdout: buf, timed_out: true }
}

/// The output reported for a command that exited on its own.
pub fn exited_output(buf: Vec<u8>, success: bool) -> (out: CmdOutput)
    ensures
        !out.timed_out,
        out.status_success == success,
        out.stdout@ == buf@,
{
    CmdOutput { status_success: success, stdout: buf, timed_out: false }
}

} // verus!
