//! Timeouts, failures and how they are told.

use crate::flags::opt_str;
use crate::text::{
    chars_of, contains_text, dec, dec_text, has_text, is_digit, number, parse_number, stands_at,
};
use vstd::prelude::*;

verus! {

/// Seconds after which a silent peer is given up, unless set otherwise.
pub const IO_TIMEOUT_SECS: u64 = 120;

/// Seconds to wait for a connection.
pub const CONNECT_TIMEOUT_SECS: u64 = 30;

/// The timeout of the environment, if it is a number above zero, else the usual
/// one.
pub open spec fn timeout_of(env: Option<Seq<char>>) -> u64 {
    match env {
        Some(s) => match number(s, u64::MAX as nat) {
            Some(n) if n > 0 => n as u64,
            _ => IO_TIMEOUT_SECS,
        },
        None => IO_TIMEOUT_SECS,
    }
}

/// Timeout of reads, writes and accepts, in seconds.
pub fn io_timeout(env: Option<&str>) -> (r: u64)
    ensures
        r == timeout_of(opt_str(env)),
        r > 0,
{
    if let Some(s) = env {
        if let Some(n) = parse_number(s, u64::MAX) {
            if n > 0 {
                return n;
            }
        }
    }
    IO_TIMEOUT_SECS
}

/// How long an agent may take to end after the transfer, in seconds: what the
/// environment says, zero too, else the timeout of the connections.
pub fn agent_wait_timeout(env: Option<&str>, io_env: Option<&str>) -> (r: u64)
    ensures
        r == (match opt_str(env) {
            Some(s) => match number(s, u64::MAX as nat) {
                Some(n) => n as u64,
                None => timeout_of(opt_str(io_env)),
            },
            None => timeout_of(opt_str(io_env)),
        }),
{
    if let Some(s) = env {
        if let Some(n) = parse_number(s, u64::MAX) {
            return n;
        }
    }
    io_timeout(io_env)
}

/// An error code stands at index `i` of a text, and its number ends there.
pub open spec fn code_at(s: Seq<char>, code: Seq<char>, i: int) -> bool {
    &&& 0 <= i
    &&& i + code.len() <= s.len()
    &&& s.subrange(i, i + code.len()) == code
    &&& i + code.len() < s.len() ==> !is_digit(s[i + code.len()])
}

/// An error code stands somewhere in a text.
pub open spec fn has_code(s: Seq<char>, code: Seq<char>) -> bool {
    exists|i: int| code_at(s, code, i)
}

fn holds_code(s: &str, code: &str) -> (r: bool)
    ensures
        r == has_code(s@, code@),
{
    let v: Vec<char> = chars_of(s);
    let c: Vec<char> = chars_of(code);
    if c.len() > v.len() {
        return false;
    }
    let last: usize = v.len() - c.len();
    let mut i: usize = 0;
    while i <= last
        invariant
            v@ == s@,
            c@ == code@,
            last + c.len() == v.len(),
            i <= last + 1,
            forall|k: int| 0 <= k < i ==> !code_at(s@, code@, k),
        decreases last + 1 - i,
    {
        if stands_at(&v, &c, i) {
            let end: usize = i + c.len();
            if end == v.len() || !digit_char(v[end]) {
                assert(code_at(s@, code@, i as int));
                return true;
            }
        }
        if i == last {
            assert forall|k: int| !code_at(s@, code@, k) by {
                if 0 <= k < i {
                    assert(!code_at(s@, code@, k));
                }
            }
            return false;
        }
        i += 1;
    }
    false
}

fn digit_char(c: char) -> (r: bool)
    ensures
        r == is_digit(c),
{
    let n: u32 = c as u32;
    48 <= n && n <= 57
}

/// The text of an error that is a timeout: it says so, or holds the code of
/// `EAGAIN` or of `ETIMEDOUT`.
pub open spec fn tells_timeout(e: Seq<char>) -> bool {
    ||| contains_text(e, "temporarily unavailable"@)
    ||| contains_text(e, "timed out"@)
    ||| has_code(e, "os error 11"@)
    ||| has_code(e, "os error 110"@)
}

/// The failure of a stream.
pub open spec fn io_text(stream_id: u32, op: Seq<char>, e: Seq<char>, secs: u64) -> Seq<char> {
    if tells_timeout(e) {
        "stream "@ + dec(stream_id as nat) + " "@ + op + " timed out after "@ + dec(secs as nat)
            + "s (peer stalled or dead)"@
    } else {
        "stream "@ + dec(stream_id as nat) + " "@ + op + ": "@ + e
    }
}

/// The failure of a stream, which names the stream and calls a timeout one.
pub fn io_err(stream_id: u32, op: &str, e: &str, secs: u64) -> (r: String)
    ensures
        r@ == io_text(stream_id, op@, e@, secs),
{
    let mut r: String = "stream ".to_owned();
    r.append(dec_text(stream_id as u64).as_str());
    r.append(" ");
    r.append(op);
    if has_text(e, "temporarily unavailable") || has_text(e, "timed out") || holds_code(
        e,
        "os error 11",
    ) || holds_code(e, "os error 110") {
        r.append(" timed out after ");
        r.append(dec_text(secs).as_str());
        r.append("s (peer stalled or dead)");
    } else {
        r.append(": ");
        r.append(e);
    }
    r
}

/// The failure to accept the `i`-th connection.
pub fn accept_err(role: &str, i: usize, timed_out: bool, e: &str, secs: u64) -> (r: String)
    ensures
        r@ == if timed_out {
            role@ + " accept["@ + dec(i as nat) + "] timed out after "@ + dec(secs as nat)
                + "s (no peer connected)"@
        } else {
            role@ + " accept["@ + dec(i as nat) + "]: "@ + e@
        },
{
    let mut r: String = role.to_owned();
    r.append(" accept[");
    r.append(dec_text(i as u64).as_str());
    if timed_out {
        r.append("] timed out after ");
        r.append(dec_text(secs).as_str());
        r.append("s (no peer connected)");
    } else {
        r.append("]: ");
        r.append(e);
    }
    r
}

/// The failure of a stream whose sibling has failed.
pub open spec fn abort_text(stream_id: u32) -> Seq<char> {
    "stream "@ + dec(stream_id as nat) + " aborted (peer stream failed)"@
}

pub fn stream_aborted(stream_id: u32) -> (r: String)
    ensures
        r@ == abort_text(stream_id),
{
    let mut r: String = "stream ".to_owned();
    r.append(dec_text(stream_id as u64).as_str());
    r.append(" aborted (peer stream failed)");
    r
}

/// The outcome of all streams of a transfer: the failure of the first that
/// failed, in the order of the streams.
pub fn streams_outcome(results: &Vec<Result<(), String>>) -> (r: Result<(), String>)
    ensures
        match r {
            Ok(_) => forall|i: int| 0 <= i < results@.len() ==> (#[trigger] results@[i]) is Ok,
            Err(e) => exists|i: int|
                0 <= i < results@.len() && failure(#[trigger] results@[i]) == Some(e@) && forall|
                    k: int,
                |
                    0 <= k < i ==> (#[trigger] results@[k]) is Ok,
        },
{
    let mut i: usize = 0;
    while i < results.len()
        invariant
            i <= results.len(),
            forall|k: int| 0 <= k < i ==> (#[trigger] results@[k]) is Ok,
        decreases results.len() - i,
    {
        if let Err(e) = &results[i] {
            assert(failure(results@[i as int]) == Some(e@));
            return Err(e.as_str().to_owned());
        }
        i += 1;
    }
    Ok(())
}

/// What is seen of an agent while it is waited for.
pub enum AgentEvent {
    /// It has ended; `status` is the notation of how.
    Ended { success: bool, status: String },
    /// It has not ended, and the time is up or not.
    Running { time_up: bool },
    /// It could not be asked.
    Unknown { error: String },
}

/// What to do about an agent.
pub enum AgentAction {
    /// Ask again in a while.
    Wait,
    /// Kill it, and take this as the outcome.
    Kill(Result<(), String>),
    /// Take this as the outcome.
    Done(Result<(), String>),
}

/// A failure as a mathematical value.
pub open spec fn failure(r: Result<(), String>) -> Option<Seq<char>> {
    match r {
        Ok(_) => None,
        Err(e) => Some(e@),
    }
}

/// How an agent that has ended, or that was given up, is told, if it is a
/// failure.
pub open spec fn agent_failure(role: Seq<char>, ev: AgentEvent, limit: u64) -> Option<Seq<char>> {
    match ev {
        AgentEvent::Ended { success, status } => if success {
            None
        } else {
            Some(role + " exited "@ + status@)
        },
        AgentEvent::Running { .. } => Some(
            role + " wait timed out after "@ + dec(limit as nat) + "s"@,
        ),
        AgentEvent::Unknown { error } => Some(role + " wait: "@ + error@),
    }
}

/// The outcome of a transfer with an agent: the failure of the transfer, if it
/// failed, else that of the agent.
pub open spec fn outcome(
    transfer: Option<Seq<char>>,
    role: Seq<char>,
    ev: AgentEvent,
    limit: u64,
) -> Option<Seq<char>> {
    if transfer is Some {
        transfer
    } else {
        agent_failure(role, ev, limit)
    }
}

/// A transfer with an agent succeeds if and only if the transfer did not fail
/// and the agent was seen to end with success, and a failed transfer is told by
/// its own failure.
pub proof fn lemma_agent_success(
    transfer: Option<Seq<char>>,
    role: Seq<char>,
    ev: AgentEvent,
    limit: u64,
)
    ensures
        outcome(transfer, role, ev, limit) is None <==> transfer is None && (
        ev matches AgentEvent::Ended { success, .. } && success),
        transfer is Some ==> outcome(transfer, role, ev, limit) == transfer,
{
}

fn agent_result(role: &str, ev: &AgentEvent, limit: u64) -> (r: Result<(), String>)
    ensures
        failure(r) == agent_failure(role@, *ev, limit),
{
    match ev {
        AgentEvent::Ended { success, status } => {
            if *success {
                return Ok(());
            }
            let mut m: String = role.to_owned();
            m.append(" exited ");
            m.append(status.as_str());
            Err(m)
        },
        AgentEvent::Running { .. } => {
            let mut m: String = role.to_owned();
            m.append(" wait timed out after ");
            m.append(dec_text(limit).as_str());
            m.append("s");
            Err(m)
        },
        AgentEvent::Unknown { error } => {
            let mut m: String = role.to_owned();
            m.append(" wait: ");
            m.append(error.as_str());
            Err(m)
        },
    }
}

/// An agent is killed if it may still run and the transfer has failed, or if
/// it still runs when its time is up.
pub open spec fn to_kill(transfer: Option<Seq<char>>, ev: AgentEvent) -> bool {
    match ev {
        AgentEvent::Ended { .. } => false,
        AgentEvent::Running { time_up } => time_up || transfer is Some,
        AgentEvent::Unknown { .. } => transfer is Some,
    }
}

/// What to do about an agent after a transfer. A failed transfer kills its
/// agent, and its failure goes before that of the agent. After a transfer that
/// did not fail, the agent is waited for no longer than `limit` seconds.
pub fn finish_agent(transfer: &Result<(), String>, role: &str, ev: &AgentEvent, limit: u64) -> (r:
    AgentAction)
    ensures
        r is Kill <==> to_kill(failure(*transfer), *ev),
        r is Wait <==> (*ev is Running && !to_kill(failure(*transfer), *ev)),
        match r {
            AgentAction::Wait => true,
            AgentAction::Kill(x) => failure(x) == outcome(failure(*transfer), role@, *ev, limit),
            AgentAction::Done(x) => failure(x) == outcome(failure(*transfer), role@, *ev, limit),
        },
{
    let x: Result<(), String> = match transfer {
        Err(e) => Err(e.as_str().to_owned()),
        Ok(_) => agent_result(role, ev, limit),
    };
    let failed: bool = transfer.is_err();
    match ev {
        AgentEvent::Running { time_up } => if *time_up || failed {
            AgentAction::Kill(x)
        } else {
            AgentAction::Wait
        },
        AgentEvent::Unknown { .. } => if failed {
            AgentAction::Kill(x)
        } else {
            AgentAction::Done(x)
        },
        AgentEvent::Ended { .. } => AgentAction::Done(x),
    }
}

/// How much of a buffer has gone to, or come from, its place in a file.
pub struct Fill {
    pub done: usize,
    /// Offset in the file of the next byte.
    pub off: u64,
}

impl Fill {
    /// Moves on after a call that handled `n` bytes; a call that handled none
    /// ends the work with `stalled`.
    pub fn advance(&mut self, n: usize, stalled: &str) -> (r: Result<(), String>)
        requires
            old(self).done + n <= usize::MAX,
            old(self).off + n <= u64::MAX,
        ensures
            r is Ok <==> n > 0,
            r matches Err(e) ==> e@ == stalled@,
            final(self).done == old(self).done + n,
            final(self).off == old(self).off + n,
    {
        if n == 0 {
            return Err(stalled.to_owned());
        }
        self.done = self.done + n;
        self.off = self.off + n as u64;
        Ok(())
    }
}

/// Mode and modification time as they are announced: the permission bits of the
/// mode, and the seconds of the time.
pub fn file_mode_mtime(mode: u32, mtime: i64) -> (r: (u32, u64))
    ensures
        r.0 == mode & 0xfff,
        r.1 == #[verifier::truncate] (mtime as u64),
{
    (mode & 0xfff, #[verifier::truncate] (mtime as u64))
}

/// The warning of a sink that verifies a digest although it was told not to.
pub fn digest_warning(check: bool, announced: bool, json: bool) -> (r: Option<String>)
    ensures
        r is Some <==> !check && announced && !json,
        r matches Some(w) ==> w@
            == "bbx: warning: local -C ignored (source sent FLAG_BLAKE3; verifying)"@,
{
    if !check && announced && !json {
        Some("bbx: warning: local -C ignored (source sent FLAG_BLAKE3; verifying)".to_owned())
    } else {
        None
    }
}

/// The event of a sink that has its file.
pub fn sink_done_event(size: u64, resume_from: u64) -> (r: String)
    ensures
        r@ == "{\"event\":\"done\",\"bytes\":"@ + dec(size as nat) + ",\"total\":"@ + dec(size as nat)
            + ",\"resumed_from\":"@ + dec(resume_from as nat) + "}"@,
{
    let mut r: String = "{\"event\":\"done\",\"bytes\":".to_owned();
    r.append(dec_text(size).as_str());
    r.append(",\"total\":");
    r.append(dec_text(size).as_str());
    r.append(",\"resumed_from\":");
    r.append(dec_text(resume_from).as_str());
    r.append("}");
    r
}

} // verus!
