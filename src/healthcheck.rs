//! Sink healthchecks and the way a sink task reads its input.
use vstd::prelude::*;
use crate::buffer::{BufferView, MemoryBuffer};
use crate::event::{accepts, filter_event_type, DataType, Event};

verus! {

/// How long a healthcheck may run before it counts as failed.
pub const HEALTHCHECK_TIMEOUT_SECS: u64 = 10;

/// What a finished task of the topology reports.
#[derive(Clone, Copy, Debug, PartialEq, Eq, Structural)]
pub enum TaskOutput {
    Source,
    Transform,
    Sink,
    Healthcheck,
}

/// The outcome of a sink's healthcheck.
pub enum HealthcheckStatus {
    Passed,
    Failed(String),
    TimedOut,
    Disabled,
}

/// Decides a healthcheck's outcome `elapsed_secs` after it started. `result` is
/// what the check yielded, if it finished. A check runs only when it is enabled
/// both globally and for the sink; a result counts only if it came within the
/// timeout. `None` means the check is still running.
pub fn healthcheck_status(
    global_enabled: bool,
    sink_enabled: bool,
    result: Option<Result<(), String>>,
    elapsed_secs: u64,
) -> (r: Option<HealthcheckStatus>)
    ensures
        !(global_enabled && sink_enabled) ==> r == Some(HealthcheckStatus::Disabled),
        global_enabled && sink_enabled ==> match result {
            None => if elapsed_secs >= HEALTHCHECK_TIMEOUT_SECS {
                r == Some(HealthcheckStatus::TimedOut)
            } else {
                r is None
            },
            Some(res) => if elapsed_secs > HEALTHCHECK_TIMEOUT_SECS {
                r == Some(HealthcheckStatus::TimedOut)
            } else {
                match res {
                    Ok(()) => r == Some(HealthcheckStatus::Passed),
                    Err(e) => r == Some(HealthcheckStatus::Failed(e)),
                }
            },
        },
{
    if !(global_enabled && sink_enabled) {
        return Some(HealthcheckStatus::Disabled);
    }
    match result {
        None => if elapsed_secs >= HEALTHCHECK_TIMEOUT_SECS {
            Some(HealthcheckStatus::TimedOut)
        } else {
            None
        },
        Some(res) => if elapsed_secs > HEALTHCHECK_TIMEOUT_SECS {
            Some(HealthcheckStatus::TimedOut)
        } else {
            match res {
                Ok(()) => Some(HealthcheckStatus::Passed),
                Err(e) => Some(HealthcheckStatus::Failed(e)),
            }
        },
    }
}

/// What the healthcheck task reports: success when the check passed or did not run.
pub fn healthcheck_task_result(status: &HealthcheckStatus) -> (r: Result<TaskOutput, ()>)
    ensures
        r is Ok <==> (status is Passed || status is Disabled),
        r matches Ok(o) ==> o == TaskOutput::Healthcheck,
{
    match status {
        HealthcheckStatus::Passed | HealthcheckStatus::Disabled => Ok(TaskOutput::Healthcheck),
        _ => Err(()),
    }
}

/// Position, in `s` from `from` on, of the first event that passes `dt` (the
/// length of `s` if none does).
pub open spec fn first_accepted(s: Seq<Event>, from: int, dt: DataType) -> int
    decreases s.len() - from,
{
    if from >= s.len() {
        s.len() as int
    } else if accepts(dt, s[from]) {
        from
    } else {
        first_accepted(s, from + 1, dt)
    }
}

/// The next event a sink reads: nothing once it is detached; else the next
/// unread event of its buffer that passes its input type, skipping (and reading
/// past) those that do not.
pub fn next_sink_event(input: &mut MemoryBuffer, input_type: DataType, detached: bool) -> (r: Option<Event>)
    requires
        old(input).wf(),
    ensures
        final(input).wf(),
        detached ==> r is None && final(input)@ == old(input)@,
        !detached ==> ({
            let v = old(input)@;
            let k = first_accepted(v.entries, v.read as int, input_type);
            &&& k < v.entries.len() ==> r == Some(v.entries[k]) && final(input)@ == (BufferView { read: (k + 1) as nat, ..v })
            &&& k >= v.entries.len() ==> r is None && final(input)@ == (BufferView { read: v.entries.len(), ..v })
        }),
{
    if detached {
        return None;
    }
    let ghost v = input@;
    let ghost k = first_accepted(v.entries, v.read as int, input_type);
    loop
        invariant
            !detached,
            v == old(input)@,
            input.wf(),
            input@ == (BufferView { read: input@.read, ..v }),
            v.read <= input@.read,
            k == first_accepted(v.entries, v.read as int, input_type),
            first_accepted(v.entries, input@.read as int, input_type) == k,
        decreases v.entries.len() - input@.read,
    {
        match input.pop() {
            None => {
                return None;
            },
            Some(e) => {
                if filter_event_type(&e, input_type) {
                    return Some(e);
                }
            },
        }
    }
}

} // verus!
