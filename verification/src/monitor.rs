//! The per-stream monitor's decision step. The surrounding task races
//! the cancellation signal against the consumer and hands the winning
//! event to `monitor_step`; the step says whether the monitor stops
//! (cleanly on cancellation, reporting the error on a consume fault) or
//! emits the encoded envelope of the received record.

use vstd::prelude::*;

use crate::codec::Record;
use crate::codec::envelope;
use crate::codec::record_wf;
use crate::codec::encode_envelope;

verus! {

/// What the race inside a monitor's loop produced: the cancellation
/// signal was set, a record arrived (with its event time in nanoseconds
/// since the epoch), or the consumer failed.
pub enum MonitorEvent {
    Cancelled,
    Received(u64, Record),
    Failed,
}

/// What the monitor does next: stop cleanly, hand an envelope to the
/// output queue, or stop surfacing the consumer's error.
pub enum MonitorAction {
    StopClean,
    Emit(Vec<u8>),
    StopFailed,
}

/// Whole seconds of an event time, truncated to 32 bits.
pub open spec fn event_sec(t: u64) -> u32 {
    (t / 1_000_000_000) as u32
}

/// Sub-second nanoseconds of an event time.
pub open spec fn event_nanos(t: u64) -> u32 {
    (t % 1_000_000_000) as u32
}

/// One decision step of a monitor. Cancellation is the only clean stop;
/// a consume error stops the monitor without retry; a record is encoded
/// with its event time split into seconds and nanoseconds.
pub fn monitor_step(event: MonitorEvent) -> (a: MonitorAction)
    requires
        event matches MonitorEvent::Received(t, r) ==> record_wf(r@),
    ensures
        match event {
            MonitorEvent::Cancelled => a is StopClean,
            MonitorEvent::Failed => a is StopFailed,
            MonitorEvent::Received(t, r) => a matches MonitorAction::Emit(env) && env@ == envelope(
                event_sec(t),
                event_nanos(t),
                r@,
            ),
        },
{
    match event {
        MonitorEvent::Cancelled => MonitorAction::StopClean,
        MonitorEvent::Failed => MonitorAction::StopFailed,
        MonitorEvent::Received(t, r) => {
            let sec = #[verifier::truncate] ((t / 1_000_000_000) as u32);
            let nanos = (t % 1_000_000_000) as u32;
            MonitorAction::Emit(encode_envelope(sec, nanos, &r))
        },
    }
}

} // verus!
