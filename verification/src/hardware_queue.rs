//! Folding finished hardware writes into the confirmed monitor readings.
use vstd::prelude::*;
use crate::actions::HardwareOutcome;
use crate::ddc::{MonitorState, same_key};

verus! {

/// What a finished job leaves of one monitor's confirmed state: only a
/// successful write to that very monitor (matched by key, not by display
/// number) changes it, and only the value it wrote. An input write also
/// clears the input read error; a scalar write leaves the maximum and its
/// read error alone.
pub open spec fn after_outcome(m: MonitorState, result: Result<HardwareOutcome, String>) -> MonitorState {
    match result {
        Ok(HardwareOutcome::BrightnessApplied { monitor_id, value }) if m.info.key@ == monitor_id@ =>
            MonitorState { brightness: value, ..m },
        Ok(HardwareOutcome::ContrastApplied { monitor_id, value }) if m.info.key@ == monitor_id@ =>
            MonitorState { contrast: value, ..m },
        Ok(HardwareOutcome::InputSourceApplied { monitor_id, source }) if m.info.key@ == monitor_id@ =>
            MonitorState { input_source: source, input_source_read_error: None, ..m },
        _ => m,
    }
}

/// Apply a finished job's result to the monitors it names.
pub fn apply_monitor_outcome(monitors: &mut Vec<MonitorState>, result: &Result<HardwareOutcome, String>)
    ensures
        final(monitors)@.len() == old(monitors)@.len(),
        forall|i: int| 0 <= i < old(monitors)@.len() ==> #[trigger] final(monitors)@[i] == after_outcome(old(monitors)@[i], *result),
{
    let outcome = match result {
        Ok(outcome) => outcome,
        Err(_) => {
            return;
        },
    };
    let mut i: usize = 0;
    while i < monitors.len()
        invariant
            result == Ok::<HardwareOutcome, String>(*outcome),
            i <= monitors@.len(),
            monitors@.len() == old(monitors)@.len(),
            forall|q: int| 0 <= q < i ==> #[trigger] monitors@[q] == after_outcome(old(monitors)@[q], *result),
            forall|q: int| i <= q < monitors@.len() ==> #[trigger] monitors@[q] == old(monitors)@[q],
        decreases monitors@.len() - i,
    {
        match outcome {
            HardwareOutcome::BrightnessApplied { monitor_id, value } => {
                if same_key(&monitors[i].info.key, monitor_id) {
                    monitors[i].brightness = *value;
                }
            },
            HardwareOutcome::ContrastApplied { monitor_id, value } => {
                if same_key(&monitors[i].info.key, monitor_id) {
                    monitors[i].contrast = *value;
                }
            },
            HardwareOutcome::InputSourceApplied { monitor_id, source } => {
                if same_key(&monitors[i].info.key, monitor_id) {
                    monitors[i].input_source = *source;
                    monitors[i].input_source_read_error = None;
                }
            },
            _ => {},
        }
        i = i + 1;
    }
}

/// Apply a result only when it belongs to the current topology generation.
pub fn apply_current_outcome(
    monitors: &mut Vec<MonitorState>,
    generation: u64,
    current: u64,
    result: &Result<HardwareOutcome, String>,
)
    ensures
        final(monitors)@.len() == old(monitors)@.len(),
        generation == current ==> forall|i: int| 0 <= i < old(monitors)@.len() ==> #[trigger] final(monitors)@[i]
            == after_outcome(old(monitors)@[i], *result),
        generation != current ==> final(monitors)@ == old(monitors)@,
{
    if generation == current {
        apply_monitor_outcome(monitors, result);
    }
}

} // verus!
