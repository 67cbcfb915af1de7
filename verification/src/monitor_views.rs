//! What a monitor page shows for each control: the confirmed reading, a
//! pending write or slider draft laid over it, and never a guessed range.
use vstd::prelude::*;
use crate::actions::HardwareJob;
use crate::ddc::{InputSource, input_label};
use crate::debounce::{SliderDebounce, SliderFeature};
use crate::text::{decimal, push_decimal};

verus! {

/// A value that is about to change: to a known target, or by an offset whose
/// result is not known yet.
#[derive(Clone, Copy, Debug, PartialEq, Eq)]
pub enum PendingValue<T> {
    NoChange,
    Target(T),
    Adjusting,
}

/// Pending changes for the three controls of one monitor.
#[derive(Clone, Copy, Debug, PartialEq, Eq)]
pub struct MonitorPending {
    pub brightness: PendingValue<u16>,
    pub contrast: PendingValue<u16>,
    pub input_source: PendingValue<InputSource>,
}

impl Default for MonitorPending {
    fn default() -> (r: MonitorPending)
        ensures
            r.brightness == PendingValue::<u16>::NoChange,
            r.contrast == PendingValue::<u16>::NoChange,
            r.input_source == PendingValue::<InputSource>::NoChange,
    {
        MonitorPending {
            brightness: PendingValue::NoChange,
            contrast: PendingValue::NoChange,
            input_source: PendingValue::NoChange,
        }
    }
}

/// The brightness change the first `n` jobs leave for monitor `id`: the last
/// job on that monitor's brightness decides.
pub open spec fn brightness_jobs(id: u32, jobs: Seq<HardwareJob>, n: int) -> PendingValue<u16>
    decreases n,
{
    if n <= 0 || n > jobs.len() {
        PendingValue::NoChange
    } else {
        match jobs[n - 1] {
            HardwareJob::SetBrightness { monitor_id, value } if monitor_id == id => PendingValue::Target(value),
            HardwareJob::OffsetBrightness { monitor_id, .. } if monitor_id == id => PendingValue::Adjusting,
            _ => brightness_jobs(id, jobs, n - 1),
        }
    }
}

/// The contrast change the first `n` jobs leave for monitor `id`.
pub open spec fn contrast_jobs(id: u32, jobs: Seq<HardwareJob>, n: int) -> PendingValue<u16>
    decreases n,
{
    if n <= 0 || n > jobs.len() {
        PendingValue::NoChange
    } else {
        match jobs[n - 1] {
            HardwareJob::SetContrast { monitor_id, value } if monitor_id == id => PendingValue::Target(value),
            HardwareJob::OffsetContrast { monitor_id, .. } if monitor_id == id => PendingValue::Adjusting,
            _ => contrast_jobs(id, jobs, n - 1),
        }
    }
}

/// The input change the first `n` jobs leave for monitor `id`.
pub open spec fn input_jobs(id: u32, jobs: Seq<HardwareJob>, n: int) -> PendingValue<InputSource>
    decreases n,
{
    if n <= 0 || n > jobs.len() {
        PendingValue::NoChange
    } else {
        match jobs[n - 1] {
            HardwareJob::SetInputSource { monitor_id, source } if monitor_id == id => PendingValue::Target(source),
            _ => input_jobs(id, jobs, n - 1),
        }
    }
}

/// A slider draft, being newer than every submitted write, replaces what the
/// jobs left.
pub open spec fn with_draft(
    from_jobs: PendingValue<u16>,
    drafts: Map<(u32, SliderFeature), (crate::debounce::DebounceToken, u16)>,
    key: (u32, SliderFeature),
) -> PendingValue<u16> {
    if drafts.contains_key(key) {
        PendingValue::Target(drafts[key].1)
    } else {
        from_jobs
    }
}

impl MonitorPending {
    /// Collect what the outstanding jobs (in execution order) and the waiting
    /// slider drafts will change on monitor `monitor_id`.
    pub fn new(monitor_id: u32, jobs: Vec<&HardwareJob>, drafts: &SliderDebounce) -> (r: MonitorPending)
        requires
            drafts.wf(),
        ensures
            ({
                let s = jobs@.map_values(|j: &HardwareJob| *j);
                &&& r.brightness == with_draft(
                    brightness_jobs(monitor_id, s, s.len() as int),
                    drafts.drafts(),
                    (monitor_id, SliderFeature::Brightness),
                )
                &&& r.contrast == with_draft(
                    contrast_jobs(monitor_id, s, s.len() as int),
                    drafts.drafts(),
                    (monitor_id, SliderFeature::Contrast),
                )
                &&& r.input_source == input_jobs(monitor_id, s, s.len() as int)
            }),
    {
        let ghost s = jobs@.map_values(|j: &HardwareJob| *j);
        let mut pending = MonitorPending::default();
        let mut i: usize = 0;
        while i < jobs.len()
            invariant
                s == jobs@.map_values(|j: &HardwareJob| *j),
                i <= jobs@.len(),
                pending.brightness == brightness_jobs(monitor_id, s, i as int),
                pending.contrast == contrast_jobs(monitor_id, s, i as int),
                pending.input_source == input_jobs(monitor_id, s, i as int),
            decreases jobs@.len() - i,
        {
            let job: &HardwareJob = jobs[i];
            assert(s[i as int] == *job);
            match job {
                HardwareJob::SetBrightness { monitor_id: id, value } => {
                    if *id == monitor_id {
                        pending.brightness = PendingValue::Target(*value);
                    }
                },
                HardwareJob::OffsetBrightness { monitor_id: id, .. } => {
                    if *id == monitor_id {
                        pending.brightness = PendingValue::Adjusting;
                    }
                },
                HardwareJob::SetContrast { monitor_id: id, value } => {
                    if *id == monitor_id {
                        pending.contrast = PendingValue::Target(*value);
                    }
                },
                HardwareJob::OffsetContrast { monitor_id: id, .. } => {
                    if *id == monitor_id {
                        pending.contrast = PendingValue::Adjusting;
                    }
                },
                HardwareJob::SetInputSource { monitor_id: id, source } => {
                    if *id == monitor_id {
                        pending.input_source = PendingValue::Target(*source);
                    }
                },
                _ => {},
            }
            i = i + 1;
        }
        if let Some(value) = drafts.value(monitor_id, SliderFeature::Brightness) {
            pending.brightness = PendingValue::Target(value);
        }
        if let Some(value) = drafts.value(monitor_id, SliderFeature::Contrast) {
            pending.contrast = PendingValue::Target(value);
        }
        pending
    }
}

/// What one control shows: the value a slider or dropdown sits at (none when
/// nothing trustworthy is known), its label, and the read error to report.
#[derive(Debug, PartialEq, Eq)]
pub struct ControlPresentation<'a, T> {
    pub value: Option<T>,
    pub label: String,
    pub read_error: Option<&'a str>,
}

/// The value a control sits at: a pending target wins over the confirmed one.
pub open spec fn presented_value<T>(confirmed: Option<T>, pending: PendingValue<T>) -> Option<T> {
    match pending {
        PendingValue::Target(target) => Some(target),
        _ => confirmed,
    }
}

/// `Unknown` where nothing is confirmed.
pub open spec fn or_unknown(text: Option<Seq<char>>) -> Seq<char> {
    match text {
        Some(t) => t,
        None => "Unknown"@,
    }
}

/// A control's label from the text of its confirmed value (if any), the text
/// of a pending target, and the kind of pending change.
pub open spec fn presented_label<T>(confirmed: Option<Seq<char>>, pending: PendingValue<T>, target_text: Seq<char>) -> Seq<
    char,
> {
    match pending {
        PendingValue::Target(_) => target_text + " (pending)"@,
        PendingValue::Adjusting => or_unknown(confirmed) + " (change pending)"@,
        PendingValue::NoChange => or_unknown(confirmed),
    }
}

/// How a scalar value is written: `value / maximum`, or, when the range could
/// not be read, only the requested value.
pub open spec fn scalar_text(value: u16, maximum: u16, failed: bool) -> Seq<char> {
    if failed {
        "Unknown; requested "@ + decimal(value as nat)
    } else {
        decimal(value as nat) + " / "@ + decimal(maximum as nat)
    }
}

/// The target of a pending change, or a placeholder where there is none.
pub open spec fn pending_target<T>(pending: PendingValue<T>, otherwise: T) -> T {
    match pending {
        PendingValue::Target(t) => t,
        _ => otherwise,
    }
}

fn push_scalar(out: &mut String, value: u16, maximum: u16, failed: bool)
    ensures
        final(out)@ == old(out)@ + scalar_text(value, maximum, failed),
{
    if failed {
        out.append("Unknown; requested ");
        push_decimal(out, value as u64);
    } else {
        push_decimal(out, value as u64);
        out.append(" / ");
        push_decimal(out, maximum as u64);
    }
}

/// The presentation of a scalar control (brightness, contrast). A failed read
/// confirms nothing, and a write does not tell the range, so no slider is
/// offered then, not even for a pending target.
pub fn scalar_presentation<'a>(value: u16, maximum: u16, read_error: Option<&'a str>, pending: PendingValue<u16>) -> (r:
    ControlPresentation<'a, u16>)
    ensures
        ({
            let failed = read_error is Some;
            let confirmed: Option<u16> = if failed {
                None
            } else {
                Some(value)
            };
            &&& r.value == if failed {
                None
            } else {
                presented_value(confirmed, pending)
            }
            &&& r.label@ == presented_label(
                if failed {
                    None
                } else {
                    Some(scalar_text(value, maximum, false))
                },
                pending,
                scalar_text(pending_target(pending, value), maximum, failed),
            )
            &&& r.read_error == read_error
        }),
{
    let failed = read_error.is_some();
    let mut label = String::new();
    let shown: Option<u16> = match pending {
        PendingValue::Target(target) => {
            push_scalar(&mut label, target, maximum, failed);
            label.append(" (pending)");
            Some(target)
        },
        PendingValue::Adjusting => {
            if failed {
                label.append("Unknown");
            } else {
                push_scalar(&mut label, value, maximum, false);
            }
            label.append(" (change pending)");
            if failed {
                None
            } else {
                Some(value)
            }
        },
        PendingValue::NoChange => {
            if failed {
                label.append("Unknown");
                None
            } else {
                push_scalar(&mut label, value, maximum, false);
                Some(value)
            }
        },
    };
    ControlPresentation { value: if failed {
        None
    } else {
        shown
    }, label, read_error }
}

/// The presentation of the input-source control. A failed read confirms no
/// source, but a pending selection is still shown and selectable.
pub fn input_presentation<'a>(source: InputSource, read_error: Option<&'a str>, pending: PendingValue<InputSource>) -> (r:
    ControlPresentation<'a, InputSource>)
    ensures
        ({
            let confirmed: Option<InputSource> = if read_error is Some {
                None
            } else {
                Some(source)
            };
            &&& r.value == presented_value(confirmed, pending)
            &&& r.label@ == presented_label(
                if read_error is Some {
                    None
                } else {
                    Some(input_label(source))
                },
                pending,
                input_label(pending_target(pending, source)),
            )
            &&& r.read_error == read_error
        }),
{
    let failed = read_error.is_some();
    let mut label = String::new();
    let shown: Option<InputSource> = match pending {
        PendingValue::Target(target) => {
            label.append(target.label().as_str());
            label.append(" (pending)");
            Some(target)
        },
        PendingValue::Adjusting => {
            if failed {
                label.append("Unknown");
            } else {
                label.append(source.label().as_str());
            }
            label.append(" (change pending)");
            if failed {
                None
            } else {
                Some(source)
            }
        },
        PendingValue::NoChange => {
            if failed {
                label.append("Unknown");
                None
            } else {
                label.append(source.label().as_str());
                Some(source)
            }
        },
    };
    ControlPresentation { value: shown, label, read_error }
}

} // verus!
