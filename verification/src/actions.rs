//! Hardware jobs: turning hotkey actions into jobs, binding them to stable
//! monitor keys before they are queued, executing them one at a time, and
//! the FIFO executor that runs them.
use vstd::prelude::*;
use crate::config::{
    ActionTarget, ActionType, HotkeyActionSpec, MonitorTarget, TurnOffBehavior, action_targets,
    explicit_spec, resolvable, same_target, target_id, targets_resolve,
};
use crate::ddc::{
    DdcError, Endpoint, InputSource, MonitorInfo, MonitorKey, MonitorState, PowerMode, Session, Vcp,
    VcpCall, VCP_BRIGHTNESS, VCP_CONTRAST, VCP_INPUT_SOURCE, VCP_POWER_MODE, key_supported,
    offset_target, offset_trace, refused, resolvable as endpoint_resolvable, same_key, input_code,
    power_code, ddc_error_text,
};
use crate::text::push_decimal;
use std::collections::VecDeque;
use std::sync::{Arc, OnceLock};

verus! {

/// One unit of hardware work.
#[derive(Clone, Debug, PartialEq, Eq)]
pub enum HardwareJob {
    SetBrightness { monitor_id: u32, value: u16 },
    OffsetBrightness { monitor_id: u32, offset: i32 },
    SetContrast { monitor_id: u32, value: u16 },
    OffsetContrast { monitor_id: u32, offset: i32 },
    SetInputSource { monitor_id: u32, source: InputSource },
    SetPowerMode { monitor_id: u32, mode: PowerMode },
    SetCustomVcp { monitor_id: u32, code: u8, value: u16 },
    OffsetCustomVcp { monitor_id: u32, code: u8, offset: i32 },
    ApplyProfile { name: String },
    SaveProfile { name: String, replace: bool },
    SoftTurnOff { monitor_ids: Vec<u32> },
}

/// The display number a single-monitor job names.
pub open spec fn job_monitor(job: HardwareJob) -> Option<u32> {
    match job {
        HardwareJob::SetBrightness { monitor_id, .. } => Some(monitor_id),
        HardwareJob::OffsetBrightness { monitor_id, .. } => Some(monitor_id),
        HardwareJob::SetContrast { monitor_id, .. } => Some(monitor_id),
        HardwareJob::OffsetContrast { monitor_id, .. } => Some(monitor_id),
        HardwareJob::SetInputSource { monitor_id, .. } => Some(monitor_id),
        HardwareJob::SetPowerMode { monitor_id, .. } => Some(monitor_id),
        HardwareJob::SetCustomVcp { monitor_id, .. } => Some(monitor_id),
        HardwareJob::OffsetCustomVcp { monitor_id, .. } => Some(monitor_id),
        _ => None,
    }
}

/// Monitor `i` carries display number `id`.
pub open spec fn number_matches(available: Seq<MonitorInfo>, id: u32, i: int) -> bool {
    0 <= i < available.len() && available[i].id == id
}

/// Display number `id` binds to monitor `i`: it is the only monitor with the
/// number, and its key resolves.
pub open spec fn number_binds(available: Seq<MonitorInfo>, id: u32, i: int) -> bool {
    &&& number_matches(available, id, i)
    &&& forall|j: int| #[trigger] number_matches(available, id, j) ==> j == i
    &&& resolvable(MonitorTarget::Stable(available[i].key), available)
}

/// Display number `id` binds to some monitor.
pub open spec fn number_bindable(available: Seq<MonitorInfo>, id: u32) -> bool {
    exists|i: int| #[trigger] number_binds(available, id, i)
}

/// The key display number `id` binds to.
pub open spec fn bound_key(available: Seq<MonitorInfo>, id: u32) -> MonitorKey {
    available[choose|i: int| number_binds(available, id, i)].key
}

proof fn lemma_binding_unique(available: Seq<MonitorInfo>, id: u32, a: int, b: int)
    requires
        number_binds(available, id, a),
        number_binds(available, id, b),
    ensures
        a == b,
{
    assert(number_matches(available, id, b));
}

/// Bind a display number to the key of the only monitor with that number.
fn bind_number(available: &[MonitorInfo], id: u32) -> (r: Result<MonitorKey, String>)
    ensures
        r is Ok <==> number_bindable(available@, id),
        r matches Ok(k) ==> k == bound_key(available@, id),
{
    let mut found: Option<usize> = None;
    let mut i: usize = 0;
    while i < available.len()
        invariant
            i <= available@.len(),
            match found {
                Some(f) => f < i && number_matches(available@, id, f as int) && forall|j: int|
                    0 <= j < i && #[trigger] number_matches(available@, id, j) ==> j == f,
                None => forall|j: int| 0 <= j < i ==> !#[trigger] number_matches(available@, id, j),
            },
        decreases available.len() - i,
    {
        if available[i].id == id {
            if found.is_some() {
                let mut s = String::from_str("Ambiguous display number ");
                push_decimal(&mut s, id as u64);
                proof {
                    assert(number_matches(available@, id, i as int));
                    if number_bindable(available@, id) {
                        let k = choose|k: int| #[trigger] number_binds(available@, id, k);
                        assert(number_matches(available@, id, found->0 as int));
                    }
                }
                return Err(s);
            }
            found = Some(i);
        }
        i = i + 1;
    }
    let index = match found {
        Some(f) => f,
        None => {
            let mut s = String::from_str("Monitor ");
            push_decimal(&mut s, id as u64);
            s.append(" unavailable");
            proof {
                if number_bindable(available@, id) {
                    let k = choose|k: int| #[trigger] number_binds(available@, id, k);
                    assert(number_matches(available@, id, k));
                }
            }
            return Err(s);
        },
    };
    let target = MonitorTarget::Stable(available[index].key.copy());
    match target.resolve(available) {
        Ok(_) => {},
        Err(e) => {
            proof {
                if number_bindable(available@, id) {
                    let k = choose|k: int| #[trigger] number_binds(available@, id, k);
                    assert(number_matches(available@, id, k));
                }
            }
            return Err(e);
        },
    }
    proof {
        assert(number_binds(available@, id, index as int));
        let c = choose|i: int| number_binds(available@, id, i);
        lemma_binding_unique(available@, id, index as int, c);
    }
    Ok(available[index].key.copy())
}

/// The keys a job needs, bound from its display numbers, in job order.
pub open spec fn job_keys(job: HardwareJob, available: Seq<MonitorInfo>) -> Seq<MonitorKey> {
    match job {
        HardwareJob::SoftTurnOff { monitor_ids } => monitor_ids@.map_values(
            |id: u32| bound_key(available, id),
        ),
        _ => match job_monitor(job) {
            Some(id) => seq![bound_key(available, id)],
            None => Seq::empty(),
        },
    }
}

/// Every display number of the job binds, and a Windows sleep names at least one.
pub open spec fn job_bindable(job: HardwareJob, available: Seq<MonitorInfo>) -> bool {
    match job {
        HardwareJob::SoftTurnOff { monitor_ids } => monitor_ids@.len() > 0 && forall|k: int|
            0 <= k < monitor_ids@.len() ==> number_bindable(available, #[trigger] monitor_ids@[k]),
        _ => match job_monitor(job) {
            Some(id) => number_bindable(available, id),
            None => true,
        },
    }
}

/// `keys` with the keys of `more` appended that it does not hold yet.
pub open spec fn add_new_keys(keys: Seq<MonitorKey>, more: Seq<MonitorKey>) -> Seq<MonitorKey>
    decreases more.len(),
{
    if more.len() == 0 {
        keys
    } else {
        let before = add_new_keys(keys, more.drop_last());
        if exists|i: int| 0 <= i < before.len() && #[trigger] before[i]@ == more.last()@ {
            before
        } else {
            before.push(more.last())
        }
    }
}

/// The keys of the first `n` jobs, each once, in order of first use.
pub open spec fn selection_of(jobs: Seq<HardwareJob>, available: Seq<MonitorInfo>, n: int) -> Seq<MonitorKey>
    decreases n,
{
    if n <= 0 {
        Seq::empty()
    } else {
        add_new_keys(selection_of(jobs, available, n - 1), job_keys(jobs[n - 1], available))
    }
}

/// A job bound to stable keys at enqueue time. Display numbers remain only
/// for previews; execution reaches hardware only through the captured keys.
#[derive(Clone, Debug)]
pub struct PreparedJob {
    pub job: HardwareJob,
    pub generation: u64,
    key: Option<MonitorKey>,
    required: Vec<MonitorKey>,
    starts_preflight: bool,
    preflight_passed: Arc<OnceLock<()>>,
}

impl PreparedJob {
    /// The job.
    pub closed spec fn job_view(&self) -> HardwareJob {
        self.job
    }

    /// The topology generation the job was prepared for.
    pub closed spec fn generation_view(&self) -> u64 {
        self.generation
    }

    /// The key the job's single monitor was bound to.
    pub closed spec fn key_view(&self) -> Option<MonitorKey> {
        self.key
    }

    /// The keys that must all be present before the job runs.
    pub closed spec fn required_view(&self) -> Seq<MonitorKey> {
        self.required@
    }

    /// Whether this job checks the batch selection before its work.
    pub closed spec fn preflight_view(&self) -> bool {
        self.starts_preflight
    }
}

/// `std::sync::OnceLock`, shared by the jobs of one batch to record that the
/// batch's preflight passed.
#[verifier::external_type_specification]
#[verifier::external_body]
#[verifier::reject_recursive_types(T)]
pub struct ExOnceLock<T>(OnceLock<T>);

/// A fresh, unset `std::sync::OnceLock::new()`. Nothing is claimed.
#[verifier::external_body]
fn new_flag() -> OnceLock<()> {
    OnceLock::new()
}

/// Shares a batch flag through `std::sync::Arc::clone`. Nothing is claimed.
#[verifier::external_body]
fn share_flag(flag: &Arc<OnceLock<()>>) -> Arc<OnceLock<()>> {
    Arc::clone(flag)
}

/// Whether `std::sync::OnceLock::get` finds the flag set. Its value depends on
/// what other jobs of the batch did, so nothing is claimed.
#[verifier::external_body]
fn flag_is_set(flag: &Arc<OnceLock<()>>) -> bool {
    flag.get().is_some()
}

/// Sets the flag with `std::sync::OnceLock::set` (a second set is ignored).
/// Nothing is claimed.
#[verifier::external_body]
fn set_flag(flag: &Arc<OnceLock<()>>) {
    let _ = flag.set(());
}

/// The jobs prepared from a batch: `jobs` in order, each bound to its keys.
/// The first job that needs any monitor checks the whole batch selection
/// before its own work; the other jobs need only their own keys.
pub open spec fn prepared_as(
    prepared: Seq<PreparedJob>,
    jobs: Seq<HardwareJob>,
    available: Seq<MonitorInfo>,
    generation: u64,
) -> bool {
    &&& prepared.len() == jobs.len()
    &&& forall|i: int|
        0 <= i < jobs.len() ==> {
            let p = #[trigger] prepared[i];
            &&& p.job_view() == jobs[i]
            &&& p.generation_view() == generation
            &&& p.key_view() == match job_monitor(jobs[i]) {
                Some(id) => Some(bound_key(available, id)),
                None => None::<MonitorKey>,
            }
            &&& p.preflight_view() == (job_keys(jobs[i], available).len() > 0 && forall|g: int|
                0 <= g < i ==> job_keys(#[trigger] jobs[g], available).len() == 0)
            &&& p.required_view() == if p.preflight_view() {
                selection_of(jobs, available, jobs.len() as int)
            } else {
                job_keys(jobs[i], available)
            }
        }
}

/// `keys` already holds a key with the text of `key`.
fn holds_key(keys: &Vec<MonitorKey>, key: &MonitorKey) -> (r: bool)
    ensures
        r == exists|i: int| 0 <= i < keys@.len() && #[trigger] keys@[i]@ == key@,
{
    let mut i: usize = 0;
    while i < keys.len()
        invariant
            i <= keys@.len(),
            forall|q: int| 0 <= q < i ==> keys@[q]@ != key@,
        decreases keys.len() - i,
    {
        if same_key(&keys[i], key) {
            return true;
        }
        i = i + 1;
    }
    false
}

fn copy_keys(keys: &Vec<MonitorKey>) -> (r: Vec<MonitorKey>)
    ensures
        r@ == keys@,
{
    let mut r: Vec<MonitorKey> = Vec::new();
    let mut i: usize = 0;
    while i < keys.len()
        invariant
            i <= keys@.len(),
            r@ == keys@.subrange(0, i as int),
        decreases keys.len() - i,
    {
        r.push(keys[i].copy());
        proof {
            assert(keys@.subrange(0, i + 1) == keys@.subrange(0, i as int).push(keys@[i as int]));
        }
        i = i + 1;
    }
    proof {
        assert(keys@.subrange(0, keys@.len() as int) == keys@);
    }
    r
}

/// The single display number of a job, when it names one.
fn monitor_of(job: &HardwareJob) -> (r: Option<u32>)
    ensures
        r == job_monitor(*job),
{
    match job {
        HardwareJob::SetBrightness { monitor_id, .. } => Some(*monitor_id),
        HardwareJob::OffsetBrightness { monitor_id, .. } => Some(*monitor_id),
        HardwareJob::SetContrast { monitor_id, .. } => Some(*monitor_id),
        HardwareJob::OffsetContrast { monitor_id, .. } => Some(*monitor_id),
        HardwareJob::SetInputSource { monitor_id, .. } => Some(*monitor_id),
        HardwareJob::SetPowerMode { monitor_id, .. } => Some(*monitor_id),
        HardwareJob::SetCustomVcp { monitor_id, .. } => Some(*monitor_id),
        HardwareJob::OffsetCustomVcp { monitor_id, .. } => Some(*monitor_id),
        _ => None,
    }
}

/// The keys of one job (see [`job_keys`]), or an error when a number does not bind.
#[verifier::loop_isolation(false)]
fn keys_of_job(job: &HardwareJob, available: &[MonitorInfo]) -> (r: Result<(Option<MonitorKey>, Vec<MonitorKey>), String>)
    ensures
        r is Ok <==> job_bindable(*job, available@),
        r matches Ok((key, keys)) ==> keys@ == job_keys(*job, available@) && key == match job_monitor(*job) {
            Some(id) => Some(bound_key(available@, id)),
            None => None::<MonitorKey>,
        },
{
    let mut required: Vec<MonitorKey> = Vec::new();
    if let HardwareJob::SoftTurnOff { monitor_ids } = job {
        if monitor_ids.len() == 0 {
            return Err(String::from_str("No monitors selected for Windows sleep"));
        }
        let mut k: usize = 0;
        while k < monitor_ids.len()
            invariant
                k <= monitor_ids@.len(),
                required@ == monitor_ids@.subrange(0, k as int).map_values(|id: u32| bound_key(available@, id)),
                forall|q: int| 0 <= q < k ==> number_bindable(available@, #[trigger] monitor_ids@[q]),
            decreases monitor_ids.len() - k,
        {
            let key = match bind_number(available, monitor_ids[k]) {
                Ok(key) => key,
                Err(e) => {
                    proof {
                        assert(!number_bindable(available@, monitor_ids@[k as int]));
                    }
                    return Err(e);
                },
            };
            required.push(key);
            proof {
                assert(monitor_ids@.subrange(0, k + 1).map_values(|id: u32| bound_key(available@, id))
                    == monitor_ids@.subrange(0, k as int).map_values(|id: u32| bound_key(available@, id)).push(
                    bound_key(available@, monitor_ids@[k as int]),
                ));
            }
            k = k + 1;
        }
        proof {
            assert(monitor_ids@.subrange(0, monitor_ids@.len() as int) == monitor_ids@);
        }
        return Ok((None, required));
    }
    match monitor_of(job) {
        Some(id) => {
            let key = match bind_number(available, id) {
                Ok(key) => key,
                Err(e) => return Err(e),
            };
            required.push(key.copy());
            proof {
                assert(required@ == seq![bound_key(available@, id)]);
            }
            Ok((Some(key), required))
        },
        None => Ok((None, required)),
    }
}

/// Bind every job of a batch to stable keys before any of it is queued.
/// Either the whole batch binds, or nothing is prepared.
#[verifier::loop_isolation(false)]
pub fn prepare_jobs(jobs: Vec<HardwareJob>, available: &[MonitorInfo], generation: u64) -> (r: Result<
    Vec<PreparedJob>,
    String,
>)
    ensures
        r is Ok <==> forall|i: int| 0 <= i < jobs@.len() ==> job_bindable(#[trigger] jobs@[i], available@),
        r matches Ok(prepared) ==> prepared_as(prepared@, jobs@, available@, generation),
{
    let ghost all_jobs = jobs@;
    let flag = Arc::new(new_flag());
    let mut rest = jobs;
    let mut prepared: Vec<PreparedJob> = Vec::new();
    let mut selection: Vec<MonitorKey> = Vec::new();
    let n = rest.len();
    let mut i: usize = 0;
    while i < n
        invariant
            n == all_jobs.len(),
            i <= n,
            rest@ == all_jobs.subrange(i as int, n as int),
            prepared@.len() == i,
            selection@ == selection_of(all_jobs, available@, i as int),
            forall|q: int| 0 <= q < i ==> job_bindable(#[trigger] all_jobs[q], available@),
            forall|q: int|
                0 <= q < i ==> {
                    let p = #[trigger] prepared@[q];
                    &&& p.job_view() == all_jobs[q]
                    &&& p.generation_view() == generation
                    &&& p.key_view() == match job_monitor(all_jobs[q]) {
                        Some(id) => Some(bound_key(available@, id)),
                        None => None::<MonitorKey>,
                    }
                    &&& !p.preflight_view()
                    &&& p.required_view() == job_keys(all_jobs[q], available@)
                },
        decreases n - i,
    {
        let job = rest.remove(0);
        proof {
            assert(job == all_jobs[i as int]);
            assert(rest@ == all_jobs.subrange(i + 1, n as int));
        }
        let (key, required) = match keys_of_job(&job, available) {
            Ok(found) => found,
            Err(e) => {
                return Err(e);
            },
        };
        let ghost before = selection@;
        let mut k: usize = 0;
        while k < required.len()
            invariant
                k <= required@.len(),
                selection@ == add_new_keys(before, required@.subrange(0, k as int)),
            decreases required.len() - k,
        {
            proof {
                assert(required@.subrange(0, k + 1).drop_last() == required@.subrange(0, k as int));
                assert(required@.subrange(0, k + 1).last() == required@[k as int]);
            }
            if !holds_key(&selection, &required[k]) {
                selection.push(required[k].copy());
            }
            k = k + 1;
        }
        proof {
            assert(required@.subrange(0, required@.len() as int) == required@);
        }
        let ghost prev = prepared@;
        prepared.push(
            PreparedJob {
                job,
                generation,
                key,
                required,
                starts_preflight: false,
                preflight_passed: share_flag(&flag),
            },
        );
        proof {
            assert forall|q: int| 0 <= q < i + 1 implies {
                let p = #[trigger] prepared@[q];
                &&& p.job_view() == all_jobs[q]
                &&& p.generation_view() == generation
                &&& p.key_view() == match job_monitor(all_jobs[q]) {
                    Some(id) => Some(bound_key(available@, id)),
                    None => None::<MonitorKey>,
                }
                &&& !p.preflight_view()
                &&& p.required_view() == job_keys(all_jobs[q], available@)
            } by {
                if q < i {
                    assert(prepared@[q] == prev[q]);
                }
            }
        }
        i = i + 1;
    }
    let mut f: usize = 0;
    while f < prepared.len() && prepared[f].required.len() == 0
        invariant
            f <= prepared@.len(),
            forall|g: int| 0 <= g < f ==> prepared@[g].required_view().len() == 0,
        decreases prepared.len() - f,
    {
        f = f + 1;
    }
    let ghost before = prepared@;
    if f < prepared.len() {
        let all = copy_keys(&selection);
        prepared[f].required = all;
        prepared[f].starts_preflight = true;
    }
    proof {
        assert forall|q: int| 0 <= q < n implies {
            let p = #[trigger] prepared@[q];
            &&& p.job_view() == all_jobs[q]
            &&& p.generation_view() == generation
            &&& p.key_view() == match job_monitor(all_jobs[q]) {
                Some(id) => Some(bound_key(available@, id)),
                None => None::<MonitorKey>,
            }
            &&& p.preflight_view() == (job_keys(all_jobs[q], available@).len() > 0 && forall|g: int|
                0 <= g < q ==> job_keys(#[trigger] all_jobs[g], available@).len() == 0)
            &&& p.required_view() == if p.preflight_view() {
                selection_of(all_jobs, available@, all_jobs.len() as int)
            } else {
                job_keys(all_jobs[q], available@)
            }
        } by {
            if q != f {
                assert(prepared@[q] == before[q]);
                if q > f {
                    assert(before[f as int].required_view() == job_keys(all_jobs[f as int], available@));
                }
            } else {
                assert forall|g: int| 0 <= g < q implies job_keys(#[trigger] all_jobs[g], available@).len() == 0 by {
                    assert(before[g].required_view().len() == 0);
                }
            }
        }
    }
    Ok(prepared)
}

impl PreparedJob {
    /// The key of the job's single monitor.
    pub fn key(&self) -> (r: Option<&MonitorKey>)
        ensures
            match r {
                Some(k) => self.key_view() == Some(*k),
                None => self.key_view() is None,
            },
    {
        match &self.key {
            Some(k) => Some(k),
            None => None,
        }
    }

    /// The job.
    pub fn job(&self) -> (r: &HardwareJob)
        ensures
            *r == self.job_view(),
    {
        &self.job
    }

    /// The topology generation the job belongs to.
    pub fn generation(&self) -> (r: u64)
        ensures
            r == self.generation_view(),
    {
        self.generation
    }

    /// Move a job that carries no monitor binding (a profile job) to the
    /// generation `generation`.
    pub fn set_generation(&mut self, generation: u64)
        ensures
            final(self).generation_view() == generation,
            final(self).job_view() == old(self).job_view(),
            final(self).key_view() == old(self).key_view(),
            final(self).required_view() == old(self).required_view(),
            final(self).preflight_view() == old(self).preflight_view(),
    {
        self.generation = generation;
    }

    /// The keys that must all be present before the job runs.
    pub fn required(&self) -> (r: &Vec<MonitorKey>)
        ensures
            r@ == self.required_view(),
    {
        &self.required
    }

    /// Whether this job checks the whole batch selection first.
    pub fn starts_preflight(&self) -> (r: bool)
        ensures
            r == self.preflight_view(),
    {
        self.starts_preflight
    }

    /// The job to preview on monitor `info`: only for the current topology
    /// generation and the key the job was bound to, never by display number.
    pub fn preview_for(&self, info: &MonitorInfo, generation: u64) -> (r: Option<&HardwareJob>)
        ensures
            r is Some <==> (self.generation_view() == generation && (self.key_view() matches Some(k)
                && k@ == info.key@)),
            r matches Some(j) ==> *j == self.job_view(),
    {
        if self.generation != generation {
            return None;
        }
        match &self.key {
            Some(k) => {
                if same_key(k, &info.key) {
                    Some(&self.job)
                } else {
                    None
                }
            },
            None => None,
        }
    }
}

/// What a finished hardware job achieved.
#[derive(Clone, Debug, PartialEq, Eq)]
pub enum HardwareOutcome {
    BrightnessApplied { monitor_id: MonitorKey, value: u16 },
    ContrastApplied { monitor_id: MonitorKey, value: u16 },
    InputSourceApplied { monitor_id: MonitorKey, source: InputSource },
    PowerModeApplied { monitor_id: MonitorKey, mode: PowerMode },
    CustomVcpApplied { monitor_id: MonitorKey, code: u8, value: u16 },
    ProfileApplied { name: String },
    ProfileSaved { name: String },
    MonitorsPoweredOff,
}

/// `outcome` reports monitor job `job`, run on the monitor with `key`.
pub open spec fn monitor_outcome(job: HardwareJob, key: MonitorKey, outcome: HardwareOutcome) -> bool {
    match job {
        HardwareJob::SetBrightness { value, .. } => outcome == HardwareOutcome::BrightnessApplied {
            monitor_id: key,
            value,
        },
        HardwareJob::OffsetBrightness { offset, .. } => outcome matches HardwareOutcome::BrightnessApplied {
            monitor_id,
            value,
        } && monitor_id == key && exists|c: u16, m: u16| offset_target(c, m, offset) == Some(value),
        HardwareJob::SetContrast { value, .. } => outcome == HardwareOutcome::ContrastApplied {
            monitor_id: key,
            value,
        },
        HardwareJob::OffsetContrast { offset, .. } => outcome matches HardwareOutcome::ContrastApplied {
            monitor_id,
            value,
        } && monitor_id == key && exists|c: u16, m: u16| offset_target(c, m, offset) == Some(value),
        HardwareJob::SetInputSource { source, .. } => outcome == HardwareOutcome::InputSourceApplied {
            monitor_id: key,
            source,
        },
        HardwareJob::SetPowerMode { mode, .. } => outcome == HardwareOutcome::PowerModeApplied {
            monitor_id: key,
            mode,
        },
        HardwareJob::SetCustomVcp { code, value, .. } => outcome
            == HardwareOutcome::CustomVcpApplied { monitor_id: key, code, value },
        HardwareJob::OffsetCustomVcp { code, offset, .. } => outcome matches HardwareOutcome::CustomVcpApplied {
            monitor_id,
            code: c2,
            value,
        } && monitor_id == key && c2 == code && exists|c: u16, m: u16|
            offset_target(c, m, offset) == Some(value),
        HardwareJob::SoftTurnOff { .. } => outcome == HardwareOutcome::MonitorsPoweredOff,
        _ => false,
    }
}

/// A job for the profile store rather than for monitors.
pub open spec fn profile_job(job: HardwareJob) -> bool {
    job is ApplyProfile || job is SaveProfile
}

/// The prefix of a failed write's error, by the job's feature.
pub open spec fn job_error_prefix(job: HardwareJob) -> Seq<char> {
    match job {
        HardwareJob::SetBrightness { .. } | HardwareJob::OffsetBrightness { .. } => "Brightness error: "@,
        HardwareJob::SetContrast { .. } | HardwareJob::OffsetContrast { .. } => "Contrast error: "@,
        HardwareJob::SetInputSource { .. } => "Input source error: "@,
        HardwareJob::SetPowerMode { .. } => "Power mode error: "@,
        HardwareJob::SetCustomVcp { .. } | HardwareJob::OffsetCustomVcp { .. } => "Custom VCP error: "@,
        _ => Seq::empty(),
    }
}

fn prefixed(prefix: &str, e: DdcError) -> (r: String)
    ensures
        r@ == prefix@ + crate::ddc::ddc_error_text(e),
{
    let mut s = String::from_str(prefix);
    let m = e.message();
    s.append(m.as_str());
    s
}

/// The feature code and value a job writes as it is, for a job that sets a
/// feature.
pub open spec fn job_write(job: HardwareJob) -> Option<(u8, u16)> {
    match job {
        HardwareJob::SetBrightness { value, .. } => Some((VCP_BRIGHTNESS, value)),
        HardwareJob::SetContrast { value, .. } => Some((VCP_CONTRAST, value)),
        HardwareJob::SetInputSource { source, .. } => Some((VCP_INPUT_SOURCE, input_code(source))),
        HardwareJob::SetPowerMode { mode, .. } => Some((VCP_POWER_MODE, power_code(mode))),
        HardwareJob::SetCustomVcp { code, value, .. } => Some((code, value)),
        _ => None,
    }
}

/// The feature code and offset of a job that moves a feature by an offset.
pub open spec fn job_offset(job: HardwareJob) -> Option<(u8, i32)> {
    match job {
        HardwareJob::OffsetBrightness { offset, .. } => Some((VCP_BRIGHTNESS, offset)),
        HardwareJob::OffsetContrast { offset, .. } => Some((VCP_CONTRAST, offset)),
        HardwareJob::OffsetCustomVcp { code, offset, .. } => Some((code, offset)),
        _ => None,
    }
}

/// What a job reports once `value` was written to the monitor with `key`.
pub open spec fn applied(job: HardwareJob, key: MonitorKey, value: u16) -> HardwareOutcome {
    match job {
        HardwareJob::SetBrightness { .. } | HardwareJob::OffsetBrightness { .. } => HardwareOutcome::BrightnessApplied {
            monitor_id: key,
            value,
        },
        HardwareJob::SetContrast { .. } | HardwareJob::OffsetContrast { .. } => HardwareOutcome::ContrastApplied {
            monitor_id: key,
            value,
        },
        HardwareJob::SetInputSource { source, .. } => HardwareOutcome::InputSourceApplied { monitor_id: key, source },
        HardwareJob::SetPowerMode { mode, .. } => HardwareOutcome::PowerModeApplied { monitor_id: key, mode },
        HardwareJob::SetCustomVcp { code, .. } | HardwareJob::OffsetCustomVcp { code, .. } =>
            HardwareOutcome::CustomVcpApplied { monitor_id: key, code, value },
        _ => HardwareOutcome::MonitorsPoweredOff,
    }
}

/// `r` is a job's result once the transport answered `reply` to the write of
/// `value`: the applied outcome, or the job's error prefix and the reply's text.
pub open spec fn write_result(
    job: HardwareJob,
    key: MonitorKey,
    value: u16,
    reply: Result<(), DdcError>,
    r: Result<HardwareOutcome, String>,
) -> bool {
    match reply {
        Ok(_) => r == Ok::<HardwareOutcome, String>(applied(job, key, value)),
        Err(e) => r matches Err(m) && m@ == job_error_prefix(job) + ddc_error_text(e),
    }
}

/// `r` is the result of running monitor job `job`, bound to `key`, on a
/// session with `endpoints`, which made the transport calls `t`.
pub open spec fn job_run<M>(
    job: HardwareJob,
    key: Option<MonitorKey>,
    endpoints: Seq<Endpoint<M>>,
    t: Seq<(MonitorKey, VcpCall)>,
    r: Result<HardwareOutcome, String>,
) -> bool {
    if job is SoftTurnOff {
        t.len() == 0 && r == Ok::<HardwareOutcome, String>(HardwareOutcome::MonitorsPoweredOff)
    } else {
        match key {
            None => t.len() == 0 && (r matches Err(m) && m@ == "Missing stable monitor binding"@),
            Some(k) => if !endpoint_resolvable(endpoints, k) {
                t.len() == 0 && (r matches Err(m) && exists|e: DdcError|
                    #[trigger] refused(endpoints, k, e) && m@ == job_error_prefix(job) + ddc_error_text(e))
            } else {
                match job_write(job) {
                    Some(w) => t.len() == 1 && t[0].0 == k && t[0].1 is Write && t[0].1->Write_0 == w.0
                        && t[0].1->Write_1 == w.1 && write_result(job, k, w.1, t[0].1->Write_2, r),
                    None => match job_offset(job) {
                        Some(o) => exists|res: Result<u16, DdcError>|
                            #[trigger] offset_trace(k, o.0, o.1, t, res) && match res {
                                Ok(v) => r == Ok::<HardwareOutcome, String>(applied(job, k, v)),
                                Err(e) => r matches Err(m) && m@ == job_error_prefix(job) + ddc_error_text(e),
                            },
                        None => false,
                    },
                }
            },
        }
    }
}

/// The feature code and value a job writes as it is (see [`job_write`]).
pub fn vcp_write_of(job: &HardwareJob) -> (r: Option<(u8, u16)>)
    ensures
        r == job_write(*job),
{
    match job {
        HardwareJob::SetBrightness { value, .. } => Some((VCP_BRIGHTNESS, *value)),
        HardwareJob::SetContrast { value, .. } => Some((VCP_CONTRAST, *value)),
        HardwareJob::SetInputSource { source, .. } => Some((VCP_INPUT_SOURCE, source.vcp_value())),
        HardwareJob::SetPowerMode { mode, .. } => Some((VCP_POWER_MODE, mode.vcp_value())),
        HardwareJob::SetCustomVcp { code, value, .. } => Some((*code, *value)),
        _ => None,
    }
}

/// The feature code and offset of an offset job (see [`job_offset`]).
pub fn vcp_offset_of(job: &HardwareJob) -> (r: Option<(u8, i32)>)
    ensures
        r == job_offset(*job),
{
    match job {
        HardwareJob::OffsetBrightness { offset, .. } => Some((VCP_BRIGHTNESS, *offset)),
        HardwareJob::OffsetContrast { offset, .. } => Some((VCP_CONTRAST, *offset)),
        HardwareJob::OffsetCustomVcp { code, offset, .. } => Some((*code, *offset)),
        _ => None,
    }
}

/// What a job reports once `value` was written (see [`applied`]).
fn applied_outcome(job: &HardwareJob, key: MonitorKey, value: u16) -> (r: HardwareOutcome)
    ensures
        r == applied(*job, key, value),
{
    match job {
        HardwareJob::SetBrightness { .. } | HardwareJob::OffsetBrightness { .. } => HardwareOutcome::BrightnessApplied {
            monitor_id: key,
            value,
        },
        HardwareJob::SetContrast { .. } | HardwareJob::OffsetContrast { .. } => HardwareOutcome::ContrastApplied {
            monitor_id: key,
            value,
        },
        HardwareJob::SetInputSource { source, .. } => HardwareOutcome::InputSourceApplied {
            monitor_id: key,
            source: *source,
        },
        HardwareJob::SetPowerMode { mode, .. } => HardwareOutcome::PowerModeApplied { monitor_id: key, mode: *mode },
        HardwareJob::SetCustomVcp { code, .. } | HardwareJob::OffsetCustomVcp { code, .. } =>
            HardwareOutcome::CustomVcpApplied { monitor_id: key, code: *code, value },
        _ => HardwareOutcome::MonitorsPoweredOff,
    }
}

/// The prefix of a failed write's error (see [`job_error_prefix`]).
fn error_prefix(job: &HardwareJob) -> (r: &'static str)
    ensures
        r@ == job_error_prefix(*job),
{
    match job {
        HardwareJob::SetBrightness { .. } | HardwareJob::OffsetBrightness { .. } => "Brightness error: ",
        HardwareJob::SetContrast { .. } | HardwareJob::OffsetContrast { .. } => "Contrast error: ",
        HardwareJob::SetInputSource { .. } => "Input source error: ",
        HardwareJob::SetPowerMode { .. } => "Power mode error: ",
        HardwareJob::SetCustomVcp { .. } | HardwareJob::OffsetCustomVcp { .. } => "Custom VCP error: ",
        _ => {
            proof {
                reveal_strlit("");
            }
            ""
        },
    }
}

/// The text of a monitor job refused because its batch's first monitor job
/// did not pass its preflight.
pub open spec fn blocked_text() -> Seq<char> {
    "Monitor batch blocked: initial selection preflight did not succeed"@
}

proof fn lemma_run_result<M>(
    job: HardwareJob,
    key: Option<MonitorKey>,
    endpoints: Seq<Endpoint<M>>,
    t: Seq<(MonitorKey, VcpCall)>,
    r: Result<HardwareOutcome, String>,
)
    requires
        job_run(job, key, endpoints, t, r),
        !profile_job(job),
    ensures
        r matches Ok(o) ==> match job {
            HardwareJob::SoftTurnOff { .. } => o == HardwareOutcome::MonitorsPoweredOff,
            _ => key matches Some(k) && monitor_outcome(job, k, o),
        },
        r matches Err(e) ==> (key is None && e@ == "Missing stable monitor binding"@) || exists|de: DdcError|
            e@ == job_error_prefix(job) + ddc_error_text(de),
        job is SoftTurnOff ==> r == Ok::<HardwareOutcome, String>(HardwareOutcome::MonitorsPoweredOff),
{
    if !(job is SoftTurnOff) && key is Some && endpoint_resolvable(endpoints, key->0) && job_write(job) is None {
        let k = key->0;
        let o = job_offset(job)->0;
        let res = choose|res: Result<u16, DdcError>|
            #[trigger] offset_trace(k, o.0, o.1, t, res) && match res {
                Ok(v) => r == Ok::<HardwareOutcome, String>(applied(job, k, v)),
                Err(e) => r matches Err(m) && m@ == job_error_prefix(job) + ddc_error_text(e),
            };
        if res is Ok {
            let reading = t[0].1->Read_1->Ok_0;
            assert(offset_target(reading.0, reading.1, o.1) == Some(res->Ok_0));
        }
    }
}

impl PreparedJob {
    /// Let this job run only when it starts its batch's preflight, or the
    /// batch's preflight passed (`batch_passed`).
    pub fn may_run(&self, batch_passed: bool) -> (r: Result<(), String>)
        ensures
            r is Ok <==> (self.preflight_view() || batch_passed),
            r matches Err(e) ==> e@ == blocked_text(),
    {
        if !self.starts_preflight && !batch_passed {
            return Err(String::from_str("Monitor batch blocked: initial selection preflight did not succeed"));
        }
        Ok(())
    }

    /// Run this monitor job on an open session. A Windows sleep calls
    /// `soft_off` and touches no monitor; any other job makes exactly the
    /// write its feature needs (for an offset: the read, then the write of
    /// the clamped value) on the monitor it is bound to, and reports what the
    /// transport answered.
    pub fn run_on_session<M: Vcp, S: FnOnce()>(&self, session: &mut Session<M>, soft_off: S) -> (r: Result<
        HardwareOutcome,
        String,
    >)
        requires
            !profile_job(self.job_view()),
            call_requires(soft_off, ()),
        ensures
            old(session).calls().len() <= final(session).calls().len(),
            final(session).calls().subrange(0, old(session).calls().len() as int) == old(session).calls(),
            job_run(
                self.job_view(),
                self.key_view(),
                old(session).endpoint_seq(),
                final(session).calls().subrange(old(session).calls().len() as int, final(session).calls().len() as int),
                r,
            ),
            self.job_view() is SoftTurnOff ==> call_ensures(soft_off, (), ()),
    {
        let ghost start = session.calls();
        let ghost eps = session.endpoint_seq();
        if let HardwareJob::SoftTurnOff { .. } = &self.job {
            soft_off();
            proof {
                assert(session.calls().subrange(0, start.len() as int) =~= start);
                assert(session.calls().subrange(start.len() as int, start.len() as int) =~= Seq::<(MonitorKey, VcpCall)>::empty());
            }
            return Ok(HardwareOutcome::MonitorsPoweredOff);
        }
        let monitor_id = match &self.key {
            Some(k) => k.copy(),
            None => {
                proof {
                    assert(session.calls().subrange(0, start.len() as int) =~= start);
                    assert(session.calls().subrange(start.len() as int, start.len() as int) =~= Seq::<(MonitorKey, VcpCall)>::empty());
                }
                return Err(String::from_str("Missing stable monitor binding"));
            },
        };
        let prefix = error_prefix(&self.job);
        match vcp_write_of(&self.job) {
            Some((code, value)) => {
                let written = session.set_vcp(&monitor_id, code, value);
                let r = match written {
                    Ok(()) => Ok(applied_outcome(&self.job, monitor_id, value)),
                    Err(e) => Err(prefixed(prefix, e)),
                };
                proof {
                    let t = session.calls().subrange(start.len() as int, session.calls().len() as int);
                    assert(session.calls().subrange(0, start.len() as int) =~= start);
                    if endpoint_resolvable(eps, monitor_id) {
                        assert(t =~= seq![(monitor_id, VcpCall::Write(code, value, written))]);
                    } else {
                        assert(t =~= Seq::<(MonitorKey, VcpCall)>::empty());
                        let e = written->Err_0;
                        assert(refused(eps, monitor_id, e));
                    }
                }
                r
            },
            None => match vcp_offset_of(&self.job) {
                Some((code, offset)) => {
                    let moved = session.offset_vcp(&monitor_id, code, offset);
                    let r = match moved {
                        Ok(v) => Ok(applied_outcome(&self.job, monitor_id, v)),
                        Err(e) => Err(prefixed(prefix, e)),
                    };
                    proof {
                        let t = session.calls().subrange(start.len() as int, session.calls().len() as int);
                        if endpoint_resolvable(eps, monitor_id) {
                            assert(offset_trace(monitor_id, code, offset, t, moved));
                        } else {
                            assert(session.calls().subrange(0, start.len() as int) =~= start);
                            assert(t =~= Seq::<(MonitorKey, VcpCall)>::empty());
                            let e = moved->Err_0;
                            assert(refused(eps, monitor_id, e));
                        }
                    }
                    r
                },
                None => {
                    proof {
                        assert(false);
                    }
                    Err(String::from_str("Missing stable monitor binding"))
                },
            },
        }
    }

    /// Run a monitor job on a session opened for its required keys. A job
    /// that is not the batch's first monitor job only runs once that first
    /// job's preflight has passed; the first job records the pass. What the
    /// job writes is fixed by [`Self::run_on_session`]; whether the batch's
    /// preflight passed is read from the state the batch shares.
    pub fn execute_monitor_job<M: Vcp, O, S>(self, open: O, soft_off: S) -> (r: Result<
        HardwareOutcome,
        String,
    >)
        where
            O: FnOnce(&[MonitorKey]) -> Result<Session<M>, DdcError>,
            S: FnOnce(),
        requires
            !profile_job(self.job_view()),
            forall|keys: &[MonitorKey]| call_requires(open, (keys,)),
            call_requires(soft_off, ()),
        ensures
            r matches Ok(o) ==> match self.job_view() {
                HardwareJob::SoftTurnOff { .. } => o == HardwareOutcome::MonitorsPoweredOff,
                _ => self.key_view() matches Some(k) && monitor_outcome(self.job_view(), k, o),
            },
            r is Ok ==> exists|keys: &[MonitorKey], session: Session<M>|
                #[trigger] call_ensures(open, (keys,), Ok::<Session<M>, DdcError>(session)) && keys@
                    == self.required_view(),
            r is Ok ==> exists|keys: &[MonitorKey], session: Session<M>, t: Seq<(MonitorKey, VcpCall)>|
                #[trigger] call_ensures(open, (keys,), Ok::<Session<M>, DdcError>(session)) && keys@
                    == self.required_view() && #[trigger] job_run(self.job_view(), self.key_view(), session.endpoint_seq(), t, r),
            r matches Err(e) ==> {
                ||| !self.preflight_view() && e@ == blocked_text()
                ||| exists|keys: &[MonitorKey], de: DdcError|
                    #[trigger] call_ensures(open, (keys,), Err::<Session<M>, DdcError>(de)) && keys@
                        == self.required_view() && e@ == crate::ddc::ddc_error_text(de)
                ||| exists|keys: &[MonitorKey], session: Session<M>, t: Seq<(MonitorKey, VcpCall)>|
                    #[trigger] call_ensures(open, (keys,), Ok::<Session<M>, DdcError>(session)) && keys@
                        == self.required_view() && #[trigger] job_run(self.job_view(), self.key_view(), session.endpoint_seq(), t, r)
            },
            r matches Err(e) ==> {
                ||| !self.preflight_view() && e@
                    == "Monitor batch blocked: initial selection preflight did not succeed"@
                ||| exists|keys: &[MonitorKey], de: DdcError|
                    #[trigger] call_ensures(open, (keys,), Err::<Session<M>, DdcError>(de)) && keys@
                        == self.required_view() && e@ == crate::ddc::ddc_error_text(de)
                ||| self.key_view() is None && e@ == "Missing stable monitor binding"@
                ||| exists|de: DdcError| e@ == job_error_prefix(self.job_view()) + crate::ddc::ddc_error_text(de)
            },
            self.job_view() is SoftTurnOff && r is Err ==> {
                ||| !self.preflight_view() && r->Err_0@
                    == "Monitor batch blocked: initial selection preflight did not succeed"@
                ||| exists|keys: &[MonitorKey], de: DdcError|
                    #[trigger] call_ensures(open, (keys,), Err::<Session<M>, DdcError>(de)) && keys@
                        == self.required_view() && r->Err_0@ == crate::ddc::ddc_error_text(de)
            },
            self.job_view() is SoftTurnOff && r is Ok ==> call_ensures(soft_off, (), ()),
            self.preflight_view() && (forall|keys: &[MonitorKey], res: Result<Session<M>, DdcError>|
                #[trigger] call_ensures(open, (keys,), res) ==> res is Err) ==> r is Err && exists|
                keys: &[MonitorKey],
                de: DdcError,
            |
                #[trigger] call_ensures(open, (keys,), Err::<Session<M>, DdcError>(de)) && keys@
                    == self.required_view() && r->Err_0@ == crate::ddc::ddc_error_text(de),
            self.job_view() is SoftTurnOff && self.preflight_view() && (forall|
                keys: &[MonitorKey],
                res: Result<Session<M>, DdcError>,
            | #[trigger] call_ensures(open, (keys,), res) ==> res is Ok) ==> r == Ok::<HardwareOutcome, String>(
                HardwareOutcome::MonitorsPoweredOff,
            ),
    {
        let passed = if self.starts_preflight {
            true
        } else {
            flag_is_set(&self.preflight_passed)
        };
        match self.may_run(passed) {
            Ok(()) => {},
            Err(e) => return Err(e),
        }
        let mut session = match open(self.required.as_slice()) {
            Ok(session) => session,
            Err(e) => return Err(e.message()),
        };
        if self.starts_preflight {
            set_flag(&self.preflight_passed);
        }
        let ghost before = session;
        let r = self.run_on_session(&mut session, soft_off);
        proof {
            let t = session.calls().subrange(before.calls().len() as int, session.calls().len() as int);
            lemma_run_result(self.job_view(), self.key_view(), before.endpoint_seq(), t, r);
        }
        r
    }

    /// Run the job: profile jobs through `apply_profile` / `save_profile`,
    /// monitor jobs as [`PreparedJob::execute_monitor_job`] does.
    pub fn execute<M: Vcp, O, S, A, P>(
        self,
        open: O,
        soft_off: S,
        apply_profile: A,
        save_profile: P,
    ) -> (r: Result<HardwareOutcome, String>)
        where
            O: FnOnce(&[MonitorKey]) -> Result<Session<M>, DdcError>,
            S: FnOnce(),
            A: FnOnce(&String) -> Result<(), String>,
            P: FnOnce(&String, bool) -> Result<(), String>,
        requires
            forall|keys: &[MonitorKey]| call_requires(open, (keys,)),
            call_requires(soft_off, ()),
            forall|name: &String| call_requires(apply_profile, (name,)),
            forall|name: &String, replace: bool| call_requires(save_profile, (name, replace)),
        ensures
            r matches Ok(o) ==> match self.job_view() {
                HardwareJob::ApplyProfile { name } => o == HardwareOutcome::ProfileApplied { name },
                HardwareJob::SaveProfile { name, .. } => o == HardwareOutcome::ProfileSaved { name },
                HardwareJob::SoftTurnOff { .. } => o == HardwareOutcome::MonitorsPoweredOff,
                _ => self.key_view() matches Some(k) && monitor_outcome(self.job_view(), k, o),
            },
            self.job_view() matches HardwareJob::ApplyProfile { name } ==> exists|
                given: &String,
                applied: Result<(), String>,
            |
                #[trigger] call_ensures(apply_profile, (given,), applied) && *given == name && match applied {
                    Ok(()) => r == Ok::<HardwareOutcome, String>(HardwareOutcome::ProfileApplied { name }),
                    Err(e) => r matches Err(m) && m@ == "Apply profile error: "@ + e@,
                },
            self.job_view() matches HardwareJob::SaveProfile { name, replace } ==> exists|
                given: &String,
                saved: Result<(), String>,
            |
                #[trigger] call_ensures(save_profile, (given, replace), saved) && *given == name && match saved {
                    Ok(()) => r == Ok::<HardwareOutcome, String>(HardwareOutcome::ProfileSaved { name }),
                    Err(e) => r matches Err(m) && m@ == "Save profile error: "@ + e@,
                },
    {
        if let HardwareJob::ApplyProfile { name } = &self.job {
            match apply_profile(name) {
                Ok(()) => {},
                Err(e) => {
                    let mut s = String::from_str("Apply profile error: ");
                    s.append(e.as_str());
                    return Err(s);
                },
            }
            return Ok(HardwareOutcome::ProfileApplied { name: name.clone() });
        }
        if let HardwareJob::SaveProfile { name, replace } = &self.job {
            match save_profile(name, *replace) {
                Ok(()) => {},
                Err(e) => {
                    let mut s = String::from_str("Save profile error: ");
                    s.append(e.as_str());
                    return Err(s);
                },
            }
            return Ok(HardwareOutcome::ProfileSaved { name: name.clone() });
        }
        self.execute_monitor_job(open, soft_off)
    }
}

// ---------------------------------------------------------------------------
// From actions to jobs
// ---------------------------------------------------------------------------

/// An action that applies a profile (a topology barrier).
pub open spec fn profile_action(a: HotkeyActionSpec) -> bool {
    a.target == ActionTarget::Profile && a.action_type != ActionType::Off
}

/// Whether the action applies a profile.
pub fn is_profile(action: &HotkeyActionSpec) -> (r: bool)
    ensures
        r == profile_action(*action),
{
    action.target == ActionTarget::Profile && action.action_type != ActionType::Off
}

/// The explicit monitors of an action can all ever resolve: there is one,
/// each names a supported key, and none twice.
pub open spec fn binding_ok(a: HotkeyActionSpec) -> bool {
    let targets = explicit_spec(a);
    profile_action(a) || a.all_monitors || {
        &&& targets.len() > 0
        &&& forall|j: int|
            0 <= j < targets.len() ==> (#[trigger] targets[j] matches MonitorTarget::Stable(k)
                && key_supported(k@))
        &&& forall|j: int, k: int| 0 <= j < k < targets.len() ==> !same_target(#[trigger] targets[j], #[trigger] targets[k])
    }
}

/// Reject bindings that can never resolve before any action has side
/// effects. Whether stable targets are present is checked per segment.
#[verifier::loop_isolation(false)]
pub fn validate_action_bindings(actions: &[HotkeyActionSpec]) -> (r: Result<(), String>)
    ensures
        r is Ok <==> forall|i: int| 0 <= i < actions@.len() ==> binding_ok(#[trigger] actions@[i]),
{
    let mut i: usize = 0;
    while i < actions.len()
        invariant
            i <= actions@.len(),
            forall|q: int| 0 <= q < i ==> binding_ok(#[trigger] actions@[q]),
        decreases actions.len() - i,
    {
        let action = &actions[i];
        if is_profile(action) || action.all_monitors {
            i = i + 1;
            continue;
        }
        let targets = action.explicit_targets();
        if targets.len() == 0 {
            return Err(String::from_str("No target monitors selected"));
        }
        let mut j: usize = 0;
        while j < targets.len()
            invariant
                j <= targets@.len(),
                targets@ == explicit_spec(*action),
                forall|q: int| 0 <= q < j ==> (#[trigger] targets@[q] matches MonitorTarget::Stable(k)
                    && key_supported(k@)),
                forall|q: int, p: int| 0 <= q < p < j ==> !same_target(#[trigger] targets@[q], #[trigger] targets@[p]),
            decreases targets.len() - j,
        {
            match &targets[j] {
                MonitorTarget::LegacyIndex(_) => {
                    let mut s = targets[j].text();
                    s.append(": select Rebind or Remove in the hotkey editor");
                    return Err(s);
                },
                MonitorTarget::Stable(key) => {
                    if !key.is_supported() {
                        let mut s = String::from_str("Unsupported monitor key: ");
                        s.append(key.as_str());
                        return Err(s);
                    }
                },
            }
            let mut q: usize = 0;
            while q < j
                invariant
                    q <= j < targets@.len(),
                    forall|p: int| 0 <= p < q ==> !same_target(targets@[p], targets@[j as int]),
                decreases j - q,
            {
                if targets[q].same(&targets[j]) {
                    let mut s = String::from_str("Duplicate monitor assignment: ");
                    let t = targets[j].text();
                    s.append(t.as_str());
                    return Err(s);
                }
                q = q + 1;
            }
            j = j + 1;
        }
        i = i + 1;
    }
    Ok(())
}

/// The turn-off jobs for `ids` under `behavior`: one Windows sleep for all of
/// them first, then a DDC/CI power-off per monitor, as the behavior asks.
pub open spec fn turn_off_ok(jobs: Seq<HardwareJob>, behavior: TurnOffBehavior, ids: Seq<u32>) -> bool {
    let soft = behavior == TurnOffBehavior::Soft || behavior == TurnOffBehavior::Both;
    let ddc = behavior == TurnOffBehavior::Ddc || behavior == TurnOffBehavior::Both;
    let offset: int = if soft { 1 } else { 0 };
    &&& jobs.len() == offset + if ddc { ids.len() as int } else { 0 }
    &&& soft ==> (jobs[0] matches HardwareJob::SoftTurnOff { monitor_ids } && monitor_ids@ == ids)
    &&& ddc ==> forall|k: int|
        0 <= k < ids.len() ==> #[trigger] jobs[offset + k] == (HardwareJob::SetPowerMode {
            monitor_id: ids[k],
            mode: PowerMode::Off,
        })
}

fn copy_ids(ids: &[u32]) -> (r: Vec<u32>)
    ensures
        r@ == ids@,
{
    let mut r: Vec<u32> = Vec::new();
    let mut i: usize = 0;
    while i < ids.len()
        invariant
            i <= ids@.len(),
            r@ == ids@.subrange(0, i as int),
        decreases ids.len() - i,
    {
        r.push(ids[i]);
        proof {
            assert(ids@.subrange(0, i + 1) == ids@.subrange(0, i as int).push(ids@[i as int]));
        }
        i = i + 1;
    }
    proof {
        assert(ids@.subrange(0, ids@.len() as int) == ids@);
    }
    r
}

/// The jobs that turn off monitors `monitor_ids` (see [`turn_off_ok`]).
pub fn turn_off_jobs(behavior: TurnOffBehavior, monitor_ids: &[u32]) -> (r: Vec<HardwareJob>)
    ensures
        turn_off_ok(r@, behavior, monitor_ids@),
{
    let mut jobs: Vec<HardwareJob> = Vec::new();
    if behavior.uses_soft() {
        jobs.push(HardwareJob::SoftTurnOff { monitor_ids: copy_ids(monitor_ids) });
    }
    let offset = jobs.len();
    if behavior.uses_ddc() {
        let mut k: usize = 0;
        while k < monitor_ids.len()
            invariant
                k <= monitor_ids@.len(),
                offset <= 1,
                jobs@.len() == offset + k,
                offset == 1 ==> (jobs@[0] matches HardwareJob::SoftTurnOff { monitor_ids: m } && m@ == monitor_ids@),
                forall|q: int| 0 <= q < k ==> #[trigger] jobs@[offset + q] == (HardwareJob::SetPowerMode {
                    monitor_id: monitor_ids@[q],
                    mode: PowerMode::Off,
                }),
            decreases monitor_ids.len() - k,
        {
            jobs.push(HardwareJob::SetPowerMode { monitor_id: monitor_ids[k], mode: PowerMode::Off });
            k = k + 1;
        }
    }
    jobs
}

/// State `s` belongs to a monitor numbered `id`.
pub open spec fn state_for(states: Seq<MonitorState>, available: Seq<MonitorInfo>, id: u32, s: int) -> bool {
    0 <= s < states.len() && exists|i: int|
        0 <= i < available.len() && #[trigger] available[i].id == id && available[i].key@ == states[s].info.key@
}

/// The first state that belongs to a monitor numbered `id`.
pub open spec fn first_state(states: Seq<MonitorState>, available: Seq<MonitorInfo>, id: u32) -> int {
    choose|s: int| #[trigger] state_for(states, available, id, s) && forall|t: int|
        0 <= t < s ==> !#[trigger] state_for(states, available, id, t)
}

/// The largest value a Set action on `target` may write to monitor `id`: the
/// range read for its state, else 100 when no state is known.
pub open spec fn maximum_for(target: ActionTarget, states: Seq<MonitorState>, available: Seq<MonitorInfo>, id: u32) -> u16 {
    if exists|s: int| #[trigger] state_for(states, available, id, s) {
        let state = states[first_state(states, available, id)];
        match target {
            ActionTarget::Brightness => state.brightness_max,
            ActionTarget::Contrast => state.contrast_max,
            _ => u16::MAX,
        }
    } else {
        100
    }
}

/// `value` limited to `0..=maximum`.
pub open spec fn clamped(value: i32, maximum: u16) -> u16 {
    if value < 0 {
        0
    } else if value > maximum {
        maximum
    } else {
        value as u16
    }
}

/// The job an action makes for its `index`-th monitor, numbered `id`.
pub open spec fn action_job(a: HotkeyActionSpec, index: int, id: u32, maximum: u16) -> HardwareJob {
    match (a.target, a.action_type) {
        (ActionTarget::Brightness, ActionType::Offset) => HardwareJob::OffsetBrightness { monitor_id: id, offset: a.value },
        (ActionTarget::Brightness, _) => HardwareJob::SetBrightness { monitor_id: id, value: clamped(a.value, maximum) },
        (ActionTarget::Contrast, ActionType::Offset) => HardwareJob::OffsetContrast { monitor_id: id, offset: a.value },
        (ActionTarget::Contrast, _) => HardwareJob::SetContrast { monitor_id: id, value: clamped(a.value, maximum) },
        (ActionTarget::InputSource, _) => HardwareJob::SetInputSource {
            monitor_id: id,
            source: if a.all_monitors || a.monitor_inputs@.len() == 0 {
                a.input_source
            } else {
                a.monitor_inputs@[index].input_source
            },
        },
        (ActionTarget::PowerMode, _) => HardwareJob::SetPowerMode { monitor_id: id, mode: a.power_mode },
        (ActionTarget::CustomVcp, ActionType::Offset) => HardwareJob::OffsetCustomVcp {
            monitor_id: id,
            code: a.vcp_code,
            offset: a.value,
        },
        (_, _) => HardwareJob::SetCustomVcp {
            monitor_id: id,
            code: a.vcp_code,
            value: clamped(a.value, u16::MAX),
        },
    }
}

/// The display numbers an action resolves to, in target order.
pub open spec fn action_ids(a: HotkeyActionSpec, available: Seq<MonitorInfo>) -> Seq<u32> {
    action_targets(a, available).map_values(|t: MonitorTarget| target_id(t, available))
}

/// How many jobs an action makes.
pub open spec fn job_count(a: HotkeyActionSpec, behavior: TurnOffBehavior, available: Seq<MonitorInfo>) -> int {
    let n = action_targets(a, available).len() as int;
    if profile_action(a) {
        1
    } else if a.action_type == ActionType::Off {
        (if behavior == TurnOffBehavior::Soft || behavior == TurnOffBehavior::Both {
            1int
        } else {
            0int
        }) + (if behavior == TurnOffBehavior::Ddc || behavior == TurnOffBehavior::Both {
            n
        } else {
            0int
        })
    } else {
        n
    }
}

/// `jobs` are the jobs of one action.
pub open spec fn action_jobs_ok(
    jobs: Seq<HardwareJob>,
    a: HotkeyActionSpec,
    behavior: TurnOffBehavior,
    available: Seq<MonitorInfo>,
    states: Seq<MonitorState>,
) -> bool {
    let ids = action_ids(a, available);
    if profile_action(a) {
        jobs == seq![HardwareJob::ApplyProfile { name: a.profile_name }]
    } else if a.action_type == ActionType::Off {
        turn_off_ok(jobs, behavior, ids)
    } else {
        &&& jobs.len() == ids.len()
        &&& forall|k: int|
            0 <= k < ids.len() ==> #[trigger] jobs[k] == action_job(
                a,
                k,
                ids[k],
                maximum_for(a.target, states, available, ids[k]),
            )
    }
}

/// `jobs` are the jobs of `actions`, one action after the other.
pub open spec fn segment_jobs_ok(
    jobs: Seq<HardwareJob>,
    actions: Seq<HotkeyActionSpec>,
    behavior: TurnOffBehavior,
    available: Seq<MonitorInfo>,
    states: Seq<MonitorState>,
) -> bool
    decreases actions.len(),
{
    if actions.len() == 0 {
        jobs.len() == 0
    } else {
        let n = job_count(actions.last(), behavior, available);
        &&& 0 <= n <= jobs.len()
        &&& segment_jobs_ok(jobs.subrange(0, jobs.len() - n), actions.drop_last(), behavior, available, states)
        &&& action_jobs_ok(jobs.subrange(jobs.len() - n, jobs.len() as int), actions.last(), behavior, available, states)
    }
}

/// Every action that is not a profile application resolves its monitors.
pub open spec fn actions_resolve(actions: Seq<HotkeyActionSpec>, available: Seq<MonitorInfo>) -> bool {
    forall|i: int|
        0 <= i < actions.len() && !profile_action(#[trigger] actions[i]) ==> targets_resolve(
            action_targets(actions[i], available),
            available,
        )
}

/// The limit for a Set action on `target` to monitor `id` (see [`maximum_for`]).
fn maximum_of(target: ActionTarget, states: &[MonitorState], available: &[MonitorInfo], id: u32) -> (r: u16)
    ensures
        r == maximum_for(target, states@, available@, id),
{
    let mut s: usize = 0;
    while s < states.len()
        invariant
            s <= states@.len(),
            forall|t: int| 0 <= t < s ==> !#[trigger] state_for(states@, available@, id, t),
        decreases states.len() - s,
    {
        let mut i: usize = 0;
        let mut found = false;
        while i < available.len()
            invariant
                i <= available@.len(),
                s < states@.len(),
                !found ==> forall|q: int| 0 <= q < i ==> !(#[trigger] available@[q].id == id
                    && available@[q].key@ == states@[s as int].info.key@),
                found ==> state_for(states@, available@, id, s as int),
            decreases available.len() - i,
        {
            if available[i].id == id && same_key(&available[i].key, &states[s].info.key) {
                found = true;
            }
            i = i + 1;
        }
        if found {
            proof {
                assert(state_for(states@, available@, id, s as int));
                let f = first_state(states@, available@, id);
                if f != s {
                    if f < s {
                    } else {
                        assert(state_for(states@, available@, id, f));
                    }
                }
            }
            return match target {
                ActionTarget::Brightness => states[s].brightness_max,
                ActionTarget::Contrast => states[s].contrast_max,
                _ => 0xFFFF,
            };
        }
        s = s + 1;
    }
    100
}

fn clamp_value(value: i32, maximum: u16) -> (r: u16)
    ensures
        r == clamped(value, maximum),
{
    if value < 0 {
        0
    } else if value > maximum as i32 {
        maximum
    } else {
        value as u16
    }
}

proof fn lemma_segment_extend(
    before: Seq<HardwareJob>,
    seg: Seq<HardwareJob>,
    actions: Seq<HotkeyActionSpec>,
    i: int,
    behavior: TurnOffBehavior,
    available: Seq<MonitorInfo>,
    states: Seq<MonitorState>,
)
    requires
        0 <= i < actions.len(),
        segment_jobs_ok(before, actions.subrange(0, i), behavior, available, states),
        action_jobs_ok(seg, actions[i], behavior, available, states),
        seg.len() == job_count(actions[i], behavior, available),
    ensures
        segment_jobs_ok(before + seg, actions.subrange(0, i + 1), behavior, available, states),
{
    let all = before + seg;
    let prefix = actions.subrange(0, i + 1);
    assert(prefix.last() == actions[i]);
    assert(prefix.drop_last() == actions.subrange(0, i));
    assert(all.subrange(0, all.len() - seg.len()) == before);
    assert(all.subrange(all.len() - seg.len(), all.len() as int) == seg);
}

/// Turn one segment of an action chain into jobs: a profile action applies
/// the profile; every other action resolves its monitors as a whole first
/// and then makes one job per monitor, or the turn-off jobs. The coordinator
/// splits chains at profile applications.
#[verifier::loop_isolation(false)]
pub fn resolve_actions(
    actions: Vec<HotkeyActionSpec>,
    behavior: TurnOffBehavior,
    available: &[MonitorInfo],
    states: &[MonitorState],
) -> (r: Result<Vec<HardwareJob>, String>)
    ensures
        r is Ok <==> actions_resolve(actions@, available@),
        r matches Ok(jobs) ==> segment_jobs_ok(jobs@, actions@, behavior, available@, states@),
{
    let mut jobs: Vec<HardwareJob> = Vec::new();
    let mut i: usize = 0;
    proof {
        assert(actions@.subrange(0, 0).len() == 0);
    }
    while i < actions.len()
        invariant
            i <= actions@.len(),
            segment_jobs_ok(jobs@, actions@.subrange(0, i as int), behavior, available@, states@),
            forall|q: int|
                0 <= q < i && !profile_action(#[trigger] actions@[q]) ==> targets_resolve(
                    action_targets(actions@[q], available@),
                    available@,
                ),
        decreases actions.len() - i,
    {
        let action = &actions[i];
        let ghost before = jobs@;
        if is_profile(action) {
            let job = HardwareJob::ApplyProfile { name: action.profile_name.clone() };
            jobs.push(job);
            proof {
                assert(jobs@ == before + seq![HardwareJob::ApplyProfile { name: action.profile_name }]);
                lemma_segment_extend(before, seq![HardwareJob::ApplyProfile { name: action.profile_name }], actions@, i as int, behavior, available@, states@);
            }
        } else {
            let ids = match action.resolve_monitors(available) {
                Ok(ids) => ids,
                Err(e) => return Err(e),
            };
            proof {
                let targets = action_targets(*action, available@);
                assert forall|j: int| 0 <= j < ids@.len() implies ids@[j] == target_id(targets[j], available@) by {
                    assert(crate::config::resolved_id(targets, available@, j, ids@[j]));
                }
                assert(ids@ =~= action_ids(*action, available@));
            }
            if action.action_type == ActionType::Off {
                let mut off = turn_off_jobs(behavior, ids.as_slice());
                let ghost seg = off@;
                jobs.append(&mut off);
                proof {
                    lemma_segment_extend(before, seg, actions@, i as int, behavior, available@, states@);
                }
            } else {
                let mut k: usize = 0;
                while k < ids.len()
                    invariant
                        k <= ids@.len(),
                        ids@ == action_ids(*action, available@),
                        jobs@.len() == before.len() + k,
                        jobs@.subrange(0, before.len() as int) == before,
                        forall|q: int| 0 <= q < k ==> #[trigger] jobs@[before.len() + q] == action_job(
                            *action,
                            q,
                            ids@[q],
                            maximum_for(action.target, states@, available@, ids@[q]),
                        ),
                    decreases ids.len() - k,
                {
                    let id = ids[k];
                    let maximum = maximum_of(action.target, states, available, id);
                    proof {
                        if action.target == ActionTarget::InputSource && !action.all_monitors
                            && action.monitor_inputs@.len() > 0 {
                            assert(action_targets(*action, available@) == explicit_spec(*action));
                            assert(ids@.len() == action.monitor_inputs@.len());
                        }
                    }
                    let job = match (action.target, action.action_type) {
                        (ActionTarget::Brightness, ActionType::Offset) => HardwareJob::OffsetBrightness {
                            monitor_id: id,
                            offset: action.value,
                        },
                        (ActionTarget::Brightness, _) => HardwareJob::SetBrightness {
                            monitor_id: id,
                            value: clamp_value(action.value, maximum),
                        },
                        (ActionTarget::Contrast, ActionType::Offset) => HardwareJob::OffsetContrast {
                            monitor_id: id,
                            offset: action.value,
                        },
                        (ActionTarget::Contrast, _) => HardwareJob::SetContrast {
                            monitor_id: id,
                            value: clamp_value(action.value, maximum),
                        },
                        (ActionTarget::InputSource, _) => HardwareJob::SetInputSource {
                            monitor_id: id,
                            source: if action.all_monitors || action.monitor_inputs.len() == 0 {
                                action.input_source
                            } else {
                                action.monitor_inputs[k].input_source
                            },
                        },
                        (ActionTarget::PowerMode, _) => HardwareJob::SetPowerMode {
                            monitor_id: id,
                            mode: action.power_mode,
                        },
                        (ActionTarget::CustomVcp, ActionType::Offset) => HardwareJob::OffsetCustomVcp {
                            monitor_id: id,
                            code: action.vcp_code,
                            offset: action.value,
                        },
                        (_, _) => HardwareJob::SetCustomVcp {
                            monitor_id: id,
                            code: action.vcp_code,
                            value: clamp_value(action.value, 0xFFFF),
                        },
                    };
                    jobs.push(job);
                    k = k + 1;
                }
                proof {
                    let seg = jobs@.subrange(before.len() as int, jobs@.len() as int);
                    assert(jobs@ == before + seg);
                    assert forall|q: int| 0 <= q < ids@.len() implies #[trigger] seg[q] == action_job(
                        *action,
                        q,
                        ids@[q],
                        maximum_for(action.target, states@, available@, ids@[q]),
                    ) by {
                        assert(seg[q] == jobs@[before.len() + q]);
                    }
                    lemma_segment_extend(before, seg, actions@, i as int, behavior, available@, states@);
                }
            }
        }
        i = i + 1;
    }
    proof {
        assert(actions@.subrange(0, actions@.len() as int) == actions@);
    }
    Ok(jobs)
}

// ---------------------------------------------------------------------------
// The FIFO executor
// ---------------------------------------------------------------------------

/// Runs queued jobs one at a time, in the order they were queued.
#[derive(Debug)]
pub struct ActionExecutor<Job> {
    pending: VecDeque<Job>,
    active: Option<Job>,
}

impl<Job> Default for ActionExecutor<Job> {
    fn default() -> (r: ActionExecutor<Job>)
        ensures
            r.pending_view().len() == 0,
            r.active_view() is None,
    {
        ActionExecutor { pending: VecDeque::new(), active: None }
    }
}

impl<Job> ActionExecutor<Job> {
    /// The queued jobs, in execution order.
    pub closed spec fn pending_view(&self) -> Seq<Job> {
        self.pending@
    }

    /// The job in flight.
    pub closed spec fn active_view(&self) -> Option<Job> {
        self.active
    }

    /// Queue `jobs` after the pending ones.
    pub fn extend(&mut self, jobs: Vec<Job>)
        ensures
            final(self).pending_view() == old(self).pending_view() + jobs@,
            final(self).active_view() == old(self).active_view(),
    {
        let mut rest = jobs;
        let ghost all = rest@;
        let ghost start = self.pending@;
        let n = rest.len();
        let mut i: usize = 0;
        while i < n
            invariant
                n == all.len(),
                i <= n,
                rest@ == all.subrange(i as int, n as int),
                self.pending@ == start + all.subrange(0, i as int),
                self.active == old(self).active,
            decreases n - i,
        {
            let job = rest.remove(0);
            proof {
                assert(job == all[i as int]);
                assert(all.subrange(0, i + 1) == all.subrange(0, i as int).push(job));
                assert(rest@ == all.subrange(i + 1, n as int));
            }
            self.pending.push_back(job);
            proof {
                assert(self.pending@ == start + all.subrange(0, i + 1));
            }
            i = i + 1;
        }
        proof {
            assert(all.subrange(0, n as int) == all);
        }
    }

    /// Queue `jobs` before the pending ones.
    pub fn prepend(&mut self, jobs: Vec<Job>)
        ensures
            final(self).pending_view() == jobs@ + old(self).pending_view(),
            final(self).active_view() == old(self).active_view(),
    {
        let mut rest = jobs;
        let ghost all = rest@;
        let ghost start = self.pending@;
        while rest.len() > 0
            invariant
                rest@.len() <= all.len(),
                rest@ == all.subrange(0, rest@.len() as int),
                self.pending@ == all.subrange(rest@.len() as int, all.len() as int) + start,
                self.active == old(self).active,
            decreases rest@.len(),
        {
            let ghost k = rest@.len() as int;
            let job = rest.pop().unwrap();
            proof {
                assert(job == all[k - 1]);
                assert(rest@ == all.subrange(0, k - 1));
            }
            self.pending.push_front(job);
            proof {
                assert(all.subrange(k - 1, all.len() as int) == seq![job] + all.subrange(k, all.len() as int));
                assert(self.pending@ == all.subrange(k - 1, all.len() as int) + start);
            }
        }
        proof {
            assert(all.subrange(0, all.len() as int) == all);
        }
    }

    /// Drop every job that has not started.
    pub fn clear_pending(&mut self)
        ensures
            final(self).pending_view().len() == 0,
            final(self).active_view() == old(self).active_view(),
    {
        self.pending.clear();
    }

    /// Start the next job, unless one is in flight: the first pending job
    /// leaves the queue and is returned; the executor keeps a clone as the
    /// job in flight.
    pub fn start_next(&mut self) -> (r: Option<Job>)
        where
            Job: Clone,
        ensures
            old(self).active_view() is Some || old(self).pending_view().len() == 0 ==> r is None
                && final(self).pending_view() == old(self).pending_view() && final(self).active_view()
                == old(self).active_view(),
            old(self).active_view() is None && old(self).pending_view().len() > 0 ==> {
                &&& r == Some(old(self).pending_view()[0])
                &&& final(self).pending_view() == old(self).pending_view().drop_first()
                &&& final(self).active_view() matches Some(a) && cloned::<Job>(old(self).pending_view()[0], a)
            },
    {
        if self.active.is_some() {
            return None;
        }
        let job = match self.pending.pop_front() {
            Some(job) => job,
            None => return None,
        };
        self.active = Some(job.clone());
        proof {
            assert(old(self).pending_view().drop_first() == old(self).pending@.subrange(1, old(self).pending@.len() as int));
        }
        Some(job)
    }

    /// Outstanding jobs in execution order, the in-flight job first.
    pub fn outstanding(&self) -> (r: Vec<&Job>)
        ensures
            r@.len() == self.pending_view().len() + if self.active_view() is Some {
                1int
            } else {
                0int
            },
            self.active_view() matches Some(a) ==> *r@[0] == a,
            forall|i: int|
                0 <= i < self.pending_view().len() ==> *r@[i + if self.active_view() is Some {
                    1int
                } else {
                    0int
                }] == self.pending_view()[i],
    {
        let mut r: Vec<&Job> = Vec::new();
        if let Some(a) = &self.active {
            r.push(a);
        }
        let offset = r.len();
        let mut i: usize = 0;
        while i < self.pending.len()
            invariant
                i <= self.pending@.len(),
                offset == if self.active is Some {
                    1usize
                } else {
                    0usize
                },
                r@.len() == offset + i,
                self.active matches Some(a) ==> *r@[0] == a,
                forall|q: int| 0 <= q < i ==> *r@[offset + q] == self.pending@[q],
            decreases self.pending.len() - i,
        {
            r.push(&self.pending[i]);
            i = i + 1;
        }
        r
    }

    /// The job in flight finished.
    pub fn complete_active(&mut self)
        ensures
            final(self).active_view() is None,
            final(self).pending_view() == old(self).pending_view(),
    {
        self.active = None;
    }

    /// Nothing is in flight or queued.
    pub fn is_idle(&self) -> (r: bool)
        ensures
            r == (self.active_view() is None && self.pending_view().len() == 0),
    {
        self.active.is_none() && self.pending.len() == 0
    }
}

} // verus!
