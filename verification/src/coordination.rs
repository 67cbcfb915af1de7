//! One FIFO for monitor discovery, reads, writes and deferred hotkey segments.
//! Only the coordinator dispatches hardware work or accepts its results, and
//! it refuses results that belong to an older topology or an older revision.
use vstd::prelude::*;
use crate::actions::{
    ActionExecutor, HardwareJob, HardwareOutcome, PreparedJob, is_profile, prepare_jobs,
    resolve_actions, validate_action_bindings, binding_ok, profile_action, actions_resolve,
};
use crate::config::{HotkeyActionSpec, MonitorTarget, TurnOffBehavior, resolvable};
use crate::ddc::{MonitorInfo, MonitorKey, MonitorState, same_key};

verus! {

/// An entry of the FIFO.
#[derive(Clone, Debug)]
pub enum Queued {
    Discover(u64),
    Read(u64, MonitorInfo),
    Write(PreparedJob),
    Segment(Vec<HotkeyActionSpec>, TurnOffBehavior),
    Rejected(String),
}

/// What a dispatched piece of work does.
#[derive(Clone, Debug)]
pub enum Operation {
    Discover,
    Read(MonitorInfo),
    Write(PreparedJob),
    Rejected(String),
}

/// Work handed to the hardware task.
#[derive(Clone, Debug)]
pub struct Work {
    pub id: u64,
    pub generation: u64,
    pub revision: Option<(MonitorKey, u64)>,
    pub operation: Operation,
}

/// What the hardware task produced.
#[derive(Clone, Debug)]
pub enum HardwareResult {
    Discovered(Vec<MonitorInfo>),
    Read(Box<MonitorState>),
    Applied(HardwareOutcome),
}

/// The hardware operations the single blocking task performs. Implementations
/// own any OS handles locally; none enter the coordinator.
pub trait HardwareBackend {
    fn discover(&mut self) -> Result<Vec<MonitorInfo>, String>;

    fn read(&mut self, info: MonitorInfo) -> Result<MonitorState, String>;

    fn apply(&mut self, job: PreparedJob) -> Result<HardwareOutcome, String>;
}

impl Work {
    /// Perform the work on `backend`; rejected work fails with its reason.
    pub fn execute<B: HardwareBackend>(self, backend: &mut B) -> (r: Result<HardwareResult, String>)
        ensures
            self.operation matches Operation::Rejected(e) ==> r == Err::<HardwareResult, String>(e),
            self.operation is Discover && r is Ok ==> r->Ok_0 is Discovered,
            self.operation is Read && r is Ok ==> r->Ok_0 is Read,
            self.operation is Write && r is Ok ==> r->Ok_0 is Applied,
    {
        match self.operation {
            Operation::Discover => match backend.discover() {
                Ok(infos) => Ok(HardwareResult::Discovered(infos)),
                Err(e) => Err(e),
            },
            Operation::Read(info) => match backend.read(info) {
                Ok(state) => Ok(HardwareResult::Read(Box::new(state))),
                Err(e) => Err(e),
            },
            Operation::Write(job) => match backend.apply(job) {
                Ok(outcome) => Ok(HardwareResult::Applied(outcome)),
                Err(e) => Err(e),
            },
            Operation::Rejected(error) => Err(error),
        }
    }
}

/// What finishing a piece of work meant.
#[derive(Debug)]
pub enum QueueEvent {
    /// The result was stale or belonged to no active work.
    Ignored,
    Discovered(Result<Vec<MonitorInfo>, String>),
    Read(MonitorKey, Result<Box<MonitorState>, String>),
    Applied(Result<HardwareOutcome, String>),
}

/// What the coordinator remembers of the work in flight.
#[derive(Debug)]
pub enum ActiveKind {
    Discover,
    Read(MonitorKey),
    Write { key: Option<MonitorKey>, applies_profile: bool },
    Rejected(String),
}

/// The work in flight.
#[derive(Debug)]
pub struct ActiveWork {
    pub id: u64,
    pub generation: u64,
    pub revision: Option<(MonitorKey, u64)>,
    pub kind: ActiveKind,
}

/// One FIFO for discovery, reads, writes and deferred hotkey segments.
pub struct HardwareCoordinator {
    executor: ActionExecutor<Queued>,
    active: Option<ActiveWork>,
    sequence: u64,
    generation: u64,
    available: Vec<MonitorInfo>,
    ready: bool,
    revisions: Vec<(MonitorKey, u64)>,
}

/// The latest dispatch revision recorded for `key`.
pub open spec fn revision_of(revisions: Seq<(MonitorKey, u64)>, key: MonitorKey) -> Option<u64> {
    if exists|i: int| 0 <= i < revisions.len() && #[trigger] revisions[i].0@ == key@ {
        Some(revisions[choose|i: int| 0 <= i < revisions.len() && #[trigger] revisions[i].0@ == key@].1)
    } else {
        None
    }
}

/// No key appears twice among the revisions.
pub open spec fn revisions_unique(revisions: Seq<(MonitorKey, u64)>) -> bool {
    forall|i: int, j: int|
        0 <= i < j < revisions.len() ==> (#[trigger] revisions[i]).0@ != (#[trigger] revisions[j]).0@
}

/// Some available monitor carries `key`.
pub open spec fn key_available(available: Seq<MonitorInfo>, key: MonitorKey) -> bool {
    exists|i: int| 0 <= i < available.len() && #[trigger] available[i].key@ == key@
}

/// Exactly one available monitor has display number `id`.
pub open spec fn single_number(available: Seq<MonitorInfo>, id: u32) -> bool {
    exists|i: int|
        0 <= i < available.len() && #[trigger] available[i].id == id && forall|j: int|
            0 <= j < available.len() && #[trigger] available[j].id == id ==> j == i
}

impl HardwareCoordinator {
    /// The topology generation.
    pub closed spec fn generation_view(&self) -> u64 {
        self.generation
    }

    /// The last dispatched work id.
    pub closed spec fn sequence_view(&self) -> u64 {
        self.sequence
    }

    /// The monitors of the current topology (empty until discovery finished).
    pub closed spec fn available_view(&self) -> Seq<MonitorInfo> {
        self.available@
    }

    /// Whether discovery of the current topology finished.
    pub closed spec fn ready_view(&self) -> bool {
        self.ready
    }

    /// The queued entries.
    pub closed spec fn queue_view(&self) -> Seq<Queued> {
        self.executor.pending_view()
    }

    /// The id of the work in flight.
    pub closed spec fn active_id(&self) -> Option<u64> {
        match self.active {
            Some(w) => Some(w.id),
            None => None,
        }
    }

    /// The latest revision dispatched for `key`.
    pub closed spec fn revision_view(&self, key: MonitorKey) -> Option<u64> {
        revision_of(self.revisions@, key)
    }

    /// The work in flight.
    pub closed spec fn active_view(&self) -> Option<ActiveWork> {
        self.active
    }

    /// Work `id` is in flight and its result would still be current.
    pub open spec fn active_current(&self, id: u64) -> bool {
        self.active_view() matches Some(w) && w.id == id && current_result(
            self.generation_view(),
            self.available_view(),
            |k: MonitorKey| self.revision_view(k),
            w.generation,
            w.revision,
        )
    }

    /// Work `id` is in flight but its result is no longer current.
    pub open spec fn active_stale(&self, id: u64) -> bool {
        self.active_view() matches Some(w) && w.id == id && !current_result(
            self.generation_view(),
            self.available_view(),
            |k: MonitorKey| self.revision_view(k),
            w.generation,
            w.revision,
        )
    }

    /// The internal consistency the coordinator keeps.
    pub closed spec fn wf(&self) -> bool {
        &&& revisions_unique(self.revisions@)
        &&& (self.active is Some <==> self.executor.active_view() is Some)
        &&& self.active matches Some(w) ==> w.id == self.sequence
        &&& self.active matches Some(w) ==> w.generation <= self.generation
    }

    /// An idle coordinator with no topology yet.
    pub fn new() -> (r: HardwareCoordinator)
        ensures
            r.wf(),
            r.generation_view() == 0,
            r.sequence_view() == 0,
            !r.ready_view(),
            r.available_view().len() == 0,
            r.queue_view().len() == 0,
            r.active_id() is None,
    {
        HardwareCoordinator {
            executor: ActionExecutor::default(),
            active: None,
            sequence: 0,
            generation: 0,
            available: Vec::new(),
            ready: false,
            revisions: Vec::new(),
        }
    }

    /// The topology generation.
    pub fn generation(&self) -> (r: u64)
        ensures
            r == self.generation_view(),
    {
        self.generation
    }

    /// Whether another topology change can still be numbered.
    pub fn can_invalidate(&self) -> (r: bool)
        ensures
            r == (self.generation_view() < u64::MAX),
    {
        self.generation < u64::MAX
    }

    /// Start a new topology: nothing discovered yet, no revisions.
    fn invalidate_topology(&mut self)
        requires
            old(self).generation < u64::MAX,
        ensures
            revisions_unique(final(self).revisions@),
            final(self).generation == old(self).generation + 1,
            !final(self).ready,
            final(self).available@.len() == 0,
            final(self).revisions@.len() == 0,
            final(self).sequence == old(self).sequence,
            final(self).executor.pending_view() == old(self).executor.pending_view(),
            final(self).executor.active_view() == old(self).executor.active_view(),
            final(self).active == old(self).active,
    {
        self.generation = self.generation + 1;
        self.ready = false;
        self.available = Vec::new();
        self.revisions = Vec::new();
    }

    /// A manual refresh: a new topology whose discovery replaces all waiting
    /// work. Work in flight keeps running, and its result will be ignored.
    pub fn refresh(&mut self)
        requires
            old(self).wf(),
            old(self).generation_view() < u64::MAX,
        ensures
            final(self).wf(),
            final(self).generation_view() == old(self).generation_view() + 1,
            !final(self).ready_view(),
            final(self).available_view().len() == 0,
            final(self).queue_view() == seq![Queued::Discover(final(self).generation_view())],
            final(self).active_id() == old(self).active_id(),
            final(self).active_view() == old(self).active_view(),
            old(self).active_id() matches Some(id) ==> final(self).active_stale(id),
            refreshed(*old(self), *final(self)),
    {
        self.invalidate_topology();
        self.executor.clear_pending();
        let mut entries: Vec<Queued> = Vec::new();
        entries.push(Queued::Discover(self.generation));
        assert(self.wf());
        self.executor.extend(entries);
        proof {
            assert(self.executor.pending_view() =~= seq![Queued::Discover(self.generation)]);
        }
    }

    /// Whether the display number `id` names exactly one monitor of a
    /// discovered topology.
    pub fn accepts_monitor(&self, id: u32) -> (r: bool)
        ensures
            r == (self.ready_view() && single_number(self.available_view(), id)),
    {
        if !self.ready {
            return false;
        }
        let mut count: usize = 0;
        let mut first: usize = 0;
        let mut i: usize = 0;
        while i < self.available.len()
            invariant
                i <= self.available@.len(),
                count <= i,
                count == 0 ==> forall|q: int| 0 <= q < i ==> #[trigger] self.available@[q].id != id,
                count >= 1 ==> first < i && self.available@[first as int].id == id,
                count == 1 ==> forall|q: int| 0 <= q < i && #[trigger] self.available@[q].id == id ==> q == first,
                count >= 2 ==> exists|a: int, b: int| 0 <= a < b < i && #[trigger] self.available@[a].id == id
                    && #[trigger] self.available@[b].id == id,
            decreases self.available.len() - i,
        {
            if self.available[i].id == id {
                if count == 0 {
                    first = i;
                }
                if count < 2 {
                    count = count + 1;
                }
            }
            i = i + 1;
        }
        proof {
            if count >= 2 {
                if single_number(self.available@, id) {
                    let (a, b) = choose|a: int, b: int| 0 <= a < b < i && #[trigger] self.available@[a].id == id
                        && #[trigger] self.available@[b].id == id;
                    let s = choose|s: int| 0 <= s < self.available@.len() && #[trigger] self.available@[s].id == id
                        && forall|j: int| 0 <= j < self.available@.len() && #[trigger] self.available@[j].id == id ==> j == s;
                    assert(a == s && b == s);
                }
            }
            if count == 1 {
                assert(self.available@[first as int].id == id);
            }
        }
        count == 1
    }
}

/// The jobs of the `Write` entries, in order.
pub open spec fn writes_of(entries: Seq<Queued>) -> Seq<PreparedJob>
    decreases entries.len(),
{
    if entries.len() == 0 {
        Seq::empty()
    } else {
        let rest = writes_of(entries.drop_last());
        match entries.last() {
            Queued::Write(job) => rest.push(job),
            _ => rest,
        }
    }
}

/// How many `Segment` entries wait.
pub open spec fn segment_count(entries: Seq<Queued>) -> nat
    decreases entries.len(),
{
    if entries.len() == 0 {
        0
    } else {
        segment_count(entries.drop_last()) + if entries.last() is Segment {
            1nat
        } else {
            0nat
        }
    }
}

/// `segments` split `actions` after each profile application: together they
/// are `actions` in order, none is empty, a profile action can only end a
/// segment, and every segment but the last ends with one.
pub open spec fn split_at_profiles(segments: Seq<Seq<HotkeyActionSpec>>, actions: Seq<HotkeyActionSpec>) -> bool
    decreases segments.len(),
{
    if segments.len() == 0 {
        actions.len() == 0
    } else {
        let last = segments.last();
        let n = actions.len() - last.len();
        &&& last.len() > 0
        &&& 0 <= n
        &&& actions.subrange(n, actions.len() as int) == last
        &&& forall|k: int| 0 <= k < last.len() - 1 ==> !profile_action(#[trigger] last[k])
        &&& split_at_profiles(segments.drop_last(), actions.subrange(0, n))
        &&& segments.len() > 1 ==> profile_action(actions[n - 1])
    }
}

fn copy_infos(v: &Vec<MonitorInfo>) -> (r: Vec<MonitorInfo>)
    ensures
        r@ == v@,
{
    let mut r: Vec<MonitorInfo> = Vec::new();
    let mut i: usize = 0;
    while i < v.len()
        invariant
            i <= v@.len(),
            r@ == v@.subrange(0, i as int),
        decreases v.len() - i,
    {
        r.push(v[i].copy());
        proof {
            assert(v@.subrange(0, i + 1) == v@.subrange(0, i as int).push(v@[i as int]));
        }
        i = i + 1;
    }
    proof {
        assert(v@.subrange(0, v@.len() as int) == v@);
    }
    r
}

impl HardwareCoordinator {
    /// Queue a fresh read of monitor `id`, when it is unambiguous.
    pub fn retry(&mut self, id: u32) -> (r: bool)
        requires
            old(self).wf(),
        ensures
            final(self).wf(),
            r == (old(self).ready_view() && single_number(old(self).available_view(), id)),
            !r ==> final(self).queue_view() == old(self).queue_view(),
            r ==> exists|i: int| 0 <= i < old(self).available_view().len()
                && #[trigger] old(self).available_view()[i].id == id && final(self).queue_view()
                == old(self).queue_view().push(Queued::Read(old(self).generation_view(), old(self).available_view()[i])),
            final(self).generation_view() == old(self).generation_view(),
            final(self).available_view() == old(self).available_view(),
            final(self).ready_view() == old(self).ready_view(),
            final(self).active_id() == old(self).active_id(),
            final(self).sequence_view() == old(self).sequence_view(),
    {
        if !self.accepts_monitor(id) {
            return false;
        }
        let mut i: usize = 0;
        while i < self.available.len() && self.available[i].id != id
            invariant
                i <= self.available@.len(),
                single_number(self.available@, id),
                forall|q: int| 0 <= q < i ==> self.available@[q].id != id,
            decreases self.available.len() - i,
        {
            i = i + 1;
        }
        if i == self.available.len() {
            proof {
                let s = choose|s: int| 0 <= s < self.available@.len() && #[trigger] self.available@[s].id == id
                    && forall|j: int| 0 <= j < self.available@.len() && #[trigger] self.available@[j].id == id ==> j == s;
            }
            return false;
        }
        let info = self.available[i].copy();
        let mut entries: Vec<Queued> = Vec::new();
        entries.push(Queued::Read(self.generation, info));
        self.executor.extend(entries);
        proof {
            assert(self.executor.pending_view() =~= old(self).executor.pending_view().push(
                Queued::Read(old(self).generation, old(self).available@[i as int]),
            ));
            assert(old(self).available@[i as int].id == id);
        }
        true
    }

    /// Queue UI jobs, bound to stable keys now. If a barrier later changes the
    /// topology, such writes are dropped, never rebound by display number.
    pub fn enqueue_ui(&mut self, jobs: Vec<HardwareJob>) -> (r: Result<(), String>)
        requires
            old(self).wf(),
        ensures
            final(self).wf(),
            r is Ok <==> forall|i: int| 0 <= i < jobs@.len() ==> crate::actions::job_bindable(
                #[trigger] jobs@[i],
                old(self).available_view(),
            ),
            r is Err ==> final(self).queue_view() == old(self).queue_view(),
            r is Ok ==> {
                &&& final(self).queue_view().len() == old(self).queue_view().len() + jobs@.len()
                &&& final(self).queue_view().subrange(0, old(self).queue_view().len() as int) == old(self).queue_view()
                &&& forall|k: int|
                    0 <= k < jobs@.len() ==> (#[trigger] final(self).queue_view()[old(self).queue_view().len() + k]
                        matches Queued::Write(p) && p.job_view() == jobs@[k] && p.generation_view()
                        == old(self).generation_view())
            },
            final(self).generation_view() == old(self).generation_view(),
            final(self).available_view() == old(self).available_view(),
            final(self).ready_view() == old(self).ready_view(),
            final(self).active_id() == old(self).active_id(),
            final(self).sequence_view() == old(self).sequence_view(),
    {
        let ghost old_jobs = jobs@;
        let mut prepared = match prepare_jobs(jobs, self.available.as_slice(), self.generation) {
            Ok(p) => p,
            Err(e) => return Err(e),
        };
        let ghost all = prepared@;
        let mut entries: Vec<Queued> = Vec::new();
        let n = prepared.len();
        let mut k: usize = 0;
        while k < n
            invariant
                n == all.len(),
                k <= n,
                prepared@ == all.subrange(k as int, n as int),
                entries@.len() == k,
                forall|q: int| 0 <= q < k ==> #[trigger] entries@[q] == Queued::Write(all[q]),
            decreases n - k,
        {
            let job = prepared.remove(0);
            proof {
                assert(job == all[k as int]);
                assert(prepared@ == all.subrange(k + 1, n as int));
            }
            entries.push(Queued::Write(job));
            k = k + 1;
        }
        let ghost before = self.executor.pending_view();
        self.executor.extend(entries);
        proof {
            assert(self.executor.pending_view().subrange(0, before.len() as int) =~= before);
            assert forall|q: int| 0 <= q < old_jobs.len() implies (#[trigger] self.executor.pending_view()[before.len() + q]
                matches Queued::Write(p) && p.job_view() == old_jobs[q] && p.generation_view() == self.generation) by {
                assert(self.executor.pending_view()[before.len() + q] == entries@[q]);
                assert(all[q].job_view() == old_jobs[q]);
            }
        }
        Ok(())
    }
}

proof fn lemma_split_push(
    segs: Seq<Seq<HotkeyActionSpec>>,
    actions: Seq<HotkeyActionSpec>,
    m: int,
    e: int,
)
    requires
        0 <= m < e <= actions.len(),
        split_at_profiles(segs, actions.subrange(0, m)),
        forall|k: int| m <= k < e - 1 ==> !profile_action(#[trigger] actions[k]),
        segs.len() > 0 ==> profile_action(actions[m - 1]),
    ensures
        split_at_profiles(segs.push(actions.subrange(m, e)), actions.subrange(0, e)),
{
    let all = segs.push(actions.subrange(m, e));
    let prefix = actions.subrange(0, e);
    assert(all.last() == actions.subrange(m, e));
    assert(all.drop_last() == segs);
    assert(prefix.subrange(m, e) == actions.subrange(m, e));
    assert(prefix.subrange(0, m) == actions.subrange(0, m));
    let last = actions.subrange(m, e);
    assert forall|k: int| 0 <= k < last.len() - 1 implies !profile_action(#[trigger] last[k]) by {
        assert(last[k] == actions[m + k]);
    }
    if segs.len() > 0 {
        assert(prefix[m - 1] == actions[m - 1]);
    }
}

/// The entries `entries` queue the segments `segs` with turn-off `behavior`.
pub open spec fn segments_queued(entries: Seq<Queued>, segs: Seq<Seq<HotkeyActionSpec>>, behavior: TurnOffBehavior) -> bool {
    &&& entries.len() == segs.len()
    &&& forall|k: int|
        0 <= k < segs.len() ==> (#[trigger] entries[k] matches Queued::Segment(v, b) && v@ == segs[k]
            && b == behavior)
}

impl HardwareCoordinator {
    /// Queue a hotkey's action chain, split into segments after each profile
    /// application; each segment is resolved only when it reaches the head of
    /// the queue, on the topology of that moment. Bindings that can never
    /// resolve reject the whole chain before anything is queued.
    #[verifier::loop_isolation(false)]
    pub fn enqueue_actions(&mut self, actions: Vec<HotkeyActionSpec>, behavior: TurnOffBehavior) -> (r: Result<(), String>)
        requires
            old(self).wf(),
        ensures
            final(self).wf(),
            r is Ok <==> forall|i: int| 0 <= i < actions@.len() ==> binding_ok(#[trigger] actions@[i]),
            r is Err ==> final(self).queue_view() == old(self).queue_view(),
            r is Ok ==> exists|segs: Seq<Seq<HotkeyActionSpec>>| {
                &&& split_at_profiles(segs, actions@)
                &&& final(self).queue_view().subrange(0, old(self).queue_view().len() as int) == old(self).queue_view()
                &&& segments_queued(
                    final(self).queue_view().subrange(old(self).queue_view().len() as int, final(self).queue_view().len() as int),
                    segs,
                    behavior,
                )
            },
            final(self).generation_view() == old(self).generation_view(),
            final(self).available_view() == old(self).available_view(),
            final(self).ready_view() == old(self).ready_view(),
            final(self).active_id() == old(self).active_id(),
            final(self).sequence_view() == old(self).sequence_view(),
    {
        match validate_action_bindings(actions.as_slice()) {
            Ok(()) => {},
            Err(e) => return Err(e),
        }
        let ghost all = actions@;
        let mut rest = actions;
        let n = rest.len();
        let mut entries: Vec<Queued> = Vec::new();
        let mut segment: Vec<HotkeyActionSpec> = Vec::new();
        let ghost mut segs: Seq<Seq<HotkeyActionSpec>> = Seq::empty();
        let mut i: usize = 0;
        let mut start: usize = 0;
        proof {
            assert(all.subrange(0, 0) =~= Seq::<HotkeyActionSpec>::empty());
        }
        while i < n
            invariant
                n == all.len(),
                start <= i <= n,
                rest@ == all.subrange(i as int, n as int),
                segment@ == all.subrange(start as int, i as int),
                forall|k: int| start <= k < i ==> !profile_action(#[trigger] all[k]),
                split_at_profiles(segs, all.subrange(0, start as int)),
                segs.len() > 0 ==> profile_action(all[start - 1]),
                segments_queued(entries@, segs, behavior),
            decreases n - i,
        {
            let action = rest.remove(0);
            proof {
                assert(action == all[i as int]);
                assert(rest@ == all.subrange(i + 1, n as int));
            }
            let barrier = is_profile(&action);
            segment.push(action);
            proof {
                assert(segment@ == all.subrange(start as int, i + 1));
            }
            if barrier {
                proof {
                    lemma_split_push(segs, all, start as int, i + 1);
                    segs = segs.push(all.subrange(start as int, i + 1));
                }
                let done = segment;
                segment = Vec::new();
                entries.push(Queued::Segment(done, behavior));
                start = i + 1;
                proof {
                    assert(segment@ =~= all.subrange(start as int, i + 1));
                }
            }
            i = i + 1;
        }
        if segment.len() > 0 {
            proof {
                lemma_split_push(segs, all, start as int, n as int);
                segs = segs.push(all.subrange(start as int, n as int));
            }
            entries.push(Queued::Segment(segment, behavior));
        } else {
            proof {
                assert(start == n);
            }
        }
        proof {
            assert(all.subrange(0, n as int) == all);
        }
        let ghost before = self.executor.pending_view();
        self.executor.extend(entries);
        proof {
            assert(self.executor.pending_view().subrange(0, before.len() as int) =~= before);
            assert(self.executor.pending_view().subrange(before.len() as int, self.executor.pending_view().len() as int) =~= entries@);
        }
        Ok(())
    }

    /// Nothing is in flight or queued.
    pub fn is_idle(&self) -> (r: bool)
        requires
            self.wf(),
        ensures
            r == (self.active_id() is None && self.queue_view().len() == 0),
    {
        self.executor.is_idle()
    }
}

proof fn lemma_segment_count_concat(a: Seq<Queued>, b: Seq<Queued>)
    ensures
        segment_count(a + b) == segment_count(a) + segment_count(b),
    decreases b.len(),
{
    if b.len() > 0 {
        assert((a + b).drop_last() == a + b.drop_last());
        assert((a + b).last() == b.last());
        lemma_segment_count_concat(a, b.drop_last());
    } else {
        assert(a + b == a);
    }
}

proof fn lemma_no_segments(entries: Seq<Queued>)
    requires
        forall|k: int| 0 <= k < entries.len() ==> !(#[trigger] entries[k] is Segment),
    ensures
        segment_count(entries) == 0,
    decreases entries.len(),
{
    if entries.len() > 0 {
        lemma_no_segments(entries.drop_last());
    }
}

/// The revision recorded for `key`, if any.
fn revision_for(revisions: &Vec<(MonitorKey, u64)>, key: &MonitorKey) -> (r: Option<u64>)
    requires
        revisions_unique(revisions@),
    ensures
        r == revision_of(revisions@, *key),
{
    let mut i: usize = 0;
    while i < revisions.len()
        invariant
            i <= revisions@.len(),
            revisions_unique(revisions@),
            forall|q: int| 0 <= q < i ==> revisions@[q].0@ != key@,
        decreases revisions.len() - i,
    {
        if same_key(&revisions[i].0, key) {
            proof {
                let c = choose|c: int| 0 <= c < revisions@.len() && #[trigger] revisions@[c].0@ == key@;
                if c != i {
                    if c < i {
                    } else {
                        assert(revisions@[i as int].0@ != revisions@[c].0@);
                    }
                }
            }
            return Some(revisions[i].1);
        }
        i = i + 1;
    }
    None
}

/// Record `rev` as the latest revision of `key`.
fn record_revision(revisions: &mut Vec<(MonitorKey, u64)>, key: &MonitorKey, rev: u64)
    requires
        revisions_unique(old(revisions)@),
    ensures
        revisions_unique(final(revisions)@),
        revision_of(final(revisions)@, *key) == Some(rev),
        forall|k: MonitorKey| k@ != key@ ==> revision_of(final(revisions)@, k) == revision_of(old(revisions)@, k),
{
    let mut i: usize = 0;
    while i < revisions.len()
        invariant
            i <= revisions@.len(),
            revisions@ == old(revisions)@,
            revisions_unique(revisions@),
            forall|q: int| 0 <= q < i ==> revisions@[q].0@ != key@,
        decreases revisions.len() - i,
    {
        if same_key(&revisions[i].0, key) {
            let ghost before = revisions@;
            revisions.set(i, (key.copy(), rev));
            proof {
                assert forall|a: int, b: int| 0 <= a < b < revisions@.len() implies (#[trigger] revisions@[a]).0@
                    != (#[trigger] revisions@[b]).0@ by {
                    assert(before[a].0@ != before[b].0@);
                }
                assert(revisions@[i as int].0@ == key@);
                assert forall|k: MonitorKey| k@ != key@ implies revision_of(revisions@, k) == revision_of(before, k) by {
                    if exists|c: int| 0 <= c < before.len() && #[trigger] before[c].0@ == k@ {
                        let c = choose|c: int| 0 <= c < before.len() && #[trigger] before[c].0@ == k@;
                        assert(revisions@[c].0@ == k@);
                        let d = choose|d: int| 0 <= d < revisions@.len() && #[trigger] revisions@[d].0@ == k@;
                        if d != c {
                            if d < c {
                                assert(revisions@[d].0@ != revisions@[c].0@);
                            } else {
                                assert(revisions@[c].0@ != revisions@[d].0@);
                            }
                        }
                    } else {
                        if exists|d: int| 0 <= d < revisions@.len() && #[trigger] revisions@[d].0@ == k@ {
                            let d = choose|d: int| 0 <= d < revisions@.len() && #[trigger] revisions@[d].0@ == k@;
                            assert(before[d].0@ == k@);
                        }
                    }
                }
                let d = choose|d: int| 0 <= d < revisions@.len() && #[trigger] revisions@[d].0@ == key@;
                if d != i {
                    if d < i {
                        assert(revisions@[d].0@ != revisions@[i as int].0@);
                    } else {
                        assert(revisions@[i as int].0@ != revisions@[d].0@);
                    }
                }
            }
            return;
        }
        i = i + 1;
    }
    let ghost before = revisions@;
    revisions.push((key.copy(), rev));
    proof {
        assert forall|a: int, b: int| 0 <= a < b < revisions@.len() implies (#[trigger] revisions@[a]).0@
            != (#[trigger] revisions@[b]).0@ by {
            if b < before.len() {
                assert(before[a].0@ != before[b].0@);
            }
        }
        let last = before.len() as int;
        assert(revisions@[last].0@ == key@);
        let d = choose|d: int| 0 <= d < revisions@.len() && #[trigger] revisions@[d].0@ == key@;
        if d != last {
            assert(before[d].0@ == key@);
        }
        assert forall|k: MonitorKey| k@ != key@ implies revision_of(revisions@, k) == revision_of(before, k) by {
            if exists|c: int| 0 <= c < before.len() && #[trigger] before[c].0@ == k@ {
                let c = choose|c: int| 0 <= c < before.len() && #[trigger] before[c].0@ == k@;
                assert(revisions@[c].0@ == k@);
                let e = choose|e: int| 0 <= e < revisions@.len() && #[trigger] revisions@[e].0@ == k@;
                if e != c {
                    if e < c {
                        assert(revisions@[e].0@ != revisions@[c].0@);
                    } else {
                        assert(revisions@[c].0@ != revisions@[e].0@);
                    }
                }
            } else {
                if exists|e: int| 0 <= e < revisions@.len() && #[trigger] revisions@[e].0@ == k@ {
                    let e = choose|e: int| 0 <= e < revisions@.len() && #[trigger] revisions@[e].0@ == k@;
                    assert(before[e].0@ == k@);
                }
            }
        }
    }
}

/// Some available monitor carries `key`.
fn holds_available(available: &Vec<MonitorInfo>, key: &MonitorKey) -> (r: bool)
    ensures
        r == key_available(available@, *key),
{
    let mut i: usize = 0;
    while i < available.len()
        invariant
            i <= available@.len(),
            forall|q: int| 0 <= q < i ==> available@[q].key@ != key@,
        decreases available.len() - i,
    {
        if same_key(&available[i].key, key) {
            return true;
        }
        i = i + 1;
    }
    false
}

/// A queued entry that dispatch drops without running: a discovery or read
/// of another topology (or a read of a monitor that is gone or not yet
/// discovered), or a monitor write prepared for another topology. Profile
/// writes never go stale.
pub open spec fn stale_entry(e: Queued, generation: u64, ready: bool, available: Seq<MonitorInfo>) -> bool {
    match e {
        Queued::Discover(g) => g != generation,
        Queued::Read(g, info) => !(g == generation && ready && key_available(available, info.key)),
        Queued::Write(job) => job.generation_view() != generation && !(job.job_view() is ApplyProfile)
            && !(job.job_view() is SaveProfile),
        _ => false,
    }
}

/// `op` is the work made of queued entry `e`.
pub open spec fn dispatched_as(e: Queued, op: Operation) -> bool {
    match e {
        Queued::Discover(_) => op is Discover,
        Queued::Read(_, info) => op == Operation::Read(info),
        Queued::Write(job) => op matches Operation::Write(j) && j.job_view() == job.job_view()
            && j.key_view() == job.key_view() && j.required_view() == job.required_view()
            && j.preflight_view() == job.preflight_view(),
        Queued::Rejected(error) => op == Operation::Rejected(error),
        Queued::Segment(_, _) => false,
    }
}

/// Entry `k` of `q` is the first one that dispatch does not drop, and it is
/// no deferred segment.
pub open spec fn first_live(q: Seq<Queued>, k: int, generation: u64, ready: bool, available: Seq<MonitorInfo>) -> bool {
    &&& 0 <= k < q.len()
    &&& !(q[k] is Segment)
    &&& !stale_entry(q[k], generation, ready, available)
    &&& forall|i: int| 0 <= i < k ==> #[trigger] stale_entry(q[i], generation, ready, available)
}

/// Entry `k` of `q` is the first one that dispatch does not drop, and it is
/// a deferred segment.
pub open spec fn first_segment(q: Seq<Queued>, k: int, generation: u64, ready: bool, available: Seq<MonitorInfo>) -> bool {
    &&& 0 <= k < q.len()
    &&& q[k] is Segment
    &&& forall|i: int| 0 <= i < k ==> #[trigger] stale_entry(q[i], generation, ready, available)
}

/// The actions of a deferred segment all resolve against `available`.
pub open spec fn segment_resolves(e: Queued, available: Seq<MonitorInfo>) -> bool {
    match e {
        Queued::Segment(actions, _) => actions_resolve(actions@, available),
        _ => true,
    }
}

impl HardwareCoordinator {
    /// Whether another piece of work can still be numbered and dispatched.
    pub fn can_dispatch(&self) -> (r: bool)
        ensures
            r == (self.sequence_view() < u64::MAX && self.generation_view() < u64::MAX),
    {
        self.sequence < u64::MAX && self.generation < u64::MAX
    }

    /// Dispatch the next piece of work, unless work is in flight. Segments
    /// are resolved here, on the current topology, into writes that take
    /// their place at the head of the queue; a segment that does not resolve
    /// cancels everything waiting behind it and reports why. Entries of an
    /// older topology are dropped. Applying a profile starts a new topology
    /// before the work leaves. Each dispatch gets the next revision, and a
    /// read or write records it for its monitor.
    pub fn start_next(&mut self, states: &[MonitorState]) -> (r: Option<Work>)
        requires
            old(self).wf(),
            old(self).sequence_view() < u64::MAX,
            old(self).generation_view() < u64::MAX,
        ensures
            final(self).wf(),
            started(*old(self), *final(self), r),
            old(self).active_id() is Some ==> *final(self) == *old(self),
            old(self).active_id() is Some ==> r is None && final(self).queue_view() == old(self).queue_view()
                && final(self).active_id() == old(self).active_id() && final(self).generation_view()
                == old(self).generation_view() && final(self).sequence_view() == old(self).sequence_view(),
            old(self).active_id() is None && r is None ==> final(self).active_id() is None
                && final(self).queue_view().len() == 0 && final(self).sequence_view() == old(self).sequence_view(),
            r matches Some(w) ==> {
                &&& w.id == old(self).sequence_view() + 1
                &&& final(self).sequence_view() == w.id
                &&& final(self).active_id() == Some(w.id)
                &&& w.generation == final(self).generation_view()
                &&& (w.revision matches Some(rv) ==> rv.1 == w.id && final(self).revision_view(rv.0) == Some(w.id))
                &&& (final(self).generation_view() == old(self).generation_view() || (final(self).generation_view()
                    == old(self).generation_view() + 1 && (w.operation matches Operation::Write(j)
                    && j.job_view() is ApplyProfile)))
            },
            r is None ==> final(self).generation_view() == old(self).generation_view(),
            old(self).active_id() is None && (forall|i: int|
                0 <= i < old(self).queue_view().len() ==> #[trigger] stale_entry(
                    old(self).queue_view()[i],
                    old(self).generation_view(),
                    old(self).ready_view(),
                    old(self).available_view(),
                )) ==> r is None,
            forall|k: int|
                old(self).active_id() is None && #[trigger] first_live(
                    old(self).queue_view(),
                    k,
                    old(self).generation_view(),
                    old(self).ready_view(),
                    old(self).available_view(),
                ) ==> (r matches Some(w) && dispatched_as(old(self).queue_view()[k], w.operation))
                    && final(self).queue_view() == old(self).queue_view().skip(k + 1),
            forall|k: int|
                old(self).active_id() is None && #[trigger] first_segment(
                    old(self).queue_view(),
                    k,
                    old(self).generation_view(),
                    old(self).ready_view(),
                    old(self).available_view(),
                ) && !segment_resolves(old(self).queue_view()[k], old(self).available_view()) ==> (r matches Some(w)
                    && w.operation is Rejected) && final(self).queue_view().len() == 0,
    {
        if self.active.is_some() {
            return None;
        }
        let ghost q = self.executor.pending_view();
        let ghost mut dropped: int = 0;
        let ghost mut fresh: bool = true;
        let ghost mut seg: int = 0;
        let ghost mut seg_failed: bool = false;
        loop
            invariant
                seg_failed ==> !fresh && self.executor.pending_view().len() == 1
                    && self.executor.pending_view()[0] is Rejected,
                !fresh && !segment_resolves(q[seg], old(self).available@) ==> seg_failed,
                self.wf(),
                self.active is None,
                old(self).active is None,
                self.sequence == old(self).sequence,
                self.generation == old(self).generation,
                self.ready == old(self).ready,
                self.available@ == old(self).available@,
                self.sequence < u64::MAX,
                self.generation < u64::MAX,
                q == old(self).queue_view(),
                fresh ==> 0 <= dropped <= q.len() && self.executor.pending_view() == q.skip(dropped)
                    && forall|i: int| 0 <= i < dropped ==> #[trigger] stale_entry(q[i], old(self).generation, old(self).ready, old(self).available@),
                !fresh ==> 0 <= seg < q.len() && q[seg] is Segment
                    && forall|i: int| 0 <= i < seg ==> #[trigger] stale_entry(q[i], old(self).generation, old(self).ready, old(self).available@),
            decreases segment_count(self.executor.pending_view()), self.executor.pending_view().len(),
        {
            let ghost before = self.executor.pending_view();
            let entry = match self.executor.start_next() {
                Some(entry) => entry,
                None => {
                    proof {
                let gq = old(self).queue_view();
                        let gg = old(self).generation_view();
                        let gr = old(self).ready_view();
                        let ga = old(self).available_view();
                        assert(gq == q && gg == old(self).generation && gr == old(self).ready && ga == old(self).available@);
                        if fresh {
                            assert(q.skip(dropped).len() == 0);
                        }
                        assert forall|k: int| !(#[trigger] first_segment(gq, k, gg, gr, ga) && !segment_resolves(gq[k], ga)) by {
                            if first_segment(gq, k, gg, gr, ga) && !segment_resolves(gq[k], ga) {
                                if fresh {
                                    assert(stale_entry(q[k], gg, gr, ga));
                                } else if k < seg {
                                    assert(stale_entry(q[k], gg, gr, ga));
                                } else if k > seg {
                                    assert(stale_entry(q[seg], gg, gr, ga));
                                } else {
                                    assert(seg_failed);
                                }
                            }
                        }
                        assert forall|k: int| !#[trigger] first_live(gq, k, gg, gr, ga) by {
                            if first_live(gq, k, gg, gr, ga) {
                                if fresh {
                                    assert(stale_entry(q[k], gg, gr, ga));
                                } else if k < seg {
                                    assert(stale_entry(q[k], gg, gr, ga));
                                } else if k > seg {
                                    assert(stale_entry(q[seg], gg, gr, ga));
                                }
                            }
                        }
                    }
                    return None;
                },
            };
            proof {
                assert(before == seq![before[0]] + before.drop_first());
                lemma_segment_count_concat(seq![before[0]], before.drop_first());
                assert(seq![before[0]].drop_last() =~= Seq::<Queued>::empty());
                if fresh {
                    assert(before[0] == q[dropped]);
                    assert(q.skip(dropped).drop_first() =~= q.skip(dropped + 1));
                }
            }
            let operation = match entry {
                Queued::Segment(actions, behavior) => {
                    let ghost was_fresh = fresh;
                    proof {
                        if fresh {
                            seg = dropped;
                            fresh = false;
                        }
                    }
                    self.executor.complete_active();
                    let prepared = match resolve_actions(actions, behavior, self.available.as_slice(), states) {
                        Ok(jobs) => prepare_jobs(jobs, self.available.as_slice(), self.generation),
                        Err(e) => Err(e),
                    };
                    match prepared {
                        Ok(jobs) => {
                            let mut rest = jobs;
                            let mut writes: Vec<Queued> = Vec::new();
                            while rest.len() > 0
                                invariant
                                    forall|k: int| 0 <= k < writes@.len() ==> (#[trigger] writes@[k]) is Write,
                                decreases rest@.len(),
                            {
                                let job = rest.remove(0);
                                writes.push(Queued::Write(job));
                            }
                            proof {
                                lemma_no_segments(writes@);
                                lemma_segment_count_concat(writes@, self.executor.pending_view());
                            }
                            self.executor.prepend(writes);
                        },
                        Err(error) => {
                            self.executor.clear_pending();
                            let mut entries: Vec<Queued> = Vec::new();
                            entries.push(Queued::Rejected(error));
                            self.executor.extend(entries);
                            proof {
                                assert(self.executor.pending_view() =~= seq![Queued::Rejected(error)]);
                                assert(seq![Queued::Rejected(error)].drop_last() =~= Seq::<Queued>::empty());
                                if was_fresh {
                                    seg_failed = true;
                                }
                            }
                        },
                    }
                    continue;
                },
                Queued::Discover(generation) => {
                    if generation != self.generation {
                        self.executor.complete_active();
                        proof {
                            if fresh {
                                assert(stale_entry(q[dropped], old(self).generation, old(self).ready, old(self).available@));
                                dropped = dropped + 1;
                            }
                        }
                        continue;
                    }
                    Operation::Discover
                },
                Queued::Read(generation, info) => {
                    if !(generation == self.generation && self.ready && holds_available(&self.available, &info.key)) {
                        self.executor.complete_active();
                        proof {
                            if fresh {
                                assert(stale_entry(q[dropped], old(self).generation, old(self).ready, old(self).available@));
                                dropped = dropped + 1;
                            }
                        }
                        continue;
                    }
                    Operation::Read(info)
                },
                Queued::Write(job) => {
                    let applies = match job.job() {
                        HardwareJob::ApplyProfile { .. } => true,
                        _ => false,
                    };
                    let saves = match job.job() {
                        HardwareJob::SaveProfile { .. } => true,
                        _ => false,
                    };
                    if !(job.generation() == self.generation || applies || saves) {
                        self.executor.complete_active();
                        proof {
                            if fresh {
                                assert(stale_entry(q[dropped], old(self).generation, old(self).ready, old(self).available@));
                                dropped = dropped + 1;
                            }
                        }
                        continue;
                    }
                    if applies {
                        self.invalidate_topology();
                    }
                    let mut job = job;
                    job.set_generation(self.generation);
                    Operation::Write(job)
                },
                Queued::Rejected(error) => Operation::Rejected(error),
            };
            proof {
                if fresh {
                    assert(!stale_entry(q[dropped], old(self).generation, old(self).ready, old(self).available@));
                    assert(dispatched_as(q[dropped], operation));
                    assert(self.executor.pending_view() == q.skip(dropped + 1));
                }
            }
            self.sequence = self.sequence + 1;
            let key: Option<MonitorKey> = match &operation {
                Operation::Read(info) => Some(info.key.copy()),
                Operation::Write(job) => match job.key() {
                    Some(k) => Some(k.copy()),
                    None => None,
                },
                _ => None,
            };
            let revision = match key {
                Some(k) => {
                    record_revision(&mut self.revisions, &k, self.sequence);
                    Some((k, self.sequence))
                },
                None => None,
            };
            let kind = match &operation {
                Operation::Discover => ActiveKind::Discover,
                Operation::Read(info) => ActiveKind::Read(info.key.copy()),
                Operation::Write(job) => ActiveKind::Write {
                    key: match job.key() {
                        Some(k) => Some(k.copy()),
                        None => None,
                    },
                    applies_profile: match job.job() {
                        HardwareJob::ApplyProfile { .. } => true,
                        _ => false,
                    },
                },
                Operation::Rejected(error) => ActiveKind::Rejected(error.clone()),
            };
            let active_revision = match &revision {
                Some((k, v)) => Some((k.copy(), *v)),
                None => None,
            };
            self.active = Some(ActiveWork {
                id: self.sequence,
                generation: self.generation,
                revision: active_revision,
                kind,
            });
            let work = Work { id: self.sequence, generation: self.generation, revision, operation };
            proof {
                let gq = old(self).queue_view();
                let gg = old(self).generation_view();
                let gr = old(self).ready_view();
                let ga = old(self).available_view();
                assert(gq == q && gg == old(self).generation && gr == old(self).ready && ga == old(self).available@);
                let live_at = if fresh { dropped } else { seg };
                assert(!stale_entry(q[live_at], gg, gr, ga));
                assert forall|k: int| #[trigger] first_segment(gq, k, gg, gr, ga) && !segment_resolves(gq[k], ga) implies (
                    work.operation is Rejected && self.executor.pending_view().len() == 0) by {
                    if k < live_at {
                        assert(stale_entry(q[k], gg, gr, ga));
                    } else if k > live_at {
                        assert(stale_entry(q[live_at], gg, gr, ga));
                    } else if fresh {
                        assert(dispatched_as(q[dropped], operation));
                    } else {
                        assert(seg_failed);
                        assert(before.len() == 1);
                        assert(entry == before[0]);
                        assert(entry is Rejected);
                    }
                }
                assert forall|k: int| #[trigger] first_live(gq, k, gg, gr, ga) implies k == dropped && fresh by {
                    if k < live_at {
                        assert(stale_entry(q[k], gg, gr, ga));
                    } else if k > live_at {
                        assert(stale_entry(q[live_at], gg, gr, ga));
                    }
                }
            }
            return Some(work);
        }
    }
}

/// `d` is coordinator `c` after `refresh`: a new topology generation, no
/// monitors, only a discovery queued, and the work in flight kept but outdated.
pub open spec fn refreshed(c: HardwareCoordinator, d: HardwareCoordinator) -> bool {
    &&& d.wf()
    &&& d.generation_view() == c.generation_view() + 1
    &&& !d.ready_view()
    &&& d.available_view().len() == 0
    &&& d.queue_view() == seq![Queued::Discover(d.generation_view())]
    &&& d.active_id() == c.active_id()
    &&& d.active_view() == c.active_view()
    &&& (c.active_id() matches Some(id) ==> d.active_stale(id))
}

/// `d` is coordinator `c` after `start_next` dispatched `r`: nothing while
/// work is in flight; else the first entry that is not dropped, in queue order.
pub open spec fn started(c: HardwareCoordinator, d: HardwareCoordinator, r: Option<Work>) -> bool {
    &&& d.wf()
    &&& (c.active_id() is Some ==> r is None && d == c)
    &&& (r matches Some(w) ==> d.active_id() == Some(w.id) && w.generation == d.generation_view())
    &&& (c.active_id() is None && r is None ==> d.active_id() is None && d.queue_view().len() == 0)
    &&& forall|k: int|
        c.active_id() is None && #[trigger] first_live(
            c.queue_view(),
            k,
            c.generation_view(),
            c.ready_view(),
            c.available_view(),
        ) ==> (r matches Some(w) && dispatched_as(c.queue_view()[k], w.operation)) && d.queue_view()
            == c.queue_view().skip(k + 1)
}

/// `d` and `event` are coordinator `c` and what it reports after
/// `finish(id, result)`.
pub open spec fn finished(
    c: HardwareCoordinator,
    id: u64,
    result: Result<HardwareResult, String>,
    d: HardwareCoordinator,
    event: QueueEvent,
) -> bool {
    &&& d.wf()
    &&& (c.active_id() != Some(id) ==> event is Ignored && d.queue_view() == c.queue_view() && d.active_id()
        == c.active_id() && d.available_view() == c.available_view() && d.ready_view() == c.ready_view())
    &&& (c.active_id() == Some(id) ==> d.active_id() is None)
    &&& d.generation_view() == c.generation_view()
    &&& d.sequence_view() == c.sequence_view()
    &&& (event matches QueueEvent::Discovered(Err(_)) ==> !d.ready_view() && d.available_view().len() == 0
        && d.queue_view().len() == 0)
    &&& (c.active_stale(id) ==> event is Ignored && d.queue_view() == c.queue_view() && d.available_view()
        == c.available_view() && d.ready_view() == c.ready_view())
    &&& (c.active_current(id) ==> finish_event(c.active_view()->0.kind, result, event) && queue_after(
        c.active_view()->0.kind,
        event,
        c.generation_view(),
        c.queue_view(),
        d.queue_view(),
    ))
    &&& (c.active_current(id) && !(c.active_view()->0.kind is Discover) ==> d.available_view()
        == c.available_view() && d.ready_view() == c.ready_view())
}

/// A result of work for `generation` with `revision` is still current: same
/// topology, and no later dispatch for its monitor, which is still present.
pub open spec fn current_result(
    c_generation: u64,
    available: Seq<MonitorInfo>,
    revision_view: spec_fn(MonitorKey) -> Option<u64>,
    generation: u64,
    revision: Option<(MonitorKey, u64)>,
) -> bool {
    &&& generation == c_generation
    &&& match revision {
        None => true,
        Some(rv) => key_available(available, rv.0) && revision_view(rv.0) == Some(rv.1),
    }
}

/// The monitor a monitor outcome reports.
pub open spec fn outcome_key(outcome: HardwareOutcome) -> Option<MonitorKey> {
    match outcome {
        HardwareOutcome::BrightnessApplied { monitor_id, .. } => Some(monitor_id),
        HardwareOutcome::ContrastApplied { monitor_id, .. } => Some(monitor_id),
        HardwareOutcome::InputSourceApplied { monitor_id, .. } => Some(monitor_id),
        HardwareOutcome::PowerModeApplied { monitor_id, .. } => Some(monitor_id),
        HardwareOutcome::CustomVcpApplied { monitor_id, .. } => Some(monitor_id),
        _ => None,
    }
}

fn outcome_monitor(outcome: &HardwareOutcome) -> (r: Option<&MonitorKey>)
    ensures
        match r {
            Some(k) => outcome_key(*outcome) == Some(*k),
            None => outcome_key(*outcome) is None,
        },
{
    match outcome {
        HardwareOutcome::BrightnessApplied { monitor_id, .. } => Some(monitor_id),
        HardwareOutcome::ContrastApplied { monitor_id, .. } => Some(monitor_id),
        HardwareOutcome::InputSourceApplied { monitor_id, .. } => Some(monitor_id),
        HardwareOutcome::PowerModeApplied { monitor_id, .. } => Some(monitor_id),
        HardwareOutcome::CustomVcpApplied { monitor_id, .. } => Some(monitor_id),
        _ => None,
    }
}

/// `job` is written by one of `entries`.
pub open spec fn queued_write(entries: Seq<Queued>, job: PreparedJob) -> bool {
    exists|j: int| 0 <= j < entries.len() && #[trigger] entries[j] == Queued::Write(job)
}

/// Every monitor of a discovery result has a key that resolves among them.
pub open spec fn discovery_valid(infos: Seq<MonitorInfo>) -> bool {
    forall|i: int| 0 <= i < infos.len() ==> resolvable(MonitorTarget::Stable(#[trigger] infos[i].key), infos)
}

/// The reads queued after a discovery of `infos`, in discovery order.
pub open spec fn reads_for(infos: Seq<MonitorInfo>, generation: u64) -> Seq<Queued> {
    Seq::new(infos.len(), |j: int| Queued::Read(generation, infos[j]))
}

/// A write outcome reports the monitor the write was bound to (or none, for
/// a write bound to none).
pub open spec fn outcome_fits(outcome: HardwareOutcome, key: Option<MonitorKey>) -> bool {
    match (outcome_key(outcome), key) {
        (Some(a), Some(b)) => a@ == b@,
        (None, None) => true,
        _ => false,
    }
}

/// The event a current result of work of kind `kind` gives.
pub open spec fn finish_event(kind: ActiveKind, result: Result<HardwareResult, String>, event: QueueEvent) -> bool {
    match kind {
        ActiveKind::Discover => match result {
            Ok(HardwareResult::Discovered(infos)) => if discovery_valid(infos@) {
                event matches QueueEvent::Discovered(Ok(found)) && found@ == infos@
            } else {
                event matches QueueEvent::Discovered(Err(_))
            },
            Err(e) => event == QueueEvent::Discovered(Err(e)),
            _ => event matches QueueEvent::Discovered(Err(_)),
        },
        ActiveKind::Read(key) => event matches QueueEvent::Read(k, res) && k == key && match result {
            Ok(HardwareResult::Read(state)) => if state.info.key@ == key@ {
                res == Ok::<Box<MonitorState>, String>(state)
            } else {
                res is Err
            },
            Err(e) => res == Err::<Box<MonitorState>, String>(e),
            _ => res is Err,
        },
        ActiveKind::Write { key, .. } => event matches QueueEvent::Applied(res) && match result {
            Ok(HardwareResult::Applied(outcome)) => if outcome_fits(outcome, key) {
                res == Ok::<HardwareOutcome, String>(outcome)
            } else {
                res is Err
            },
            Err(e) => res == Err::<HardwareOutcome, String>(e),
            _ => res is Err,
        },
        ActiveKind::Rejected(error) => event == QueueEvent::Applied(Err(error)),
    }
}

/// The queue after a current result of work of kind `kind` gave `event`.
pub open spec fn queue_after(
    kind: ActiveKind,
    event: QueueEvent,
    generation: u64,
    before: Seq<Queued>,
    after: Seq<Queued>,
) -> bool {
    match kind {
        ActiveKind::Discover => match event {
            QueueEvent::Discovered(Ok(infos)) => after == reads_for(infos@, generation) + before,
            _ => after.len() == 0,
        },
        ActiveKind::Write { applies_profile: true, .. } => if event matches QueueEvent::Applied(Ok(_)) {
            after == seq![Queued::Discover(generation)] + before
        } else {
            after == seq![Queued::Discover(generation)]
        },
        _ => after == before,
    }
}

impl HardwareCoordinator {
    fn accepts(&self, generation: u64, revision: &Option<(MonitorKey, u64)>) -> (r: bool)
        requires
            self.wf(),
        ensures
            r == current_result(
                self.generation_view(),
                self.available_view(),
                |k: MonitorKey| self.revision_view(k),
                generation,
                *revision,
            ),
    {
        if generation != self.generation {
            return false;
        }
        match revision {
            None => true,
            Some((key, value)) => holds_available(&self.available, key) && match revision_for(&self.revisions, key) {
                Some(v) => v == *value,
                None => false,
            },
        }
    }

    /// Whether the result of `work` would still be accepted.
    pub fn accepts_result(&self, work: &Work) -> (r: bool)
        requires
            self.wf(),
        ensures
            r == current_result(
                self.generation_view(),
                self.available_view(),
                |k: MonitorKey| self.revision_view(k),
                work.generation,
                work.revision,
            ),
    {
        self.accepts(work.generation, &work.revision)
    }

    /// Take the result of work `id`. Only the work in flight can finish; its
    /// slot is released on every path. A stale result (older topology, or an
    /// older revision of its monitor) is ignored. A valid discovery installs
    /// the new topology and queues a read of each monitor first; a failed one
    /// drops everything waiting. A profile application is followed by a new
    /// discovery; if it failed, what waited behind it is dropped.
    pub fn finish(&mut self, id: u64, result: Result<HardwareResult, String>) -> (r: QueueEvent)
        requires
            old(self).wf(),
        ensures
            final(self).wf(),
            old(self).active_id() != Some(id) ==> r is Ignored && final(self).queue_view() == old(self).queue_view()
                && final(self).active_id() == old(self).active_id() && final(self).available_view()
                == old(self).available_view() && final(self).ready_view() == old(self).ready_view(),
            old(self).active_id() == Some(id) ==> final(self).active_id() is None,
            final(self).generation_view() == old(self).generation_view(),
            final(self).sequence_view() == old(self).sequence_view(),
            r matches QueueEvent::Discovered(Ok(infos)) ==> final(self).available_view() == infos@
                && final(self).ready_view() && discovery_valid(infos@),
            r matches QueueEvent::Discovered(Err(_)) ==> !final(self).ready_view() && final(self).available_view().len()
                == 0 && final(self).queue_view().len() == 0,
            r matches QueueEvent::Read(k, Ok(state)) ==> state.info.key@ == k@,
            old(self).active_stale(id) ==> r is Ignored && final(self).queue_view() == old(self).queue_view()
                && final(self).available_view() == old(self).available_view() && final(self).ready_view()
                == old(self).ready_view(),
            old(self).active_current(id) ==> finish_event(old(self).active_view()->0.kind, result, r)
                && queue_after(
                old(self).active_view()->0.kind,
                r,
                old(self).generation_view(),
                old(self).queue_view(),
                final(self).queue_view(),
            ),
            old(self).active_current(id) && !(old(self).active_view()->0.kind is Discover)
                ==> final(self).available_view() == old(self).available_view()
                && final(self).ready_view() == old(self).ready_view(),
            finished(*old(self), id, result, *final(self), r),
    {
        let matches_active = match &self.active {
            Some(work) => work.id == id,
            None => false,
        };
        if !matches_active {
            return QueueEvent::Ignored;
        }
        let work = match self.active.take() {
            Some(work) => work,
            None => {
                return QueueEvent::Ignored;
            },
        };
        self.executor.complete_active();
        if !self.accepts(work.generation, &work.revision) {
            return QueueEvent::Ignored;
        }
        match work.kind {
            ActiveKind::Discover => {
                let result = match result {
                    Ok(HardwareResult::Discovered(infos)) => {
                        let mut valid: Result<(), String> = Ok(());
                        let mut i: usize = 0;
                        while i < infos.len() && valid.is_ok()
                            invariant
                                i <= infos@.len(),
                                valid is Err ==> !discovery_valid(infos@),
                                valid is Ok ==> forall|q: int| 0 <= q < i ==> resolvable(
                                    MonitorTarget::Stable(#[trigger] infos@[q].key),
                                    infos@,
                                ),
                            decreases infos.len() - i,
                        {
                            let target = MonitorTarget::Stable(infos[i].key.copy());
                            match target.resolve(infos.as_slice()) {
                                Ok(_) => {},
                                Err(e) => {
                                    proof {
                                        assert(!resolvable(MonitorTarget::Stable(infos@[i as int].key), infos@));
                                    }
                                    valid = Err(e);
                                },
                            }
                            i = i + 1;
                        }
                        match valid {
                            Ok(()) => Ok(infos),
                            Err(e) => Err(e),
                        }
                    },
                    Err(error) => Err(error),
                    _ => Err(String::from_str("Unexpected discovery result")),
                };
                match &result {
                    Ok(infos) => {
                        self.available = copy_infos(infos);
                        self.ready = true;
                        let mut reads: Vec<Queued> = Vec::new();
                        let mut i: usize = 0;
                        while i < infos.len()
                            invariant
                                i <= infos@.len(),
                                reads@.len() == i,
                                forall|j: int| 0 <= j < i ==> #[trigger] reads@[j] == Queued::Read(self.generation, infos@[j]),
                            decreases infos.len() - i,
                        {
                            reads.push(Queued::Read(self.generation, infos[i].copy()));
                            i = i + 1;
                        }
                        proof {
                            assert(reads@ =~= reads_for(infos@, self.generation));
                        }
                        self.executor.prepend(reads);
                    },
                    Err(_) => {
                        self.ready = false;
                        self.available = Vec::new();
                        self.executor.clear_pending();
                    },
                }
                QueueEvent::Discovered(result)
            },
            ActiveKind::Read(key) => {
                let result = match result {
                    Ok(HardwareResult::Read(state)) => {
                        if same_key(&state.info.key, &key) {
                            Ok(state)
                        } else {
                            Err(String::from_str("Read result did not match the requested monitor"))
                        }
                    },
                    Err(error) => Err(error),
                    _ => Err(String::from_str("Read result did not match the requested monitor")),
                };
                QueueEvent::Read(key, result)
            },
            ActiveKind::Write { key, applies_profile } => {
                let result = match result {
                    Ok(HardwareResult::Applied(outcome)) => {
                        let same = match (outcome_monitor(&outcome), &key) {
                            (Some(a), Some(b)) => same_key(a, b),
                            (None, None) => true,
                            _ => false,
                        };
                        if same {
                            Ok(outcome)
                        } else {
                            Err(String::from_str("Write result monitor mismatch"))
                        }
                    },
                    Err(error) => Err(error),
                    _ => Err(String::from_str("Unexpected write result")),
                };
                if applies_profile {
                    if result.is_err() {
                        self.executor.clear_pending();
                    }
                    let mut entries: Vec<Queued> = Vec::new();
                    entries.push(Queued::Discover(self.generation));
                    self.executor.prepend(entries);
                }
                QueueEvent::Applied(result)
            },
            ActiveKind::Rejected(error) => QueueEvent::Applied(Err(error)),
        }
    }

    /// The outstanding writes in execution order, the one in flight first.
    pub fn outstanding(&self) -> (r: Vec<&PreparedJob>)
        ensures
            forall|i: int| 0 <= i < r@.len() ==> queued_write(self.outstanding_entries(), *#[trigger] r@[i]),
            r@.len() == writes_of(self.outstanding_entries()).len(),
            forall|i: int| 0 <= i < r@.len() ==> *#[trigger] r@[i] == writes_of(self.outstanding_entries())[i],
    {
        let entries = self.executor.outstanding();
        let ghost all = self.outstanding_entries();
        let mut r: Vec<&PreparedJob> = Vec::new();
        let mut i: usize = 0;
        while i < entries.len()
            invariant
                i <= entries@.len(),
                all == self.outstanding_entries(),
                entries@.len() == all.len(),
                forall|q: int| 0 <= q < entries@.len() ==> *entries@[q] == all[q],
                forall|k: int| 0 <= k < r@.len() ==> queued_write(all, *#[trigger] r@[k]),
                r@.len() == writes_of(all.take(i as int)).len(),
                forall|k: int| 0 <= k < r@.len() ==> *#[trigger] r@[k] == writes_of(all.take(i as int))[k],
            decreases entries.len() - i,
        {
            let ghost prev = r@;
            proof {
                assert(all.take(i + 1).drop_last() == all.take(i as int));
                assert(all.take(i + 1).last() == all[i as int]);
            }
            if let Queued::Write(job) = entries[i] {
                proof {
                    assert(all[i as int] == Queued::Write(*job));
                }
                r.push(job);
                proof {
                    assert forall|k: int| 0 <= k < r@.len() implies *#[trigger] r@[k] == writes_of(
                        all.take(i + 1),
                    )[k] by {
                        if k < prev.len() {
                            assert(r@[k] == prev[k]);
                        }
                    }
                }
            }
            i = i + 1;
        }
        proof {
            assert(all.take(entries@.len() as int) == all);
        }
        r
    }

    /// The in-flight entry, then the queued ones.
    pub closed spec fn outstanding_entries(&self) -> Seq<Queued> {
        match self.executor.active_view() {
            Some(a) => seq![a] + self.executor.pending_view(),
            None => self.executor.pending_view(),
        }
    }
}

} // verus!
