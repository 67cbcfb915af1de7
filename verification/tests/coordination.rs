use std::cell::RefCell;
use std::collections::VecDeque;
use std::rc::Rc;

use windisplaymanager::actions::{HardwareJob, HardwareOutcome, PreparedJob};
use windisplaymanager::config::{ActionTarget, HotkeyActionSpec, MonitorTarget, TurnOffBehavior};
use windisplaymanager::coordination::{HardwareBackend, HardwareCoordinator, HardwareResult, QueueEvent, Work};
use windisplaymanager::ddc::{
    DdcError, Endpoint, InputSource, MonitorInfo, MonitorKey, MonitorState, Session, Vcp, VCP_BRIGHTNESS,
    VCP_CONTRAST, VCP_INPUT_SOURCE,
};

fn key(id: u32) -> MonitorKey {
    MonitorKey::from_device_path(&format!(r"\\?\DISPLAY#model#{id}")).unwrap()
}

fn monitor_state() -> MonitorState {
    MonitorState {
        info: MonitorInfo {
            id: 1,
            key: key(1),
            x: 0,
            y: 0,
            width: 1920,
            height: 1080,
            name: "Test monitor".into(),
            is_primary: true,
        },
        brightness: 40,
        brightness_max: 100,
        brightness_read_error: None,
        contrast: 120,
        contrast_max: 255,
        contrast_read_error: None,
        input_source: InputSource::Hdmi1,
        input_source_read_error: None,
        advertised_inputs: None,
    }
}

#[derive(Clone, Default)]
struct FakeVcp {
    writes: Rc<RefCell<Vec<(u8, u16)>>>,
}

impl Vcp for FakeVcp {
    fn read(&mut self, _code: u8) -> Result<(u16, u16), DdcError> {
        Ok((40, 100))
    }

    fn write(&mut self, code: u8, value: u16) -> Result<(), DdcError> {
        self.writes.borrow_mut().push((code, value));
        Ok(())
    }

    fn capabilities(&mut self) -> Result<String, DdcError> {
        Err(DdcError::DdcCommunication("capabilities unavailable".into()))
    }
}

fn fake_session(monitors: &[(MonitorInfo, FakeVcp)], required: &[MonitorKey]) -> Result<Session<FakeVcp>, DdcError> {
    Session::from_endpoints(
        monitors
            .iter()
            .map(|(info, monitor)| Endpoint { info: info.clone(), monitor: monitor.clone() })
            .collect(),
        &required.to_vec(),
    )
}

#[derive(Debug, PartialEq, Eq)]
enum Call {
    Discover,
    Read(MonitorKey),
    Profile,
    Write(MonitorKey),
}

#[derive(Default)]
struct FakeBackend {
    live: Vec<(MonitorInfo, FakeVcp)>,
    profile_topologies: VecDeque<Vec<(MonitorInfo, FakeVcp)>>,
    calls: Vec<Call>,
    fail_discovery: bool,
    fail_profile: bool,
    fail_read: bool,
    disconnect_after_write: Option<MonitorKey>,
}

fn topology(keys: &[u32]) -> Vec<(MonitorInfo, FakeVcp)> {
    keys.iter()
        .enumerate()
        .map(|(index, &id)| {
            let mut info = monitor_state().info;
            info.id = index as u32 + 1;
            info.key = key(id);
            (info, FakeVcp::default())
        })
        .collect()
}

impl HardwareBackend for FakeBackend {
    fn discover(&mut self) -> Result<Vec<MonitorInfo>, String> {
        self.calls.push(Call::Discover);
        if self.fail_discovery {
            return Err("discovery failed".into());
        }
        Ok(self.live.iter().map(|(info, _)| info.clone()).collect())
    }

    fn read(&mut self, info: MonitorInfo) -> Result<MonitorState, String> {
        self.calls.push(Call::Read(info.key.clone()));
        let (_, vcp) = self
            .live
            .iter()
            .find(|(live, _)| live.key == info.key)
            .ok_or("disconnected")?;
        if self.fail_read {
            return Err("read failed".into());
        }
        let mut state = monitor_state();
        state.info = info;
        for &(code, value) in vcp.writes.borrow().iter() {
            match code {
                VCP_BRIGHTNESS => state.brightness = value,
                VCP_CONTRAST => state.contrast = value,
                VCP_INPUT_SOURCE => state.input_source = InputSource::from_vcp_value(value),
                _ => {}
            }
        }
        Ok(state)
    }

    fn apply(&mut self, job: PreparedJob) -> Result<HardwareOutcome, String> {
        if let HardwareJob::ApplyProfile { name } = job.job() {
            self.calls.push(Call::Profile);
            if let Some(live) = self.profile_topologies.pop_front() {
                self.live = live;
            }
            if self.fail_profile {
                return Err("partially applied profile".into());
            }
            return Ok(HardwareOutcome::ProfileApplied { name: name.clone() });
        }
        let target = job.key().cloned().expect("test expected a monitor write");
        self.calls.push(Call::Write(target.clone()));
        let live = &self.live;
        let result = job.execute_monitor_job(
            |required: &[MonitorKey]| fake_session(live, required),
            || panic!("tests must not sleep real displays"),
        );
        if result.is_ok() && self.disconnect_after_write.as_ref() == Some(&target) {
            self.live.retain(|(info, _)| info.key != target);
            for (index, (info, _)) in self.live.iter_mut().enumerate() {
                info.id = index as u32 + 1;
            }
        }
        result
    }
}

fn finish_work(queue: &mut HardwareCoordinator, backend: &mut FakeBackend, work: Work) -> QueueEvent {
    let id = work.id;
    queue.finish(id, work.execute(backend))
}

fn run_next(queue: &mut HardwareCoordinator, backend: &mut FakeBackend) -> QueueEvent {
    let work = queue.start_next(&[]).expect("expected queued work");
    finish_work(queue, backend, work)
}

fn drain(queue: &mut HardwareCoordinator, backend: &mut FakeBackend) -> Vec<QueueEvent> {
    let mut events = Vec::new();
    while let Some(work) = queue.start_next(&[]) {
        assert!(events.len() < 100, "queue did not settle");
        events.push(finish_work(queue, backend, work));
    }
    assert!(queue.is_idle(), "executor wedged");
    events
}

fn ready(keys: &[u32]) -> (HardwareCoordinator, FakeBackend) {
    let mut queue = HardwareCoordinator::new();
    let mut backend = FakeBackend { live: topology(keys), ..Default::default() };
    queue.refresh();
    drain(&mut queue, &mut backend);
    backend.calls.clear();
    (queue, backend)
}

fn profile() -> HotkeyActionSpec {
    HotkeyActionSpec { target: ActionTarget::Profile, profile_name: "layout".into(), ..Default::default() }
}

fn brightness(target: u32) -> HotkeyActionSpec {
    HotkeyActionSpec {
        all_monitors: false,
        monitors: vec![MonitorTarget::Stable(key(target))],
        value: 65,
        ..Default::default()
    }
}

#[test]
fn delayed_read_then_write_and_retry_are_serialized_and_old_revision_cannot_return() {
    let (mut queue, mut backend) = ready(&[1]);
    assert!(queue.retry(1));
    let read = queue.start_next(&[]).unwrap(); // Deliberately hold the completion.
    queue.enqueue_ui(vec![HardwareJob::SetBrightness { monitor_id: 1, value: 80 }]).unwrap();
    assert!(queue.retry(1));
    assert!(queue.start_next(&[]).is_none());
    assert!(backend.calls.is_empty());
    let old_result = read.clone().execute(&mut backend);
    assert!(matches!(queue.finish(read.id, old_result.clone()), QueueEvent::Read(_, Ok(_))));
    let write = queue.start_next(&[]).unwrap();
    assert!(!queue.accepts_result(&read), "write advances this monitor's revision");
    assert!(matches!(queue.finish(read.id, old_result.clone()), QueueEvent::Ignored));
    assert!(queue.start_next(&[]).is_none(), "stale read must not release active write");
    assert!(queue
        .outstanding()
        .iter()
        .any(|job| job.preview_for(&backend.live[0].0, queue.generation()).is_some()));
    assert!(matches!(
        finish_work(&mut queue, &mut backend, write),
        QueueEvent::Applied(Ok(HardwareOutcome::BrightnessApplied { value: 80, .. }))
    ));
    assert!(matches!(queue.finish(read.id, old_result), QueueEvent::Ignored));
    let QueueEvent::Read(_, Ok(state)) = run_next(&mut queue, &mut backend) else {
        panic!("expected retry read")
    };
    assert_eq!(state.brightness, 80);
    assert_eq!(backend.calls, [Call::Read(key(1)), Call::Write(key(1)), Call::Read(key(1))]);
    assert!(queue.is_idle());
}

#[test]
fn refresh_waits_for_active_work_and_rejects_old_generation_success_and_failure() {
    for fail in [false, true] {
        let (mut queue, mut backend) = ready(&[1]);
        queue.retry(1);
        let old = queue.start_next(&[]).unwrap();
        backend.fail_read = fail;
        let result = old.clone().execute(&mut backend);
        queue.enqueue_ui(vec![HardwareJob::SetBrightness { monitor_id: 1, value: 80 }]).unwrap();
        queue.refresh();
        assert!(!queue.accepts_result(&old));
        assert!(queue.start_next(&[]).is_none());
        assert!(matches!(queue.finish(old.id, result), QueueEvent::Ignored));
        backend.live = topology(&[2]); // Same display number, different key.
        backend.fail_read = false;
        let events = drain(&mut queue, &mut backend);
        assert!(matches!(events[0], QueueEvent::Discovered(Ok(_))));
        assert_eq!(backend.calls, [Call::Read(key(1)), Call::Discover, Call::Read(key(2))]);
        assert!(backend.live[0].1.writes.borrow().is_empty());
    }
}

#[test]
fn profile_barrier_resolves_enabled_explicit_targets_and_all_on_new_topology() {
    let (mut queue, mut backend) = ready(&[1]);
    let old_info = backend.live[0].0.clone();
    backend.profile_topologies.push_back(topology(&[2, 1, 3]));
    let all = HotkeyActionSpec { target: ActionTarget::Contrast, value: 75, ..Default::default() };
    queue.enqueue_actions(vec![profile(), brightness(2), all], TurnOffBehavior::Ddc).unwrap();
    // This UI intent was bound to A, never to the replacement at display #1.
    queue.enqueue_ui(vec![HardwareJob::SetBrightness { monitor_id: 1, value: 99 }]).unwrap();
    let generation = queue.generation();
    let work = queue.start_next(&[]).unwrap();
    assert!(queue.generation() > generation);
    assert!(!queue.accepts_monitor(1));
    assert!(queue
        .outstanding()
        .iter()
        .all(|job| job.preview_for(&old_info, queue.generation()).is_none()));
    assert!(matches!(
        finish_work(&mut queue, &mut backend, work),
        QueueEvent::Applied(Ok(HardwareOutcome::ProfileApplied { .. }))
    ));
    let events = drain(&mut queue, &mut backend);
    assert!(matches!(events[0], QueueEvent::Discovered(Ok(_))));
    assert_eq!(
        backend.calls,
        [
            Call::Profile,
            Call::Discover,
            Call::Read(key(2)),
            Call::Read(key(1)),
            Call::Read(key(3)),
            Call::Write(key(2)),
            Call::Write(key(2)),
            Call::Write(key(1)),
            Call::Write(key(3))
        ]
    );
    assert_eq!(*backend.live[0].1.writes.borrow(), [(VCP_BRIGHTNESS, 65), (VCP_CONTRAST, 75)]);
    assert_eq!(*backend.live[1].1.writes.borrow(), [(VCP_CONTRAST, 75)]);
    assert_eq!(*backend.live[2].1.writes.borrow(), [(VCP_CONTRAST, 75)]);
}

#[test]
fn each_profile_starts_a_new_segment_and_resolves_all_again() {
    let (mut queue, mut backend) = ready(&[1]);
    backend.profile_topologies.extend([topology(&[2]), topology(&[3, 4])]);
    let all = HotkeyActionSpec { value: 60, ..Default::default() };
    queue.enqueue_actions(vec![profile(), all.clone(), profile(), all], TurnOffBehavior::Ddc).unwrap();
    drain(&mut queue, &mut backend);
    assert_eq!(
        backend.calls,
        [
            Call::Profile,
            Call::Discover,
            Call::Read(key(2)),
            Call::Write(key(2)),
            Call::Profile,
            Call::Discover,
            Call::Read(key(3)),
            Call::Read(key(4)),
            Call::Write(key(3)),
            Call::Write(key(4))
        ]
    );
}

#[test]
fn queued_ui_profiles_keep_their_order_across_barriers() {
    let (mut queue, mut backend) = ready(&[1]);
    backend.profile_topologies.extend([topology(&[2]), topology(&[3])]);
    queue
        .enqueue_ui(vec![
            HardwareJob::ApplyProfile { name: "first".into() },
            HardwareJob::ApplyProfile { name: "second".into() },
        ])
        .unwrap();
    drain(&mut queue, &mut backend);
    assert_eq!(
        backend.calls,
        [Call::Profile, Call::Discover, Call::Read(key(2)), Call::Profile, Call::Discover, Call::Read(key(3))]
    );
}

#[test]
fn obsolete_discovery_failure_does_not_cancel_a_newer_manual_refresh() {
    let (mut queue, mut backend) = ready(&[1]);
    queue.refresh();
    let obsolete = queue.start_next(&[]).unwrap();
    queue.refresh();
    queue.enqueue_actions(vec![brightness(2)], TurnOffBehavior::Ddc).unwrap();
    assert!(matches!(queue.finish(obsolete.id, Err("old discovery failed".into())), QueueEvent::Ignored));
    backend.live = topology(&[2]);
    drain(&mut queue, &mut backend);
    assert_eq!(*backend.live[0].1.writes.borrow(), [(VCP_BRIGHTNESS, 65)]);
}

#[test]
fn failed_barrier_cancels_dependents_and_manual_refresh_recovers() {
    let (mut queue, mut backend) = ready(&[1]);
    queue.enqueue_actions(vec![profile(), brightness(1)], TurnOffBehavior::Ddc).unwrap();
    backend.fail_discovery = true;
    let events = drain(&mut queue, &mut backend);
    assert!(matches!(events.last(), Some(QueueEvent::Discovered(Err(_)))));
    assert_eq!(backend.calls, [Call::Profile, Call::Discover]);
    assert!(queue.enqueue_ui(vec![HardwareJob::SetBrightness { monitor_id: 1, value: 80 }]).is_err());
    backend.fail_discovery = false;
    queue.refresh();
    drain(&mut queue, &mut backend);
    queue.enqueue_actions(vec![brightness(1)], TurnOffBehavior::Ddc).unwrap();
    drain(&mut queue, &mut backend);
    assert_eq!(*backend.live[0].1.writes.borrow(), [(VCP_BRIGHTNESS, 65)]);
}

#[test]
fn partially_failed_profile_refreshes_but_does_not_run_its_dependents() {
    let (mut queue, mut backend) = ready(&[1]);
    backend.fail_profile = true;
    backend.profile_topologies.push_back(topology(&[2]));
    queue.enqueue_actions(vec![profile(), brightness(2)], TurnOffBehavior::Ddc).unwrap();
    let events = drain(&mut queue, &mut backend);
    assert!(matches!(events[0], QueueEvent::Applied(Err(_))));
    assert_eq!(backend.calls, [Call::Profile, Call::Discover, Call::Read(key(2))]);
    queue.enqueue_actions(vec![brightness(2)], TurnOffBehavior::Ddc).unwrap();
    drain(&mut queue, &mut backend);
    assert_eq!(*backend.live[0].1.writes.borrow(), [(VCP_BRIGHTNESS, 65)]);
}

#[test]
fn invalid_legacy_binding_after_profile_is_rejected_before_any_side_effect() {
    let (mut queue, backend) = ready(&[1]);
    let mut legacy = brightness(1);
    legacy.monitors = vec![MonitorTarget::LegacyIndex(1)];
    assert!(queue.enqueue_actions(vec![profile(), legacy], TurnOffBehavior::Ddc).is_err());
    assert!(queue.start_next(&[]).is_none());
    assert!(queue.is_idle());
    assert!(backend.calls.is_empty());
}

#[test]
fn segment_preflight_allows_a_to_disconnect_after_switch_before_b_writes() {
    let (mut queue, mut backend) = ready(&[1, 2]);
    let a_writes = backend.live[0].1.writes.clone();
    let b_writes = backend.live[1].1.writes.clone();
    backend.disconnect_after_write = Some(key(1));
    let inputs = HotkeyActionSpec {
        target: ActionTarget::InputSource,
        input_source: InputSource::Dp1,
        ..Default::default()
    };
    queue.enqueue_actions(vec![inputs], TurnOffBehavior::Ddc).unwrap();
    let events = drain(&mut queue, &mut backend);
    assert!(events.iter().all(|event| matches!(event, QueueEvent::Applied(Ok(_)))));
    assert_eq!(*a_writes.borrow(), [(VCP_INPUT_SOURCE, InputSource::Dp1.vcp_value())]);
    assert_eq!(*b_writes.borrow(), [(VCP_INPUT_SOURCE, InputSource::Dp1.vcp_value())]);
}

#[test]
fn missing_initial_selection_blocks_the_whole_segment_but_not_later_requests() {
    let (mut queue, mut backend) = ready(&[1, 2]);
    let writes = backend.live[0].1.writes.clone();
    queue.enqueue_actions(vec![HotkeyActionSpec::default()], TurnOffBehavior::Ddc).unwrap();
    backend.live.remove(1);
    let events = drain(&mut queue, &mut backend);
    assert_eq!(events.len(), 2);
    assert!(events.iter().all(|event| matches!(event, QueueEvent::Applied(Err(_)))));
    assert!(writes.borrow().is_empty());
    queue.enqueue_actions(vec![brightness(1)], TurnOffBehavior::Ddc).unwrap();
    drain(&mut queue, &mut backend);
    assert_eq!(*writes.borrow(), [(VCP_BRIGHTNESS, 65)]);
}

#[test]
fn read_failure_and_wrong_identity_release_the_slot_without_blocking_writes() {
    let (mut queue, mut backend) = ready(&[1]);
    queue.retry(1);
    let read = queue.start_next(&[]).unwrap();
    let mut wrong = monitor_state();
    wrong.info.key = key(2);
    assert!(matches!(
        queue.finish(read.id, Ok(HardwareResult::Read(Box::new(wrong)))),
        QueueEvent::Read(_, Err(_))
    ));
    queue.retry(1);
    queue.enqueue_ui(vec![HardwareJob::SetBrightness { monitor_id: 1, value: 80 }]).unwrap();
    backend.fail_read = true;
    let events = drain(&mut queue, &mut backend);
    assert!(matches!(events[0], QueueEvent::Read(_, Err(_))));
    assert!(matches!(events[1], QueueEvent::Applied(Ok(_))));
    assert_eq!(*backend.live[0].1.writes.borrow(), [(VCP_BRIGHTNESS, 80)]);
}

#[test]
fn failed_work_releases_every_slot() {
    for kind in 0..4 {
        let (mut queue, mut backend) = ready(&[1]);
        match kind {
            0 => {
                queue.retry(1);
            }
            1 => queue.enqueue_ui(vec![HardwareJob::SetBrightness { monitor_id: 1, value: 80 }]).unwrap(),
            2 => queue.enqueue_actions(vec![profile(), brightness(1)], TurnOffBehavior::Ddc).unwrap(),
            _ => queue.refresh(),
        }
        let work = queue.start_next(&[]).unwrap();
        let id = work.id;
        queue.finish(id, Err("Task join error: injected".into()));
        drain(&mut queue, &mut backend);
        queue.refresh();
        drain(&mut queue, &mut backend);
        queue.enqueue_actions(vec![brightness(1)], TurnOffBehavior::Ddc).unwrap();
        drain(&mut queue, &mut backend);
        assert_eq!(*backend.live[0].1.writes.borrow(), [(VCP_BRIGHTNESS, 65)]);
    }
}

#[test]
fn deferred_actions_whose_monitor_left_with_the_profile_are_rejected_not_rerouted() {
    let (mut queue, mut backend) = ready(&[1]);
    backend.profile_topologies.push_back(topology(&[2]));
    queue.enqueue_actions(vec![profile(), brightness(1)], TurnOffBehavior::Ddc).unwrap();
    let events = drain(&mut queue, &mut backend);
    assert!(matches!(events[0], QueueEvent::Applied(Ok(HardwareOutcome::ProfileApplied { .. }))));
    assert!(events.iter().any(|event| matches!(event, QueueEvent::Applied(Err(_)))));
    assert!(!backend.calls.iter().any(|call| matches!(call, Call::Write(_))));
    assert!(backend.live[0].1.writes.borrow().is_empty());
}
