use std::cell::{Cell, RefCell};
use std::rc::Rc;

use windisplaymanager::actions::{prepare_jobs, vcp_offset_of, vcp_write_of, ActionExecutor, HardwareJob, HardwareOutcome};
use windisplaymanager::ddc::{
    DdcError, Endpoint, InputSource, MonitorInfo, MonitorKey, PowerMode, Session, Vcp, VCP_INPUT_SOURCE,
};

fn key(id: u32) -> MonitorKey {
    MonitorKey::from_device_path(&format!(r"\\?\DISPLAY#model#{id}")).unwrap()
}

fn info(id: u32) -> MonitorInfo {
    MonitorInfo {
        id,
        key: key(id),
        x: 0,
        y: 0,
        width: 1920,
        height: 1080,
        name: "Test monitor".into(),
        is_primary: true,
    }
}

#[derive(Clone, Default)]
struct FakeVcp {
    writes: Rc<RefCell<Vec<(u8, u16)>>>,
}

impl Vcp for FakeVcp {
    fn read(&mut self, _code: u8) -> Result<(u16, u16), DdcError> {
        Ok((0, 0))
    }

    fn write(&mut self, code: u8, value: u16) -> Result<(), DdcError> {
        self.writes.borrow_mut().push((code, value));
        Ok(())
    }

    fn capabilities(&mut self) -> Result<String, DdcError> {
        Err(DdcError::DdcCommunication("capabilities unavailable".into()))
    }
}

fn fake_session(monitors: &[(MonitorInfo, FakeVcp)], required: &[MonitorKey]) -> Result<Session<FakeVcp>, DdcError> {
    Session::from_endpoints(
        monitors
            .iter()
            .map(|(info, monitor)| Endpoint { info: info.clone(), monitor: monitor.clone() })
            .collect(),
        &required.to_vec(),
    )
}

fn fake_monitors() -> Vec<(MonitorInfo, FakeVcp)> {
    (1..=3).map(|id| (info(id), FakeVcp::default())).collect()
}

#[derive(Default)]
struct FakeHardware {
    completed: Vec<&'static str>,
}

impl FakeHardware {
    fn run(&mut self, job: &'static str) {
        self.completed.push(job);
    }
}

#[test]
fn enqueue_binds_keys_and_pending_previews_cannot_follow_reused_numbers() {
    let info = info(1);
    let jobs = prepare_jobs(
        vec![HardwareJob::SetBrightness { monitor_id: 1, value: 80 }],
        std::slice::from_ref(&info),
        7,
    )
    .unwrap();
    assert_eq!(jobs[0].key(), Some(&key(1)));
    assert_eq!(*jobs[0].required(), [key(1)]);
    assert!(jobs[0].preview_for(&info, 7).is_some());
    assert!(jobs[0].preview_for(&info, 8).is_none());
    let mut replacement = info;
    replacement.key = key(2);
    assert!(jobs[0].preview_for(&replacement, 7).is_none());
    assert_eq!(jobs[0].key(), Some(&key(1)));
}

#[test]
fn full_dispatch_preflight_includes_soft_off_and_does_not_partially_enqueue() {
    let first = info(1);
    let jobs = vec![
        HardwareJob::SetBrightness { monitor_id: 1, value: 80 },
        HardwareJob::SoftTurnOff { monitor_ids: vec![1, 2] },
    ];
    assert!(prepare_jobs(jobs, std::slice::from_ref(&first), 7).is_err());
    assert!(prepare_jobs(
        vec![HardwareJob::SoftTurnOff { monitor_ids: vec![] }],
        std::slice::from_ref(&first),
        7
    )
    .is_err());
    let other = info(2);
    let prepared = prepare_jobs(
        vec![HardwareJob::SoftTurnOff { monitor_ids: vec![1, 2] }],
        &[first, other],
        7,
    )
    .unwrap();
    assert_eq!(*prepared[0].required(), [key(1), key(2)]);
}

#[test]
fn completed_target_can_disconnect_without_blocking_the_next_monitor() {
    for first in [
        HardwareJob::SetInputSource { monitor_id: 1, source: InputSource::Dp1 },
        HardwareJob::SetPowerMode { monitor_id: 1, mode: PowerMode::Off },
    ] {
        let mut live = fake_monitors();
        let available: Vec<_> = live.iter().map(|(info, _)| info.clone()).collect();
        let writes_a = live[0].1.writes.clone();
        let writes_b = live[1].1.writes.clone();
        let prepared = prepare_jobs(
            vec![first, HardwareJob::SetInputSource { monitor_id: 2, source: InputSource::Hdmi2 }],
            &available,
            7,
        )
        .unwrap();
        assert_eq!(*prepared[0].required(), [key(1), key(2)]);
        assert_eq!(*prepared[1].required(), [key(2)]);
        let mut executor = ActionExecutor::default();
        executor.extend(prepared);
        executor
            .start_next()
            .unwrap()
            .execute_monitor_job(
                |required: &[MonitorKey]| fake_session(&live, required),
                || panic!("unexpected Windows sleep"),
            )
            .unwrap();
        executor.complete_active();
        assert_eq!(writes_a.borrow().len(), 1);
        live.remove(0); // A's successful input/power change removes A.
        live[0].0.id = 1; // B may now have A's old display number.
        let outcome = executor
            .start_next()
            .unwrap()
            .execute_monitor_job(
                |required: &[MonitorKey]| fake_session(&live, required),
                || panic!("unexpected Windows sleep"),
            )
            .unwrap();
        executor.complete_active();
        assert_eq!(
            outcome,
            HardwareOutcome::InputSourceApplied { monitor_id: key(2), source: InputSource::Hdmi2 }
        );
        assert_eq!(*writes_b.borrow(), [(VCP_INPUT_SOURCE, InputSource::Hdmi2.vcp_value())]);
        assert!(executor.is_idle());
    }
}

#[test]
fn missing_target_before_initial_preflight_blocks_all_monitor_writes() {
    for order in [[1, 2], [2, 1]] {
        let mut live = fake_monitors();
        let available: Vec<_> = live.iter().map(|(info, _)| info.clone()).collect();
        let writes: Vec<_> = live.iter().map(|(_, monitor)| monitor.writes.clone()).collect();
        let jobs = order
            .into_iter()
            .map(|monitor_id| HardwareJob::SetInputSource { monitor_id, source: InputSource::Dp1 })
            .collect();
        let prepared = prepare_jobs(jobs, &available, 7).unwrap();
        let mut executor = ActionExecutor::default();
        executor.extend(prepared);
        live.remove(0); // A disappears after UI preparation, before execution.
        let mut opens = 0;
        while let Some(job) = executor.start_next() {
            assert!(job
                .execute_monitor_job(
                    |required: &[MonitorKey]| {
                        opens += 1;
                        fake_session(&live, required)
                    },
                    || panic!("unexpected Windows sleep"),
                )
                .is_err());
            executor.complete_active();
        }
        assert_eq!(opens, 1, "a failed first preflight must block later jobs");
        assert!(writes.iter().all(|writes| writes.borrow().is_empty()));
    }
}

#[test]
fn profiles_do_not_consume_initial_preflight_and_later_soft_off_keeps_its_group() {
    let live = fake_monitors();
    let available: Vec<_> = live.iter().map(|(info, _)| info.clone()).collect();
    let prepared = prepare_jobs(
        vec![
            HardwareJob::SaveProfile { name: "saved".into(), replace: false },
            HardwareJob::ApplyProfile { name: "saved".into() },
            HardwareJob::SetInputSource { monitor_id: 1, source: InputSource::Dp1 },
            HardwareJob::SoftTurnOff { monitor_ids: vec![2, 3] },
            HardwareJob::SetBrightness { monitor_id: 2, value: 80 },
        ],
        &available,
        7,
    )
    .unwrap();
    for profile in &prepared[..2] {
        assert!(profile.required().is_empty());
        assert!(!profile.starts_preflight());
    }
    assert!(prepared[2].starts_preflight());
    assert_eq!(*prepared[2].required(), [key(1), key(2), key(3)]);
    assert_eq!(*prepared[3].required(), [key(2), key(3)]);
    assert!(!prepared[3].starts_preflight());
    assert_eq!(*prepared[4].required(), [key(2)]);
    prepared[2]
        .clone()
        .execute_monitor_job(
            |required: &[MonitorKey]| fake_session(&live, required),
            || panic!("unexpected Windows sleep"),
        )
        .unwrap();
    let sleep_calls = Cell::new(0);
    assert!(prepared[3]
        .clone()
        .execute_monitor_job(
            |required: &[MonitorKey]| fake_session(&live[1..2], required), // C missing: no sleep.
            || sleep_calls.set(sleep_calls.get() + 1),
        )
        .is_err());
    assert_eq!(sleep_calls.get(), 0);
    prepared[3]
        .clone()
        .execute_monitor_job(
            |required: &[MonitorKey]| fake_session(&live[1..], required), // A absent, B+C present.
            || sleep_calls.set(sleep_calls.get() + 1),
        )
        .unwrap();
    assert_eq!(sleep_calls.get(), 1);
    assert!(live[1..].iter().all(|(_, monitor)| monitor.writes.borrow().is_empty()));
}

#[test]
fn soft_off_first_preflights_future_monitor_jobs_before_sleep() {
    let live = fake_monitors();
    let available: Vec<_> = live.iter().map(|(info, _)| info.clone()).collect();
    let prepared = prepare_jobs(
        vec![
            HardwareJob::SoftTurnOff { monitor_ids: vec![1] },
            HardwareJob::SetBrightness { monitor_id: 2, value: 80 },
        ],
        &available,
        7,
    )
    .unwrap();
    assert!(prepared[0].starts_preflight());
    assert_eq!(*prepared[0].required(), [key(1), key(2)]);
    assert_eq!(*prepared[1].required(), [key(2)]);
    assert!(prepared[0]
        .clone()
        .execute_monitor_job(
            |required: &[MonitorKey]| fake_session(&live[..1], required),
            || panic!("sleep must not occur when B is missing"),
        )
        .is_err());
    assert!(prepared[1]
        .clone()
        .execute_monitor_job::<FakeVcp, _, _>(
            |_: &[MonitorKey]| panic!("initial preflight never succeeded"),
            || panic!("unexpected Windows sleep"),
        )
        .is_err());
}

#[test]
fn executor_runs_one_job_at_a_time_in_fifo_order() {
    let mut executor = ActionExecutor::default();
    let mut hardware = FakeHardware::default();
    executor.extend(vec!["first", "second"]);

    let first = executor.start_next().unwrap();
    assert!(executor.start_next().is_none());
    executor.extend(vec!["third"]);
    hardware.run(first);
    executor.complete_active();

    while let Some(job) = executor.start_next() {
        hardware.run(job);
        executor.complete_active();
    }

    assert_eq!(hardware.completed, ["first", "second", "third"]);
    assert!(executor.is_idle());
}

#[test]
fn prepend_puts_jobs_ahead_of_the_queue_and_outstanding_lists_the_active_first() {
    let mut executor = ActionExecutor::default();
    executor.extend(vec![1, 2]);
    assert_eq!(executor.start_next(), Some(1));
    executor.prepend(vec![7, 8]);
    let outstanding: Vec<i32> = executor.outstanding().into_iter().copied().collect();
    assert_eq!(outstanding, [1, 7, 8, 2]);
    executor.complete_active();
    assert_eq!(executor.start_next(), Some(7));
    executor.clear_pending();
    executor.complete_active();
    assert!(executor.is_idle());
}

#[test]
fn each_job_writes_its_own_feature_code_and_value() {
    assert_eq!(vcp_write_of(&HardwareJob::SetBrightness { monitor_id: 1, value: 70 }), Some((0x10, 70)));
    assert_eq!(vcp_write_of(&HardwareJob::SetContrast { monitor_id: 1, value: 30 }), Some((0x12, 30)));
    assert_eq!(
        vcp_write_of(&HardwareJob::SetInputSource { monitor_id: 1, source: InputSource::Dp1 }),
        Some((0x60, 0x0F))
    );
    assert_eq!(
        vcp_write_of(&HardwareJob::SetPowerMode { monitor_id: 1, mode: PowerMode::Off }),
        Some((0xD6, 0x04))
    );
    assert_eq!(vcp_write_of(&HardwareJob::SetCustomVcp { monitor_id: 1, code: 0x8D, value: 2 }), Some((0x8D, 2)));
    assert_eq!(vcp_write_of(&HardwareJob::OffsetBrightness { monitor_id: 1, offset: 5 }), None);
    assert_eq!(vcp_offset_of(&HardwareJob::OffsetContrast { monitor_id: 1, offset: -5 }), Some((0x12, -5)));
    assert_eq!(vcp_offset_of(&HardwareJob::SoftTurnOff { monitor_ids: vec![1] }), None);
}

#[test]
fn a_job_writes_only_its_feature_on_its_bound_monitor_of_the_session() {
    let live = fake_monitors();
    let available: Vec<_> = live.iter().map(|(info, _)| info.clone()).collect();
    let prepared = prepare_jobs(vec![HardwareJob::SetContrast { monitor_id: 2, value: 44 }], &available, 7).unwrap();
    assert!(prepared[0].may_run(false).is_ok());
    let mut session = fake_session(&live, &[key(2)]).unwrap();
    let outcome = prepared[0].run_on_session(&mut session, || panic!("not a sleep")).unwrap();
    assert_eq!(outcome, HardwareOutcome::ContrastApplied { monitor_id: key(2), value: 44 });
    assert_eq!(*live[1].1.writes.borrow(), [(0x12, 44)]);
    assert!(live[0].1.writes.borrow().is_empty());
    assert!(live[2].1.writes.borrow().is_empty());
}
