use windisplaymanager::actions::{ActionExecutor, HardwareJob, HardwareOutcome};
use windisplaymanager::ddc::{InputSource, MonitorInfo, MonitorKey, MonitorState};
use windisplaymanager::debounce::SliderDebounce;
use windisplaymanager::hardware_queue::{apply_current_outcome, apply_monitor_outcome};
use windisplaymanager::monitor_views::{input_presentation, scalar_presentation, MonitorPending, PendingValue};

fn key(id: u32) -> MonitorKey {
    MonitorKey::from_device_path(&format!(r"\\?\DISPLAY#model#{id}")).unwrap()
}

fn monitor_state() -> MonitorState {
    MonitorState {
        info: MonitorInfo {
            id: 1,
            key: key(1),
            x: 0,
            y: 0,
            width: 1920,
            height: 1080,
            name: "Test monitor".into(),
            is_primary: true,
        },
        brightness: 40,
        brightness_max: 100,
        brightness_read_error: None,
        contrast: 120,
        contrast_max: 255,
        contrast_read_error: None,
        input_source: InputSource::Hdmi1,
        input_source_read_error: None,
        advertised_inputs: None,
    }
}

#[test]
fn async_success_requires_current_generation_and_matches_key_not_display_number() {
    let mut monitors = vec![monitor_state(), monitor_state()];
    monitors[0].info.id = 2;
    monitors[1].info.key = key(2);
    let result = Ok(HardwareOutcome::BrightnessApplied { monitor_id: key(1), value: 80 });
    apply_current_outcome(&mut monitors, 7, 8, &result);
    assert_eq!(monitors[0].brightness, 40);
    assert_eq!(monitors[1].brightness, 40);
    apply_current_outcome(&mut monitors, 8, 8, &result);
    assert_eq!(monitors[0].brightness, 80);
    assert_eq!(monitors[1].brightness, 40);
    let result = Ok(HardwareOutcome::BrightnessApplied { monitor_id: key(3), value: 90 });
    apply_current_outcome(&mut monitors, 8, 8, &result);
    assert_eq!(monitors[0].brightness, 80);
    assert_eq!(monitors[1].brightness, 40);
}

#[test]
fn failed_writes_remove_previews_and_preserve_confirmed_values() {
    for job in [
        HardwareJob::SetBrightness { monitor_id: 1, value: 80 },
        HardwareJob::SetContrast { monitor_id: 1, value: 200 },
        HardwareJob::SetInputSource { monitor_id: 1, source: InputSource::Dp1 },
    ] {
        let mut monitors = vec![monitor_state()];
        let mut executor = ActionExecutor::default();
        executor.extend(vec![job]);
        executor.start_next().unwrap();
        let pending = MonitorPending::new(1, executor.outstanding(), &SliderDebounce::default());
        assert!(
            pending.brightness != PendingValue::NoChange
                || pending.contrast != PendingValue::NoChange
                || pending.input_source != PendingValue::NoChange
        );

        executor.complete_active();
        apply_monitor_outcome(&mut monitors, &Err("write failed".into()));
        let pending = MonitorPending::new(1, executor.outstanding(), &SliderDebounce::default());
        let monitor = &monitors[0];
        let brightness = scalar_presentation(
            monitor.brightness,
            monitor.brightness_max,
            monitor.brightness_read_error.as_deref(),
            pending.brightness,
        );
        let contrast = scalar_presentation(
            monitor.contrast,
            monitor.contrast_max,
            monitor.contrast_read_error.as_deref(),
            pending.contrast,
        );
        let input = input_presentation(
            monitor.input_source,
            monitor.input_source_read_error.as_deref(),
            pending.input_source,
        );
        assert_eq!(brightness.value, Some(40));
        assert_eq!(brightness.label, "40 / 100");
        assert_eq!(contrast.value, Some(120));
        assert_eq!(contrast.label, "120 / 255");
        assert_eq!(input.value, Some(InputSource::Hdmi1));
        assert_eq!(input.label, "HDMI 1");
        assert!(executor.is_idle());
    }
}

#[test]
fn older_success_does_not_confirm_or_hide_a_newer_pending_write() {
    let mut monitors = vec![monitor_state()];
    let mut executor = ActionExecutor::default();
    executor.extend(vec![
        HardwareJob::SetBrightness { monitor_id: 1, value: 50 },
        HardwareJob::SetBrightness { monitor_id: 1, value: 80 },
    ]);
    executor.start_next().unwrap();
    executor.complete_active();
    apply_monitor_outcome(
        &mut monitors,
        &Ok(HardwareOutcome::BrightnessApplied { monitor_id: key(1), value: 50 }),
    );
    assert_eq!(monitors[0].brightness, 50);
    let pending = MonitorPending::new(1, executor.outstanding(), &SliderDebounce::default());
    let preview = scalar_presentation(monitors[0].brightness, 100, None, pending.brightness);
    assert_eq!(preview.value, Some(80));
    assert_eq!(preview.label, "80 / 100 (pending)");

    executor.start_next().unwrap();
    executor.complete_active();
    apply_monitor_outcome(&mut monitors, &Err("second write failed".into()));
    let pending = MonitorPending::new(1, executor.outstanding(), &SliderDebounce::default());
    let restored = scalar_presentation(monitors[0].brightness, 100, None, pending.brightness);
    assert_eq!(restored.value, Some(50));
    assert_eq!(restored.label, "50 / 100");
}

#[test]
fn only_valid_knowledge_clears_existing_read_errors() {
    let mut monitor = monitor_state();
    monitor.brightness_read_error = Some("brightness timeout".into());
    monitor.contrast_read_error = Some("contrast timeout".into());
    monitor.input_source_read_error = Some("input timeout".into());
    let mut monitors = vec![monitor];
    apply_monitor_outcome(&mut monitors, &Err("write failed".into()));
    assert_eq!(monitors[0].input_source, InputSource::Hdmi1);
    assert_eq!(monitors[0].input_source_read_error.as_deref(), Some("input timeout"));

    apply_monitor_outcome(
        &mut monitors,
        &Ok(HardwareOutcome::BrightnessApplied { monitor_id: key(1), value: 80 }),
    );
    apply_monitor_outcome(
        &mut monitors,
        &Ok(HardwareOutcome::ContrastApplied { monitor_id: key(1), value: 200 }),
    );
    let monitor = &monitors[0];
    assert_eq!(monitor.brightness_read_error.as_deref(), Some("brightness timeout"));
    assert_eq!(monitor.contrast_read_error.as_deref(), Some("contrast timeout"));
    assert_eq!(
        scalar_presentation(
            monitor.brightness,
            monitor.brightness_max,
            monitor.brightness_read_error.as_deref(),
            PendingValue::NoChange
        )
        .value,
        None
    );
    assert_eq!(
        scalar_presentation(
            monitor.contrast,
            monitor.contrast_max,
            monitor.contrast_read_error.as_deref(),
            PendingValue::NoChange
        )
        .value,
        None
    );

    apply_monitor_outcome(
        &mut monitors,
        &Ok(HardwareOutcome::InputSourceApplied { monitor_id: key(2), source: InputSource::Dp1 }),
    );
    assert!(monitors[0].input_source_read_error.is_some());
    apply_monitor_outcome(
        &mut monitors,
        &Ok(HardwareOutcome::InputSourceApplied { monitor_id: key(1), source: InputSource::Dp1 }),
    );
    assert_eq!(monitors[0].input_source, InputSource::Dp1);
    assert_eq!(monitors[0].input_source_read_error, None);
}

#[test]
fn other_outcomes_leave_readings_alone() {
    let mut monitors = vec![monitor_state()];
    apply_monitor_outcome(&mut monitors, &Ok(HardwareOutcome::MonitorsPoweredOff));
    apply_monitor_outcome(&mut monitors, &Ok(HardwareOutcome::ProfileApplied { name: "x".into() }));
    assert_eq!(monitors[0].brightness, 40);
    assert_eq!(monitors[0].contrast, 120);
    assert_eq!(monitors[0].input_source, InputSource::Hdmi1);
}
