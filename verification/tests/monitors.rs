use windisplaymanager::ddc::{InputSource, MonitorInfo, MonitorKey, MonitorState};
use windisplaymanager::monitor_views::{input_presentation, scalar_presentation, PendingValue};
use windisplaymanager::monitors::{install_reading, mark_monitor_read_failed};

fn key(id: u32) -> MonitorKey {
    MonitorKey::from_device_path(&format!(r"\\?\DISPLAY#model#{id}")).unwrap()
}

fn monitor_state() -> MonitorState {
    MonitorState {
        info: MonitorInfo {
            id: 1,
            key: key(1),
            x: 0,
            y: 0,
            width: 1920,
            height: 1080,
            name: "Test monitor".into(),
            is_primary: true,
        },
        brightness: 40,
        brightness_max: 100,
        brightness_read_error: None,
        contrast: 120,
        contrast_max: 255,
        contrast_read_error: None,
        input_source: InputSource::Hdmi1,
        input_source_read_error: None,
        advertised_inputs: None,
    }
}

#[test]
fn whole_read_failure_marks_only_the_affected_monitor_unknown() {
    let mut monitors = vec![monitor_state(), monitor_state()];
    monitors[1].info.id = 2;
    monitors[1].info.key = key(2);
    mark_monitor_read_failed(&mut monitors, &key(1), "monitor disconnected");
    let monitor = &monitors[0];
    for (value, maximum, error) in [
        (monitor.brightness, monitor.brightness_max, monitor.brightness_read_error.as_deref()),
        (monitor.contrast, monitor.contrast_max, monitor.contrast_read_error.as_deref()),
    ] {
        let presentation = scalar_presentation(value, maximum, error, PendingValue::NoChange);
        assert_eq!(presentation.value, None);
        assert_eq!(presentation.label, "Unknown");
        assert_eq!(presentation.read_error, Some("monitor disconnected"));
    }
    let input = input_presentation(
        monitor.input_source,
        monitor.input_source_read_error.as_deref(),
        PendingValue::NoChange,
    );
    assert_eq!(input.value, None);
    assert_eq!(input.label, "Unknown");
    assert_eq!(input.read_error, Some("monitor disconnected"));
    assert!(monitors[1].brightness_read_error.is_none());
    assert!(monitors[1].contrast_read_error.is_none());
    assert!(monitors[1].input_source_read_error.is_none());
}

#[test]
fn unknown_key_marks_nothing() {
    let mut monitors = vec![monitor_state()];
    mark_monitor_read_failed(&mut monitors, &key(9), "gone");
    assert!(monitors[0].brightness_read_error.is_none());
    assert!(monitors[0].input_source_read_error.is_none());
}

#[test]
fn readings_install_only_for_detected_monitors_in_number_order() {
    let mut first = monitor_state();
    first.info.id = 1;
    let mut third = monitor_state();
    third.info.id = 3;
    third.info.key = key(3);
    let mut monitors = vec![first, third];
    let mut detected_two = monitor_state().info;
    detected_two.id = 2;
    detected_two.key = key(2);
    detected_two.name = "Detected".into();
    let detected = vec![monitor_state().info, detected_two.clone()];

    let mut reading = monitor_state();
    reading.info.key = key(2);
    reading.brightness = 77;
    assert_eq!(install_reading(&mut monitors, &detected, &key(2), reading.clone()), Some(2));
    assert_eq!(monitors.len(), 3);
    assert_eq!(monitors[1].info.id, 2);
    assert_eq!(monitors[1].info.name, "Detected");
    assert_eq!(monitors[1].brightness, 77);
    assert_eq!(monitors[2].info.id, 3);

    // A newer reading replaces the earlier one.
    reading.brightness = 12;
    assert_eq!(install_reading(&mut monitors, &detected, &key(2), reading.clone()), Some(2));
    assert_eq!(monitors.len(), 3);
    assert_eq!(monitors[1].brightness, 12);

    // A reading of another monitor, or of an undetected one, changes nothing.
    assert_eq!(install_reading(&mut monitors, &detected, &key(1), reading.clone()), None);
    let mut stray = monitor_state();
    stray.info.key = key(9);
    assert_eq!(install_reading(&mut monitors, &detected, &key(9), stray), None);
    assert_eq!(monitors.len(), 3);
}
