use windisplaymanager::actions::{ActionExecutor, HardwareJob};
use windisplaymanager::ddc::{decode_input_source, standard_input_sources, InputSource};
use windisplaymanager::debounce::{SliderDebounce, SliderFeature};
use windisplaymanager::monitor_views::{input_presentation, scalar_presentation, MonitorPending, PendingValue};

fn input_source_index(source: &InputSource) -> Option<usize> {
    standard_input_sources().iter().position(|s| s == source)
}

#[test]
fn partial_read_failure_hides_only_failed_slider_and_can_recover() {
    let brightness_value = 0;
    let mut brightness_error: Option<String> = Some("timeout".into());
    let brightness = scalar_presentation(brightness_value, 100, brightness_error.as_deref(), PendingValue::NoChange);
    assert_eq!(brightness.value, None);
    assert_eq!(brightness.label, "Unknown");
    assert_eq!(brightness.read_error, Some("timeout"));

    let contrast = scalar_presentation(120, 255, None, PendingValue::NoChange);
    assert_eq!(contrast.value, Some(120));
    assert_eq!(contrast.label, "120 / 255");
    let input = input_presentation(InputSource::Hdmi1, None, PendingValue::NoChange);
    assert_eq!(input.value.as_ref().and_then(input_source_index), Some(0));

    // A later valid read can recover, including an actual zero reading.
    brightness_error = None;
    let recovered = scalar_presentation(brightness_value, 100, brightness_error.as_deref(), PendingValue::NoChange);
    assert_eq!(recovered.value, Some(0));
    assert_eq!(recovered.label, "0 / 100");
    assert_eq!(recovered.read_error, None);
}

#[test]
fn failed_input_read_is_not_a_confirmed_source_and_selection_stays_available() {
    let unknown = input_presentation(InputSource::Custom(0), Some("timeout"), PendingValue::NoChange);
    assert_eq!(unknown.value, None);
    assert_eq!(unknown.label, "Unknown");
    assert_eq!(unknown.read_error, Some("timeout"));

    let pending = input_presentation(InputSource::Custom(0), Some("timeout"), PendingValue::Target(InputSource::Dp1));
    assert_eq!(pending.value.as_ref().and_then(input_source_index), Some(2));
    assert_eq!(pending.label, "DisplayPort 1 (pending)");
    assert_eq!(pending.read_error, Some("timeout"));

    let custom = input_presentation(InputSource::Custom(0x42), None, PendingValue::NoChange);
    assert_eq!(custom.label, "Custom (0x42)");
    assert_eq!(custom.value, Some(InputSource::Custom(0x42)));
}

#[test]
fn input_source_decoded_sl_selects_the_standard_dropdown_option() {
    for (raw, source, index, label) in [
        (0x0F11, InputSource::Hdmi1, 0, "HDMI 1"),
        (0x1111, InputSource::Hdmi1, 0, "HDMI 1"),
        (0xAB12, InputSource::Hdmi2, 1, "HDMI 2"),
        (0x110F, InputSource::Dp1, 2, "DisplayPort 1"),
        (0x0F0F, InputSource::Dp1, 2, "DisplayPort 1"),
        (0x1010, InputSource::Dp2, 3, "DisplayPort 2"),
    ] {
        let input = input_presentation(decode_input_source(raw), None, PendingValue::NoChange);
        assert_eq!(input.value, Some(source));
        assert_eq!(input.value.as_ref().and_then(input_source_index), Some(index));
        assert_eq!(standard_input_sources()[index], source);
        assert_eq!(input.label, label);
        assert_eq!(input.read_error, None);
    }
}

#[test]
fn input_source_unknown_sl_does_not_select_a_known_dropdown_option() {
    for (raw, sl, label) in [(0x1100, 0x00, "Custom (0x00)"), (0x0FEE, 0xEE, "Custom (0xEE)"), (0x11FF, 0xFF, "Custom (0xFF)")] {
        let input = input_presentation(decode_input_source(raw), None, PendingValue::NoChange);
        assert_eq!(input.value, Some(InputSource::Custom(sl)));
        assert_eq!(input.value.as_ref().and_then(input_source_index), None);
        assert_eq!(input.label, label);
        assert_eq!(input.read_error, None);
    }
}

#[test]
fn pending_scalar_write_does_not_expose_a_guessed_range_or_clear_error() {
    let pending = scalar_presentation(0, 100, Some("timeout"), PendingValue::Target(80));
    assert_eq!(pending.value, None);
    assert_eq!(pending.label, "Unknown; requested 80 (pending)");
    assert_eq!(pending.read_error, Some("timeout"));
}

#[test]
fn adjusting_without_a_confirmed_value_is_unknown() {
    let adjusting = scalar_presentation(10, 100, Some("timeout"), PendingValue::Adjusting);
    assert_eq!(adjusting.value, None);
    assert_eq!(adjusting.label, "Unknown (change pending)");
    let input = input_presentation(InputSource::Dp2, None, PendingValue::Adjusting);
    assert_eq!(input.value, Some(InputSource::Dp2));
    assert_eq!(input.label, "DisplayPort 2 (change pending)");
}

#[test]
fn draft_overlays_active_and_queued_writes_without_crossing_monitors() {
    let mut executor = ActionExecutor::default();
    executor.extend(vec![
        HardwareJob::SetBrightness { monitor_id: 1, value: 70 },
        HardwareJob::SetBrightness { monitor_id: 1, value: 80 },
        HardwareJob::SetBrightness { monitor_id: 2, value: 10 },
        HardwareJob::OffsetContrast { monitor_id: 1, offset: 5 },
    ]);
    executor.start_next().unwrap();
    let mut drafts = SliderDebounce::default();
    drafts.record(7, 1, SliderFeature::Brightness, 90);
    drafts.record(7, 2, SliderFeature::Contrast, 20);
    let draft = MonitorPending::new(1, executor.outstanding(), &drafts);
    assert_eq!(draft.brightness, PendingValue::Target(90));
    assert_eq!(draft.contrast, PendingValue::Adjusting);
    assert_eq!(draft.input_source, PendingValue::NoChange);
    let preview = scalar_presentation(40, 100, None, draft.brightness);
    assert_eq!(preview.value, Some(90));
    assert_eq!(preview.label, "90 / 100 (pending)");
    let offset = scalar_presentation(120, 255, None, draft.contrast);
    assert_eq!(offset.value, Some(120));
    assert_eq!(offset.label, "120 / 255 (change pending)");

    let other_draft = MonitorPending::new(2, executor.outstanding(), &drafts);
    assert_eq!(other_draft.brightness, PendingValue::Target(10));
    assert_eq!(other_draft.contrast, PendingValue::Target(20));

    executor.complete_active();
    let still_pending = MonitorPending::new(1, executor.outstanding(), &drafts);
    assert_eq!(still_pending.brightness, PendingValue::Target(90));
    drafts.invalidate();
    let queued = MonitorPending::new(1, executor.outstanding(), &drafts);
    assert_eq!(queued.brightness, PendingValue::Target(80));
    let other = MonitorPending::new(2, executor.outstanding(), &drafts);
    assert_eq!(other.brightness, PendingValue::Target(10));
    assert_eq!(other.contrast, PendingValue::NoChange);
}
