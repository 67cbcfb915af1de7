use std::cell::RefCell;
use std::collections::VecDeque;
use std::rc::Rc;

use windisplaymanager::capabilities::parse_capabilities;
use windisplaymanager::ccd::{ActiveTarget, Luid};
use windisplaymanager::ddc::{
    associate, decode_input_source, detect_monitors, read_monitor_state, read_state, scalar_reading, Traced,
    DdcError, Endpoint, InputSource, MonitorInfo, MonitorKey, MonitorState, Session, Vcp, VCP_BRIGHTNESS,
    VCP_CONTRAST, VCP_INPUT_SOURCE, VCP_POWER_MODE,
};

fn key(id: u32) -> MonitorKey {
    MonitorKey::from_device_path(&format!(r"\\?\DISPLAY#model#{id}")).unwrap()
}

fn monitor_state() -> MonitorState {
    MonitorState {
        info: MonitorInfo {
            id: 1,
            key: key(1),
            x: 0,
            y: 0,
            width: 1920,
            height: 1080,
            name: "Test monitor".into(),
            is_primary: true,
        },
        brightness: 40,
        brightness_max: 100,
        brightness_read_error: None,
        contrast: 120,
        contrast_max: 255,
        contrast_read_error: None,
        input_source: InputSource::Hdmi1,
        input_source_read_error: None,
        advertised_inputs: None,
    }
}

fn communication(text: &str) -> DdcError {
    DdcError::DdcCommunication(text.into())
}

#[derive(Clone, Default)]
struct FakeVcp {
    reading: (u16, u16),
    fail_read: bool,
    reads: Vec<u8>,
    writes: Rc<RefCell<Vec<(u8, u16)>>>,
}

impl Vcp for FakeVcp {
    fn read(&mut self, code: u8) -> Result<(u16, u16), DdcError> {
        self.reads.push(code);
        if self.fail_read {
            return Err(communication("read failed"));
        }
        Ok(self.reading)
    }

    fn write(&mut self, code: u8, value: u16) -> Result<(), DdcError> {
        self.writes.borrow_mut().push((code, value));
        Ok(())
    }

    fn capabilities(&mut self) -> Result<String, DdcError> {
        Err(communication("capabilities unavailable"))
    }
}

fn endpoint(id: u32) -> Endpoint<FakeVcp> {
    let mut info = monitor_state().info;
    info.id = id;
    info.key = key(id);
    Endpoint {
        info,
        monitor: FakeVcp {
            reading: (40, 100),
            ..Default::default()
        },
    }
}

fn target(source: &str, instance: u32) -> ActiveTarget {
    ActiveTarget {
        source_adapter: Luid { low: 1, high: 2 },
        source_id: instance,
        target_adapter: Luid { low: 1, high: 2 },
        target_id: instance,
        gdi_name: source.into(),
        device_path: format!(r"\\?\DISPLAY#MODEL#{instance}"),
        friendly_name: "Same model".into(),
    }
}

#[test]
fn full_path_identity_is_normalized_not_model_or_display_number() {
    assert_eq!(
        MonitorKey::from_device_path(r"\\?\DISPLAY#MODEL#1"),
        Some(key(1))
    );
    assert_ne!(key(1), key(2));
    assert!(MonitorKey::from_device_path("").is_none());
    assert!(MonitorKey::from_device_path("Monitor 1").is_none());
    assert!(MonitorKey::from_device_path("\\\\?\\bad\0path").is_none());
    let targets = vec![target("source-b", 2), target("source-a", 1)];
    assert_eq!(
        associate("SOURCE-A", 1, &targets).unwrap().device_path,
        targets[1].device_path
    );
    assert_eq!(
        associate("source-b", 1, &targets).unwrap().friendly_name,
        targets[1].friendly_name
    );
}

#[test]
fn ambiguous_physical_and_ccd_associations_are_refused() {
    let one = target("source-a", 1);
    assert!(associate("source-a", 2, &vec![one.clone()]).is_err());
    assert!(associate("source-a", 0, &vec![one.clone()]).is_err());
    assert!(associate("missing", 1, &vec![one.clone()]).is_err());
    let clone = target("source-a", 2);
    assert!(associate("source-a", 1, &vec![one.clone(), clone]).is_err());
    let mut duplicate_path = target("source-b", 2);
    duplicate_path.device_path = one.device_path.to_ascii_lowercase();
    assert!(associate("source-a", 1, &vec![one.clone(), duplicate_path]).is_err());
    let mut unknown = target("source-a", 3);
    unknown.device_path.clear();
    assert!(associate("source-a", 1, &vec![unknown.clone()]).is_err());
    // An unnamed second target must not disappear and create a false 1:1 join.
    assert!(associate("source-a", 1, &vec![one, unknown]).is_err());
}

#[test]
fn refused_associations_say_why() {
    let one = target("source-a", 1);
    match associate("source-a", 2, &vec![one.clone()]) {
        Err(DdcError::Ambiguous(text)) => assert_eq!(text, "source-a: 2 physical handles, 1 CCD targets"),
        _ => panic!("expected an ambiguity"),
    }
    let mut unknown = target("source-a", 3);
    unknown.device_path.clear();
    match associate("source-a", 1, &vec![unknown]) {
        Err(DdcError::DisplayInfoError(text)) => assert_eq!(text, "No usable device path for source-a"),
        _ => panic!("expected a display info error"),
    }
    let mut duplicate_path = target("source-b", 2);
    duplicate_path.device_path = one.device_path.to_ascii_lowercase();
    match associate("source-a", 1, &vec![one, duplicate_path]) {
        Err(DdcError::Ambiguous(text)) => assert_eq!(text, "windows-device-path:v1:\\\\?\\display#model#1"),
        _ => panic!("expected an ambiguity"),
    }
}

#[test]
fn reordered_handles_and_display_numbers_write_only_the_saved_key() {
    let a = endpoint(1);
    let mut b = endpoint(2);
    let a_writes = a.monitor.writes.clone();
    let b_writes = b.monitor.writes.clone();
    b.info.id = 1; // The old number now labels another physical device.
    let mut session = Session::from_endpoints(vec![b, a], &vec![key(1)]).unwrap();
    session.set_vcp(&key(1), VCP_BRIGHTNESS, 80).unwrap();
    assert_eq!(*a_writes.borrow(), [(VCP_BRIGHTNESS, 80)]);
    assert!(b_writes.borrow().is_empty());
}

#[test]
fn missing_ambiguous_and_unknown_keys_never_write_or_fall_back() {
    let first = endpoint(2);
    let writes = first.monitor.writes.clone();
    // Even an available first target cannot execute when another is missing.
    assert!(Session::from_endpoints(vec![first], &vec![key(2), key(1)]).is_err());
    assert!(writes.borrow().is_empty());
    let a = endpoint(1);
    let duplicate = endpoint(1);
    let writes = a.monitor.writes.clone();
    let other_writes = duplicate.monitor.writes.clone();
    assert!(Session::from_endpoints(vec![a, duplicate], &vec![key(1)]).is_err());
    assert!(writes.borrow().is_empty());
    assert!(other_writes.borrow().is_empty());
    let mut session = Session::from_endpoints(vec![endpoint(2)], &vec![key(2)]).unwrap();
    assert!(session.set_vcp(&key(1), VCP_BRIGHTNESS, 80).is_err());
    let unknown = MonitorKey::from_stored("future-key:v2:1".to_string());
    assert!(session.set_vcp(&unknown, VCP_BRIGHTNESS, 80).is_err());
    assert!(session.endpoints()[0].monitor.writes.borrow().is_empty());
}

#[test]
fn offsets_read_and_write_one_handle_and_clamp_without_overflow() {
    let a = endpoint(1);
    let b = endpoint(2);
    let other_writes = b.monitor.writes.clone();
    let mut session = Session::from_endpoints(vec![b, a], &vec![key(1)]).unwrap();
    assert_eq!(session.offset_vcp(&key(1), VCP_BRIGHTNESS, i32::MAX).unwrap(), 100);
    assert_eq!(session.offset_vcp(&key(1), VCP_BRIGHTNESS, i32::MIN).unwrap(), 0);
    assert_eq!(session.endpoints()[1].monitor.reads, [VCP_BRIGHTNESS, VCP_BRIGHTNESS]);
    assert_eq!(
        *session.endpoints()[1].monitor.writes.borrow(),
        [(VCP_BRIGHTNESS, 100), (VCP_BRIGHTNESS, 0)]
    );
    assert!(session.endpoints()[0].monitor.reads.is_empty());
    assert!(other_writes.borrow().is_empty());
}

#[test]
fn invalid_or_failed_offset_reads_never_write() {
    for (reading, fail_read) in [((0, 0), false), ((101, 100), false), ((40, 100), true)] {
        let mut a = endpoint(1);
        a.monitor.reading = reading;
        a.monitor.fail_read = fail_read;
        let writes = a.monitor.writes.clone();
        let mut session = Session::from_endpoints(vec![a], &vec![key(1)]).unwrap();
        assert!(session.offset_vcp(&key(1), VCP_CONTRAST, 1).is_err());
        assert!(writes.borrow().is_empty());
    }
}

#[test]
fn detection_lists_discovered_monitors_in_order() {
    let found = detect_monitors(Ok(vec![endpoint(2), endpoint(1)])).unwrap();
    assert_eq!(found.len(), 2);
    assert_eq!(found[0].id, 2);
    assert_eq!(found[1].key, key(1));
    assert!(matches!(
        detect_monitors::<FakeVcp>(Err(DdcError::NoMonitorsFound)),
        Err(DdcError::NoMonitorsFound)
    ));
}

struct ScriptedVcp {
    replies: VecDeque<(u8, Result<(u16, u16), DdcError>)>,
    capabilities: Option<String>,
}

impl Vcp for ScriptedVcp {
    fn read(&mut self, code: u8) -> Result<(u16, u16), DdcError> {
        let (expected_code, reply) = self.replies.pop_front().expect("unexpected read");
        assert_eq!(code, expected_code);
        reply
    }

    fn write(&mut self, _code: u8, _value: u16) -> Result<(), DdcError> {
        panic!("reading monitor state must not write");
    }

    fn capabilities(&mut self) -> Result<String, DdcError> {
        self.capabilities
            .take()
            .ok_or_else(|| communication("capabilities unavailable"))
    }
}

fn state_reads(input: Result<(u16, u16), DdcError>) -> ScriptedVcp {
    ScriptedVcp {
        replies: [
            (VCP_BRIGHTNESS, Ok((0x0123, 0x0345))),
            (VCP_CONTRAST, Ok((0x0234, 0x0456))),
            (VCP_INPUT_SOURCE, input),
        ]
        .into(),
        capabilities: None,
    }
}

#[test]
fn reading_a_monitor_uses_only_the_endpoint_its_key_resolves_to() {
    let mut info = monitor_state().info;
    info.key = key(2);
    let other = Endpoint {
        info: monitor_state().info,
        monitor: ScriptedVcp { replies: VecDeque::new(), capabilities: None },
    };
    let mut mine_info = monitor_state().info;
    mine_info.key = key(2);
    let mine = Endpoint { info: mine_info, monitor: state_reads(Ok((0x0F11, 0))) };
    let state = read_monitor_state(info.clone(), Ok(vec![other, mine])).unwrap();
    assert_eq!(state.input_source, InputSource::Hdmi1);
    assert_eq!(state.brightness, 0x0123);
    let missing = read_monitor_state(info, Ok(Vec::<Endpoint<ScriptedVcp>>::new()));
    assert!(matches!(missing, Err(DdcError::MonitorNotFound(_))));
}

#[test]
fn input_source_read_uses_sl_for_duplicate_and_unequal_bytes() {
    for (raw, expected) in [
        (0x0F0F, InputSource::Dp1),
        (0x1010, InputSource::Dp2),
        (0x1111, InputSource::Hdmi1),
        (0x1212, InputSource::Hdmi2),
        (0x0F11, InputSource::Hdmi1),
        (0x110F, InputSource::Dp1),
        (0xFF11, InputSource::Hdmi1),
        (0xAB0F, InputSource::Dp1),
    ] {
        assert_eq!(decode_input_source(raw), expected, "raw=0x{raw:04X}");
    }
}

#[test]
fn input_source_read_preserves_standard_codes_with_any_reserved_sh() {
    for sh in 0..=0xFFu16 {
        for (sl, expected) in [
            (0x01, InputSource::Vga1),
            (0x02, InputSource::Vga2),
            (0x03, InputSource::Dvi1),
            (0x04, InputSource::Dvi2),
            (0x0F, InputSource::Dp1),
            (0x10, InputSource::Dp2),
            (0x11, InputSource::Hdmi1),
            (0x12, InputSource::Hdmi2),
            (0x13, InputSource::UsbC1),
            (0x14, InputSource::UsbC2),
        ] {
            let raw = (sh << 8) | sl;
            assert_eq!(decode_input_source(raw), expected, "raw=0x{raw:04X}");
        }
    }
}

#[test]
fn input_source_read_unknown_sl_never_falls_back_to_sh() {
    for sh in 0..=0xFFu16 {
        for sl in [0x00, 0x05, 0xEE, 0xFF] {
            let raw = (sh << 8) | sl;
            assert_eq!(decode_input_source(raw), InputSource::Custom(sl), "raw=0x{raw:04X}");
        }
    }
}

#[test]
fn input_source_read_state_decodes_only_input_and_ignores_model_and_reserved_maximum() {
    for model in ["AW2725QF", "DELL U2723QE", "U2723QE", "Other display", ""] {
        for (raw, expected) in [
            (0x0F11, InputSource::Hdmi1),
            (0x110F, InputSource::Dp1),
            (0x0F0F, InputSource::Dp1),
            (0x1010, InputSource::Dp2),
            (0x1111, InputSource::Hdmi1),
            (0xAB12, InputSource::Hdmi2),
            (0x1100, InputSource::Custom(0)),
            (0x0FEE, InputSource::Custom(0xEE)),
            (0x11FF, InputSource::Custom(0xFF)),
        ] {
            for maximum in [0, 0xFFFF] {
                let mut info = monitor_state().info;
                info.name = model.into();
                let mut transport = state_reads(Ok((raw, maximum)));
                let mut traced = Traced::new(transport);
                let state = read_state(info.clone(), &mut traced);
                let transport = traced.into_inner();
                assert!(transport.replies.is_empty());
                assert_eq!(state.info.key, info.key);
                assert_eq!(state.info.name, info.name);
                assert_eq!((state.brightness, state.brightness_max), (0x0123, 0x0345));
                assert_eq!((state.contrast, state.contrast_max), (0x0234, 0x0456));
                assert_eq!(state.brightness_read_error, None);
                assert_eq!(state.contrast_read_error, None);
                assert_eq!(state.input_source, expected, "model={model:?}, raw=0x{raw:04X}");
                assert_eq!(state.input_source_read_error, None);
            }
        }
    }
}

#[test]
fn input_source_read_state_error_is_independent_and_can_recover() {
    let mut transport = state_reads(Err(communication("input timeout")));
    let mut traced = Traced::new(transport);
    let state = read_state(monitor_state().info, &mut traced);
    let transport = traced.into_inner();
    assert!(transport.replies.is_empty());
    assert_eq!((state.brightness, state.brightness_max), (0x0123, 0x0345));
    assert_eq!((state.contrast, state.contrast_max), (0x0234, 0x0456));
    assert_eq!(state.brightness_read_error, None);
    assert_eq!(state.contrast_read_error, None);
    assert_eq!(state.input_source, InputSource::Custom(0));
    assert_eq!(
        state.input_source_read_error,
        Some(communication("input timeout").message())
    );

    let mut transport = state_reads(Ok((0x0F11, 0)));
    let mut traced = Traced::new(transport);
    let recovered = read_state(state.info, &mut traced);
    let transport = traced.into_inner();
    assert!(transport.replies.is_empty());
    assert_eq!(recovered.input_source, InputSource::Hdmi1);
    assert_eq!(recovered.input_source_read_error, None);
}

#[test]
fn input_source_read_state_survives_independent_scalar_errors_and_invalid_ranges() {
    for failed_code in [VCP_BRIGHTNESS, VCP_CONTRAST] {
        for invalid_range in [false, true] {
            let mut transport = state_reads(Ok((0x0F11, 0)));
            transport
                .replies
                .iter_mut()
                .find(|(code, _)| *code == failed_code)
                .unwrap()
                .1 = if invalid_range {
                Ok((0x0101, 0x0100))
            } else {
                Err(communication("scalar timeout"))
            };
            let mut traced = Traced::new(transport);
            let state = read_state(monitor_state().info, &mut traced);
            let transport = traced.into_inner();
            assert!(transport.replies.is_empty());
            assert_eq!(state.input_source, InputSource::Hdmi1);
            assert_eq!(state.input_source_read_error, None);
            assert_eq!(state.brightness_read_error.is_some(), failed_code == VCP_BRIGHTNESS);
            assert_eq!(state.contrast_read_error.is_some(), failed_code == VCP_CONTRAST);
            if failed_code == VCP_BRIGHTNESS {
                assert_eq!((state.brightness, state.brightness_max), (0, 100));
                assert_eq!((state.contrast, state.contrast_max), (0x0234, 0x0456));
            } else {
                assert_eq!((state.brightness, state.brightness_max), (0x0123, 0x0345));
                assert_eq!((state.contrast, state.contrast_max), (0, 100));
            }
        }
    }
}

#[test]
fn input_source_read_does_not_change_generic_decoder_serialization_or_writes() {
    for raw in [0x0F0F, 0x1111, 0x0F11, 0x110F, 0xFFFF] {
        assert_eq!(InputSource::from_vcp_value(raw), InputSource::Custom(raw));
    }
    let cases = [
        (InputSource::Vga1, 0x0001),
        (InputSource::Vga2, 0x0002),
        (InputSource::Dvi1, 0x0003),
        (InputSource::Dvi2, 0x0004),
        (decode_input_source(0x110F), 0x000F),
        (InputSource::Dp2, 0x0010),
        (decode_input_source(0x0F11), 0x0011),
        (InputSource::Hdmi2, 0x0012),
        (InputSource::UsbC1, 0x0013),
        (InputSource::UsbC2, 0x0014),
        (InputSource::Custom(0x0F0F), 0x0F0F),
        (InputSource::Custom(0x1111), 0x1111),
        (InputSource::Custom(0x0F11), 0x0F11),
        (InputSource::Custom(0x110F), 0x110F),
        (InputSource::Custom(0xFFFF), 0xFFFF),
    ];
    let mut session = Session::from_endpoints(vec![endpoint(1)], &vec![key(1)]).unwrap();
    for (source, expected) in cases {
        assert_eq!(source.vcp_value(), expected);
        session.set_vcp(&key(1), VCP_INPUT_SOURCE, source.vcp_value()).unwrap();
    }
    assert_eq!(
        *session.endpoints()[0].monitor.writes.borrow(),
        cases.map(|(_, value)| (VCP_INPUT_SOURCE, value))
    );
}

#[test]
fn scalar_read_failures_and_invalid_ranges_remain_unknown_until_valid_read() {
    assert_eq!(scalar_reading(Err("timeout".into())), (0, 100, Some("timeout".into())));
    assert!(scalar_reading(Ok((0, 0))).2.is_some());
    assert!(scalar_reading(Ok((101, 100))).2.is_some());
    assert_eq!(scalar_reading(Ok((120, 255))), (120, 255, None));
    // A valid zero must remain distinguishable from a failed read's default.
    assert_eq!(scalar_reading(Ok((0, 100))), (0, 100, None));
    assert_eq!(
        scalar_reading(Ok((101, 100))).2,
        Some("Invalid monitor value/range: 101 / 100".to_string())
    );
}

const DELL_CAPABILITIES: &str = "(prot(monitor)type(LCD)model(DELL U2723QE)cmds(01 02 03 07 0C E3 F3)vcp(02 04 05 08 0B 0C 10 12 14(05 08 0B) 16 18 1A 60(11 12 0F 10) AC AE B6 C6 C8 C9 D6(01 04) DC(00 03) DF)mswhql(1)mccs_ver(2.2))";

#[test]
fn parses_dell_style_capabilities_into_advertised_controls() {
    let caps = parse_capabilities(DELL_CAPABILITIES).expect("vcp section");
    assert!(caps.contains(VCP_BRIGHTNESS));
    assert!(caps.contains(VCP_CONTRAST));
    assert_eq!(caps.discrete_values(VCP_BRIGHTNESS), None);
    assert_eq!(caps.discrete_values(VCP_INPUT_SOURCE), Some(&[0x11, 0x12, 0x0F, 0x10][..]));
    assert_eq!(caps.discrete_values(VCP_POWER_MODE), Some(&[0x01, 0x04][..]));
    assert!(!caps.contains(0x99));
}

#[test]
fn capabilities_without_a_complete_vcp_section_are_unknown() {
    assert!(parse_capabilities("(prot(monitor)type(LCD))").is_none());
    assert!(parse_capabilities("vcp(10 12").is_none());
    assert!(parse_capabilities("").is_none());
}

#[test]
fn bare_vcp_code_is_continuous_and_parentheses_are_the_value_list() {
    let caps = parse_capabilities("VCP(10 60 (11 12) 12(00 64))").unwrap();
    assert!(caps.contains(0x10));
    assert_eq!(caps.discrete_values(0x10), None);
    assert_eq!(caps.discrete_values(0x60), Some(&[0x11, 0x12][..]));
    assert_eq!(caps.discrete_values(0x12), Some(&[0x00, 0x64][..]));
}

#[test]
fn read_state_leaves_inputs_unset_until_a_usable_list_is_read() {
    let mut transport = state_reads(Ok((0x11, 0)));
    let mut traced = Traced::new(transport);
    let state = read_state(monitor_state().info, &mut traced);
    let transport = traced.into_inner();
    assert!(state.advertised_inputs.is_none());
}

#[test]
fn read_state_stores_advertised_inputs_without_dropping_other_readings() {
    let mut transport = state_reads(Ok((0x11, 0)));
    transport.capabilities = Some("vcp(60(11 0F))".into());
    let mut traced = Traced::new(transport);
    let state = read_state(monitor_state().info, &mut traced);
    let transport = traced.into_inner();
    assert_eq!(state.brightness, 0x0123);
    assert_eq!(state.input_source, InputSource::Hdmi1);
    assert_eq!(state.advertised_inputs, Some(vec![InputSource::Hdmi1, InputSource::Dp1]));
}

#[test]
fn read_state_keeps_nonstandard_input_codes() {
    let mut transport = state_reads(Ok((0x11, 0)));
    transport.capabilities = Some("vcp(60(11 0F 1B))".into());
    let mut traced = Traced::new(transport);
    let state = read_state(monitor_state().info, &mut traced);
    let transport = traced.into_inner();
    assert_eq!(
        state.advertised_inputs,
        Some(vec![InputSource::Hdmi1, InputSource::Dp1, InputSource::Custom(0x1B)])
    );
}

#[test]
fn read_state_keeps_other_readings_when_the_input_list_is_unavailable() {
    let mut transport = state_reads(Ok((0x11, 0)));
    let mut traced = Traced::new(transport);
    let state = read_state(monitor_state().info, &mut traced);
    let transport = traced.into_inner();
    assert_eq!(state.brightness, 0x0123);
    assert_eq!(state.input_source, InputSource::Hdmi1);
    assert!(state.advertised_inputs.is_none());
}

#[test]
fn input_and_power_labels_and_codes() {
    assert_eq!(InputSource::Custom(0x42).label(), "Custom (0x42)");
    assert_eq!(InputSource::Dp1.label(), "DisplayPort 1");
    assert_eq!(InputSource::from_vcp_value(0x12), InputSource::Hdmi2);
    assert_eq!(InputSource::from_vcp_value(InputSource::UsbC2.vcp_value()), InputSource::UsbC2);
    assert_eq!(DdcError::NoMonitorsFound.message(), "No monitors with DDC/CI support found. Ensure your monitor supports DDC/CI and it is enabled.");
}
