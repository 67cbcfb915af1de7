use std::collections::HashMap;

use windisplaymanager::config::{ActionTarget, ActionType, HotkeyActionSpec, MonitorInput, MonitorTarget};
use windisplaymanager::ddc::InputSource;
use windisplaymanager::editor::{
    action_master_selected, action_monitor_selected, explicit_monitor_ids, format_hotkey, parse_value_draft,
    parse_vcp_draft, resolve_triggered_actions, set_action_target, set_all_monitors, set_monitor_input,
    toggle_action_monitor,
};

fn ids(list: &[u32]) -> Vec<MonitorTarget> {
    list.iter().map(|&id| id.into()).collect()
}

#[test]
fn decimal_drafts_allow_incomplete_text_and_validate_bounds() {
    assert_eq!(parse_value_draft(""), Ok(None));
    assert_eq!(parse_value_draft("-"), Ok(None));
    assert_eq!(parse_value_draft("+"), Ok(None));
    assert_eq!(parse_value_draft("-200"), Ok(Some(-200)));
    assert_eq!(parse_value_draft("200"), Ok(Some(200)));
    assert!(parse_value_draft("201").is_err());
    assert!(parse_value_draft("1.5").is_err());
}

#[test]
fn vcp_drafts_accept_optional_prefix_and_reject_overflow() {
    assert_eq!(parse_vcp_draft(""), Ok(None));
    assert_eq!(parse_vcp_draft("0x"), Ok(None));
    assert_eq!(parse_vcp_draft("ff"), Ok(Some(0xff)));
    assert_eq!(parse_vcp_draft("0X10"), Ok(Some(0x10)));
    assert!(parse_vcp_draft("100").is_err());
    assert!(parse_vcp_draft("-1").is_err());
    assert!(parse_vcp_draft("xy").is_err());
}

#[test]
fn individual_toggle_materializes_all_mode_without_forcing_it_back() {
    let mut action = HotkeyActionSpec {
        target: ActionTarget::InputSource,
        all_monitors: true,
        input_source: InputSource::Hdmi1,
        ..Default::default()
    };

    toggle_action_monitor(&mut action, &ids(&[1, 2]), 1.into(), false);
    assert!(!action.all_monitors);
    assert_eq!(action.monitors, ids(&[2]));
    assert_eq!(action.monitor_inputs.len(), 1);
    assert_eq!(action.monitor_inputs[0].monitor_id, 2.into());

    action.monitor_inputs[0].input_source = InputSource::Dp1;
    toggle_action_monitor(&mut action, &ids(&[1, 2]), 1.into(), true);
    assert!(action_master_selected(&action, &ids(&[1, 2])));
    assert!(!action.all_monitors);
    assert_eq!(action.monitor_inputs[0].input_source, InputSource::Dp1);
}

#[test]
fn empty_detection_is_not_aggregate_all_and_off_uses_monitor_ids() {
    let mut action = HotkeyActionSpec {
        action_type: ActionType::Off,
        target: ActionTarget::InputSource,
        all_monitors: false,
        monitors: ids(&[7]),
        monitor_inputs: vec![MonitorInput { monitor_id: 8.into(), input_source: InputSource::Dp1 }],
        ..Default::default()
    };
    assert!(!action_master_selected(&action, &[]));
    assert_eq!(explicit_monitor_ids(&action), ids(&[7]));

    toggle_action_monitor(&mut action, &ids(&[7]), 7.into(), true);
    assert_eq!(action.monitors, ids(&[7]));
    assert!(action_monitor_selected(&action, &7.into()));
}

#[test]
fn trigger_resolves_latest_payload_for_same_os_id() {
    let id = 42;
    let mut action_map = HashMap::new();
    action_map.insert(id, vec![HotkeyActionSpec::default()]);
    action_map.insert(
        id,
        vec![HotkeyActionSpec {
            action_type: ActionType::Offset,
            target: ActionTarget::Contrast,
            all_monitors: false,
            monitors: ids(&[3]),
            value: -17,
            ..Default::default()
        }],
    );

    let actions = resolve_triggered_actions(true, false, &action_map, id).unwrap();
    assert_eq!(actions.len(), 1);
    assert_eq!(actions[0].target, ActionTarget::Contrast);
    assert_eq!(actions[0].value, -17);
    assert_eq!(actions[0].monitors, ids(&[3]));
    assert!(resolve_triggered_actions(false, false, &action_map, id).is_none());
    assert!(resolve_triggered_actions(true, true, &action_map, id).is_none());
    assert!(resolve_triggered_actions(true, false, &action_map, 999).is_none());
}

#[test]
fn hotkey_text_lists_modifiers_in_order() {
    assert_eq!(format_hotkey(true, false, true, false, "F1"), "Ctrl + Shift + F1");
    assert_eq!(format_hotkey(false, false, false, false, ""), "");
}

#[test]
fn changing_the_target_keeps_monitors_and_drops_unsupported_offsets() {
    let mut action = HotkeyActionSpec {
        action_type: ActionType::Offset,
        target: ActionTarget::Brightness,
        all_monitors: false,
        monitors: ids(&[1, 2]),
        input_source: InputSource::Dp2,
        ..Default::default()
    };
    set_action_target(&mut action, ActionTarget::InputSource);
    assert_eq!(action.action_type, ActionType::Assign);
    assert_eq!(action.monitor_inputs.len(), 2);
    assert_eq!(action.monitor_inputs[1].monitor_id, 2.into());
    assert_eq!(action.monitor_inputs[1].input_source, InputSource::Dp2);
    action.monitor_inputs[0].input_source = InputSource::Hdmi2;
    set_action_target(&mut action, ActionTarget::Contrast);
    assert_eq!(action.monitors, ids(&[1, 2]));
    assert_eq!(action.action_type, ActionType::Assign);
}

#[test]
fn per_monitor_inputs_replace_earlier_entries() {
    let mut action = HotkeyActionSpec {
        target: ActionTarget::InputSource,
        all_monitors: false,
        monitors: ids(&[1, 2]),
        monitor_inputs: vec![
            MonitorInput { monitor_id: 1.into(), input_source: InputSource::Hdmi1 },
            MonitorInput { monitor_id: 2.into(), input_source: InputSource::Hdmi1 },
        ],
        ..Default::default()
    };
    set_monitor_input(&mut action, 1.into(), Some(InputSource::Dp1));
    assert_eq!(action.monitors, ids(&[2, 1]));
    assert_eq!(action.monitor_inputs[1].input_source, InputSource::Dp1);
    set_monitor_input(&mut action, 2.into(), None);
    assert_eq!(action.monitors, ids(&[1]));
    assert_eq!(action.monitor_inputs.len(), 1);
    set_all_monitors(&mut action, false);
    assert!(action.monitors.is_empty() && action.monitor_inputs.is_empty());
    set_all_monitors(&mut action, true);
    assert!(action.all_monitors);
}
