use windisplaymanager::action_editor::{action_editor_view, ValueControl};
use windisplaymanager::config::{ActionTarget, ActionType, HotkeyActionSpec, MonitorInput, MonitorTarget};
use windisplaymanager::ddc::{InputSource, MonitorInfo, MonitorKey, PowerMode};

fn key(id: u32) -> MonitorKey {
    MonitorKey::from_device_path(&format!(r"\\?\DISPLAY#model#{id}")).unwrap()
}

fn info(id: u32) -> MonitorInfo {
    MonitorInfo {
        id,
        key: key(id),
        x: 0,
        y: 0,
        width: 1920,
        height: 1080,
        name: format!("Screen {id}"),
        is_primary: id == 1,
    }
}

#[test]
fn offset_is_offered_only_for_numeric_targets() {
    let mut action = HotkeyActionSpec::default();
    let view = action_editor_view(&action, &vec![info(1)], &Vec::new(), "10", "");
    assert_eq!(view.types, vec![ActionType::Assign, ActionType::Offset, ActionType::Off]);
    assert_eq!(view.selected_type, Some(0));
    assert!(matches!(view.value, Some(ValueControl::Number(None))));
    assert!(view.vcp_code.is_none());

    action.target = ActionTarget::PowerMode;
    action.power_mode = PowerMode::Suspend;
    let view = action_editor_view(&action, &vec![info(1)], &Vec::new(), "", "");
    assert_eq!(view.types, vec![ActionType::Assign, ActionType::Off]);
    assert_eq!(view.targets.as_ref().map(|t| t.1), Some(Some(3)));
    assert!(matches!(view.value, Some(ValueControl::PowerModes(Some(2)))));
}

#[test]
fn turn_off_shows_no_target_or_value() {
    let mut action = HotkeyActionSpec::default();
    action.action_type = ActionType::Off;
    action.target = ActionTarget::Profile;
    let view = action_editor_view(&action, &vec![info(1), info(2)], &Vec::new(), "", "");
    assert!(view.targets.is_none());
    assert!(view.value.is_none());
    assert!(!view.whole_layout);
    assert!(view.all_selected);
    assert_eq!(view.rows.len(), 2);
}

#[test]
fn bad_drafts_report_their_errors() {
    let mut action = HotkeyActionSpec::default();
    action.target = ActionTarget::CustomVcp;
    let view = action_editor_view(&action, &Vec::new(), &Vec::new(), "abc", "0xZZ");
    assert!(matches!(view.value, Some(ValueControl::Number(Some(_)))));
    assert!(matches!(view.vcp_code, Some(Some(_))));
    let view = action_editor_view(&action, &Vec::new(), &Vec::new(), "42", "0x10");
    assert!(matches!(view.value, Some(ValueControl::Number(None))));
    assert!(matches!(view.vcp_code, Some(None)));
}

#[test]
fn profile_actions_list_saved_profiles_and_keep_a_missing_one() {
    let mut action = HotkeyActionSpec::default();
    action.target = ActionTarget::Profile;
    let view = action_editor_view(&action, &Vec::new(), &Vec::new(), "", "");
    assert!(matches!(view.value, Some(ValueControl::NoProfiles)));
    assert!(view.whole_layout);
    assert!(view.rows.is_empty());

    action.profile_name = "Gone".to_string();
    let profiles = vec!["Work".to_string()];
    let view = action_editor_view(&action, &Vec::new(), &profiles, "", "");
    match view.value {
        Some(ValueControl::Profiles(list, selected)) => {
            assert_eq!(list, vec!["Work".to_string(), "Gone".to_string()]);
            assert_eq!(selected, Some(1));
        }
        _ => panic!("expected a profile choice"),
    }
}

#[test]
fn unresolved_targets_get_rebind_choices_and_per_monitor_inputs() {
    let mut action = HotkeyActionSpec::default();
    action.target = ActionTarget::InputSource;
    action.all_monitors = false;
    action.monitors = vec![MonitorTarget::Stable(key(1)), MonitorTarget::LegacyIndex(7)];
    action.monitor_inputs = vec![
        MonitorInput { monitor_id: MonitorTarget::Stable(key(1)), input_source: InputSource::Custom(0x99) },
        MonitorInput { monitor_id: MonitorTarget::LegacyIndex(7), input_source: InputSource::Dp2 },
    ];
    let detected = vec![info(1), info(2)];
    let view = action_editor_view(&action, &detected, &Vec::new(), "", "");
    assert!(view.value.is_none());
    assert!(!view.all_selected);
    assert_eq!(view.rows.len(), 3);
    assert_eq!(view.rows[0].target, MonitorTarget::Stable(key(1)));
    assert!(view.rows[0].monitor.is_some());
    assert!(view.rows[0].selected);
    assert!(view.rows[0].rebind.is_empty());
    let (choices, selected) = view.rows[0].input.clone().unwrap();
    assert_eq!(choices.len(), 11);
    assert_eq!(choices[10], InputSource::Custom(0x99));
    assert_eq!(selected, Some(10));
    assert!(!view.rows[1].selected);
    assert!(view.rows[1].input.is_none());
    assert_eq!(view.rows[2].target, MonitorTarget::LegacyIndex(7));
    assert!(view.rows[2].monitor.is_none());
    assert_eq!(view.rows[2].rebind, vec![key(1), key(2)]);
    assert_eq!(view.rows[2].input.clone().unwrap().1, Some(3));
}
