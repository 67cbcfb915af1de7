use windisplaymanager::config::{
    hotkey_headings, new_id, ActionTarget, ActionType, AppConfig, ConfigStore, Hotkey, HotkeyActionSpec, HotkeyBinding,
    HotkeyConfig, LegacyInputSwitchBinding, LegacyPowerModeBinding, LegacyStepBinding, LegacyStepDirection,
    MonitorInput, MonitorTarget, TurnOffBehavior,
};
use windisplaymanager::ddc::{InputSource, MonitorInfo, MonitorKey, PowerMode};
use windisplaymanager::persistence::{LoadOutcome, SCHEMA_VERSION};

fn key(id: u32) -> MonitorKey {
    MonitorKey::from_device_path(&format!(r"\\?\DISPLAY#model#{id}")).unwrap()
}

fn live_info() -> MonitorInfo {
    MonitorInfo {
        id: 1,
        key: key(1),
        x: 0,
        y: 0,
        width: 1920,
        height: 1080,
        name: "Test monitor".into(),
        is_primary: true,
    }
}

fn empty_hotkey(n: u64) -> Hotkey {
    Hotkey::new_empty(new_id(0, n))
}

#[test]
fn explicit_rebind_preserves_input_values_and_rejects_collisions() {
    let mut action = HotkeyActionSpec {
        target: ActionTarget::InputSource,
        all_monitors: false,
        monitors: vec![1.into(), 2.into()],
        monitor_inputs: vec![
            MonitorInput { monitor_id: 1.into(), input_source: InputSource::Hdmi2 },
            MonitorInput { monitor_id: 2.into(), input_source: InputSource::Dp1 },
        ],
        ..Default::default()
    };
    let live = live_info();
    assert!(action.resolve_monitors(std::slice::from_ref(&live)).is_err());
    action.rebind_target(&1.into(), live.key.clone()).unwrap();
    assert_eq!(action.monitor_inputs[0].input_source, InputSource::Hdmi2);
    assert_eq!(action.monitors[0], MonitorTarget::Stable(live.key.clone()));
    assert!(action.rebind_target(&2.into(), live.key.clone()).is_err());
    assert_eq!(action.monitor_inputs[1].monitor_id, 2.into());
    assert_eq!(action.monitor_inputs[1].input_source, InputSource::Dp1);
    // The still-unresolved second entry blocks the entire action.
    assert!(action.resolve_monitors(std::slice::from_ref(&live)).is_err());
    action.remove_target(&2.into());
    assert_eq!(action.resolve_monitors(&[live]).unwrap(), [1]);
    assert_eq!(action.monitor_inputs[0].input_source, InputSource::Hdmi2);
}

#[test]
fn whole_action_resolution_rejects_legacy_missing_duplicate_and_empty_targets_including_off() {
    let live = live_info();
    let stable = MonitorTarget::Stable(live.key.clone());
    for action_type in [ActionType::Assign, ActionType::Offset, ActionType::Off] {
        for targets in [
            vec![stable.clone(), 1.into()],
            vec![stable.clone(), MonitorTarget::Stable(key(2))],
            vec![stable.clone(), stable.clone()],
            Vec::new(),
        ] {
            let action = HotkeyActionSpec { action_type, all_monitors: false, monitors: targets, ..Default::default() };
            assert!(action.resolve_monitors(std::slice::from_ref(&live)).is_err());
        }
    }
    let action = HotkeyActionSpec { all_monitors: true, monitors: vec![99.into()], ..Default::default() };
    assert_eq!(action.resolve_monitors(std::slice::from_ref(&live)).unwrap(), [1]);
    assert!(action.resolve_monitors(&[]).is_err());
    assert!(action.resolve_monitors(&[live.clone(), live]).is_err());
}

#[test]
fn explicit_resolution_uses_keys_after_numbers_change() {
    let mut live = live_info();
    let action = HotkeyActionSpec {
        all_monitors: false,
        monitors: vec![MonitorTarget::Stable(live.key.clone())],
        ..Default::default()
    };
    live.id = 27;
    assert_eq!(action.resolve_monitors(&[live]).unwrap(), [27]);
}

#[test]
fn blank_hotkey_labels_are_numbered_and_custom_labels_skip_the_count() {
    let mut hotkeys = vec![empty_hotkey(1), empty_hotkey(2), empty_hotkey(3), empty_hotkey(4)];
    hotkeys[1].label = "  Work  ".into();
    hotkeys[2].label = "   ".into();

    let headings = hotkey_headings(&hotkeys);
    assert_eq!(headings[0].title, "Hotkey (1)");
    assert_eq!(headings[0].fallback, "Hotkey (1)");
    assert_eq!(headings[1].title, "Work");
    assert_eq!(headings[1].fallback, "Hotkey (2)");
    assert_eq!(headings[2].title, "Hotkey (2)");
    assert_eq!(headings[2].fallback, "Hotkey (2)");
    assert_eq!(headings[3].title, "Hotkey (3)");
    assert_eq!(headings[3].fallback, "Hotkey (3)");
}

#[test]
fn startup_flags_default_off() {
    let defaults = AppConfig::default();
    assert!(!defaults.start_with_windows);
    assert!(!defaults.start_minimized);
    assert!(defaults.hotkeys_enabled);
    assert!(!AppConfig::recovery_placeholder().hotkeys_enabled);
}

#[test]
fn failed_load_blocks_toggle_and_save_until_explicit_retry() {
    let (mut store, outcome) = ConfigStore::open("config.json".into(), LoadOutcome::Failed("bad json".into()));
    assert!(matches!(outcome, LoadOutcome::Failed(_)));
    assert!(store.recovery_error().is_some());
    let mut config = AppConfig::recovery_placeholder();
    for enabled in [true, false] {
        let mut writes = 0;
        assert!(store
            .set_hotkeys_enabled(&mut config, enabled, |_: &AppConfig| { writes += 1; Ok(()) }, || LoadOutcome::Missing)
            .is_err());
        assert_eq!(writes, 0);
        assert!(!config.hotkeys_enabled);
    }
    assert!(store.save(&config, |_: &AppConfig| Ok(()), || LoadOutcome::Missing).is_err());
    assert!(matches!(store.retry(LoadOutcome::Missing), LoadOutcome::Missing));
    assert!(store.recovery_error().is_none());
    assert!(store.save(&AppConfig::default(), |_: &AppConfig| Ok(()), || LoadOutcome::Missing).is_ok());
}

#[test]
fn failed_write_that_finds_corruption_blocks_writes() {
    let (mut store, _) = ConfigStore::open("config.json".into(), LoadOutcome::Missing);
    let mut config = AppConfig::default();
    let result = store.set_hotkeys_enabled(
        &mut config,
        false,
        |_: &AppConfig| Err("disk full".to_string()),
        || LoadOutcome::Failed("corrupted externally".into()),
    );
    assert!(result.is_err());
    assert!(config.hotkeys_enabled);
    assert!(store.recovery_error().is_some());
    assert!(store.save(&config, |_: &AppConfig| Ok(()), || LoadOutcome::Missing).is_err());
}

#[test]
fn backup_recovery_and_reset_lift_the_block() {
    let (mut store, _) = ConfigStore::open("config.json".into(), LoadOutcome::Failed("bad".into()));
    assert!(store.recover_backup(LoadOutcome::Missing, |_: &AppConfig| Ok(())).is_err());
    assert!(store.recover_backup(LoadOutcome::Failed("bad backup".into()), |_: &AppConfig| Ok(())).is_err());
    assert!(store.recovery_error().is_some());
    let good = AppConfig { hotkeys_enabled: false, ..AppConfig::default() };
    let recovered = store.recover_backup(LoadOutcome::Loaded(good), |_: &AppConfig| Ok(())).unwrap();
    assert!(!recovered.hotkeys_enabled);
    assert!(store.recovery_error().is_none());
    assert!(matches!(store.retry(LoadOutcome::Failed("future schema".into())), LoadOutcome::Failed(_)));
    let reset = store.reset_confirmed(|_: &AppConfig| Ok(())).unwrap();
    assert!(reset.hotkeys_enabled);
    assert!(store.recovery_error().is_none());
    assert_eq!(store.path(), "config.json");
}

#[test]
fn hotkey_ids_are_made_from_clock_and_counter() {
    assert_eq!(new_id(12, 3), "hk-12-3");
    let hotkey = Hotkey::new_for_profile(new_id(5, 0), "Work".into());
    assert_eq!(hotkey.actions.len(), 1);
    assert_eq!(hotkey.actions[0].target, ActionTarget::Profile);
    assert_eq!(hotkey.actions[0].profile_name, "Work");
}

#[test]
fn writes_see_the_new_setting_and_failed_recovery_keeps_the_block() {
    let (mut store, _) = ConfigStore::open("config.json".into(), LoadOutcome::Missing);
    let mut config = AppConfig::default();
    let mut written = None;
    store
        .set_hotkeys_enabled(&mut config, false, |c: &AppConfig| { written = Some(c.hotkeys_enabled); Ok(()) }, || LoadOutcome::Missing)
        .unwrap();
    assert_eq!(written, Some(false));
    assert!(!config.hotkeys_enabled);

    assert!(matches!(store.retry(LoadOutcome::Failed("bad".into())), LoadOutcome::Failed(_)));
    let good = AppConfig { hotkeys_enabled: false, ..AppConfig::default() };
    let result = store.recover_backup(LoadOutcome::Loaded(good), |_: &AppConfig| Err("read-only".to_string()));
    assert_eq!(result.err(), Some("read-only".to_string()));
    assert!(store.recovery_error().is_some());
    assert_eq!(store.reset_confirmed(|_: &AppConfig| Err("denied".to_string())).err(), Some("denied".to_string()));
    assert!(store.recovery_error().is_some());
}

fn ctrl(key: &str) -> HotkeyBinding {
    HotkeyBinding { ctrl: true, alt: false, shift: false, win: false, key: key.into() }
}

#[test]
fn legacy_bindings_migrate_to_explicit_action_targets() {
    let mut config = AppConfig {
        schema_version: 0,
        hotkeys: HotkeyConfig {
            hotkeys: Vec::new(),
            brightness_step: 7,
            contrast_step: 9,
            input_switch_bindings: vec![LegacyInputSwitchBinding {
                monitor_id: 4,
                input_source: InputSource::Hdmi2,
                hotkey: ctrl("F1"),
            }],
            brightness_bindings: vec![LegacyStepBinding {
                monitor_id: 5,
                direction: LegacyStepDirection::Down,
                hotkey: ctrl("F2"),
            }],
            contrast_bindings: vec![LegacyStepBinding {
                monitor_id: 6,
                direction: LegacyStepDirection::Up,
                hotkey: ctrl("F3"),
            }],
            power_mode_bindings: vec![LegacyPowerModeBinding {
                monitor_id: 7,
                power_mode: PowerMode::Off,
                hotkey: ctrl("F4"),
            }],
            profile_bindings: Vec::new(),
        },
        refresh_interval_secs: 0,
        hotkeys_enabled: true,
        turn_off_behavior: TurnOffBehavior::Disabled,
        start_with_windows: false,
        start_minimized: false,
    };
    let next = config.finish_decode(42, 0);
    assert_eq!(next, 4);
    assert_eq!(config.schema_version, SCHEMA_VERSION);
    assert!(config.hotkeys.input_switch_bindings.is_empty());
    assert!(config.hotkeys.brightness_bindings.is_empty());
    assert!(config.hotkeys.contrast_bindings.is_empty());
    assert!(config.hotkeys.power_mode_bindings.is_empty());

    assert_eq!(config.hotkeys.hotkeys.len(), 4);
    assert_eq!(config.hotkeys.hotkeys[0].id, "hk-42-0");
    assert_eq!(config.hotkeys.hotkeys[3].id, "hk-42-3");
    assert_eq!(config.hotkeys.hotkeys[1].binding.key, "F2");
    let input = &config.hotkeys.hotkeys[0].actions[0];
    assert!(!input.all_monitors);
    assert_eq!(input.monitors, vec![MonitorTarget::from(4)]);
    assert_eq!(input.monitor_inputs.len(), 1);
    assert_eq!(input.monitor_inputs[0].monitor_id, MonitorTarget::from(4));
    assert_eq!(input.monitor_inputs[0].input_source, InputSource::Hdmi2);

    let brightness = &config.hotkeys.hotkeys[1].actions[0];
    assert!(!brightness.all_monitors);
    assert_eq!(brightness.monitors, vec![MonitorTarget::from(5)]);
    assert_eq!(brightness.value, -7);

    let contrast = &config.hotkeys.hotkeys[2].actions[0];
    assert!(!contrast.all_monitors);
    assert_eq!(contrast.monitors, vec![MonitorTarget::from(6)]);
    assert_eq!(contrast.value, 9);

    let power = &config.hotkeys.hotkeys[3].actions[0];
    assert!(!power.all_monitors);
    assert_eq!(power.monitors, vec![MonitorTarget::from(7)]);
    assert_eq!(power.power_mode, PowerMode::Off);

    // A second migration finds nothing left to move.
    let ids: Vec<String> = config.hotkeys.hotkeys.iter().map(|h| h.id.clone()).collect();
    assert_eq!(config.finish_decode(43, next), next);
    let again: Vec<String> = config.hotkeys.hotkeys.iter().map(|h| h.id.clone()).collect();
    assert_eq!(again, ids);
}
