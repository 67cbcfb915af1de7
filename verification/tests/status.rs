use windisplaymanager::actions::HardwareOutcome;
use windisplaymanager::ddc::{power_mode_index, MonitorInfo, MonitorKey, PowerMode};
use windisplaymanager::status::{
    detected_status, discovery_failed_status, header_label, nav_label, outcome_status, read_failed_status,
    resolution_text, startup_status,
};

fn info(name: &str) -> MonitorInfo {
    MonitorInfo {
        id: 2,
        key: MonitorKey::from_device_path(r"\\?\DISPLAY#model#2").unwrap(),
        x: -1920,
        y: 0,
        width: 1920,
        height: 1080,
        name: name.into(),
        is_primary: true,
    }
}

#[test]
fn monitor_labels_use_names_or_numbers() {
    assert_eq!(nav_label(&info("")), "Monitor 2");
    assert_eq!(nav_label(&info("DELL U2723QE")), "DELL U2723QE (1920x1080)");
    assert_eq!(header_label(&info("")), "Monitor 2");
    assert_eq!(header_label(&info("DELL")), "DELL");
    assert_eq!(resolution_text(&info("")), "1920x1080 at (-1920, 0) [Primary]");
    let mut secondary = info("");
    secondary.is_primary = false;
    assert_eq!(resolution_text(&secondary), "1920x1080 at (-1920, 0)");
}

#[test]
fn status_texts() {
    assert_eq!(detected_status(3), "3 monitor(s) detected");
    assert_eq!(read_failed_status(4, "timeout"), "Could not read monitor 4: timeout");
    assert_eq!(discovery_failed_status("x"), "Discovery failed; dependent jobs canceled. Retry refresh: x");
    assert_eq!(startup_status(false, true), "Will not start with Windows");
    assert_eq!(startup_status(true, true), "Will start with Windows, minimized to the tray");
    assert_eq!(startup_status(true, false), "Will start with Windows");
}

#[test]
fn finished_jobs_report_what_changed() {
    let key = MonitorKey::from_device_path(r"\\?\DISPLAY#model#1").unwrap();
    assert_eq!(outcome_status(&Ok(HardwareOutcome::BrightnessApplied { monitor_id: key.clone(), value: 1 })), None);
    assert_eq!(
        outcome_status(&Ok(HardwareOutcome::PowerModeApplied { monitor_id: key.clone(), mode: PowerMode::Standby })),
        Some(format!("Monitor {} power mode set to Standby.", key.as_str()))
    );
    assert_eq!(
        outcome_status(&Ok(HardwareOutcome::CustomVcpApplied { monitor_id: key.clone(), code: 0x0B, value: 300 })),
        Some(format!("Monitor {} VCP 0x0B set to 300.", key.as_str()))
    );
    assert_eq!(
        outcome_status(&Ok(HardwareOutcome::ProfileApplied { name: "Work".into() })),
        Some("Applied profile 'Work'; rediscovering monitors...".to_string())
    );
    assert_eq!(
        outcome_status(&Ok(HardwareOutcome::ProfileSaved { name: "Work".into() })),
        Some("Saved profile 'Work'.".to_string())
    );
    assert_eq!(outcome_status(&Ok(HardwareOutcome::MonitorsPoweredOff)), Some("Monitors turned off.".to_string()));
    assert_eq!(outcome_status(&Err("boom".into())), Some("boom".to_string()));
}

#[test]
fn power_modes_have_fixed_positions() {
    assert_eq!(power_mode_index(PowerMode::On), Some(0));
    assert_eq!(power_mode_index(PowerMode::Off), Some(3));
}

#[test]
fn hotkey_cards_show_unbound_active_or_inactive() {
    let mut hotkey = windisplaymanager::config::Hotkey::new_empty("hk-1-0".into());
    assert_eq!(windisplaymanager::status::hotkey_card_status(&hotkey, true), "Unbound");
    hotkey.binding.key = "F5".into();
    assert_eq!(windisplaymanager::status::hotkey_card_status(&hotkey, true), "Active");
    assert_eq!(windisplaymanager::status::hotkey_card_status(&hotkey, false), "Inactive");
}
