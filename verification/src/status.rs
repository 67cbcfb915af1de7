//! The texts the window shows about monitors and finished work.
use vstd::prelude::*;
use crate::actions::HardwareOutcome;
use crate::config::Hotkey;
use crate::ddc::{MonitorInfo, power_label};
use crate::text::{decimal, hex2, push_decimal, push_hex2, push_signed, signed_decimal, to_owned_string};

verus! {

/// The navigation entry of a monitor: its name and size, or its number when
/// it has no name.
pub open spec fn nav_text(info: MonitorInfo) -> Seq<char> {
    if info.name@.len() == 0 {
        "Monitor "@ + decimal(info.id as nat)
    } else {
        info.name@ + " ("@ + decimal(info.width as nat) + "x"@ + decimal(info.height as nat) + ")"@
    }
}

/// The navigation entry of a monitor.
pub fn nav_label(info: &MonitorInfo) -> (r: String)
    ensures
        r@ == nav_text(*info),
{
    if info.name.as_str().unicode_len() == 0 {
        let mut s = String::from_str("Monitor ");
        push_decimal(&mut s, info.id as u64);
        s
    } else {
        let mut s = to_owned_string(info.name.as_str());
        s.append(" (");
        push_decimal(&mut s, info.width as u64);
        s.append("x");
        push_decimal(&mut s, info.height as u64);
        s.append(")");
        s
    }
}

/// The heading of a monitor page: its name, or its number.
pub open spec fn header_text(info: MonitorInfo) -> Seq<char> {
    if info.name@.len() == 0 {
        "Monitor "@ + decimal(info.id as nat)
    } else {
        info.name@
    }
}

/// The heading of a monitor page.
pub fn header_label(info: &MonitorInfo) -> (r: String)
    ensures
        r@ == header_text(*info),
{
    if info.name.as_str().unicode_len() == 0 {
        let mut s = String::from_str("Monitor ");
        push_decimal(&mut s, info.id as u64);
        s
    } else {
        to_owned_string(info.name.as_str())
    }
}

/// Size and desktop position of a monitor, marked when it is the primary one.
pub open spec fn placement_text(info: MonitorInfo) -> Seq<char> {
    decimal(info.width as nat) + "x"@ + decimal(info.height as nat) + " at ("@ + signed_decimal(info.x as int) + ", "@
        + signed_decimal(info.y as int) + ")"@ + if info.is_primary {
        " [Primary]"@
    } else {
        Seq::empty()
    }
}

/// Size and desktop position of a monitor.
pub fn resolution_text(info: &MonitorInfo) -> (r: String)
    ensures
        r@ == placement_text(*info),
{
    let mut s = String::new();
    push_decimal(&mut s, info.width as u64);
    s.append("x");
    push_decimal(&mut s, info.height as u64);
    s.append(" at (");
    push_signed(&mut s, info.x as i64);
    s.append(", ");
    push_signed(&mut s, info.y as i64);
    s.append(")");
    if info.is_primary {
        s.append(" [Primary]");
    }
    proof {
        assert(s@ =~= placement_text(*info));
    }
    s
}

/// The status after a discovery.
pub fn detected_status(count: usize) -> (r: String)
    ensures
        r@ == decimal(count as nat) + " monitor(s) detected"@,
{
    let mut s = String::new();
    push_decimal(&mut s, count as u64);
    s.append(" monitor(s) detected");
    proof {
        assert(s@ =~= decimal(count as nat) + " monitor(s) detected"@);
    }
    s
}

/// The status after a failed whole-monitor read.
pub fn read_failed_status(id: u32, error: &str) -> (r: String)
    ensures
        r@ == "Could not read monitor "@ + decimal(id as nat) + ": "@ + error@,
{
    let mut s = String::from_str("Could not read monitor ");
    push_decimal(&mut s, id as u64);
    s.append(": ");
    s.append(error);
    s
}

/// The status after a failed discovery.
pub fn discovery_failed_status(error: &str) -> (r: String)
    ensures
        r@ == "Discovery failed; dependent jobs canceled. Retry refresh: "@ + error@,
{
    let mut s = String::from_str("Discovery failed; dependent jobs canceled. Retry refresh: ");
    s.append(error);
    s
}

/// The status after changing the start-with-Windows settings.
pub open spec fn startup_text(enabled: bool, minimized: bool) -> Seq<char> {
    if !enabled {
        "Will not start with Windows"@
    } else if minimized {
        "Will start with Windows, minimized to the tray"@
    } else {
        "Will start with Windows"@
    }
}

/// The status after changing the start-with-Windows settings.
pub fn startup_status(enabled: bool, minimized: bool) -> (r: String)
    ensures
        r@ == startup_text(enabled, minimized),
{
    if !enabled {
        String::from_str("Will not start with Windows")
    } else if minimized {
        String::from_str("Will start with Windows, minimized to the tray")
    } else {
        String::from_str("Will start with Windows")
    }
}

/// What the status line says about a finished job; slider and input writes
/// say nothing (their controls show the result).
pub open spec fn outcome_text(result: Result<HardwareOutcome, String>) -> Option<Seq<char>> {
    match result {
        Ok(HardwareOutcome::BrightnessApplied { .. }) => None,
        Ok(HardwareOutcome::ContrastApplied { .. }) => None,
        Ok(HardwareOutcome::InputSourceApplied { .. }) => None,
        Ok(HardwareOutcome::PowerModeApplied { monitor_id, mode }) => Some(
            "Monitor "@ + monitor_id@ + " power mode set to "@ + power_label(mode) + "."@,
        ),
        Ok(HardwareOutcome::CustomVcpApplied { monitor_id, code, value }) => Some(
            "Monitor "@ + monitor_id@ + " VCP 0x"@ + hex2(code as nat) + " set to "@ + decimal(value as nat) + "."@,
        ),
        Ok(HardwareOutcome::ProfileApplied { name }) => Some(
            "Applied profile '"@ + name@ + "'; rediscovering monitors..."@,
        ),
        Ok(HardwareOutcome::ProfileSaved { name }) => Some("Saved profile '"@ + name@ + "'."@),
        Ok(HardwareOutcome::MonitorsPoweredOff) => Some("Monitors turned off."@),
        Err(error) => Some(error@),
    }
}

/// What the status line says about a finished job.
pub fn outcome_status(result: &Result<HardwareOutcome, String>) -> (r: Option<String>)
    ensures
        match r {
            Some(text) => outcome_text(*result) == Some(text@),
            None => outcome_text(*result) is None,
        },
{
    match result {
        Ok(HardwareOutcome::BrightnessApplied { .. }) => None,
        Ok(HardwareOutcome::ContrastApplied { .. }) => None,
        Ok(HardwareOutcome::InputSourceApplied { .. }) => None,
        Ok(HardwareOutcome::PowerModeApplied { monitor_id, mode }) => {
            let mut s = String::from_str("Monitor ");
            s.append(monitor_id.as_str());
            s.append(" power mode set to ");
            s.append(mode.label().as_str());
            s.append(".");
            Some(s)
        },
        Ok(HardwareOutcome::CustomVcpApplied { monitor_id, code, value }) => {
            let mut s = String::from_str("Monitor ");
            s.append(monitor_id.as_str());
            s.append(" VCP 0x");
            push_hex2(&mut s, *code as u64);
            s.append(" set to ");
            push_decimal(&mut s, *value as u64);
            s.append(".");
            Some(s)
        },
        Ok(HardwareOutcome::ProfileApplied { name }) => {
            let mut s = String::from_str("Applied profile '");
            s.append(name.as_str());
            s.append("'; rediscovering monitors...");
            Some(s)
        },
        Ok(HardwareOutcome::ProfileSaved { name }) => {
            let mut s = String::from_str("Saved profile '");
            s.append(name.as_str());
            s.append("'.");
            Some(s)
        },
        Ok(HardwareOutcome::MonitorsPoweredOff) => Some(String::from_str("Monitors turned off.")),
        Err(error) => Some(to_owned_string(error.as_str())),
    }
}


/// The state shown on a hotkey's card: "Unbound" without a key, else
/// "Active" when it is registered and hotkeys are on (`active`), else
/// "Inactive".
pub open spec fn card_status_text(hotkey: Hotkey, active: bool) -> Seq<char> {
    if hotkey.binding.key@.len() == 0 {
        "Unbound"@
    } else if active {
        "Active"@
    } else {
        "Inactive"@
    }
}

/// The state shown on a hotkey's card (see [`card_status_text`]).
pub fn hotkey_card_status(hotkey: &Hotkey, active: bool) -> (r: &'static str)
    ensures
        r@ == card_status_text(*hotkey, active),
{
    if hotkey.binding.key.as_str().unicode_len() == 0 {
        "Unbound"
    } else if active {
        "Active"
    } else {
        "Inactive"
    }
}

} // verus!
