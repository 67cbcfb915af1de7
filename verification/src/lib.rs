//! Monitor control library: DDC/CI value logic, hotkey action planning, the
//! serialized hardware work queue, and fail-closed display-layout remapping.
use vstd::prelude::*;

pub mod action_editor;
pub mod actions;
pub mod capabilities;
pub mod config;
pub mod coordination;
pub mod ccd;
pub mod persistence;
pub mod profiles;
pub mod remap;
pub mod startup;
pub mod status;
pub mod ddc;
pub mod debounce;
pub mod editor;
pub mod hardware_queue;
pub mod hotkeys;
pub mod icons;
pub mod keys;
pub mod laws;
pub mod monitor_views;
pub mod monitors;
pub mod text;
pub mod tray;

verus! {
} // verus!
