[package]
name = "windisplaymanager"
version = "0.1.4"
edition = "2021"
publish = false

[dependencies]
global-hotkey = "*"
serde = { version = "1", features = ["derive"] }
serde_json = "1"
dirs = "*"
log = "0.4"
env_logger = "*"
ddc = "*"
ddc-winapi = "*"
winreg = "*"
windows-sys = { version = "*", features = ["Win32_Foundation", "Win32_Devices_Display", "Win32_Graphics_Gdi", "Win32_UI_WindowsAndMessaging", "Win32_Storage_FileSystem"] }
