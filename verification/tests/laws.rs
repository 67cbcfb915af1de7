use windisplaymanager::ddc::{decode_input_source, offset_value, InputSource, MonitorKey};
use windisplaymanager::config::string_to_code;
use windisplaymanager::keys::{key_to_string, NamedKey, PressedKey};
use windisplaymanager::profiles::profile_file_name;

#[test]
fn input_values_read_back_as_written() {
    for source in [
        InputSource::Vga1,
        InputSource::Dvi2,
        InputSource::Dp1,
        InputSource::Hdmi2,
        InputSource::UsbC2,
        InputSource::Custom(0x1B),
    ] {
        assert_eq!(InputSource::from_vcp_value(source.vcp_value()), source);
    }
    // A custom value that names a standard input reads back as that input.
    assert_eq!(InputSource::from_vcp_value(InputSource::Custom(0x11).vcp_value()), InputSource::Hdmi1);
}

#[test]
fn high_byte_never_selects_the_input() {
    for high in [0x00u16, 0x0F, 0x11, 0xFF] {
        assert_eq!(decode_input_source((high << 8) | 0x12), decode_input_source(0x12));
    }
}

#[test]
fn device_keys_ignore_case_and_resolve_again() {
    let upper = MonitorKey::from_device_path(r"\\?\DISPLAY#DEL41B8#5&ABC").unwrap();
    let lower = MonitorKey::from_device_path(r"\\?\display#del41b8#5&abc").unwrap();
    assert_eq!(upper, lower);
    assert!(upper.is_supported());
    assert!(!MonitorKey::from_stored("future-key:v2:1".into()).is_supported());
}

#[test]
fn offsets_are_clamped_to_the_range() {
    assert_eq!(offset_value(90, 100, 50).unwrap(), 100);
    assert_eq!(offset_value(10, 100, -50).unwrap(), 0);
    assert_eq!(offset_value(10, 100, 5).unwrap(), 15);
    assert!(offset_value(101, 100, 1).is_err());
    assert!(offset_value(0, 0, 1).is_err());
}

#[test]
fn profile_files_never_leave_the_profile_directory() {
    for name in ["../../etc/passwd", r"C:\Windows\x", "a/b\\c:d", "..\\..\\up"] {
        let file = profile_file_name(name).unwrap();
        assert!(!file.contains('/') && !file.contains('\\') && !file.contains(':'), "{file}");
        assert!(file.ends_with(".json"));
    }
}

#[test]
fn recorded_named_keys_and_space_have_key_codes() {
    for key in [NamedKey::F1, NamedKey::F12, NamedKey::ArrowLeft, NamedKey::PageDown, NamedKey::Escape, NamedKey::Tab] {
        let name = key_to_string(&PressedKey::Named(key));
        assert_eq!(string_to_code(&name), Some(name.clone()));
    }
    let space = key_to_string(&PressedKey::Character(" ".into()));
    assert_eq!(space, "Space");
    assert_eq!(string_to_code(&space), Some("Space".to_string()));
    assert_eq!(key_to_string(&PressedKey::Named(NamedKey::Other)), "");
    // A recorded letter is stored as `KeyA`, a name the key-code table does not list.
    assert_eq!(key_to_string(&PressedKey::Character("a".into())), "KeyA");
    assert_eq!(string_to_code("KeyA"), None);
    assert_eq!(string_to_code("A"), Some("KeyA".to_string()));
}
