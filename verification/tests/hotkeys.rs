use windisplaymanager::config::{
    new_id, ActionTarget, Hotkey, HotkeyActionSpec, HotkeyBinding, HotkeyConfig,
};
use windisplaymanager::hotkeys::{hotkey_status, normalized_ids, registered_action_map, should_emit};
use windisplaymanager::keys::{
    bind_recorded_key, bound_status, key_to_string, validate_action_drafts, value_draft_text, vcp_draft_text,
    ActionDraft, NamedKey, PressedKey, DUPLICATE_BINDING,
};

fn binding(key: &str) -> HotkeyBinding {
    HotkeyBinding { ctrl: true, alt: false, shift: false, win: false, key: key.into() }
}

fn hotkey(n: u64, key: &str) -> Hotkey {
    let mut hotkey = Hotkey::new_empty(new_id(0, n));
    hotkey.binding = binding(key);
    hotkey
}

#[test]
fn subscription_emits_only_registered_press_events() {
    let ids = [7, 42];
    assert!(should_emit(&ids, 7, true));
    assert!(!should_emit(&ids, 7, false));
    assert!(!should_emit(&ids, 8, true));
}

#[test]
fn registered_ids_are_sorted_without_repeats() {
    assert_eq!(normalized_ids(&vec![42, 7, 42, 1, 7]), vec![1, 7, 42]);
    assert_eq!(normalized_ids(&vec![]), Vec::<u32>::new());
}

#[test]
fn status_marks_only_registered_bindings_live() {
    let hotkeys = vec![hotkey(1, "F1"), hotkey(2, "F2"), hotkey(3, "")];
    let f1 = hotkeys[0].binding.to_hotkey().unwrap();
    let status = hotkey_status(&hotkeys, true, &vec![f1]);
    assert_eq!(status.len(), 3);
    assert_eq!(status[0], (hotkeys[0].id.clone(), true));
    assert_eq!(status[1], (hotkeys[1].id.clone(), false));
    assert_eq!(status[2], (hotkeys[2].id.clone(), false));
    let off = hotkey_status(&hotkeys, false, &vec![f1]);
    assert!(off.iter().all(|(_, live)| !live));
}

#[test]
fn action_map_keeps_only_registered_ids_and_is_empty_when_disabled() {
    let mut first = hotkey(1, "F1");
    first.actions = vec![HotkeyActionSpec { target: ActionTarget::Contrast, value: 5, ..Default::default() }];
    let second = hotkey(2, "F2");
    let f1 = first.binding.to_hotkey().unwrap();
    let f2 = second.binding.to_hotkey().unwrap();
    let config = HotkeyConfig { hotkeys: vec![first, second], ..Default::default() };
    let map = registered_action_map(&config, true, &vec![f1]);
    assert_eq!(map.len(), 1);
    assert_eq!(map[&f1][0].target, ActionTarget::Contrast);
    assert!(!map.contains_key(&f2));
    assert!(registered_action_map(&config, false, &vec![f1, f2]).is_empty());
}

#[test]
fn keys_are_named_as_stored() {
    assert_eq!(key_to_string(&PressedKey::Named(NamedKey::F5)), "F5");
    assert_eq!(key_to_string(&PressedKey::Named(NamedKey::PageDown)), "PageDown");
    assert_eq!(key_to_string(&PressedKey::Named(NamedKey::Other)), "");
    assert_eq!(key_to_string(&PressedKey::Character("q".into())), "KeyQ");
    assert_eq!(key_to_string(&PressedKey::Character("Q".into())), "KeyQ");
    assert_eq!(key_to_string(&PressedKey::Character("7".into())), "Digit7");
    assert_eq!(key_to_string(&PressedKey::Character(" ".into())), "Space");
    assert_eq!(key_to_string(&PressedKey::Character("é".into())), "");
    assert_eq!(key_to_string(&PressedKey::Character(String::new())), "");
    assert_eq!(key_to_string(&PressedKey::Unidentified), "");
}

#[test]
fn recording_refuses_a_combination_another_hotkey_has() {
    let mut hotkeys = vec![hotkey(1, "F1"), hotkey(2, "F2")];
    let recording = hotkeys[1].id.clone();
    assert!(bind_recorded_key(&mut hotkeys, &recording, binding("F1")).is_err());
    assert_eq!(hotkeys[1].binding.key, "F2");
    // Re-recording the same combination on its own hotkey is allowed.
    let own = hotkeys[0].id.clone();
    assert!(bind_recorded_key(&mut hotkeys, &own, binding("F1")).is_ok());
    assert!(bind_recorded_key(&mut hotkeys, &recording, binding("F3")).is_ok());
    assert_eq!(hotkeys[1].binding.key, "F3");
    assert_eq!(hotkeys[0].binding.key, "F1");
    assert_eq!(bound_status(&binding("F3")), "Hotkey bound to Ctrl + F3. Remember to save configuration.");
    assert_eq!(DUPLICATE_BINDING, "That key combination is already assigned.");
}

#[test]
fn drafts_must_be_complete_before_saving() {
    let mut first = hotkey(1, "F1");
    first.actions = vec![
        HotkeyActionSpec { target: ActionTarget::Profile, ..Default::default() },
        HotkeyActionSpec { target: ActionTarget::CustomVcp, ..Default::default() },
    ];
    let hotkeys = vec![first];
    let id = hotkeys[0].id.clone();
    let draft = |value: &str, vcp: &str| ActionDraft { hotkey_id: id.clone(), index: 1, value: value.into(), vcp: vcp.into() };
    assert_eq!(
        validate_action_drafts(&hotkeys, &vec![]),
        Some("Hotkey Ctrl + F1 action 2 has an invalid Value.".to_string())
    );
    assert_eq!(
        validate_action_drafts(&hotkeys, &vec![draft("10", "0x1G")]),
        Some("Hotkey Ctrl + F1 action 2 has an invalid VCP code.".to_string())
    );
    assert_eq!(validate_action_drafts(&hotkeys, &vec![draft("10", "0x10")]), None);
    assert_eq!(value_draft_text(-7), "-7");
    assert_eq!(vcp_draft_text(0x0A), "0x0A");
}
