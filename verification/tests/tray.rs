use windisplaymanager::icons::AppIcon;
use windisplaymanager::tray::{menu_message, profile_item_id, profile_menu_items, TrayMessage, PROFILE_LOAD_PREFIX};

#[test]
fn menu_ids_map_to_requests() {
    assert_eq!(menu_message("MENU_ID_SHOW"), Some(TrayMessage::ShowWindow));
    assert_eq!(menu_message("MENU_ID_EXIT"), Some(TrayMessage::Exit));
    assert_eq!(menu_message("MENU_ID_SAVE_CURRENT"), Some(TrayMessage::SaveCurrentProfile));
    assert_eq!(menu_message("MENU_ID_TURN_OFF"), Some(TrayMessage::TurnOffMonitors));
    assert_eq!(menu_message("PROFILE_NONE"), None);
    assert_eq!(menu_message("menu_id_show"), None);
}

#[test]
fn profile_items_roundtrip_names() {
    let id = profile_item_id("Home: Dual");
    assert_eq!(id, format!("{PROFILE_LOAD_PREFIX}Home: Dual"));
    assert_eq!(menu_message(&id), Some(TrayMessage::LoadProfile("Home: Dual".into())));
    assert_eq!(menu_message("PROFILE_LOAD::"), Some(TrayMessage::LoadProfile(String::new())));
}

#[test]
fn empty_profile_lists_show_a_disabled_placeholder() {
    let items = profile_menu_items(&vec![]);
    assert_eq!(items.len(), 1);
    assert_eq!(items[0].id, "PROFILE_NONE");
    assert_eq!(items[0].label, "(no profiles)");
    assert!(!items[0].enabled);
    let items = profile_menu_items(&vec!["a".to_string(), "b".to_string()]);
    assert_eq!(items.len(), 2);
    assert_eq!(items[1].id, "PROFILE_LOAD::b");
    assert_eq!(items[1].label, "b");
    assert!(items[1].enabled);
}

#[test]
fn icons_name_their_bundled_images() {
    assert_eq!(AppIcon::Trash.file_name(), "trash-symbolic.svg");
    assert_eq!(AppIcon::Refresh.file_name(), "refresh-symbolic.svg");
}
