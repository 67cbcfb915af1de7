//! The tray menu's item ids and what a click on each one asks for.
use vstd::prelude::*;
use crate::text::{starts_with, str_eq, push_range};

verus! {

/// What the user asked for from the tray menu.
#[derive(Debug, Clone, PartialEq, Eq)]
pub enum TrayMessage {
    /// Show and focus the main window.
    ShowWindow,
    /// Apply the named profile.
    LoadProfile(String),
    /// Save the current layout as a new profile.
    SaveCurrentProfile,
    /// Turn all monitors off.
    TurnOffMonitors,
    /// Exit the application.
    Exit,
}

pub const MENU_ID_SHOW: &'static str = "MENU_ID_SHOW";

pub const MENU_ID_EXIT: &'static str = "MENU_ID_EXIT";

pub const MENU_ID_SAVE_CURRENT: &'static str = "MENU_ID_SAVE_CURRENT";

pub const MENU_ID_TURN_OFF: &'static str = "MENU_ID_TURN_OFF";

/// The id of the placeholder shown when there are no profiles.
pub const MENU_ID_NO_PROFILES: &'static str = "PROFILE_NONE";

/// Profile items carry the profile name after this prefix.
pub const PROFILE_LOAD_PREFIX: &'static str = "PROFILE_LOAD::";

/// The request a menu item id stands for; other ids (the disabled
/// placeholder, separators) ask for nothing.
pub open spec fn menu_request(id: Seq<char>) -> Option<TrayMessage> {
    if id == MENU_ID_SHOW@ {
        Some(TrayMessage::ShowWindow)
    } else if id == MENU_ID_EXIT@ {
        Some(TrayMessage::Exit)
    } else if id == MENU_ID_SAVE_CURRENT@ {
        Some(TrayMessage::SaveCurrentProfile)
    } else if id == MENU_ID_TURN_OFF@ {
        Some(TrayMessage::TurnOffMonitors)
    } else {
        None
    }
}

/// Whether `id` is a profile item, whose name follows the prefix.
pub open spec fn is_profile_item(id: Seq<char>) -> bool {
    id.len() >= PROFILE_LOAD_PREFIX@.len() && id.subrange(0, PROFILE_LOAD_PREFIX@.len() as int) == PROFILE_LOAD_PREFIX@
}

/// The message for a clicked menu item, or none for an item that asks for
/// nothing. Ids are parsed by text, so a rebuilt menu keeps working.
pub fn menu_message(id: &str) -> (r: Option<TrayMessage>)
    ensures
        menu_request(id@) is Some ==> r == menu_request(id@),
        menu_request(id@) is None && is_profile_item(id@) ==> (r matches Some(TrayMessage::LoadProfile(name))
            && name@ == id@.subrange(PROFILE_LOAD_PREFIX@.len() as int, id@.len() as int)),
        menu_request(id@) is None && !is_profile_item(id@) ==> r is None,
{
    if str_eq(id, MENU_ID_SHOW) {
        Some(TrayMessage::ShowWindow)
    } else if str_eq(id, MENU_ID_EXIT) {
        Some(TrayMessage::Exit)
    } else if str_eq(id, MENU_ID_SAVE_CURRENT) {
        Some(TrayMessage::SaveCurrentProfile)
    } else if str_eq(id, MENU_ID_TURN_OFF) {
        Some(TrayMessage::TurnOffMonitors)
    } else if starts_with(id, PROFILE_LOAD_PREFIX) {
        let mut name = String::new();
        let start = PROFILE_LOAD_PREFIX.unicode_len();
        let end = id.unicode_len();
        push_range(&mut name, id, start, end);
        proof {
            assert(Seq::<char>::empty() + id@.subrange(start as int, end as int) =~= id@.subrange(
                start as int,
                end as int,
            ));
        }
        Some(TrayMessage::LoadProfile(name))
    } else {
        None
    }
}

/// The menu item id of a profile.
pub fn profile_item_id(name: &str) -> (r: String)
    ensures
        r@ == PROFILE_LOAD_PREFIX@ + name@,
        is_profile_item(r@),
{
    let mut id = String::from_str(PROFILE_LOAD_PREFIX);
    id.append(name);
    proof {
        assert(id@.subrange(0, PROFILE_LOAD_PREFIX@.len() as int) =~= PROFILE_LOAD_PREFIX@);
    }
    id
}

/// One item of the "Load Profile" submenu: its id, its label, and whether it
/// can be clicked.
#[derive(Debug, Clone, PartialEq, Eq)]
pub struct ProfileMenuItem {
    pub id: String,
    pub label: String,
    pub enabled: bool,
}

/// The "Load Profile" submenu: one item per profile, in the given order, or a
/// single disabled placeholder when there are none.
pub fn profile_menu_items(profiles: &Vec<String>) -> (r: Vec<ProfileMenuItem>)
    ensures
        profiles@.len() == 0 ==> r@.len() == 1 && r@[0].id@ == MENU_ID_NO_PROFILES@ && r@[0].label@
            == "(no profiles)"@ && !r@[0].enabled,
        profiles@.len() > 0 ==> r@.len() == profiles@.len() && forall|i: int|
            0 <= i < profiles@.len() ==> (#[trigger] r@[i]).id@ == PROFILE_LOAD_PREFIX@ + profiles@[i]@ && r@[i].label@
                == profiles@[i]@ && r@[i].enabled,
{
    let mut r: Vec<ProfileMenuItem> = Vec::new();
    if profiles.len() == 0 {
        r.push(
            ProfileMenuItem {
                id: String::from_str(MENU_ID_NO_PROFILES),
                label: String::from_str("(no profiles)"),
                enabled: false,
            },
        );
        return r;
    }
    let mut i: usize = 0;
    while i < profiles.len()
        invariant
            i <= profiles@.len(),
            r@.len() == i,
            forall|q: int|
                0 <= q < i ==> (#[trigger] r@[q]).id@ == PROFILE_LOAD_PREFIX@ + profiles@[q]@ && r@[q].label@
                    == profiles@[q]@ && r@[q].enabled,
        decreases profiles@.len() - i,
    {
        let id = profile_item_id(profiles[i].as_str());
        r.push(ProfileMenuItem { id, label: profiles[i].clone(), enabled: true });
        i = i + 1;
    }
    r
}

} // verus!
