//! Recording a key combination for a hotkey: the names keys are stored
//! under, refusing a combination another hotkey already has, and the check
//! that every action's drafts are complete before saving.
use vstd::prelude::*;
use crate::config::{Hotkey, HotkeyBinding, binding_id, binding_text};
use crate::editor::{format_hotkey, hotkey_parts, joined, parse_value_draft, parse_vcp_draft, value_draft, vcp_draft};
use crate::config::ActionTarget;
use crate::text::{decimal, push_char, push_decimal, str_eq};

verus! {

/// The non-character keys a hotkey can use.
#[derive(Debug, Clone, Copy, PartialEq, Eq, Structural)]
pub enum NamedKey {
    F1,
    F2,
    F3,
    F4,
    F5,
    F6,
    F7,
    F8,
    F9,
    F10,
    F11,
    F12,
    ArrowUp,
    ArrowDown,
    ArrowLeft,
    ArrowRight,
    Home,
    End,
    PageUp,
    PageDown,
    Insert,
    Delete,
    Enter,
    Escape,
    Backspace,
    Tab,
    /// Any other named key; it cannot be bound.
    Other,
}

/// A key press as the keyboard reports it.
#[derive(Debug, Clone, PartialEq, Eq)]
pub enum PressedKey {
    Named(NamedKey),
    /// The text a character key produced.
    Character(String),
    Unidentified,
}

/// The stored name of a named key; empty for keys that cannot be bound.
pub open spec fn named_key_text(key: NamedKey) -> Seq<char> {
    match key {
        NamedKey::F1 => "F1"@,
        NamedKey::F2 => "F2"@,
        NamedKey::F3 => "F3"@,
        NamedKey::F4 => "F4"@,
        NamedKey::F5 => "F5"@,
        NamedKey::F6 => "F6"@,
        NamedKey::F7 => "F7"@,
        NamedKey::F8 => "F8"@,
        NamedKey::F9 => "F9"@,
        NamedKey::F10 => "F10"@,
        NamedKey::F11 => "F11"@,
        NamedKey::F12 => "F12"@,
        NamedKey::ArrowUp => "ArrowUp"@,
        NamedKey::ArrowDown => "ArrowDown"@,
        NamedKey::ArrowLeft => "ArrowLeft"@,
        NamedKey::ArrowRight => "ArrowRight"@,
        NamedKey::Home => "Home"@,
        NamedKey::End => "End"@,
        NamedKey::PageUp => "PageUp"@,
        NamedKey::PageDown => "PageDown"@,
        NamedKey::Insert => "Insert"@,
        NamedKey::Delete => "Delete"@,
        NamedKey::Enter => "Enter"@,
        NamedKey::Escape => "Escape"@,
        NamedKey::Backspace => "Backspace"@,
        NamedKey::Tab => "Tab"@,
        NamedKey::Other => Seq::empty(),
    }
}

/// The stored name of a character key: `Space`, `KeyA`..`KeyZ` (whatever
/// the case typed), `Digit0`..`Digit9`; empty for anything else.
pub open spec fn char_key_text(c: char) -> Seq<char> {
    if c == ' ' {
        "Space"@
    } else if 'a' <= c && c <= 'z' {
        "Key"@.push(((c as u32) - 32) as char)
    } else if 'A' <= c && c <= 'Z' {
        "Key"@.push(c)
    } else if '0' <= c && c <= '9' {
        "Digit"@.push(c)
    } else {
        Seq::empty()
    }
}

/// The stored name of a pressed key; empty when it cannot be bound. A
/// character key is named by its first character.
pub open spec fn key_text_of(key: PressedKey) -> Seq<char> {
    match key {
        PressedKey::Named(k) => named_key_text(k),
        PressedKey::Character(s) => if s@.len() == 0 {
            char_key_text('?')
        } else {
            char_key_text(s@[0])
        },
        PressedKey::Unidentified => Seq::empty(),
    }
}

fn named_text(key: NamedKey) -> (r: String)
    ensures
        r@ == named_key_text(key),
{
    match key {
        NamedKey::F1 => String::from_str("F1"),
        NamedKey::F2 => String::from_str("F2"),
        NamedKey::F3 => String::from_str("F3"),
        NamedKey::F4 => String::from_str("F4"),
        NamedKey::F5 => String::from_str("F5"),
        NamedKey::F6 => String::from_str("F6"),
        NamedKey::F7 => String::from_str("F7"),
        NamedKey::F8 => String::from_str("F8"),
        NamedKey::F9 => String::from_str("F9"),
        NamedKey::F10 => String::from_str("F10"),
        NamedKey::F11 => String::from_str("F11"),
        NamedKey::F12 => String::from_str("F12"),
        NamedKey::ArrowUp => String::from_str("ArrowUp"),
        NamedKey::ArrowDown => String::from_str("ArrowDown"),
        NamedKey::ArrowLeft => String::from_str("ArrowLeft"),
        NamedKey::ArrowRight => String::from_str("ArrowRight"),
        NamedKey::Home => String::from_str("Home"),
        NamedKey::End => String::from_str("End"),
        NamedKey::PageUp => String::from_str("PageUp"),
        NamedKey::PageDown => String::from_str("PageDown"),
        NamedKey::Insert => String::from_str("Insert"),
        NamedKey::Delete => String::from_str("Delete"),
        NamedKey::Enter => String::from_str("Enter"),
        NamedKey::Escape => String::from_str("Escape"),
        NamedKey::Backspace => String::from_str("Backspace"),
        NamedKey::Tab => String::from_str("Tab"),
        NamedKey::Other => String::new(),
    }
}

fn char_text(c: char) -> (r: String)
    ensures
        r@ == char_key_text(c),
{
    if c == ' ' {
        String::from_str("Space")
    } else if 'a' <= c && c <= 'z' {
        let mut s = String::from_str("Key");
        push_char(&mut s, ((c as u32) - 32) as u8 as char);
        s
    } else if 'A' <= c && c <= 'Z' {
        let mut s = String::from_str("Key");
        push_char(&mut s, c);
        s
    } else if '0' <= c && c <= '9' {
        let mut s = String::from_str("Digit");
        push_char(&mut s, c);
        s
    } else {
        String::new()
    }
}

/// The name a pressed key is stored under; empty when it cannot be bound.
pub fn key_to_string(key: &PressedKey) -> (r: String)
    ensures
        r@ == key_text_of(*key),
{
    match key {
        PressedKey::Named(k) => named_text(*k),
        PressedKey::Character(s) => {
            if s.as_str().unicode_len() == 0 {
                char_text('?')
            } else {
                char_text(s.as_str().get_char(0))
            }
        },
        PressedKey::Unidentified => String::new(),
    }
}

// ---------------------------------------------------------------------------
// Binding a recorded combination
// ---------------------------------------------------------------------------

/// Another hotkey than the one being recorded (`recording`) already has the
/// combination's global id.
pub open spec fn taken_by_other(hotkeys: Seq<Hotkey>, recording: Seq<char>, binding: HotkeyBinding) -> bool {
    match binding_id(binding) {
        Some(id) => exists|i: int|
            0 <= i < hotkeys.len() && hotkeys[i].id@ != recording && #[trigger] binding_id(hotkeys[i].binding) == Some(id),
        None => false,
    }
}

/// `i` is the first hotkey with id `id`.
pub open spec fn first_hotkey(hotkeys: Seq<Hotkey>, id: Seq<char>, i: int) -> bool {
    &&& 0 <= i < hotkeys.len()
    &&& hotkeys[i].id@ == id
    &&& forall|j: int| 0 <= j < i ==> (#[trigger] hotkeys[j]).id@ != id
}

/// Bind the recorded combination to the hotkey `recording`, unless another
/// hotkey already has it; then nothing changes.
pub fn bind_recorded_key(hotkeys: &mut Vec<Hotkey>, recording: &str, binding: HotkeyBinding) -> (r: Result<(), ()>)
    ensures
        taken_by_other(old(hotkeys)@, recording@, binding) ==> r is Err && final(hotkeys)@ == old(hotkeys)@,
        !taken_by_other(old(hotkeys)@, recording@, binding) ==> r is Ok,
        final(hotkeys)@.len() == old(hotkeys)@.len(),
        r is Ok ==> forall|i: int|
            0 <= i < old(hotkeys)@.len() ==> #[trigger] final(hotkeys)@[i] == if first_hotkey(old(hotkeys)@, recording@, i) {
                Hotkey { binding, ..old(hotkeys)@[i] }
            } else {
                old(hotkeys)@[i]
            },
{
    let ghost before_binding = hotkeys@;
    match binding.to_hotkey() {
        Some(candidate) => {
            let mut i: usize = 0;
            while i < hotkeys.len()
                invariant
                    i <= hotkeys@.len(),
                    hotkeys@ == before_binding,
                    binding_id(binding) == Some(candidate),
                    forall|j: int|
                        0 <= j < i ==> !(hotkeys@[j].id@ != recording@ && #[trigger] binding_id(hotkeys@[j].binding)
                            == Some(candidate)),
                decreases hotkeys@.len() - i,
            {
                if !str_eq(hotkeys[i].id.as_str(), recording) {
                    match hotkeys[i].binding.to_hotkey() {
                        Some(other) => {
                            if other == candidate {
                                assert(hotkeys@[i as int].id@ != recording@ && binding_id(hotkeys@[i as int].binding)
                                    == Some(candidate));
                                return Err(());
                            }
                        },
                        None => {},
                    }
                }
                i = i + 1;
            }
        },
        None => {},
    }
    assert(!taken_by_other(before_binding, recording@, binding));
    let mut k: usize = 0;
    while k < hotkeys.len()
        invariant
            k <= hotkeys@.len(),
            hotkeys@ == old(hotkeys)@,
            before_binding == old(hotkeys)@,
            !taken_by_other(before_binding, recording@, binding),
            forall|j: int| 0 <= j < k ==> (#[trigger] hotkeys@[j]).id@ != recording@,
        decreases hotkeys@.len() - k,
    {
        if str_eq(hotkeys[k].id.as_str(), recording) {
            hotkeys[k].binding = binding;
            proof {
                assert(first_hotkey(old(hotkeys)@, recording@, k as int));
                assert forall|q: int| 0 <= q < old(hotkeys)@.len() && q != k implies !first_hotkey(
                    old(hotkeys)@,
                    recording@,
                    q,
                ) by {
                    if q > k {
                        assert(old(hotkeys)@[k as int].id@ == recording@);
                    }
                }
            }
            return Ok(());
        }
        k = k + 1;
    }
    Ok(())
}

/// The status after a refused combination.
pub const DUPLICATE_BINDING: &'static str = "That key combination is already assigned.";

/// The status after a combination was bound.
pub open spec fn bound_text(binding: HotkeyBinding) -> Seq<char> {
    "Hotkey bound to "@ + joined(hotkey_parts(binding.ctrl, binding.alt, binding.shift, binding.win, binding.key@))
        + ". Remember to save configuration."@
}

/// The status after a combination was bound.
pub fn bound_status(binding: &HotkeyBinding) -> (r: String)
    ensures
        r@ == bound_text(*binding),
{
    let mut s = String::from_str("Hotkey bound to ");
    let combo = format_hotkey(binding.ctrl, binding.alt, binding.shift, binding.win, binding.key.as_str());
    s.append(combo.as_str());
    s.append(". Remember to save configuration.");
    s
}

// ---------------------------------------------------------------------------
// Drafts
// ---------------------------------------------------------------------------

/// The text fields being edited for one action of one hotkey.
#[derive(Debug, Clone)]
pub struct ActionDraft {
    pub hotkey_id: String,
    pub index: usize,
    pub value: String,
    pub vcp: String,
}

/// The value-draft text of a hotkey's action: the first draft recorded for
/// it, or empty when there is none.
pub open spec fn value_text(drafts: Seq<ActionDraft>, id: Seq<char>, index: int) -> Seq<char> {
    if exists|k: int| 0 <= k < drafts.len() && drafts[k].hotkey_id@ == id && drafts[k].index == index {
        drafts[choose|k: int|
            0 <= k < drafts.len() && drafts[k].hotkey_id@ == id && drafts[k].index == index && forall|j: int|
                0 <= j < k ==> !(drafts[j].hotkey_id@ == id && drafts[j].index == index)].value@
    } else {
        Seq::empty()
    }
}

/// The VCP-draft text of a hotkey's action, as [`value_text`].
pub open spec fn vcp_text(drafts: Seq<ActionDraft>, id: Seq<char>, index: int) -> Seq<char> {
    if exists|k: int| 0 <= k < drafts.len() && drafts[k].hotkey_id@ == id && drafts[k].index == index {
        drafts[choose|k: int|
            0 <= k < drafts.len() && drafts[k].hotkey_id@ == id && drafts[k].index == index && forall|j: int|
                0 <= j < k ==> !(drafts[j].hotkey_id@ == id && drafts[j].index == index)].vcp@
    } else {
        Seq::empty()
    }
}

/// Whether action `a` of hotkey `h` needs a complete value draft.
pub open spec fn needs_value(h: Hotkey, a: int) -> bool {
    let t = h.actions@[a].target;
    t == ActionTarget::Brightness || t == ActionTarget::Contrast || t == ActionTarget::CustomVcp
}

/// The value draft of action `a` of hotkey `h` is complete, if it needs one.
pub open spec fn value_ok(h: Hotkey, a: int, drafts: Seq<ActionDraft>) -> bool {
    needs_value(h, a) ==> value_draft(value_text(drafts, h.id@, a)) matches Ok(Some(_))
}

/// The VCP draft of action `a` of hotkey `h` is complete, if it needs one.
pub open spec fn vcp_ok(h: Hotkey, a: int, drafts: Seq<ActionDraft>) -> bool {
    h.actions@[a].target == ActionTarget::CustomVcp ==> vcp_draft(vcp_text(drafts, h.id@, a)) matches Ok(Some(_))
}

/// Every action before action `a` of hotkey `h` (in hotkey, then action
/// order) has complete drafts.
pub open spec fn drafts_ok_before(hotkeys: Seq<Hotkey>, h: int, a: int, drafts: Seq<ActionDraft>) -> bool {
    forall|h2: int, a2: int|
        0 <= h2 < hotkeys.len() && 0 <= a2 < hotkeys[h2].actions@.len() && (h2 < h || (h2 == h && a2 < a)) ==> #[trigger] value_ok(
            hotkeys[h2],
            a2,
            drafts,
        ) && vcp_ok(hotkeys[h2], a2, drafts)
}

/// The report for the first incomplete draft.
pub open spec fn invalid_draft_text(h: Hotkey, a: int, field: Seq<char>) -> Seq<char> {
    "Hotkey "@ + binding_text(h.binding) + " action "@ + decimal((a + 1) as nat) + " has an invalid "@ + field + "."@
}

fn find_draft(drafts: &Vec<ActionDraft>, id: &str, index: usize) -> (r: Option<usize>)
    ensures
        match r {
            Some(k) => k < drafts@.len() && drafts@[k as int].hotkey_id@ == id@ && drafts@[k as int].index == index
                && forall|j: int| 0 <= j < k ==> !(drafts@[j].hotkey_id@ == id@ && drafts@[j].index == index),
            None => !exists|k: int| 0 <= k < drafts@.len() && drafts@[k].hotkey_id@ == id@ && drafts@[k].index == index,
        },
{
    let mut k: usize = 0;
    while k < drafts.len()
        invariant
            k <= drafts@.len(),
            forall|j: int| 0 <= j < k ==> !(drafts@[j].hotkey_id@ == id@ && drafts@[j].index == index),
        decreases drafts@.len() - k,
    {
        if drafts[k].index == index && str_eq(drafts[k].hotkey_id.as_str(), id) {
            return Some(k);
        }
        k = k + 1;
    }
    None
}

/// Check every action's drafts before saving: the report for the first
/// action (in hotkey, then action order) whose value or VCP code draft is
/// incomplete or out of range, or none when all are complete.
pub fn validate_action_drafts(hotkeys: &Vec<Hotkey>, drafts: &Vec<ActionDraft>) -> (r: Option<String>)
    requires
        forall|h: int| 0 <= h < hotkeys@.len() ==> (#[trigger] hotkeys@[h]).actions@.len() < usize::MAX,
    ensures
        r is None <==> forall|h: int, a: int|
            0 <= h < hotkeys@.len() && 0 <= a < hotkeys@[h].actions@.len() ==> #[trigger] value_ok(hotkeys@[h], a, drafts@)
                && vcp_ok(hotkeys@[h], a, drafts@),
        r matches Some(text) ==> exists|h: int, a: int|
            0 <= h < hotkeys@.len() && 0 <= a < hotkeys@[h].actions@.len() && drafts_ok_before(hotkeys@, h, a, drafts@)
                && ((!#[trigger] value_ok(hotkeys@[h], a, drafts@) && text@ == invalid_draft_text(hotkeys@[h], a, "Value"@))
                || (value_ok(hotkeys@[h], a, drafts@) && !vcp_ok(hotkeys@[h], a, drafts@) && text@ == invalid_draft_text(
                hotkeys@[h],
                a,
                "VCP code"@,
            ))),
{
    let mut h: usize = 0;
    while h < hotkeys.len()
        invariant
            h <= hotkeys@.len(),
            forall|h: int| 0 <= h < hotkeys@.len() ==> (#[trigger] hotkeys@[h]).actions@.len() < usize::MAX,
            drafts_ok_before(hotkeys@, h as int, 0, drafts@),
        decreases hotkeys@.len() - h,
    {
        let hotkey = &hotkeys[h];
        let mut a: usize = 0;
        while a < hotkey.actions.len()
            invariant
                h < hotkeys@.len(),
                *hotkey == hotkeys@[h as int],
                a <= hotkey.actions@.len(),
                hotkey.actions@.len() < usize::MAX,
                drafts_ok_before(hotkeys@, h as int, a as int, drafts@),
            decreases hotkey.actions@.len() - a,
        {
            let target = hotkey.actions[a].target;
            let draft_at = find_draft(drafts, hotkey.id.as_str(), a);
            proof {
                let t = value_text(drafts@, hotkey.id@, a as int);
                let u = vcp_text(drafts@, hotkey.id@, a as int);
                match draft_at {
                    Some(k) => {
                        assert(t == drafts@[k as int].value@);
                        assert(u == drafts@[k as int].vcp@);
                    },
                    None => {},
                }
            }
            if target == ActionTarget::Brightness || target == ActionTarget::Contrast || target == ActionTarget::CustomVcp {
                let parsed = match draft_at {
                    Some(k) => parse_value_draft(drafts[k].value.as_str()),
                    None => parse_value_draft(""),
                };
                proof {
                    reveal_strlit("");
                }
                let complete = match parsed {
                    Ok(Some(_)) => true,
                    _ => false,
                };
                if !complete {
                    let mut s = String::from_str("Hotkey ");
                    s.append(hotkey.binding.text().as_str());
                    s.append(" action ");
                    push_decimal(&mut s, a as u64 + 1);
                    s.append(" has an invalid ");
                    s.append("Value");
                    s.append(".");
                    proof {
                        assert(!value_ok(hotkeys@[h as int], a as int, drafts@));
                        assert(s@ =~= invalid_draft_text(hotkeys@[h as int], a as int, "Value"@));
                    }
                    return Some(s);
                }
            }
            if target == ActionTarget::CustomVcp {
                let parsed = match draft_at {
                    Some(k) => parse_vcp_draft(drafts[k].vcp.as_str()),
                    None => parse_vcp_draft(""),
                };
                proof {
                    reveal_strlit("");
                }
                let complete = match parsed {
                    Ok(Some(_)) => true,
                    _ => false,
                };
                if !complete {
                    let mut s = String::from_str("Hotkey ");
                    s.append(hotkey.binding.text().as_str());
                    s.append(" action ");
                    push_decimal(&mut s, a as u64 + 1);
                    s.append(" has an invalid ");
                    s.append("VCP code");
                    s.append(".");
                    proof {
                        assert(value_ok(hotkeys@[h as int], a as int, drafts@));
                        assert(!vcp_ok(hotkeys@[h as int], a as int, drafts@));
                        assert(s@ =~= invalid_draft_text(hotkeys@[h as int], a as int, "VCP code"@));
                    }
                    return Some(s);
                }
            }
            proof {
                assert(value_ok(hotkeys@[h as int], a as int, drafts@));
                assert(vcp_ok(hotkeys@[h as int], a as int, drafts@));
                assert(drafts_ok_before(hotkeys@, h as int, (a + 1) as int, drafts@)) by {
                    assert forall|h2: int, a2: int|
                        0 <= h2 < hotkeys@.len() && 0 <= a2 < hotkeys@[h2].actions@.len() && (h2 < h || (h2 == h && a2
                            < a + 1)) implies #[trigger] value_ok(hotkeys@[h2], a2, drafts@) && vcp_ok(hotkeys@[h2], a2, drafts@) by {
                        if h2 == h && a2 == a {
                        } else {
                            assert(h2 < h || (h2 == h && a2 < a));
                        }
                    }
                }
            }
            a = a + 1;
        }
        proof {
            assert(a == hotkeys@[h as int].actions@.len());
            assert(drafts_ok_before(hotkeys@, (h + 1) as int, 0, drafts@)) by {
                assert forall|h2: int, a2: int|
                    0 <= h2 < hotkeys@.len() && 0 <= a2 < hotkeys@[h2].actions@.len() && (h2 < h + 1 || (h2 == h + 1
                        && a2 < 0)) implies #[trigger] value_ok(hotkeys@[h2], a2, drafts@) && vcp_ok(hotkeys@[h2], a2, drafts@) by {
                    if h2 == h {
                        assert(a2 < a);
                    }
                }
            }
        }
        h = h + 1;
    }
    None
}

/// The value draft an action starts with: its value in decimal.
pub fn value_draft_text(value: i32) -> (r: String)
    ensures
        r@ == crate::text::signed_decimal(value as int),
{
    let mut s = String::new();
    crate::text::push_signed(&mut s, value as i64);
    proof {
        assert(Seq::<char>::empty() + crate::text::signed_decimal(value as int) =~= crate::text::signed_decimal(
            value as int,
        ));
    }
    s
}

/// The VCP draft an action starts with: `0x` and two upper-case hex digits.
pub fn vcp_draft_text(code: u8) -> (r: String)
    ensures
        r@ == "0x"@ + crate::text::hex2(code as nat),
{
    let mut s = String::from_str("0x");
    crate::text::push_hex2(&mut s, code as u64);
    s
}

} // verus!
