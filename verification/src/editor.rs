//! Hotkey editor rules: value and VCP drafts, which monitors an action
//! selects, toggling monitors, and which actions a pressed hotkey runs.
use vstd::prelude::*;
use crate::capabilities::{hex_val, is_hex};
use crate::config::{
    ActionTarget, ActionType, Hotkey, HotkeyActionSpec, HotkeyConfig, MonitorInput, MonitorTarget,
    binding_id, explicit_spec, offset_supported, other_input, other_target, same_action, same_settings, same_target,
};
use crate::ddc::InputSource;
use crate::text::{lower_seq, trim, trim_seq, to_lower, str_eq};
use std::collections::HashMap;

verus! {

/// Decimal value of a digit sequence.
pub open spec fn digits_value(s: Seq<char>) -> int
    decreases s.len(),
{
    if s.len() == 0 {
        0
    } else {
        digits_value(s.drop_last()) * 10 + (s.last() as int - '0' as int)
    }
}

/// Hexadecimal value of a hex digit sequence.
pub open spec fn hex_value(s: Seq<char>) -> int
    decreases s.len(),
{
    if s.len() == 0 {
        0
    } else {
        hex_value(s.drop_last()) * 16 + hex_val(s.last())
    }
}

/// Only ASCII digits.
pub open spec fn all_digits(s: Seq<char>) -> bool {
    forall|i: int| 0 <= i < s.len() ==> '0' <= #[trigger] s[i] <= '9'
}

/// Only hexadecimal digits.
pub open spec fn all_hex(s: Seq<char>) -> bool {
    forall|i: int| 0 <= i < s.len() ==> is_hex(#[trigger] s[i])
}

/// The value `i32::from_str` gives for `t`: an optional sign, then at least
/// one digit and nothing else, within the range of `i32`.
pub open spec fn i32_text_value(t: Seq<char>) -> Option<int> {
    let negative = t.len() > 0 && t[0] == '-';
    let body = if t.len() > 0 && (t[0] == '-' || t[0] == '+') {
        t.subrange(1, t.len() as int)
    } else {
        t
    };
    if body.len() == 0 || !all_digits(body) {
        None
    } else {
        let v = if negative {
            -digits_value(body)
        } else {
            digits_value(body)
        };
        if i32::MIN <= v <= i32::MAX {
            Some(v)
        } else {
            None
        }
    }
}

/// What a value draft means: blank or a lone sign is still incomplete; else
/// a signed decimal between -200 and 200.
pub open spec fn value_draft(s: Seq<char>) -> Result<Option<int>, Seq<char>> {
    let t = trim_seq(s);
    if t.len() == 0 || t == "+"@ || t == "-"@ {
        Ok(None)
    } else {
        match i32_text_value(t) {
            None => Err("Enter a signed decimal value"@),
            Some(v) => if -200 <= v <= 200 {
                Ok(Some(v))
            } else {
                Err("Value must be between -200 and 200"@)
            },
        }
    }
}

proof fn lemma_digits_grow(s: Seq<char>, n: int)
    requires
        all_digits(s),
        0 <= n <= s.len(),
    ensures
        digits_value(s.subrange(0, n)) <= digits_value(s),
        0 <= digits_value(s.subrange(0, n)),
    decreases s.len() - n,
{
    if n < s.len() {
        let p = s.subrange(0, n + 1);
        assert(p.drop_last() == s.subrange(0, n));
        lemma_digits_nonneg(s.subrange(0, n));
        lemma_digits_grow(s, n + 1);
    } else {
        assert(s.subrange(0, n) == s);
        lemma_digits_nonneg(s);
    }
}

proof fn lemma_digits_nonneg(s: Seq<char>)
    requires
        all_digits(s),
    ensures
        0 <= digits_value(s),
    decreases s.len(),
{
    if s.len() > 0 {
        assert(all_digits(s.drop_last()));
        lemma_digits_nonneg(s.drop_last());
    }
}

/// The magnitude of the decimal digits `t[from..]`, capped just above the
/// `i32` range; `None` when a character is not a digit.
fn digits_magnitude(t: &str, from: usize) -> (r: Option<u64>)
    requires
        from <= t@.len(),
    ensures
        match r {
            None => !all_digits(t@.subrange(from as int, t@.len() as int)),
            Some(v) => all_digits(t@.subrange(from as int, t@.len() as int)) && (if v
                <= 2147483648 {
                v == digits_value(t@.subrange(from as int, t@.len() as int))
            } else {
                digits_value(t@.subrange(from as int, t@.len() as int)) > 2147483648
            }),
        },
{
    let n = t.unicode_len();
    let mut acc: u64 = 0;
    let mut i = from;
    while i < n
        invariant
            n == t@.len(),
            from <= i <= n,
            all_digits(t@.subrange(from as int, i as int)),
            acc <= 2147483649,
            acc <= 2147483648 ==> acc == digits_value(t@.subrange(from as int, i as int)),
            acc > 2147483648 ==> digits_value(t@.subrange(from as int, i as int)) > 2147483648,
        decreases n - i,
    {
        let c = t.get_char(i);
        let ghost prefix = t@.subrange(from as int, i as int);
        let ghost next = t@.subrange(from as int, i + 1);
        proof {
            assert(next.drop_last() == prefix);
            assert(next.last() == c);
        }
        if !('0' <= c && c <= '9') {
            proof {
                let whole = t@.subrange(from as int, n as int);
                assert(whole[i - from] == c);
            }
            return None;
        }
        proof {
            assert forall|k: int| 0 <= k < next.len() implies '0' <= #[trigger] next[k] <= '9' by {
                if k < prefix.len() {
                    assert(next[k] == prefix[k]);
                }
            }
            lemma_digits_nonneg(prefix);
        }
        let d = (c as u32 - '0' as u32) as u64;
        if acc <= 2147483648 {
            acc = acc * 10 + d;
            if acc > 2147483648 {
                acc = 2147483649;
            }
        }
        i = i + 1;
    }
    Some(acc)
}

/// Read a value draft (see [`value_draft`]).
pub fn parse_value_draft(value: &str) -> (r: Result<Option<i32>, &'static str>)
    ensures
        match value_draft(value@) {
            Ok(None) => r == Ok::<Option<i32>, &'static str>(None),
            Ok(Some(v)) => r matches Ok(Some(x)) && x == v,
            Err(e) => r matches Err(m) && m@ == e,
        },
{
    let t = trim(value);
    proof {
        reveal_strlit("+");
        reveal_strlit("-");
    }
    let n = t.unicode_len();
    if n == 0 || str_eq(t.as_str(), "+") || str_eq(t.as_str(), "-") {
        return Ok(None);
    }
    let first = t.get_char(0);
    let negative = first == '-';
    let start: usize = if first == '-' || first == '+' { 1 } else { 0 };
    if start == n {
        return Err("Enter a signed decimal value");
    }
    let magnitude = match digits_magnitude(t.as_str(), start) {
        Some(m) => m,
        None => return Err("Enter a signed decimal value"),
    };
    proof {
        if start == 0 {
            assert(t@.subrange(0, t@.len() as int) == t@);
        }
    }
    if magnitude > 2147483648 || (magnitude == 2147483648 && !negative) {
        return Err("Enter a signed decimal value");
    }
    let v: i64 = if negative { -(magnitude as i64) } else { magnitude as i64 };
    if v < -200 || v > 200 {
        return Err("Value must be between -200 and 200");
    }
    Ok(Some(v as i32))
}

/// What a VCP code draft means: blank or a bare `0x` is still incomplete;
/// else a hexadecimal code with an optional `0x`/`0X` prefix that `u16`
/// parsing accepts (an optional `+`, then hex digits), which must fit a byte.
pub open spec fn vcp_draft(s: Seq<char>) -> Result<Option<int>, Seq<char>> {
    let t = trim_seq(s);
    if t.len() == 0 || lower_seq(t) == "0x"@ {
        Ok(None)
    } else {
        let digits = if t.len() >= 2 && t[0] == '0' && (t[1] == 'x' || t[1] == 'X') {
            t.subrange(2, t.len() as int)
        } else {
            t
        };
        let body = if digits.len() > 0 && digits[0] == '+' {
            digits.subrange(1, digits.len() as int)
        } else {
            digits
        };
        if body.len() == 0 || !all_hex(body) || hex_value(body) > 0xFFFF {
            Err("Enter a hexadecimal VCP code"@)
        } else if hex_value(body) > 0xFF {
            Err("VCP code must be between 00 and FF"@)
        } else {
            Ok(Some(hex_value(body)))
        }
    }
}

proof fn lemma_hex_nonneg(s: Seq<char>)
    ensures
        0 <= hex_value(s),
    decreases s.len(),
{
    if s.len() > 0 {
        lemma_hex_nonneg(s.drop_last());
    }
}

/// The value of the hex digits `t[from..]`, capped just above `u16`; `None`
/// when a character is not a hex digit.
fn hex_magnitude(t: &str, from: usize) -> (r: Option<u32>)
    requires
        from <= t@.len(),
    ensures
        match r {
            None => !all_hex(t@.subrange(from as int, t@.len() as int)),
            Some(v) => all_hex(t@.subrange(from as int, t@.len() as int)) && (if v <= 0xFFFF {
                v == hex_value(t@.subrange(from as int, t@.len() as int))
            } else {
                hex_value(t@.subrange(from as int, t@.len() as int)) > 0xFFFF
            }),
        },
{
    let n = t.unicode_len();
    let mut acc: u32 = 0;
    let mut i = from;
    while i < n
        invariant
            n == t@.len(),
            from <= i <= n,
            all_hex(t@.subrange(from as int, i as int)),
            acc <= 0x10000,
            acc <= 0xFFFF ==> acc == hex_value(t@.subrange(from as int, i as int)),
            acc > 0xFFFF ==> hex_value(t@.subrange(from as int, i as int)) > 0xFFFF,
        decreases n - i,
    {
        let c = t.get_char(i);
        let ghost prefix = t@.subrange(from as int, i as int);
        let ghost next = t@.subrange(from as int, i + 1);
        proof {
            assert(next.drop_last() == prefix);
            assert(next.last() == c);
        }
        let d: u32 = if '0' <= c && c <= '9' {
            c as u32 - '0' as u32
        } else if 'a' <= c && c <= 'f' {
            c as u32 - 'a' as u32 + 10
        } else if 'A' <= c && c <= 'F' {
            c as u32 - 'A' as u32 + 10
        } else {
            proof {
                let whole = t@.subrange(from as int, n as int);
                assert(whole[i - from] == c);
            }
            return None;
        };
        proof {
            assert forall|k: int| 0 <= k < next.len() implies is_hex(#[trigger] next[k]) by {
                if k < prefix.len() {
                    assert(next[k] == prefix[k]);
                }
            }
            lemma_hex_nonneg(prefix);
            assert(d == hex_val(c));
        }
        if acc <= 0xFFFF {
            acc = acc * 16 + d;
            if acc > 0xFFFF {
                acc = 0x10000;
            }
        }
        i = i + 1;
    }
    Some(acc)
}

/// Read a VCP code draft (see [`vcp_draft`]).
pub fn parse_vcp_draft(value: &str) -> (r: Result<Option<u8>, &'static str>)
    ensures
        match vcp_draft(value@) {
            Ok(None) => r == Ok::<Option<u8>, &'static str>(None),
            Ok(Some(v)) => r matches Ok(Some(x)) && x == v,
            Err(e) => r matches Err(m) && m@ == e,
        },
{
    let t = trim(value);
    proof {
        reveal_strlit("0x");
    }
    let n = t.unicode_len();
    let lowered = to_lower(t.as_str());
    if n == 0 || str_eq(lowered.as_str(), "0x") {
        return Ok(None);
    }
    let mut start: usize = 0;
    if n >= 2 && t.get_char(0) == '0' && (t.get_char(1) == 'x' || t.get_char(1) == 'X') {
        start = 2;
    }
    if start < n && t.get_char(start) == '+' {
        start = start + 1;
    }
    if start == n {
        return Err("Enter a hexadecimal VCP code");
    }
    proof {
        let digits = if t@.len() >= 2 && t@[0] == '0' && (t@[1] == 'x' || t@[1] == 'X') {
            t@.subrange(2, t@.len() as int)
        } else {
            t@
        };
        if start == 0 {
            assert(t@.subrange(0, t@.len() as int) == t@);
        } else if t@.len() >= 2 && t@[0] == '0' && (t@[1] == 'x' || t@[1] == 'X') {
            if digits.len() > 0 && digits[0] == '+' {
                assert(digits.subrange(1, digits.len() as int) == t@.subrange(3, t@.len() as int));
            }
        } else {
            assert(digits == t@);
        }
    }
    let v = match hex_magnitude(t.as_str(), start) {
        Some(v) => v,
        None => return Err("Enter a hexadecimal VCP code"),
    };
    if v > 0xFFFF {
        return Err("Enter a hexadecimal VCP code");
    }
    if v > 0xFF {
        return Err("VCP code must be between 00 and FF");
    }
    Ok(Some(v as u8))
}

// ---------------------------------------------------------------------------
// Monitor selection of an action
// ---------------------------------------------------------------------------

/// Whether the action keeps one input per monitor.
pub open spec fn inputs_per_monitor(a: HotkeyActionSpec) -> bool {
    a.action_type != ActionType::Off && a.target == ActionTarget::InputSource
}

/// Whether the action keeps one input per monitor.
pub fn uses_monitor_inputs(action: &HotkeyActionSpec) -> (r: bool)
    ensures
        r == inputs_per_monitor(*action),
{
    action.action_type != ActionType::Off && action.target == ActionTarget::InputSource
}

/// The explicit monitors of an action.
pub fn explicit_monitor_ids(action: &HotkeyActionSpec) -> (r: Vec<MonitorTarget>)
    ensures
        r@ == explicit_spec(*action),
{
    action.explicit_targets()
}

/// The action selects `monitor`: it applies to all monitors, or names it.
pub open spec fn selects(a: HotkeyActionSpec, monitor: MonitorTarget) -> bool {
    a.all_monitors || exists|j: int|
        0 <= j < explicit_spec(a).len() && #[trigger] same_target(explicit_spec(a)[j], monitor)
}

/// Whether the action selects `monitor_id`.
pub fn action_monitor_selected(action: &HotkeyActionSpec, monitor_id: &MonitorTarget) -> (r: bool)
    ensures
        r == selects(*action, *monitor_id),
{
    if action.all_monitors {
        return true;
    }
    let ids = explicit_monitor_ids(action);
    let mut j: usize = 0;
    while j < ids.len()
        invariant
            ids@ == explicit_spec(*action),
            j <= ids@.len(),
            forall|q: int| 0 <= q < j ==> !#[trigger] same_target(ids@[q], *monitor_id),
        decreases ids.len() - j,
    {
        if ids[j].same(monitor_id) {
            assert(same_target(explicit_spec(*action)[j as int], *monitor_id));
            return true;
        }
        j = j + 1;
    }
    false
}

/// Whether the "all monitors" box shows as checked: the action applies to
/// all monitors, or there are detected monitors and it selects each of them.
pub open spec fn master_selected(a: HotkeyActionSpec, detected: Seq<MonitorTarget>) -> bool {
    a.all_monitors || (detected.len() > 0 && forall|i: int|
        0 <= i < detected.len() ==> #[trigger] selects(a, detected[i]))
}

/// Whether the "all monitors" box shows as checked (see [`master_selected`]).
pub fn action_master_selected(action: &HotkeyActionSpec, detected_ids: &[MonitorTarget]) -> (r: bool)
    ensures
        r == master_selected(*action, detected_ids@),
{
    if action.all_monitors {
        return true;
    }
    if detected_ids.len() == 0 {
        return false;
    }
    let mut i: usize = 0;
    while i < detected_ids.len()
        invariant
            i <= detected_ids@.len(),
            !action.all_monitors,
            forall|q: int| 0 <= q < i ==> #[trigger] selects(*action, detected_ids@[q]),
        decreases detected_ids.len() - i,
    {
        if !action_monitor_selected(action, &detected_ids[i]) {
            return false;
        }
        i = i + 1;
    }
    true
}

/// The inputs of an action that applied to all monitors, made explicit: one
/// per detected monitor, each with the action's common input.
pub open spec fn spread_inputs(detected: Seq<MonitorTarget>, a: HotkeyActionSpec) -> Seq<MonitorInput> {
    detected.map_values(|t: MonitorTarget| MonitorInput { monitor_id: t, input_source: a.input_source })
}

/// Check or uncheck one monitor of an action. An action on all monitors first
/// becomes an explicit list of the detected monitors (with per-monitor inputs
/// where it keeps them); it is never turned back into "all".
pub fn toggle_action_monitor(
    action: &mut HotkeyActionSpec,
    detected_ids: &[MonitorTarget],
    monitor_id: MonitorTarget,
    checked: bool,
)
    ensures
        ({
            let a0 = *old(action);
            let monitors0 = if a0.all_monitors {
                detected_ids@
            } else {
                a0.monitors@
            };
            let inputs0 = if a0.all_monitors && inputs_per_monitor(a0) {
                spread_inputs(detected_ids@, a0)
            } else {
                a0.monitor_inputs@
            };
            &&& final(action).action_type == a0.action_type
            &&& final(action).target == a0.target
            &&& !final(action).all_monitors
            &&& final(action).value == a0.value
            &&& final(action).vcp_code == a0.vcp_code
            &&& final(action).input_source == a0.input_source
            &&& final(action).power_mode == a0.power_mode
            &&& final(action).profile_name == a0.profile_name
            &&& final(action).monitors@ == monitors0.filter(other_target(monitor_id)) + if checked {
                seq![monitor_id]
            } else {
                Seq::empty()
            }
            &&& final(action).monitor_inputs@ == inputs0.filter(other_input(monitor_id)) + if checked
                && inputs_per_monitor(a0) {
                seq![MonitorInput { monitor_id: monitor_id, input_source: a0.input_source }]
            } else {
                Seq::empty()
            }
        }),
{
    if action.all_monitors {
        action.all_monitors = false;
        let mut monitors: Vec<MonitorTarget> = Vec::new();
        let mut inputs: Vec<MonitorInput> = Vec::new();
        let mut i: usize = 0;
        while i < detected_ids.len()
            invariant
                i <= detected_ids@.len(),
                monitors@ == detected_ids@.subrange(0, i as int),
                inputs@ == spread_inputs(detected_ids@.subrange(0, i as int), *action),
            decreases detected_ids.len() - i,
        {
            monitors.push(detected_ids[i].copy());
            inputs.push(MonitorInput { monitor_id: detected_ids[i].copy(), input_source: action.input_source });
            proof {
                assert(detected_ids@.subrange(0, i + 1) == detected_ids@.subrange(0, i as int).push(
                    detected_ids@[i as int],
                ));
                assert(spread_inputs(detected_ids@.subrange(0, i + 1), *action) == spread_inputs(
                    detected_ids@.subrange(0, i as int),
                    *action,
                ).push(MonitorInput { monitor_id: detected_ids@[i as int], input_source: action.input_source }));
            }
            i = i + 1;
        }
        proof {
            assert(detected_ids@.subrange(0, detected_ids@.len() as int) == detected_ids@);
        }
        action.monitors = monitors;
        if uses_monitor_inputs(action) {
            action.monitor_inputs = inputs;
        }
    }
    action.remove_target(&monitor_id);
    if checked {
        let keeps_inputs = uses_monitor_inputs(action);
        action.monitors.push(monitor_id.copy());
        if keeps_inputs {
            let source = action.input_source;
            action.monitor_inputs.push(MonitorInput { monitor_id, input_source: source });
        }
    }
}

// ---------------------------------------------------------------------------
// Hotkey presses
// ---------------------------------------------------------------------------

/// The same actions, one for one.
pub open spec fn same_actions(a: Seq<HotkeyActionSpec>, b: Seq<HotkeyActionSpec>) -> bool {
    a.len() == b.len() && forall|i: int| 0 <= i < a.len() ==> #[trigger] same_action(a[i], b[i])
}

pub(crate) fn copy_actions(v: &Vec<HotkeyActionSpec>) -> (r: Vec<HotkeyActionSpec>)
    ensures
        same_actions(v@, r@),
{
    let mut r: Vec<HotkeyActionSpec> = Vec::new();
    let mut i: usize = 0;
    while i < v.len()
        invariant
            i <= v@.len(),
            r@.len() == i,
            forall|q: int| 0 <= q < i ==> #[trigger] same_action(v@[q], r@[q]),
        decreases v.len() - i,
    {
        r.push(v[i].copy());
        i = i + 1;
    }
    r
}

/// For each hotkey id, the position of the last hotkey of the first `n` that
/// has it: a later hotkey with the same id replaces an earlier one.
pub open spec fn action_index(hotkeys: Seq<Hotkey>, n: int) -> Map<u32, int>
    decreases n,
{
    if n <= 0 {
        Map::empty()
    } else {
        let m = action_index(hotkeys, n - 1);
        match binding_id(hotkeys[n - 1].binding) {
            Some(id) => m.insert(id, n - 1),
            None => m,
        }
    }
}

/// The actions each registered hotkey id runs.
pub fn build_action_map(config: &HotkeyConfig) -> (r: HashMap<u32, Vec<HotkeyActionSpec>>)
    ensures
        r@.dom() == action_index(config.hotkeys@, config.hotkeys@.len() as int).dom(),
        forall|id: u32|
            #[trigger] r@.contains_key(id) ==> same_actions(
                config.hotkeys@[action_index(config.hotkeys@, config.hotkeys@.len() as int)[id]].actions@,
                r@[id]@,
            ),
{
    broadcast use vstd::std_specs::hash::group_hash_axioms;

    let mut map: HashMap<u32, Vec<HotkeyActionSpec>> = HashMap::new();
    let mut i: usize = 0;
    while i < config.hotkeys.len()
        invariant
            i <= config.hotkeys@.len(),
            map@.dom() == action_index(config.hotkeys@, i as int).dom(),
            forall|id: u32|
                #[trigger] map@.contains_key(id) ==> same_actions(
                    config.hotkeys@[action_index(config.hotkeys@, i as int)[id]].actions@,
                    map@[id]@,
                ),
        decreases config.hotkeys.len() - i,
    {
        let hotkey = &config.hotkeys[i];
        match hotkey.binding.to_hotkey() {
            Some(id) => {
                let actions = copy_actions(&hotkey.actions);
                map.insert(id, actions);
            },
            None => {},
        }
        i = i + 1;
    }
    map
}

/// The actions a press of hotkey `id` runs: none while hotkeys are disabled or
/// a new binding is being recorded, else those registered for `id`.
pub fn resolve_triggered_actions(
    enabled: bool,
    recording: bool,
    action_map: &HashMap<u32, Vec<HotkeyActionSpec>>,
    id: u32,
) -> (r: Option<Vec<HotkeyActionSpec>>)
    ensures
        !enabled || recording ==> r is None,
        enabled && !recording ==> (r is Some <==> action_map@.contains_key(id)),
        r matches Some(actions) ==> same_actions(action_map@[id]@, actions@),
{
    broadcast use vstd::std_specs::hash::group_hash_axioms;

    if !enabled || recording {
        return None;
    }
    match action_map.get(&id) {
        Some(actions) => Some(copy_actions(actions)),
        None => None,
    }
}

/// Texts joined by " + ".
pub open spec fn joined(parts: Seq<Seq<char>>) -> Seq<char>
    decreases parts.len(),
{
    if parts.len() == 0 {
        Seq::empty()
    } else if parts.len() == 1 {
        parts[0]
    } else {
        joined(parts.drop_last()) + " + "@ + parts.last()
    }
}

/// The parts shown for a key combination: the held modifiers, then the key.
pub open spec fn hotkey_parts(ctrl: bool, alt: bool, shift: bool, win: bool, key: Seq<char>) -> Seq<Seq<char>> {
    (if ctrl {
        seq!["Ctrl"@]
    } else {
        Seq::empty()
    }) + (if alt {
        seq!["Alt"@]
    } else {
        Seq::empty()
    }) + (if shift {
        seq!["Shift"@]
    } else {
        Seq::empty()
    }) + (if win {
        seq!["Win"@]
    } else {
        Seq::empty()
    }) + (if key.len() > 0 {
        seq![key]
    } else {
        Seq::empty()
    })
}

fn push_part(out: &mut String, parts: Ghost<Seq<Seq<char>>>, any: bool, part: &str)
    requires
        old(out)@ == joined(parts@),
        any == (parts@.len() > 0),
    ensures
        final(out)@ == joined(parts@.push(part@)),
{
    proof {
        assert(parts@.push(part@).drop_last() =~= parts@);
    }
    if any {
        out.append(" + ");
    }
    out.append(part);
}

/// A key combination as shown while recording: the parts joined by " + ".
pub fn format_hotkey(ctrl: bool, alt: bool, shift: bool, win: bool, key: &str) -> (r: String)
    ensures
        r@ == joined(hotkey_parts(ctrl, alt, shift, win, key@)),
{
    let mut s = String::new();
    let ghost mut parts: Seq<Seq<char>> = Seq::empty();
    let mut any = false;
    if ctrl {
        push_part(&mut s, Ghost(parts), any, "Ctrl");
        any = true;
        proof {
            parts = parts.push("Ctrl"@);
        }
    }
    if alt {
        push_part(&mut s, Ghost(parts), any, "Alt");
        any = true;
        proof {
            parts = parts.push("Alt"@);
        }
    }
    if shift {
        push_part(&mut s, Ghost(parts), any, "Shift");
        any = true;
        proof {
            parts = parts.push("Shift"@);
        }
    }
    if win {
        push_part(&mut s, Ghost(parts), any, "Win");
        any = true;
        proof {
            parts = parts.push("Win"@);
        }
    }
    if key.unicode_len() > 0 {
        push_part(&mut s, Ghost(parts), any, key);
        any = true;
        proof {
            parts = parts.push(key@);
        }
    }
    proof {
        assert(parts == hotkey_parts(ctrl, alt, shift, win, key@));
    }
    s
}

// ---------------------------------------------------------------------------
// Editing an action
// ---------------------------------------------------------------------------

/// Give `monitor` its own input (`Some`), or drop it from the action (`None`).
/// Either way its earlier entries are removed first.
pub fn set_monitor_input(action: &mut HotkeyActionSpec, monitor: MonitorTarget, source: Option<InputSource>)
    ensures
        same_settings(*old(action), *final(action)),
        source is None ==> final(action).monitors@ == old(action).monitors@.filter(other_target(monitor))
            && final(action).monitor_inputs@ == old(action).monitor_inputs@.filter(other_input(monitor)),
        source matches Some(s) ==> final(action).monitors@ == old(action).monitors@.filter(other_target(monitor)).push(
            monitor,
        ) && final(action).monitor_inputs@ == old(action).monitor_inputs@.filter(other_input(monitor)).push(
            MonitorInput { monitor_id: monitor, input_source: s },
        ),
{
    action.remove_target(&monitor);
    if let Some(input_source) = source {
        action.monitors.push(monitor.copy());
        action.monitor_inputs.push(MonitorInput { monitor_id: monitor, input_source });
    }
}

/// Switch "all monitors" on or off; switching it off forgets the explicit
/// monitors, which the user then picks afresh.
pub fn set_all_monitors(action: &mut HotkeyActionSpec, checked: bool)
    ensures
        final(action).all_monitors == checked,
        final(action).action_type == old(action).action_type,
        final(action).target == old(action).target,
        final(action).value == old(action).value,
        final(action).vcp_code == old(action).vcp_code,
        final(action).input_source == old(action).input_source,
        final(action).power_mode == old(action).power_mode,
        final(action).profile_name == old(action).profile_name,
        checked ==> final(action).monitors@ == old(action).monitors@ && final(action).monitor_inputs@ == old(
            action,
        ).monitor_inputs@,
        !checked ==> final(action).monitors@.len() == 0 && final(action).monitor_inputs@.len() == 0,
{
    action.all_monitors = checked;
    if !checked {
        action.monitors = Vec::new();
        action.monitor_inputs = Vec::new();
    }
}

/// Each monitor with the action's common input.
pub open spec fn inputs_for(monitors: Seq<MonitorTarget>, source: InputSource) -> Seq<MonitorInput> {
    monitors.map_values(|m: MonitorTarget| MonitorInput { monitor_id: m, input_source: source })
}

/// Change what an action controls. Leaving input switching keeps the
/// monitors it switched; an offset is kept only where the new target
/// supports one; entering input switching for explicit monitors starts each
/// of them on the action's common input.
pub fn set_action_target(action: &mut HotkeyActionSpec, target: ActionTarget)
    ensures
        ({
            let a0 = *old(action);
            let monitors1 = if a0.target == ActionTarget::InputSource {
                explicit_spec(a0)
            } else {
                a0.monitors@
            };
            &&& final(action).target == target
            &&& final(action).action_type == if !offset_supported(target) && a0.action_type == ActionType::Offset {
                ActionType::Assign
            } else {
                a0.action_type
            }
            &&& final(action).monitors@ == monitors1
            &&& final(action).monitor_inputs@ == if target == ActionTarget::InputSource && !a0.all_monitors
                && a0.monitor_inputs@.len() == 0 {
                inputs_for(monitors1, a0.input_source)
            } else {
                a0.monitor_inputs@
            }
            &&& final(action).all_monitors == a0.all_monitors
            &&& final(action).value == a0.value
            &&& final(action).vcp_code == a0.vcp_code
            &&& final(action).input_source == a0.input_source
            &&& final(action).power_mode == a0.power_mode
            &&& final(action).profile_name == a0.profile_name
        }),
{
    if action.target == ActionTarget::InputSource {
        action.monitors = explicit_monitor_ids(action);
    }
    action.target = target;
    if !target.supports_offset() && action.action_type == ActionType::Offset {
        action.action_type = ActionType::Assign;
    }
    if target == ActionTarget::InputSource && !action.all_monitors && action.monitor_inputs.len() == 0 {
        let source = action.input_source;
        let mut inputs: Vec<MonitorInput> = Vec::new();
        let mut i: usize = 0;
        while i < action.monitors.len()
            invariant
                i <= action.monitors@.len(),
                inputs@ == inputs_for(action.monitors@.subrange(0, i as int), source),
            decreases action.monitors@.len() - i,
        {
            inputs.push(MonitorInput { monitor_id: action.monitors[i].copy(), input_source: source });
            proof {
                assert(inputs_for(action.monitors@.subrange(0, i + 1), source) =~= inputs_for(
                    action.monitors@.subrange(0, i as int),
                    source,
                ).push(MonitorInput { monitor_id: action.monitors@[i as int], input_source: source }));
            }
            i = i + 1;
        }
        proof {
            assert(action.monitors@.subrange(0, action.monitors@.len() as int) =~= action.monitors@);
        }
        action.monitor_inputs = inputs;
    }
}

} // verus!
