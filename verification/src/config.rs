//! The hotkey and application settings model: bindings, action chains, their
//! monitor targets, legacy migration and the configuration write block.
use vstd::prelude::*;
use crate::ddc::{InputSource, MonitorInfo, MonitorKey, PowerMode, key_supported, same_key};
use crate::persistence::{LoadOutcome, SCHEMA_VERSION};
use std::collections::HashMap;
use crate::text::{decimal, push_decimal, push_decimal_wide, starts_with, str_eq, trim, trim_seq};

verus! {

// ---------------------------------------------------------------------------
// Hotkey binding descriptor
// ---------------------------------------------------------------------------

/// A hotkey as modifier flags plus a key name (e.g. "F1", "A", "ArrowUp").
#[derive(Debug, Clone, PartialEq, Eq)]
pub struct HotkeyBinding {
    pub ctrl: bool,
    pub alt: bool,
    pub shift: bool,
    pub win: bool,
    pub key: String,
}

/// How a binding reads on screen: "(none)" without a key, else the held
/// modifiers and the key joined by " + ".
pub open spec fn binding_text(b: HotkeyBinding) -> Seq<char> {
    if b.key@.len() == 0 {
        "(none)"@
    } else {
        (if b.ctrl {
            "Ctrl + "@
        } else {
            Seq::empty()
        }) + (if b.alt {
            "Alt + "@
        } else {
            Seq::empty()
        }) + (if b.shift {
            "Shift + "@
        } else {
            Seq::empty()
        }) + (if b.win {
            "Win + "@
        } else {
            Seq::empty()
        }) + b.key@
    }
}

impl HotkeyBinding {
    /// An empty, unbound binding (no key assigned).
    pub fn unbound() -> (r: HotkeyBinding)
        ensures
            !r.ctrl && !r.alt && !r.shift && !r.win,
            r.key@.len() == 0,
    {
        HotkeyBinding { ctrl: false, alt: false, shift: false, win: false, key: String::new() }
    }

    /// The on-screen text of this binding.
    pub fn text(&self) -> (r: String)
        ensures
            r@ == binding_text(*self),
    {
        if self.key.unicode_len() == 0 {
            return String::from_str("(none)");
        }
        let mut s = String::new();
        if self.ctrl {
            s.append("Ctrl + ");
        }
        if self.alt {
            s.append("Alt + ");
        }
        if self.shift {
            s.append("Shift + ");
        }
        if self.win {
            s.append("Win + ");
        }
        s.append(self.key.as_str());
        proof {
            assert(s@ == binding_text(*self));
        }
        s
    }

    /// A copy of this binding.
    pub fn copy(&self) -> (r: HotkeyBinding)
        ensures
            r == *self,
    {
        HotkeyBinding {
            ctrl: self.ctrl,
            alt: self.alt,
            shift: self.shift,
            win: self.win,
            key: self.key.clone(),
        }
    }
}

// ---------------------------------------------------------------------------
// Action-based hotkey model
// ---------------------------------------------------------------------------

/// How an action applies its value to the target.
#[derive(Debug, Clone, Copy, PartialEq, Eq, Structural)]
pub enum ActionType {
    /// Set the target to an absolute value.
    Assign,
    /// Add a signed delta to the target's current value.
    Offset,
    /// Turn off the selected monitors (target is ignored).
    Off,
}

impl ActionType {
    /// The name shown for this action type.
    pub fn label(self) -> (r: &'static str)
        ensures
            r@ == match self {
                ActionType::Assign => "Set"@,
                ActionType::Offset => "Offset"@,
                ActionType::Off => "Turn Off"@,
            },
    {
        match self {
            ActionType::Assign => "Set",
            ActionType::Offset => "Offset",
            ActionType::Off => "Turn Off",
        }
    }
}

/// What an action operates on.
#[derive(Debug, Clone, Copy, PartialEq, Eq, Structural)]
pub enum ActionTarget {
    Brightness,
    Contrast,
    InputSource,
    PowerMode,
    Profile,
    CustomVcp,
}

/// Whether an offset is a meaningful action on `target`.
pub open spec fn offset_supported(target: ActionTarget) -> bool {
    target == ActionTarget::Brightness || target == ActionTarget::Contrast || target
        == ActionTarget::CustomVcp
}

impl ActionTarget {
    /// The name shown for this target.
    pub fn label(self) -> (r: &'static str)
        ensures
            r@ == match self {
                ActionTarget::Brightness => "Brightness"@,
                ActionTarget::Contrast => "Contrast"@,
                ActionTarget::InputSource => "Input Source"@,
                ActionTarget::PowerMode => "Power Mode"@,
                ActionTarget::Profile => "Apply Profile"@,
                ActionTarget::CustomVcp => "Custom VCP Code"@,
            },
    {
        match self {
            ActionTarget::Brightness => "Brightness",
            ActionTarget::Contrast => "Contrast",
            ActionTarget::InputSource => "Input Source",
            ActionTarget::PowerMode => "Power Mode",
            ActionTarget::Profile => "Apply Profile",
            ActionTarget::CustomVcp => "Custom VCP Code",
        }
    }

    /// Whether `ActionType::Offset` is a meaningful choice for this target.
    pub fn supports_offset(self) -> (r: bool)
        ensures
            r == offset_supported(self),
    {
        match self {
            ActionTarget::Brightness | ActionTarget::Contrast | ActionTarget::CustomVcp => true,
            _ => false,
        }
    }
}

/// Numbers are historical enumeration positions, never current monitor IDs.
/// Unknown key texts are kept as they are but cannot resolve to hardware.
#[derive(Debug, Clone, PartialEq, Eq, Hash)]
pub enum MonitorTarget {
    Stable(MonitorKey),
    LegacyIndex(u32),
}

/// A bare number is a historical enumeration position.
impl From<u32> for MonitorTarget {
    fn from(id: u32) -> (r: MonitorTarget) {
        MonitorTarget::LegacyIndex(id)
    }
}

impl vstd::std_specs::convert::FromSpecImpl<u32> for MonitorTarget {
    open spec fn obeys_from_spec() -> bool {
        true
    }

    open spec fn from_spec(id: u32) -> MonitorTarget {
        MonitorTarget::LegacyIndex(id)
    }
}

/// Two targets name the same monitor reference.
pub open spec fn same_target(a: MonitorTarget, b: MonitorTarget) -> bool {
    match (a, b) {
        (MonitorTarget::Stable(x), MonitorTarget::Stable(y)) => x@ == y@,
        (MonitorTarget::LegacyIndex(i), MonitorTarget::LegacyIndex(j)) => i == j,
        _ => false,
    }
}

/// How a target reads on screen.
pub open spec fn target_text(t: MonitorTarget) -> Seq<char> {
    match t {
        MonitorTarget::Stable(key) => key@,
        MonitorTarget::LegacyIndex(id) => "Legacy monitor "@ + decimal(id as nat)
            + " (rebind required)"@,
    }
}

/// Monitor `i` of `available` carries `key`, and the key can resolve to hardware.
pub open spec fn key_matches(available: Seq<MonitorInfo>, key: MonitorKey, i: int) -> bool {
    0 <= i < available.len() && available[i].key@ == key@ && key_supported(key@)
}

/// Monitor `i` is the only monitor that `key` matches.
pub open spec fn unique_match(available: Seq<MonitorInfo>, key: MonitorKey, i: int) -> bool {
    &&& key_matches(available, key, i)
    &&& forall|j: int| #[trigger] key_matches(available, key, j) ==> j == i
}

/// Target `t` resolves to exactly one available monitor.
pub open spec fn resolvable(t: MonitorTarget, available: Seq<MonitorInfo>) -> bool {
    match t {
        MonitorTarget::Stable(key) => exists|i: int| #[trigger] unique_match(available, key, i),
        MonitorTarget::LegacyIndex(_) => false,
    }
}

/// Target `t` resolves to monitor `i`.
pub open spec fn resolves_to(t: MonitorTarget, available: Seq<MonitorInfo>, i: int) -> bool {
    match t {
        MonitorTarget::Stable(key) => unique_match(available, key, i),
        MonitorTarget::LegacyIndex(_) => false,
    }
}

/// The error text for a target that does not resolve.
pub open spec fn resolve_error(t: MonitorTarget, available: Seq<MonitorInfo>) -> Seq<char> {
    match t {
        MonitorTarget::LegacyIndex(_) => target_text(t) + ": select Rebind or Remove in the hotkey editor"@,
        MonitorTarget::Stable(key) => if exists|i: int| #[trigger] key_matches(available, key, i) {
            "Ambiguous monitor: "@ + key@
        } else {
            "Monitor unavailable: "@ + key@
        },
    }
}

impl MonitorTarget {
    /// A copy of this target.
    pub fn copy(&self) -> (r: MonitorTarget)
        ensures
            r == *self,
    {
        match self {
            MonitorTarget::Stable(key) => MonitorTarget::Stable(key.copy()),
            MonitorTarget::LegacyIndex(id) => MonitorTarget::LegacyIndex(*id),
        }
    }

    /// How this target reads on screen.
    pub fn text(&self) -> (r: String)
        ensures
            r@ == target_text(*self),
    {
        match self {
            MonitorTarget::Stable(key) => String::from_str(key.as_str()),
            MonitorTarget::LegacyIndex(id) => {
                let mut s = String::from_str("Legacy monitor ");
                push_decimal(&mut s, *id as u64);
                s.append(" (rebind required)");
                s
            },
        }
    }

    /// Whether this target and `other` name the same monitor reference.
    pub fn same(&self, other: &MonitorTarget) -> (r: bool)
        ensures
            r == same_target(*self, *other),
    {
        match (self, other) {
            (MonitorTarget::Stable(x), MonitorTarget::Stable(y)) => same_key(x, y),
            (MonitorTarget::LegacyIndex(i), MonitorTarget::LegacyIndex(j)) => *i == *j,
            _ => false,
        }
    }

    /// The one available monitor this target names. Numeric targets never
    /// resolve; a key must be supported and match exactly one monitor.
    pub fn resolve<'a>(&self, available: &'a [MonitorInfo]) -> (r: Result<&'a MonitorInfo, String>)
        ensures
            r is Ok <==> resolvable(*self, available@),
            r matches Ok(m) ==> exists|i: int| #[trigger] resolves_to(*self, available@, i) && *m == available@[i],
            r matches Err(e) ==> e@ == resolve_error(*self, available@),
    {
        let key = match self {
            MonitorTarget::Stable(key) => key,
            MonitorTarget::LegacyIndex(_) => {
                let mut s = self.text();
                s.append(": select Rebind or Remove in the hotkey editor");
                return Err(s);
            },
        };
        let supported = key.is_supported();
        let mut found: Option<usize> = None;
        let mut i: usize = 0;
        while i < available.len()
            invariant
                i <= available@.len(),
                supported == key_supported(key@),
                *self == MonitorTarget::Stable(*key),
                match found {
                    Some(f) => f < i && key_matches(available@, *key, f as int) && forall|j: int|
                        0 <= j < i && #[trigger] key_matches(available@, *key, j) ==> j == f,
                    None => forall|j: int| 0 <= j < i ==> !#[trigger] key_matches(available@, *key, j),
                },
            decreases available.len() - i,
        {
            if supported && same_key(&available[i].key, key) {
                if found.is_some() {
                    let mut s = String::from_str("Ambiguous monitor: ");
                    s.append(key.as_str());
                    proof {
                        assert(key_matches(available@, *key, i as int));
                        assert(!resolvable(*self, available@)) by {
                            if exists|k: int| #[trigger] unique_match(available@, *key, k) {
                                let k = choose|k: int| #[trigger] unique_match(available@, *key, k);
                                let f = found->0 as int;
                                assert(key_matches(available@, *key, f));
                                assert(key_matches(available@, *key, i as int));
                            }
                        }
                    }
                    return Err(s);
                }
                found = Some(i);
            }
            i = i + 1;
        }
        match found {
            Some(f) => {
                proof {
                    assert(unique_match(available@, *key, f as int));
                    assert(resolves_to(*self, available@, f as int));
                }
                let m = &available[f];
                assert(*m == available@[f as int]);
                Ok(m)
            },
            None => {
                let mut s = String::from_str("Monitor unavailable: ");
                s.append(key.as_str());
                proof {
                    assert(!exists|j: int| #[trigger] key_matches(available@, *key, j));
                }
                Err(s)
            },
        }
    }
}

/// A per-monitor input-source assignment, so one Input Source action can
/// switch different monitors to different inputs.
#[derive(Debug, Clone, PartialEq)]
pub struct MonitorInput {
    pub monitor_id: MonitorTarget,
    pub input_source: InputSource,
}

/// A single step within a hotkey's action chain.
#[derive(Debug, Clone)]
pub struct HotkeyActionSpec {
    pub action_type: ActionType,
    pub target: ActionTarget,
    /// Apply to every detected monitor instead of `monitors`.
    pub all_monitors: bool,
    /// Explicit monitors to apply to (ignored when `all_monitors` is set).
    pub monitors: Vec<MonitorTarget>,
    /// Set = absolute value; Offset = signed delta. Used for numeric targets.
    pub value: i32,
    /// VCP feature code, used when `target == CustomVcp`.
    pub vcp_code: u8,
    /// The one input applied to every monitor when `all_monitors` is set.
    pub input_source: InputSource,
    /// Per-monitor inputs when `all_monitors` is not set.
    pub monitor_inputs: Vec<MonitorInput>,
    /// Used when `target == PowerMode`.
    pub power_mode: PowerMode,
    /// Used when `target == Profile`.
    pub profile_name: String,
}

/// The explicit monitors of an action: the per-monitor input assignments of an
/// Input Source action that has any, else the monitor list.
pub open spec fn explicit_spec(a: HotkeyActionSpec) -> Seq<MonitorTarget> {
    if a.action_type != ActionType::Off && a.target == ActionTarget::InputSource
        && a.monitor_inputs@.len() > 0 {
        a.monitor_inputs@.map_values(|input: MonitorInput| input.monitor_id)
    } else {
        a.monitors@
    }
}

/// The monitors an action applies to: every available monitor, or its
/// explicit monitors.
pub open spec fn action_targets(a: HotkeyActionSpec, available: Seq<MonitorInfo>) -> Seq<
    MonitorTarget,
> {
    if a.all_monitors {
        available.map_values(|m: MonitorInfo| MonitorTarget::Stable(m.key))
    } else {
        explicit_spec(a)
    }
}

/// Targets `j` and `k` resolve to monitors with one display number.
pub open spec fn same_resolved_id(
    targets: Seq<MonitorTarget>,
    available: Seq<MonitorInfo>,
    j: int,
    k: int,
) -> bool {
    exists|a: int, b: int|
        #[trigger] resolves_to(targets[j], available, a) && #[trigger] resolves_to(
            targets[k],
            available,
            b,
        ) && available[a].id == available[b].id
}

/// Target `j` resolves to a monitor with display number `id`.
pub open spec fn resolved_id(targets: Seq<MonitorTarget>, available: Seq<MonitorInfo>, j: int, id: u32) -> bool {
    exists|i: int| #[trigger] resolves_to(targets[j], available, i) && id == available[i].id
}

/// The display number of the monitor target `t` resolves to.
pub open spec fn target_id(t: MonitorTarget, available: Seq<MonitorInfo>) -> u32 {
    available[choose|i: int| resolves_to(t, available, i)].id
}

/// Every target resolves, to pairwise distinct monitors, and there is one.
pub open spec fn targets_resolve(targets: Seq<MonitorTarget>, available: Seq<MonitorInfo>) -> bool {
    &&& targets.len() > 0
    &&& forall|j: int| 0 <= j < targets.len() ==> resolvable(#[trigger] targets[j], available)
    &&& forall|j: int, k: int|
        0 <= j < k < targets.len() ==> !#[trigger] same_resolved_id(targets, available, j, k)
}

/// The default input source of a new action.
pub fn default_input_source() -> (r: InputSource)
    ensures
        r == InputSource::Hdmi1,
{
    InputSource::Hdmi1
}

/// The default power mode of a new action.
pub fn default_power_mode() -> (r: PowerMode)
    ensures
        r == PowerMode::On,
{
    PowerMode::On
}

impl Default for HotkeyActionSpec {
    fn default() -> (r: HotkeyActionSpec)
        ensures
            r.action_type == ActionType::Assign,
            r.target == ActionTarget::Brightness,
            r.all_monitors,
            r.monitors@.len() == 0,
            r.value == 10,
            r.vcp_code == 0x10,
            r.input_source == InputSource::Hdmi1,
            r.monitor_inputs@.len() == 0,
            r.power_mode == PowerMode::On,
            r.profile_name@.len() == 0,
    {
        HotkeyActionSpec {
            action_type: ActionType::Assign,
            target: ActionTarget::Brightness,
            all_monitors: true,
            monitors: Vec::new(),
            value: 10,
            vcp_code: 0x10,
            input_source: default_input_source(),
            monitor_inputs: Vec::new(),
            power_mode: default_power_mode(),
            profile_name: String::new(),
        }
    }
}

fn copy_targets(v: &Vec<MonitorTarget>) -> (r: Vec<MonitorTarget>)
    ensures
        r@ == v@,
{
    let mut r: Vec<MonitorTarget> = Vec::new();
    let mut i: usize = 0;
    while i < v.len()
        invariant
            i <= v@.len(),
            r@ == v@.subrange(0, i as int),
        decreases v.len() - i,
    {
        r.push(v[i].copy());
        proof {
            assert(v@.subrange(0, i + 1) == v@.subrange(0, i as int).push(v@[i as int]));
        }
        i = i + 1;
    }
    proof {
        assert(v@.subrange(0, v@.len() as int) == v@);
    }
    r
}

fn copy_inputs(v: &Vec<MonitorInput>) -> (r: Vec<MonitorInput>)
    ensures
        r@ == v@,
{
    let mut r: Vec<MonitorInput> = Vec::new();
    let mut i: usize = 0;
    while i < v.len()
        invariant
            i <= v@.len(),
            r@ == v@.subrange(0, i as int),
        decreases v.len() - i,
    {
        r.push(MonitorInput { monitor_id: v[i].monitor_id.copy(), input_source: v[i].input_source });
        proof {
            assert(v@.subrange(0, i + 1) == v@.subrange(0, i as int).push(v@[i as int]));
        }
        i = i + 1;
    }
    proof {
        assert(v@.subrange(0, v@.len() as int) == v@);
    }
    r
}

/// `b` holds the same settings and monitor lists as `a`.
pub open spec fn same_action(a: HotkeyActionSpec, b: HotkeyActionSpec) -> bool {
    &&& same_settings(a, b)
    &&& b.monitors@ == a.monitors@
    &&& b.monitor_inputs@ == a.monitor_inputs@
}

impl HotkeyActionSpec {
    /// A copy of this action.
    pub fn copy(&self) -> (r: HotkeyActionSpec)
        ensures
            same_action(*self, r),
    {
        HotkeyActionSpec {
            action_type: self.action_type,
            target: self.target,
            all_monitors: self.all_monitors,
            monitors: copy_targets(&self.monitors),
            value: self.value,
            vcp_code: self.vcp_code,
            input_source: self.input_source,
            monitor_inputs: copy_inputs(&self.monitor_inputs),
            power_mode: self.power_mode,
            profile_name: self.profile_name.clone(),
        }
    }

    /// The explicit monitors of this action (see [`explicit_spec`]).
    pub fn explicit_targets(&self) -> (r: Vec<MonitorTarget>)
        ensures
            r@ == explicit_spec(*self),
    {
        if self.action_type != ActionType::Off && self.target == ActionTarget::InputSource
            && self.monitor_inputs.len() > 0 {
            let mut r: Vec<MonitorTarget> = Vec::new();
            let mut i: usize = 0;
            while i < self.monitor_inputs.len()
                invariant
                    i <= self.monitor_inputs@.len(),
                    r@ == self.monitor_inputs@.subrange(0, i as int).map_values(
                        |input: MonitorInput| input.monitor_id,
                    ),
                decreases self.monitor_inputs.len() - i,
            {
                r.push(self.monitor_inputs[i].monitor_id.copy());
                proof {
                    assert(self.monitor_inputs@.subrange(0, i + 1).map_values(
                        |input: MonitorInput| input.monitor_id,
                    ) == self.monitor_inputs@.subrange(0, i as int).map_values(
                        |input: MonitorInput| input.monitor_id,
                    ).push(self.monitor_inputs@[i as int].monitor_id));
                }
                i = i + 1;
            }
            proof {
                assert(self.monitor_inputs@.subrange(0, self.monitor_inputs@.len() as int)
                    == self.monitor_inputs@);
            }
            r
        } else {
            copy_targets(&self.monitors)
        }
    }

    /// The monitors this action applies to (see [`action_targets`]).
    pub fn targets(&self, available: &[MonitorInfo]) -> (r: Vec<MonitorTarget>)
        ensures
            r@ == action_targets(*self, available@),
    {
        if self.all_monitors {
            let mut r: Vec<MonitorTarget> = Vec::new();
            let mut i: usize = 0;
            while i < available.len()
                invariant
                    i <= available@.len(),
                    r@ == available@.subrange(0, i as int).map_values(
                        |m: MonitorInfo| MonitorTarget::Stable(m.key),
                    ),
                decreases available.len() - i,
            {
                r.push(MonitorTarget::Stable(available[i].key.copy()));
                proof {
                    assert(available@.subrange(0, i + 1).map_values(
                        |m: MonitorInfo| MonitorTarget::Stable(m.key),
                    ) == available@.subrange(0, i as int).map_values(
                        |m: MonitorInfo| MonitorTarget::Stable(m.key),
                    ).push(MonitorTarget::Stable(available@[i as int].key)));
                }
                i = i + 1;
            }
            proof {
                assert(available@.subrange(0, available@.len() as int) == available@);
            }
            r
        } else {
            self.explicit_targets()
        }
    }
}

/// The error text of a duplicate assignment of target `t`.
pub open spec fn duplicate_text(t: MonitorTarget) -> Seq<char> {
    "Duplicate monitor assignment: "@ + target_text(t)
}

/// The error text when no monitor remains to act on.
pub open spec fn no_targets_text() -> Seq<char> {
    "No target monitors selected or available"@
}

/// The error text for a rebind onto an already assigned monitor.
pub open spec fn assigned_text() -> Seq<char> {
    "That monitor is already assigned; remove its assignment before rebinding"@
}

/// Rebinding `from` onto `to` would make `to` appear twice.
pub open spec fn rebind_conflict(a: HotkeyActionSpec, from: MonitorTarget, to: MonitorTarget) -> bool {
    &&& !same_target(from, to)
    &&& ((exists|j: int| 0 <= j < a.monitors@.len() && #[trigger] same_target(a.monitors@[j], to))
        || (exists|j: int|
        0 <= j < a.monitor_inputs@.len() && #[trigger] same_target(a.monitor_inputs@[j].monitor_id, to)))
}

/// `b` is `a` with only its monitor references changed.
pub open spec fn same_settings(a: HotkeyActionSpec, b: HotkeyActionSpec) -> bool {
    &&& b.action_type == a.action_type
    &&& b.target == a.target
    &&& b.all_monitors == a.all_monitors
    &&& b.value == a.value
    &&& b.vcp_code == a.vcp_code
    &&& b.input_source == a.input_source
    &&& b.power_mode == a.power_mode
    &&& b.profile_name == a.profile_name
}

/// Keeps the targets other than `target`.
pub open spec fn other_target(target: MonitorTarget) -> spec_fn(MonitorTarget) -> bool {
    |t: MonitorTarget| !same_target(t, target)
}

/// Keeps the input assignments for monitors other than `target`.
pub open spec fn other_input(target: MonitorTarget) -> spec_fn(MonitorInput) -> bool {
    |input: MonitorInput| !same_target(input.monitor_id, target)
}

/// `t` after replacing `from` by `to`.
pub open spec fn replaced(t: MonitorTarget, from: MonitorTarget, to: MonitorTarget) -> MonitorTarget {
    if same_target(t, from) {
        to
    } else {
        t
    }
}

impl HotkeyActionSpec {
    /// Resolve the whole selection before any job is queued: every target must
    /// name exactly one available monitor and no monitor may be named twice.
    /// Returns the display numbers in target order.
    #[verifier::loop_isolation(false)]
    pub fn resolve_monitors(&self, available: &[MonitorInfo]) -> (r: Result<Vec<u32>, String>)
        ensures
            r is Ok <==> targets_resolve(action_targets(*self, available@), available@),
            r matches Ok(ids) ==> ids@.len() == action_targets(*self, available@).len() && forall|
                j: int,
            |
                0 <= j < ids@.len() ==> #[trigger] resolved_id(
                    action_targets(*self, available@),
                    available@,
                    j,
                    ids@[j],
                ) && ids@[j] == target_id(action_targets(*self, available@)[j], available@),
            r matches Err(e) ==> {
                let targets = action_targets(*self, available@);
                ||| targets.len() == 0 && e@ == no_targets_text()
                ||| exists|j: int|
                    0 <= j < targets.len() && !resolvable(#[trigger] targets[j], available@)
                        && e@ == resolve_error(targets[j], available@)
                ||| exists|j: int, k: int|
                    0 <= j < k < targets.len() && #[trigger] same_resolved_id(targets, available@, j, k)
                        && e@ == duplicate_text(targets[k])
            },
    {
        let targets = self.targets(available);
        let ghost ts = targets@;
        let mut ids: Vec<u32> = Vec::new();
        let mut i: usize = 0;
        while i < targets.len()
            invariant
                ts == targets@,
                ts == action_targets(*self, available@),
                i <= ts.len(),
                ids@.len() == i,
                forall|q: int| 0 <= q < i ==> resolvable(#[trigger] ts[q], available@),
                forall|q: int| 0 <= q < i ==> #[trigger] resolved_id(ts, available@, q, ids@[q]),
                forall|q: int, p: int|
                    0 <= q < p < i ==> !#[trigger] same_resolved_id(ts, available@, q, p),
            decreases ts.len() - i,
        {
            let m = match targets[i].resolve(available) {
                Ok(m) => m,
                Err(e) => return Err(e),
            };
            let ghost mi = choose|a: int| #[trigger] resolves_to(ts[i as int], available@, a) && *m
                == available@[a];
            let id = m.id;
            let mut j: usize = 0;
            while j < ids.len()
                invariant
                    j <= ids@.len(),
                    ids@.len() == i,
                    forall|q: int| 0 <= q < j ==> ids@[q] != id,
                decreases ids.len() - j,
            {
                if ids[j] == id {
                    let mut s = String::from_str("Duplicate monitor assignment: ");
                    let t = targets[i].text();
                    s.append(t.as_str());
                    proof {
                        assert(resolved_id(ts, available@, j as int, ids@[j as int]));
                        let a = choose|a: int| #[trigger] resolves_to(ts[j as int], available@, a)
                            && ids@[j as int] == available@[a].id;
                        assert(same_resolved_id(ts, available@, j as int, i as int));
                    }
                    return Err(s);
                }
                j = j + 1;
            }
            proof {
                assert forall|q: int, p: int| 0 <= q < p < i + 1 implies !#[trigger] same_resolved_id(
                    ts,
                    available@,
                    q,
                    p,
                ) by {
                    if p == i {
                        if same_resolved_id(ts, available@, q, p) {
                            let (a, b) = choose|a: int, b: int|
                                #[trigger] resolves_to(ts[q], available@, a) && #[trigger] resolves_to(
                                    ts[p],
                                    available@,
                                    b,
                                ) && available@[a].id == available@[b].id;
                            assert(resolved_id(ts, available@, q, ids@[q]));
                            let a2 = choose|a2: int| #[trigger] resolves_to(ts[q], available@, a2)
                                && ids@[q] == available@[a2].id;
                            lemma_resolution_unique(ts[q], available@, a, a2);
                            lemma_resolution_unique(ts[p], available@, b, mi);
                            assert(ids@[q] != id);
                        }
                    }
                }
            }
            let ghost prev_ids = ids@;
            ids.push(id);
            proof {
                assert forall|q: int| 0 <= q < i + 1 implies #[trigger] resolved_id(
                    ts,
                    available@,
                    q,
                    ids@[q],
                ) by {
                    if q == i {
                        assert(resolves_to(ts[q], available@, mi));
                    } else {
                        assert(resolved_id(ts, available@, q, prev_ids[q]));
                    }
                }
            }
            i = i + 1;
        }
        if ids.len() == 0 {
            return Err(String::from_str("No target monitors selected or available"));
        }
        proof {
            assert forall|j: int| 0 <= j < ids@.len() implies ids@[j] == target_id(ts[j], available@) by {
                assert(resolved_id(ts, available@, j, ids@[j]));
                let a = choose|a: int| #[trigger] resolves_to(ts[j], available@, a) && ids@[j] == available@[a].id;
                let c = choose|i: int| resolves_to(ts[j], available@, i);
                lemma_resolution_unique(ts[j], available@, a, c);
            }
        }
        Ok(ids)
    }

    /// Replace every reference to `previous` by the key `new`, keeping each
    /// per-monitor input value. Refused, with nothing changed, when `new` is
    /// already assigned elsewhere in this action.
    #[verifier::loop_isolation(false)]
    pub fn rebind_target(&mut self, previous: &MonitorTarget, new: MonitorKey) -> (r: Result<(), String>)
        ensures
            r is Err <==> rebind_conflict(*old(self), *previous, MonitorTarget::Stable(new)),
            r matches Err(e) ==> e@ == assigned_text() && *final(self) == *old(self),
            r is Ok ==> {
                &&& same_settings(*old(self), *final(self))
                &&& final(self).monitors@.len() == old(self).monitors@.len()
                &&& forall|j: int|
                    0 <= j < final(self).monitors@.len() ==> #[trigger] final(self).monitors@[j]
                        == replaced(old(self).monitors@[j], *previous, MonitorTarget::Stable(new))
                &&& final(self).monitor_inputs@.len() == old(self).monitor_inputs@.len()
                &&& forall|j: int|
                    0 <= j < final(self).monitor_inputs@.len() ==> (
                    #[trigger] final(self).monitor_inputs@[j]).input_source
                        == old(self).monitor_inputs@[j].input_source
                        && final(self).monitor_inputs@[j].monitor_id == replaced(
                        old(self).monitor_inputs@[j].monitor_id,
                        *previous,
                        MonitorTarget::Stable(new),
                    )
            },
    {
        let target = MonitorTarget::Stable(new);
        if !previous.same(&target) {
            let mut j: usize = 0;
            while j < self.monitors.len()
                invariant
                    j <= self.monitors@.len(),
                    forall|q: int| 0 <= q < j ==> !#[trigger] same_target(self.monitors@[q], target),
                decreases self.monitors.len() - j,
            {
                if self.monitors[j].same(&target) {
                    assert(same_target(self.monitors@[j as int], target));
                    return Err(
                        String::from_str(
                            "That monitor is already assigned; remove its assignment before rebinding",
                        ),
                    );
                }
                j = j + 1;
            }
            let mut j: usize = 0;
            while j < self.monitor_inputs.len()
                invariant
                    j <= self.monitor_inputs@.len(),
                    forall|q: int|
                        0 <= q < j ==> !#[trigger] same_target(self.monitor_inputs@[q].monitor_id, target),
                decreases self.monitor_inputs.len() - j,
            {
                if self.monitor_inputs[j].monitor_id.same(&target) {
                    assert(same_target(self.monitor_inputs@[j as int].monitor_id, target));
                    return Err(
                        String::from_str(
                            "That monitor is already assigned; remove its assignment before rebinding",
                        ),
                    );
                }
                j = j + 1;
            }
        }
        let ghost before = *self;
        let mut j: usize = 0;
        while j < self.monitors.len()
            invariant
                j <= self.monitors@.len(),
                self.monitors@.len() == before.monitors@.len(),
                self.monitor_inputs@ == before.monitor_inputs@,
                same_settings(before, *self),
                forall|q: int|
                    0 <= q < self.monitors@.len() ==> #[trigger] self.monitors@[q] == if q < j {
                        replaced(before.monitors@[q], *previous, target)
                    } else {
                        before.monitors@[q]
                    },
            decreases self.monitors.len() - j,
        {
            if self.monitors[j].same(previous) {
                self.monitors.set(j, target.copy());
            }
            j = j + 1;
        }
        let mut j: usize = 0;
        while j < self.monitor_inputs.len()
            invariant
                j <= self.monitor_inputs@.len(),
                self.monitor_inputs@.len() == before.monitor_inputs@.len(),
                self.monitors@.len() == before.monitors@.len(),
                same_settings(before, *self),
                forall|q: int|
                    0 <= q < self.monitors@.len() ==> #[trigger] self.monitors@[q] == replaced(
                        before.monitors@[q],
                        *previous,
                        target,
                    ),
                forall|q: int|
                    0 <= q < self.monitor_inputs@.len() ==> #[trigger] self.monitor_inputs@[q] == if q
                        < j {
                        MonitorInput {
                            monitor_id: replaced(before.monitor_inputs@[q].monitor_id, *previous, target),
                            input_source: before.monitor_inputs@[q].input_source,
                        }
                    } else {
                        before.monitor_inputs@[q]
                    },
            decreases self.monitor_inputs.len() - j,
        {
            if self.monitor_inputs[j].monitor_id.same(previous) {
                let input = MonitorInput {
                    monitor_id: target.copy(),
                    input_source: self.monitor_inputs[j].input_source,
                };
                self.monitor_inputs.set(j, input);
            }
            j = j + 1;
        }
        Ok(())
    }

    /// Drop every reference to `target`, from the monitor list and from the
    /// per-monitor inputs.
    #[verifier::loop_isolation(false)]
    pub fn remove_target(&mut self, target: &MonitorTarget)
        ensures
            same_settings(*old(self), *final(self)),
            final(self).monitors@ == old(self).monitors@.filter(
                other_target(*target),
            ),
            final(self).monitor_inputs@ == old(self).monitor_inputs@.filter(
                other_input(*target),
            ),
    {
        let ghost before = *self;
        let mut kept: Vec<MonitorTarget> = Vec::new();
        let mut i: usize = 0;
        while i < self.monitors.len()
            invariant
                *self == before,
                i <= self.monitors@.len(),
                kept@ == self.monitors@.subrange(0, i as int).filter(
                    other_target(*target),
                ),
            decreases self.monitors.len() - i,
        {
            let ghost before_kept = kept@;
            if !self.monitors[i].same(target) {
                kept.push(self.monitors[i].copy());
                assert(kept@ == before_kept.push(self.monitors@[i as int]));
            }
            proof {
                assert(self.monitors@.subrange(0, i + 1) == self.monitors@.subrange(0, i as int).push(
                    self.monitors@[i as int],
                ));
                self.monitors@.subrange(0, i as int).lemma_filter_push(
                    self.monitors@[i as int],
                    other_target(*target),
                );
            }
            i = i + 1;
        }
        proof {
            assert(self.monitors@.subrange(0, self.monitors@.len() as int) == self.monitors@);
        }
        let mut kept_inputs: Vec<MonitorInput> = Vec::new();
        let mut i: usize = 0;
        while i < self.monitor_inputs.len()
            invariant
                *self == before,
                i <= self.monitor_inputs@.len(),
                kept_inputs@ == self.monitor_inputs@.subrange(0, i as int).filter(
                    other_input(*target),
                ),
            decreases self.monitor_inputs.len() - i,
        {
            let ghost before_kept = kept_inputs@;
            proof {
                assert(self.monitor_inputs@.subrange(0, i + 1) == self.monitor_inputs@.subrange(
                    0,
                    i as int,
                ).push(self.monitor_inputs@[i as int]));
                self.monitor_inputs@.subrange(0, i as int).lemma_filter_push(
                    self.monitor_inputs@[i as int],
                    other_input(*target),
                );
            }
            if !self.monitor_inputs[i].monitor_id.same(target) {
                kept_inputs.push(
                    MonitorInput {
                        monitor_id: self.monitor_inputs[i].monitor_id.copy(),
                        input_source: self.monitor_inputs[i].input_source,
                    },
                );
            }
            i = i + 1;
        }
        proof {
            assert(self.monitor_inputs@.subrange(0, self.monitor_inputs@.len() as int)
                == self.monitor_inputs@);
        }
        self.monitors = kept;
        self.monitor_inputs = kept_inputs;
    }
}

proof fn lemma_resolution_unique(t: MonitorTarget, available: Seq<MonitorInfo>, a: int, b: int)
    requires
        resolves_to(t, available, a),
        resolves_to(t, available, b),
    ensures
        a == b,
{
    match t {
        MonitorTarget::Stable(key) => {
            assert(key_matches(available, key, b));
        },
        MonitorTarget::LegacyIndex(_) => {},
    }
}

/// A global hotkey bound to a chain of one or more actions.
#[derive(Debug, Clone)]
pub struct Hotkey {
    pub id: String,
    /// Optional name shown on the hotkey card. Blank labels use a numbered title.
    pub label: String,
    pub binding: HotkeyBinding,
    pub actions: Vec<HotkeyActionSpec>,
}

/// The text of a hotkey id made from a clock reading and a sequence number.
pub open spec fn id_text(nanos: u128, counter: u64) -> Seq<char> {
    "hk-"@ + decimal(nanos as nat) + "-"@ + decimal(counter as nat)
}

/// The id of a new hotkey: the clock reading in nanoseconds since the Unix
/// epoch and a process-wide sequence number, so ids made in one instant differ.
pub fn new_id(nanos: u128, counter: u64) -> (r: String)
    ensures
        r@ == id_text(nanos, counter),
{
    let mut s = String::from_str("hk-");
    push_decimal_wide(&mut s, nanos);
    s.append("-");
    push_decimal(&mut s, counter);
    s
}

impl Hotkey {
    /// A new, unbound hotkey with a single default action.
    pub fn new_empty(id: String) -> (r: Hotkey)
        ensures
            r.id == id,
            r.label@.len() == 0,
            r.binding.key@.len() == 0,
            r.actions@.len() == 1,
            r.actions@[0].action_type == ActionType::Assign,
            r.actions@[0].target == ActionTarget::Brightness,
            r.actions@[0].all_monitors,
            !r.binding.ctrl && !r.binding.alt && !r.binding.shift && !r.binding.win,
            r.actions@[0].monitors@.len() == 0,
            r.actions@[0].value == 10,
            r.actions@[0].vcp_code == 0x10,
            r.actions@[0].input_source == InputSource::Hdmi1,
            r.actions@[0].monitor_inputs@.len() == 0,
            r.actions@[0].power_mode == PowerMode::On,
            r.actions@[0].profile_name@.len() == 0,
    {
        let mut actions: Vec<HotkeyActionSpec> = Vec::new();
        actions.push(HotkeyActionSpec::default());
        Hotkey { id, label: String::new(), binding: HotkeyBinding::unbound(), actions }
    }

    /// A new, unbound hotkey with a single "apply profile" action.
    pub fn new_for_profile(id: String, profile_name: String) -> (r: Hotkey)
        ensures
            r.id == id,
            r.label@.len() == 0,
            r.binding.key@.len() == 0,
            r.actions@.len() == 1,
            r.actions@[0].action_type == ActionType::Assign,
            r.actions@[0].target == ActionTarget::Profile,
            r.actions@[0].all_monitors,
            r.actions@[0].profile_name == profile_name,
            !r.binding.ctrl && !r.binding.alt && !r.binding.shift && !r.binding.win,
            r.actions@[0].monitors@.len() == 0,
            r.actions@[0].value == 10,
            r.actions@[0].vcp_code == 0x10,
            r.actions@[0].input_source == InputSource::Hdmi1,
            r.actions@[0].monitor_inputs@.len() == 0,
            r.actions@[0].power_mode == PowerMode::On,
    {
        let mut action = HotkeyActionSpec::default();
        action.target = ActionTarget::Profile;
        action.all_monitors = true;
        action.profile_name = profile_name;
        let mut actions: Vec<HotkeyActionSpec> = Vec::new();
        actions.push(action);
        Hotkey { id, label: String::new(), binding: HotkeyBinding::unbound(), actions }
    }
}

/// Card heading for one hotkey: the visible title and the empty-field placeholder.
#[derive(Debug, Clone, PartialEq, Eq)]
pub struct HotkeyHeading {
    /// Trimmed custom label, or the fallback when the label is blank.
    pub title: String,
    /// Numbered name (`Hotkey (n)`) used when the custom label is empty.
    pub fallback: String,
}

/// Whether a label is empty or only whitespace.
pub open spec fn blank(label: Seq<char>) -> bool {
    trim_seq(label).len() == 0
}

/// How many of the first `n` hotkeys have blank labels.
pub open spec fn blanks_before(hotkeys: Seq<Hotkey>, n: int) -> nat
    decreases n,
{
    if n <= 0 {
        0
    } else {
        blanks_before(hotkeys, n - 1) + if blank(hotkeys[n - 1].label@) {
            1nat
        } else {
            0nat
        }
    }
}

/// The numbered fallback name `Hotkey (n)`.
pub open spec fn numbered(n: nat) -> Seq<char> {
    "Hotkey ("@ + decimal(n) + ")"@
}

proof fn lemma_blanks_bounded(hotkeys: Seq<Hotkey>, n: int)
    requires
        0 <= n,
    ensures
        blanks_before(hotkeys, n) <= n,
    decreases n,
{
    if n > 0 {
        lemma_blanks_bounded(hotkeys, n - 1);
    }
}

/// Headings in list order. A non-blank label is the title and does not use up
/// a number; a blank one becomes `Hotkey (n)`, and `n` then increases by 1.
pub fn hotkey_headings(hotkeys: &[Hotkey]) -> (r: Vec<HotkeyHeading>)
    ensures
        r@.len() == hotkeys@.len(),
        forall|i: int|
            0 <= i < hotkeys@.len() ==> {
                let fallback = numbered(blanks_before(hotkeys@, i) + 1);
                &&& (#[trigger] r@[i]).fallback@ == fallback
                &&& r@[i].title@ == if blank(hotkeys@[i].label@) {
                    fallback
                } else {
                    trim_seq(hotkeys@[i].label@)
                }
            },
{
    let mut headings: Vec<HotkeyHeading> = Vec::new();
    let mut next: u128 = 1;
    let mut i: usize = 0;
    while i < hotkeys.len()
        invariant
            i <= hotkeys@.len(),
            headings@.len() == i,
            next == blanks_before(hotkeys@, i as int) + 1,
            forall|q: int|
                0 <= q < i ==> {
                    let fallback = numbered(blanks_before(hotkeys@, q) + 1);
                    &&& (#[trigger] headings@[q]).fallback@ == fallback
                    &&& headings@[q].title@ == if blank(hotkeys@[q].label@) {
                        fallback
                    } else {
                        trim_seq(hotkeys@[q].label@)
                    }
                },
        decreases hotkeys.len() - i,
    {
        proof {
            lemma_blanks_bounded(hotkeys@, i as int);
            assert(hotkeys@.len() <= usize::MAX);
        }
        let mut fallback = String::from_str("Hotkey (");
        push_decimal_wide(&mut fallback, next);
        fallback.append(")");
        let label = trim(hotkeys[i].label.as_str());
        let heading = if label.unicode_len() == 0 {
            next = next + 1;
            HotkeyHeading { title: fallback.clone(), fallback }
        } else {
            HotkeyHeading { title: label, fallback }
        };
        headings.push(heading);
        i = i + 1;
    }
    headings
}

/// The "Turn Off Displays" behavior for `ActionType::Off` actions.
#[derive(Debug, Clone, Copy, PartialEq, Eq, Structural)]
pub enum TurnOffBehavior {
    /// Turn-off actions do nothing.
    Disabled,
    /// Soft off via broadcast `WM_SYSCOMMAND` / `SC_MONITORPOWER`.
    Soft,
    /// DDC/CI power-off command sent to each selected monitor.
    Ddc,
    /// Both soft-off and DDC/CI power-off.
    Both,
}

impl Default for TurnOffBehavior {
    fn default() -> (r: TurnOffBehavior)
        ensures
            r == TurnOffBehavior::Disabled,
    {
        TurnOffBehavior::Disabled
    }
}

impl TurnOffBehavior {
    /// The name shown for this behavior.
    pub fn label(self) -> (r: &'static str)
        ensures
            r@ == match self {
                TurnOffBehavior::Disabled => "None"@,
                TurnOffBehavior::Soft => "Soft (Windows monitor sleep)"@,
                TurnOffBehavior::Ddc => "DDC/CI power off"@,
                TurnOffBehavior::Both => "Both"@,
            },
    {
        match self {
            TurnOffBehavior::Disabled => "None",
            TurnOffBehavior::Soft => "Soft (Windows monitor sleep)",
            TurnOffBehavior::Ddc => "DDC/CI power off",
            TurnOffBehavior::Both => "Both",
        }
    }

    /// Whether the Windows soft-off broadcast is part of this behavior.
    pub fn uses_soft(self) -> (r: bool)
        ensures
            r == (self == TurnOffBehavior::Soft || self == TurnOffBehavior::Both),
    {
        match self {
            TurnOffBehavior::Soft | TurnOffBehavior::Both => true,
            _ => false,
        }
    }

    /// Whether DDC/CI power-off commands are part of this behavior.
    pub fn uses_ddc(self) -> (r: bool)
        ensures
            r == (self == TurnOffBehavior::Ddc || self == TurnOffBehavior::Both),
    {
        match self {
            TurnOffBehavior::Ddc | TurnOffBehavior::Both => true,
            _ => false,
        }
    }
}

// ---------------------------------------------------------------------------
// Key names and global hotkey ids
// ---------------------------------------------------------------------------

/// An ASCII capital letter.
pub open spec fn is_letter(c: char) -> bool {
    'A' <= c <= 'Z'
}

/// An ASCII digit.
pub open spec fn is_digit(c: char) -> bool {
    '0' <= c <= '9'
}

/// `F1` through `F24`.
pub open spec fn function_key(s: Seq<char>) -> bool {
    &&& s.len() >= 2
    &&& s[0] == 'F'
    &&& {
        ||| s.len() == 2 && '1' <= s[1] <= '9'
        ||| s.len() == 3 && s[1] == '1' && is_digit(s[2])
        ||| s.len() == 3 && s[1] == '2' && '0' <= s[2] <= '4'
    }
}

/// `Numpad0` through `Numpad9`.
pub open spec fn numpad_digit(s: Seq<char>) -> bool {
    s.len() == 7 && s.subrange(0, 6) == "Numpad"@ && is_digit(s[6])
}

/// The other key names a binding may use.
pub open spec fn named_key(s: Seq<char>) -> bool {
    ||| s == "ArrowUp"@
    ||| s == "ArrowDown"@
    ||| s == "ArrowLeft"@
    ||| s == "ArrowRight"@
    ||| s == "NumpadAdd"@
    ||| s == "NumpadSubtract"@
    ||| s == "Space"@
    ||| s == "Enter"@
    ||| s == "Escape"@
    ||| s == "Backspace"@
    ||| s == "Tab"@
    ||| s == "Home"@
    ||| s == "End"@
    ||| s == "PageUp"@
    ||| s == "PageDown"@
    ||| s == "Insert"@
    ||| s == "Delete"@
}

/// The key code a binding's key name stands for, by its code name: a capital
/// letter is `Key` and the letter, a digit is `Digit` and the digit, and the
/// function, numpad and named keys are their own names. Any other name has no
/// key code.
pub open spec fn key_code(s: Seq<char>) -> Option<Seq<char>> {
    if s.len() == 1 && is_letter(s[0]) {
        Some("Key"@ + s)
    } else if s.len() == 1 && is_digit(s[0]) {
        Some("Digit"@ + s)
    } else if function_key(s) || numpad_digit(s) || named_key(s) {
        Some(s)
    } else {
        None
    }
}

fn is_named_key(s: &str) -> (r: bool)
    ensures
        r == named_key(s@),
{
    str_eq(s, "ArrowUp") || str_eq(s, "ArrowDown") || str_eq(s, "ArrowLeft") || str_eq(
        s,
        "ArrowRight",
    ) || str_eq(s, "NumpadAdd") || str_eq(s, "NumpadSubtract") || str_eq(s, "Space") || str_eq(
        s,
        "Enter",
    ) || str_eq(s, "Escape") || str_eq(s, "Backspace") || str_eq(s, "Tab") || str_eq(s, "Home")
        || str_eq(s, "End") || str_eq(s, "PageUp") || str_eq(s, "PageDown") || str_eq(s, "Insert")
        || str_eq(s, "Delete")
}

/// The key code name for a binding's key name (see [`key_code`]).
pub fn string_to_code(s: &str) -> (r: Option<String>)
    ensures
        match r {
            Some(code) => key_code(s@) == Some(code@),
            None => key_code(s@) is None,
        },
{
    let n = s.unicode_len();
    if n == 1 {
        let c = s.get_char(0);
        if 'A' <= c && c <= 'Z' {
            let mut code = String::from_str("Key");
            code.append(s);
            return Some(code);
        }
        if '0' <= c && c <= '9' {
            let mut code = String::from_str("Digit");
            code.append(s);
            return Some(code);
        }
    }
    let function = n >= 2 && s.get_char(0) == 'F' && {
        let c1 = s.get_char(1);
        (n == 2 && '1' <= c1 && c1 <= '9') || (n == 3 && c1 == '1' && '0' <= s.get_char(2)
            && s.get_char(2) <= '9') || (n == 3 && c1 == '2' && '0' <= s.get_char(2) && s.get_char(
            2,
        ) <= '4')
    };
    proof {
        reveal_strlit("Numpad");
    }
    let numpad = n == 7 && starts_with(s, "Numpad") && '0' <= s.get_char(6) && s.get_char(6) <= '9';
    if function || numpad || is_named_key(s) {
        return Some(String::from_str(s));
    }
    None
}

/// The accelerator text global_hotkey parses for a binding with key code `code`:
/// the held modifiers, then the code name, joined by `+`.
pub open spec fn accelerator(b: HotkeyBinding, code: Seq<char>) -> Seq<char> {
    (if b.ctrl {
        "control+"@
    } else {
        Seq::empty()
    }) + (if b.alt {
        "alt+"@
    } else {
        Seq::empty()
    }) + (if b.shift {
        "shift+"@
    } else {
        Seq::empty()
    }) + (if b.win {
        "super+"@
    } else {
        Seq::empty()
    }) + code
}

/// The global hotkey id of a binding, when its key name has a key code.
pub open spec fn binding_id(b: HotkeyBinding) -> Option<u32> {
    match key_code(b.key@) {
        Some(code) => accelerator_id(accelerator(b, code)),
        None => None,
    }
}

/// The id global_hotkey gives the hotkey it parses from an accelerator text,
/// or `None` when it refuses the text.
pub uninterp spec fn accelerator_id(text: Seq<char>) -> Option<u32>;

/// Parses `text` with `global_hotkey::hotkey::HotKey::from_str` and returns
/// the resulting hotkey's `id()`. Claimed: the result is a function of the
/// text alone (global_hotkey computes the id from the modifier bits and the
/// key code).
#[verifier::external_body]
fn parse_accelerator_id(text: &str) -> (r: Option<u32>)
    ensures
        r == accelerator_id(text@),
{
    match text.parse::<global_hotkey::hotkey::HotKey>() {
        Ok(hotkey) => Some(hotkey.id()),
        Err(_) => None,
    }
}

impl HotkeyBinding {
    /// The accelerator text for this binding, when its key name has a key code.
    pub fn accelerator_text(&self) -> (r: Option<String>)
        ensures
            match key_code(self.key@) {
                Some(code) => r matches Some(t) && t@ == accelerator(*self, code),
                None => r is None,
            },
    {
        let code = match string_to_code(self.key.as_str()) {
            Some(code) => code,
            None => return None,
        };
        let mut s = String::new();
        if self.ctrl {
            s.append("control+");
        }
        if self.alt {
            s.append("alt+");
        }
        if self.shift {
            s.append("shift+");
        }
        if self.win {
            s.append("super+");
        }
        s.append(code.as_str());
        Some(s)
    }

    /// The global hotkey id of this binding; `None` when the key name has no
    /// key code.
    pub fn to_hotkey(&self) -> (r: Option<u32>)
        ensures
            r == binding_id(*self),
    {
        match self.accelerator_text() {
            Some(text) => parse_accelerator_id(text.as_str()),
            None => None,
        }
    }
}

// ---------------------------------------------------------------------------
// Legacy (pre-action-chain) bindings, kept only to migrate old settings
// ---------------------------------------------------------------------------

/// An old input-switch binding.
#[derive(Debug, Clone)]
pub struct LegacyInputSwitchBinding {
    pub monitor_id: u32,
    pub input_source: InputSource,
    pub hotkey: HotkeyBinding,
}

/// The direction of an old brightness or contrast step binding.
#[derive(Debug, Clone, Copy, PartialEq, Eq, Structural)]
pub enum LegacyStepDirection {
    Up,
    Down,
}

/// An old brightness or contrast step binding.
#[derive(Debug, Clone)]
pub struct LegacyStepBinding {
    pub monitor_id: u32,
    pub direction: LegacyStepDirection,
    pub hotkey: HotkeyBinding,
}

/// An old power-mode binding.
#[derive(Debug, Clone)]
pub struct LegacyPowerModeBinding {
    pub monitor_id: u32,
    pub power_mode: PowerMode,
    pub hotkey: HotkeyBinding,
}

/// An old profile binding.
#[derive(Debug, Clone)]
pub struct LegacyProfileBinding {
    pub profile_name: String,
    pub hotkey: HotkeyBinding,
}

/// The hotkey settings. The legacy lists are only filled when old settings
/// are read, and are emptied by [`HotkeyConfig::migrate_legacy`].
#[derive(Debug, Clone)]
pub struct HotkeyConfig {
    pub hotkeys: Vec<Hotkey>,
    /// Step size of brightness steps (old bindings and new offset actions).
    pub brightness_step: u16,
    /// Step size of contrast steps.
    pub contrast_step: u16,
    pub input_switch_bindings: Vec<LegacyInputSwitchBinding>,
    pub brightness_bindings: Vec<LegacyStepBinding>,
    pub contrast_bindings: Vec<LegacyStepBinding>,
    pub power_mode_bindings: Vec<LegacyPowerModeBinding>,
    pub profile_bindings: Vec<LegacyProfileBinding>,
}

impl Default for HotkeyConfig {
    fn default() -> (r: HotkeyConfig)
        ensures
            r.hotkeys@.len() == 0,
            r.brightness_step == 10,
            r.contrast_step == 10,
            r.input_switch_bindings@.len() == 0,
            r.brightness_bindings@.len() == 0,
            r.contrast_bindings@.len() == 0,
            r.power_mode_bindings@.len() == 0,
            r.profile_bindings@.len() == 0,
    {
        HotkeyConfig {
            hotkeys: Vec::new(),
            brightness_step: 10,
            contrast_step: 10,
            input_switch_bindings: Vec::new(),
            brightness_bindings: Vec::new(),
            contrast_bindings: Vec::new(),
            power_mode_bindings: Vec::new(),
            profile_bindings: Vec::new(),
        }
    }
}

/// A migrated hotkey: id `id`, no label, binding `binding`, one action.
pub open spec fn migrated(h: Hotkey, id: Seq<char>, binding: HotkeyBinding) -> bool {
    &&& h.id@ == id
    &&& h.label@.len() == 0
    &&& h.binding == binding
    &&& h.actions@.len() == 1
}

/// An action on one legacy monitor number, otherwise with default settings.
pub open spec fn legacy_action(a: HotkeyActionSpec, monitor_id: u32) -> bool {
    &&& !a.all_monitors
    &&& a.monitors@ == seq![MonitorTarget::LegacyIndex(monitor_id)]
    &&& a.vcp_code == 0x10
    &&& a.profile_name@.len() == 0
}

/// The action of a migrated input-switch binding.
pub open spec fn input_action(a: HotkeyActionSpec, b: LegacyInputSwitchBinding) -> bool {
    &&& legacy_action(a, b.monitor_id)
    &&& a.action_type == ActionType::Assign
    &&& a.target == ActionTarget::InputSource
    &&& a.input_source == b.input_source
    &&& a.monitor_inputs@ == seq![
        MonitorInput { monitor_id: MonitorTarget::LegacyIndex(b.monitor_id), input_source: b.input_source },
    ]
    &&& a.value == 10
    &&& a.power_mode == PowerMode::On
}

/// The signed step of a legacy step binding.
pub open spec fn step_value(direction: LegacyStepDirection, step: u16) -> i32 {
    match direction {
        LegacyStepDirection::Up => step as i32,
        LegacyStepDirection::Down => (-(step as int)) as i32,
    }
}

/// The action of a migrated brightness or contrast step binding.
pub open spec fn step_action(a: HotkeyActionSpec, b: LegacyStepBinding, target: ActionTarget, step: u16) -> bool {
    &&& legacy_action(a, b.monitor_id)
    &&& a.action_type == ActionType::Offset
    &&& a.target == target
    &&& a.value == step_value(b.direction, step)
    &&& a.input_source == InputSource::Hdmi1
    &&& a.monitor_inputs@.len() == 0
    &&& a.power_mode == PowerMode::On
}

/// The action of a migrated power-mode binding.
pub open spec fn power_action(a: HotkeyActionSpec, b: LegacyPowerModeBinding) -> bool {
    &&& legacy_action(a, b.monitor_id)
    &&& a.action_type == ActionType::Assign
    &&& a.target == ActionTarget::PowerMode
    &&& a.power_mode == b.power_mode
    &&& a.value == 10
    &&& a.input_source == InputSource::Hdmi1
    &&& a.monitor_inputs@.len() == 0
}

/// The action of a migrated profile binding.
pub open spec fn profile_action(a: HotkeyActionSpec, b: LegacyProfileBinding) -> bool {
    &&& a.action_type == ActionType::Assign
    &&& a.target == ActionTarget::Profile
    &&& a.all_monitors
    &&& a.monitors@.len() == 0
    &&& a.profile_name == b.profile_name
    &&& a.value == 10
    &&& a.vcp_code == 0x10
    &&& a.input_source == InputSource::Hdmi1
    &&& a.monitor_inputs@.len() == 0
    &&& a.power_mode == PowerMode::On
}

/// The number of legacy bindings waiting for migration.
pub open spec fn legacy_count(c: HotkeyConfig) -> nat {
    c.input_switch_bindings@.len() + c.brightness_bindings@.len() + c.contrast_bindings@.len()
        + c.power_mode_bindings@.len() + c.profile_bindings@.len()
}

/// The legacy lists and step sizes of `c` are those of `start`.
pub open spec fn legacy_kept(c: HotkeyConfig, start: HotkeyConfig) -> bool {
    &&& c.input_switch_bindings@ == start.input_switch_bindings@
    &&& c.brightness_bindings@ == start.brightness_bindings@
    &&& c.contrast_bindings@ == start.contrast_bindings@
    &&& c.power_mode_bindings@ == start.power_mode_bindings@
    &&& c.profile_bindings@ == start.profile_bindings@
    &&& c.brightness_step == start.brightness_step
    &&& c.contrast_step == start.contrast_step
}

/// `cur` begins with `prefix`.
pub open spec fn kept_prefix(cur: Seq<Hotkey>, prefix: Seq<Hotkey>) -> bool {
    &&& cur.len() >= prefix.len()
    &&& forall|j: int| 0 <= j < prefix.len() ==> #[trigger] cur[j] == prefix[j]
}

proof fn lemma_push_keeps(prev: Seq<Hotkey>, h: Hotkey, prefix: Seq<Hotkey>)
    requires
        kept_prefix(prev, prefix),
    ensures
        kept_prefix(prev.push(h), prefix),
{
    assert forall|j: int| 0 <= j < prefix.len() implies #[trigger] prev.push(h)[j] == prefix[j] by {
        assert(prev.push(h)[j] == prev[j]);
    }
}

fn legacy_monitor_action(monitor_id: u32) -> (r: HotkeyActionSpec)
    ensures
        legacy_action(r, monitor_id),
        r.action_type == ActionType::Assign,
        r.target == ActionTarget::Brightness,
        r.value == 10,
        r.input_source == InputSource::Hdmi1,
        r.monitor_inputs@.len() == 0,
        r.power_mode == PowerMode::On,
{
    let mut action = HotkeyActionSpec::default();
    action.all_monitors = false;
    let mut monitors: Vec<MonitorTarget> = Vec::new();
    monitors.push(MonitorTarget::LegacyIndex(monitor_id));
    action.monitors = monitors;
    proof {
        assert(action.monitors@ == seq![MonitorTarget::LegacyIndex(monitor_id)]);
    }
    action
}

fn single_action_hotkey(id: String, binding: HotkeyBinding, action: HotkeyActionSpec) -> (r: Hotkey)
    ensures
        migrated(r, id@, binding),
        r.actions@[0] == action,
{
    let mut actions: Vec<HotkeyActionSpec> = Vec::new();
    actions.push(action);
    Hotkey { id, label: String::new(), binding, actions }
}

/// `after` is `before` with every legacy binding moved, in the order input
/// switches, brightness, contrast, power modes, profiles, into a hotkey of its
/// own behind the existing ones, ids made from `nanos` and `counter` on.
pub open spec fn legacy_migration(before: HotkeyConfig, after: HotkeyConfig, nanos: u128, counter: u64) -> bool {
    &&& after.input_switch_bindings@.len() == 0
    &&& after.brightness_bindings@.len() == 0
    &&& after.contrast_bindings@.len() == 0
    &&& after.power_mode_bindings@.len() == 0
    &&& after.profile_bindings@.len() == 0
    &&& after.brightness_step == before.brightness_step
    &&& after.contrast_step == before.contrast_step
    &&& after.hotkeys@.len() == before.hotkeys@.len() + legacy_count(before)
    &&& forall|j: int|
                    0 <= j < before.hotkeys@.len() ==> #[trigger] after.hotkeys@[j] == before.hotkeys@[j]
    &&& ({
                    let base = before.hotkeys@.len() as int;
                    let first = counter as int;
                    let list = before.input_switch_bindings@;
                    forall|k: int|
                        0 <= k < list.len() ==> migrated(
                            #[trigger] after.hotkeys@[base + k],
                            id_text(nanos, (first + k) as u64),
                            list[k].hotkey,
                        ) && input_action(after.hotkeys@[base + k].actions@[0], list[k])
    })
    &&& ({
                    let base = before.hotkeys@.len() + before.input_switch_bindings@.len();
                    let first = counter + before.input_switch_bindings@.len();
                    let list = before.brightness_bindings@;
                    forall|k: int|
                        0 <= k < list.len() ==> migrated(
                            #[trigger] after.hotkeys@[base + k],
                            id_text(nanos, (first + k) as u64),
                            list[k].hotkey,
                        ) && step_action(
                            after.hotkeys@[base + k].actions@[0],
                            list[k],
                            ActionTarget::Brightness,
                            before.brightness_step,
                        )
    })
    &&& ({
                    let skip = before.input_switch_bindings@.len() + before.brightness_bindings@.len();
                    let base = before.hotkeys@.len() + skip;
                    let first = counter + skip;
                    let list = before.contrast_bindings@;
                    forall|k: int|
                        0 <= k < list.len() ==> migrated(
                            #[trigger] after.hotkeys@[base + k],
                            id_text(nanos, (first + k) as u64),
                            list[k].hotkey,
                        ) && step_action(
                            after.hotkeys@[base + k].actions@[0],
                            list[k],
                            ActionTarget::Contrast,
                            before.contrast_step,
                        )
    })
    &&& ({
                    let skip = before.input_switch_bindings@.len() + before.brightness_bindings@.len()
                        + before.contrast_bindings@.len();
                    let base = before.hotkeys@.len() + skip;
                    let first = counter + skip;
                    let list = before.power_mode_bindings@;
                    forall|k: int|
                        0 <= k < list.len() ==> migrated(
                            #[trigger] after.hotkeys@[base + k],
                            id_text(nanos, (first + k) as u64),
                            list[k].hotkey,
                        ) && power_action(after.hotkeys@[base + k].actions@[0], list[k])
    })
    &&& ({
                    let skip = before.input_switch_bindings@.len() + before.brightness_bindings@.len()
                        + before.contrast_bindings@.len() + before.power_mode_bindings@.len();
                    let base = before.hotkeys@.len() + skip;
                    let first = counter + skip;
                    let list = before.profile_bindings@;
                    forall|k: int|
                        0 <= k < list.len() ==> migrated(
                            #[trigger] after.hotkeys@[base + k],
                            id_text(nanos, (first + k) as u64),
                            list[k].hotkey,
                        ) && profile_action(after.hotkeys@[base + k].actions@[0], list[k])
    })
}

impl HotkeyConfig {
    /// Turn every legacy binding into a hotkey with one action, in the order
    /// input switches, brightness, contrast, power modes, profiles, and empty
    /// the legacy lists so they are never written back. Ids are made from the
    /// clock reading `nanos` and the sequence numbers from `counter` on; the
    /// next unused sequence number is returned.
    #[verifier::loop_isolation(false)]
    pub fn migrate_legacy(&mut self, nanos: u128, counter: u64) -> (next: u64)
        requires
            counter + legacy_count(*old(self)) <= u64::MAX,
        ensures
            next == counter + legacy_count(*old(self)),
            legacy_migration(*old(self), *final(self), nanos, counter),
            final(self).input_switch_bindings@.len() == 0,
            final(self).brightness_bindings@.len() == 0,
            final(self).contrast_bindings@.len() == 0,
            final(self).power_mode_bindings@.len() == 0,
            final(self).profile_bindings@.len() == 0,
            final(self).brightness_step == old(self).brightness_step,
            final(self).contrast_step == old(self).contrast_step,
            final(self).hotkeys@.len() == old(self).hotkeys@.len() + legacy_count(*old(self)),
            forall|j: int|
                0 <= j < old(self).hotkeys@.len() ==> #[trigger] final(self).hotkeys@[j] == old(
                    self,
                ).hotkeys@[j],
            ({
                let base = old(self).hotkeys@.len() as int;
                let first = counter as int;
                let list = old(self).input_switch_bindings@;
                forall|k: int|
                    0 <= k < list.len() ==> migrated(
                        #[trigger] final(self).hotkeys@[base + k],
                        id_text(nanos, (first + k) as u64),
                        list[k].hotkey,
                    ) && input_action(final(self).hotkeys@[base + k].actions@[0], list[k])
            }),
            ({
                let base = old(self).hotkeys@.len() + old(self).input_switch_bindings@.len();
                let first = counter + old(self).input_switch_bindings@.len();
                let list = old(self).brightness_bindings@;
                forall|k: int|
                    0 <= k < list.len() ==> migrated(
                        #[trigger] final(self).hotkeys@[base + k],
                        id_text(nanos, (first + k) as u64),
                        list[k].hotkey,
                    ) && step_action(
                        final(self).hotkeys@[base + k].actions@[0],
                        list[k],
                        ActionTarget::Brightness,
                        old(self).brightness_step,
                    )
            }),
            ({
                let skip = old(self).input_switch_bindings@.len() + old(self).brightness_bindings@.len();
                let base = old(self).hotkeys@.len() + skip;
                let first = counter + skip;
                let list = old(self).contrast_bindings@;
                forall|k: int|
                    0 <= k < list.len() ==> migrated(
                        #[trigger] final(self).hotkeys@[base + k],
                        id_text(nanos, (first + k) as u64),
                        list[k].hotkey,
                    ) && step_action(
                        final(self).hotkeys@[base + k].actions@[0],
                        list[k],
                        ActionTarget::Contrast,
                        old(self).contrast_step,
                    )
            }),
            ({
                let skip = old(self).input_switch_bindings@.len() + old(self).brightness_bindings@.len()
                    + old(self).contrast_bindings@.len();
                let base = old(self).hotkeys@.len() + skip;
                let first = counter + skip;
                let list = old(self).power_mode_bindings@;
                forall|k: int|
                    0 <= k < list.len() ==> migrated(
                        #[trigger] final(self).hotkeys@[base + k],
                        id_text(nanos, (first + k) as u64),
                        list[k].hotkey,
                    ) && power_action(final(self).hotkeys@[base + k].actions@[0], list[k])
            }),
            ({
                let skip = old(self).input_switch_bindings@.len() + old(self).brightness_bindings@.len()
                    + old(self).contrast_bindings@.len() + old(self).power_mode_bindings@.len();
                let base = old(self).hotkeys@.len() + skip;
                let first = counter + skip;
                let list = old(self).profile_bindings@;
                forall|k: int|
                    0 <= k < list.len() ==> migrated(
                        #[trigger] final(self).hotkeys@[base + k],
                        id_text(nanos, (first + k) as u64),
                        list[k].hotkey,
                    ) && profile_action(final(self).hotkeys@[base + k].actions@[0], list[k])
            }),
    {
        let ghost start = *self;
        let n0 = self.hotkeys.len();
        let mut next = counter;
        let mut k: usize = 0;
        while k < self.input_switch_bindings.len()
            invariant
                k <= start.input_switch_bindings@.len(),
                legacy_kept(*self, start),
                next == counter + k,
                self.hotkeys@.len() == n0 + k,
                kept_prefix(self.hotkeys@, start.hotkeys@),
                forall|q: int|
                    0 <= q < k ==> migrated(
                        #[trigger] self.hotkeys@[n0 + q],
                        id_text(nanos, (counter + q) as u64),
                        start.input_switch_bindings@[q].hotkey,
                    ) && input_action(self.hotkeys@[n0 + q].actions@[0], start.input_switch_bindings@[q]),
            decreases start.input_switch_bindings@.len() - k,
        {
            let b = &self.input_switch_bindings[k];
            let mut action = legacy_monitor_action(b.monitor_id);
            action.target = ActionTarget::InputSource;
            action.input_source = b.input_source;
            let mut inputs: Vec<MonitorInput> = Vec::new();
            inputs.push(
                MonitorInput {
                    monitor_id: MonitorTarget::LegacyIndex(b.monitor_id),
                    input_source: b.input_source,
                },
            );
            action.monitor_inputs = inputs;
            let hotkey = single_action_hotkey(new_id(nanos, next), b.hotkey.copy(), action);
            let ghost prev = self.hotkeys@;
            self.hotkeys.push(hotkey);
            proof {
                lemma_push_keeps(prev, hotkey, start.hotkeys@);
                assert forall|q: int| 0 <= q < k + 1 implies migrated(
                    #[trigger] self.hotkeys@[n0 + q],
                    id_text(nanos, (counter + q) as u64),
                    start.input_switch_bindings@[q].hotkey,
                ) && input_action(self.hotkeys@[n0 + q].actions@[0], start.input_switch_bindings@[q]) by {
                    if q < k {
                        assert(self.hotkeys@[n0 + q] == prev[n0 + q]);
                    }
                }
            }
            next = next + 1;
            k = k + 1;
        }
        let ghost h1 = self.hotkeys@;
        let n1 = self.hotkeys.len();
        let step = self.brightness_step as i32;
        let mut k: usize = 0;
        while k < self.brightness_bindings.len()
            invariant
                k <= start.brightness_bindings@.len(),
                legacy_kept(*self, start),
                step == start.brightness_step as i32,
                next == counter + start.input_switch_bindings@.len() + k,
                self.hotkeys@.len() == n1 + k,
                kept_prefix(self.hotkeys@, h1),
                forall|q: int|
                    0 <= q < k ==> migrated(
                        #[trigger] self.hotkeys@[n1 + q],
                        id_text(nanos, (counter + start.input_switch_bindings@.len() + q) as u64),
                        start.brightness_bindings@[q].hotkey,
                    ) && step_action(
                        self.hotkeys@[n1 + q].actions@[0],
                        start.brightness_bindings@[q],
                        ActionTarget::Brightness,
                        start.brightness_step,
                    ),
            decreases start.brightness_bindings@.len() - k,
        {
            let b = &self.brightness_bindings[k];
            let mut action = legacy_monitor_action(b.monitor_id);
            action.action_type = ActionType::Offset;
            action.value = match b.direction {
                LegacyStepDirection::Up => step,
                LegacyStepDirection::Down => -step,
            };
            let hotkey = single_action_hotkey(new_id(nanos, next), b.hotkey.copy(), action);
            let ghost prev = self.hotkeys@;
            self.hotkeys.push(hotkey);
            proof {
                lemma_push_keeps(prev, hotkey, h1);
                assert forall|q: int| 0 <= q < k + 1 implies migrated(
                    #[trigger] self.hotkeys@[n1 + q],
                    id_text(nanos, (counter + start.input_switch_bindings@.len() + q) as u64),
                    start.brightness_bindings@[q].hotkey,
                ) && step_action(
                    self.hotkeys@[n1 + q].actions@[0],
                    start.brightness_bindings@[q],
                    ActionTarget::Brightness,
                    start.brightness_step,
                ) by {
                    if q < k {
                        assert(self.hotkeys@[n1 + q] == prev[n1 + q]);
                    }
                }
            }
            next = next + 1;
            k = k + 1;
        }
        let ghost h2 = self.hotkeys@;
        let n2 = self.hotkeys.len();
        let step = self.contrast_step as i32;
        let mut k: usize = 0;
        while k < self.contrast_bindings.len()
            invariant
                k <= start.contrast_bindings@.len(),
                legacy_kept(*self, start),
                step == start.contrast_step as i32,
                next == counter + start.input_switch_bindings@.len() + start.brightness_bindings@.len() + k,
                self.hotkeys@.len() == n2 + k,
                kept_prefix(self.hotkeys@, h2),
                forall|q: int|
                    0 <= q < k ==> migrated(
                        #[trigger] self.hotkeys@[n2 + q],
                        id_text(
                            nanos,
                            (counter + start.input_switch_bindings@.len() + start.brightness_bindings@.len() + q) as u64,
                        ),
                        start.contrast_bindings@[q].hotkey,
                    ) && step_action(
                        self.hotkeys@[n2 + q].actions@[0],
                        start.contrast_bindings@[q],
                        ActionTarget::Contrast,
                        start.contrast_step,
                    ),
            decreases start.contrast_bindings@.len() - k,
        {
            let b = &self.contrast_bindings[k];
            let mut action = legacy_monitor_action(b.monitor_id);
            action.action_type = ActionType::Offset;
            action.target = ActionTarget::Contrast;
            action.value = match b.direction {
                LegacyStepDirection::Up => step,
                LegacyStepDirection::Down => -step,
            };
            let hotkey = single_action_hotkey(new_id(nanos, next), b.hotkey.copy(), action);
            let ghost prev = self.hotkeys@;
            self.hotkeys.push(hotkey);
            proof {
                lemma_push_keeps(prev, hotkey, h2);
                assert forall|q: int| 0 <= q < k + 1 implies migrated(
                    #[trigger] self.hotkeys@[n2 + q],
                    id_text(
                        nanos,
                        (counter + start.input_switch_bindings@.len() + start.brightness_bindings@.len() + q) as u64,
                    ),
                    start.contrast_bindings@[q].hotkey,
                ) && step_action(
                    self.hotkeys@[n2 + q].actions@[0],
                    start.contrast_bindings@[q],
                    ActionTarget::Contrast,
                    start.contrast_step,
                ) by {
                    if q < k {
                        assert(self.hotkeys@[n2 + q] == prev[n2 + q]);
                    }
                }
            }
            next = next + 1;
            k = k + 1;
        }
        let ghost h3 = self.hotkeys@;
        let n3 = self.hotkeys.len();
        let mut k: usize = 0;
        while k < self.power_mode_bindings.len()
            invariant
                k <= start.power_mode_bindings@.len(),
                legacy_kept(*self, start),
                next == counter + start.input_switch_bindings@.len() + start.brightness_bindings@.len()
                    + start.contrast_bindings@.len() + k,
                self.hotkeys@.len() == n3 + k,
                kept_prefix(self.hotkeys@, h3),
                forall|q: int|
                    0 <= q < k ==> migrated(
                        #[trigger] self.hotkeys@[n3 + q],
                        id_text(
                            nanos,
                            (counter + start.input_switch_bindings@.len() + start.brightness_bindings@.len()
                                + start.contrast_bindings@.len() + q) as u64,
                        ),
                        start.power_mode_bindings@[q].hotkey,
                    ) && power_action(self.hotkeys@[n3 + q].actions@[0], start.power_mode_bindings@[q]),
            decreases start.power_mode_bindings@.len() - k,
        {
            let b = &self.power_mode_bindings[k];
            let mut action = legacy_monitor_action(b.monitor_id);
            action.target = ActionTarget::PowerMode;
            action.power_mode = b.power_mode;
            let hotkey = single_action_hotkey(new_id(nanos, next), b.hotkey.copy(), action);
            let ghost prev = self.hotkeys@;
            self.hotkeys.push(hotkey);
            proof {
                lemma_push_keeps(prev, hotkey, h3);
                assert forall|q: int| 0 <= q < k + 1 implies migrated(
                    #[trigger] self.hotkeys@[n3 + q],
                    id_text(
                        nanos,
                        (counter + start.input_switch_bindings@.len() + start.brightness_bindings@.len()
                            + start.contrast_bindings@.len() + q) as u64,
                    ),
                    start.power_mode_bindings@[q].hotkey,
                ) && power_action(self.hotkeys@[n3 + q].actions@[0], start.power_mode_bindings@[q]) by {
                    if q < k {
                        assert(self.hotkeys@[n3 + q] == prev[n3 + q]);
                    }
                }
            }
            next = next + 1;
            k = k + 1;
        }
        let ghost h4 = self.hotkeys@;
        let n4 = self.hotkeys.len();
        let mut k: usize = 0;
        while k < self.profile_bindings.len()
            invariant
                k <= start.profile_bindings@.len(),
                legacy_kept(*self, start),
                next == counter + start.input_switch_bindings@.len() + start.brightness_bindings@.len()
                    + start.contrast_bindings@.len() + start.power_mode_bindings@.len() + k,
                self.hotkeys@.len() == n4 + k,
                kept_prefix(self.hotkeys@, h4),
                forall|q: int|
                    0 <= q < k ==> migrated(
                        #[trigger] self.hotkeys@[n4 + q],
                        id_text(
                            nanos,
                            (counter + start.input_switch_bindings@.len() + start.brightness_bindings@.len()
                                + start.contrast_bindings@.len() + start.power_mode_bindings@.len() + q) as u64,
                        ),
                        start.profile_bindings@[q].hotkey,
                    ) && profile_action(self.hotkeys@[n4 + q].actions@[0], start.profile_bindings@[q]),
            decreases start.profile_bindings@.len() - k,
        {
            let b = &self.profile_bindings[k];
            let mut action = HotkeyActionSpec::default();
            action.target = ActionTarget::Profile;
            action.all_monitors = true;
            action.profile_name = b.profile_name.clone();
            let hotkey = single_action_hotkey(new_id(nanos, next), b.hotkey.copy(), action);
            let ghost prev = self.hotkeys@;
            self.hotkeys.push(hotkey);
            proof {
                lemma_push_keeps(prev, hotkey, h4);
                assert forall|q: int| 0 <= q < k + 1 implies migrated(
                    #[trigger] self.hotkeys@[n4 + q],
                    id_text(
                        nanos,
                        (counter + start.input_switch_bindings@.len() + start.brightness_bindings@.len()
                            + start.contrast_bindings@.len() + start.power_mode_bindings@.len() + q) as u64,
                    ),
                    start.profile_bindings@[q].hotkey,
                ) && profile_action(self.hotkeys@[n4 + q].actions@[0], start.profile_bindings@[q]) by {
                    if q < k {
                        assert(self.hotkeys@[n4 + q] == prev[n4 + q]);
                    }
                }
            }
            next = next + 1;
            k = k + 1;
        }
        self.input_switch_bindings = Vec::new();
        self.brightness_bindings = Vec::new();
        self.contrast_bindings = Vec::new();
        self.power_mode_bindings = Vec::new();
        self.profile_bindings = Vec::new();
        proof {
            let fin = self.hotkeys@;
            assert forall|j: int| 0 <= j < h4.len() implies fin[j] == h4[j] by {}
            assert forall|j: int| 0 <= j < h3.len() implies h4[j] == h3[j] by {}
            assert forall|j: int| 0 <= j < h2.len() implies h3[j] == h2[j] by {}
            assert forall|j: int| 0 <= j < h1.len() implies h2[j] == h1[j] by {}
        }
        next
    }
}

// ---------------------------------------------------------------------------
// Top-level configuration
// ---------------------------------------------------------------------------

/// All application settings.
#[derive(Debug, Clone)]
pub struct AppConfig {
    /// Unversioned files are schema 0 and migrate on load, without writing.
    pub schema_version: u32,
    pub hotkeys: HotkeyConfig,
    /// Refresh interval in seconds for polling monitor state (0 = disabled).
    pub refresh_interval_secs: u64,
    /// Whether global hotkeys are enabled.
    pub hotkeys_enabled: bool,
    /// Behavior for `ActionType::Off` actions ("Turn Off Displays").
    pub turn_off_behavior: TurnOffBehavior,
    /// Register a per-user Run key so the app launches at sign-in.
    pub start_with_windows: bool,
    /// When starting with Windows, start in the tray. Kept when
    /// `start_with_windows` is off so turning startup back on restores it.
    pub start_minimized: bool,
}

/// The default settings, apart from whether hotkeys are enabled.
pub open spec fn defaults_apart_from_hotkeys_enabled(c: AppConfig) -> bool {
    &&& c.schema_version == SCHEMA_VERSION
    &&& c.hotkeys.hotkeys@.len() == 0
    &&& c.hotkeys.brightness_step == 10
    &&& c.hotkeys.contrast_step == 10
    &&& legacy_count(c.hotkeys) == 0
    &&& c.refresh_interval_secs == 0
    &&& c.turn_off_behavior == TurnOffBehavior::Disabled
    &&& !c.start_with_windows
    &&& !c.start_minimized
}

impl Default for AppConfig {
    fn default() -> (r: AppConfig)
        ensures
            defaults_apart_from_hotkeys_enabled(r),
            r.hotkeys_enabled,
    {
        AppConfig {
            schema_version: SCHEMA_VERSION,
            hotkeys: HotkeyConfig::default(),
            refresh_interval_secs: 0,
            hotkeys_enabled: true,
            turn_off_behavior: TurnOffBehavior::default(),
            start_with_windows: false,
            start_minimized: false,
        }
    }
}

impl AppConfig {
    /// Inert runtime state while the settings need recovery: the defaults with
    /// hotkeys disabled. Not a successful load, nor permission to save.
    pub fn recovery_placeholder() -> (r: AppConfig)
        ensures
            defaults_apart_from_hotkeys_enabled(r),
            !r.hotkeys_enabled,
    {
        let mut config = AppConfig::default();
        config.hotkeys_enabled = false;
        config
    }

    /// Finish decoding read settings: migrate legacy bindings (ids from the
    /// clock reading `nanos` and sequence numbers from `counter`) and mark the
    /// result as the current schema. Returns the next unused sequence number.
    pub fn finish_decode(&mut self, nanos: u128, counter: u64) -> (next: u64)
        requires
            counter + legacy_count(old(self).hotkeys) <= u64::MAX,
        ensures
            next == counter + legacy_count(old(self).hotkeys),
            legacy_migration(old(self).hotkeys, final(self).hotkeys, nanos, counter),
            final(self).schema_version == SCHEMA_VERSION,
            legacy_count(final(self).hotkeys) == 0,
            final(self).hotkeys.hotkeys@.len() == old(self).hotkeys.hotkeys@.len() + legacy_count(
                old(self).hotkeys,
            ),
            final(self).refresh_interval_secs == old(self).refresh_interval_secs,
            final(self).hotkeys_enabled == old(self).hotkeys_enabled,
            final(self).turn_off_behavior == old(self).turn_off_behavior,
            final(self).start_with_windows == old(self).start_with_windows,
            final(self).start_minimized == old(self).start_minimized,
    {
        let next = self.hotkeys.migrate_legacy(nanos, counter);
        self.schema_version = SCHEMA_VERSION;
        next
    }
}

/// The message that blocks writes while the settings need recovery.
pub open spec fn recovery_text(error: Seq<char>) -> Seq<char> {
    "Configuration recovery required: "@ + error
        + ". Retry, recover a backup, or explicitly reset first."@
}

/// The write block of the settings file. A failed load blocks writes, and
/// they stay blocked also when the bad file is removed later: only an explicit
/// retry, backup recovery or confirmed reset lifts the block again.
#[derive(Debug)]
pub struct ConfigStore {
    path: String,
    recovery_error: Option<String>,
}

/// `d` is store `s` after a retry whose load gave `outcome`.
pub open spec fn retried(s: ConfigStore, outcome: LoadOutcome<AppConfig>, d: ConfigStore) -> bool {
    &&& d.block() == block_after(outcome)
    &&& d.path_spec() == s.path_spec()
}

/// `d` is store `s` after noting a failed write whose reload gave `reload`.
pub open spec fn write_failure_noted(s: ConfigStore, reload: LoadOutcome<AppConfig>, d: ConfigStore) -> bool {
    &&& d.path_spec() == s.path_spec()
    &&& d.block() == match reload {
        LoadOutcome::Failed(e) => Some(e@),
        _ => s.block(),
    }
}

/// `d` and `r` are store `s` and the result of a write attempt (a save or a
/// hotkey toggle): while writes are blocked it is refused with the recovery
/// text and the block stays.
pub open spec fn write_attempted(s: ConfigStore, d: ConfigStore, r: Result<(), String>) -> bool {
    &&& d.path_spec() == s.path_spec()
    &&& s.block() is Some ==> (r matches Err(e) && e@ == recovery_text(s.block()->0) && d.block() == s.block())
}

/// The block a load outcome leaves.
pub open spec fn block_after<T>(outcome: LoadOutcome<T>) -> Option<Seq<char>> {
    match outcome {
        LoadOutcome::Failed(e) => Some(e@),
        _ => None,
    }
}

impl ConfigStore {
    /// The recorded recovery error, as text.
    pub closed spec fn block(&self) -> Option<Seq<char>> {
        match self.recovery_error {
            Some(e) => Some(e@),
            None => None,
        }
    }

    /// The settings file path.
    pub closed spec fn path_spec(&self) -> Seq<char> {
        self.path@
    }

    /// A store for `path` after its first load, which gave `outcome`.
    pub fn open(path: String, outcome: LoadOutcome<AppConfig>) -> (r: (ConfigStore, LoadOutcome<AppConfig>))
        ensures
            r.0.path_spec() == path@,
            r.0.block() == block_after(outcome),
            r.1 == outcome,
    {
        let mut store = ConfigStore { path, recovery_error: None };
        let outcome = store.retry(outcome);
        (store, outcome)
    }

    /// The settings file path.
    pub fn path(&self) -> (r: &str)
        ensures
            r@ == self.path_spec(),
    {
        self.path.as_str()
    }

    /// Why writes are blocked, if they are.
    pub fn recovery_error(&self) -> (r: Option<&str>)
        ensures
            match r {
                Some(e) => self.block() == Some(e@),
                None => self.block() is None,
            },
    {
        match &self.recovery_error {
            Some(e) => Some(e.as_str()),
            None => None,
        }
    }

    /// Record a fresh load: a failure blocks writes, anything else opens it.
    pub fn retry(&mut self, outcome: LoadOutcome<AppConfig>) -> (r: LoadOutcome<AppConfig>)
        ensures
            final(self).block() == block_after(outcome),
            final(self).path_spec() == old(self).path_spec(),
            r == outcome,
            retried(*old(self), outcome, *final(self)),
    {
        self.recovery_error = match &outcome {
            LoadOutcome::Failed(error) => Some(error.clone()),
            _ => None,
        };
        outcome
    }

    /// Refuse writes while writes are blocked.
    pub fn ensure_writable(&self) -> (r: Result<(), String>)
        ensures
            r is Ok <==> self.block() is None,
            r matches Err(e) ==> e@ == recovery_text(self.block()->0),
    {
        match &self.recovery_error {
            Some(error) => {
                let mut s = String::from_str("Configuration recovery required: ");
                s.append(error.as_str());
                s.append(". Retry, recover a backup, or explicitly reset first.");
                Err(s)
            },
            None => Ok(()),
        }
    }

    /// After a failed write, a reload that fails (corruption or an unreadable
    /// file that appeared since the load) blocks writes.
    pub fn note_failed_write(&mut self, reload: LoadOutcome<AppConfig>)
        ensures
            final(self).path_spec() == old(self).path_spec(),
            final(self).block() == match reload {
                LoadOutcome::Failed(e) => Some(e@),
                _ => old(self).block(),
            },
            write_failure_noted(*old(self), reload, *final(self)),
    {
        if let LoadOutcome::Failed(error) = reload {
            self.recovery_error = Some(error);
        }
    }

    /// A successful explicit recovery or reset write lifts the block.
    pub fn note_recovered(&mut self)
        ensures
            final(self).path_spec() == old(self).path_spec(),
            final(self).block() is None,
    {
        self.recovery_error = None;
    }

    /// Save through `write`, unless writes are blocked (then `write` is not
    /// called). A failed write is followed by `reload`; a failed reload blocks
    /// writes.
    pub fn save<W, L>(&mut self, config: &AppConfig, write: W, reload: L) -> (r: Result<(), String>)
        where
            W: FnOnce(&AppConfig) -> Result<(), String>,
            L: FnOnce() -> LoadOutcome<AppConfig>,
        requires
            call_requires(write, (config,)),
            call_requires(reload, ()),
        ensures
            final(self).path_spec() == old(self).path_spec(),
            old(self).block() is Some ==> (r matches Err(e) && e@ == recovery_text(old(self).block()->0)
                && final(self).block() == old(self).block()),
            old(self).block() is None ==> call_ensures(write, (config,), r),
            old(self).block() is None && r is Ok ==> final(self).block() is None,
            old(self).block() is None && r is Err ==> exists|reloaded: LoadOutcome<AppConfig>|
                #[trigger] call_ensures(reload, (), reloaded) && final(self).block() == block_after(
                    reloaded,
                ),
            write_attempted(*old(self), *final(self), r),
    {
        match self.ensure_writable() {
            Ok(()) => {},
            Err(e) => return Err(e),
        }
        let result = write(config);
        if result.is_err() {
            let outcome = reload();
            self.note_failed_write(outcome);
        }
        result
    }

    /// Turn hotkeys on or off and save; `config` only changes once the write
    /// succeeded, and nothing is written while writes are blocked.
    pub fn set_hotkeys_enabled<W, L>(
        &mut self,
        config: &mut AppConfig,
        enabled: bool,
        write: W,
        reload: L,
    ) -> (r: Result<(), String>)
        where
            W: FnOnce(&AppConfig) -> Result<(), String>,
            L: FnOnce() -> LoadOutcome<AppConfig>,
        requires
            forall|c: &AppConfig| call_requires(write, (c,)),
            call_requires(reload, ()),
        ensures
            final(self).path_spec() == old(self).path_spec(),
            old(self).block() is Some ==> r is Err && *final(config) == *old(config)
                && final(self).block() == old(self).block(),
            old(self).block() is None ==> call_ensures(
                write,
                (&(AppConfig { hotkeys_enabled: enabled, ..*old(config) }),),
                r,
            ),
            old(self).block() is None && r is Ok ==> final(self).block() is None,
            old(self).block() is None && r is Err ==> exists|reloaded: LoadOutcome<AppConfig>|
                #[trigger] call_ensures(reload, (), reloaded) && final(self).block() == block_after(
                    reloaded,
                ),
            r is Ok ==> *final(config) == (AppConfig { hotkeys_enabled: enabled, ..*old(config) }),
            r is Err ==> *final(config) == *old(config),
            write_attempted(*old(self), *final(self), r),
    {
        match self.ensure_writable() {
            Ok(()) => {},
            Err(e) => return Err(e),
        }
        let previous = config.hotkeys_enabled;
        config.hotkeys_enabled = enabled;
        let result = self.save(config, write, reload);
        if result.is_err() {
            config.hotkeys_enabled = previous;
        }
        result
    }

    /// Recovery from the backup file, whose load gave `backup`: only a loaded
    /// backup can be used; a missing one is refused with a message.
    pub fn backup_choice(backup: LoadOutcome<AppConfig>) -> (r: Result<AppConfig, String>)
        ensures
            match backup {
                LoadOutcome::Loaded(c) => r == Ok::<AppConfig, String>(c),
                LoadOutcome::Missing => (r matches Err(e) && e@ == "No configuration backup exists"@),
                LoadOutcome::Failed(e) => r == Err::<AppConfig, String>(e),
            },
    {
        match backup {
            LoadOutcome::Loaded(config) => Ok(config),
            LoadOutcome::Missing => Err(String::from_str("No configuration backup exists")),
            LoadOutcome::Failed(error) => Err(error),
        }
    }

    /// Recover from the backup: use it when it loaded, write it over the
    /// primary file through `replace`, and lift the block once that succeeded.
    pub fn recover_backup<R>(&mut self, backup: LoadOutcome<AppConfig>, replace: R) -> (r: Result<
        AppConfig,
        String,
    >)
        where
            R: FnOnce(&AppConfig) -> Result<(), String>,
        requires
            forall|c: &AppConfig| call_requires(replace, (c,)),
        ensures
            final(self).path_spec() == old(self).path_spec(),
            backup is Loaded && r is Ok ==> r == Ok::<AppConfig, String>(backup->Loaded_0),
            backup matches LoadOutcome::Loaded(c) ==> exists|written: Result<(), String>|
                #[trigger] call_ensures(replace, (&c,), written) && match written {
                    Ok(()) => r == Ok::<AppConfig, String>(c),
                    Err(e) => r == Err::<AppConfig, String>(e),
                },
            backup is Missing ==> (r matches Err(e) && e@ == "No configuration backup exists"@),
            backup matches LoadOutcome::Failed(e) ==> r == Err::<AppConfig, String>(e),
            !(backup is Loaded) ==> final(self).block() == old(self).block(),
            r is Ok ==> final(self).block() is None,
            r is Err ==> final(self).block() == old(self).block(),
    {
        let config = match ConfigStore::backup_choice(backup) {
            Ok(config) => config,
            Err(e) => return Err(e),
        };
        match replace(&config) {
            Ok(()) => {},
            Err(e) => return Err(e),
        }
        self.note_recovered();
        Ok(config)
    }

    /// After the user explicitly confirmed discarding the primary file: write
    /// the defaults through `replace` and lift the block once that succeeded.
    pub fn reset_confirmed<R>(&mut self, replace: R) -> (r: Result<AppConfig, String>)
        where
            R: FnOnce(&AppConfig) -> Result<(), String>,
        requires
            forall|c: &AppConfig| call_requires(replace, (c,)),
        ensures
            final(self).path_spec() == old(self).path_spec(),
            r matches Ok(c) ==> defaults_apart_from_hotkeys_enabled(c) && c.hotkeys_enabled
                && final(self).block() is None,
            exists|c: AppConfig, written: Result<(), String>|
                #[trigger] call_ensures(replace, (&c,), written) && defaults_apart_from_hotkeys_enabled(c)
                    && c.hotkeys_enabled && match written {
                    Ok(()) => r == Ok::<AppConfig, String>(c),
                    Err(e) => r == Err::<AppConfig, String>(e),
                },
            r is Err ==> final(self).block() == old(self).block(),
    {
        let config = AppConfig::default();
        match replace(&config) {
            Ok(()) => {},
            Err(e) => return Err(e),
        }
        self.note_recovered();
        Ok(config)
    }
}

} // verus!
