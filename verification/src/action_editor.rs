//! What the editor of one hotkey action offers: the action types, the target
//! list, the value control and the display rows, decided from the action, the
//! detected monitors and the saved profiles.
use vstd::prelude::*;
use crate::config::{
    ActionTarget, ActionType, HotkeyActionSpec, MonitorInput, MonitorTarget, offset_supported, resolvable,
    resolves_to, same_target,
};
use crate::ddc::{InputSource, MonitorInfo, MonitorKey, PowerMode, power_mode_index, standard_modes};
use crate::editor::{
    action_master_selected, action_monitor_selected, master_selected, parse_value_draft, parse_vcp_draft, selects,
    value_draft, vcp_draft,
};
use crate::text::str_eq;

verus! {

/// `r` is the first position of `x` in `s`, or `None` when `x` does not occur.
pub open spec fn first_position<A>(s: Seq<A>, x: A, r: Option<usize>) -> bool {
    match r {
        Some(i) => i < s.len() && s[i as int] == x && forall|j: int| 0 <= j < i ==> s[j] != x,
        None => !s.contains(x),
    }
}

/// The action types offered for a target: an offset only where it means
/// something.
pub open spec fn offered_types(target: ActionTarget) -> Seq<ActionType> {
    if offset_supported(target) {
        seq![ActionType::Assign, ActionType::Offset, ActionType::Off]
    } else {
        seq![ActionType::Assign, ActionType::Off]
    }
}

/// Every target, in the order the editor lists them.
pub open spec fn target_list() -> Seq<ActionTarget> {
    seq![
        ActionTarget::Brightness,
        ActionTarget::Contrast,
        ActionTarget::InputSource,
        ActionTarget::PowerMode,
        ActionTarget::Profile,
        ActionTarget::CustomVcp,
    ]
}

/// The inputs the editor offers, in order.
pub open spec fn editor_inputs() -> Seq<InputSource> {
    seq![
        InputSource::Hdmi1,
        InputSource::Hdmi2,
        InputSource::Dp1,
        InputSource::Dp2,
        InputSource::UsbC1,
        InputSource::UsbC2,
        InputSource::Vga1,
        InputSource::Vga2,
        InputSource::Dvi1,
        InputSource::Dvi2,
    ]
}

/// The offered inputs, with `current` added at the end when it is none of them.
pub open spec fn input_options(current: InputSource) -> Seq<InputSource> {
    if editor_inputs().contains(current) {
        editor_inputs()
    } else {
        editor_inputs().push(current)
    }
}

/// The saved profile names, with the action's profile added at the end when
/// it is set and not among them.
pub open spec fn profile_options(profiles: Seq<Seq<char>>, name: Seq<char>) -> Seq<Seq<char>> {
    if name.len() > 0 && !profiles.contains(name) {
        profiles.push(name)
    } else {
        profiles
    }
}

/// The action types offered for `target`.
pub fn action_types_for(target: ActionTarget) -> (r: Vec<ActionType>)
    ensures
        r@ == offered_types(target),
{
    let r = if target.supports_offset() {
        vec![ActionType::Assign, ActionType::Offset, ActionType::Off]
    } else {
        vec![ActionType::Assign, ActionType::Off]
    };
    assert(r@ =~= offered_types(target));
    r
}

/// Every target, in the order the editor lists them.
pub fn target_choices() -> (r: Vec<ActionTarget>)
    ensures
        r@ == target_list(),
{
    let r = vec![
        ActionTarget::Brightness,
        ActionTarget::Contrast,
        ActionTarget::InputSource,
        ActionTarget::PowerMode,
        ActionTarget::Profile,
        ActionTarget::CustomVcp,
    ];
    assert(r@ =~= target_list());
    r
}

fn type_position(s: &Vec<ActionType>, x: ActionType) -> (r: Option<usize>)
    ensures
        first_position(s@, x, r),
{
    let mut i: usize = 0;
    while i < s.len()
        invariant
            i <= s@.len(),
            forall|j: int| 0 <= j < i ==> s@[j] != x,
        decreases s.len() - i,
    {
        if s[i] == x {
            return Some(i);
        }
        i = i + 1;
    }
    None
}

fn target_position(s: &Vec<ActionTarget>, x: ActionTarget) -> (r: Option<usize>)
    ensures
        first_position(s@, x, r),
{
    let mut i: usize = 0;
    while i < s.len()
        invariant
            i <= s@.len(),
            forall|j: int| 0 <= j < i ==> s@[j] != x,
        decreases s.len() - i,
    {
        if s[i] == x {
            return Some(i);
        }
        i = i + 1;
    }
    None
}

fn input_position(s: &Vec<InputSource>, x: InputSource) -> (r: Option<usize>)
    ensures
        first_position(s@, x, r),
{
    let mut i: usize = 0;
    while i < s.len()
        invariant
            i <= s@.len(),
            forall|j: int| 0 <= j < i ==> s@[j] != x,
        decreases s.len() - i,
    {
        if s[i] == x {
            return Some(i);
        }
        i = i + 1;
    }
    None
}

fn profile_position(s: &Vec<String>, x: &String) -> (r: Option<usize>)
    ensures
        first_position(s@.map_values(|p: String| p@), x@, r),
{
    let ghost names = s@.map_values(|p: String| p@);
    let mut i: usize = 0;
    while i < s.len()
        invariant
            names == s@.map_values(|p: String| p@),
            i <= s@.len(),
            forall|j: int| 0 <= j < i ==> names[j] != x@,
        decreases s.len() - i,
    {
        if str_eq(s[i].as_str(), x.as_str()) {
            return Some(i);
        }
        i = i + 1;
    }
    None
}

/// The inputs offered when `current` is the action's input.
pub fn input_options_for(current: InputSource) -> (r: Vec<InputSource>)
    ensures
        r@ == input_options(current),
{
    let mut r = vec![
        InputSource::Hdmi1,
        InputSource::Hdmi2,
        InputSource::Dp1,
        InputSource::Dp2,
        InputSource::UsbC1,
        InputSource::UsbC2,
        InputSource::Vga1,
        InputSource::Vga2,
        InputSource::Dvi1,
        InputSource::Dvi2,
    ];
    assert(r@ =~= editor_inputs());
    if input_position(&r, current).is_none() {
        r.push(current);
    }
    r
}

/// The profile names offered for an action whose profile is `name`.
pub fn profile_options_for(profiles: &Vec<String>, name: &String) -> (r: Vec<String>)
    ensures
        r@.map_values(|p: String| p@) == profile_options(profiles@.map_values(|p: String| p@), name@),
{
    let mut r = profiles.clone();
    assert(r@ == profiles@);
    if name.as_str().unicode_len() > 0 && profile_position(&r, name).is_none() {
        let ghost before = r@;
        r.push(name.clone());
        assert(r@.map_values(|p: String| p@) =~= before.map_values(|p: String| p@).push(name@));
    }
    r
}

/// What the value row of the editor shows.
pub enum ValueControl {
    /// A number field; the error of its draft, if the draft is not a value.
    Number(Option<&'static str>),
    /// A choice among `choices`, `selected` being the action's input.
    Inputs(Vec<InputSource>, Option<usize>),
    /// A choice among the standard power modes.
    PowerModes(Option<usize>),
    /// A choice among the profile names.
    Profiles(Vec<String>, Option<usize>),
    /// No profile has been saved yet.
    NoProfiles,
}

/// The draft error `e` is that of the draft text `d` for a value.
pub open spec fn value_error_of(d: Seq<char>, e: Option<&'static str>) -> bool {
    match value_draft(d) {
        Err(m) => e matches Some(x) && x@ == m,
        Ok(_) => e is None,
    }
}

/// The draft error `e` is that of the draft text `d` for a VCP code.
pub open spec fn code_error_of(d: Seq<char>, e: Option<&'static str>) -> bool {
    match vcp_draft(d) {
        Err(m) => e matches Some(x) && x@ == m,
        Ok(_) => e is None,
    }
}

/// `c` is the value control for `action`, with the saved `profiles` and the
/// value draft `draft`; `None` where the row is absent.
pub open spec fn value_control_ok(
    action: HotkeyActionSpec,
    profiles: Seq<Seq<char>>,
    draft: Seq<char>,
    c: Option<ValueControl>,
) -> bool {
    match action.target {
        ActionTarget::Brightness | ActionTarget::Contrast | ActionTarget::CustomVcp => c matches Some(
            ValueControl::Number(e),
        ) && value_error_of(draft, e),
        ActionTarget::InputSource => if action.all_monitors {
            c matches Some(ValueControl::Inputs(choices, selected)) && choices@ == input_options(
                action.input_source,
            ) && first_position(choices@, action.input_source, selected)
        } else {
            c is None
        },
        ActionTarget::PowerMode => c matches Some(ValueControl::PowerModes(selected)) && first_position(
            standard_modes(),
            action.power_mode,
            selected,
        ),
        ActionTarget::Profile => {
            let names = profile_options(profiles, action.profile_name@);
            if names.len() == 0 {
                c matches Some(ValueControl::NoProfiles)
            } else {
                c matches Some(ValueControl::Profiles(list, selected)) && list@.map_values(|p: String| p@)
                    == names && first_position(names, action.profile_name@, selected)
            }
        },
    }
}

/// The value control of the editor of `action`.
pub fn value_control(action: &HotkeyActionSpec, profiles: &Vec<String>, draft: &str) -> (r: Option<ValueControl>)
    ensures
        value_control_ok(*action, profiles@.map_values(|p: String| p@), draft@, r),
{
    match action.target {
        ActionTarget::Brightness | ActionTarget::Contrast | ActionTarget::CustomVcp => {
            let e = match parse_value_draft(draft) {
                Ok(_) => None,
                Err(m) => Some(m),
            };
            Some(ValueControl::Number(e))
        },
        ActionTarget::InputSource => {
            if action.all_monitors {
                let choices = input_options_for(action.input_source);
                let selected = input_position(&choices, action.input_source);
                Some(ValueControl::Inputs(choices, selected))
            } else {
                None
            }
        },
        ActionTarget::PowerMode => {
            let selected = power_mode_index(action.power_mode);
            proof {
                match selected {
                    Some(i) => {
                        assert(standard_modes()[i as int] == action.power_mode);
                        assert forall|j: int| 0 <= j < i implies standard_modes()[j] != action.power_mode by {
                            if standard_modes()[j] == action.power_mode {
                                assert(standard_modes()[j] == standard_modes()[i as int]);
                            }
                        }
                    },
                    None => {},
                }
            }
            Some(ValueControl::PowerModes(selected))
        },
        ActionTarget::Profile => {
            let list = profile_options_for(profiles, &action.profile_name);
            if list.len() == 0 {
                Some(ValueControl::NoProfiles)
            } else {
                let selected = profile_position(&list, &action.profile_name);
                Some(ValueControl::Profiles(list, selected))
            }
        },
    }
}

/// `t` is among `ids`.
pub open spec fn listed(ids: Seq<MonitorTarget>, t: MonitorTarget) -> bool {
    exists|j: int| 0 <= j < ids.len() && #[trigger] same_target(ids[j], t)
}

/// `ids` followed by each target of `extra` that is not listed yet.
pub open spec fn add_missing(ids: Seq<MonitorTarget>, extra: Seq<MonitorTarget>) -> Seq<MonitorTarget>
    decreases extra.len(),
{
    if extra.len() == 0 {
        ids
    } else {
        let before = add_missing(ids, extra.drop_last());
        if listed(before, extra.last()) {
            before
        } else {
            before.push(extra.last())
        }
    }
}

/// The targets of the detected monitors, by key.
pub open spec fn detected_targets(detected: Seq<MonitorInfo>) -> Seq<MonitorTarget> {
    detected.map_values(|m: MonitorInfo| MonitorTarget::Stable(m.key))
}

/// The targets an action names: its monitors, then those of its per-monitor inputs.
pub open spec fn named_targets(action: HotkeyActionSpec) -> Seq<MonitorTarget> {
    action.monitors@ + action.monitor_inputs@.map_values(|i: MonitorInput| i.monitor_id)
}

/// The rows of the display section: every detected monitor, then each target
/// the action names that is not one of them (these may not resolve).
pub open spec fn display_targets(action: HotkeyActionSpec, detected: Seq<MonitorInfo>) -> Seq<MonitorTarget> {
    add_missing(detected_targets(detected), named_targets(action))
}

/// The input of the first per-monitor input for `t` in `inputs`, else `default`.
pub open spec fn input_for(inputs: Seq<MonitorInput>, t: MonitorTarget, default: InputSource) -> InputSource
    decreases inputs.len(),
{
    if inputs.len() == 0 {
        default
    } else if same_target(inputs[0].monitor_id, t) {
        inputs[0].input_source
    } else {
        input_for(inputs.drop_first(), t, default)
    }
}

/// One row of the display section.
pub struct DisplayRow {
    pub target: MonitorTarget,
    /// The detected monitor the target resolves to, if any.
    pub monitor: Option<MonitorInfo>,
    pub selected: bool,
    /// The keys an unresolved target can be rebound to.
    pub rebind: Vec<MonitorKey>,
    /// The input choice of this monitor, where the action picks inputs
    /// monitor by monitor.
    pub input: Option<(Vec<InputSource>, Option<usize>)>,
}

/// `row` is the row for target `t` of `action`.
pub open spec fn row_ok(action: HotkeyActionSpec, detected: Seq<MonitorInfo>, t: MonitorTarget, row: DisplayRow) -> bool {
    &&& row.target == t
    &&& row.monitor is Some <==> resolvable(t, detected)
    &&& row.monitor matches Some(m) ==> exists|i: int| #[trigger] resolves_to(t, detected, i) && m == detected[i]
    &&& row.selected == selects(action, t)
    &&& resolvable(t, detected) ==> row.rebind@.len() == 0
    &&& !resolvable(t, detected) ==> row.rebind@ == detected.map_values(|m: MonitorInfo| m.key)
    &&& row.input is Some <==> (action.action_type != ActionType::Off && action.target == ActionTarget::InputSource
        && !action.all_monitors && selects(action, t))
    &&& row.input matches Some((choices, selected)) ==> {
        let current = input_for(action.monitor_inputs@, t, action.input_source);
        choices@ == input_options(current) && first_position(choices@, current, selected)
    }
}

fn detected_keys(detected: &Vec<MonitorInfo>) -> (r: Vec<MonitorKey>)
    ensures
        r@ == detected@.map_values(|m: MonitorInfo| m.key),
{
    let mut r: Vec<MonitorKey> = Vec::new();
    let mut i: usize = 0;
    while i < detected.len()
        invariant
            i <= detected@.len(),
            r@ == detected@.take(i as int).map_values(|m: MonitorInfo| m.key),
        decreases detected.len() - i,
    {
        r.push(detected[i].key.copy());
        assert(detected@.take(i as int + 1) =~= detected@.take(i as int).push(detected@[i as int]));
        i = i + 1;
    }
    assert(detected@.take(detected@.len() as int) =~= detected@);
    r
}

fn is_listed(ids: &Vec<MonitorTarget>, t: &MonitorTarget) -> (r: bool)
    ensures
        r == listed(ids@, *t),
{
    let mut j: usize = 0;
    while j < ids.len()
        invariant
            j <= ids@.len(),
            forall|k: int| 0 <= k < j ==> !#[trigger] same_target(ids@[k], *t),
        decreases ids.len() - j,
    {
        if ids[j].same(t) {
            assert(same_target(ids@[j as int], *t));
            return true;
        }
        j = j + 1;
    }
    false
}

/// The targets of the display rows of `action` (see [`display_targets`]).
pub fn display_target_list(action: &HotkeyActionSpec, detected: &Vec<MonitorInfo>) -> (r: Vec<MonitorTarget>)
    ensures
        r@ == display_targets(*action, detected@),
{
    let mut ids: Vec<MonitorTarget> = Vec::new();
    let mut i: usize = 0;
    while i < detected.len()
        invariant
            i <= detected@.len(),
            ids@ == detected_targets(detected@.take(i as int)),
        decreases detected.len() - i,
    {
        ids.push(MonitorTarget::Stable(detected[i].key.copy()));
        assert(detected@.take(i as int + 1) =~= detected@.take(i as int).push(detected@[i as int]));
        assert(detected_targets(detected@.take(i as int + 1)) =~= detected_targets(detected@.take(i as int)).push(
            MonitorTarget::Stable(detected@[i as int].key),
        ));
        i = i + 1;
    }
    assert(detected@.take(detected@.len() as int) =~= detected@);
    let ghost base = ids@;
    let mut extra: Vec<MonitorTarget> = Vec::new();
    let mut j: usize = 0;
    while j < action.monitors.len()
        invariant
            j <= action.monitors@.len(),
            extra@ == action.monitors@.take(j as int),
        decreases action.monitors.len() - j,
    {
        extra.push(action.monitors[j].copy());
        assert(action.monitors@.take(j as int + 1) =~= action.monitors@.take(j as int).push(action.monitors@[j as int]));
        j = j + 1;
    }
    assert(action.monitors@.take(action.monitors@.len() as int) =~= action.monitors@);
    let ghost inputs = action.monitor_inputs@.map_values(|x: MonitorInput| x.monitor_id);
    let mut k: usize = 0;
    while k < action.monitor_inputs.len()
        invariant
            k <= action.monitor_inputs@.len(),
            inputs == action.monitor_inputs@.map_values(|x: MonitorInput| x.monitor_id),
            extra@ == action.monitors@ + inputs.take(k as int),
        decreases action.monitor_inputs.len() - k,
    {
        extra.push(action.monitor_inputs[k].monitor_id.copy());
        assert(inputs.take(k as int + 1) =~= inputs.take(k as int).push(inputs[k as int]));
        assert(action.monitors@ + inputs.take(k as int + 1) =~= (action.monitors@ + inputs.take(k as int)).push(
            inputs[k as int],
        ));
        k = k + 1;
    }
    assert(inputs.take(inputs.len() as int) =~= inputs);
    assert(extra@ == named_targets(*action));
    let mut e: usize = 0;
    while e < extra.len()
        invariant
            e <= extra@.len(),
            ids@ == add_missing(base, extra@.take(e as int)),
        decreases extra.len() - e,
    {
        assert(extra@.take(e as int + 1).drop_last() =~= extra@.take(e as int));
        assert(extra@.take(e as int + 1).last() == extra@[e as int]);
        if !is_listed(&ids, &extra[e]) {
            ids.push(extra[e].copy());
        }
        e = e + 1;
    }
    assert(extra@.take(extra@.len() as int) =~= extra@);
    ids
}

fn current_input(action: &HotkeyActionSpec, t: &MonitorTarget) -> (r: InputSource)
    ensures
        r == input_for(action.monitor_inputs@, *t, action.input_source),
{
    let ghost all = action.monitor_inputs@;
    assert(all.skip(0) =~= all);
    let mut i: usize = 0;
    while i < action.monitor_inputs.len()
        invariant
            all == action.monitor_inputs@,
            i <= all.len(),
            input_for(all, *t, action.input_source) == input_for(all.skip(i as int), *t, action.input_source),
        decreases action.monitor_inputs.len() - i,
    {
        assert(all.skip(i as int)[0] == all[i as int]);
        if action.monitor_inputs[i].monitor_id.same(t) {
            return action.monitor_inputs[i].input_source;
        }
        assert(all.skip(i as int).drop_first() =~= all.skip(i as int + 1));
        i = i + 1;
    }
    assert(all.skip(i as int).len() == 0);
    action.input_source
}

/// The row of the display section for target `t`.
pub fn display_row(action: &HotkeyActionSpec, detected: &Vec<MonitorInfo>, t: &MonitorTarget) -> (r: DisplayRow)
    ensures
        row_ok(*action, detected@, *t, r),
{
    let monitor = match t.resolve(detected.as_slice()) {
        Ok(m) => Some(m.copy()),
        Err(_) => None,
    };
    let selected = action_monitor_selected(action, t);
    let rebind = if monitor.is_some() {
        Vec::new()
    } else {
        detected_keys(detected)
    };
    let input = if action.action_type != ActionType::Off && action.target == ActionTarget::InputSource
        && !action.all_monitors && selected {
        let current = current_input(action, t);
        let choices = input_options_for(current);
        let position = input_position(&choices, current);
        Some((choices, position))
    } else {
        None
    };
    DisplayRow { target: t.copy(), monitor, selected, rebind, input }
}

/// What the editor of one action shows.
pub struct ActionEditorView {
    /// The action types offered, and the position of the action's own.
    pub types: Vec<ActionType>,
    pub selected_type: Option<usize>,
    /// The target list and the position of the action's target; absent for
    /// a turn-off action.
    pub targets: Option<(Vec<ActionTarget>, Option<usize>)>,
    /// The draft error of the VCP code row, where that row is shown.
    pub vcp_code: Option<Option<&'static str>>,
    /// The value row, where one is shown.
    pub value: Option<ValueControl>,
    /// The action applies a whole saved layout, so no display is chosen.
    pub whole_layout: bool,
    /// The state of the "all displays" switch.
    pub all_selected: bool,
    pub rows: Vec<DisplayRow>,
}

/// The editor of `action`, given the detected monitors, the saved profile
/// names and the drafts of its value and VCP code fields.
pub fn action_editor_view(
    action: &HotkeyActionSpec,
    detected: &Vec<MonitorInfo>,
    profiles: &Vec<String>,
    value_text: &str,
    code_text: &str,
) -> (r: ActionEditorView)
    ensures
        r.types@ == offered_types(action.target),
        first_position(r.types@, action.action_type, r.selected_type),
        action.action_type == ActionType::Off ==> r.targets is None && r.vcp_code is None && r.value is None,
        action.action_type != ActionType::Off ==> (r.targets matches Some((list, selected)) && list@ == target_list()
            && first_position(list@, action.target, selected)),
        action.action_type != ActionType::Off ==> value_control_ok(
            *action,
            profiles@.map_values(|p: String| p@),
            value_text@,
            r.value,
        ),
        action.action_type != ActionType::Off ==> (r.vcp_code is Some <==> action.target == ActionTarget::CustomVcp),
        r.vcp_code matches Some(e) ==> code_error_of(code_text@, e),
        r.whole_layout == (action.target == ActionTarget::Profile && action.action_type != ActionType::Off),
        r.whole_layout ==> !r.all_selected && r.rows@.len() == 0,
        !r.whole_layout ==> r.all_selected == master_selected(*action, display_targets(*action, detected@)),
        !r.whole_layout ==> r.rows@.len() == display_targets(*action, detected@).len() && forall|i: int|
            0 <= i < r.rows@.len() ==> row_ok(*action, detected@, display_targets(*action, detected@)[i], #[trigger] r.rows@[i]),
{
    let types = action_types_for(action.target);
    let selected_type = type_position(&types, action.action_type);
    let off = action.action_type == ActionType::Off;
    let targets = if off {
        None
    } else {
        let list = target_choices();
        let selected = target_position(&list, action.target);
        Some((list, selected))
    };
    let vcp_code = if !off && action.target == ActionTarget::CustomVcp {
        match parse_vcp_draft(code_text) {
            Ok(_) => Some(None),
            Err(m) => Some(Some(m)),
        }
    } else {
        None
    };
    let value = if off {
        None
    } else {
        value_control(action, profiles, value_text)
    };
    let whole_layout = action.target == ActionTarget::Profile && !off;
    let mut rows: Vec<DisplayRow> = Vec::new();
    let mut all_selected = false;
    if !whole_layout {
        let ids = display_target_list(action, detected);
        all_selected = action_master_selected(action, ids.as_slice());
        let mut i: usize = 0;
        while i < ids.len()
            invariant
                ids@ == display_targets(*action, detected@),
                i <= ids@.len(),
                rows@.len() == i,
                forall|j: int| 0 <= j < i ==> row_ok(*action, detected@, ids@[j], #[trigger] rows@[j]),
            decreases ids.len() - i,
        {
            let row = display_row(action, detected, &ids[i]);
            rows.push(row);
            i = i + 1;
        }
    }
    ActionEditorView { types, selected_type, targets, vcp_code, value, whole_layout, all_selected, rows }
}

} // verus!
