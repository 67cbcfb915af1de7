//! Pure, fail-closed reconstruction of a saved layout on a live CCD snapshot.
use vstd::prelude::*;
use vstd::set_lib::{lemma_int_range, lemma_len_subset, set_int_range};
use crate::ccd::{CcdError, DisplayConfig, Luid, ModeInfo, MonitorInfo, PathInfo};
use crate::text::{lower_seq, trim_seq, to_lower, trim, contains_char, str_eq, push_decimal,
    push_signed, decimal};

verus! {

/// The mode index meaning "no mode".
pub const NO_MODE: u32 = 0xFFFF_FFFF;

/// `DISPLAYCONFIG_MODE_INFO_TYPE_SOURCE`.
pub const MODE_TYPE_SOURCE: i32 = 1;

/// `DISPLAYCONFIG_MODE_INFO_TYPE_TARGET`.
pub const MODE_TYPE_TARGET: i32 = 2;

/// `DISPLAYCONFIG_PATH_ACTIVE`.
pub const PATH_ACTIVE: u32 = 1;

/// Size in bytes of the `DISPLAYCONFIG_MODE_INFO` union.
pub const MODE_PAYLOAD_LEN: usize = 48;

/// An adapter-qualified source or target.
#[derive(Debug, Clone, Copy, PartialEq, Eq, Hash, Structural)]
pub struct Endpoint {
    pub adapter: Luid,
    pub id: u32,
}

/// The source endpoint of a path.
pub open spec fn source_of(path: PathInfo) -> Endpoint {
    Endpoint { adapter: path.source.adapter_id, id: path.source.id }
}

/// The target endpoint of a path.
pub open spec fn target_of(path: PathInfo) -> Endpoint {
    Endpoint { adapter: path.target.adapter_id, id: path.target.id }
}

/// The source endpoint of a path.
pub fn source(path: &PathInfo) -> (r: Endpoint)
    ensures
        r == source_of(*path),
{
    Endpoint { adapter: path.source.adapter_id, id: path.source.id }
}

/// The target endpoint of a path.
pub fn target(path: &PathInfo) -> (r: Endpoint)
    ensures
        r == target_of(*path),
{
    Endpoint { adapter: path.target.adapter_id, id: path.target.id }
}

/// A structurally invalid profile with the given reason.
pub fn invalid(reason: String) -> (r: CcdError)
    ensures
        r == CcdError::InvalidConfig(reason),
{
    CcdError::InvalidConfig(reason)
}

/// A mode record Windows can accept: exact payload size, source or target type.
pub open spec fn mode_ok(mode: ModeInfo) -> bool {
    mode.payload@.len() == MODE_PAYLOAD_LEN && (mode.info_type == MODE_TYPE_SOURCE
        || mode.info_type == MODE_TYPE_TARGET)
}

/// Reject modes with a wrong payload size or a virtual/desktop-image type.
pub fn validate_mode(mode: &ModeInfo) -> (r: Result<(), CcdError>)
    ensures
        r is Ok <==> mode_ok(*mode),
        r is Err ==> r->Err_0 is InvalidConfig,
{
    if mode.payload.len() != MODE_PAYLOAD_LEN {
        let mut s = String::from_str("mode ");
        push_decimal(&mut s, mode.id as u64);
        s.append(" has an incorrect payload length");
        return Err(invalid(s));
    }
    if !(mode.info_type == MODE_TYPE_SOURCE || mode.info_type == MODE_TYPE_TARGET) {
        let mut s = String::from_str("unsupported mode type ");
        push_signed(&mut s, mode.info_type as i64);
        s.append(" (virtual/desktop-image modes are not supported)");
        return Err(invalid(s));
    }
    Ok(())
}

/// Whether two modes describe the same adapter-qualified endpoint and type.
pub open spec fn same_mode_key(a: ModeInfo, b: ModeInfo) -> bool {
    a.info_type == b.info_type && a.adapter_id == b.adapter_id && a.id == b.id
}

/// Whether `index` refers to a mode of `kind` for `endpoint`.
pub open spec fn mode_ref_ok(modes: Seq<ModeInfo>, index: u32, endpoint: Endpoint, kind: i32) -> bool {
    &&& index < modes.len()
    &&& modes[index as int].info_type == kind
    &&& modes[index as int].adapter_id == endpoint.adapter
    &&& modes[index as int].id == endpoint.id
}

/// Whether one path is well formed against the mode list.
pub open spec fn path_ok(path: PathInfo, modes: Seq<ModeInfo>) -> bool {
    &&& path.flags == PATH_ACTIVE
    &&& mode_ref_ok(modes, path.source.mode_info_idx, source_of(path), MODE_TYPE_SOURCE)
    &&& (path.target.mode_info_idx == NO_MODE || mode_ref_ok(
        modes,
        path.target.mode_info_idx,
        target_of(path),
        MODE_TYPE_TARGET,
    ))
}

/// The legacy, non-virtual index representation that can be interpreted and
/// handed to Windows: at least one path; valid modes with unique endpoints;
/// active paths with distinct targets whose mode indices reference modes of
/// their own endpoint and type; cloned paths sharing one source mode.
pub open spec fn layout_valid(paths: Seq<PathInfo>, modes: Seq<ModeInfo>) -> bool {
    &&& paths.len() > 0
    &&& paths.len() <= u32::MAX
    &&& modes.len() <= u32::MAX
    &&& forall|k: int| 0 <= k < modes.len() ==> mode_ok(#[trigger] modes[k])
    &&& forall|a: int, b: int|
        0 <= a < b < modes.len() ==> !same_mode_key(#[trigger] modes[a], #[trigger] modes[b])
    &&& forall|i: int| 0 <= i < paths.len() ==> path_ok(#[trigger] paths[i], modes)
    &&& forall|i: int, j: int|
        0 <= i < j < paths.len() ==> target_of(#[trigger] paths[i]) != target_of(
            #[trigger] paths[j],
        )
    &&& forall|i: int, j: int|
        0 <= i < j < paths.len() && source_of(#[trigger] paths[i]) == source_of(
            #[trigger] paths[j],
        ) ==> paths[i].source.mode_info_idx == paths[j].source.mode_info_idx
}

fn path_message(i: usize, tail: &str) -> (r: String)
    requires
        i < usize::MAX,
    ensures
        r@ == "path "@ + decimal((i + 1) as nat) + tail@,
{
    assert(usize::MAX <= u64::MAX);
    let mut s = String::from_str("path ");
    push_decimal(&mut s, i as u64 + 1);
    s.append(tail);
    s
}

/// Check one mode reference of path `i`; `kind` is the expected mode type.
fn check_mode_ref(
    modes: &Vec<ModeInfo>,
    index: u32,
    endpoint: Endpoint,
    kind: i32,
    i: usize,
) -> (r: Result<(), CcdError>)
    requires
        i < usize::MAX,
    ensures
        r is Ok <==> mode_ref_ok(modes@, index, endpoint, kind),
        r is Err ==> r->Err_0 is InvalidConfig,
{
    if index as usize >= modes.len() {
        let tail = if kind == MODE_TYPE_SOURCE {
            " has a missing or out-of-range source mode index"
        } else {
            " has a missing or out-of-range target mode index"
        };
        return Err(invalid(path_message(i, tail)));
    }
    let mode = &modes[index as usize];
    if mode.info_type != kind || mode.adapter_id != endpoint.adapter || mode.id != endpoint.id {
        return Err(
            invalid(
                path_message(
                    i,
                    " mode index does not reference its adapter-qualified endpoint and type",
                ),
            ),
        );
    }
    Ok(())
}

/// Validate the index representation before interpreting it or building any
/// Win32 arrays. Windows validates the actual mode timings.
pub fn validate_layout(paths: &Vec<PathInfo>, modes: &Vec<ModeInfo>) -> (r: Result<(), CcdError>)
    ensures
        r is Ok <==> layout_valid(paths@, modes@),
        paths@.len() == 0 ==> r == Err::<(), CcdError>(CcdError::Empty),
        paths@.len() > 0 && r is Err ==> r->Err_0 is InvalidConfig,
{
    if paths.len() == 0 {
        return Err(CcdError::Empty);
    }
    if paths.len() > 0xFFFF_FFFF || modes.len() > 0xFFFF_FFFF {
        return Err(invalid(String::from_str("too many paths or modes")));
    }
    let mut k: usize = 0;
    while k < modes.len()
        invariant
            k <= modes@.len(),
            paths@.len() > 0,
            forall|q: int| 0 <= q < k ==> mode_ok(#[trigger] modes@[q]),
            forall|a: int, b: int|
                0 <= a < b < k ==> !same_mode_key(#[trigger] modes@[a], #[trigger] modes@[b]),
        decreases modes.len() - k,
    {
        match validate_mode(&modes[k]) {
            Ok(()) => {},
            Err(e) => return Err(e),
        }
        let mut a: usize = 0;
        while a < k
            invariant
                a <= k < modes@.len(),
                paths@.len() > 0,
                forall|q: int| 0 <= q < a ==> !same_mode_key(modes@[q], modes@[k as int]),
            decreases k - a,
        {
            if modes[a].info_type == modes[k].info_type && modes[a].adapter_id == modes[k].adapter_id
                && modes[a].id == modes[k].id {
                return Err(invalid(String::from_str("duplicate adapter-qualified mode endpoint")));
            }
            a = a + 1;
        }
        k = k + 1;
    }
    let mut i: usize = 0;
    while i < paths.len()
        invariant
            i <= paths@.len(),
            0 < paths@.len() <= u32::MAX,
            modes@.len() <= u32::MAX,
            forall|q: int| 0 <= q < modes@.len() ==> mode_ok(#[trigger] modes@[q]),
            forall|a: int, b: int|
                0 <= a < b < modes@.len() ==> !same_mode_key(
                    #[trigger] modes@[a],
                    #[trigger] modes@[b],
                ),
            forall|q: int| 0 <= q < i ==> path_ok(#[trigger] paths@[q], modes@),
            forall|a: int, b: int|
                0 <= a < b < i ==> target_of(#[trigger] paths@[a]) != target_of(
                    #[trigger] paths@[b],
                ),
            forall|a: int, b: int|
                0 <= a < b < i && source_of(#[trigger] paths@[a]) == source_of(
                    #[trigger] paths@[b],
                ) ==> paths@[a].source.mode_info_idx == paths@[b].source.mode_info_idx,
        decreases paths.len() - i,
    {
        let path = paths[i];
        if path.flags != PATH_ACTIVE {
            return Err(invalid(path_message(i, " is inactive or uses unsupported path flags")));
        }
        let mut a: usize = 0;
        while a < i
            invariant
                a <= i < paths@.len(),
                paths@.len() <= u32::MAX,
                path == paths@[i as int],
                forall|q: int| 0 <= q < a ==> target_of(paths@[q]) != target_of(path),
            decreases i - a,
        {
            if target(&paths[a]) == target(&path) {
                return Err(invalid(path_message(i, " repeats a target endpoint")));
            }
            a = a + 1;
        }
        match check_mode_ref(modes, path.source.mode_info_idx, source(&path), MODE_TYPE_SOURCE, i) {
            Ok(()) => {},
            Err(e) => return Err(e),
        }
        if path.target.mode_info_idx != NO_MODE {
            match check_mode_ref(
                modes,
                path.target.mode_info_idx,
                target(&path),
                MODE_TYPE_TARGET,
                i,
            ) {
                Ok(()) => {},
                Err(e) => return Err(e),
            }
        }
        let mut b: usize = 0;
        while b < i
            invariant
                b <= i < paths@.len(),
                path == paths@[i as int],
                forall|q: int|
                    0 <= q < b && source_of(paths@[q]) == source_of(path)
                        ==> paths@[q].source.mode_info_idx == path.source.mode_info_idx,
            decreases i - b,
        {
            if source(&paths[b]) == source(&path) && paths[b].source.mode_info_idx
                != path.source.mode_info_idx {
                return Err(
                    invalid(
                        String::from_str("cloned paths must reference the same source mode index"),
                    ),
                );
            }
            b = b + 1;
        }
        i = i + 1;
    }
    Ok(())
}

/// The identity of a monitor record: its full device path, compared without
/// ASCII case differences. Instance suffixes are never stripped and model
/// names are never used.
pub open spec fn identity_of(monitor: MonitorInfo) -> Option<Seq<char>> {
    if monitor.valid && trim_seq(monitor.device_path@).len() > 0 && !monitor.device_path@.contains(
        '\0',
    ) {
        Some(lower_seq(monitor.device_path@))
    } else {
        None
    }
}

/// The identity of a monitor record, if it has a usable device path.
pub fn identity(monitor: &MonitorInfo) -> (r: Option<String>)
    ensures
        match r {
            Some(s) => identity_of(*monitor) == Some(s@),
            None => identity_of(*monitor) is None,
        },
{
    if !monitor.valid {
        return None;
    }
    let trimmed = trim(monitor.device_path.as_str());
    if trimmed.unicode_len() == 0 {
        return None;
    }
    if contains_char(monitor.device_path.as_str(), '\0') {
        return None;
    }
    Some(to_lower(monitor.device_path.as_str()))
}

/// Whether two optional identities are equal.
fn same_identity(a: &Option<String>, b: &Option<String>) -> (r: bool)
    ensures
        r == (match (a, b) {
            (Some(x), Some(y)) => x@ == y@,
            (None, None) => true,
            _ => false,
        }),
{
    match (a, b) {
        (Some(x), Some(y)) => str_eq(x.as_str(), y.as_str()),
        (None, None) => true,
        _ => false,
    }
}

/// The optional identity as plain text.
pub open spec fn opt_text(o: Option<String>) -> Option<Seq<char>> {
    match o {
        Some(s) => Some(s@),
        None => None,
    }
}

/// The saved monitor for path `index`: the per-path record, else the record of
/// its target mode; two usable records must agree.
pub open spec fn saved_monitor_of(saved: DisplayConfig, index: int) -> Option<MonitorInfo> {
    let per_path = if index < saved.path_monitors@.len() && identity_of(
        saved.path_monitors@[index],
    ) is Some {
        Some(saved.path_monitors@[index])
    } else {
        None::<MonitorInfo>
    };
    let legacy_index = saved.paths@[index].target.mode_info_idx as int;
    let legacy = if legacy_index < saved.monitors@.len() && identity_of(
        saved.monitors@[legacy_index],
    ) is Some {
        Some(saved.monitors@[legacy_index])
    } else {
        None::<MonitorInfo>
    };
    match per_path {
        Some(m) => Some(m),
        None => legacy,
    }
}

/// Whether the two usable saved records for path `index` name different devices.
pub open spec fn saved_conflict(saved: DisplayConfig, index: int) -> bool {
    let legacy_index = saved.paths@[index].target.mode_info_idx as int;
    &&& index < saved.path_monitors@.len()
    &&& legacy_index < saved.monitors@.len()
    &&& identity_of(saved.path_monitors@[index]) is Some
    &&& identity_of(saved.monitors@[legacy_index]) is Some
    &&& identity_of(saved.path_monitors@[index]) != identity_of(saved.monitors@[legacy_index])
}

fn saved_path_message(index: usize, tail: &str) -> (r: String)
    requires
        index < usize::MAX,
    ensures
        r@ == "saved path "@ + decimal((index + 1) as nat) + tail@,
{
    assert(usize::MAX <= u64::MAX);
    let mut s = String::from_str("saved path ");
    push_decimal(&mut s, index as u64 + 1);
    s.append(tail);
    s
}

/// The saved monitor record that identifies path `index`.
pub fn saved_monitor(saved: &DisplayConfig, index: usize) -> (r: Result<MonitorInfo, CcdError>)
    requires
        index < saved.paths@.len(),
    ensures
        saved_conflict(*saved, index as int) ==> r matches Err(CcdError::InvalidConfig(_)),
        !saved_conflict(*saved, index as int) ==> match saved_monitor_of(*saved, index as int) {
            Some(m) => r == Ok::<MonitorInfo, CcdError>(m),
            None => r matches Err(CcdError::Remap(t)) && t@ == "saved path "@ + decimal((index + 1) as nat)
                + no_identity_tail(),
        },
{
    let path_count = saved.paths.len();
    assert(index < path_count);
    let per_path = if index < saved.path_monitors.len() {
        match identity(&saved.path_monitors[index]) {
            Some(id) => Some((index, id)),
            None => None,
        }
    } else {
        None
    };
    let legacy_index = saved.paths[index].target.mode_info_idx as usize;
    let legacy = if legacy_index < saved.monitors.len() {
        match identity(&saved.monitors[legacy_index]) {
            Some(id) => Some((legacy_index, id)),
            None => None,
        }
    } else {
        None
    };
    match (&per_path, &legacy) {
        (Some((_, a)), Some((_, b))) => {
            if !str_eq(a.as_str(), b.as_str()) {
                return Err(
                    invalid(path_message(index, " has conflicting saved monitor identities")),
                );
            }
        },
        _ => {},
    }
    match per_path {
        Some((k, _)) => Ok(saved.path_monitors[k].copy()),
        None => match legacy {
            Some((k, _)) => Ok(saved.monitors[k].copy()),
            None => Err(
                CcdError::Remap(
                    saved_path_message(
                        index,
                        " has no valid monitor device path; this older or incomplete profile must be recaptured after arranging the displays in Windows",
                    ),
                ),
            ),
        },
    }
}

} // verus!

verus! {

/// Whether live path `k` has an available target.
pub open spec fn available(live: DisplayConfig, k: int) -> bool {
    live.paths@[k].target.target_available != 0
}

/// Live metadata that can be trusted: one identity record per path, and all
/// available paths to one target agree on its identity and connector.
pub open spec fn live_consistent(live: DisplayConfig) -> bool {
    &&& live.path_monitors@.len() == live.paths@.len()
    &&& forall|k1: int, k2: int|
        0 <= k1 < live.paths@.len() && 0 <= k2 < live.paths@.len() && #[trigger] available(
            live,
            k1,
        ) && #[trigger] available(live, k2) && target_of(live.paths@[k1]) == target_of(
            live.paths@[k2],
        ) ==> identity_of(live.path_monitors@[k1]) == identity_of(live.path_monitors@[k2])
            && live.paths@[k1].target.output_technology == live.paths@[k2].target.output_technology
}

/// The distinct available live targets, with their identity, connector, the
/// sources that can drive them and the sources that currently do.
pub struct LiveTargets {
    pub endpoints: Vec<Endpoint>,
    pub identities: Vec<Option<String>>,
    pub technologies: Vec<i32>,
    pub sources: Vec<Vec<Endpoint>>,
    pub active: Vec<Vec<Endpoint>>,
}

/// Record `a` of `t` describes live path `k`: same target, identity and connector.
pub open spec fn describes(t: LiveTargets, a: int, live: DisplayConfig, k: int) -> bool {
    &&& available(live, k)
    &&& target_of(live.paths@[k]) == t.endpoints@[a]
    &&& opt_text(t.identities@[a]) == identity_of(live.path_monitors@[k])
    &&& t.technologies@[a] == live.paths@[k].target.output_technology
}

/// Live path `k` routes source `e` to the target of record `a`.
pub open spec fn routes(t: LiveTargets, a: int, live: DisplayConfig, k: int, e: Endpoint) -> bool {
    &&& available(live, k)
    &&& target_of(live.paths@[k]) == t.endpoints@[a]
    &&& source_of(live.paths@[k]) == e
}

/// Record `a` stems from an available path before `from`.
pub open spec fn has_origin(t: LiveTargets, live: DisplayConfig, from: int, a: int) -> bool {
    exists|k: int| 0 <= k < from && #[trigger] describes(t, a, live, k)
}

/// Live path `k` has a record in `t`.
pub open spec fn covered(t: LiveTargets, live: DisplayConfig, k: int) -> bool {
    exists|a: int| 0 <= a < t.endpoints@.len() && #[trigger] describes(t, a, live, k)
}

/// Source `e` of record `a` is routed to its target by an available path before `from`.
pub open spec fn has_route(t: LiveTargets, live: DisplayConfig, from: int, a: int, e: Endpoint) -> bool {
    exists|k: int| 0 <= k < from && #[trigger] routes(t, a, live, k, e)
}

/// Records stem from available paths before `from`; every available path
/// before `cover` has its record; recorded sources are real routes.
pub open spec fn summary(t: LiveTargets, live: DisplayConfig, from: int, cover: int) -> bool {
    &&& t.identities@.len() == t.endpoints@.len()
    &&& t.technologies@.len() == t.endpoints@.len()
    &&& t.sources@.len() == t.endpoints@.len()
    &&& t.active@.len() == t.endpoints@.len()
    &&& forall|a: int, b: int|
        0 <= a < b < t.endpoints@.len() ==> #[trigger] t.endpoints@[a] != #[trigger] t.endpoints@[b]
    &&& forall|a: int| 0 <= a < t.endpoints@.len() ==> #[trigger] has_origin(t, live, from, a)
    &&& forall|k: int| 0 <= k < cover && #[trigger] available(live, k) ==> covered(t, live, k)
    &&& forall|a: int, e: Endpoint|
        0 <= a < t.endpoints@.len() && #[trigger] t.sources@[a]@.contains(e) ==> has_route(
            t,
            live,
            from,
            a,
            e,
        )
    &&& forall|a: int, e: Endpoint|
        0 <= a < t.endpoints@.len() && #[trigger] t.active@[a]@.contains(e) ==> t.sources@[a]@.contains(e)
}

/// How `t` summarises the available paths `live.paths[..n]`.
pub open spec fn summarises(t: LiveTargets, live: DisplayConfig, n: int) -> bool {
    summary(t, live, n, n)
}

fn contains_endpoint(v: &Vec<Endpoint>, e: Endpoint) -> (r: bool)
    ensures
        r == v@.contains(e),
{
    let mut i: usize = 0;
    while i < v.len()
        invariant
            i <= v@.len(),
            forall|k: int| 0 <= k < i ==> v@[k] != e,
        decreases v.len() - i,
    {
        if v[i] == e {
            assert(v@[i as int] == e);
            return true;
        }
        i = i + 1;
    }
    false
}

/// Add `e` to `list` unless it is already there.
fn note_endpoint(list: &mut Vec<Endpoint>, e: Endpoint)
    ensures
        forall|x: Endpoint| #[trigger] final(list)@.contains(x) <==> (old(list)@.contains(x) || x == e),
        old(list)@.no_duplicates() ==> final(list)@.no_duplicates(),
{
    if !contains_endpoint(list, e) {
        let ghost before = list@;
        list.push(e);
        proof {
            if before.no_duplicates() {
                assert forall|i: int, j: int| 0 <= i < list@.len() && 0 <= j < list@.len() && i != j implies list@[i]
                    != list@[j] by {
                    if i == before.len() {
                        assert(list@[j] == before[j]);
                        assert(before[j] != e);
                    } else if j == before.len() {
                        assert(list@[i] == before[i]);
                        assert(before[i] != e);
                    } else {
                        assert(list@[i] == before[i]);
                        assert(list@[j] == before[j]);
                    }
                }
            }
            assert forall|x: Endpoint| #[trigger] list@.contains(x) <==> (before.contains(x) || x == e) by {
                if before.contains(x) {
                    let j = choose|j: int| 0 <= j < before.len() && before[j] == x;
                    assert(list@[j] == x);
                }
                if list@.contains(x) && x != e {
                    let j = choose|j: int| 0 <= j < list@.len() && list@[j] == x;
                    assert(j < before.len());
                    assert(before[j] == x);
                }
                if x == e {
                    assert(list@[before.len() as int] == e);
                }
            }
        }
    }
}

/// The reasons a source assignment fails: a group whose candidates ran out,
/// or one left with several.
pub open spec fn routing_failure(m: Seq<char>, path: int) -> bool {
    m == routing_text(path, "is ambiguous"@) || m == routing_text(path, "cannot preserve the saved clone/extended layout"@)
}

/// The texts with which an inconsistent live snapshot is refused.
pub open spec fn live_refusal(m: Seq<char>) -> bool {
    m == "live target identities are incomplete; reconnect the monitors and retry"@ || m == "live paths disagree about a target's identity or connector; refresh displays and retry"@
}

/// The text `m` of a `Remap` error of a remap of `saved` onto `live`: an
/// inconsistent live snapshot, a saved path whose monitor has no live target
/// or several, or a group of cloned paths left without a source or with
/// several equally good ones.
pub open spec fn remap_refusal(saved: DisplayConfig, live: DisplayConfig, m: Seq<char>) -> bool {
    ||| !live_consistent(live) && live_refusal(m)
    ||| exists|i: int| 0 <= i < saved.paths@.len() && #[trigger] live_count_error(saved, live, i, m)
    ||| exists|i: int| 0 <= i < saved.paths@.len() && #[trigger] routing_failure(m, i)
}

/// Live path `k` currently carries its source to its target.
pub open spec fn path_active(live: DisplayConfig, k: int) -> bool {
    live.paths@[k].flags & PATH_ACTIVE != 0
}

/// The route of live path `k` is among the sources recorded for its target
/// (and among the active ones when the path is active).
pub open spec fn route_recorded(t: LiveTargets, live: DisplayConfig, k: int) -> bool {
    exists|a: int|
        0 <= a < t.endpoints@.len() && #[trigger] t.endpoints@[a] == target_of(live.paths@[k])
            && t.sources@[a]@.contains(source_of(live.paths@[k])) && (path_active(live, k)
            ==> t.active@[a]@.contains(source_of(live.paths@[k])))
}

/// Live path `k` currently routes source `e` to the target of record `a`.
pub open spec fn active_route_at(t: LiveTargets, a: int, live: DisplayConfig, k: int, e: Endpoint) -> bool {
    routes(t, a, live, k, e) && path_active(live, k)
}

/// Every source recorded as currently driving a target does so on some
/// active live path before `n`.
pub open spec fn actives_from_live(t: LiveTargets, live: DisplayConfig, n: int) -> bool {
    forall|a: int, e: Endpoint|
        0 <= a < t.endpoints@.len() && #[trigger] t.active@[a]@.contains(e) ==> exists|k: int|
            0 <= k < n && #[trigger] active_route_at(t, a, live, k, e)
}

/// Collect the available live targets. Live modes are deliberately unused:
/// inactive but connected targets often have none.
pub fn live_targets(live: &DisplayConfig) -> (r: Result<LiveTargets, CcdError>)
    ensures
        r is Ok <==> live_consistent(*live),
        r is Err ==> r->Err_0 is Remap,
        r matches Err(CcdError::Remap(m)) ==> live_refusal(m@),
        r matches Ok(t) ==> summarises(t, *live, live.paths@.len() as int),
        r matches Ok(t) ==> forall|k: int|
            0 <= k < live.paths@.len() && #[trigger] available(*live, k) ==> route_recorded(t, *live, k),
        r matches Ok(t) ==> actives_from_live(t, *live, live.paths@.len() as int),
        r matches Ok(t) ==> forall|a: int| 0 <= a < t.sources@.len() ==> (#[trigger] t.sources@[a])@.no_duplicates(),
{
    if live.path_monitors.len() != live.paths.len() {
        return Err(
            CcdError::Remap(
                String::from_str(
                    "live target identities are incomplete; reconnect the monitors and retry",
                ),
            ),
        );
    }
    let mut t = LiveTargets {
        endpoints: Vec::new(),
        identities: Vec::new(),
        technologies: Vec::new(),
        sources: Vec::new(),
        active: Vec::new(),
    };
    let n = live.paths.len();
    let mut k: usize = 0;
    while k < n
        invariant
            n == live.paths@.len(),
            live.path_monitors@.len() == n,
            k <= n,
            summary(t, *live, k as int, k as int),
            consistent_upto(*live, k as int),
            forall|k2: int| 0 <= k2 < k && #[trigger] available(*live, k2) ==> route_recorded(t, *live, k2),
            actives_from_live(t, *live, k as int),
            forall|a: int| 0 <= a < t.sources@.len() ==> (#[trigger] t.sources@[a])@.no_duplicates(),
        decreases n - k,
    {
        let ghost t0 = t;
        let path = live.paths[k];
        if path.target.target_available == 0 {
            proof {
                lemma_extend_unavailable(t, *live, k as int);
            }
            k = k + 1;
            continue ;
        }
        let endpoint = target(&path);
        let key = identity(&live.path_monitors[k]);
        let mut pos: usize = 0;
        while pos < t.endpoints.len() && t.endpoints[pos] != endpoint
            invariant
                pos <= t.endpoints@.len(),
                forall|a: int| 0 <= a < pos ==> t.endpoints@[a] != endpoint,
            decreases t.endpoints.len() - pos,
        {
            pos = pos + 1;
        }
        let ghost before = t;
        if pos == t.endpoints.len() {
            let copy = match &key {
                Some(s) => Some(s.clone()),
                None => None,
            };
            t.endpoints.push(endpoint);
            t.identities.push(copy);
            t.technologies.push(path.target.output_technology);
            t.sources.push(Vec::new());
            t.active.push(Vec::new());
            proof {
                lemma_new_record(before, t, *live, k as int);
            }
        } else {
            proof {
                lemma_widen(t, *live, k as int);
            }
        }
        let ghost mid = t;
        if !same_identity(&t.identities[pos], &key) || t.technologies[pos]
            != path.target.output_technology {
            proof {
                lemma_disagreement(mid, *live, k as int, pos as int);
            }
            return Err(
                CcdError::Remap(
                    String::from_str(
                        "live paths disagree about a target's identity or connector; refresh displays and retry",
                    ),
                ),
            );
        }
        let src = source(&path);
        let ghost t1 = t;
        note_endpoint(&mut t.sources[pos], src);
        if path.flags & PATH_ACTIVE != 0 {
            note_endpoint(&mut t.active[pos], src);
        }
        proof {
            assert(t.endpoints@ == t1.endpoints@);
            assert forall|k2: int| 0 <= k2 < k + 1 && #[trigger] available(*live, k2) implies route_recorded(t, *live, k2) by {
                if k2 < k {
                    let a = choose|a: int|
                        0 <= a < t0.endpoints@.len() && #[trigger] t0.endpoints@[a] == target_of(live.paths@[k2])
                            && t0.sources@[a]@.contains(source_of(live.paths@[k2])) && (path_active(*live, k2)
                            ==> t0.active@[a]@.contains(source_of(live.paths@[k2])));
                    assert(t1.endpoints@[a] == t0.endpoints@[a]);
                    assert(t1.sources@[a] == t0.sources@[a]);
                    assert(t1.active@[a] == t0.active@[a]);
                    assert(t.endpoints@[a] == target_of(live.paths@[k2]));
                    assert(t.sources@[a]@.contains(source_of(live.paths@[k2])));
                } else {
                    assert(t.endpoints@[pos as int] == target_of(live.paths@[k2]));
                    assert(t.sources@[pos as int]@.contains(src));
                }
            }
            assert forall|a: int, e: Endpoint|
                0 <= a < t.endpoints@.len() && #[trigger] t.active@[a]@.contains(e) implies exists|k3: int|
                    0 <= k3 < k + 1 && #[trigger] active_route_at(t, a, *live, k3, e) by {
                if a == pos as int && e == src && path_active(*live, k as int) {
                    assert(active_route_at(t, a, *live, k as int, e));
                } else {
                    assert(t1.active@[a]@.contains(e));
                    if a < t0.endpoints@.len() {
                        assert(t0.active@[a] == t1.active@[a]);
                        let k3 = choose|k3: int| 0 <= k3 < k && #[trigger] active_route_at(t0, a, *live, k3, e);
                        assert(t0.endpoints@[a] == t.endpoints@[a]);
                        assert(active_route_at(t, a, *live, k3, e));
                    } else {
                        assert(t1.active@[a]@.len() == 0);
                    }
                }
            }
        }
        proof {
            lemma_step(mid, t, *live, k as int, pos as int);
            lemma_step_consistent(mid, *live, k as int, pos as int);
        }
        k = k + 1;
    }
    Ok(t)
}

/// Available paths before `k` that share a target agree on identity and connector.
pub open spec fn consistent_upto(live: DisplayConfig, k: int) -> bool {
    forall|k1: int, k2: int|
        0 <= k1 < k && 0 <= k2 < k && #[trigger] available(live, k1) && #[trigger] available(
            live,
            k2,
        ) && target_of(live.paths@[k1]) == target_of(live.paths@[k2]) ==> identity_of(
            live.path_monitors@[k1],
        ) == identity_of(live.path_monitors@[k2]) && live.paths@[k1].target.output_technology
            == live.paths@[k2].target.output_technology
}

proof fn lemma_widen(t: LiveTargets, live: DisplayConfig, k: int)
    requires
        summary(t, live, k, k),
    ensures
        summary(t, live, k + 1, k),
{
    assert forall|a: int| 0 <= a < t.endpoints@.len() implies #[trigger] has_origin(t, live, k + 1, a) by {
        assert(has_origin(t, live, k, a));
        let q = choose|q: int| 0 <= q < k && #[trigger] describes(t, a, live, q);
        assert(describes(t, a, live, q));
    }
    assert forall|a: int, e: Endpoint|
        0 <= a < t.endpoints@.len() && #[trigger] t.sources@[a]@.contains(e) implies has_route(
            t,
            live,
            k + 1,
            a,
            e,
        ) by {
        assert(has_route(t, live, k, a, e));
        let q = choose|q: int| 0 <= q < k && #[trigger] routes(t, a, live, q, e);
        assert(routes(t, a, live, q, e));
    }
}

proof fn lemma_extend_unavailable(t: LiveTargets, live: DisplayConfig, k: int)
    requires
        0 <= k < live.paths@.len(),
        summary(t, live, k, k),
        consistent_upto(live, k),
        !available(live, k),
    ensures
        summary(t, live, k + 1, k + 1),
        consistent_upto(live, k + 1),
{
    lemma_widen(t, live, k);
}

proof fn lemma_new_record(before: LiveTargets, t: LiveTargets, live: DisplayConfig, k: int)
    requires
        0 <= k < live.paths@.len(),
        live.path_monitors@.len() == live.paths@.len(),
        available(live, k),
        summary(before, live, k, k),
        forall|a: int| 0 <= a < before.endpoints@.len() ==> before.endpoints@[a] != target_of(live.paths@[k]),
        t.endpoints@ == before.endpoints@.push(target_of(live.paths@[k])),
        t.technologies@ == before.technologies@.push(live.paths@[k].target.output_technology),
        t.identities@.len() == t.endpoints@.len(),
        t.sources@.len() == t.endpoints@.len(),
        t.active@.len() == t.endpoints@.len(),
        forall|a: int| 0 <= a < before.endpoints@.len() ==> t.identities@[a] == before.identities@[a]
            && t.sources@[a] == before.sources@[a] && t.active@[a] == before.active@[a],
        opt_text(t.identities@[before.endpoints@.len() as int]) == identity_of(live.path_monitors@[k]),
        t.sources@[before.endpoints@.len() as int]@.len() == 0,
        t.active@[before.endpoints@.len() as int]@.len() == 0,
    ensures
        summary(t, live, k + 1, k),
{
    let old_count = before.endpoints@.len();
    assert forall|a: int| 0 <= a < t.endpoints@.len() implies #[trigger] has_origin(t, live, k + 1, a) by {
        if a < old_count {
            assert(has_origin(before, live, k, a));
            let q = choose|q: int| 0 <= q < k && #[trigger] describes(before, a, live, q);
            assert(describes(before, a, live, q));
            assert(describes(t, a, live, q));
        } else {
            assert(describes(t, a, live, k));
        }
    }
    assert forall|q: int| 0 <= q < k && #[trigger] available(live, q) implies covered(t, live, q) by {
        assert(covered(before, live, q));
        let a = choose|a: int| 0 <= a < old_count && #[trigger] describes(before, a, live, q);
        assert(describes(before, a, live, q));
        assert(describes(t, a, live, q));
    }
    assert forall|a: int, e: Endpoint|
        0 <= a < t.endpoints@.len() && #[trigger] t.sources@[a]@.contains(e) implies has_route(
            t,
            live,
            k + 1,
            a,
            e,
        ) by {
        if a < old_count {
            assert(before.sources@[a]@.contains(e));
            assert(has_route(before, live, k, a, e));
            let q = choose|q: int| 0 <= q < k && #[trigger] routes(before, a, live, q, e);
            assert(routes(before, a, live, q, e));
            assert(routes(t, a, live, q, e));
        }
    }
    assert forall|a: int, e: Endpoint|
        0 <= a < t.endpoints@.len() && #[trigger] t.active@[a]@.contains(e) implies t.sources@[a]@.contains(e) by {
        if a < old_count {
            assert(before.active@[a]@.contains(e));
        }
    }
    assert forall|a: int, b: int|
        0 <= a < b < t.endpoints@.len() implies #[trigger] t.endpoints@[a] != #[trigger] t.endpoints@[b] by {
        if b < old_count {
            assert(before.endpoints@[a] != before.endpoints@[b]);
        }
    }
}

proof fn lemma_disagreement(mid: LiveTargets, live: DisplayConfig, k: int, pos: int)
    requires
        0 <= k < live.paths@.len(),
        summary(mid, live, k + 1, k),
        0 <= pos < mid.endpoints@.len(),
        mid.endpoints@[pos] == target_of(live.paths@[k]),
        available(live, k),
        opt_text(mid.identities@[pos]) != identity_of(live.path_monitors@[k])
            || mid.technologies@[pos] != live.paths@[k].target.output_technology,
    ensures
        !live_consistent(live),
{
    assert(has_origin(mid, live, k + 1, pos));
    let q = choose|q: int| 0 <= q < k + 1 && #[trigger] describes(mid, pos, live, q);
    assert(describes(mid, pos, live, q));
    assert(available(live, q) && available(live, k));
}

proof fn lemma_step(mid: LiveTargets, t: LiveTargets, live: DisplayConfig, k: int, pos: int)
    requires
        0 <= k < live.paths@.len(),
        summary(mid, live, k + 1, k),
        0 <= pos < mid.endpoints@.len(),
        describes(mid, pos, live, k),
        t.endpoints@ == mid.endpoints@,
        t.identities@ == mid.identities@,
        t.technologies@ == mid.technologies@,
        t.sources@.len() == mid.sources@.len(),
        t.active@.len() == mid.active@.len(),
        forall|a: int| 0 <= a < mid.sources@.len() && a != pos ==> t.sources@[a] == mid.sources@[a],
        forall|a: int| 0 <= a < mid.active@.len() && a != pos ==> t.active@[a] == mid.active@[a],
        forall|e: Endpoint| #[trigger] t.sources@[pos]@.contains(e) <==> (mid.sources@[pos]@.contains(e)
            || e == source_of(live.paths@[k])),
        forall|e: Endpoint| #[trigger] t.active@[pos]@.contains(e) ==> (mid.active@[pos]@.contains(e)
            || e == source_of(live.paths@[k])),
    ensures
        summary(t, live, k + 1, k + 1),
{
    assert forall|a: int| 0 <= a < t.endpoints@.len() implies #[trigger] has_origin(t, live, k + 1, a) by {
        assert(has_origin(mid, live, k + 1, a));
        let q = choose|q: int| 0 <= q < k + 1 && #[trigger] describes(mid, a, live, q);
        assert(describes(mid, a, live, q));
        assert(describes(t, a, live, q));
    }
    assert forall|q: int| 0 <= q < k + 1 && #[trigger] available(live, q) implies covered(t, live, q) by {
        if q == k {
            assert(describes(t, pos, live, q));
        } else {
            assert(covered(mid, live, q));
            let a = choose|a: int| 0 <= a < mid.endpoints@.len() && #[trigger] describes(mid, a, live, q);
            assert(describes(mid, a, live, q));
            assert(describes(t, a, live, q));
        }
    }
    assert forall|a: int, e: Endpoint|
        0 <= a < t.endpoints@.len() && #[trigger] t.sources@[a]@.contains(e) implies has_route(
            t,
            live,
            k + 1,
            a,
            e,
        ) by {
        if a == pos && !mid.sources@[pos]@.contains(e) {
            assert(routes(t, a, live, k, e));
        } else {
            assert(mid.sources@[a]@.contains(e));
            assert(has_route(mid, live, k + 1, a, e));
            let q = choose|q: int| 0 <= q < k + 1 && #[trigger] routes(mid, a, live, q, e);
            assert(routes(mid, a, live, q, e));
            assert(routes(t, a, live, q, e));
        }
    }
    assert forall|a: int, e: Endpoint|
        0 <= a < t.endpoints@.len() && #[trigger] t.active@[a]@.contains(e) implies t.sources@[a]@.contains(e) by {
        if a == pos {
            if mid.active@[pos]@.contains(e) {
                assert(mid.sources@[pos]@.contains(e));
            }
        } else {
            assert(mid.active@[a]@.contains(e));
        }
    }
    assert forall|a: int, b: int|
        0 <= a < b < t.endpoints@.len() implies #[trigger] t.endpoints@[a] != #[trigger] t.endpoints@[b] by {
        assert(mid.endpoints@[a] != mid.endpoints@[b]);
    }
}

proof fn lemma_step_consistent(mid: LiveTargets, live: DisplayConfig, k: int, pos: int)
    requires
        0 <= k < live.paths@.len(),
        summary(mid, live, k + 1, k),
        consistent_upto(live, k),
        0 <= pos < mid.endpoints@.len(),
        describes(mid, pos, live, k),
    ensures
        consistent_upto(live, k + 1),
{
    assert forall|k1: int, k2: int|
        0 <= k1 < k + 1 && 0 <= k2 < k + 1 && #[trigger] available(live, k1) && #[trigger] available(
            live,
            k2,
        ) && target_of(live.paths@[k1]) == target_of(live.paths@[k2]) implies identity_of(
            live.path_monitors@[k1],
        ) == identity_of(live.path_monitors@[k2]) && live.paths@[k1].target.output_technology
            == live.paths@[k2].target.output_technology by {
        if k1 == k || k2 == k {
            let q = if k1 == k { k2 } else { k1 };
            if q < k {
                assert(covered(mid, live, q));
                let a = choose|a: int| 0 <= a < mid.endpoints@.len() && #[trigger] describes(mid, a, live, q);
                assert(describes(mid, a, live, q));
                if a != pos {
                    if a < pos {
                        assert(mid.endpoints@[a] != mid.endpoints@[pos]);
                    } else {
                        assert(mid.endpoints@[pos] != mid.endpoints@[a]);
                    }
                }
            }
        }
    }
}

/// `monitors` are the saved monitor records of the first paths, none in conflict.
pub open spec fn saved_prefix(saved: DisplayConfig, monitors: Seq<MonitorInfo>) -> bool {
    forall|q: int|
        0 <= q < monitors.len() ==> !saved_conflict(saved, q) && saved_monitor_of(saved, q) == Some(
            #[trigger] monitors[q],
        )
}

proof fn lemma_saved_prefix_extend(saved: DisplayConfig, prev: Seq<MonitorInfo>, next: Seq<MonitorInfo>)
    requires
        saved_prefix(saved, prev),
        next.len() == prev.len() + 1,
        forall|q: int| 0 <= q < prev.len() ==> next[q] == prev[q],
        !saved_conflict(saved, prev.len() as int),
        saved_monitor_of(saved, prev.len() as int) == Some(next[prev.len() as int]),
    ensures
        saved_prefix(saved, next),
{
    assert forall|q: int| 0 <= q < next.len() implies !saved_conflict(saved, q)
        && saved_monitor_of(saved, q) == Some(#[trigger] next[q]) by {
        if q < prev.len() {
            assert(next[q] == prev[q]);
        }
    }
}

/// The identity text of a monitor record already known to have one.
fn identity_text(monitor: &MonitorInfo) -> (r: String)
    requires
        identity_of(*monitor) is Some,
    ensures
        identity_of(*monitor) == Some(r@),
{
    match identity(monitor) {
        Some(key) => key,
        None => {
            proof {
                assert(false);
            }
            String::new()
        },
    }
}

fn monitor_message(head: &str, monitor: &MonitorInfo, tail: &str) -> (r: String)
    ensures
        r@ == head@ + monitor.device_path@ + tail@,
{
    let mut s = String::from_str(head);
    s.append(monitor.device_path.as_str());
    s.append(tail);
    s
}

/// The tail of the error for a saved path without a usable monitor identity.
pub open spec fn no_identity_tail() -> Seq<char> {
    " has no valid monitor device path; this older or incomplete profile must be recaptured after arranging the displays in Windows"@
}

/// The tail of the error for a saved monitor with no live target.
pub open spec fn missing_tail() -> Seq<char> {
    " is missing or its device path could not be read; reconnect it and retry, or recapture if the port/dock/driver changed its identity"@
}

/// The tail of the error for a saved monitor with several live targets.
pub open spec fn multiple_tail() -> Seq<char> {
    " identifies multiple live targets; reconnect/refresh displays and recapture if the ambiguity persists"@
}

/// `m` is the error for saved path `i` whose monitor has no live target, or
/// several, among the records `t`.
pub open spec fn target_count_error(saved: DisplayConfig, t: LiveTargets, i: int, m: Seq<char>) -> bool {
    &&& !saved_conflict(saved, i)
    &&& {
    ||| saved_monitor_of(saved, i) is None && m == "saved path "@ + decimal((i + 1) as nat) + no_identity_tail()
    ||| saved_monitor_of(saved, i) matches Some(mon) && identity_of(mon) matches Some(id) && {
        ||| m == "monitor "@ + mon.device_path@ + missing_tail() && forall|a: int|
            0 <= a < t.identities@.len() ==> opt_text(#[trigger] t.identities@[a]) != Some(id)
        ||| m == "monitor device path "@ + mon.device_path@ + multiple_tail() && exists|a: int, b: int|
            0 <= a < b < t.identities@.len() && opt_text(#[trigger] t.identities@[a]) == Some(id)
                && opt_text(#[trigger] t.identities@[b]) == Some(id)
    }
    }
}

/// `m` is the error for saved path `i` whose monitor no available live path
/// carries, or which available live paths carry to two different targets.
pub open spec fn live_count_error(saved: DisplayConfig, live: DisplayConfig, i: int, m: Seq<char>) -> bool {
    &&& !saved_conflict(saved, i)
    &&& {
    ||| saved_monitor_of(saved, i) is None && m == "saved path "@ + decimal((i + 1) as nat) + no_identity_tail()
    ||| saved_monitor_of(saved, i) matches Some(mon) && identity_of(mon) matches Some(id) && {
        ||| m == "monitor "@ + mon.device_path@ + missing_tail() && forall|k: int|
            0 <= k < live.paths@.len() && #[trigger] available(live, k) ==> identity_of(live.path_monitors@[k]) != Some(id)
        ||| m == "monitor device path "@ + mon.device_path@ + multiple_tail() && exists|k1: int, k2: int|
            0 <= k1 < live.paths@.len() && 0 <= k2 < live.paths@.len() && #[trigger] available(live, k1)
                && #[trigger] available(live, k2) && identity_of(live.path_monitors@[k1]) == Some(id)
                && identity_of(live.path_monitors@[k2]) == Some(id) && target_of(live.paths@[k1])
                != target_of(live.paths@[k2])
    }
    }
}

/// The identity of the saved monitor of path `i`, when it has a usable one.
pub open spec fn saved_identity(saved: DisplayConfig, i: int) -> Option<Seq<char>> {
    match saved_monitor_of(saved, i) {
        Some(m) => identity_of(m),
        None => None,
    }
}

/// Saved path `i` has a usable monitor identity that no earlier path has,
/// and exactly one of the records `t` carries it.
pub open spec fn record_ok(saved: DisplayConfig, t: LiveTargets, i: int) -> bool {
    &&& !saved_conflict(saved, i)
    &&& saved_identity(saved, i) is Some
    &&& forall|j: int| 0 <= j < i ==> #[trigger] saved_identity(saved, j) != saved_identity(saved, i)
    &&& exists|a: int| 0 <= a < t.identities@.len() && opt_text(#[trigger] t.identities@[a]) == saved_identity(saved, i)
    &&& forall|a: int, b: int|
        0 <= a < t.identities@.len() && 0 <= b < t.identities@.len() && opt_text(#[trigger] t.identities@[a])
            == saved_identity(saved, i) && opt_text(#[trigger] t.identities@[b]) == saved_identity(saved, i) ==> a == b
}

/// `e` is the refusal for saved path `i` when its record check fails: two
/// saved records disagree, it has no usable identity, an earlier path has
/// its identity, or no record or several carry it.
pub open spec fn record_refusal(saved: DisplayConfig, t: LiveTargets, i: int, e: CcdError) -> bool {
    if saved_conflict(saved, i) {
        e is InvalidConfig
    } else if saved_identity(saved, i) is None {
        e matches CcdError::Remap(m) && m@ == "saved path "@ + decimal((i + 1) as nat) + no_identity_tail()
    } else if exists|j: int| 0 <= j < i && #[trigger] saved_identity(saved, j) == saved_identity(saved, i) {
        e is InvalidConfig
    } else {
        e matches CcdError::Remap(m) && target_count_error(saved, t, i, m@)
    }
}

/// Every saved path has one usable monitor identity, the identities differ,
/// and each names exactly one of the records `t`.
pub open spec fn targets_owed(saved: DisplayConfig, t: LiveTargets) -> bool {
    &&& forall|i: int|
        0 <= i < saved.paths@.len() ==> !saved_conflict(saved, i) && (#[trigger] saved_identity(saved, i)) is Some
    &&& forall|i: int|
        0 <= i < saved.paths@.len() ==> exists|a: int|
            0 <= a < t.identities@.len() && opt_text(#[trigger] t.identities@[a]) == #[trigger] saved_identity(saved, i)
    &&& forall|i: int, a: int, b: int|
        0 <= i < saved.paths@.len() && 0 <= a < t.identities@.len() && 0 <= b < t.identities@.len() && opt_text(
            #[trigger] t.identities@[a],
        ) == #[trigger] saved_identity(saved, i) && opt_text(#[trigger] t.identities@[b]) == saved_identity(saved, i) ==> a == b
    &&& forall|i: int, j: int|
        0 <= i < j < saved.paths@.len() ==> #[trigger] saved_identity(saved, i) != #[trigger] saved_identity(saved, j)
}

/// The saved monitor of every path, each matched to the one live target with
/// the same identity.
#[verifier::loop_isolation(false)]
fn match_saved_targets(saved: &DisplayConfig, t: &LiveTargets) -> (r: Result<
    (Vec<MonitorInfo>, Vec<usize>),
    CcdError,
>)
    requires
        saved.paths@.len() <= u32::MAX,
        t.identities@.len() == t.endpoints@.len(),
    ensures
        r matches Ok((monitors, matched)) ==> {
            &&& monitors@.len() == saved.paths@.len()
            &&& matched@.len() == saved.paths@.len()
            &&& saved_prefix(*saved, monitors@)
            &&& forall|i: int|
                0 <= i < saved.paths@.len() ==> #[trigger] matched@[i] < t.endpoints@.len()
                    && opt_text(t.identities@[matched@[i] as int]) == identity_of(monitors@[i])
                    && identity_of(monitors@[i]) is Some
            &&& forall|i: int, a: int|
                0 <= i < saved.paths@.len() && 0 <= a < t.endpoints@.len() && opt_text(
                    #[trigger] t.identities@[a],
                ) == identity_of(#[trigger] monitors@[i]) ==> a == matched@[i]
            &&& forall|i: int, j: int|
                0 <= i < j < saved.paths@.len() ==> identity_of(#[trigger] monitors@[i])
                    != identity_of(#[trigger] monitors@[j])
        },
        r is Err ==> r->Err_0 is InvalidConfig || r->Err_0 is Remap,
        r matches Err(CcdError::Remap(text)) ==> exists|p: int|
            0 <= p < saved.paths@.len() && #[trigger] target_count_error(*saved, *t, p, text@),
        targets_owed(*saved, *t) ==> r is Ok,
        r is Ok <==> forall|q: int| 0 <= q < saved.paths@.len() ==> #[trigger] record_ok(*saved, *t, q),
        forall|i: int|
            0 <= i < saved.paths@.len() && (forall|q: int| 0 <= q < i ==> #[trigger] record_ok(*saved, *t, q))
                && !#[trigger] record_ok(*saved, *t, i) ==> r is Err && record_refusal(*saved, *t, i, r->Err_0),
{
    let n = saved.paths.len();
    let mut monitors: Vec<MonitorInfo> = Vec::new();
    let mut keys: Vec<String> = Vec::new();
    let mut matched: Vec<usize> = Vec::new();
    let mut i: usize = 0;
    while i < n
        invariant
            n == saved.paths@.len(),
            n <= u32::MAX,
            i <= n,
            t.identities@.len() == t.endpoints@.len(),
            monitors@.len() == i,
            keys@.len() == i,
            matched@.len() == i,
            saved_prefix(*saved, monitors@),
            forall|q: int| 0 <= q < i ==> identity_of(#[trigger] monitors@[q]) == Some(keys@[q]@),
            forall|q: int|
                0 <= q < i ==> #[trigger] matched@[q] < t.endpoints@.len() && opt_text(
                    t.identities@[matched@[q] as int],
                ) == identity_of(monitors@[q]),
            forall|q: int, a: int|
                0 <= q < i && 0 <= a < t.endpoints@.len() && opt_text(#[trigger] t.identities@[a])
                    == identity_of(#[trigger] monitors@[q]) ==> a == matched@[q],
            forall|q: int, p: int|
                0 <= q < p < i ==> identity_of(#[trigger] monitors@[q]) != identity_of(
                    #[trigger] monitors@[p],
                ),
            forall|q: int| 0 <= q < i ==> #[trigger] record_ok(*saved, *t, q),
        decreases n - i,
    {
        let monitor = match saved_monitor(saved, i) {
            Ok(m) => m,
            Err(e) => {
                proof {
                    if e is Remap {
                        assert(target_count_error(*saved, *t, i as int, e->Remap_0@));
                    }
                    if targets_owed(*saved, *t) {
                        assert(saved_identity(*saved, i as int) is Some);
                    }
                    assert(!record_ok(*saved, *t, i as int));
                    assert(record_refusal(*saved, *t, i as int, e));
                    assert forall|i2: int|
                        0 <= i2 < saved.paths@.len() && (forall|q: int| 0 <= q < i2 ==> #[trigger] record_ok(*saved, *t, q))
                            && !#[trigger] record_ok(*saved, *t, i2) implies record_refusal(*saved, *t, i2, e) by {
                        if i2 < i {
                            assert(record_ok(*saved, *t, i2));
                        } else if i2 > i {
                            assert(record_ok(*saved, *t, i as int));
                        }
                    }
                }
                return Err(e);
            },
        };
        let key = identity_text(&monitor);
        let mut j: usize = 0;
        while j < i
            invariant
                i == keys@.len(),
                j <= i,
                forall|q: int| 0 <= q < j ==> keys@[q]@ != key@,
            decreases i - j,
        {
            if str_eq(keys[j].as_str(), key.as_str()) {
                let e = invalid(monitor_message("multiple saved targets claim device path ", &monitor, ""));
                proof {
                    assert(saved_monitor_of(*saved, j as int) == Some(monitors@[j as int]));
                    assert(identity_of(monitors@[j as int]) == Some(keys@[j as int]@));
                    assert(saved_identity(*saved, j as int) == Some(keys@[j as int]@));
                    assert(saved_identity(*saved, i as int) == Some(key@));
                    assert(saved_identity(*saved, j as int) == saved_identity(*saved, i as int));
                    assert(!record_ok(*saved, *t, i as int));
                    assert(record_refusal(*saved, *t, i as int, e));
                    assert forall|i2: int|
                        0 <= i2 < saved.paths@.len() && (forall|q: int| 0 <= q < i2 ==> #[trigger] record_ok(*saved, *t, q))
                            && !#[trigger] record_ok(*saved, *t, i2) implies record_refusal(*saved, *t, i2, e) by {
                        if i2 < i {
                            assert(record_ok(*saved, *t, i2));
                        } else if i2 > i {
                            assert(record_ok(*saved, *t, i as int));
                        }
                    }
                }
                return Err(e);
            }
            j = j + 1;
        }
        proof {
            assert(!saved_conflict(*saved, i as int));
            assert(saved_monitor_of(*saved, i as int) == Some(monitor));
            assert(saved_identity(*saved, i as int) == Some(key@));
            assert forall|q: int| 0 <= q < i implies #[trigger] saved_identity(*saved, q) != saved_identity(*saved, i as int) by {
                assert(saved_monitor_of(*saved, q) == Some(monitors@[q]));
                assert(identity_of(monitors@[q]) == Some(keys@[q]@));
                assert(keys@[q]@ != key@);
            }
        }
        let mut found: Option<usize> = None;
        let mut a: usize = 0;
        while a < t.identities.len()
            invariant
                t.identities@.len() == t.endpoints@.len(),
                a <= t.identities@.len(),
                match found {
                    Some(f) => f < a && opt_text(t.identities@[f as int]) == Some(key@) && forall|
                        b: int,
                    |
                        0 <= b < a && opt_text(#[trigger] t.identities@[b]) == Some(key@) ==> b
                            == f,
                    None => forall|b: int|
                        0 <= b < a ==> opt_text(#[trigger] t.identities@[b]) != Some(key@),
                },
            decreases t.identities.len() - a,
        {
            let hit = match &t.identities[a] {
                Some(s) => str_eq(s.as_str(), key.as_str()),
                None => false,
            };
            if hit {
                if found.is_some() {
                    proof {
                        assert(!saved_conflict(*saved, i as int));
                        assert(saved_monitor_of(*saved, i as int) == Some(monitor));
                        let f = found->0 as int;
                        assert(opt_text(t.identities@[f]) == Some(key@));
                        assert(opt_text(t.identities@[a as int]) == Some(key@));
                    }
                    let msg = monitor_message(
                        "monitor device path ",
                        &monitor,
                        " identifies multiple live targets; reconnect/refresh displays and recapture if the ambiguity persists",
                    );
                    proof {
                        assert(target_count_error(*saved, *t, i as int, msg@));
                        if targets_owed(*saved, *t) {
                            let f = found->0 as int;
                            assert(saved_identity(*saved, i as int) == Some(key@));
                            assert(opt_text(t.identities@[f]) == saved_identity(*saved, i as int));
                            assert(opt_text(t.identities@[a as int]) == saved_identity(*saved, i as int));
                        }
                    }
                    let out: Result<(Vec<MonitorInfo>, Vec<usize>), CcdError> = Err(CcdError::Remap(msg));
                    proof {
                        assert(!record_ok(*saved, *t, i as int));
                        assert(record_refusal(*saved, *t, i as int, out->Err_0));
                        assert forall|i2: int|
                            0 <= i2 < saved.paths@.len() && (forall|q: int| 0 <= q < i2 ==> #[trigger] record_ok(*saved, *t, q))
                                && !#[trigger] record_ok(*saved, *t, i2) implies record_refusal(*saved, *t, i2, out->Err_0) by {
                            if i2 < i {
                                assert(record_ok(*saved, *t, i2));
                            } else if i2 > i {
                                assert(record_ok(*saved, *t, i as int));
                            }
                        }
                    }
                    proof {
                        assert(out matches Err(CcdError::Remap(text)) && target_count_error(*saved, *t, i as int, text@));
                    }
                    return out;
                }
                found = Some(a);
            }
            a = a + 1;
        }
        let index = match found {
            Some(f) => f,
            None => {
                proof {
                    assert(!saved_conflict(*saved, i as int));
                    assert(saved_monitor_of(*saved, i as int) == Some(monitor));
                    assert forall|b: int| 0 <= b < t.identities@.len() implies opt_text(#[trigger] t.identities@[b]) != Some(key@) by {}
                }
                let msg = monitor_message(
                    "monitor ",
                    &monitor,
                    " is missing or its device path could not be read; reconnect it and retry, or recapture if the port/dock/driver changed its identity",
                );
                proof {
                    assert(target_count_error(*saved, *t, i as int, msg@));
                    if targets_owed(*saved, *t) {
                        assert(saved_identity(*saved, i as int) == Some(key@));
                        let b = choose|b: int|
                            0 <= b < t.identities@.len() && opt_text(#[trigger] t.identities@[b]) == saved_identity(*saved, i as int);
                        assert(opt_text(t.identities@[b]) != Some(key@));
                    }
                }
                let out: Result<(Vec<MonitorInfo>, Vec<usize>), CcdError> = Err(CcdError::Remap(msg));
                proof {
                    assert(!record_ok(*saved, *t, i as int));
                    assert(record_refusal(*saved, *t, i as int, out->Err_0));
                    assert forall|i2: int|
                        0 <= i2 < saved.paths@.len() && (forall|q: int| 0 <= q < i2 ==> #[trigger] record_ok(*saved, *t, q))
                            && !#[trigger] record_ok(*saved, *t, i2) implies record_refusal(*saved, *t, i2, out->Err_0) by {
                        if i2 < i {
                            assert(record_ok(*saved, *t, i2));
                        } else if i2 > i {
                            assert(record_ok(*saved, *t, i as int));
                        }
                    }
                }
                proof {
                    assert(out matches Err(CcdError::Remap(text)) && target_count_error(*saved, *t, i as int, text@));
                }
                return out;
            },
        };
        let ghost prev = monitors@;
        proof {
            assert(!saved_conflict(*saved, i as int));
            assert(saved_monitor_of(*saved, i as int) == Some(monitor));
        }
        monitors.push(monitor);
        keys.push(key);
        matched.push(index);
        proof {
            lemma_saved_prefix_extend(*saved, prev, monitors@);
            assert(opt_text(t.identities@[index as int]) == saved_identity(*saved, i as int));
            assert forall|q: int| 0 <= q < i + 1 implies #[trigger] record_ok(*saved, *t, q) by {
                if q == i {
                    assert(opt_text(t.identities@[index as int]) == saved_identity(*saved, q));
                }
            }
        }
        i = i + 1;
    }
    proof {
        assert forall|q: int| 0 <= q < n implies #[trigger] matched@[q] < t.endpoints@.len()
            && opt_text(t.identities@[matched@[q] as int]) == identity_of(monitors@[q])
            && identity_of(monitors@[q]) is Some by {
            assert(identity_of(monitors@[q]) == Some(keys@[q]@));
        }
    }
    Ok((monitors, matched))
}

/// A copy of a list of endpoints.
fn copy_endpoints(v: &Vec<Endpoint>) -> (r: Vec<Endpoint>)
    ensures
        r@ == v@,
{
    let mut r: Vec<Endpoint> = Vec::new();
    let mut i: usize = 0;
    while i < v.len()
        invariant
            i <= v@.len(),
            r@ == v@.subrange(0, i as int),
        decreases v.len() - i,
    {
        r.push(v[i]);
        proof {
            assert(v@.subrange(0, i + 1) == v@.subrange(0, i as int).push(v@[i as int]));
        }
        i = i + 1;
    }
    proof {
        assert(v@.subrange(0, v@.len() as int) == v@);
    }
    r
}

/// The entries of `v`, in order, that `keep` says to keep.
fn retain_in(v: &Vec<Endpoint>, other: &Vec<Endpoint>, inside: bool) -> (r: Vec<Endpoint>)
    ensures
        forall|x: Endpoint| #[trigger] r@.contains(x) <==> (v@.contains(x) && other@.contains(x) == inside),
        r@.len() <= v@.len(),
        v@.no_duplicates() ==> r@.no_duplicates(),
{
    let mut r: Vec<Endpoint> = Vec::new();
    let mut i: usize = 0;
    while i < v.len()
        invariant
            i <= v@.len(),
            r@.len() <= i,
            v@.no_duplicates() ==> r@.no_duplicates(),
            forall|x: Endpoint| #[trigger] r@.contains(x) <==> (exists|j: int| 0 <= j < i && v@[j] == x)
                && other@.contains(x) == inside,
        decreases v.len() - i,
    {
        let e = v[i];
        let ghost before = r@;
        if contains_endpoint(other, e) == inside {
            proof {
                if v@.no_duplicates() && before.contains(e) {
                    let k = choose|k: int| 0 <= k < before.len() && before[k] == e;
                    assert(before.contains(before[k]));
                    let j = choose|j: int| 0 <= j < i && v@[j] == before[k];
                    assert(v@[j] == v@[i as int]);
                }
            }
            r.push(e);
            proof {
                if v@.no_duplicates() {
                    assert(!before.contains(e));
                    assert forall|a: int, b: int| 0 <= a < r@.len() && 0 <= b < r@.len() && a != b implies r@[a]
                        != r@[b] by {
                        if a == before.len() {
                            assert(r@[b] == before[b]);
                            assert(before[b] != e);
                        } else if b == before.len() {
                            assert(r@[a] == before[a]);
                            assert(before[a] != e);
                        } else {
                            assert(r@[a] == before[a]);
                            assert(r@[b] == before[b]);
                        }
                    }
                }
                assert forall|x: Endpoint| #[trigger] r@.contains(x) <==> (exists|j: int|
                    0 <= j < i + 1 && v@[j] == x) && other@.contains(x) == inside by {
                    if r@.contains(x) {
                        let k = choose|k: int| 0 <= k < r@.len() && r@[k] == x;
                        if k < before.len() {
                            assert(before[k] == x);
                            assert(before.contains(x));
                        }
                    }
                    if (exists|j: int| 0 <= j < i + 1 && v@[j] == x) && other@.contains(x) == inside {
                        if x == e {
                            assert(r@[before.len() as int] == x);
                        } else {
                            let j = choose|j: int| 0 <= j < i + 1 && v@[j] == x;
                            assert(before.contains(x));
                            let k = choose|k: int| 0 <= k < before.len() && before[k] == x;
                            assert(r@[k] == x);
                        }
                    }
                }
            }
        } else {
            proof {
                assert forall|x: Endpoint| #[trigger] r@.contains(x) <==> (exists|j: int|
                    0 <= j < i + 1 && v@[j] == x) && other@.contains(x) == inside by {
                    if (exists|j: int| 0 <= j < i + 1 && v@[j] == x) && other@.contains(x) == inside {
                        let j = choose|j: int| 0 <= j < i + 1 && v@[j] == x;
                        assert(j < i);
                    }
                }
            }
        }
        i = i + 1;
    }
    proof {
        assert forall|x: Endpoint| #[trigger] r@.contains(x) <==> (v@.contains(x) && other@.contains(x) == inside) by {
            if v@.contains(x) {
                let j = choose|j: int| 0 <= j < v@.len() && v@[j] == x;
            }
        }
    }
    r
}

/// The text of a source-routing failure at saved path `path` (0-based).
pub open spec fn routing_text(path: int, reason: Seq<char>) -> Seq<char> {
    "source routing for saved path "@ + decimal((path + 1) as nat) + " "@ + reason
        + "; enable and arrange the intended displays in Windows, then retry or recapture the profile"@
}

fn routing_error(path: usize, reason: &str) -> (r: CcdError)
    requires
        path < usize::MAX,
    ensures
        r matches CcdError::Remap(m) && m@ == routing_text(path as int, reason@),
{
    assert(usize::MAX <= u64::MAX);
    let mut s = String::from_str("source routing for saved path ");
    push_decimal(&mut s, path as u64 + 1);
    s.append(" ");
    s.append(reason);
    s.append(
        "; enable and arrange the intended displays in Windows, then retry or recapture the profile",
    );
    CcdError::Remap(s)
}

/// The number of groups still without a source.
pub open spec fn count_none(s: Seq<Option<Endpoint>>) -> nat
    decreases s.len(),
{
    if s.len() == 0 {
        0
    } else {
        count_none(s.drop_last()) + if s.last() is None {
            1nat
        } else {
            0nat
        }
    }
}

proof fn lemma_count_none_assign(s: Seq<Option<Endpoint>>, g: int, e: Endpoint)
    requires
        0 <= g < s.len(),
        s[g] is None,
    ensures
        count_none(s.update(g, Some(e))) + 1 == count_none(s),
    decreases s.len(),
{
    let u = s.update(g, Some(e));
    if g == s.len() - 1 {
        assert(u.drop_last() == s.drop_last());
    } else {
        assert(u.drop_last() == s.drop_last().update(g, Some(e)));
        lemma_count_none_assign(s.drop_last(), g, e);
    }
}

/// Every candidate of a group can drive the target of each of its paths.
pub open spec fn candidates_ok(
    cands: Seq<Vec<Endpoint>>,
    group_of: Seq<usize>,
    t: LiveTargets,
    matched: Seq<usize>,
) -> bool {
    forall|g: int, c: Endpoint, q: int|
        0 <= g < cands.len() && 0 <= q < group_of.len() && group_of[q] == g
            && #[trigger] cands[g]@.contains(c) ==> #[trigger] t.sources@[matched[q] as int]@.contains(c)
}

/// The clone groups of a saved layout: paths sharing one original source.
pub struct SourceGroups {
    pub originals: Vec<Endpoint>,
    pub first: Vec<usize>,
    pub candidates: Vec<Vec<Endpoint>>,
    pub group_of: Vec<usize>,
}

/// `groups` partitions the paths by original source; each group records its
/// first path.
pub open spec fn groups_ok(groups: SourceGroups, paths: Seq<PathInfo>, n: int) -> bool {
    let count = groups.originals@.len();
    &&& groups.first@.len() == count
    &&& groups.candidates@.len() == count
    &&& groups.group_of@.len() == n
    &&& n <= paths.len()
    &&& forall|a: int, b: int|
        0 <= a < b < count ==> #[trigger] groups.originals@[a] != #[trigger] groups.originals@[b]
    &&& forall|q: int|
        0 <= q < n ==> #[trigger] groups.group_of@[q] < count && groups.originals@[groups.group_of@[q] as int]
            == source_of(paths[q])
    &&& forall|g: int|
        0 <= g < count ==> #[trigger] groups.first@[g] < n && groups.group_of@[groups.first@[g] as int] == g
}

/// Live source `c` can drive the target of every one of the first `n` paths
/// of group `g`.
pub open spec fn common_source(
    t: LiveTargets,
    matched: Seq<usize>,
    group_of: Seq<usize>,
    g: int,
    c: Endpoint,
    n: int,
) -> bool {
    forall|p: int| 0 <= p < n && group_of[p] == g ==> #[trigger] t.sources@[matched[p] as int]@.contains(c)
}

/// Group the saved paths by original source; a group's candidates are the
/// live sources that can drive every one of its targets.
#[verifier::loop_isolation(false)]
fn group_paths(saved: &DisplayConfig, t: &LiveTargets, matched: &Vec<usize>) -> (r: SourceGroups)
    requires
        matched@.len() == saved.paths@.len(),
        forall|q: int| 0 <= q < matched@.len() ==> #[trigger] matched@[q] < t.endpoints@.len(),
        t.sources@.len() == t.endpoints@.len(),
        forall|a: int| 0 <= a < t.sources@.len() ==> (#[trigger] t.sources@[a])@.no_duplicates(),
    ensures
        groups_ok(r, saved.paths@, saved.paths@.len() as int),
        candidates_ok(r.candidates@, r.group_of@, *t, matched@),
        forall|g: int, c: Endpoint|
            0 <= g < r.candidates@.len() && common_source(*t, matched@, r.group_of@, g, c, saved.paths@.len() as int)
                ==> #[trigger] r.candidates@[g]@.contains(c),
        forall|g: int| 0 <= g < r.candidates@.len() ==> (#[trigger] r.candidates@[g])@.no_duplicates(),
{
    let n = saved.paths.len();
    let mut groups = SourceGroups {
        originals: Vec::new(),
        first: Vec::new(),
        candidates: Vec::new(),
        group_of: Vec::new(),
    };
    let mut i: usize = 0;
    while i < n
        invariant
            0 <= i <= n,
            groups_ok(groups, saved.paths@, i as int),
            candidates_ok(groups.candidates@, groups.group_of@, *t, matched@),
            forall|g: int, c: Endpoint|
                0 <= g < groups.candidates@.len() && common_source(*t, matched@, groups.group_of@, g, c, i as int)
                    ==> #[trigger] groups.candidates@[g]@.contains(c),
            forall|g: int| 0 <= g < groups.candidates@.len() ==> (#[trigger] groups.candidates@[g])@.no_duplicates(),
        decreases n - i,
    {
        let src = source(&saved.paths[i]);
        let mut g: usize = 0;
        while g < groups.originals.len() && groups.originals[g] != src
            invariant
                g <= groups.originals@.len(),
                forall|a: int| 0 <= a < g ==> groups.originals@[a] != src,
            decreases groups.originals.len() - g,
        {
            g = g + 1;
        }
        let ghost before = groups;
        if g == groups.originals.len() {
            let fresh = copy_endpoints(&t.sources[matched[i]]);
            groups.originals.push(src);
            groups.first.push(i);
            groups.candidates.push(fresh);
            groups.group_of.push(g);
            proof {
                assert forall|g2: int| 0 <= g2 < groups.candidates@.len() implies (#[trigger] groups.candidates@[g2])@.no_duplicates() by {
                    if g2 < before.candidates@.len() {
                        assert(groups.candidates@[g2] == before.candidates@[g2]);
                    } else {
                        assert(t.sources@[matched@[i as int] as int]@.no_duplicates());
                    }
                }
                assert forall|g2: int, c: Endpoint|
                    0 <= g2 < groups.candidates@.len() && common_source(*t, matched@, groups.group_of@, g2, c, i + 1)
                        implies #[trigger] groups.candidates@[g2]@.contains(c) by {
                    assert(groups.group_of@[i as int] == g);
                    if g2 == g {
                        assert(t.sources@[matched@[i as int] as int]@.contains(c));
                    } else {
                        assert forall|p: int| 0 <= p < i && before.group_of@[p] == g2
                            implies #[trigger] t.sources@[matched@[p] as int]@.contains(c) by {
                            assert(groups.group_of@[p] == before.group_of@[p]);
                        }
                        assert(common_source(*t, matched@, before.group_of@, g2, c, i as int));
                        assert(groups.candidates@[g2] == before.candidates@[g2]);
                    }
                }
                assert forall|a: int, b: int|
                    0 <= a < b < groups.originals@.len() implies #[trigger] groups.originals@[a]
                    != #[trigger] groups.originals@[b] by {
                    if b < g {
                        assert(before.originals@[a] != before.originals@[b]);
                    }
                }
                assert forall|q: int| 0 <= q < i + 1 implies #[trigger] groups.group_of@[q]
                    < groups.originals@.len() && groups.originals@[groups.group_of@[q] as int]
                    == source_of(saved.paths@[q]) by {
                    if q < i {
                        assert(groups.group_of@[q] == before.group_of@[q]);
                    }
                }
                assert forall|g2: int| 0 <= g2 < groups.originals@.len() implies #[trigger] groups.first@[g2]
                    < i + 1 && groups.group_of@[groups.first@[g2] as int] == g2 by {
                    if g2 < g {
                        assert(groups.first@[g2] == before.first@[g2]);
                    }
                }
                assert forall|g2: int, c: Endpoint, q: int|
                    0 <= g2 < groups.candidates@.len() && 0 <= q < groups.group_of@.len()
                        && groups.group_of@[q] == g2 && #[trigger] groups.candidates@[g2]@.contains(
                        c,
                    ) implies #[trigger] t.sources@[matched@[q] as int]@.contains(c) by {
                    if q < i {
                        assert(groups.group_of@[q] == before.group_of@[q]);
                        if g2 < g {
                            assert(groups.candidates@[g2] == before.candidates@[g2]);
                        } else {
                            assert(before.group_of@[q] < before.originals@.len());
                        }
                    }
                }
            }
        } else {
            let kept = retain_in(&groups.candidates[g], &t.sources[matched[i]], true);
            groups.candidates.set(g, kept);
            groups.group_of.push(g);
            proof {
                assert forall|g2: int| 0 <= g2 < groups.candidates@.len() implies (#[trigger] groups.candidates@[g2])@.no_duplicates() by {
                    if g2 != g {
                        assert(groups.candidates@[g2] == before.candidates@[g2]);
                    }
                }
                assert forall|g2: int, c: Endpoint|
                    0 <= g2 < groups.candidates@.len() && common_source(*t, matched@, groups.group_of@, g2, c, i + 1)
                        implies #[trigger] groups.candidates@[g2]@.contains(c) by {
                    assert(groups.group_of@[i as int] == g);
                    assert forall|p: int| 0 <= p < i && before.group_of@[p] == g2
                        implies #[trigger] t.sources@[matched@[p] as int]@.contains(c) by {
                        assert(groups.group_of@[p] == before.group_of@[p]);
                    }
                    assert(common_source(*t, matched@, before.group_of@, g2, c, i as int));
                    if g2 == g {
                        assert(t.sources@[matched@[i as int] as int]@.contains(c));
                        assert(before.candidates@[g2]@.contains(c));
                    } else {
                        assert(groups.candidates@[g2] == before.candidates@[g2]);
                    }
                }
                assert forall|q: int| 0 <= q < i + 1 implies #[trigger] groups.group_of@[q]
                    < groups.originals@.len() && groups.originals@[groups.group_of@[q] as int]
                    == source_of(saved.paths@[q]) by {
                    if q < i {
                        assert(groups.group_of@[q] == before.group_of@[q]);
                    }
                }
                assert forall|g2: int| 0 <= g2 < groups.originals@.len() implies #[trigger] groups.first@[g2]
                    < i + 1 && groups.group_of@[groups.first@[g2] as int] == g2 by {
                    assert(groups.group_of@[before.first@[g2] as int] == before.group_of@[before.first@[g2] as int]);
                }
                assert forall|g2: int, c: Endpoint, q: int|
                    0 <= g2 < groups.candidates@.len() && 0 <= q < groups.group_of@.len()
                        && groups.group_of@[q] == g2 && #[trigger] groups.candidates@[g2]@.contains(
                        c,
                    ) implies #[trigger] t.sources@[matched@[q] as int]@.contains(c) by {
                    if g2 == g {
                        assert(before.candidates@[g2]@.contains(c));
                        if q < i {
                            assert(groups.group_of@[q] == before.group_of@[q]);
                        }
                    } else {
                        assert(groups.candidates@[g2] == before.candidates@[g2]);
                        if q < i {
                            assert(groups.group_of@[q] == before.group_of@[q]);
                        }
                    }
                }
            }
        }
        i = i + 1;
    }
    groups
}

/// Live endpoint `e` currently drives the target of one of the first `n`
/// paths of group `g`.
pub open spec fn drives_group(
    t: LiveTargets,
    matched: Seq<usize>,
    group_of: Seq<usize>,
    g: int,
    e: Endpoint,
    n: int,
) -> bool {
    exists|q: int|
        0 <= q < n && group_of[q] == g && #[trigger] t.active@[matched[q] as int]@.contains(e)
}

/// `e` is the one candidate of `cands` that currently drives a target of group `g`.
pub open spec fn sole_driver(
    cands: Seq<Endpoint>,
    t: LiveTargets,
    matched: Seq<usize>,
    group_of: Seq<usize>,
    g: int,
    e: Endpoint,
) -> bool {
    &&& cands.contains(e)
    &&& drives_group(t, matched, group_of, g, e, group_of.len() as int)
    &&& forall|x: Endpoint|
        #[trigger] cands.contains(x) && drives_group(t, matched, group_of, g, x, group_of.len() as int)
            ==> x == e
}

/// The candidates `after` of group `g` after narrowing `cands`: the original
/// source alone when it is still a candidate, else the sole candidate that
/// currently drives one of the group's targets, else `cands` unchanged.
pub open spec fn narrowed(
    cands: Seq<Endpoint>,
    original: Endpoint,
    t: LiveTargets,
    matched: Seq<usize>,
    group_of: Seq<usize>,
    g: int,
    after: Seq<Endpoint>,
) -> bool {
    if cands.contains(original) {
        after == seq![original]
    } else if exists|e: Endpoint| sole_driver(cands, t, matched, group_of, g, e) {
        after.len() == 1 && sole_driver(cands, t, matched, group_of, g, after[0])
    } else {
        after == cands
    }
}

proof fn lemma_drives_step(
    t: LiveTargets,
    matched: Seq<usize>,
    group_of: Seq<usize>,
    g: int,
    e: Endpoint,
    q: int,
)
    requires
        0 <= q < group_of.len(),
    ensures
        drives_group(t, matched, group_of, g, e, q + 1) <==> (drives_group(t, matched, group_of, g, e, q)
            || (group_of[q] == g && t.active@[matched[q] as int]@.contains(e))),
{
    if drives_group(t, matched, group_of, g, e, q + 1) {
        let w = choose|w: int|
            0 <= w < q + 1 && group_of[w] == g && #[trigger] t.active@[matched[w] as int]@.contains(e);
        if w < q {
            assert(drives_group(t, matched, group_of, g, e, q));
        }
    }
    if drives_group(t, matched, group_of, g, e, q) {
        let w = choose|w: int|
            0 <= w < q && group_of[w] == g && #[trigger] t.active@[matched[w] as int]@.contains(e);
        assert(0 <= w < q + 1 && group_of[w] == g && t.active@[matched[w] as int]@.contains(e));
    }
}

/// Narrow each group's candidates: its original source when still possible,
/// else the one candidate that currently drives one of its targets, if only
/// one does.
#[verifier::loop_isolation(false)]
fn narrow_candidates(groups: &mut SourceGroups, t: &LiveTargets, matched: &Vec<usize>, n: usize)
    requires
        old(groups).candidates@.len() == old(groups).originals@.len(),
        old(groups).group_of@.len() == n,
        matched@.len() == n,
        forall|q: int| 0 <= q < n ==> #[trigger] matched@[q] < t.endpoints@.len(),
        t.active@.len() == t.endpoints@.len(),
        candidates_ok(old(groups).candidates@, old(groups).group_of@, *t, matched@),
    ensures
        final(groups).originals@ == old(groups).originals@,
        final(groups).first@ == old(groups).first@,
        final(groups).group_of@ == old(groups).group_of@,
        final(groups).candidates@.len() == old(groups).candidates@.len(),
        candidates_ok(final(groups).candidates@, final(groups).group_of@, *t, matched@),
        forall|g: int|
            0 <= g < old(groups).candidates@.len() ==> narrowed(
                old(groups).candidates@[g]@,
                old(groups).originals@[g],
                *t,
                matched@,
                old(groups).group_of@,
                g,
                #[trigger] final(groups).candidates@[g]@,
            ),
{
    let count = groups.originals.len();
    let ghost initial = groups.candidates@;
    let mut g: usize = 0;
    while g < count
        invariant
            g <= count,
            count == groups.originals@.len(),
            groups.candidates@.len() == count,
            initial == old(groups).candidates@,
            groups.originals@ == old(groups).originals@,
            groups.first@ == old(groups).first@,
            groups.group_of@ == old(groups).group_of@,
            candidates_ok(groups.candidates@, groups.group_of@, *t, matched@),
            forall|g2: int|
                0 <= g2 < g ==> narrowed(
                    initial[g2]@,
                    groups.originals@[g2],
                    *t,
                    matched@,
                    groups.group_of@,
                    g2,
                    #[trigger] groups.candidates@[g2]@,
                ),
            forall|g2: int| g <= g2 < count ==> #[trigger] groups.candidates@[g2] == initial[g2],
        decreases count - g,
    {
        let original = groups.originals[g];
        let ghost before = groups.candidates@;
        assert(before[g as int] == initial[g as int]);
        if contains_endpoint(&groups.candidates[g], original) {
            let mut only: Vec<Endpoint> = Vec::new();
            only.push(original);
            groups.candidates.set(g, only);
            proof {
                assert forall|g2: int, c: Endpoint, q: int|
                    0 <= g2 < groups.candidates@.len() && 0 <= q < groups.group_of@.len()
                        && groups.group_of@[q] == g2 && #[trigger] groups.candidates@[g2]@.contains(
                        c,
                    ) implies #[trigger] t.sources@[matched@[q] as int]@.contains(c) by {
                    if g2 == g {
                        assert(groups.candidates@[g2]@[0] == original);
                        assert(c == original);
                        assert(before[g2]@.contains(original));
                    } else {
                        assert(groups.candidates@[g2] == before[g2]);
                    }
                }
                assert(groups.candidates@[g as int]@ == seq![original]);
                assert forall|g2: int| 0 <= g2 < g + 1 implies narrowed(
                    initial[g2]@,
                    groups.originals@[g2],
                    *t,
                    matched@,
                    groups.group_of@,
                    g2,
                    #[trigger] groups.candidates@[g2]@,
                ) by {
                    if g2 < g {
                        assert(groups.candidates@[g2] == before[g2]);
                    }
                }
                assert forall|g2: int| g + 1 <= g2 < count implies #[trigger] groups.candidates@[g2]
                    == initial[g2] by {
                    assert(groups.candidates@[g2] == before[g2]);
                }
            }
        } else {
            let ghost cands = before[g as int]@;
            let mut active: Vec<Endpoint> = Vec::new();
            let mut q: usize = 0;
            while q < n
                invariant
                    q <= n,
                    groups.candidates@ == before,
                    forall|i: int, j: int| 0 <= i < j < active@.len() ==> #[trigger] active@[i] != #[trigger] active@[j],
                    forall|x: Endpoint| #[trigger] active@.contains(x) <==> (cands.contains(x)
                        && drives_group(*t, matched@, groups.group_of@, g as int, x, q as int)),
                decreases n - q,
            {
                let ghost at_q = active@;
                if groups.group_of[q] == g {
                    let a = matched[q];
                    let mut k: usize = 0;
                    while k < t.active[a].len()
                        invariant
                            k <= t.active@[a as int]@.len(),
                            groups.candidates@ == before,
                            forall|i: int, j: int| 0 <= i < j < active@.len() ==> #[trigger] active@[i] != #[trigger] active@[j],
                            forall|x: Endpoint| #[trigger] active@.contains(x) <==> (cands.contains(x)
                                && (at_q.contains(x) || exists|j: int| 0 <= j < k && t.active@[a as int]@[j] == x)),
                        decreases t.active@[a as int]@.len() - k,
                    {
                        let e = t.active[a][k];
                        let ghost prev = active@;
                        if contains_endpoint(&groups.candidates[g], e) && !contains_endpoint(&active, e) {
                            active.push(e);
                            proof {
                                assert(active@.last() == e);
                                assert forall|x: Endpoint| #[trigger] active@.contains(x) implies prev.contains(x) || x == e by {
                                    let j = choose|j: int| 0 <= j < active@.len() && active@[j] == x;
                                    if j < prev.len() {
                                        assert(prev[j] == x);
                                    }
                                }
                                assert forall|x: Endpoint| prev.contains(x) implies #[trigger] active@.contains(x) by {
                                    let j = choose|j: int| 0 <= j < prev.len() && prev[j] == x;
                                    assert(active@[j] == x);
                                }
                                assert(active@[prev.len() as int] == e);
                            }
                        }
                        proof {
                            assert forall|x: Endpoint| #[trigger] active@.contains(x) <==> (cands.contains(x)
                                && (at_q.contains(x) || exists|j: int| 0 <= j < k + 1 && t.active@[a as int]@[j] == x)) by {
                                if exists|j: int| 0 <= j < k + 1 && t.active@[a as int]@[j] == x {
                                    let j = choose|j: int| 0 <= j < k + 1 && t.active@[a as int]@[j] == x;
                                    if j < k {
                                        assert(exists|j: int| 0 <= j < k && t.active@[a as int]@[j] == x);
                                    }
                                }
                                if exists|j: int| 0 <= j < k && t.active@[a as int]@[j] == x {
                                    let j = choose|j: int| 0 <= j < k && t.active@[a as int]@[j] == x;
                                    assert(0 <= j < k + 1 && t.active@[a as int]@[j] == x);
                                }
                            }
                        }
                        k = k + 1;
                    }
                    proof {
                        assert forall|x: Endpoint| #[trigger] active@.contains(x) <==> (cands.contains(x)
                            && drives_group(*t, matched@, groups.group_of@, g as int, x, q + 1)) by {
                            lemma_drives_step(*t, matched@, groups.group_of@, g as int, x, q as int);
                            if t.active@[a as int]@.contains(x) {
                                let j = choose|j: int| 0 <= j < t.active@[a as int]@.len() && t.active@[a as int]@[j] == x;
                                assert(exists|j: int| 0 <= j < k && t.active@[a as int]@[j] == x);
                            }
                            if exists|j: int| 0 <= j < k && t.active@[a as int]@[j] == x {
                                let j = choose|j: int| 0 <= j < k && t.active@[a as int]@[j] == x;
                                assert(t.active@[a as int]@.contains(x));
                            }
                        }
                    }
                } else {
                    proof {
                        assert forall|x: Endpoint| #[trigger] active@.contains(x) <==> (cands.contains(x)
                            && drives_group(*t, matched@, groups.group_of@, g as int, x, q + 1)) by {
                            lemma_drives_step(*t, matched@, groups.group_of@, g as int, x, q as int);
                        }
                    }
                }
                q = q + 1;
            }
            proof {
                assert(groups.group_of@.len() == n);
            }
            if active.len() == 1 {
                groups.candidates.set(g, active);
                proof {
                    assert forall|g2: int, c: Endpoint, q2: int|
                        0 <= g2 < groups.candidates@.len() && 0 <= q2 < groups.group_of@.len()
                            && groups.group_of@[q2] == g2 && #[trigger] groups.candidates@[g2]@.contains(
                            c,
                        ) implies #[trigger] t.sources@[matched@[q2] as int]@.contains(c) by {
                        if g2 == g {
                            assert(before[g2]@.contains(c));
                        } else {
                            assert(groups.candidates@[g2] == before[g2]);
                        }
                    }
                    let e = active@[0];
                    assert(active@.contains(e));
                    assert forall|x: Endpoint|
                        #[trigger] cands.contains(x) && drives_group(*t, matched@, groups.group_of@, g as int, x, groups.group_of@.len() as int)
                            implies x == e by {
                        assert(active@.contains(x));
                    }
                    assert(sole_driver(cands, *t, matched@, groups.group_of@, g as int, e));
                }
            } else {
                proof {
                    if exists|e: Endpoint| sole_driver(cands, *t, matched@, groups.group_of@, g as int, e) {
                        let e = choose|e: Endpoint| sole_driver(cands, *t, matched@, groups.group_of@, g as int, e);
                        assert(active@.contains(e));
                        if active@.len() >= 2 {
                            assert(active@.contains(active@[0]));
                            assert(active@.contains(active@[1]));
                            assert(active@[0] != active@[1]);
                        }
                    }
                }
            }
            proof {
                assert forall|g2: int| 0 <= g2 < g + 1 implies narrowed(
                    initial[g2]@,
                    groups.originals@[g2],
                    *t,
                    matched@,
                    groups.group_of@,
                    g2,
                    #[trigger] groups.candidates@[g2]@,
                ) by {
                    if g2 < g {
                        assert(groups.candidates@[g2] == before[g2]);
                    }
                }
                assert forall|g2: int| g + 1 <= g2 < count implies #[trigger] groups.candidates@[g2]
                    == initial[g2] by {
                    assert(groups.candidates@[g2] == before[g2]);
                }
            }
        }
        g = g + 1;
    }
}

/// Assigned groups' sources can drive all their targets, no two groups share
/// a source, and every assigned source is marked used.
pub open spec fn assignment_ok(
    assigned: Seq<Option<Endpoint>>,
    used: Seq<Endpoint>,
    group_of: Seq<usize>,
    t: LiveTargets,
    matched: Seq<usize>,
) -> bool {
    &&& forall|g: int, q: int|
        0 <= g < assigned.len() && 0 <= q < group_of.len() && #[trigger] group_of[q] == g
            && (#[trigger] assigned[g]) is Some ==> t.sources@[matched[q] as int]@.contains(
            assigned[g]->0,
        )
    &&& forall|g1: int, g2: int|
        0 <= g1 < assigned.len() && 0 <= g2 < assigned.len() && g1 != g2 && (
        #[trigger] assigned[g1]) is Some && (#[trigger] assigned[g2]) is Some ==> assigned[g1]
            != assigned[g2]
    &&& forall|g: int|
        0 <= g < assigned.len() && (#[trigger] assigned[g]) is Some ==> used.contains(
            assigned[g]->0,
        )
}

/// The groups can be settled one after another: each group's candidates
/// are its own source `chosen[g]` and sources of groups of lower `rank`; no
/// two groups have the same source.
pub open spec fn peelable(cands: Seq<Vec<Endpoint>>, chosen: Seq<Endpoint>, rank: Seq<int>) -> bool {
    &&& chosen.len() == cands.len()
    &&& rank.len() == cands.len()
    &&& forall|g: int| 0 <= g < cands.len() ==> (#[trigger] cands[g])@.contains(chosen[g])
    &&& forall|g: int, x: Endpoint|
        0 <= g < cands.len() && #[trigger] cands[g]@.contains(x) ==> x == chosen[g] || exists|h: int|
            0 <= h < cands.len() && rank[h] < rank[g] && #[trigger] chosen[h] == x
    &&& forall|g: int, h: int|
        0 <= g < cands.len() && 0 <= h < cands.len() && g != h ==> #[trigger] chosen[g] != #[trigger] chosen[h]
}

/// Every group has a candidate, and no source is a candidate of two groups.
pub open spec fn kept_apart(cands: Seq<Vec<Endpoint>>) -> bool {
    &&& forall|g: int| 0 <= g < cands.len() ==> (#[trigger] cands[g])@.len() > 0
    &&& forall|g: int, h: int, x: Endpoint|
        0 <= g < cands.len() && 0 <= h < cands.len() && g != h && #[trigger] cands[g]@.contains(x)
            ==> !#[trigger] cands[h]@.contains(x)
}

/// Every group of lower rank than `g` has a source.
pub open spec fn lower_done(assigned: Seq<Option<Endpoint>>, rank: Seq<int>, g: int) -> bool {
    forall|h: int| 0 <= h < assigned.len() && rank[h] < rank[g] ==> (#[trigger] assigned[h]) is Some
}

/// The unassigned group of least rank, or -1 when every group has a source.
proof fn lemma_min_unassigned(assigned: Seq<Option<Endpoint>>, rank: Seq<int>, n: int) -> (m: int)
    requires
        0 <= n <= assigned.len(),
        rank.len() == assigned.len(),
    ensures
        m == -1 ==> forall|h: int| 0 <= h < n ==> (#[trigger] assigned[h]) is Some,
        m != -1 ==> 0 <= m < n && assigned[m] is None && forall|h: int|
            0 <= h < n && (#[trigger] assigned[h]) is None ==> rank[m] <= rank[h],
    decreases n,
{
    if n == 0 {
        -1
    } else {
        let p = lemma_min_unassigned(assigned, rank, n - 1);
        if assigned[n - 1] is None && (p == -1 || rank[n - 1] < rank[p]) {
            n - 1
        } else {
            p
        }
    }
}

/// A list without repeats whose elements all equal `a`, and which has `a`,
/// has `a` alone.
proof fn lemma_only_element(s: Seq<Endpoint>, a: Endpoint)
    requires
        s.no_duplicates(),
        s.contains(a),
        forall|i: int| 0 <= i < s.len() ==> #[trigger] s[i] == a,
    ensures
        s.len() == 1,
{
    if s.len() >= 2 {
        assert(s[0] == s[1]);
    }
}

/// Assign one source per group by singleton propagation: a group whose
/// remaining candidates (those no other group took) are exactly one takes it;
/// this repeats until nothing changes. Distinct saved desktops stay distinct,
/// without a general solver or an order-dependent "first source wins" choice.
#[verifier::loop_isolation(false)]
#[verifier::rlimit(50)]
fn assign_sources(
    saved: &DisplayConfig,
    groups: &mut SourceGroups,
    t: &LiveTargets,
    matched: &Vec<usize>,
) -> (r: Result<Vec<Endpoint>, CcdError>)
    requires
        saved.paths@.len() <= u32::MAX,
        groups_ok(*old(groups), saved.paths@, saved.paths@.len() as int),
        matched@.len() == saved.paths@.len(),
        forall|q: int| 0 <= q < matched@.len() ==> #[trigger] matched@[q] < t.endpoints@.len(),
        candidates_ok(old(groups).candidates@, old(groups).group_of@, *t, matched@),
        forall|g: int| 0 <= g < old(groups).candidates@.len() ==> (#[trigger] old(groups).candidates@[g])@.no_duplicates(),
    ensures
        final(groups).group_of@ == old(groups).group_of@,
        r is Err ==> r->Err_0 is Remap,
        r matches Err(CcdError::Remap(m)) ==> exists|p: int|
            0 <= p < saved.paths@.len() && #[trigger] routing_failure(m@, p),
        forall|chosen: Seq<Endpoint>, rank: Seq<int>| #[trigger] peelable(old(groups).candidates@, chosen, rank) ==> r is Ok,
        kept_apart(old(groups).candidates@) ==> (r matches Err(CcdError::Remap(m)) ==> exists|p: int|
            0 <= p < saved.paths@.len() && m@ == routing_text(p, "is ambiguous"@)),
        r matches Ok(src) ==> exists|chosen: Seq<Endpoint>, rank: Seq<int>|
            #[trigger] peelable(old(groups).candidates@, chosen, rank) && forall|q: int|
                0 <= q < saved.paths@.len() ==> src@[q] == chosen[old(groups).group_of@[q] as int],
        r matches Ok(src) ==> {
            &&& src@.len() == saved.paths@.len()
            &&& forall|q: int|
                0 <= q < saved.paths@.len() ==> t.sources@[matched@[q] as int]@.contains(
                    #[trigger] src@[q],
                )
            &&& forall|q: int, p: int|
                0 <= q < saved.paths@.len() && 0 <= p < saved.paths@.len() ==> (
                #[trigger] old(groups).group_of@[q] == #[trigger] old(groups).group_of@[p] <==> src@[q]
                    == src@[p])
            &&& forall|q: int|
                0 <= q < saved.paths@.len() ==> old(groups).candidates@[old(groups).group_of@[q] as int]@.contains(
                    #[trigger] src@[q],
                )
        },
{
    let n = saved.paths.len();
    let count = groups.originals.len();
    let mut assigned: Vec<Option<Endpoint>> = Vec::new();
    let mut g: usize = 0;
    while g < count
        invariant
            g <= count,
            assigned@.len() == g,
            forall|a: int| 0 <= a < g ==> (#[trigger] assigned@[a]) is None,
        decreases count - g,
    {
        assigned.push(None);
        g = g + 1;
    }
    let mut used: Vec<Endpoint> = Vec::new();
    let ghost initial = groups.candidates@;
    let ghost owed = exists|chosen: Seq<Endpoint>, rank: Seq<int>| peelable(initial, chosen, rank);
    let ghost pick = choose|chosen: Seq<Endpoint>, rank: Seq<int>| peelable(initial, chosen, rank);
    let ghost peel = pick.0;
    let ghost rank = pick.1;
    let ghost mut stamp: Seq<int> = Seq::new(count as nat, |g: int| 0int);
    let ghost mut tick: int = 0;
    let ghost apart = kept_apart(initial);
    loop
        invariant
            apart == kept_apart(initial),
            apart ==> forall|g2: int, x: Endpoint|
                0 <= g2 < count && assigned@[g2] is None && #[trigger] initial[g2]@.contains(x) ==> !used@.contains(x),
            stamp.len() == count,
            forall|g2: int| 0 <= g2 < count && (#[trigger] assigned@[g2]) is Some ==> stamp[g2] < tick,
            forall|x: Endpoint| #[trigger] used@.contains(x) ==> exists|h: int|
                0 <= h < count && assigned@[h] == Some(x) && stamp[h] < tick,
            forall|g2: int, x: Endpoint|
                0 <= g2 < count && #[trigger] initial[g2]@.contains(x) && !used@.contains(x) ==> groups.candidates@[g2]@.contains(x),
            forall|g2: int, x: Endpoint|
                0 <= g2 < count && assigned@[g2] is Some && #[trigger] initial[g2]@.contains(x) ==> x == assigned@[g2]->0
                    || exists|h: int| 0 <= h < count && stamp[h] < stamp[g2] && #[trigger] assigned@[h] == Some(x),
            initial == old(groups).candidates@,
            owed ==> peelable(initial, peel, rank),
            owed ==> forall|x: Endpoint| #[trigger] used@.contains(x) ==> exists|h: int|
                0 <= h < count && assigned@[h] == Some(x),
            owed ==> forall|g2: int| 0 <= g2 < count && (#[trigger] assigned@[g2]) is Some ==> assigned@[g2]->0 == peel[g2],
            owed ==> forall|g2: int| 0 <= g2 < count && (#[trigger] assigned@[g2]) is None ==> groups.candidates@[g2]@.contains(peel[g2]),
            forall|g2: int| 0 <= g2 < count ==> (#[trigger] groups.candidates@[g2])@.no_duplicates(),
            forall|g2: int, x: Endpoint| 0 <= g2 < count && #[trigger] groups.candidates@[g2]@.contains(x) ==> initial[g2]@.contains(x),
            forall|g2: int| 0 <= g2 < count && (#[trigger] assigned@[g2]) is Some ==> initial[g2]@.contains(assigned@[g2]->0),
            count == groups.originals@.len(),
            assigned@.len() == count,
            groups.candidates@.len() == count,
            groups.first@ == old(groups).first@,
            groups.originals@ == old(groups).originals@,
            groups.group_of@ == old(groups).group_of@,
            groups_ok(*groups, saved.paths@, n as int),
            candidates_ok(groups.candidates@, groups.group_of@, *t, matched@),
            assignment_ok(assigned@, used@, groups.group_of@, *t, matched@),
        decreases count_none(assigned@),
    {
        let ghost start = count_none(assigned@);
        let mut progress = false;
        let mut g: usize = 0;
        while g < count
            invariant
                g <= count,
                count == groups.originals@.len(),
                assigned@.len() == count,
                groups.candidates@.len() == count,
                groups.first@ == old(groups).first@,
                groups.originals@ == old(groups).originals@,
                groups.group_of@ == old(groups).group_of@,
                groups_ok(*groups, saved.paths@, n as int),
                candidates_ok(groups.candidates@, groups.group_of@, *t, matched@),
                assignment_ok(assigned@, used@, groups.group_of@, *t, matched@),
                count_none(assigned@) <= start,
                progress ==> count_none(assigned@) < start,
                initial == old(groups).candidates@,
                owed ==> peelable(initial, peel, rank),
                owed ==> forall|x: Endpoint| #[trigger] used@.contains(x) ==> exists|h: int|
                    0 <= h < count && assigned@[h] == Some(x),
                owed ==> forall|g2: int| 0 <= g2 < count && (#[trigger] assigned@[g2]) is Some ==> assigned@[g2]->0 == peel[g2],
                owed ==> forall|g2: int| 0 <= g2 < count && (#[trigger] assigned@[g2]) is None ==> groups.candidates@[g2]@.contains(peel[g2]),
                forall|g2: int| 0 <= g2 < count ==> (#[trigger] groups.candidates@[g2])@.no_duplicates(),
                owed && !progress ==> forall|g2: int|
                    0 <= g2 < g && (#[trigger] assigned@[g2]) is None ==> !lower_done(assigned@, rank, g2),
                stamp.len() == count,
                apart == kept_apart(initial),
                apart ==> forall|g2: int, x: Endpoint|
                    0 <= g2 < count && assigned@[g2] is None && #[trigger] initial[g2]@.contains(x) ==> !used@.contains(x),
                forall|g2: int| 0 <= g2 < count && (#[trigger] assigned@[g2]) is Some ==> stamp[g2] < tick,
                forall|x: Endpoint| #[trigger] used@.contains(x) ==> exists|h: int|
                    0 <= h < count && assigned@[h] == Some(x) && stamp[h] < tick,
                forall|g2: int, x: Endpoint|
                    0 <= g2 < count && #[trigger] initial[g2]@.contains(x) && !used@.contains(x) ==> groups.candidates@[g2]@.contains(x),
                forall|g2: int, x: Endpoint|
                    0 <= g2 < count && assigned@[g2] is Some && #[trigger] initial[g2]@.contains(x) ==> x == assigned@[g2]->0
                        || exists|h: int| 0 <= h < count && stamp[h] < stamp[g2] && #[trigger] assigned@[h] == Some(x),
                forall|g2: int, x: Endpoint| 0 <= g2 < count && #[trigger] groups.candidates@[g2]@.contains(x) ==> initial[g2]@.contains(x),
                forall|g2: int| 0 <= g2 < count && (#[trigger] assigned@[g2]) is Some ==> initial[g2]@.contains(assigned@[g2]->0),
            decreases count - g,
        {
            if assigned[g].is_none() {
                let ghost before = groups.candidates@;
                let kept = retain_in(&groups.candidates[g], &used, false);
                groups.candidates.set(g, kept);
                proof {
                    assert forall|g2: int, x: Endpoint|
                        0 <= g2 < count && #[trigger] initial[g2]@.contains(x) && !used@.contains(x)
                            implies groups.candidates@[g2]@.contains(x) by {
                        if g2 != g {
                            assert(groups.candidates@[g2] == before[g2]);
                        } else {
                            assert(before[g2]@.contains(x));
                        }
                    }
                    assert forall|g2: int, x: Endpoint| 0 <= g2 < count && #[trigger] groups.candidates@[g2]@.contains(x)
                        implies initial[g2]@.contains(x) by {
                        if g2 == g {
                            assert(before[g2]@.contains(x));
                        } else {
                            assert(groups.candidates@[g2] == before[g2]);
                        }
                    }
                    assert forall|g2: int, c: Endpoint, q: int|
                        0 <= g2 < groups.candidates@.len() && 0 <= q < groups.group_of@.len()
                            && groups.group_of@[q] == g2 && #[trigger] groups.candidates@[g2]@.contains(
                            c,
                        ) implies #[trigger] t.sources@[matched@[q] as int]@.contains(c) by {
                        if g2 == g {
                            assert(before[g2]@.contains(c));
                        } else {
                            assert(groups.candidates@[g2] == before[g2]);
                        }
                    }
                }
                proof {
                    assert forall|g2: int| 0 <= g2 < count implies (#[trigger] groups.candidates@[g2])@.no_duplicates() by {
                        if g2 != g {
                            assert(groups.candidates@[g2] == before[g2]);
                        }
                    }
                    if owed {
                        let pg = peel[g as int];
                        assert(before[g as int]@.contains(pg));
                        if used@.contains(pg) {
                            let h = choose|h: int| 0 <= h < count && assigned@[h] == Some(pg);
                            assert(peel[h] == pg);
                        }
                        assert(groups.candidates@[g as int]@.contains(pg));
                        assert forall|g2: int| 0 <= g2 < count && (#[trigger] assigned@[g2]) is None implies groups.candidates@[g2]@.contains(peel[g2]) by {
                            if g2 != g {
                                assert(groups.candidates@[g2] == before[g2]);
                            }
                        }
                        if lower_done(assigned@, rank, g as int) {
                            let kept = groups.candidates@[g as int]@;
                            assert forall|k: int| 0 <= k < kept.len() implies #[trigger] kept[k] == pg by {
                                let x = kept[k];
                                assert(kept.contains(x));
                                assert(before[g as int]@.contains(x));
                                assert(initial[g as int]@.contains(x));
                                assert(!used@.contains(x));
                                if x != pg {
                                    let h = choose|h: int| 0 <= h < count && rank[h] < rank[g as int] && #[trigger] peel[h] == x;
                                    assert(assigned@[h] is Some);
                                    assert(assigned@[h]->0 == peel[h]);
                                    assert(used@.contains(assigned@[h]->0));
                                }
                            }
                            lemma_only_element(kept, pg);
                        }
                    }
                }
                proof {
                    if apart {
                        let x0 = initial[g as int]@[0];
                        assert(initial[g as int]@.contains(x0));
                        assert(!used@.contains(x0));
                        assert(before[g as int]@.contains(x0));
                        assert(groups.candidates@[g as int]@.contains(x0));
                    }
                }
                if groups.candidates[g].len() == 0 {
                    let first = groups.first[g];
                    let e = routing_error(first, "cannot preserve the saved clone/extended layout");
                    let out: Result<Vec<Endpoint>, CcdError> = Err(e);
                    proof {
                        assert(out matches Err(CcdError::Remap(m)) && routing_failure(m@, first as int));
                    }
                    return out;
                }
                if groups.candidates[g].len() == 1 {
                    let e = groups.candidates[g][0];
                    let ghost prev = assigned@;
                    let ghost prev_used = used@;
                    proof {
                        lemma_count_none_assign(assigned@, g as int, e);
                        assert(groups.candidates@[g as int]@.contains(e));
                        assert(!prev_used.contains(e));
                        if owed {
                            let pg = peel[g as int];
                            assert(groups.candidates@[g as int]@.contains(pg));
                            let k = choose|k: int| 0 <= k < groups.candidates@[g as int]@.len() && groups.candidates@[g as int]@[k] == pg;
                            assert(k == 0);
                            assert(e == pg);
                        }
                    }
                    let ghost prev_stamp = stamp;
                    let ghost prev_tick = tick;
                    assigned.set(g, Some(e));
                    used.push(e);
                    progress = true;
                    proof {
                        stamp = stamp.update(g as int, tick);
                        tick = tick + 1;
                        if apart {
                            assert forall|g2: int, x: Endpoint|
                                0 <= g2 < count && assigned@[g2] is None && #[trigger] initial[g2]@.contains(x)
                                    implies !used@.contains(x) by {
                                assert(g2 != g);
                                assert(assigned@[g2] == prev[g2]);
                                assert(initial[g as int]@.contains(e));
                                if x == e {
                                    assert(!initial[g2]@.contains(e));
                                }
                                if used@.contains(x) && x != e {
                                    let j = choose|j: int| 0 <= j < used@.len() && used@[j] == x;
                                    assert(j < prev_used.len());
                                    assert(prev_used[j] == x);
                                    assert(prev_used.contains(x));
                                }
                            }
                        }
                        assert forall|g2: int| 0 <= g2 < count && (#[trigger] assigned@[g2]) is Some implies stamp[g2] < tick by {
                            if g2 != g {
                                assert(assigned@[g2] == prev[g2]);
                            }
                        }
                        assert forall|x: Endpoint| #[trigger] used@.contains(x) implies exists|h: int|
                            0 <= h < count && assigned@[h] == Some(x) && stamp[h] < tick by {
                            if x == e {
                                assert(assigned@[g as int] == Some(x) && stamp[g as int] < tick);
                            } else {
                                let j = choose|j: int| 0 <= j < used@.len() && used@[j] == x;
                                assert(j < prev_used.len());
                                assert(prev_used[j] == x);
                                assert(prev_used.contains(x));
                                let h = choose|h: int| 0 <= h < count && prev[h] == Some(x) && prev_stamp[h] < prev_tick;
                                assert(h != g);
                                assert(assigned@[h] == prev[h]);
                                assert(stamp[h] == prev_stamp[h]);
                            }
                        }
                        assert forall|g2: int, x: Endpoint|
                            0 <= g2 < count && #[trigger] initial[g2]@.contains(x) && !used@.contains(x)
                                implies groups.candidates@[g2]@.contains(x) by {
                            assert(used@[prev_used.len() as int] == e);
                            if prev_used.contains(x) {
                                let j = choose|j: int| 0 <= j < prev_used.len() && prev_used[j] == x;
                                assert(used@[j] == x);
                            }
                        }
                        assert forall|g2: int, x: Endpoint|
                            0 <= g2 < count && assigned@[g2] is Some && #[trigger] initial[g2]@.contains(x)
                                implies x == assigned@[g2]->0 || exists|h: int|
                                0 <= h < count && stamp[h] < stamp[g2] && #[trigger] assigned@[h] == Some(x) by {
                            if g2 == g {
                                if prev_used.contains(x) {
                                    let h = choose|h: int| 0 <= h < count && prev[h] == Some(x) && prev_stamp[h] < prev_tick;
                                    assert(h != g);
                                    assert(assigned@[h] == prev[h]);
                                    assert(stamp[h] == prev_stamp[h]);
                                    assert(stamp[g2] == prev_tick);
                                } else {
                                    assert(groups.candidates@[g as int]@.contains(x));
                                    let k = choose|k: int| 0 <= k < groups.candidates@[g as int]@.len() && groups.candidates@[g as int]@[k] == x;
                                    assert(k == 0);
                                }
                            } else {
                                assert(assigned@[g2] == prev[g2]);
                                assert(stamp[g2] == prev_stamp[g2]);
                                if x != assigned@[g2]->0 {
                                    let h = choose|h: int| 0 <= h < count && prev_stamp[h] < prev_stamp[g2] && #[trigger] prev[h] == Some(x);
                                    assert(h != g);
                                    assert(assigned@[h] == prev[h]);
                                    assert(stamp[h] == prev_stamp[h]);
                                }
                            }
                        }
                        if owed {
                            assert forall|x: Endpoint| #[trigger] used@.contains(x) implies exists|h: int|
                                0 <= h < count && assigned@[h] == Some(x) by {
                                if x == e {
                                    assert(assigned@[g as int] == Some(x));
                                } else {
                                    let j = choose|j: int| 0 <= j < used@.len() && used@[j] == x;
                                    assert(j < prev_used.len());
                                    assert(prev_used[j] == x);
                                    assert(prev_used.contains(x));
                                    let h = choose|h: int| 0 <= h < count && prev[h] == Some(x);
                                    assert(h != g);
                                    assert(assigned@[h] == prev[h]);
                                }
                            }
                        }
                        assert(groups.candidates@[g as int]@.contains(e));
                        if owed {
                            assert forall|g2: int| 0 <= g2 < count && (#[trigger] assigned@[g2]) is Some
                                implies assigned@[g2]->0 == peel[g2] by {
                                if g2 != g {
                                    assert(assigned@[g2] == prev[g2]);
                                }
                            }
                            assert forall|g2: int| 0 <= g2 < count && (#[trigger] assigned@[g2]) is None
                                implies groups.candidates@[g2]@.contains(peel[g2]) by {
                                assert(assigned@[g2] == prev[g2]);
                            }
                        }
                        assert forall|g2: int| 0 <= g2 < count && (#[trigger] assigned@[g2]) is Some
                            implies initial[g2]@.contains(assigned@[g2]->0) by {
                            if g2 != g {
                                assert(assigned@[g2] == prev[g2]);
                            }
                        }
                        assert forall|g2: int, q: int|
                            0 <= g2 < assigned@.len() && 0 <= q < groups.group_of@.len()
                                && #[trigger] groups.group_of@[q] == g2 && (#[trigger] assigned@[g2]) is Some
                                implies t.sources@[matched@[q] as int]@.contains(assigned@[g2]->0) by {
                            if g2 != g {
                                assert(assigned@[g2] == prev[g2]);
                            }
                        }
                        assert forall|g1: int, g2: int|
                            0 <= g1 < assigned@.len() && 0 <= g2 < assigned@.len() && g1 != g2 && (
                            #[trigger] assigned@[g1]) is Some && (#[trigger] assigned@[g2]) is Some
                                implies assigned@[g1] != assigned@[g2] by {
                            if g1 == g {
                                assert(assigned@[g2] == prev[g2]);
                                assert(prev_used.contains(prev[g2]->0));
                            } else if g2 == g {
                                assert(assigned@[g1] == prev[g1]);
                                assert(prev_used.contains(prev[g1]->0));
                            } else {
                                assert(assigned@[g1] == prev[g1]);
                                assert(assigned@[g2] == prev[g2]);
                            }
                        }
                        assert forall|g2: int|
                            0 <= g2 < assigned@.len() && (#[trigger] assigned@[g2]) is Some
                                implies used@.contains(assigned@[g2]->0) by {
                            if g2 == g {
                                assert(used@[prev_used.len() as int] == e);
                            } else {
                                assert(assigned@[g2] == prev[g2]);
                                let j = choose|j: int| 0 <= j < prev_used.len() && prev_used[j] == prev[g2]->0;
                                assert(used@[j] == prev_used[j]);
                            }
                        }
                    }
                }
            }
            g = g + 1;
        }
        proof {
            if owed && !progress {
                let m = lemma_min_unassigned(assigned@, rank, count as int);
                if m != -1 {
                    assert forall|h: int| 0 <= h < assigned@.len() && rank[h] < rank[m] implies (#[trigger] assigned@[h]) is Some by {
                        if assigned@[h] is None {
                            assert(rank[m] <= rank[h]);
                        }
                    }
                    assert(lower_done(assigned@, rank, m));
                }
            }
        }
        if !progress {
            break;
        }
    }
    let mut chosen: Vec<Endpoint> = Vec::new();
    let mut g: usize = 0;
    while g < count
        invariant
            g <= count,
            count == groups.originals@.len(),
            assigned@.len() == count,
            groups_ok(*groups, saved.paths@, n as int),
            chosen@.len() == g,
            forall|a: int| 0 <= a < g ==> (#[trigger] assigned@[a]) == Some(chosen@[a]),
            owed ==> forall|g2: int| 0 <= g2 < count ==> (#[trigger] assigned@[g2]) is Some,
            forall|g2: int| 0 <= g2 < count && (#[trigger] assigned@[g2]) is Some ==> initial[g2]@.contains(assigned@[g2]->0),
        decreases count - g,
    {
        match assigned[g] {
            Some(e) => chosen.push(e),
            None => {
                proof {
                    assert(!owed);
                }
                let first = groups.first[g];
                let e = routing_error(first, "is ambiguous");
                let out: Result<Vec<Endpoint>, CcdError> = Err(e);
                proof {
                    assert(out matches Err(CcdError::Remap(m)) && routing_failure(m@, first as int));
                }
                return out;
            },
        }
        g = g + 1;
    }
    let mut src: Vec<Endpoint> = Vec::new();
    let mut q: usize = 0;
    while q < n
        invariant
            q <= n,
            src@.len() == q,
            forall|p: int| 0 <= p < q ==> #[trigger] src@[p] == chosen@[groups.group_of@[p] as int],
        decreases n - q,
    {
        src.push(chosen[groups.group_of[q]]);
        q = q + 1;
    }
    proof {
        assert forall|q: int|
            0 <= q < n implies t.sources@[matched@[q] as int]@.contains(#[trigger] src@[q]) by {
            let g = groups.group_of@[q] as int;
            assert(assigned@[g] == Some(chosen@[g]));
        }
        assert forall|q: int| 0 <= q < n implies old(groups).candidates@[old(groups).group_of@[q] as int]@.contains(
            #[trigger] src@[q],
        ) by {
            let g = groups.group_of@[q] as int;
            assert(assigned@[g] == Some(chosen@[g]));
        }
        assert forall|q: int, p: int| 0 <= q < n && 0 <= p < n implies (
        #[trigger] old(groups).group_of@[q] == #[trigger] old(groups).group_of@[p] <==> src@[q] == src@[p]) by {
            let gq = groups.group_of@[q] as int;
            let gp = groups.group_of@[p] as int;
            assert(assigned@[gq] == Some(chosen@[gq]));
            assert(assigned@[gp] == Some(chosen@[gp]));
        }
        assert forall|g2: int| 0 <= g2 < count implies (#[trigger] initial[g2])@.contains(chosen@[g2]) by {
            assert(assigned@[g2] == Some(chosen@[g2]));
        }
        assert forall|g2: int, x: Endpoint|
            0 <= g2 < count && #[trigger] initial[g2]@.contains(x) implies x == chosen@[g2] || exists|h: int|
                0 <= h < count && stamp[h] < stamp[g2] && #[trigger] chosen@[h] == x by {
            assert(assigned@[g2] == Some(chosen@[g2]));
            if x != chosen@[g2] {
                let h = choose|h: int| 0 <= h < count && stamp[h] < stamp[g2] && #[trigger] assigned@[h] == Some(x);
                assert(assigned@[h] == Some(chosen@[h]));
            }
        }
        assert forall|g1: int, g2: int| 0 <= g1 < count && 0 <= g2 < count && g1 != g2 implies #[trigger] chosen@[g1]
            != #[trigger] chosen@[g2] by {
            assert(assigned@[g1] == Some(chosen@[g1]));
            assert(assigned@[g2] == Some(chosen@[g2]));
        }
        assert(peelable(initial, chosen@, stamp));
        assert forall|q: int| 0 <= q < n implies src@[q] == chosen@[old(groups).group_of@[q] as int] by {}
    }
    Ok(src)
}

/// Mode `m` is saved mode `orig` moved onto endpoint `e`.
pub open spec fn relabelled(m: ModeInfo, orig: ModeInfo, e: Endpoint) -> bool {
    &&& m.info_type == orig.info_type
    &&& m.payload@ == orig.payload@
    &&& m.adapter_id == e.adapter
    &&& m.id == e.id
}

/// The rebuilt modes so far: entry `j` of `map` is (saved index, endpoint, j)
/// for the `j`-th rebuilt mode, each saved index at most once.
pub open spec fn mode_map_ok(
    map: Seq<(u32, Endpoint, u32)>,
    modes: Seq<ModeInfo>,
    monitors: Seq<MonitorInfo>,
    saved_modes: Seq<ModeInfo>,
) -> bool {
    &&& modes.len() == map.len()
    &&& monitors.len() == modes.len()
    &&& forall|j: int|
        0 <= j < map.len() ==> (#[trigger] map[j]).0 < saved_modes.len() && map[j].2 == j
            && relabelled(modes[j], saved_modes[map[j].0 as int], map[j].1)
    &&& forall|a: int, b: int| 0 <= a < b < map.len() ==> (#[trigger] map[a]).0 != (#[trigger] map[b]).0
}

proof fn lemma_distinct_below(keys: Seq<int>, m: int)
    requires
        0 <= m,
        keys.no_duplicates(),
        forall|j: int| 0 <= j < keys.len() ==> 0 <= #[trigger] keys[j] < m,
    ensures
        keys.len() <= m,
{
    keys.unique_seq_to_set();
    lemma_int_range(0, m);
    assert(keys.to_set().subset_of(set_int_range(0, m)));
    lemma_len_subset(keys.to_set(), set_int_range(0, m));
}

proof fn lemma_map_len(
    map: Seq<(u32, Endpoint, u32)>,
    modes: Seq<ModeInfo>,
    monitors: Seq<MonitorInfo>,
    saved_modes: Seq<ModeInfo>,
)
    requires
        mode_map_ok(map, modes, monitors, saved_modes),
    ensures
        map.len() <= saved_modes.len(),
{
    let keys = Seq::new(map.len(), |a: int| map[a].0 as int);
    assert forall|a: int, b: int| 0 <= a < keys.len() && 0 <= b < keys.len() && a != b implies keys[a] != keys[b] by {
        if a < b {
            assert(map[a].0 != map[b].0);
        } else {
            assert(map[b].0 != map[a].0);
        }
    }
    assert forall|a: int| 0 <= a < keys.len() implies 0 <= #[trigger] keys[a] < saved_modes.len() by {
        assert(map[a].0 < saved_modes.len());
    }
    lemma_distinct_below(keys, saved_modes.len() as int);
}

/// Rebuild saved mode `index` on `endpoint` once; later references to the same
/// saved mode reuse it and must name the same endpoint.
#[verifier::loop_isolation(false)]
fn append_mode(
    saved: &DisplayConfig,
    index: u32,
    endpoint: Endpoint,
    monitor: &MonitorInfo,
    modes: &mut Vec<ModeInfo>,
    monitors: &mut Vec<MonitorInfo>,
    map: &mut Vec<(u32, Endpoint, u32)>,
) -> (r: Result<u32, CcdError>)
    requires
        saved.modes@.len() <= u32::MAX,
        index == NO_MODE || index < saved.modes@.len(),
        mode_map_ok(old(map)@, old(modes)@, old(monitors)@, saved.modes@),
    ensures
        mode_map_ok(final(map)@, final(modes)@, final(monitors)@, saved.modes@),
        old(modes)@.len() <= final(modes)@.len(),
        forall|j: int| 0 <= j < old(modes)@.len() ==> #[trigger] final(modes)@[j] == old(modes)@[j],
        index == NO_MODE ==> r == Ok::<u32, CcdError>(NO_MODE),
        r is Err ==> r->Err_0 is InvalidConfig,
        index != NO_MODE ==> (r matches Ok(v) ==> v < final(modes)@.len() && v != NO_MODE
            && relabelled(final(modes)@[v as int], saved.modes@[index as int], endpoint)),
        index != NO_MODE ==> (r is Err <==> exists|j: int|
            0 <= j < old(map)@.len() && (#[trigger] old(map)@[j]).0 == index && old(map)@[j].1 != endpoint),
        index != NO_MODE ==> (r matches Ok(v) ==> exists|j: int|
            0 <= j < final(map)@.len() && #[trigger] final(map)@[j] == (index, endpoint, v)),
        forall|j: int| 0 <= j < old(map)@.len() ==> #[trigger] final(map)@[j] == old(map)@[j],
        final(map)@.len() <= old(map)@.len() + 1,
        final(map)@.len() == old(map)@.len() + 1 ==> index != NO_MODE && final(map)@[old(map)@.len() as int]
            == (index, endpoint, old(map)@.len() as u32),
{
    if index == NO_MODE {
        return Ok(NO_MODE);
    }
    let mut j: usize = 0;
    while j < map.len()
        invariant
            j <= map@.len(),
            forall|a: int| 0 <= a < j ==> (#[trigger] map@[a]).0 != index,
        decreases map.len() - j,
    {
        let (original, previous, new_index) = map[j];
        if original == index {
            if previous != endpoint {
                return Err(invalid(String::from_str("shared mode would map to different live endpoints")));
            }
            proof {
                lemma_map_len(map@, modes@, monitors@, saved.modes@);
                assert(map@[j as int].2 == j);
                assert(map@[j as int].0 == index);
            }
            return Ok(new_index);
        }
        j = j + 1;
    }
    proof {
        let keys = Seq::new((map@.len() + 1) as nat, |a: int| if a < map@.len() { map@[a].0 as int } else { index as int });
        assert forall|a: int, b: int| 0 <= a < keys.len() && 0 <= b < keys.len() && a != b implies keys[a] != keys[b] by {
            if a < map@.len() && b < map@.len() {
                if a < b {
                    assert(map@[a].0 != map@[b].0);
                } else {
                    assert(map@[b].0 != map@[a].0);
                }
            }
        }
        assert forall|a: int| 0 <= a < keys.len() implies 0 <= #[trigger] keys[a] < saved.modes@.len() by {
            if a < map@.len() {
                assert(map@[a].0 < saved.modes@.len());
            }
        }
        lemma_distinct_below(keys, saved.modes@.len() as int);
    }
    let mode = &saved.modes[index as usize];
    let rebuilt = ModeInfo {
        info_type: mode.info_type,
        id: endpoint.id,
        adapter_id: endpoint.adapter,
        payload: mode.copy().payload,
    };
    let new_index = modes.len() as u32;
    let ghost old_map = map@;
    let ghost old_modes = modes@;
    modes.push(rebuilt);
    monitors.push(monitor.copy());
    map.push((index, endpoint, new_index));
    proof {
        assert forall|a: int| 0 <= a < map@.len() implies (#[trigger] map@[a]).0 < saved.modes@.len()
            && map@[a].2 == a && relabelled(modes@[a], saved.modes@[map@[a].0 as int], map@[a].1) by {
            if a < old_map.len() {
                assert(map@[a] == old_map[a]);
                assert(modes@[a] == old_modes[a]);
            }
        }
        assert forall|a: int, b: int| 0 <= a < b < map@.len() implies (#[trigger] map@[a]).0 != (#[trigger] map@[b]).0 by {
            assert(map@[a] == old_map[a]);
            if b < old_map.len() {
                assert(map@[b] == old_map[b]);
            }
        }
    }
    proof {
        assert(map@[old_map.len() as int] == (index, endpoint, new_index));
    }
    Ok(new_index)
}

/// Path `out` is saved path `saved` rerouted from `src` to `dst` over a
/// connector of type `tech`, with every other setting kept.
pub open spec fn rerouted(out: PathInfo, saved: PathInfo, src: Endpoint, dst: Endpoint, tech: i32) -> bool {
    &&& source_of(out) == src
    &&& target_of(out) == dst
    &&& out.target.output_technology == tech
    &&& out.target.target_available == 1
    &&& out.flags == saved.flags
    &&& out.source.status_flags == saved.source.status_flags
    &&& out.target.rotation == saved.target.rotation
    &&& out.target.scaling == saved.target.scaling
    &&& out.target.refresh_rate == saved.target.refresh_rate
    &&& out.target.scan_line_ordering == saved.target.scan_line_ordering
    &&& out.target.status_flags == saved.target.status_flags
}

/// The modes of `out` are the saved modes of `saved`, moved onto its endpoints.
pub open spec fn modes_carried(
    out: PathInfo,
    saved: PathInfo,
    modes: Seq<ModeInfo>,
    saved_modes: Seq<ModeInfo>,
) -> bool {
    &&& out.source.mode_info_idx < modes.len()
    &&& relabelled(
        modes[out.source.mode_info_idx as int],
        saved_modes[saved.source.mode_info_idx as int],
        source_of(out),
    )
    &&& saved.target.mode_info_idx == NO_MODE ==> out.target.mode_info_idx == NO_MODE
    &&& saved.target.mode_info_idx != NO_MODE ==> out.target.mode_info_idx < modes.len()
        && relabelled(
        modes[out.target.mode_info_idx as int],
        saved_modes[saved.target.mode_info_idx as int],
        target_of(out),
    )
}

/// Live path `k` is an available path to the target of `out`, for the monitor
/// `monitor`, over the same connector.
pub open spec fn live_match(live: DisplayConfig, k: int, out: PathInfo, monitor: MonitorInfo) -> bool {
    &&& available(live, k)
    &&& target_of(live.paths@[k]) == target_of(out)
    &&& identity_of(live.path_monitors@[k]) == identity_of(monitor)
    &&& live.paths@[k].target.output_technology == out.target.output_technology
}

/// What a successful remap gives: the saved layout on the live targets that
/// carry the saved monitors, with clone groups kept, every route supported by
/// a live path, and the saved modes carried over.
pub open spec fn remapped(saved: DisplayConfig, live: DisplayConfig, out: DisplayConfig) -> bool {
    let n = saved.paths@.len();
    &&& out.paths@.len() == n
    &&& out.path_monitors@.len() == n
    &&& out.monitors@.len() == out.modes@.len()
    &&& forall|i: int|
        0 <= i < n ==> !saved_conflict(saved, i) && saved_monitor_of(saved, i) == Some(
            #[trigger] out.path_monitors@[i],
        ) && identity_of(out.path_monitors@[i]) is Some
    &&& forall|i: int, j: int|
        0 <= i < j < n ==> identity_of(#[trigger] out.path_monitors@[i]) != identity_of(
            #[trigger] out.path_monitors@[j],
        )
    &&& forall|i: int| 0 <= i < n ==> #[trigger] has_live_target(live, out, i)
    &&& forall|i: int, k: int|
        0 <= i < n && 0 <= k < live.paths@.len() && #[trigger] available(live, k) && identity_of(
            live.path_monitors@[k],
        ) == identity_of(#[trigger] out.path_monitors@[i]) ==> target_of(live.paths@[k])
            == target_of(out.paths@[i])
    &&& forall|i: int| 0 <= i < n ==> #[trigger] has_live_route(live, out, i)
    &&& forall|i: int, j: int|
        0 <= i < n && 0 <= j < n ==> (source_of(#[trigger] saved.paths@[i]) == source_of(
            #[trigger] saved.paths@[j],
        ) <==> source_of(out.paths@[i]) == source_of(out.paths@[j]))
    &&& forall|i: int|
        0 <= i < n ==> #[trigger] out.paths@[i].flags == saved.paths@[i].flags && rerouted(
            out.paths@[i],
            saved.paths@[i],
            source_of(out.paths@[i]),
            target_of(out.paths@[i]),
            out.paths@[i].target.output_technology,
        ) && modes_carried(out.paths@[i], saved.paths@[i], out.modes@, saved.modes@)
    &&& layout_valid(out.paths@, out.modes@)
}

/// Some available live path reaches the target of path `i` of `out` for its monitor.
pub open spec fn has_live_target(live: DisplayConfig, out: DisplayConfig, i: int) -> bool {
    exists|k: int|
        0 <= k < live.paths@.len() && #[trigger] live_match(live, k, out.paths@[i], out.path_monitors@[i])
}

/// Some available live path has the source and target of path `i` of `out`.
pub open spec fn has_live_route(live: DisplayConfig, out: DisplayConfig, i: int) -> bool {
    exists|k: int| 0 <= k < live.paths@.len() && #[trigger] routes_path(live, k, out.paths@[i])
}

/// Live path `k` is an available path with the source and target of `out`.
pub open spec fn routes_path(live: DisplayConfig, k: int, out: PathInfo) -> bool {
    &&& available(live, k)
    &&& target_of(live.paths@[k]) == target_of(out)
    &&& source_of(live.paths@[k]) == source_of(out)
}

proof fn lemma_live_count_error(saved: DisplayConfig, live: DisplayConfig, t: LiveTargets, i: int, m: Seq<char>)
    requires
        target_count_error(saved, t, i, m),
        summarises(t, live, live.paths@.len() as int),
    ensures
        live_count_error(saved, live, i, m),
{
    if saved_monitor_of(saved, i) is Some {
        let mon = saved_monitor_of(saved, i)->0;
        let id = identity_of(mon)->0;
        if m == "monitor "@ + mon.device_path@ + missing_tail() && forall|a: int|
            0 <= a < t.identities@.len() ==> opt_text(#[trigger] t.identities@[a]) != Some(id) {
            assert forall|k: int|
                0 <= k < live.paths@.len() && #[trigger] available(live, k) implies identity_of(
                    live.path_monitors@[k],
                ) != Some(id) by {
                assert(covered(t, live, k));
                let a = choose|a: int| 0 <= a < t.endpoints@.len() && #[trigger] describes(t, a, live, k);
                assert(opt_text(t.identities@[a]) != Some(id));
            }
        } else {
            let (a, b) = choose|a: int, b: int|
                0 <= a < b < t.identities@.len() && opt_text(#[trigger] t.identities@[a]) == Some(id)
                    && opt_text(#[trigger] t.identities@[b]) == Some(id);
            assert(has_origin(t, live, live.paths@.len() as int, a));
            assert(has_origin(t, live, live.paths@.len() as int, b));
            let k1 = choose|k: int| 0 <= k < live.paths@.len() && #[trigger] describes(t, a, live, k);
            let k2 = choose|k: int| 0 <= k < live.paths@.len() && #[trigger] describes(t, b, live, k);
            assert(t.endpoints@[a] != t.endpoints@[b]);
            assert(available(live, k1) && available(live, k2));
        }
    }
}

/// Some available live path routes source `s` to target `dst`.
pub open spec fn live_route(live: DisplayConfig, s: Endpoint, dst: Endpoint) -> bool {
    exists|k: int|
        0 <= k < live.paths@.len() && #[trigger] available(live, k) && source_of(live.paths@[k]) == s
            && target_of(live.paths@[k]) == dst
}

/// The saved source of path `q` can still drive the new target of every path
/// cloned from it.
pub open spec fn saved_source_fits(saved: DisplayConfig, live: DisplayConfig, out: DisplayConfig, q: int) -> bool {
    forall|p: int|
        0 <= p < saved.paths@.len() && source_of(saved.paths@[p]) == source_of(saved.paths@[q])
            ==> #[trigger] live_route(live, source_of(saved.paths@[q]), target_of(out.paths@[p]))
}

/// Some available live path currently routes source `s` to target `dst`.
pub open spec fn live_active_route(live: DisplayConfig, s: Endpoint, dst: Endpoint) -> bool {
    exists|k: int|
        0 <= k < live.paths@.len() && #[trigger] available(live, k) && path_active(live, k) && source_of(
            live.paths@[k],
        ) == s && target_of(live.paths@[k]) == dst
}

/// Live source `c` can drive the new target of every path cloned from the
/// saved source of path `q`.
pub open spec fn group_candidate(saved: DisplayConfig, live: DisplayConfig, out: DisplayConfig, q: int, c: Endpoint) -> bool {
    forall|p: int|
        0 <= p < saved.paths@.len() && source_of(saved.paths@[p]) == source_of(saved.paths@[q])
            ==> #[trigger] live_route(live, c, target_of(out.paths@[p]))
}

/// Live source `c` currently drives the new target of some path cloned from
/// the saved source of path `q`.
pub open spec fn group_driver(saved: DisplayConfig, live: DisplayConfig, out: DisplayConfig, q: int, c: Endpoint) -> bool {
    exists|p: int|
        0 <= p < saved.paths@.len() && source_of(saved.paths@[p]) == source_of(saved.paths@[q])
            && #[trigger] live_active_route(live, c, target_of(out.paths@[p]))
}

/// `e` is the only source that can drive all of path `q`'s clone group and
/// currently drives one of its targets.
pub open spec fn sole_active_source(saved: DisplayConfig, live: DisplayConfig, out: DisplayConfig, q: int, e: Endpoint) -> bool {
    &&& group_candidate(saved, live, out, q, e)
    &&& group_driver(saved, live, out, q, e)
    &&& forall|c: Endpoint|
        #[trigger] group_candidate(saved, live, out, q, c) && group_driver(saved, live, out, q, c) ==> c == e
}

proof fn lemma_source_route(t: LiveTargets, live: DisplayConfig, a: int, dst: Endpoint, x: Endpoint)
    requires
        summarises(t, live, live.paths@.len() as int),
        forall|k: int| 0 <= k < live.paths@.len() && #[trigger] available(live, k) ==> route_recorded(t, live, k),
        actives_from_live(t, live, live.paths@.len() as int),
        0 <= a < t.endpoints@.len(),
        t.endpoints@[a] == dst,
    ensures
        t.sources@[a]@.contains(x) <==> live_route(live, x, dst),
        t.active@[a]@.contains(x) <==> live_active_route(live, x, dst),
{
    if t.sources@[a]@.contains(x) {
        assert(has_route(t, live, live.paths@.len() as int, a, x));
        let k = choose|k: int| 0 <= k < live.paths@.len() as int && #[trigger] routes(t, a, live, k, x);
        assert(available(live, k));
    }
    if live_route(live, x, dst) {
        let k = choose|k: int|
            0 <= k < live.paths@.len() && #[trigger] available(live, k) && source_of(live.paths@[k]) == x
                && target_of(live.paths@[k]) == dst;
        assert(route_recorded(t, live, k));
        let b = choose|b: int|
            0 <= b < t.endpoints@.len() && #[trigger] t.endpoints@[b] == target_of(live.paths@[k])
                && t.sources@[b]@.contains(source_of(live.paths@[k])) && (path_active(live, k)
                ==> t.active@[b]@.contains(source_of(live.paths@[k])));
        if b != a {
            if b < a {
                assert(t.endpoints@[b] != t.endpoints@[a]);
            } else {
                assert(t.endpoints@[a] != t.endpoints@[b]);
            }
        }
    }
    if t.active@[a]@.contains(x) {
        let k = choose|k: int| 0 <= k < live.paths@.len() as int && #[trigger] active_route_at(t, a, live, k, x);
        assert(available(live, k));
    }
    if live_active_route(live, x, dst) {
        let k = choose|k: int|
            0 <= k < live.paths@.len() && #[trigger] available(live, k) && path_active(live, k) && source_of(
                live.paths@[k],
            ) == x && target_of(live.paths@[k]) == dst;
        assert(route_recorded(t, live, k));
        let b = choose|b: int|
            0 <= b < t.endpoints@.len() && #[trigger] t.endpoints@[b] == target_of(live.paths@[k])
                && t.sources@[b]@.contains(source_of(live.paths@[k])) && (path_active(live, k)
                ==> t.active@[b]@.contains(source_of(live.paths@[k])));
        if b != a {
            if b < a {
                assert(t.endpoints@[b] != t.endpoints@[a]);
            } else {
                assert(t.endpoints@[a] != t.endpoints@[b]);
            }
        }
    }
}

/// Which live source a successful remap gives the clone group of path `q`:
/// the saved source when it can still drive the whole group, else the only
/// candidate that currently drives one of its targets, when there is one.
proof fn lemma_sources_chosen(
    saved: DisplayConfig,
    live: DisplayConfig,
    out: DisplayConfig,
    t: LiveTargets,
    matched: Seq<usize>,
    sources: Seq<Endpoint>,
    grouped: SourceGroups,
    narrowed_groups: SourceGroups,
    q: int,
)
    requires
        summarises(t, live, live.paths@.len() as int),
        forall|k: int| 0 <= k < live.paths@.len() && #[trigger] available(live, k) ==> route_recorded(t, live, k),
        actives_from_live(t, live, live.paths@.len() as int),
        0 <= q < saved.paths@.len(),
        matched.len() == saved.paths@.len(),
        sources.len() == saved.paths@.len(),
        out.paths@.len() == saved.paths@.len(),
        forall|p: int|
            0 <= p < saved.paths@.len() ==> #[trigger] matched[p] < t.endpoints@.len() && rerouted(
                out.paths@[p],
                saved.paths@[p],
                sources[p],
                t.endpoints@[matched[p] as int],
                t.technologies@[matched[p] as int],
            ),
        groups_ok(grouped, saved.paths@, saved.paths@.len() as int),
        candidates_ok(grouped.candidates@, grouped.group_of@, t, matched),
        forall|g: int, c: Endpoint|
            0 <= g < grouped.candidates@.len() && common_source(t, matched, grouped.group_of@, g, c, saved.paths@.len() as int)
                ==> #[trigger] grouped.candidates@[g]@.contains(c),
        forall|a: int, b: int|
            0 <= a < saved.paths@.len() && 0 <= b < saved.paths@.len() ==> (source_of(#[trigger] saved.paths@[a])
                == source_of(#[trigger] saved.paths@[b]) <==> grouped.group_of@[a] == grouped.group_of@[b]),
        narrowed_groups.candidates@.len() == grouped.candidates@.len(),
        forall|g: int|
            0 <= g < grouped.candidates@.len() ==> narrowed(
                grouped.candidates@[g]@,
                grouped.originals@[g],
                t,
                matched,
                grouped.group_of@,
                g,
                #[trigger] narrowed_groups.candidates@[g]@,
            ),
        forall|p: int|
            0 <= p < saved.paths@.len() ==> narrowed_groups.candidates@[grouped.group_of@[p] as int]@.contains(
                #[trigger] sources[p],
            ),
    ensures
        saved_source_fits(saved, live, out, q) ==> source_of(out.paths@[q]) == source_of(saved.paths@[q]),
        forall|e: Endpoint|
            !saved_source_fits(saved, live, out, q) && #[trigger] sole_active_source(saved, live, out, q, e)
                ==> source_of(out.paths@[q]) == e,
{
    let n = saved.paths@.len() as int;
    let g = grouped.group_of@[q] as int;
    let c0 = grouped.candidates@[g]@;
    let orig = source_of(saved.paths@[q]);
    assert forall|p: int, x: Endpoint| 0 <= p < n implies (t.sources@[matched[p] as int]@.contains(x) <==> live_route(
        live,
        x,
        target_of(out.paths@[p]),
    )) && (#[trigger] t.active@[matched[p] as int]@.contains(x) <==> live_active_route(
        live,
        x,
        target_of(out.paths@[p]),
    )) by {
        lemma_source_route(t, live, matched[p] as int, target_of(out.paths@[p]), x);
    }
    assert forall|x: Endpoint| c0.contains(x) <==> #[trigger] group_candidate(saved, live, out, q, x) by {
        if c0.contains(x) {
            assert forall|p: int|
                0 <= p < n && source_of(saved.paths@[p]) == source_of(saved.paths@[q])
                    implies #[trigger] live_route(live, x, target_of(out.paths@[p])) by {
                assert(grouped.group_of@[p] == g);
                assert(t.sources@[matched[p] as int]@.contains(x));
                lemma_source_route(t, live, matched[p] as int, target_of(out.paths@[p]), x);
            }
        }
        if group_candidate(saved, live, out, q, x) {
            assert forall|p: int| 0 <= p < n && grouped.group_of@[p] == g implies #[trigger] t.sources@[matched[p] as int]@.contains(
                x,
            ) by {
                assert(source_of(saved.paths@[p]) == source_of(saved.paths@[q]));
                assert(live_route(live, x, target_of(out.paths@[p])));
                lemma_source_route(t, live, matched[p] as int, target_of(out.paths@[p]), x);
            }
            assert(common_source(t, matched, grouped.group_of@, g, x, n));
        }
    }
    assert(grouped.originals@[g] == orig);
    let after = narrowed_groups.candidates@[g]@;
    assert(narrowed(c0, orig, t, matched, grouped.group_of@, g, after));
    assert(after.contains(sources[q]));
    assert(matched[q] < t.endpoints@.len());
    assert(source_of(out.paths@[q]) == sources[q]);
    if saved_source_fits(saved, live, out, q) {
        assert(group_candidate(saved, live, out, q, orig));
        assert(c0.contains(orig));
        assert(after == seq![orig]);
        assert(after[0] == orig);
    }
    assert forall|e: Endpoint|
        !saved_source_fits(saved, live, out, q) && #[trigger] sole_active_source(saved, live, out, q, e)
            implies source_of(out.paths@[q]) == e by {
        assert forall|x: Endpoint| drives_group(t, matched, grouped.group_of@, g, x, n) <==> #[trigger] group_driver(
            saved,
            live,
            out,
            q,
            x,
        ) by {
            if drives_group(t, matched, grouped.group_of@, g, x, n) {
                let p = choose|p: int|
                    0 <= p < n && grouped.group_of@[p] == g && #[trigger] t.active@[matched[p] as int]@.contains(x);
                assert(source_of(saved.paths@[p]) == source_of(saved.paths@[q]));
                lemma_source_route(t, live, matched[p] as int, target_of(out.paths@[p]), x);
                assert(live_active_route(live, x, target_of(out.paths@[p])));
            }
            if group_driver(saved, live, out, q, x) {
                let p = choose|p: int|
                    0 <= p < n && source_of(saved.paths@[p]) == source_of(saved.paths@[q])
                        && #[trigger] live_active_route(live, x, target_of(out.paths@[p]));
                assert(grouped.group_of@[p] == g);
                lemma_source_route(t, live, matched[p] as int, target_of(out.paths@[p]), x);
                assert(t.active@[matched[p] as int]@.contains(x));
            }
        }
        if c0.contains(orig) {
            assert forall|p: int|
                0 <= p < n && source_of(saved.paths@[p]) == source_of(saved.paths@[q])
                    implies #[trigger] live_route(live, orig, target_of(out.paths@[p])) by {
                assert(group_candidate(saved, live, out, q, orig));
            }
        }
        assert(!c0.contains(orig));
        assert(group_candidate(saved, live, out, q, e));
        assert(group_driver(saved, live, out, q, e));
        assert forall|x: Endpoint|
            #[trigger] c0.contains(x) && drives_group(t, matched, grouped.group_of@, g, x, n) implies x == e by {
            assert(group_candidate(saved, live, out, q, x));
            assert(group_driver(saved, live, out, q, x));
        }
        assert(sole_driver(c0, t, matched, grouped.group_of@, g, e));
        assert(after.len() == 1 && sole_driver(c0, t, matched, grouped.group_of@, g, after[0]));
        assert(c0.contains(after[0]) && drives_group(t, matched, grouped.group_of@, g, after[0], grouped.group_of@.len() as int));
        assert(after[0] == e);
        assert(after.contains(sources[q]));
        let j = choose|j: int| 0 <= j < after.len() && after[j] == sources[q];
        assert(j == 0);
    }
}

/// Map entry `e` was made for saved path `p`: its source mode moved to the
/// path's new source, or its target mode moved to the path's new target.
pub open spec fn entry_witness(
    saved: DisplayConfig,
    t: LiveTargets,
    matched: Seq<usize>,
    sources: Seq<Endpoint>,
    e: (u32, Endpoint, u32),
    p: int,
) -> bool {
    ||| e.0 == saved.paths@[p].source.mode_info_idx && e.1 == sources[p]
    ||| saved.paths@[p].target.mode_info_idx != NO_MODE && e.0 == saved.paths@[p].target.mode_info_idx
        && e.1 == t.endpoints@[matched[p] as int]
}

/// Every map entry was made for one of the first `i` saved paths.
pub open spec fn map_witnessed(
    saved: DisplayConfig,
    t: LiveTargets,
    matched: Seq<usize>,
    sources: Seq<Endpoint>,
    map: Seq<(u32, Endpoint, u32)>,
    i: int,
) -> bool {
    forall|j: int| 0 <= j < map.len() ==> witnessed_before(saved, t, matched, sources, #[trigger] map[j], i)
}

/// Map entry `e` was made for one of the first `i` saved paths.
pub open spec fn witnessed_before(
    saved: DisplayConfig,
    t: LiveTargets,
    matched: Seq<usize>,
    sources: Seq<Endpoint>,
    e: (u32, Endpoint, u32),
    i: int,
) -> bool {
    exists|p: int| 0 <= p < i && #[trigger] entry_witness(saved, t, matched, sources, e, p)
}

/// The new paths of the saved paths before `n` reference the map entries made
/// for them.
pub open spec fn paths_mapped(
    saved: DisplayConfig,
    t: LiveTargets,
    matched: Seq<usize>,
    sources: Seq<Endpoint>,
    map: Seq<(u32, Endpoint, u32)>,
    paths: Seq<PathInfo>,
    n: int,
) -> bool {
    forall|q: int|
        0 <= q < n ==> {
            &&& map.contains((saved.paths@[q].source.mode_info_idx, sources[q], (#[trigger] paths[q]).source.mode_info_idx))
            &&& saved.paths@[q].target.mode_info_idx == NO_MODE ==> paths[q].target.mode_info_idx == NO_MODE
            &&& saved.paths@[q].target.mode_info_idx != NO_MODE ==> map.contains(
                (saved.paths@[q].target.mode_info_idx, t.endpoints@[matched[q] as int], paths[q].target.mode_info_idx),
            )
        }
}

/// The facts about the assignment that the rebuilt layout rests on: saved
/// paths keep their clone groups, and distinct paths get distinct targets.
pub open spec fn assignment_facts(
    saved: DisplayConfig,
    t: LiveTargets,
    matched: Seq<usize>,
    sources: Seq<Endpoint>,
) -> bool {
    let n = saved.paths@.len() as int;
    &&& matched.len() == n
    &&& sources.len() == n
    &&& layout_valid(saved.paths@, saved.modes@)
    &&& forall|a: int, b: int|
        0 <= a < t.endpoints@.len() && 0 <= b < t.endpoints@.len() && a != b ==> #[trigger] t.endpoints@[a]
            != #[trigger] t.endpoints@[b]
    &&& forall|q: int| 0 <= q < n ==> #[trigger] matched[q] < t.endpoints@.len()
    &&& forall|p: int, q: int| 0 <= p < n && 0 <= q < n && p != q ==> #[trigger] matched[p] != #[trigger] matched[q]
    &&& forall|p: int, q: int|
        0 <= p < n && 0 <= q < n ==> (source_of(#[trigger] saved.paths@[p]) == source_of(#[trigger] saved.paths@[q])
            <==> sources[p] == sources[q])
}

proof fn lemma_no_conflict(
    saved: DisplayConfig,
    t: LiveTargets,
    matched: Seq<usize>,
    sources: Seq<Endpoint>,
    map: Seq<(u32, Endpoint, u32)>,
    i: int,
    index: u32,
    endpoint: Endpoint,
    is_source: bool,
)
    requires
        assignment_facts(saved, t, matched, sources),
        0 <= i < saved.paths@.len(),
        map_witnessed(saved, t, matched, sources, map, i + 1),
        is_source ==> index == saved.paths@[i].source.mode_info_idx && endpoint == sources[i],
        !is_source ==> index == saved.paths@[i].target.mode_info_idx && index != NO_MODE && endpoint
            == t.endpoints@[matched[i] as int],
    ensures
        forall|j: int| 0 <= j < map.len() && (#[trigger] map[j]).0 == index ==> map[j].1 == endpoint,
{
    let modes = saved.modes@;
    assert(path_ok(saved.paths@[i], modes));
    assert forall|j: int| 0 <= j < map.len() && (#[trigger] map[j]).0 == index implies map[j].1 == endpoint by {
        let p = choose|p: int| 0 <= p < i + 1 && #[trigger] entry_witness(saved, t, matched, sources, map[j], p);
        assert(path_ok(saved.paths@[p], modes));
        if map[j].0 == saved.paths@[p].source.mode_info_idx && map[j].1 == sources[p] {
            if is_source {
                assert(source_of(saved.paths@[p]) == source_of(saved.paths@[i]));
            } else {
                assert(modes[index as int].info_type == MODE_TYPE_SOURCE);
                assert(modes[index as int].info_type == MODE_TYPE_TARGET);
            }
        } else {
            if is_source {
                assert(modes[index as int].info_type == MODE_TYPE_TARGET);
                assert(modes[index as int].info_type == MODE_TYPE_SOURCE);
            } else if p != i {
                assert(target_of(saved.paths@[p]) == target_of(saved.paths@[i]));
                if p < i {
                    assert(target_of(saved.paths@[p]) != target_of(saved.paths@[i]));
                } else {
                    assert(target_of(saved.paths@[i]) != target_of(saved.paths@[p]));
                }
            }
        }
    }
}

proof fn lemma_rebuilt_valid(
    saved: DisplayConfig,
    t: LiveTargets,
    matched: Seq<usize>,
    sources: Seq<Endpoint>,
    map: Seq<(u32, Endpoint, u32)>,
    modes: Seq<ModeInfo>,
    monitors: Seq<MonitorInfo>,
    paths: Seq<PathInfo>,
)
    requires
        assignment_facts(saved, t, matched, sources),
        saved.modes@.len() <= u32::MAX,
        mode_map_ok(map, modes, monitors, saved.modes@),
        map_witnessed(saved, t, matched, sources, map, saved.paths@.len() as int),
        paths_mapped(saved, t, matched, sources, map, paths, saved.paths@.len() as int),
        paths.len() == saved.paths@.len(),
        forall|q: int|
            0 <= q < saved.paths@.len() ==> rerouted(
                #[trigger] paths[q],
                saved.paths@[q],
                sources[q],
                t.endpoints@[matched[q] as int],
                t.technologies@[matched[q] as int],
            ) && modes_carried(paths[q], saved.paths@[q], modes, saved.modes@),
    ensures
        layout_valid(paths, modes),
{
    let n = saved.paths@.len() as int;
    let sm = saved.modes@;
    // mode count
    let keys = Seq::new(map.len(), |a: int| map[a].0 as int);
    assert forall|a: int, b: int| 0 <= a < keys.len() && 0 <= b < keys.len() && a != b implies keys[a] != keys[b] by {
        if a < b {
            assert(map[a].0 != map[b].0);
        } else {
            assert(map[b].0 != map[a].0);
        }
    }
    assert forall|a: int| 0 <= a < keys.len() implies 0 <= #[trigger] keys[a] < sm.len() by {
        assert(map[a].0 < sm.len());
    }
    lemma_distinct_below(keys, sm.len() as int);
    // each rebuilt mode keeps a valid saved mode's type and payload
    assert forall|k: int| 0 <= k < modes.len() implies mode_ok(#[trigger] modes[k]) by {
        assert(relabelled(modes[k], sm[map[k].0 as int], map[k].1));
        assert(mode_ok(sm[map[k].0 as int]));
    }
    assert forall|a: int, b: int|
        0 <= a < b < modes.len() implies !same_mode_key(#[trigger] modes[a], #[trigger] modes[b]) by {
        let p = choose|p: int| 0 <= p < n && #[trigger] entry_witness(saved, t, matched, sources, map[a], p);
        let q = choose|q: int| 0 <= q < n && #[trigger] entry_witness(saved, t, matched, sources, map[b], q);
        assert(path_ok(saved.paths@[p], sm));
        assert(path_ok(saved.paths@[q], sm));
        assert(relabelled(modes[a], sm[map[a].0 as int], map[a].1));
        assert(relabelled(modes[b], sm[map[b].0 as int], map[b].1));
        assert(map[a].0 != map[b].0);
        if same_mode_key(modes[a], modes[b]) {
            let pa_src = map[a].0 == saved.paths@[p].source.mode_info_idx && map[a].1 == sources[p];
            let qb_src = map[b].0 == saved.paths@[q].source.mode_info_idx && map[b].1 == sources[q];
            if pa_src && qb_src {
                assert(sources[p] == sources[q]);
                assert(source_of(saved.paths@[p]) == source_of(saved.paths@[q]));
                if p != q {
                    if p < q {
                        assert(saved.paths@[p].source.mode_info_idx == saved.paths@[q].source.mode_info_idx);
                    } else {
                        assert(saved.paths@[q].source.mode_info_idx == saved.paths@[p].source.mode_info_idx);
                    }
                }
            } else if !pa_src && !qb_src {
                assert(t.endpoints@[matched[p] as int] == t.endpoints@[matched[q] as int]);
                if matched[p] != matched[q] {
                    assert(t.endpoints@[matched[p] as int] != t.endpoints@[matched[q] as int]);
                }
                if p != q {
                    assert(matched[p] != matched[q]);
                }
            } else if pa_src {
                assert(sm[map[a].0 as int].info_type == MODE_TYPE_SOURCE);
                assert(sm[map[b].0 as int].info_type == MODE_TYPE_TARGET);
            } else {
                assert(sm[map[a].0 as int].info_type == MODE_TYPE_TARGET);
                assert(sm[map[b].0 as int].info_type == MODE_TYPE_SOURCE);
            }
        }
    }
    assert forall|i: int| 0 <= i < paths.len() implies path_ok(#[trigger] paths[i], modes) by {
        assert(rerouted(paths[i], saved.paths@[i], sources[i], t.endpoints@[matched[i] as int], t.technologies@[matched[i] as int]));
        assert(modes_carried(paths[i], saved.paths@[i], modes, sm));
        assert(path_ok(saved.paths@[i], sm));
    }
    assert forall|i: int, j: int|
        0 <= i < j < paths.len() implies target_of(#[trigger] paths[i]) != target_of(#[trigger] paths[j]) by {
        assert(rerouted(paths[i], saved.paths@[i], sources[i], t.endpoints@[matched[i] as int], t.technologies@[matched[i] as int]));
        assert(rerouted(paths[j], saved.paths@[j], sources[j], t.endpoints@[matched[j] as int], t.technologies@[matched[j] as int]));
        assert(matched[i] != matched[j]);
        assert(t.endpoints@[matched[i] as int] != t.endpoints@[matched[j] as int]);
    }
    assert forall|i: int, j: int|
        0 <= i < j < paths.len() && source_of(#[trigger] paths[i]) == source_of(#[trigger] paths[j])
            implies paths[i].source.mode_info_idx == paths[j].source.mode_info_idx by {
        assert(rerouted(paths[i], saved.paths@[i], sources[i], t.endpoints@[matched[i] as int], t.technologies@[matched[i] as int]));
        assert(rerouted(paths[j], saved.paths@[j], sources[j], t.endpoints@[matched[j] as int], t.technologies@[matched[j] as int]));
        assert(source_of(saved.paths@[i]) == source_of(saved.paths@[j]));
        let idx = saved.paths@[i].source.mode_info_idx;
        assert(idx == saved.paths@[j].source.mode_info_idx);
        let ea = (idx, sources[i], paths[i].source.mode_info_idx);
        let eb = (idx, sources[j], paths[j].source.mode_info_idx);
        assert(map.contains(ea));
        assert(map.contains(eb));
        let a = choose|a: int| 0 <= a < map.len() && map[a] == ea;
        let b = choose|b: int| 0 <= b < map.len() && map[b] == eb;
        if a != b {
            if a < b {
                assert(map[a].0 != map[b].0);
            } else {
                assert(map[b].0 != map[a].0);
            }
        }
    }
}

proof fn lemma_assignment_facts(
    saved: DisplayConfig,
    live: DisplayConfig,
    t: LiveTargets,
    monitors: Seq<MonitorInfo>,
    matched: Seq<usize>,
    sources: Seq<Endpoint>,
    group_of: Seq<usize>,
)
    requires
        layout_valid(saved.paths@, saved.modes@),
        summarises(t, live, live.paths@.len() as int),
        matched.len() == saved.paths@.len(),
        sources.len() == saved.paths@.len(),
        monitors.len() == saved.paths@.len(),
        group_of.len() == saved.paths@.len(),
        forall|i: int|
            0 <= i < saved.paths@.len() ==> #[trigger] matched[i] < t.endpoints@.len() && opt_text(
                t.identities@[matched[i] as int],
            ) == identity_of(monitors[i]) && identity_of(monitors[i]) is Some,
        forall|i: int, j: int|
            0 <= i < j < saved.paths@.len() ==> identity_of(#[trigger] monitors[i]) != identity_of(
                #[trigger] monitors[j],
            ),
        forall|q: int, p: int|
            0 <= q < saved.paths@.len() && 0 <= p < saved.paths@.len() ==> (source_of(
                #[trigger] saved.paths@[q],
            ) == source_of(#[trigger] saved.paths@[p]) <==> group_of[q] == group_of[p]),
        forall|q: int, p: int|
            0 <= q < saved.paths@.len() && 0 <= p < saved.paths@.len() ==> (#[trigger] group_of[q]
                == #[trigger] group_of[p] <==> sources[q] == sources[p]),
    ensures
        assignment_facts(saved, t, matched, sources),
{
    let n = saved.paths@.len() as int;
    assert forall|a: int, b: int|
        0 <= a < t.endpoints@.len() && 0 <= b < t.endpoints@.len() && a != b implies #[trigger] t.endpoints@[a]
            != #[trigger] t.endpoints@[b] by {
        if a < b {
            assert(t.endpoints@[a] != t.endpoints@[b]);
        } else {
            assert(t.endpoints@[b] != t.endpoints@[a]);
        }
    }
    assert forall|p: int, q: int| 0 <= p < n && 0 <= q < n && p != q implies #[trigger] matched[p] != #[trigger] matched[q] by {
        if matched[p] == matched[q] {
            if p < q {
                assert(identity_of(monitors[p]) != identity_of(monitors[q]));
            } else {
                assert(identity_of(monitors[q]) != identity_of(monitors[p]));
            }
        }
    }
    assert forall|p: int, q: int|
        0 <= p < n && 0 <= q < n implies (source_of(#[trigger] saved.paths@[p]) == source_of(#[trigger] saved.paths@[q])
            <==> sources[p] == sources[q]) by {
        assert(source_of(saved.paths@[p]) == source_of(saved.paths@[q]) <==> group_of[p] == group_of[q]);
        assert(group_of[p] == group_of[q] <==> sources[p] == sources[q]);
    }
}

proof fn lemma_witnessed_step(
    saved: DisplayConfig,
    t: LiveTargets,
    matched: Seq<usize>,
    sources: Seq<Endpoint>,
    before: Seq<(u32, Endpoint, u32)>,
    after: Seq<(u32, Endpoint, u32)>,
    w: int,
    i: int,
)
    requires
        map_witnessed(saved, t, matched, sources, before, w),
        w <= i + 1,
        0 <= i,
        before.len() <= after.len() <= before.len() + 1,
        forall|j: int| 0 <= j < before.len() ==> #[trigger] after[j] == before[j],
        after.len() == before.len() + 1 ==> entry_witness(saved, t, matched, sources, after[before.len() as int], i),
    ensures
        map_witnessed(saved, t, matched, sources, after, i + 1),
{
    assert forall|j: int| 0 <= j < after.len() implies witnessed_before(saved, t, matched, sources, #[trigger] after[j], i + 1) by {
        if j < before.len() {
            assert(after[j] == before[j]);
            assert(exists|p: int| 0 <= p < w && #[trigger] entry_witness(saved, t, matched, sources, before[j], p));
            let p = choose|p: int| 0 <= p < w && #[trigger] entry_witness(saved, t, matched, sources, before[j], p);
            assert(entry_witness(saved, t, matched, sources, after[j], p));
        } else {
            assert(entry_witness(saved, t, matched, sources, after[j], i));
        }
    }
}

proof fn lemma_mapped_step(
    saved: DisplayConfig,
    t: LiveTargets,
    matched: Seq<usize>,
    sources: Seq<Endpoint>,
    map0: Seq<(u32, Endpoint, u32)>,
    map2: Seq<(u32, Endpoint, u32)>,
    prev: Seq<PathInfo>,
    paths: Seq<PathInfo>,
    i: int,
)
    requires
        0 <= i,
        paths_mapped(saved, t, matched, sources, map0, prev, i),
        prev.len() == i,
        paths.len() == i + 1,
        forall|q: int| 0 <= q < i ==> #[trigger] paths[q] == prev[q],
        map0.len() <= map2.len(),
        forall|j: int| 0 <= j < map0.len() ==> #[trigger] map2[j] == map0[j],
        map2.contains((saved.paths@[i].source.mode_info_idx, sources[i], paths[i].source.mode_info_idx)),
        saved.paths@[i].target.mode_info_idx == NO_MODE ==> paths[i].target.mode_info_idx == NO_MODE,
        saved.paths@[i].target.mode_info_idx != NO_MODE ==> map2.contains(
            (saved.paths@[i].target.mode_info_idx, t.endpoints@[matched[i] as int], paths[i].target.mode_info_idx),
        ),
    ensures
        paths_mapped(saved, t, matched, sources, map2, paths, i + 1),
{
    assert forall|q: int| 0 <= q < i + 1 implies {
        &&& map2.contains((saved.paths@[q].source.mode_info_idx, sources[q], (#[trigger] paths[q]).source.mode_info_idx))
        &&& saved.paths@[q].target.mode_info_idx == NO_MODE ==> paths[q].target.mode_info_idx == NO_MODE
        &&& saved.paths@[q].target.mode_info_idx != NO_MODE ==> map2.contains(
            (saved.paths@[q].target.mode_info_idx, t.endpoints@[matched[q] as int], paths[q].target.mode_info_idx),
        )
    } by {
        if q < i {
            assert(paths[q] == prev[q]);
            let e1 = (saved.paths@[q].source.mode_info_idx, sources[q], prev[q].source.mode_info_idx);
            assert(map0.contains(e1));
            let j1 = choose|j: int| 0 <= j < map0.len() && map0[j] == e1;
            assert(map2[j1] == map0[j1]);
            if saved.paths@[q].target.mode_info_idx != NO_MODE {
                let e2 = (saved.paths@[q].target.mode_info_idx, t.endpoints@[matched[q] as int], prev[q].target.mode_info_idx);
                assert(map0.contains(e2));
                let j2 = choose|j: int| 0 <= j < map0.len() && map0[j] == e2;
                assert(map2[j2] == map0[j2]);
            }
        }
    }
}

/// Available live paths carrying monitor identity `id` all lead to target
/// `d`, and at least one does.
pub open spec fn sole_live_target(live: DisplayConfig, id: Seq<char>, d: Endpoint) -> bool {
    &&& exists|k: int|
        0 <= k < live.paths@.len() && #[trigger] available(live, k) && identity_of(live.path_monitors@[k]) == Some(id)
            && target_of(live.paths@[k]) == d
    &&& forall|k: int|
        0 <= k < live.paths@.len() && #[trigger] available(live, k) && identity_of(live.path_monitors@[k]) == Some(id)
            ==> target_of(live.paths@[k]) == d
}

/// A remap only succeeds when every saved monitor has exactly one live
/// target: a saved identity that no available live path carries, or that
/// available live paths carry to two targets, is never remapped.
pub proof fn law_remap_needs_one_live_target(saved: DisplayConfig, live: DisplayConfig, out: DisplayConfig)
    requires
        remapped(saved, live, out),
    ensures
        forall|i: int|
            0 <= i < saved.paths@.len() ==> ((#[trigger] saved_identity(saved, i)) matches Some(id) && sole_live_target(
                live,
                id,
                target_of(out.paths@[i]),
            )),
{
    assert forall|i: int| 0 <= i < saved.paths@.len() implies ((#[trigger] saved_identity(saved, i)) matches Some(id)
        && sole_live_target(live, id, target_of(out.paths@[i]))) by {
        assert(saved_monitor_of(saved, i) == Some(out.path_monitors@[i]));
        let id = identity_of(out.path_monitors@[i])->0;
        assert(has_live_target(live, out, i));
        let k = choose|k: int| 0 <= k < live.paths@.len() && #[trigger] live_match(live, k, out.paths@[i], out.path_monitors@[i]);
        assert(available(live, k));
    }
}

/// Live source `c` can drive the target `dst[p]` of every path `p` cloned
/// from the saved source of path `q`.
pub open spec fn route_candidate(saved: DisplayConfig, live: DisplayConfig, dst: Seq<Endpoint>, q: int, c: Endpoint) -> bool {
    forall|p: int|
        0 <= p < saved.paths@.len() && source_of(saved.paths@[p]) == source_of(saved.paths@[q])
            ==> #[trigger] live_route(live, c, dst[p])
}

/// Live source `c` currently drives the target `dst[p]` of some path `p`
/// cloned from the saved source of path `q`.
pub open spec fn route_driver(saved: DisplayConfig, live: DisplayConfig, dst: Seq<Endpoint>, q: int, c: Endpoint) -> bool {
    exists|p: int|
        0 <= p < saved.paths@.len() && source_of(saved.paths@[p]) == source_of(saved.paths@[q])
            && #[trigger] live_active_route(live, c, dst[p])
}

/// `e` is the only candidate of the clone group of path `q` that currently
/// drives one of its targets.
pub open spec fn sole_route_driver(saved: DisplayConfig, live: DisplayConfig, dst: Seq<Endpoint>, q: int, e: Endpoint) -> bool {
    &&& route_candidate(saved, live, dst, q, e)
    &&& route_driver(saved, live, dst, q, e)
    &&& forall|x: Endpoint|
        #[trigger] route_candidate(saved, live, dst, q, x) && route_driver(saved, live, dst, q, x) ==> x == e
}

/// `c` is one of the sources left to the clone group of path `q` before any
/// comparison with other groups: its saved source when that can still drive
/// all of the group's targets, else the only candidate that currently drives
/// one of them when there is one, else any candidate.
pub open spec fn narrowed_choice(saved: DisplayConfig, live: DisplayConfig, dst: Seq<Endpoint>, q: int, c: Endpoint) -> bool {
    if route_candidate(saved, live, dst, q, source_of(saved.paths@[q])) {
        c == source_of(saved.paths@[q])
    } else if exists|e: Endpoint| sole_route_driver(saved, live, dst, q, e) {
        sole_route_driver(saved, live, dst, q, c)
    } else {
        route_candidate(saved, live, dst, q, c)
    }
}

/// A remap of `saved` onto `live` that nothing stands in the way of: a valid
/// saved layout, a consistent live snapshot, one usable identity per saved
/// path, all different, each leading to exactly one available live target
/// `dst[i]`, and a source `chosen[i]` per clone group that the groups leave
/// to each other unambiguously: every source left to a group is its own or
/// that of a group of lower `rank`.
pub open spec fn remap_owed(
    saved: DisplayConfig,
    live: DisplayConfig,
    dst: Seq<Endpoint>,
    chosen: Seq<Endpoint>,
    rank: Seq<int>,
) -> bool {
    let n = saved.paths@.len();
    &&& n > 0
    &&& layout_valid(saved.paths@, saved.modes@)
    &&& saved.path_monitors@.len() == 0 || saved.path_monitors@.len() == n
    &&& live_consistent(live)
    &&& dst.len() == n
    &&& chosen.len() == n
    &&& rank.len() == n
    &&& forall|i: int|
        0 <= i < n ==> !saved_conflict(saved, i) && ((#[trigger] saved_identity(saved, i)) matches Some(id)
            && sole_live_target(live, id, dst[i]))
    &&& forall|i: int, j: int|
        0 <= i < j < n ==> #[trigger] saved_identity(saved, i) != #[trigger] saved_identity(saved, j)
    &&& forall|q: int| 0 <= q < n ==> narrowed_choice(saved, live, dst, q, #[trigger] chosen[q])
    &&& forall|q: int, c: Endpoint|
        0 <= q < n && #[trigger] narrowed_choice(saved, live, dst, q, c) ==> c == chosen[q] || exists|p: int|
            0 <= p < n && rank[p] < rank[q] && #[trigger] chosen[p] == c
    &&& forall|p: int, q: int|
        0 <= p < n && 0 <= q < n ==> (source_of(#[trigger] saved.paths@[p]) == source_of(#[trigger] saved.paths@[q])
            <==> chosen[p] == chosen[q])
    &&& forall|p: int, q: int|
        0 <= p < n && 0 <= q < n && source_of(#[trigger] saved.paths@[p]) == source_of(#[trigger] saved.paths@[q])
            ==> rank[p] == rank[q]
}

/// Saved path `i` has a usable monitor identity that no earlier path has,
/// and that leads to exactly one available live target.
pub open spec fn path_target_ok(saved: DisplayConfig, live: DisplayConfig, i: int) -> bool {
    &&& !saved_conflict(saved, i)
    &&& saved_identity(saved, i) is Some
    &&& forall|j: int| 0 <= j < i ==> #[trigger] saved_identity(saved, j) != saved_identity(saved, i)
    &&& exists|d: Endpoint| #[trigger] sole_live_target(live, saved_identity(saved, i)->0, d)
}

/// `e` is the refusal for saved path `i` when its target check fails: two
/// saved records disagree (an invalid configuration), it has no usable
/// identity, an earlier path has its identity (an invalid configuration), or
/// no available live path carries it ("missing") or available live paths
/// carry it to several targets ("multiple live targets").
pub open spec fn path_target_refusal(saved: DisplayConfig, live: DisplayConfig, i: int, e: CcdError) -> bool {
    if saved_conflict(saved, i) {
        e is InvalidConfig
    } else if saved_identity(saved, i) is None {
        e matches CcdError::Remap(m) && m@ == "saved path "@ + decimal((i + 1) as nat) + no_identity_tail()
    } else if exists|j: int| 0 <= j < i && #[trigger] saved_identity(saved, j) == saved_identity(saved, i) {
        e is InvalidConfig
    } else {
        e matches CcdError::Remap(m) && live_count_error(saved, live, i, m@)
    }
}

proof fn lemma_record_path(saved: DisplayConfig, live: DisplayConfig, t: LiveTargets, i: int, e: CcdError)
    requires
        summarises(t, live, live.paths@.len() as int),
        0 <= i < saved.paths@.len(),
    ensures
        record_ok(saved, t, i) == path_target_ok(saved, live, i),
        !record_ok(saved, t, i) && record_refusal(saved, t, i, e) ==> path_target_refusal(saved, live, i, e),
{
    let ln = live.paths@.len() as int;
    if !saved_conflict(saved, i) && saved_identity(saved, i) is Some {
        let id = saved_identity(saved, i)->0;
        if record_ok(saved, t, i) {
            let a = choose|a: int| 0 <= a < t.identities@.len() && opt_text(#[trigger] t.identities@[a]) == saved_identity(saved, i);
            assert(has_origin(t, live, ln, a));
            let k = choose|k: int| 0 <= k < ln && #[trigger] describes(t, a, live, k);
            let d = t.endpoints@[a];
            assert(available(live, k));
            assert forall|k2: int|
                0 <= k2 < ln && #[trigger] available(live, k2) && identity_of(live.path_monitors@[k2]) == Some(id)
                    implies target_of(live.paths@[k2]) == d by {
                assert(covered(t, live, k2));
                let b = choose|b: int| 0 <= b < t.endpoints@.len() && #[trigger] describes(t, b, live, k2);
                assert(opt_text(t.identities@[b]) == saved_identity(saved, i));
            }
            assert(sole_live_target(live, id, d));
        }
        if path_target_ok(saved, live, i) {
            let d = choose|d: Endpoint| #[trigger] sole_live_target(live, id, d);
            let k = choose|k: int|
                0 <= k < ln && #[trigger] available(live, k) && identity_of(live.path_monitors@[k]) == Some(id)
                    && target_of(live.paths@[k]) == d;
            assert(covered(t, live, k));
            let a = choose|a: int| 0 <= a < t.endpoints@.len() && #[trigger] describes(t, a, live, k);
            assert(opt_text(t.identities@[a]) == saved_identity(saved, i));
            assert forall|a1: int, b1: int|
                0 <= a1 < t.identities@.len() && 0 <= b1 < t.identities@.len() && opt_text(#[trigger] t.identities@[a1])
                    == saved_identity(saved, i) && opt_text(#[trigger] t.identities@[b1]) == saved_identity(saved, i)
                    implies a1 == b1 by {
                assert(has_origin(t, live, ln, a1));
                assert(has_origin(t, live, ln, b1));
                let k1 = choose|k: int| 0 <= k < ln && #[trigger] describes(t, a1, live, k);
                let k2 = choose|k: int| 0 <= k < ln && #[trigger] describes(t, b1, live, k);
                assert(available(live, k1) && available(live, k2));
                if a1 < b1 {
                    assert(t.endpoints@[a1] != t.endpoints@[b1]);
                } else if b1 < a1 {
                    assert(t.endpoints@[b1] != t.endpoints@[a1]);
                }
            }
        }
    }
    if !record_ok(saved, t, i) && record_refusal(saved, t, i, e) {
        if !saved_conflict(saved, i) && saved_identity(saved, i) is Some && !(exists|j: int|
            0 <= j < i && #[trigger] saved_identity(saved, j) == saved_identity(saved, i)) {
            let m = e->Remap_0;
            lemma_live_count_error(saved, live, t, i, m@);
        }
    }
}

proof fn lemma_targets_owed(
    saved: DisplayConfig,
    live: DisplayConfig,
    t: LiveTargets,
    dst: Seq<Endpoint>,
    chosen: Seq<Endpoint>,
    rank: Seq<int>,
)
    requires
        remap_owed(saved, live, dst, chosen, rank),
        summarises(t, live, live.paths@.len() as int),
    ensures
        targets_owed(saved, t),
        forall|i: int, a: int|
            0 <= i < saved.paths@.len() && 0 <= a < t.identities@.len() && opt_text(#[trigger] t.identities@[a])
                == #[trigger] saved_identity(saved, i) ==> t.endpoints@[a] == dst[i],
{
    let n = saved.paths@.len() as int;
    let ln = live.paths@.len() as int;
    assert forall|i: int, a: int|
        0 <= i < n && 0 <= a < t.identities@.len() && opt_text(#[trigger] t.identities@[a])
            == #[trigger] saved_identity(saved, i) implies t.endpoints@[a] == dst[i] by {
        let id = saved_identity(saved, i)->0;
        assert(sole_live_target(live, id, dst[i]));
        assert(has_origin(t, live, ln, a));
        let k = choose|k: int| 0 <= k < ln && #[trigger] describes(t, a, live, k);
        assert(available(live, k));
    }
    assert forall|i: int| 0 <= i < n implies exists|a: int|
        0 <= a < t.identities@.len() && opt_text(#[trigger] t.identities@[a]) == #[trigger] saved_identity(saved, i) by {
        let id = saved_identity(saved, i)->0;
        assert(sole_live_target(live, id, dst[i]));
        let k = choose|k: int|
            0 <= k < ln && #[trigger] available(live, k) && identity_of(live.path_monitors@[k]) == Some(id)
                && target_of(live.paths@[k]) == dst[i];
        assert(covered(t, live, k));
        let a = choose|a: int| 0 <= a < t.endpoints@.len() && #[trigger] describes(t, a, live, k);
        assert(opt_text(t.identities@[a]) == saved_identity(saved, i));
    }
    assert forall|i: int, a: int, b: int|
        0 <= i < n && 0 <= a < t.identities@.len() && 0 <= b < t.identities@.len() && opt_text(
            #[trigger] t.identities@[a],
        ) == #[trigger] saved_identity(saved, i) && opt_text(#[trigger] t.identities@[b]) == saved_identity(saved, i)
            implies a == b by {
        assert(t.endpoints@[a] == dst[i]);
        assert(t.endpoints@[b] == dst[i]);
        if a < b {
            assert(t.endpoints@[a] != t.endpoints@[b]);
        } else if b < a {
            assert(t.endpoints@[b] != t.endpoints@[a]);
        }
    }
}

proof fn lemma_owed_targets(
    saved: DisplayConfig,
    live: DisplayConfig,
    t: LiveTargets,
    monitors: Seq<MonitorInfo>,
    matched: Seq<usize>,
    dst: Seq<Endpoint>,
    chosen: Seq<Endpoint>,
    rank: Seq<int>,
)
    requires
        remap_owed(saved, live, dst, chosen, rank),
        summarises(t, live, live.paths@.len() as int),
        monitors.len() == saved.paths@.len(),
        matched.len() == saved.paths@.len(),
        saved_prefix(saved, monitors),
        forall|i: int|
            0 <= i < saved.paths@.len() ==> #[trigger] matched[i] < t.endpoints@.len() && opt_text(
                t.identities@[matched[i] as int],
            ) == identity_of(monitors[i]),
    ensures
        forall|p: int|
            0 <= p < saved.paths@.len() ==> #[trigger] matched[p] < t.endpoints@.len() && t.endpoints@[matched[p] as int]
                == dst[p],
{
    lemma_targets_owed(saved, live, t, dst, chosen, rank);
    assert forall|p: int| 0 <= p < saved.paths@.len() implies #[trigger] matched[p] < t.endpoints@.len()
        && t.endpoints@[matched[p] as int] == dst[p] by {
        assert(saved_monitor_of(saved, p) == Some(monitors[p]));
        assert(saved_identity(saved, p) == identity_of(monitors[p]));
        assert(opt_text(t.identities@[matched[p] as int]) == saved_identity(saved, p));
    }
}

proof fn lemma_choice_by_source(saved: DisplayConfig, live: DisplayConfig, dst: Seq<Endpoint>, p: int, q: int)
    requires
        0 <= p < saved.paths@.len(),
        0 <= q < saved.paths@.len(),
        source_of(saved.paths@[p]) == source_of(saved.paths@[q]),
    ensures
        forall|x: Endpoint| #[trigger] narrowed_choice(saved, live, dst, p, x) == narrowed_choice(saved, live, dst, q, x),
{
    assert forall|y: Endpoint| #[trigger] route_candidate(saved, live, dst, p, y) == route_candidate(saved, live, dst, q, y) by {
        if route_candidate(saved, live, dst, p, y) {
            assert forall|r: int|
                0 <= r < saved.paths@.len() && source_of(saved.paths@[r]) == source_of(saved.paths@[q])
                    implies #[trigger] live_route(live, y, dst[r]) by {}
        }
        if route_candidate(saved, live, dst, q, y) {
            assert forall|r: int|
                0 <= r < saved.paths@.len() && source_of(saved.paths@[r]) == source_of(saved.paths@[p])
                    implies #[trigger] live_route(live, y, dst[r]) by {}
        }
    }
    assert forall|y: Endpoint| #[trigger] route_driver(saved, live, dst, p, y) == route_driver(saved, live, dst, q, y) by {
        if route_driver(saved, live, dst, p, y) {
            let r = choose|r: int|
                0 <= r < saved.paths@.len() && source_of(saved.paths@[r]) == source_of(saved.paths@[p])
                    && #[trigger] live_active_route(live, y, dst[r]);
            assert(route_driver(saved, live, dst, q, y));
        }
        if route_driver(saved, live, dst, q, y) {
            let r = choose|r: int|
                0 <= r < saved.paths@.len() && source_of(saved.paths@[r]) == source_of(saved.paths@[q])
                    && #[trigger] live_active_route(live, y, dst[r]);
            assert(route_driver(saved, live, dst, p, y));
        }
    }
    assert forall|y: Endpoint| #[trigger] sole_route_driver(saved, live, dst, p, y) == sole_route_driver(saved, live, dst, q, y) by {
        if sole_route_driver(saved, live, dst, p, y) {
            assert forall|z: Endpoint|
                #[trigger] route_candidate(saved, live, dst, q, z) && route_driver(saved, live, dst, q, z) implies z == y by {
                assert(route_candidate(saved, live, dst, p, z));
                assert(route_driver(saved, live, dst, p, z));
            }
        }
        if sole_route_driver(saved, live, dst, q, y) {
            assert forall|z: Endpoint|
                #[trigger] route_candidate(saved, live, dst, p, z) && route_driver(saved, live, dst, p, z) implies z == y by {
                assert(route_candidate(saved, live, dst, q, z));
                assert(route_driver(saved, live, dst, q, z));
            }
        }
    }
    assert(route_candidate(saved, live, dst, p, source_of(saved.paths@[p])) == route_candidate(saved, live, dst, q, source_of(saved.paths@[q])));
    if exists|e: Endpoint| sole_route_driver(saved, live, dst, p, e) {
        let e = choose|e: Endpoint| sole_route_driver(saved, live, dst, p, e);
        assert(sole_route_driver(saved, live, dst, q, e));
    }
    if exists|e: Endpoint| sole_route_driver(saved, live, dst, q, e) {
        let e = choose|e: Endpoint| sole_route_driver(saved, live, dst, q, e);
        assert(sole_route_driver(saved, live, dst, p, e));
    }
}

proof fn lemma_narrowed_exact(
    saved: DisplayConfig,
    live: DisplayConfig,
    t: LiveTargets,
    matched: Seq<usize>,
    dst: Seq<Endpoint>,
    grouped: SourceGroups,
    narrowed_groups: SourceGroups,
)
    requires
        dst.len() == saved.paths@.len(),
        summarises(t, live, live.paths@.len() as int),
        forall|k: int| 0 <= k < live.paths@.len() && #[trigger] available(live, k) ==> route_recorded(t, live, k),
        actives_from_live(t, live, live.paths@.len() as int),
        matched.len() == saved.paths@.len(),
        forall|p: int|
            0 <= p < saved.paths@.len() ==> #[trigger] matched[p] < t.endpoints@.len() && t.endpoints@[matched[p] as int]
                == dst[p],
        groups_ok(grouped, saved.paths@, saved.paths@.len() as int),
        candidates_ok(grouped.candidates@, grouped.group_of@, t, matched),
        forall|g: int, c: Endpoint|
            0 <= g < grouped.candidates@.len() && common_source(t, matched, grouped.group_of@, g, c, saved.paths@.len() as int)
                ==> #[trigger] grouped.candidates@[g]@.contains(c),
        forall|a: int, b: int|
            0 <= a < saved.paths@.len() && 0 <= b < saved.paths@.len() ==> (source_of(#[trigger] saved.paths@[a])
                == source_of(#[trigger] saved.paths@[b]) <==> grouped.group_of@[a] == grouped.group_of@[b]),
        narrowed_groups.candidates@.len() == grouped.candidates@.len(),
        forall|g: int|
            0 <= g < grouped.candidates@.len() ==> narrowed(
                grouped.candidates@[g]@,
                grouped.originals@[g],
                t,
                matched,
                grouped.group_of@,
                g,
                #[trigger] narrowed_groups.candidates@[g]@,
            ),
    ensures
        forall|g: int, x: Endpoint|
            0 <= g < grouped.candidates@.len() ==> (#[trigger] narrowed_groups.candidates@[g]@.contains(x)
                <==> narrowed_choice(saved, live, dst, grouped.first@[g] as int, x)),
{
    let n = saved.paths@.len() as int;
    let count = grouped.candidates@.len() as int;
    assert forall|p: int, x: Endpoint| 0 <= p < n implies (t.sources@[matched[p] as int]@.contains(x) <==> live_route(
        live,
        x,
        dst[p],
    )) && (#[trigger] t.active@[matched[p] as int]@.contains(x) <==> live_active_route(live, x, dst[p])) by {
        lemma_source_route(t, live, matched[p] as int, dst[p], x);
    }
    assert forall|g: int, x: Endpoint| 0 <= g < count implies (#[trigger] narrowed_groups.candidates@[g]@.contains(x)
        <==> narrowed_choice(saved, live, dst, grouped.first@[g] as int, x)) by {
        let q = grouped.first@[g] as int;
        assert(grouped.group_of@[q] == g);
        let c0 = grouped.candidates@[g]@;
        let orig = source_of(saved.paths@[q]);
        assert(grouped.originals@[g] == orig);
        assert forall|y: Endpoint| c0.contains(y) <==> #[trigger] route_candidate(saved, live, dst, q, y) by {
            if c0.contains(y) {
                assert forall|p: int|
                    0 <= p < n && source_of(saved.paths@[p]) == source_of(saved.paths@[q])
                        implies #[trigger] live_route(live, y, dst[p]) by {
                    assert(grouped.group_of@[p] == g);
                    assert(t.sources@[matched[p] as int]@.contains(y));
                    lemma_source_route(t, live, matched[p] as int, dst[p], y);
                }
            }
            if route_candidate(saved, live, dst, q, y) {
                assert forall|p: int| 0 <= p < n && grouped.group_of@[p] == g implies #[trigger] t.sources@[matched[p] as int]@.contains(
                    y,
                ) by {
                    assert(source_of(saved.paths@[p]) == source_of(saved.paths@[q]));
                    assert(live_route(live, y, dst[p]));
                    lemma_source_route(t, live, matched[p] as int, dst[p], y);
                }
                assert(common_source(t, matched, grouped.group_of@, g, y, n));
            }
        }
        assert forall|y: Endpoint| drives_group(t, matched, grouped.group_of@, g, y, n) <==> #[trigger] route_driver(
            saved,
            live,
            dst,
            q,
            y,
        ) by {
            if drives_group(t, matched, grouped.group_of@, g, y, n) {
                let p = choose|p: int|
                    0 <= p < n && grouped.group_of@[p] == g && #[trigger] t.active@[matched[p] as int]@.contains(y);
                assert(source_of(saved.paths@[p]) == source_of(saved.paths@[q]));
                lemma_source_route(t, live, matched[p] as int, dst[p], y);
                assert(live_active_route(live, y, dst[p]));
            }
            if route_driver(saved, live, dst, q, y) {
                let p = choose|p: int|
                    0 <= p < n && source_of(saved.paths@[p]) == source_of(saved.paths@[q])
                        && #[trigger] live_active_route(live, y, dst[p]);
                assert(grouped.group_of@[p] == g);
                lemma_source_route(t, live, matched[p] as int, dst[p], y);
                assert(t.active@[matched[p] as int]@.contains(y));
            }
        }
        assert forall|y: Endpoint| sole_driver(c0, t, matched, grouped.group_of@, g, y) <==> #[trigger] sole_route_driver(
            saved,
            live,
            dst,
            q,
            y,
        ) by {
            if sole_driver(c0, t, matched, grouped.group_of@, g, y) {
                assert forall|z: Endpoint|
                    #[trigger] route_candidate(saved, live, dst, q, z) && route_driver(saved, live, dst, q, z) implies z == y by {
                    assert(c0.contains(z));
                    assert(drives_group(t, matched, grouped.group_of@, g, z, n));
                }
            }
            if sole_route_driver(saved, live, dst, q, y) {
                assert forall|z: Endpoint|
                    #[trigger] c0.contains(z) && drives_group(t, matched, grouped.group_of@, g, z, n) implies z == y by {
                    assert(route_candidate(saved, live, dst, q, z));
                    assert(route_driver(saved, live, dst, q, z));
                }
            }
        }
        let after = narrowed_groups.candidates@[g]@;
        assert(narrowed(c0, orig, t, matched, grouped.group_of@, g, after));
        if route_candidate(saved, live, dst, q, orig) {
            assert(c0.contains(orig));
            assert(after == seq![orig]);
            if after.contains(x) {
                let k = choose|k: int| 0 <= k < after.len() && after[k] == x;
                assert(k == 0);
            }
            if x == orig {
                assert(after[0] == x);
            }
        } else if exists|e: Endpoint| sole_route_driver(saved, live, dst, q, e) {
            let e = choose|e: Endpoint| sole_route_driver(saved, live, dst, q, e);
            assert(!c0.contains(orig));
            assert(sole_driver(c0, t, matched, grouped.group_of@, g, e));
            assert(after.len() == 1 && sole_driver(c0, t, matched, grouped.group_of@, g, after[0]));
            assert(sole_route_driver(saved, live, dst, q, after[0]));
            assert(after[0] == e);
            if after.contains(x) {
                let k = choose|k: int| 0 <= k < after.len() && after[k] == x;
                assert(k == 0);
            }
            if sole_route_driver(saved, live, dst, q, x) {
                assert(route_candidate(saved, live, dst, q, x) && route_driver(saved, live, dst, q, x));
                assert(x == e);
                assert(after[0] == x);
            }
        } else {
            assert(!c0.contains(orig));
            if exists|e: Endpoint| sole_driver(c0, t, matched, grouped.group_of@, g, e) {
                let e = choose|e: Endpoint| sole_driver(c0, t, matched, grouped.group_of@, g, e);
                assert(sole_route_driver(saved, live, dst, q, e));
            }
            assert(after == c0);
        }
    }
}

proof fn lemma_peelable(
    saved: DisplayConfig,
    live: DisplayConfig,
    t: LiveTargets,
    matched: Seq<usize>,
    dst: Seq<Endpoint>,
    chosen: Seq<Endpoint>,
    rank: Seq<int>,
    grouped: SourceGroups,
    narrowed_groups: SourceGroups,
)
    requires
        remap_owed(saved, live, dst, chosen, rank),
        summarises(t, live, live.paths@.len() as int),
        forall|k: int| 0 <= k < live.paths@.len() && #[trigger] available(live, k) ==> route_recorded(t, live, k),
        actives_from_live(t, live, live.paths@.len() as int),
        matched.len() == saved.paths@.len(),
        forall|p: int|
            0 <= p < saved.paths@.len() ==> #[trigger] matched[p] < t.endpoints@.len() && t.endpoints@[matched[p] as int]
                == dst[p],
        groups_ok(grouped, saved.paths@, saved.paths@.len() as int),
        candidates_ok(grouped.candidates@, grouped.group_of@, t, matched),
        forall|g: int, c: Endpoint|
            0 <= g < grouped.candidates@.len() && common_source(t, matched, grouped.group_of@, g, c, saved.paths@.len() as int)
                ==> #[trigger] grouped.candidates@[g]@.contains(c),
        forall|a: int, b: int|
            0 <= a < saved.paths@.len() && 0 <= b < saved.paths@.len() ==> (source_of(#[trigger] saved.paths@[a])
                == source_of(#[trigger] saved.paths@[b]) <==> grouped.group_of@[a] == grouped.group_of@[b]),
        narrowed_groups.candidates@.len() == grouped.candidates@.len(),
        forall|g: int|
            0 <= g < grouped.candidates@.len() ==> narrowed(
                grouped.candidates@[g]@,
                grouped.originals@[g],
                t,
                matched,
                grouped.group_of@,
                g,
                #[trigger] narrowed_groups.candidates@[g]@,
            ),
    ensures
        peelable(
            narrowed_groups.candidates@,
            Seq::new(grouped.candidates@.len(), |g: int| chosen[grouped.first@[g] as int]),
            Seq::new(grouped.candidates@.len(), |g: int| rank[grouped.first@[g] as int]),
        ),
{
    let n = saved.paths@.len() as int;
    let count = grouped.candidates@.len() as int;
    let cg = Seq::new(grouped.candidates@.len(), |g: int| chosen[grouped.first@[g] as int]);
    let rg = Seq::new(grouped.candidates@.len(), |g: int| rank[grouped.first@[g] as int]);
    lemma_narrowed_exact(saved, live, t, matched, dst, grouped, narrowed_groups);
    assert forall|g: int| 0 <= g < count implies (#[trigger] narrowed_groups.candidates@[g])@.contains(cg[g]) by {
        let q = grouped.first@[g] as int;
        assert(narrowed_choice(saved, live, dst, q, chosen[q]));
        assert(narrowed_groups.candidates@[g]@.contains(cg[g]));
    }
    assert forall|g: int, x: Endpoint|
        0 <= g < count && #[trigger] narrowed_groups.candidates@[g]@.contains(x) implies x == cg[g] || exists|h: int|
            0 <= h < count && rg[h] < rg[g] && #[trigger] cg[h] == x by {
        let q = grouped.first@[g] as int;
        assert(narrowed_choice(saved, live, dst, q, x));
        if x != chosen[q] {
            let p = choose|p: int| 0 <= p < n && rank[p] < rank[q] && #[trigger] chosen[p] == x;
            let h = grouped.group_of@[p] as int;
            let f = grouped.first@[h] as int;
            assert(grouped.group_of@[f] == h);
            assert(source_of(saved.paths@[f]) == source_of(saved.paths@[p]));
            assert(chosen[f] == chosen[p]);
            assert(rank[f] == rank[p]);
            assert(cg[h] == x);
            assert(rg[h] < rg[g]);
        }
    }
    assert forall|g: int, h: int| 0 <= g < count && 0 <= h < count && g != h implies #[trigger] cg[g] != #[trigger] cg[h] by {
        let qg = grouped.first@[g] as int;
        let qh = grouped.first@[h] as int;
        assert(grouped.group_of@[qg] == g);
        assert(grouped.group_of@[qh] == h);
        assert(source_of(saved.paths@[qg]) != source_of(saved.paths@[qh]));
    }
}

/// The clone group of path `q` has a source left to it (see [`narrowed_choice`]).
pub open spec fn has_choice(saved: DisplayConfig, live: DisplayConfig, dst: Seq<Endpoint>, q: int) -> bool {
    exists|x: Endpoint| #[trigger] narrowed_choice(saved, live, dst, q, x)
}

/// Every clone group has a source left to it, and no source is left to two
/// groups.
pub open spec fn choices_apart(saved: DisplayConfig, live: DisplayConfig, dst: Seq<Endpoint>) -> bool {
    &&& forall|q: int| 0 <= q < saved.paths@.len() ==> #[trigger] has_choice(saved, live, dst, q)
    &&& forall|p: int, q: int, x: Endpoint|
        0 <= p < saved.paths@.len() && 0 <= q < saved.paths@.len() && source_of(saved.paths@[p]) != source_of(
            saved.paths@[q],
        ) && #[trigger] narrowed_choice(saved, live, dst, p, x) ==> !#[trigger] narrowed_choice(saved, live, dst, q, x)
}

proof fn lemma_dst_matched(
    saved: DisplayConfig,
    live: DisplayConfig,
    t: LiveTargets,
    monitors: Seq<MonitorInfo>,
    matched: Seq<usize>,
    dst: Seq<Endpoint>,
)
    requires
        summarises(t, live, live.paths@.len() as int),
        monitors.len() == saved.paths@.len(),
        matched.len() == saved.paths@.len(),
        saved_prefix(saved, monitors),
        forall|i: int|
            0 <= i < saved.paths@.len() ==> #[trigger] matched[i] < t.endpoints@.len() && opt_text(
                t.identities@[matched[i] as int],
            ) == identity_of(monitors[i]) && identity_of(monitors[i]) is Some,
        dst.len() == saved.paths@.len(),
        forall|p: int|
            0 <= p < saved.paths@.len() ==> sole_live_target(live, saved_identity(saved, p)->0, #[trigger] dst[p]),
    ensures
        forall|p: int| 0 <= p < saved.paths@.len() ==> #[trigger] matched[p] < t.endpoints@.len() && t.endpoints@[matched[p] as int]
            == dst[p],
{
    let ln = live.paths@.len() as int;
    assert forall|p: int| 0 <= p < saved.paths@.len() implies #[trigger] matched[p] < t.endpoints@.len()
        && t.endpoints@[matched[p] as int] == dst[p] by {
        assert(saved_monitor_of(saved, p) == Some(monitors[p]));
        let a = matched[p] as int;
        assert(has_origin(t, live, ln, a));
        let k = choose|k: int| 0 <= k < ln && #[trigger] describes(t, a, live, k);
        assert(available(live, k));
        assert(sole_live_target(live, saved_identity(saved, p)->0, dst[p]));
    }
}

proof fn lemma_owed_from_ok(
    saved: DisplayConfig,
    live: DisplayConfig,
    t: LiveTargets,
    monitors: Seq<MonitorInfo>,
    matched: Seq<usize>,
    grouped: SourceGroups,
    narrowed_groups: SourceGroups,
    sources: Seq<Endpoint>,
    cg: Seq<Endpoint>,
    rg: Seq<int>,
    dst: Seq<Endpoint>,
    rank: Seq<int>,
)
    requires
        saved.paths@.len() > 0,
        layout_valid(saved.paths@, saved.modes@),
        saved.path_monitors@.len() == 0 || saved.path_monitors@.len() == saved.paths@.len(),
        live_consistent(live),
        summarises(t, live, live.paths@.len() as int),
        forall|k: int| 0 <= k < live.paths@.len() && #[trigger] available(live, k) ==> route_recorded(t, live, k),
        actives_from_live(t, live, live.paths@.len() as int),
        monitors.len() == saved.paths@.len(),
        matched.len() == saved.paths@.len(),
        saved_prefix(saved, monitors),
        forall|i: int|
            0 <= i < saved.paths@.len() ==> #[trigger] matched[i] < t.endpoints@.len() && opt_text(
                t.identities@[matched[i] as int],
            ) == identity_of(monitors[i]) && identity_of(monitors[i]) is Some,
        forall|i: int, a: int|
            0 <= i < saved.paths@.len() && 0 <= a < t.endpoints@.len() && opt_text(#[trigger] t.identities@[a])
                == identity_of(#[trigger] monitors[i]) ==> a == matched[i],
        forall|i: int, j: int|
            0 <= i < j < saved.paths@.len() ==> identity_of(#[trigger] monitors[i]) != identity_of(#[trigger] monitors[j]),
        dst.len() == saved.paths@.len(),
        forall|p: int| 0 <= p < saved.paths@.len() ==> #[trigger] dst[p] == t.endpoints@[matched[p] as int],
        groups_ok(grouped, saved.paths@, saved.paths@.len() as int),
        candidates_ok(grouped.candidates@, grouped.group_of@, t, matched),
        forall|g: int, c: Endpoint|
            0 <= g < grouped.candidates@.len() && common_source(t, matched, grouped.group_of@, g, c, saved.paths@.len() as int)
                ==> #[trigger] grouped.candidates@[g]@.contains(c),
        forall|a: int, b: int|
            0 <= a < saved.paths@.len() && 0 <= b < saved.paths@.len() ==> (source_of(#[trigger] saved.paths@[a])
                == source_of(#[trigger] saved.paths@[b]) <==> grouped.group_of@[a] == grouped.group_of@[b]),
        narrowed_groups.candidates@.len() == grouped.candidates@.len(),
        forall|g: int|
            0 <= g < grouped.candidates@.len() ==> narrowed(
                grouped.candidates@[g]@,
                grouped.originals@[g],
                t,
                matched,
                grouped.group_of@,
                g,
                #[trigger] narrowed_groups.candidates@[g]@,
            ),
        sources.len() == saved.paths@.len(),
        peelable(narrowed_groups.candidates@, cg, rg),
        forall|q: int| 0 <= q < saved.paths@.len() ==> #[trigger] sources[q] == cg[grouped.group_of@[q] as int],
        rank.len() == saved.paths@.len(),
        forall|q: int| 0 <= q < saved.paths@.len() ==> #[trigger] rank[q] == rg[grouped.group_of@[q] as int],
    ensures
        remap_owed(saved, live, dst, sources, rank),
{
    let n = saved.paths@.len() as int;
    let ln = live.paths@.len() as int;
    let count = grouped.candidates@.len() as int;
    assert forall|i: int| 0 <= i < n implies !saved_conflict(saved, i) && ((#[trigger] saved_identity(saved, i)) matches Some(id)
        && sole_live_target(live, id, dst[i])) by {
        assert(saved_monitor_of(saved, i) == Some(monitors[i]));
        let id = identity_of(monitors[i])->0;
        assert(saved_identity(saved, i) == Some(id));
        let a = matched[i] as int;
        assert(has_origin(t, live, ln, a));
        let k = choose|k: int| 0 <= k < ln && #[trigger] describes(t, a, live, k);
        assert(available(live, k));
        assert forall|k2: int|
            0 <= k2 < ln && #[trigger] available(live, k2) && identity_of(live.path_monitors@[k2]) == Some(id)
                implies target_of(live.paths@[k2]) == dst[i] by {
            assert(covered(t, live, k2));
            let b = choose|b: int| 0 <= b < t.endpoints@.len() && #[trigger] describes(t, b, live, k2);
            assert(opt_text(t.identities@[b]) == identity_of(monitors[i]));
        }
    }
    assert forall|i: int, j: int| 0 <= i < j < n implies #[trigger] saved_identity(saved, i) != #[trigger] saved_identity(saved, j) by {
        assert(saved_monitor_of(saved, i) == Some(monitors[i]));
        assert(saved_monitor_of(saved, j) == Some(monitors[j]));
    }
    lemma_narrowed_exact(saved, live, t, matched, dst, grouped, narrowed_groups);
    assert forall|q: int| 0 <= q < n implies narrowed_choice(saved, live, dst, q, #[trigger] sources[q]) by {
        let g = grouped.group_of@[q] as int;
        let f = grouped.first@[g] as int;
        assert(grouped.group_of@[f] == g);
        assert(narrowed_groups.candidates@[g]@.contains(cg[g]));
        assert(narrowed_choice(saved, live, dst, f, cg[g]));
        lemma_choice_by_source(saved, live, dst, f, q);
    }
    assert forall|q: int, c: Endpoint|
        0 <= q < n && #[trigger] narrowed_choice(saved, live, dst, q, c) implies c == sources[q] || exists|p: int|
            0 <= p < n && rank[p] < rank[q] && #[trigger] sources[p] == c by {
        let g = grouped.group_of@[q] as int;
        let f = grouped.first@[g] as int;
        assert(grouped.group_of@[f] == g);
        lemma_choice_by_source(saved, live, dst, f, q);
        assert(narrowed_choice(saved, live, dst, f, c));
        assert(narrowed_groups.candidates@[g]@.contains(c));
        if c != sources[q] {
            assert(c != cg[g]);
            let h = choose|h: int| 0 <= h < count && rg[h] < rg[g] && #[trigger] cg[h] == c;
            let p = grouped.first@[h] as int;
            assert(grouped.group_of@[p] == h);
            assert(sources[p] == c);
            assert(rank[p] < rank[q]);
        }
    }
    assert forall|p: int, q: int|
        0 <= p < n && 0 <= q < n implies (source_of(#[trigger] saved.paths@[p]) == source_of(#[trigger] saved.paths@[q])
            <==> sources[p] == sources[q]) by {
        let gp = grouped.group_of@[p] as int;
        let gq = grouped.group_of@[q] as int;
        if gp != gq {
            assert(cg[gp] != cg[gq]);
        }
    }
    assert forall|p: int, q: int|
        0 <= p < n && 0 <= q < n && source_of(#[trigger] saved.paths@[p]) == source_of(#[trigger] saved.paths@[q])
            implies rank[p] == rank[q] by {
        assert(grouped.group_of@[p] == grouped.group_of@[q]);
    }
}

/// Remap a saved layout onto a live snapshot. Neither input is changed, also
/// on failure. Live modes are deliberately unused: inactive but connected
/// targets often have none. The remap succeeds exactly when it is owed (see
/// [`remap_owed`]).
#[verifier::loop_isolation(false)]
pub fn remap_config(saved: &DisplayConfig, live: &DisplayConfig) -> (r: Result<DisplayConfig, CcdError>)
    ensures
        r is Ok ==> layout_valid(saved.paths@, saved.modes@) && live_consistent(*live) && (
        saved.path_monitors@.len() == 0 || saved.path_monitors@.len() == saved.paths@.len()),
        r matches Ok(out) ==> remapped(*saved, *live, out),
        r is Err ==> r->Err_0 is InvalidConfig || r->Err_0 is Remap || r->Err_0 is Empty,
        saved.paths@.len() == 0 ==> r == Err::<DisplayConfig, CcdError>(CcdError::Empty),
        saved.paths@.len() > 0 && !layout_valid(saved.paths@, saved.modes@) ==> r matches Err(
            CcdError::InvalidConfig(_),
        ),
        layout_valid(saved.paths@, saved.modes@) && saved.path_monitors@.len() != 0
            && saved.path_monitors@.len() != saved.paths@.len() ==> (r matches Err(CcdError::InvalidConfig(m))
            && m@ == "per-path monitor metadata length does not match the paths"@),
        layout_valid(saved.paths@, saved.modes@) && (saved.path_monitors@.len() == 0
            || saved.path_monitors@.len() == saved.paths@.len()) && !live_consistent(*live) ==> r matches Err(
            CcdError::Remap(_),
        ),        r matches Err(CcdError::Remap(m)) ==> remap_refusal(*saved, *live, m@),
        r matches Ok(out) ==> forall|q: int|
            0 <= q < saved.paths@.len() && #[trigger] saved_source_fits(*saved, *live, out, q) ==> source_of(
                out.paths@[q],
            ) == source_of(saved.paths@[q]),
        r matches Ok(out) ==> forall|q: int, e: Endpoint|
            0 <= q < saved.paths@.len() && !saved_source_fits(*saved, *live, out, q) && #[trigger] sole_active_source(
                *saved,
                *live,
                out,
                q,
                e,
            ) ==> source_of(out.paths@[q]) == e,
        forall|dst: Seq<Endpoint>, chosen: Seq<Endpoint>, rank: Seq<int>|
            #[trigger] remap_owed(*saved, *live, dst, chosen, rank) ==> (r matches Ok(out) && forall|q: int|
                0 <= q < saved.paths@.len() ==> target_of(out.paths@[q]) == dst[q]),
        r is Ok ==> exists|dst: Seq<Endpoint>, chosen: Seq<Endpoint>, rank: Seq<int>|
            #[trigger] remap_owed(*saved, *live, dst, chosen, rank),
        layout_valid(saved.paths@, saved.modes@) && (saved.path_monitors@.len() == 0 || saved.path_monitors@.len()
            == saved.paths@.len()) && live_consistent(*live) ==> forall|i: int|
            0 <= i < saved.paths@.len() && (forall|q: int| 0 <= q < i ==> #[trigger] path_target_ok(*saved, *live, q))
                && !#[trigger] path_target_ok(*saved, *live, i) ==> r is Err && path_target_refusal(
                *saved,
                *live,
                i,
                r->Err_0,
            ),
        saved.paths@.len() > 0 && layout_valid(saved.paths@, saved.modes@) && (saved.path_monitors@.len() == 0
            || saved.path_monitors@.len() == saved.paths@.len()) && live_consistent(*live) && (forall|q: int|
            0 <= q < saved.paths@.len() ==> #[trigger] path_target_ok(*saved, *live, q)) && !(exists|
            dst: Seq<Endpoint>,
            chosen: Seq<Endpoint>,
            rank: Seq<int>,
        | #[trigger] remap_owed(*saved, *live, dst, chosen, rank)) ==> (r matches Err(CcdError::Remap(m)) && exists|
            p: int,
        | 0 <= p < saved.paths@.len() && #[trigger] routing_failure(m@, p)),
        forall|dst: Seq<Endpoint>|
            #[trigger] choices_apart(*saved, *live, dst) && dst.len() == saved.paths@.len() && (forall|p: int|
                0 <= p < saved.paths@.len() ==> sole_live_target(*live, saved_identity(*saved, p)->0, #[trigger] dst[p]))
                && layout_valid(saved.paths@, saved.modes@) && (saved.path_monitors@.len() == 0
                || saved.path_monitors@.len() == saved.paths@.len()) && live_consistent(*live) && (forall|q: int|
                0 <= q < saved.paths@.len() ==> #[trigger] path_target_ok(*saved, *live, q)) ==> (r matches Err(
                CcdError::Remap(m),
            ) ==> exists|p: int| 0 <= p < saved.paths@.len() && m@ == routing_text(p, "is ambiguous"@)),
{
    let ghost owed = exists|dst: Seq<Endpoint>, chosen: Seq<Endpoint>, rank: Seq<int>|
        remap_owed(*saved, *live, dst, chosen, rank);
    let ghost pick = choose|dst: Seq<Endpoint>, chosen: Seq<Endpoint>, rank: Seq<int>|
        remap_owed(*saved, *live, dst, chosen, rank);
    match validate_layout(&saved.paths, &saved.modes) {
        Ok(()) => {},
        Err(e) => return Err(e),
    }
    if saved.path_monitors.len() != 0 && saved.path_monitors.len() != saved.paths.len() {
        return Err(invalid(String::from_str("per-path monitor metadata length does not match the paths")));
    }
    let t = match live_targets(live) {
        Ok(t) => t,
        Err(e) => {
            let out: Result<DisplayConfig, CcdError> = Err(e);
            proof {
                if out is Err && out->Err_0 is Remap {
                    let m = out->Err_0->Remap_0;
                    assert(remap_refusal(*saved, *live, m@));
                }
            }
            return out;
        },
    };
    let (monitors, matched) = match match_saved_targets(saved, &t) {
        Ok(found) => found,
        Err(e) => {
            let out: Result<DisplayConfig, CcdError> = Err(e);
            proof {
                if out is Err && out->Err_0 is Remap {
                    let m = out->Err_0->Remap_0;
                    let p = choose|p: int| 0 <= p < saved.paths@.len() && #[trigger] target_count_error(*saved, t, p, m@);
                    lemma_live_count_error(*saved, *live, t, p, m@);
                    assert(remap_refusal(*saved, *live, m@));
                }
                if owed {
                    lemma_targets_owed(*saved, *live, t, pick.0, pick.1, pick.2);
                }
                let e = out->Err_0;
                assert forall|i: int|
                    0 <= i < saved.paths@.len() && (forall|q: int| 0 <= q < i ==> #[trigger] path_target_ok(*saved, *live, q))
                        && !#[trigger] path_target_ok(*saved, *live, i) implies path_target_refusal(*saved, *live, i, e) by {
                    assert forall|q: int| 0 <= q < i implies #[trigger] record_ok(*saved, t, q) by {
                        lemma_record_path(*saved, *live, t, q, e);
                    }
                    lemma_record_path(*saved, *live, t, i, e);
                }
                if forall|q: int| 0 <= q < saved.paths@.len() ==> #[trigger] path_target_ok(*saved, *live, q) {
                    assert forall|q: int| 0 <= q < saved.paths@.len() implies #[trigger] record_ok(*saved, t, q) by {
                        lemma_record_path(*saved, *live, t, q, e);
                    }
                }
            }
            return out;
        },
    };
    proof {
        assert forall|q: int| 0 <= q < saved.paths@.len() implies #[trigger] path_target_ok(*saved, *live, q) by {
            lemma_record_path(*saved, *live, t, q, CcdError::Empty);
        }
    }
    let mut groups = group_paths(saved, &t, &matched);
    let ghost grouped = groups;
    narrow_candidates(&mut groups, &t, &matched, saved.paths.len());
    let ghost group_view = groups.group_of@;
    let ghost narrowed_groups = groups;
    proof {
        assert forall|q: int, p: int|
            0 <= q < saved.paths@.len() && 0 <= p < saved.paths@.len() implies (source_of(
            #[trigger] saved.paths@[q],
        ) == source_of(#[trigger] saved.paths@[p]) <==> group_view[q] == group_view[p]) by {
            let gq = group_view[q] as int;
            let gp = group_view[p] as int;
            assert(groups.originals@[gq] == source_of(saved.paths@[q]));
            assert(groups.originals@[gp] == source_of(saved.paths@[p]));
            if gq != gp {
                if gq < gp {
                    assert(groups.originals@[gq] != groups.originals@[gp]);
                } else {
                    assert(groups.originals@[gp] != groups.originals@[gq]);
                }
            }
        }
    }
    let sources = match assign_sources(saved, &mut groups, &t, &matched) {
        Ok(sources) => sources,
        Err(e) => {
            let out: Result<DisplayConfig, CcdError> = Err(e);
            proof {
                if out is Err && out->Err_0 is Remap {
                    let m = out->Err_0->Remap_0;
                    let p = choose|p: int| 0 <= p < saved.paths@.len() && #[trigger] routing_failure(m@, p);
                    assert(remap_refusal(*saved, *live, m@));
                }
                if owed {
                    lemma_owed_targets(*saved, *live, t, monitors@, matched@, pick.0, pick.1, pick.2);
                    lemma_peelable(*saved, *live, t, matched@, pick.0, pick.1, pick.2, grouped, narrowed_groups);
                }
                assert forall|dst: Seq<Endpoint>|
                    #[trigger] choices_apart(*saved, *live, dst) && dst.len() == saved.paths@.len() && (forall|p: int|
                        0 <= p < saved.paths@.len() ==> sole_live_target(*live, saved_identity(*saved, p)->0, #[trigger] dst[p]))
                        implies kept_apart(narrowed_groups.candidates@) by {
                    lemma_dst_matched(*saved, *live, t, monitors@, matched@, dst);
                    lemma_narrowed_exact(*saved, *live, t, matched@, dst, grouped, narrowed_groups);
                    let cands = narrowed_groups.candidates@;
                    assert forall|g: int| 0 <= g < cands.len() implies (#[trigger] cands[g])@.len() > 0 by {
                        let q = grouped.first@[g] as int;
                        assert(has_choice(*saved, *live, dst, q));
                        let x = choose|x: Endpoint| #[trigger] narrowed_choice(*saved, *live, dst, q, x);
                        assert(cands[g]@.contains(x));
                    }
                    assert forall|g: int, h: int, x: Endpoint|
                        0 <= g < cands.len() && 0 <= h < cands.len() && g != h && #[trigger] cands[g]@.contains(x)
                            implies !#[trigger] cands[h]@.contains(x) by {
                        let qg = grouped.first@[g] as int;
                        let qh = grouped.first@[h] as int;
                        assert(grouped.group_of@[qg] == g);
                        assert(grouped.group_of@[qh] == h);
                        assert(source_of(saved.paths@[qg]) != source_of(saved.paths@[qh]));
                        assert(narrowed_choice(*saved, *live, dst, qg, x));
                    }
                }
            }
            return out;
        },
    };
    proof {
        lemma_assignment_facts(*saved, *live, t, monitors@, matched@, sources@, group_view);
    }
    let n = saved.paths.len();
    let mut paths: Vec<PathInfo> = Vec::new();
    let mut modes: Vec<ModeInfo> = Vec::new();
    let mut mode_monitors: Vec<MonitorInfo> = Vec::new();
    let mut map: Vec<(u32, Endpoint, u32)> = Vec::new();
    let mut i: usize = 0;
    while i < n
        invariant
            i <= n,
            n == saved.paths@.len(),
            paths@.len() == i,
            mode_map_ok(map@, modes@, mode_monitors@, saved.modes@),
            assignment_facts(*saved, t, matched@, sources@),
            map_witnessed(*saved, t, matched@, sources@, map@, i as int),
            paths_mapped(*saved, t, matched@, sources@, map@, paths@, i as int),
            forall|q: int|
                0 <= q < i ==> rerouted(
                    #[trigger] paths@[q],
                    saved.paths@[q],
                    sources@[q],
                    t.endpoints@[matched@[q] as int],
                    t.technologies@[matched@[q] as int],
                ) && modes_carried(paths@[q], saved.paths@[q], modes@, saved.modes@),
        decreases n - i,
    {
        let original = saved.paths[i];
        let src = sources[i];
        let dst = t.endpoints[matched[i]];
        let empty = MonitorInfo::empty();
        let ghost modes_before = modes@;
        let ghost map0 = map@;
        proof {
            lemma_witnessed_step(*saved, t, matched@, sources@, map0, map0, i as int, i as int);
            lemma_no_conflict(*saved, t, matched@, sources@, map@, i as int, original.source.mode_info_idx, src, true);
        }
        let source_index = match append_mode(
            saved,
            original.source.mode_info_idx,
            src,
            &empty,
            &mut modes,
            &mut mode_monitors,
            &mut map,
        ) {
            Ok(v) => v,
            Err(e) => return Err(e),
        };
        let ghost modes_mid = modes@;
        let ghost map1 = map@;
        proof {
            if map1.len() == map0.len() + 1 {
                let sj = choose|j: int| 0 <= j < map1.len() && #[trigger] map1[j] == (original.source.mode_info_idx, src, source_index);
                if sj < map0.len() {
                    assert(map1[sj] == map0[sj]);
                    assert(map0[sj].0 == original.source.mode_info_idx);
                }
                assert(map1[map0.len() as int].0 == original.source.mode_info_idx);
            }
            lemma_witnessed_step(*saved, t, matched@, sources@, map0, map1, i as int + 1, i as int);
            if original.target.mode_info_idx != NO_MODE {
                lemma_no_conflict(*saved, t, matched@, sources@, map@, i as int, original.target.mode_info_idx, dst, false);
            }
        }
        let target_index = match append_mode(
            saved,
            original.target.mode_info_idx,
            dst,
            &monitors[i],
            &mut modes,
            &mut mode_monitors,
            &mut map,
        ) {
            Ok(v) => v,
            Err(e) => return Err(e),
        };
        let mut path = original;
        path.source.adapter_id = src.adapter;
        path.source.id = src.id;
        path.source.mode_info_idx = source_index;
        path.target.adapter_id = dst.adapter;
        path.target.id = dst.id;
        path.target.mode_info_idx = target_index;
        path.target.output_technology = t.technologies[matched[i]];
        path.target.target_available = 1;
        let ghost prev_paths = paths@;
        paths.push(path);
        proof {
            let map2 = map@;
            lemma_witnessed_step(*saved, t, matched@, sources@, map1, map2, i as int + 1, i as int);
            if original.target.mode_info_idx != NO_MODE {
                assert(map2.contains((original.target.mode_info_idx, dst, target_index)));
            }
            let e = (original.source.mode_info_idx, src, source_index);
            assert(map1.contains(e));
            let sj = choose|j: int| 0 <= j < map1.len() && map1[j] == e;
            assert(map2[sj] == map1[sj]);
            assert(map2.contains(e));
            lemma_mapped_step(*saved, t, matched@, sources@, map0, map2, prev_paths, paths@, i as int);
        }
        proof {
            assert forall|q: int|
                0 <= q < i + 1 implies rerouted(
                    #[trigger] paths@[q],
                    saved.paths@[q],
                    sources@[q],
                    t.endpoints@[matched@[q] as int],
                    t.technologies@[matched@[q] as int],
                ) && modes_carried(paths@[q], saved.paths@[q], modes@, saved.modes@) by {
                if q < i {
                    assert(paths@[q] == prev_paths[q]);
                    assert(modes_carried(prev_paths[q], saved.paths@[q], modes_before, saved.modes@));
                    assert(modes@[paths@[q].source.mode_info_idx as int] == modes_before[paths@[q].source.mode_info_idx as int]);
                    if saved.paths@[q].target.mode_info_idx != NO_MODE {
                        assert(modes@[paths@[q].target.mode_info_idx as int] == modes_before[paths@[q].target.mode_info_idx as int]);
                    }
                } else {
                    assert(modes@[source_index as int] == modes_mid[source_index as int]);
                }
            }
        }
        i = i + 1;
    }
    proof {
        lemma_rebuilt_valid(*saved, t, matched@, sources@, map@, modes@, mode_monitors@, paths@);
    }
    let out = DisplayConfig { paths, modes, monitors: mode_monitors, path_monitors: monitors };
    match validate_layout(&out.paths, &out.modes) {
        Ok(()) => {},
        Err(e) => return Err(e),
    }
    proof {
        lemma_remapped(*saved, *live, t, out, matched@, sources@, group_view);
        assert forall|q: int|
            0 <= q < saved.paths@.len() && #[trigger] saved_source_fits(*saved, *live, out, q) implies source_of(
                out.paths@[q],
            ) == source_of(saved.paths@[q]) by {
            lemma_sources_chosen(*saved, *live, out, t, matched@, sources@, grouped, narrowed_groups, q);
        }
        assert forall|q: int, e: Endpoint|
            0 <= q < saved.paths@.len() && !saved_source_fits(*saved, *live, out, q) && #[trigger] sole_active_source(
                *saved,
                *live,
                out,
                q,
                e,
            ) implies source_of(out.paths@[q]) == e by {
            lemma_sources_chosen(*saved, *live, out, t, matched@, sources@, grouped, narrowed_groups, q);
        }
        assert forall|dst: Seq<Endpoint>, chosen: Seq<Endpoint>, rank: Seq<int>|
            #[trigger] remap_owed(*saved, *live, dst, chosen, rank) implies forall|q: int|
                0 <= q < saved.paths@.len() ==> target_of(out.paths@[q]) == dst[q] by {
            lemma_owed_targets(*saved, *live, t, monitors@, matched@, dst, chosen, rank);
        }
        let n_paths = saved.paths@.len() as int;
        let cgr = choose|chosen: Seq<Endpoint>, rank: Seq<int>|
            peelable(narrowed_groups.candidates@, chosen, rank) && forall|q: int|
                0 <= q < n_paths ==> sources@[q] == chosen[narrowed_groups.group_of@[q] as int];
        let dst_o = Seq::new(saved.paths@.len(), |p: int| t.endpoints@[matched@[p] as int]);
        let rank_o = Seq::new(saved.paths@.len(), |q: int| cgr.1[group_view[q] as int]);
        lemma_owed_from_ok(*saved, *live, t, monitors@, matched@, grouped, narrowed_groups, sources@, cgr.0, cgr.1, dst_o, rank_o);
        assert(remap_owed(*saved, *live, dst_o, sources@, rank_o));
    }
    Ok(out)
}

proof fn lemma_remapped(
    saved: DisplayConfig,
    live: DisplayConfig,
    t: LiveTargets,
    out: DisplayConfig,
    matched: Seq<usize>,
    sources: Seq<Endpoint>,
    group_of: Seq<usize>,
)
    requires
        live_consistent(live),
        summarises(t, live, live.paths@.len() as int),
        out.path_monitors@.len() == saved.paths@.len(),
        matched.len() == saved.paths@.len(),
        sources.len() == saved.paths@.len(),
        group_of.len() == saved.paths@.len(),
        out.paths@.len() == saved.paths@.len(),
        out.monitors@.len() == out.modes@.len(),
        saved_prefix(saved, out.path_monitors@),
        forall|i: int|
            0 <= i < saved.paths@.len() ==> #[trigger] matched[i] < t.endpoints@.len() && opt_text(
                t.identities@[matched[i] as int],
            ) == identity_of(out.path_monitors@[i]) && identity_of(out.path_monitors@[i]) is Some,
        forall|i: int, a: int|
            0 <= i < saved.paths@.len() && 0 <= a < t.endpoints@.len() && opt_text(
                #[trigger] t.identities@[a],
            ) == identity_of(#[trigger] out.path_monitors@[i]) ==> a == matched[i],
        forall|i: int, j: int|
            0 <= i < j < saved.paths@.len() ==> identity_of(#[trigger] out.path_monitors@[i])
                != identity_of(#[trigger] out.path_monitors@[j]),
        forall|q: int, p: int|
            0 <= q < saved.paths@.len() && 0 <= p < saved.paths@.len() ==> (source_of(
                #[trigger] saved.paths@[q],
            ) == source_of(#[trigger] saved.paths@[p]) <==> group_of[q] == group_of[p]),
        forall|q: int|
            0 <= q < saved.paths@.len() ==> t.sources@[matched[q] as int]@.contains(
                #[trigger] sources[q],
            ),
        forall|q: int, p: int|
            0 <= q < saved.paths@.len() && 0 <= p < saved.paths@.len() ==> (#[trigger] group_of[q]
                == #[trigger] group_of[p] <==> sources[q] == sources[p]),
        forall|q: int|
            0 <= q < saved.paths@.len() ==> rerouted(
                #[trigger] out.paths@[q],
                saved.paths@[q],
                sources[q],
                t.endpoints@[matched[q] as int],
                t.technologies@[matched[q] as int],
            ) && modes_carried(out.paths@[q], saved.paths@[q], out.modes@, saved.modes@),
        layout_valid(out.paths@, out.modes@),
    ensures
        remapped(saved, live, out),
{
    let n = saved.paths@.len();
    assert forall|i: int| 0 <= i < n implies #[trigger] has_live_target(live, out, i) by {
        let a = matched[i] as int;
        assert(has_origin(t, live, live.paths@.len() as int, a));
        let k = choose|k: int| 0 <= k < live.paths@.len() && #[trigger] describes(t, a, live, k);
        assert(describes(t, a, live, k));
        assert(rerouted(out.paths@[i], saved.paths@[i], sources[i], t.endpoints@[a], t.technologies@[a]));
        assert(live_match(live, k, out.paths@[i], out.path_monitors@[i]));
    }
    assert forall|i: int, k: int|
        0 <= i < n && 0 <= k < live.paths@.len() && #[trigger] available(live, k) && identity_of(
            live.path_monitors@[k],
        ) == identity_of(#[trigger] out.path_monitors@[i]) implies target_of(live.paths@[k])
            == target_of(out.paths@[i]) by {
        assert(covered(t, live, k));
        let a = choose|a: int| 0 <= a < t.endpoints@.len() && #[trigger] describes(t, a, live, k);
        assert(describes(t, a, live, k));
        assert(opt_text(t.identities@[a]) == identity_of(out.path_monitors@[i]));
        assert(a == matched[i]);
        assert(rerouted(out.paths@[i], saved.paths@[i], sources[i], t.endpoints@[a], t.technologies@[a]));
    }
    assert forall|i: int| 0 <= i < n implies #[trigger] has_live_route(live, out, i) by {
        let a = matched[i] as int;
        assert(t.sources@[a]@.contains(sources[i]));
        assert(has_route(t, live, live.paths@.len() as int, a, sources[i]));
        let k = choose|k: int| 0 <= k < live.paths@.len() && #[trigger] routes(t, a, live, k, sources[i]);
        assert(routes(t, a, live, k, sources[i]));
        assert(rerouted(out.paths@[i], saved.paths@[i], sources[i], t.endpoints@[a], t.technologies@[a]));
        assert(routes_path(live, k, out.paths@[i]));
    }
    assert forall|i: int, j: int|
        0 <= i < n && 0 <= j < n implies (source_of(#[trigger] saved.paths@[i]) == source_of(
            #[trigger] saved.paths@[j],
        ) <==> source_of(out.paths@[i]) == source_of(out.paths@[j])) by {
        assert(rerouted(out.paths@[i], saved.paths@[i], sources[i], t.endpoints@[matched[i] as int], t.technologies@[matched[i] as int]));
        assert(rerouted(out.paths@[j], saved.paths@[j], sources[j], t.endpoints@[matched[j] as int], t.technologies@[matched[j] as int]));
        assert(group_of[i] == group_of[j] <==> sources[i] == sources[j]);
    }
    assert forall|i: int| 0 <= i < n implies #[trigger] out.paths@[i].flags == saved.paths@[i].flags
        && rerouted(
        out.paths@[i],
        saved.paths@[i],
        source_of(out.paths@[i]),
        target_of(out.paths@[i]),
        out.paths@[i].target.output_technology,
    ) && modes_carried(out.paths@[i], saved.paths@[i], out.modes@, saved.modes@) by {
        assert(rerouted(out.paths@[i], saved.paths@[i], sources[i], t.endpoints@[matched[i] as int], t.technologies@[matched[i] as int]));
    }
    assert forall|i: int|
        0 <= i < n implies !saved_conflict(saved, i) && saved_monitor_of(saved, i) == Some(
        #[trigger] out.path_monitors@[i],
    ) && identity_of(out.path_monitors@[i]) is Some by {
        assert(matched[i] < t.endpoints@.len());
    }
}

/// `SetDisplayConfig` flags of the validation call: the supplied
/// configuration, checked only.
pub const VALIDATE_FLAGS: u32 = 0x60;

/// `SetDisplayConfig` flags of the apply call: the supplied configuration,
/// applied and saved to the database. Windows may not change it on its own.
pub const APPLY_FLAGS: u32 = 0x2A0;

/// Remap `saved` onto `live`, then hand the result to `validate` and, only if
/// Windows accepted it, to `apply`. Nothing is handed over when the layout
/// cannot be remapped safely; a failed apply has no fallback.
pub fn apply_config_with<V, A>(saved: &DisplayConfig, live: &DisplayConfig, validate: V, apply: A) -> (r: Result<
    (),
    CcdError,
>)
    where
        V: FnOnce(&Vec<PathInfo>, &Vec<ModeInfo>, u32) -> i32,
        A: FnOnce(&Vec<PathInfo>, &Vec<ModeInfo>, u32) -> i32,
    requires
        forall|p: &Vec<PathInfo>, m: &Vec<ModeInfo>, f: u32| call_requires(validate, (p, m, f)),
        forall|p: &Vec<PathInfo>, m: &Vec<ModeInfo>, f: u32| call_requires(apply, (p, m, f)),
    ensures
        r is Ok ==> exists|out: DisplayConfig|
            {
                &&& remapped(*saved, *live, out)
                &&& call_ensures(validate, (&out.paths, &out.modes, VALIDATE_FLAGS), 0i32)
                &&& call_ensures(apply, (&out.paths, &out.modes, APPLY_FLAGS), 0i32)
            },
        r matches Err(CcdError::Validate(c)) ==> c != 0 && exists|out: DisplayConfig|
            {
                &&& remapped(*saved, *live, out)
                &&& call_ensures(validate, (&out.paths, &out.modes, VALIDATE_FLAGS), c)
            },
        r matches Err(CcdError::Apply(c)) ==> c != 0 && exists|out: DisplayConfig|
            {
                &&& remapped(*saved, *live, out)
                &&& call_ensures(validate, (&out.paths, &out.modes, VALIDATE_FLAGS), 0i32)
                &&& call_ensures(apply, (&out.paths, &out.modes, APPLY_FLAGS), c)
            },
        r is Err && !(r->Err_0 is Validate) && !(r->Err_0 is Apply) ==> r->Err_0 is InvalidConfig || r->Err_0 is Remap
            || r->Err_0 is Empty,
        saved.paths@.len() == 0 ==> r == Err::<(), CcdError>(CcdError::Empty),
        saved.paths@.len() > 0 && !layout_valid(saved.paths@, saved.modes@) ==> r matches Err(
            CcdError::InvalidConfig(_),
        ),
        layout_valid(saved.paths@, saved.modes@) && saved.path_monitors@.len() != 0
            && saved.path_monitors@.len() != saved.paths@.len() ==> (r matches Err(CcdError::InvalidConfig(m))
            && m@ == "per-path monitor metadata length does not match the paths"@),
        layout_valid(saved.paths@, saved.modes@) && (saved.path_monitors@.len() == 0
            || saved.path_monitors@.len() == saved.paths@.len()) && !live_consistent(*live) ==> r matches Err(
            CcdError::Remap(_),
        ),
        r matches Err(CcdError::Remap(m)) ==> remap_refusal(*saved, *live, m@),
        layout_valid(saved.paths@, saved.modes@) && (saved.path_monitors@.len() == 0 || saved.path_monitors@.len()
            == saved.paths@.len()) && live_consistent(*live) ==> forall|i: int|
            0 <= i < saved.paths@.len() && (forall|q: int| 0 <= q < i ==> #[trigger] path_target_ok(*saved, *live, q))
                && !#[trigger] path_target_ok(*saved, *live, i) ==> r is Err && path_target_refusal(
                *saved,
                *live,
                i,
                r->Err_0,
            ),
        saved.paths@.len() > 0 && layout_valid(saved.paths@, saved.modes@) && (saved.path_monitors@.len() == 0
            || saved.path_monitors@.len() == saved.paths@.len()) && live_consistent(*live) && (forall|q: int|
            0 <= q < saved.paths@.len() ==> #[trigger] path_target_ok(*saved, *live, q)) && !(exists|
            dst: Seq<Endpoint>,
            chosen: Seq<Endpoint>,
            rank: Seq<int>,
        | #[trigger] remap_owed(*saved, *live, dst, chosen, rank)) ==> (r matches Err(CcdError::Remap(m)) && exists|
            p: int,
        | 0 <= p < saved.paths@.len() && #[trigger] routing_failure(m@, p)),
        forall|dst: Seq<Endpoint>|
            #[trigger] choices_apart(*saved, *live, dst) && dst.len() == saved.paths@.len() && (forall|p: int|
                0 <= p < saved.paths@.len() ==> sole_live_target(*live, saved_identity(*saved, p)->0, #[trigger] dst[p]))
                && layout_valid(saved.paths@, saved.modes@) && (saved.path_monitors@.len() == 0
                || saved.path_monitors@.len() == saved.paths@.len()) && live_consistent(*live) && (forall|q: int|
                0 <= q < saved.paths@.len() ==> #[trigger] path_target_ok(*saved, *live, q)) ==> (r matches Err(
                CcdError::Remap(m),
            ) ==> exists|p: int| 0 <= p < saved.paths@.len() && m@ == routing_text(p, "is ambiguous"@)),
        r is Ok || (r is Err && (r->Err_0 is Validate || r->Err_0 is Apply)) ==> exists|
            dst: Seq<Endpoint>,
            chosen: Seq<Endpoint>,
            rank: Seq<int>,
        | #[trigger] remap_owed(*saved, *live, dst, chosen, rank),
        forall|dst: Seq<Endpoint>, chosen: Seq<Endpoint>, rank: Seq<int>|
            #[trigger] remap_owed(*saved, *live, dst, chosen, rank) ==> {
                &&& (forall|p: &Vec<PathInfo>, m: &Vec<ModeInfo>, f: u32, v: i32|
                    #[trigger] call_ensures(validate, (p, m, f), v) ==> v == 0) && (forall|
                    p: &Vec<PathInfo>,
                    m: &Vec<ModeInfo>,
                    f: u32,
                    v: i32,
                | #[trigger] call_ensures(apply, (p, m, f), v) ==> v == 0) ==> r is Ok
                &&& (forall|p: &Vec<PathInfo>, m: &Vec<ModeInfo>, f: u32, v: i32|
                    #[trigger] call_ensures(validate, (p, m, f), v) ==> v != 0) ==> r is Err && r->Err_0 is Validate
                &&& (forall|p: &Vec<PathInfo>, m: &Vec<ModeInfo>, f: u32, v: i32|
                    #[trigger] call_ensures(validate, (p, m, f), v) ==> v == 0) && (forall|
                    p: &Vec<PathInfo>,
                    m: &Vec<ModeInfo>,
                    f: u32,
                    v: i32,
                | #[trigger] call_ensures(apply, (p, m, f), v) ==> v != 0) ==> r is Err && r->Err_0 is Apply
            },
{
    let config = match remap_config(saved, live) {
        Ok(c) => c,
        Err(e) => return Err(e),
    };
    let status = validate(&config.paths, &config.modes, VALIDATE_FLAGS);
    if status != 0 {
        return Err(CcdError::Validate(status));
    }
    let status2 = apply(&config.paths, &config.modes, APPLY_FLAGS);
    if status2 != 0 {
        return Err(CcdError::Apply(status2));
    }
    Ok(())
}

/// `e` occurs among the first `n` endpoints of `s`.
pub open spec fn endpoint_in(s: Seq<Endpoint>, e: Endpoint) -> bool {
    exists|i: int| 0 <= i < s.len() && s[i] == e
}

/// The targets to identify for a snapshot: each adapter-qualified target of
/// `paths` once, in order of first occurrence. Inactive but connected targets
/// appear once per possible source; they are still asked about once.
pub open spec fn distinct_targets(paths: Seq<PathInfo>, n: int) -> Seq<Endpoint>
    decreases n,
{
    if n <= 0 || n > paths.len() {
        Seq::empty()
    } else if endpoint_in(distinct_targets(paths, n - 1), target_of(paths[n - 1])) {
        distinct_targets(paths, n - 1)
    } else {
        distinct_targets(paths, n - 1).push(target_of(paths[n - 1]))
    }
}

fn find_endpoint(s: &Vec<Endpoint>, e: Endpoint) -> (r: Option<usize>)
    ensures
        match r {
            Some(i) => i < s@.len() && s@[i as int] == e && forall|j: int| 0 <= j < i ==> s@[j] != e,
            None => !endpoint_in(s@, e),
        },
{
    let mut i: usize = 0;
    while i < s.len()
        invariant
            i <= s@.len(),
            forall|j: int| 0 <= j < i ==> s@[j] != e,
        decreases s@.len() - i,
    {
        if s[i].adapter.low == e.adapter.low && s[i].adapter.high == e.adapter.high && s[i].id == e.id {
            return Some(i);
        }
        i = i + 1;
    }
    None
}

/// The targets of `paths` to identify, each once, in order of first occurrence.
pub fn query_targets(paths: &Vec<PathInfo>) -> (r: Vec<Endpoint>)
    ensures
        r@ == distinct_targets(paths@, paths@.len() as int),
{
    let mut r: Vec<Endpoint> = Vec::new();
    let mut i: usize = 0;
    while i < paths.len()
        invariant
            i <= paths@.len(),
            r@ == distinct_targets(paths@, i as int),
        decreases paths@.len() - i,
    {
        let t = target(&paths[i]);
        if find_endpoint(&r, t).is_none() {
            r.push(t);
        }
        i = i + 1;
    }
    r
}

/// The identity recorded for endpoint `e`: the one queried for its first
/// occurrence in `targets`, or an empty record when it was not asked about.
pub open spec fn identity_for(targets: Seq<Endpoint>, infos: Seq<MonitorInfo>, e: Endpoint) -> MonitorInfo {
    if endpoint_in(targets, e) {
        infos[choose|i: int| 0 <= i < targets.len() && targets[i] == e && forall|j: int| 0 <= j < i ==> targets[j] != e]
    } else {
        MonitorInfo { valid: false, manufacture_id: 0, product_code_id: 0, friendly_name: arbitrary(), device_path: arbitrary() }
    }
}

/// A snapshot from its paths and modes and the identities queried for
/// `targets` (parallel to `infos`): each path gets its target's identity, each
/// target mode the identity of its endpoint, source modes an empty record.
pub fn config_from_parts(
    paths: Vec<PathInfo>,
    modes: Vec<ModeInfo>,
    targets: &Vec<Endpoint>,
    infos: &Vec<MonitorInfo>,
) -> (r: DisplayConfig)
    requires
        targets@.len() == infos@.len(),
    ensures
        r.paths@ == paths@,
        r.modes@ == modes@,
        r.path_monitors@.len() == paths@.len(),
        r.monitors@.len() == modes@.len(),
        forall|i: int| 0 <= i < paths@.len() && endpoint_in(targets@, target_of(paths@[i])) ==> #[trigger] r.path_monitors@[i]
            == identity_for(targets@, infos@, target_of(paths@[i])),
        forall|i: int| 0 <= i < paths@.len() && !endpoint_in(targets@, target_of(paths@[i])) ==> !(#[trigger] r.path_monitors@[i]).valid,
        forall|j: int|
            0 <= j < modes@.len() && modes@[j].info_type == MODE_TYPE_TARGET && endpoint_in(
                targets@,
                Endpoint { adapter: modes@[j].adapter_id, id: modes@[j].id },
            ) ==> #[trigger] r.monitors@[j] == identity_for(
                targets@,
                infos@,
                Endpoint { adapter: modes@[j].adapter_id, id: modes@[j].id },
            ),
        forall|j: int|
            0 <= j < modes@.len() && !(modes@[j].info_type == MODE_TYPE_TARGET && endpoint_in(
                targets@,
                Endpoint { adapter: modes@[j].adapter_id, id: modes@[j].id },
            )) ==> !(#[trigger] r.monitors@[j]).valid,
{
    let mut path_monitors: Vec<MonitorInfo> = Vec::new();
    let mut i: usize = 0;
    while i < paths.len()
        invariant
            i <= paths@.len(),
            targets@.len() == infos@.len(),
            path_monitors@.len() == i,
            forall|q: int| 0 <= q < i && endpoint_in(targets@, target_of(paths@[q])) ==> #[trigger] path_monitors@[q]
                == identity_for(targets@, infos@, target_of(paths@[q])),
            forall|q: int| 0 <= q < i && !endpoint_in(targets@, target_of(paths@[q])) ==> !(#[trigger] path_monitors@[q]).valid,
        decreases paths@.len() - i,
    {
        let t = target(&paths[i]);
        match find_endpoint(targets, t) {
            Some(k) => {
                path_monitors.push(infos[k].copy());
            },
            None => {
                path_monitors.push(MonitorInfo::empty());
            },
        }
        i = i + 1;
    }
    let mut monitors: Vec<MonitorInfo> = Vec::new();
    let mut j: usize = 0;
    while j < modes.len()
        invariant
            j <= modes@.len(),
            targets@.len() == infos@.len(),
            monitors@.len() == j,
            forall|q: int|
                0 <= q < j && modes@[q].info_type == MODE_TYPE_TARGET && endpoint_in(
                    targets@,
                    Endpoint { adapter: modes@[q].adapter_id, id: modes@[q].id },
                ) ==> #[trigger] monitors@[q] == identity_for(
                    targets@,
                    infos@,
                    Endpoint { adapter: modes@[q].adapter_id, id: modes@[q].id },
                ),
            forall|q: int|
                0 <= q < j && !(modes@[q].info_type == MODE_TYPE_TARGET && endpoint_in(
                    targets@,
                    Endpoint { adapter: modes@[q].adapter_id, id: modes@[q].id },
                )) ==> !(#[trigger] monitors@[q]).valid,
        decreases modes@.len() - j,
    {
        let e = Endpoint { adapter: modes[j].adapter_id, id: modes[j].id };
        if modes[j].info_type == MODE_TYPE_TARGET {
            match find_endpoint(targets, e) {
                Some(k) => {
                    monitors.push(infos[k].copy());
                },
                None => {
                    monitors.push(MonitorInfo::empty());
                },
            }
        } else {
            monitors.push(MonitorInfo::empty());
        }
        j = j + 1;
    }
    DisplayConfig { paths, modes, monitors, path_monitors }
}

} // verus!
