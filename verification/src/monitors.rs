//! Recording a failed whole-monitor read.
use vstd::prelude::*;
use crate::ddc::{MonitorInfo, MonitorKey, MonitorState, opt_text, same_key};
use crate::text::to_owned_string;

verus! {

/// `i` is the first monitor in `s` with `key`.
pub open spec fn first_with_key(s: Seq<MonitorState>, key: MonitorKey, i: int) -> bool {
    &&& 0 <= i < s.len()
    &&& s[i].info.key@ == key@
    &&& forall|j: int| 0 <= j < i ==> (#[trigger] s[j]).info.key@ != key@
}

/// `after` is `before` with every reading marked unknown because of `error`;
/// the values themselves stay, but nothing shows them as confirmed.
pub open spec fn marked_failed(before: MonitorState, after: MonitorState, error: Seq<char>) -> bool {
    &&& after.info == before.info
    &&& after.brightness == before.brightness
    &&& after.brightness_max == before.brightness_max
    &&& opt_text(after.brightness_read_error) == Some(error)
    &&& after.contrast == before.contrast
    &&& after.contrast_max == before.contrast_max
    &&& opt_text(after.contrast_read_error) == Some(error)
    &&& after.input_source == before.input_source
    &&& opt_text(after.input_source_read_error) == Some(error)
    &&& after.advertised_inputs == before.advertised_inputs
}

/// Mark every reading of the monitor with `key` as failed with `error`; other
/// monitors, and a key that names none, change nothing.
pub fn mark_monitor_read_failed(monitors: &mut Vec<MonitorState>, key: &MonitorKey, error: &str)
    ensures
        final(monitors)@.len() == old(monitors)@.len(),
        forall|i: int|
            0 <= i < old(monitors)@.len() ==> if first_with_key(old(monitors)@, *key, i) {
                marked_failed(old(monitors)@[i], #[trigger] final(monitors)@[i], error@)
            } else {
                final(monitors)@[i] == old(monitors)@[i]
            },
{
    let mut i: usize = 0;
    while i < monitors.len()
        invariant
            i <= monitors@.len(),
            monitors@ == old(monitors)@,
            forall|j: int| 0 <= j < i ==> (#[trigger] monitors@[j]).info.key@ != key@,
        decreases monitors@.len() - i,
    {
        if same_key(&monitors[i].info.key, key) {
            monitors[i].brightness_read_error = Some(to_owned_string(error));
            monitors[i].contrast_read_error = Some(to_owned_string(error));
            monitors[i].input_source_read_error = Some(to_owned_string(error));
            proof {
                assert(first_with_key(old(monitors)@, *key, i as int));
                assert forall|q: int| 0 <= q < old(monitors)@.len() && q != i implies !first_with_key(
                    old(monitors)@,
                    *key,
                    q,
                ) by {
                    if q > i {
                        assert(old(monitors)@[i as int].info.key@ == key@);
                    }
                }
            }
            return;
        }
        i = i + 1;
    }
}

/// The first `n` monitors of `s` without those with `key`.
pub open spec fn without_key(s: Seq<MonitorState>, key: MonitorKey, n: int) -> Seq<MonitorState>
    decreases n,
{
    if n <= 0 || n > s.len() {
        Seq::empty()
    } else if s[n - 1].info.key@ == key@ {
        without_key(s, key, n - 1)
    } else {
        without_key(s, key, n - 1).push(s[n - 1])
    }
}

/// `i` is the first detected monitor with `key`.
pub open spec fn first_detected(detected: Seq<MonitorInfo>, key: MonitorKey, i: int) -> bool {
    &&& 0 <= i < detected.len()
    &&& detected[i].key@ == key@
    &&& forall|j: int| 0 <= j < i ==> (#[trigger] detected[j]).key@ != key@
}

/// Install a fresh reading of the monitor with `key`: only for a monitor of
/// the current detection and only when the reading is of that very monitor.
/// The reading takes the detected record; an earlier reading of the monitor
/// is replaced, and the new one is placed after every monitor numbered at
/// most the same, before every one numbered higher. Returns the monitor's
/// number, or `None` (nothing changed) when the reading was refused.
pub fn install_reading(
    monitors: &mut Vec<MonitorState>,
    detected: &Vec<MonitorInfo>,
    key: &MonitorKey,
    state: MonitorState,
) -> (r: Option<u32>)
    ensures
        match r {
            None => final(monitors)@ == old(monitors)@ && (state.info.key@ != key@ || forall|j: int|
                0 <= j < detected@.len() ==> (#[trigger] detected@[j]).key@ != key@),
            Some(id) => state.info.key@ == key@ && exists|j: int, p: int|
                #![trigger first_detected(detected@, *key, j), final(monitors)@[p]]
                first_detected(detected@, *key, j) && id == detected@[j].id && {
                    let rest = without_key(old(monitors)@, *key, old(monitors)@.len() as int);
                    &&& 0 <= p <= rest.len()
                    &&& final(monitors)@ == rest.insert(p, MonitorState { info: detected@[j], ..state })
                    &&& forall|q: int| 0 <= q < p ==> (#[trigger] rest[q]).info.id <= id
                    &&& p < rest.len() ==> rest[p].info.id > id
                },
        },
{
    let mut j: usize = 0;
    while j < detected.len() && !same_key(&detected[j].key, key)
        invariant
            j <= detected@.len(),
            forall|q: int| 0 <= q < j ==> (#[trigger] detected@[q]).key@ != key@,
        decreases detected@.len() - j,
    {
        j = j + 1;
    }
    if j == detected.len() || !same_key(&state.info.key, key) {
        return None;
    }
    let info = detected[j].copy();
    let id = info.id;
    let ghost installed = MonitorState { info: detected@[j as int], ..state };
    let mut fresh = state;
    fresh.info = info;
    assert(fresh == installed);
    let ghost start = monitors@;
    let mut rest: Vec<MonitorState> = Vec::new();
    let mut k: usize = 0;
    let mut taken: Vec<MonitorState> = Vec::new();
    std::mem::swap(monitors, &mut taken);
    assert(taken@ == start);
    let total = taken.len();
    while taken.len() > 0
        invariant
            total == start.len(),
            k + taken@.len() == start.len(),
            taken@ == start.subrange(k as int, start.len() as int),
            rest@ == without_key(start, *key, k as int),
        decreases taken@.len(),
    {
        let m = taken.remove(0);
        proof {
            assert(m == start[k as int]);
            assert(taken@ =~= start.subrange(k + 1, start.len() as int));
        }
        if !same_key(&m.info.key, key) {
            rest.push(m);
        }
        k = k + 1;
    }
    let mut p: usize = 0;
    while p < rest.len() && rest[p].info.id <= id
        invariant
            p <= rest@.len(),
            forall|q: int| 0 <= q < p ==> (#[trigger] rest@[q]).info.id <= id,
        decreases rest@.len() - p,
    {
        p = p + 1;
    }
    let ghost before = rest@;
    rest.insert(p, fresh);
    *monitors = rest;
    proof {
        assert(first_detected(detected@, *key, j as int));
        assert(k == start.len());
        assert(monitors@[p as int] == installed);
    }
    Some(id)
}

} // verus!
