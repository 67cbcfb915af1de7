//! Which hotkeys are live: registration status per configured hotkey, the
//! actions of registered ids, and which key events reach them.
use vstd::prelude::*;
use std::collections::HashMap;
use crate::config::{Hotkey, HotkeyActionSpec, HotkeyConfig, binding_id};
use crate::editor::{action_index, build_action_map, copy_actions, same_actions};

verus! {

/// A pressed hotkey reaches the actions only when its id was registered.
pub fn should_emit(registered_ids: &[u32], event_id: u32, pressed: bool) -> (r: bool)
    ensures
        r == (pressed && registered_ids@.contains(event_id)),
{
    if !pressed {
        return false;
    }
    let mut i: usize = 0;
    while i < registered_ids.len()
        invariant
            pressed,
            i <= registered_ids@.len(),
            forall|j: int| 0 <= j < i ==> registered_ids@[j] != event_id,
        decreases registered_ids@.len() - i,
    {
        if registered_ids[i] == event_id {
            assert(registered_ids@[i as int] == event_id);
            return true;
        }
        i = i + 1;
    }
    false
}

/// Strictly increasing: sorted, without repeats.
pub open spec fn strictly_increasing(s: Seq<u32>) -> bool {
    forall|i: int, j: int| 0 <= i < j < s.len() ==> s[i] < s[j]
}

/// The registered ids sorted without repeats, so one set of ids always gives
/// the same subscription identity.
pub fn normalized_ids(ids: &Vec<u32>) -> (r: Vec<u32>)
    ensures
        strictly_increasing(r@),
        forall|x: u32| r@.contains(x) <==> ids@.contains(x),
{
    let mut r: Vec<u32> = Vec::new();
    let mut i: usize = 0;
    while i < ids.len()
        invariant
            i <= ids@.len(),
            strictly_increasing(r@),
            forall|x: u32| r@.contains(x) <==> exists|j: int| 0 <= j < i && ids@[j] == x,
        decreases ids@.len() - i,
    {
        let x = ids[i];
        let ghost before = r@;
        // position of the first element not below x
        let mut p: usize = 0;
        while p < r.len() && r[p] < x
            invariant
                p <= r@.len(),
                r@ == before,
                forall|q: int| 0 <= q < p ==> r@[q] < x,
            decreases r@.len() - p,
        {
            p = p + 1;
        }
        if p < r.len() && r[p] == x {
            proof {
                assert forall|y: u32| r@.contains(y) <==> exists|j: int| 0 <= j < i + 1 && ids@[j] == y by {
                    if y == x {
                        assert(ids@[i as int] == x);
                        assert(r@[p as int] == x);
                    }
                    if exists|j: int| 0 <= j < i + 1 && ids@[j] == y {
                        let j = choose|j: int| 0 <= j < i + 1 && ids@[j] == y;
                        if j < i {
                            assert(exists|j2: int| 0 <= j2 < i && ids@[j2] == y);
                        }
                    }
                }
            }
        } else {
            r.insert(p, x);
            proof {
                assert forall|a: int, b: int| 0 <= a < b < r@.len() implies r@[a] < r@[b] by {
                    if b < p {
                    } else if a < p && b == p {
                    } else if a < p && b > p {
                        assert(r@[b] == before[b - 1]);
                        assert(before[b - 1] >= x || b - 1 >= p);
                        if p < before.len() {
                            assert(before[p as int] >= x);
                            assert(before[p as int] != x);
                            if b - 1 > p {
                                assert(before[p as int] < before[b - 1]);
                            }
                        }
                    } else if a == p {
                        assert(r@[b] == before[b - 1]);
                        assert(before[p as int] > x);
                        if b - 1 > p {
                            assert(before[p as int] < before[b - 1]);
                        }
                    } else {
                        assert(r@[a] == before[a - 1]);
                        assert(r@[b] == before[b - 1]);
                    }
                }
                assert forall|y: u32| r@.contains(y) <==> exists|j: int| 0 <= j < i + 1 && ids@[j] == y by {
                    if r@.contains(y) {
                        let k = choose|k: int| 0 <= k < r@.len() && r@[k] == y;
                        if k < p {
                            assert(before[k] == y);
                            assert(before.contains(y));
                        } else if k == p {
                            assert(ids@[i as int] == y);
                        } else {
                            assert(before[k - 1] == y);
                            assert(before.contains(y));
                        }
                    }
                    if exists|j: int| 0 <= j < i + 1 && ids@[j] == y {
                        let j = choose|j: int| 0 <= j < i + 1 && ids@[j] == y;
                        if j < i {
                            assert(exists|j2: int| 0 <= j2 < i && ids@[j2] == y);
                            assert(before.contains(y));
                            let k = choose|k: int| 0 <= k < before.len() && before[k] == y;
                            if k < p {
                                assert(r@[k] == y);
                            } else {
                                assert(r@[k + 1] == y);
                            }
                        } else {
                            assert(r@[p as int] == y);
                        }
                    }
                }
            }
        }
        i = i + 1;
    }
    proof {
        assert forall|x: u32| r@.contains(x) <==> ids@.contains(x) by {
            if ids@.contains(x) {
                let j = choose|j: int| 0 <= j < ids@.len() && ids@[j] == x;
                assert(exists|j2: int| 0 <= j2 < ids@.len() && ids@[j2] == x);
            }
        }
    }
    r
}

/// Whether a configured hotkey is live: hotkeys are on, its binding has an
/// id, and that id was registered with the system.
pub open spec fn hotkey_active(hotkey: Hotkey, enabled: bool, registered: Seq<u32>) -> bool {
    enabled && match binding_id(hotkey.binding) {
        Some(id) => registered.contains(id),
        None => false,
    }
}

/// The live/inactive status of each configured hotkey, by hotkey id, in
/// configuration order.
pub fn hotkey_status(hotkeys: &Vec<Hotkey>, enabled: bool, registered: &Vec<u32>) -> (r: Vec<(String, bool)>)
    ensures
        r@.len() == hotkeys@.len(),
        forall|i: int|
            0 <= i < hotkeys@.len() ==> (#[trigger] r@[i]).0@ == hotkeys@[i].id@ && r@[i].1 == hotkey_active(
                hotkeys@[i],
                enabled,
                registered@,
            ),
{
    let mut r: Vec<(String, bool)> = Vec::new();
    let mut i: usize = 0;
    while i < hotkeys.len()
        invariant
            i <= hotkeys@.len(),
            r@.len() == i,
            forall|q: int|
                0 <= q < i ==> (#[trigger] r@[q]).0@ == hotkeys@[q].id@ && r@[q].1 == hotkey_active(
                    hotkeys@[q],
                    enabled,
                    registered@,
                ),
        decreases hotkeys@.len() - i,
    {
        let active = if enabled {
            match hotkeys[i].binding.to_hotkey() {
                Some(id) => should_emit(registered.as_slice(), id, true),
                None => false,
            }
        } else {
            false
        };
        r.push((hotkeys[i].id.clone(), active));
        i = i + 1;
    }
    r
}

proof fn lemma_same_actions_trans(a: Seq<HotkeyActionSpec>, b: Seq<HotkeyActionSpec>, c: Seq<HotkeyActionSpec>)
    requires
        same_actions(a, b),
        same_actions(b, c),
    ensures
        same_actions(a, c),
{
    assert forall|k: int| 0 <= k < a.len() implies #[trigger] crate::config::same_action(a[k], c[k]) by {
        assert(crate::config::same_action(a[k], b[k]));
        assert(crate::config::same_action(b[k], c[k]));
    }
}

/// The actions of the registered ids only; nothing while hotkeys are off.
/// Rebuilding this never touches the registration itself.
pub fn registered_action_map(config: &HotkeyConfig, enabled: bool, registered: &Vec<u32>) -> (r: HashMap<
    u32,
    Vec<HotkeyActionSpec>,
>)
    ensures
        !enabled ==> r@.dom().len() == 0,
        enabled ==> forall|id: u32|
            #[trigger] r@.contains_key(id) <==> (registered@.contains(id) && action_index(
                config.hotkeys@,
                config.hotkeys@.len() as int,
            ).contains_key(id)),
        forall|id: u32|
            #[trigger] r@.contains_key(id) ==> same_actions(
                config.hotkeys@[action_index(config.hotkeys@, config.hotkeys@.len() as int)[id]].actions@,
                r@[id]@,
            ),
{
    broadcast use vstd::std_specs::hash::group_hash_axioms;

    let mut r: HashMap<u32, Vec<HotkeyActionSpec>> = HashMap::new();
    if !enabled {
        proof {
            assert(r@.dom() =~= Set::<u32>::empty());
        }
        return r;
    }
    let all = build_action_map(config);
    let ghost index = action_index(config.hotkeys@, config.hotkeys@.len() as int);
    let mut i: usize = 0;
    while i < registered.len()
        invariant
            i <= registered@.len(),
            all@.dom() == index.dom(),
            forall|id: u32| #[trigger] all@.contains_key(id) ==> same_actions(config.hotkeys@[index[id]].actions@, all@[id]@),
            forall|id: u32|
                #[trigger] r@.contains_key(id) <==> ((exists|j: int| 0 <= j < i && registered@[j] == id)
                    && index.contains_key(id)),
            forall|id: u32| #[trigger] r@.contains_key(id) ==> same_actions(config.hotkeys@[index[id]].actions@, r@[id]@),
        decreases registered@.len() - i,
    {
        let id = registered[i];
        match all.get(&id) {
            Some(actions) => {
                let copy = copy_actions(actions);
                proof {
                    lemma_same_actions_trans(config.hotkeys@[index[id]].actions@, all@[id]@, copy@);
                }
                r.insert(id, copy);
            },
            None => {},
        }
        proof {
            assert forall|x: u32| #[trigger] r@.contains_key(x) <==> ((exists|j: int| 0 <= j < i + 1 && registered@[j] == x)
                && index.contains_key(x)) by {
                if exists|j: int| 0 <= j < i + 1 && registered@[j] == x {
                    let j = choose|j: int| 0 <= j < i + 1 && registered@[j] == x;
                    if j < i {
                        assert(exists|j2: int| 0 <= j2 < i && registered@[j2] == x);
                    }
                }
                if x != id && (exists|j: int| 0 <= j < i + 1 && registered@[j] == x) {
                    let j = choose|j: int| 0 <= j < i + 1 && registered@[j] == x;
                    assert(j != i);
                    assert(exists|j2: int| 0 <= j2 < i && registered@[j2] == x);
                }
                if x == id {
                    assert(registered@[i as int] == x);
                }
            }
        }
        i = i + 1;
    }
    proof {
        assert forall|id: u32| #[trigger] r@.contains_key(id) <==> (registered@.contains(id) && index.contains_key(id)) by {
            if registered@.contains(id) {
                let j = choose|j: int| 0 <= j < registered@.len() && registered@[j] == id;
                assert(exists|j2: int| 0 <= j2 < registered@.len() && registered@[j2] == id);
            }
        }
    }
    r
}

} // verus!
