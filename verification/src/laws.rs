//! Properties of the library as a whole, proved over the specifications that
//! the operations' own contracts use.
use vstd::prelude::*;
use crate::actions::{HardwareJob, HardwareOutcome, actions_resolve, job_run, segment_jobs_ok};
use crate::capabilities::{
    FeatureView, ParseState, VcpToken, base_inputs, capabilities_of, declares, dedupe_seq, features_from, find_code,
    remember, values_for, vcp_section, vcp_tokens_of, with_current,
};
use crate::coordination::{
    ActiveKind, HardwareCoordinator, HardwareResult, QueueEvent, Queued, Work, current_result, dispatched_as,
    finished, first_live, refreshed, single_number, started,
};
use crate::ddc::{
    Endpoint, InputSource, MonitorInfo, MonitorKey, MonitorState, VcpCall, power_code, decoded_input, device_key, device_path_prefix, input_code, input_from_code,
    key_prefix, key_supported, offset_target,
};
use crate::debounce::{DebounceToken, DraftKey, SliderDebounce, drafts_after_take, invalidated, recorded, taken_value};
use crate::hardware_queue::after_outcome;
use crate::profiles::{forbidden_in_name, profile_file, strip_unusable, trim_dots, first_non_dot, last_non_dot_end};
use crate::config::{
    ActionTarget, ActionType, HotkeyActionSpec, TurnOffBehavior, resolves_to, target_id,
    AppConfig, ConfigStore, HotkeyConfig, key_code, id_text, legacy_count, legacy_migration, migrated, recovery_text,
    retried, write_attempted, write_failure_noted,
};
use crate::keys::{NamedKey, PressedKey, key_text_of};
use crate::persistence::LoadOutcome;
use crate::text::{decimal, digit_char, ascii_lower, lower_seq, trim_seq, first_non_space, last_non_space_end};

verus! {

// ---------------------------------------------------------------------------
// Input sources
// ---------------------------------------------------------------------------

/// The MCCS values that name a standard input.
pub open spec fn standard_code(value: u16) -> bool {
    value == 0x01 || value == 0x02 || value == 0x03 || value == 0x04 || (0x0F <= value && value <= 0x14)
}

/// Writing an input's value and reading it back gives the same input, for
/// every standard input and every custom value that names no standard one.
pub proof fn law_input_code_roundtrip(source: InputSource)
    requires
        !(source is Custom) || !standard_code(source->Custom_0),
    ensures
        input_from_code(input_code(source)) == source,
{
}

/// Only the low byte (SL) of an input-source reading selects the input; the
/// reserved high byte (SH) never changes it.
pub proof fn law_input_reading_ignores_high_byte(raw: u16, high: u16)
    requires
        high < 256,
    ensures
        decoded_input((high * 256 + raw % 256) as u16) == decoded_input(raw),
{
    assert((high * 256 + raw % 256) % 256 == raw % 256) by (nonlinear_arith)
        requires
            high < 256,
    ;
}

// ---------------------------------------------------------------------------
// Monitor identity
// ---------------------------------------------------------------------------

proof fn lemma_lower_idempotent(s: Seq<char>)
    ensures
        lower_seq(lower_seq(s)) == lower_seq(s),
{
    assert(lower_seq(lower_seq(s)) =~= lower_seq(s));
}

proof fn lemma_lower_keeps_non_letters(s: Seq<char>, i: int)
    requires
        0 <= i < s.len(),
    ensures
        lower_seq(s)[i] == ascii_lower(s[i]),
        lower_seq(s).len() == s.len(),
{
}

/// Two device paths that differ only in ASCII case name the same monitor.
pub proof fn law_device_key_ignores_case(p: Seq<char>, q: Seq<char>)
    requires
        lower_seq(p) == lower_seq(q),
    ensures
        device_key(p) == device_key(q),
{
    reveal_strlit("\\\\?\\");
    assert(p.len() == lower_seq(p).len());
    assert(q.len() == lower_seq(q).len());
    assert(p.len() == q.len());
    if p.len() >= 4 {
        assert forall|i: int| 0 <= i < 4 implies (p[i] == device_path_prefix()[i]) == (q[i] == device_path_prefix()[i]) by {
            lemma_lower_keeps_non_letters(p, i);
            lemma_lower_keeps_non_letters(q, i);
        }
        if p.subrange(0, 4) == device_path_prefix() {
            assert forall|i: int| 0 <= i < 4 implies q.subrange(0, 4)[i] == device_path_prefix()[i] by {
                assert(p.subrange(0, 4)[i] == p[i]);
            }
            assert(q.subrange(0, 4) =~= device_path_prefix());
        }
        if q.subrange(0, 4) == device_path_prefix() {
            assert forall|i: int| 0 <= i < 4 implies p.subrange(0, 4)[i] == device_path_prefix()[i] by {
                assert(q.subrange(0, 4)[i] == q[i]);
            }
            assert(p.subrange(0, 4) =~= device_path_prefix());
        }
    }
    if p.contains('\0') {
        let i = choose|i: int| 0 <= i < p.len() && p[i] == '\0';
        lemma_lower_keeps_non_letters(p, i);
        lemma_lower_keeps_non_letters(q, i);
        assert(q[i] == '\0');
    }
    if q.contains('\0') {
        let i = choose|i: int| 0 <= i < q.len() && q[i] == '\0';
        lemma_lower_keeps_non_letters(p, i);
        lemma_lower_keeps_non_letters(q, i);
        assert(p[i] == '\0');
    }
}

/// Every key built from a device path is one this version can resolve to
/// hardware again (stored keys of other versions are kept but never resolve).
pub proof fn law_device_keys_are_supported(path: Seq<char>)
    requires
        device_key(path) is Some,
    ensures
        key_supported(device_key(path)->0),
{
    reveal_strlit("\\\\?\\");
    reveal_strlit("windows-device-path:v1:");
    let key = device_key(path)->0;
    let low = lower_seq(path);
    let plen = key_prefix().len() as int;
    assert(key == key_prefix() + low);
    assert(key.subrange(0, plen) =~= key_prefix());
    assert(key.subrange(plen, key.len() as int) =~= low);
    lemma_lower_idempotent(path);
    assert(low.len() == path.len());
    assert forall|i: int| 0 <= i < 4 implies low.subrange(0, 4)[i] == device_path_prefix()[i] by {
        assert(path.subrange(0, 4)[i] == path[i]);
        lemma_lower_keeps_non_letters(path, i);
    }
    assert(low.subrange(0, 4) =~= device_path_prefix());
    if low.contains('\0') {
        let i = choose|i: int| 0 <= i < low.len() && low[i] == '\0';
        lemma_lower_keeps_non_letters(path, i);
        assert(path[i] == '\0');
    }
}

// ---------------------------------------------------------------------------
// Slider drafts
// ---------------------------------------------------------------------------

/// A timer releases its draft at most once: after it did, the same timer
/// releases nothing.
pub proof fn law_draft_released_at_most_once(
    drafts: Map<DraftKey, (DebounceToken, u16)>,
    generation: u64,
    key: DraftKey,
    token: DebounceToken,
)
    requires
        taken_value(drafts, generation, key, token) is Some,
    ensures
        taken_value(drafts_after_take(drafts, generation, key, token), generation, key, token) is None,
{
}

/// A newer edit of the same slider supersedes every older timer, even when
/// it repeats the older value: only the newest token can release the draft.
pub proof fn law_newer_edit_supersedes_older_timers(
    drafts: Map<DraftKey, (DebounceToken, u16)>,
    key: DraftKey,
    newer: DebounceToken,
    value: u16,
    older: DebounceToken,
    generation: u64,
)
    requires
        older.revision_view() < newer.revision_view(),
    ensures
        taken_value(drafts.insert(key, (newer, value)), generation, key, older) is None,
        newer.generation_view() == generation ==> taken_value(drafts.insert(key, (newer, value)), generation, key, newer)
            == Some(value),
{
}

/// Slider tokens never repeat across `invalidate`: an edit recorded after
/// the drafts were dropped gets a later revision, and no timer of an edit
/// from before can release anything.
pub proof fn law_tokens_never_repeat_across_invalidate(
    s0: SliderDebounce,
    s1: SliderDebounce,
    g1: u64,
    k1: DraftKey,
    v1: u16,
    t1: DebounceToken,
    s2: SliderDebounce,
    s3: SliderDebounce,
    g2: u64,
    k2: DraftKey,
    v2: u16,
    t2: DebounceToken,
    generation: u64,
    key: DraftKey,
)
    requires
        recorded(s0, s1, g1, k1, v1, t1),
        invalidated(s1, s2),
        recorded(s2, s3, g2, k2, v2, t2),
    ensures
        t1.revision_view() < t2.revision_view(),
        t1 != t2,
        taken_value(s3.drafts(), generation, key, t1) is None,
{
    if taken_value(s3.drafts(), generation, key, t1) is Some {
        assert(s3.drafts().contains_key(key));
        assert(key == k2);
    }
}

// ---------------------------------------------------------------------------
// Confirmed readings
// ---------------------------------------------------------------------------

/// A failed job changes no confirmed reading.
pub proof fn law_failed_job_changes_nothing(m: MonitorState, error: String)
    ensures
        after_outcome(m, Err(error)) == m,
{
}

/// A successful write to another monitor (by key, whatever its display
/// number) changes nothing here.
pub proof fn law_other_monitor_unchanged(m: MonitorState, outcome: HardwareOutcome, written: MonitorKey)
    requires
        written@ != m.info.key@,
        outcome matches HardwareOutcome::BrightnessApplied { monitor_id, .. } ==> monitor_id == written,
        outcome matches HardwareOutcome::ContrastApplied { monitor_id, .. } ==> monitor_id == written,
        outcome matches HardwareOutcome::InputSourceApplied { monitor_id, .. } ==> monitor_id == written,
    ensures
        after_outcome(m, Ok(outcome)) == m,
{
}

/// Every valid reading (a positive maximum, the current value within it, the
/// top of the range included) is stepped: the value written is
/// `current + offset` limited to `0..=maximum`. Only a zero maximum or a
/// current value above the maximum is refused.
pub proof fn law_valid_reading_is_stepped(current: u16, maximum: u16, offset: i32)
    ensures
        (0 < maximum && current <= maximum) <==> offset_target(current, maximum, offset) is Some,
        0 < maximum && current <= maximum && current + offset <= 0 ==> offset_target(current, maximum, offset)
            == Some(0u16),
        0 < maximum && current <= maximum && current + offset >= maximum ==> offset_target(
            current,
            maximum,
            offset,
        ) == Some(maximum),
        0 < maximum && current <= maximum && 0 <= current + offset <= maximum ==> offset_target(
            current,
            maximum,
            offset,
        ) is Some && offset_target(current, maximum, offset)->0 == current + offset,
{
}

/// An offset write never leaves the advertised range.
pub proof fn law_offset_stays_in_range(current: u16, maximum: u16, offset: i32)
    requires
        offset_target(current, maximum, offset) is Some,
    ensures
        offset_target(current, maximum, offset)->0 <= maximum,
        current <= maximum,
{
}

// ---------------------------------------------------------------------------
// Serialized hardware work
// ---------------------------------------------------------------------------

/// Once the topology generation moved on, no result of work started before
/// is accepted, whatever it reports.
pub proof fn law_older_generation_is_stale(
    generation: u64,
    available: Seq<crate::ddc::MonitorInfo>,
    revision_view: spec_fn(MonitorKey) -> Option<u64>,
    work_generation: u64,
    revision: Option<(MonitorKey, u64)>,
)
    requires
        work_generation < generation,
    ensures
        !current_result(generation, available, revision_view, work_generation, revision),
{
}

/// A later write to a monitor outdates an earlier read of it.
pub proof fn law_newer_revision_outdates_reads(
    generation: u64,
    available: Seq<crate::ddc::MonitorInfo>,
    revision_view: spec_fn(MonitorKey) -> Option<u64>,
    key: MonitorKey,
    read_revision: u64,
)
    requires
        revision_view(key) matches Some(current) && read_revision < current,
    ensures
        !current_result(generation, available, revision_view, generation, Some((key, read_revision))),
{
}

// ---------------------------------------------------------------------------
// Profile files
// ---------------------------------------------------------------------------

proof fn lemma_stripped_is_usable(s: Seq<char>, n: int)
    ensures
        forall|i: int| 0 <= i < strip_unusable(s, n).len() ==> !forbidden_in_name(#[trigger] strip_unusable(s, n)[i]),
    decreases n,
{
    if n > 0 && n <= s.len() {
        lemma_stripped_is_usable(s, n - 1);
        let prev = strip_unusable(s, n - 1);
        if !(forbidden_in_name(s[n - 1]) || crate::profiles::is_control(s[n - 1])) {
            assert forall|i: int| 0 <= i < prev.push(s[n - 1]).len() implies !forbidden_in_name(
                #[trigger] prev.push(s[n - 1])[i],
            ) by {
                if i < prev.len() {
                    assert(prev.push(s[n - 1])[i] == prev[i]);
                }
            }
        }
    }
}

/// A predicate on characters that every character of `s` meets.
pub open spec fn all_usable(s: Seq<char>) -> bool {
    forall|i: int| 0 <= i < s.len() ==> !forbidden_in_name(#[trigger] s[i])
}

proof fn lemma_subrange_usable(s: Seq<char>, a: int, b: int)
    requires
        all_usable(s),
        0 <= a <= b <= s.len(),
    ensures
        all_usable(s.subrange(a, b)),
{
    assert forall|i: int| 0 <= i < s.subrange(a, b).len() implies !forbidden_in_name(#[trigger] s.subrange(a, b)[i]) by {
        assert(s.subrange(a, b)[i] == s[a + i]);
    }
}

proof fn lemma_first_non_space_bounds(s: Seq<char>, i: int)
    requires
        0 <= i <= s.len(),
    ensures
        i <= first_non_space(s, i) <= s.len(),
    decreases s.len() - i,
{
    if i < s.len() && crate::text::is_space(s[i]) {
        lemma_first_non_space_bounds(s, i + 1);
    }
}

proof fn lemma_last_non_space_bounds(s: Seq<char>, j: int)
    requires
        0 <= j <= s.len(),
    ensures
        0 <= last_non_space_end(s, j) <= j,
    decreases j,
{
    if j > 0 && crate::text::is_space(s[j - 1]) {
        lemma_last_non_space_bounds(s, j - 1);
    }
}

proof fn lemma_first_non_dot_bounds(s: Seq<char>, i: int)
    requires
        0 <= i <= s.len(),
    ensures
        i <= first_non_dot(s, i) <= s.len(),
    decreases s.len() - i,
{
    if i < s.len() && s[i] == '.' {
        lemma_first_non_dot_bounds(s, i + 1);
    }
}

proof fn lemma_last_non_dot_bounds(s: Seq<char>, j: int)
    requires
        0 <= j <= s.len(),
    ensures
        0 <= last_non_dot_end(s, j) <= j,
    decreases j,
{
    if j > 0 && s[j - 1] == '.' {
        lemma_last_non_dot_bounds(s, j - 1);
    }
}

proof fn lemma_trim_usable(s: Seq<char>)
    requires
        all_usable(s),
    ensures
        all_usable(trim_seq(s)),
        all_usable(trim_dots(s)),
{
    lemma_first_non_space_bounds(s, 0);
    lemma_last_non_space_bounds(s, s.len() as int);
    lemma_first_non_dot_bounds(s, 0);
    lemma_last_non_dot_bounds(s, s.len() as int);
    let a = first_non_space(s, 0);
    let b = last_non_space_end(s, s.len() as int);
    if a < b {
        lemma_subrange_usable(s, a, b);
    }
    let c = first_non_dot(s, 0);
    let d = last_non_dot_end(s, s.len() as int);
    if c < d {
        lemma_subrange_usable(s, c, d);
    }
}

/// A profile file name never holds a path separator, a drive colon or
/// another character Windows refuses, so a profile is always written inside
/// the profile directory, whatever name the user typed.
pub proof fn law_profile_file_stays_in_directory(name: Seq<char>)
    requires
        profile_file(name) is Ok,
    ensures
        all_usable(profile_file(name)->Ok_0),
{
    reveal_strlit(".json");
    let stripped = strip_unusable(name, name.len() as int);
    lemma_stripped_is_usable(name, name.len() as int);
    assert(all_usable(stripped));
    lemma_trim_usable(stripped);
    let t1 = trim_seq(stripped);
    lemma_trim_usable(t1);
    let t2 = trim_dots(t1);
    lemma_trim_usable(t2);
    let stem = trim_seq(t2);
    let file = profile_file(name)->Ok_0;
    assert(file == stem + ".json"@);
    assert forall|i: int| 0 <= i < file.len() implies !forbidden_in_name(#[trigger] file[i]) by {
        if i < stem.len() {
            assert(file[i] == stem[i]);
        } else {
            assert(file[i] == ".json"@[i - stem.len()]);
        }
    }
}


// ---------------------------------------------------------------------------
// Recorded keys
// ---------------------------------------------------------------------------

/// A named key or the space bar, once recorded, has a key code under the
/// name it was recorded with, so a binding made of it can be registered as a
/// global hotkey. (Named keys that cannot be bound record an empty name and
/// are left out.)
pub proof fn law_recorded_named_keys_are_registrable(key: PressedKey)
    requires
        key is Named || (key matches PressedKey::Character(s) && s@.len() > 0 && s@[0] == ' '),
    ensures
        key_text_of(key).len() > 0 ==> key_code(key_text_of(key)) == Some(key_text_of(key)),
{
    match key {
        PressedKey::Named(k) => {
            match k {
                NamedKey::F1 => {
                    reveal_strlit("F1");
                },
                NamedKey::F2 => {
                    reveal_strlit("F2");
                },
                NamedKey::F3 => {
                    reveal_strlit("F3");
                },
                NamedKey::F4 => {
                    reveal_strlit("F4");
                },
                NamedKey::F5 => {
                    reveal_strlit("F5");
                },
                NamedKey::F6 => {
                    reveal_strlit("F6");
                },
                NamedKey::F7 => {
                    reveal_strlit("F7");
                },
                NamedKey::F8 => {
                    reveal_strlit("F8");
                },
                NamedKey::F9 => {
                    reveal_strlit("F9");
                },
                NamedKey::F10 => {
                    reveal_strlit("F10");
                },
                NamedKey::F11 => {
                    reveal_strlit("F11");
                },
                NamedKey::F12 => {
                    reveal_strlit("F12");
                },
                NamedKey::ArrowUp => {
                    reveal_strlit("ArrowUp");
                },
                NamedKey::ArrowDown => {
                    reveal_strlit("ArrowDown");
                },
                NamedKey::ArrowLeft => {
                    reveal_strlit("ArrowLeft");
                },
                NamedKey::ArrowRight => {
                    reveal_strlit("ArrowRight");
                },
                NamedKey::Home => {
                    reveal_strlit("Home");
                },
                NamedKey::End => {
                    reveal_strlit("End");
                },
                NamedKey::PageUp => {
                    reveal_strlit("PageUp");
                },
                NamedKey::PageDown => {
                    reveal_strlit("PageDown");
                },
                NamedKey::Insert => {
                    reveal_strlit("Insert");
                },
                NamedKey::Delete => {
                    reveal_strlit("Delete");
                },
                NamedKey::Enter => {
                    reveal_strlit("Enter");
                },
                NamedKey::Escape => {
                    reveal_strlit("Escape");
                },
                NamedKey::Backspace => {
                    reveal_strlit("Backspace");
                },
                NamedKey::Tab => {
                    reveal_strlit("Tab");
                },
                NamedKey::Other => {},
            }
        },
        _ => {
            reveal_strlit("Space");
        },
    }
}


// ---------------------------------------------------------------------------
// Hotkey ids
// ---------------------------------------------------------------------------

proof fn lemma_digit(d: nat)
    requires
        d < 10,
    ensures
        digit_char(d) as u32 == '0' as u32 + d,
        digit_char(d) != '-',
{
    assert(('0' as u32) + d <= 0xD7FF);
}

proof fn lemma_decimal_shape(n: nat)
    ensures
        decimal(n).len() >= 1,
        n >= 10 ==> decimal(n).len() >= 2,
        forall|i: int| 0 <= i < decimal(n).len() ==> #[trigger] decimal(n)[i] != '-',
    decreases n,
{
    if n < 10 {
        lemma_digit(n);
    } else {
        lemma_decimal_shape(n / 10);
        lemma_digit(n % 10);
        let d = decimal(n);
        assert forall|i: int| 0 <= i < d.len() implies #[trigger] d[i] != '-' by {
            if i < d.len() - 1 {
                assert(d[i] == decimal(n / 10)[i]);
            }
        }
    }
}

proof fn lemma_decimal_injective(a: nat, b: nat)
    requires
        decimal(a) == decimal(b),
    ensures
        a == b,
    decreases a,
{
    lemma_decimal_shape(a);
    lemma_decimal_shape(b);
    if a < 10 && b < 10 {
        lemma_digit(a);
        lemma_digit(b);
        assert(decimal(a)[0] == digit_char(a));
        assert(decimal(b)[0] == digit_char(b));
        assert(digit_char(a) as u32 == digit_char(b) as u32);
    } else if a >= 10 && b >= 10 {
        let da = decimal(a);
        let db = decimal(b);
        assert(da.drop_last() == decimal(a / 10));
        assert(db.drop_last() == decimal(b / 10));
        lemma_decimal_injective(a / 10, b / 10);
        lemma_digit(a % 10);
        lemma_digit(b % 10);
        assert(da.last() == digit_char(a % 10));
        assert(db.last() == digit_char(b % 10));
        assert(digit_char(a % 10) as u32 == digit_char(b % 10) as u32);
        assert(a % 10 == b % 10);
        assert(a == 10 * (a / 10) + a % 10);
        assert(b == 10 * (b / 10) + b % 10);
    }
}

/// Different clock readings or sequence numbers always give different hotkey
/// ids: the id text determines both.
pub proof fn law_hotkey_ids_are_unique(n1: u128, c1: u64, n2: u128, c2: u64)
    ensures
        id_text(n1, c1) == id_text(n2, c2) ==> n1 == n2 && c1 == c2,
{
    if id_text(n1, c1) == id_text(n2, c2) {
        reveal_strlit("hk-");
        reveal_strlit("-");
        let a1 = decimal(n1 as nat);
        let b1 = decimal(c1 as nat);
        let a2 = decimal(n2 as nat);
        let b2 = decimal(c2 as nat);
        lemma_decimal_shape(n1 as nat);
        lemma_decimal_shape(n2 as nat);
        let x = id_text(n1, c1);
        assert(x == "hk-"@ + a1 + "-"@ + b1);
        assert(x == "hk-"@ + a2 + "-"@ + b2);
        assert(x[3 + a1.len() as int] == '-');
        assert(x[3 + a2.len() as int] == '-');
        if a1.len() < a2.len() {
            assert(x[3 + a1.len() as int] == a2[a1.len() as int]);
        } else if a2.len() < a1.len() {
            assert(x[3 + a2.len() as int] == a1[a2.len() as int]);
        }
        assert(a1 =~= x.subrange(3, 3 + a1.len() as int));
        assert(a2 =~= x.subrange(3, 3 + a2.len() as int));
        assert(b1 =~= x.subrange(4 + a1.len() as int, x.len() as int));
        assert(b2 =~= x.subrange(4 + a2.len() as int, x.len() as int));
        lemma_decimal_injective(n1 as nat, n2 as nat);
        lemma_decimal_injective(c1 as nat, c2 as nat);
    }
}

// ---------------------------------------------------------------------------
// The hardware coordinator across calls
// ---------------------------------------------------------------------------

/// One piece of work at a time: once `start_next` dispatched work, a further
/// `start_next` dispatches nothing and changes nothing until it is finished.
pub proof fn law_one_work_item_at_a_time(
    c0: HardwareCoordinator,
    c1: HardwareCoordinator,
    w: Work,
    c2: HardwareCoordinator,
    r2: Option<Work>,
)
    requires
        started(c0, c1, Some(w)),
        started(c1, c2, r2),
    ensures
        r2 is None,
        c2 == c1,
{
}

/// A result for anything but the work in flight is ignored and changes
/// nothing: the work in flight, the queue and the topology stay.
pub proof fn law_foreign_results_are_ignored(
    c: HardwareCoordinator,
    id: u64,
    result: Result<HardwareResult, String>,
    d: HardwareCoordinator,
    event: QueueEvent,
)
    requires
        c.active_id() != Some(id),
        finished(c, id, result, d, event),
    ensures
        event is Ignored,
        d.active_id() == c.active_id(),
        d.queue_view() == c.queue_view(),
        d.available_view() == c.available_view(),
        d.ready_view() == c.ready_view(),
{
}

/// A refresh does not pre-empt the work in flight, and that work's later
/// result, success or failure, is ignored: it only frees the slot for the
/// queued discovery of the new topology.
pub proof fn law_refresh_waits_for_work_and_outdates_it(
    c0: HardwareCoordinator,
    c1: HardwareCoordinator,
    id: u64,
    result: Result<HardwareResult, String>,
    c2: HardwareCoordinator,
    event: QueueEvent,
)
    requires
        c0.active_id() == Some(id),
        refreshed(c0, c1),
        finished(c1, id, result, c2, event),
    ensures
        c1.active_id() == Some(id),
        event is Ignored,
        c2.active_id() is None,
        c2.queue_view() == seq![Queued::Discover(c1.generation_view())],
        !c2.ready_view(),
        c2.available_view().len() == 0,
{
}

/// A failed discovery drops every queued entry and accepts no display
/// number for monitor work until a later discovery succeeds.
pub proof fn law_failed_discovery_resets_the_queue(
    c: HardwareCoordinator,
    id: u64,
    result: Result<HardwareResult, String>,
    d: HardwareCoordinator,
    event: QueueEvent,
    n: u32,
)
    requires
        finished(c, id, result, d, event),
        event matches QueueEvent::Discovered(Err(_)),
    ensures
        d.queue_view().len() == 0,
        !(d.ready_view() && single_number(d.available_view(), n)),
{
}

/// A failed profile apply drops the work queued behind it and queues a
/// discovery of the current topology instead.
pub proof fn law_failed_profile_rediscovers(
    c: HardwareCoordinator,
    id: u64,
    result: Result<HardwareResult, String>,
    d: HardwareCoordinator,
    event: QueueEvent,
)
    requires
        finished(c, id, result, d, event),
        c.active_current(id),
        c.active_view()->0.kind matches ActiveKind::Write { applies_profile: true, .. },
        event matches QueueEvent::Applied(Err(_)),
    ensures
        d.queue_view() == seq![Queued::Discover(c.generation_view())],
{
}

/// Queue order: work dispatched from the first live entry `k`, once its
/// read or non-profile write is finished, leaves exactly the entries behind
/// `k`, and the next dispatch takes the first of those that is still live.
pub proof fn law_work_is_dispatched_in_queue_order(
    c0: HardwareCoordinator,
    c1: HardwareCoordinator,
    w: Work,
    k: int,
    result: Result<HardwareResult, String>,
    c2: HardwareCoordinator,
    event: QueueEvent,
    c3: HardwareCoordinator,
    r3: Option<Work>,
    j: int,
)
    requires
        c0.active_id() is None,
        first_live(c0.queue_view(), k, c0.generation_view(), c0.ready_view(), c0.available_view()),
        started(c0, c1, Some(w)),
        finished(c1, w.id, result, c2, event),
        c1.active_current(w.id),
        !(c1.active_view()->0.kind is Discover),
        !(c1.active_view()->0.kind matches ActiveKind::Write { applies_profile: true, .. }),
        started(c2, c3, r3),
        first_live(c2.queue_view(), j, c2.generation_view(), c2.ready_view(), c2.available_view()),
    ensures
        c2.active_id() is None,
        c2.queue_view() == c0.queue_view().skip(k + 1),
        r3 matches Some(w3) && dispatched_as(c2.queue_view()[j], w3.operation),
{
}

/// The hotkey made for the `m`-th legacy binding by a migration gets the id
/// with sequence number `counter + m`.
proof fn lemma_migrated_id(before: HotkeyConfig, after: HotkeyConfig, nanos: u128, counter: u64, m: int)
    requires
        legacy_migration(before, after, nanos, counter),
        counter + legacy_count(before) <= u64::MAX,
        0 <= m < legacy_count(before),
    ensures
        after.hotkeys@[before.hotkeys@.len() + m].id@ == id_text(nanos, (counter + m) as u64),
{
    let base = before.hotkeys@.len() as int;
    let n0 = before.input_switch_bindings@.len() as int;
    let n1 = n0 + before.brightness_bindings@.len();
    let n2 = n1 + before.contrast_bindings@.len();
    let n3 = n2 + before.power_mode_bindings@.len();
    let b0 = before.input_switch_bindings@.len();
    let b1 = before.brightness_bindings@.len();
    let b2 = before.contrast_bindings@.len();
    let b3 = before.power_mode_bindings@.len();
    if m < n0 {
        assert(migrated(after.hotkeys@[base + m], id_text(nanos, (counter + m) as u64), before.input_switch_bindings@[m].hotkey));
    } else if m < n1 {
        let k = m - n0;
        let skip = b0;
        let bs = before.hotkeys@.len() + skip;
        let first = counter + skip;
        assert(migrated(after.hotkeys@[bs + k], id_text(nanos, (first + k) as u64), before.brightness_bindings@[k].hotkey));
        assert(bs + k == base + m);
        assert(first + k == counter + m);
    } else if m < n2 {
        let k = m - n1;
        let skip = b0 + b1;
        let bs = before.hotkeys@.len() + skip;
        let first = counter + skip;
        assert(migrated(after.hotkeys@[bs + k], id_text(nanos, (first + k) as u64), before.contrast_bindings@[k].hotkey));
        assert(bs + k == base + m);
        assert(first + k == counter + m);
    } else if m < n3 {
        let k = m - n2;
        let skip = b0 + b1 + b2;
        let bs = before.hotkeys@.len() + skip;
        let first = counter + skip;
        assert(migrated(after.hotkeys@[bs + k], id_text(nanos, (first + k) as u64), before.power_mode_bindings@[k].hotkey));
        assert(bs + k == base + m);
        assert(first + k == counter + m);
    } else {
        let k = m - n3;
        let skip = b0 + b1 + b2 + b3;
        let bs = before.hotkeys@.len() + skip;
        let first = counter + skip;
        assert(migrated(after.hotkeys@[bs + k], id_text(nanos, (first + k) as u64), before.profile_bindings@[k].hotkey));
        assert(bs + k == base + m);
        assert(first + k == counter + m);
    }
}

/// The hotkeys a legacy migration makes all get different ids.
pub proof fn law_migrated_hotkeys_get_distinct_ids(before: HotkeyConfig, after: HotkeyConfig, nanos: u128, counter: u64)
    requires
        legacy_migration(before, after, nanos, counter),
        counter + legacy_count(before) <= u64::MAX,
    ensures
        forall|i: int, j: int|
            before.hotkeys@.len() <= i < j < after.hotkeys@.len() ==> (#[trigger] after.hotkeys@[i]).id@
                != (#[trigger] after.hotkeys@[j]).id@,
{
    let base = before.hotkeys@.len() as int;
    assert forall|i: int, j: int|
        base <= i < j < after.hotkeys@.len() implies (#[trigger] after.hotkeys@[i]).id@
            != (#[trigger] after.hotkeys@[j]).id@ by {
        lemma_migrated_id(before, after, nanos, counter, i - base);
        lemma_migrated_id(before, after, nanos, counter, j - base);
        law_hotkey_ids_are_unique(nanos, (counter + (i - base)) as u64, nanos, (counter + (j - base)) as u64);
    }
}

// ---------------------------------------------------------------------------
// The settings write block
// ---------------------------------------------------------------------------

/// While the settings need recovery, every write attempt (a save or a hotkey
/// toggle) is refused with the recovery text and leaves the block as it was.
pub proof fn law_blocked_writes_are_refused(s: ConfigStore, d: ConfigStore, r: Result<(), String>)
    requires
        s.block() is Some,
        write_attempted(s, d, r),
    ensures
        r matches Err(e) && e@ == recovery_text(s.block()->0),
        d.block() == s.block(),
{
}

/// A failed write never lifts the block, whatever its reload gives.
pub proof fn law_failed_write_keeps_the_block(s: ConfigStore, reload: LoadOutcome<AppConfig>, d: ConfigStore)
    requires
        s.block() is Some,
        write_failure_noted(s, reload, d),
    ensures
        d.block() is Some,
{
}

/// Of the loads, only a retry whose load did not fail lifts the block.
pub proof fn law_only_a_good_retry_lifts_the_block(
    s: ConfigStore,
    outcome: LoadOutcome<AppConfig>,
    d: ConfigStore,
)
    requires
        retried(s, outcome, d),
    ensures
        d.block() is None <==> !(outcome is Failed),
{
}

// ---------------------------------------------------------------------------
// Actions into jobs, jobs onto the wire
// ---------------------------------------------------------------------------

/// An Input Source action with per-monitor assignments switches each of its
/// monitors to the input assigned to that monitor: the `k`-th job sets the
/// `k`-th assignment's input on the display that the assignment's monitor
/// resolves to.
pub proof fn law_per_monitor_inputs(
    jobs: Seq<HardwareJob>,
    a: HotkeyActionSpec,
    behavior: TurnOffBehavior,
    available: Seq<MonitorInfo>,
    states: Seq<MonitorState>,
)
    requires
        a.target == ActionTarget::InputSource,
        a.action_type != ActionType::Off,
        !a.all_monitors,
        a.monitor_inputs@.len() > 0,
        actions_resolve(seq![a], available),
        segment_jobs_ok(jobs, seq![a], behavior, available, states),
    ensures
        jobs.len() == a.monitor_inputs@.len(),
        forall|k: int|
            0 <= k < jobs.len() ==> (#[trigger] jobs[k] matches HardwareJob::SetInputSource { monitor_id, source }
                && source == a.monitor_inputs@[k].input_source && exists|i: int|
                resolves_to(a.monitor_inputs@[k].monitor_id, available, i) && available[i].id == monitor_id),
{
    lemma_single_action(jobs, a, behavior, available, states);
    let targets = crate::config::action_targets(a, available);
    assert(seq![a][0] == a);
    assert(!crate::actions::profile_action(seq![a][0]));
    assert forall|k: int| 0 <= k < jobs.len() implies (#[trigger] jobs[k] matches HardwareJob::SetInputSource {
        monitor_id,
        source,
    } && source == a.monitor_inputs@[k].input_source && exists|i: int|
        resolves_to(a.monitor_inputs@[k].monitor_id, available, i) && available[i].id == monitor_id) by {
        let t = a.monitor_inputs@[k].monitor_id;
        assert(targets[k] == t);
        assert(crate::config::resolvable(targets[k], available));
        assert(crate::actions::action_ids(a, available)[k] == target_id(t, available));
        match t {
            crate::config::MonitorTarget::Stable(key) => {
                let w = choose|i: int| crate::config::unique_match(available, key, i);
                assert(resolves_to(t, available, w));
            },
            crate::config::MonitorTarget::LegacyIndex(_) => {},
        }
        let i = choose|i: int| resolves_to(t, available, i);
        assert(resolves_to(t, available, i));
        assert(target_id(t, available) == available[i].id);
    }
}

/// An Input Source action on every monitor sets its one input on each.
pub proof fn law_all_monitors_input(
    jobs: Seq<HardwareJob>,
    a: HotkeyActionSpec,
    behavior: TurnOffBehavior,
    available: Seq<MonitorInfo>,
    states: Seq<MonitorState>,
)
    requires
        a.target == ActionTarget::InputSource,
        a.action_type != ActionType::Off,
        a.all_monitors,
        segment_jobs_ok(jobs, seq![a], behavior, available, states),
    ensures
        jobs.len() == available.len(),
        forall|k: int|
            0 <= k < jobs.len() ==> (#[trigger] jobs[k] matches HardwareJob::SetInputSource { monitor_id, source }
                && source == a.input_source),
{
    lemma_single_action(jobs, a, behavior, available, states);
}

/// The jobs of a chain of one action are that action's jobs.
proof fn lemma_single_action(
    jobs: Seq<HardwareJob>,
    a: HotkeyActionSpec,
    behavior: TurnOffBehavior,
    available: Seq<MonitorInfo>,
    states: Seq<MonitorState>,
)
    requires
        segment_jobs_ok(jobs, seq![a], behavior, available, states),
    ensures
        crate::actions::action_jobs_ok(jobs, a, behavior, available, states),
{
    assert(seq![a].last() == a);
    assert(seq![a].drop_last() =~= Seq::<HotkeyActionSpec>::empty());
    let n = crate::actions::job_count(a, behavior, available);
    let head = jobs.subrange(0, jobs.len() - n);
    assert(segment_jobs_ok(head, seq![a].drop_last(), behavior, available, states));
    assert(segment_jobs_ok(head, Seq::<HotkeyActionSpec>::empty(), behavior, available, states));
    assert(head.len() == 0);
    assert(jobs.subrange(jobs.len() - n, jobs.len() as int) == jobs);
}

/// Whether call `c` reads or writes feature `code`.
pub open spec fn call_on_feature(c: VcpCall, code: u8) -> bool {
    ||| c matches VcpCall::Read(f, _) && f == code
    ||| c matches VcpCall::Write(f, _, _) && f == code
}

/// A step job touches only its own feature on its own monitor: every call it
/// makes reads or writes brightness (0x10) for a brightness step, contrast
/// (0x12) for a contrast step, the job's code for a custom step. A step that
/// succeeds wrote the read value moved by the offset and clamped, and reports
/// that value for its monitor.
pub proof fn law_step_job_touches_its_feature<M>(
    job: HardwareJob,
    key: MonitorKey,
    endpoints: Seq<Endpoint<M>>,
    t: Seq<(MonitorKey, VcpCall)>,
    r: Result<HardwareOutcome, String>,
)
    requires
        job is OffsetBrightness || job is OffsetContrast || job is OffsetCustomVcp,
        job_run(job, Some(key), endpoints, t, r),
    ensures
        forall|i: int|
            0 <= i < t.len() ==> #[trigger] t[i].0 == key && call_on_feature(
                t[i].1,
                match job {
                    HardwareJob::OffsetBrightness { .. } => 0x10u8,
                    HardwareJob::OffsetContrast { .. } => 0x12u8,
                    HardwareJob::OffsetCustomVcp { code, .. } => code,
                    _ => 0u8,
                },
            ),
        r is Ok ==> {
            let v = t[1].1->Write_1;
            &&& t.len() == 2
            &&& t[0].1 is Read && t[0].1->Read_1 is Ok
            &&& t[1].1 is Write && t[1].1->Write_2 is Ok
            &&& offset_target(
                t[0].1->Read_1->Ok_0.0,
                t[0].1->Read_1->Ok_0.1,
                match job {
                    HardwareJob::OffsetBrightness { offset, .. } => offset,
                    HardwareJob::OffsetContrast { offset, .. } => offset,
                    HardwareJob::OffsetCustomVcp { offset, .. } => offset,
                    _ => 0i32,
                },
            ) == Some(v)
            &&& r->Ok_0 == match job {
                HardwareJob::OffsetBrightness { .. } => HardwareOutcome::BrightnessApplied { monitor_id: key, value: v },
                HardwareJob::OffsetContrast { .. } => HardwareOutcome::ContrastApplied { monitor_id: key, value: v },
                HardwareJob::OffsetCustomVcp { code, .. } => HardwareOutcome::CustomVcpApplied {
                    monitor_id: key,
                    code,
                    value: v,
                },
                _ => HardwareOutcome::MonitorsPoweredOff,
            }
        },
{
}

/// A set job writes once, to its own monitor, the feature and value it
/// names: brightness (0x10), contrast (0x12), input source (0x60, the input's
/// MCCS value), power mode (0xD6) or its custom code; a write that succeeds
/// reports the value written.
pub proof fn law_set_job_writes_its_feature<M>(
    job: HardwareJob,
    key: MonitorKey,
    endpoints: Seq<Endpoint<M>>,
    t: Seq<(MonitorKey, VcpCall)>,
    r: Result<HardwareOutcome, String>,
)
    requires
        job is SetBrightness || job is SetContrast || job is SetInputSource || job is SetPowerMode
            || job is SetCustomVcp,
        crate::ddc::resolvable(endpoints, key),
        job_run(job, Some(key), endpoints, t, r),
    ensures
        t.len() == 1,
        t[0].0 == key,
        t[0].1 matches VcpCall::Write(code, value, reply) && match job {
            HardwareJob::SetBrightness { value: w, .. } => code == 0x10u8 && value == w && (reply is Ok ==> r
                == Ok::<HardwareOutcome, String>(HardwareOutcome::BrightnessApplied { monitor_id: key, value: w })),
            HardwareJob::SetContrast { value: w, .. } => code == 0x12u8 && value == w && (reply is Ok ==> r
                == Ok::<HardwareOutcome, String>(HardwareOutcome::ContrastApplied { monitor_id: key, value: w })),
            HardwareJob::SetInputSource { source, .. } => code == 0x60u8 && value == input_code(source) && (
            reply is Ok ==> r == Ok::<HardwareOutcome, String>(
                HardwareOutcome::InputSourceApplied { monitor_id: key, source },
            )),
            HardwareJob::SetPowerMode { mode, .. } => code == 0xD6u8 && value == power_code(mode) && (reply is Ok
                ==> r == Ok::<HardwareOutcome, String>(HardwareOutcome::PowerModeApplied { monitor_id: key, mode })),
            HardwareJob::SetCustomVcp { code: c, value: w, .. } => code == c && value == w && (reply is Ok ==> r
                == Ok::<HardwareOutcome, String>(
                HardwareOutcome::CustomVcpApplied { monitor_id: key, code: c, value: w },
            )),
            _ => false,
        },
{
}

// ---------------------------------------------------------------------------
// Capabilities and the choices offered from them
// ---------------------------------------------------------------------------

/// Deduplicating keeps exactly the elements there were.
proof fn lemma_dedupe_same_elements<T>(s: Seq<T>)
    ensures
        forall|x: T| #[trigger] dedupe_seq(s).contains(x) <==> s.contains(x),
    decreases s.len(),
{
    if s.len() > 0 {
        lemma_dedupe_same_elements(s.drop_last());
        assert(s == s.drop_last().push(s.last()));
        let p = s.drop_last();
        let d = dedupe_seq(p);
        assert forall|x: T| #[trigger] dedupe_seq(s).contains(x) <==> s.contains(x) by {
            assert(s.contains(x) <==> (p.contains(x) || x == s.last())) by {
                if s.contains(x) && x != s.last() {
                    let j = choose|j: int| 0 <= j < s.len() && s[j] == x;
                    assert(p[j] == x);
                }
                if p.contains(x) {
                    let j = choose|j: int| 0 <= j < p.len() && p[j] == x;
                    assert(s[j] == x);
                }
                if x == s.last() {
                    assert(s[s.len() - 1] == x);
                }
            }
            assert(d.contains(x) <==> p.contains(x));
            if !d.contains(s.last()) {
                assert(d.push(s.last()).contains(x) <==> (d.contains(x) || x == s.last())) by {
                    if d.push(s.last()).contains(x) && x != s.last() {
                        let j = choose|j: int| 0 <= j < d.len() + 1 && d.push(s.last())[j] == x;
                        assert(d[j] == x);
                    }
                    if d.contains(x) {
                        let j = choose|j: int| 0 <= j < d.len() && d[j] == x;
                        assert(d.push(s.last())[j] == x);
                    }
                    if x == s.last() {
                        assert(d.push(s.last())[d.len() as int] == x);
                    }
                }
            }
        }
    }
}

/// A list without repeats is its own deduplication.
proof fn lemma_dedupe_of_distinct<T>(s: Seq<T>)
    requires
        s.no_duplicates(),
    ensures
        dedupe_seq(s) == s,
    decreases s.len(),
{
    if s.len() > 0 {
        let p = s.drop_last();
        assert(p.no_duplicates());
        lemma_dedupe_of_distinct(p);
        if p.contains(s.last()) {
            let j = choose|j: int| 0 <= j < p.len() && p[j] == s.last();
            assert(s[j] == s[s.len() - 1]);
        }
        assert(p.push(s.last()) == s);
    }
}

/// A monitor that advertises inputs is offered exactly those, and the current
/// input: every advertised input is offered, and every offered input is
/// advertised or current. Advertised without repeats, the offer is the
/// advertised list in its order, the current input appended when absent.
pub proof fn law_advertised_inputs_are_offered(advertised: Seq<InputSource>, current: Option<InputSource>)
    requires
        advertised.len() > 0,
    ensures
        forall|x: InputSource|
            #[trigger] with_current(base_inputs(Some(advertised)), current).contains(x) <==> (advertised.contains(x)
                || current == Some(x)),
        advertised.no_duplicates() ==> with_current(base_inputs(Some(advertised)), current) == match current {
            Some(c) => if advertised.contains(c) {
                advertised
            } else {
                advertised.push(c)
            },
            None => advertised,
        },
{
    let extended = match current {
        Some(c) => if advertised.contains(c) {
            advertised
        } else {
            advertised.push(c)
        },
        None => advertised,
    };
    assert(base_inputs(Some(advertised)) == advertised);
    assert(with_current(base_inputs(Some(advertised)), current) == dedupe_seq(extended));
    lemma_dedupe_same_elements(extended);
    assert forall|x: InputSource| extended.contains(x) <==> (advertised.contains(x) || current == Some(x)) by {
        if let Some(c) = current {
            if !advertised.contains(c) {
                assert(extended[advertised.len() as int] == c);
                if extended.contains(x) && x != c {
                    let j = choose|j: int| 0 <= j < extended.len() && extended[j] == x;
                    assert(advertised[j] == x);
                }
                if advertised.contains(x) {
                    let j = choose|j: int| 0 <= j < advertised.len() && advertised[j] == x;
                    assert(extended[j] == x);
                }
            }
        }
    }
    if advertised.no_duplicates() {
        assert(extended.no_duplicates()) by {
            if let Some(c) = current {
                if !advertised.contains(c) {
                    assert forall|i: int, j: int| 0 <= i < extended.len() && 0 <= j < extended.len() && i != j
                        implies extended[i] != extended[j] by {
                        if i == advertised.len() {
                            assert(advertised[j] == extended[j]);
                        } else if j == advertised.len() {
                            assert(advertised[i] == extended[i]);
                        }
                    }
                }
            }
        }
        lemma_dedupe_of_distinct(extended);
    }
}

/// Where the search for `code` from `i` lands.
proof fn lemma_find_code(acc: Seq<FeatureView>, code: u8, i: int)
    requires
        0 <= i,
    ensures
        find_code(acc, code, i) matches Some(k) ==> i <= k < acc.len() && acc[k].0 == code,
        find_code(acc, code, i) is None ==> forall|j: int| i <= j < acc.len() ==> acc[j].0 != code,
    decreases acc.len() - i,
{
    if i < acc.len() && acc[i].0 != code {
        lemma_find_code(acc, code, i + 1);
    }
}

/// Recording an occurrence declares its code and keeps every declared code.
proof fn lemma_remember_declares(acc: Seq<FeatureView>, code: u8, values: Option<Seq<u16>>)
    ensures
        declares(remember(acc, code, values), code),
        forall|c: u8| declares(acc, c) ==> #[trigger] declares(remember(acc, code, values), c),
{
    lemma_find_code(acc, code, 0);
    let r = remember(acc, code, values);
    assert forall|c: u8| declares(acc, c) implies #[trigger] declares(r, c) by {
        let j = choose|j: int| 0 <= j < acc.len() && acc[j].0 == c;
        assert(r[j].0 == c);
    }
    match find_code(acc, code, 0) {
        Some(k) => assert(r[k].0 == code),
        None => assert(r[acc.len() as int].0 == code),
    }
}

/// Parsing on never forgets a declared code.
proof fn lemma_parse_keeps(t: Seq<VcpToken>, i: int, st: ParseState, acc: Seq<FeatureView>, c: u8)
    requires
        declares(acc, c),
    ensures
        declares(features_from(t, i, st, acc), c),
    decreases t.len() - i, (if st is Code {
        1int
    } else {
        0int
    }),
{
    if i >= t.len() || i < 0 {
        match st {
            ParseState::Scan => {},
            ParseState::Code(d) => lemma_remember_declares(acc, d, None),
            ParseState::List(d, _, vals) => lemma_remember_declares(acc, d, Some(vals)),
        }
    } else {
        match st {
            ParseState::Scan => match t[i] {
                VcpToken::Hex(v) => if v <= 0xFF {
                    lemma_parse_keeps(t, i + 1, ParseState::Code(v as u8), acc, c);
                } else {
                    lemma_parse_keeps(t, i + 1, ParseState::Scan, acc, c);
                },
                _ => lemma_parse_keeps(t, i + 1, ParseState::Scan, acc, c),
            },
            ParseState::Code(d) => if t[i] == VcpToken::Open {
                lemma_parse_keeps(t, i + 1, ParseState::List(d, 1, Seq::empty()), acc, c);
            } else {
                lemma_remember_declares(acc, d, None);
                lemma_parse_keeps(t, i, ParseState::Scan, remember(acc, d, None), c);
            },
            ParseState::List(d, depth, vals) => match t[i] {
                VcpToken::Open => lemma_parse_keeps(t, i + 1, ParseState::List(d, depth + 1, vals), acc, c),
                VcpToken::Close => if depth <= 1 {
                    lemma_remember_declares(acc, d, Some(vals));
                    lemma_parse_keeps(t, i + 1, ParseState::Scan, remember(acc, d, Some(vals)), c);
                } else {
                    lemma_parse_keeps(t, i + 1, ParseState::List(d, depth - 1, vals), acc, c);
                },
                VcpToken::Hex(v) => if depth == 1 && v <= 0xFFFF && !vals.contains(v as u16) {
                    lemma_parse_keeps(t, i + 1, ParseState::List(d, depth, vals.push(v as u16)), acc, c);
                } else {
                    lemma_parse_keeps(t, i + 1, ParseState::List(d, depth, vals), acc, c);
                },
            },
        }
    }
}

/// The code being read, or whose value list is being read, ends up declared,
/// whatever follows, the end of the section included.
proof fn lemma_read_code_declared(t: Seq<VcpToken>, i: int, st: ParseState, acc: Seq<FeatureView>, c: u8)
    requires
        st == ParseState::Code(c) || (st matches ParseState::List(d, _, _) && d == c),
    ensures
        declares(features_from(t, i, st, acc), c),
    decreases t.len() - i, (if st is Code {
        1int
    } else {
        0int
    }),
{
    if i >= t.len() || i < 0 {
        match st {
            ParseState::Code(d) => lemma_remember_declares(acc, d, None),
            ParseState::List(d, _, vals) => lemma_remember_declares(acc, d, Some(vals)),
            ParseState::Scan => {},
        }
    } else {
        match st {
            ParseState::Code(d) => if t[i] == VcpToken::Open {
                lemma_read_code_declared(t, i + 1, ParseState::List(d, 1, Seq::empty()), acc, c);
            } else {
                lemma_remember_declares(acc, d, None);
                lemma_parse_keeps(t, i, ParseState::Scan, remember(acc, d, None), c);
            },
            ParseState::List(d, depth, vals) => match t[i] {
                VcpToken::Open => lemma_read_code_declared(t, i + 1, ParseState::List(d, depth + 1, vals), acc, c),
                VcpToken::Close => if depth <= 1 {
                    lemma_remember_declares(acc, d, Some(vals));
                    lemma_parse_keeps(t, i + 1, ParseState::Scan, remember(acc, d, Some(vals)), c);
                } else {
                    lemma_read_code_declared(t, i + 1, ParseState::List(d, depth - 1, vals), acc, c);
                },
                VcpToken::Hex(v) => if depth == 1 && v <= 0xFFFF && !vals.contains(v as u16) {
                    lemma_read_code_declared(t, i + 1, ParseState::List(d, depth, vals.push(v as u16)), acc, c);
                } else {
                    lemma_read_code_declared(t, i + 1, ParseState::List(d, depth, vals), acc, c);
                },
            },
            ParseState::Scan => {},
        }
    }
}

/// Parentheses opened and not yet closed before position `j` of `t`.
pub open spec fn nesting(t: Seq<VcpToken>, j: int) -> int
    decreases j,
{
    if j <= 0 {
        0
    } else {
        nesting(t, j - 1) + match t[j - 1] {
            VcpToken::Open => 1int,
            VcpToken::Close => -1int,
            VcpToken::Hex(_) => 0int,
        }
    }
}

/// Position `k` of `t` stands outside every parenthesis: no `)` before it
/// closes more than was opened, and every `(` before it is closed.
pub open spec fn top_level(t: Seq<VcpToken>, k: int) -> bool {
    &&& 0 <= k < t.len()
    &&& forall|j: int| 0 <= j <= k ==> #[trigger] nesting(t, j) >= 0
    &&& nesting(t, k) == 0
}

/// A code at top-level position `k` is declared, from any parser state at
/// `i` whose value list, if any, is no deeper than the nesting there.
proof fn lemma_top_level_code(
    t: Seq<VcpToken>,
    i: int,
    st: ParseState,
    acc: Seq<FeatureView>,
    k: int,
    v: u32,
)
    requires
        top_level(t, k),
        t[k] == VcpToken::Hex(v),
        v <= 0xFF,
        0 <= i <= k,
        st matches ParseState::List(_, d, _) ==> 1 <= d <= nesting(t, i),
    ensures
        declares(features_from(t, i, st, acc), v as u8),
    decreases t.len() - i, (if st is Code {
        1int
    } else {
        0int
    }),
{
    assert(nesting(t, i) >= 0);
    assert(nesting(t, i + 1) >= 0 || i == k);
    if i == k {
        match st {
            ParseState::Scan => lemma_read_code_declared(t, k + 1, ParseState::Code(v as u8), acc, v as u8),
            ParseState::Code(d) => {
                lemma_top_level_code(t, i, ParseState::Scan, remember(acc, d, None), k, v);
            },
            ParseState::List(..) => {},
        }
    } else {
        match st {
            ParseState::Scan => match t[i] {
                VcpToken::Hex(w) => if w <= 0xFF {
                    lemma_top_level_code(t, i + 1, ParseState::Code(w as u8), acc, k, v);
                } else {
                    lemma_top_level_code(t, i + 1, ParseState::Scan, acc, k, v);
                },
                _ => lemma_top_level_code(t, i + 1, ParseState::Scan, acc, k, v),
            },
            ParseState::Code(d) => if t[i] == VcpToken::Open {
                lemma_top_level_code(t, i + 1, ParseState::List(d, 1, Seq::empty()), acc, k, v);
            } else {
                lemma_top_level_code(t, i, ParseState::Scan, remember(acc, d, None), k, v);
            },
            ParseState::List(d, depth, vals) => match t[i] {
                VcpToken::Open => lemma_top_level_code(t, i + 1, ParseState::List(d, depth + 1, vals), acc, k, v),
                VcpToken::Close => if depth <= 1 {
                    lemma_top_level_code(t, i + 1, ParseState::Scan, remember(acc, d, Some(vals)), k, v);
                } else {
                    lemma_top_level_code(t, i + 1, ParseState::List(d, depth - 1, vals), acc, k, v);
                },
                VcpToken::Hex(w) => if depth == 1 && w <= 0xFFFF && !vals.contains(w as u16) {
                    lemma_top_level_code(t, i + 1, ParseState::List(d, depth, vals.push(w as u16)), acc, k, v);
                } else {
                    lemma_top_level_code(t, i + 1, ParseState::List(d, depth, vals), acc, k, v);
                },
            },
        }
    }
}

/// Every code of a `vcp(...)` section that stands outside all parentheses is
/// declared by the parsed capabilities, with or without a value list after
/// it, the section's last token included; nothing the section declared is
/// lost to what follows.
pub proof fn law_top_level_codes_are_declared(raw: Seq<char>, k: int)
    requires
        vcp_section(raw) is Some,
        top_level(vcp_tokens_of(vcp_section(raw)->0), k),
        vcp_tokens_of(vcp_section(raw)->0)[k] matches VcpToken::Hex(v) && v <= 0xFF,
    ensures
        capabilities_of(raw) is Some,
        declares(capabilities_of(raw)->0, (vcp_tokens_of(vcp_section(raw)->0)[k]->Hex_0) as u8),
{
    let t = vcp_tokens_of(vcp_section(raw)->0);
    lemma_top_level_code(t, 0, ParseState::Scan, Seq::empty(), k, t[k]->Hex_0);
}


/// A code of a `vcp(...)` section outside all parentheses that is directly
/// followed by `(` is declared with a value list: its discrete values are
/// known, whatever else the section holds.
pub proof fn law_code_with_list_is_discrete(raw: Seq<char>, k: int)
    requires
        vcp_section(raw) is Some,
        top_level(vcp_tokens_of(vcp_section(raw)->0), k),
        vcp_tokens_of(vcp_section(raw)->0)[k] matches VcpToken::Hex(v) && v <= 0xFF,
        k + 1 < vcp_tokens_of(vcp_section(raw)->0).len(),
        vcp_tokens_of(vcp_section(raw)->0)[k + 1] == VcpToken::Open,
    ensures
        capabilities_of(raw) is Some,
        values_for(capabilities_of(raw)->0, (vcp_tokens_of(vcp_section(raw)->0)[k]->Hex_0) as u8) is Some,
{
    let t = vcp_tokens_of(vcp_section(raw)->0);
    lemma_top_level_list(t, 0, ParseState::Scan, Seq::empty(), k, t[k]->Hex_0);
}

/// The search for `code` gives the same answer in a list whose codes agree
/// with `a`'s where `a` has them.
proof fn lemma_find_code_extends(a: Seq<FeatureView>, b: Seq<FeatureView>, code: u8, i: int)
    requires
        0 <= i,
        a.len() <= b.len(),
        forall|j: int| 0 <= j < a.len() ==> #[trigger] b[j].0 == a[j].0,
        find_code(a, code, i) is Some,
    ensures
        find_code(b, code, i) == find_code(a, code, i),
    decreases a.len() - i,
{
    if i < a.len() && a[i].0 != code {
        lemma_find_code_extends(a, b, code, i + 1);
    }
}

/// A list of codes without `code`, extended by `code`, finds it at the end.
proof fn lemma_find_code_pushed(a: Seq<FeatureView>, x: FeatureView, i: int)
    requires
        0 <= i <= a.len(),
        find_code(a, x.0, i) is None,
    ensures
        find_code(a.push(x), x.0, i) == Some(a.len() as int),
    decreases a.len() - i,
{
    lemma_find_code(a, x.0, i);
    if i < a.len() {
        assert(a.push(x)[i] == a[i]);
        lemma_find_code_pushed(a, x, i + 1);
    }
}

/// Recording an occurrence never takes a value list away, and an occurrence
/// with values leaves its code with a value list.
proof fn lemma_remember_keeps_list(acc: Seq<FeatureView>, code: u8, values: Option<Seq<u16>>)
    ensures
        values is Some ==> values_for(remember(acc, code, values), code) is Some,
        forall|c: u8| values_for(acc, c) is Some ==> #[trigger] values_for(remember(acc, code, values), c) is Some,
{
    lemma_find_code(acc, code, 0);
    let r = remember(acc, code, values);
    assert forall|c: u8| values_for(acc, c) is Some implies #[trigger] values_for(r, c) is Some by {
        lemma_find_code(acc, c, 0);
        let j = find_code(acc, c, 0)->0;
        match find_code(acc, code, 0) {
            Some(k) => {
                lemma_find_code_extends(acc, r, c, 0);
                if j != k {
                    assert(r[j] == acc[j]);
                }
            },
            None => {
                assert forall|q: int| 0 <= q < acc.len() implies #[trigger] r[q].0 == acc[q].0 by {
                    assert(r[q] == acc[q]);
                }
                lemma_find_code_extends(acc, r, c, 0);
                assert(r[j] == acc[j]);
            },
        }
    }
    if values is Some {
        match find_code(acc, code, 0) {
            Some(k) => {
                lemma_find_code_extends(acc, r, code, 0);
            },
            None => {
                lemma_find_code_pushed(acc, (code, values), 0);
            },
        }
    }
}

/// Parsing on never takes a code's value list away.
proof fn lemma_parse_keeps_list(t: Seq<VcpToken>, i: int, st: ParseState, acc: Seq<FeatureView>, c: u8)
    requires
        values_for(acc, c) is Some,
    ensures
        values_for(features_from(t, i, st, acc), c) is Some,
    decreases t.len() - i, (if st is Code {
        1int
    } else {
        0int
    }),
{
    if i >= t.len() || i < 0 {
        match st {
            ParseState::Scan => {},
            ParseState::Code(d) => lemma_remember_keeps_list(acc, d, None),
            ParseState::List(d, _, vals) => lemma_remember_keeps_list(acc, d, Some(vals)),
        }
    } else {
        match st {
            ParseState::Scan => match t[i] {
                VcpToken::Hex(v) => if v <= 0xFF {
                    lemma_parse_keeps_list(t, i + 1, ParseState::Code(v as u8), acc, c);
                } else {
                    lemma_parse_keeps_list(t, i + 1, ParseState::Scan, acc, c);
                },
                _ => lemma_parse_keeps_list(t, i + 1, ParseState::Scan, acc, c),
            },
            ParseState::Code(d) => if t[i] == VcpToken::Open {
                lemma_parse_keeps_list(t, i + 1, ParseState::List(d, 1, Seq::empty()), acc, c);
            } else {
                lemma_remember_keeps_list(acc, d, None);
                lemma_parse_keeps_list(t, i, ParseState::Scan, remember(acc, d, None), c);
            },
            ParseState::List(d, depth, vals) => match t[i] {
                VcpToken::Open => lemma_parse_keeps_list(t, i + 1, ParseState::List(d, depth + 1, vals), acc, c),
                VcpToken::Close => if depth <= 1 {
                    lemma_remember_keeps_list(acc, d, Some(vals));
                    lemma_parse_keeps_list(t, i + 1, ParseState::Scan, remember(acc, d, Some(vals)), c);
                } else {
                    lemma_parse_keeps_list(t, i + 1, ParseState::List(d, depth - 1, vals), acc, c);
                },
                VcpToken::Hex(v) => if depth == 1 && v <= 0xFFFF && !vals.contains(v as u16) {
                    lemma_parse_keeps_list(t, i + 1, ParseState::List(d, depth, vals.push(v as u16)), acc, c);
                } else {
                    lemma_parse_keeps_list(t, i + 1, ParseState::List(d, depth, vals), acc, c);
                },
            },
        }
    }
}

/// The code whose value list is being read ends up with a value list.
proof fn lemma_list_code_discrete(t: Seq<VcpToken>, i: int, st: ParseState, acc: Seq<FeatureView>, c: u8)
    requires
        st matches ParseState::List(d, _, _) && d == c,
    ensures
        values_for(features_from(t, i, st, acc), c) is Some,
    decreases t.len() - i,
{
    if i >= t.len() || i < 0 {
        if let ParseState::List(d, _, vals) = st {
            lemma_remember_keeps_list(acc, d, Some(vals));
        }
    } else {
        if let ParseState::List(d, depth, vals) = st {
            match t[i] {
                VcpToken::Open => lemma_list_code_discrete(t, i + 1, ParseState::List(d, depth + 1, vals), acc, c),
                VcpToken::Close => if depth <= 1 {
                    lemma_remember_keeps_list(acc, d, Some(vals));
                    lemma_parse_keeps_list(t, i + 1, ParseState::Scan, remember(acc, d, Some(vals)), c);
                } else {
                    lemma_list_code_discrete(t, i + 1, ParseState::List(d, depth - 1, vals), acc, c);
                },
                VcpToken::Hex(v) => if depth == 1 && v <= 0xFFFF && !vals.contains(v as u16) {
                    lemma_list_code_discrete(t, i + 1, ParseState::List(d, depth, vals.push(v as u16)), acc, c);
                } else {
                    lemma_list_code_discrete(t, i + 1, ParseState::List(d, depth, vals), acc, c);
                },
            }
        }
    }
}

/// A code at top-level position `k` followed by `(` gets a value list, from any
/// parser state at `i` whose value list, if any, is no deeper than the nesting there.
proof fn lemma_top_level_list(
    t: Seq<VcpToken>,
    i: int,
    st: ParseState,
    acc: Seq<FeatureView>,
    k: int,
    v: u32,
)
    requires
        top_level(t, k),
        t[k] == VcpToken::Hex(v),
        v <= 0xFF,
        k + 1 < t.len(),
        t[k + 1] == VcpToken::Open,
        0 <= i <= k,
        st matches ParseState::List(_, d, _) ==> 1 <= d <= nesting(t, i),
    ensures
        values_for(features_from(t, i, st, acc), v as u8) is Some,
    decreases t.len() - i, (if st is Code {
        1int
    } else {
        0int
    }),
{
    assert(nesting(t, i) >= 0);
    assert(nesting(t, i + 1) >= 0 || i == k);
    if i == k {
        match st {
            ParseState::Scan => lemma_list_code_discrete(t, k + 2, ParseState::List(v as u8, 1, Seq::empty()), acc, v as u8),
            ParseState::Code(d) => {
                lemma_top_level_list(t, i, ParseState::Scan, remember(acc, d, None), k, v);
            },
            ParseState::List(..) => {},
        }
    } else {
        match st {
            ParseState::Scan => match t[i] {
                VcpToken::Hex(w) => if w <= 0xFF {
                    lemma_top_level_list(t, i + 1, ParseState::Code(w as u8), acc, k, v);
                } else {
                    lemma_top_level_list(t, i + 1, ParseState::Scan, acc, k, v);
                },
                _ => lemma_top_level_list(t, i + 1, ParseState::Scan, acc, k, v),
            },
            ParseState::Code(d) => if t[i] == VcpToken::Open {
                lemma_top_level_list(t, i + 1, ParseState::List(d, 1, Seq::empty()), acc, k, v);
            } else {
                lemma_top_level_list(t, i, ParseState::Scan, remember(acc, d, None), k, v);
            },
            ParseState::List(d, depth, vals) => match t[i] {
                VcpToken::Open => lemma_top_level_list(t, i + 1, ParseState::List(d, depth + 1, vals), acc, k, v),
                VcpToken::Close => if depth <= 1 {
                    lemma_top_level_list(t, i + 1, ParseState::Scan, remember(acc, d, Some(vals)), k, v);
                } else {
                    lemma_top_level_list(t, i + 1, ParseState::List(d, depth - 1, vals), acc, k, v);
                },
                VcpToken::Hex(w) => if depth == 1 && w <= 0xFFFF && !vals.contains(w as u16) {
                    lemma_top_level_list(t, i + 1, ParseState::List(d, depth, vals.push(w as u16)), acc, k, v);
                } else {
                    lemma_top_level_list(t, i + 1, ParseState::List(d, depth, vals), acc, k, v);
                },
            },
        }
    }
}

} // verus!
