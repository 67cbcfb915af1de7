//! CCD (Connecting and Configuring Displays) layout records, and the decisions
//! around querying, validating and applying them.
//!
//! Adapter LUIDs and endpoint IDs are not persistent monitor identities. Saved
//! configurations are conservatively remapped by monitor device path before
//! Windows validates and applies them (see [`crate::remap`]).
use vstd::prelude::*;
use crate::text::{decimal, push_decimal, signed_decimal, push_signed};

verus! {

/// Win32 `ERROR_INSUFFICIENT_BUFFER`.
pub const ERROR_INSUFFICIENT_BUFFER: u32 = 122;

/// How many times a display query is attempted while buffers keep growing.
pub const QUERY_MAX_ATTEMPTS: usize = 3;

/// Failures of capturing, validating and applying display layouts.
#[derive(Debug, Clone, PartialEq, Eq)]
pub enum CcdError {
    BufferSizes(u32),
    Query(u32),
    QueryRetryExhausted { attempts: usize },
    Apply(i32),
    Empty,
    InvalidConfig(String),
    Remap(String),
    Validate(i32),
}

/// The user-facing description of a CCD error.
pub open spec fn ccd_error_text(e: CcdError) -> Seq<char> {
    match e {
        CcdError::BufferSizes(c) => "Failed to query display buffer sizes (Win32 error "@ + decimal(
            c as nat,
        ) + ")"@,
        CcdError::Query(c) => "Failed to query display configuration (Win32 error "@ + decimal(
            c as nat,
        ) + ")"@,
        CcdError::QueryRetryExhausted { attempts } =>
            "Display configuration query still reported insufficient buffers after "@ + decimal(
            attempts as nat,
        ) + " attempts"@,
        CcdError::Apply(c) => "Failed to apply display configuration (Win32 error "@
            + signed_decimal(c as int) + ")"@,
        CcdError::Empty => "Profile contains no display paths"@,
        CcdError::InvalidConfig(s) => "Invalid display profile: "@ + s@
            + ". Arrange the displays in Windows and recapture the profile"@,
        CcdError::Remap(s) => "Cannot safely restore display profile: "@ + s@,
        CcdError::Validate(c) => "Windows rejected the restored layout (Win32 error "@
            + signed_decimal(c as int)
            + "); check connected displays and supported modes, then recapture the profile if necessary"@,
    }
}

impl CcdError {
    /// The user-facing description of this error.
    pub fn message(&self) -> (r: String)
        ensures
            r@ == ccd_error_text(*self),
    {
        match self {
            CcdError::BufferSizes(c) => {
                let mut s = String::from_str("Failed to query display buffer sizes (Win32 error ");
                push_decimal(&mut s, *c as u64);
                s.append(")");
                s
            },
            CcdError::Query(c) => {
                let mut s = String::from_str("Failed to query display configuration (Win32 error ");
                push_decimal(&mut s, *c as u64);
                s.append(")");
                s
            },
            CcdError::QueryRetryExhausted { attempts } => {
                let mut s = String::from_str(
                    "Display configuration query still reported insufficient buffers after ",
                );
                push_decimal(&mut s, *attempts as u64);
                s.append(" attempts");
                s
            },
            CcdError::Apply(c) => {
                let mut s = String::from_str("Failed to apply display configuration (Win32 error ");
                push_signed(&mut s, *c as i64);
                s.append(")");
                s
            },
            CcdError::Empty => String::from_str("Profile contains no display paths"),
            CcdError::InvalidConfig(t) => {
                let mut s = String::from_str("Invalid display profile: ");
                s.append(t.as_str());
                s.append(". Arrange the displays in Windows and recapture the profile");
                s
            },
            CcdError::Remap(t) => {
                let mut s = String::from_str("Cannot safely restore display profile: ");
                s.append(t.as_str());
                s
            },
            CcdError::Validate(c) => {
                let mut s = String::from_str("Windows rejected the restored layout (Win32 error ");
                push_signed(&mut s, *c as i64);
                s.append(
                    "); check connected displays and supported modes, then recapture the profile if necessary",
                );
                s
            },
        }
    }
}

/// A graphics adapter identifier, both halves significant.
#[derive(Debug, Clone, Copy, PartialEq, Eq, Hash, Structural)]
pub struct Luid {
    pub low: u32,
    pub high: i32,
}

/// A refresh rate as a fraction.
#[derive(Debug, Clone, Copy, PartialEq, Eq, Structural)]
pub struct Rational {
    pub num: u32,
    pub den: u32,
}

/// The source side of a display path.
#[derive(Debug, Clone, Copy, PartialEq, Eq, Structural)]
pub struct PathSourceInfo {
    pub adapter_id: Luid,
    pub id: u32,
    pub mode_info_idx: u32,
    pub status_flags: u32,
}

/// The target side of a display path.
#[derive(Debug, Clone, Copy, PartialEq, Eq, Structural)]
pub struct PathTargetInfo {
    pub adapter_id: Luid,
    pub id: u32,
    pub mode_info_idx: u32,
    pub output_technology: i32,
    pub rotation: i32,
    pub scaling: i32,
    pub refresh_rate: Rational,
    pub scan_line_ordering: i32,
    /// Win32 `BOOL` (`i32`).
    pub target_available: i32,
    pub status_flags: u32,
}

/// One source-to-target route.
#[derive(Debug, Clone, Copy, PartialEq, Eq, Structural)]
pub struct PathInfo {
    pub source: PathSourceInfo,
    pub target: PathTargetInfo,
    pub flags: u32,
}

/// A source or target mode; the union payload is kept as opaque bytes.
#[derive(Debug, Clone, PartialEq, Eq)]
pub struct ModeInfo {
    /// 1 = source, 2 = target, 3 = desktop image.
    pub info_type: i32,
    pub id: u32,
    pub adapter_id: Luid,
    /// Raw bytes of the mode union, preserved verbatim.
    pub payload: Vec<u8>,
}

impl ModeInfo {
    /// A copy of this mode.
    pub fn copy(&self) -> (r: ModeInfo)
        ensures
            r.info_type == self.info_type,
            r.id == self.id,
            r.adapter_id == self.adapter_id,
            r.payload@ == self.payload@,
    {
        let mut payload: Vec<u8> = Vec::new();
        let mut i: usize = 0;
        while i < self.payload.len()
            invariant
                i <= self.payload@.len(),
                payload@ == self.payload@.subrange(0, i as int),
            decreases self.payload.len() - i,
        {
            payload.push(self.payload[i]);
            proof {
                assert(self.payload@.subrange(0, i + 1) == self.payload@.subrange(
                    0,
                    i as int,
                ).push(self.payload@[i as int]));
            }
            i = i + 1;
        }
        proof {
            assert(self.payload@.subrange(0, self.payload@.len() as int) == self.payload@);
        }
        ModeInfo { info_type: self.info_type, id: self.id, adapter_id: self.adapter_id, payload }
    }
}

/// Identity and EDID details of a target.
#[derive(Debug, Clone, Default, PartialEq, Eq)]
pub struct MonitorInfo {
    pub valid: bool,
    pub manufacture_id: u16,
    pub product_code_id: u16,
    pub friendly_name: String,
    pub device_path: String,
}

impl MonitorInfo {
    /// A copy of this record.
    pub fn copy(&self) -> (r: MonitorInfo)
        ensures
            r == *self,
    {
        MonitorInfo {
            valid: self.valid,
            manufacture_id: self.manufacture_id,
            product_code_id: self.product_code_id,
            friendly_name: self.friendly_name.clone(),
            device_path: self.device_path.clone(),
        }
    }

    /// The record used where a slot has no monitor (an invalid, empty entry).
    pub fn empty() -> (r: MonitorInfo)
        ensures
            !r.valid,
            r.device_path@.len() == 0,
            r.friendly_name@.len() == 0,
    {
        MonitorInfo {
            valid: false,
            manufacture_id: 0,
            product_code_id: 0,
            friendly_name: String::new(),
            device_path: String::new(),
        }
    }
}

/// A full capture of the desktop display topology.
#[derive(Debug, Clone)]
pub struct DisplayConfig {
    pub paths: Vec<PathInfo>,
    pub modes: Vec<ModeInfo>,
    /// Parallel-indexed to `modes`.
    pub monitors: Vec<MonitorInfo>,
    /// Target identities parallel-indexed to `paths`, even without target modes.
    pub path_monitors: Vec<MonitorInfo>,
}

/// An active CCD endpoint, not an enumeration position or a persistent LUID.
#[derive(Debug, Clone, PartialEq, Eq)]
pub struct ActiveTarget {
    pub source_adapter: Luid,
    pub source_id: u32,
    pub target_adapter: Luid,
    pub target_id: u32,
    pub gdi_name: String,
    pub device_path: String,
    pub friendly_name: String,
}

/// What one display query hands back: its status, the buffers it was given
/// (now filled), and the counts it wrote.
pub struct QueryReply<P, M> {
    pub status: u32,
    pub num_paths: u32,
    pub paths: Vec<P>,
    pub num_modes: u32,
    pub modes: Vec<M>,
}

/// `s` cut to its first `n` items, or `s` itself where it is no longer than that.
pub open spec fn truncated<T>(s: Seq<T>, n: u32) -> Seq<T> {
    if (n as int) < s.len() {
        s.take(n as int)
    } else {
        s
    }
}

/// Queries a display configuration, retrying while the topology grows.
///
/// Each attempt sizes the buffers afresh with `get_sizes` (status, path count,
/// mode count), hands `query_config` new buffers of exactly those lengths, and
/// keeps what it filled, cut to the counts it wrote back. A sizing error stops
/// at once; an insufficient-buffer reply discards counts and buffers and starts
/// over, at most `QUERY_MAX_ATTEMPTS` times; any other error stops.
#[verifier::loop_isolation(false)]
pub fn query_with_retry<P: Clone, M: Clone, S, Q>(
    blank_path: P,
    blank_mode: M,
    mut get_sizes: S,
    mut query_config: Q,
) -> (r: Result<(Vec<P>, Vec<M>), CcdError>) where
    S: FnMut() -> (u32, u32, u32),
    Q: FnMut(Vec<P>, Vec<M>) -> QueryReply<P, M>,

    requires
        call_requires(get_sizes, ()),
        forall|paths: Vec<P>, modes: Vec<M>| call_requires(query_config, (paths, modes)),
    ensures
        r matches Ok((paths, modes)) ==> exists|
            sizes: (u32, u32, u32),
            buffers: (Vec<P>, Vec<M>),
            reply: QueryReply<P, M>,
        |
            #![trigger call_ensures(get_sizes, (), sizes), call_ensures(query_config, buffers, reply)]
            {
                &&& call_ensures(get_sizes, (), sizes)
                &&& sizes.0 == 0
                &&& buffers.0.len() == sizes.1
                &&& buffers.1.len() == sizes.2
                &&& call_ensures(query_config, buffers, reply)
                &&& reply.status == 0
                &&& paths@ == truncated(reply.paths@, reply.num_paths)
                &&& modes@ == truncated(reply.modes@, reply.num_modes)
            },
        r matches Err(CcdError::BufferSizes(code)) ==> code != 0 && exists|sizes: (u32, u32, u32)|
            #[trigger] call_ensures(get_sizes, (), sizes) && sizes.0 == code,
        r matches Err(CcdError::Query(code)) ==> code != 0 && code != ERROR_INSUFFICIENT_BUFFER
            && exists|buffers: (Vec<P>, Vec<M>), reply: QueryReply<P, M>|
            #[trigger] call_ensures(query_config, buffers, reply) && reply.status == code,
        r matches Err(CcdError::QueryRetryExhausted { attempts }) ==> attempts
            == QUERY_MAX_ATTEMPTS && exists|buffers: (Vec<P>, Vec<M>), reply: QueryReply<P, M>|
            #[trigger] call_ensures(query_config, buffers, reply) && reply.status
                == ERROR_INSUFFICIENT_BUFFER,
        r is Ok || r matches Err(CcdError::BufferSizes(_)) || r matches Err(CcdError::Query(_))
            || r matches Err(CcdError::QueryRetryExhausted { .. }),
{
    let ghost sizes_fn = get_sizes;
    let ghost query_fn = query_config;
    let mut attempt: usize = 0;
    while attempt < QUERY_MAX_ATTEMPTS
        invariant
            get_sizes == sizes_fn,
            query_config == query_fn,
            attempt <= QUERY_MAX_ATTEMPTS,
            attempt > 0 ==> exists|buffers: (Vec<P>, Vec<M>), reply: QueryReply<P, M>|
                #[trigger] call_ensures(query_config, buffers, reply) && reply.status
                    == ERROR_INSUFFICIENT_BUFFER,
        decreases QUERY_MAX_ATTEMPTS - attempt,
    {
        let sizes = get_sizes();
        assert(call_ensures(get_sizes, (), sizes));
        let (status, num_paths, num_modes) = sizes;
        if status != 0 {
            return Err(CcdError::BufferSizes(status));
        }
        let paths: Vec<P> = vec![blank_path.clone(); num_paths as usize];
        let modes: Vec<M> = vec![blank_mode.clone(); num_modes as usize];
        let ghost buffers = (paths, modes);
        let reply = query_config(paths, modes);
        assert(call_ensures(query_config, buffers, reply));
        if reply.status == ERROR_INSUFFICIENT_BUFFER {
            // Topology can grow between calls; discard all counts and buffers.
            attempt = attempt + 1;
            continue;
        }
        if reply.status != 0 {
            return Err(CcdError::Query(reply.status));
        }
        let QueryReply { status: _, num_paths: kept_paths, paths: mut filled_paths, num_modes: kept_modes, modes: mut filled_modes } = reply;
        filled_paths.truncate(kept_paths as usize);
        filled_modes.truncate(kept_modes as usize);
        return Ok((filled_paths, filled_modes));
    }
    Err(CcdError::QueryRetryExhausted { attempts: QUERY_MAX_ATTEMPTS })
}

/// Position of the first NUL in a fixed wide buffer, or its length.
pub open spec fn nul_end(wide: Seq<u16>) -> int
    decreases wide.len(),
{
    if wide.len() == 0 {
        0
    } else if nul_end(wide.drop_last()) < wide.len() - 1 {
        nul_end(wide.drop_last())
    } else if wide.last() == 0 {
        wide.len() - 1
    } else {
        wide.len() as int
    }
}

/// The text UTF-16 units decode to, as `String::from_utf16_lossy` documents
/// it: a unit outside the surrogate range is its own character, a high
/// surrogate followed by a low one is the character they encode together,
/// and any other surrogate becomes U+FFFD.
pub open spec fn utf16_lossy_text(units: Seq<u16>) -> Seq<char>
    decreases units.len(),
{
    if units.len() == 0 {
        Seq::empty()
    } else if units[0] < 0xD800 || units[0] > 0xDFFF {
        seq![units[0] as char] + utf16_lossy_text(units.drop_first())
    } else if units[0] <= 0xDBFF && units.len() >= 2 && 0xDC00 <= units[1] <= 0xDFFF {
        seq![(0x10000 + (units[0] - 0xD800) * 0x400 + (units[1] - 0xDC00)) as char] + utf16_lossy_text(
            units.subrange(2, units.len() as int),
        )
    } else {
        seq!['\u{FFFD}'] + utf16_lossy_text(units.drop_first())
    }
}

/// Decode UTF-16, replacing invalid sequences (`String::from_utf16_lossy`).
#[verifier::external_body]
fn utf16_lossy(units: &[u16]) -> (r: String)
    ensures
        r@ == utf16_lossy_text(units@),
{
    String::from_utf16_lossy(units)
}

/// Convert a NUL-terminated wide string (fixed array) to a `String`.
pub fn wide_to_string(wide: &[u16]) -> (r: String)
    ensures
        r@ == utf16_lossy_text(wide@.subrange(0, nul_end(wide@))),
{
    let mut end: usize = 0;
    let mut units: Vec<u16> = Vec::new();
    while end < wide.len() && wide[end] != 0
        invariant
            end <= wide@.len(),
            units@ == wide@.subrange(0, end as int),
            forall|k: int| 0 <= k < end ==> wide@[k] != 0,
        decreases wide.len() - end,
    {
        units.push(wide[end]);
        proof {
            assert(wide@.subrange(0, end + 1) == wide@.subrange(0, end as int).push(
                wide@[end as int],
            ));
        }
        end = end + 1;
    }
    proof {
        lemma_nul_end(wide@, end as int);
    }
    utf16_lossy(units.as_slice())
}

proof fn lemma_nul_end(w: Seq<u16>, end: int)
    requires
        0 <= end <= w.len(),
        forall|k: int| 0 <= k < end ==> w[k] != 0,
        end == w.len() || w[end] == 0,
    ensures
        nul_end(w) == end,
    decreases w.len(),
{
    if w.len() > 0 {
        let d = w.drop_last();
        if end < w.len() {
            if end < d.len() {
                lemma_nul_end(d, end);
            } else {
                lemma_nul_end(d, d.len() as int);
            }
        } else {
            lemma_nul_end(d, d.len() as int);
        }
    }
}

} // verus!
