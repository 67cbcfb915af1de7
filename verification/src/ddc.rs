//! DDC/CI values, monitor identities, and the transport-independent parts of
//! reading and writing VCP features.
use vstd::prelude::*;
use crate::text::{
    decimal, hex2, lower_seq, push_decimal, push_hex2, str_eq, to_lower, contains_char,
    starts_with, to_owned_string, push_range,
};
use crate::capabilities::{advertised_input_sources, advertised_inputs};
use crate::ccd::ActiveTarget;

verus! {

pub const VCP_BRIGHTNESS: u8 = 0x10;

pub const VCP_CONTRAST: u8 = 0x12;

pub const VCP_INPUT_SOURCE: u8 = 0x60;

pub const VCP_POWER_MODE: u8 = 0xD6;

/// A monitor input, identified by its MCCS `0x60` value.
#[derive(Debug, Clone, Copy, PartialEq, Eq, Hash, Structural)]
pub enum InputSource {
    Vga1,
    Vga2,
    Dvi1,
    Dvi2,
    Dp1,
    Dp2,
    Hdmi1,
    Hdmi2,
    UsbC1,
    UsbC2,
    Custom(u16),
}

/// The MCCS value written for an input source.
pub open spec fn input_code(source: InputSource) -> u16 {
    match source {
        InputSource::Vga1 => 0x01,
        InputSource::Vga2 => 0x02,
        InputSource::Dvi1 => 0x03,
        InputSource::Dvi2 => 0x04,
        InputSource::Dp1 => 0x0F,
        InputSource::Dp2 => 0x10,
        InputSource::Hdmi1 => 0x11,
        InputSource::Hdmi2 => 0x12,
        InputSource::UsbC1 => 0x13,
        InputSource::UsbC2 => 0x14,
        InputSource::Custom(v) => v,
    }
}

/// The input source named by a raw MCCS value; unknown values stay `Custom`.
pub open spec fn input_from_code(value: u16) -> InputSource {
    if value == 0x01 {
        InputSource::Vga1
    } else if value == 0x02 {
        InputSource::Vga2
    } else if value == 0x03 {
        InputSource::Dvi1
    } else if value == 0x04 {
        InputSource::Dvi2
    } else if value == 0x0F {
        InputSource::Dp1
    } else if value == 0x10 {
        InputSource::Dp2
    } else if value == 0x11 {
        InputSource::Hdmi1
    } else if value == 0x12 {
        InputSource::Hdmi2
    } else if value == 0x13 {
        InputSource::UsbC1
    } else if value == 0x14 {
        InputSource::UsbC2
    } else {
        InputSource::Custom(value)
    }
}

/// The user-facing name of an input source.
pub open spec fn input_label(source: InputSource) -> Seq<char> {
    match source {
        InputSource::Vga1 => "VGA 1"@,
        InputSource::Vga2 => "VGA 2"@,
        InputSource::Dvi1 => "DVI 1"@,
        InputSource::Dvi2 => "DVI 2"@,
        InputSource::Dp1 => "DisplayPort 1"@,
        InputSource::Dp2 => "DisplayPort 2"@,
        InputSource::Hdmi1 => "HDMI 1"@,
        InputSource::Hdmi2 => "HDMI 2"@,
        InputSource::UsbC1 => "USB-C 1"@,
        InputSource::UsbC2 => "USB-C 2"@,
        InputSource::Custom(v) => "Custom (0x"@ + hex2(v as nat) + ")"@,
    }
}

impl InputSource {
    /// DDC/CI VCP value for this input source.
    pub fn vcp_value(self) -> (r: u16)
        ensures
            r == input_code(self),
    {
        match self {
            InputSource::Vga1 => 0x01,
            InputSource::Vga2 => 0x02,
            InputSource::Dvi1 => 0x03,
            InputSource::Dvi2 => 0x04,
            InputSource::Dp1 => 0x0F,
            InputSource::Dp2 => 0x10,
            InputSource::Hdmi1 => 0x11,
            InputSource::Hdmi2 => 0x12,
            InputSource::UsbC1 => 0x13,
            InputSource::UsbC2 => 0x14,
            InputSource::Custom(v) => v,
        }
    }

    /// Map a raw VCP value back to a known input source.
    pub fn from_vcp_value(value: u16) -> (r: InputSource)
        ensures
            r == input_from_code(value),
    {
        match value {
            0x01 => InputSource::Vga1,
            0x02 => InputSource::Vga2,
            0x03 => InputSource::Dvi1,
            0x04 => InputSource::Dvi2,
            0x0F => InputSource::Dp1,
            0x10 => InputSource::Dp2,
            0x11 => InputSource::Hdmi1,
            0x12 => InputSource::Hdmi2,
            0x13 => InputSource::UsbC1,
            0x14 => InputSource::UsbC2,
            other => InputSource::Custom(other),
        }
    }

    /// The user-facing name, such as `HDMI 1` or `Custom (0x42)`.
    pub fn label(self) -> (r: String)
        ensures
            r@ == input_label(self),
    {
        match self {
            InputSource::Vga1 => String::from_str("VGA 1"),
            InputSource::Vga2 => String::from_str("VGA 2"),
            InputSource::Dvi1 => String::from_str("DVI 1"),
            InputSource::Dvi2 => String::from_str("DVI 2"),
            InputSource::Dp1 => String::from_str("DisplayPort 1"),
            InputSource::Dp2 => String::from_str("DisplayPort 2"),
            InputSource::Hdmi1 => String::from_str("HDMI 1"),
            InputSource::Hdmi2 => String::from_str("HDMI 2"),
            InputSource::UsbC1 => String::from_str("USB-C 1"),
            InputSource::UsbC2 => String::from_str("USB-C 2"),
            InputSource::Custom(v) => {
                let mut s = String::from_str("Custom (0x");
                push_hex2(&mut s, v as u64);
                s.append(")");
                s
            },
        }
    }
}

/// Monitor power states written through VCP feature `0xD6`.
#[derive(Debug, Clone, Copy, PartialEq, Eq, Hash, Structural)]
pub enum PowerMode {
    On,
    Standby,
    Suspend,
    Off,
}

/// The MCCS value written for a power mode.
pub open spec fn power_code(mode: PowerMode) -> u16 {
    match mode {
        PowerMode::On => 0x01,
        PowerMode::Standby => 0x02,
        PowerMode::Suspend => 0x03,
        PowerMode::Off => 0x04,
    }
}

/// The user-facing name of a power mode.
pub open spec fn power_label(mode: PowerMode) -> Seq<char> {
    match mode {
        PowerMode::On => "On"@,
        PowerMode::Standby => "Standby"@,
        PowerMode::Suspend => "Suspend"@,
        PowerMode::Off => "Off"@,
    }
}

impl PowerMode {
    /// DDC/CI VCP value (feature 0xD6) for this power mode.
    pub fn vcp_value(self) -> (r: u16)
        ensures
            r == power_code(self),
    {
        match self {
            PowerMode::On => 0x01,
            PowerMode::Standby => 0x02,
            PowerMode::Suspend => 0x03,
            PowerMode::Off => 0x04,
        }
    }

    /// The user-facing name of this power mode.
    pub fn label(self) -> (r: String)
        ensures
            r@ == power_label(self),
    {
        match self {
            PowerMode::On => String::from_str("On"),
            PowerMode::Standby => String::from_str("Standby"),
            PowerMode::Suspend => String::from_str("Suspend"),
            PowerMode::Off => String::from_str("Off"),
        }
    }
}

/// Inputs offered when a monitor does not list discrete `0x60` values.
pub open spec fn standard_inputs() -> Seq<InputSource> {
    seq![
        InputSource::Hdmi1,
        InputSource::Hdmi2,
        InputSource::Dp1,
        InputSource::Dp2,
        InputSource::UsbC1,
        InputSource::UsbC2,
    ]
}

/// Inputs offered when a monitor does not list discrete `0x60` values.
pub fn standard_input_sources() -> (r: Vec<InputSource>)
    ensures
        r@ == standard_inputs(),
{
    let r = vec![
        InputSource::Hdmi1,
        InputSource::Hdmi2,
        InputSource::Dp1,
        InputSource::Dp2,
        InputSource::UsbC1,
        InputSource::UsbC2,
    ];
    assert(r@ =~= standard_inputs());
    r
}

/// Power modes offered when a monitor does not list discrete `0xD6` values.
pub open spec fn standard_modes() -> Seq<PowerMode> {
    seq![PowerMode::On, PowerMode::Standby, PowerMode::Suspend, PowerMode::Off]
}

/// Power modes offered when a monitor does not list discrete `0xD6` values.
pub fn standard_power_modes() -> (r: Vec<PowerMode>)
    ensures
        r@ == standard_modes(),
{
    let r = vec![PowerMode::On, PowerMode::Standby, PowerMode::Suspend, PowerMode::Off];
    assert(r@ =~= standard_modes());
    r
}

/// The position of a power mode among the standard modes.
pub fn power_mode_index(mode: PowerMode) -> (r: Option<usize>)
    ensures
        match r {
            Some(i) => i < standard_modes().len() && standard_modes()[i as int] == mode,
            None => !standard_modes().contains(mode),
        },
{
    let modes = standard_power_modes();
    let mut i: usize = 0;
    while i < modes.len()
        invariant
            modes@ == standard_modes(),
            i <= modes@.len(),
            forall|j: int| 0 <= j < i ==> modes@[j] != mode,
        decreases modes@.len() - i,
    {
        if modes[i] == mode {
            return Some(i);
        }
        i = i + 1;
    }
    None
}

// ---------------------------------------------------------------------------
// Monitor identity
// ---------------------------------------------------------------------------

/// Full Windows device-interface identity. It is instance/connection scoped,
/// not a guarantee of physical-unit identity after changing ports or drivers.
#[derive(Debug, Clone, PartialEq, Eq, Hash)]
pub struct MonitorKey(String);

impl View for MonitorKey {
    type V = Seq<char>;

    closed spec fn view(&self) -> Seq<char> {
        self.0@
    }
}

/// The versioned prefix of a device-path key.
pub open spec fn key_prefix() -> Seq<char> {
    "windows-device-path:v1:"@
}

/// The prefix of a Windows device-interface path.
pub open spec fn device_path_prefix() -> Seq<char> {
    "\\\\?\\"@
}

/// The key for a device path: only full `\\?\...` paths without NUL qualify,
/// compared without ASCII case differences.
pub open spec fn device_key(path: Seq<char>) -> Option<Seq<char>> {
    if path.len() >= 4 && path.subrange(0, 4) == device_path_prefix() && path.len() > 4
        && !path.contains('\0') {
        Some(key_prefix() + lower_seq(path))
    } else {
        None
    }
}

/// Whether a stored key is one this version can resolve to hardware.
pub open spec fn key_supported(key: Seq<char>) -> bool {
    &&& key.len() >= key_prefix().len()
    &&& key.subrange(0, key_prefix().len() as int) == key_prefix()
    &&& device_key(key.subrange(key_prefix().len() as int, key.len() as int)) == Some(key)
}

impl MonitorKey {
    /// Build the key for a Windows device path, or `None` when the path is not
    /// a usable device-interface path.
    pub fn from_device_path(path: &str) -> (r: Option<MonitorKey>)
        ensures
            match r {
                Some(k) => device_key(path@) == Some(k@),
                None => device_key(path@) is None,
            },
    {
        proof {
            reveal_strlit("\\\\?\\");
        }
        let prefix = "\\\\?\\";
        if !starts_with(path, prefix) || path.unicode_len() <= 4 || contains_char(path, '\0') {
            return None;
        }
        let mut value = String::from_str("windows-device-path:v1:");
        let lowered = to_lower(path);
        value.append(lowered.as_str());
        Some(MonitorKey(value))
    }

    /// A key exactly as it was stored (for keys read back from saved settings).
    pub fn from_stored(value: String) -> (r: MonitorKey)
        ensures
            r@ == value@,
    {
        MonitorKey(value)
    }

    /// The stored text of this key.
    pub fn as_str(&self) -> (r: &str)
        ensures
            r@ == self@,
    {
        self.0.as_str()
    }

    /// Whether this key names a device path that this version can resolve.
    pub fn is_supported(&self) -> (r: bool)
        ensures
            r == key_supported(self@),
    {
        proof {
            reveal_strlit("windows-device-path:v1:");
        }
        let prefix = "windows-device-path:v1:";
        let text = self.0.as_str();
        if !starts_with(text, prefix) {
            return false;
        }
        let n = text.unicode_len();
        let mut rest = String::new();
        push_range(&mut rest, text, 23, n);
        match MonitorKey::from_device_path(rest.as_str()) {
            Some(k) => str_eq(k.0.as_str(), text),
            None => false,
        }
    }

    /// A copy of this key.
    pub fn copy(&self) -> (r: MonitorKey)
        ensures
            r == *self,
    {
        MonitorKey(self.0.clone())
    }
}

/// Compare two keys by their text.
pub fn same_key(a: &MonitorKey, b: &MonitorKey) -> (r: bool)
    ensures
        r == (a@ == b@),
{
    str_eq(a.0.as_str(), b.0.as_str())
}

// ---------------------------------------------------------------------------
// Errors
// ---------------------------------------------------------------------------

/// Failures of monitor discovery and DDC/CI transport.
#[derive(Debug, Clone)]
pub enum DdcError {
    NoMonitorsFound,
    MonitorNotFound(MonitorKey),
    Ambiguous(String),
    DdcCommunication(String),
    DisplayInfoError(String),
}

/// The user-facing description of a DDC/CI error.
pub open spec fn ddc_error_text(e: DdcError) -> Seq<char> {
    match e {
        DdcError::NoMonitorsFound =>
            "No monitors with DDC/CI support found. Ensure your monitor supports DDC/CI and it is enabled."@,
        DdcError::MonitorNotFound(k) =>
            "Monitor "@ + k@ + " is disconnected or cannot be identified safely"@,
        DdcError::Ambiguous(s) => "Ambiguous monitor association: "@ + s@,
        DdcError::DdcCommunication(s) => "DDC/CI communication error: "@ + s@,
        DdcError::DisplayInfoError(s) => "Display info error: "@ + s@,
    }
}

impl DdcError {
    /// The user-facing description of this error.
    pub fn message(&self) -> (r: String)
        ensures
            r@ == ddc_error_text(*self),
    {
        match self {
            DdcError::NoMonitorsFound => String::from_str(
                "No monitors with DDC/CI support found. Ensure your monitor supports DDC/CI and it is enabled.",
            ),
            DdcError::MonitorNotFound(k) => {
                let mut s = String::from_str("Monitor ");
                s.append(k.0.as_str());
                s.append(" is disconnected or cannot be identified safely");
                s
            },
            DdcError::Ambiguous(t) => {
                let mut s = String::from_str("Ambiguous monitor association: ");
                s.append(t.as_str());
                s
            },
            DdcError::DdcCommunication(t) => {
                let mut s = String::from_str("DDC/CI communication error: ");
                s.append(t.as_str());
                s
            },
            DdcError::DisplayInfoError(t) => {
                let mut s = String::from_str("Display info error: ");
                s.append(t.as_str());
                s
            },
        }
    }
}

// ---------------------------------------------------------------------------
// Monitor information
// ---------------------------------------------------------------------------

/// A detected monitor: its display number, identity and desktop placement.
#[derive(Debug, Clone)]
pub struct MonitorInfo {
    /// 1-indexed monitor ID for user display.
    pub id: u32,
    pub key: MonitorKey,
    pub x: i32,
    pub y: i32,
    pub width: u32,
    pub height: u32,
    pub name: String,
    pub is_primary: bool,
}

impl MonitorInfo {
    /// A copy of this record.
    pub fn copy(&self) -> (r: MonitorInfo)
        ensures
            r == *self,
    {
        MonitorInfo {
            id: self.id,
            key: self.key.copy(),
            x: self.x,
            y: self.y,
            width: self.width,
            height: self.height,
            name: self.name.clone(),
            is_primary: self.is_primary,
        }
    }
}

/// Combined state for a monitor: its info plus current DDC values.
#[derive(Debug, Clone)]
pub struct MonitorState {
    pub info: MonitorInfo,
    pub brightness: u16,
    pub brightness_max: u16,
    pub brightness_read_error: Option<String>,
    pub contrast: u16,
    pub contrast_max: u16,
    pub contrast_read_error: Option<String>,
    pub input_source: InputSource,
    pub input_source_read_error: Option<String>,
    /// Input sources from the capabilities string, or `None` when no usable
    /// `0x60` value list was read.
    pub advertised_inputs: Option<Vec<InputSource>>,
}

// ---------------------------------------------------------------------------
// Readings
// ---------------------------------------------------------------------------

/// MCCS 2.2a: scalar VCP `0x60` carries the input in SL; SH is reserved.
pub open spec fn decoded_input(raw: u16) -> InputSource {
    input_from_code((raw % 256) as u16)
}

/// Decode a raw input-source reply using only its low byte.
pub fn decode_input_source(raw_value: u16) -> (r: InputSource)
    ensures
        r == decoded_input(raw_value),
{
    let low: u16 = raw_value & 0xFF;
    assert(raw_value & 0xFF == raw_value % 256) by (bit_vector);
    InputSource::from_vcp_value(low)
}

/// The message recorded for a reply whose value lies outside its range.
pub open spec fn invalid_range_text(value: u16, maximum: u16) -> Seq<char> {
    "Invalid monitor value/range: "@ + decimal(value as nat) + " / "@ + decimal(maximum as nat)
}

/// What a scalar reading stores: the value and range when valid, otherwise the
/// storage defaults `0 / 100` together with the reason.
pub open spec fn scalar_result(result: Result<(u16, u16), String>) -> (u16, u16, Option<Seq<char>>) {
    match result {
        Ok((value, maximum)) => if maximum > 0 && value <= maximum {
            (value, maximum, None)
        } else {
            (0, 100, Some(invalid_range_text(value, maximum)))
        },
        Err(e) => (0, 100, Some(e@)),
    }
}

/// The text of an optional message, for comparisons over views.
pub open spec fn opt_text(o: Option<String>) -> Option<Seq<char>> {
    match o {
        Some(s) => Some(s@),
        None => None,
    }
}

/// The message for an invalid value/range reply.
pub fn invalid_range_message(value: u16, maximum: u16) -> (r: String)
    ensures
        r@ == invalid_range_text(value, maximum),
{
    let mut s = String::from_str("Invalid monitor value/range: ");
    push_decimal(&mut s, value as u64);
    s.append(" / ");
    push_decimal(&mut s, maximum as u64);
    s
}

/// Turn one scalar read into the stored value, maximum and error.
pub fn scalar_reading(result: Result<(u16, u16), String>) -> (r: (u16, u16, Option<String>))
    ensures
        (r.0, r.1, opt_text(r.2)) == scalar_result(result),
{
    match result {
        Ok((value, maximum)) => {
            if maximum > 0 && value <= maximum {
                (value, maximum, None)
            } else {
                (0, 100, Some(invalid_range_message(value, maximum)))
            }
        },
        Err(error) => (0, 100, Some(error)),
    }
}

/// The state stored for a monitor from its four replies: brightness,
/// contrast, input source and (when it could be read) the capabilities text.
pub open spec fn state_matches_readings(
    s: MonitorState,
    info: MonitorInfo,
    brightness: Result<(u16, u16), String>,
    contrast: Result<(u16, u16), String>,
    input: Result<(u16, u16), String>,
    capabilities: Option<String>,
) -> bool {
    &&& s.info == info
    &&& (s.brightness, s.brightness_max, opt_text(s.brightness_read_error)) == scalar_result(
        brightness,
    )
    &&& (s.contrast, s.contrast_max, opt_text(s.contrast_read_error)) == scalar_result(contrast)
    &&& match input {
        Ok((raw, _)) => s.input_source == decoded_input(raw) && s.input_source_read_error is None,
        Err(e) => s.input_source == InputSource::Custom(0) && opt_text(s.input_source_read_error)
            == Some(e@),
    }
    &&& match capabilities {
        Some(raw) => opt_seq(s.advertised_inputs) == advertised_inputs(raw@),
        None => s.advertised_inputs is None,
    }
}

/// The contents of an optional list.
pub open spec fn opt_seq<T>(o: Option<Vec<T>>) -> Option<Seq<T>> {
    match o {
        Some(v) => Some(v@),
        None => None,
    }
}

/// Build the stored state from the four replies of one read.
pub fn state_from_readings(
    info: MonitorInfo,
    brightness: Result<(u16, u16), String>,
    contrast: Result<(u16, u16), String>,
    input: Result<(u16, u16), String>,
    capabilities: Option<String>,
) -> (r: MonitorState)
    ensures
        state_matches_readings(r, info, brightness, contrast, input, capabilities),
{
    let ghost (b0, c0, i0, k0) = (brightness, contrast, input, capabilities);
    let (brightness, brightness_max, brightness_read_error) = scalar_reading(brightness);
    let (contrast, contrast_max, contrast_read_error) = scalar_reading(contrast);
    let (input_source, input_source_read_error) = match input {
        Ok((raw_value, _)) => (decode_input_source(raw_value), None),
        Err(error) => (InputSource::Custom(0), Some(error)),
    };
    let advertised = match capabilities {
        Some(raw) => advertised_input_sources(raw.as_str()),
        None => None,
    };
    MonitorState {
        info,
        brightness,
        brightness_max,
        brightness_read_error,
        contrast,
        contrast_max,
        contrast_read_error,
        input_source,
        input_source_read_error,
        advertised_inputs: advertised,
    }
}

// ---------------------------------------------------------------------------
// Transport
// ---------------------------------------------------------------------------

/// Narrow VCP transport seam: a physical monitor handle, or a test double.
pub trait Vcp {
    /// Read a feature: `(current, maximum)`.
    fn read(&mut self, code: u8) -> Result<(u16, u16), DdcError>;

    /// Write a feature value.
    fn write(&mut self, code: u8, value: u16) -> Result<(), DdcError>;

    /// The raw MCCS capabilities string.
    fn capabilities(&mut self) -> Result<String, DdcError>;
}

/// One call made through a transport, with the transport's reply.
pub enum VcpCall {
    /// A read of a feature code.
    Read(u8, Result<(u16, u16), DdcError>),
    /// A write of a value to a feature code.
    Write(u8, u16, Result<(), DdcError>),
    /// A request for the capabilities text.
    Capabilities(Result<String, DdcError>),
}

/// A transport together with the record of every call made through it.
pub struct Traced<M> {
    transport: M,
    calls: Ghost<Seq<VcpCall>>,
}

impl<M: Vcp> Traced<M> {
    /// The calls made through this transport so far, oldest first.
    pub closed spec fn calls(&self) -> Seq<VcpCall> {
        self.calls@
    }

    /// The wrapped transport.
    pub closed spec fn transport_spec(&self) -> M {
        self.transport
    }

    /// Start recording the calls made through `transport`.
    pub fn new(transport: M) -> (r: Traced<M>)
        ensures
            r.calls() == Seq::<VcpCall>::empty(),
            r.transport_spec() == transport,
    {
        Traced { transport, calls: Ghost(Seq::empty()) }
    }

    /// The wrapped transport.
    pub fn transport(&self) -> (r: &M)
        ensures
            *r == self.transport_spec(),
    {
        &self.transport
    }

    /// The wrapped transport, no longer recorded.
    pub fn into_inner(self) -> (r: M)
        ensures
            r == self.transport_spec(),
    {
        self.transport
    }

    /// Read feature `code`.
    pub fn read(&mut self, code: u8) -> (r: Result<(u16, u16), DdcError>)
        ensures
            final(self).calls() == old(self).calls().push(VcpCall::Read(code, r)),
    {
        let r = self.transport.read(code);
        proof {
            self.calls@ = self.calls@.push(VcpCall::Read(code, r));
        }
        r
    }

    /// Write `value` to feature `code`.
    pub fn write(&mut self, code: u8, value: u16) -> (r: Result<(), DdcError>)
        ensures
            final(self).calls() == old(self).calls().push(VcpCall::Write(code, value, r)),
    {
        let r = self.transport.write(code, value);
        proof {
            self.calls@ = self.calls@.push(VcpCall::Write(code, value, r));
        }
        r
    }

    /// Ask for the capabilities text.
    pub fn capabilities(&mut self) -> (r: Result<String, DdcError>)
        ensures
            final(self).calls() == old(self).calls().push(VcpCall::Capabilities(r)),
    {
        let r = self.transport.capabilities();
        proof {
            self.calls@ = self.calls@.push(VcpCall::Capabilities(r));
        }
        r
    }
}

/// `reading` is what is kept of the reply `reply`: the pair, or the error's text.
pub open spec fn reading_of(reply: Result<(u16, u16), DdcError>, reading: Result<(u16, u16), String>) -> bool {
    match reply {
        Ok(v) => reading == Ok::<(u16, u16), String>(v),
        Err(e) => reading matches Err(m) && m@ == ddc_error_text(e),
    }
}

/// `caps` is what is kept of the capabilities reply: the text, or nothing.
pub open spec fn capabilities_of(reply: Result<String, DdcError>, caps: Option<String>) -> bool {
    match reply {
        Ok(raw) => caps == Some(raw),
        Err(_) => caps is None,
    }
}

/// `t` reads brightness, contrast and input source, in that order, and then
/// asks for the capabilities text; `s` is the state for `info` built from
/// the replies.
pub open spec fn state_read_by(s: MonitorState, info: MonitorInfo, t: Seq<VcpCall>) -> bool {
    &&& t.len() == 4
    &&& t[0] is Read && t[0]->Read_0 == VCP_BRIGHTNESS
    &&& t[1] is Read && t[1]->Read_0 == VCP_CONTRAST
    &&& t[2] is Read && t[2]->Read_0 == VCP_INPUT_SOURCE
    &&& t[3] is Capabilities
    &&& exists|
        b: Result<(u16, u16), String>,
        c: Result<(u16, u16), String>,
        i: Result<(u16, u16), String>,
        k: Option<String>,
    |
        #[trigger] state_matches_readings(s, info, b, c, i, k) && reading_of(t[0]->Read_1, b) && reading_of(
            t[1]->Read_1,
            c,
        ) && reading_of(t[2]->Read_1, i) && capabilities_of(t[3]->Capabilities_0, k)
}

/// Read brightness, contrast, input source and capabilities from one
/// transport, in that order, using the key captured during detection.
pub fn read_state<M: Vcp>(info: MonitorInfo, mon: &mut Traced<M>) -> (r: MonitorState)
    ensures
        final(mon).calls().len() == old(mon).calls().len() + 4,
        final(mon).calls().subrange(0, old(mon).calls().len() as int) == old(mon).calls(),
        state_read_by(
            r,
            info,
            final(mon).calls().subrange(old(mon).calls().len() as int, final(mon).calls().len() as int),
        ),
{
    let ghost start = mon.calls();
    let brightness = match mon.read(VCP_BRIGHTNESS) {
        Ok(v) => Ok(v),
        Err(e) => Err(e.message()),
    };
    let contrast = match mon.read(VCP_CONTRAST) {
        Ok(v) => Ok(v),
        Err(e) => Err(e.message()),
    };
    let input = match mon.read(VCP_INPUT_SOURCE) {
        Ok(v) => Ok(v),
        Err(e) => Err(e.message()),
    };
    let capabilities = match mon.capabilities() {
        Ok(raw) => Some(raw),
        Err(_) => None,
    };
    let ghost (b, c, i, k) = (brightness, contrast, input, capabilities);
    let r = state_from_readings(info, brightness, contrast, input, capabilities);
    proof {
        let t = mon.calls().subrange(start.len() as int, mon.calls().len() as int);
        assert(mon.calls().subrange(0, start.len() as int) =~= start);
        assert(reading_of(t[0]->Read_1, b));
        assert(reading_of(t[1]->Read_1, c));
        assert(reading_of(t[2]->Read_1, i));
        assert(capabilities_of(t[3]->Capabilities_0, k));
        assert(state_matches_readings(r, info, b, c, i, k));
    }
    r
}

/// A discovered monitor together with its transport handle.
pub struct Endpoint<M> {
    pub info: MonitorInfo,
    pub monitor: M,
}

/// The position of the unique endpoint with `key`, or why there is none.
pub open spec fn resolve_spec<M>(endpoints: Seq<Endpoint<M>>, key: MonitorKey) -> Result<
    int,
    DdcError,
> {
    if !key_supported(key@) {
        Err(DdcError::MonitorNotFound(key))
    } else if !(exists|i: int| 0 <= i < endpoints.len() && endpoints[i].info.key@ == key@) {
        Err(DdcError::MonitorNotFound(key))
    } else {
        let i = choose|i: int| 0 <= i < endpoints.len() && endpoints[i].info.key@ == key@;
        if exists|j: int| 0 <= j < endpoints.len() && j != i && endpoints[j].info.key@ == key@ {
            Err(DdcError::MonitorNotFound(key))
        } else {
            Ok(i)
        }
    }
}

/// Whether exactly one endpoint carries `key`, which must be supported.
pub open spec fn resolvable<M>(endpoints: Seq<Endpoint<M>>, key: MonitorKey) -> bool {
    resolve_spec(endpoints, key) is Ok
}

/// Find the single endpoint for `key`; never falls back to a display number.
pub fn resolve_endpoint<M>(endpoints: &Vec<Endpoint<M>>, key: &MonitorKey) -> (r: Result<
    usize,
    DdcError,
>)
    ensures
        match r {
            Ok(i) => resolve_spec(endpoints@, *key) == Ok::<int, DdcError>(i as int),
            Err(DdcError::MonitorNotFound(k)) => resolve_spec(endpoints@, *key) is Err && k
                == *key && (!key_supported(key@) || !(exists|i: int|
                0 <= i < endpoints@.len() && endpoints@[i].info.key@ == key@)),
            Err(DdcError::Ambiguous(t)) => resolve_spec(endpoints@, *key) is Err && t@ == key@
                && key_supported(key@) && (exists|i: int, j: int|
                0 <= i < endpoints@.len() && 0 <= j < endpoints@.len() && i != j
                    && endpoints@[i].info.key@ == key@ && endpoints@[j].info.key@ == key@),
            Err(_) => false,
        },
{
    if !key.is_supported() {
        return Err(DdcError::MonitorNotFound(key.copy()));
    }
    let mut found: Option<usize> = None;
    let mut i: usize = 0;
    while i < endpoints.len()
        invariant
            i <= endpoints@.len(),
            key_supported(key@),
            match found {
                Some(f) => f < i && endpoints@[f as int].info.key@ == key@ && forall|j: int|
                    0 <= j < i && j != f ==> endpoints@[j].info.key@ != key@,
                None => forall|j: int| 0 <= j < i ==> endpoints@[j].info.key@ != key@,
            },
        decreases endpoints.len() - i,
    {
        if same_key(&endpoints[i].info.key, key) {
            match found {
                Some(f) => {
                    let mut t = String::from_str("");
                    t.append(key.as_str());
                    proof {
                        assert(endpoints@[i as int].info.key@ == key@);
                        reveal_strlit("");
                        assert(t@ == key@);
                        let c = choose|c: int|
                            0 <= c < endpoints@.len() && endpoints@[c].info.key@ == key@;
                        if c == f as int {
                            assert(i as int != c);
                        } else {
                            assert(f as int != c);
                        }
                    }
                    return Err(DdcError::Ambiguous(t));
                },
                None => {
                    found = Some(i);
                },
            }
        }
        i = i + 1;
    }
    match found {
        Some(f) => Ok(f),
        None => Err(DdcError::MonitorNotFound(key.copy())),
    }
}

/// A key that does not resolve is refused as not found when it is
/// unsupported or no endpoint carries it (else as ambiguous).
pub open spec fn refused_as_missing<M>(endpoints: Seq<Endpoint<M>>, key: MonitorKey) -> bool {
    !key_supported(key@) || !(exists|i: int| 0 <= i < endpoints.len() && endpoints[i].info.key@ == key@)
}

/// `e` is the error with which `key` is refused among `endpoints`.
pub open spec fn refused<M>(endpoints: Seq<Endpoint<M>>, key: MonitorKey, e: DdcError) -> bool {
    match e {
        DdcError::MonitorNotFound(k) => k == key && refused_as_missing(endpoints, key),
        DdcError::Ambiguous(t) => t@ == key@ && !refused_as_missing(endpoints, key),
        _ => false,
    }
}

/// Only the endpoint at `index` may differ between `before` and `after`, and
/// no endpoint's record changes.
pub open spec fn touched_only<M>(before: Seq<Endpoint<M>>, after: Seq<Endpoint<M>>, index: int) -> bool {
    &&& after.len() == before.len()
    &&& forall|j: int| 0 <= j < before.len() && j != index ==> #[trigger] after[j] == before[j]
    &&& forall|j: int| 0 <= j < before.len() ==> #[trigger] after[j].info == before[j].info
}

/// The value an offset write sends, from a valid `(current, maximum)` reply:
/// `current + offset` clamped to `0..=maximum`; invalid ranges are refused.
pub open spec fn offset_target(current: u16, maximum: u16, offset: i32) -> Option<u16> {
    if maximum == 0 || current > maximum {
        None
    } else {
        let v = current + offset;
        Some(
            if v < 0 {
                0u16
            } else if v > maximum {
                maximum
            } else {
                v as u16
            },
        )
    }
}

/// Compute the value for an offset write, or the error for an invalid reply.
pub fn offset_value(current: u16, maximum: u16, offset: i32) -> (r: Result<u16, DdcError>)
    ensures
        match offset_target(current, maximum, offset) {
            Some(v) => r == Ok::<u16, DdcError>(v),
            None => r matches Err(DdcError::DdcCommunication(t)) && t@ == invalid_range_text(
                current,
                maximum,
            ),
        },
{
    if maximum == 0 || current > maximum {
        return Err(DdcError::DdcCommunication(invalid_range_message(current, maximum)));
    }
    let v: i64 = (current as i64) + (offset as i64);
    if v < 0 {
        Ok(0)
    } else if v > maximum as i64 {
        Ok(maximum)
    } else {
        Ok(v as u16)
    }
}

/// The calls `t` of offsetting feature `code` by `offset` on the monitor
/// with `key`, with the result `r`: a read; on a valid reply, the write of
/// the clamped value, whose reply decides `r`.
pub open spec fn offset_trace(
    key: MonitorKey,
    code: u8,
    offset: i32,
    t: Seq<(MonitorKey, VcpCall)>,
    r: Result<u16, DdcError>,
) -> bool {
    &&& t.len() >= 1
    &&& t[0].0 == key
    &&& t[0].1 is Read
    &&& t[0].1->Read_0 == code
    &&& match t[0].1->Read_1 {
        Err(e) => t.len() == 1 && r == Err::<u16, DdcError>(e),
        Ok(reading) => match offset_target(reading.0, reading.1, offset) {
            None => t.len() == 1 && (r matches Err(DdcError::DdcCommunication(m)) && m@ == invalid_range_text(
                reading.0,
                reading.1,
            )),
            Some(v) => t.len() == 2 && t[1].0 == key && t[1].1 is Write && t[1].1->Write_0 == code
                && t[1].1->Write_1 == v && match t[1].1->Write_2 {
                Ok(_) => r == Ok::<u16, DdcError>(v),
                Err(e) => r == Err::<u16, DdcError>(e),
            },
        },
    }
}

/// Require every key to resolve to exactly one endpoint.
pub fn validate_targets_in<M>(endpoints: &Vec<Endpoint<M>>, keys: &Vec<MonitorKey>) -> (r: Result<
    (),
    DdcError,
>)
    ensures
        r is Ok <==> forall|k: int| 0 <= k < keys@.len() ==> resolvable(endpoints@, keys@[k]),
{
    let mut i: usize = 0;
    while i < keys.len()
        invariant
            i <= keys@.len(),
            forall|k: int| 0 <= k < i ==> resolvable(endpoints@, keys@[k]),
        decreases keys.len() - i,
    {
        match resolve_endpoint(endpoints, &keys[i]) {
            Ok(_) => {},
            Err(e) => return Err(e),
        }
        i = i + 1;
    }
    Ok(())
}

/// Job-local ownership of the discovered endpoints: raw handles never cross a
/// task boundary.
pub struct Session<M> {
    endpoints: Vec<Endpoint<M>>,
    calls: Ghost<Seq<(MonitorKey, VcpCall)>>,
}

impl<M: Vcp> Session<M> {
    /// The endpoints of this session.
    pub closed spec fn endpoint_seq(&self) -> Seq<Endpoint<M>> {
        self.endpoints@
    }

    /// The transport calls made through this session, oldest first, each
    /// with the key of the monitor it went to.
    pub closed spec fn calls(&self) -> Seq<(MonitorKey, VcpCall)> {
        self.calls@
    }

    /// Open a session only when every required key resolves to exactly one endpoint.
    pub fn from_endpoints(endpoints: Vec<Endpoint<M>>, required: &Vec<MonitorKey>) -> (r: Result<
        Self,
        DdcError,
    >)
        ensures
            r is Ok <==> forall|k: int|
                0 <= k < required@.len() ==> resolvable(endpoints@, required@[k]),
            r matches Ok(s) ==> s.endpoint_seq() == endpoints@ && s.calls() == Seq::<(MonitorKey, VcpCall)>::empty(),
    {
        match validate_targets_in(&endpoints, required) {
            Ok(()) => Ok(Session { endpoints, calls: Ghost(Seq::empty()) }),
            Err(e) => Err(e),
        }
    }

    /// The endpoints of this session, in discovery order.
    pub fn endpoints(&self) -> (r: &Vec<Endpoint<M>>)
        ensures
            r@ == self.endpoint_seq(),
    {
        &self.endpoints
    }

    /// Write a feature on the monitor with `key`.
    pub fn set_vcp(&mut self, key: &MonitorKey, code: u8, value: u16) -> (r: Result<(), DdcError>)
        ensures
            !resolvable(old(self).endpoint_seq(), *key) ==> r is Err,
            !resolvable(old(self).endpoint_seq(), *key) ==> (r matches Err(e) && refused(
                old(self).endpoint_seq(),
                *key,
                e,
            )),
            !resolvable(old(self).endpoint_seq(), *key) ==> final(self).endpoint_seq() == old(
                self,
            ).endpoint_seq(),
            !resolvable(old(self).endpoint_seq(), *key) ==> final(self).calls() == old(self).calls(),
            resolvable(old(self).endpoint_seq(), *key) ==> touched_only(
                old(self).endpoint_seq(),
                final(self).endpoint_seq(),
                resolve_spec(old(self).endpoint_seq(), *key)->Ok_0,
            ),
            resolvable(old(self).endpoint_seq(), *key) ==> final(self).calls() == old(self).calls().push(
                (*key, VcpCall::Write(code, value, r)),
            ),
    {
        let index = match resolve_endpoint(&self.endpoints, key) {
            Ok(i) => i,
            Err(e) => return Err(e),
        };
        let r = self.endpoints[index].monitor.write(code, value);
        proof {
            self.calls@ = self.calls@.push((*key, VcpCall::Write(code, value, r)));
        }
        r
    }

    /// Offset a feature on the monitor with `key`; returns the written value.
    pub fn offset_vcp(&mut self, key: &MonitorKey, code: u8, offset: i32) -> (r: Result<
        u16,
        DdcError,
    >)
        ensures
            !resolvable(old(self).endpoint_seq(), *key) ==> r is Err,
            !resolvable(old(self).endpoint_seq(), *key) ==> (r matches Err(e) && refused(
                old(self).endpoint_seq(),
                *key,
                e,
            )),
            !resolvable(old(self).endpoint_seq(), *key) ==> final(self).endpoint_seq() == old(
                self,
            ).endpoint_seq(),
            !resolvable(old(self).endpoint_seq(), *key) ==> final(self).calls() == old(self).calls(),
            resolvable(old(self).endpoint_seq(), *key) ==> touched_only(
                old(self).endpoint_seq(),
                final(self).endpoint_seq(),
                resolve_spec(old(self).endpoint_seq(), *key)->Ok_0,
            ),
            resolvable(old(self).endpoint_seq(), *key) ==> {
                &&& old(self).calls().len() < final(self).calls().len()
                &&& final(self).calls().subrange(0, old(self).calls().len() as int) == old(self).calls()
                &&& offset_trace(
                    *key,
                    code,
                    offset,
                    final(self).calls().subrange(old(self).calls().len() as int, final(self).calls().len() as int),
                    r,
                )
            },
    {
        let ghost start = self.calls@;
        let index = match resolve_endpoint(&self.endpoints, key) {
            Ok(i) => i,
            Err(e) => return Err(e),
        };
        let read = self.endpoints[index].monitor.read(code);
        proof {
            self.calls@ = self.calls@.push((*key, VcpCall::Read(code, read)));
        }
        let (current, maximum) = match read {
            Ok(reading) => reading,
            Err(e) => {
                proof {
                    assert(self.calls@.subrange(0, start.len() as int) =~= start);
                    assert(self.calls@.subrange(start.len() as int, self.calls@.len() as int) =~= seq![(*key, VcpCall::Read(code, read))]);
                }
                return Err(e);
            },
        };
        let value = match offset_value(current, maximum, offset) {
            Ok(v) => v,
            Err(e) => {
                proof {
                    assert(self.calls@.subrange(0, start.len() as int) =~= start);
                    assert(self.calls@.subrange(start.len() as int, self.calls@.len() as int) =~= seq![(*key, VcpCall::Read(code, read))]);
                }
                return Err(e);
            },
        };
        let written = self.endpoints[index].monitor.write(code, value);
        proof {
            self.calls@ = self.calls@.push((*key, VcpCall::Write(code, value, written)));
            assert(self.calls@.subrange(0, start.len() as int) =~= start);
            assert(self.calls@.subrange(start.len() as int, self.calls@.len() as int) =~= seq![
                (*key, VcpCall::Read(code, read)),
                (*key, VcpCall::Write(code, value, written)),
            ]);
        }
        match written {
            Ok(()) => Ok(value),
            Err(e) => Err(e),
        }
    }
}

// ---------------------------------------------------------------------------
// Associating physical monitors with display targets
// ---------------------------------------------------------------------------

/// How many of the first `n` targets are driven by the GDI source `source`
/// (compared without ASCII case).
pub open spec fn count_source(targets: Seq<ActiveTarget>, source: Seq<char>, n: int) -> nat
    decreases n,
{
    if n <= 0 || n > targets.len() {
        0
    } else {
        count_source(targets, source, n - 1) + if lower_seq(targets[n - 1].gdi_name@) == lower_seq(source) {
            1nat
        } else {
            0nat
        }
    }
}

/// How many of the first `n` targets have a device path that keys to `key`.
pub open spec fn count_key(targets: Seq<ActiveTarget>, key: Seq<char>, n: int) -> nat
    decreases n,
{
    if n <= 0 || n > targets.len() {
        0
    } else {
        count_key(targets, key, n - 1) + if device_key(targets[n - 1].device_path@) == Some(key) {
            1nat
        } else {
            0nat
        }
    }
}

/// The text of a refused physical/target join.
pub open spec fn join_text(source: Seq<char>, physical_count: nat, matches: nat) -> Seq<char> {
    source + ": "@ + decimal(physical_count) + " physical handles, "@ + decimal(matches) + " CCD targets"@
}

/// A target driven by the GDI source `source`.
pub open spec fn source_target(targets: Seq<ActiveTarget>, source: Seq<char>) -> int {
    choose|i: int| 0 <= i < targets.len() && lower_seq(targets[i].gdi_name@) == lower_seq(source)
}

/// The outcome of associating a GDI source with its display target: the
/// position of the single target, or why the join is refused.
pub open spec fn association(source: Seq<char>, physical_count: nat, targets: Seq<ActiveTarget>) -> Result<
    int,
    DdcError,
> {
    let n = count_source(targets, source, targets.len() as int);
    if physical_count != 1 || n != 1 {
        Err(DdcError::Ambiguous(arbitrary()))
    } else {
        let i = source_target(targets, source);
        match device_key(targets[i].device_path@) {
            None => Err(DdcError::DisplayInfoError(arbitrary())),
            Some(key) => if count_key(targets, key, targets.len() as int) != 1 {
                Err(DdcError::Ambiguous(arbitrary()))
            } else {
                Ok(i)
            },
        }
    }
}

proof fn lemma_count_source_zero(targets: Seq<ActiveTarget>, source: Seq<char>, n: int)
    requires
        0 <= n <= targets.len(),
        count_source(targets, source, n) == 0,
    ensures
        forall|j: int| 0 <= j < n ==> lower_seq(#[trigger] targets[j].gdi_name@) != lower_seq(source),
    decreases n,
{
    if n > 0 {
        lemma_count_source_zero(targets, source, n - 1);
    }
}

proof fn lemma_count_source_one(targets: Seq<ActiveTarget>, source: Seq<char>, n: int, f: int)
    requires
        0 <= f < n <= targets.len(),
        count_source(targets, source, n) == 1,
        lower_seq(targets[f].gdi_name@) == lower_seq(source),
    ensures
        forall|j: int| 0 <= j < n && j != f ==> lower_seq(#[trigger] targets[j].gdi_name@) != lower_seq(source),
    decreases n,
{
    if n - 1 == f {
        lemma_count_source_zero(targets, source, n - 1);
    } else {
        if lower_seq(targets[n - 1].gdi_name@) == lower_seq(source) {
            assert(count_source(targets, source, n - 1) == 0);
            lemma_count_source_zero(targets, source, n - 1);
            assert(lower_seq(targets[f].gdi_name@) != lower_seq(source));
        } else {
            lemma_count_source_one(targets, source, n - 1, f);
        }
    }
}

fn same_ignoring_case(a: &str, b: &str) -> (r: bool)
    ensures
        r == (lower_seq(a@) == lower_seq(b@)),
{
    let la = to_lower(a);
    let lb = to_lower(b);
    str_eq(la.as_str(), lb.as_str())
}

/// Join the GDI source `source`, which has `physical_count` physical
/// handles, with the one display target it drives. Refused unless there is
/// exactly one handle, exactly one target for the source, and that target's
/// device path is a usable key that no other target shares.
pub fn associate<'a>(source: &str, physical_count: usize, targets: &'a Vec<ActiveTarget>) -> (r: Result<
    &'a ActiveTarget,
    DdcError,
>)
    ensures
        match (r, association(source@, physical_count as nat, targets@)) {
            (Ok(t), Ok(i)) => *t == targets@[i],
            (Err(DdcError::Ambiguous(text)), Err(DdcError::Ambiguous(_))) => (physical_count != 1 || count_source(
                targets@,
                source@,
                targets@.len() as int,
            ) != 1 ==> text@ == join_text(
                source@,
                physical_count as nat,
                count_source(targets@, source@, targets@.len() as int),
            )) && (physical_count == 1 && count_source(targets@, source@, targets@.len() as int) == 1
                ==> device_key(targets@[source_target(targets@, source@)].device_path@) == Some(text@)),
            (Err(DdcError::DisplayInfoError(text)), Err(DdcError::DisplayInfoError(_))) => text@
                == "No usable device path for "@ + source@,
            _ => false,
        },
{
    let mut n: usize = 0;
    let mut found: usize = 0;
    let mut i: usize = 0;
    while i < targets.len()
        invariant
            i <= targets@.len(),
            n == count_source(targets@, source@, i as int),
            n <= i,
            n > 0 ==> found < i && lower_seq(targets@[found as int].gdi_name@) == lower_seq(source@),
        decreases targets@.len() - i,
    {
        if same_ignoring_case(targets[i].gdi_name.as_str(), source) {
            n = n + 1;
            found = i;
        }
        i = i + 1;
    }
    if physical_count != 1 || n != 1 {
        let mut text = to_owned_string(source);
        text.append(": ");
        push_decimal(&mut text, physical_count as u64);
        text.append(" physical handles, ");
        push_decimal(&mut text, n as u64);
        text.append(" CCD targets");
        return Err(DdcError::Ambiguous(text));
    }
    proof {
        lemma_count_source_one(targets@, source@, targets@.len() as int, found as int);
        let c = source_target(targets@, source@);
        assert(c == found);
    }
    let target = &targets[found];
    let key = match MonitorKey::from_device_path(target.device_path.as_str()) {
        Some(k) => k,
        None => {
            let mut text = String::from_str("No usable device path for ");
            text.append(source);
            return Err(DdcError::DisplayInfoError(text));
        },
    };
    let mut same: usize = 0;
    let mut j: usize = 0;
    while j < targets.len()
        invariant
            j <= targets@.len(),
            same == count_key(targets@, key@, j as int),
            same <= j,
        decreases targets@.len() - j,
    {
        match MonitorKey::from_device_path(targets[j].device_path.as_str()) {
            Some(other) => {
                if same_key(&other, &key) {
                    same = same + 1;
                }
            },
            None => {},
        }
        j = j + 1;
    }
    if same != 1 {
        return Err(DdcError::Ambiguous(key.0));
    }
    Ok(target)
}

/// The monitors a discovery found, in discovery order.
pub fn detect_monitors<M>(discovered: Result<Vec<Endpoint<M>>, DdcError>) -> (r: Result<Vec<MonitorInfo>, DdcError>)
    ensures
        match (discovered, r) {
            (Ok(eps), Ok(infos)) => infos@.len() == eps@.len() && forall|i: int|
                0 <= i < eps@.len() ==> #[trigger] infos@[i] == eps@[i].info,
            (Err(e), Err(f)) => f == e,
            _ => false,
        },
{
    match discovered {
        Err(e) => Err(e),
        Ok(eps) => {
            let mut infos: Vec<MonitorInfo> = Vec::new();
            let mut i: usize = 0;
            while i < eps.len()
                invariant
                    i <= eps@.len(),
                    infos@.len() == i,
                    forall|q: int| 0 <= q < i ==> #[trigger] infos@[q] == eps@[q].info,
                decreases eps@.len() - i,
            {
                infos.push(eps[i].info.copy());
                i = i + 1;
            }
            Ok(infos)
        },
    }
}

/// Read one monitor's state through the single endpoint its key resolves to
/// in a fresh discovery; never through another monitor's handle.
pub fn read_monitor_state<M: Vcp>(info: MonitorInfo, discovered: Result<Vec<Endpoint<M>>, DdcError>) -> (r: Result<
    MonitorState,
    DdcError,
>)
    ensures
        match discovered {
            Err(e) => r == Err::<MonitorState, DdcError>(e),
            Ok(eps) => match resolve_spec(eps@, info.key) {
                Err(_) => r is Err,
                Ok(_) => r matches Ok(state) && exists|t: Seq<VcpCall>| #[trigger] state_read_by(state, info, t),
            },
        },
{
    match discovered {
        Err(e) => Err(e),
        Ok(eps) => {
            let mut eps = eps;
            match resolve_endpoint(&eps, &info.key) {
                Err(e) => Err(e),
                Ok(i) => {
                    let mut endpoint = eps.remove(i);
                    let mut traced = Traced::new(endpoint.monitor);
                    let state = read_state(info, &mut traced);
                    proof {
                        let t = traced.calls().subrange(0, traced.calls().len() as int);
                        assert(state_read_by(state, info, t));
                    }
                    Ok(state)
                },
            }
        },
    }
}

} // verus!
