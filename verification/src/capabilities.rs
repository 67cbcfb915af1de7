//! Parsing of the `vcp(...)` section of MCCS capabilities strings, and the
//! dropdown choices derived from advertised values.
use vstd::prelude::*;
use crate::text::ascii_lower;
use crate::ddc::{
    InputSource, PowerMode, input_from_code, standard_inputs, standard_modes,
    standard_input_sources, standard_power_modes, opt_seq,
};

verus! {

/// One lexical element of a `vcp(...)` section.
#[derive(Debug, Clone, Copy, PartialEq, Eq, Structural)]
pub enum VcpToken {
    Hex(u32),
    Open,
    Close,
}

/// ASCII hexadecimal digit, as `char::is_ascii_hexdigit`.
pub open spec fn is_hex(c: char) -> bool {
    ('0' <= c && c <= '9') || ('a' <= c && c <= 'f') || ('A' <= c && c <= 'F')
}

/// Value of a hexadecimal digit.
pub open spec fn hex_val(c: char) -> nat {
    if '0' <= c && c <= '9' {
        ((c as u32) - ('0' as u32)) as nat
    } else if 'a' <= c && c <= 'f' {
        ((c as u32) - ('a' as u32) + 10) as nat
    } else {
        ((c as u32) - ('A' as u32) + 10) as nat
    }
}

/// Saturating accumulation of one more hex digit into a `u32`.
pub open spec fn hex_step(current: Option<u32>, c: char) -> u32 {
    let v: nat = match current {
        Some(x) => (16 * x + hex_val(c)) as nat,
        None => hex_val(c),
    };
    if v > u32::MAX {
        u32::MAX
    } else {
        v as u32
    }
}

/// A pending number, as a token list.
pub open spec fn flush(current: Option<u32>) -> Seq<VcpToken> {
    match current {
        Some(v) => seq![VcpToken::Hex(v)],
        None => Seq::empty(),
    }
}

/// Tokens of `s` from position `i`, where `current` is a number being read.
/// Runs of hex digits form one saturating number; parentheses are tokens;
/// everything else separates.
pub open spec fn tokens_from(s: Seq<char>, i: int, current: Option<u32>) -> Seq<VcpToken>
    decreases s.len() - i,
{
    if i >= s.len() || i < 0 {
        flush(current)
    } else if is_hex(s[i]) {
        tokens_from(s, i + 1, Some(hex_step(current, s[i])))
    } else {
        flush(current) + (if s[i] == '(' {
            seq![VcpToken::Open]
        } else if s[i] == ')' {
            seq![VcpToken::Close]
        } else {
            Seq::empty()
        }) + tokens_from(s, i + 1, None)
    }
}

/// Tokens of a whole `vcp(...)` section.
pub open spec fn vcp_tokens_of(s: Seq<char>) -> Seq<VcpToken> {
    tokens_from(s, 0, None)
}

/// An advertised feature as plain values: its code and optional value list.
pub type FeatureView = (u8, Option<Seq<u16>>);

/// First position at or after `i` whose feature has `code`.
pub open spec fn find_code(acc: Seq<FeatureView>, code: u8, i: int) -> Option<int>
    decreases acc.len() - i,
{
    if i >= acc.len() || i < 0 {
        None
    } else if acc[i].0 == code {
        Some(i)
    } else {
        find_code(acc, code, i + 1)
    }
}

/// `cur` extended by the values of `extra` that it does not yet hold, in order.
pub open spec fn merge_values(cur: Seq<u16>, extra: Seq<u16>) -> Seq<u16>
    decreases extra.len(),
{
    if extra.len() == 0 {
        cur
    } else {
        let m = merge_values(cur, extra.drop_last());
        if m.contains(extra.last()) {
            m
        } else {
            m.push(extra.last())
        }
    }
}

/// Record one occurrence of `code`: a new code is appended; a repeated code
/// gains a value list it lacked, or the new values it did not hold.
pub open spec fn remember(acc: Seq<FeatureView>, code: u8, values: Option<Seq<u16>>) -> Seq<
    FeatureView,
> {
    match find_code(acc, code, 0) {
        Some(k) => match (acc[k].1, values) {
            (None, v) => acc.update(k, (code, v)),
            (Some(cur), Some(extra)) => acc.update(k, (code, Some(merge_values(cur, extra)))),
            (Some(_), None) => acc,
        },
        None => acc.push((code, values)),
    }
}

/// Where the feature parser stands: between features, just after a code, or
/// inside a code's value list at some nesting depth.
pub enum ParseState {
    Scan,
    Code(u8),
    List(u8, int, Seq<u16>),
}

/// Features declared by tokens `t[i..]`, starting in state `st` with `acc` so far.
/// A hex token up to 0xFF is a code; a directly following `(` opens its value
/// list, whose top-level numbers up to 0xFFFF are its values (deduplicated).
pub open spec fn features_from(t: Seq<VcpToken>, i: int, st: ParseState, acc: Seq<FeatureView>) -> Seq<
    FeatureView,
>
    decreases t.len() - i, (if st is Code {
        1int
    } else {
        0int
    }),
{
    if i >= t.len() || i < 0 {
        match st {
            ParseState::Scan => acc,
            ParseState::Code(c) => remember(acc, c, None),
            ParseState::List(c, _, vals) => remember(acc, c, Some(vals)),
        }
    } else {
        match st {
            ParseState::Scan => match t[i] {
                VcpToken::Hex(v) => if v <= 0xFF {
                    features_from(t, i + 1, ParseState::Code(v as u8), acc)
                } else {
                    features_from(t, i + 1, ParseState::Scan, acc)
                },
                _ => features_from(t, i + 1, ParseState::Scan, acc),
            },
            ParseState::Code(c) => if t[i] == VcpToken::Open {
                features_from(t, i + 1, ParseState::List(c, 1, Seq::empty()), acc)
            } else {
                features_from(t, i, ParseState::Scan, remember(acc, c, None))
            },
            ParseState::List(c, depth, vals) => match t[i] {
                VcpToken::Open => features_from(t, i + 1, ParseState::List(c, depth + 1, vals), acc),
                VcpToken::Close => if depth <= 1 {
                    features_from(t, i + 1, ParseState::Scan, remember(acc, c, Some(vals)))
                } else {
                    features_from(t, i + 1, ParseState::List(c, depth - 1, vals), acc)
                },
                VcpToken::Hex(v) => if depth == 1 && v <= 0xFFFF && !vals.contains(v as u16) {
                    features_from(t, i + 1, ParseState::List(c, depth, vals.push(v as u16)), acc)
                } else {
                    features_from(t, i + 1, ParseState::List(c, depth, vals), acc)
                },
            },
        }
    }
}

/// Whether `vcp(` (case-insensitive) starts at `i`.
pub open spec fn marker_at(s: Seq<char>, i: int) -> bool {
    &&& 0 <= i
    &&& i + 4 <= s.len()
    &&& ascii_lower(s[i]) == 'v'
    &&& ascii_lower(s[i + 1]) == 'c'
    &&& ascii_lower(s[i + 2]) == 'p'
    &&& s[i + 3] == '('
}

/// First position at or after `i` where `vcp(` starts.
pub open spec fn find_marker(s: Seq<char>, i: int) -> Option<int>
    decreases s.len() - i,
{
    if i < 0 || i + 4 > s.len() {
        None
    } else if marker_at(s, i) {
        Some(i)
    } else {
        find_marker(s, i + 1)
    }
}

/// Position of the `)` closing a section opened before `b[0]`, at nesting `depth`.
pub open spec fn close_from(b: Seq<char>, i: int, depth: int) -> Option<int>
    decreases b.len() - i,
{
    if i >= b.len() || i < 0 {
        None
    } else if b[i] == '(' {
        close_from(b, i + 1, depth + 1)
    } else if b[i] == ')' {
        if depth <= 1 {
            Some(i)
        } else {
            close_from(b, i + 1, depth - 1)
        }
    } else {
        close_from(b, i + 1, depth)
    }
}

/// The text inside the first complete `vcp(...)` section, if any.
pub open spec fn vcp_section(raw: Seq<char>) -> Option<Seq<char>> {
    match find_marker(raw, 0) {
        Some(m) => {
            let body = raw.subrange(m + 4, raw.len() as int);
            match close_from(body, 0, 1) {
                Some(end) => Some(body.subrange(0, end)),
                None => None,
            }
        },
        None => None,
    }
}

/// The features a capabilities string declares, or `None` without a complete section.
pub open spec fn capabilities_of(raw: Seq<char>) -> Option<Seq<FeatureView>> {
    match vcp_section(raw) {
        Some(section) => Some(features_from(vcp_tokens_of(section), 0, ParseState::Scan, Seq::empty())),
        None => None,
    }
}

/// First value list declared for `code`.
pub open spec fn values_for(features: Seq<FeatureView>, code: u8) -> Option<Seq<u16>> {
    match find_code(features, code, 0) {
        Some(k) => features[k].1,
        None => None,
    }
}

/// Whether `code` is declared.
pub open spec fn declares(features: Seq<FeatureView>, code: u8) -> bool {
    exists|k: int| 0 <= k < features.len() && features[k].0 == code
}

/// Each element once, at its first position.
pub open spec fn dedupe_seq<T>(s: Seq<T>) -> Seq<T>
    decreases s.len(),
{
    if s.len() == 0 {
        s
    } else {
        let d = dedupe_seq(s.drop_last());
        if d.contains(s.last()) {
            d
        } else {
            d.push(s.last())
        }
    }
}

/// Decoded `0x60` values of a capabilities string, or `None` when the string
/// is unusable or lists no discrete inputs.
pub open spec fn advertised_inputs(raw: Seq<char>) -> Option<Seq<InputSource>> {
    match capabilities_of(raw) {
        Some(features) => match values_for(features, 0x60) {
            Some(values) => {
                let sources = dedupe_seq(values.map_values(|v: u16| input_from_code(v)));
                if sources.len() == 0 {
                    None
                } else {
                    Some(sources)
                }
            },
            None => None,
        },
        None => None,
    }
}

/// One VCP code from a capabilities string; `values` is `None` when the code
/// appears without a parenthesized list.
#[derive(Debug, Clone, PartialEq, Eq)]
pub struct AdvertisedFeature {
    pub code: u8,
    pub values: Option<Vec<u16>>,
}

/// The plain-value view of a list of features.
pub open spec fn feature_views(f: Seq<AdvertisedFeature>) -> Seq<FeatureView> {
    Seq::new(f.len(), |i: int| (f[i].code, opt_seq(f[i].values)))
}

/// Features declared by a parsed `vcp(...)` section.
#[derive(Debug, Clone, PartialEq, Eq)]
pub struct MonitorCapabilities {
    features: Vec<AdvertisedFeature>,
}

impl View for MonitorCapabilities {
    type V = Seq<FeatureView>;

    closed spec fn view(&self) -> Seq<FeatureView> {
        feature_views(self.features@)
    }
}

/// Whether `x` occurs in `v`.
pub fn contains_u16(v: &Vec<u16>, x: u16) -> (r: bool)
    ensures
        r == v@.contains(x),
{
    let mut i: usize = 0;
    while i < v.len()
        invariant
            i <= v@.len(),
            forall|k: int| 0 <= k < i ==> v@[k] != x,
        decreases v.len() - i,
    {
        if v[i] == x {
            assert(v@[i as int] == x);
            return true;
        }
        i = i + 1;
    }
    false
}

/// `cur` extended by the values of `extra` it does not hold yet.
pub fn merge_value_lists(cur: &Vec<u16>, extra: &Vec<u16>) -> (r: Vec<u16>)
    ensures
        r@ == merge_values(cur@, extra@),
{
    let mut out: Vec<u16> = Vec::new();
    let mut k: usize = 0;
    while k < cur.len()
        invariant
            k <= cur@.len(),
            out@ == cur@.subrange(0, k as int),
        decreases cur.len() - k,
    {
        out.push(cur[k]);
        proof {
            assert(cur@.subrange(0, k + 1) == cur@.subrange(0, k as int).push(cur@[k as int]));
        }
        k = k + 1;
    }
    proof {
        assert(cur@.subrange(0, cur@.len() as int) == cur@);
    }
    let mut i: usize = 0;
    while i < extra.len()
        invariant
            i <= extra@.len(),
            out@ == merge_values(cur@, extra@.subrange(0, i as int)),
        decreases extra.len() - i,
    {
        let v = extra[i];
        proof {
            let t = extra@.subrange(0, i + 1);
            assert(t.drop_last() == extra@.subrange(0, i as int));
            assert(t.last() == v);
        }
        if !contains_u16(&out, v) {
            out.push(v);
        }
        i = i + 1;
    }
    proof {
        assert(extra@.subrange(0, extra@.len() as int) == extra@);
    }
    out
}

/// Position of the first feature with `code`.
fn find_feature(features: &Vec<AdvertisedFeature>, code: u8) -> (r: Option<usize>)
    ensures
        match r {
            Some(k) => find_code(feature_views(features@), code, 0) == Some(k as int) && k
                < features@.len() && features@[k as int].code == code,
            None => find_code(feature_views(features@), code, 0) is None,
        },
{
    let ghost fv = feature_views(features@);
    let mut i: usize = 0;
    while i < features.len()
        invariant
            i <= features@.len(),
            fv == feature_views(features@),
            find_code(fv, code, 0) == find_code(fv, code, i as int),
        decreases features.len() - i,
    {
        if features[i].code == code {
            return Some(i);
        }
        i = i + 1;
    }
    None
}

/// Record one occurrence of `code` with its optional value list.
pub fn remember_feature(features: &mut Vec<AdvertisedFeature>, code: u8, values: Option<Vec<u16>>)
    ensures
        feature_views(final(features)@) == remember(
            feature_views(old(features)@),
            code,
            opt_seq(values),
        ),
{
    let ghost before = feature_views(features@);
    match find_feature(features, code) {
        Some(k) => {
            let existing_none = features[k].values.is_none();
            if existing_none {
                features.set(k, AdvertisedFeature { code, values });
                proof {
                    assert(feature_views(features@) =~= before.update(
                        k as int,
                        (code, opt_seq(values)),
                    ));
                }
            } else {
                match values {
                    Some(extra) => {
                        let merged = match &features[k].values {
                            Some(cur) => merge_value_lists(cur, &extra),
                            None => Vec::new(),
                        };
                        let ghost m = merged@;
                        features.set(k, AdvertisedFeature { code, values: Some(merged) });
                        proof {
                            assert(feature_views(features@) =~= before.update(
                                k as int,
                                (code, Some(m)),
                            ));
                        }
                    },
                    None => {},
                }
            }
        },
        None => {
            features.push(AdvertisedFeature { code, values });
            proof {
                assert(feature_views(features@) =~= before.push((code, opt_seq(values))));
            }
        },
    }
}

/// Split a `vcp(...)` section into hex numbers and parentheses.
pub fn vcp_tokens(section: &str) -> (r: Vec<VcpToken>)
    ensures
        r@ == vcp_tokens_of(section@),
{
    let ghost s = section@;
    let n = section.unicode_len();
    let mut tokens: Vec<VcpToken> = Vec::new();
    let mut current: Option<u32> = None;
    let mut i: usize = 0;
    while i < n
        invariant
            n == s.len(),
            s == section@,
            i <= n,
            tokens@ + tokens_from(s, i as int, current) == tokens_from(s, 0, None),
        decreases n - i,
    {
        let ch = section.get_char(i);
        let ghost before = tokens@;
        let ghost cur0 = current;
        if ('0' <= ch && ch <= '9') || ('a' <= ch && ch <= 'f') || ('A' <= ch && ch <= 'F') {
            let d: u64 = if '0' <= ch && ch <= '9' {
                (ch as u64) - ('0' as u64)
            } else if 'a' <= ch && ch <= 'f' {
                (ch as u64) - ('a' as u64) + 10
            } else {
                (ch as u64) - ('A' as u64) + 10
            };
            let v: u64 = match current {
                Some(x) => 16 * (x as u64) + d,
                None => d,
            };
            let next: u32 = if v > 0xFFFF_FFFF {
                0xFFFF_FFFF
            } else {
                v as u32
            };
            assert(next == hex_step(cur0, s[i as int]));
            current = Some(next);
        } else {
            match current {
                Some(x) => {
                    tokens.push(VcpToken::Hex(x));
                },
                None => {},
            }
            if ch == '(' {
                tokens.push(VcpToken::Open);
            } else if ch == ')' {
                tokens.push(VcpToken::Close);
            }
            current = None;
            proof {
                let mid = if s[i as int] == '(' {
                    seq![VcpToken::Open]
                } else if s[i as int] == ')' {
                    seq![VcpToken::Close]
                } else {
                    Seq::empty()
                };
                assert(tokens@ == before + flush(cur0) + mid);
                assert(tokens_from(s, i as int, cur0) == flush(cur0) + mid + tokens_from(
                    s,
                    i + 1,
                    None,
                ));
                assert(before + (flush(cur0) + mid + tokens_from(s, i + 1, None)) == (before
                    + flush(cur0) + mid) + tokens_from(s, i + 1, None));
            }
        }
        i = i + 1;
    }
    match current {
        Some(x) => {
            tokens.push(VcpToken::Hex(x));
        },
        None => {},
    }
    proof {
        assert(tokens_from(s, n as int, current) == flush(current));
    }
    tokens
}

/// Parse the codes and value lists of a `vcp(...)` section.
pub fn parse_vcp_features(section: &str) -> (r: Vec<AdvertisedFeature>)
    ensures
        feature_views(r@) == features_from(
            vcp_tokens_of(section@),
            0,
            ParseState::Scan,
            Seq::empty(),
        ),
{
    let tokens = vcp_tokens(section);
    let ghost t = tokens@;
    let mut features: Vec<AdvertisedFeature> = Vec::new();
    // 0: between features, 1: just after a code, 2: inside a value list.
    let mut mode: u8 = 0;
    let mut code: u8 = 0;
    let mut depth: u64 = 0;
    let mut values: Vec<u16> = Vec::new();
    let mut index: usize = 0;
    proof {
        assert(feature_views(features@) =~= Seq::<FeatureView>::empty());
    }
    while index < tokens.len()
        invariant
            t == tokens@,
            index <= t.len(),
            mode <= 2,
            mode == 2 ==> 1 <= depth <= index,
            features_from(t, index as int, state_of(mode, code, depth, values@), feature_views(
                features@,
            )) == features_from(t, 0, ParseState::Scan, Seq::empty()),
        decreases t.len() - index,
    {
        let token = tokens[index];
        let ghost st0 = state_of(mode, code, depth, values@);
        let ghost acc0 = feature_views(features@);
        if mode == 1 {
            if token == VcpToken::Open {
                mode = 2;
                depth = 1;
                values = Vec::new();
                index = index + 1;
                continue ;
            }
            remember_feature(&mut features, code, None);
            mode = 0;
            proof {
                assert(features_from(t, index as int, st0, acc0) == features_from(
                    t,
                    index as int,
                    ParseState::Scan,
                    feature_views(features@),
                ));
            }
        }
        let ghost st1 = state_of(mode, code, depth, values@);
        let ghost acc1 = feature_views(features@);
        assert(features_from(t, index as int, st1, acc1) == features_from(t, 0, ParseState::Scan, Seq::empty()));
        if mode == 0 {
            match token {
                VcpToken::Hex(v) => {
                    if v <= 0xFF {
                        mode = 1;
                        code = v as u8;
                    }
                },
                _ => {},
            }
        } else {
            match token {
                VcpToken::Open => {
                    depth = depth + 1;
                },
                VcpToken::Close => {
                    if depth <= 1 {
                        let finished = values;
                        values = Vec::new();
                        remember_feature(&mut features, code, Some(finished));
                        mode = 0;
                    } else {
                        depth = depth - 1;
                    }
                },
                VcpToken::Hex(v) => {
                    if depth == 1 && v <= 0xFFFF && !contains_u16(&values, v as u16) {
                        values.push(v as u16);
                    }
                },
            }
        }
        proof {
            assert(features_from(t, index as int, st1, acc1) == features_from(
                t,
                index + 1,
                state_of(mode, code, depth, values@),
                feature_views(features@),
            ));
        }
        index = index + 1;
    }
    if mode == 1 {
        remember_feature(&mut features, code, None);
    } else if mode == 2 {
        remember_feature(&mut features, code, Some(values));
    }
    features
}

/// The parser state described by the loop variables of [`parse_vcp_features`].
pub open spec fn state_of(mode: u8, code: u8, depth: u64, values: Seq<u16>) -> ParseState {
    if mode == 0 {
        ParseState::Scan
    } else if mode == 1 {
        ParseState::Code(code)
    } else {
        ParseState::List(code, depth as int, values)
    }
}

/// Position of the first case-insensitive `vcp(` in `raw`.
fn find_vcp_marker(raw: &str) -> (r: Option<usize>)
    ensures
        match r {
            Some(m) => find_marker(raw@, 0) == Some(m - 4) && 4 <= m <= raw@.len(),
            None => find_marker(raw@, 0) is None,
        },
{
    let ghost s = raw@;
    let n = raw.unicode_len();
    let mut m: usize = 0;
    while m < n && n - m >= 4
        invariant
            n == s.len(),
            s == raw@,
            m <= n,
            find_marker(s, 0) == find_marker(s, m as int),
        decreases n - m,
    {
        let a = crate::text::lower_char(raw.get_char(m));
        let b = crate::text::lower_char(raw.get_char(m + 1));
        let c = crate::text::lower_char(raw.get_char(m + 2));
        let d = raw.get_char(m + 3);
        if a == 'v' && b == 'c' && c == 'p' && d == '(' {
            return Some(m + 4);
        }
        m = m + 1;
    }
    None
}

/// Position (in `raw`) of the `)` that closes a section opened just before `start`.
fn find_section_end(raw: &str, start: usize) -> (r: Option<usize>)
    requires
        1 <= start <= raw@.len(),
    ensures
        match r {
            Some(e) => start <= e < raw@.len() && close_from(
                raw@.subrange(start as int, raw@.len() as int),
                0,
                1,
            ) == Some(e - start),
            None => close_from(raw@.subrange(start as int, raw@.len() as int), 0, 1) is None,
        },
{
    let ghost s = raw@;
    let n = raw.unicode_len();
    let ghost body = s.subrange(start as int, n as int);
    assert(n as int <= u64::MAX) by {
        assert(usize::MAX <= u64::MAX);
    }
    let mut depth: u64 = 1;
    let mut j: usize = start;
    while j < n
        invariant
            n == s.len(),
            s == raw@,
            1 <= start <= j <= n,
            1 <= depth <= j - start + 1,
            body == s.subrange(start as int, n as int),
            close_from(body, 0, 1) == close_from(body, j - start, depth as int),
        decreases n - j,
    {
        let ch = raw.get_char(j);
        assert(body[j - start] == ch);
        assert(depth + 1 <= n);
        if ch == '(' {
            depth = depth + 1;
        } else if ch == ')' {
            if depth <= 1 {
                return Some(j);
            }
            depth = depth - 1;
        }
        j = j + 1;
    }
    None
}

/// Parse the `vcp(...)` section of an MCCS capabilities string.
///
/// Returns `None` when that section is missing or not closed.
pub fn parse_capabilities(raw: &str) -> (r: Option<MonitorCapabilities>)
    ensures
        match r {
            Some(c) => capabilities_of(raw@) == Some(c@),
            None => capabilities_of(raw@) is None,
        },
{
    let start = match find_vcp_marker(raw) {
        Some(m) => m,
        None => return None,
    };
    let end = match find_section_end(raw, start) {
        Some(e) => e,
        None => return None,
    };
    let mut section = String::new();
    crate::text::push_range(&mut section, raw, start, end);
    proof {
        let body = raw@.subrange(start as int, raw@.len() as int);
        assert(section@ =~= body.subrange(0, end - start));
    }
    Some(MonitorCapabilities { features: parse_vcp_features(section.as_str()) })
}

impl MonitorCapabilities {
    /// Whether `code` is declared.
    pub fn contains(&self, code: u8) -> (r: bool)
        ensures
            r == declares(self@, code),
    {
        let mut i: usize = 0;
        while i < self.features.len()
            invariant
                i <= self.features@.len(),
                forall|k: int| 0 <= k < i ==> self.features@[k].code != code,
            decreases self.features.len() - i,
        {
            if self.features[i].code == code {
                assert(self@[i as int].0 == code);
                return true;
            }
            i = i + 1;
        }
        proof {
            assert forall|k: int| 0 <= k < self@.len() implies self@[k].0 != code by {
                assert(self@[k].0 == self.features@[k].code);
            }
        }
        false
    }

    /// Discrete values for `code`: `None` when the code is absent or declared
    /// without a value list.
    pub fn discrete_values(&self, code: u8) -> (r: Option<&[u16]>)
        ensures
            match r {
                Some(v) => values_for(self@, code) == Some(v@),
                None => values_for(self@, code) is None,
            },
    {
        match find_feature(&self.features, code) {
            Some(k) => match &self.features[k].values {
                Some(v) => Some(v.as_slice()),
                None => None,
            },
            None => None,
        }
    }
}

/// Decoded `0x60` values from a capabilities string.
pub fn advertised_input_sources(raw: &str) -> (r: Option<Vec<InputSource>>)
    ensures
        opt_seq(r) == advertised_inputs(raw@),
{
    let capabilities = match parse_capabilities(raw) {
        Some(c) => c,
        None => return None,
    };
    let values = match capabilities.discrete_values(0x60) {
        Some(v) => v,
        None => return None,
    };
    let ghost mapped = values@.map_values(|v: u16| input_from_code(v));
    let mut sources: Vec<InputSource> = Vec::new();
    let mut i: usize = 0;
    while i < values.len()
        invariant
            i <= values@.len(),
            mapped == values@.map_values(|v: u16| input_from_code(v)),
            sources@ == dedupe_seq(mapped.subrange(0, i as int)),
        decreases values.len() - i,
    {
        let s = InputSource::from_vcp_value(values[i]);
        proof {
            let t = mapped.subrange(0, i + 1);
            assert(t.drop_last() == mapped.subrange(0, i as int));
            assert(t.last() == s);
        }
        if !contains_input(&sources, s) {
            sources.push(s);
        }
        i = i + 1;
    }
    proof {
        assert(mapped.subrange(0, values@.len() as int) == mapped);
    }
    if sources.len() == 0 {
        None
    } else {
        Some(sources)
    }
}

/// Whether `x` occurs in `v`.
pub fn contains_input(v: &Vec<InputSource>, x: InputSource) -> (r: bool)
    ensures
        r == v@.contains(x),
{
    let mut i: usize = 0;
    while i < v.len()
        invariant
            i <= v@.len(),
            forall|k: int| 0 <= k < i ==> v@[k] != x,
        decreases v.len() - i,
    {
        if v[i] == x {
            assert(v@[i as int] == x);
            return true;
        }
        i = i + 1;
    }
    false
}

/// Whether `x` occurs in `v`.
pub fn contains_mode(v: &Vec<PowerMode>, x: PowerMode) -> (r: bool)
    ensures
        r == v@.contains(x),
{
    let mut i: usize = 0;
    while i < v.len()
        invariant
            i <= v@.len(),
            forall|k: int| 0 <= k < i ==> v@[k] != x,
        decreases v.len() - i,
    {
        if v[i] == x {
            assert(v@[i as int] == x);
            return true;
        }
        i = i + 1;
    }
    false
}

/// Dropdown contents.
#[derive(Debug, Clone, PartialEq, Eq)]
pub struct FeatureOptions<T> {
    pub options: Vec<T>,
    /// Selected monitors advertise no value in common; `options` holds only
    /// the saved value.
    pub no_shared_option: bool,
}

/// `options` with `current` appended when absent, then deduplicated.
pub open spec fn with_current<T>(options: Seq<T>, current: Option<T>) -> Seq<T> {
    let extended = match current {
        Some(c) => if options.contains(c) {
            options
        } else {
            options.push(c)
        },
        None => options,
    };
    dedupe_seq(extended)
}

/// Deduplicate inputs, keeping first occurrences in order.
pub fn dedupe_inputs(options: Vec<InputSource>) -> (r: Vec<InputSource>)
    ensures
        r@ == dedupe_seq(options@),
{
    let mut unique: Vec<InputSource> = Vec::new();
    let mut i: usize = 0;
    while i < options.len()
        invariant
            i <= options@.len(),
            unique@ == dedupe_seq(options@.subrange(0, i as int)),
        decreases options.len() - i,
    {
        let o = options[i];
        proof {
            let t = options@.subrange(0, i + 1);
            assert(t.drop_last() == options@.subrange(0, i as int));
            assert(t.last() == o);
        }
        if !contains_input(&unique, o) {
            unique.push(o);
        }
        i = i + 1;
    }
    proof {
        assert(options@.subrange(0, options@.len() as int) == options@);
    }
    unique
}

/// Append `current` to input options when absent, then deduplicate.
pub fn append_current_input(options: Vec<InputSource>, current: Option<InputSource>) -> (r: Vec<
    InputSource,
>)
    ensures
        r@ == with_current(options@, current),
{
    let mut options = options;
    match current {
        Some(c) => {
            if !contains_input(&options, c) {
                options.push(c);
            }
        },
        None => {},
    }
    dedupe_inputs(options)
}

/// Append `current` to power options when absent, then deduplicate.
pub fn append_current_mode(options: Vec<PowerMode>, current: Option<PowerMode>) -> (r: Vec<
    PowerMode,
>)
    ensures
        r@ == with_current(options@, current),
{
    let mut options = options;
    match current {
        Some(c) => {
            if !contains_mode(&options, c) {
                options.push(c);
            }
        },
        None => {},
    }
    let mut unique: Vec<PowerMode> = Vec::new();
    let mut i: usize = 0;
    while i < options.len()
        invariant
            i <= options@.len(),
            unique@ == dedupe_seq(options@.subrange(0, i as int)),
        decreases options.len() - i,
    {
        let o = options[i];
        proof {
            let t = options@.subrange(0, i + 1);
            assert(t.drop_last() == options@.subrange(0, i as int));
            assert(t.last() == o);
        }
        if !contains_mode(&unique, o) {
            unique.push(o);
        }
        i = i + 1;
    }
    proof {
        assert(options@.subrange(0, options@.len() as int) == options@);
    }
    unique
}

/// The inputs offered for one monitor: its advertised list, or the standard
/// list when it advertises none.
pub open spec fn base_inputs(advertised: Option<Seq<InputSource>>) -> Seq<InputSource> {
    match advertised {
        Some(s) => if s.len() > 0 {
            s
        } else {
            standard_inputs()
        },
        None => standard_inputs(),
    }
}

/// Dropdown contents for one monitor's advertised inputs, with the current
/// source appended when it is not already present.
pub fn input_choices(advertised: Option<&[InputSource]>, current: Option<InputSource>) -> (r:
    FeatureOptions<InputSource>)
    ensures
        r.options@ == with_current(
            base_inputs(
                match advertised {
                    Some(s) => Some(s@),
                    None => None,
                },
            ),
            current,
        ),
        !r.no_shared_option,
{
    let options = match advertised {
        Some(sources) => {
            if sources.len() > 0 {
                let mut v: Vec<InputSource> = Vec::new();
                let mut i: usize = 0;
                while i < sources.len()
                    invariant
                        i <= sources@.len(),
                        v@ == sources@.subrange(0, i as int),
                    decreases sources.len() - i,
                {
                    v.push(sources[i]);
                    proof {
                        assert(sources@.subrange(0, i + 1) == sources@.subrange(0, i as int).push(
                            sources@[i as int],
                        ));
                    }
                    i = i + 1;
                }
                proof {
                    assert(sources@.subrange(0, sources@.len() as int) == sources@);
                }
                v
            } else {
                standard_input_sources()
            }
        },
        None => standard_input_sources(),
    };
    FeatureOptions { options: append_current_input(options, current), no_shared_option: false }
}

/// The non-empty advertised lists, in order.
pub open spec fn known_lists(advertised: Seq<Option<Vec<InputSource>>>) -> Seq<Seq<InputSource>>
    decreases advertised.len(),
{
    if advertised.len() == 0 {
        Seq::empty()
    } else {
        let rest = known_lists(advertised.drop_last());
        match advertised.last() {
            Some(v) => if v@.len() > 0 {
                rest.push(v@)
            } else {
                rest
            },
            None => rest,
        }
    }
}

/// The elements of `s` that `other` also holds, in the order of `s`.
pub open spec fn keep_common(s: Seq<InputSource>, other: Seq<InputSource>) -> Seq<InputSource>
    decreases s.len(),
{
    if s.len() == 0 {
        s
    } else {
        let k = keep_common(s.drop_last(), other);
        if other.contains(s.last()) {
            k.push(s.last())
        } else {
            k
        }
    }
}

/// Intersection of the first `n` lists, in the order of the first.
pub open spec fn intersect_lists(lists: Seq<Seq<InputSource>>, n: int) -> Seq<InputSource>
    decreases n,
{
    if n <= 1 {
        lists[0]
    } else {
        keep_common(intersect_lists(lists, n - 1), lists[n - 1])
    }
}

/// Inputs shared by the selected monitors. A monitor without a list counts as
/// offering the standard sources and does not shrink the result; when nothing
/// is shared, only the current value is offered and the result says so.
pub open spec fn shared_choices(
    advertised: Seq<Option<Vec<InputSource>>>,
    current: Option<InputSource>,
) -> (Seq<InputSource>, bool) {
    let known = known_lists(advertised);
    if known.len() == 0 {
        (with_current(standard_inputs(), current), false)
    } else {
        let common = intersect_lists(known, known.len() as int);
        if common.len() == 0 {
            (
                match current {
                    Some(c) => seq![c],
                    None => Seq::empty(),
                },
                true,
            )
        } else {
            (with_current(common, current), false)
        }
    }
}

fn keep_common_exec(s: Vec<InputSource>, other: &Vec<InputSource>) -> (r: Vec<InputSource>)
    ensures
        r@ == keep_common(s@, other@),
{
    let mut out: Vec<InputSource> = Vec::new();
    let mut i: usize = 0;
    while i < s.len()
        invariant
            i <= s@.len(),
            out@ == keep_common(s@.subrange(0, i as int), other@),
        decreases s.len() - i,
    {
        let x = s[i];
        proof {
            let t = s@.subrange(0, i + 1);
            assert(t.drop_last() == s@.subrange(0, i as int));
            assert(t.last() == x);
        }
        if contains_input(other, x) {
            out.push(x);
        }
        i = i + 1;
    }
    proof {
        assert(s@.subrange(0, s@.len() as int) == s@);
    }
    out
}

/// Inputs shared by the selected monitors.
pub fn shared_input_choices(advertised: &Vec<Option<Vec<InputSource>>>, current: Option<InputSource>) -> (r:
    FeatureOptions<InputSource>)
    ensures
        (r.options@, r.no_shared_option) == shared_choices(advertised@, current),
{
    let ghost adv = advertised@;
    // Intersect the known lists as they are found.
    let mut common: Vec<InputSource> = Vec::new();
    let mut count: usize = 0;
    let mut i: usize = 0;
    while i < advertised.len()
        invariant
            i <= adv.len(),
            adv == advertised@,
            count == known_lists(adv.subrange(0, i as int)).len(),
            count <= i,
            count > 0 ==> common@ == intersect_lists(
                known_lists(adv.subrange(0, i as int)),
                count as int,
            ),
        decreases adv.len() - i,
    {
        proof {
            let t = adv.subrange(0, i + 1);
            assert(t.drop_last() == adv.subrange(0, i as int));
            assert(t.last() == adv[i as int]);
        }
        match &advertised[i] {
            Some(list) => {
                if list.len() > 0 {
                    let ghost prev = known_lists(adv.subrange(0, i as int));
                    if count == 0 {
                        let mut copy: Vec<InputSource> = Vec::new();
                        let mut k: usize = 0;
                        while k < list.len()
                            invariant
                                k <= list@.len(),
                                copy@ == list@.subrange(0, k as int),
                            decreases list.len() - k,
                        {
                            copy.push(list[k]);
                            proof {
                                assert(list@.subrange(0, k + 1) == list@.subrange(
                                    0,
                                    k as int,
                                ).push(list@[k as int]));
                            }
                            k = k + 1;
                        }
                        proof {
                            assert(list@.subrange(0, list@.len() as int) == list@);
                            assert(prev.push(list@).len() == 1);
                            assert(prev.push(list@)[0] == list@);
                        }
                        common = copy;
                    } else {
                        proof {
                            let known = prev.push(list@);
                            assert(forall|q: int| 0 <= q < count ==> known[q] == prev[q]);
                            lemma_intersect_prefix(prev, known, count as int);
                        }
                        common = keep_common_exec(common, list);
                    }
                    count = count + 1;
                }
            },
            None => {},
        }
        i = i + 1;
    }
    proof {
        assert(adv.subrange(0, adv.len() as int) == adv);
    }
    if count == 0 {
        return input_choices(None, current);
    }
    if common.len() == 0 {
        let options = match current {
            Some(c) => vec![c],
            None => Vec::new(),
        };
        proof {
            match current {
                Some(c) => assert(options@ =~= seq![c]),
                None => assert(options@ =~= Seq::<InputSource>::empty()),
            }
        }
        return FeatureOptions { options, no_shared_option: true };
    }
    FeatureOptions { options: append_current_input(common, current), no_shared_option: false }
}

proof fn lemma_intersect_prefix(a: Seq<Seq<InputSource>>, b: Seq<Seq<InputSource>>, n: int)
    requires
        1 <= n <= a.len(),
        n <= b.len(),
        forall|q: int| 0 <= q < n ==> b[q] == a[q],
    ensures
        intersect_lists(a, n) == intersect_lists(b, n),
    decreases n,
{
    if n > 1 {
        lemma_intersect_prefix(a, b, n - 1);
    }
}

/// Standard power modes, plus the current mode when it is not already listed.
pub fn power_options(current: Option<PowerMode>) -> (r: FeatureOptions<PowerMode>)
    ensures
        r.options@ == with_current(standard_modes(), current),
        !r.no_shared_option,
{
    FeatureOptions {
        options: append_current_mode(standard_power_modes(), current),
        no_shared_option: false,
    }
}

} // verus!
