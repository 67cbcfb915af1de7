//! Profile names, profile file names, errors and creation timestamps.
use vstd::prelude::*;
use crate::ccd::{CcdError, DisplayConfig, ccd_error_text};
use crate::text::{decimal, push_char, push_decimal, trim, trim_seq};

verus! {

/// Failures of the profile store.
#[derive(Debug, Clone)]
pub enum ProfileError {
    InvalidName,
    NotFound(String),
    Io(String),
    Json(String),
    Ccd(CcdError),
}

/// The user-facing description of a profile error.
pub open spec fn profile_error_text(e: ProfileError) -> Seq<char> {
    match e {
        ProfileError::InvalidName => "Invalid profile name"@,
        ProfileError::NotFound(name) => "Profile not found: "@ + name@,
        ProfileError::Io(text) => "I/O error: "@ + text@,
        ProfileError::Json(text) => "JSON error: "@ + text@,
        ProfileError::Ccd(inner) => ccd_error_text(inner),
    }
}

impl ProfileError {
    /// The user-facing description of this error.
    pub fn message(&self) -> (r: String)
        ensures
            r@ == profile_error_text(*self),
    {
        match self {
            ProfileError::InvalidName => String::from_str("Invalid profile name"),
            ProfileError::NotFound(name) => {
                let mut s = String::from_str("Profile not found: ");
                s.append(name.as_str());
                s
            },
            ProfileError::Io(text) => {
                let mut s = String::from_str("I/O error: ");
                s.append(text.as_str());
                s
            },
            ProfileError::Json(text) => {
                let mut s = String::from_str("JSON error: ");
                s.append(text.as_str());
                s
            },
            ProfileError::Ccd(inner) => inner.message(),
        }
    }
}

/// A saved display layout under a name.
#[derive(Debug, Clone)]
pub struct DisplayProfile {
    pub name: String,
    pub created: Option<String>,
    pub config: DisplayConfig,
}

// ---------------------------------------------------------------------------
// Names
// ---------------------------------------------------------------------------

/// Characters Windows does not allow in file names.
pub open spec fn forbidden_in_name(c: char) -> bool {
    c == '<' || c == '>' || c == ':' || c == '"' || c == '/' || c == '\\' || c == '|' || c == '?' || c == '*'
}

/// Control characters, as `char::is_control`.
pub open spec fn is_control(c: char) -> bool {
    c <= '\x1F' || ('\x7F' <= c && c <= '\u{9F}')
}

/// The first `n` characters of `s` without forbidden and control characters.
pub open spec fn strip_unusable(s: Seq<char>, n: int) -> Seq<char>
    decreases n,
{
    if n <= 0 || n > s.len() {
        Seq::empty()
    } else if forbidden_in_name(s[n - 1]) || is_control(s[n - 1]) {
        strip_unusable(s, n - 1)
    } else {
        strip_unusable(s, n - 1).push(s[n - 1])
    }
}

/// Index of the first character at or after `i` that is not a dot.
pub open spec fn first_non_dot(s: Seq<char>, i: int) -> int
    decreases s.len() - i,
{
    if i >= s.len() {
        s.len() as int
    } else if s[i] == '.' {
        first_non_dot(s, i + 1)
    } else {
        i
    }
}

/// One past the last character before `j` that is not a dot.
pub open spec fn last_non_dot_end(s: Seq<char>, j: int) -> int
    decreases j,
{
    if j <= 0 {
        0
    } else if s[j - 1] == '.' {
        last_non_dot_end(s, j - 1)
    } else {
        j
    }
}

/// `s` without leading and trailing dots, as `str::trim_matches('.')`.
pub open spec fn trim_dots(s: Seq<char>) -> Seq<char> {
    let start = first_non_dot(s, 0);
    let end = last_non_dot_end(s, s.len() as int);
    if start < end {
        s.subrange(start, end)
    } else {
        Seq::empty()
    }
}

/// The safe file stem for a profile name: forbidden and control characters
/// removed, then surrounding whitespace and dots; none where nothing usable
/// (or only a path traversal) remains.
pub open spec fn sanitized(name: Seq<char>) -> Option<Seq<char>> {
    let stem = trim_seq(trim_dots(trim_seq(strip_unusable(name, name.len() as int))));
    if stem.len() == 0 || stem == "."@ || stem == ".."@ {
        None
    } else {
        Some(stem)
    }
}

fn trim_dots_exec(s: &str) -> (r: String)
    ensures
        r@ == trim_dots(s@),
{
    let n = s.unicode_len();
    let mut start: usize = 0;
    while start < n && s.get_char(start) == '.'
        invariant
            n == s@.len(),
            start <= n,
            first_non_dot(s@, 0) == first_non_dot(s@, start as int),
        decreases n - start,
    {
        start = start + 1;
    }
    let mut end: usize = n;
    while end > 0 && s.get_char(end - 1) == '.'
        invariant
            n == s@.len(),
            end <= n,
            last_non_dot_end(s@, n as int) == last_non_dot_end(s@, end as int),
        decreases end,
    {
        end = end - 1;
    }
    let mut out = String::new();
    let mut i: usize = start;
    while i < end
        invariant
            start <= i,
            i <= end || start >= end,
            end <= n,
            n == s@.len(),
            start < end ==> out@ == s@.subrange(start as int, i as int),
            start >= end ==> out@ == Seq::<char>::empty(),
        decreases end - i,
    {
        push_char(&mut out, s.get_char(i));
        proof {
            assert(s@.subrange(start as int, i + 1) == s@.subrange(start as int, i as int).push(s@[i as int]));
        }
        i = i + 1;
    }
    proof {
        assert(first_non_dot(s@, 0) == start);
        assert(last_non_dot_end(s@, n as int) == end);
    }
    out
}

/// Strip characters invalid in Windows file names and reject traversal and
/// empty names. Returns the safe file stem, or `None` if nothing usable remains.
pub fn sanitize_name(name: &str) -> (r: Option<String>)
    ensures
        match r {
            Some(stem) => sanitized(name@) == Some(stem@),
            None => sanitized(name@) is None,
        },
{
    let n = name.unicode_len();
    let mut cleaned = String::new();
    let mut i: usize = 0;
    while i < n
        invariant
            n == name@.len(),
            i <= n,
            cleaned@ == strip_unusable(name@, i as int),
        decreases n - i,
    {
        let c = name.get_char(i);
        let forbidden = c == '<' || c == '>' || c == ':' || c == '"' || c == '/' || c == '\\' || c == '|' || c
            == '?' || c == '*';
        let control = c <= '\x1F' || ('\x7F' <= c && c <= '\u{9F}');
        if !forbidden && !control {
            push_char(&mut cleaned, c);
        }
        i = i + 1;
    }
    let first = trim(cleaned.as_str());
    let dotless = trim_dots_exec(first.as_str());
    let stem = trim(dotless.as_str());
    let len = stem.unicode_len();
    proof {
        reveal_strlit(".");
        reveal_strlit("..");
    }
    if len == 0 || (len == 1 && stem.as_str().get_char(0) == '.') || (len == 2 && stem.as_str().get_char(0) == '.'
        && stem.as_str().get_char(1) == '.') {
        proof {
            if len == 1 {
                assert(stem@ =~= "."@);
            }
            if len == 2 {
                assert(stem@ =~= ".."@);
            }
        }
        return None;
    }
    proof {
        if stem@ == "."@ {
            assert(stem@.len() == 1 && stem@[0] == '.');
        }
        if stem@ == ".."@ {
            assert(stem@.len() == 2 && stem@[0] == '.' && stem@[1] == '.');
        }
    }
    Some(stem)
}

/// The file name a profile is stored under: `<stem>.json`.
pub open spec fn profile_file(name: Seq<char>) -> Result<Seq<char>, ()> {
    match sanitized(name) {
        Some(stem) => Ok(stem + ".json"@),
        None => Err(()),
    }
}

/// The file name for profile `name`, or `InvalidName` when no safe stem remains.
pub fn profile_file_name(name: &str) -> (r: Result<String, ProfileError>)
    ensures
        match r {
            Ok(file) => profile_file(name@) == Ok::<Seq<char>, ()>(file@),
            Err(e) => profile_file(name@) is Err && e is InvalidName,
        },
{
    match sanitize_name(name) {
        Some(stem) => {
            let mut file = stem;
            file.append(".json");
            Ok(file)
        },
        None => Err(ProfileError::InvalidName),
    }
}

// ---------------------------------------------------------------------------
// Timestamps
// ---------------------------------------------------------------------------

/// The proleptic Gregorian `(year, month, day)` of the day `days` after
/// 1970-01-01, by eras of 400 years counted from 0000-03-01.
pub open spec fn civil(days: int) -> (int, int, int) {
    let z = days + 719468;
    let era = z / 146097;
    let doe = z % 146097;
    let yoe = (doe - doe / 1460 + doe / 36524 - doe / 146096) / 365;
    let y = yoe + era * 400;
    let doy = doe - (365 * yoe + yoe / 4 - yoe / 100);
    let mp = (5 * doy + 2) / 153;
    let d = doy - (153 * mp + 2) / 5 + 1;
    let m = if mp < 10 {
        mp + 3
    } else {
        mp - 9
    };
    (if m <= 2 {
        y + 1
    } else {
        y
    }, m, d)
}

proof fn lemma_day_of_era(doe: int)
    requires
        0 <= doe < 146097,
    ensures
        ({
            let yoe = (doe - doe / 1460 + doe / 36524 - doe / 146096) / 365;
            let doy = doe - (365 * yoe + yoe / 4 - yoe / 100);
            let mp = (5 * doy + 2) / 153;
            &&& 0 <= yoe < 400
            &&& 0 <= doy < 366
            &&& 0 <= mp < 12
            &&& 1 <= doy - (153 * mp + 2) / 5 + 1 <= 31
        }),
{
    let yoe = (doe - doe / 1460 + doe / 36524 - doe / 146096) / 365;
    assert(0 <= doe / 1460 <= 100) by (nonlinear_arith) requires 0 <= doe < 146097;
    assert(0 <= doe / 36524 <= 4) by (nonlinear_arith) requires 0 <= doe < 146097;
    assert(0 <= doe / 146096 <= 1) by (nonlinear_arith) requires 0 <= doe < 146097;
    assert(doe / 146096 == 1 ==> doe == 146096) by (nonlinear_arith) requires 0 <= doe < 146097;
    assert(doe / 36524 == 4 ==> doe >= 146096) by (nonlinear_arith) requires 0 <= doe < 146097;
    let a = doe - doe / 1460 + doe / 36524 - doe / 146096;
    assert(0 <= a < 146000) by {
        assert(doe / 1460 * 1460 <= doe) by (nonlinear_arith) requires 0 <= doe;
        assert(doe < (doe / 1460 + 1) * 1460) by (nonlinear_arith) requires 0 <= doe;
        assert(doe < (doe / 36524 + 1) * 36524) by (nonlinear_arith) requires 0 <= doe;
        assert(doe / 36524 * 36524 <= doe) by (nonlinear_arith) requires 0 <= doe;
    }
    assert(0 <= yoe < 400) by (nonlinear_arith) requires yoe == a / 365, 0 <= a < 146000;
    assert(0 <= yoe / 4 <= 99) by (nonlinear_arith) requires 0 <= yoe < 400;
    assert(0 <= yoe / 100 <= 3) by (nonlinear_arith) requires 0 <= yoe < 400;
    let doy = doe - (365 * yoe + yoe / 4 - yoe / 100);
    assert(yoe * 365 <= a < yoe * 365 + 365) by (nonlinear_arith) requires yoe == a / 365, 0 <= a;
    assert(yoe / 4 * 4 <= yoe < yoe / 4 * 4 + 4) by (nonlinear_arith) requires 0 <= yoe;
    assert(yoe / 100 * 100 <= yoe < yoe / 100 * 100 + 100) by (nonlinear_arith) requires 0 <= yoe;
    assert(doe / 1460 * 1460 <= doe < doe / 1460 * 1460 + 1460) by (nonlinear_arith) requires 0 <= doe;
    assert(doe / 36524 * 36524 <= doe < doe / 36524 * 36524 + 36524) by (nonlinear_arith) requires 0 <= doe;
    assert(0 <= doy < 366) by (nonlinear_arith)
        requires
            doy == doe - (365 * yoe + yoe / 4 - yoe / 100),
            a == doe - doe / 1460 + doe / 36524 - doe / 146096,
            yoe * 365 <= a < yoe * 365 + 365,
            yoe / 4 * 4 <= yoe < yoe / 4 * 4 + 4,
            yoe / 100 * 100 <= yoe < yoe / 100 * 100 + 100,
            doe / 1460 * 1460 <= doe < doe / 1460 * 1460 + 1460,
            doe / 36524 * 36524 <= doe < doe / 36524 * 36524 + 36524,
            0 <= doe < 146097,
            0 <= doe / 146096 <= 1,
            doe / 146096 == 1 ==> doe == 146096,
            doe / 36524 == 4 ==> doe >= 146096,
    ;
    let mp = (5 * doy + 2) / 153;
    assert(0 <= mp < 12) by (nonlinear_arith) requires mp == (5 * doy + 2) / 153, 0 <= doy < 366;
    assert(1 <= doy - (153 * mp + 2) / 5 + 1 <= 31) by (nonlinear_arith)
        requires
            mp == (5 * doy + 2) / 153,
            0 <= doy < 366,
            0 <= mp < 12,
    ;
}

/// Convert days since the Unix epoch to a `(year, month, day)` civil date.
pub fn civil_from_days(days: i64) -> (r: (i64, u32, u32))
    requires
        i64::MIN + 146096 <= days + 719468 <= i64::MAX,
    ensures
        r.0 == civil(days as int).0,
        r.1 == civil(days as int).1,
        r.2 == civil(days as int).2,
        1 <= r.1 <= 12,
        1 <= r.2 <= 31,
{
    let z: i64 = days + 719468;
    let era: i64 = if z >= 0 {
        z / 146097
    } else {
        let a: u64 = ((-z) as u64 + 146096) / 146097;
        -(a as i64)
    };
    proof {
        let zi = z as int;
        if z >= 0 {
            assert(era == zi / 146097);
        } else {
            let a = ((-zi) + 146096) / 146097;
            assert(a * 146097 <= -zi + 146096 < a * 146097 + 146097) by (nonlinear_arith)
                requires a == ((-zi) + 146096) / 146097, -zi + 146096 >= 0;
            assert(zi == (-a) * 146097 + (zi + a * 146097));
            assert(0 <= zi + a * 146097 < 146097);
            vstd::arithmetic::div_mod::lemma_fundamental_div_mod_converse(zi, 146097, -a, zi + a * 146097);
            assert(era == zi / 146097);
        }
        vstd::arithmetic::div_mod::lemma_fundamental_div_mod(zi, 146097);
        assert(zi % 146097 == zi - era * 146097);
        lemma_day_of_era(zi % 146097);
        assert(era * 146097 <= zi);
        assert(era * 146097 > zi - 146097);
        assert(era >= 0 ==> 0 <= era * 400 <= zi) by (nonlinear_arith) requires era * 146097 <= zi;
        assert(era < 0 ==> zi - 146097 < era * 400 < 0) by (nonlinear_arith) requires era * 146097 > zi - 146097;
    }
    let doe: u64 = (z - era * 146097) as u64;
    let yoe: u64 = (doe - doe / 1460 + doe / 36524 - doe / 146096) / 365;
    let y: i64 = yoe as i64 + era * 400;
    let doy: u64 = doe - (365 * yoe + yoe / 4 - yoe / 100);
    let mp: u64 = (5 * doy + 2) / 153;
    let d: u32 = (doy - (153 * mp + 2) / 5 + 1) as u32;
    let m: u32 = if mp < 10 {
        (mp + 3) as u32
    } else {
        (mp - 9) as u32
    };
    (if m <= 2 {
        y + 1
    } else {
        y
    }, m, d)
}

/// `n` in decimal, padded with zeros to at least `width` digits.
pub open spec fn padded(n: nat, width: nat) -> Seq<char> {
    let digits = decimal(n);
    if digits.len() < width {
        Seq::new((width - digits.len()) as nat, |i: int| '0') + digits
    } else {
        digits
    }
}

fn push_padded(out: &mut String, n: u64, width: usize)
    ensures
        final(out)@ == old(out)@ + padded(n as nat, width as nat),
{
    let mut digits = String::new();
    push_decimal(&mut digits, n);
    proof {
        assert(digits@ == decimal(n as nat));
    }
    let len = digits.unicode_len();
    let ghost start = out@;
    if len < width {
        let mut k: usize = 0;
        while k < width - len
            invariant
                len < width,
                k <= width - len,
                out@ == start + Seq::new(k as nat, |i: int| '0'),
            decreases width - len - k,
        {
            push_char(out, '0');
            proof {
                assert(Seq::new((k + 1) as nat, |i: int| '0') =~= Seq::new(k as nat, |i: int| '0').push('0'));
            }
            k = k + 1;
        }
    }
    out.append(digits.as_str());
    proof {
        if len < width {
            assert(start + Seq::new((width - len) as nat, |i: int| '0') + digits@ =~= start + (Seq::new(
                (width - len) as nat,
                |i: int| '0',
            ) + digits@));
        }
    }
}

/// The ISO-8601 UTC text of `secs` seconds after the Unix epoch, as
/// `YYYY-MM-DDTHH:MM:SSZ`.
pub open spec fn iso8601(secs: nat) -> Seq<char> {
    let date = civil(secs as int / 86400);
    let rem = secs % 86400;
    padded(date.0 as nat, 4) + "-"@ + padded(date.1 as nat, 2) + "-"@ + padded(date.2 as nat, 2) + "T"@ + padded(
        rem / 3600,
        2,
    ) + ":"@ + padded((rem % 3600) / 60, 2) + ":"@ + padded(rem % 60, 2) + "Z"@
}

/// The creation timestamp written into a saved profile.
pub fn iso8601_from_secs(secs: u64) -> (r: String)
    ensures
        r@ == iso8601(secs as nat),
{
    let days: i64 = (secs / 86400) as i64;
    let rem: u64 = secs % 86400;
    let (y, m, d) = civil_from_days(days);
    proof {
        let z = days + 719468;
        assert(z >= 0);
        assert(z / 146097 >= 0) by (nonlinear_arith) requires z >= 0;
        lemma_day_of_era(z % 146097);
        assert(y >= 0);
    }
    let mut out = String::new();
    push_padded(&mut out, y as u64, 4);
    out.append("-");
    push_padded(&mut out, m as u64, 2);
    out.append("-");
    push_padded(&mut out, d as u64, 2);
    out.append("T");
    push_padded(&mut out, rem / 3600, 2);
    out.append(":");
    push_padded(&mut out, (rem % 3600) / 60, 2);
    out.append(":");
    push_padded(&mut out, rem % 60, 2);
    out.append("Z");
    proof {
        assert(out@ =~= iso8601(secs as nat));
    }
    out
}

} // verus!
