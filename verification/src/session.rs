//! The checks that resolve the working directory of one exact Codex session:
//! the session id, the directories its file may be in, the scan of those
//! directories, and the session's header record.

use vstd::prelude::*;
use vstd::string::*;
use crate::file_uri::{eq_ignore_ascii_case, eq_ignore_ascii_case_exec, hex_value, hex_value_exec};
use crate::text::chars_of;

verus! {

/// Why a session's working directory cannot be resolved.
#[derive(Clone, Copy, Debug, PartialEq, Eq, Structural)]
pub enum SessionError {
    /// The session id is not a UUIDv7.
    InvalidId,
    /// The id's timestamp lies outside the supported dates.
    TimestampOutOfRange,
    /// A day next to the session's date lies outside the supported dates.
    DateOutOfRange,
    /// The session directories hold more entries than are scanned.
    ScanLimitExceeded,
    /// The file named for the session is not a regular file.
    NotRegularFile,
    /// More than one file is named for the session.
    DuplicateSession,
    /// The first record of the session file is longer than the limit.
    HeaderTooLarge,
    /// The first record of the session file is not a session header.
    MalformedHeader,
    /// The header is not a session header for this session id.
    HeaderMismatch,
    /// The working directory in the header is not an absolute path.
    RelativeWorkingDirectory,
}

impl SessionError {
    /// A description of the error.
    pub fn message(&self) -> (res: &'static str)
        ensures
            res@ == match *self {
                SessionError::InvalidId => "Codex session ID must be a UUIDv7"@,
                SessionError::TimestampOutOfRange => "Codex session timestamp is out of range"@,
                SessionError::DateOutOfRange => "Codex session date is out of range"@,
                SessionError::ScanLimitExceeded => "Codex session directory scan limit exceeded"@,
                SessionError::NotRegularFile => "Codex session header must be a regular file"@,
                SessionError::DuplicateSession => "multiple files match the Codex session ID"@,
                SessionError::HeaderTooLarge => "Codex session header exceeds 64 KiB"@,
                SessionError::MalformedHeader => "malformed Codex session header"@,
                SessionError::HeaderMismatch => "Codex session header ID or record type does not match"@,
                SessionError::RelativeWorkingDirectory => "Codex session working directory is not an absolute path"@,
            },
    {
        match self {
            SessionError::InvalidId => "Codex session ID must be a UUIDv7",
            SessionError::TimestampOutOfRange => "Codex session timestamp is out of range",
            SessionError::DateOutOfRange => "Codex session date is out of range",
            SessionError::ScanLimitExceeded => "Codex session directory scan limit exceeded",
            SessionError::NotRegularFile => "Codex session header must be a regular file",
            SessionError::DuplicateSession => "multiple files match the Codex session ID",
            SessionError::HeaderTooLarge => "Codex session header exceeds 64 KiB",
            SessionError::MalformedHeader => "malformed Codex session header",
            SessionError::HeaderMismatch => "Codex session header ID or record type does not match",
            SessionError::RelativeWorkingDirectory => "Codex session working directory is not an absolute path",
        }
    }
}

/// A calendar date.
#[derive(Clone, Copy, Debug, PartialEq, Eq, Structural)]
pub struct SessionDate {
    pub year: i32,
    pub month: u8,
    pub day: u8,
}

pub open spec fn is_uuid_dash_index(i: int) -> bool {
    i == 8 || i == 13 || i == 18 || i == 23
}

/// The bytes of a UUID of version 7 with the RFC 4122 variant, in its
/// hyphenated text form (hex digits in either case).
pub open spec fn is_uuid_v7(b: Seq<u8>) -> bool {
    &&& b.len() == 36
    &&& forall|i: int| 0 <= i < 36 ==> if is_uuid_dash_index(i) {
        #[trigger] b[i] == 0x2du8
    } else {
        hex_value(b[i]) is Some
    }
    &&& b[14] == 0x37u8
    &&& (b[19] == 0x38u8 || b[19] == 0x39u8 || b[19] == 0x61u8 || b[19] == 0x41u8 || b[19] == 0x62u8 || b[19] == 0x42u8)
}

/// The number that a sequence of hex digits spells.
pub open spec fn hex_number(digits: Seq<u8>) -> int
    decreases digits.len(),
{
    if digits.len() == 0 {
        0
    } else {
        hex_number(digits.drop_last()) * 16 + match hex_value(digits.last()) {
            Some(v) => v as int,
            None => 0,
        }
    }
}

/// The Unix time in milliseconds that a UUIDv7 carries: its first twelve
/// hex digits.
pub open spec fn uuid_timestamp_ms(b: Seq<u8>) -> int {
    hex_number(b.take(8) + b.subrange(9, 13))
}

/// A hex digit byte: `0`-`9`, `a`-`f` or `A`-`F`.
pub open spec fn is_hex_digit_byte(x: u8) -> bool {
    (0x30 <= x <= 0x39) || (0x61 <= x <= 0x66) || (0x41 <= x <= 0x46)
}

/// The hyphenated text of a UUID whose version nibble is `7` and whose
/// variant nibble is `8`, `9`, `a` or `b` (either case).
pub open spec fn is_hyphenated_uuid_v7_text(b: Seq<u8>) -> bool {
    &&& b.len() == 36
    &&& b[8] == 0x2d && b[13] == 0x2d && b[18] == 0x2d && b[23] == 0x2d
    &&& forall|i: int| 0 <= i < 36 && i != 8 && i != 13 && i != 18 && i != 23 ==> is_hex_digit_byte(#[trigger] b[i])
    &&& b[14] == 0x37
    &&& (b[19] == 0x38 || b[19] == 0x39 || b[19] == 0x61 || b[19] == 0x62 || b[19] == 0x41 || b[19] == 0x42)
}

/// `time::OffsetDateTime::from_unix_timestamp(secs)` and then `.date()`,
/// as year, month number and day.
pub uninterp spec fn unix_timestamp_date(secs: i64) -> Option<(i32, u8, u8)>;

/// `time::OffsetDateTime::from_unix_timestamp` followed by `date()`: the
/// UTC calendar date of a Unix time in seconds, or `None` when the time lies
/// outside the years -9999 to 9999 that the crate represents.
#[verifier::external_body]
fn date_of_unix_timestamp(secs: i64) -> (res: Option<(i32, u8, u8)>)
    ensures
        res == unix_timestamp_date(secs),
        res matches Some((y, m, d)) ==> -9999 <= y <= 9999 && 1 <= m <= 12 && 1 <= d <= 31,
{
    match time::OffsetDateTime::from_unix_timestamp(secs) {
        Ok(t) => {
            let d = t.date();
            Some((d.year(), u8::from(d.month()), d.day()))
        },
        Err(_) => None,
    }
}

/// The date of a session: its id must be a UUIDv7, whose timestamp gives
/// the UTC date.
pub open spec fn session_date_spec(id: Seq<char>) -> Result<SessionDate, SessionError> {
    let b = vstd::utf8::encode_utf8(id);
    if !is_uuid_v7(b) {
        Err(SessionError::InvalidId)
    } else {
        match unix_timestamp_date((uuid_timestamp_ms(b) / 1000) as i64) {
            None => Err(SessionError::TimestampOutOfRange),
            Some((y, m, d)) => Ok(SessionDate { year: y, month: m, day: d }),
        }
    }
}

fn is_uuid_v7_exec(b: &[u8]) -> (res: bool)
    ensures
        res == is_uuid_v7(b@),
{
    if b.len() != 36 {
        return false;
    }
    let mut i: usize = 0;
    while i < 36
        invariant
            b@.len() == 36,
            i <= 36,
            forall|t: int| 0 <= t < i ==> if is_uuid_dash_index(t) {
                #[trigger] b@[t] == 0x2du8
            } else {
                hex_value(b@[t]) is Some
            },
        decreases 36 - i,
    {
        if i == 8 || i == 13 || i == 18 || i == 23 {
            if b[i] != 0x2d {
                return false;
            }
        } else if hex_value_exec(b[i]).is_none() {
            return false;
        }
        i = i + 1;
    }
    let v = b[19];
    b[14] == 0x37 && (v == 0x38 || v == 0x39 || v == 0x61 || v == 0x41 || v == 0x62 || v == 0x42)
}

/// Every UUIDv7 id is accepted: its date is found unless its timestamp
/// lies outside the supported dates; and every other id is refused as no
/// UUIDv7.
pub proof fn law_session_ids_are_exactly_uuid_v7(id: Seq<char>)
    ensures
        is_hyphenated_uuid_v7_text(vstd::utf8::encode_utf8(id)) ==>
            session_date_spec(id) != Err::<SessionDate, SessionError>(SessionError::InvalidId),
        !is_hyphenated_uuid_v7_text(vstd::utf8::encode_utf8(id)) ==>
            session_date_spec(id) == Err::<SessionDate, SessionError>(SessionError::InvalidId),
{
    let b = vstd::utf8::encode_utf8(id);
    if is_hyphenated_uuid_v7_text(b) {
        assert forall|i: int| 0 <= i < 36 implies if is_uuid_dash_index(i) {
            #[trigger] b[i] == 0x2du8
        } else {
            hex_value(b[i]) is Some
        } by {
            if !is_uuid_dash_index(i) {
                assert(is_hex_digit_byte(b[i]));
            }
        }
        assert(is_uuid_v7(b));
    } else if is_uuid_v7(b) {
        assert(b[8] == 0x2d && b[13] == 0x2d && b[18] == 0x2d && b[23] == 0x2d);
        assert forall|i: int| 0 <= i < 36 && i != 8 && i != 13 && i != 18 && i != 23 implies is_hex_digit_byte(#[trigger] b[i]) by {
            assert(hex_value(b[i]) is Some);
        }
    }
}

/// The date of the session with id `id` (see `session_date_spec`).
pub fn session_date(id: &str) -> (res: Result<SessionDate, SessionError>)
    ensures
        res == session_date_spec(id@),
{
    let b = id.as_bytes();
    if !is_uuid_v7_exec(b) {
        return Err(SessionError::InvalidId);
    }
    let ghost digits = b@.take(8) + b@.subrange(9, 13);
    let mut timestamp_ms: i64 = 0;
    let mut i: usize = 0;
    let mut n: usize = 0;
    while i < 13
        invariant
            b@.len() == 36,
            is_uuid_v7(b@),
            digits == b@.take(8) + b@.subrange(9, 13),
            i <= 13,
            n == (if i <= 8 { i as int } else { i - 1 }),
            timestamp_ms == hex_number(digits.take(n as int)),
            0 <= timestamp_ms < pow16(n as nat),
        decreases 13 - i,
    {
        let byte = b[i];
        if byte != 0x2d {
            let digit = match hex_value_exec(byte) {
                Some(v) => v,
                None => return Err(SessionError::InvalidId),
            };
            proof {
                assert(digits.take(n + 1).drop_last() =~= digits.take(n as int));
                assert(digits[n as int] == byte);
                lemma_pow16_step(n as nat);
                lemma_pow16_12();
                lemma_pow16_mono(n as nat + 1, 12);
            }
            timestamp_ms = timestamp_ms * 16 + digit as i64;
            n = n + 1;
        }
        i = i + 1;
    }
    assert(digits.take(12) =~= digits);
    match date_of_unix_timestamp(timestamp_ms / 1000) {
        Some((year, month, day)) => Ok(SessionDate { year, month, day }),
        None => Err(SessionError::TimestampOutOfRange),
    }
}

pub open spec fn pow16(n: nat) -> int
    decreases n,
{
    if n == 0 {
        1
    } else {
        16 * pow16((n - 1) as nat)
    }
}

proof fn lemma_pow16_12()
    ensures
        pow16(12) == 0x1_0000_0000_0000,
{
    reveal_with_fuel(pow16, 13);
}

proof fn lemma_pow16_step(n: nat)
    ensures
        pow16(n + 1) == 16 * pow16(n),
{
}

proof fn lemma_pow16_mono(a: nat, b: nat)
    requires
        a <= b,
    ensures
        1 <= pow16(a) <= pow16(b),
    decreases b,
{
    if a < b {
        lemma_pow16_mono(a, (b - 1) as nat);
    } else if a > 0 {
        lemma_pow16_mono((a - 1) as nat, (a - 1) as nat);
    }
}

// ---------------------------------------------------------------------------
// Where the session file may be

/// `Date::from_calendar_date(year, month, day)` and then
/// `checked_add(Duration::days(days))`, as year, month number and day.
pub uninterp spec fn date_plus_days(year: i32, month: u8, day: u8, days: i64) -> Option<(i32, u8, u8)>;

/// `time::Date::checked_add` of a whole number of days to the date with the
/// given year, month number and day: `None` when that is no date or the sum
/// leaves the years -9999 to 9999.
#[verifier::external_body]
fn date_add_days(year: i32, month: u8, day: u8, days: i64) -> (res: Option<(i32, u8, u8)>)
    requires
        -1 <= days <= 1,
    ensures
        res == date_plus_days(year, month, day, days),
        res matches Some((y, m, d)) ==> -9999 <= y <= 9999 && 1 <= m <= 12 && 1 <= d <= 31,
{
    let month = match time::Month::try_from(month) {
        Ok(m) => m,
        Err(_) => return None,
    };
    let date = match time::Date::from_calendar_date(year, month, day) {
        Ok(d) => d,
        Err(_) => return None,
    };
    match date.checked_add(time::Duration::days(days)) {
        Some(n) => Some((n.year(), u8::from(n.month()), n.day())),
        None => None,
    }
}

pub open spec fn digit_char(d: int) -> char {
    (48 + d) as char
}

/// The decimal digits of `n`, without leading zeros.
pub open spec fn decimal_digits(n: nat) -> Seq<char>
    decreases n,
{
    if n < 10 {
        seq![digit_char(n as int)]
    } else {
        decimal_digits(n / 10) + seq![digit_char((n % 10) as int)]
    }
}

pub open spec fn zeros(k: int) -> Seq<char> {
    Seq::new(if k > 0 { k as nat } else { 0 }, |i: int| '0')
}

/// `n` in decimal, padded with zeros after its sign to `width` chars.
pub open spec fn zero_padded(n: int, width: int) -> Seq<char> {
    if n < 0 {
        let digits = decimal_digits((-n) as nat);
        seq!['-'] + zeros(width - 1 - digits.len()) + digits
    } else {
        let digits = decimal_digits(n as nat);
        zeros(width - digits.len()) + digits
    }
}

/// The directory of the sessions of one day, relative to the Codex home.
pub open spec fn day_directory(y: i32, m: u8, d: u8) -> Seq<char> {
    "sessions/"@ + zero_padded(y as int, 4) + "/"@ + zero_padded(m as int, 2) + "/"@ + zero_padded(d as int, 2)
}

pub open spec fn ascii_lowercase_char(c: char) -> char {
    if 'A' <= c && c <= 'Z' {
        ((c as u32) + 32) as char
    } else {
        c
    }
}

pub open spec fn ascii_lowercase_chars(s: Seq<char>) -> Seq<char> {
    s.map_values(|c: char| ascii_lowercase_char(c))
}

/// Where to look for the file of one session.
#[derive(Debug)]
pub struct SessionSearch {
    /// The session id in lower case.
    pub id: String,
    /// The directories to scan, relative to the Codex home, in order.
    pub directories: Vec<String>,
    /// How a session file's name ends.
    pub file_suffix: String,
}

/// The directories, relative to the Codex home, where the session with id
/// `id` may be: those of the day before, the day of and the day after the
/// session's date, then the archive.
pub open spec fn session_directories_spec(id: Seq<char>) -> Result<Seq<Seq<char>>, SessionError> {
    match session_date_spec(id) {
        Err(e) => Err(e),
        Ok(date) => match (
            date_plus_days(date.year, date.month, date.day, -1i64),
            date_plus_days(date.year, date.month, date.day, 0i64),
            date_plus_days(date.year, date.month, date.day, 1i64),
        ) {
            (Some(a), Some(b), Some(c)) => Ok(seq![
                day_directory(a.0, a.1, a.2),
                day_directory(b.0, b.1, b.2),
                day_directory(c.0, c.1, c.2),
                "archived_sessions"@,
            ]),
            _ => Err(SessionError::DateOutOfRange),
        },
    }
}

/// `str::to_ascii_lowercase`: the string with `A`-`Z` mapped to `a`-`z` and
/// every other char unchanged.
#[verifier::external_body]
fn to_ascii_lowercase(s: &str) -> (res: String)
    ensures
        res@ == ascii_lowercase_chars(s@),
{
    s.to_ascii_lowercase()
}

fn digit_str(d: u32) -> (res: &'static str)
    requires
        d < 10,
    ensures
        res@ == seq![digit_char(d as int)],
{
    proof {
        reveal_strlit("0");
        reveal_strlit("1");
        reveal_strlit("2");
        reveal_strlit("3");
        reveal_strlit("4");
        reveal_strlit("5");
        reveal_strlit("6");
        reveal_strlit("7");
        reveal_strlit("8");
        reveal_strlit("9");
    }
    match d {
        0 => "0",
        1 => "1",
        2 => "2",
        3 => "3",
        4 => "4",
        5 => "5",
        6 => "6",
        7 => "7",
        8 => "8",
        _ => "9",
    }
}

fn push_decimal(s: &mut String, n: u32)
    ensures
        final(s)@ == old(s)@ + decimal_digits(n as nat),
    decreases n,
{
    if n >= 10 {
        push_decimal(s, n / 10);
    }
    let ghost mid = s@;
    s.append(digit_str(n % 10));
    proof {
        if n >= 10 {
            assert(old(s)@ + decimal_digits(n as nat) =~= old(s)@ + decimal_digits((n / 10) as nat) + seq![digit_char((n % 10) as int)]);
        } else {
            assert(n % 10 == n);
        }
    }
}

pub open spec fn pow10(k: nat) -> nat
    decreases k,
{
    if k == 0 {
        1
    } else {
        10 * pow10((k - 1) as nat)
    }
}

proof fn lemma_decimal_digits_len(n: nat, k: nat)
    requires
        n < pow10(k),
    ensures
        1 <= decimal_digits(n).len() <= if k == 0 { 1 } else { k },
    decreases n,
{
    if n >= 10 {
        assert(k > 0) by {
            if k == 0 {
                assert(pow10(0) == 1);
            }
        }
        let p = pow10((k - 1) as nat);
        assert(n / 10 < p) by (nonlinear_arith)
            requires
                n < 10 * p,
        ;
        lemma_decimal_digits_len(n / 10, (k - 1) as nat);
        if k == 1 {
            assert(p == 1);
        }
    }
}

fn push_zero_padded(s: &mut String, n: i32, width: usize)
    requires
        width <= 16,
    ensures
        final(s)@ == old(s)@ + zero_padded(n as int, width as int),
{
    proof {
        reveal_strlit("-");
        reveal_strlit("0");
    }
    let negative = n < 0;
    let magnitude: u32 = if negative { (0 - (n as i64)) as u32 } else { n as u32 };
    let mut digits = String::new();
    push_decimal(&mut digits, magnitude);
    let len = digits.as_str().unicode_len();
    proof {
        reveal_with_fuel(pow10, 11);
        lemma_decimal_digits_len(magnitude as nat, 10);
    }
    let used = if negative { len + 1 } else { len };
    let ghost start = s@;
    if negative {
        s.append("-");
    }
    let ghost before_zeros = s@;
    let mut k: usize = used;
    while k < width
        invariant
            used <= k,
            k <= width || k == used,
            s@ == before_zeros + zeros(k - used),
        decreases width - k,
    {
        proof {
            reveal_strlit("0");
        }
        s.append("0");
        assert(zeros(k + 1 - used) =~= zeros(k - used) + seq!['0']);
        assert(s@ =~= before_zeros + zeros(k + 1 - used));
        k = k + 1;
    }
    assert(zeros(k - used) =~= zeros(width - used)) by {
        if k != width {
            assert(k == used);
        }
    }
    s.append(digits.as_str());
    proof {
        if negative {
            assert(zeros(width - used) =~= zeros(width - 1 - len));
            assert(s@ =~= start + (seq!['-'] + zeros(width - 1 - decimal_digits(magnitude as nat).len()) + decimal_digits(magnitude as nat)));
        } else {
            assert(s@ =~= start + (zeros(width - decimal_digits(magnitude as nat).len()) + decimal_digits(magnitude as nat)));
        }
    }
}

/// The directory of the sessions of the given day (see `day_directory`).
fn day_directory_string(y: i32, m: u8, d: u8) -> (res: String)
    ensures
        res@ == day_directory(y, m, d),
{
    let mut s = String::from_str("sessions/");
    push_zero_padded(&mut s, y, 4);
    s.append("/");
    push_zero_padded(&mut s, m as i32, 2);
    s.append("/");
    push_zero_padded(&mut s, d as i32, 2);
    s
}

/// Where to look for the file of the session with id `id`.
pub fn session_search(id: &str) -> (res: Result<SessionSearch, SessionError>)
    ensures
        res is Ok <==> session_directories_spec(id@) is Ok,
        res matches Err(e) ==> session_directories_spec(id@) == Err::<Seq<Seq<char>>, SessionError>(e),
        res matches Ok(search) ==> {
            &&& search.directories@.map_values(|d: String| d@) == session_directories_spec(id@)->Ok_0
            &&& search.id@ == ascii_lowercase_chars(id@)
            &&& search.file_suffix@ == "-"@ + ascii_lowercase_chars(id@) + ".jsonl"@
        },
{
    let date = match session_date(id) {
        Ok(d) => d,
        Err(e) => return Err(e),
    };
    let lower = to_ascii_lowercase(id);
    let before = date_add_days(date.year, date.month, date.day, -1);
    let same = date_add_days(date.year, date.month, date.day, 0);
    let after = date_add_days(date.year, date.month, date.day, 1);
    let (a, b, c) = match (before, same, after) {
        (Some(a), Some(b), Some(c)) => (a, b, c),
        _ => return Err(SessionError::DateOutOfRange),
    };
    let mut directories: Vec<String> = Vec::new();
    directories.push(day_directory_string(a.0, a.1, a.2));
    directories.push(day_directory_string(b.0, b.1, b.2));
    directories.push(day_directory_string(c.0, c.1, c.2));
    directories.push(String::from_str("archived_sessions"));
    let mut file_suffix = String::from_str("-");
    file_suffix.append(lower.as_str());
    file_suffix.append(".jsonl");
    assert(directories@.map_values(|d: String| d@) =~= session_directories_spec(id@)->Ok_0);
    Ok(SessionSearch { id: lower, directories, file_suffix })
}

pub open spec fn has_prefix(s: Seq<char>, p: Seq<char>) -> bool {
    p.len() <= s.len() && s.take(p.len() as int) == p
}

pub open spec fn has_suffix(s: Seq<char>, p: Seq<char>) -> bool {
    p.len() <= s.len() && s.skip(s.len() - p.len()) == p
}

/// Whether `s[at..at + p.len()]` is `p`.
fn chars_match_at(s: &[char], at: usize, p: &[char]) -> (res: bool)
    requires
        at + p@.len() <= s@.len(),
    ensures
        res == (s@.subrange(at as int, at + p@.len()) == p@),
{
    let sl = s.len();
    let mut i: usize = 0;
    while i < p.len()
        invariant
            sl == s@.len(),
            at + p@.len() <= s@.len(),
            i <= p@.len(),
            s@.subrange(at as int, at + i) =~= p@.take(i as int),
        decreases p@.len() - i,
    {
        if s[at + i] != p[i] {
            assert(s@.subrange(at as int, at + p@.len())[i as int] != p@[i as int]);
            return false;
        }
        assert(s@.subrange(at as int, at + i + 1) =~= s@.subrange(at as int, at + i).push(s@[at + i]));
        assert(p@.take(i + 1) =~= p@.take(i as int).push(p@[i as int]));
        i = i + 1;
    }
    assert(p@.take(p@.len() as int) =~= p@);
    true
}

impl SessionSearch {
    /// Whether a directory entry named `name` is a file of the session.
    pub fn matches_file_name(&self, name: &str) -> (res: bool)
        ensures
            res == (has_prefix(name@, "rollout-"@) && has_suffix(name@, self.file_suffix@)),
    {
        let cs = chars_of(name);
        let prefix = chars_of("rollout-");
        let suffix = chars_of(self.file_suffix.as_str());
        let n = cs.len();
        let starts = prefix.len() <= n && chars_match_at(cs.as_slice(), 0, prefix.as_slice());
        let ends = suffix.len() <= n && chars_match_at(cs.as_slice(), n - suffix.len(), suffix.as_slice());
        proof {
            assert(cs@.subrange(0, prefix@.len() as int) =~= cs@.take(prefix@.len() as int));
            assert(cs@.subrange(n - suffix@.len(), n as int) =~= cs@.skip(n - suffix@.len()));
        }
        starts && ends
    }
}

// ---------------------------------------------------------------------------
// The scan of the session directories

/// At most this many directory entries are looked at.
pub const MAX_DIRECTORY_ENTRIES: usize = 4096;

/// The progress of a scan of the session directories.
#[derive(Clone, Copy, Debug, PartialEq, Eq, Structural)]
pub struct SessionScan {
    /// Entries seen so far (counting stops past the limit).
    pub entries: usize,
    /// Whether a session file was accepted.
    pub found: bool,
}

impl SessionScan {
    pub fn new() -> (res: SessionScan)
        ensures
            res.entries == 0,
            !res.found,
    {
        SessionScan { entries: 0, found: false }
    }

    /// Counts one more directory entry; fails once the entries exceed the
    /// limit.
    pub fn count_entry(&mut self) -> (res: Result<(), SessionError>)
        ensures
            res is Err <==> old(self).entries >= MAX_DIRECTORY_ENTRIES,
            res matches Err(e) ==> e == SessionError::ScanLimitExceeded,
            final(self).entries == if old(self).entries > MAX_DIRECTORY_ENTRIES {
                old(self).entries
            } else {
                (old(self).entries + 1) as usize
            },
            final(self).found == old(self).found,
    {
        if self.entries > MAX_DIRECTORY_ENTRIES {
            return Err(SessionError::ScanLimitExceeded);
        }
        self.entries = self.entries + 1;
        if self.entries > MAX_DIRECTORY_ENTRIES {
            Err(SessionError::ScanLimitExceeded)
        } else {
            Ok(())
        }
    }

    /// Accepts a file whose name matched the session: it must be a regular
    /// file, and the first one.
    pub fn accept_file(&mut self, is_regular_file: bool) -> (res: Result<(), SessionError>)
        ensures
            !is_regular_file ==> res == Err::<(), SessionError>(SessionError::NotRegularFile),
            is_regular_file && old(self).found ==> res == Err::<(), SessionError>(SessionError::DuplicateSession),
            is_regular_file && !old(self).found ==> res is Ok,
            final(self).entries == old(self).entries,
            final(self).found == (old(self).found || is_regular_file),
    {
        if !is_regular_file {
            return Err(SessionError::NotRegularFile);
        }
        if self.found {
            return Err(SessionError::DuplicateSession);
        }
        self.found = true;
        Ok(())
    }
}

// ---------------------------------------------------------------------------
// The session header

/// Only this many bytes of a session file are read for its first record.
pub const MAX_HEADER_BYTES: usize = 65536;

/// The metadata of a session header record.
#[derive(Clone, Debug)]
pub struct SessionMetadata {
    pub id: String,
    pub cwd: String,
}

/// The first record of a session file.
#[derive(Clone, Debug)]
pub struct SessionHeader {
    pub kind: String,
    pub payload: SessionMetadata,
}

/// The first line read from a session file fits the limit: it is shorter,
/// or ends with its line break just at the limit.
pub fn check_header_line(line: &[u8]) -> (res: Result<(), SessionError>)
    ensures
        res is Err <==> line@.len() == MAX_HEADER_BYTES && line@.last() != 0x0au8,
        res matches Err(e) ==> e == SessionError::HeaderTooLarge,
{
    if line.len() == MAX_HEADER_BYTES && line[line.len() - 1] != 0x0a {
        Err(SessionError::HeaderTooLarge)
    } else {
        Ok(())
    }
}

fn str_eq(a: &str, b: &str) -> (res: bool)
    ensures
        res == (a@ == b@),
{
    let x = chars_of(a);
    let y = chars_of(b);
    if x.len() != y.len() {
        return false;
    }
    let r = chars_match_at(x.as_slice(), 0, y.as_slice());
    assert(x@.subrange(0, y@.len() as int) =~= x@);
    r
}

fn contains_nul(s: &str) -> (res: bool)
    ensures
        res == s@.contains('\0'),
{
    let cs = chars_of(s);
    let mut i: usize = 0;
    while i < cs.len()
        invariant
            cs@ == s@,
            i <= cs@.len(),
            forall|t: int| 0 <= t < i ==> #[trigger] cs@[t] != '\0',
        decreases cs@.len() - i,
    {
        if cs[i] == '\0' {
            assert(cs@[i as int] == '\0');
            return true;
        }
        i = i + 1;
    }
    false
}

/// The working directory that a session header declares: the record must
/// be a `session_meta` record of the session `expected_id` (in any ASCII
/// case), and the directory absolute and free of NUL.
pub open spec fn session_header_cwd_spec(kind: Seq<char>, id: Seq<char>, cwd: Seq<char>, expected_id: Seq<char>, cwd_is_absolute: bool) -> Result<Seq<char>, SessionError> {
    if kind != "session_meta"@ || !eq_ignore_ascii_case(vstd::utf8::encode_utf8(id), vstd::utf8::encode_utf8(expected_id)) {
        Err(SessionError::HeaderMismatch)
    } else if !cwd_is_absolute || cwd.contains('\0') {
        Err(SessionError::RelativeWorkingDirectory)
    } else {
        Ok(cwd)
    }
}

/// The working directory of `header`, given whether it is an absolute path
/// on this platform (see `session_header_cwd_spec`).
pub fn check_session_header(header: &SessionHeader, expected_id: &str, cwd_is_absolute: bool) -> (res: Result<String, SessionError>)
    ensures
        res is Ok <==> session_header_cwd_spec(header.kind@, header.payload.id@, header.payload.cwd@, expected_id@, cwd_is_absolute) is Ok,
        res matches Ok(cwd) ==> session_header_cwd_spec(header.kind@, header.payload.id@, header.payload.cwd@, expected_id@, cwd_is_absolute)
            == Ok::<Seq<char>, SessionError>(cwd@),
        res matches Err(e) ==> session_header_cwd_spec(header.kind@, header.payload.id@, header.payload.cwd@, expected_id@, cwd_is_absolute)
            == Err::<Seq<char>, SessionError>(e),
{
    if !str_eq(header.kind.as_str(), "session_meta")
        || !eq_ignore_ascii_case_exec(header.payload.id.as_str().as_bytes(), expected_id.as_bytes()) {
        return Err(SessionError::HeaderMismatch);
    }
    if !cwd_is_absolute || contains_nul(header.payload.cwd.as_str()) {
        return Err(SessionError::RelativeWorkingDirectory);
    }
    Ok(header.payload.cwd.clone())
}

/// What every platform's absolute path has: it is not empty, and it starts
/// with `/` or `\` or holds a `:` (a drive prefix or a scheme).
pub open spec fn may_be_absolute(path: Seq<char>) -> bool {
    path.len() > 0 && (path[0] == '/' || path[0] == '\\' || path.contains(':'))
}

/// `std::path::Path::is_absolute`: whether the path does not depend on the
/// current directory. What counts as absolute depends on the platform, so
/// only what holds on all of them is stated: on Unix and WASI an absolute
/// path starts with `/`; on Windows it starts with `\` or `/` or has a drive
/// prefix, which holds `:`; on Redox its scheme holds `:`.
#[verifier::external_body]
fn path_is_absolute(path: &str) -> (res: bool)
    ensures
        res ==> may_be_absolute(path@),
{
    std::path::Path::new(path).is_absolute()
}

/// The working directory of `header` (see `check_session_header`), judged
/// absolute by this platform's rules.
pub fn session_header_cwd(header: &SessionHeader, expected_id: &str) -> (res: Result<String, SessionError>)
    ensures
        exists|absolute: bool| {
            &&& (res is Ok <==> session_header_cwd_spec(header.kind@, header.payload.id@, header.payload.cwd@, expected_id@, absolute) is Ok)
            &&& (res matches Ok(cwd) ==> session_header_cwd_spec(header.kind@, header.payload.id@, header.payload.cwd@, expected_id@, absolute)
                == Ok::<Seq<char>, SessionError>(cwd@))
            &&& (res matches Err(e) ==> session_header_cwd_spec(header.kind@, header.payload.id@, header.payload.cwd@, expected_id@, absolute)
                == Err::<Seq<char>, SessionError>(e))
        },
        !may_be_absolute(header.payload.cwd@) ==> (res matches Err(e) && session_header_cwd_spec(
            header.kind@, header.payload.id@, header.payload.cwd@, expected_id@, false)
            == Err::<Seq<char>, SessionError>(e)),
{
    let absolute = path_is_absolute(header.payload.cwd.as_str());
    check_session_header(header, expected_id, absolute)
}

// ---------------------------------------------------------------------------
// Which sessions are resolved

/// How an agent session is referred to.
#[derive(Clone, Copy, Debug, PartialEq, Eq, Structural)]
pub enum AgentSessionRefKind {
    Id,
    Path,
}

/// A reference to an agent's session.
#[derive(Clone, Debug)]
pub struct AgentSessionInfo {
    pub source: String,
    pub agent: String,
    pub kind: AgentSessionRefKind,
    pub value: String,
}

/// The session id to resolve: only Codex sessions referred to by id are
/// resolved, never the newest session of a project.
pub fn codex_session_id(session: &AgentSessionInfo) -> (res: Option<&str>)
    ensures
        res is Some <==> session.agent@ == "codex"@ && session.kind == AgentSessionRefKind::Id,
        res matches Some(id) ==> id@ == session.value@,
{
    if str_eq(session.agent.as_str(), "codex") && session.kind == AgentSessionRefKind::Id {
        Some(session.value.as_str())
    } else {
        None
    }
}

} // verus!
