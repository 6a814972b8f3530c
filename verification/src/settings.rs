//! The server's settings, read from the optional texts of its environment
//! variables: `HALT_CIRCUIT_THRESHOLD` (default 5), `HALT_CIRCUIT_WINDOW_SECONDS`
//! (default 30), `HALT_QUEUE_CAPACITY` (default 1000) and `HALT_DATABASE_PATH`
//! (default: an in-memory database).
//!
//! A number is written in decimal as Rust's integer parsing reads it: an
//! optional `+` (or `-`, for the window), then one or more ASCII digits, and
//! it must fit in the setting's type.

use vstd::prelude::*;
use crate::messages::{decimal_digits, digit_char};

verus! {

/// Threshold of the circuit breaker when none is configured.
pub const DEFAULT_CIRCUIT_THRESHOLD: usize = 5;

/// Window of the circuit breaker, in seconds, when none is configured.
pub const DEFAULT_CIRCUIT_WINDOW_SECONDS: i64 = 30;

/// Capacity of the task queue when none is configured.
pub const DEFAULT_QUEUE_CAPACITY: usize = 1000;

/// The settings of a server.
pub struct Settings {
    pub circuit_threshold: usize,
    pub circuit_window_seconds: i64,
    pub queue_capacity: usize,
    /// The database file; `None` keeps the database in memory.
    pub database_path: Option<String>,
}

/// The setting whose text could not be read as a number of its type.
#[derive(Debug, Clone, Copy, PartialEq, Eq, Structural)]
pub enum InvalidSetting {
    CircuitThreshold,
    CircuitWindowSeconds,
    QueueCapacity,
}

impl InvalidSetting {
    /// The environment variable that holds the setting.
    pub fn variable(&self) -> (name: &'static str)
        ensures
            name@ == variable_name(*self),
            *self == InvalidSetting::CircuitThreshold ==> name@ == "HALT_CIRCUIT_THRESHOLD"@,
            *self == InvalidSetting::CircuitWindowSeconds ==> name@ == "HALT_CIRCUIT_WINDOW_SECONDS"@,
            *self == InvalidSetting::QueueCapacity ==> name@ == "HALT_QUEUE_CAPACITY"@,
    {
        match self {
            InvalidSetting::CircuitThreshold => "HALT_CIRCUIT_THRESHOLD",
            InvalidSetting::CircuitWindowSeconds => "HALT_CIRCUIT_WINDOW_SECONDS",
            InvalidSetting::QueueCapacity => "HALT_QUEUE_CAPACITY",
        }
    }
}

/// The name of the environment variable of a setting.
pub open spec fn variable_name(e: InvalidSetting) -> Seq<char> {
    match e {
        InvalidSetting::CircuitThreshold => "HALT_CIRCUIT_THRESHOLD"@,
        InvalidSetting::CircuitWindowSeconds => "HALT_CIRCUIT_WINDOW_SECONDS"@,
        InvalidSetting::QueueCapacity => "HALT_QUEUE_CAPACITY"@,
    }
}

pub open spec fn is_digit(c: char) -> bool {
    '0' <= c && c <= '9'
}

/// One or more ASCII digits.
pub open spec fn is_numeral(s: Seq<char>) -> bool {
    s.len() > 0 && forall|i: int| 0 <= i < s.len() ==> is_digit(#[trigger] s[i])
}

/// The number that a string of digits denotes in decimal.
pub open spec fn digits_value(s: Seq<char>) -> int
    decreases s.len(),
{
    if s.len() == 0 {
        0
    } else {
        10 * digits_value(s.drop_last()) + (s.last() as int - '0' as int)
    }
}

/// The number that a text denotes as an unsigned decimal, if it is one.
pub open spec fn unsigned_value(s: Seq<char>) -> Option<int> {
    let body = if s.len() > 0 && s[0] == '+' { s.drop_first() } else { s };
    if is_numeral(body) {
        Some(digits_value(body))
    } else {
        None
    }
}

/// The number that a text denotes as a signed decimal, if it is one.
pub open spec fn signed_value(s: Seq<char>) -> Option<int> {
    if s.len() > 0 && s[0] == '-' {
        if is_numeral(s.drop_first()) {
            Some(-digits_value(s.drop_first()))
        } else {
            None
        }
    } else {
        unsigned_value(s)
    }
}

/// The value of a setting: its default where no text is given, else the
/// number that the text denotes where it lies in `lo..=hi`, else nothing.
pub open spec fn setting_value(text: Option<Seq<char>>, default: int, lo: int, hi: int, signed: bool) -> Option<int> {
    match text {
        None => Some(default),
        Some(t) => {
            let v = if signed { signed_value(t) } else { unsigned_value(t) };
            match v {
                Some(n) => if lo <= n && n <= hi { Some(n) } else { None },
                None => None,
            }
        },
    }
}

pub open spec fn text_of(o: Option<String>) -> Option<Seq<char>> {
    match o {
        Some(s) => Some(s@),
        None => None,
    }
}

pub open spec fn threshold_setting(text: Option<Seq<char>>) -> Option<int> {
    setting_value(text, DEFAULT_CIRCUIT_THRESHOLD as int, 0, usize::MAX as int, false)
}

pub open spec fn window_setting(text: Option<Seq<char>>) -> Option<int> {
    setting_value(text, DEFAULT_CIRCUIT_WINDOW_SECONDS as int, i64::MIN as int, i64::MAX as int, true)
}

pub open spec fn capacity_setting(text: Option<Seq<char>>) -> Option<int> {
    setting_value(text, DEFAULT_QUEUE_CAPACITY as int, 0, usize::MAX as int, false)
}

/// The decimal digits of a number, as the replies print it, are a string
/// of digits that denotes it.
pub proof fn lemma_decimal_digits_denotes(n: nat)
    ensures
        is_numeral(decimal_digits(n)),
        digits_value(decimal_digits(n)) == n,
    decreases n,
{
    if n >= 10 {
        lemma_decimal_digits_denotes(n / 10);
        let t = decimal_digits(n / 10);
        assert(decimal_digits(n).drop_last() =~= t);
        assert(digit_char((n % 10) as nat) as int == 48 + n % 10);
        assert('0' as int == 48);
        assert(decimal_digits(n).last() == digit_char((n % 10) as nat));
        assert(digits_value(decimal_digits(n)) == 10 * digits_value(t) + n % 10);
        assert(10 * (n / 10) + n % 10 == n);
        assert forall|i: int| 0 <= i < decimal_digits(n).len() implies is_digit(#[trigger] decimal_digits(n)[i]) by {
            if i < t.len() {
                assert(decimal_digits(n)[i] == t[i]);
            }
        }
    } else {
        assert(decimal_digits(n).drop_last() =~= Seq::<char>::empty());
        assert(digit_char(n) as int == 48 + n);
        assert('0' as int == 48);
        assert(digits_value(Seq::<char>::empty()) == 0);
        assert(digits_value(decimal_digits(n)) == n);
    }
}

/// Every number is read back from its decimal text, with or without a `+`,
/// and its negation from the text with a `-`; where it fits the setting's
/// type, that number is the setting: zero and the largest value included.
pub proof fn lemma_settings_read_every_number(n: nat)
    ensures
        unsigned_value(decimal_digits(n)) == Some(n as int),
        unsigned_value(seq!['+'] + decimal_digits(n)) == Some(n as int),
        signed_value(decimal_digits(n)) == Some(n as int),
        signed_value(seq!['-'] + decimal_digits(n)) == Some(-(n as int)),
        n <= usize::MAX ==> capacity_setting(Some(decimal_digits(n))) == Some(n as int)
            && threshold_setting(Some(decimal_digits(n))) == Some(n as int),
        n > usize::MAX ==> capacity_setting(Some(decimal_digits(n))) is None
            && threshold_setting(Some(decimal_digits(n))) is None,
        n <= i64::MAX ==> window_setting(Some(decimal_digits(n))) == Some(n as int),
        n <= i64::MAX + 1 ==> window_setting(Some(seq!['-'] + decimal_digits(n))) == Some(-(n as int)),
        n > i64::MAX ==> window_setting(Some(decimal_digits(n))) is None,
{
    lemma_decimal_digits_denotes(n);
    let t = decimal_digits(n);
    assert((seq!['+'] + t).drop_first() =~= t);
    assert((seq!['-'] + t).drop_first() =~= t);
    assert(t[0] != '+' && t[0] != '-') by {
        assert(is_digit(t[0]));
    }
}

/// Only numbers are read: an empty text, a lone sign, or a text with any
/// character other than an ASCII digit (past one leading sign) is refused,
/// and a `-` only for the window, whose setting is signed.
pub proof fn lemma_settings_refuse_non_numbers(t: Seq<char>, i: int)
    ensures
        t.len() == 0 ==> unsigned_value(t) is None && signed_value(t) is None,
        t.len() == 1 && (t[0] == '+' || t[0] == '-') ==> unsigned_value(t) is None && signed_value(t) is None,
        t.len() > 0 && t[0] == '-' ==> unsigned_value(t) is None && capacity_setting(Some(t)) is None
            && threshold_setting(Some(t)) is None,
        0 <= i < t.len() && !('0' <= t[i] && t[i] <= '9') && (i > 0 || t[0] != '+') ==> unsigned_value(t) is None
            && capacity_setting(Some(t)) is None && threshold_setting(Some(t)) is None,
        0 <= i < t.len() && !('0' <= t[i] && t[i] <= '9') && (i > 0 || (t[0] != '+' && t[0] != '-'))
            ==> signed_value(t) is None && window_setting(Some(t)) is None,
{
    if t.len() > 0 {
        if t[0] == '+' || t[0] == '-' {
            let b = t.drop_first();
            if 0 < i < t.len() {
                assert(b[i - 1] == t[i]);
            }
        }
        if t[0] == '-' {
            assert(!is_digit(t[0]));
        }
    }
}

/// Absent settings take their defaults: a threshold of 5, a window of 30
/// seconds and a capacity of 1000.
pub proof fn lemma_settings_defaults()
    ensures
        threshold_setting(None) == Some(5int),
        window_setting(None) == Some(30int),
        capacity_setting(None) == Some(1000int),
{
}

/// A prefix of a string of digits denotes no more than the whole.
proof fn lemma_digits_prefix(s: Seq<char>, k: int)
    requires
        0 <= k <= s.len(),
        forall|i: int| 0 <= i < s.len() ==> is_digit(#[trigger] s[i]),
    ensures
        0 <= digits_value(s.take(k)) <= digits_value(s),
    decreases s.len(),
{
    if k == s.len() {
        assert(s.take(k) =~= s);
        lemma_digits_nonnegative(s);
    } else {
        let t = s.drop_last();
        assert(t.take(k) =~= s.take(k));
        assert forall|i: int| 0 <= i < t.len() implies is_digit(#[trigger] t[i]) by {
            assert(t[i] == s[i]);
        }
        lemma_digits_prefix(t, k);
        assert(is_digit(s[s.len() - 1]));
    }
}

proof fn lemma_digits_nonnegative(s: Seq<char>)
    requires
        forall|i: int| 0 <= i < s.len() ==> is_digit(#[trigger] s[i]),
    ensures
        digits_value(s) >= 0,
    decreases s.len(),
{
    if s.len() > 0 {
        let t = s.drop_last();
        assert forall|i: int| 0 <= i < t.len() implies is_digit(#[trigger] t[i]) by {
            assert(t[i] == s[i]);
        }
        lemma_digits_nonnegative(t);
        assert(is_digit(s[s.len() - 1]));
    }
}

/// Reads the characters of `text` from `start` on as a string of digits
/// whose value is at most `limit`.
fn parse_digits(text: &str, start: usize, limit: u128) -> (r: Option<u128>)
    requires
        start <= text@.len(),
        limit <= 0x1_0000_0000_0000_0000,
    ensures
        match r {
            Some(v) => is_numeral(text@.skip(start as int)) && v == digits_value(text@.skip(start as int))
                && v <= limit,
            None => !(is_numeral(text@.skip(start as int)) && digits_value(text@.skip(start as int))
                <= limit),
        },
{
    let len = text.unicode_len();
    let ghost rest = text@.skip(start as int);
    if start == len {
        return None;
    }
    let mut i: usize = start;
    let mut v: u128 = 0;
    assert(text@.subrange(start as int, start as int) =~= Seq::<char>::empty());
    while i < len
        invariant
            start <= i <= len,
            len == text@.len(),
            rest == text@.skip(start as int),
            limit <= 0x1_0000_0000_0000_0000,
            v == digits_value(text@.subrange(start as int, i as int)),
            v <= limit,
            forall|j: int| start <= j < i ==> is_digit(#[trigger] text@[j]),
        decreases len - i,
    {
        let c = text.get_char(i);
        if !('0' <= c && c <= '9') {
            assert(rest[i - start] == c);
            return None;
        }
        let d: u32 = (c as u32) - ('0' as u32);
        let ghost before = text@.subrange(start as int, i as int);
        let ghost after = text@.subrange(start as int, i + 1);
        assert(after.drop_last() =~= before);
        assert(after.last() == c);
        v = v * 10 + (d as u128);
        assert(v == digits_value(after));
        if v > limit {
            proof {
                if is_numeral(rest) {
                    assert(rest.take(i + 1 - start) =~= after);
                    lemma_digits_prefix(rest, i + 1 - start);
                }
            }
            return None;
        }
        i = i + 1;
    }
    assert(text@.subrange(start as int, len as int) =~= rest);
    assert forall|j: int| 0 <= j < rest.len() implies is_digit(#[trigger] rest[j]) by {
        assert(rest[j] == text@[start + j]);
    }
    Some(v)
}

/// Reads `text` as an unsigned decimal of at most `limit`.
fn parse_unsigned(text: &str, limit: u128) -> (r: Option<u128>)
    requires
        limit <= 0x1_0000_0000_0000_0000,
    ensures
        match r {
            Some(v) => unsigned_value(text@) == Some(v as int) && v <= limit,
            None => !(unsigned_value(text@) is Some && unsigned_value(text@)->0 <= limit),
        },
{
    let len = text.unicode_len();
    if len > 0 && text.get_char(0) == '+' {
        assert(text@.skip(1) =~= text@.drop_first());
        parse_digits(text, 1, limit)
    } else {
        assert(text@.skip(0) =~= text@);
        parse_digits(text, 0, limit)
    }
}

/// Reads `text` as a signed decimal that fits in `i64`.
fn parse_signed(text: &str) -> (r: Option<i64>)
    ensures
        match r {
            Some(v) => signed_value(text@) == Some(v as int),
            None => !(signed_value(text@) is Some && i64::MIN <= signed_value(text@)->0 <= i64::MAX),
        },
{
    let len = text.unicode_len();
    if len > 0 && text.get_char(0) == '-' {
        assert(text@.skip(1) =~= text@.drop_first());
        match parse_digits(text, 1, 0x8000_0000_0000_0000) {
            Some(m) => {
                if m == 0x8000_0000_0000_0000 {
                    Some(i64::MIN)
                } else {
                    let n: i64 = m as i64;
                    Some(-n)
                }
            },
            None => None,
        }
    } else {
        match parse_unsigned(text, 0x7fff_ffff_ffff_ffff) {
            Some(m) => Some(m as i64),
            None => None,
        }
    }
}

/// The settings that the texts of the environment variables give, each absent
/// one taking its default.
///
/// Fails with the first of threshold, window and capacity (in that order)
/// whose text is not a decimal number of its type; the database path is taken
/// as it is.
pub fn settings_from(
    circuit_threshold: Option<String>,
    circuit_window_seconds: Option<String>,
    queue_capacity: Option<String>,
    database_path: Option<String>,
) -> (r: Result<Settings, InvalidSetting>)
    ensures
        (r is Ok) == (threshold_setting(text_of(circuit_threshold)) is Some
            && window_setting(text_of(circuit_window_seconds)) is Some
            && capacity_setting(text_of(queue_capacity)) is Some),
        r matches Ok(s) ==> {
            &&& threshold_setting(text_of(circuit_threshold)) == Some(s.circuit_threshold as int)
            &&& window_setting(text_of(circuit_window_seconds)) == Some(s.circuit_window_seconds as int)
            &&& capacity_setting(text_of(queue_capacity)) == Some(s.queue_capacity as int)
            &&& s.database_path == database_path
        },
        r matches Err(e) ==> e == (if threshold_setting(text_of(circuit_threshold)) is None {
            InvalidSetting::CircuitThreshold
        } else if window_setting(text_of(circuit_window_seconds)) is None {
            InvalidSetting::CircuitWindowSeconds
        } else {
            InvalidSetting::QueueCapacity
        }),
{
    let threshold = match &circuit_threshold {
        None => DEFAULT_CIRCUIT_THRESHOLD,
        Some(t) => match parse_unsigned(t.as_str(), usize::MAX as u128) {
            Some(v) => v as usize,
            None => return Err(InvalidSetting::CircuitThreshold),
        },
    };
    let window = match &circuit_window_seconds {
        None => DEFAULT_CIRCUIT_WINDOW_SECONDS,
        Some(t) => match parse_signed(t.as_str()) {
            Some(v) => v,
            None => return Err(InvalidSetting::CircuitWindowSeconds),
        },
    };
    let capacity = match &queue_capacity {
        None => DEFAULT_QUEUE_CAPACITY,
        Some(t) => match parse_unsigned(t.as_str(), usize::MAX as u128) {
            Some(v) => v as usize,
            None => return Err(InvalidSetting::QueueCapacity),
        },
    };
    Ok(Settings {
        circuit_threshold: threshold,
        circuit_window_seconds: window,
        queue_capacity: capacity,
        database_path,
    })
}

} // verus!
