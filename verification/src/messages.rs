//! The replies of the foreign-language bindings: text built from the agents'
//! names, flags and numbers.

use vstd::prelude::*;
use vstd::string::StringExecFns;
use crate::settings::{signed_value, lemma_settings_read_every_number};

verus! {

/// The decimal digit character for `d` (below ten).
pub open spec fn digit_char(d: nat) -> char {
    (48 + d) as char
}

/// The decimal digits of `n`, most significant first, without leading zeros.
pub open spec fn decimal_digits(n: nat) -> Seq<char>
    decreases n,
{
    if n < 10 {
        seq![digit_char(n)]
    } else {
        decimal_digits(n / 10).push(digit_char(n % 10))
    }
}

/// `n` in decimal, with a minus sign when it is negative.
pub open spec fn decimal(n: int) -> Seq<char> {
    if n < 0 {
        seq!['-'] + decimal_digits((-n) as nat)
    } else {
        decimal_digits(n as nat)
    }
}

/// `b` as the words `true` or `false`.
pub open spec fn bool_text(b: bool) -> Seq<char> {
    if b {
        "true"@
    } else {
        "false"@
    }
}

/// Numbers in the replies are written so that reading the text as a signed
/// decimal gives the number back.
pub proof fn lemma_decimal_reads_back(n: int)
    ensures
        signed_value(decimal(n)) == Some(n),
{
    if n < 0 {
        lemma_settings_read_every_number((-n) as nat);
    } else {
        lemma_settings_read_every_number(n as nat);
    }
}

/// Flags in the replies are the words `true` and `false`.
pub proof fn lemma_bool_text_words()
    ensures
        bool_text(true) == "true"@,
        bool_text(false) == "false"@,
{
}

/// The one-character text of the digit `d`.
fn digit_str(d: u64) -> (s: &'static str)
    requires
        d < 10,
    ensures
        s@ == seq![digit_char(d as nat)],
{
    let s = match d {
        0 => "0",
        1 => "1",
        2 => "2",
        3 => "3",
        4 => "4",
        5 => "5",
        6 => "6",
        7 => "7",
        8 => "8",
        _ => "9",
    };
    proof {
        reveal_strlit("0");
        reveal_strlit("1");
        reveal_strlit("2");
        reveal_strlit("3");
        reveal_strlit("4");
        reveal_strlit("5");
        reveal_strlit("6");
        reveal_strlit("7");
        reveal_strlit("8");
        reveal_strlit("9");
        assert(s@ =~= seq![digit_char(d as nat)]);
    }
    s
}

/// Appends the decimal digits of `n` to `s`.
fn append_digits(s: &mut String, n: u64)
    ensures
        final(s)@ == old(s)@ + decimal_digits(n as nat),
    decreases n,
{
    if n >= 10 {
        append_digits(s, n / 10);
    }
    s.append(digit_str(n % 10));
    proof {
        if n >= 10 {
            assert(old(s)@ + decimal_digits((n / 10) as nat) + seq![digit_char((n % 10) as nat)]
                =~= old(s)@ + decimal_digits(n as nat));
        } else {
            assert(old(s)@ + seq![digit_char((n % 10) as nat)] =~= old(s)@ + decimal_digits(
                n as nat,
            ));
        }
    }
}

/// Appends `n` in decimal to `s`.
fn append_decimal(s: &mut String, n: i32)
    ensures
        final(s)@ == old(s)@ + decimal(n as int),
{
    if n < 0 {
        s.append("-");
        let magnitude: u64 = (0i64 - (n as i64)) as u64;
        append_digits(s, magnitude);
        proof {
            reveal_strlit("-");
            assert(old(s)@ + "-"@ + decimal_digits(magnitude as nat) =~= old(s)@ + decimal(
                n as int,
            ));
        }
    } else {
        append_digits(s, n as u64);
    }
}

/// Appends `b` as `true` or `false` to `s`.
fn append_bool(s: &mut String, b: bool)
    ensures
        final(s)@ == old(s)@ + bool_text(b),
{
    if b {
        s.append("true");
    } else {
        s.append("false");
    }
}

/// The reply of the loop check: `Checking loop from <from> to <to>`.
pub fn halt_check_loop(from: String, to: String) -> (r: String)
    ensures
        r@ == "Checking loop from "@ + from@ + " to "@ + to@,
{
    let mut r = String::from_str("Checking loop from ");
    r.append(from.as_str());
    r.append(" to ");
    r.append(to.as_str());
    r
}

/// The reply of a breaker check: `Agent <from> -> <to>: OK`.
pub fn check_breaker_message(from: &str, to: &str) -> (r: String)
    ensures
        r@ == "Agent "@ + from@ + " -> "@ + to@ + ": OK"@,
{
    let mut r = String::from_str("Agent ");
    r.append(from);
    r.append(" -> ");
    r.append(to);
    r.append(": OK");
    r
}

/// The reply of a registered call:
/// `Registered: <from> -> <to> (terminal: <true|false>)`.
pub fn register_call_message(from: &str, to: &str, is_terminal: bool) -> (r: String)
    ensures
        r@ == "Registered: "@ + from@ + " -> "@ + to@ + " (terminal: "@ + bool_text(is_terminal)
            + ")"@,
{
    let mut r = String::from_str("Registered: ");
    r.append(from);
    r.append(" -> ");
    r.append(to);
    r.append(" (terminal: ");
    append_bool(&mut r, is_terminal);
    r.append(")");
    r
}

/// The reply of a breaker reset: `Reset breaker: <from> -> <to>`.
pub fn reset_breaker_message(from: &str, to: &str) -> (r: String)
    ensures
        r@ == "Reset breaker: "@ + from@ + " -> "@ + to@,
{
    let mut r = String::from_str("Reset breaker: ");
    r.append(from);
    r.append(" -> ");
    r.append(to);
    r
}

/// The reply of a pushed task: `Pushed task: <name> (priority: <priority>)`.
pub fn push_task_message(task_name: &str, priority: i32) -> (r: String)
    ensures
        r@ == "Pushed task: "@ + task_name@ + " (priority: "@ + decimal(priority as int) + ")"@,
{
    let mut r = String::from_str("Pushed task: ");
    r.append(task_name);
    r.append(" (priority: ");
    append_decimal(&mut r, priority);
    r.append(")");
    r
}

/// The reply of a logged interaction: `Logged: <from> -> <to> (tokens: <tokens>)`.
pub fn log_interaction_message(from: &str, to: &str, token_path: &str) -> (r: String)
    ensures
        r@ == "Logged: "@ + from@ + " -> "@ + to@ + " (tokens: "@ + token_path@ + ")"@,
{
    let mut r = String::from_str("Logged: ");
    r.append(from);
    r.append(" -> ");
    r.append(to);
    r.append(" (tokens: ");
    r.append(token_path);
    r.append(")");
    r
}

/// The reply of a breaker configuration:
/// `Configured breaker: threshold=<threshold>, window=<window>s`.
pub fn configure_breaker_message(threshold: i32, window_seconds: i32) -> (r: String)
    ensures
        r@ == "Configured breaker: threshold="@ + decimal(threshold as int) + ", window="@
            + decimal(window_seconds as int) + "s"@,
{
    let mut r = String::from_str("Configured breaker: threshold=");
    append_decimal(&mut r, threshold);
    r.append(", window=");
    append_decimal(&mut r, window_seconds);
    r.append("s");
    r
}

/// The reply of a queue configuration: `Configured queue capacity: <capacity>`.
pub fn configure_queue_capacity_message(capacity: i32) -> (r: String)
    ensures
        r@ == "Configured queue capacity: "@ + decimal(capacity as int),
{
    let mut r = String::from_str("Configured queue capacity: ");
    append_decimal(&mut r, capacity);
    r
}

} // verus!
