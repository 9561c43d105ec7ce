//! Presentation helpers for session rows: status tags, notification-message
//! simplification, text truncation and relative-time labels.

use vstd::prelude::*;

use crate::text::{contains_seq, find_sub, first_match, str_eq};

verus! {

/// The closed set of session states. Unrecognized status strings degrade to
/// `Unknown` instead of being rejected.
#[derive(Clone, Copy, PartialEq, Eq, Structural, Debug)]
pub enum Status {
    Active,
    Waiting,
    Stopped,
    Unknown,
}

/// The status tag that a raw status string denotes.
pub open spec fn spec_status(s: Seq<char>) -> Status {
    if s == "active"@ {
        Status::Active
    } else if s == "waiting"@ {
        Status::Waiting
    } else if s == "stopped"@ {
        Status::Stopped
    } else {
        Status::Unknown
    }
}

/// Classify a raw status string into the closed `Status` set.
pub fn parse_status(status: &str) -> (r: Status)
    ensures
        r == spec_status(status@),
{
    if str_eq(status, "active") {
        Status::Active
    } else if str_eq(status, "waiting") {
        Status::Waiting
    } else if str_eq(status, "stopped") {
        Status::Stopped
    } else {
        Status::Unknown
    }
}

pub open spec fn spec_status_icon(st: Status) -> Seq<char> {
    match st {
        Status::Active => "🟢"@,
        Status::Waiting => "🟡"@,
        Status::Stopped => "⚪"@,
        Status::Unknown => "❓"@,
    }
}

/// The icon shown for a raw status string.
pub fn get_status_icon(status: &str) -> (r: &str)
    ensures
        r@ == spec_status_icon(spec_status(status@)),
{
    match parse_status(status) {
        Status::Active => "🟢",
        Status::Waiting => "🟡",
        Status::Stopped => "⚪",
        Status::Unknown => "❓",
    }
}

pub open spec fn spec_status_label(st: Status) -> Seq<char> {
    match st {
        Status::Active => "実行中"@,
        Status::Waiting => "承認待ち"@,
        Status::Stopped => "完了"@,
        Status::Unknown => "不明"@,
    }
}

/// The textual label shown for a raw status string.
pub fn get_status_label(status: &str) -> (r: &str)
    ensures
        r@ == spec_status_label(spec_status(status@)),
{
    match parse_status(status) {
        Status::Active => "実行中",
        Status::Waiting => "承認待ち",
        Status::Stopped => "完了",
        Status::Unknown => "不明",
    }
}

/// `t` unchanged when it has at most `max` characters; otherwise its first
/// `max - 3` characters (saturating at zero) followed by an ellipsis.
pub open spec fn spec_truncate(t: Seq<char>, max: int) -> Seq<char> {
    if t.len() <= max {
        t
    } else {
        let keep = if max >= 3 {
            max - 3
        } else {
            0
        };
        t.subrange(0, keep) + "..."@
    }
}

/// Cap a text at `max_chars` characters, marking any cut with an ellipsis.
pub fn truncate_text(text: &str, max_chars: usize) -> (r: String)
    ensures
        r@ == spec_truncate(text@, max_chars as int),
{
    let n = text.unicode_len();
    if n <= max_chars {
        text.to_owned()
    } else {
        let keep: usize = if max_chars >= 3 {
            max_chars - 3
        } else {
            0
        };
        let head = text.substring_char(0, keep);
        let mut out = head.to_owned();
        out.append("...");
        out
    }
}

/// What a notification message is condensed to: a waiting-for-permission
/// message becomes the tool name (the text between the first `"use "` and
/// the next one, if any) followed by the permission suffix; a plan-approval
/// message becomes the fixed approval label; anything else is truncated to
/// 40 characters.
pub open spec fn spec_simplify(m: Seq<char>) -> Seq<char> {
    if contains_seq(m, "permission to use"@) {
        if contains_seq(m, "use "@) {
            let rest = m.subrange(first_match(m, "use "@) + "use "@.len(), m.len() as int);
            let tool = if contains_seq(rest, "use "@) {
                rest.subrange(0, first_match(rest, "use "@))
            } else {
                rest
            };
            tool + "許可待ち"@
        } else {
            spec_truncate(m, 40)
        }
    } else if contains_seq(m, "approval for the plan"@) {
        "プラン承認待ち"@
    } else {
        spec_truncate(m, 40)
    }
}

/// Condense a notification message for display.
pub fn simplify_notification_message(msg: &str) -> (r: String)
    ensures
        r@ == spec_simplify(msg@),
{
    proof {
        reveal_strlit("use ");
    }
    if find_sub(msg, "permission to use").is_some() {
        match find_sub(msg, "use ") {
            Some(i) => {
                let n = msg.unicode_len();
                let rest = msg.substring_char(i + 4, n);
                let tool_end = match find_sub(rest, "use ") {
                    Some(j) => j,
                    None => rest.unicode_len(),
                };
                let tool = rest.substring_char(0, tool_end);
                let mut out = tool.to_owned();
                out.append("許可待ち");
                proof {
                    assert(rest@.subrange(0, rest@.len() as int) =~= rest@);
                }
                out
            },
            None => truncate_text(msg, 40),
        }
    } else if find_sub(msg, "approval for the plan").is_some() {
        "プラン承認待ち".to_owned()
    } else {
        truncate_text(msg, 40)
    }
}

/// The character of a single decimal digit.
pub open spec fn spec_digit(d: int) -> char {
    if d == 0 {
        '0'
    } else if d == 1 {
        '1'
    } else if d == 2 {
        '2'
    } else if d == 3 {
        '3'
    } else if d == 4 {
        '4'
    } else if d == 5 {
        '5'
    } else if d == 6 {
        '6'
    } else if d == 7 {
        '7'
    } else if d == 8 {
        '8'
    } else {
        '9'
    }
}

/// The decimal notation of a nonnegative integer.
pub open spec fn spec_decimal(n: int) -> Seq<char>
    decreases n,
{
    if n < 10 {
        seq![spec_digit(n)]
    } else {
        spec_decimal(n / 10).push(spec_digit(n % 10))
    }
}

fn digit_str(d: u64) -> (r: &'static str)
    requires
        d < 10,
    ensures
        r@ == seq![spec_digit(d as int)],
{
    proof {
        reveal_strlit("0");
        reveal_strlit("1");
        reveal_strlit("2");
        reveal_strlit("3");
        reveal_strlit("4");
        reveal_strlit("5");
        reveal_strlit("6");
        reveal_strlit("7");
        reveal_strlit("8");
        reveal_strlit("9");
        assert("0"@ =~= seq!['0']);
        assert("1"@ =~= seq!['1']);
        assert("2"@ =~= seq!['2']);
        assert("3"@ =~= seq!['3']);
        assert("4"@ =~= seq!['4']);
        assert("5"@ =~= seq!['5']);
        assert("6"@ =~= seq!['6']);
        assert("7"@ =~= seq!['7']);
        assert("8"@ =~= seq!['8']);
        assert("9"@ =~= seq!['9']);
    }
    match d {
        0 => "0",
        1 => "1",
        2 => "2",
        3 => "3",
        4 => "4",
        5 => "5",
        6 => "6",
        7 => "7",
        8 => "8",
        _ => "9",
    }
}

/// Render a nonnegative integer in decimal notation.
fn u64_to_decimal(n: u64) -> (s: String)
    ensures
        s@ == spec_decimal(n as int),
    decreases n,
{
    if n < 10 {
        digit_str(n).to_owned()
    } else {
        let mut s = u64_to_decimal(n / 10);
        s.append(digit_str(n % 10));
        proof {
            assert(spec_decimal(n as int / 10).push(spec_digit(n as int % 10)) =~= spec_decimal(
                n as int / 10,
            ) + seq![spec_digit(n as int % 10)]);
        }
        s
    }
}

/// The relative-time label for an instant parsed from a timestamp (`None`
/// when the timestamp could not be parsed), judged against the current time:
/// "just now" under a minute, then minutes, hours and days ago.
pub open spec fn spec_relative_label(parsed: Option<i64>, now_epoch: i64) -> Seq<char> {
    match parsed {
        None => "不明"@,
        Some(ts) => {
            let diff = now_epoch as int - ts as int;
            if diff < 60 {
                "たった今"@
            } else if diff < 3600 {
                spec_decimal(diff / 60) + "分前"@
            } else if diff < 86400 {
                spec_decimal(diff / 3600) + "時間前"@
            } else {
                spec_decimal(diff / 86400) + "日前"@
            }
        },
    }
}

/// The relative-time label for an already-parsed instant.
pub fn relative_time_label(parsed: Option<i64>, now_epoch: i64) -> (r: String)
    ensures
        r@ == spec_relative_label(parsed, now_epoch),
{
    match parsed {
        None => "不明".to_owned(),
        Some(ts) => {
            let diff: i128 = now_epoch as i128 - ts as i128;
            if diff < 60 {
                "たった今".to_owned()
            } else if diff < 3600 {
                let mut s = u64_to_decimal((diff / 60) as u64);
                s.append("分前");
                s
            } else if diff < 86400 {
                let mut s = u64_to_decimal((diff / 3600) as u64);
                s.append("時間前");
                s
            } else {
                let mut s = u64_to_decimal((diff / 86400) as u64);
                s.append("日前");
                s
            }
        },
    }
}

/// The instant, in seconds since the Unix epoch, that an RFC 3339 timestamp
/// denotes, or `None` for text that is not such a timestamp. This names the
/// outcome of chrono's parser, which depends on the input text alone.
pub uninterp spec fn rfc3339_epoch(s: Seq<char>) -> Option<i64>;

/// Relies on chrono's `DateTime::parse_from_rfc3339`, with `timestamp` to
/// read the parsed instant as Unix seconds: parsing succeeds or fails, and
/// the instant is determined, by the input text alone.
#[verifier::external_body]
fn parse_rfc3339_epoch(s: &str) -> (r: Option<i64>)
    ensures
        r == rfc3339_epoch(s@),
{
    match chrono::DateTime::parse_from_rfc3339(s) {
        Ok(dt) => Some(dt.timestamp()),
        Err(_) => None,
    }
}

/// The relative-time label for an RFC 3339 timestamp string, judged against
/// the current time given in seconds since the Unix epoch.
pub fn format_relative_time(timestamp_str: &str, now_epoch: i64) -> (r: String)
    ensures
        r@ == spec_relative_label(rfc3339_epoch(timestamp_str@), now_epoch),
{
    let parsed = parse_rfc3339_epoch(timestamp_str);
    relative_time_label(parsed, now_epoch)
}

} // verus!
