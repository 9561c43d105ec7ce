use session_watch::display::{
    format_relative_time, get_status_icon, get_status_label, parse_status, relative_time_label,
    simplify_notification_message, truncate_text, Status,
};
use session_watch::text::{find_sub, str_eq};

#[test]
fn status_parses_into_closed_set() {
    assert_eq!(parse_status("active"), Status::Active);
    assert_eq!(parse_status("waiting"), Status::Waiting);
    assert_eq!(parse_status("stopped"), Status::Stopped);
    assert_eq!(parse_status("paused"), Status::Unknown);
    assert_eq!(parse_status(""), Status::Unknown);
}

#[test]
fn status_icons() {
    assert_eq!(get_status_icon("active"), "🟢");
    assert_eq!(get_status_icon("waiting"), "🟡");
    assert_eq!(get_status_icon("stopped"), "⚪");
    assert_eq!(get_status_icon("anything else"), "❓");
}

#[test]
fn status_labels() {
    assert_eq!(get_status_label("active"), "実行中");
    assert_eq!(get_status_label("waiting"), "承認待ち");
    assert_eq!(get_status_label("stopped"), "完了");
    assert_eq!(get_status_label("???"), "不明");
}

#[test]
fn truncate_keeps_short_text() {
    assert_eq!(truncate_text("hello", 10), "hello");
    assert_eq!(truncate_text("hello", 5), "hello");
}

#[test]
fn truncate_cuts_long_text_with_ellipsis() {
    assert_eq!(truncate_text("hello world", 8), "hello...");
    assert_eq!(truncate_text("abcdef", 3), "...");
    assert_eq!(truncate_text("abcdef", 2), "...");
}

#[test]
fn truncate_counts_characters_not_bytes() {
    assert_eq!(truncate_text("あいうえおかきくけこ", 10), "あいうえおかきくけこ");
    assert_eq!(truncate_text("あいうえおかきくけこ", 8), "あいうえお...");
}

#[test]
fn permission_message_becomes_tool_suffix() {
    assert_eq!(
        simplify_notification_message("The assistant needs your permission to use Bash"),
        "Bash許可待ち"
    );
}

#[test]
fn plan_approval_message_becomes_fixed_label() {
    assert_eq!(
        simplify_notification_message("The assistant needs your approval for the plan"),
        "プラン承認待ち"
    );
}

#[test]
fn other_messages_are_truncated() {
    assert_eq!(simplify_notification_message("a plain note"), "a plain note");
    let long = "x".repeat(60);
    let simplified = simplify_notification_message(&long);
    assert_eq!(simplified, format!("{}...", "x".repeat(37)));
}

#[test]
fn relative_labels_bucket_by_elapsed_seconds() {
    assert_eq!(relative_time_label(Some(1000), 1030), "たった今");
    assert_eq!(relative_time_label(Some(1000), 1120), "2分前");
    assert_eq!(relative_time_label(Some(1000), 1000 + 7200), "2時間前");
    assert_eq!(relative_time_label(Some(1000), 1000 + 3 * 86400), "3日前");
    assert_eq!(relative_time_label(None, 1000), "不明");
}

#[test]
fn relative_label_of_future_instant_is_just_now() {
    assert_eq!(relative_time_label(Some(5000), 1000), "たった今");
}

#[test]
fn format_relative_time_parses_rfc3339() {
    // 2020-01-01T00:00:00Z is 1577836800 seconds after the epoch.
    let now = 1577836800 + 600;
    assert_eq!(format_relative_time("2020-01-01T00:00:00Z", now), "10分前");
    assert_eq!(format_relative_time("2020-01-01T00:00:00+00:00", now), "10分前");
    assert_eq!(format_relative_time("not a timestamp", now), "不明");
}

#[test]
fn find_sub_returns_leftmost_occurrence() {
    assert_eq!(find_sub("abcabc", "bc"), Some(1));
    assert_eq!(find_sub("abcabc", "zz"), None);
    assert_eq!(find_sub("abc", ""), Some(0));
}

#[test]
fn str_eq_compares_characters() {
    assert!(str_eq("abc", "abc"));
    assert!(!str_eq("abc", "abd"));
    assert!(!str_eq("abc", "ab"));
    assert!(str_eq("", ""));
}
