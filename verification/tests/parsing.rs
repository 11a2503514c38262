use vrcp_lib::events::{
    classify, decode_event, encode_event, parse_log_line, event_kind, VrcLogEvent,
};
use vrcp_lib::parser::parse_line;
use vrcp_lib::watcher::{find_latest_log, is_log_file_name, LogFileCandidate, VRChatLogWatcher};

#[test]
fn test_log_parser() {
    let mut content = String::new();
    content.push_str("2025.12.13 15:00:00 Log        -  [Player] XXXXXX Joined\n");
    content.push_str("Invalid Line Data\n");
    content.push_str("2025.12.13 15:05:00 Warning    -  [System] Low FPS\n");

    let mut watcher = VRChatLogWatcher::new();
    let entries = watcher.read_new_entries(&content);

    assert_eq!(entries.len(), 2);

    assert_eq!(entries[0].timestamp, "2025.12.13 15:00:00");
    assert_eq!(entries[0].log_type, "Log");
    assert_eq!(entries[0].content, "[Player] XXXXXX Joined");

    assert_eq!(entries[1].log_type, "Warning");
    assert_eq!(entries[1].content, "[System] Low FPS");
}

#[test]
fn parse_line_captures_all_three_groups() {
    let r = parse_line("2025.12.13 15:00:00 Log        -  [Player] XXXXXX Joined").unwrap();
    assert_eq!(r.timestamp, "2025.12.13 15:00:00");
    assert_eq!(r.log_type, "Log");
    assert_eq!(r.content, "[Player] XXXXXX Joined");
}

#[test]
fn parse_line_allows_empty_rest() {
    let r = parse_line("2025.12.13 15:00:00 Log - ").unwrap();
    assert_eq!(r.log_type, "Log");
    assert_eq!(r.content, "");
}

#[test]
fn glued_dash_splits_at_the_dash() {
    // zero whitespace before the separator is allowed
    let r = parse_line("2025.12.13 15:00:00 Log- x").unwrap();
    assert_eq!(r.timestamp, "2025.12.13 15:00:00");
    assert_eq!(r.log_type, "Log");
    assert_eq!(r.content, "x");
}

#[test]
fn tab_can_stand_inside_the_category() {
    let r = parse_line("2025.12.13 15:00:00 A\tB - x").unwrap();
    assert_eq!(r.log_type, "A\tB");
    assert_eq!(r.content, "x");
}

#[test]
fn category_is_greedy_over_a_tab_before_the_dash() {
    // the longest split that leaves a separator wins: the tab stays in the
    // category and the dash abuts it
    let r = parse_line("2025.12.13 15:00:00 Log\t- x").unwrap();
    assert_eq!(r.log_type, "Log\t");
    assert_eq!(r.content, "x");
}

#[test]
fn parse_line_rejects_malformed_lines() {
    assert!(parse_line("").is_none());
    assert!(parse_line("garbage").is_none());
    assert!(parse_line("Invalid Line Data").is_none());
    assert!(parse_line("2025.12.13 15:00:00").is_none());
    assert!(parse_line("2025.12.13 15:00:00 Log no dash here").is_none());
    assert!(parse_line("2025-12-13 15:00:00 Log        -  wrong separators").is_none());
    assert!(parse_line("2025.12.13 15:0x:00 Log        -  bad digit").is_none());
    assert!(parse_line("2025.12.13 15:00:00  -  category missing").is_none());
}

#[test]
fn classify_recognizes_join_and_leave() {
    let j = classify("[Player] Alice Joined");
    assert_eq!(j, VrcLogEvent::PlayerJoined { name: "Alice".to_string() });
    let l = classify("[Player] Bob Left");
    assert_eq!(l, VrcLogEvent::PlayerLeft { name: "Bob".to_string() });
}

#[test]
fn classify_falls_back_to_message() {
    let m = classify("[System] Low FPS");
    assert_eq!(m, VrcLogEvent::Message { text: "[System] Low FPS".to_string() });
    let short = classify("Joined");
    assert_eq!(short, VrcLogEvent::Message { text: "Joined".to_string() });
}

#[test]
fn parse_log_line_combines_parse_and_classify() {
    let p = parse_log_line("2025.12.13 15:00:00 Log        -  [Player] A Joined").unwrap();
    assert_eq!(p.timestamp, "2025.12.13 15:00:00");
    assert_eq!(p.event, VrcLogEvent::PlayerJoined { name: "A".to_string() });
    assert!(parse_log_line("garbage").is_none());
}

#[test]
fn event_kind_names_the_variant() {
    assert_eq!(event_kind(&VrcLogEvent::PlayerJoined { name: "A".to_string() }), "PlayerJoined");
    assert_eq!(event_kind(&VrcLogEvent::PlayerLeft { name: "A".to_string() }), "PlayerLeft");
    assert_eq!(event_kind(&VrcLogEvent::Message { text: "hi".to_string() }), "Message");
}

#[test]
fn codec_round_trips_every_variant() {
    let cases = vec![
        VrcLogEvent::PlayerJoined { name: "Alice".to_string() },
        VrcLogEvent::PlayerLeft { name: "Bob".to_string() },
        VrcLogEvent::Message { text: "[System] Low FPS".to_string() },
        VrcLogEvent::Message { text: "".to_string() },
    ];
    for e in cases {
        let encoded = encode_event(&e);
        let decoded = decode_event(&encoded).unwrap();
        assert_eq!(decoded, e);
    }
}

#[test]
fn decode_rejects_unknown_payloads() {
    assert!(decode_event("").is_none());
    assert!(decode_event("Xnope").is_none());
}

#[test]
fn second_poll_returns_nothing_new() {
    let content = "2025.12.13 15:00:00 Log - one\n2025.12.13 15:01:00 Log - two\n";
    let mut watcher = VRChatLogWatcher::new();
    let first = watcher.read_new_entries(content);
    assert_eq!(first.len(), 2);
    assert_eq!(first[0].content, "one");
    assert_eq!(first[1].content, "two");
    let second = watcher.read_new_entries(content);
    assert_eq!(second.len(), 0);
}

#[test]
fn appended_lines_come_on_the_next_poll() {
    let mut watcher = VRChatLogWatcher::new();
    let first = watcher.read_new_entries("2025.12.13 15:00:00 Log - one\n");
    assert_eq!(first.len(), 1);
    let grown = "2025.12.13 15:00:00 Log - one\n2025.12.13 15:01:00 Log - two\n";
    let second = watcher.read_new_entries(grown);
    assert_eq!(second.len(), 1);
    assert_eq!(second[0].content, "two");
}

#[test]
fn truncated_file_is_reread_from_the_start() {
    let mut watcher = VRChatLogWatcher::new();
    let long = "2025.12.13 15:00:00 Log - one\n2025.12.13 15:01:00 Log - two\n";
    assert_eq!(watcher.read_new_entries(long).len(), 2);
    let replaced = "2025.12.13 16:00:00 Log - fresh\n";
    let after = watcher.read_new_entries(replaced);
    assert_eq!(after.len(), 1);
    assert_eq!(after[0].content, "fresh");
}

#[test]
fn partial_final_line_is_deferred() {
    let mut watcher = VRChatLogWatcher::new();
    let partial = "2025.12.13 15:00:00 Log - one\n2025.12.13 15:01:00 Log - tw";
    let first = watcher.read_new_entries(partial);
    assert_eq!(first.len(), 1);
    assert_eq!(first[0].content, "one");
    let completed = "2025.12.13 15:00:00 Log - one\n2025.12.13 15:01:00 Log - two\n";
    let second = watcher.read_new_entries(completed);
    assert_eq!(second.len(), 1);
    assert_eq!(second[0].content, "two");
}

#[test]
fn carriage_returns_are_stripped() {
    let mut watcher = VRChatLogWatcher::new();
    let content = "2025.12.13 15:00:00 Log - one\r\n";
    let entries = watcher.read_new_entries(content);
    assert_eq!(entries.len(), 1);
    assert_eq!(entries[0].content, "one");
}

#[test]
fn log_file_names_follow_the_convention() {
    assert!(is_log_file_name("output_log_2025-12-13_15-00-00.txt"));
    assert!(!is_log_file_name("output_log_2025.log"));
    assert!(!is_log_file_name("notes.txt"));
    assert!(!is_log_file_name(""));
}

#[test]
fn find_latest_log_picks_newest_matching_entry() {
    let files = vec![
        LogFileCandidate { name: "output_log_a.txt".to_string(), modified: 10 },
        LogFileCandidate { name: "unrelated.dat".to_string(), modified: 99 },
        LogFileCandidate { name: "output_log_b.txt".to_string(), modified: 30 },
        LogFileCandidate { name: "output_log_c.txt".to_string(), modified: 20 },
    ];
    assert_eq!(find_latest_log(&files), Some("output_log_b.txt".to_string()));
}

#[test]
fn find_latest_log_breaks_ties_towards_the_last_entry() {
    let files = vec![
        LogFileCandidate { name: "output_log_a.txt".to_string(), modified: 30 },
        LogFileCandidate { name: "output_log_b.txt".to_string(), modified: 30 },
    ];
    assert_eq!(find_latest_log(&files), Some("output_log_b.txt".to_string()));
}

#[test]
fn find_latest_log_returns_nothing_without_candidates() {
    assert_eq!(find_latest_log(&vec![]), None);
    let files = vec![LogFileCandidate { name: "readme.md".to_string(), modified: 5 }];
    assert_eq!(find_latest_log(&files), None);
}
