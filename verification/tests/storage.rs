use vrcp_lib::events::{Payload, VrcLogEvent};
use vrcp_lib::ingest::{ingest_tick, process_file};
use vrcp_lib::server::{
    get_server_port, get_server_url, parse_port, set_server_port, SERVER_PORT,
};
use vrcp_lib::store::{LogDatabase, StoreError};
use vrcp_lib::watcher::VRChatLogWatcher;

fn message(ts: &str, text: &str) -> Payload {
    Payload {
        event: VrcLogEvent::Message { text: text.to_string() },
        timestamp: ts.to_string(),
    }
}

#[test]
fn insert_then_unbounded_query_returns_the_event() {
    let mut db = LogDatabase::new();
    let p = message("2025.12.13 15:00:00", "hello");
    db.insert_log(&p).unwrap();
    let logs = db.get_logs(None, None);
    assert_eq!(logs.len(), 1);
    assert_eq!(logs[0], p);
}

#[test]
fn query_upper_bound_is_inclusive() {
    let mut db = LogDatabase::new();
    let p = message("2025.12.13 15:00:00", "boundary");
    db.insert_log(&p).unwrap();
    let logs = db.get_logs(Some("2025.12.13 14:59:59"), Some("2025.12.13 15:00:00"));
    assert_eq!(logs.len(), 1);
    assert_eq!(logs[0].timestamp, "2025.12.13 15:00:00");
}

#[test]
fn query_lower_bound_is_exclusive() {
    let mut db = LogDatabase::new();
    let p = message("2025.12.13 15:00:00", "boundary");
    db.insert_log(&p).unwrap();
    let logs = db.get_logs(Some("2025.12.13 15:00:00"), None);
    assert_eq!(logs.len(), 0);
}

#[test]
fn repeated_polling_with_previous_end_never_repeats_nor_skips() {
    let mut db = LogDatabase::new();
    db.insert_log(&message("2025.12.13 15:00:00", "a")).unwrap();
    db.insert_log(&message("2025.12.13 15:05:00", "b")).unwrap();
    let first = db.get_logs(None, Some("2025.12.13 15:00:00"));
    assert_eq!(first.len(), 1);
    assert_eq!(first[0].timestamp, "2025.12.13 15:00:00");
    let second = db.get_logs(Some("2025.12.13 15:00:00"), Some("2025.12.13 15:05:00"));
    assert_eq!(second.len(), 1);
    assert_eq!(second[0].timestamp, "2025.12.13 15:05:00");
}

#[test]
fn query_orders_by_timestamp_then_insertion() {
    let mut db = LogDatabase::new();
    db.insert_log(&message("2025.12.13 15:05:00", "late")).unwrap();
    db.insert_log(&message("2025.12.13 15:00:00", "early")).unwrap();
    db.insert_log(&message("2025.12.13 15:00:00", "early-second")).unwrap();
    let logs = db.get_logs(None, None);
    assert_eq!(logs.len(), 3);
    assert_eq!(logs[0].timestamp, "2025.12.13 15:00:00");
    assert_eq!(logs[0].event, VrcLogEvent::Message { text: "early".to_string() });
    assert_eq!(logs[1].event, VrcLogEvent::Message { text: "early-second".to_string() });
    assert_eq!(logs[2].timestamp, "2025.12.13 15:05:00");
}

#[test]
fn duplicate_content_is_never_rejected() {
    let mut db = LogDatabase::new();
    let p = message("2025.12.13 15:00:00", "same");
    db.insert_log(&p).unwrap();
    db.insert_log(&p).unwrap();
    assert_eq!(db.get_logs(None, None).len(), 2);
}

#[test]
fn delete_all_clears_events_but_keeps_settings() {
    let mut db = LogDatabase::new();
    db.insert_log(&message("2025.12.13 15:00:00", "gone")).unwrap();
    db.set_setting("port", "9000");
    db.delete_all_logs();
    assert_eq!(db.get_logs(None, None).len(), 0);
    assert_eq!(db.get_setting("port").unwrap(), "9000");
}

#[test]
fn settings_are_upserted_by_key() {
    let mut db = LogDatabase::new();
    assert_eq!(db.get_setting("port"), Err(StoreError::SettingNotFound));
    db.set_setting("port", "8080");
    assert_eq!(db.get_setting("port").unwrap(), "8080");
    db.set_setting("port", "9090");
    assert_eq!(db.get_setting("port").unwrap(), "9090");
    db.set_setting("theme", "dark");
    assert_eq!(db.get_setting("theme").unwrap(), "dark");
    assert_eq!(db.get_setting("port").unwrap(), "9090");
}

#[test]
fn export_lists_each_event_in_query_order() {
    let mut db = LogDatabase::new();
    db.insert_log(&message("2025.12.13 15:05:00", "b")).unwrap();
    db.insert_log(&message("2025.12.13 15:00:00", "a")).unwrap();
    let text = db.export_logs();
    assert_eq!(text, "2025.12.13 15:00:00\tMa\n2025.12.13 15:05:00\tMb\n");
}

#[test]
fn parse_port_accepts_well_formed_ports_only() {
    assert_eq!(parse_port("8080"), Some(8080));
    assert_eq!(parse_port("+8080"), Some(8080));
    assert_eq!(parse_port("0"), Some(0));
    assert_eq!(parse_port("65535"), Some(65535));
    assert_eq!(parse_port("65536"), None);
    assert_eq!(parse_port("123456789"), None);
    assert_eq!(parse_port(""), None);
    assert_eq!(parse_port("+"), None);
    assert_eq!(parse_port("80a0"), None);
    assert_eq!(parse_port("-1"), None);
}

#[test]
fn server_port_defaults_and_round_trips() {
    let mut db = LogDatabase::new();
    assert_eq!(get_server_port(&db), SERVER_PORT);
    set_server_port(&mut db, 9100).unwrap();
    assert_eq!(db.get_setting("port").unwrap(), "9100");
    assert_eq!(get_server_port(&db), 9100);
}

#[test]
fn server_port_ignores_a_garbled_setting() {
    let mut db = LogDatabase::new();
    db.set_setting("port", "not a number");
    assert_eq!(get_server_port(&db), SERVER_PORT);
}

#[test]
fn port_zero_is_refused() {
    let mut db = LogDatabase::new();
    assert_eq!(set_server_port(&mut db, 0), Err(StoreError::InvalidPort));
    assert_eq!(get_server_port(&db), SERVER_PORT);
}

#[test]
fn server_url_is_formatted_from_address_and_port() {
    assert_eq!(get_server_url("192.168.1.20", 8727), "http://192.168.1.20:8727");
}

#[test]
fn bulk_import_stores_every_matching_line() {
    let mut db = LogDatabase::new();
    let lines = vec![
        "2025.12.13 15:00:00 Log        -  [Player] A Joined".to_string(),
        "garbage".to_string(),
        "2025.12.13 15:05:00 Warning    -  [System] Low FPS".to_string(),
    ];
    let count = process_file(&mut db, &lines);
    assert_eq!(count, 2);
    let logs = db.get_logs(None, None);
    assert_eq!(logs.len(), 2);
    assert_eq!(logs[0].event, VrcLogEvent::PlayerJoined { name: "A".to_string() });
    assert_eq!(logs[1].event, VrcLogEvent::Message { text: "[System] Low FPS".to_string() });
}

#[test]
fn end_to_end_poll_insert_and_query() {
    let mut content = String::new();
    content.push_str("2025.12.13 15:00:00 Log        -  [Player] A Joined\n");
    content.push_str("garbage\n");
    content.push_str("2025.12.13 15:05:00 Warning    -  [System] Low FPS\n");

    let mut watcher = VRChatLogWatcher::new();
    let entries = watcher.read_new_entries(&content);
    assert_eq!(entries.len(), 2);
    assert_eq!(entries[0].timestamp, "2025.12.13 15:00:00");
    assert_eq!(entries[0].log_type, "Log");
    assert_eq!(entries[1].timestamp, "2025.12.13 15:05:00");
    assert_eq!(entries[1].log_type, "Warning");

    let mut db = LogDatabase::new();
    for entry in &entries {
        let payload = vrcp_lib::events::parse_log_line(&format!(
            "{} {} - {}",
            entry.timestamp, entry.log_type, entry.content
        ))
        .unwrap();
        db.insert_log(&payload).unwrap();
    }
    let logs = db.get_logs(None, None);
    assert_eq!(logs.len(), 2);
    assert_eq!(logs[0].timestamp, "2025.12.13 15:00:00");
    assert_eq!(logs[1].timestamp, "2025.12.13 15:05:00");
}

#[test]
fn ingest_tick_stores_and_reports_each_new_event() {
    let mut db = LogDatabase::new();
    let mut watcher = VRChatLogWatcher::new();
    let content = "2025.12.13 15:00:00 Log        -  [Player] A Joined\n\
                   garbage\n\
                   2025.12.13 15:05:00 Warning    -  [System] Low FPS\n";
    let notices = ingest_tick(&mut db, &mut watcher, content);
    assert_eq!(notices.len(), 2);
    assert_eq!(notices[0].event, VrcLogEvent::PlayerJoined { name: "A".to_string() });
    assert_eq!(notices[0].timestamp, "2025.12.13 15:00:00");
    assert_eq!(notices[1].event, VrcLogEvent::Message { text: "[System] Low FPS".to_string() });
    assert_eq!(db.get_logs(None, None), notices);

    let again = ingest_tick(&mut db, &mut watcher, content);
    assert_eq!(again.len(), 0);
    assert_eq!(db.get_logs(None, None).len(), 2);
}
