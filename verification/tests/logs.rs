use zonekeeper::logs::{
    extract_after_marker, extract_after_zone, extract_between, extract_zone_after, extract_zone_before, process_log_line,
};

#[test]
fn extract_zone_from_transferred() {
    assert_eq!(
        extract_zone_after("[INFO] plugin/file: Transferred: xmncvbcv.com. from 127.0.0.1:1055", "Transferred: "),
        Some("xmncvbcv.com".to_string())
    );
}

#[test]
fn extract_zone_from_transfer_failed() {
    assert_eq!(
        extract_zone_before("[WARNING] plugin/secondary: All 'example.org.' masters failed to transfer", "masters"),
        Some("example.org".to_string())
    );
}

#[test]
fn extract_zone_from_dropping_notify() {
    assert_eq!(
        extract_zone_after("[WARNING] Dropping notify from 192.168.1.1 for test.com.", "for "),
        Some("test.com".to_string())
    );
}

#[test]
fn extract_zone_from_axfr_in() {
    assert_eq!(
        extract_zone_after("[INFO] 127.0.0.1:51740 - 24115 \"AXFR IN test.com. udp 28\"", "AXFR IN "),
        Some("test.com".to_string())
    );
}

#[test]
fn extract_between_notify_source() {
    assert_eq!(
        extract_between("[WARNING] Dropping notify from 192.168.1.1 for test.com.", "from ", " for"),
        Some("192.168.1.1".to_string())
    );
}

#[test]
fn extract_helpers_edge_cases() {
    assert_eq!(extract_after_marker("to \"10.0.0.1.\" x", "to "), Some("10.0.0.1.".to_string()));
    assert_eq!(extract_after_marker("to 10.0.0.1.. x", "to "), Some("10.0.0.1".to_string()));
    assert_eq!(extract_after_marker("to ...", "to "), None);
    assert_eq!(extract_after_marker("nothing", "to "), None);
    assert_eq!(extract_zone_after("for localhost.", "for "), None);
    assert_eq!(extract_zone_after("for A.B.", "for "), Some("a.b".to_string()));
    assert_eq!(extract_after_zone("zone a.b.: timeout", "a.b"), Some(": timeout".to_string()));
    assert_eq!(extract_after_zone("zone a.b.", "a.b"), None);
    assert_eq!(extract_between("a from b", "from ", " for"), None);
}

fn pairs(line: &str) -> Vec<(String, String)> {
    process_log_line(line, "log", "id1").into_iter().map(|e| (e.event, e.payload)).collect()
}

#[test]
fn log_lines_become_messages() {
    assert_eq!(
        pairs("[INFO] plugin/file: Transferred: Ex.com. from 127.0.0.1:1055"),
        vec![
            ("log".to_string(), "Transferred ex.com from 127.0.0.1:1055".to_string()),
            ("sync-changed-id1".to_string(), "ex.com".to_string()),
        ]
    );
    assert_eq!(
        pairs("[ERROR] plugin/secondary: Failed to transfer a.org. : connection refused"),
        vec![("log".to_string(), "[ERROR] Transfer failed for a.org: connection refused".to_string())]
    );
    assert_eq!(
        pairs("[WARNING] plugin/secondary: All 'example.org.' masters failed to transfer: timeout"),
        vec![("log".to_string(), "[ERROR] Transfer failed for example.org: timeout".to_string())]
    );
    assert_eq!(
        pairs("[WARNING] Dropping notify from 192.168.1.1 for test.com."),
        vec![("log".to_string(), "Received NOTIFY for test.com from 192.168.1.1".to_string())]
    );
    assert_eq!(
        pairs("[INFO] Outgoing transfer of 4 records of zone \"zone.com.\" to 10.0.0.2 for 1 SOA serial"),
        vec![("log".to_string(), "Serving \"zone.com.\" via AXFR to 10.0.0.2".to_string())]
    );
    assert!(pairs("[INFO] Outgoing transfer of 4 records of zone \"zone.com.\" to 127.0.0.1 for 1 SOA").is_empty());
    assert_eq!(
        pairs("[ERROR] plugin/errors: 2 example. A: read udp timeout"),
        vec![("log".to_string(), "[ERROR] 2 example. A: read udp timeout".to_string())]
    );
    assert_eq!(
        pairs("  [WARNING] something odd  "),
        vec![("log".to_string(), "[WARNING] something odd".to_string())]
    );
    assert!(pairs("[INFO] Reloading").is_empty());
    assert!(pairs("[ERROR] ").is_empty());
}

#[test]
fn messages_go_to_the_log_event() {
    let lines = [
        "[INFO] plugin/file: Transferred: a.com. from 10.0.0.1:53",
        "[ERROR] plugin/file: a.com.: something broke",
        "[WARNING] Dropping notify from 10.0.0.2 for b.com.",
        "[INFO] Outgoing transfer of 4 records of zone \"c.com.\" to 192.168.1.9 for 1 SOA serial",
        "[INFO] plugin/reload: Running configuration SHA512 = abc",
    ];
    for line in lines {
        let out = process_log_line(line, "log-line-id", "id");
        assert!(out.len() <= 2);
        if let Some(first) = out.first() {
            assert_eq!(first.event, "log-line-id");
        }
        if out.len() == 2 {
            assert_eq!(out[1].event, "sync-changed-id");
            assert!(line.contains("Transferred:"));
        }
    }
    assert_eq!(process_log_line(lines[0], "log-line-id", "id").len(), 2);
    assert_eq!(process_log_line(lines[4], "log-line-id", "id").len(), 0);
}
