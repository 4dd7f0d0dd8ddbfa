use zonekeeper::zones::{
    axfr_to_bind, bump_serial, bump_serial_at, pull_host_port, serial_at_limit, sorted_unique, zone_file_entry,
    zone_file_in, zone_key, zone_template,
};

#[test]
fn axfr_to_bind_relativises_names() {
    let axfr = "example.com.\t3600\tIN\tSOA\tns1.example.com. admin.example.com. 1 3600 900 604800 86400\n\
                 example.com.\t3600\tIN\tNS\tns1.example.com.\n\
                 ns1.example.com.\t3600\tIN\tA\t127.0.0.1\n\
                 www.example.com.\t3600\tIN\tA\t1.2.3.4\n\
                 example.com.\t3600\tIN\tSOA\tns1.example.com. admin.example.com. 1 3600 900 604800 86400\n";
    let result = axfr_to_bind(axfr, "example.com").unwrap();
    assert!(result.starts_with("$ORIGIN example.com.\n"));
    assert!(result.contains("@  3600  IN  SOA"));
    assert!(result.contains("@  3600  IN  NS  ns1.example.com."));
    assert!(result.contains("ns1  3600  IN  A  127.0.0.1"));
    assert!(result.contains("www  3600  IN  A  1.2.3.4"));
}

#[test]
fn axfr_to_bind_formats_soa_with_parens() {
    let axfr = "test.com.\t3600\tIN\tSOA\tns1.test.com. admin.test.com. 2024 3600 900 604800 86400\n\
                 test.com.\t3600\tIN\tSOA\tns1.test.com. admin.test.com. 2024 3600 900 604800 86400\n";
    let result = axfr_to_bind(axfr, "test.com").unwrap();
    assert!(result.contains("SOA  ns1.test.com. admin.test.com. ("));
    assert!(result.contains("2024    ; Serial"));
    assert!(result.contains("86400    ; Minimum TTL"));
    assert!(result.contains(")"));
}

#[test]
fn axfr_to_bind_strips_trailing_soa() {
    let axfr = "t.com.\t3600\tIN\tSOA\tns.t.com. a.t.com. 1 3600 900 604800 86400\n\
                 t.com.\t3600\tIN\tA\t1.2.3.4\n\
                 t.com.\t3600\tIN\tSOA\tns.t.com. a.t.com. 1 3600 900 604800 86400\n";
    let result = axfr_to_bind(axfr, "t.com").unwrap();
    // Only one SOA should appear
    assert_eq!(result.matches("SOA").count(), 1);
}

#[test]
fn axfr_to_bind_empty_response() {
    assert!(axfr_to_bind("", "test.com").is_err());
}

#[test]
fn axfr_to_bind_exact_output() {
    let axfr = "; comment\n\nt.com.\t60\tin\tmx\t10 mail.t.com.\nshort line\nx.other.\t60\tIN\tA\t1.1.1.1\nlast.t.com. 1 IN A 9.9.9.9\n";
    assert_eq!(
        axfr_to_bind(axfr, "t.com"),
        Ok("$ORIGIN t.com.\n@  60  in  MX  10 mail.t.com.\nx.other.  60  IN  A  1.1.1.1\n".to_string())
    );
    assert_eq!(axfr_to_bind("; only comments\n", "t.com"), Err("Empty AXFR response".to_string()));
    assert_eq!(
        axfr_to_bind("a.t.com. 1 IN A 1.1.1.1", "t.com"),
        Ok("$ORIGIN t.com.\na  1  IN  A  1.1.1.1\n".to_string())
    );
}

#[test]
fn bump_serial_increments_when_already_current() {
    // Use a serial that's already above any realistic today-based serial
    let content = "    2099010105    ; Serial\n    3600    ; Refresh";
    let result = bump_serial(content);
    assert!(result.contains("2099010106    ; Serial"), "got: {}", result);
}

#[test]
fn bump_serial_rolls_to_today() {
    let content = "    2020010100    ; Serial\n    3600    ; Refresh";
    let result = bump_serial(content);
    assert!(!result.contains("2020010100"), "got: {}", result);
    assert!(result.contains("; Serial"), "got: {}", result);
}

#[test]
fn bump_serial_no_serial_comment() {
    let content = "just some text\nno serial here";
    let result = bump_serial(content);
    assert_eq!(result, content);
}

#[test]
fn bump_serial_at_fixed_times() {
    // 2024-02-29 12:00 UTC
    let leap_day = 1709208000;
    assert_eq!(bump_serial_at("  5 ; Serial", leap_day), "  2024022900 ; Serial");
    assert_eq!(bump_serial_at("  2024022900 ; Serial", leap_day), "  2024022901 ; Serial");
    // 1970-01-01
    assert_eq!(bump_serial_at("1 ; Serial\r\nx\n", 0), "1970010100 ; Serial\nx");
    // 2000-12-31
    assert_eq!(bump_serial_at("a\n 7 ; Serial\n 8 ; Serial", 978264000), "a\n 2000123100 ; Serial\n 8 ; Serial");
    // the serial is read with its '+' and leading zeros; the first match of its digits is replaced
    assert_eq!(bump_serial_at("+0042 ; Serial", 0), "+001970010100 ; Serial");
    // a first word that is not a number leaves the line as it is
    assert_eq!(bump_serial_at("x ; Serial", 0), "x ; Serial");
    // years past 4294 give no date serial, so the serial only grows by one
    assert_eq!(bump_serial_at("3 ; Serial", 253402300800), "4 ; Serial");
}

#[test]
fn bumped_serial_reads_as_next() {
    // 2024-02-29 12:00 UTC
    let leap_day = 1709208000;
    let zone = "$TTL 1\r\n@ SOA ns. admin. (\r\n   7  ; Serial\r\n 3600 ; Refresh\r\n";
    let once = bump_serial_at(zone, leap_day);
    assert_eq!(once, "$TTL 1\n@ SOA ns. admin. (\n   2024022900  ; Serial\n 3600 ; Refresh");
    let twice = bump_serial_at(&once, leap_day);
    assert_eq!(twice, "$TTL 1\n@ SOA ns. admin. (\n   2024022901  ; Serial\n 3600 ; Refresh");
    // a serial written with leading zeros is not written plainly: its first
    // zero is what gets replaced
    assert_eq!(bump_serial_at("000 ; Serial", leap_day), "202402290000 ; Serial");
}

#[test]
fn serial_limit_is_detected() {
    assert!(serial_at_limit("4294967295 ; Serial"));
    assert!(!serial_at_limit("4294967294 ; Serial"));
    assert!(!serial_at_limit("no serial"));
}

#[test]
fn zone_template_for_name() {
    let t = zone_template("example.org");
    assert!(t.starts_with("$TTL 3600\n@  3600  IN  SOA  ns1.example.org. admin.example.org. (\n    1       ; Serial\n"));
    assert!(t.ends_with("@       3600  IN  NS   ns1.example.org.\nns1     3600  IN  A    127.0.0.1\n"));
}

#[test]
fn zone_files_are_recognised() {
    let z = zone_file_entry("Example.COM.zone").unwrap();
    assert_eq!(z.name, "example.com");
    assert!(z.needs_rename);
    let z = zone_file_entry("a.zone").unwrap();
    assert_eq!(z.name, "a");
    assert!(!z.needs_rename);
    assert!(zone_file_entry(".zone").is_none());
    assert!(zone_file_entry("a.zone.bak").is_none());
    assert!(zone_file_entry("zone").is_none());
    assert_eq!(zone_file_in(b"/z", "a.com"), b"/z/a.com.zone");
    assert_eq!(zone_key("ExAmple.Org"), "example.org");
}

#[test]
fn created_zone_is_listed_under_its_key() {
    let key = zone_key("Sub.Example.ORG");
    assert_eq!(key, "sub.example.org");
    let file = zone_file_in(b"/z", &key);
    assert_eq!(file, b"/z/sub.example.org.zone");
    let entry = zone_file_entry("sub.example.org.zone").unwrap();
    assert_eq!(entry.name, key);
    assert!(!entry.needs_rename);
}

#[test]
fn names_are_sorted_and_unique() {
    let names = vec!["b".to_string(), "a".to_string(), "b".to_string(), "ab".to_string(), "".to_string()];
    assert_eq!(sorted_unique(&names), vec!["".to_string(), "a".to_string(), "ab".to_string(), "b".to_string()]);
}

#[test]
fn pull_sources() {
    assert_eq!(pull_host_port(true, "10.0.0.1:5353", 1053), ("10.0.0.1".to_string(), "5353".to_string()));
    assert_eq!(pull_host_port(true, "ns.example", 1053), ("ns.example".to_string(), "53".to_string()));
    assert_eq!(pull_host_port(false, "10.0.0.1:5353", 1054), ("127.0.0.1".to_string(), "1054".to_string()));
    assert_eq!(pull_host_port(true, "", 1055), ("127.0.0.1".to_string(), "1055".to_string()));
}
