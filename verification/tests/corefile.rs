use zonekeeper::corefile::{corefile_path, corefile_path_in, generate_corefile, generate_corefile_in, with_dns_port};

#[test]
fn generate_corefile_uses_given_port() {
    let zones = vec!["test.local".to_string()];
    let result = generate_corefile("default", &zones, 5353, false, "");
    assert!(result.contains("test.local:5353"));
    assert!(!result.contains(":1053"));
}

#[test]
fn generate_corefile_default_port() {
    let zones = vec!["example.com".to_string()];
    let result = generate_corefile("default", &zones, 1053, false, "");
    assert!(result.contains("example.com:1053"));
}

#[test]
fn generate_corefile_multiple_zones() {
    let zones = vec!["a.local".to_string(), "b.local".to_string()];
    let result = generate_corefile("default", &zones, 8053, false, "");
    assert!(result.contains("a.local:8053"));
    assert!(result.contains("b.local:8053"));
    assert!(result.contains("\n\n"));
}

#[test]
fn generate_corefile_empty_zones() {
    let zones: Vec<String> = vec![];
    let result = generate_corefile("default", &zones, 1053, false, "");
    assert_eq!(result, "");
}

#[test]
fn generate_corefile_accept_transfers() {
    let zones = vec!["test.local".to_string()];
    let result = generate_corefile("default", &zones, 1054, true, "127.0.0.1:1053");
    assert!(result.contains("secondary"));
    assert!(result.contains("transfer from 127.0.0.1:1053"));
    assert!(result.contains("transfer {\n        to *\n    }"));
    assert!(!result.contains("file"));
    assert_eq!(result.matches("transfer").count(), 2); // "transfer from" + "transfer { to * }"
}

#[test]
fn generate_corefile_primary_has_transfer_block() {
    let zones = vec!["test.local".to_string()];
    let result = generate_corefile("default", &zones, 1053, false, "");
    assert!(result.contains("file \""));
    assert!(result.contains("transfer {\n        to *\n    }"));
}

#[test]
fn generate_corefile_accept_transfers_no_source() {
    let zones = vec!["test.local".to_string()];
    let result = generate_corefile("default", &zones, 1054, true, "");
    assert!(result.contains("file"));
    assert!(!result.contains("secondary"));
}

#[test]
fn generate_corefile_no_accept_transfers() {
    let zones = vec!["test.local".to_string()];
    let result = generate_corefile("default", &zones, 1053, false, "");
    assert!(result.contains("file"));
    assert!(!result.contains("secondary"));
}

#[test]
fn corefile_path_scoped_to_identity() {
    let path = corefile_path("secondary", 1054);
    assert!(String::from_utf8_lossy(&path).contains("identities/secondary/Corefile.1054"));
}

#[test]
fn generate_corefile_exact_text() {
    let zones = vec!["a.test".to_string(), "b.test".to_string()];
    assert_eq!(
        generate_corefile_in(b"/zones", &zones, 53, false, ""),
        "a.test:53 {\n    file \"/zones/a.test.zone\"\n    transfer {\n        to *\n    }\n    log\n}\n\nb.test:53 {\n    file \"/zones/b.test.zone\"\n    transfer {\n        to *\n    }\n    log\n}"
    );
    assert_eq!(
        generate_corefile_in(b"/zones", &zones[..1], 1054, true, "10.1.1.1"),
        "a.test:1054 {\n    secondary {\n        transfer from 10.1.1.1:53\n    }\n    transfer {\n        to *\n    }\n    log\n}"
    );
    assert_eq!(corefile_path_in(b"/app", "id", 7), b"/app/identities/id/Corefile.7");
    // a zone directory that is not UTF-8 is written as `to_string_lossy` writes it
    assert_eq!(
        generate_corefile_in(b"/z\xff", &zones[..1], 53, false, ""),
        "a.test:53 {\n    file \"/z\u{fffd}/a.test.zone\"\n    transfer {\n        to *\n    }\n    log\n}"
    );
    assert_eq!(with_dns_port("h"), "h:53");
    assert_eq!(with_dns_port("h:1"), "h:1");
}

#[test]
fn every_zone_is_served_from_its_file() {
    let zones = vec!["a.test".to_string(), "b.test".to_string(), "c.test".to_string()];
    let text = generate_corefile_in(b"/data/zones", &zones, 1053, false, "");
    for z in &zones {
        assert!(text.contains(&format!("{}:1053 {{\n    file \"/data/zones/{}.zone\"", z, z)));
    }
    assert_eq!(text.matches("\n\n").count(), 2);
}
