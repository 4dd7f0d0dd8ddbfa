use zonekeeper::config::{default_font_size, default_true, AppConfig, Config};
use zonekeeper::docker::{container_display_name, container_name, identity_cut_ok, internal_port, parse_port};
use zonekeeper::notify::{check_can_delete, check_server_name, window_label, window_title, window_url};
use zonekeeper::paths::{
    app_config_path, app_dir_at, checked_config_with_name, config_path, config_path_in, create_identity,
    identity_dir, identity_dir_in,
    identity_display_name, legacy_migration, MigrationStep, identity_list, legacy_runtime_file, needs_uuid_name, zones_dir, zones_dir_in, IdentityDir,
};
use zonekeeper::proxy::{proxy_args, ProxyArgsError};
use zonekeeper::server::{display_name, parse_pid, pid_path_in, starting_message};
use zonekeeper::text::IntErrorKind;

#[test]
fn identity_dir_contains_id() {
    let dir = identity_dir("abc-123");
    assert!(String::from_utf8_lossy(&dir).contains("identities/abc-123"));
}

#[test]
fn zones_dir_is_under_identity() {
    let dir = zones_dir("myid");
    assert!(String::from_utf8_lossy(&dir).contains("identities/myid/zones"));
}

#[test]
fn config_path_is_under_identity() {
    let path = config_path("some-uuid");
    assert!(String::from_utf8_lossy(&path).contains("identities/some-uuid/config.json"));
}

#[test]
fn create_identity_returns_uuid() {
    let info = create_identity("test-server", &uuid::ContextV7::new());
    assert!(uuid::Uuid::parse_str(&info.id).is_ok());
    assert_eq!(info.name, "test-server");
}

#[test]
fn default_config_has_port_1053() {
    let config = Config::default();
    assert_eq!(config.port, 1053);
}

#[test]
fn container_name_uses_identity_prefix() {
    assert_eq!(container_name("abcdef12-3456-7890"), "zk-dns-proxy-abcdef12");
}

#[test]
fn container_name_handles_short_identity() {
    assert_eq!(container_name("abc"), "zk-dns-proxy-abc");
}

#[test]
fn defaults_of_settings() {
    let c = Config::default();
    assert_eq!(c.font_size, 16);
    assert!(c.auto_bump_serial);
    assert!(!c.accept_transfers);
    assert!(c.name.is_empty() && c.notify_target.is_empty() && c.transfer_from.is_empty());
    assert_eq!(AppConfig::default().font_size, 16);
    assert_eq!(default_font_size(), 16);
    assert!(default_true());
}

#[test]
fn paths_under_a_data_directory() {
    assert_eq!(app_dir_at(Some(b"/home/u".to_vec())), b"/home/u/Library/Application Support/zonekeeper");
    assert_eq!(app_dir_at(Some(b"/home/u/".to_vec())), b"/home/u/Library/Application Support/zonekeeper");
    assert_eq!(app_dir_at(None), b"./Library/Application Support/zonekeeper");
    // a home directory whose path is not UTF-8 keeps its bytes
    assert_eq!(app_dir_at(Some(b"/home/\xff".to_vec())), b"/home/\xff/Library/Application Support/zonekeeper");
    assert_eq!(identity_dir_in(b"/a", "x"), b"/a/identities/x");
    assert_eq!(identity_dir_in(b"/a", "/abs"), b"/abs");
    assert_eq!(zones_dir_in(b"/a", "x"), b"/a/identities/x/zones");
    assert_eq!(config_path_in(b"/a", "x"), b"/a/identities/x/config.json");
    assert_eq!(pid_path_in(b"/a", "x", 1053), b"/a/identities/x/coredns.1053.pid");
    assert!(app_config_path().ends_with(b"zonekeeper/app_config.json"));
}

#[test]
fn identities_are_named_and_sorted() {
    let dirs = vec![
        IdentityDir { id: "c".to_string(), config: Some("{\"name\":\"beta\"}".to_string()) },
        IdentityDir { id: "a".to_string(), config: Some("{\"name\":\"\"}".to_string()) },
        IdentityDir { id: "b".to_string(), config: None },
        IdentityDir { id: "d".to_string(), config: Some("not json".to_string()) },
        IdentityDir { id: "e".to_string(), config: Some("{\"name\":\"beta\"}".to_string()) },
    ];
    let list = identity_list(dirs);
    let got: Vec<(String, String)> = list.into_iter().map(|i| (i.id, i.name)).collect();
    let want = vec![("a", "a"), ("b", "b"), ("c", "beta"), ("e", "beta"), ("d", "d")];
    let want: Vec<(String, String)> = want.into_iter().map(|(a, b)| (a.to_string(), b.to_string())).collect();
    assert_eq!(got, want);
    assert_eq!(identity_display_name("x", Some("{\"name\": 5}".to_string())), "x");
}

#[test]
fn identity_checks() {
    assert!(needs_uuid_name("default"));
    assert!(!needs_uuid_name("0190b7c4-7c7e-7c7e-8c7e-0123456789ab"));
    assert!(legacy_runtime_file("Corefile.1053"));
    assert!(legacy_runtime_file("coredns.1053.pid"));
    assert!(!legacy_runtime_file("config.json"));
    assert_eq!(check_server_name(""), Err("Server name cannot be empty".to_string()));
    assert_eq!(check_server_name("x"), Ok(()));
    let ids = vec!["a".to_string(), "b".to_string()];
    assert_eq!(check_can_delete(&ids, "a"), Ok(()));
    assert_eq!(check_can_delete(&ids[..1].to_vec(), "a"), Err("Cannot delete the last server".to_string()));
    assert_eq!(display_name("", "id"), "id");
    assert_eq!(display_name("n", "id"), "n");
    assert_eq!(starting_message("n", 1053), "Server 'n' starting on port 1053");
}

#[test]
fn windows_and_containers() {
    assert_eq!(window_label("0190b7c4-aaaa"), "zk-0190b7c4");
    assert_eq!(window_title("srv", 1053), "ZoneKeeper \u{2014} srv :1053");
    assert_eq!(window_url("id", 1053), "index.html?identity=id&port=1053");
    assert!(identity_cut_ok("abcdefgh-x"));
    assert!(!identity_cut_ok("abcdefg\u{e9}x"));
    assert!(identity_cut_ok("\u{e9}\u{e9}\u{e9}\u{e9}"));
    assert_eq!(container_display_name("//name"), "name");
    assert_eq!(internal_port(&vec!["80/tcp".to_string(), "5353/udp".to_string()]), 5353);
    assert_eq!(internal_port(&vec!["80/tcp".to_string()]), 53);
    assert_eq!(internal_port(&vec!["x/udp".to_string(), "54/udp".to_string()]), 53);
    assert_eq!(parse_port("5300"), Ok(5300));
    assert_eq!(parse_port(""), Err(IntErrorKind::Empty));
    assert_eq!(parse_port("+"), Err(IntErrorKind::InvalidDigit));
    assert_eq!(parse_port("70000"), Err(IntErrorKind::PosOverflow));
    assert_eq!(parse_port("99999x"), Err(IntErrorKind::PosOverflow));
    assert_eq!(parse_port("1x"), Err(IntErrorKind::InvalidDigit));
    assert_eq!(parse_pid(" 42\n"), Some(42));
    assert_eq!(parse_pid("-2147483648"), Some(-2147483648));
    assert_eq!(parse_pid("2147483648"), None);
    assert_eq!(parse_pid("-"), None);
}

#[test]
fn relay_command_line() {
    let args: Vec<String> = ["p", "5300", "172.19.0.3:53", "6055", "host:6055"].iter().map(|s| s.to_string()).collect();
    let a = proxy_args(&args).ok().unwrap();
    assert_eq!((a.notify_listen, a.dns_listen), (5300, 6055));
    assert_eq!((a.notify_target.as_str(), a.dns_target.as_str()), ("172.19.0.3:53", "host:6055"));
    assert!(matches!(proxy_args(&args[..4].to_vec()), Err(ProxyArgsError::Usage)));
    let mut bad = args.clone();
    bad[3] = "x".to_string();
    assert!(matches!(proxy_args(&bad), Err(ProxyArgsError::DnsListen(IntErrorKind::InvalidDigit))));
}

#[test]
fn renamed_configuration_text() {
    let named = Some("{\n  \"name\": \"srv\"\n}".to_string());
    assert_eq!(
        checked_config_with_name(Some("{\"port\": 5353}".to_string()), "srv"),
        Some(Some("{\n  \"name\": \"srv\",\n  \"port\": 5353\n}".to_string()))
    );
    assert_eq!(checked_config_with_name(None, "srv"), Some(named.clone()));
    assert_eq!(checked_config_with_name(Some("not json".to_string()), "srv"), Some(named.clone()));
    assert_eq!(checked_config_with_name(Some("null".to_string()), "srv"), Some(named.clone()));
    assert_eq!(
        checked_config_with_name(Some("{\"name\": \"old\"}".to_string()), "srv"),
        Some(named)
    );
    assert_eq!(checked_config_with_name(Some("[1]".to_string()), "srv"), None);
}

#[test]
fn identity_ids_are_version_7_uuids() {
    let context = uuid::ContextV7::new();
    let first = create_identity("a", &context);
    let second = create_identity("b", &context);
    for info in [&first, &second] {
        assert_eq!(info.id.len(), 36);
        assert_eq!(&info.id[14..15], "7");
        assert_eq!(info.id, info.id.to_lowercase());
        assert!(!needs_uuid_name(&info.id));
    }
    assert_eq!(first.name, "a");
    // ids made with one context are ordered by when they were made
    assert!(first.id < second.id);
}

#[test]
fn uuid_forms_that_parse() {
    assert!(!needs_uuid_name("67e55044-10b1-426f-9247-bb680e5fe0c8"));
    assert!(!needs_uuid_name("67E5504410B1426F9247BB680E5FE0C8"));
    assert!(!needs_uuid_name("{67e55044-10b1-426f-9247-bb680e5fe0c8}"));
    assert!(!needs_uuid_name("URN:uuid:67e55044-10b1-426f-9247-bb680e5fe0c8"));
    assert!(needs_uuid_name("default"));
    assert!(needs_uuid_name("67e55044-10b1-426f-9247-bb680e5fe0cg"));
    assert!(needs_uuid_name("67e55044+10b1-426f-9247-bb680e5fe0c8"));
}

#[test]
fn legacy_layout_steps() {
    assert_eq!(legacy_migration(false, false, false, false), vec![]);
    assert_eq!(
        legacy_migration(true, true, false, false),
        vec![MigrationStep::MakeDefaultDir, MigrationStep::MoveZones, MigrationStep::MoveConfig, MigrationStep::RemoveRuntimeFiles]
    );
    assert_eq!(legacy_migration(true, false, true, false), vec![MigrationStep::MakeDefaultDir, MigrationStep::RemoveRuntimeFiles]);
    assert_eq!(legacy_migration(false, true, true, false), vec![MigrationStep::MakeDefaultDir, MigrationStep::MoveConfig, MigrationStep::RemoveRuntimeFiles]);
    assert_eq!(legacy_migration(false, true, false, true), vec![MigrationStep::MakeDefaultDir, MigrationStep::RemoveRuntimeFiles]);
}
