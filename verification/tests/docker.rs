use zonekeeper::docker::{
    first_container, listed_containers, mapped_port, proxy_ip, proxy_run_args, proxy_running,
    read_docker_target,
};

#[test]
fn first_listed_container_is_taken() {
    assert_eq!(first_container("abc123\ndef456", 53), Ok("abc123".to_string()));
    assert_eq!(
        first_container("", 5353),
        Err("No Docker container found with port 5353 mapped".to_string())
    );
}

#[test]
fn running_state_and_address() {
    assert!(proxy_running("true"));
    assert!(!proxy_running("false"));
    assert!(!proxy_running("true "));
    assert_eq!(proxy_ip("172.17.0.2".to_string()), Ok("172.17.0.2".to_string()));
    assert_eq!(proxy_ip(String::new()), Err("Proxy has no IP address".to_string()));
}

#[test]
fn mapped_port_is_read() {
    assert_eq!(mapped_port("49153"), Ok(49153));
    assert_eq!(
        mapped_port("70000"),
        Err("Failed to parse mapped port: number too large to fit in target type".to_string())
    );
    assert_eq!(
        mapped_port(""),
        Err("Failed to parse mapped port: cannot parse integer from empty string".to_string())
    );
    assert_eq!(
        mapped_port("<no value>"),
        Err("Failed to parse mapped port: invalid digit found in string".to_string())
    );
}

#[test]
fn listed_containers_skip_empty_lines() {
    assert_eq!(listed_containers("a1\n\nb2\r\n"), vec!["a1".to_string(), "b2".to_string()]);
    assert!(listed_containers("").is_empty());
}

#[test]
fn relay_container_command() {
    let args = proxy_run_args("zk-dns-proxy-abcdef12", "net1", "/bin/relay", "172.19.0.3", 53, 6055);
    let expected = vec![
        "run", "-d", "--name", "zk-dns-proxy-abcdef12", "--network", "net1", "--add-host",
        "host.docker.internal:host-gateway", "-p", "127.0.0.1:0:5300/udp", "-v",
        "/bin/relay:/dns-proxy:ro", "busybox:musl", "/dns-proxy", "5300", "172.19.0.3:53", "6055",
        "host.docker.internal:6055",
    ];
    assert_eq!(args, expected.iter().map(|s| s.to_string()).collect::<Vec<String>>());
}

#[test]
fn target_is_read_from_inspect_output() {
    let json = r#"[{"Name":"/secondary","NetworkSettings":{"Networks":{"zk_net":{"IPAddress":"172.19.0.3"},"other":{"IPAddress":"10.0.0.9"}},"Ports":{"53/tcp":null,"5353/udp":[{"HostPort":"1054"}]}}}]"#;
    let t = read_docker_target(json).unwrap();
    assert_eq!(t.container_name, "secondary");
    assert_eq!(t.container_ip, "10.0.0.9");
    assert_eq!(t.network, "other");
    assert_eq!(t.internal_port, 5353);

    let no_ports = r#"[{"Name":"//x","NetworkSettings":{"Networks":{"n":{}}}}]"#;
    let t = read_docker_target(no_ports).unwrap();
    assert_eq!(t.container_name, "x");
    assert_eq!(t.container_ip, "");
    assert_eq!(t.network, "n");
    assert_eq!(t.internal_port, 53);

    assert_eq!(
        read_docker_target(r#"[{"NetworkSettings":{}}]"#).err(),
        Some("No networks found on container".to_string())
    );
    assert_eq!(
        read_docker_target(r#"[{"NetworkSettings":{"Networks":{}}}]"#).err(),
        Some("Container has no network".to_string())
    );
    let bad = read_docker_target("not json").err().unwrap();
    assert!(bad.starts_with("Failed to parse docker inspect: "));
}
