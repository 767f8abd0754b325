use snitch_fw::docker::parse_docker_line;
use snitch_fw::firewall::{parse_iptables_save, parse_nftables_ruleset, parse_ufw_status};
use snitch_fw::model::{FirewallDecision, Listener, Protocol};
use snitch_fw::ss::parse_ss_output;

fn listener(port: u16) -> Listener {
    Listener {
        protocol: Protocol::Tcp,
        local_address: "0.0.0.0".to_string(),
        port,
        process: None,
        pid: None,
    }
}

#[test]
fn parses_docker_mapping() {
    let line = r#"{"Names":"web","Ports":"0.0.0.0:8080->80/tcp"}"#;

    let mappings = parse_docker_line(line);

    assert_eq!(mappings.len(), 1);
    assert_eq!(mappings[0].host_port, Some(8080));
    assert_eq!(mappings[0].container_port, 80);
    assert_eq!(mappings[0].protocol, Protocol::Tcp);
    assert_eq!(mappings[0].container, "web");
}

#[test]
fn parses_multiple_docker_mappings() {
    let line = r#"{"Names":"dns","Ports":"0.0.0.0:53->53/udp, 0.0.0.0:5353->53/tcp"}"#;

    let mappings = parse_docker_line(line);

    assert_eq!(mappings.len(), 2);
    assert_eq!(mappings[0].host_port, Some(53));
    assert_eq!(mappings[0].protocol, Protocol::Udp);
    assert_eq!(mappings[1].host_port, Some(5353));
    assert_eq!(mappings[1].protocol, Protocol::Tcp);
}

#[test]
fn parses_container_only_port() {
    let line = r#"{"Names":"db","Ports":"5432/tcp"}"#;

    let mappings = parse_docker_line(line);

    assert_eq!(mappings.len(), 1);
    assert_eq!(mappings[0].host_port, None);
    assert_eq!(mappings[0].container_port, 5432);
    assert_eq!(mappings[0].protocol, Protocol::Tcp);
}

#[test]
fn parses_iptables_accept() {
    let signals = parse_iptables_save(
        "-A INPUT -p tcp -m tcp --dport 22 -j ACCEPT",
        &[listener(22)],
    );

    assert_eq!(signals.len(), 1);
    assert_eq!(signals[0].decision, FirewallDecision::Accept);
    assert_eq!(signals[0].port, Some(22));
}

#[test]
fn parses_nft_drop() {
    let signals = parse_nftables_ruleset("tcp dport 5432 drop", &[listener(5432)]);

    assert_eq!(signals[0].decision, FirewallDecision::Drop);
    assert_eq!(signals[0].port, Some(5432));
}

#[test]
fn parses_ufw_allow() {
    let signals = parse_ufw_status("22/tcp ALLOW IN Anywhere", &[listener(22)]);

    assert_eq!(signals[0].decision, FirewallDecision::Accept);
    assert_eq!(signals[0].port, Some(22));
}

#[test]
fn parses_tcp_listener() {
    let out = r#"tcp LISTEN 0 4096 0.0.0.0:80 0.0.0.0:* users:(("nginx",pid=42,fd=7))"#;

    let listeners = parse_ss_output(out);

    assert_eq!(listeners.len(), 1);
    assert_eq!(listeners[0].protocol, Protocol::Tcp);
    assert_eq!(listeners[0].local_address, "0.0.0.0");
    assert_eq!(listeners[0].port, 80);
    assert_eq!(listeners[0].process.as_deref(), Some("nginx"));
    assert_eq!(listeners[0].pid, Some(42));
}

#[test]
fn parses_ipv6_listener() {
    let out = r#"tcp LISTEN 0 4096 [::]:443 [::]:* users:(("nginx",pid=43,fd=8))"#;

    let listeners = parse_ss_output(out);

    assert_eq!(listeners[0].local_address, "::");
    assert_eq!(listeners[0].port, 443);
}
