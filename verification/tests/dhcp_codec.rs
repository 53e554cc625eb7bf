use meowtail::ipv4::{format_ipv4, parse_ipv4, Ipv4Addr};
use meowtail::udhcpd_config::{parse_config, render_config, StaticLease, UdhcpdConfig, UdhcpdError};

fn ip(a: u8, b: u8, c: u8, d: u8) -> Ipv4Addr {
    Ipv4Addr::new(a, b, c, d)
}

#[test]
fn ipv4_parses_canonical_quads() {
    assert_eq!(parse_ipv4("0.0.0.0"), Some(ip(0, 0, 0, 0)));
    assert_eq!(parse_ipv4("255.255.255.255"), Some(ip(255, 255, 255, 255)));
    assert_eq!(parse_ipv4("192.168.1.100"), Some(ip(192, 168, 1, 100)));
}

#[test]
fn ipv4_rejects_malformed_quads() {
    assert_eq!(parse_ipv4(""), None);
    assert_eq!(parse_ipv4("1.2.3"), None);
    assert_eq!(parse_ipv4("1.2.3.4.5"), None);
    assert_eq!(parse_ipv4("256.1.1.1"), None);
    assert_eq!(parse_ipv4("01.2.3.4"), None);
    assert_eq!(parse_ipv4("1..3.4"), None);
    assert_eq!(parse_ipv4("a.b.c.d"), None);
    assert_eq!(parse_ipv4(" 1.2.3.4"), None);
}

#[test]
fn ipv4_formats_and_round_trips() {
    assert_eq!(format_ipv4(&ip(10, 0, 0, 5)), "10.0.0.5");
    assert_eq!(format_ipv4(&ip(255, 255, 255, 0)), "255.255.255.0");
    let text = format_ipv4(&ip(172, 16, 0, 1));
    assert_eq!(parse_ipv4(&text), Some(ip(172, 16, 0, 1)));
}

#[test]
fn parse_reads_all_recognized_directives() {
    let text = "interface eth0\n\
                start 192.168.1.100\n\
                end 192.168.1.200\n\
                option subnet 255.255.255.0\n\
                option router 192.168.1.1\n\
                option dns 8.8.8.8 1.1.1.1\n\
                static_lease aa:bb:cc:dd:ee:ff 192.168.1.50\n";
    let c = parse_config(text).unwrap();
    assert_eq!(c.interface.as_deref(), Some("eth0"));
    assert_eq!(c.start, Some(ip(192, 168, 1, 100)));
    assert_eq!(c.end, Some(ip(192, 168, 1, 200)));
    assert_eq!(c.subnet_mask, Some(ip(255, 255, 255, 0)));
    assert_eq!(c.router, Some(ip(192, 168, 1, 1)));
    assert_eq!(c.dns_servers, vec![ip(8, 8, 8, 8), ip(1, 1, 1, 1)]);
    assert_eq!(c.static_leases.len(), 1);
    assert_eq!(c.static_leases[0].mac, "aa:bb:cc:dd:ee:ff");
    assert_eq!(c.static_leases[0].ip, ip(192, 168, 1, 50));
    assert_eq!(c.remaining_lines.len(), 0);
}

#[test]
fn parse_skips_blanks_and_comments_and_keeps_unknown_lines() {
    let text = "\n# a comment\n   # indented comment\nlease_time 3600\nmax_leases 101\n\nstart 10.0.0.2\n";
    let c = parse_config(text).unwrap();
    assert_eq!(c.start, Some(ip(10, 0, 0, 2)));
    assert_eq!(c.remaining_lines, vec!["lease_time 3600".to_string(), "max_leases 101".to_string()]);
}

#[test]
fn parse_keeps_underfilled_directives_verbatim() {
    // A keyword with too few tokens is not a directive; it passes through.
    let text = "start\noption subnet\nstatic_lease aa:bb\n";
    let c = parse_config(text).unwrap();
    assert_eq!(c.start, None);
    assert_eq!(c.subnet_mask, None);
    assert_eq!(c.static_leases.len(), 0);
    assert_eq!(
        c.remaining_lines,
        vec!["start".to_string(), "option subnet".to_string(), "static_lease aa:bb".to_string()]
    );
}

#[test]
fn parse_fails_on_malformed_ip_naming_the_token() {
    let e = parse_config("start 999.1.2.3\n").unwrap_err();
    match e {
        UdhcpdError::InvalidIp(tok) => assert_eq!(tok, "999.1.2.3"),
        other => panic!("wrong error: {:?}", other),
    }
    let e = parse_config("option dns 8.8.8.8 not-an-ip 1.1.1.1\n").unwrap_err();
    match e {
        UdhcpdError::InvalidIp(tok) => assert_eq!(tok, "not-an-ip"),
        other => panic!("wrong error: {:?}", other),
    }
    let e = parse_config("static_lease aa:bb:cc 10.0.0.\n").unwrap_err();
    match e {
        UdhcpdError::InvalidIp(tok) => assert_eq!(tok, "10.0.0."),
        other => panic!("wrong error: {:?}", other),
    }
}

#[test]
fn parse_rejects_leading_zero_octets() {
    assert!(parse_config("start 192.168.01.1\n").is_err());
}

#[test]
fn later_directives_overwrite_earlier_ones() {
    let c = parse_config("start 10.0.0.1\nstart 10.0.0.9\n").unwrap();
    assert_eq!(c.start, Some(ip(10, 0, 0, 9)));
}

#[test]
fn render_emits_canonical_order_and_exact_text() {
    let c = UdhcpdConfig {
        start: Some(ip(192, 168, 1, 100)),
        end: Some(ip(192, 168, 1, 200)),
        interface: Some("eth0".to_string()),
        subnet_mask: Some(ip(255, 255, 255, 0)),
        dns_servers: vec![ip(8, 8, 8, 8), ip(1, 1, 1, 1)],
        router: Some(ip(192, 168, 1, 1)),
        static_leases: vec![StaticLease { mac: "aa:bb".to_string(), ip: ip(10, 0, 0, 7) }],
        remaining_lines: vec!["lease_time 3600".to_string()],
    };
    let text = render_config(&c);
    assert_eq!(
        text,
        "interface eth0\n\
         start 192.168.1.100\n\
         end 192.168.1.200\n\
         option subnet 255.255.255.0\n\
         option router 192.168.1.1\n\
         option dns 8.8.8.8 1.1.1.1\n\
         static_lease aa:bb 10.0.0.7\n\
         lease_time 3600\n"
    );
}

#[test]
fn render_omits_unset_fields() {
    let c = UdhcpdConfig::default();
    assert_eq!(render_config(&c), "");
    let mut c = UdhcpdConfig::default();
    c.router = Some(ip(1, 2, 3, 4));
    assert_eq!(render_config(&c), "option router 1.2.3.4\n");
}

#[test]
fn round_trip_preserves_fields_and_passthrough() {
    let c = UdhcpdConfig {
        start: Some(ip(10, 1, 2, 3)),
        end: None,
        interface: Some("wan0".to_string()),
        subnet_mask: None,
        dns_servers: vec![ip(9, 9, 9, 9)],
        router: Some(ip(10, 1, 2, 1)),
        static_leases: vec![
            StaticLease { mac: "00:11:22:33:44:55".to_string(), ip: ip(10, 1, 2, 50) },
            StaticLease { mac: "66:77:88:99:aa:bb".to_string(), ip: ip(10, 1, 2, 51) },
        ],
        remaining_lines: vec!["lease_time 7200".to_string(), "max_leases 50".to_string()],
    };
    let back = parse_config(&render_config(&c)).unwrap();
    assert_eq!(back.start, c.start);
    assert_eq!(back.end, c.end);
    assert_eq!(back.interface, c.interface);
    assert_eq!(back.subnet_mask, c.subnet_mask);
    assert_eq!(back.dns_servers, c.dns_servers);
    assert_eq!(back.static_leases.len(), 2);
    assert_eq!(back.static_leases[0].mac, c.static_leases[0].mac);
    assert_eq!(back.static_leases[0].ip, c.static_leases[0].ip);
    assert_eq!(back.static_leases[1].mac, c.static_leases[1].mac);
    assert_eq!(back.static_leases[1].ip, c.static_leases[1].ip);
    assert_eq!(back.remaining_lines, c.remaining_lines);
}
