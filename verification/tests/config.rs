use ipbridge::config::{
    default_enable_true, expand_port_ranges, expand_tunnel, parse_port_range, split_addr_port,
    ConfigError, Protocol, Tunnel, TunnelConfig, TEMPLATE,
};

fn tunnel(protocol: Protocol, listen: &str, forward: &str) -> Tunnel {
    Tunnel {
        protocol,
        listen: listen.to_string(),
        forward: forward.to_string(),
        enable: true,
    }
}

fn addresses(config: &TunnelConfig) -> Vec<(String, String)> {
    config
        .tunnel
        .iter()
        .map(|t| (t.listen.clone(), t.forward.clone()))
        .collect()
}

fn refusal(listen: &str, forward: &str) -> String {
    match expand_tunnel(&tunnel(Protocol::Udp, listen, forward)) {
        Ok(_) => panic!("{listen} -> {forward} must be refused"),
        Err(e) => e.message(),
    }
}

#[test]
fn split_addr_port_ipv4() {
    let (addr, port) = split_addr_port("127.0.0.1:8888").unwrap();
    assert_eq!(addr, "127.0.0.1");
    assert_eq!(port, "8888");
}

#[test]
fn split_addr_port_ipv4_range() {
    let (addr, port) = split_addr_port("0.0.0.0:9000-9005").unwrap();
    assert_eq!(addr, "0.0.0.0");
    assert_eq!(port, "9000-9005");
}

#[test]
fn split_addr_port_ipv6() {
    let (addr, port) = split_addr_port("[::]:7777").unwrap();
    assert_eq!(addr, "[::]");
    assert_eq!(port, "7777");
}

#[test]
fn split_addr_port_ipv6_range() {
    let (addr, port) = split_addr_port("[::]:7777-7780").unwrap();
    assert_eq!(addr, "[::]");
    assert_eq!(port, "7777-7780");
}

#[test]
fn parse_single_port() {
    let (start, end) = parse_port_range("7777").unwrap();
    assert_eq!(start, 7777);
    assert_eq!(end, 7777);
}

#[test]
fn parse_port_range_valid() {
    let (start, end) = parse_port_range("7777-7780").unwrap();
    assert_eq!(start, 7777);
    assert_eq!(end, 7780);
}

#[test]
fn parse_port_range_invalid_order() {
    assert!(parse_port_range("7780-7777").is_err());
}

#[test]
fn expand_range_expands_correctly() {
    let mut config = TunnelConfig {
        tunnel: vec![Tunnel {
            protocol: Protocol::Udp,
            listen: "[::]:7777-7779".into(),
            forward: "127.0.0.1:8888-8890".into(),
            enable: true,
        }],
    };
    expand_port_ranges(&mut config).unwrap();
    assert_eq!(config.tunnel.len(), 3);
    assert_eq!(config.tunnel[0].listen, "[::]:7777");
    assert_eq!(config.tunnel[0].forward, "127.0.0.1:8888");
    assert_eq!(config.tunnel[1].listen, "[::]:7778");
    assert_eq!(config.tunnel[1].forward, "127.0.0.1:8889");
    assert_eq!(config.tunnel[2].listen, "[::]:7779");
    assert_eq!(config.tunnel[2].forward, "127.0.0.1:8890");
}

#[test]
fn expand_single_port_no_change() {
    let mut config = TunnelConfig {
        tunnel: vec![Tunnel {
            protocol: Protocol::Tcp,
            listen: "0.0.0.0:9000".into(),
            forward: "10.0.0.5:9000".into(),
            enable: true,
        }],
    };
    expand_port_ranges(&mut config).unwrap();
    assert_eq!(config.tunnel.len(), 1);
    assert_eq!(config.tunnel[0].listen, "0.0.0.0:9000");
}

#[test]
fn expand_mismatch_count_errors() {
    let mut config = TunnelConfig {
        tunnel: vec![Tunnel {
            protocol: Protocol::Udp,
            listen: "[::]:7777-7779".into(),
            forward: "127.0.0.1:8888".into(),
            enable: true,
        }],
    };
    assert!(expand_port_ranges(&mut config).is_err());
}

#[test]
fn test_addr_trim_in_load() {
    let parsed = TunnelConfig {
        tunnel: vec![Tunnel {
            protocol: Protocol::Udp,
            listen: "  0.0.0.0:7777  ".into(),
            forward: "  127.0.0.1:8888   ".into(),
            enable: true,
        }],
    };
    assert!(parsed.can_load());
    let config = TunnelConfig::load(parsed).unwrap();
    assert_eq!(config.tunnel[0].listen, "0.0.0.0:7777");
    assert_eq!(config.tunnel[0].forward, "127.0.0.1:8888");
}

#[test]
fn every_refusal_has_its_message() {
    assert_eq!(
        refusal("[::1", "127.0.0.1:1"),
        "Invalid IPv6 address format: [::1"
    );
    assert_eq!(
        refusal("127.0.0.1", "127.0.0.1:1"),
        "Missing port in address: 127.0.0.1"
    );
    assert_eq!(
        refusal("127.0.0.1:1", "localhost"),
        "Missing port in address: localhost"
    );
    assert_eq!(
        refusal("h:1-x", "h:1-2"),
        "invalid digit found in string"
    );
    assert_eq!(
        refusal("h:1-", "h:1-2"),
        "cannot parse integer from empty string"
    );
    assert_eq!(
        refusal("h:1-65536", "h:1-2"),
        "number too large to fit in target type"
    );
    assert_eq!(refusal("h:2-1", "h:1-2"), "Port range start > end: 2-1");
    assert_eq!(
        refusal("h:1-2", "g:1"),
        "Port range must be specified on both listen and forward: h:1-2 -> g:1"
    );
    assert_eq!(
        refusal("h:1-2", "h:1-3"),
        "Port range count mismatch: 2 ports in listen, 3 in forward"
    );
}

#[test]
fn every_refusal_has_its_kind() {
    assert!(matches!(
        split_addr_port("[::1"),
        Err(ConfigError::InvalidIpv6(a)) if a == "[::1"
    ));
    assert!(matches!(
        split_addr_port("nowhere"),
        Err(ConfigError::MissingPort(a)) if a == "nowhere"
    ));
    assert!(matches!(
        parse_port_range("x"),
        Err(ConfigError::InvalidPort(_))
    ));
    assert!(matches!(
        parse_port_range("9-8"),
        Err(ConfigError::RangeReversed(r)) if r == "9-8"
    ));
    assert!(matches!(
        expand_tunnel(&tunnel(Protocol::Tcp, "h:1", "g:1-2")),
        Err(ConfigError::RangeOneSided(_, _))
    ));
    assert!(matches!(
        expand_tunnel(&tunnel(Protocol::Tcp, "h:1-5", "g:1-2")),
        Err(ConfigError::RangeCountMismatch(5, 2))
    ));
    assert!(matches!(
        TunnelConfig::create_template("a.toml", true, false),
        Err(ConfigError::TemplateExists(p)) if p == "a.toml"
    ));
}

#[test]
fn the_last_colon_that_fits_parts_host_and_port() {
    assert_eq!(split_addr_port("a:b:c").unwrap(), ("a:b", "c"));
    assert_eq!(split_addr_port(":80").unwrap(), ("", "80"));
    assert_eq!(split_addr_port("host:").unwrap(), ("host", ""));
    assert_eq!(split_addr_port("[a]:1]:2").unwrap(), ("[a]:1]", "2"));
    assert_eq!(split_addr_port("münchen.de:80").unwrap(), ("münchen.de", "80"));
    assert!(split_addr_port("").is_err());
    assert!(split_addr_port("[::]7777").is_err());
}

#[test]
fn ports_are_read_as_numbers() {
    assert_eq!(parse_port_range("0").unwrap(), (0, 0));
    assert_eq!(parse_port_range("65535").unwrap(), (65535, 65535));
    assert_eq!(parse_port_range("007").unwrap(), (7, 7));
    assert_eq!(parse_port_range("+7-+9").unwrap(), (7, 9));
    assert_eq!(parse_port_range("5-5").unwrap(), (5, 5));
    assert!(parse_port_range("65536").is_err());
    assert!(parse_port_range("").is_err());
    assert!(parse_port_range("+").is_err());
    assert!(parse_port_range("-1").is_err());
    assert!(parse_port_range("1-2-3").is_err());
    assert!(parse_port_range(" 7").is_err());
    assert!(parse_port_range("٣").is_err());
}

#[test]
fn expansion_keeps_protocol_and_enable() {
    let mut t = tunnel(Protocol::Tcp, "h:1-2", "[::1]:8-9");
    t.enable = false;
    let expanded = expand_tunnel(&t).unwrap();
    assert_eq!(expanded.len(), 2);
    for e in &expanded {
        assert_eq!(e.protocol, Protocol::Tcp);
        assert!(!e.enable);
    }
    assert_eq!(expanded[1].listen, "h:2");
    assert_eq!(expanded[1].forward, "[::1]:9");
}

#[test]
fn a_range_of_one_port_is_written_as_a_port() {
    let expanded = expand_tunnel(&tunnel(Protocol::Udp, "h:007-7", "g:65535-65535")).unwrap();
    assert_eq!(expanded.len(), 1);
    assert_eq!(expanded[0].listen, "h:7");
    assert_eq!(expanded[0].forward, "g:65535");
}

#[test]
fn single_ports_are_not_read() {
    let expanded = expand_tunnel(&tunnel(Protocol::Udp, "h:http", "g:99999")).unwrap();
    assert_eq!(expanded.len(), 1);
    assert_eq!(expanded[0].listen, "h:http");
}

#[test]
fn refused_expansion_changes_nothing() {
    let mut config = TunnelConfig {
        tunnel: vec![
            tunnel(Protocol::Udp, "h:1-2", "g:1-2"),
            tunnel(Protocol::Udp, "h:3", "g:3-4"),
        ],
    };
    assert!(config.can_expand());
    assert!(expand_port_ranges(&mut config).is_err());
    assert_eq!(config.tunnel.len(), 2);
    assert_eq!(config.tunnel[0].listen, "h:1-2");
}

#[test]
fn expanding_twice_is_expanding_once() {
    let mut config = TunnelConfig {
        tunnel: vec![
            tunnel(Protocol::Udp, "[::]:1-3", "g:11-13"),
            tunnel(Protocol::Tcp, "h:5", "g:6"),
        ],
    };
    expand_port_ranges(&mut config).unwrap();
    let once = addresses(&config);
    assert_eq!(once.len(), 4);
    expand_port_ranges(&mut config).unwrap();
    assert_eq!(addresses(&config), once);
    let again = TunnelConfig::load(config).unwrap();
    assert_eq!(addresses(&again), once);
}

#[test]
fn a_range_over_every_port_cannot_be_counted() {
    let wide = TunnelConfig {
        tunnel: vec![tunnel(Protocol::Udp, " h:0-65535", "g:0-65535 ")],
    };
    assert!(!wide.can_load());
    let nearly = TunnelConfig {
        tunnel: vec![tunnel(Protocol::Udp, "h:1-65535", "g:0-65534")],
    };
    assert!(nearly.can_load());
    let loaded = TunnelConfig::load(nearly).unwrap();
    assert_eq!(loaded.tunnel.len(), 65_535);
    assert_eq!(loaded.tunnel[65_534].listen, "h:65535");
    assert_eq!(loaded.tunnel[65_534].forward, "g:65534");
}

#[test]
fn white_space_of_any_kind_is_cut_off() {
    let parsed = TunnelConfig {
        tunnel: vec![tunnel(
            Protocol::Udp,
            "\u{3000}\t\r\nh:1\u{a0}\u{2009}\u{85}",
            "\u{200b}g:1\u{feff}",
        )],
    };
    let cut = parsed.trim_addresses();
    assert_eq!(cut.tunnel[0].listen, "h:1");
    // Neither of these is white space.
    assert_eq!(cut.tunnel[0].forward, "\u{200b}g:1\u{feff}");
    let blank = TunnelConfig {
        tunnel: vec![tunnel(Protocol::Udp, " \t ", "a b")],
    };
    let cut = blank.trim_addresses();
    assert_eq!(cut.tunnel[0].listen, "");
    assert_eq!(cut.tunnel[0].forward, "a b");
}

#[test]
fn the_template_is_not_written_over_a_file() {
    assert_eq!(
        TunnelConfig::create_template("c.toml", false, false).unwrap(),
        TEMPLATE
    );
    assert_eq!(
        TunnelConfig::create_template("c.toml", true, true).unwrap(),
        TEMPLATE
    );
    assert_eq!(
        TunnelConfig::create_template("c.toml", true, false)
            .unwrap_err()
            .message(),
        "c.toml already exists. Use --force to overwrite."
    );
    assert!(TEMPLATE.starts_with("# 配置模板 (TOML)\n"));
    assert!(TEMPLATE.contains("listen = \"[::]:7777\"\nforward = \"127.0.0.1:8888\"\nenable = true\n"));
    assert!(TEMPLATE.ends_with("# enable = true\n"));
}

#[test]
fn disabled_tunnels_are_not_run() {
    let mut off = tunnel(Protocol::Udp, "off:1", "g:1");
    off.enable = false;
    let config = TunnelConfig {
        tunnel: vec![
            tunnel(Protocol::Udp, "a:1", "g:1"),
            off,
            tunnel(Protocol::Tcp, "b:1", "g:1"),
        ],
    };
    let on = config.enabled();
    assert_eq!(on.len(), 2);
    assert_eq!(on[0].listen, "a:1");
    assert_eq!(on[1].listen, "b:1");
    assert!(default_enable_true());
}

#[test]
fn the_template_describes_one_udp_tunnel() {
    let table: toml::Table = toml::from_str(TEMPLATE).unwrap();
    let tunnels = table["tunnel"].as_array().unwrap();
    assert_eq!(tunnels.len(), 1);
    assert_eq!(tunnels[0]["protocol"].as_str(), Some("udp"));
    assert_eq!(tunnels[0]["listen"].as_str(), Some("[::]:7777"));
    assert_eq!(tunnels[0]["forward"].as_str(), Some("127.0.0.1:8888"));
    assert_eq!(tunnels[0]["enable"].as_bool(), Some(true));
}
