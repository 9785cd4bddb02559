use sqelf::server::{Bind, Config, Protocol, Receiver};

fn read(s: &str) -> Bind {
    match Bind::from_str(s) {
        Ok(bind) => bind,
        Err(err) => panic!("no bind string fails, but {:?} gave {:?}", s, err),
    }
}

#[test]
fn a_tcp_bind_string_is_read() {
    let bind = read("tcp://127.0.0.1:12201");
    assert_eq!(bind.addr, "127.0.0.1:12201");
    assert!(matches!(bind.protocol, Protocol::Tcp));
}

#[test]
fn a_udp_bind_string_is_read() {
    let bind = read("udp://0.0.0.0:514");
    assert_eq!(bind.addr, "0.0.0.0:514");
    assert!(matches!(bind.protocol, Protocol::Udp));
}

#[test]
fn a_bare_address_is_udp() {
    let bind = read("10.1.2.3:9000");
    assert_eq!(bind.addr, "10.1.2.3:9000");
    assert!(matches!(bind.protocol, Protocol::Udp));
}

#[test]
fn an_unknown_scheme_stays_in_the_address() {
    let bind = read("http://example.com:80");
    assert_eq!(bind.addr, "http://example.com:80");
    assert!(matches!(bind.protocol, Protocol::Udp));
}

#[test]
fn a_scheme_alone_leaves_an_empty_address() {
    let bind = read("tcp://");
    assert_eq!(bind.addr, "");
    assert!(matches!(bind.protocol, Protocol::Tcp));
}

#[test]
fn short_and_empty_strings_are_addresses() {
    for s in ["", "tcp", "tcp:/", "udp:/"] {
        let bind = read(s);
        assert_eq!(bind.addr, s);
        assert!(matches!(bind.protocol, Protocol::Udp));
    }
}

#[test]
fn the_scheme_is_matched_exactly() {
    for s in ["TCP://1.2.3.4:5", "tcp:/\u{2f}\u{2f}", " tcp://1.2.3.4:5", "tcq://1.2.3.4:5"] {
        let bind = read(s);
        if s == "tcp:/\u{2f}\u{2f}" {
            assert_eq!(bind.addr, "/");
            assert!(matches!(bind.protocol, Protocol::Tcp));
        } else {
            assert_eq!(bind.addr, s);
            assert!(matches!(bind.protocol, Protocol::Udp));
        }
    }
}

#[test]
fn characters_of_several_bytes_are_kept() {
    let bind = read("tcp://h\u{f6}st:1");
    assert_eq!(bind.addr, "h\u{f6}st:1");
    assert!(matches!(bind.protocol, Protocol::Tcp));

    let bind = read("t\u{e7}p://host:1");
    assert_eq!(bind.addr, "t\u{e7}p://host:1");
    assert!(matches!(bind.protocol, Protocol::Udp));

    let bind = read("\u{1f600}\u{1f600}");
    assert_eq!(bind.addr, "\u{1f600}\u{1f600}");
    assert!(matches!(bind.protocol, Protocol::Udp));
}

#[test]
fn the_default_configuration() {
    let config = Config::default();
    assert_eq!(config.bind.addr, "0.0.0.0:12201");
    assert!(matches!(config.bind.protocol, Protocol::Udp));
    assert_eq!(config.tcp_keep_alive_secs, 120);
    assert_eq!(config.tcp_max_size_bytes, 262144);
}

#[test]
fn the_default_configuration_receives_on_udp() {
    assert!(matches!(Config::default().receiver(), Receiver::Udp));
}

#[test]
fn a_tcp_configuration_hands_its_limits_to_the_receiver() {
    let config = Config {
        bind: read("tcp://0.0.0.0:12201"),
        tcp_keep_alive_secs: 7,
        tcp_max_size_bytes: 4096,
    };
    match config.receiver() {
        Receiver::Tcp { keep_alive_secs, max_size_bytes } => {
            assert_eq!(keep_alive_secs, 7);
            assert_eq!(max_size_bytes, 4096);
        }
        other => panic!("expected TCP, got {:?}", other),
    }
}
