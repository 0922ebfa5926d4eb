use ores_cli_sidecar_module::address::{classify_bind_ip, BindIpClass};

fn class(text: &str) -> BindIpClass {
    classify_bind_ip(text)
}

#[test]
fn ipv4_addresses() {
    assert_eq!(class("127.0.0.1"), BindIpClass::Loopback);
    assert_eq!(class("127.255.255.254"), BindIpClass::Loopback);
    assert_eq!(class("0.0.0.0"), BindIpClass::NotLoopback);
    assert_eq!(class("10.0.0.5"), BindIpClass::NotLoopback);
    assert_eq!(class("255.255.255.255"), BindIpClass::NotLoopback);
    assert_eq!(class("128.0.0.1"), BindIpClass::NotLoopback);
}

#[test]
fn malformed_ipv4_texts() {
    for text in [
        "", "256.0.0.1", "01.2.3.4", "1.2.3", "1.2.3.4.5", "1.2.3.4 ", " 1.2.3.4", "1..2.3",
        "1.2.3.4.", "localhost", "1.2.3.0004", "1.2.3.-4", "1.2.3.a",
    ] {
        assert_eq!(class(text), BindIpClass::Invalid, "{text}");
    }
}

#[test]
fn ipv6_addresses() {
    assert_eq!(class("::1"), BindIpClass::Loopback);
    assert_eq!(class("0:0:0:0:0:0:0:1"), BindIpClass::Loopback);
    assert_eq!(class("0000:0000:0000:0000:0000:0000:0000:0001"), BindIpClass::Loopback);
    assert_eq!(class("::0.0.0.1"), BindIpClass::Loopback);
    assert_eq!(class("::"), BindIpClass::NotLoopback);
    assert_eq!(class("::ffff:127.0.0.1"), BindIpClass::NotLoopback);
    assert_eq!(class("::FFFF:1.1.1.1"), BindIpClass::NotLoopback);
    assert_eq!(class("1:2:3:4:5:6:7:8"), BindIpClass::NotLoopback);
    assert_eq!(class("1:2:3:4:5:6:7::"), BindIpClass::NotLoopback);
    assert_eq!(class("::1:2:3:4:5:6:7"), BindIpClass::NotLoopback);
    assert_eq!(class("1::"), BindIpClass::NotLoopback);
    assert_eq!(class("fe80::abcd:EF01"), BindIpClass::NotLoopback);
    assert_eq!(class("1:2:3:4:5:6:1.2.3.4"), BindIpClass::NotLoopback);
    assert_eq!(class("1:2:3:4:5::1.2.3.4"), BindIpClass::NotLoopback);
    assert_eq!(class("0::1"), BindIpClass::Loopback);
}

#[test]
fn malformed_ipv6_texts() {
    for text in [
        "1::2::3", ":::", "::1:", ":1::", "1:2:3:4:5:6:7:8:9", "1:2:3:4:5:6:7:8::", "12345::",
        "fe80::1%eth0", "1:2:3:4:5:6:7:1.2.3.4", "1:2:3:4:5:6::1.2.3.4", "[::1]", "1:",
        "1.2.3.4::", "::1.2.3.4:5", "1:2:3:4:5:6:7", ":1:2:3:4:5:6:7", "::g", "1:::2",
        "1:2.3.4.5::",
    ] {
        assert_eq!(class(text), BindIpClass::Invalid, "{text}");
    }
}
