use nullae::address::{is_ip_address, is_ipv6_address};
use nullae::entity::ip::Ip;
use nullae::entity::HashID;
use nullae::error::Error;

/// `None` for no address, `Some(false)` for IPv4, `Some(true)` for IPv6.
fn kind(s: &str) -> Option<bool> {
    if is_ip_address(s) {
        Some(is_ipv6_address(s))
    } else {
        None
    }
}

const V4: Option<bool> = Some(false);
const V6: Option<bool> = Some(true);
const NO: Option<bool> = None;

#[test]
fn ipv4_texts() {
    let cases: &[(&str, Option<bool>)] = &[
        ("0.0.0.0", V4),
        ("10.0.0.1", V4),
        ("255.255.255.255", V4),
        ("256.0.0.1", NO),
        ("999.1.1.1", NO),
        ("1234.1.1.1", NO),
        ("1.2.3", NO),
        ("1.2.3.4.5", NO),
        ("01.2.3.4", NO),
        ("1.02.3.4", NO),
        ("1.2.3.04", NO),
        ("0.0.0.00", NO),
        ("1..2.3", NO),
        ("1.2.3.4 ", NO),
        (" 1.2.3.4", NO),
        ("1.2.3.-4", NO),
        ("1.2.3.4:80", NO),
        ("1.2.3.4\u{0}", NO),
        ("\u{661}.\u{662}.\u{663}.\u{664}", NO),
        ("", NO),
        (" ", NO),
        ("a", NO),
    ];
    for (s, want) in cases {
        assert_eq!(kind(s), *want, "on {:?}", s);
    }
}

#[test]
fn ipv6_texts() {
    let cases: &[(&str, Option<bool>)] = &[
        ("::", V6),
        ("::1", V6),
        ("1::", V6),
        ("1::2", V6),
        ("fe80::1", V6),
        ("FE80::ABCD", V6),
        ("0000:0000::0001", V6),
        ("2001:db8::8a2e:370:7334", V6),
        ("1:2:3:4:5:6:7:8", V6),
        ("1:2:3:4:5:6:7::", V6),
        ("::1:2:3:4:5:6:7", V6),
        ("1::2:3:4:5:6:7", V6),
        ("::0:0:0:0:0:0:0", V6),
        ("0:0:0:0:0:0:0::", V6),
        ("fe80::1%eth0", NO),
        ("1:2:3:4:5:6:7:8:9", NO),
        ("1:2:3:4:5:6:7", NO),
        ("1:2:3:4::5:6:7:8", NO),
        ("1:2:3:4:5:6:7:8::", NO),
        (":::", NO),
        ("1:::2", NO),
        (":1::2", NO),
        ("1::2:", NO),
        ("::1:", NO),
        ("1::2::3", NO),
        ("12345::1", NO),
        ("g::1", NO),
        (":", NO),
        ("1:", NO),
        (":1", NO),
        ("1:2", NO),
    ];
    for (s, want) in cases {
        assert_eq!(kind(s), *want, "on {:?}", s);
    }
}

#[test]
fn ipv6_texts_with_trailing_ipv4() {
    let cases: &[(&str, Option<bool>)] = &[
        ("::ffff:1.2.3.4", V6),
        ("::ffff:192.168.1.1", V6),
        ("::1.2.3.4", V6),
        ("1:2:3:4:5:6:1.2.3.4", V6),
        ("1:2:3:4:5::1.2.3.4", V6),
        ("::ffff:1.2.3", NO),
        ("1:2:3:4:5:6:7:1.2.3.4", NO),
        ("1:2:3:4:5:6::1.2.3.4", NO),
        ("::1.2.3.4:5", NO),
        ("1.2.3.4::", NO),
        ("1:2.3.4.5::", NO),
        ("::1.2.3.4.5", NO),
        ("::01.2.3.4", NO),
        ("::256.1.1.1", NO),
    ];
    for (s, want) in cases {
        assert_eq!(kind(s), *want, "on {:?}", s);
    }
}

#[test]
fn ip_new_checks_the_address() {
    let parent = HashID::from_bytes([7u8; 32]);
    assert!(Ip::new("2001:db8::1", 64, &parent).is_ok());
    assert!(Ip::new("192.168.0.1", 24, &parent).is_ok());
    match Ip::new("192.168.0.256", 24, &parent) {
        Err(Error::InvalidIpAddress { address }) => assert_eq!(address, "192.168.0.256"),
        _ => panic!("an invalid address was accepted"),
    }
    assert!(matches!(Ip::new("\t", 24, &parent), Err(Error::EmptyIpAddress)));
}
