//! The text form of addresses.

use wireutils::address::{is_address, parse_ip, parse_v4, parse_v6, Ip};

#[test]
fn texts_that_are_addresses() {
    for text in [
        "0.0.0.0", "255.255.255.255", "::", "::1", "1::", "1::8", "1:2:3:4:5:6:7:8",
        "1:2:3:4:5:6:7::", "::2:3:4:5:6:7:8", "1::3:4:5:6:7:8", "::1.2.3.4", "::ffff:1.2.3.4",
        "64:ff9b::1.2.3.4", "1:2:3:4:5:6:1.2.3.4", "FE80::aBcD", "2001:db8:1234::5",
        "2a00:1450:4001::1", "1::0001",
    ] {
        assert!(parse_ip(text).is_some(), "{text:?}");
    }
}

#[test]
fn texts_that_are_no_addresses() {
    for text in [
        "", "256.1.1.1", "1.2.3", "1.2.3.4.5", "01.2.3.4", "1.2.3.00", "1.2.3.4 ", " 1.2.3.4",
        "1..3.4", "+1.2.3.4", "1.2.3.4/24", "1:2:3:4:5:6:7", "1:2:3:4:5:6:7:8:9",
        "1:2:3:4::5:6:7:8", "12345::", "g::", "1:::2", "1::2::3", ":1::", "1:", ":1",
        "1:2:3:4:5:6:7:1.2.3.4", "::1.2.3.4:5", "1.2.3.4::", "::1.2.3", "::1.2.3.456",
        "fe80::1%eth0", "::00001", "example.com",
    ] {
        assert_eq!(parse_ip(text), None, "{text:?}");
    }
}

#[test]
fn either_family_is_told_apart() {
    assert_eq!(parse_ip("1.2.3.4"), Some(Ip::V4([1, 2, 3, 4])));
    assert_eq!(parse_ip("1::2"), Some(Ip::V6([1, 0, 0, 0, 0, 0, 0, 2])));
}

#[test]
fn four_numbers_make_an_address() {
    assert_eq!(parse_v4("10.0.255.9"), Some([10, 0, 255, 9]));
    assert_eq!(parse_v4("10.0.256.9"), None);
}

#[test]
fn a_run_of_zero_groups_may_be_left_out() {
    assert_eq!(
        parse_v6("2001:db8::1"),
        Some([0x2001, 0xdb8, 0, 0, 0, 0, 0, 1])
    );
    assert_eq!(
        parse_v6("::ffff:1.2.3.4"),
        Some([0, 0, 0, 0, 0, 0xffff, 0x102, 0x304])
    );
}

#[test]
fn a_prefix_length_may_follow() {
    for good in ["1.2.3.4/0", "1.2.3.4/32", "::/0", "::1/128", "1.2.3.4/+24", "1.2.3.4/024"] {
        assert!(is_address(good), "{good}");
    }
    for bad in [
        "1.2.3.4/33", "::1/129", "1.2.3.4/-1", "1.2.3.4/ 24", "1.2.3.4/24/1", "/24", "1.2.3.4/x",
        "1.2.3.4/256",
    ] {
        assert!(!is_address(bad), "{bad}");
    }
}
