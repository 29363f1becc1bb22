use ip_location::addr::{parse_ipv4, parse_ipv6};

#[test]
fn ipv4_basic() {
    assert_eq!(parse_ipv4("1.2.3.4"), Some(16909060));
    assert_eq!(parse_ipv4("0.0.0.0"), Some(0));
    assert_eq!(parse_ipv4("255.255.255.255"), Some(u32::MAX));
    assert_eq!(parse_ipv4("0.0.3.232"), Some(1000));
}

#[test]
fn ipv4_rejects_octet_over_255() {
    assert_eq!(parse_ipv4("256.0.0.1"), None);
    assert_eq!(parse_ipv4("1.2.3.999"), None);
}

#[test]
fn ipv4_rejects_leading_zero() {
    assert_eq!(parse_ipv4("01.0.0.1"), None);
    assert_eq!(parse_ipv4("1.2.3.00"), None);
    assert_eq!(parse_ipv4("0.0.0.0"), Some(0));
}

#[test]
fn ipv4_rejects_wrong_shape() {
    assert_eq!(parse_ipv4(""), None);
    assert_eq!(parse_ipv4("1.2.3"), None);
    assert_eq!(parse_ipv4("1.2.3.4.5"), None);
    assert_eq!(parse_ipv4("1..2.3"), None);
    assert_eq!(parse_ipv4("1.2.3.4."), None);
    assert_eq!(parse_ipv4(".1.2.3.4"), None);
    assert_eq!(parse_ipv4("a.b.c.d"), None);
    assert_eq!(parse_ipv4("1.2.3.4 "), None);
}

#[test]
fn ipv6_full_form() {
    assert_eq!(
        parse_ipv6("1:2:3:4:5:6:7:8"),
        Some(
            (1u128 << 112)
                | (2u128 << 96)
                | (3u128 << 80)
                | (4u128 << 64)
                | (5u128 << 48)
                | (6u128 << 32)
                | (7u128 << 16)
                | 8u128
        )
    );
    assert_eq!(
        parse_ipv6("ffff:ffff:ffff:ffff:ffff:ffff:ffff:ffff"),
        Some(u128::MAX)
    );
}

#[test]
fn ipv6_compressed() {
    assert_eq!(parse_ipv6("::"), Some(0));
    assert_eq!(parse_ipv6("::1"), Some(1));
    assert_eq!(parse_ipv6("1::"), Some(1u128 << 112));
    assert_eq!(parse_ipv6("2001:db8::1"), Some((0x2001u128 << 112) | (0xdb8u128 << 96) | 1));
    assert_eq!(parse_ipv6("1:2:3:4:5:6:7::"), parse_ipv6("1:2:3:4:5:6:7:0"));
    assert_eq!(parse_ipv6("::2:3:4:5:6:7:8"), parse_ipv6("0:2:3:4:5:6:7:8"));
}

#[test]
fn ipv6_case_insensitive_hex() {
    assert_eq!(parse_ipv6("AbCd::"), Some(0xabcdu128 << 112));
}

#[test]
fn ipv6_rejects_malformed() {
    assert_eq!(parse_ipv6(""), None);
    assert_eq!(parse_ipv6(":"), None);
    assert_eq!(parse_ipv6(":::"), None);
    assert_eq!(parse_ipv6("1::2::3"), None);
    assert_eq!(parse_ipv6("12345::"), None);
    assert_eq!(parse_ipv6("1:2:3:4:5:6:7:8:9"), None);
    assert_eq!(parse_ipv6("1:2:3:4:5:6:7:8::"), None);
    assert_eq!(parse_ipv6("1:2:3:4:5:6:7"), None);
    assert_eq!(parse_ipv6("g::1"), None);
    assert_eq!(parse_ipv6("1:"), None);
    assert_eq!(parse_ipv6(":1"), None);
}
