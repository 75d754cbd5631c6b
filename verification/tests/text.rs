use db_ip::addr::IpAddress;
use db_ip::text::{parse_address, parse_ipv4, parse_ipv6, split_fields};

#[test]
fn split_fields_cuts_at_each_separator() {
    let f = split_fields(b"a.bc..d", b'.');
    assert_eq!(f, vec![&b"a"[..], &b"bc"[..], &b""[..], &b"d"[..]]);
    assert_eq!(split_fields(b"", b'.'), vec![&b""[..]]);
    assert_eq!(split_fields(b".", b'.'), vec![&b""[..], &b""[..]]);
    assert_eq!(split_fields(b"abc", b':'), vec![&b"abc"[..]]);
}

#[test]
fn ipv4_literals_are_read() {
    assert_eq!(parse_ipv4(b"0.0.0.0"), Some(0));
    assert_eq!(parse_ipv4(b"1.0.0.0"), Some(0x0100_0000));
    assert_eq!(parse_ipv4(b"1.0.0.255"), Some(0x0100_00ff));
    assert_eq!(parse_ipv4(b"94.250.200.0"), Some(0x5efa_c800));
    assert_eq!(parse_ipv4(b"255.255.255.255"), Some(u32::MAX));
    assert_eq!(parse_ipv4(b"192.168.1.10"), Some(0xc0a8_010a));
}

#[test]
fn malformed_ipv4_literals_are_refused() {
    for t in [
        "", "1", "1.2.3", "1.2.3.4.5", "1.2.3.", ".1.2.3", "1..2.3", "256.1.1.1", "1.2.3.256",
        "01.2.3.4", "1.2.3.04", "1.2.3.4 ", " 1.2.3.4", "a.b.c.d", "1.2.3.-4", "1.2.3.0x4",
        "1000.1.1.1", "1,2,3,4", "::1", "1.2.3.4\n", "+1.2.3.4", "00.0.0.0",
    ] {
        assert_eq!(parse_ipv4(t.as_bytes()), None, "{}", t);
    }
}

#[test]
fn ipv6_literals_are_read() {
    assert_eq!(parse_ipv6(b"::"), Some(0));
    assert_eq!(parse_ipv6(b"::1"), Some(1));
    assert_eq!(parse_ipv6(b"1::"), Some(1u128 << 112));
    assert_eq!(
        parse_ipv6(b"2a07:7ec5:77a1::"),
        Some(0x2a07_7ec5_77a1_0000_0000_0000_0000_0000)
    );
    assert_eq!(
        parse_ipv6(b"1:2:3:4:5:6:7:8"),
        Some(0x0001_0002_0003_0004_0005_0006_0007_0008)
    );
    assert_eq!(
        parse_ipv6(b"1fff:ffff:ffff:ffff:ffff:ffff:ffff:ffff"),
        Some(0x1fff_ffff_ffff_ffff_ffff_ffff_ffff_ffff)
    );
    assert_eq!(
        parse_ipv6(b"FFFF:ffff:FfFf:ffff:ffff:ffff:ffff:ffff"),
        Some(u128::MAX)
    );
    assert_eq!(
        parse_ipv6(b"2001:db8::ff00:42:8329"),
        Some(0x2001_0db8_0000_0000_0000_ff00_0042_8329)
    );
    assert_eq!(
        parse_ipv6(b"1:2:3:4:5:6:7::"),
        Some(0x0001_0002_0003_0004_0005_0006_0007_0000)
    );
    assert_eq!(
        parse_ipv6(b"::2:3:4:5:6:7:8"),
        Some(0x0000_0002_0003_0004_0005_0006_0007_0008)
    );
    assert_eq!(parse_ipv6(b"0001:0:00:000::"), Some(1u128 << 112));
}

#[test]
fn ipv6_literals_may_end_in_dotted_decimal() {
    assert_eq!(parse_ipv6(b"::ffff:192.0.2.1"), Some(0xffff_c000_0201));
    assert_eq!(parse_ipv6(b"::1.2.3.4"), Some(0x0102_0304));
    assert_eq!(
        parse_ipv6(b"1:2:3:4:5:6:1.2.3.4"),
        Some(0x0001_0002_0003_0004_0005_0006_0102_0304)
    );
    assert_eq!(
        parse_ipv6(b"64:ff9b::255.255.255.255"),
        Some(0x0064_ff9b_0000_0000_0000_0000_ffff_ffff)
    );
    assert_eq!(parse_ipv6(b"1:2:3:4:5:6:7:1.2.3.4"), None);
    assert_eq!(parse_ipv6(b"1:2:3:4:5:6::1.2.3.4"), None);
    assert_eq!(parse_ipv6(b"1.2.3.4::"), None);
    assert_eq!(parse_ipv6(b"::1.2.3.4:5"), None);
    assert_eq!(parse_ipv6(b"1.2.3.4"), None);
    assert_eq!(parse_ipv6(b"::1.2.3"), None);
    assert_eq!(parse_ipv6(b"::1.2.3.256"), None);
}

#[test]
fn malformed_ipv6_literals_are_refused() {
    for t in [
        "", ":", ":::", "1", "1:2", "1:2:3:4:5:6:7", "1:2:3:4:5:6:7:8:9", "1:2:3:4:5:6:7:8::",
        "::1:2:3:4:5:6:7:8", "1::2::3", ":1::2", "1::2:", ":1:2:3:4:5:6:7:8", "1:2:3:4:5:6:7:8:",
        "12345::", "::g", "1:2:3:4:5:6:7:g", "::1 ", " ::1", "1:::2", "::-1", "fe80::1%eth0",
        "1:2:3:4::5:6:7:8", "[::1]", "0x1::",
    ] {
        assert_eq!(parse_ipv6(t.as_bytes()), None, "{}", t);
    }
}

#[test]
fn an_address_is_of_the_family_of_its_literal() {
    assert_eq!(parse_address(b"1.0.4.0"), Some(IpAddress::V4(0x0100_0400)));
    assert_eq!(parse_address(b"::1"), Some(IpAddress::V6(1)));
    assert_eq!(parse_address(b"::1.0.4.0"), Some(IpAddress::V6(0x0100_0400)));
    assert_eq!(parse_address(b"nothing"), None);
    assert_eq!(parse_address(b""), None);
}
