use ingress_guard::address::IpAddress;
use ingress_guard::address::SocketAddress;
use ingress_guard::parse::parse_forwarded;
use ingress_guard::parse::parse_ip;
use ingress_guard::parse::parse_socket;

fn v6(groups: [u16; 8]) -> IpAddress {
    let mut bits: u128 = 0;
    for g in groups {
        bits = bits * 65536 + g as u128;
    }
    IpAddress::V6(bits)
}

#[test]
fn header_with_port_names_the_address() {
    assert_eq!(parse_forwarded("203.0.113.5:4711"), Some(IpAddress::v4(203, 0, 113, 5)));
}

#[test]
fn bare_header_names_the_address() {
    assert_eq!(parse_forwarded("203.0.113.5"), Some(IpAddress::v4(203, 0, 113, 5)));
}

#[test]
fn empty_header_names_nothing() {
    assert_eq!(parse_forwarded(""), None);
    assert_eq!(parse_ip(""), None);
    assert_eq!(parse_socket(""), None);
}

#[test]
fn garbage_header_names_nothing() {
    assert_eq!(parse_forwarded("not an address"), None);
    assert_eq!(parse_forwarded("203.0.113"), None);
    assert_eq!(parse_forwarded("203.0.113.5.6"), None);
    assert_eq!(parse_forwarded("203.0.113.256"), None);
    assert_eq!(parse_forwarded("203.0.113.5:"), None);
    assert_eq!(parse_forwarded("203.0.113.5:65536"), None);
    assert_eq!(parse_forwarded(" 203.0.113.5"), None);
    assert_eq!(parse_forwarded("203.0.113.5 "), None);
    assert_eq!(parse_forwarded("203.0.113.5, 10.0.0.1"), None);
    assert_eq!(parse_forwarded("\u{661}.2.3.4"), None);
}

#[test]
fn v4_value_is_big_endian() {
    assert_eq!(IpAddress::v4(127, 0, 0, 1), IpAddress::V4(0x7f00_0001));
    assert_eq!(parse_ip("1.2.3.4"), Some(IpAddress::V4(0x0102_0304)));
    assert_eq!(parse_ip("0.0.0.0"), Some(IpAddress::V4(0)));
    assert_eq!(parse_ip("255.255.255.255"), Some(IpAddress::V4(0xffff_ffff)));
}

#[test]
fn v4_octets_are_strict() {
    assert_eq!(parse_ip("01.2.3.4"), None);
    assert_eq!(parse_ip("1.2.3.04"), None);
    assert_eq!(parse_ip("1.2.3.0004"), None);
    assert_eq!(parse_ip("1..3.4"), None);
    assert_eq!(parse_ip(".1.2.3"), None);
    assert_eq!(parse_ip("1.2.3.4."), None);
    assert_eq!(parse_ip("1.2.3.a"), None);
    assert_eq!(parse_ip("1.2.3.-4"), None);
    assert_eq!(parse_ip("1.2.3.+4"), None);
    assert_eq!(parse_ip("1.2.3.4:80"), None);
}

#[test]
fn v6_full_form() {
    assert_eq!(parse_ip("1:2:3:4:5:6:7:8"), Some(v6([1, 2, 3, 4, 5, 6, 7, 8])));
    assert_eq!(
        parse_ip("2001:0db8:0000:0000:0000:ff00:0042:8329"),
        Some(v6([0x2001, 0xdb8, 0, 0, 0, 0xff00, 0x42, 0x8329]))
    );
    assert_eq!(
        parse_ip("FFFF:ffff:FfFf:ffff:ffff:ffff:ffff:ffff"),
        Some(IpAddress::V6(u128::MAX))
    );
    assert_eq!(parse_ip("1:2:3:4:5:6:7"), None);
    assert_eq!(parse_ip("1:2:3:4:5:6:7:8:9"), None);
    assert_eq!(parse_ip("1:2:3:4:5:6:7:12345"), None);
    assert_eq!(parse_ip("1:2:3:4:5:6:7:g"), None);
    assert_eq!(parse_ip(":1:2:3:4:5:6:7"), None);
    assert_eq!(parse_ip("1:2:3:4:5:6:7:"), None);
}

#[test]
fn v6_compressed_form() {
    assert_eq!(parse_ip("::"), Some(IpAddress::V6(0)));
    assert_eq!(parse_ip("::1"), Some(IpAddress::V6(1)));
    assert_eq!(parse_ip("1::"), Some(v6([1, 0, 0, 0, 0, 0, 0, 0])));
    assert_eq!(parse_ip("2001:db8::ff00:42:8329"), Some(v6([0x2001, 0xdb8, 0, 0, 0, 0xff00, 0x42, 0x8329])));
    assert_eq!(parse_ip("1:2:3:4:5:6:7::"), Some(v6([1, 2, 3, 4, 5, 6, 7, 0])));
    assert_eq!(parse_ip("::2:3:4:5:6:7:8"), Some(v6([0, 2, 3, 4, 5, 6, 7, 8])));
    assert_eq!(parse_ip("1:2:3::6:7:8"), Some(v6([1, 2, 3, 0, 0, 6, 7, 8])));
    assert_eq!(parse_ip("1:2:3:4::5:6:7:8"), None);
    assert_eq!(parse_ip("1:2:3:4:5:6:7:8::"), None);
    assert_eq!(parse_ip("::1:2:3:4:5:6:7:8"), None);
    assert_eq!(parse_ip("1::2::3"), None);
    assert_eq!(parse_ip(":::"), None);
    assert_eq!(parse_ip("1:::2"), None);
    assert_eq!(parse_ip("::1:"), None);
    assert_eq!(parse_ip(":"), None);
}

#[test]
fn v6_with_dotted_quad() {
    assert_eq!(parse_ip("::ffff:1.2.3.4"), Some(v6([0, 0, 0, 0, 0, 0xffff, 0x0102, 0x0304])));
    assert_eq!(parse_ip("::1.2.3.4"), Some(v6([0, 0, 0, 0, 0, 0, 0x0102, 0x0304])));
    assert_eq!(parse_ip("1:2:3:4:5:6:1.2.3.4"), Some(v6([1, 2, 3, 4, 5, 6, 0x0102, 0x0304])));
    assert_eq!(parse_ip("1:2:3:4:5::1.2.3.4"), Some(v6([1, 2, 3, 4, 5, 0, 0x0102, 0x0304])));
    assert_eq!(parse_ip("64:ff9b::192.0.2.33"), Some(v6([0x64, 0xff9b, 0, 0, 0, 0, 0xc000, 0x0221])));
    assert_eq!(parse_ip("1:2:3:4:5:6::1.2.3.4"), None);
    assert_eq!(parse_ip("1:2:3:4:5:6:7:1.2.3.4"), None);
    assert_eq!(parse_ip("1:2:3:4:5:1.2.3.4"), None);
    assert_eq!(parse_ip("1.2.3.4::"), None);
    assert_eq!(parse_ip("1.2.3.4:5:6:7:8:9:a"), None);
    assert_eq!(parse_ip("::1.2.3.4:5"), None);
    assert_eq!(parse_ip("::1.2.3"), None);
    assert_eq!(parse_ip("::1.2.3.04"), None);
}

#[test]
fn socket_forms() {
    let v4 = IpAddress::v4(203, 0, 113, 5);
    assert_eq!(parse_socket("203.0.113.5:4711"), Some(SocketAddress { ip: v4, port: 4711 }));
    assert_eq!(parse_socket("203.0.113.5:0"), Some(SocketAddress { ip: v4, port: 0 }));
    assert_eq!(parse_socket("203.0.113.5:65535"), Some(SocketAddress { ip: v4, port: 65535 }));
    assert_eq!(parse_socket("203.0.113.5:00080"), Some(SocketAddress { ip: v4, port: 80 }));
    assert_eq!(parse_socket("203.0.113.5"), None);
    assert_eq!(parse_socket("203.0.113.5:80:80"), None);
    assert_eq!(parse_socket("203.0.113.5:8a"), None);
    assert_eq!(parse_socket("[::1]:80"), Some(SocketAddress { ip: IpAddress::V6(1), port: 80 }));
    assert_eq!(
        parse_socket("[2001:db8::1]:443"),
        Some(SocketAddress { ip: v6([0x2001, 0xdb8, 0, 0, 0, 0, 0, 1]), port: 443 })
    );
    assert_eq!(
        parse_socket("[fe80::1%3]:80"),
        Some(SocketAddress { ip: v6([0xfe80, 0, 0, 0, 0, 0, 0, 1]), port: 80 })
    );
    assert_eq!(
        parse_socket("[fe80::1%4294967295]:80"),
        Some(SocketAddress { ip: v6([0xfe80, 0, 0, 0, 0, 0, 0, 1]), port: 80 })
    );
    assert_eq!(parse_socket("[fe80::1%4294967296]:80"), None);
    assert_eq!(parse_socket("[fe80::1%]:80"), None);
    assert_eq!(parse_socket("[fe80::1%eth0]:80"), None);
    assert_eq!(parse_socket("[fe80::1%1%2]:80"), None);
    assert_eq!(parse_socket("[::1]"), None);
    assert_eq!(parse_socket("[::1]:"), None);
    assert_eq!(parse_socket("[::1]80"), None);
    assert_eq!(parse_socket("::1:80"), None);
    assert_eq!(parse_socket("[::1]:80]"), None);
    assert_eq!(parse_socket("[[::1]:80"), None);
    assert_eq!(parse_socket("[1.2.3.4]:80"), None);
    assert_eq!(parse_socket("[]:80"), None);
}

#[test]
fn forwarded_prefers_the_socket_form() {
    assert_eq!(parse_forwarded("[::1]:80"), Some(IpAddress::V6(1)));
    assert_eq!(parse_forwarded("::1"), Some(IpAddress::V6(1)));
    assert_eq!(parse_forwarded("[::1]"), None);
}
