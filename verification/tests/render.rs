use ingress_guard::address::IpAddress;
use ingress_guard::config::key_name;
use ingress_guard::parse::parse_ip;

fn v6(groups: [u16; 8]) -> IpAddress {
    let mut bits: u128 = 0;
    for g in groups {
        bits = bits * 65536 + g as u128;
    }
    IpAddress::V6(bits)
}

#[test]
fn v4_is_a_dotted_quad() {
    assert_eq!(IpAddress::v4(203, 0, 113, 5).to_text(), "203.0.113.5");
    assert_eq!(IpAddress::v4(0, 0, 0, 0).to_text(), "0.0.0.0");
    assert_eq!(IpAddress::v4(255, 255, 255, 255).to_text(), "255.255.255.255");
    assert_eq!(IpAddress::v4(127, 0, 0, 1).to_text(), "127.0.0.1");
    assert_eq!(IpAddress::v4(10, 100, 9, 99).to_text(), "10.100.9.99");
}

#[test]
fn v6_leaves_out_the_longest_run_of_zeros() {
    assert_eq!(v6([0, 0, 0, 0, 0, 0, 0, 0]).to_text(), "::");
    assert_eq!(v6([0, 0, 0, 0, 0, 0, 0, 1]).to_text(), "::1");
    assert_eq!(v6([1, 0, 0, 0, 0, 0, 0, 0]).to_text(), "1::");
    assert_eq!(v6([0x2001, 0xdb8, 0, 0, 0, 0, 0, 1]).to_text(), "2001:db8::1");
    assert_eq!(v6([1, 0, 0, 2, 0, 0, 0, 3]).to_text(), "1:0:0:2::3");
    assert_eq!(v6([1, 0, 0, 0, 2, 0, 0, 0]).to_text(), "1::2:0:0:0");
    assert_eq!(v6([0, 0, 1, 0, 0, 0, 0, 1]).to_text(), "0:0:1::1");
    assert_eq!(v6([0, 0, 1, 0, 0, 2, 0, 0]).to_text(), "::1:0:0:2:0:0");
    assert_eq!(v6([1, 2, 3, 4, 5, 6, 0, 0]).to_text(), "1:2:3:4:5:6::");
}

#[test]
fn v6_keeps_a_single_zero() {
    assert_eq!(v6([1, 0, 2, 3, 4, 5, 6, 7]).to_text(), "1:0:2:3:4:5:6:7");
    assert_eq!(v6([0, 1, 0, 1, 0, 1, 0, 1]).to_text(), "0:1:0:1:0:1:0:1");
    assert_eq!(v6([1, 2, 3, 4, 5, 6, 7, 0]).to_text(), "1:2:3:4:5:6:7:0");
}

#[test]
fn v6_is_lower_case_without_leading_zeros() {
    assert_eq!(
        v6([0xABCD, 0x0EF0, 0x0001, 0x0010, 0x0100, 0x1000, 0xFFFF, 0x000A]).to_text(),
        "abcd:ef0:1:10:100:1000:ffff:a"
    );
}

#[test]
fn mapped_v4_is_written_with_its_dotted_quad() {
    assert_eq!(v6([0, 0, 0, 0, 0, 0xffff, 0x0102, 0x0304]).to_text(), "::ffff:1.2.3.4");
    assert_eq!(v6([0, 0, 0, 0, 0, 0xffff, 0, 0]).to_text(), "::ffff:0.0.0.0");
    assert_eq!(v6([0, 0, 0, 0, 0, 0, 0x0102, 0x0304]).to_text(), "::102:304");
    assert_eq!(v6([0, 0, 0, 0, 1, 0xffff, 0x0102, 0x0304]).to_text(), "::1:ffff:102:304");
}

#[test]
fn key_name_is_the_address() {
    assert_eq!(key_name(&IpAddress::v4(203, 0, 113, 5)), Some("203.0.113.5".to_string()));
    assert_eq!(key_name(&IpAddress::V6(1)), Some("::1".to_string()));
}

#[test]
fn text_is_read_back_as_the_address() {
    let mut samples = vec![
        IpAddress::V4(0),
        IpAddress::V4(u32::MAX),
        IpAddress::V4(0x7f00_0001),
        IpAddress::V6(0),
        IpAddress::V6(1),
        IpAddress::V6(u128::MAX),
        v6([0, 0, 0, 0, 0, 0xffff, 0x0102, 0x0304]),
        v6([1, 0, 0, 2, 0, 0, 0, 3]),
        v6([0, 0, 1, 0, 0, 2, 0, 0]),
        v6([1, 0, 2, 3, 4, 5, 6, 7]),
    ];
    let mut x: u128 = 0x0123_4567_89ab_cdef_0f1e_2d3c_4b5a_6978;
    for i in 0..2000u32 {
        x = x.wrapping_mul(0x2360_ed05_1fc6_5da4_4385_df64_9fcc_f645).wrapping_add(i as u128 | 1);
        let mut masked = x;
        for group in 0..8 {
            if (x >> (group * 3)) & 3 == 0 {
                masked &= !(0xffffu128 << (group * 16));
            }
        }
        samples.push(IpAddress::V6(masked));
        samples.push(IpAddress::V4((x >> 64) as u32));
    }
    for ip in samples {
        assert_eq!(parse_ip(&ip.to_text()), Some(ip), "text {:?}", ip.to_text());
    }
}
