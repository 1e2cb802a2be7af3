use cosmo_sysconf::ip::{parse_ip_addr, IpAddress};

fn v4(a: u8, b: u8, c: u8, d: u8) -> Option<IpAddress> {
    Some(IpAddress::V4([a, b, c, d]))
}

fn v6(g: [u16; 8]) -> Option<IpAddress> {
    Some(IpAddress::V6(g))
}

#[test]
fn ipv4_dotted_decimal() {
    assert_eq!(parse_ip_addr("1.2.3.4"), v4(1, 2, 3, 4));
    assert_eq!(parse_ip_addr("0.0.0.0"), v4(0, 0, 0, 0));
    assert_eq!(parse_ip_addr("255.255.255.255"), v4(255, 255, 255, 255));
    assert_eq!(parse_ip_addr("192.168.10.1"), v4(192, 168, 10, 1));
}

#[test]
fn ipv4_rejects_malformed() {
    assert_eq!(parse_ip_addr("256.1.1.1"), None);
    assert_eq!(parse_ip_addr("01.2.3.4"), None);
    assert_eq!(parse_ip_addr("1.2.3"), None);
    assert_eq!(parse_ip_addr("1.2.3.4.5"), None);
    assert_eq!(parse_ip_addr("1.2.3.4 "), None);
    assert_eq!(parse_ip_addr("1.2.3.0004"), None);
    assert_eq!(parse_ip_addr(""), None);
    assert_eq!(parse_ip_addr("1..2.3"), None);
    assert_eq!(parse_ip_addr("a.b.c.d"), None);
}

#[test]
fn ipv6_forms() {
    assert_eq!(parse_ip_addr("1:2:3:4:5:6:7:8"), v6([1, 2, 3, 4, 5, 6, 7, 8]));
    assert_eq!(parse_ip_addr("::"), v6([0; 8]));
    assert_eq!(parse_ip_addr("::1"), v6([0, 0, 0, 0, 0, 0, 0, 1]));
    assert_eq!(parse_ip_addr("1::"), v6([1, 0, 0, 0, 0, 0, 0, 0]));
    assert_eq!(parse_ip_addr("fe80::1:2"), v6([0xfe80, 0, 0, 0, 0, 0, 1, 2]));
    assert_eq!(
        parse_ip_addr("2001:DB8:0:0:0:0:0:FFFF"),
        v6([0x2001, 0xdb8, 0, 0, 0, 0, 0, 0xffff])
    );
    assert_eq!(parse_ip_addr("1:2:3:4:5:6:7::"), v6([1, 2, 3, 4, 5, 6, 7, 0]));
    assert_eq!(parse_ip_addr("::2:3:4:5:6:7:8"), v6([0, 2, 3, 4, 5, 6, 7, 8]));
    assert_eq!(parse_ip_addr("0001:002:03:4::"), v6([1, 2, 3, 4, 0, 0, 0, 0]));
}

#[test]
fn ipv6_embedded_ipv4() {
    assert_eq!(
        parse_ip_addr("::ffff:192.0.2.1"),
        v6([0, 0, 0, 0, 0, 0xffff, 0xc000, 0x0201])
    );
    assert_eq!(
        parse_ip_addr("1:2:3:4:5:6:1.2.3.4"),
        v6([1, 2, 3, 4, 5, 6, 0x0102, 0x0304])
    );
    assert_eq!(parse_ip_addr("::1.2.3.4"), v6([0, 0, 0, 0, 0, 0, 0x0102, 0x0304]));
}

#[test]
fn ipv6_rejects_malformed() {
    assert_eq!(parse_ip_addr("1:2:3:4:5:6:7"), None);
    assert_eq!(parse_ip_addr("1:2:3:4:5:6:7:8:9"), None);
    assert_eq!(parse_ip_addr("12345::"), None);
    assert_eq!(parse_ip_addr("1:::2"), None);
    assert_eq!(parse_ip_addr("1::2::3"), None);
    assert_eq!(parse_ip_addr("::1:2:3:4:5:6:7:8"), None);
    assert_eq!(parse_ip_addr("1:2:3:4:5:6:7:1.2.3.4"), None);
    assert_eq!(parse_ip_addr("1.2.3.4::"), None);
    assert_eq!(parse_ip_addr("g::"), None);
    assert_eq!(parse_ip_addr(":1"), None);
    assert_eq!(parse_ip_addr("[::1]"), None);
}

#[test]
fn round_trip_of_texts() {
    // The dotted-decimal and full eight-group texts read back as the address.
    for o in [[0u8, 0, 0, 0], [10, 0, 0, 1], [255, 0, 99, 100], [1, 22, 133, 4]] {
        let text = format!("{}.{}.{}.{}", o[0], o[1], o[2], o[3]);
        assert_eq!(parse_ip_addr(&text), Some(IpAddress::V4(o)));
    }
    for g in [[0u16; 8], [0xffff; 8], [1, 0x20, 0x300, 0x4000, 0xabcd, 0, 9, 0x10]] {
        let text = g.iter().map(|x| format!("{:x}", x)).collect::<Vec<_>>().join(":");
        assert_eq!(parse_ip_addr(&text), Some(IpAddress::V6(g)));
    }
}

#[test]
fn compressed_texts_read_back() {
    // head groups, "::", tail groups: the zeros between fill up to eight.
    let cases: [(&[u16], &[u16]); 5] = [
        (&[], &[]),
        (&[0x2001, 0xdb8], &[1]),
        (&[1, 2, 3, 4, 5, 6, 7], &[]),
        (&[], &[2, 3, 4, 5, 6, 7, 8]),
        (&[0xfe80], &[0xabcd, 0xef]),
    ];
    for (head, tail) in cases {
        let join = |g: &[u16]| g.iter().map(|x| format!("{:x}", x)).collect::<Vec<_>>().join(":");
        let text = format!("{}::{}", join(head), join(tail));
        let mut groups = [0u16; 8];
        groups[..head.len()].copy_from_slice(head);
        groups[8 - tail.len()..].copy_from_slice(tail);
        assert_eq!(parse_ip_addr(&text), Some(IpAddress::V6(groups)), "{text}");
    }
}
