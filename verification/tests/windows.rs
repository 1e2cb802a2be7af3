use cosmo_sysconf::ip::IpAddress;
use cosmo_sysconf::windows::{
    after_query, is_windows, sockaddr_to_ip, walk, AdapterRecord, DnsServerRecord, QueryStep,
    ERROR_BUFFER_OVERFLOW, ERROR_SUCCESS, GAA_FLAGS, INITIAL_BUFFER_SIZE, MAX_ATTEMPTS,
};

fn sockaddr_in(a: [u8; 4]) -> Vec<u8> {
    let mut v = vec![2, 0, 0, 53];
    v.extend_from_slice(&a);
    v.extend_from_slice(&[0; 8]);
    v
}

fn sockaddr_in6(bytes: [u8; 16]) -> Vec<u8> {
    let mut v = vec![23, 0, 0, 53, 0, 0, 0, 0];
    v.extend_from_slice(&bytes);
    v.extend_from_slice(&[0; 4]);
    v
}

fn record(bytes: Option<Vec<u8>>) -> DnsServerRecord {
    let length = bytes.as_ref().map(|b| b.len() as i32).unwrap_or(0);
    DnsServerRecord { sockaddr: bytes, length }
}

#[test]
fn host_bitmask() {
    assert!(is_windows(4));
    assert!(is_windows(4 | 1));
    assert!(!is_windows(1));
    assert!(!is_windows(8 | 32));
    assert!(!is_windows(0));
}

#[test]
fn query_constants() {
    assert_eq!(GAA_FLAGS, 0x27);
    assert_eq!(INITIAL_BUFFER_SIZE, 15 * 1024);
    assert_eq!(MAX_ATTEMPTS, 3);
}

#[test]
fn ipv4_record() {
    let b = sockaddr_in([192, 168, 0, 1]);
    assert_eq!(sockaddr_to_ip(Some(&b), 16), Some(IpAddress::V4([192, 168, 0, 1])));
    assert_eq!(sockaddr_to_ip(Some(&b), 8), Some(IpAddress::V4([192, 168, 0, 1])));
    assert_eq!(sockaddr_to_ip(Some(&b), 7), None);
}

#[test]
fn ipv6_record() {
    let mut bytes = [0u8; 16];
    bytes[0] = 0x20;
    bytes[1] = 0x01;
    bytes[2] = 0x0d;
    bytes[3] = 0xb8;
    bytes[15] = 0x01;
    let b = sockaddr_in6(bytes);
    assert_eq!(
        sockaddr_to_ip(Some(&b), 28),
        Some(IpAddress::V6([0x2001, 0x0db8, 0, 0, 0, 0, 0, 1]))
    );
    assert_eq!(sockaddr_to_ip(Some(&b), 27), None);
}

#[test]
fn records_without_address() {
    assert_eq!(sockaddr_to_ip(None, 16), None);
    assert_eq!(sockaddr_to_ip(Some(&[2]), 1), None);
    assert_eq!(sockaddr_to_ip(Some(&[2, 0]), -5), None);
    // POSIX numbering of IPv6 (10) is not the Windows one.
    let mut b = sockaddr_in6([1; 16]);
    b[0] = 10;
    assert_eq!(sockaddr_to_ip(Some(&b), 28), None);
    // A family of 2 needs both bytes: 0x0202 is another family.
    let mut c = sockaddr_in([1, 2, 3, 4]);
    c[1] = 2;
    assert_eq!(sockaddr_to_ip(Some(&c), 16), None);
}

#[test]
fn walk_in_adapter_order() {
    let adapters = vec![
        AdapterRecord {
            dns_servers: vec![
                record(Some(sockaddr_in([10, 0, 0, 1]))),
                record(None),
                record(Some(sockaddr_in([10, 0, 0, 2]))),
            ],
        },
        AdapterRecord { dns_servers: vec![] },
        AdapterRecord {
            dns_servers: vec![record(Some(sockaddr_in6([0xfe; 16])))],
        },
    ];
    assert_eq!(
        walk(&adapters),
        vec![
            IpAddress::V4([10, 0, 0, 1]),
            IpAddress::V4([10, 0, 0, 2]),
            IpAddress::V6([0xfefe; 8]),
        ]
    );
    assert_eq!(walk(&Vec::new()), Vec::new());
}

#[test]
fn retry_decisions() {
    assert_eq!(after_query(0, ERROR_SUCCESS, 100), QueryStep::Walk);
    assert_eq!(
        after_query(0, ERROR_BUFFER_OVERFLOW, 40000),
        QueryStep::Retry { buffer_size: 40000 }
    );
    assert_eq!(
        after_query(1, ERROR_BUFFER_OVERFLOW, 50000),
        QueryStep::Retry { buffer_size: 50000 }
    );
    assert_eq!(after_query(2, ERROR_BUFFER_OVERFLOW, 60000), QueryStep::SizeKeptGrowing);
    assert_eq!(after_query(2, ERROR_SUCCESS, 60000), QueryStep::Walk);
    assert_eq!(after_query(1, 87, 0), QueryStep::Failed { code: 87 });
}

#[test]
fn walk_of_concatenated_adapter_lists() {
    let first = || vec![AdapterRecord { dns_servers: vec![record(Some(sockaddr_in([1, 1, 1, 1])))] }];
    let second = || {
        vec![
            AdapterRecord { dns_servers: vec![record(Some(sockaddr_in([2, 2, 2, 2])))] },
            AdapterRecord { dns_servers: vec![record(Some(sockaddr_in([3, 3, 3, 3])))] },
        ]
    };
    let mut both = first();
    both.extend(second());
    let mut expected = walk(&first());
    expected.extend(walk(&second()));
    assert_eq!(walk(&both), expected);
}
