use consistent_hash::addr::NodeAddr;
use consistent_hash::point::{push_node_points, Point};
use consistent_hash::text::{push_decimal, push_hex};

fn decimal_of(n: u16) -> Vec<u8> {
    let mut out = Vec::new();
    push_decimal(&mut out, n);
    out
}

fn hex_of(n: u16) -> Vec<u8> {
    let mut out = Vec::new();
    push_hex(&mut out, n);
    out
}

#[test]
fn decimal_digits() {
    assert_eq!(decimal_of(0), b"0".to_vec());
    assert_eq!(decimal_of(9), b"9".to_vec());
    assert_eq!(decimal_of(10), b"10".to_vec());
    assert_eq!(decimal_of(255), b"255".to_vec());
    assert_eq!(decimal_of(7777), b"7777".to_vec());
    assert_eq!(decimal_of(10000), b"10000".to_vec());
    assert_eq!(decimal_of(65535), b"65535".to_vec());
}

#[test]
fn decimal_appends() {
    let mut out = b"port ".to_vec();
    push_decimal(&mut out, 443);
    assert_eq!(out, b"port 443".to_vec());
}

#[test]
fn hex_digits() {
    assert_eq!(hex_of(0), b"0".to_vec());
    assert_eq!(hex_of(9), b"9".to_vec());
    assert_eq!(hex_of(10), b"a".to_vec());
    assert_eq!(hex_of(15), b"f".to_vec());
    assert_eq!(hex_of(16), b"10".to_vec());
    assert_eq!(hex_of(0xdb8), b"db8".to_vec());
    assert_eq!(hex_of(0x2001), b"2001".to_vec());
    assert_eq!(hex_of(0xffff), b"ffff".to_vec());
}

#[test]
fn identity_of_ipv4() {
    assert_eq!(
        NodeAddr::v4(127, 0, 0, 1, 7777).identity_bytes(),
        b"127.0.0.1\x007777".to_vec()
    );
    assert_eq!(
        NodeAddr::v4(10, 0, 0, 9, 443).identity_bytes(),
        b"10.0.0.9\x00443".to_vec()
    );
    assert_eq!(
        NodeAddr::v4(255, 255, 255, 255, 65535).identity_bytes(),
        b"255.255.255.255\x0065535".to_vec()
    );
    assert_eq!(NodeAddr::v4(0, 0, 0, 0, 0).identity_bytes(), b"0.0.0.0\x000".to_vec());
}

#[test]
fn identity_of_ipv6_loopback() {
    assert_eq!(
        NodeAddr::v6([0, 0, 0, 0, 0, 0, 0, 1], 7777).identity_bytes(),
        b"::1\x007777".to_vec()
    );
}

#[test]
fn identity_of_ipv6_unspecified() {
    assert_eq!(NodeAddr::v6([0; 8], 80).identity_bytes(), b"::\x0080".to_vec());
}

#[test]
fn identity_of_ipv6_compresses_longest_run() {
    assert_eq!(
        NodeAddr::v6([0x2001, 0xdb8, 0, 0, 0, 0, 0, 1], 443).identity_bytes(),
        b"2001:db8::1\x00443".to_vec()
    );
    assert_eq!(
        NodeAddr::v6([1, 0, 0, 2, 0, 0, 0, 3], 1).identity_bytes(),
        b"1:0:0:2::3\x001".to_vec()
    );
    assert_eq!(
        NodeAddr::v6([1, 0, 0, 0, 0, 0, 0, 0], 1).identity_bytes(),
        b"1::\x001".to_vec()
    );
    assert_eq!(
        NodeAddr::v6([0xfe80, 0, 0, 0, 0x1234, 0, 0, 0xabcd], 9).identity_bytes(),
        b"fe80::1234:0:0:abcd\x009".to_vec()
    );
}

#[test]
fn identity_of_ipv6_prefers_first_of_equal_runs() {
    assert_eq!(
        NodeAddr::v6([0, 0, 1, 0, 0, 1, 0, 0], 1).identity_bytes(),
        b"::1:0:0:1:0:0\x001".to_vec()
    );
    assert_eq!(
        NodeAddr::v6([1, 0, 0, 2, 0, 0, 3, 4], 1).identity_bytes(),
        b"1::2:0:0:3:4\x001".to_vec()
    );
}

#[test]
fn identity_of_ipv6_keeps_single_zero_groups() {
    assert_eq!(
        NodeAddr::v6([1, 0, 2, 0, 3, 0, 4, 0], 1).identity_bytes(),
        b"1:0:2:0:3:0:4:0\x001".to_vec()
    );
    assert_eq!(
        NodeAddr::v6([1, 2, 3, 4, 5, 6, 7, 8], 8).identity_bytes(),
        b"1:2:3:4:5:6:7:8\x008".to_vec()
    );
}

#[test]
fn identity_of_ipv6_with_ipv4_inside() {
    assert_eq!(
        NodeAddr::v6([0, 0, 0, 0, 0, 0xffff, 0xc000, 0x0201], 80).identity_bytes(),
        b"::ffff:192.0.2.1\x0080".to_vec()
    );
    assert_eq!(
        NodeAddr::v6([0, 0, 0, 0, 0, 0, 0x0102, 0x0304], 80).identity_bytes(),
        b"::102:304\x0080".to_vec()
    );
}

#[test]
fn port_of_either_kind() {
    assert_eq!(NodeAddr::v4(1, 2, 3, 4, 5).port(), 5);
    assert_eq!(NodeAddr::v6([0; 8], 6).port(), 6);
}

#[test]
fn chain_starts_from_zero() {
    let identity = b"127.0.0.1\x007777".to_vec();
    let mut points = Vec::new();
    push_node_points(&mut points, &identity, 3, 1, 4);
    assert_eq!(
        points,
        vec![
            Point { hash: 842782624, node_index: 3 },
            Point { hash: 66278312, node_index: 3 },
            Point { hash: 1921422695, node_index: 3 },
            Point { hash: 3166719452, node_index: 3 },
        ]
    );
}

#[test]
fn chain_feeds_each_checksum_into_the_next() {
    let identity = NodeAddr::v4(10, 0, 0, 1, 443).identity_bytes();
    let mut points = Vec::new();
    push_node_points(&mut points, &identity, 0, 3, 5);
    assert_eq!(points.len(), 15);
    let mut prev: u32 = 0;
    for p in &points {
        let mut input = identity.clone();
        input.extend_from_slice(&prev.to_le_bytes());
        assert_eq!(p.hash, crc32fast::hash(&input));
        assert_eq!(p.node_index, 0);
        prev = p.hash;
    }
}

#[test]
fn chain_appends_to_what_is_there() {
    let identity = b"127.0.0.1\x007777".to_vec();
    let mut points = vec![Point { hash: 1, node_index: 0 }];
    push_node_points(&mut points, &identity, 1, 2, 1);
    assert_eq!(
        points,
        vec![
            Point { hash: 1, node_index: 0 },
            Point { hash: 842782624, node_index: 1 },
            Point { hash: 66278312, node_index: 1 },
        ]
    );
}

#[test]
fn chain_of_no_points() {
    let identity = b"127.0.0.1\x007777".to_vec();
    let mut points = Vec::new();
    push_node_points(&mut points, &identity, 0, 5, 0);
    assert!(points.is_empty());
    push_node_points(&mut points, &identity, 0, 0, 5);
    assert!(points.is_empty());
}
