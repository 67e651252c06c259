use consistent_hash::addr::NodeAddr;
use consistent_hash::bucket::Bucket;
use consistent_hash::continuum::Continuum;

/// Reads `a.b.c.d:port` or `[groups]:port`, where the groups are hexadecimal,
/// separated by colons and may hold one `::`.
fn get_sockaddr(ip: &str) -> NodeAddr {
    let (host, port) = ip.rsplit_once(':').unwrap();
    let port: u16 = port.parse().unwrap();
    if let Some(inner) = host.strip_prefix('[') {
        let inner = inner.strip_suffix(']').unwrap();
        let read = |part: &str| -> Vec<u16> {
            part.split(':')
                .filter(|g| !g.is_empty())
                .map(|g| u16::from_str_radix(g, 16).unwrap())
                .collect()
        };
        let (head, tail) = match inner.split_once("::") {
            Some((head, tail)) => (read(head), read(tail)),
            None => (read(inner), Vec::new()),
        };
        let mut segments = [0u16; 8];
        for (i, g) in head.iter().enumerate() {
            segments[i] = *g;
        }
        for (i, g) in tail.iter().enumerate() {
            segments[8 - tail.len() + i] = *g;
        }
        NodeAddr::v6(segments, port)
    } else {
        let o: Vec<u8> = host.split('.').map(|d| d.parse().unwrap()).collect();
        assert_eq!(o.len(), 4);
        NodeAddr::v4(o[0], o[1], o[2], o[3], port)
    }
}

#[test]
fn consistency_after_adding_host() {
    fn assert_hosts(c: &Continuum) {
        assert_eq!(c.node(b"a"), Some(get_sockaddr("127.0.0.10:6443")));
        assert_eq!(c.node(b"b"), Some(get_sockaddr("127.0.0.5:6443")));
    }

    let buckets: Vec<_> = (1..11)
        .map(|u| Bucket::new(get_sockaddr(&format!("127.0.0.{u}:6443")), 1))
        .collect();
    let c = Continuum::with_default_points(&buckets);
    assert_hosts(&c);

    // Now add a new host and ensure that the hosts don't get shuffled.
    let buckets: Vec<_> = (1..12)
        .map(|u| Bucket::new(get_sockaddr(&format!("127.0.0.{u}:6443")), 1))
        .collect();

    let c = Continuum::with_default_points(&buckets);
    assert_hosts(&c);
}

#[test]
fn matches_nginx_sample() {
    let upstream_hosts = ["127.0.0.1:7777", "127.0.0.1:7778"];
    let upstream_hosts = upstream_hosts.iter().map(|i| get_sockaddr(i));

    let mut buckets = Vec::new();
    for upstream in upstream_hosts {
        buckets.push(Bucket::new(upstream, 1));
    }

    let c = Continuum::with_default_points(&buckets);

    assert_eq!(c.node(b"/some/path"), Some(get_sockaddr("127.0.0.1:7778")));
    assert_eq!(
        c.node(b"/some/longer/path"),
        Some(get_sockaddr("127.0.0.1:7777"))
    );
    assert_eq!(
        c.node(b"/sad/zaidoon"),
        Some(get_sockaddr("127.0.0.1:7778"))
    );
    assert_eq!(c.node(b"/g"), Some(get_sockaddr("127.0.0.1:7777")));
    assert_eq!(
        c.node(b"/pingora/team/is/cool/and/this/is/a/long/uri"),
        Some(get_sockaddr("127.0.0.1:7778"))
    );
    assert_eq!(
        c.node(b"/i/am/not/confident/in/this/code"),
        Some(get_sockaddr("127.0.0.1:7777"))
    );
}

#[test]
fn node_iter() {
    let upstream_hosts = ["127.0.0.1:7777", "127.0.0.1:7778", "127.0.0.1:7779"];
    let upstream_hosts = upstream_hosts.iter().map(|i| get_sockaddr(i));

    let mut buckets = Vec::new();
    for upstream in upstream_hosts {
        buckets.push(Bucket::new(upstream, 1));
    }

    let c = Continuum::with_default_points(&buckets);
    let mut iter = c.node_iter(b"doghash");
    assert_eq!(iter.next(), Some(&get_sockaddr("127.0.0.1:7778")));
    assert_eq!(iter.next(), Some(&get_sockaddr("127.0.0.1:7779")));
    assert_eq!(iter.next(), Some(&get_sockaddr("127.0.0.1:7779")));
    assert_eq!(iter.next(), Some(&get_sockaddr("127.0.0.1:7777")));
    assert_eq!(iter.next(), Some(&get_sockaddr("127.0.0.1:7777")));
    assert_eq!(iter.next(), Some(&get_sockaddr("127.0.0.1:7778")));
    assert_eq!(iter.next(), Some(&get_sockaddr("127.0.0.1:7778")));
    assert_eq!(iter.next(), Some(&get_sockaddr("127.0.0.1:7779")));

    // drop 127.0.0.1:7778
    let upstream_hosts = ["127.0.0.1:7777", "127.0.0.1:7779"];
    let upstream_hosts = upstream_hosts.iter().map(|i| get_sockaddr(i));

    let mut buckets = Vec::new();
    for upstream in upstream_hosts {
        buckets.push(Bucket::new(upstream, 1));
    }

    let c = Continuum::with_default_points(&buckets);
    let mut iter = c.node_iter(b"doghash");
    // 127.0.0.1:7778 nodes are gone now
    assert_eq!(iter.next(), Some(&get_sockaddr("127.0.0.1:7779")));
    assert_eq!(iter.next(), Some(&get_sockaddr("127.0.0.1:7779")));
    assert_eq!(iter.next(), Some(&get_sockaddr("127.0.0.1:7777")));
    assert_eq!(iter.next(), Some(&get_sockaddr("127.0.0.1:7777")));
    assert_eq!(iter.next(), Some(&get_sockaddr("127.0.0.1:7779")));

    // assert infinite cycle
    let c = Continuum::with_default_points(&[Bucket::new(get_sockaddr("127.0.0.1:7777"), 1)]);
    let mut iter = c.node_iter(b"doghash");

    let start_idx = iter.position();
    for _ in 0..c.len() {
        assert!(iter.next().is_some());
    }
    // assert wrap around
    assert_eq!(start_idx, iter.position());
}

#[test]
fn test_empty() {
    let c = Continuum::with_default_points(&[]);
    assert!(c.node(b"doghash").is_none());

    let mut iter = c.node_iter(b"doghash");
    assert!(iter.next().is_none());
    assert!(iter.next().is_none());
    assert!(iter.next().is_none());
}

#[test]
fn test_ipv6_ring() {
    let upstream_hosts = ["[::1]:7777", "[::1]:7778", "[::1]:7779"];
    let upstream_hosts = upstream_hosts.iter().map(|i| get_sockaddr(i));

    let mut buckets = Vec::new();
    for upstream in upstream_hosts {
        buckets.push(Bucket::new(upstream, 1));
    }

    let c = Continuum::with_default_points(&buckets);
    let mut iter = c.node_iter(b"doghash");
    assert_eq!(iter.next(), Some(&get_sockaddr("[::1]:7777")));
    assert_eq!(iter.next(), Some(&get_sockaddr("[::1]:7778")));
    assert_eq!(iter.next(), Some(&get_sockaddr("[::1]:7777")));
    assert_eq!(iter.next(), Some(&get_sockaddr("[::1]:7778")));
    assert_eq!(iter.next(), Some(&get_sockaddr("[::1]:7778")));
    assert_eq!(iter.next(), Some(&get_sockaddr("[::1]:7777")));
    assert_eq!(iter.next(), Some(&get_sockaddr("[::1]:7779")));
}
