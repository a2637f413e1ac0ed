use resolvers::ip::{parse_ip, parse_ipv4, parse_ipv6};
use resolvers::{Error, IpAddr, Ipv4Addr, Ipv6Addr, Resolvers};

fn v4(o0: u8, o1: u8, o2: u8, o3: u8) -> IpAddr {
    IpAddr::V4(Ipv4Addr { o0, o1, o2, o3 })
}

fn v6(s0: u16, s1: u16, s2: u16, s3: u16, s4: u16, s5: u16, s6: u16, s7: u16) -> IpAddr {
    IpAddr::V6(Ipv6Addr {
        s0,
        s1,
        s2,
        s3,
        s4,
        s5,
        s6,
        s7,
    })
}

#[test]
fn both_families_partitioned() {
    let r = Resolvers::from_conf(b"nameserver 8.8.8.8\nnameserver 2001:4860:4860::8888\n").unwrap();
    assert_eq!(r.v4, vec![v4(8, 8, 8, 8)]);
    assert_eq!(r.v6, vec![v6(0x2001, 0x4860, 0x4860, 0, 0, 0, 0, 0x8888)]);
}

#[test]
fn comments_only_is_no_resolver() {
    let r = Resolvers::from_conf(b"# no nameservers here\n");
    assert_eq!(r.unwrap_err(), Error::NoResolverConfigured);
}

#[test]
fn malformed_address_fails_whole_file() {
    let r = Resolvers::from_conf(b"nameserver 10.0.0.1\nnameserver bogus\n");
    assert_eq!(r.unwrap_err(), Error::AddressParseFailure);
}

#[test]
fn malformed_address_fails_even_before_valid_lines() {
    let r = Resolvers::from_conf(b"nameserver not.an.ip\nnameserver 8.8.8.8\n");
    assert_eq!(r.unwrap_err(), Error::AddressParseFailure);
}

#[test]
fn empty_file_is_no_resolver() {
    let r = Resolvers::from_conf(b"");
    assert_eq!(r.unwrap_err(), Error::NoResolverConfigured);
}

#[test]
fn other_directives_are_ignored() {
    let r = Resolvers::from_conf(b"options ndots:2\nsearch example.org\n");
    assert_eq!(r.unwrap_err(), Error::NoResolverConfigured);
}

#[test]
fn nameserver_without_address_is_skipped() {
    let r = Resolvers::from_conf(b"nameserver\nnameserver 1.1.1.1\n").unwrap();
    assert_eq!(r.v4, vec![v4(1, 1, 1, 1)]);
    assert_eq!(r.v6, vec![]);
}

#[test]
fn comments_and_blanks_contribute_nothing() {
    let r = Resolvers::from_conf(b"# comment\n\n   \nnameserver 9.9.9.9\n\n# nameserver 8.8.8.8\n")
        .unwrap();
    assert_eq!(r.v4, vec![v4(9, 9, 9, 9)]);
    assert_eq!(r.v6, vec![]);
}

#[test]
fn order_and_duplicates_are_kept() {
    let r = Resolvers::from_conf(
        b"nameserver 1.1.1.1\nnameserver 8.8.8.8\nnameserver 1.1.1.1\nnameserver ::1\n",
    )
    .unwrap();
    assert_eq!(r.v4, vec![v4(1, 1, 1, 1), v4(8, 8, 8, 8), v4(1, 1, 1, 1)]);
    assert_eq!(r.v6, vec![v6(0, 0, 0, 0, 0, 0, 0, 1)]);
}

#[test]
fn indented_nameserver_line_counts() {
    let r = Resolvers::from_conf(b"   nameserver 9.9.9.9\r\n").unwrap();
    assert_eq!(r.v4, vec![v4(9, 9, 9, 9)]);
}

#[test]
fn only_second_token_is_the_address() {
    let r = Resolvers::from_conf(b"nameserver 1.2.3.4 and more words\n").unwrap();
    assert_eq!(r.v4, vec![v4(1, 2, 3, 4)]);
}

#[test]
fn missing_newline_at_end_still_parses() {
    let r = Resolvers::from_conf(b"nameserver 4.3.2.1").unwrap();
    assert_eq!(r.v4, vec![v4(4, 3, 2, 1)]);
}

#[test]
fn ipv4_literals() {
    assert_eq!(parse_ipv4(b"0.0.0.0"), Some(Ipv4Addr { o0: 0, o1: 0, o2: 0, o3: 0 }));
    assert_eq!(
        parse_ipv4(b"255.255.255.255"),
        Some(Ipv4Addr { o0: 255, o1: 255, o2: 255, o3: 255 })
    );
    assert_eq!(parse_ipv4(b"10.0.0.1"), Some(Ipv4Addr { o0: 10, o1: 0, o2: 0, o3: 1 }));
    assert_eq!(parse_ipv4(b"256.1.1.1"), None);
    assert_eq!(parse_ipv4(b"01.2.3.4"), None);
    assert_eq!(parse_ipv4(b"1.2.3"), None);
    assert_eq!(parse_ipv4(b"1.2.3.4.5"), None);
    assert_eq!(parse_ipv4(b"1..2.3"), None);
    assert_eq!(parse_ipv4(b"1.2.3.4 "), None);
    assert_eq!(parse_ipv4(b""), None);
    assert_eq!(parse_ipv4(b"a.b.c.d"), None);
}

#[test]
fn ipv6_literals() {
    let all0 = Ipv6Addr { s0: 0, s1: 0, s2: 0, s3: 0, s4: 0, s5: 0, s6: 0, s7: 0 };
    assert_eq!(parse_ipv6(b"::"), Some(all0));
    assert_eq!(parse_ipv6(b"::1"), Some(Ipv6Addr { s7: 1, ..all0 }));
    assert_eq!(parse_ipv6(b"1::"), Some(Ipv6Addr { s0: 1, ..all0 }));
    assert_eq!(
        parse_ipv6(b"1:2:3:4:5:6:7:8"),
        Some(Ipv6Addr { s0: 1, s1: 2, s2: 3, s3: 4, s4: 5, s5: 6, s6: 7, s7: 8 })
    );
    assert_eq!(
        parse_ipv6(b"2001:db8::8888"),
        Some(Ipv6Addr { s0: 0x2001, s1: 0xdb8, s7: 0x8888, ..all0 })
    );
    assert_eq!(
        parse_ipv6(b"1:2:3:4:5:6:7::"),
        Some(Ipv6Addr { s0: 1, s1: 2, s2: 3, s3: 4, s4: 5, s5: 6, s6: 7, ..all0 })
    );
    assert_eq!(
        parse_ipv6(b"::ffff:192.0.2.1"),
        Some(Ipv6Addr { s5: 0xffff, s6: 0xc000, s7: 0x0201, ..all0 })
    );
    assert_eq!(
        parse_ipv6(b"1:2:3:4:5:6:192.0.2.1"),
        Some(Ipv6Addr { s0: 1, s1: 2, s2: 3, s3: 4, s4: 5, s5: 6, s6: 0xc000, s7: 0x0201 })
    );
    assert_eq!(parse_ipv6(b":::"), None);
    assert_eq!(parse_ipv6(b"1::2::3"), None);
    assert_eq!(parse_ipv6(b"::1:2:3:4:5:6:7:8"), None);
    assert_eq!(parse_ipv6(b"12345::"), None);
    assert_eq!(parse_ipv6(b"1:2:3:4:5:6:7"), None);
    assert_eq!(parse_ipv6(b"1:2:3:4:5:6:7:8:9"), None);
    assert_eq!(parse_ipv6(b"g::1"), None);
    assert_eq!(parse_ipv6(b":1::2"), None);
    assert_eq!(parse_ipv6(b"1.2.3.4"), None);
    assert_eq!(parse_ipv6(b"fe80::1%eth0"), None);
    assert_eq!(parse_ipv6(b""), None);
}

#[test]
fn parse_ip_picks_the_family() {
    assert_eq!(parse_ip(b"10.0.0.1"), Some(v4(10, 0, 0, 1)));
    assert_eq!(parse_ip(b"::1"), Some(v6(0, 0, 0, 0, 0, 0, 0, 1)));
    assert_eq!(parse_ip(b"bogus"), None);
}
