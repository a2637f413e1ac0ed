use resolvers::adapter::{
    collect_records, enumeration_step, DnsRecord, EnumerationStep, STATUS_BUFFER_OVERFLOW,
    STATUS_INVALID_PARAMETER, STATUS_SUCCESS,
};
use resolvers::{Error, IpAddr, Ipv4Addr, Ipv6Addr};

#[test]
fn sizing_probe_success_collects() {
    assert_eq!(enumeration_step(true, STATUS_SUCCESS), Ok(EnumerationStep::Collect));
}

#[test]
fn sizing_probe_overflow_resizes_once() {
    assert_eq!(enumeration_step(true, STATUS_BUFFER_OVERFLOW), Ok(EnumerationStep::Resize));
    assert_eq!(enumeration_step(true, STATUS_INVALID_PARAMETER), Ok(EnumerationStep::Resize));
}

#[test]
fn sizing_probe_other_status_fails() {
    assert_eq!(enumeration_step(true, 5), Err(Error::EnumerationFailure));
}

#[test]
fn second_overflow_on_retry_fails() {
    assert_eq!(enumeration_step(false, STATUS_SUCCESS), Ok(EnumerationStep::Collect));
    assert_eq!(enumeration_step(false, STATUS_BUFFER_OVERFLOW), Err(Error::EnumerationFailure));
    assert_eq!(enumeration_step(false, STATUS_INVALID_PARAMETER), Err(Error::EnumerationFailure));
}

#[test]
fn records_bucketed_by_family_tag() {
    let records = vec![
        DnsRecord { family: 2, addr: vec![8, 8, 8, 8] },
        DnsRecord {
            family: 23,
            addr: vec![0x20, 0x01, 0x48, 0x60, 0x48, 0x60, 0, 0, 0, 0, 0, 0, 0, 0, 0x88, 0x88],
        },
        DnsRecord { family: 2, addr: vec![1, 1, 1, 1] },
    ];
    let r = collect_records(&records).unwrap();
    assert_eq!(
        r.v4,
        vec![
            IpAddr::V4(Ipv4Addr { o0: 8, o1: 8, o2: 8, o3: 8 }),
            IpAddr::V4(Ipv4Addr { o0: 1, o1: 1, o2: 1, o3: 1 }),
        ]
    );
    assert_eq!(
        r.v6,
        vec![IpAddr::V6(Ipv6Addr {
            s0: 0x2001,
            s1: 0x4860,
            s2: 0x4860,
            s3: 0,
            s4: 0,
            s5: 0,
            s6: 0,
            s7: 0x8888,
        })]
    );
}

#[test]
fn unknown_family_tags_are_skipped() {
    let records = vec![
        DnsRecord { family: 99, addr: vec![1, 2, 3, 4] },
        DnsRecord { family: 2, addr: vec![9, 9, 9, 9] },
    ];
    let r = collect_records(&records).unwrap();
    assert_eq!(r.v4, vec![IpAddr::V4(Ipv4Addr { o0: 9, o1: 9, o2: 9, o3: 9 })]);
    assert_eq!(r.v6, vec![]);
}

#[test]
fn short_address_bytes_are_skipped() {
    let records = vec![
        DnsRecord { family: 2, addr: vec![1, 2, 3] },
        DnsRecord { family: 23, addr: vec![0; 4] },
        DnsRecord { family: 2, addr: vec![7, 7, 7, 7] },
    ];
    let r = collect_records(&records).unwrap();
    assert_eq!(r.v4, vec![IpAddr::V4(Ipv4Addr { o0: 7, o1: 7, o2: 7, o3: 7 })]);
    assert_eq!(r.v6, vec![]);
}

#[test]
fn no_records_is_no_resolver() {
    assert_eq!(collect_records(&vec![]).unwrap_err(), Error::NoResolverConfigured);
    let only_unknown = vec![DnsRecord { family: 17, addr: vec![] }];
    assert_eq!(collect_records(&only_unknown).unwrap_err(), Error::NoResolverConfigured);
}
