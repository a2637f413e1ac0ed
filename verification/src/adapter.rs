//! The adapter-enumeration path: decisions over what an OS
//! adapter-table query hands back.
//!
//! The enumeration call itself is the caller's business (it is OS
//! I/O); what stands here is the decision logic.  `enumeration_step`
//! judges one status code of the growable-buffer sizing protocol:
//! the probe call may report that the buffer is too small, which asks
//! for exactly one resize and retry; the retried call must succeed.
//! `collect_records` then decodes the adapter-scoped DNS server
//! records — a socket-address family tag with the raw address bytes —
//! into typed addresses, skipping unknown families, and fails when
//! nothing usable was found.

use vstd::prelude::*;

use crate::ip::IpAddr;
use crate::ip::Ipv4Addr;
use crate::ip::Ipv6Addr;
use crate::resolver::Error;
use crate::resolver::Resolvers;

verus! {

/// The status code of a successful call.
pub const STATUS_SUCCESS: u32 = 0;

/// The status code that reports an invalid or insufficient parameter.
pub const STATUS_INVALID_PARAMETER: u32 = 87;

/// The status code that carries the needed buffer size.
pub const STATUS_BUFFER_OVERFLOW: u32 = 111;

/// The socket-address family tag of an IPv4 address.
pub const FAMILY_V4: u16 = 2;

/// The socket-address family tag of an IPv6 address.
pub const FAMILY_V6: u16 = 23;

/// What to do after one enumeration call.
#[derive(Clone, Copy, Debug, PartialEq, Eq, Structural)]
pub enum EnumerationStep {
    /// The call succeeded: walk its records.
    Collect,
    /// The buffer was too small: resize it and retry once.
    Resize,
}

/// The decision the sizing protocol takes on one status code.
pub open spec fn spec_enumeration_step(probe: bool, status: u32) -> Result<EnumerationStep, Error> {
    if status == STATUS_SUCCESS {
        Ok(EnumerationStep::Collect)
    } else if probe && (status == STATUS_BUFFER_OVERFLOW || status == STATUS_INVALID_PARAMETER) {
        Ok(EnumerationStep::Resize)
    } else {
        Err(Error::EnumerationFailure)
    }
}

/// Judges the status of one enumeration call.  `probe` says whether
/// this was the first, sizing call: only there is a buffer-overflow
/// (or invalid-parameter) status the expected resize signal; on the
/// retry, or for any other status, the enumeration has failed.
pub fn enumeration_step(probe: bool, status: u32) -> (r: Result<EnumerationStep, Error>)
    ensures
        r == spec_enumeration_step(probe, status),
{
    if status == STATUS_SUCCESS {
        Ok(EnumerationStep::Collect)
    } else if probe && (status == STATUS_BUFFER_OVERFLOW || status == STATUS_INVALID_PARAMETER) {
        Ok(EnumerationStep::Resize)
    } else {
        Err(Error::EnumerationFailure)
    }
}

/// One DNS-server entry of an adapter: its socket-address family tag
/// and the raw address bytes of the socket address, in network order.
#[derive(Clone, Debug)]
pub struct DnsRecord {
    pub family: u16,
    pub addr: Vec<u8>,
}

/// The typed address a record denotes: four raw bytes under the IPv4
/// tag, sixteen (eight big-endian 16-bit groups) under the IPv6 tag;
/// nothing under any other tag or length.
pub open spec fn record_ip(family: u16, addr: Seq<u8>) -> Option<IpAddr> {
    if family == FAMILY_V4 && addr.len() == 4 {
        Some(IpAddr::V4(Ipv4Addr { o0: addr[0], o1: addr[1], o2: addr[2], o3: addr[3] }))
    } else if family == FAMILY_V6 && addr.len() == 16 {
        Some(
            IpAddr::V6(
                Ipv6Addr {
                    s0: (addr[0] * 256 + addr[1]) as u16,
                    s1: (addr[2] * 256 + addr[3]) as u16,
                    s2: (addr[4] * 256 + addr[5]) as u16,
                    s3: (addr[6] * 256 + addr[7]) as u16,
                    s4: (addr[8] * 256 + addr[9]) as u16,
                    s5: (addr[10] * 256 + addr[11]) as u16,
                    s6: (addr[12] * 256 + addr[13]) as u16,
                    s7: (addr[14] * 256 + addr[15]) as u16,
                },
            ),
        )
    } else {
        None
    }
}

impl DnsRecord {
    pub open spec fn ip(self) -> Option<IpAddr> {
        record_ip(self.family, self.addr@)
    }
}

/// The IPv4 addresses of a record list, in order.
pub open spec fn records_v4(rs: Seq<DnsRecord>) -> Seq<IpAddr>
    decreases rs.len(),
{
    if rs.len() == 0 {
        Seq::<IpAddr>::empty()
    } else {
        records_v4(rs.drop_last()) + (match rs.last().ip() {
            Some(a) => if a is V4 {
                seq![a]
            } else {
                seq![]
            },
            None => seq![],
        })
    }
}

/// The IPv6 addresses of a record list, in order.
pub open spec fn records_v6(rs: Seq<DnsRecord>) -> Seq<IpAddr>
    decreases rs.len(),
{
    if rs.len() == 0 {
        Seq::<IpAddr>::empty()
    } else {
        records_v6(rs.drop_last()) + (match rs.last().ip() {
            Some(a) => if a is V6 {
                seq![a]
            } else {
                seq![]
            },
            None => seq![],
        })
    }
}

/// Decodes one record.
fn decode_record(rec: &DnsRecord) -> (r: Option<IpAddr>)
    ensures
        r == rec.ip(),
{
    if rec.family == FAMILY_V4 && rec.addr.len() == 4 {
        Some(
            IpAddr::V4(
                Ipv4Addr { o0: rec.addr[0], o1: rec.addr[1], o2: rec.addr[2], o3: rec.addr[3] },
            ),
        )
    } else if rec.family == FAMILY_V6 && rec.addr.len() == 16 {
        Some(
            IpAddr::V6(
                Ipv6Addr {
                    s0: (rec.addr[0] as u16) * 256 + (rec.addr[1] as u16),
                    s1: (rec.addr[2] as u16) * 256 + (rec.addr[3] as u16),
                    s2: (rec.addr[4] as u16) * 256 + (rec.addr[5] as u16),
                    s3: (rec.addr[6] as u16) * 256 + (rec.addr[7] as u16),
                    s4: (rec.addr[8] as u16) * 256 + (rec.addr[9] as u16),
                    s5: (rec.addr[10] as u16) * 256 + (rec.addr[11] as u16),
                    s6: (rec.addr[12] as u16) * 256 + (rec.addr[13] as u16),
                    s7: (rec.addr[14] as u16) * 256 + (rec.addr[15] as u16),
                },
            ),
        )
    } else {
        None
    }
}

/// Walks the DNS-server records of an adapter enumeration and buckets
/// their typed addresses by family, keeping order; records with an
/// unknown family tag are skipped, and an enumeration that yields no
/// address at all is an error, never an empty set.
pub fn collect_records(records: &Vec<DnsRecord>) -> (r: Result<Resolvers, Error>)
    ensures
        match r {
            Ok(rs) => {
                &&& rs.v4@ == records_v4(records@)
                &&& rs.v6@ == records_v6(records@)
                &&& rs.wf()
            },
            Err(e) => {
                &&& e == Error::NoResolverConfigured
                &&& records_v4(records@).len() == 0
                &&& records_v6(records@).len() == 0
            },
        },
{
    let mut v4: Vec<IpAddr> = Vec::new();
    let mut v6: Vec<IpAddr> = Vec::new();
    let mut i: usize = 0;
    proof {
        assert(records@.take(0) =~= Seq::<DnsRecord>::empty());
    }
    while i < records.len()
        invariant
            i <= records@.len(),
            v4@ == records_v4(records@.take(i as int)),
            v6@ == records_v6(records@.take(i as int)),
            forall|j: int| 0 <= j < v4@.len() ==> v4@[j] is V4,
            forall|j: int| 0 <= j < v6@.len() ==> v6@[j] is V6,
        decreases records@.len() - i,
    {
        proof {
            assert(records@.take(i + 1).drop_last() =~= records@.take(i as int));
            assert(records@.take(i + 1).last() == records@[i as int]);
        }
        match decode_record(&records[i]) {
            Some(a) => {
                match a {
                    IpAddr::V4(_) => {
                        v4.push(a);
                    },
                    IpAddr::V6(_) => {
                        v6.push(a);
                    },
                }
            },
            None => {},
        }
        proof {
            assert(v4@ =~= records_v4(records@.take(i + 1)));
            assert(v6@ =~= records_v6(records@.take(i + 1)));
        }
        i += 1;
    }
    proof {
        assert(records@.take(records@.len() as int) =~= records@);
    }
    if v4.len() == 0 && v6.len() == 0 {
        return Err(Error::NoResolverConfigured);
    }
    Ok(Resolvers { v4, v6 })
}

} // verus!
