//! The resolver set and the parsing of a resolver configuration text.
//!
//! `Resolvers::from_conf` turns the bytes of a configuration file into
//! the set of configured resolver addresses, partitioned by family, or
//! a typed error.  Validation is strict and fail-fast: one malformed
//! address rejects the whole text.

use vstd::prelude::*;

use crate::ip::IpAddr;
use crate::ip::ip_of;
use crate::ip::is_valid_ip;
use crate::ip::parse_ip;
use crate::ip::valid_ipv4;
use crate::text::candidates;
use crate::text::extract_candidates;
use crate::text::views;

verus! {

/// What can go wrong while discovering resolvers.
#[derive(Clone, Copy, Debug, PartialEq, Eq, Structural)]
pub enum Error {
    /// The configuration file could not be read.
    IoFailure,
    /// A `nameserver` line's address token is not a valid IP literal.
    AddressParseFailure,
    /// No usable resolver address was found at all.
    NoResolverConfigured,
    /// The OS adapter enumeration failed for good.
    EnumerationFailure,
}

/// The resolver addresses configured on the host, partitioned by
/// family; each bucket keeps discovery order and duplicates.
#[derive(Clone, Debug)]
pub struct Resolvers {
    pub v4: Vec<IpAddr>,
    pub v6: Vec<IpAddr>,
}

impl Resolvers {
    /// Every `v4` element is an IPv4 address, every `v6` element an
    /// IPv6 one, and together they are never empty.
    pub open spec fn wf(self) -> bool {
        &&& forall|i: int| 0 <= i < self.v4@.len() ==> self.v4@[i] is V4
        &&& forall|i: int| 0 <= i < self.v6@.len() ==> self.v6@[i] is V6
        &&& self.v4@.len() + self.v6@.len() > 0
    }
}

/// Every candidate is a valid IP literal.
pub open spec fn all_candidates_valid(cs: Seq<Seq<u8>>) -> bool {
    forall|i: int| 0 <= i < cs.len() ==> is_valid_ip(cs[i])
}

/// The IPv4 bucket of a candidate list: the candidates that read as
/// IPv4 addresses, in order.
pub open spec fn v4_bucket(cs: Seq<Seq<u8>>) -> Seq<IpAddr>
    decreases cs.len(),
{
    if cs.len() == 0 {
        Seq::<IpAddr>::empty()
    } else {
        v4_bucket(cs.drop_last()) + (if valid_ipv4(cs.last()) {
            seq![ip_of(cs.last())]
        } else {
            seq![]
        })
    }
}

/// The IPv6 bucket: the candidates that read as IPv6 addresses (and
/// not as IPv4 ones), in order.
pub open spec fn v6_bucket(cs: Seq<Seq<u8>>) -> Seq<IpAddr>
    decreases cs.len(),
{
    if cs.len() == 0 {
        Seq::<IpAddr>::empty()
    } else {
        v6_bucket(cs.drop_last()) + (if is_valid_ip(cs.last()) && !valid_ipv4(cs.last()) {
            seq![ip_of(cs.last())]
        } else {
            seq![]
        })
    }
}

/// On a list of valid candidates, the buckets split it without loss,
/// and each holds only its own family.
pub proof fn lemma_buckets(cs: Seq<Seq<u8>>)
    requires
        all_candidates_valid(cs),
    ensures
        v4_bucket(cs).len() + v6_bucket(cs).len() == cs.len(),
        forall|i: int| 0 <= i < v4_bucket(cs).len() ==> v4_bucket(cs)[i] is V4,
        forall|i: int| 0 <= i < v6_bucket(cs).len() ==> v6_bucket(cs)[i] is V6,
    decreases cs.len(),
{
    if cs.len() == 0 {
    } else {
        assert(all_candidates_valid(cs.drop_last()));
        lemma_buckets(cs.drop_last());
        assert(is_valid_ip(cs.last()));
    }
}

impl Resolvers {
    /// Reads the resolver addresses out of the bytes of a
    /// configuration text.  Exactly the addresses of its `nameserver`
    /// lines come back, partitioned by family, in their original
    /// order; a malformed address fails the whole text, and a text
    /// with no addresses at all is an error, never an empty set.
    pub fn from_conf(content: &[u8]) -> (r: Result<Resolvers, Error>)
        ensures
            match r {
                Ok(rs) => {
                    let cs = candidates(content@);
                    &&& cs.len() > 0
                    &&& all_candidates_valid(cs)
                    &&& rs.v4@ == v4_bucket(cs)
                    &&& rs.v6@ == v6_bucket(cs)
                    &&& rs.wf()
                },
                Err(e) => {
                    let cs = candidates(content@);
                    ||| e == Error::AddressParseFailure && !all_candidates_valid(cs)
                    ||| e == Error::NoResolverConfigured && cs.len() == 0
                },
            },
    {
        let cands = extract_candidates(content);
        let ghost cs = candidates(content@);
        let mut v4: Vec<IpAddr> = Vec::new();
        let mut v6: Vec<IpAddr> = Vec::new();
        let mut i: usize = 0;
        proof {
            assert(cs.take(0) =~= Seq::<Seq<u8>>::empty());
        }
        while i < cands.len()
            invariant
                i <= cands@.len(),
                views(cands) == cs,
                cs == candidates(content@),
                forall|j: int| 0 <= j < i ==> is_valid_ip(cs[j]),
                v4@ == v4_bucket(cs.take(i as int)),
                v6@ == v6_bucket(cs.take(i as int)),
            decreases cands@.len() - i,
        {
            proof {
                assert(cs[i as int] == cands@[i as int]@);
                assert(cs.take(i + 1).drop_last() =~= cs.take(i as int));
                assert(cs.take(i + 1).last() == cs[i as int]);
            }
            match parse_ip(cands[i].as_slice()) {
                None => {
                    return Err(Error::AddressParseFailure);
                },
                Some(a) => {
                    match a {
                        IpAddr::V4(_) => {
                            v4.push(a);
                            proof {
                                assert(v4@ =~= v4_bucket(cs.take(i + 1)));
                                assert(v6@ =~= v6_bucket(cs.take(i + 1)));
                            }
                        },
                        IpAddr::V6(_) => {
                            v6.push(a);
                            proof {
                                assert(v4@ =~= v4_bucket(cs.take(i + 1)));
                                assert(v6@ =~= v6_bucket(cs.take(i + 1)));
                            }
                        },
                    }
                },
            }
            i += 1;
        }
        proof {
            assert(cs.take(cs.len() as int) =~= cs);
            lemma_buckets(cs);
        }
        if v4.len() == 0 && v6.len() == 0 {
            return Err(Error::NoResolverConfigured);
        }
        Ok(Resolvers { v4, v6 })
    }
}

} // verus!
