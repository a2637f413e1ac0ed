//! Typed IP addresses and parsers for their textual forms.
//!
//! An IPv4 literal is four decimal octets separated by dots, each of
//! one to three digits, without leading zeros, and at most 255.
//! An IPv6 literal is up to eight colon-separated groups of one to
//! four hexadecimal digits; one `::` may compress one or more zero
//! groups, and the last group may instead be an embedded IPv4 literal
//! standing for the final 32 bits.

use vstd::prelude::*;

use crate::text::split_on;
use crate::text::split_on_exec;
use crate::text::sub_to_vec;
use crate::text::views;

verus! {

/// An IPv4 address, by its four octets in textual order.
#[derive(Clone, Copy, Debug, PartialEq, Eq, Structural)]
pub struct Ipv4Addr {
    pub o0: u8,
    pub o1: u8,
    pub o2: u8,
    pub o3: u8,
}

/// An IPv6 address, by its eight 16-bit groups in textual order.
#[derive(Clone, Copy, Debug, PartialEq, Eq, Structural)]
pub struct Ipv6Addr {
    pub s0: u16,
    pub s1: u16,
    pub s2: u16,
    pub s3: u16,
    pub s4: u16,
    pub s5: u16,
    pub s6: u16,
    pub s7: u16,
}

/// An IP address of either family.
#[derive(Clone, Copy, Debug, PartialEq, Eq, Structural)]
pub enum IpAddr {
    V4(Ipv4Addr),
    V6(Ipv6Addr),
}

pub open spec fn is_digit(b: u8) -> bool {
    48 <= b <= 57
}

/// The value of a decimal digit string (reading left to right).
pub open spec fn dec_val(s: Seq<u8>) -> int
    decreases s.len(),
{
    if s.len() == 0 {
        0
    } else {
        dec_val(s.drop_last()) * 10 + s.last() - 48
    }
}

/// A valid textual IPv4 octet: one to three digits, no leading zero,
/// value at most 255.
pub open spec fn is_octet(s: Seq<u8>) -> bool {
    &&& 1 <= s.len() <= 3
    &&& forall|i: int| 0 <= i < s.len() ==> is_digit(s[i])
    &&& s.len() > 1 ==> s[0] != 48
    &&& dec_val(s) <= 255
}

/// A valid textual IPv4 address: four octets separated by dots.
pub open spec fn valid_ipv4(s: Seq<u8>) -> bool {
    let p = split_on(s, 46);
    &&& p.len() == 4
    &&& is_octet(p[0])
    &&& is_octet(p[1])
    &&& is_octet(p[2])
    &&& is_octet(p[3])
}

/// The address a valid textual IPv4 address denotes.
pub open spec fn ipv4_of(s: Seq<u8>) -> Ipv4Addr {
    let p = split_on(s, 46);
    Ipv4Addr {
        o0: dec_val(p[0]) as u8,
        o1: dec_val(p[1]) as u8,
        o2: dec_val(p[2]) as u8,
        o3: dec_val(p[3]) as u8,
    }
}

/// Bounds of the value of a short digit string.
pub proof fn lemma_dec_val_bounds(s: Seq<u8>)
    requires
        forall|i: int| 0 <= i < s.len() ==> is_digit(s[i]),
        s.len() <= 3,
    ensures
        0 <= dec_val(s),
        s.len() <= 1 ==> dec_val(s) <= 9,
        s.len() <= 2 ==> dec_val(s) <= 99,
        s.len() <= 3 ==> dec_val(s) <= 999,
    decreases s.len(),
{
    if s.len() == 0 {
    } else {
        assert(forall|i: int| 0 <= i < s.drop_last().len() ==> is_digit(s.drop_last()[i]));
        lemma_dec_val_bounds(s.drop_last());
        assert(is_digit(s.last()));
    }
}

/// Parses one decimal octet.
fn parse_octet(s: &[u8]) -> (r: Option<u8>)
    ensures
        match r {
            Some(v) => is_octet(s@) && v as int == dec_val(s@),
            None => !is_octet(s@),
        },
{
    if s.len() < 1 || s.len() > 3 {
        return None;
    }
    if s.len() > 1 && s[0] == 48 {
        return None;
    }
    let mut val: u32 = 0;
    let mut i: usize = 0;
    proof {
        assert(s@.take(0) =~= Seq::<u8>::empty());
    }
    while i < s.len()
        invariant
            i <= s@.len() <= 3,
            forall|j: int| 0 <= j < i ==> is_digit(s@[j]),
            val as int == dec_val(s@.take(i as int)),
            val <= 999,
        decreases s@.len() - i,
    {
        let b = s[i];
        if b < 48 || b > 57 {
            return None;
        }
        proof {
            assert(s@.take(i + 1).drop_last() =~= s@.take(i as int));
            assert(s@.take(i + 1).last() == s@[i as int]);
            lemma_dec_val_bounds(s@.take(i as int));
        }
        val = val * 10 + (b - 48) as u32;
        i += 1;
    }
    proof {
        assert(s@.take(s@.len() as int) =~= s@);
    }
    if val > 255 {
        return None;
    }
    Some(val as u8)
}

/// Parses a textual IPv4 address.
pub fn parse_ipv4(s: &[u8]) -> (r: Option<Ipv4Addr>)
    ensures
        match r {
            Some(a) => valid_ipv4(s@) && a == ipv4_of(s@),
            None => !valid_ipv4(s@),
        },
{
    let parts = split_on_exec(s, 46);
    if parts.len() != 4 {
        return None;
    }
    let o0 = match parse_octet(parts[0].as_slice()) {
        Some(v) => v,
        None => {
            return None;
        },
    };
    let o1 = match parse_octet(parts[1].as_slice()) {
        Some(v) => v,
        None => {
            return None;
        },
    };
    let o2 = match parse_octet(parts[2].as_slice()) {
        Some(v) => v,
        None => {
            return None;
        },
    };
    let o3 = match parse_octet(parts[3].as_slice()) {
        Some(v) => v,
        None => {
            return None;
        },
    };
    Some(Ipv4Addr { o0, o1, o2, o3 })
}

pub open spec fn is_hex_digit(b: u8) -> bool {
    is_digit(b) || (97 <= b <= 102) || (65 <= b <= 70)
}

pub open spec fn hex_digit_val(b: u8) -> int {
    if is_digit(b) {
        b - 48
    } else if 97 <= b <= 102 {
        b - 87
    } else {
        b - 55
    }
}

/// The value of a hexadecimal digit string (reading left to right).
pub open spec fn hex_val(s: Seq<u8>) -> int
    decreases s.len(),
{
    if s.len() == 0 {
        0
    } else {
        hex_val(s.drop_last()) * 16 + hex_digit_val(s.last())
    }
}

/// A valid textual IPv6 group: one to four hexadecimal digits.
pub open spec fn is_group(s: Seq<u8>) -> bool {
    1 <= s.len() <= 4 && forall|i: int| 0 <= i < s.len() ==> is_hex_digit(s[i])
}

pub proof fn lemma_hex_val_bounds(s: Seq<u8>)
    requires
        forall|i: int| 0 <= i < s.len() ==> is_hex_digit(s[i]),
        s.len() <= 4,
    ensures
        0 <= hex_val(s),
        s.len() <= 1 ==> hex_val(s) <= 0xf,
        s.len() <= 2 ==> hex_val(s) <= 0xff,
        s.len() <= 3 ==> hex_val(s) <= 0xfff,
        s.len() <= 4 ==> hex_val(s) <= 0xffff,
    decreases s.len(),
{
    if s.len() == 0 {
    } else {
        assert(forall|i: int| 0 <= i < s.drop_last().len() ==> is_hex_digit(s.drop_last()[i]));
        lemma_hex_val_bounds(s.drop_last());
        assert(is_hex_digit(s.last()));
    }
}

/// The group value a valid textual group denotes.
pub open spec fn group_val(s: Seq<u8>) -> u16 {
    hex_val(s) as u16
}

/// The two groups an embedded IPv4 address stands for.
pub open spec fn v4_units(a: Ipv4Addr) -> Seq<u16> {
    seq![(a.o0 * 256 + a.o1) as u16, (a.o2 * 256 + a.o3) as u16]
}

/// The 16-bit units a list of colon-separated parts denotes: each part
/// a group, except that the last may be an embedded IPv4 address
/// (standing for two units) where `last_may_v4` allows it.  `None`
/// when some part is neither.
pub open spec fn units_of(parts: Seq<Seq<u8>>, last_may_v4: bool) -> Option<Seq<u16>>
    decreases parts.len(),
{
    if parts.len() == 0 {
        Some(Seq::<u16>::empty())
    } else if parts.len() == 1 {
        if is_group(parts[0]) {
            Some(seq![group_val(parts[0])])
        } else if last_may_v4 && valid_ipv4(parts[0]) {
            Some(v4_units(ipv4_of(parts[0])))
        } else {
            None
        }
    } else {
        if is_group(parts[0]) {
            match units_of(parts.skip(1), last_may_v4) {
                Some(r) => Some(seq![group_val(parts[0])] + r),
                None => None,
            }
        } else {
            None
        }
    }
}

/// How many positions of `s` start a `::`.
pub open spec fn dc_count(s: Seq<u8>) -> nat
    decreases s.len(),
{
    if s.len() < 2 {
        0
    } else {
        (if s[0] == 58 && s[1] == 58 {
            1nat
        } else {
            0nat
        }) + dc_count(s.skip(1))
    }
}

/// The first position of `s` that starts a `::`.
pub open spec fn dc_pos(s: Seq<u8>) -> int
    decreases s.len(),
{
    if s.len() < 2 {
        0
    } else if s[0] == 58 && s[1] == 58 {
        0
    } else {
        1 + dc_pos(s.skip(1))
    }
}

pub open spec fn zero_units(n: nat) -> Seq<u16> {
    Seq::new(n, |i: int| 0u16)
}

/// The eight 16-bit groups a textual IPv6 address denotes, or `None`
/// where the text is not a valid IPv6 address.  Without `::` the text
/// must denote exactly eight units; with one `::`, at most seven, and
/// the `::` stands for the missing zero units.
pub open spec fn ipv6_units(s: Seq<u8>) -> Option<Seq<u16>> {
    if dc_count(s) == 0 {
        match units_of(split_on(s, 58), true) {
            Some(u) => if u.len() == 8 {
                Some(u)
            } else {
                None
            },
            None => None,
        }
    } else if dc_count(s) == 1 {
        let i = dc_pos(s);
        let head = s.take(i);
        let tail = s.skip(i + 2);
        let hu = if head.len() == 0 {
            Some(Seq::<u16>::empty())
        } else {
            units_of(split_on(head, 58), false)
        };
        let tu = if tail.len() == 0 {
            Some(Seq::<u16>::empty())
        } else {
            units_of(split_on(tail, 58), true)
        };
        match hu {
            Some(h) => match tu {
                Some(t) => if h.len() + t.len() <= 7 {
                    Some(h + zero_units((8 - h.len() - t.len()) as nat) + t)
                } else {
                    None
                },
                None => None,
            },
            None => None,
        }
    } else {
        None
    }
}

pub open spec fn valid_ipv6(s: Seq<u8>) -> bool {
    ipv6_units(s) is Some
}

/// The address a valid textual IPv6 address denotes.
pub open spec fn ipv6_of(s: Seq<u8>) -> Ipv6Addr {
    match ipv6_units(s) {
        Some(u) => Ipv6Addr {
            s0: u[0],
            s1: u[1],
            s2: u[2],
            s3: u[3],
            s4: u[4],
            s5: u[5],
            s6: u[6],
            s7: u[7],
        },
        None => Ipv6Addr { s0: 0, s1: 0, s2: 0, s3: 0, s4: 0, s5: 0, s6: 0, s7: 0 },
    }
}

/// Parses one hexadecimal group.
fn parse_group(s: &[u8]) -> (r: Option<u16>)
    ensures
        match r {
            Some(v) => is_group(s@) && v == group_val(s@),
            None => !is_group(s@),
        },
{
    if s.len() < 1 || s.len() > 4 {
        return None;
    }
    let mut val: u32 = 0;
    let mut i: usize = 0;
    proof {
        assert(s@.take(0) =~= Seq::<u8>::empty());
    }
    while i < s.len()
        invariant
            i <= s@.len() <= 4,
            forall|j: int| 0 <= j < i ==> is_hex_digit(s@[j]),
            val as int == hex_val(s@.take(i as int)),
            val <= 0xffff,
        decreases s@.len() - i,
    {
        let b = s[i];
        let d: u32 = if 48 <= b && b <= 57 {
            (b - 48) as u32
        } else if 97 <= b && b <= 102 {
            (b - 87) as u32
        } else if 65 <= b && b <= 70 {
            (b - 55) as u32
        } else {
            return None;
        };
        proof {
            assert(s@.take(i + 1).drop_last() =~= s@.take(i as int));
            assert(s@.take(i + 1).last() == s@[i as int]);
            lemma_hex_val_bounds(s@.take(i as int));
        }
        val = val * 16 + d;
        i += 1;
    }
    proof {
        assert(s@.take(s@.len() as int) =~= s@);
        lemma_hex_val_bounds(s@);
    }
    Some(val as u16)
}

/// Scans for `::`: how many positions start one, and the first that does.
fn scan_dc(s: &[u8]) -> (r: (usize, usize))
    ensures
        r.0 == dc_count(s@),
        dc_count(s@) > 0 ==> r.1 == dc_pos(s@) && r.1 + 2 <= s@.len(),
{
    let n = s.len();
    if n < 2 {
        return (0, 0);
    }
    let mut cnt: usize = 0;
    let mut pos: usize = 0;
    let mut i: usize = 0;
    proof {
        assert(s@.skip(0) =~= s@);
    }
    while i < n - 1
        invariant
            n == s@.len(),
            2 <= n,
            i <= n - 1,
            cnt <= i,
            dc_count(s@) == cnt + dc_count(s@.skip(i as int)),
            cnt > 0 ==> pos == dc_pos(s@) && pos + 2 <= n,
            cnt == 0 ==> dc_pos(s@) == i + dc_pos(s@.skip(i as int)),
        decreases n - i,
    {
        proof {
            assert(s@.skip(i as int).skip(1) =~= s@.skip(i + 1));
            assert(s@.skip(i as int)[0] == s@[i as int]);
            assert(s@.skip(i as int)[1] == s@[i + 1]);
        }
        if s[i] == 58 && s[i + 1] == 58 {
            if cnt == 0 {
                pos = i;
            }
            cnt = cnt + 1;
        }
        i += 1;
    }
    proof {
        assert(s@.skip(n - 1).len() < 2);
        assert(dc_count(s@.skip(n - 1)) == 0);
        assert(dc_pos(s@.skip(n - 1)) == 0);
    }
    (cnt, pos)
}

/// Parses the units of the parts of `parts` from `from` on.
fn units_from(parts: &Vec<Vec<u8>>, from: usize, last_may_v4: bool) -> (r: Option<Vec<u16>>)
    requires
        from <= parts@.len(),
    ensures
        match r {
            Some(v) => units_of(views(*parts).skip(from as int), last_may_v4) == Some(v@),
            None => units_of(views(*parts).skip(from as int), last_may_v4) is None,
        },
    decreases parts@.len() - from,
{
    let n = parts.len();
    let ghost suffix = views(*parts).skip(from as int);
    if from == n {
        proof {
            assert(suffix =~= Seq::<Seq<u8>>::empty());
            assert(units_of(suffix, last_may_v4) =~~= Some(Seq::<u16>::empty()));
        }
        return Some(Vec::new());
    }
    proof {
        assert(suffix[0] == parts@[from as int]@);
    }
    if from == n - 1 {
        match parse_group(parts[from].as_slice()) {
            Some(g) => {
                let mut v: Vec<u16> = Vec::new();
                v.push(g);
                proof {
                    assert(v@ =~= seq![group_val(suffix[0])]);
                }
                Some(v)
            },
            None => {
                if last_may_v4 {
                    match parse_ipv4(parts[from].as_slice()) {
                        Some(a) => {
                            let hi = (a.o0 as u16) * 256 + (a.o1 as u16);
                            let lo = (a.o2 as u16) * 256 + (a.o3 as u16);
                            let mut v: Vec<u16> = Vec::new();
                            v.push(hi);
                            v.push(lo);
                            proof {
                                assert(v@ =~= v4_units(ipv4_of(suffix[0])));
                            }
                            Some(v)
                        },
                        None => None,
                    }
                } else {
                    None
                }
            },
        }
    } else {
        match parse_group(parts[from].as_slice()) {
            Some(g) => match units_from(parts, from + 1, last_may_v4) {
                Some(rest) => {
                    proof {
                        assert(suffix.skip(1) =~= views(*parts).skip(from + 1));
                    }
                    let mut v: Vec<u16> = Vec::new();
                    v.push(g);
                    let mut rest = rest;
                    let mut k: usize = 0;
                    let ghost rest0 = rest@;
                    while k < rest.len()
                        invariant
                            k <= rest@.len(),
                            rest@ == rest0,
                            v@ == seq![group_val(suffix[0])] + rest0.take(k as int),
                        decreases rest@.len() - k,
                    {
                        v.push(rest[k]);
                        proof {
                            assert(seq![group_val(suffix[0])] + rest0.take(k + 1) =~= (seq![
                                group_val(suffix[0]),
                            ] + rest0.take(k as int)).push(rest0[k as int]));
                        }
                        k += 1;
                    }
                    proof {
                        assert(rest0.take(rest0.len() as int) =~= rest0);
                    }
                    Some(v)
                },
                None => {
                    proof {
                        assert(suffix.skip(1) =~= views(*parts).skip(from + 1));
                    }
                    None
                },
            },
            None => None,
        }
    }
}

/// Parses a textual IPv6 address.
pub fn parse_ipv6(s: &[u8]) -> (r: Option<Ipv6Addr>)
    ensures
        match r {
            Some(a) => valid_ipv6(s@) && a == ipv6_of(s@),
            None => !valid_ipv6(s@),
        },
{
    let (cnt, pos) = scan_dc(s);
    if cnt == 0 {
        let parts = split_on_exec(s, 58);
        proof {
            assert(views(parts).skip(0) =~= views(parts));
        }
        match units_from(&parts, 0, true) {
            Some(u) => {
                if u.len() == 8 {
                    Some(
                        Ipv6Addr {
                            s0: u[0],
                            s1: u[1],
                            s2: u[2],
                            s3: u[3],
                            s4: u[4],
                            s5: u[5],
                            s6: u[6],
                            s7: u[7],
                        },
                    )
                } else {
                    None
                }
            },
            None => None,
        }
    } else if cnt == 1 {
        let n = s.len();
        proof {
            assert(dc_count(s@) > 0);
            assert(pos + 2 <= n);
        }
        let head = sub_to_vec(s, 0, pos);
        let tail = sub_to_vec(s, pos + 2, n);
        proof {
            assert(head@ =~= s@.take(pos as int));
            assert(tail@ =~= s@.skip(pos + 2));
        }
        let hu: Option<Vec<u16>> = if head.len() == 0 {
            Some(Vec::new())
        } else {
            let hp = split_on_exec(head.as_slice(), 58);
            proof {
                assert(views(hp).skip(0) =~= views(hp));
            }
            units_from(&hp, 0, false)
        };
        let tu: Option<Vec<u16>> = if tail.len() == 0 {
            Some(Vec::new())
        } else {
            let tp = split_on_exec(tail.as_slice(), 58);
            proof {
                assert(views(tp).skip(0) =~= views(tp));
            }
            units_from(&tp, 0, true)
        };
        let h = match hu {
            Some(h) => h,
            None => {
                return None;
            },
        };
        let t = match tu {
            Some(t) => t,
            None => {
                return None;
            },
        };
        if h.len() > 7 || t.len() > 7 - h.len() {
            return None;
        }
        let fill = 8 - h.len() - t.len();
        let mut g = h;
        let ghost h0 = g@;
        let mut k: usize = 0;
        while k < fill
            invariant
                k <= fill,
                g@ == h0 + zero_units(k as nat),
            decreases fill - k,
        {
            g.push(0);
            proof {
                assert(h0 + zero_units((k + 1) as nat) =~= (h0 + zero_units(k as nat)).push(0u16));
            }
            k += 1;
        }
        let mut k: usize = 0;
        let ghost mid = g@;
        while k < t.len()
            invariant
                k <= t@.len(),
                g@ == mid + t@.take(k as int),
            decreases t@.len() - k,
        {
            g.push(t[k]);
            proof {
                assert(mid + t@.take(k + 1) =~= (mid + t@.take(k as int)).push(t@[k as int]));
            }
            k += 1;
        }
        proof {
            assert(t@.take(t@.len() as int) =~= t@);
            assert(g@ =~= h0 + zero_units((8 - h0.len() - t@.len()) as nat) + t@);
        }
        Some(
            Ipv6Addr {
                s0: g[0],
                s1: g[1],
                s2: g[2],
                s3: g[3],
                s4: g[4],
                s5: g[5],
                s6: g[6],
                s7: g[7],
            },
        )
    } else {
        None
    }
}

/// A string is a valid IP literal when it is a valid IPv4 or IPv6 one.
pub open spec fn is_valid_ip(s: Seq<u8>) -> bool {
    valid_ipv4(s) || valid_ipv6(s)
}

/// The address a valid IP literal denotes; the IPv4 reading is tried
/// first.
pub open spec fn ip_of(s: Seq<u8>) -> IpAddr {
    if valid_ipv4(s) {
        IpAddr::V4(ipv4_of(s))
    } else {
        IpAddr::V6(ipv6_of(s))
    }
}

/// Parses an IP literal of either family.
pub fn parse_ip(s: &[u8]) -> (r: Option<IpAddr>)
    ensures
        match r {
            Some(a) => is_valid_ip(s@) && a == ip_of(s@),
            None => !is_valid_ip(s@),
        },
{
    match parse_ipv4(s) {
        Some(a) => Some(IpAddr::V4(a)),
        None => match parse_ipv6(s) {
            Some(a) => Some(IpAddr::V6(a)),
            None => None,
        },
    }
}

} // verus!
