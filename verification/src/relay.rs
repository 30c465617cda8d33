//! The relay's rewrite rules: how a locally-answered response is built
//! from a decoded query and a hosts-table entry, and the fallible parser
//! for IPv4 literals, so that no untrusted hosts-table text can reach a
//! panicking conversion.

use vstd::prelude::*;
use crate::header::{DnsHeader, RCode};
use crate::record::{DnsRecord, Ipv4, RecordView};
use crate::packet::DnsPacket;
use crate::name::first_dot;

verus! {

/// The hosts-table sentinel meaning "this name does not exist".
pub open spec fn is_sentinel(addr: Ipv4) -> bool {
    addr == (Ipv4 { o0: 0u8, o1: 0u8, o2: 0u8, o3: 0u8 })
}

/// An ASCII decimal digit.
pub open spec fn is_digit(b: u8) -> bool {
    0x30 <= b <= 0x39
}

/// The numeric value of a digit string, most significant first.
pub open spec fn digits_val(g: Seq<u8>) -> int
    decreases g.len(),
{
    if g.len() == 0 {
        0
    } else {
        10 * digits_val(g.subrange(0, g.len() - 1)) + (g.last() - 0x30)
    }
}

/// The octet one dotted-quad group stands for: one to three digits, no
/// leading zero, value at most 255; anything else is rejected.
pub open spec fn oct(g: Seq<u8>) -> Option<u8> {
    if 1 <= g.len() <= 3 && (forall|i: int| 0 <= i < g.len() ==> is_digit(#[trigger] g[i]))
        && (g.len() > 1 ==> g[0] != 0x30) && 0 <= digits_val(g) <= 255 {
        Some(digits_val(g) as u8)
    } else {
        None
    }
}

/// Where the group starting at `start` ends: at the next dot, or at the
/// end of the text.
pub open spec fn group_end(s: Seq<u8>, start: int) -> int {
    let d = first_dot(s.subrange(start, s.len() as int));
    if d < 0 {
        s.len() as int
    } else {
        start + d
    }
}

/// The address a dotted-quad text stands for: exactly four groups
/// separated by dots, each a valid octet; anything else is rejected.
pub open spec fn spec_parse_ipv4(s: Seq<u8>) -> Option<Ipv4> {
    let e1 = group_end(s, 0);
    if e1 >= s.len() {
        None
    } else {
        let e2 = group_end(s, e1 + 1);
        if e2 >= s.len() {
            None
        } else {
            let e3 = group_end(s, e2 + 1);
            if e3 >= s.len() {
                None
            } else {
                let e4 = group_end(s, e3 + 1);
                if e4 != s.len() {
                    None
                } else {
                    match (oct(s.subrange(0, e1)), oct(s.subrange(e1 + 1, e2)),
                        oct(s.subrange(e2 + 1, e3)), oct(s.subrange(e3 + 1, e4))) {
                        (Some(a), Some(b), Some(c), Some(d)) => Some(Ipv4 {
                            o0: a, o1: b, o2: c, o3: d,
                        }),
                        _ => None,
                    }
                }
            }
        }
    }
}

/// Scan one dotted-quad group: find where it ends and parse it as an
/// octet. Returns the octet and the end position, or nothing when the
/// group is not a valid octet.
#[verifier::loop_isolation(false)]
fn scan_octet(s: &Vec<u8>, start: usize) -> (r: Option<(u8, usize)>)
    requires start <= s@.len(),
    ensures
        (match r {
            Some(p) => p.1 == group_end(s@, start as int)
                && start <= p.1 <= s@.len()
                && oct(s@.subrange(start as int, p.1 as int)) == Some::<u8>(p.0),
            None => oct(s@.subrange(start as int, group_end(s@, start as int))) is None,
        }),
{
    let n = s.len();
    let mut j: usize = start;
    while j < n && s[j] != 0x2e
        invariant
            start <= j <= n,
            forall|t: int| start <= t < j ==> s@[t] != 0x2e,
        decreases n - j,
    {
        j = j + 1;
    }
    proof {
        let suffix = s@.subrange(start as int, n as int);
        assert(forall|t: int| 0 <= t < j - start ==> suffix[t] != 0x2e);
        crate::name::lemma_first_dot_at(suffix, j - start);
        assert(group_end(s@, start as int) == j);
    }
    let ghost g = s@.subrange(start as int, j as int);
    if j == start || j - start > 3 {
        return None;
    }
    if j - start > 1 && s[start] == 0x30 {
        return None;
    }
    let mut v: u32 = 0;
    let mut k: usize = start;
    while k < j
        invariant
            start <= k <= j,
            j - start <= 3,
            v == digits_val(s@.subrange(start as int, k as int)),
            k - start == 0 ==> v == 0,
            k - start == 1 ==> v <= 9,
            k - start == 2 ==> v <= 99,
            k - start == 3 ==> v <= 999,
            forall|t: int| start <= t < k ==> is_digit(#[trigger] s@[t]),
        decreases j - k,
    {
        let b = s[k];
        if b < 0x30 || b > 0x39 {
            proof {
                assert(!is_digit(g[k - start]));
            }
            return None;
        }
        proof {
            assert(s@.subrange(start as int, k as int)
                =~= s@.subrange(start as int, k as int + 1).subrange(0, k - start));
            assert(s@.subrange(start as int, k as int + 1).last() == b);
            assert(digits_val(s@.subrange(start as int, k as int + 1))
                == 10 * v + (b - 0x30));
        }
        v = v * 10 + ((b - 0x30) as u32);
        k = k + 1;
    }
    if v > 255 {
        return None;
    }
    proof {
        assert(g =~= s@.subrange(start as int, j as int));
    }
    Some((v as u8, j))
}

/// Parse an IPv4 literal: four decimal octets joined by dots, with no
/// leading zeros, as `spec_parse_ipv4` lays down.
pub fn parse_ipv4(s: &Vec<u8>) -> (r: Option<Ipv4>)
    ensures r == spec_parse_ipv4(s@),
{
    let n = s.len();
    let (a, j1) = match scan_octet(s, 0) {
        Some(p) => p,
        None => { return None; },
    };
    if j1 >= n {
        return None;
    }
    let (b, j2) = match scan_octet(s, j1 + 1) {
        Some(p) => p,
        None => { return None; },
    };
    if j2 >= n {
        return None;
    }
    let (c, j3) = match scan_octet(s, j2 + 1) {
        Some(p) => p,
        None => { return None; },
    };
    if j3 >= n {
        return None;
    }
    let (d, j4) = match scan_octet(s, j3 + 1) {
        Some(p) => p,
        None => { return None; },
    };
    if j4 != n {
        return None;
    }
    Some(Ipv4 { o0: a, o1: b, o2: c, o3: d })
}

/// What the relay does with one inbound datagram.
#[derive(Clone, Copy, Debug, PartialEq, Eq, Structural)]
pub enum RelayAction {
    /// Answer the local client from the hosts table.
    AnswerLocally,
    /// Record the transaction and pass the raw datagram to the upstream
    /// resolver, byte for byte.
    ForwardUpstream,
    /// Pass the raw datagram, byte for byte, to the client recorded for
    /// its transaction id.
    ForwardToClient,
    /// An upstream reply whose transaction id is unknown: nothing to do.
    Drop,
}

/// The relay's routing rule for one datagram: a local query is answered
/// from the hosts table when it has an entry and forwarded upstream
/// otherwise; anything from elsewhere is relayed unmodified to the
/// client its transaction id belongs to, or dropped when no such
/// transaction is known.
pub fn relay_decision(from_local: bool, hosts_hit: bool, txn_known: bool) -> (r: RelayAction)
    ensures
        r == (if from_local {
            if hosts_hit { RelayAction::AnswerLocally } else { RelayAction::ForwardUpstream }
        } else {
            if txn_known { RelayAction::ForwardToClient } else { RelayAction::Drop }
        }),
{
    if from_local {
        if hosts_hit {
            RelayAction::AnswerLocally
        } else {
            RelayAction::ForwardUpstream
        }
    } else {
        if txn_known {
            RelayAction::ForwardToClient
        } else {
            RelayAction::Drop
        }
    }
}

/// Build the response a hosts-table hit sends back to a local client.
///
/// The query's id and question are kept; the header is rewritten as a
/// recursion-available response. The sentinel address 0.0.0.0 means the
/// name does not exist: the response carries NXDOMAIN and no answer
/// record at all. Any other address yields NOERROR and exactly one
/// address record for the queried name with a fixed time-to-live of 299.
/// The additional section is cleared either way.
pub fn build_local_response(query: DnsPacket, addr: Ipv4) -> (r: DnsPacket)
    requires query.questions@.len() > 0,
    ensures
        r.header == (DnsHeader {
            qr: true,
            opcode: 0u8,
            aa: false,
            tc: false,
            rd: true,
            ra: true,
            z0: false,
            z1: false,
            z2: false,
            rcode: if is_sentinel(addr) { RCode::NXDOMAIN } else { RCode::NOERROR },
            ancount: if is_sentinel(addr) { 0u16 } else { 1u16 },
            arcount: 0u16,
            ..query.header
        }),
        r.questions == query.questions,
        r.authorities == query.authorities,
        r.resources@.len() == 0,
        is_sentinel(addr) ==> r.answers@.len() == 0,
        !is_sentinel(addr) ==> r@.answers == seq![RecordView::Address {
            domain: query.questions@[0]@.qname,
            addr: addr,
            ttl: 299u32,
        }],
{
    let mut response = query;
    response.header.qr = true;
    response.header.opcode = 0;
    response.header.aa = false;
    response.header.tc = false;
    response.header.rd = true;
    response.header.ra = true;
    response.header.z0 = false;
    response.header.z1 = false;
    response.header.z2 = false;
    let sentinel = addr.o0 == 0 && addr.o1 == 0 && addr.o2 == 0 && addr.o3 == 0;
    response.header.rcode = if sentinel { RCode::NXDOMAIN } else { RCode::NOERROR };
    let mut answers: Vec<DnsRecord> = Vec::new();
    if !sentinel {
        let domain = response.questions[0].qname.clone();
        proof {
            assert(domain@ =~= response.questions@[0].qname@);
        }
        answers.push(DnsRecord::A { domain, addr, ttl: 299 });
    }
    response.answers = answers;
    response.header.ancount = if sentinel { 0 } else { 1 };
    response.resources = Vec::new();
    response.header.arcount = 0;
    proof {
        if !sentinel {
            assert(response@.answers =~= seq![RecordView::Address {
                domain: query.questions@[0]@.qname,
                addr: addr,
                ttl: 299u32,
            }]);
        }
    }
    response
}

} // verus!
