//! The fixed 12-byte message header: the id, two bytes of bit-packed
//! flags, and the four section counts, all big-endian.

use vstd::prelude::*;
use crate::errors::DnsError;
use crate::buffer::{BytePacketBuffer, PACKET_SIZE, u16_from_be};

verus! {

/// The response codes with a defined meaning. The wire nibble can hold
/// 6..=15 as well; those decode to `InvalidResponseCode` rather than
/// crashing, since the wire is untrusted.
#[derive(Clone, Copy, Debug, PartialEq, Eq, Structural)]
pub enum RCode {
    NOERROR,
    FORMERR,
    SERVFAIL,
    NXDOMAIN,
    NOTIMP,
    REFUSED,
}

impl RCode {
    /// The wire value of this response code.
    pub open spec fn spec_to_num(self) -> u8 {
        match self {
            RCode::NOERROR => 0,
            RCode::FORMERR => 1,
            RCode::SERVFAIL => 2,
            RCode::NXDOMAIN => 3,
            RCode::NOTIMP => 4,
            RCode::REFUSED => 5,
        }
    }

    /// The response code a wire nibble stands for, or the decode error
    /// for the undefined values 6..=15 (and anything larger).
    pub open spec fn spec_from_num(num: u8) -> Result<RCode, DnsError> {
        if num == 0 {
            Ok(RCode::NOERROR)
        } else if num == 1 {
            Ok(RCode::FORMERR)
        } else if num == 2 {
            Ok(RCode::SERVFAIL)
        } else if num == 3 {
            Ok(RCode::NXDOMAIN)
        } else if num == 4 {
            Ok(RCode::NOTIMP)
        } else if num == 5 {
            Ok(RCode::REFUSED)
        } else {
            Err(DnsError::InvalidResponseCode)
        }
    }

    pub fn to_num(&self) -> (r: u8)
        ensures r == self.spec_to_num(),
    {
        match self {
            RCode::NOERROR => 0,
            RCode::FORMERR => 1,
            RCode::SERVFAIL => 2,
            RCode::NXDOMAIN => 3,
            RCode::NOTIMP => 4,
            RCode::REFUSED => 5,
        }
    }

    pub fn from_num(num: u8) -> (r: Result<RCode, DnsError>)
        ensures r == RCode::spec_from_num(num),
    {
        match num {
            0 => Ok(RCode::NOERROR),
            1 => Ok(RCode::FORMERR),
            2 => Ok(RCode::SERVFAIL),
            3 => Ok(RCode::NXDOMAIN),
            4 => Ok(RCode::NOTIMP),
            5 => Ok(RCode::REFUSED),
            _ => Err(DnsError::InvalidResponseCode),
        }
    }
}

/// One bit as a byte.
pub open spec fn b2u(b: bool) -> u8 {
    if b { 1 } else { 0 }
}

/// The DNS message header. `z` keeps the three reserved flag bits for
/// round-trip fidelity. The opcode occupies four bits on the wire; a
/// well-formed header keeps it within them.
#[derive(Clone, Debug, PartialEq, Eq)]
pub struct DnsHeader {
    pub id: u16,
    pub qr: bool,
    pub opcode: u8,
    pub aa: bool,
    pub tc: bool,
    pub rd: bool,
    pub ra: bool,
    pub z0: bool,
    pub z1: bool,
    pub z2: bool,
    pub rcode: RCode,
    pub qdcount: u16,
    pub ancount: u16,
    pub nscount: u16,
    pub arcount: u16,
}

/// The first flags byte: recursion-desired, truncated, authoritative,
/// opcode, query/response.
pub open spec fn flags_hi(h: DnsHeader) -> u8 {
    b2u(h.rd) | (b2u(h.tc) << 1) | (b2u(h.aa) << 2) | (h.opcode << 3) | (b2u(h.qr) << 7)
}

/// The second flags byte: response code, reserved bits, recursion-available.
pub open spec fn flags_lo(h: DnsHeader) -> u8 {
    h.rcode.spec_to_num() | (b2u(h.z2) << 4) | (b2u(h.z1) << 5) | (b2u(h.z0) << 6)
        | (b2u(h.ra) << 7)
}

/// The 12 bytes a header occupies on the wire.
pub open spec fn spec_header_bytes(h: DnsHeader) -> Seq<u8> {
    seq![
        (h.id >> 8) as u8, h.id as u8,
        flags_hi(h), flags_lo(h),
        (h.qdcount >> 8) as u8, h.qdcount as u8,
        (h.ancount >> 8) as u8, h.ancount as u8,
        (h.nscount >> 8) as u8, h.nscount as u8,
        (h.arcount >> 8) as u8, h.arcount as u8,
    ]
}

/// The header decoded from the 12 bytes at `pos`, or the decode error:
/// exhaustion when they do not fit in the buffer, and a hard failure on a
/// response-code nibble without defined meaning.
pub open spec fn spec_parse_header(buf: Seq<u8>, pos: nat) -> Result<DnsHeader, DnsError> {
    if pos + 12 > buf.len() {
        Err(DnsError::BufferExhausted)
    } else {
        let a = buf[pos as int + 2];
        let b = buf[pos as int + 3];
        match RCode::spec_from_num(b & 0x0f) {
            Err(e) => Err(e),
            Ok(rc) => Ok(DnsHeader {
                id: u16_from_be(buf[pos as int], buf[pos as int + 1]),
                rd: (a & 0x01) > 0,
                tc: (a & 0x02) > 0,
                aa: (a & 0x04) > 0,
                opcode: (a >> 3) & 0x0f,
                qr: (a & 0x80) > 0,
                rcode: rc,
                z0: (b & 0x40) > 0,
                z1: (b & 0x20) > 0,
                z2: (b & 0x10) > 0,
                ra: (b & 0x80) > 0,
                qdcount: u16_from_be(buf[pos as int + 4], buf[pos as int + 5]),
                ancount: u16_from_be(buf[pos as int + 6], buf[pos as int + 7]),
                nscount: u16_from_be(buf[pos as int + 8], buf[pos as int + 9]),
                arcount: u16_from_be(buf[pos as int + 10], buf[pos as int + 11]),
            }),
        }
    }
}

impl DnsHeader {
    /// The opcode fits its four wire bits.
    pub open spec fn wf(&self) -> bool {
        self.opcode <= 0x0f
    }

    /// An all-zero header: a fresh query shell.
    pub fn new() -> (r: DnsHeader)
        ensures
            r.wf(),
            r == (DnsHeader {
                id: 0u16,
                qr: false,
                opcode: 0u8,
                aa: false,
                tc: false,
                rd: false,
                ra: false,
                z0: false,
                z1: false,
                z2: false,
                rcode: RCode::NOERROR,
                qdcount: 0u16,
                ancount: 0u16,
                nscount: 0u16,
                arcount: 0u16,
            }),
    {
        DnsHeader {
            id: 0,
            qr: false,
            opcode: 0,
            aa: false,
            tc: false,
            rd: false,
            ra: false,
            z0: false,
            z1: false,
            z2: false,
            rcode: RCode::NOERROR,
            qdcount: 0,
            ancount: 0,
            nscount: 0,
            arcount: 0,
        }
    }

    /// Decode the 12 header bytes at the cursor into `self`. On failure
    /// `self` is untouched; the cursor stays put on exhaustion and has
    /// consumed the 12 bytes when only the response code was invalid.
    pub fn read(&mut self, buffer: &mut BytePacketBuffer) -> (r: Result<(), DnsError>)
        requires old(buffer).wf(),
        ensures
            final(buffer).wf(),
            final(buffer).buf@ == old(buffer).buf@,
            (match r {
                Ok(()) => spec_parse_header(old(buffer).buf@, old(buffer).pos as nat)
                        == Ok::<DnsHeader, DnsError>(*final(self))
                    && final(self).wf()
                    && final(buffer).pos == old(buffer).pos + 12,
                Err(e) => spec_parse_header(old(buffer).buf@, old(buffer).pos as nat)
                        == Err::<DnsHeader, DnsError>(e)
                    && *final(self) == *old(self)
                    && (e == DnsError::BufferExhausted ==> final(buffer).pos == old(buffer).pos)
                    && (e != DnsError::BufferExhausted
                        ==> final(buffer).pos == old(buffer).pos + 12),
            }),
    {
        if PACKET_SIZE - buffer.pos() < 12 {
            return Err(DnsError::BufferExhausted);
        }
        let id = match buffer.read_u16() {
            Ok(v) => v,
            Err(e) => { return Err(e); },
        };
        let a = match buffer.read() {
            Ok(v) => v,
            Err(e) => { return Err(e); },
        };
        let b = match buffer.read() {
            Ok(v) => v,
            Err(e) => { return Err(e); },
        };
        let qdcount = match buffer.read_u16() {
            Ok(v) => v,
            Err(e) => { return Err(e); },
        };
        let ancount = match buffer.read_u16() {
            Ok(v) => v,
            Err(e) => { return Err(e); },
        };
        let nscount = match buffer.read_u16() {
            Ok(v) => v,
            Err(e) => { return Err(e); },
        };
        let arcount = match buffer.read_u16() {
            Ok(v) => v,
            Err(e) => { return Err(e); },
        };
        let rcode = match RCode::from_num(b & 0x0f) {
            Ok(rc) => rc,
            Err(e) => { return Err(e); },
        };
        self.id = id;
        self.rd = (a & 0x01) > 0;
        self.tc = (a & 0x02) > 0;
        self.aa = (a & 0x04) > 0;
        self.opcode = (a >> 3) & 0x0f;
        self.qr = (a & 0x80) > 0;
        self.rcode = rcode;
        self.z0 = (b & 0x40) > 0;
        self.z1 = (b & 0x20) > 0;
        self.z2 = (b & 0x10) > 0;
        self.ra = (b & 0x80) > 0;
        self.qdcount = qdcount;
        self.ancount = ancount;
        self.nscount = nscount;
        self.arcount = arcount;
        proof {
            let av = a;
            assert((av >> 3) & 0x0f <= 0x0f) by (bit_vector);
        }
        Ok(())
    }

    /// Encode the header's 12 bytes at the cursor. Fails without writing
    /// anything when they do not fit.
    pub fn write(&self, buffer: &mut BytePacketBuffer) -> (r: Result<(), DnsError>)
        requires old(buffer).wf(),
        ensures
            final(buffer).wf(),
            r is Ok <==> old(buffer).pos + 12 <= PACKET_SIZE,
            r is Ok ==> final(buffer).pos == old(buffer).pos + 12
                && final(buffer).buf@ == old(buffer).buf@.subrange(0, old(buffer).pos as int)
                    + spec_header_bytes(*self)
                    + old(buffer).buf@.subrange(old(buffer).pos + 12, PACKET_SIZE as int),
            r is Err ==> r == Err::<(), DnsError>(DnsError::BufferExhausted)
                && *final(buffer) == *old(buffer),
    {
        if PACKET_SIZE - buffer.pos() < 12 {
            return Err(DnsError::BufferExhausted);
        }
        let hi = (if self.rd { 1u8 } else { 0u8 })
            | ((if self.tc { 1u8 } else { 0u8 }) << 1)
            | ((if self.aa { 1u8 } else { 0u8 }) << 2)
            | (self.opcode << 3)
            | ((if self.qr { 1u8 } else { 0u8 }) << 7);
        let lo = self.rcode.to_num()
            | ((if self.z2 { 1u8 } else { 0u8 }) << 4)
            | ((if self.z1 { 1u8 } else { 0u8 }) << 5)
            | ((if self.z0 { 1u8 } else { 0u8 }) << 6)
            | ((if self.ra { 1u8 } else { 0u8 }) << 7);
        let mut wire: Vec<u8> = Vec::new();
        wire.push((self.id >> 8) as u8);
        wire.push(self.id as u8);
        wire.push(hi);
        wire.push(lo);
        wire.push((self.qdcount >> 8) as u8);
        wire.push(self.qdcount as u8);
        wire.push((self.ancount >> 8) as u8);
        wire.push(self.ancount as u8);
        wire.push((self.nscount >> 8) as u8);
        wire.push(self.nscount as u8);
        wire.push((self.arcount >> 8) as u8);
        wire.push(self.arcount as u8);
        proof {
            assert(wire@ =~= spec_header_bytes(*self));
        }
        buffer.write_bytes(&wire)
    }
}

/// Every combination of the flag fields round-trips through the bit
/// packing: wherever a well-formed header's 12 wire bytes sit in a
/// buffer, parsing them yields that header back.
pub proof fn lemma_header_roundtrip(h: DnsHeader, buf: Seq<u8>, pos: nat)
    requires
        h.wf(),
        pos + 12 <= buf.len(),
        buf.subrange(pos as int, pos as int + 12) == spec_header_bytes(h),
    ensures
        spec_parse_header(buf, pos) == Ok::<DnsHeader, DnsError>(h),
{
    let w = spec_header_bytes(h);
    assert(forall|i: int| 0 <= i < 12
        ==> buf[pos + i] == #[trigger] buf.subrange(pos as int, pos as int + 12)[i]);
    let a = flags_hi(h);
    let lo = flags_lo(h);
    let rd = b2u(h.rd);
    let tc = b2u(h.tc);
    let aa = b2u(h.aa);
    let op = h.opcode;
    let qr = b2u(h.qr);
    assert(((a & 0x01) > 0) == (rd == 1)
        && ((a & 0x02) > 0) == (tc == 1)
        && ((a & 0x04) > 0) == (aa == 1)
        && ((a >> 3) & 0x0f) == op
        && ((a & 0x80) > 0) == (qr == 1)) by (bit_vector)
        requires
            a == rd | (tc << 1) | (aa << 2) | (op << 3) | (qr << 7),
            rd <= 1, tc <= 1, aa <= 1, op <= 0x0f, qr <= 1,
    ;
    let rc = h.rcode.spec_to_num();
    let z2 = b2u(h.z2);
    let z1 = b2u(h.z1);
    let z0 = b2u(h.z0);
    let ra = b2u(h.ra);
    assert((lo & 0x0f) == rc
        && ((lo & 0x10) > 0) == (z2 == 1)
        && ((lo & 0x20) > 0) == (z1 == 1)
        && ((lo & 0x40) > 0) == (z0 == 1)
        && ((lo & 0x80) > 0) == (ra == 1)) by (bit_vector)
        requires
            lo == rc | (z2 << 4) | (z1 << 5) | (z0 << 6) | (ra << 7),
            rc <= 5, z2 <= 1, z1 <= 1, z0 <= 1, ra <= 1,
    ;
    let idv = h.id;
    assert(((((idv >> 8) as u8) as u16) << 8) | ((idv as u8) as u16) == idv) by (bit_vector);
    let qd = h.qdcount;
    assert(((((qd >> 8) as u8) as u16) << 8) | ((qd as u8) as u16) == qd) by (bit_vector);
    let an = h.ancount;
    assert(((((an >> 8) as u8) as u16) << 8) | ((an as u8) as u16) == an) by (bit_vector);
    let ns = h.nscount;
    assert(((((ns >> 8) as u8) as u16) << 8) | ((ns as u8) as u16) == ns) by (bit_vector);
    let ar = h.arcount;
    assert(((((ar >> 8) as u8) as u16) << 8) | ((ar as u8) as u16) == ar) by (bit_vector);
    assert(spec_parse_header(buf, pos)->Ok_0 =~= h);
}

} // verus!
