//! The resource-record codec: address records are interpreted, anything
//! else is carried as an opaque entry whose payload is skipped on decode
//! and which is dropped (not re-serialized) on encode.

use vstd::prelude::*;
use crate::errors::DnsError;
use crate::buffer::{BytePacketBuffer, PACKET_SIZE, u16_from_be, u32_from_be};
use crate::name::{spec_read_name, name_wire, labels_ok, labels_check, MAX_JUMPS};

verus! {

/// An IPv4 address as its four octets, most significant first.
#[derive(Clone, Copy, Debug, PartialEq, Eq, Structural)]
pub struct Ipv4 {
    pub o0: u8,
    pub o1: u8,
    pub o2: u8,
    pub o3: u8,
}

/// What a record holds, as mathematical values.
pub enum RecordView {
    Unknown { domain: Seq<u8>, qtype: u16, data_len: u16, ttl: u32 },
    Address { domain: Seq<u8>, addr: Ipv4, ttl: u32 },
}

/// One resource record: an interpreted address record, or an opaque
/// entry keeping just enough metadata to have skipped its payload.
#[derive(Clone, Debug, PartialEq, Eq)]
pub enum DnsRecord {
    UNKNOWN { domain: Vec<u8>, qtype: u16, data_len: u16, ttl: u32 },
    A { domain: Vec<u8>, addr: Ipv4, ttl: u32 },
}

impl View for DnsRecord {
    type V = RecordView;

    open spec fn view(&self) -> RecordView {
        match self {
            DnsRecord::UNKNOWN { domain, qtype, data_len, ttl } => RecordView::Unknown {
                domain: domain@, qtype: *qtype, data_len: *data_len, ttl: *ttl,
            },
            DnsRecord::A { domain, addr, ttl } => RecordView::Address {
                domain: domain@, addr: *addr, ttl: *ttl,
            },
        }
    }
}

/// The record decoded at `pos` and the position just past it (the skipped
/// payload included, for opaque records), or the first decode error.
pub open spec fn spec_parse_record(buf: Seq<u8>, pos: nat)
    -> Result<(RecordView, nat), DnsError>
{
    match spec_read_name(buf, pos, MAX_JUMPS as nat) {
        Err(e) => Err(e),
        Ok(pr) => {
            let p1 = pr.1;
            if p1 + 10 > buf.len() {
                Err(DnsError::BufferExhausted)
            } else {
                let qtype_num = u16_from_be(buf[p1 as int], buf[p1 as int + 1]);
                let ttl = u32_from_be(buf[p1 as int + 4], buf[p1 as int + 5],
                    buf[p1 as int + 6], buf[p1 as int + 7]);
                let data_len = u16_from_be(buf[p1 as int + 8], buf[p1 as int + 9]);
                if qtype_num == 1 {
                    if p1 + 14 > buf.len() {
                        Err(DnsError::BufferExhausted)
                    } else {
                        Ok((RecordView::Address {
                            domain: pr.0,
                            addr: Ipv4 {
                                o0: buf[p1 as int + 10],
                                o1: buf[p1 as int + 11],
                                o2: buf[p1 as int + 12],
                                o3: buf[p1 as int + 13],
                            },
                            ttl: ttl,
                        }, (p1 + 14) as nat))
                    }
                } else {
                    if p1 + 10 + data_len > buf.len() {
                        Err(DnsError::BufferExhausted)
                    } else {
                        Ok((RecordView::Unknown {
                            domain: pr.0,
                            qtype: qtype_num,
                            data_len: data_len,
                            ttl: ttl,
                        }, (p1 + 10 + data_len) as nat))
                    }
                }
            }
        },
    }
}

/// The bytes a record contributes on encode: the full address-record
/// layout, or nothing at all for an opaque record.
pub open spec fn spec_record_bytes(r: RecordView) -> Seq<u8> {
    match r {
        RecordView::Unknown { .. } => Seq::empty(),
        RecordView::Address { domain, addr, ttl } => name_wire(domain) + seq![
            0u8, 1u8,
            0u8, 1u8,
            (ttl >> 24) as u8, (ttl >> 16) as u8, (ttl >> 8) as u8, ttl as u8,
            0u8, 4u8,
            addr.o0, addr.o1, addr.o2, addr.o3,
        ],
    }
}

/// Whether a record can be written at cursor position `pos`: an opaque
/// record always can (it writes nothing); an address record needs valid
/// labels and room for its bytes.
pub open spec fn record_writable(r: RecordView, pos: nat) -> bool {
    match r {
        RecordView::Unknown { .. } => true,
        RecordView::Address { domain, .. } => labels_ok(domain)
            && pos + domain.len() + 16 <= PACKET_SIZE,
    }
}

impl DnsRecord {
    /// Decode the record at the cursor, leaving the cursor just past it.
    pub fn read(buffer: &mut BytePacketBuffer) -> (r: Result<DnsRecord, DnsError>)
        requires old(buffer).wf(),
        ensures
            final(buffer).wf(),
            final(buffer).buf@ == old(buffer).buf@,
            (match r {
                Ok(rec) => spec_parse_record(old(buffer).buf@, old(buffer).pos as nat)
                    == Ok::<(RecordView, nat), DnsError>((rec@, final(buffer).pos as nat)),
                Err(e) => spec_parse_record(old(buffer).buf@, old(buffer).pos as nat)
                    == Err::<(RecordView, nat), DnsError>(e),
            }),
    {
        let domain = match buffer.read_qname() {
            Ok(n) => n,
            Err(e) => { return Err(e); },
        };
        let ghost p1 = buffer.pos as int;
        if PACKET_SIZE - buffer.pos() < 10 {
            return Err(DnsError::BufferExhausted);
        }
        let qtype_num = match buffer.read_u16() {
            Ok(v) => v,
            Err(e) => { return Err(e); },
        };
        match buffer.read_u16() {
            Ok(_) => (),
            Err(e) => { return Err(e); },
        };
        let ttl = match buffer.read_u32() {
            Ok(v) => v,
            Err(e) => { return Err(e); },
        };
        let data_len = match buffer.read_u16() {
            Ok(v) => v,
            Err(e) => { return Err(e); },
        };
        if qtype_num == 1 {
            let raw = match buffer.read_u32() {
                Ok(v) => v,
                Err(e) => { return Err(e); },
            };
            let o0 = ((raw >> 24) & 0xff) as u8;
            let o1 = ((raw >> 16) & 0xff) as u8;
            let o2 = ((raw >> 8) & 0xff) as u8;
            let o3 = (raw & 0xff) as u8;
            proof {
                let b0 = old(buffer).buf@[p1 + 10];
                let b1 = old(buffer).buf@[p1 + 11];
                let b2 = old(buffer).buf@[p1 + 12];
                let b3 = old(buffer).buf@[p1 + 13];
                let v = raw;
                assert(v == u32_from_be(b0, b1, b2, b3)
                    ==> ((v >> 24) & 0xff) as u8 == b0
                        && ((v >> 16) & 0xff) as u8 == b1
                        && ((v >> 8) & 0xff) as u8 == b2
                        && (v & 0xff) as u8 == b3) by (bit_vector);
            }
            Ok(DnsRecord::A { domain, addr: Ipv4 { o0, o1, o2, o3 }, ttl })
        } else {
            match buffer.step(data_len as usize) {
                Ok(()) => (),
                Err(e) => { return Err(e); },
            };
            Ok(DnsRecord::UNKNOWN { domain, qtype: qtype_num, data_len, ttl })
        }
    }

    /// Encode the record at the cursor, returning how many bytes were
    /// written: the whole record for an address record, zero for an
    /// opaque one, which is silently dropped from the wire.
    pub fn write(&self, buffer: &mut BytePacketBuffer) -> (r: Result<usize, DnsError>)
        requires old(buffer).wf(),
        ensures
            final(buffer).wf(),
            r is Ok <==> record_writable(self@, old(buffer).pos as nat),
            r is Ok ==> r == Ok::<usize, DnsError>(spec_record_bytes(self@).len() as usize)
                && final(buffer).pos == old(buffer).pos + spec_record_bytes(self@).len()
                && final(buffer).buf@ == old(buffer).buf@.subrange(0, old(buffer).pos as int)
                    + spec_record_bytes(self@)
                    + old(buffer).buf@.subrange(
                        old(buffer).pos + spec_record_bytes(self@).len(), PACKET_SIZE as int),
            r is Err ==> (match self@ {
                RecordView::Address { domain, .. } => r == Err::<usize, DnsError>(
                    if labels_ok(domain) { DnsError::BufferExhausted }
                    else { DnsError::LabelTooLong }),
                RecordView::Unknown { .. } => false,
            }),
    {
        match self {
            DnsRecord::A { domain, addr, ttl } => {
                if labels_check(domain) {
                    if PACKET_SIZE - buffer.pos() < 16
                        || PACKET_SIZE - 16 - buffer.pos() < domain.len()
                    {
                        return Err(DnsError::BufferExhausted);
                    }
                }
                let ghost buf0 = buffer.buf@;
                let ghost pos0 = buffer.pos as int;
                match buffer.write_qname(domain) {
                    Ok(()) => (),
                    Err(e) => { return Err(e); },
                };
                let t = *ttl;
                let mut fixed: Vec<u8> = Vec::new();
                fixed.push(0u8);
                fixed.push(1u8);
                fixed.push(0u8);
                fixed.push(1u8);
                fixed.push((t >> 24) as u8);
                fixed.push((t >> 16) as u8);
                fixed.push((t >> 8) as u8);
                fixed.push(t as u8);
                fixed.push(0u8);
                fixed.push(4u8);
                fixed.push(addr.o0);
                fixed.push(addr.o1);
                fixed.push(addr.o2);
                fixed.push(addr.o3);
                match buffer.write_bytes(&fixed) {
                    Ok(()) => (),
                    Err(e) => { return Err(e); },
                };
                proof {
                    crate::name::lemma_name_wire_len(domain@);
                    assert(fixed@ =~= seq![
                        0u8, 1u8,
                        0u8, 1u8,
                        (t >> 24) as u8, (t >> 16) as u8, (t >> 8) as u8, t as u8,
                        0u8, 4u8,
                        addr.o0, addr.o1, addr.o2, addr.o3,
                    ]);
                    assert(buffer.buf@ =~= buf0.subrange(0, pos0)
                        + spec_record_bytes(self@)
                        + buf0.subrange(pos0 + domain@.len() + 16, PACKET_SIZE as int));
                }
                Ok(domain.len() + 16)
            },
            DnsRecord::UNKNOWN { .. } => {
                proof {
                    assert(buffer.buf@ =~= buffer.buf@.subrange(0, buffer.pos as int)
                        + spec_record_bytes(self@)
                        + buffer.buf@.subrange(buffer.pos as int, PACKET_SIZE as int));
                }
                Ok(0)
            },
        }
    }
}

} // verus!
