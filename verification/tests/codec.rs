use dnsrelay::buffer::BytePacketBuffer;
use dnsrelay::errors::DnsError;
use dnsrelay::header::{DnsHeader, RCode};
use dnsrelay::packet::DnsPacket;
use dnsrelay::question::{DnsQuestion, QType};
use dnsrelay::record::{DnsRecord, Ipv4};

fn name(s: &str) -> Vec<u8> {
    s.as_bytes().to_vec()
}

#[test]
fn boundary_write_last_byte_succeeds() {
    let mut buf = BytePacketBuffer::new();
    buf.seek(511).unwrap();
    assert!(buf.write(0xab).is_ok());
    assert_eq!(buf.pos, 512);
    assert_eq!(buf.buf[511], 0xab);
}

#[test]
fn boundary_write_past_end_fails() {
    let mut buf = BytePacketBuffer::new();
    buf.seek(512).unwrap();
    assert_eq!(buf.write(1), Err(DnsError::BufferExhausted));
}

#[test]
fn boundary_read_last_byte_succeeds() {
    let mut buf = BytePacketBuffer::new();
    buf.buf[511] = 7;
    buf.seek(511).unwrap();
    assert_eq!(buf.read(), Ok(7));
}

#[test]
fn boundary_read_past_end_fails() {
    let mut buf = BytePacketBuffer::new();
    buf.seek(512).unwrap();
    assert_eq!(buf.read(), Err(DnsError::BufferExhausted));
}

#[test]
fn boundary_range_touching_byte_511_succeeds() {
    let buf = BytePacketBuffer::new();
    assert!(buf.get_range(508, 4).is_ok());
    assert_eq!(buf.get_range(509, 4), Err(DnsError::BufferExhausted));
}

#[test]
fn boundary_seek_past_end_fails() {
    let mut buf = BytePacketBuffer::new();
    assert!(buf.seek(512).is_ok());
    assert_eq!(buf.seek(513), Err(DnsError::BufferExhausted));
    assert_eq!(buf.step(1), Err(DnsError::BufferExhausted));
}

#[test]
fn big_endian_exact_values() {
    let mut buf = BytePacketBuffer::new();
    buf.write_u16(0x1234).unwrap();
    buf.write_u32(0xdeadbeef).unwrap();
    assert_eq!(&buf.buf[0..6], &[0x12, 0x34, 0xde, 0xad, 0xbe, 0xef]);
    buf.seek(0).unwrap();
    assert_eq!(buf.read_u16(), Ok(0x1234));
    assert_eq!(buf.read_u32(), Ok(0xdeadbeef));
}

#[test]
fn name_encodes_to_exact_wire_bytes() {
    let mut buf = BytePacketBuffer::new();
    buf.write_qname(&name("www.example.com")).unwrap();
    let expected: &[u8] = &[
        3, b'w', b'w', b'w', 7, b'e', b'x', b'a', b'm', b'p', b'l', b'e', 3, b'c', b'o', b'm', 0,
    ];
    assert_eq!(&buf.buf[0..17], expected);
    assert_eq!(buf.pos, 17);
}

#[test]
fn name_roundtrip() {
    let mut buf = BytePacketBuffer::new();
    buf.write_qname(&name("www.example.com")).unwrap();
    buf.seek(0).unwrap();
    let decoded = buf.read_qname().unwrap();
    assert_eq!(decoded, name("www.example.com"));
    assert_eq!(buf.pos, 17);
}

#[test]
fn name_decode_lowercases() {
    let mut buf = BytePacketBuffer::new();
    buf.write_qname(&name("WwW.ExAmple.COM")).unwrap();
    buf.seek(0).unwrap();
    assert_eq!(buf.read_qname().unwrap(), name("www.example.com"));
}

#[test]
fn label_of_63_bytes_is_accepted_64_rejected() {
    let mut buf = BytePacketBuffer::new();
    let ok_label = vec![b'a'; 63];
    assert!(buf.write_qname(&ok_label).is_ok());
    let mut buf2 = BytePacketBuffer::new();
    let long_label = vec![b'a'; 64];
    assert_eq!(buf2.write_qname(&long_label), Err(DnsError::LabelTooLong));
    // nothing was written
    assert_eq!(buf2.pos, 0);
}

#[test]
fn name_too_large_for_buffer_fails() {
    let mut buf = BytePacketBuffer::new();
    buf.seek(511).unwrap();
    assert_eq!(buf.write_qname(&name("ab")), Err(DnsError::BufferExhausted));
}

#[test]
fn compressed_name_matches_direct_decode() {
    let mut buf = BytePacketBuffer::new();
    // the full name at offset 0
    buf.write_qname(&name("www.example.com")).unwrap();
    // at offset 100: a pointer back to offset 0
    buf.seek(100).unwrap();
    buf.write_u8(0xc0).unwrap();
    buf.write_u8(0x00).unwrap();
    buf.seek(0).unwrap();
    let direct = buf.read_qname().unwrap();
    buf.seek(100).unwrap();
    let via_pointer = buf.read_qname().unwrap();
    assert_eq!(direct, via_pointer);
}

#[test]
fn cursor_lands_two_bytes_past_pointer() {
    let mut buf = BytePacketBuffer::new();
    buf.write_qname(&name("host.example.com")).unwrap();
    buf.seek(200).unwrap();
    buf.write_u8(0xc0).unwrap();
    buf.write_u8(0x00).unwrap();
    buf.seek(200).unwrap();
    buf.read_qname().unwrap();
    assert_eq!(buf.pos, 202);
}

#[test]
fn partial_name_with_pointer_suffix() {
    let mut buf = BytePacketBuffer::new();
    // "example.com" at offset 0
    buf.write_qname(&name("example.com")).unwrap();
    // "www" + pointer to offset 0, placed at offset 50
    buf.seek(50).unwrap();
    buf.write_u8(3).unwrap();
    buf.write_u8(b'w').unwrap();
    buf.write_u8(b'w').unwrap();
    buf.write_u8(b'w').unwrap();
    buf.write_u8(0xc0).unwrap();
    buf.write_u8(0x00).unwrap();
    buf.seek(50).unwrap();
    assert_eq!(buf.read_qname().unwrap(), name("www.example.com"));
    assert_eq!(buf.pos, 56);
}

#[test]
fn pointer_cycle_fails_instead_of_hanging() {
    let mut buf = BytePacketBuffer::new();
    // a pointer that points at itself
    buf.buf[0] = 0xc0;
    buf.buf[1] = 0x00;
    assert_eq!(buf.read_qname(), Err(DnsError::TooManyJumps));
}

#[test]
fn header_all_flag_combinations_roundtrip() {
    let rcodes = [
        RCode::NOERROR,
        RCode::FORMERR,
        RCode::SERVFAIL,
        RCode::NXDOMAIN,
        RCode::NOTIMP,
        RCode::REFUSED,
    ];
    for bits in 0u32..256 {
        let mut h = DnsHeader::new();
        h.id = 0x5aa5;
        h.qr = bits & 1 != 0;
        h.aa = bits & 2 != 0;
        h.tc = bits & 4 != 0;
        h.rd = bits & 8 != 0;
        h.ra = bits & 16 != 0;
        h.z0 = bits & 32 != 0;
        h.z1 = bits & 64 != 0;
        h.z2 = bits & 128 != 0;
        h.opcode = (bits % 16) as u8;
        h.rcode = rcodes[(bits % 6) as usize];
        let mut buf = BytePacketBuffer::new();
        h.write(&mut buf).unwrap();
        buf.seek(0).unwrap();
        let mut back = DnsHeader::new();
        back.read(&mut buf).unwrap();
        assert_eq!(back, h);
        assert_eq!(buf.pos, 12);
    }
}

#[test]
fn header_rcode_nibble_0x0f_fails_decode() {
    let mut buf = BytePacketBuffer::new();
    // id 0, flags byte one 0, flags byte two with all four low bits set
    buf.buf[3] = 0x0f;
    let mut h = DnsHeader::new();
    assert_eq!(h.read(&mut buf), Err(DnsError::InvalidResponseCode));
}

#[test]
fn header_rcode_values_0_to_5_decode() {
    for v in 0u8..6 {
        let mut buf = BytePacketBuffer::new();
        buf.buf[3] = v;
        let mut h = DnsHeader::new();
        assert!(h.read(&mut buf).is_ok());
        assert_eq!(h.rcode.to_num(), v);
    }
    for v in 6u8..16 {
        let mut buf = BytePacketBuffer::new();
        buf.buf[3] = v;
        let mut h = DnsHeader::new();
        assert_eq!(h.read(&mut buf), Err(DnsError::InvalidResponseCode));
    }
}

#[test]
fn qtype_numbers() {
    assert_eq!(QType::A.to_num(), 1);
    assert_eq!(QType::UNKNOWN(16).to_num(), 16);
    assert_eq!(QType::from_num(1), QType::A);
    assert_eq!(QType::from_num(28), QType::UNKNOWN(28));
}

#[test]
fn rcode_numbers() {
    assert_eq!(RCode::NOERROR.to_num(), 0);
    assert_eq!(RCode::NXDOMAIN.to_num(), 3);
    assert_eq!(RCode::from_num(5), Ok(RCode::REFUSED));
    assert_eq!(RCode::from_num(6), Err(DnsError::InvalidResponseCode));
    assert_eq!(RCode::from_num(15), Err(DnsError::InvalidResponseCode));
}

#[test]
fn question_roundtrip() {
    let q = DnsQuestion::new(name("example.test"), QType::A);
    let mut buf = BytePacketBuffer::new();
    q.write(&mut buf).unwrap();
    buf.seek(0).unwrap();
    let mut back = DnsQuestion::new(Vec::new(), QType::UNKNOWN(0));
    back.read(&mut buf).unwrap();
    assert_eq!(back, q);
}

#[test]
fn address_record_roundtrip() {
    let rec = DnsRecord::A {
        domain: name("example.test"),
        addr: Ipv4 { o0: 10, o1: 0, o2: 0, o3: 1 },
        ttl: 3600,
    };
    let mut buf = BytePacketBuffer::new();
    let written = rec.write(&mut buf).unwrap();
    assert_eq!(written, "example.test".len() + 16);
    buf.seek(0).unwrap();
    let back = DnsRecord::read(&mut buf).unwrap();
    assert_eq!(back, rec);
}

#[test]
fn opaque_record_writes_nothing() {
    let rec = DnsRecord::UNKNOWN {
        domain: name("example.test"),
        qtype: 16,
        data_len: 9,
        ttl: 60,
    };
    let mut buf = BytePacketBuffer::new();
    assert_eq!(rec.write(&mut buf), Ok(0));
    assert_eq!(buf.pos, 0);
}

#[test]
fn opaque_record_payload_is_skipped_on_read() {
    let mut buf = BytePacketBuffer::new();
    buf.write_qname(&name("x.test")).unwrap();
    buf.write_u16(16).unwrap(); // an uninterpreted type
    buf.write_u16(1).unwrap();
    buf.write_u32(60).unwrap();
    buf.write_u16(5).unwrap(); // five bytes of payload
    for b in [1u8, 2, 3, 4, 5] {
        buf.write_u8(b).unwrap();
    }
    let end = buf.pos;
    buf.seek(0).unwrap();
    let rec = DnsRecord::read(&mut buf).unwrap();
    assert_eq!(buf.pos, end);
    assert_eq!(
        rec,
        DnsRecord::UNKNOWN { domain: name("x.test"), qtype: 16, data_len: 5, ttl: 60 }
    );
}

fn sample_packet() -> DnsPacket {
    let mut p = DnsPacket::new();
    p.header.id = 0xbeef;
    p.header.qr = true;
    p.header.rd = true;
    p.header.ra = true;
    p.questions.push(DnsQuestion::new(name("a.example.test"), QType::A));
    p.answers.push(DnsRecord::A {
        domain: name("a.example.test"),
        addr: Ipv4 { o0: 192, o1: 0, o2: 2, o3: 7 },
        ttl: 120,
    });
    p.answers.push(DnsRecord::UNKNOWN {
        domain: name("a.example.test"),
        qtype: 16,
        data_len: 4,
        ttl: 120,
    });
    p.answers.push(DnsRecord::A {
        domain: name("b.example.test"),
        addr: Ipv4 { o0: 192, o1: 0, o2: 2, o3: 8 },
        ttl: 121,
    });
    p
}

#[test]
fn packet_roundtrip_drops_opaque_records() {
    let mut p = sample_packet();
    let mut buf = BytePacketBuffer::new();
    p.write(&mut buf).unwrap();
    buf.seek(0).unwrap();
    let back = DnsPacket::from_buffer(&mut buf).unwrap();
    // everything survives except the opaque record, which is dropped
    let mut expected = p.clone();
    expected.answers.retain(|r| matches!(r, DnsRecord::A { .. }));
    assert_eq!(back, expected);
}

#[test]
fn count_consistency_with_dropped_records() {
    let mut p = sample_packet();
    let mut buf = BytePacketBuffer::new();
    p.write(&mut buf).unwrap();
    // the header count written matches the records actually emitted
    assert_eq!(p.header.ancount, 2);
    assert_eq!(p.header.qdcount, 1);
    buf.seek(0).unwrap();
    let back = DnsPacket::from_buffer(&mut buf).unwrap();
    assert_eq!(back.header.ancount, 2);
    assert_eq!(back.answers.len(), 2);
}

#[test]
fn decoded_section_lengths_match_counts() {
    let mut p = sample_packet();
    let mut buf = BytePacketBuffer::new();
    p.write(&mut buf).unwrap();
    buf.seek(0).unwrap();
    let back = DnsPacket::from_buffer(&mut buf).unwrap();
    assert_eq!(back.questions.len(), back.header.qdcount as usize);
    assert_eq!(back.answers.len(), back.header.ancount as usize);
    assert_eq!(back.authorities.len(), back.header.nscount as usize);
    assert_eq!(back.resources.len(), back.header.arcount as usize);
}

#[test]
fn zero_filled_question_decodes_as_empty_name() {
    let mut buf = BytePacketBuffer::new();
    buf.buf[5] = 1; // one question promised; the all-zero body reads as
                    // an empty name with type and class zero
    buf.seek(0).unwrap();
    let p = DnsPacket::from_buffer(&mut buf).unwrap();
    assert_eq!(p.questions[0].qname, Vec::<u8>::new());
}

#[test]
fn truncated_message_fails_decode() {
    let mut buf = BytePacketBuffer::new();
    buf.buf[5] = 1;
    buf.buf[12] = 63; // labels that run past the end of the buffer
    for i in 13..512 {
        buf.buf[i] = b'a';
    }
    buf.seek(0).unwrap();
    assert_eq!(DnsPacket::from_buffer(&mut buf), Err(DnsError::BufferExhausted));
}
