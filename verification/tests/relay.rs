use dnsrelay::buffer::BytePacketBuffer;
use dnsrelay::header::RCode;
use dnsrelay::packet::DnsPacket;
use dnsrelay::question::{DnsQuestion, QType};
use dnsrelay::record::{DnsRecord, Ipv4};
use dnsrelay::relay::{build_local_response, parse_ipv4, relay_decision, RelayAction};

fn name(s: &str) -> Vec<u8> {
    s.as_bytes().to_vec()
}

fn query_for(qname: &str) -> DnsPacket {
    let mut q = DnsPacket::new();
    q.header.id = 0x1234;
    q.header.rd = true;
    q.questions.push(DnsQuestion::new(name(qname), QType::A));
    q
}

#[test]
fn parse_ipv4_accepts_dotted_quads() {
    assert_eq!(
        parse_ipv4(&name("93.184.216.34")),
        Some(Ipv4 { o0: 93, o1: 184, o2: 216, o3: 34 })
    );
    assert_eq!(parse_ipv4(&name("0.0.0.0")), Some(Ipv4 { o0: 0, o1: 0, o2: 0, o3: 0 }));
    assert_eq!(
        parse_ipv4(&name("255.255.255.255")),
        Some(Ipv4 { o0: 255, o1: 255, o2: 255, o3: 255 })
    );
}

#[test]
fn parse_ipv4_rejects_malformed_literals() {
    assert_eq!(parse_ipv4(&name("")), None);
    assert_eq!(parse_ipv4(&name("1.2.3")), None);
    assert_eq!(parse_ipv4(&name("1.2.3.4.5")), None);
    assert_eq!(parse_ipv4(&name("1.2.3.")), None);
    assert_eq!(parse_ipv4(&name(".1.2.3")), None);
    assert_eq!(parse_ipv4(&name("256.0.0.1")), None);
    assert_eq!(parse_ipv4(&name("01.2.3.4")), None);
    assert_eq!(parse_ipv4(&name("1.2.3.4a")), None);
    assert_eq!(parse_ipv4(&name("a.b.c.d")), None);
    assert_eq!(parse_ipv4(&name("1..2.3")), None);
}

#[test]
fn sentinel_entry_yields_nxdomain_with_no_answer() {
    // hosts table: "example.test" -> "0.0.0.0"
    let addr = parse_ipv4(&name("0.0.0.0")).unwrap();
    let response = build_local_response(query_for("example.test"), addr);
    assert_eq!(response.header.rcode, RCode::NXDOMAIN);
    assert!(response.header.qr);
    assert!(response.header.ra);
    assert_eq!(response.answers.len(), 0);
    assert_eq!(response.header.ancount, 0);
    // it still encodes and decodes as a response with no answers
    let mut out = response;
    let mut buf = BytePacketBuffer::new();
    out.write(&mut buf).unwrap();
    buf.seek(0).unwrap();
    let back = DnsPacket::from_buffer(&mut buf).unwrap();
    assert_eq!(back.header.rcode, RCode::NXDOMAIN);
    assert_eq!(back.header.ancount, 0);
    assert_eq!(back.answers.len(), 0);
}

#[test]
fn hosts_hit_yields_one_address_record_with_ttl_299() {
    // hosts table: "example.test" -> "93.184.216.34"
    let addr = parse_ipv4(&name("93.184.216.34")).unwrap();
    let response = build_local_response(query_for("example.test"), addr);
    assert_eq!(response.header.rcode, RCode::NOERROR);
    assert!(response.header.qr);
    assert!(response.header.ra);
    assert_eq!(response.answers.len(), 1);
    assert_eq!(
        response.answers[0],
        DnsRecord::A {
            domain: name("example.test"),
            addr: Ipv4 { o0: 93, o1: 184, o2: 216, o3: 34 },
            ttl: 299,
        }
    );
    // the answer survives the wire byte-exactly
    let mut out = response;
    let mut buf = BytePacketBuffer::new();
    out.write(&mut buf).unwrap();
    buf.seek(0).unwrap();
    let back = DnsPacket::from_buffer(&mut buf).unwrap();
    assert_eq!(back.header.id, 0x1234);
    assert_eq!(back.answers.len(), 1);
    assert_eq!(
        back.answers[0],
        DnsRecord::A {
            domain: name("example.test"),
            addr: Ipv4 { o0: 93, o1: 184, o2: 216, o3: 34 },
            ttl: 299,
        }
    );
}

#[test]
fn response_keeps_question_and_id() {
    let addr = parse_ipv4(&name("10.1.2.3")).unwrap();
    let response = build_local_response(query_for("host.example.test"), addr);
    assert_eq!(response.header.id, 0x1234);
    assert_eq!(response.questions.len(), 1);
    assert_eq!(response.questions[0].qname, name("host.example.test"));
    assert_eq!(response.resources.len(), 0);
    assert_eq!(response.header.arcount, 0);
}

#[test]
fn routing_rule_forwards_known_reply_to_recorded_client() {
    // a reply from a non-local source whose id matches a recorded
    // transaction goes, untouched, to the client recorded for that id
    assert_eq!(relay_decision(false, false, true), RelayAction::ForwardToClient);
    assert_eq!(relay_decision(false, true, true), RelayAction::ForwardToClient);
    assert_eq!(relay_decision(false, false, false), RelayAction::Drop);
    assert_eq!(relay_decision(true, true, false), RelayAction::AnswerLocally);
    assert_eq!(relay_decision(true, false, false), RelayAction::ForwardUpstream);
}
