//! The round-trip laws of the codec: a message whose names and records
//! are in canonical form decodes from its own wire bytes back to itself,
//! except that opaque records, which are never re-serialized, are
//! dropped.

use vstd::prelude::*;
use crate::errors::DnsError;
use crate::buffer::{u16_from_be, lemma_u16_be_roundtrip, lemma_u32_be_roundtrip};
use crate::name::{
    name_wire, valid_dns_name, lemma_name_roundtrip, lemma_name_wire_len, MAX_JUMPS,
};
use crate::header::{DnsHeader, spec_header_bytes, lemma_header_roundtrip};
use crate::question::{QType, QuestionView, spec_parse_question, spec_question_bytes};
use crate::record::{RecordView, spec_parse_record, spec_record_bytes};
use crate::packet::{
    PacketView, spec_parse_questions, spec_parse_records, spec_parse_packet,
    spec_questions_bytes, spec_records_bytes, spec_packet_bytes, spec_counts_set, counts_fit,
    addr_count,
};

verus! {

/// A question that survives the wire unchanged: its name is valid and
/// its type tag is not the unknown-tag spelling of the address type,
/// which decodes to the address tag instead.
pub open spec fn canonical_question(q: QuestionView) -> bool {
    valid_dns_name(q.qname) && q.qtype != QType::UNKNOWN(1u16)
}

/// A record whose wire form, if any, decodes back unchanged.
pub open spec fn canonical_record(r: RecordView) -> bool {
    match r {
        RecordView::Address { domain, .. } => valid_dns_name(domain),
        RecordView::Unknown { .. } => true,
    }
}

/// The records of a section that actually reach the wire: the address
/// records, in order, with the opaque ones dropped.
pub open spec fn kept_records(rs: Seq<RecordView>) -> Seq<RecordView>
    decreases rs.len(),
{
    if rs.len() == 0 {
        Seq::empty()
    } else if rs[0] is Address {
        seq![rs[0]] + kept_records(rs.drop_first())
    } else {
        kept_records(rs.drop_first())
    }
}

/// A message that round-trips: a well-formed header, counts that fit
/// their wire fields, and canonical questions and records throughout.
pub open spec fn canonical_packet(p: PacketView) -> bool {
    &&& p.header.wf()
    &&& counts_fit(p)
    &&& (forall|i: int| 0 <= i < p.questions.len() ==> canonical_question(#[trigger] p.questions[i]))
    &&& (forall|i: int| 0 <= i < p.answers.len() ==> canonical_record(#[trigger] p.answers[i]))
    &&& (forall|i: int| 0 <= i < p.authorities.len()
        ==> canonical_record(#[trigger] p.authorities[i]))
    &&& (forall|i: int| 0 <= i < p.resources.len() ==> canonical_record(#[trigger] p.resources[i]))
}

/// A canonical question decodes from its own wire bytes back to itself,
/// with the cursor just past them.
pub proof fn lemma_question_roundtrip(buf: Seq<u8>, pos: nat, q: QuestionView)
    requires
        canonical_question(q),
        pos + q.qname.len() + 6 <= buf.len(),
        buf.subrange(pos as int, pos as int + q.qname.len() + 6) == spec_question_bytes(q),
    ensures
        spec_parse_question(buf, pos)
            == Ok::<(QuestionView, nat), DnsError>((q, (pos + q.qname.len() + 6) as nat)),
{
    let n = q.qname.len() as int;
    let w = spec_question_bytes(q);
    lemma_name_wire_len(q.qname);
    assert forall|j: int| pos <= j < pos + n + 6 implies #[trigger] buf[j] == w[j - pos] by {
        assert(buf[j] == buf.subrange(pos as int, pos as int + n + 6)[j - pos]);
    }
    assert(buf.subrange(pos as int, pos as int + n + 2) =~= name_wire(q.qname));
    lemma_name_roundtrip(buf, pos, q.qname, MAX_JUMPS as nat);
    let num = q.qtype.spec_to_num();
    assert(buf[pos + n + 2] == (num >> 8) as u8 && buf[pos + n + 3] == num as u8);
    lemma_u16_be_roundtrip(num);
    assert(QType::spec_from_num(num) == q.qtype);
}

/// A canonical address record decodes from its own wire bytes back to
/// itself, with the cursor just past them.
pub proof fn lemma_record_roundtrip(buf: Seq<u8>, pos: nat, r: RecordView)
    requires
        r is Address,
        canonical_record(r),
        pos + spec_record_bytes(r).len() <= buf.len(),
        buf.subrange(pos as int, pos as int + spec_record_bytes(r).len()) == spec_record_bytes(r),
    ensures
        spec_parse_record(buf, pos) == Ok::<(RecordView, nat), DnsError>(
            (r, (pos + spec_record_bytes(r).len()) as nat)),
{
    let domain = r->Address_domain;
    let addr = r->Address_addr;
    let ttl = r->Address_ttl;
    let n = domain.len() as int;
    let w = spec_record_bytes(r);
    lemma_name_wire_len(domain);
    assert(w.len() == n + 16);
    assert forall|j: int| pos <= j < pos + n + 16 implies #[trigger] buf[j] == w[j - pos] by {
        assert(buf[j] == buf.subrange(pos as int, pos as int + n + 16)[j - pos]);
    }
    assert(buf.subrange(pos as int, pos as int + n + 2) =~= name_wire(domain));
    lemma_name_roundtrip(buf, pos, domain, MAX_JUMPS as nat);
    let p1 = pos + n + 2;
    assert(buf[p1] == 0u8 && buf[p1 + 1] == 1u8);
    assert(u16_from_be(0u8, 1u8) == 1) by (bit_vector);
    assert(buf[p1 + 4] == (ttl >> 24) as u8 && buf[p1 + 5] == (ttl >> 16) as u8
        && buf[p1 + 6] == (ttl >> 8) as u8 && buf[p1 + 7] == ttl as u8);
    lemma_u32_be_roundtrip(ttl);
    assert(buf[p1 + 10] == addr.o0 && buf[p1 + 11] == addr.o1
        && buf[p1 + 12] == addr.o2 && buf[p1 + 13] == addr.o3);
}

/// A run of canonical questions decodes from its wire bytes back to the
/// same sequence.
pub proof fn lemma_questions_roundtrip(buf: Seq<u8>, pos: nat, qs: Seq<QuestionView>)
    requires
        forall|i: int| 0 <= i < qs.len() ==> canonical_question(#[trigger] qs[i]),
        pos + spec_questions_bytes(qs).len() <= buf.len(),
        buf.subrange(pos as int, pos as int + spec_questions_bytes(qs).len())
            == spec_questions_bytes(qs),
    ensures
        spec_parse_questions(buf, pos, qs.len()) == Ok::<(Seq<QuestionView>, nat), DnsError>(
            (qs, (pos + spec_questions_bytes(qs).len()) as nat)),
    decreases qs.len(),
{
    let w = spec_questions_bytes(qs);
    assert forall|j: int| pos <= j < pos + w.len() implies #[trigger] buf[j] == w[j - pos] by {
        assert(buf[j] == buf.subrange(pos as int, pos as int + w.len() as int)[j - pos]);
    }
    if qs.len() == 0 {
        assert(qs =~= Seq::<QuestionView>::empty());
    } else {
        let q0 = qs[0];
        let w0 = spec_question_bytes(q0);
        let rest = qs.drop_first();
        let wr = spec_questions_bytes(rest);
        lemma_name_wire_len(q0.qname);
        assert(w == w0 + wr);
        assert(buf.subrange(pos as int, pos as int + w0.len()) =~= w0);
        lemma_question_roundtrip(buf, pos, q0);
        assert(buf.subrange(pos as int + w0.len(), pos as int + w.len()) =~= wr);
        lemma_questions_roundtrip(buf, (pos + w0.len()) as nat, rest);
        assert(seq![q0] + rest =~= qs);
    }
}

/// A run of canonical records decodes, when read as many times as there
/// are address records among them, back to exactly those address
/// records: the opaque ones left no bytes and are gone.
pub proof fn lemma_records_roundtrip(buf: Seq<u8>, pos: nat, rs: Seq<RecordView>)
    requires
        forall|i: int| 0 <= i < rs.len() ==> canonical_record(#[trigger] rs[i]),
        pos + spec_records_bytes(rs).len() <= buf.len(),
        buf.subrange(pos as int, pos as int + spec_records_bytes(rs).len())
            == spec_records_bytes(rs),
    ensures
        spec_parse_records(buf, pos, addr_count(rs)) == Ok::<(Seq<RecordView>, nat), DnsError>(
            (kept_records(rs), (pos + spec_records_bytes(rs).len()) as nat)),
    decreases rs.len(),
{
    let w = spec_records_bytes(rs);
    assert forall|j: int| pos <= j < pos + w.len() implies #[trigger] buf[j] == w[j - pos] by {
        assert(buf[j] == buf.subrange(pos as int, pos as int + w.len() as int)[j - pos]);
    }
    if rs.len() == 0 {
        assert(rs =~= Seq::<RecordView>::empty());
        assert(kept_records(rs) =~= Seq::<RecordView>::empty());
    } else {
        let r0 = rs[0];
        let w0 = spec_record_bytes(r0);
        let rest = rs.drop_first();
        let wr = spec_records_bytes(rest);
        assert(w == w0 + wr);
        if r0 is Address {
            lemma_name_wire_len(r0->Address_domain);
            assert(buf.subrange(pos as int, pos as int + w0.len()) =~= w0);
            lemma_record_roundtrip(buf, pos, r0);
            assert(buf.subrange(pos as int + w0.len(), pos as int + w.len()) =~= wr);
            lemma_records_roundtrip(buf, (pos + w0.len()) as nat, rest);
            assert(addr_count(rs) == 1 + addr_count(rest));
            assert(seq![r0] + kept_records(rest) == kept_records(rs));
        } else {
            assert(w0 =~= Seq::<u8>::empty());
            assert(w =~= wr);
            lemma_records_roundtrip(buf, pos, rest);
            assert(addr_count(rs) == addr_count(rest));
            assert(kept_records(rs) == kept_records(rest));
        }
    }
}

/// The round-trip law of the whole codec: decoding the wire bytes that
/// encoding a canonical message produced yields the same message, with
/// its counts as encode recomputed them, and with the opaque records
/// dropped — the one documented loss.
pub proof fn lemma_packet_roundtrip(buf: Seq<u8>, pos: nat, p: PacketView)
    requires
        canonical_packet(p),
        pos + spec_packet_bytes(p).len() <= buf.len(),
        buf.subrange(pos as int, pos as int + spec_packet_bytes(p).len())
            == spec_packet_bytes(p),
    ensures
        spec_parse_packet(buf, pos) == Ok::<(PacketView, nat), DnsError>((
            PacketView {
                header: spec_counts_set(p),
                questions: p.questions,
                answers: kept_records(p.answers),
                authorities: kept_records(p.authorities),
                resources: kept_records(p.resources),
            },
            (pos + spec_packet_bytes(p).len()) as nat,
        )),
{
    let h = spec_counts_set(p);
    let hb = spec_header_bytes(h);
    let qb = spec_questions_bytes(p.questions);
    let ab = spec_records_bytes(p.answers);
    let nb = spec_records_bytes(p.authorities);
    let rb = spec_records_bytes(p.resources);
    let w = spec_packet_bytes(p);
    assert(w == hb + qb + ab + nb + rb);
    assert(hb.len() == 12);
    assert forall|j: int| pos <= j < pos + w.len() implies #[trigger] buf[j] == w[j - pos] by {
        assert(buf[j] == buf.subrange(pos as int, pos as int + w.len() as int)[j - pos]);
    }
    assert(buf.subrange(pos as int, pos as int + 12) =~= hb);
    lemma_header_roundtrip(h, buf, pos);
    let p1 = pos + 12;
    assert(buf.subrange(p1 as int, p1 as int + qb.len()) =~= qb);
    lemma_questions_roundtrip(buf, p1 as nat, p.questions);
    let p2 = p1 + qb.len();
    assert(buf.subrange(p2 as int, p2 as int + ab.len()) =~= ab);
    lemma_records_roundtrip(buf, p2 as nat, p.answers);
    let p3 = p2 + ab.len();
    assert(buf.subrange(p3 as int, p3 as int + nb.len()) =~= nb);
    lemma_records_roundtrip(buf, p3 as nat, p.authorities);
    let p4 = p3 + nb.len();
    assert(buf.subrange(p4 as int, p4 as int + rb.len()) =~= rb);
    lemma_records_roundtrip(buf, p4 as nat, p.resources);
    assert(h.qdcount as nat == p.questions.len());
    assert(h.ancount as nat == addr_count(p.answers));
    assert(h.nscount as nat == addr_count(p.authorities));
    assert(h.arcount as nat == addr_count(p.resources));
}

} // verus!
