//! The message assembler: a header and four record sections, decoded in
//! the order the header's counts dictate, and encoded with the counts
//! recomputed from the records that actually reach the wire.

use vstd::prelude::*;
use crate::errors::DnsError;
use crate::buffer::{BytePacketBuffer, PACKET_SIZE};
use crate::header::{DnsHeader, spec_parse_header, spec_header_bytes};
use crate::question::{DnsQuestion, QType, QuestionView, spec_parse_question, spec_question_bytes};
use crate::record::{DnsRecord, RecordView, spec_parse_record, spec_record_bytes};
use crate::name::labels_ok;

verus! {

/// What a message holds, as mathematical values.
pub struct PacketView {
    pub header: DnsHeader,
    pub questions: Seq<QuestionView>,
    pub answers: Seq<RecordView>,
    pub authorities: Seq<RecordView>,
    pub resources: Seq<RecordView>,
}

/// `n` questions decoded back to back from `pos`, and the position just
/// past the last one.
pub open spec fn spec_parse_questions(buf: Seq<u8>, pos: nat, n: nat)
    -> Result<(Seq<QuestionView>, nat), DnsError>
    decreases n,
{
    if n == 0 {
        Ok((Seq::empty(), pos))
    } else {
        match spec_parse_question(buf, pos) {
            Err(e) => Err(e),
            Ok(pr) => match spec_parse_questions(buf, pr.1, (n - 1) as nat) {
                Err(e) => Err(e),
                Ok(rr) => Ok((seq![pr.0] + rr.0, rr.1)),
            },
        }
    }
}

/// `n` records decoded back to back from `pos`, and the position just
/// past the last one.
pub open spec fn spec_parse_records(buf: Seq<u8>, pos: nat, n: nat)
    -> Result<(Seq<RecordView>, nat), DnsError>
    decreases n,
{
    if n == 0 {
        Ok((Seq::empty(), pos))
    } else {
        match spec_parse_record(buf, pos) {
            Err(e) => Err(e),
            Ok(pr) => match spec_parse_records(buf, pr.1, (n - 1) as nat) {
                Err(e) => Err(e),
                Ok(rr) => Ok((seq![pr.0] + rr.0, rr.1)),
            },
        }
    }
}

/// The whole message decoded from `pos`: the header, then as many
/// questions and records as its counts say, each section in order.
pub open spec fn spec_parse_packet(buf: Seq<u8>, pos: nat)
    -> Result<(PacketView, nat), DnsError>
{
    match spec_parse_header(buf, pos) {
        Err(e) => Err(e),
        Ok(h) => match spec_parse_questions(buf, (pos + 12) as nat, h.qdcount as nat) {
            Err(e) => Err(e),
            Ok(qr) => match spec_parse_records(buf, qr.1, h.ancount as nat) {
                Err(e) => Err(e),
                Ok(ar) => match spec_parse_records(buf, ar.1, h.nscount as nat) {
                    Err(e) => Err(e),
                    Ok(nr) => match spec_parse_records(buf, nr.1, h.arcount as nat) {
                        Err(e) => Err(e),
                        Ok(rr) => Ok((PacketView {
                            header: h,
                            questions: qr.0,
                            answers: ar.0,
                            authorities: nr.0,
                            resources: rr.0,
                        }, rr.1)),
                    },
                },
            },
        },
    }
}

/// The bytes of a question section.
pub open spec fn spec_questions_bytes(qs: Seq<QuestionView>) -> Seq<u8>
    decreases qs.len(),
{
    if qs.len() == 0 {
        Seq::empty()
    } else {
        spec_question_bytes(qs[0]) + spec_questions_bytes(qs.drop_first())
    }
}

/// The bytes of a record section: opaque records contribute nothing.
pub open spec fn spec_records_bytes(rs: Seq<RecordView>) -> Seq<u8>
    decreases rs.len(),
{
    if rs.len() == 0 {
        Seq::empty()
    } else {
        spec_record_bytes(rs[0]) + spec_records_bytes(rs.drop_first())
    }
}

/// Every question's name can be put on the wire.
pub open spec fn questions_ok(qs: Seq<QuestionView>) -> bool {
    forall|i: int| 0 <= i < qs.len() ==> labels_ok(#[trigger] qs[i].qname)
}

/// Every address record's name can be put on the wire.
pub open spec fn records_ok(rs: Seq<RecordView>) -> bool {
    forall|i: int| 0 <= i < rs.len() ==> (#[trigger] rs[i] matches RecordView::Address {
        domain, .. } ==> labels_ok(domain))
}

/// How many records of a section are address records: exactly the
/// records that reach the wire on encode.
pub open spec fn addr_count(rs: Seq<RecordView>) -> nat
    decreases rs.len(),
{
    if rs.len() == 0 {
        0
    } else {
        (if rs[0] is Address { 1nat } else { 0nat }) + addr_count(rs.drop_first())
    }
}

/// The header as encode writes it: every count recomputed from the
/// records that are actually emitted, never trusted from the caller.
pub open spec fn spec_counts_set(p: PacketView) -> DnsHeader {
    DnsHeader {
        qdcount: p.questions.len() as u16,
        ancount: addr_count(p.answers) as u16,
        nscount: addr_count(p.authorities) as u16,
        arcount: addr_count(p.resources) as u16,
        ..p.header
    }
}

/// The four counts fit their 16-bit wire fields.
pub open spec fn counts_fit(p: PacketView) -> bool {
    &&& p.questions.len() <= 0xffff
    &&& addr_count(p.answers) <= 0xffff
    &&& addr_count(p.authorities) <= 0xffff
    &&& addr_count(p.resources) <= 0xffff
}

/// The bytes a whole message occupies on encode.
pub open spec fn spec_packet_bytes(p: PacketView) -> Seq<u8> {
    spec_header_bytes(spec_counts_set(p))
        + spec_questions_bytes(p.questions)
        + spec_records_bytes(p.answers)
        + spec_records_bytes(p.authorities)
        + spec_records_bytes(p.resources)
}

/// Whether a whole message can be encoded at cursor position `pos`.
pub open spec fn packet_writable(p: PacketView, pos: nat) -> bool {
    &&& counts_fit(p)
    &&& questions_ok(p.questions)
    &&& records_ok(p.answers)
    &&& records_ok(p.authorities)
    &&& records_ok(p.resources)
    &&& pos + spec_packet_bytes(p).len() <= PACKET_SIZE
}

/// A full DNS message: header plus the four record sections.
#[derive(Clone, Debug, PartialEq, Eq)]
pub struct DnsPacket {
    pub header: DnsHeader,
    pub questions: Vec<DnsQuestion>,
    pub answers: Vec<DnsRecord>,
    pub authorities: Vec<DnsRecord>,
    pub resources: Vec<DnsRecord>,
}

impl View for DnsPacket {
    type V = PacketView;

    open spec fn view(&self) -> PacketView {
        PacketView {
            header: self.header,
            questions: self.questions@.map_values(|q: DnsQuestion| q@),
            answers: self.answers@.map_values(|r: DnsRecord| r@),
            authorities: self.authorities@.map_values(|r: DnsRecord| r@),
            resources: self.resources@.map_values(|r: DnsRecord| r@),
        }
    }
}

/// Decode `count` questions back to back.
#[verifier::loop_isolation(false)]
fn read_questions(buffer: &mut BytePacketBuffer, count: u16)
    -> (r: Result<Vec<DnsQuestion>, DnsError>)
    requires old(buffer).wf(),
    ensures
        final(buffer).wf(),
        final(buffer).buf@ == old(buffer).buf@,
        (match r {
            Ok(qs) => spec_parse_questions(old(buffer).buf@, old(buffer).pos as nat, count as nat)
                == Ok::<(Seq<QuestionView>, nat), DnsError>(
                    (qs@.map_values(|q: DnsQuestion| q@), final(buffer).pos as nat))
                && qs@.len() == count,
            Err(e) => spec_parse_questions(old(buffer).buf@, old(buffer).pos as nat, count as nat)
                == Err::<(Seq<QuestionView>, nat), DnsError>(e),
        }),
{
    let ghost buf0 = buffer.buf@;
    let ghost target = spec_parse_questions(buf0, old(buffer).pos as nat, count as nat);
    let mut qs: Vec<DnsQuestion> = Vec::new();
    let mut i: u16 = 0;
    while i < count
        invariant
            buffer.wf(),
            buffer.buf@ == buf0,
            i <= count,
            qs@.len() == i,
            (match spec_parse_questions(buf0, buffer.pos as nat, (count - i) as nat) {
                Ok(rr) => target == Ok::<(Seq<QuestionView>, nat), DnsError>(
                    (qs@.map_values(|q: DnsQuestion| q@) + rr.0, rr.1)),
                Err(e) => target == Err::<(Seq<QuestionView>, nat), DnsError>(e),
            }),
        decreases count - i,
    {
        let ghost acc = qs@.map_values(|q: DnsQuestion| q@);
        let mut question = DnsQuestion::new(Vec::new(), QType::A);
        match question.read(buffer) {
            Ok(()) => (),
            Err(e) => { return Err(e); },
        };
        qs.push(question);
        i = i + 1;
        proof {
            assert(qs@.map_values(|q: DnsQuestion| q@) =~= acc.push(question@));
            let rest = spec_parse_questions(buf0, buffer.pos as nat, (count - i) as nat);
            if rest is Ok {
                assert(acc + (seq![question@] + rest->Ok_0.0)
                    =~= acc.push(question@) + rest->Ok_0.0);
            }
        }
    }
    proof {
        assert(qs@.map_values(|q: DnsQuestion| q@) + Seq::<QuestionView>::empty()
            =~= qs@.map_values(|q: DnsQuestion| q@));
    }
    Ok(qs)
}

/// Decode `count` records back to back.
#[verifier::loop_isolation(false)]
fn read_records(buffer: &mut BytePacketBuffer, count: u16)
    -> (r: Result<Vec<DnsRecord>, DnsError>)
    requires old(buffer).wf(),
    ensures
        final(buffer).wf(),
        final(buffer).buf@ == old(buffer).buf@,
        (match r {
            Ok(rs) => spec_parse_records(old(buffer).buf@, old(buffer).pos as nat, count as nat)
                == Ok::<(Seq<RecordView>, nat), DnsError>(
                    (rs@.map_values(|x: DnsRecord| x@), final(buffer).pos as nat))
                && rs@.len() == count,
            Err(e) => spec_parse_records(old(buffer).buf@, old(buffer).pos as nat, count as nat)
                == Err::<(Seq<RecordView>, nat), DnsError>(e),
        }),
{
    let ghost buf0 = buffer.buf@;
    let ghost target = spec_parse_records(buf0, old(buffer).pos as nat, count as nat);
    let mut rs: Vec<DnsRecord> = Vec::new();
    let mut i: u16 = 0;
    while i < count
        invariant
            buffer.wf(),
            buffer.buf@ == buf0,
            i <= count,
            rs@.len() == i,
            (match spec_parse_records(buf0, buffer.pos as nat, (count - i) as nat) {
                Ok(rr) => target == Ok::<(Seq<RecordView>, nat), DnsError>(
                    (rs@.map_values(|x: DnsRecord| x@) + rr.0, rr.1)),
                Err(e) => target == Err::<(Seq<RecordView>, nat), DnsError>(e),
            }),
        decreases count - i,
    {
        let ghost acc = rs@.map_values(|x: DnsRecord| x@);
        let rec = match DnsRecord::read(buffer) {
            Ok(rec) => rec,
            Err(e) => { return Err(e); },
        };
        rs.push(rec);
        i = i + 1;
        proof {
            assert(rs@.map_values(|x: DnsRecord| x@) =~= acc.push(rec@));
            let rest = spec_parse_records(buf0, buffer.pos as nat, (count - i) as nat);
            if rest is Ok {
                assert(acc + (seq![rec@] + rest->Ok_0.0) =~= acc.push(rec@) + rest->Ok_0.0);
            }
        }
    }
    proof {
        assert(rs@.map_values(|x: DnsRecord| x@) + Seq::<RecordView>::empty()
            =~= rs@.map_values(|x: DnsRecord| x@));
    }
    Ok(rs)
}

/// Encode every question of a section, back to back.
#[verifier::loop_isolation(false)]
fn write_questions(buffer: &mut BytePacketBuffer, qs: &Vec<DnsQuestion>)
    -> (r: Result<(), DnsError>)
    requires old(buffer).wf(),
    ensures
        final(buffer).wf(),
        r is Ok <==> questions_ok(qs@.map_values(|q: DnsQuestion| q@))
            && old(buffer).pos
                + spec_questions_bytes(qs@.map_values(|q: DnsQuestion| q@)).len()
                <= PACKET_SIZE,
        r is Ok ==> final(buffer).pos == old(buffer).pos
                + spec_questions_bytes(qs@.map_values(|q: DnsQuestion| q@)).len()
            && final(buffer).buf@ == old(buffer).buf@.subrange(0, old(buffer).pos as int)
                + spec_questions_bytes(qs@.map_values(|q: DnsQuestion| q@))
                + old(buffer).buf@.subrange(
                    old(buffer).pos
                        + spec_questions_bytes(qs@.map_values(|q: DnsQuestion| q@)).len(),
                    PACKET_SIZE as int),
        r is Err ==> (r == Err::<(), DnsError>(DnsError::LabelTooLong)
            || r == Err::<(), DnsError>(DnsError::BufferExhausted)),
        r == Err::<(), DnsError>(DnsError::LabelTooLong)
            ==> !questions_ok(qs@.map_values(|q: DnsQuestion| q@)),
{
    let ghost views = qs@.map_values(|q: DnsQuestion| q@);
    let ghost buf0 = buffer.buf@;
    let ghost pos0 = buffer.pos as int;
    let n = qs.len();
    let ghost mut written: Seq<u8> = Seq::empty();
    let mut i: usize = 0;
    proof {
        assert(views.subrange(0, n as int) =~= views);
        assert(Seq::<u8>::empty() + spec_questions_bytes(views) =~= spec_questions_bytes(views));
        assert(buf0 =~= buf0.subrange(0, pos0) + Seq::<u8>::empty()
            + buf0.subrange(pos0, PACKET_SIZE as int));
    }
    while i < n
        invariant
            buffer.wf(),
            i <= n,
            spec_questions_bytes(views)
                == written + spec_questions_bytes(views.subrange(i as int, n as int)),
            forall|t: int| 0 <= t < i ==> labels_ok(#[trigger] views[t].qname),
            buffer.pos == pos0 + written.len(),
            buffer.buf@ == buf0.subrange(0, pos0) + written
                + buf0.subrange(buffer.pos as int, PACKET_SIZE as int),
        decreases n - i,
    {
        let ghost suffix = views.subrange(i as int, n as int);
        proof {
            assert(suffix.drop_first() =~= views.subrange(i as int + 1, n as int));
            assert(spec_questions_bytes(suffix) == spec_question_bytes(views[i as int])
                + spec_questions_bytes(views.subrange(i as int + 1, n as int)));
            crate::name::lemma_name_wire_len(views[i as int].qname);
        }
        let ghost bpre = buffer.buf@;
        let ghost ppre = buffer.pos as int;
        match qs[i].write(buffer) {
            Ok(()) => (),
            Err(e) => { return Err(e); },
        };
        proof {
            assert(bpre.subrange(0, ppre) =~= buf0.subrange(0, pos0) + written);
            assert(bpre.subrange(ppre + views[i as int].qname.len() + 6, PACKET_SIZE as int)
                =~= buf0.subrange(buffer.pos as int, PACKET_SIZE as int));
            written = written + spec_question_bytes(views[i as int]);
            assert(buffer.buf@ =~= buf0.subrange(0, pos0) + written
                + buf0.subrange(buffer.pos as int, PACKET_SIZE as int));
        }
        i = i + 1;
    }
    proof {
        assert(views.subrange(n as int, n as int) =~= Seq::<QuestionView>::empty());
        assert(written + Seq::<u8>::empty() =~= written);
    }
    Ok(())
}

/// Encode every record of a section, back to back; opaque records are
/// dropped and contribute nothing.
#[verifier::loop_isolation(false)]
fn write_records(buffer: &mut BytePacketBuffer, rs: &Vec<DnsRecord>)
    -> (r: Result<(), DnsError>)
    requires old(buffer).wf(),
    ensures
        final(buffer).wf(),
        r is Ok <==> records_ok(rs@.map_values(|x: DnsRecord| x@))
            && old(buffer).pos
                + spec_records_bytes(rs@.map_values(|x: DnsRecord| x@)).len()
                <= PACKET_SIZE,
        r is Ok ==> final(buffer).pos == old(buffer).pos
                + spec_records_bytes(rs@.map_values(|x: DnsRecord| x@)).len()
            && final(buffer).buf@ == old(buffer).buf@.subrange(0, old(buffer).pos as int)
                + spec_records_bytes(rs@.map_values(|x: DnsRecord| x@))
                + old(buffer).buf@.subrange(
                    old(buffer).pos
                        + spec_records_bytes(rs@.map_values(|x: DnsRecord| x@)).len(),
                    PACKET_SIZE as int),
        r is Err ==> (r == Err::<(), DnsError>(DnsError::LabelTooLong)
            || r == Err::<(), DnsError>(DnsError::BufferExhausted)),
        r == Err::<(), DnsError>(DnsError::LabelTooLong)
            ==> !records_ok(rs@.map_values(|x: DnsRecord| x@)),
{
    let ghost views = rs@.map_values(|x: DnsRecord| x@);
    let ghost buf0 = buffer.buf@;
    let ghost pos0 = buffer.pos as int;
    let n = rs.len();
    let ghost mut written: Seq<u8> = Seq::empty();
    let mut i: usize = 0;
    proof {
        assert(views.subrange(0, n as int) =~= views);
        assert(Seq::<u8>::empty() + spec_records_bytes(views) =~= spec_records_bytes(views));
        assert(buf0 =~= buf0.subrange(0, pos0) + Seq::<u8>::empty()
            + buf0.subrange(pos0, PACKET_SIZE as int));
    }
    while i < n
        invariant
            buffer.wf(),
            i <= n,
            spec_records_bytes(views)
                == written + spec_records_bytes(views.subrange(i as int, n as int)),
            forall|t: int| 0 <= t < i ==> (#[trigger] views[t] matches RecordView::Address {
                domain, .. } ==> labels_ok(domain)),
            buffer.pos == pos0 + written.len(),
            buffer.buf@ == buf0.subrange(0, pos0) + written
                + buf0.subrange(buffer.pos as int, PACKET_SIZE as int),
        decreases n - i,
    {
        let ghost suffix = views.subrange(i as int, n as int);
        proof {
            assert(suffix.drop_first() =~= views.subrange(i as int + 1, n as int));
            assert(spec_records_bytes(suffix) == spec_record_bytes(views[i as int])
                + spec_records_bytes(views.subrange(i as int + 1, n as int)));
            match views[i as int] {
                RecordView::Address { domain, .. } => {
                    crate::name::lemma_name_wire_len(domain);
                },
                RecordView::Unknown { .. } => {},
            }
        }
        let ghost bpre = buffer.buf@;
        let ghost ppre = buffer.pos as int;
        match rs[i].write(buffer) {
            Ok(_) => (),
            Err(e) => { return Err(e); },
        };
        proof {
            assert(bpre.subrange(0, ppre) =~= buf0.subrange(0, pos0) + written);
            assert(bpre.subrange(ppre + spec_record_bytes(views[i as int]).len(),
                    PACKET_SIZE as int)
                =~= buf0.subrange(buffer.pos as int, PACKET_SIZE as int));
            written = written + spec_record_bytes(views[i as int]);
            assert(buffer.buf@ =~= buf0.subrange(0, pos0) + written
                + buf0.subrange(buffer.pos as int, PACKET_SIZE as int));
        }
        i = i + 1;
    }
    proof {
        assert(views.subrange(n as int, n as int) =~= Seq::<RecordView>::empty());
        assert(written + Seq::<u8>::empty() =~= written);
    }
    Ok(())
}

/// How many records of a section are address records.
#[verifier::loop_isolation(false)]
fn count_addresses(rs: &Vec<DnsRecord>) -> (r: usize)
    ensures r == addr_count(rs@.map_values(|x: DnsRecord| x@)),
{
    let ghost views = rs@.map_values(|x: DnsRecord| x@);
    let n = rs.len();
    let mut count: usize = 0;
    let mut i: usize = 0;
    proof {
        assert(views.subrange(0, n as int) =~= views);
    }
    while i < n
        invariant
            i <= n,
            count <= i,
            n == views.len(),
            count + addr_count(views.subrange(i as int, n as int)) == addr_count(views),
        decreases n - i,
    {
        proof {
            assert(views.subrange(i as int, n as int).drop_first()
                =~= views.subrange(i as int + 1, n as int));
        }
        if matches!(rs[i], DnsRecord::A { .. }) {
            count = count + 1;
        }
        i = i + 1;
    }
    proof {
        assert(views.subrange(n as int, n as int) =~= Seq::<RecordView>::empty());
    }
    count
}

impl DnsPacket {
    /// An empty message with an all-zero header.
    pub fn new() -> (r: DnsPacket)
        ensures
            r.header == (DnsHeader {
                id: 0u16,
                qr: false,
                opcode: 0u8,
                aa: false,
                tc: false,
                rd: false,
                ra: false,
                z0: false,
                z1: false,
                z2: false,
                rcode: crate::header::RCode::NOERROR,
                qdcount: 0u16,
                ancount: 0u16,
                nscount: 0u16,
                arcount: 0u16,
            }),
            r.questions@.len() == 0,
            r.answers@.len() == 0,
            r.authorities@.len() == 0,
            r.resources@.len() == 0,
    {
        DnsPacket {
            header: DnsHeader::new(),
            questions: Vec::new(),
            answers: Vec::new(),
            authorities: Vec::new(),
            resources: Vec::new(),
        }
    }

    /// Decode a whole message at the cursor: the header, then each
    /// section with as many entries as the header's counts say, so the
    /// sections' lengths equal the counts by construction.
    pub fn from_buffer(buffer: &mut BytePacketBuffer) -> (r: Result<DnsPacket, DnsError>)
        requires old(buffer).wf(),
        ensures
            final(buffer).wf(),
            final(buffer).buf@ == old(buffer).buf@,
            (match r {
                Ok(p) => spec_parse_packet(old(buffer).buf@, old(buffer).pos as nat)
                        == Ok::<(PacketView, nat), DnsError>((p@, final(buffer).pos as nat))
                    && p.questions@.len() == p.header.qdcount
                    && p.answers@.len() == p.header.ancount
                    && p.authorities@.len() == p.header.nscount
                    && p.resources@.len() == p.header.arcount,
                Err(e) => spec_parse_packet(old(buffer).buf@, old(buffer).pos as nat)
                    == Err::<(PacketView, nat), DnsError>(e),
            }),
    {
        let mut header = DnsHeader::new();
        match header.read(buffer) {
            Ok(()) => (),
            Err(e) => { return Err(e); },
        };
        let questions = match read_questions(buffer, header.qdcount) {
            Ok(qs) => qs,
            Err(e) => { return Err(e); },
        };
        let answers = match read_records(buffer, header.ancount) {
            Ok(rs) => rs,
            Err(e) => { return Err(e); },
        };
        let authorities = match read_records(buffer, header.nscount) {
            Ok(rs) => rs,
            Err(e) => { return Err(e); },
        };
        let resources = match read_records(buffer, header.arcount) {
            Ok(rs) => rs,
            Err(e) => { return Err(e); },
        };
        Ok(DnsPacket { header, questions, answers, authorities, resources })
    }

    /// Encode the whole message at the cursor. The four header counts are
    /// first recomputed from what will actually be written — all
    /// questions, but only the address records, opaque ones being
    /// dropped — so the counts on the wire always match the records that
    /// follow them.
    #[verifier::rlimit(100)]
    pub fn write(&mut self, buffer: &mut BytePacketBuffer) -> (r: Result<(), DnsError>)
        requires old(buffer).wf(),
        ensures
            final(buffer).wf(),
            r is Ok <==> packet_writable(old(self)@, old(buffer).pos as nat),
            r is Ok ==> final(self).header == spec_counts_set(old(self)@)
                && final(self).questions == old(self).questions
                && final(self).answers == old(self).answers
                && final(self).authorities == old(self).authorities
                && final(self).resources == old(self).resources
                && final(buffer).pos == old(buffer).pos + spec_packet_bytes(old(self)@).len()
                && final(buffer).buf@ == old(buffer).buf@.subrange(0, old(buffer).pos as int)
                    + spec_packet_bytes(old(self)@)
                    + old(buffer).buf@.subrange(
                        old(buffer).pos + spec_packet_bytes(old(self)@).len(),
                        PACKET_SIZE as int),
            r is Err ==> (r == Err::<(), DnsError>(DnsError::LabelTooLong)
                || r == Err::<(), DnsError>(DnsError::BufferExhausted)),
            r == Err::<(), DnsError>(DnsError::LabelTooLong)
                ==> !(questions_ok(old(self)@.questions)
                    && records_ok(old(self)@.answers)
                    && records_ok(old(self)@.authorities)
                    && records_ok(old(self)@.resources)),
    {
        let ghost p0 = old(self)@;
        let qd = self.questions.len();
        let an = count_addresses(&self.answers);
        let ns = count_addresses(&self.authorities);
        let ar = count_addresses(&self.resources);
        if qd > 0xffff || an > 0xffff || ns > 0xffff || ar > 0xffff {
            return Err(DnsError::BufferExhausted);
        }
        self.header.qdcount = qd as u16;
        self.header.ancount = an as u16;
        self.header.nscount = ns as u16;
        self.header.arcount = ar as u16;
        proof {
            assert(self.header == spec_counts_set(p0));
        }
        let ghost buf0 = buffer.buf@;
        let ghost pos0 = buffer.pos as int;
        let ghost hb = spec_header_bytes(spec_counts_set(p0));
        let ghost qb = spec_questions_bytes(p0.questions);
        let ghost ab = spec_records_bytes(p0.answers);
        let ghost nb = spec_records_bytes(p0.authorities);
        let ghost rb = spec_records_bytes(p0.resources);
        match self.header.write(buffer) {
            Ok(()) => (),
            Err(e) => { return Err(e); },
        };
        proof {
            assert(buffer.buf@ =~= buf0.subrange(0, pos0) + hb
                + buf0.subrange(pos0 + hb.len(), PACKET_SIZE as int));
        }
        let ghost b1 = buffer.buf@;
        let ghost p1 = buffer.pos as int;
        match write_questions(buffer, &self.questions) {
            Ok(()) => (),
            Err(e) => { return Err(e); },
        };
        proof {
            assert(b1.subrange(0, p1) =~= buf0.subrange(0, pos0) + hb);
            assert(b1.subrange(p1 + qb.len(), PACKET_SIZE as int)
                =~= buf0.subrange(pos0 + hb.len() + qb.len(), PACKET_SIZE as int));
            assert(buffer.buf@ =~= buf0.subrange(0, pos0) + (hb + qb)
                + buf0.subrange(pos0 + hb.len() + qb.len(), PACKET_SIZE as int));
        }
        let ghost b2 = buffer.buf@;
        let ghost p2 = buffer.pos as int;
        match write_records(buffer, &self.answers) {
            Ok(()) => (),
            Err(e) => { return Err(e); },
        };
        proof {
            assert(b2.subrange(0, p2) =~= buf0.subrange(0, pos0) + (hb + qb));
            assert(b2.subrange(p2 + ab.len(), PACKET_SIZE as int)
                =~= buf0.subrange(pos0 + hb.len() + qb.len() + ab.len(), PACKET_SIZE as int));
            assert(buffer.buf@ =~= buf0.subrange(0, pos0) + (hb + qb + ab)
                + buf0.subrange(pos0 + hb.len() + qb.len() + ab.len(), PACKET_SIZE as int));
        }
        let ghost b3 = buffer.buf@;
        let ghost p3 = buffer.pos as int;
        match write_records(buffer, &self.authorities) {
            Ok(()) => (),
            Err(e) => { return Err(e); },
        };
        proof {
            assert(b3.subrange(0, p3) =~= buf0.subrange(0, pos0) + (hb + qb + ab));
            assert(b3.subrange(p3 + nb.len(), PACKET_SIZE as int)
                =~= buf0.subrange(pos0 + hb.len() + qb.len() + ab.len() + nb.len(),
                    PACKET_SIZE as int));
            assert(buffer.buf@ =~= buf0.subrange(0, pos0) + (hb + qb + ab + nb)
                + buf0.subrange(pos0 + hb.len() + qb.len() + ab.len() + nb.len(),
                    PACKET_SIZE as int));
        }
        let ghost b4 = buffer.buf@;
        let ghost p4 = buffer.pos as int;
        match write_records(buffer, &self.resources) {
            Ok(()) => (),
            Err(e) => { return Err(e); },
        };
        proof {
            assert(b4.subrange(0, p4) =~= buf0.subrange(0, pos0) + (hb + qb + ab + nb));
            assert(b4.subrange(p4 + rb.len(), PACKET_SIZE as int)
                =~= buf0.subrange(pos0 + spec_packet_bytes(p0).len(), PACKET_SIZE as int));
            assert(buffer.buf@ =~= buf0.subrange(0, pos0) + spec_packet_bytes(p0)
                + buf0.subrange(pos0 + spec_packet_bytes(p0).len(), PACKET_SIZE as int));
        }
        Ok(())
    }
}

} // verus!
