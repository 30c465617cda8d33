//! The question codec: a domain name, a record-type tag, and the query
//! class, which is always written as 1 (Internet) and never inspected.

use vstd::prelude::*;
use crate::errors::DnsError;
use crate::buffer::{BytePacketBuffer, PACKET_SIZE, u16_from_be};
use crate::name::{spec_read_name, name_wire, labels_ok, labels_check, MAX_JUMPS};

verus! {

/// The record-type tag: an open enumeration, so an unrecognized wire
/// value is carried through rather than failing the parse.
#[derive(Clone, Copy, Debug, PartialEq, Eq, Structural)]
pub enum QType {
    A,
    UNKNOWN(u16),
}

impl QType {
    /// The wire value of this tag.
    pub open spec fn spec_to_num(self) -> u16 {
        match self {
            QType::A => 1,
            QType::UNKNOWN(x) => x,
        }
    }

    /// The tag a wire value stands for.
    pub open spec fn spec_from_num(num: u16) -> QType {
        if num == 1 {
            QType::A
        } else {
            QType::UNKNOWN(num)
        }
    }

    pub fn to_num(&self) -> (r: u16)
        ensures r == self.spec_to_num(),
    {
        match *self {
            QType::UNKNOWN(x) => x,
            QType::A => 1,
        }
    }

    pub fn from_num(num: u16) -> (r: QType)
        ensures r == QType::spec_from_num(num),
    {
        match num {
            1 => QType::A,
            _ => QType::UNKNOWN(num),
        }
    }
}

/// What a question holds, as mathematical values.
pub struct QuestionView {
    pub qname: Seq<u8>,
    pub qtype: QType,
}

/// One entry of the question section: the queried name (lower-cased,
/// dot-joined) and its record-type tag.
#[derive(Clone, Debug, PartialEq, Eq)]
pub struct DnsQuestion {
    pub qname: Vec<u8>,
    pub qtype: QType,
}

impl View for DnsQuestion {
    type V = QuestionView;

    open spec fn view(&self) -> QuestionView {
        QuestionView { qname: self.qname@, qtype: self.qtype }
    }
}

/// The bytes one question occupies on the wire: the name, the type, and
/// class 1.
pub open spec fn spec_question_bytes(q: QuestionView) -> Seq<u8> {
    name_wire(q.qname) + seq![
        (q.qtype.spec_to_num() >> 8) as u8, q.qtype.spec_to_num() as u8,
        0u8, 1u8,
    ]
}

/// The question decoded at `pos` and the position just past it, or the
/// first decode error.
pub open spec fn spec_parse_question(buf: Seq<u8>, pos: nat)
    -> Result<(QuestionView, nat), DnsError>
{
    match spec_read_name(buf, pos, MAX_JUMPS as nat) {
        Err(e) => Err(e),
        Ok(pr) => {
            let p1 = pr.1;
            if p1 + 4 > buf.len() {
                Err(DnsError::BufferExhausted)
            } else {
                Ok((QuestionView {
                    qname: pr.0,
                    qtype: QType::spec_from_num(
                        u16_from_be(buf[p1 as int], buf[p1 as int + 1])),
                }, (p1 + 4) as nat))
            }
        },
    }
}

impl DnsQuestion {
    pub fn new(qname: Vec<u8>, qtype: QType) -> (r: DnsQuestion)
        ensures r.qname == qname, r.qtype == qtype,
    {
        DnsQuestion { qname, qtype }
    }

    /// Decode the question at the cursor into `self`, leaving the cursor
    /// just past it. On failure `self` is untouched.
    pub fn read(&mut self, buffer: &mut BytePacketBuffer) -> (r: Result<(), DnsError>)
        requires old(buffer).wf(),
        ensures
            final(buffer).wf(),
            final(buffer).buf@ == old(buffer).buf@,
            (match r {
                Ok(()) => spec_parse_question(old(buffer).buf@, old(buffer).pos as nat)
                    == Ok::<(QuestionView, nat), DnsError>(
                        (final(self)@, final(buffer).pos as nat)),
                Err(e) => spec_parse_question(old(buffer).buf@, old(buffer).pos as nat)
                        == Err::<(QuestionView, nat), DnsError>(e)
                    && *final(self) == *old(self),
            }),
    {
        let qname = match buffer.read_qname() {
            Ok(n) => n,
            Err(e) => { return Err(e); },
        };
        if PACKET_SIZE - buffer.pos() < 4 {
            return Err(DnsError::BufferExhausted);
        }
        let qtype_num = match buffer.read_u16() {
            Ok(v) => v,
            Err(e) => { return Err(e); },
        };
        match buffer.read_u16() {
            Ok(_) => (),
            Err(e) => { return Err(e); },
        };
        self.qname = qname;
        self.qtype = QType::from_num(qtype_num);
        Ok(())
    }

    /// Encode the question at the cursor. Succeeds exactly when every
    /// label fits the length limit and the whole question fits the
    /// buffer.
    pub fn write(&self, buffer: &mut BytePacketBuffer) -> (r: Result<(), DnsError>)
        requires old(buffer).wf(),
        ensures
            final(buffer).wf(),
            r is Ok <==> labels_ok(self.qname@)
                && old(buffer).pos + self.qname@.len() + 6 <= PACKET_SIZE,
            r is Ok ==> final(buffer).pos == old(buffer).pos + self.qname@.len() + 6
                && final(buffer).buf@ == old(buffer).buf@.subrange(0, old(buffer).pos as int)
                    + spec_question_bytes(self@)
                    + old(buffer).buf@.subrange(
                        old(buffer).pos + self.qname@.len() + 6, PACKET_SIZE as int),
            r is Err ==> r == Err::<(), DnsError>(if labels_ok(self.qname@) {
                    DnsError::BufferExhausted
                } else {
                    DnsError::LabelTooLong
                }),
    {
        if labels_check(&self.qname) {
            if PACKET_SIZE - buffer.pos() < 6 || PACKET_SIZE - 6 - buffer.pos() < self.qname.len()
            {
                return Err(DnsError::BufferExhausted);
            }
        }
        let ghost buf0 = buffer.buf@;
        let ghost pos0 = buffer.pos as int;
        match buffer.write_qname(&self.qname) {
            Ok(()) => (),
            Err(e) => { return Err(e); },
        };
        let num = self.qtype.to_num();
        let mut fixed: Vec<u8> = Vec::new();
        fixed.push((num >> 8) as u8);
        fixed.push(num as u8);
        fixed.push(0u8);
        fixed.push(1u8);
        match buffer.write_bytes(&fixed) {
            Ok(()) => (),
            Err(e) => { return Err(e); },
        };
        proof {
            crate::name::lemma_name_wire_len(self.qname@);
            assert(buffer.buf@ =~= buf0.subrange(0, pos0)
                + spec_question_bytes(self@)
                + buf0.subrange(pos0 + self.qname@.len() + 6, PACKET_SIZE as int));
        }
        Ok(())
    }
}

} // verus!
