//! A query-section entry: a domain name and a query type. The class field
//! is always written as 1 and discarded on read.

use vstd::prelude::*;

use crate::name::{name_end, name_scan, spec_write_name_at, splice, u16_bytes, MAX_JUMPS,
    PACKET_SIZE};
use crate::packet::{spec_read_u16_at, BytePacketBuffer};
use crate::query::QueryType;
use crate::DnsError;

verus! {

/// The mathematical content of a question: its name bytes and its type.
#[verifier::ext_equal]
pub struct QuestionView {
    pub name: Seq<u8>,
    pub qtype: QueryType,
}

/// One entry of a message's question section.
#[derive(Debug, Clone, PartialEq, Eq)]
pub struct Question {
    pub name: Vec<u8>,
    pub qtype: QueryType,
}

impl View for Question {
    type V = QuestionView;

    open spec fn view(&self) -> QuestionView {
        QuestionView { name: self.name@, qtype: self.qtype }
    }
}

/// What reading a question at byte offset `pos` yields: a name, a type
/// code, and a class field that is read and discarded.
pub open spec fn spec_read_question(buf: Seq<u8>, pos: int) -> Result<(QuestionView, int),
    DnsError> {
    match name_scan(buf, pos, MAX_JUMPS as int) {
        Err(e) => Err(e),
        Ok(name) => {
            let p1 = name_end(buf, pos);
            match spec_read_u16_at(buf, p1) {
                Err(e) => Err(e),
                Ok((tnum, p2)) => match spec_read_u16_at(buf, p2) {
                    Err(e) => Err(e),
                    Ok((_class, p3)) => Ok(
                        (QuestionView { name, qtype: QueryType::spec_from_num(tnum) }, p3),
                    ),
                },
            }
        },
    }
}

/// What writing a question at byte offset `pos` emits: the name in full,
/// the type code, then class 1.
pub open spec fn spec_write_question_at(q: QuestionView, pos: int) -> Result<Seq<u8>, DnsError> {
    match spec_write_name_at(q.name, pos) {
        Err(e) => Err(e),
        Ok(nb) => if pos + nb.len() + 4 <= PACKET_SIZE {
            Ok(nb + u16_bytes(q.qtype.spec_to_num()) + u16_bytes(1))
        } else {
            Err(DnsError::BufferOverrun)
        },
    }
}

impl Question {
    /// A question built from its parts.
    pub fn new(name: Vec<u8>, qtype: QueryType) -> (r: Question)
        ensures
            r@ == (QuestionView { name: name@, qtype }),
    {
        Question { name, qtype }
    }

    /// Reads a question at the cursor: the name is appended to this
    /// question's name, the type replaces its type, the class is discarded.
    pub fn read(&mut self, buffer: &mut BytePacketBuffer) -> (r: Result<(), DnsError>)
        requires
            old(buffer).wf(),
        ensures
            final(buffer).wf(),
            final(buffer)@.bytes == old(buffer)@.bytes,
            match spec_read_question(old(buffer)@.bytes, old(buffer)@.pos) {
                Ok(pair) => {
                    &&& r == Ok::<(), DnsError>(())
                    &&& final(self)@.name == old(self)@.name + pair.0.name
                    &&& final(self)@.qtype == pair.0.qtype
                    &&& final(self)@.qtype.wf()
                    &&& final(buffer)@.pos == pair.1
                },
                Err(e) => r == Err::<(), DnsError>(e),
            },
    {
        buffer.read_qname(&mut self.name)?;
        self.qtype = QueryType::from_num(buffer.read_u16()?);
        let _ = buffer.read_u16()?;
        Ok(())
    }

    /// Writes this question at the cursor: name, type code, class 1.
    pub fn write(&self, buffer: &mut BytePacketBuffer) -> (r: Result<(), DnsError>)
        requires
            old(buffer).wf(),
        ensures
            final(buffer).wf(),
            old(buffer)@.pos <= final(buffer)@.pos,
            forall|j: int|
                0 <= j < old(buffer)@.pos ==> final(buffer)@.bytes[j] == old(buffer)@.bytes[j],
            match spec_write_question_at(self@, old(buffer)@.pos) {
                Ok(bs) => {
                    &&& r == Ok::<(), DnsError>(())
                    &&& final(buffer)@.bytes == splice(old(buffer)@.bytes, old(buffer)@.pos, bs)
                    &&& final(buffer)@.pos == old(buffer)@.pos + bs.len()
                },
                Err(e) => r == Err::<(), DnsError>(e),
            },
    {
        let ghost b0 = buffer@;
        buffer.write_qname(self.name.as_slice())?;
        let ghost b1 = buffer@;

        let typenum = self.qtype.to_num();
        buffer.write_u16(typenum)?;
        let ghost b2 = buffer@;
        buffer.write_u16(1)?;
        proof {
            match spec_write_name_at(self@.name, b0.pos) {
                Ok(nb) => {
                    assert(b2.bytes =~= splice(b0.bytes, b0.pos, nb + u16_bytes(typenum)));
                    assert(buffer@.bytes =~= splice(
                        b0.bytes,
                        b0.pos,
                        nb + u16_bytes(typenum) + u16_bytes(1),
                    ));
                },
                Err(_) => {
                    assert(false);
                },
            }
        }
        Ok(())
    }
}

} // verus!
