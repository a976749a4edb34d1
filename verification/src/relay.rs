//! The decisions of the resolving relay: the query message sent upstream
//! for a name, and the response returned for an inbound request given the
//! outcome of the upstream lookup. The transport that carries the datagrams
//! lives outside the library and only hands values in and out.

use vstd::prelude::*;

use crate::packet::Packet;
use crate::query::QueryType;
use crate::question::{Question, QuestionView};
use crate::rescode::ResultCode;

verus! {

/// The fixed transaction id the relay stamps on its upstream queries.
pub const QUERY_ID: u16 = 6666;

/// The outbound query for one name and type: a fresh message asking for
/// recursion, carrying exactly that question and nothing else.
pub fn build_query(qname: Vec<u8>, qtype: QueryType) -> (r: Packet)
    ensures
        r@.header.id == QUERY_ID,
        r@.header.rd,
        !r@.header.qr && !r@.header.aa && !r@.header.tc && !r@.header.ra,
        r@.header.opcode == 0 && r@.header.z == 0,
        r@.header.rcode == ResultCode::NOERROR,
        r@.header.qdcount == 1,
        r@.header.ancount == 0 && r@.header.nscount == 0 && r@.header.arcount == 0,
        r@.header.wf(),
        r@.questions == seq![QuestionView { name: qname@, qtype }],
        r@.answers.len() == 0,
        r@.authorities.len() == 0,
        r@.resources.len() == 0,
{
    let mut packet = Packet::new();
    packet.header.id = QUERY_ID;
    packet.header.qdcount = 1;
    packet.header.rd = true;
    packet.questions.push(Question::new(qname, qtype));
    proof {
        assert(packet@.questions =~= seq![QuestionView { name: qname@, qtype }]);
    }
    packet
}

/// The response for one inbound request: it echoes the request id and is
/// marked a recursion-available response. With no question in the request
/// the result code is FORMERR; with a question but a failed upstream lookup
/// it is SERVFAIL; otherwise the upstream result code and its three record
/// sections are carried over along with the question.
pub fn build_response(
    request_id: u16,
    question: Option<Question>,
    lookup_result: Option<Packet>,
) -> (r: Packet)
    ensures
        r@.header.id == request_id,
        r@.header.rd && r@.header.ra && r@.header.qr,
        !r@.header.aa && !r@.header.tc,
        r@.header.opcode == 0 && r@.header.z == 0,
        match question {
            None => {
                &&& r@.header.rcode == ResultCode::FORMERR
                &&& r@.questions.len() == 0
                &&& r@.answers.len() == 0
                &&& r@.authorities.len() == 0
                &&& r@.resources.len() == 0
            },
            Some(q) => match lookup_result {
                None => {
                    &&& r@.header.rcode == ResultCode::SERVFAIL
                    &&& r@.questions.len() == 0
                    &&& r@.answers.len() == 0
                    &&& r@.authorities.len() == 0
                    &&& r@.resources.len() == 0
                },
                Some(res) => {
                    &&& r@.header.rcode == res@.header.rcode
                    &&& r@.questions == seq![q@]
                    &&& r@.answers == res@.answers
                    &&& r@.authorities == res@.authorities
                    &&& r@.resources == res@.resources
                },
            },
        },
{
    let mut packet = Packet::new();
    packet.header.id = request_id;
    packet.header.rd = true;
    packet.header.ra = true;
    packet.header.qr = true;

    match question {
        Some(q) => {
            match lookup_result {
                Some(result) => {
                    packet.header.rcode = result.header.rcode;
                    packet.questions.push(q);
                    packet.answers = result.answers;
                    packet.authorities = result.authorities;
                    packet.resources = result.resources;
                    proof {
                        assert(packet@.questions =~= seq![question->Some_0@]);
                    }
                },
                None => {
                    packet.header.rcode = ResultCode::SERVFAIL;
                },
            }
        },
        None => {
            packet.header.rcode = ResultCode::FORMERR;
        },
    }
    packet
}

} // verus!
