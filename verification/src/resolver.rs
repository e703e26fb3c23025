use vstd::prelude::*;
use crate::buffer::{advanced, placed, u16_at, BytePacketBuffer, BUFFER_SIZE};
use crate::emission::{emission_result, laid};
use crate::error::CodecError;
use crate::header::{DnsHeader, ResultCode};
use crate::packet::{
    first_a_record, packet_at, packet_pieces, resolved_ns, unresolved_ns, DnsPacket, PacketView,
};
use crate::query_type::QueryType;
use crate::question::{DnsQuestion, QuestionView};
use crate::record::Ipv4Address;

verus! {

/// The identifier that every query of the resolver carries.
pub const QUERY_ID: u16 = 6666;

/// What the resolver does after a response has come in.
pub enum LookupStep {
    /// The response at hand is the result.
    Finished,
    /// The same question goes to the server at this address.
    Query { server: Ipv4Address },
    /// The address of the name server with this name has to be looked up
    /// first.
    Resolve { host: String },
}

/// A step of the resolver as a plain value.
pub enum LookupStepView {
    Finished,
    Query { server: Seq<u8> },
    Resolve { host: Seq<char> },
}

impl View for LookupStep {
    type V = LookupStepView;

    open spec fn view(&self) -> LookupStepView {
        match *self {
            LookupStep::Finished => LookupStepView::Finished,
            LookupStep::Query { server } => LookupStepView::Query { server: server.octets@ },
            LookupStep::Resolve { host } => LookupStepView::Resolve { host: host@ },
        }
    }
}

/// The header of a query: the resolver's identifier, one question, and the
/// wish for recursion.
pub open spec fn query_header() -> DnsHeader {
    DnsHeader { id: QUERY_ID, questions: 1, recursion_desired: true, ..DnsHeader::zero() }
}

/// The query for `qname` and `qtype` as a plain value.
pub open spec fn query_view(qname: Seq<char>, qtype: QueryType) -> PacketView {
    PacketView {
        header: query_header(),
        questions: seq![QuestionView { name: qname, question_type: qtype }],
        answers: Seq::empty(),
        authorities: Seq::empty(),
        resources: Seq::empty(),
    }
}

/// What follows a response to the question for `qname`. A response without
/// error that holds an answer is the result, and so is one that says that
/// the name does not exist. Otherwise the question goes on to a name server
/// that the response names and gives the address of; failing that, a name
/// server that it names without an address has its address looked up;
/// failing that too, the response is the result.
pub open spec fn step_after(response: PacketView, qname: Seq<char>) -> LookupStepView {
    if response.answers.len() > 0 && response.header.rescode == ResultCode::NOERROR {
        LookupStepView::Finished
    } else if response.header.rescode == ResultCode::NXDOMAIN {
        LookupStepView::Finished
    } else {
        match resolved_ns(response.authorities, response.resources, qname, 0) {
            Some(server) => LookupStepView::Query { server },
            None => match unresolved_ns(response.authorities, response.resources, qname, 0) {
                Some(host) => LookupStepView::Resolve { host },
                None => LookupStepView::Finished,
            },
        }
    }
}

/// What follows the lookup of a name server's address: the question goes to
/// the first address among the answers, and where there is none the response
/// to the question itself is the result.
pub open spec fn step_after_resolution(resolved: PacketView) -> LookupStepView {
    match first_a_record(resolved.answers, 0) {
        Some(server) => LookupStepView::Query { server },
        None => LookupStepView::Finished,
    }
}

/// The reply to a request as a plain value. Without a question the request
/// was malformed. With a question and without a result the lookup failed.
/// With both, the reply repeats the question and hands on the result's
/// response code and records.
pub open spec fn reply_view(id: u16, question: Option<QuestionView>, result: Option<PacketView>)
    -> PacketView {
    let header = DnsHeader {
        id,
        recursion_desired: true,
        recursion_available: true,
        response: true,
        ..DnsHeader::zero()
    };
    match (question, result) {
        (Some(q), Some(found)) => PacketView {
            header: DnsHeader { rescode: found.header.rescode, ..header },
            questions: seq![q],
            answers: found.answers,
            authorities: found.authorities,
            resources: found.resources,
        },
        (Some(_), None) => PacketView {
            header: DnsHeader { rescode: ResultCode::SERVFAIL, ..header },
            questions: Seq::empty(),
            answers: Seq::empty(),
            authorities: Seq::empty(),
            resources: Seq::empty(),
        },
        (None, _) => PacketView {
            header: DnsHeader { rescode: ResultCode::FORMERR, ..header },
            questions: Seq::empty(),
            answers: Seq::empty(),
            authorities: Seq::empty(),
            resources: Seq::empty(),
        },
    }
}

/// The address of the root name server that every lookup starts from:
/// 198.41.0.4.
pub fn root_server() -> (addr: Ipv4Address)
    ensures
        addr.octets@ == seq![198u8, 41u8, 0u8, 4u8],
{
    Ipv4Address::new(198, 41, 0, 4)
}

/// The query for `qname` and `qtype`.
pub fn build_query(qname: &str, qtype: QueryType) -> (packet: DnsPacket)
    ensures
        packet@ == query_view(qname@, qtype),
{
    let mut packet = DnsPacket::new();
    packet.header.id = QUERY_ID;
    packet.header.questions = 1;
    packet.header.recursion_desired = true;
    packet.questions.push(DnsQuestion::new(qname.to_owned(), qtype));
    proof {
        assert(packet@.questions =~= seq![QuestionView { name: qname@, question_type: qtype }]);
        assert(packet@.answers =~= Seq::empty());
        assert(packet@.authorities =~= Seq::empty());
        assert(packet@.resources =~= Seq::empty());
    }
    packet
}

/// The query for `qname` and `qtype` in its wire form, at the start of a
/// fresh buffer, with the cursor behind it.
pub fn encode_query(qname: &str, qtype: QueryType) -> (r: Result<BytePacketBuffer, CodecError>)
    ensures
        ({
            let out = laid(packet_pieces(query_view(qname@, qtype)), 0);
            match r {
                Ok(buffer) => {
                    &&& emission_result(0, out) is Ok
                    &&& buffer.buf@ == placed(Seq::new(512, |i: int| 0u8), 0, out.bytes)
                    &&& buffer.pos == out.bytes.len()
                    &&& buffer.wf()
                },
                Err(e) => emission_result(0, out) == Err::<(), CodecError>(e),
            }
        }),
{
    let mut packet = build_query(qname, qtype);
    let mut buffer = BytePacketBuffer::new();
    packet.write(&mut buffer)?;
    Ok(buffer)
}

/// Decides what follows a response to the question for `qname`.
pub fn next_step(response: &DnsPacket, qname: &str) -> (step: LookupStep)
    ensures
        step@ == step_after(response@, qname@),
        response@.header.rescode == ResultCode::NXDOMAIN ==> step is Finished,
{
    if !(response.answers.len() == 0) && response.header.rescode == ResultCode::NOERROR {
        return LookupStep::Finished;
    }
    if response.header.rescode == ResultCode::NXDOMAIN {
        return LookupStep::Finished;
    }
    if let Some(server) = response.get_resolved_ns(qname) {
        return LookupStep::Query { server };
    }
    match response.get_unresolved_ns(qname) {
        Some(host) => LookupStep::Resolve { host },
        None => LookupStep::Finished,
    }
}

/// Decides what follows the lookup of a name server's address, which gave
/// `resolved`.
pub fn next_step_after_resolution(resolved: &DnsPacket) -> (step: LookupStep)
    ensures
        step@ == step_after_resolution(resolved@),
{
    match resolved.get_random_a_record() {
        Some(server) => LookupStep::Query { server },
        None => LookupStep::Finished,
    }
}

/// The text that an optional question holds.
pub open spec fn question_view_of(question: Option<DnsQuestion>) -> Option<QuestionView> {
    match question {
        Some(q) => Some(q@),
        None => None,
    }
}

/// The message that an optional result holds.
pub open spec fn packet_view_of(result: Option<DnsPacket>) -> Option<PacketView> {
    match result {
        Some(p) => Some(p@),
        None => None,
    }
}

/// The reply to the request with identifier `id`. `question` is the question
/// taken from the request, if it held one; `result` is what the lookup for
/// that question gave, if it gave anything.
pub fn build_reply(id: u16, question: Option<DnsQuestion>, result: Option<DnsPacket>) -> (packet:
    DnsPacket)
    ensures
        packet@ == reply_view(id, question_view_of(question), packet_view_of(result)),
{
    let mut packet = DnsPacket::new();
    packet.header.id = id;
    packet.header.recursion_desired = true;
    packet.header.recursion_available = true;
    packet.header.response = true;
    proof {
        assert(packet@.questions =~= Seq::empty());
        assert(packet@.answers =~= Seq::empty());
        assert(packet@.authorities =~= Seq::empty());
        assert(packet@.resources =~= Seq::empty());
    }
    match question {
        Some(q) => {
            match result {
                Some(found) => {
                    let ghost qv = q@;
                    packet.questions.push(q);
                    packet.header.rescode = found.header.rescode;
                    packet.answers = found.answers;
                    packet.authorities = found.authorities;
                    packet.resources = found.resources;
                    proof {
                        assert(packet@.questions =~= seq![qv]);
                    }
                },
                None => {
                    packet.header.rescode = ResultCode::SERVFAIL;
                },
            }
        },
        None => {
            packet.header.rescode = ResultCode::FORMERR;
        },
    }
    packet
}

/// What a request gives the resolver to work on: the identifier to reply
/// under, and the question to resolve. A request that decodes gives its
/// identifier and the last of its questions, if it has any. A request that
/// does not decode gives no question, and for the identifier the first two
/// bytes, or zero where even those are missing.
pub open spec fn request_parts(bytes: Seq<u8>, at: int) -> (u16, Option<QuestionView>) {
    match packet_at(bytes, at).result {
        Ok(request) => (
            request.header.id,
            if request.questions.len() > 0 {
                Some(request.questions.last())
            } else {
                None
            },
        ),
        Err(_) => (
            if at + 2 <= BUFFER_SIZE {
                u16_at(bytes, at)
            } else {
                0
            },
            None,
        ),
    }
}

/// Reads a request from under the cursor and returns the identifier to reply
/// under and the question to resolve.
pub fn read_request(buffer: &mut BytePacketBuffer) -> (r: (u16, Option<DnsQuestion>))
    ensures
        final(buffer).buf == old(buffer).buf,
        (r.0, question_view_of(r.1)) == request_parts(old(buffer).buf@, old(buffer).pos as int),
        final(buffer).pos == match packet_at(old(buffer).buf@, old(buffer).pos as int).result {
            Ok(_) => packet_at(old(buffer).buf@, old(buffer).pos as int).cursor,
            Err(_) => advanced(old(buffer).pos as int, 2),
        },
{
    let start = buffer.pos();
    match DnsPacket::from_buffer(buffer) {
        Ok(mut request) => {
            let ghost questions = request@.questions;
            let question = request.questions.pop();
            proof {
                if questions.len() > 0 {
                    assert(question_view_of(question) == Some(questions.last()));
                }
            }
            (request.header.id, question)
        },
        Err(_) => {
            let _ = buffer.seek(start);
            match buffer.read_u16() {
                Ok(id) => (id, None),
                Err(_) => (0, None),
            }
        },
    }
}

} // verus!
