use vstd::prelude::*;
use crate::buffer::{advanced, placed, BytePacketBuffer, Parsed, BUFFER_SIZE};
use crate::emission::{
    emission_result, laid, lemma_laid_one, lemma_laid_section, lemma_laid_section_failed,
    lemma_laid_step, Emission, Piece,
};
use crate::error::CodecError;
use crate::header::{header_at, DnsHeader};
use crate::name::name_walk;
use crate::query_type::QueryType;
use crate::question::{question_at, question_emission, DnsQuestion, QuestionView};
use crate::record::{
    host_record_emission, record_at, record_emission, DnsRecord, Ipv4Address, RecordView,
};
use crate::text::{ends_with, is_suffix};

verus! {

/// A whole message: the header and the four sections.
#[derive(Clone, Debug, PartialEq, Eq)]
pub struct DnsPacket {
    pub header: DnsHeader,
    pub questions: Vec<DnsQuestion>,
    pub answers: Vec<DnsRecord>,
    pub authorities: Vec<DnsRecord>,
    pub resources: Vec<DnsRecord>,
}

/// A message as a plain value.
pub struct PacketView {
    pub header: DnsHeader,
    pub questions: Seq<QuestionView>,
    pub answers: Seq<RecordView>,
    pub authorities: Seq<RecordView>,
    pub resources: Seq<RecordView>,
}

/// The given questions as plain values.
pub open spec fn question_views(questions: Seq<DnsQuestion>) -> Seq<QuestionView> {
    questions.map_values(|q: DnsQuestion| q@)
}

/// The given records as plain values.
pub open spec fn record_views(records: Seq<DnsRecord>) -> Seq<RecordView> {
    records.map_values(|r: DnsRecord| r@)
}

impl View for DnsPacket {
    type V = PacketView;

    open spec fn view(&self) -> PacketView {
        PacketView {
            header: self.header,
            questions: question_views(self.questions@),
            answers: record_views(self.answers@),
            authorities: record_views(self.authorities@),
            resources: record_views(self.resources@),
        }
    }
}

/// The first `count` questions of those that stand one behind the other from
/// `at` on in `bytes`.
pub open spec fn questions_at(bytes: Seq<u8>, at: int, count: nat) -> Parsed<Seq<QuestionView>>
    decreases count,
{
    if count == 0 {
        Parsed { result: Ok(Seq::empty()), cursor: at }
    } else {
        let before = questions_at(bytes, at, (count - 1) as nat);
        match before.result {
            Err(_) => before,
            Ok(items) => {
                let next = question_at(bytes, before.cursor);
                match next.result {
                    Err(e) => Parsed { result: Err(e), cursor: next.cursor },
                    Ok(item) => Parsed { result: Ok(items.push(item)), cursor: next.cursor },
                }
            },
        }
    }
}

/// The first `count` records of those that stand one behind the other from
/// `at` on in `bytes`.
pub open spec fn records_at(bytes: Seq<u8>, at: int, count: nat) -> Parsed<Seq<RecordView>>
    decreases count,
{
    if count == 0 {
        Parsed { result: Ok(Seq::empty()), cursor: at }
    } else {
        let before = records_at(bytes, at, (count - 1) as nat);
        match before.result {
            Err(_) => before,
            Ok(items) => {
                let next = record_at(bytes, before.cursor);
                match next.result {
                    Err(e) => Parsed { result: Err(e), cursor: next.cursor },
                    Ok(item) => Parsed { result: Ok(items.push(item)), cursor: next.cursor },
                }
            },
        }
    }
}

/// Once a question has failed to decode, asking for more questions gives the
/// same failure.
pub proof fn lemma_questions_at_failed(bytes: Seq<u8>, at: int, k: nat, n: nat)
    requires
        k <= n,
        questions_at(bytes, at, k).result is Err,
    ensures
        questions_at(bytes, at, n) == questions_at(bytes, at, k),
    decreases n,
{
    if k < n {
        lemma_questions_at_failed(bytes, at, k, (n - 1) as nat);
    }
}

/// Once a record has failed to decode, asking for more records gives the same
/// failure.
pub proof fn lemma_records_at_failed(bytes: Seq<u8>, at: int, k: nat, n: nat)
    requires
        k <= n,
        records_at(bytes, at, k).result is Err,
    ensures
        records_at(bytes, at, n) == records_at(bytes, at, k),
    decreases n,
{
    if k < n {
        lemma_records_at_failed(bytes, at, k, (n - 1) as nat);
    }
}

/// The message whose wire form starts at `at` in `bytes`: the header, then
/// as many questions, answers, authority records and additional records as
/// the header counts, in that order.
#[verifier::opaque]
pub open spec fn packet_at(bytes: Seq<u8>, at: int) -> Parsed<PacketView> {
    if at + 12 > BUFFER_SIZE {
        Parsed { result: Err(CodecError::BufferBounds), cursor: advanced(at, 12) }
    } else {
        let header = header_at(bytes, at);
        let qs = questions_at(bytes, at + 12, header.questions as nat);
        match qs.result {
            Err(e) => Parsed { result: Err(e), cursor: qs.cursor },
            Ok(questions) => {
                let an = records_at(bytes, qs.cursor, header.answers as nat);
                match an.result {
                    Err(e) => Parsed { result: Err(e), cursor: an.cursor },
                    Ok(answers) => {
                        let au = records_at(bytes, an.cursor, header.authoritative_entries as nat);
                        match au.result {
                            Err(e) => Parsed { result: Err(e), cursor: au.cursor },
                            Ok(authorities) => {
                                let re = records_at(
                                    bytes,
                                    au.cursor,
                                    header.resource_entries as nat,
                                );
                                match re.result {
                                    Err(e) => Parsed { result: Err(e), cursor: re.cursor },
                                    Ok(resources) => Parsed {
                                        result: Ok(
                                            PacketView {
                                                header,
                                                questions,
                                                answers,
                                                authorities,
                                                resources,
                                            },
                                        ),
                                        cursor: re.cursor,
                                    },
                                }
                            },
                        }
                    },
                }
            },
        }
    }
}

/// A question as an item of a message.
pub open spec fn question_piece(q: QuestionView) -> Piece {
    Piece::plain(question_emission(q))
}

/// A record as an item of a message.
pub open spec fn record_piece(r: RecordView) -> Piece {
    Piece { draft: record_emission(r, false), patched: record_emission(r, true).bytes }
}

/// The given questions as items of a message.
pub open spec fn question_pieces(questions: Seq<QuestionView>) -> Seq<Piece> {
    questions.map_values(|q: QuestionView| question_piece(q))
}

/// The given records as items of a message.
pub open spec fn record_pieces(records: Seq<RecordView>) -> Seq<Piece> {
    records.map_values(|r: RecordView| record_piece(r))
}

/// The items of a message in the order in which they are written: the
/// header, the questions, the answers, the authority records, the additional
/// records.
pub open spec fn packet_pieces(p: PacketView) -> Seq<Piece> {
    seq![Piece::plain(Emission::of(p.header.wire()))] + question_pieces(p.questions)
        + record_pieces(p.answers) + record_pieces(p.authorities) + record_pieces(p.resources)
}

/// The number of entries of a section as the header holds it: the low 16
/// bits of the length.
pub open spec fn section_count(len: nat) -> u16 {
    (len % 0x1_0000) as u16
}

/// Writing a record changes no length when its data length is set.
pub proof fn lemma_record_piece_wf(r: RecordView)
    ensures
        record_piece(r).wf(),
{
    reveal(record_emission);
    reveal(host_record_emission);
}

/// The address of the first A record at or after index `from`.
pub open spec fn first_a_record(records: Seq<RecordView>, from: int) -> Option<Seq<u8>>
    decreases records.len() - from,
{
    if from < 0 || from >= records.len() {
        None
    } else {
        match records[from] {
            RecordView::A { addr, .. } => Some(addr),
            _ => first_a_record(records, from + 1),
        }
    }
}

/// The address of the first A record for `host` at or after index `from`.
pub open spec fn glue_for(records: Seq<RecordView>, host: Seq<char>, from: int) -> Option<
    Seq<u8>,
>
    decreases records.len() - from,
{
    if from < 0 || from >= records.len() {
        None
    } else {
        match records[from] {
            RecordView::A { domain, addr, .. } if domain == host => Some(addr),
            _ => glue_for(records, host, from + 1),
        }
    }
}

/// The host that `record` names as a name server for a zone that `qname`
/// lies in: `record` is an NS record whose domain ends `qname`.
pub open spec fn server_for(record: RecordView, qname: Seq<char>) -> Option<Seq<char>> {
    match record {
        RecordView::NS { domain, host, .. } if is_suffix(domain, qname) => Some(host),
        _ => None,
    }
}

/// The address of a name server for `qname`: of the authority records at or
/// after index `from`, the first that names a server for `qname` whose
/// address stands among the additional records gives that address.
pub open spec fn resolved_ns(
    authorities: Seq<RecordView>,
    resources: Seq<RecordView>,
    qname: Seq<char>,
    from: int,
) -> Option<Seq<u8>>
    decreases authorities.len() - from,
{
    if from < 0 || from >= authorities.len() {
        None
    } else {
        match server_for(authorities[from], qname) {
            Some(host) if glue_for(resources, host, 0) is Some => glue_for(resources, host, 0),
            _ => resolved_ns(authorities, resources, qname, from + 1),
        }
    }
}

/// The name of a name server for `qname` whose address is not at hand: of
/// the authority records at or after index `from`, the first that names a
/// server for `qname` whose address does not stand among the additional
/// records gives that server's name.
pub open spec fn unresolved_ns(
    authorities: Seq<RecordView>,
    resources: Seq<RecordView>,
    qname: Seq<char>,
    from: int,
) -> Option<Seq<char>>
    decreases authorities.len() - from,
{
    if from < 0 || from >= authorities.len() {
        None
    } else {
        match server_for(authorities[from], qname) {
            Some(host) if glue_for(resources, host, 0) is None => Some(host),
            _ => unresolved_ns(authorities, resources, qname, from + 1),
        }
    }
}

/// The address that an optional result holds, as its octets.
pub open spec fn octets_of(addr: Option<Ipv4Address>) -> Option<Seq<u8>> {
    match addr {
        Some(a) => Some(a.octets@),
        None => None,
    }
}

/// The text that an optional result holds.
pub open spec fn text_of(name: Option<String>) -> Option<Seq<char>> {
    match name {
        Some(n) => Some(n@),
        None => None,
    }
}

/// Looks for the address of `host` among the additional records.
fn find_glue(resources: &Vec<DnsRecord>, host: &String) -> (r: Option<Ipv4Address>)
    ensures
        octets_of(r) == glue_for(record_views(resources@), host@, 0),
{
    let mut i: usize = 0;
    while i < resources.len()
        invariant
            i <= resources.len(),
            glue_for(record_views(resources@), host@, 0) == glue_for(
                record_views(resources@),
                host@,
                i as int,
            ),
        decreases resources.len() - i,
    {
        assert(record_views(resources@)[i as int] == resources@[i as int]@);
        match &resources[i] {
            DnsRecord::A { domain, addr, .. } => {
                if *domain == *host {
                    return Some(*addr);
                }
            },
            _ => {},
        }
        i += 1;
    }
    None
}

/// The number of entries of a section as the header holds it.
fn count_of(len: usize) -> (count: u16)
    ensures
        count == section_count(len as nat),
{
    let count = #[verifier::truncate] ((len & 0xFFFF) as u16);
    assert(count == len % 0x1_0000) by (bit_vector)
        requires
            count == (len & 0xFFFF) as u16,
    ;
    count
}

/// Reads `count` questions one behind the other.
fn read_questions(buffer: &mut BytePacketBuffer, count: u16) -> (r: Result<
    Vec<DnsQuestion>,
    CodecError,
>)
    ensures
        final(buffer).buf == old(buffer).buf,
        ({
            let parsed = questions_at(old(buffer).buf@, old(buffer).pos as int, count as nat);
            &&& final(buffer).pos == parsed.cursor
            &&& match r {
                Ok(questions) => parsed.result == Ok::<Seq<QuestionView>, CodecError>(
                    question_views(questions@),
                ),
                Err(e) => parsed.result == Err::<Seq<QuestionView>, CodecError>(e),
            }
        }),
{
    let ghost bytes = buffer.buf@;
    let ghost at = buffer.pos as int;
    let mut questions: Vec<DnsQuestion> = Vec::new();
    let mut i: u16 = 0;
    assert(question_views(questions@) =~= Seq::<QuestionView>::empty());
    while i < count
        invariant
            i <= count,
            bytes == old(buffer).buf@,
            at == old(buffer).pos,
            buffer.buf == old(buffer).buf,
            questions_at(bytes, at, i as nat).result == Ok::<Seq<QuestionView>, CodecError>(
                question_views(questions@),
            ),
            questions_at(bytes, at, i as nat).cursor == buffer.pos,
        decreases count - i,
    {
        let ghost before = question_views(questions@);
        let ghost start = buffer.pos as int;
        let mut question = DnsQuestion::new(String::new(), QueryType::UNKNOWN(0));
        proof {
            let next = question_at(bytes, start);
            if next.result is Err {
                lemma_questions_at_failed(bytes, at, (i + 1) as nat, count as nat);
            }
            let walk = name_walk(bytes, start, 0, true);
            assert(question.name@ + walk.text =~= walk.text);
        }
        question.read(buffer)?;
        questions.push(question);
        proof {
            assert(question_views(questions@) =~= before.push(question@));
        }
        i += 1;
    }
    Ok(questions)
}

/// Reads `count` records one behind the other.
fn read_records(buffer: &mut BytePacketBuffer, count: u16) -> (r: Result<
    Vec<DnsRecord>,
    CodecError,
>)
    ensures
        final(buffer).buf == old(buffer).buf,
        ({
            let parsed = records_at(old(buffer).buf@, old(buffer).pos as int, count as nat);
            &&& final(buffer).pos == parsed.cursor
            &&& match r {
                Ok(records) => parsed.result == Ok::<Seq<RecordView>, CodecError>(
                    record_views(records@),
                ),
                Err(e) => parsed.result == Err::<Seq<RecordView>, CodecError>(e),
            }
        }),
{
    let ghost bytes = buffer.buf@;
    let ghost at = buffer.pos as int;
    let mut records: Vec<DnsRecord> = Vec::new();
    let mut i: u16 = 0;
    assert(record_views(records@) =~= Seq::<RecordView>::empty());
    while i < count
        invariant
            i <= count,
            bytes == old(buffer).buf@,
            at == old(buffer).pos,
            buffer.buf == old(buffer).buf,
            records_at(bytes, at, i as nat).result == Ok::<Seq<RecordView>, CodecError>(
                record_views(records@),
            ),
            records_at(bytes, at, i as nat).cursor == buffer.pos,
        decreases count - i,
    {
        let ghost before = record_views(records@);
        proof {
            let next = record_at(bytes, buffer.pos as int);
            if next.result is Err {
                lemma_records_at_failed(bytes, at, (i + 1) as nat, count as nat);
            }
        }
        let record = DnsRecord::read(buffer)?;
        records.push(record);
        proof {
            assert(record_views(records@) =~= before.push(record@));
        }
        i += 1;
    }
    Ok(records)
}

/// Writes the questions one behind the other, up to the first that fails.
fn write_questions(buffer: &mut BytePacketBuffer, questions: &Vec<DnsQuestion>) -> (r: Result<
    (),
    CodecError,
>)
    ensures
        ({
            let out = laid(question_pieces(question_views(questions@)), old(buffer).pos as int);
            &&& final(buffer).buf@ == placed(old(buffer).buf@, old(buffer).pos as int, out.bytes)
            &&& final(buffer).pos == advanced(old(buffer).pos as int, out.bytes.len() as int)
            &&& r == emission_result(old(buffer).pos as int, out)
        }),
{
    let ghost bytes0 = buffer.buf@;
    let ghost pos0 = buffer.pos as int;
    let ghost pieces = question_pieces(question_views(questions@));
    let mut i: usize = 0;
    proof {
        assert(pieces.take(0) =~= Seq::<Piece>::empty());
        assert(buffer.buf@ =~= placed(bytes0, pos0, laid(pieces.take(0), pos0).bytes));
    }
    while i < questions.len()
        invariant
            i <= questions.len(),
            bytes0 == old(buffer).buf@,
            pos0 == old(buffer).pos,
            pieces == question_pieces(question_views(questions@)),
            emission_result(pos0, laid(pieces.take(i as int), pos0)) is Ok,
            buffer.buf@ == placed(bytes0, pos0, laid(pieces.take(i as int), pos0).bytes),
            buffer.pos == advanced(pos0, laid(pieces.take(i as int), pos0).bytes.len() as int),
        decreases questions.len() - i,
    {
        proof {
            assert(pieces[i as int] == question_piece(questions@[i as int]@));
            lemma_laid_step(bytes0, pos0, pieces, i as int);
        }
        questions[i].write(buffer)?;
        i += 1;
    }
    proof {
        assert(pieces.take(i as int) =~= pieces);
    }
    Ok(())
}

/// Writes the records one behind the other, up to the first that fails.
fn write_records(buffer: &mut BytePacketBuffer, records: &Vec<DnsRecord>) -> (r: Result<
    (),
    CodecError,
>)
    ensures
        ({
            let out = laid(record_pieces(record_views(records@)), old(buffer).pos as int);
            &&& final(buffer).buf@ == placed(old(buffer).buf@, old(buffer).pos as int, out.bytes)
            &&& final(buffer).pos == advanced(old(buffer).pos as int, out.bytes.len() as int)
            &&& r == emission_result(old(buffer).pos as int, out)
        }),
{
    let ghost bytes0 = buffer.buf@;
    let ghost pos0 = buffer.pos as int;
    let ghost pieces = record_pieces(record_views(records@));
    let mut i: usize = 0;
    proof {
        assert(pieces.take(0) =~= Seq::<Piece>::empty());
        assert(buffer.buf@ =~= placed(bytes0, pos0, laid(pieces.take(0), pos0).bytes));
    }
    while i < records.len()
        invariant
            i <= records.len(),
            bytes0 == old(buffer).buf@,
            pos0 == old(buffer).pos,
            pieces == record_pieces(record_views(records@)),
            emission_result(pos0, laid(pieces.take(i as int), pos0)) is Ok,
            buffer.buf@ == placed(bytes0, pos0, laid(pieces.take(i as int), pos0).bytes),
            buffer.pos == advanced(pos0, laid(pieces.take(i as int), pos0).bytes.len() as int),
        decreases records.len() - i,
    {
        proof {
            assert(pieces[i as int] == record_piece(records@[i as int]@));
            lemma_record_piece_wf(records@[i as int]@);
            lemma_laid_step(bytes0, pos0, pieces, i as int);
        }
        let _ = records[i].write(buffer)?;
        i += 1;
    }
    proof {
        assert(pieces.take(i as int) =~= pieces);
    }
    Ok(())
}

impl DnsPacket {
    /// A message with a zero header and empty sections.
    pub fn new() -> (p: DnsPacket)
        ensures
            p.header == DnsHeader::zero(),
            p.questions@.len() == 0,
            p.answers@.len() == 0,
            p.authorities@.len() == 0,
            p.resources@.len() == 0,
    {
        DnsPacket {
            header: DnsHeader::new(),
            questions: Vec::new(),
            answers: Vec::new(),
            authorities: Vec::new(),
            resources: Vec::new(),
        }
    }

    /// Reads a message from under the cursor.
    pub fn from_buffer(buffer: &mut BytePacketBuffer) -> (r: Result<DnsPacket, CodecError>)
        ensures
            final(buffer).buf == old(buffer).buf,
            ({
                let parsed = packet_at(old(buffer).buf@, old(buffer).pos as int);
                &&& final(buffer).pos == parsed.cursor
                &&& match r {
                    Ok(packet) => parsed.result == Ok::<PacketView, CodecError>(packet@),
                    Err(e) => parsed.result == Err::<PacketView, CodecError>(e),
                }
            }),
    {
        proof {
            reveal(packet_at);
        }
        let mut result = DnsPacket::new();
        result.header.read(buffer)?;
        result.questions = read_questions(buffer, result.header.questions)?;
        result.answers = read_records(buffer, result.header.answers)?;
        result.authorities = read_records(buffer, result.header.authoritative_entries)?;
        result.resources = read_records(buffer, result.header.resource_entries)?;
        Ok(result)
    }

    /// Sets the four counts of the header to the lengths of the sections and
    /// writes the message from the cursor on: the header, the questions, the
    /// answers, the authority records, the additional records. The first item
    /// that fails ends the call.
    pub fn write(&mut self, buffer: &mut BytePacketBuffer) -> (r: Result<(), CodecError>)
        ensures
            final(self).header == (DnsHeader {
                questions: section_count(old(self).questions@.len()),
                answers: section_count(old(self).answers@.len()),
                authoritative_entries: section_count(old(self).authorities@.len()),
                resource_entries: section_count(old(self).resources@.len()),
                ..old(self).header
            }),
            final(self).questions == old(self).questions,
            final(self).answers == old(self).answers,
            final(self).authorities == old(self).authorities,
            final(self).resources == old(self).resources,
            ({
                let out = laid(packet_pieces(final(self)@), old(buffer).pos as int);
                &&& final(buffer).buf@ == placed(
                    old(buffer).buf@,
                    old(buffer).pos as int,
                    out.bytes,
                )
                &&& final(buffer).pos == advanced(old(buffer).pos as int, out.bytes.len() as int)
                &&& r == emission_result(old(buffer).pos as int, out)
            }),
    {
        self.header.questions = count_of(self.questions.len());
        self.header.answers = count_of(self.answers.len());
        self.header.authoritative_entries = count_of(self.authorities.len());
        self.header.resource_entries = count_of(self.resources.len());

        let ghost bytes0 = buffer.buf@;
        let ghost pos0 = buffer.pos as int;
        let ghost s0 = seq![Piece::plain(Emission::of(self.header.wire()))];
        let ghost s1 = question_pieces(self@.questions);
        let ghost s2 = record_pieces(self@.answers);
        let ghost s3 = record_pieces(self@.authorities);
        let ghost s4 = record_pieces(self@.resources);
        let ghost all = packet_pieces(self@);
        proof {
            lemma_laid_one(s0[0], pos0);
            assert(all =~= s0 + (s1 + s2 + s3 + s4));
            if emission_result(pos0, laid(s0, pos0)) is Err {
                lemma_laid_section_failed(pos0, s0, s1 + s2 + s3 + s4);
            }
        }
        self.header.write(buffer)?;
        proof {
            lemma_laid_section(bytes0, pos0, s0, s1);
            assert(all =~= (s0 + s1) + (s2 + s3 + s4));
            if emission_result(pos0, laid(s0 + s1, pos0)) is Err {
                lemma_laid_section_failed(pos0, s0 + s1, s2 + s3 + s4);
            }
        }
        write_questions(buffer, &self.questions)?;
        proof {
            lemma_laid_section(bytes0, pos0, s0 + s1, s2);
            assert(all =~= (s0 + s1 + s2) + (s3 + s4));
            if emission_result(pos0, laid(s0 + s1 + s2, pos0)) is Err {
                lemma_laid_section_failed(pos0, s0 + s1 + s2, s3 + s4);
            }
        }
        write_records(buffer, &self.answers)?;
        proof {
            lemma_laid_section(bytes0, pos0, s0 + s1 + s2, s3);
            assert(all =~= (s0 + s1 + s2 + s3) + s4);
            if emission_result(pos0, laid(s0 + s1 + s2 + s3, pos0)) is Err {
                lemma_laid_section_failed(pos0, s0 + s1 + s2 + s3, s4);
            }
        }
        write_records(buffer, &self.authorities)?;
        proof {
            lemma_laid_section(bytes0, pos0, s0 + s1 + s2 + s3, s4);
        }
        write_records(buffer, &self.resources)?;
        Ok(())
    }

    /// The address of the first A record among the answers, if there is one.
    pub fn get_random_a_record(&self) -> (r: Option<Ipv4Address>)
        ensures
            octets_of(r) == first_a_record(self@.answers, 0),
    {
        let mut i: usize = 0;
        while i < self.answers.len()
            invariant
                i <= self.answers.len(),
                first_a_record(self@.answers, 0) == first_a_record(self@.answers, i as int),
            decreases self.answers.len() - i,
        {
            assert(self@.answers[i as int] == self.answers@[i as int]@);
            match &self.answers[i] {
                DnsRecord::A { addr, .. } => {
                    return Some(*addr);
                },
                _ => {},
            }
            i += 1;
        }
        None
    }

    /// The address of a name server for `qname`, where the message names one
    /// among its authority records and gives its address among the additional
    /// records.
    pub fn get_resolved_ns(&self, qname: &str) -> (r: Option<Ipv4Address>)
        ensures
            octets_of(r) == resolved_ns(self@.authorities, self@.resources, qname@, 0),
    {
        let mut i: usize = 0;
        while i < self.authorities.len()
            invariant
                i <= self.authorities.len(),
                resolved_ns(self@.authorities, self@.resources, qname@, 0) == resolved_ns(
                    self@.authorities,
                    self@.resources,
                    qname@,
                    i as int,
                ),
            decreases self.authorities.len() - i,
        {
            assert(self@.authorities[i as int] == self.authorities@[i as int]@);
            match &self.authorities[i] {
                DnsRecord::NS { domain, host, .. } => {
                    if ends_with(qname, domain.as_str()) {
                        let glue = find_glue(&self.resources, host);
                        if glue.is_some() {
                            return glue;
                        }
                    }
                },
                _ => {},
            }
            i += 1;
        }
        None
    }

    /// The name of a name server for `qname`, where the message names one
    /// among its authority records without giving its address among the
    /// additional records.
    pub fn get_unresolved_ns(&self, qname: &str) -> (r: Option<String>)
        ensures
            text_of(r) == unresolved_ns(self@.authorities, self@.resources, qname@, 0),
    {
        let mut i: usize = 0;
        while i < self.authorities.len()
            invariant
                i <= self.authorities.len(),
                unresolved_ns(self@.authorities, self@.resources, qname@, 0) == unresolved_ns(
                    self@.authorities,
                    self@.resources,
                    qname@,
                    i as int,
                ),
            decreases self.authorities.len() - i,
        {
            assert(self@.authorities[i as int] == self.authorities@[i as int]@);
            match &self.authorities[i] {
                DnsRecord::NS { domain, host, .. } => {
                    if ends_with(qname, domain.as_str()) {
                        let glue = find_glue(&self.resources, host);
                        if glue.is_none() {
                            return Some(host.clone());
                        }
                    }
                },
                _ => {},
            }
            i += 1;
        }
        None
    }
}

} // verus!
