use vstd::prelude::*;
use crate::buffer::{placed, Parsed, BUFFER_SIZE};
use crate::emission::{emission_result, laid, lemma_laid_concat, lemma_laid_one, Emission, Piece};
use crate::error::CodecError;
use crate::header::{header_at, DnsHeader};
use crate::packet::{
    packet_at, packet_pieces, question_piece, question_pieces, questions_at, record_piece,
    record_pieces, records_at, PacketView,
};
use crate::question::{question_at, QuestionView};
use crate::record::{record_at, RecordView};
use crate::name_laws::{is_lower_ascii, lemma_walk_at_end};
use crate::roundtrip::{
    folded_question, folded_record, lemma_folded_question_fixed, lemma_folded_record_fixed,
    lemma_question_at_encoding, lemma_record_at_encoding, lemma_subregion, lower_record,
    plain_question, plain_record,
};

verus! {

/// The message with its names in lowercase.
pub open spec fn folded_packet(p: PacketView) -> PacketView {
    PacketView {
        header: p.header,
        questions: p.questions.map_values(|q: QuestionView| folded_question(q)),
        answers: p.answers.map_values(|r: RecordView| folded_record(r)),
        authorities: p.authorities.map_values(|r: RecordView| folded_record(r)),
        resources: p.resources.map_values(|r: RecordView| folded_record(r)),
    }
}

/// A message that the codec writes in full and reads back: the header's
/// opcode fits its four bits, the header counts what the sections hold, and
/// every question and record is plain.
pub open spec fn plain_packet(p: PacketView) -> bool {
    &&& p.header.wf()
    &&& p.header.questions == p.questions.len()
    &&& p.header.answers == p.answers.len()
    &&& p.header.authoritative_entries == p.authorities.len()
    &&& p.header.resource_entries == p.resources.len()
    &&& forall|i: int| 0 <= i < p.questions.len() ==> plain_question(#[trigger] p.questions[i])
    &&& forall|i: int| 0 <= i < p.answers.len() ==> plain_record(#[trigger] p.answers[i])
    &&& forall|i: int| 0 <= i < p.authorities.len() ==> plain_record(#[trigger] p.authorities[i])
    &&& forall|i: int| 0 <= i < p.resources.len() ==> plain_record(#[trigger] p.resources[i])
}

/// Where the last of several items was written without failure, so were the
/// items in front of it, and its final form stands behind theirs.
pub proof fn lemma_laid_last(pieces: Seq<Piece>, at: int)
    requires
        pieces.len() > 0,
        emission_result(at, laid(pieces, at)) is Ok,
    ensures
        ({
            let before = laid(pieces.drop_last(), at);
            &&& emission_result(at, before) is Ok
            &&& emission_result(at + before.bytes.len(), pieces.last().draft) is Ok
            &&& laid(pieces, at).bytes == before.bytes + pieces.last().patched
        }),
{
}

/// The header that stands at `at` is read back from there.
pub proof fn lemma_header_at_region(h: DnsHeader, out: Seq<u8>, at: int)
    requires
        h.wf(),
        out.len() == BUFFER_SIZE,
        0 <= at,
        at + 12 <= BUFFER_SIZE,
        out.subrange(at, at + 12) == h.wire(),
    ensures
        header_at(out, at) == h,
{
    let region = out.subrange(at, at + 12);
    assert forall|i: int| 0 <= i < out.len() implies placed(out, at, h.wire())[i] == out[i] by {
        if at <= i < at + 12 {
            assert(out[i] == region[i - at]);
        }
    }
    assert(placed(out, at, h.wire()) =~= out);
    h.lemma_read_written(out, at);
}

/// Questions that have been written one behind the other are read back in
/// order, with their names in lowercase.
pub proof fn lemma_questions_at_laid(qs: Seq<QuestionView>, out: Seq<u8>, at: int)
    requires
        forall|i: int| 0 <= i < qs.len() ==> plain_question(#[trigger] qs[i]),
        out.len() == BUFFER_SIZE,
        0 <= at <= BUFFER_SIZE,
        emission_result(at, laid(question_pieces(qs), at)) is Ok,
        out.subrange(at, at + laid(question_pieces(qs), at).bytes.len()) == laid(
            question_pieces(qs),
            at,
        ).bytes,
    ensures
        questions_at(out, at, qs.len()) == (Parsed {
            result: Ok::<Seq<QuestionView>, CodecError>(
                qs.map_values(|q: QuestionView| folded_question(q)),
            ),
            cursor: at + laid(question_pieces(qs), at).bytes.len(),
        }),
    decreases qs.len(),
{
    let pieces = question_pieces(qs);
    let all = laid(pieces, at);
    let folded = qs.map_values(|q: QuestionView| folded_question(q));
    if qs.len() == 0 {
        assert(folded =~= Seq::<QuestionView>::empty());
    } else {
        let head = qs.drop_last();
        let last = qs.last();
        assert(pieces.drop_last() =~= question_pieces(head));
        assert(pieces.last() == question_piece(last));
        lemma_laid_last(pieces, at);
        let before = laid(question_pieces(head), at);
        let n = before.bytes.len() as int;
        let piece = question_piece(last).patched;
        assert(all.bytes == before.bytes + piece);
        lemma_subregion(out, at, all.bytes, 0, n);
        assert(all.bytes.subrange(0, n) =~= before.bytes);
        lemma_questions_at_laid(head, out, at);
        lemma_subregion(out, at, all.bytes, n, piece.len() as int);
        assert(all.bytes.subrange(n, n + piece.len()) =~= piece);
        lemma_question_at_encoding(last, out, at + n);
        assert(head.map_values(|q: QuestionView| folded_question(q)).push(folded_question(last))
            =~= folded);
    }
}

/// Records that have been written one behind the other are read back in
/// order, with their names in lowercase.
pub proof fn lemma_records_at_laid(rs: Seq<RecordView>, out: Seq<u8>, at: int)
    requires
        forall|i: int| 0 <= i < rs.len() ==> plain_record(#[trigger] rs[i]),
        out.len() == BUFFER_SIZE,
        0 <= at <= BUFFER_SIZE,
        emission_result(at, laid(record_pieces(rs), at)) is Ok,
        out.subrange(at, at + laid(record_pieces(rs), at).bytes.len()) == laid(
            record_pieces(rs),
            at,
        ).bytes,
    ensures
        records_at(out, at, rs.len()) == (Parsed {
            result: Ok::<Seq<RecordView>, CodecError>(
                rs.map_values(|r: RecordView| folded_record(r)),
            ),
            cursor: at + laid(record_pieces(rs), at).bytes.len(),
        }),
    decreases rs.len(),
{
    let pieces = record_pieces(rs);
    let all = laid(pieces, at);
    let folded = rs.map_values(|r: RecordView| folded_record(r));
    if rs.len() == 0 {
        assert(folded =~= Seq::<RecordView>::empty());
    } else {
        let head = rs.drop_last();
        let last = rs.last();
        assert(pieces.drop_last() =~= record_pieces(head));
        assert(pieces.last() == record_piece(last));
        lemma_laid_last(pieces, at);
        let before = laid(record_pieces(head), at);
        let n = before.bytes.len() as int;
        let piece = record_piece(last).patched;
        assert(all.bytes == before.bytes + piece);
        lemma_subregion(out, at, all.bytes, 0, n);
        assert(all.bytes.subrange(0, n) =~= before.bytes);
        lemma_records_at_laid(head, out, at);
        lemma_subregion(out, at, all.bytes, n, piece.len() as int);
        assert(all.bytes.subrange(n, n + piece.len()) =~= piece);
        lemma_record_at_encoding(last, out, at + n);
        assert(head.map_values(|r: RecordView| folded_record(r)).push(folded_record(last))
            =~= folded);
    }
}

/// What stands behind a section that was written without failure, where the
/// whole was written without failure: the next section, written without
/// failure too.
pub proof fn lemma_laid_split(first: Seq<Piece>, second: Seq<Piece>, at: int)
    requires
        emission_result(at, laid(first + second, at)) is Ok,
    ensures
        ({
            let a = laid(first, at);
            let b = laid(second, at + a.bytes.len());
            &&& emission_result(at, a) is Ok
            &&& emission_result(at + a.bytes.len(), b) is Ok
            &&& laid(first + second, at).bytes == a.bytes + b.bytes
        }),
{
    lemma_laid_concat(first, second, at);
}

/// Where the sections of a message start when it is written from `at` on.
pub struct Layout {
    pub questions: int,
    pub answers: int,
    pub authorities: int,
    pub resources: int,
    pub end: int,
}

/// Where the sections of `p` start when it is written from `at` on.
pub open spec fn layout(p: PacketView, at: int) -> Layout {
    let questions = at + 12;
    let answers = questions + laid(question_pieces(p.questions), questions).bytes.len();
    let authorities = answers + laid(record_pieces(p.answers), answers).bytes.len();
    let resources = authorities + laid(record_pieces(p.authorities), authorities).bytes.len();
    let end = resources + laid(record_pieces(p.resources), resources).bytes.len();
    Layout { questions, answers, authorities, resources, end }
}

/// A message that was written without failure is its header and its four
/// sections, each written without failure where the one before it ends.
pub proof fn lemma_packet_layout(p: PacketView, at: int)
    requires
        emission_result(at, laid(packet_pieces(p), at)) is Ok,
    ensures
        ({
            let l = layout(p, at);
            let q = laid(question_pieces(p.questions), l.questions);
            let a = laid(record_pieces(p.answers), l.answers);
            let u = laid(record_pieces(p.authorities), l.authorities);
            let r = laid(record_pieces(p.resources), l.resources);
            &&& at + 12 <= BUFFER_SIZE
            &&& l.end <= BUFFER_SIZE
            &&& emission_result(l.questions, q) is Ok
            &&& emission_result(l.answers, a) is Ok
            &&& emission_result(l.authorities, u) is Ok
            &&& emission_result(l.resources, r) is Ok
            &&& laid(packet_pieces(p), at).bytes == p.header.wire() + q.bytes + a.bytes + u.bytes
                + r.bytes
        }),
{
    let s0 = seq![Piece::plain(Emission::of(p.header.wire()))];
    let s1 = question_pieces(p.questions);
    let s2 = record_pieces(p.answers);
    let s3 = record_pieces(p.authorities);
    let s4 = record_pieces(p.resources);
    assert(packet_pieces(p) =~= (((s0 + s1) + s2) + s3) + s4);
    lemma_laid_split(((s0 + s1) + s2) + s3, s4, at);
    lemma_laid_split((s0 + s1) + s2, s3, at);
    lemma_laid_split(s0 + s1, s2, at);
    lemma_laid_split(s0, s1, at);
    lemma_laid_one(s0[0], at);
    assert(p.header.wire().len() == 12);
}

/// Where the header and the four sections of a plain message stand one
/// behind the other in a buffer, the message is read back with its names in
/// lowercase.
pub proof fn lemma_packet_at_sections(p: PacketView, out: Seq<u8>, at: int)
    requires
        plain_packet(p),
        out.len() == BUFFER_SIZE,
        0 <= at,
        at + 12 <= BUFFER_SIZE,
        out.subrange(at, at + 12) == p.header.wire(),
        ({
            let l = layout(p, at);
            let q = laid(question_pieces(p.questions), l.questions);
            let a = laid(record_pieces(p.answers), l.answers);
            let u = laid(record_pieces(p.authorities), l.authorities);
            let r = laid(record_pieces(p.resources), l.resources);
            &&& l.end <= BUFFER_SIZE
            &&& emission_result(l.questions, q) is Ok
            &&& emission_result(l.answers, a) is Ok
            &&& emission_result(l.authorities, u) is Ok
            &&& emission_result(l.resources, r) is Ok
            &&& out.subrange(l.questions, l.answers) == q.bytes
            &&& out.subrange(l.answers, l.authorities) == a.bytes
            &&& out.subrange(l.authorities, l.resources) == u.bytes
            &&& out.subrange(l.resources, l.end) == r.bytes
        }),
    ensures
        packet_at(out, at) == (Parsed {
            result: Ok::<PacketView, CodecError>(folded_packet(p)),
            cursor: layout(p, at).end,
        }),
{
    reveal(packet_at);
    let l = layout(p, at);
    lemma_header_at_region(p.header, out, at);
    lemma_questions_at_laid(p.questions, out, l.questions);
    lemma_records_at_laid(p.answers, out, l.answers);
    lemma_records_at_laid(p.authorities, out, l.authorities);
    lemma_records_at_laid(p.resources, out, l.resources);
}

/// Five parts laid one behind the other stand each in its own place.
pub proof fn lemma_five_regions(
    out: Seq<u8>,
    at: int,
    w: Seq<u8>,
    q: Seq<u8>,
    a: Seq<u8>,
    u: Seq<u8>,
    r: Seq<u8>,
)
    requires
        0 <= at,
        at + (w + q + a + u + r).len() <= out.len(),
        out.subrange(at, at + (w + q + a + u + r).len()) == w + q + a + u + r,
    ensures
        ({
            let c1 = at + w.len();
            let c2 = c1 + q.len();
            let c3 = c2 + a.len();
            let c4 = c3 + u.len();
            &&& out.subrange(at, c1) == w
            &&& out.subrange(c1, c2) == q
            &&& out.subrange(c2, c3) == a
            &&& out.subrange(c3, c4) == u
            &&& out.subrange(c4, c4 + r.len()) == r
        }),
{
    let all = w + q + a + u + r;
    let c1 = w.len() as int;
    let c2 = c1 + q.len();
    let c3 = c2 + a.len();
    let c4 = c3 + u.len();
    lemma_subregion(out, at, all, 0, c1);
    assert(all.subrange(0, c1) =~= w);
    lemma_subregion(out, at, all, c1, q.len() as int);
    assert(all.subrange(c1, c2) =~= q);
    lemma_subregion(out, at, all, c2, a.len() as int);
    assert(all.subrange(c2, c3) =~= a);
    lemma_subregion(out, at, all, c3, u.len() as int);
    assert(all.subrange(c3, c4) =~= u);
    lemma_subregion(out, at, all, c4, r.len() as int);
    assert(all.subrange(c4, c4 + r.len()) =~= r);
}

/// A message that has been written is read back with its names in
/// lowercase: for every plain message, written to a place in the buffer
/// where it fits, decoding from that place gives the message and leaves
/// the cursor behind it.
pub proof fn lemma_packet_read_written(p: PacketView, bytes: Seq<u8>, at: int)
    requires
        plain_packet(p),
        bytes.len() == BUFFER_SIZE,
        0 <= at,
        emission_result(at, laid(packet_pieces(p), at)) is Ok,
    ensures
        packet_at(placed(bytes, at, laid(packet_pieces(p), at).bytes), at) == (Parsed {
            result: Ok::<PacketView, CodecError>(folded_packet(p)),
            cursor: at + laid(packet_pieces(p), at).bytes.len(),
        }),
{
    let all = laid(packet_pieces(p), at).bytes;
    let out = placed(bytes, at, all);
    let l = layout(p, at);
    let w = p.header.wire();
    let q = laid(question_pieces(p.questions), l.questions).bytes;
    let a = laid(record_pieces(p.answers), l.answers).bytes;
    let u = laid(record_pieces(p.authorities), l.authorities).bytes;
    let r = laid(record_pieces(p.resources), l.resources).bytes;
    lemma_packet_layout(p, at);
    assert(w.len() == 12);
    assert(all == w + q + a + u + r);
    assert(at + all.len() <= BUFFER_SIZE);
    lemma_placed_region(bytes, at, all);
    lemma_five_regions(out, at, w, q, a, u, r);
    lemma_packet_at_sections(p, out, at);
}

/// What has been laid into the buffer stands there.
pub proof fn lemma_placed_region(bytes: Seq<u8>, at: int, data: Seq<u8>)
    requires
        0 <= at,
        at + data.len() <= bytes.len(),
    ensures
        placed(bytes, at, data).len() == bytes.len(),
        placed(bytes, at, data).subrange(at, at + data.len()) == data,
{
    assert(placed(bytes, at, data).subrange(at, at + data.len()) =~= data);
}

/// Lowercasing changes nothing in a message whose names are all lowercase
/// ASCII already: such a message, once written, is read back as it was.
pub proof fn lemma_folded_packet_fixed(p: PacketView)
    requires
        forall|i: int| 0 <= i < p.questions.len() ==> is_lower_ascii((#[trigger] p.questions[i]).name),
        forall|i: int| 0 <= i < p.answers.len() ==> lower_record(#[trigger] p.answers[i]),
        forall|i: int| 0 <= i < p.authorities.len() ==> lower_record(#[trigger] p.authorities[i]),
        forall|i: int| 0 <= i < p.resources.len() ==> lower_record(#[trigger] p.resources[i]),
    ensures
        folded_packet(p) == p,
{
    let f = folded_packet(p);
    assert forall|i: int| 0 <= i < p.questions.len() implies f.questions[i] == p.questions[i] by {
        lemma_folded_question_fixed(p.questions[i]);
    }
    assert forall|i: int| 0 <= i < p.answers.len() implies f.answers[i] == p.answers[i] by {
        lemma_folded_record_fixed(p.answers[i]);
    }
    assert forall|i: int| 0 <= i < p.authorities.len() implies f.authorities[i]
        == p.authorities[i] by {
        lemma_folded_record_fixed(p.authorities[i]);
    }
    assert forall|i: int| 0 <= i < p.resources.len() implies f.resources[i] == p.resources[i] by {
        lemma_folded_record_fixed(p.resources[i]);
    }
    assert(f.questions =~= p.questions);
    assert(f.answers =~= p.answers);
    assert(f.authorities =~= p.authorities);
    assert(f.resources =~= p.resources);
}

/// Reading a question, a record or a message where the cursor stands at the
/// end of the buffer fails for want of bytes and leaves the cursor where it
/// is.
pub proof fn lemma_read_at_end(bytes: Seq<u8>)
    ensures
        question_at(bytes, BUFFER_SIZE as int) == (Parsed {
            result: Err::<QuestionView, CodecError>(CodecError::BufferBounds),
            cursor: BUFFER_SIZE as int,
        }),
        record_at(bytes, BUFFER_SIZE as int) == (Parsed {
            result: Err::<RecordView, CodecError>(CodecError::BufferBounds),
            cursor: BUFFER_SIZE as int,
        }),
        packet_at(bytes, BUFFER_SIZE as int) == (Parsed {
            result: Err::<PacketView, CodecError>(CodecError::BufferBounds),
            cursor: BUFFER_SIZE as int,
        }),
{
    reveal(packet_at);
    lemma_walk_at_end(bytes, BUFFER_SIZE as int);
}

} // verus!
