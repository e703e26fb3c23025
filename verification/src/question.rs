use vstd::prelude::*;
use vstd::utf8::encode_utf8;
use crate::buffer::{advanced, be_bytes_u16, placed, u16_at, BytePacketBuffer, Parsed, BUFFER_SIZE};
use crate::emission::{emission_result, lemma_emit_done, lemma_emit_step, lemma_of_concat, Emission};
use crate::error::CodecError;
use crate::name::{lemma_name_walk_cursor, name_encoding, name_walk};
use crate::query_type::QueryType;

verus! {

/// One entry of the question section: the name asked about and the type of
/// record asked for.
#[derive(PartialEq, Eq, Debug, Clone)]
pub struct DnsQuestion {
    pub name: String,
    pub question_type: QueryType,
}

/// A question as a plain value.
pub struct QuestionView {
    pub name: Seq<char>,
    pub question_type: QueryType,
}

impl View for DnsQuestion {
    type V = QuestionView;

    open spec fn view(&self) -> QuestionView {
        QuestionView { name: self.name@, question_type: self.question_type }
    }
}

/// The class that every question and record is written with: IN.
pub const CLASS_IN: u16 = 1;

/// The question whose wire form starts at `at` in `bytes`: a name, two bytes
/// of type, and two bytes of class, which are passed over.
pub open spec fn question_at(bytes: Seq<u8>, at: int) -> Parsed<QuestionView> {
    let walk = name_walk(bytes, at, 0, true);
    match walk.error {
        Some(e) => Parsed {
            result: Err(e),
            cursor: match walk.cursor {
                Some(c) => c,
                None => at,
            },
        },
        None => {
            let c = walk.cursor->0;
            if c + 4 > BUFFER_SIZE {
                Parsed { result: Err(CodecError::BufferBounds), cursor: advanced(c, 4) }
            } else {
                Parsed {
                    result: Ok(
                        QuestionView {
                            name: walk.text,
                            question_type: QueryType::of_num(u16_at(bytes, c)),
                        },
                    ),
                    cursor: c + 4,
                }
            }
        },
    }
}

/// What writing a question lays into the buffer: its name, its type, and the
/// class IN.
pub open spec fn question_emission(q: QuestionView) -> Emission {
    name_encoding(encode_utf8(q.name)).followed_by(
        Emission::of(be_bytes_u16(q.question_type.num()) + be_bytes_u16(CLASS_IN)),
    )
}

impl DnsQuestion {
    /// A question for `name` and `question_type`.
    pub fn new(name: String, question_type: QueryType) -> (q: DnsQuestion)
        ensures
            q.name == name,
            q.question_type == question_type,
    {
        DnsQuestion { name, question_type }
    }

    /// Reads a question from under the cursor. The name read is appended to
    /// the name that this question holds already; the type replaces the one it
    /// holds. On failure the name has what was decoded before the failure
    /// appended, and the type is replaced only if its two bytes were there.
    pub fn read(&mut self, buffer: &mut BytePacketBuffer) -> (r: Result<(), CodecError>)
        ensures
            final(buffer).buf == old(buffer).buf,
            ({
                let bytes = old(buffer).buf@;
                let walk = name_walk(bytes, old(buffer).pos as int, 0, true);
                let parsed = question_at(bytes, old(buffer).pos as int);
                &&& final(buffer).pos == parsed.cursor
                &&& final(self).name@ == old(self).name@ + walk.text
                &&& match parsed.result {
                    Ok(q) => r is Ok && final(self).question_type == q.question_type,
                    Err(e) => r == Err::<(), CodecError>(e),
                }
                &&& final(self).question_type == if walk.error is None && walk.cursor->0 + 2
                    <= BUFFER_SIZE {
                    QueryType::of_num(u16_at(bytes, walk.cursor->0))
                } else {
                    old(self).question_type
                }
            }),
            r is Ok ==> final(buffer).wf() && final(self).question_type.wf(),
    {
        proof {
            lemma_name_walk_cursor(buffer.buf@, buffer.pos as int, 0, true);
        }
        buffer.read_qname(&mut self.name)?;
        self.question_type = QueryType::from_num(buffer.read_u16()?);
        let _ = buffer.read_u16()?;
        Ok(())
    }

    /// Writes this question from the cursor on: the name in its wire form,
    /// the type, and the class IN. Bytes that do not fit are not written, and
    /// a label that is too long stops the call after what stands in front of
    /// it.
    pub fn write(&self, buffer: &mut BytePacketBuffer) -> (r: Result<(), CodecError>)
        ensures
            ({
                let e = question_emission(self@);
                &&& final(buffer).buf@ == placed(old(buffer).buf@, old(buffer).pos as int, e.bytes)
                &&& final(buffer).pos == advanced(old(buffer).pos as int, e.bytes.len() as int)
                &&& r == emission_result(old(buffer).pos as int, e)
            }),
            r is Ok ==> final(buffer).wf(),
    {
        let ghost bytes0 = buffer.buf@;
        let ghost pos0 = buffer.pos as int;
        let ghost total = question_emission(self@);
        let ghost e_name = name_encoding(encode_utf8(self.name@));
        let ghost e_type = Emission::of(be_bytes_u16(self.question_type.num()));
        let ghost e_class = Emission::of(be_bytes_u16(CLASS_IN));
        let ghost nothing = Emission::of(Seq::empty());
        let ghost mut done = Seq::<u8>::empty();
        proof {
            assert(buffer.buf@ =~= placed(bytes0, pos0, done));
            lemma_of_concat(e_type.bytes, e_class.bytes);
            lemma_of_concat(e_class.bytes, Seq::empty());
            assert(e_class.bytes + Seq::<u8>::empty() =~= e_class.bytes);
            lemma_emit_step(bytes0, pos0, done, e_name, e_type.followed_by(e_class), total);
        }
        buffer.write_qname(self.name.as_str())?;
        proof {
            done = done + e_name.bytes;
            lemma_emit_step(bytes0, pos0, done, e_type, e_class, total);
        }
        buffer.write_u16(self.question_type.to_num())?;
        proof {
            done = done + e_type.bytes;
            lemma_emit_step(bytes0, pos0, done, e_class, nothing, total);
        }
        buffer.write_u16(1)?;
        proof {
            done = done + e_class.bytes;
            lemma_emit_done(pos0, done, total);
        }
        Ok(())
    }
}

} // verus!
