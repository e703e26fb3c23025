use vstd::prelude::*;
use vstd::string::StringExecFns;
use vstd::utf8::encode_utf8;
use crate::buffer::{
    advanced, lemma_placed_append, lemma_placed_cut, placed, BytePacketBuffer, BUFFER_SIZE,
};
use crate::emission::{emission_result, Emission};
use crate::error::CodecError;
use crate::text::{lossy_text, lowercase_text, to_lowercase, utf8_lossy};

verus! {

/// How many compression jumps the decoder follows within one name.
pub const MAX_JUMPS: usize = 5;

/// The longest label that can be encoded.
pub const MAX_LABEL_LEN: usize = 63;

/// A length byte with its two top bits set introduces a compression pointer.
pub open spec fn is_pointer(b: u8) -> bool {
    b >= 0xC0
}

/// The offset that a two-byte compression pointer names: its low 14 bits.
pub open spec fn pointer_target(b1: u8, b2: u8) -> int {
    (b1 - 0xC0) * 0x100 + b2
}

/// The text of one label: its bytes read as UTF-8, leniently, in lowercase.
pub open spec fn label_text(bytes: Seq<u8>) -> Seq<char> {
    lowercase_text(lossy_text(bytes))
}

/// What stands in front of a label: nothing before the first, a dot before
/// every other.
pub open spec fn separator(first: bool) -> Seq<char> {
    if first {
        Seq::empty()
    } else {
        seq!['.']
    }
}

/// The outcome of decoding a name.
pub struct NameWalk {
    /// The text produced, up to the failure if there was one.
    pub text: Seq<char>,
    /// Where the buffer's cursor is put, if it is moved at all: just past the
    /// first pointer met, or past the terminator of a name without pointers.
    pub cursor: Option<int>,
    /// The failure, if any.
    pub error: Option<CodecError>,
}

/// Decodes the name that starts at `at` in `bytes`, after `jumps` compression
/// jumps have been made already. `first` tells whether no label has been
/// produced yet.
pub open spec fn name_walk(bytes: Seq<u8>, at: int, jumps: int, first: bool) -> NameWalk
    decreases MAX_JUMPS + 1 - jumps, BUFFER_SIZE - at,
{
    if jumps > MAX_JUMPS {
        NameWalk {
            text: Seq::empty(),
            cursor: None,
            error: Some(CodecError::JumpLimitExceeded),
        }
    } else if at < 0 || at >= BUFFER_SIZE {
        NameWalk { text: Seq::empty(), cursor: None, error: Some(CodecError::BufferBounds) }
    } else if is_pointer(bytes[at]) {
        if at + 1 >= BUFFER_SIZE {
            NameWalk {
                text: Seq::empty(),
                cursor: Some(at + 2),
                error: Some(CodecError::BufferBounds),
            }
        } else {
            let rest = name_walk(
                bytes,
                pointer_target(bytes[at], bytes[at + 1]),
                jumps + 1,
                first,
            );
            NameWalk { text: rest.text, cursor: Some(at + 2), error: rest.error }
        }
    } else if bytes[at] == 0 {
        NameWalk { text: Seq::empty(), cursor: Some(at + 1), error: None }
    } else {
        let next = at + 1 + bytes[at];
        if next > BUFFER_SIZE {
            NameWalk { text: separator(first), cursor: None, error: Some(CodecError::BufferBounds) }
        } else {
            let rest = name_walk(bytes, next, jumps, false);
            NameWalk {
                text: separator(first) + label_text(bytes.subrange(at + 1, next)) + rest.text,
                cursor: rest.cursor,
                error: rest.error,
            }
        }
    }
}

/// The byte that separates the labels of a dotted name.
pub const DOT: u8 = 0x2E;

/// The index of the first dot at or after `from` in `name`, or the length of
/// `name` where there is none.
pub open spec fn label_end(name: Seq<u8>, from: int) -> int
    decreases name.len() - from,
{
    if from < 0 || from >= name.len() || name[from] == DOT {
        from
    } else {
        label_end(name, from + 1)
    }
}

/// A label ends at or after the place where it starts, and inside the name.
pub proof fn lemma_label_end_bounds(name: Seq<u8>, from: int)
    requires
        0 <= from <= name.len(),
    ensures
        from <= label_end(name, from) <= name.len(),
        forall|i: int| from <= i < label_end(name, from) ==> name[i] != DOT,
        label_end(name, from) < name.len() ==> name[label_end(name, from)] == DOT,
    decreases name.len() - from,
{
    if from < name.len() && name[from] != DOT {
        lemma_label_end_bounds(name, from + 1);
    }
}

/// The wire form of the labels of `name` from index `from` on: each label as
/// its length and its bytes, then a zero byte.
pub open spec fn labels_encoding(name: Seq<u8>, from: int) -> Emission
    decreases name.len() - from,
    via labels_encoding_decreases
{
    let end = label_end(name, from);
    if end - from > MAX_LABEL_LEN {
        Emission { bytes: Seq::empty(), complete: false }
    } else {
        let label = seq![(end - from) as u8] + name.subrange(from, end);
        if from < 0 || end >= name.len() {
            Emission { bytes: label + seq![0u8], complete: true }
        } else {
            let rest = labels_encoding(name, end + 1);
            Emission { bytes: label + rest.bytes, complete: rest.complete }
        }
    }
}

#[via_fn]
proof fn labels_encoding_decreases(name: Seq<u8>, from: int) {
    if 0 <= from <= name.len() {
        lemma_label_end_bounds(name, from);
    }
}

/// The wire form of a dotted name. The empty name has no labels: it is the
/// terminator alone.
pub open spec fn name_encoding(name: Seq<u8>) -> Emission {
    if name.len() == 0 {
        Emission { bytes: seq![0u8], complete: true }
    } else {
        labels_encoding(name, 0)
    }
}

/// A name that decodes without failure moves the cursor, and leaves it inside
/// the buffer or just past its end.
pub proof fn lemma_name_walk_cursor(bytes: Seq<u8>, at: int, jumps: int, first: bool)
    ensures
        ({
            let walk = name_walk(bytes, at, jumps, first);
            walk.error is None ==> walk.cursor is Some && 0 < walk.cursor->0 <= BUFFER_SIZE
        }),
    decreases MAX_JUMPS + 1 - jumps, BUFFER_SIZE - at,
{
    if jumps > MAX_JUMPS || at < 0 || at >= BUFFER_SIZE {
    } else if is_pointer(bytes[at]) {
        if at + 1 < BUFFER_SIZE {
            lemma_name_walk_cursor(
                bytes,
                pointer_target(bytes[at], bytes[at + 1]),
                jumps + 1,
                first,
            );
        }
    } else if bytes[at] != 0 {
        let next = at + 1 + bytes[at];
        if next <= BUFFER_SIZE {
            lemma_name_walk_cursor(bytes, next, jumps, false);
        }
    }
}

/// Finds where the label that starts at `from` ends.
fn find_label_end(name: &[u8], from: usize) -> (end: usize)
    requires
        from <= name@.len(),
    ensures
        end == label_end(name@, from as int),
        from <= end <= name@.len(),
{
    let mut end = from;
    while end < name.len() && name[end] != DOT
        invariant
            from <= end <= name@.len(),
            label_end(name@, from as int) == label_end(name@, end as int),
        decreases name@.len() - end,
    {
        end += 1;
    }
    end
}

impl BytePacketBuffer {
    /// Decodes the name under the cursor and appends its dotted lowercase
    /// text to `outstr`. Compression pointers are followed, at most
    /// `MAX_JUMPS` of them. The cursor ends just past the name as it stands
    /// in the message: past the first pointer, or past the terminator where
    /// there is no pointer.
    pub fn read_qname(&mut self, outstr: &mut String) -> (r: Result<(), CodecError>)
        ensures
            final(self).buf == old(self).buf,
            ({
                let walk = name_walk(old(self).buf@, old(self).pos as int, 0, true);
                &&& final(outstr)@ == old(outstr)@ + walk.text
                &&& final(self).pos == match walk.cursor {
                    Some(c) => c,
                    None => old(self).pos as int,
                }
                &&& r == match walk.error {
                    None => Ok::<(), CodecError>(()),
                    Some(e) => Err(e),
                }
            }),
            r is Ok ==> final(self).wf(),
            old(self).pos >= BUFFER_SIZE ==> r is Err && *final(self) == *old(self)
                && final(outstr)@ == old(outstr)@,
    {
        let ghost bytes = self.buf@;
        let ghost start = self.pos as int;
        let ghost text0 = outstr@;
        assert(outstr@ + Seq::<char>::empty() =~= outstr@);
        let ghost full = name_walk(bytes, start, 0, true);
        proof {
            lemma_name_walk_cursor(bytes, start, 0, true);
        }

        let mut qname_pos = self.pos();
        let mut jumped = false;
        let mut jumps_performed: usize = 0;
        let mut delimiter = "";
        let ghost first = true;
        proof {
            reveal_strlit("");
        }
        assert(delimiter@ =~= separator(first));
        assert(outstr@ + full.text =~= text0 + full.text);

        loop
            invariant_except_break
                ({
                    let rest = name_walk(bytes, qname_pos as int, jumps_performed as int, first);
                    &&& text0 + full.text == outstr@ + rest.text
                    &&& full.error == rest.error
                    &&& full.cursor == if jumped {
                        Some(self.pos as int)
                    } else {
                        rest.cursor
                    }
                }),
            invariant
                self.buf@ == bytes,
                self.buf == old(self).buf,
                start == old(self).pos,
                text0 == old(outstr)@,
                full == name_walk(bytes, start, 0, true),
                jumps_performed <= MAX_JUMPS + 1,
                qname_pos <= 0x4000 || qname_pos == start,
                delimiter@ == separator(first),
                jumped || self.pos == start,
            ensures
                text0 + full.text == outstr@,
                full.error is None,
                full.cursor == if jumped {
                    Some(self.pos as int)
                } else {
                    Some(qname_pos as int)
                },
            decreases MAX_JUMPS + 1 - jumps_performed, 0x4000 - qname_pos,
        {
            let ghost rest = name_walk(bytes, qname_pos as int, jumps_performed as int, first);
            if jumps_performed > MAX_JUMPS {
                assert(outstr@ + rest.text =~= outstr@);
                return Err(CodecError::JumpLimitExceeded);
            }
            assert(outstr@ + Seq::<char>::empty() =~= outstr@);
            let len = self.get(qname_pos)?;

            assert((len & 0xC0) == 0xC0 <==> len >= 0xC0) by (bit_vector);
            if (len & 0xC0) == 0xC0 {
                if !jumped {
                    self.seek(qname_pos + 2)?;
                }
                let b2 = self.get(qname_pos + 1)? as u16;
                let offset = ((len as u16) ^ 0xC0) << 8 | b2;
                assert(offset == (len - 0xC0) * 0x100 + b2) by (bit_vector)
                    requires
                        len >= 0xC0,
                        b2 < 0x100,
                        offset == ((len as u16) ^ 0xC0) << 8 | b2,
                ;
                qname_pos = offset as usize;
                jumped = true;
                jumps_performed += 1;
                continue ;
            } else {
                qname_pos += 1;
                if len == 0 {
                    break ;
                }
                outstr.append(delimiter);
                let ghost with_delimiter = outstr@;
                assert(with_delimiter + Seq::<char>::empty() =~= with_delimiter);
                let str_buffer = self.get_range(qname_pos, len as usize)?;
                let label = to_lowercase(utf8_lossy(str_buffer).as_str());
                outstr.append(label.as_str());
                delimiter = ".";
                proof {
                    reveal_strlit(".");
                    first = false;
                    let after = name_walk(bytes, qname_pos + len, jumps_performed as int, false);
                    assert(label@ == label_text(bytes.subrange(qname_pos as int, qname_pos + len)));
                    assert(delimiter@ =~= separator(false));
                    assert(outstr@ + after.text =~= (with_delimiter + label@) + after.text);
                    assert(text0 + full.text =~= outstr@ + after.text);
                }
                qname_pos += len as usize;
            }
        }
        if !jumped {
            self.seek(qname_pos)?;
        }
        Ok(())
    }

    /// Writes `data[from..to]` byte by byte from the cursor on. Bytes that do
    /// not fit are not written, and the call fails.
    pub(crate) fn write_slice(&mut self, data: &[u8], from: usize, to: usize) -> (r: Result<
        (),
        CodecError,
    >)
        requires
            from <= to <= data@.len(),
        ensures
            final(self).buf@ == placed(
                old(self).buf@,
                old(self).pos as int,
                data@.subrange(from as int, to as int),
            ),
            final(self).pos == advanced(old(self).pos as int, to - from),
            r is Ok <==> to == from || old(self).pos + (to - from) <= BUFFER_SIZE,
            r matches Err(e) ==> e == CodecError::BufferBounds,
    {
        let ghost bytes0 = self.buf@;
        let ghost pos0 = self.pos as int;
        let mut i = from;
        assert(self.buf@ =~= placed(bytes0, pos0, data@.subrange(from as int, i as int)));
        while i < to
            invariant
                from <= i <= to <= data@.len(),
                bytes0 == old(self).buf@,
                pos0 == old(self).pos,
                self.buf@ == placed(bytes0, pos0, data@.subrange(from as int, i as int)),
                self.pos == pos0 + (i - from),
                i > from ==> self.pos <= BUFFER_SIZE,
            decreases to - i,
        {
            proof {
                let done = data@.subrange(from as int, i as int);
                if self.pos >= BUFFER_SIZE {
                    lemma_placed_cut(bytes0, pos0, done, data@.subrange(i as int, to as int));
                    assert(done + data@.subrange(i as int, to as int) =~= data@.subrange(
                        from as int,
                        to as int,
                    ));
                } else {
                    lemma_placed_append(bytes0, pos0, done, seq![data@[i as int]]);
                    assert(done + seq![data@[i as int]] =~= data@.subrange(
                        from as int,
                        i + 1,
                    ));
                    assert(self.buf@.update(self.pos as int, data@[i as int]) =~= placed(
                        self.buf@,
                        self.pos as int,
                        seq![data@[i as int]],
                    ));
                }
            }
            self.write(data[i])?;
            i += 1;
        }
        Ok(())
    }

    /// Writes `q_name` in its wire form: each label of the dotted name as its
    /// length and its bytes, then a zero byte. A label longer than
    /// `MAX_LABEL_LEN` bytes stops the call, after the labels in front of it
    /// have been written. Bytes that do not fit into the buffer are not
    /// written, and the call fails.
    pub fn write_qname(&mut self, q_name: &str) -> (r: Result<(), CodecError>)
        ensures
            ({
                let enc = name_encoding(encode_utf8(q_name@));
                &&& final(self).buf@ == placed(old(self).buf@, old(self).pos as int, enc.bytes)
                &&& final(self).pos == advanced(old(self).pos as int, enc.bytes.len() as int)
                &&& r == emission_result(old(self).pos as int, enc)
            }),
            r is Ok ==> final(self).wf(),
    {
        let name = q_name.as_bytes();
        let n = name.len();
        let ghost bytes0 = self.buf@;
        let ghost pos0 = self.pos as int;
        let ghost enc = name_encoding(name@);
        if n == 0 {
            assert(bytes0 =~= placed(bytes0, pos0, Seq::<u8>::empty()));
            proof {
                self.lemma_next_chunk(bytes0, pos0, Seq::empty(), seq![0u8], Seq::empty());
            }
            self.write_u8(0)?;
            return Ok(());
        }
        let ghost mut done: Seq<u8> = Seq::empty();
        let mut start: usize = 0;
        assert(self.buf@ =~= placed(bytes0, pos0, done));
        assert(enc.bytes =~= done + labels_encoding(name@, 0).bytes);
        loop
            invariant_except_break
                enc.bytes == done + labels_encoding(name@, start as int).bytes,
                enc.complete == labels_encoding(name@, start as int).complete,
            invariant
                n == name@.len(),
                name@ == encode_utf8(q_name@),
                enc == name_encoding(name@),
                0 <= start <= n,
                bytes0 == old(self).buf@,
                pos0 == old(self).pos,
                self.buf@ == placed(bytes0, pos0, done),
                self.pos == pos0 + done.len(),
                done.len() > 0 ==> self.pos <= BUFFER_SIZE,
            ensures
                enc.bytes == done + seq![0u8],
                enc.complete,
            decreases n - start,
        {
            let end = find_label_end(name, start);
            let len = end - start;
            let ghost tail = labels_encoding(name@, start as int);
            if len > MAX_LABEL_LEN {
                assert(enc.bytes =~= done);
                return Err(CodecError::LabelTooLong);
            }
            let ghost head = seq![len as u8];
            let ghost label = name@.subrange(start as int, end as int);
            let ghost after = if end >= n {
                seq![0u8]
            } else {
                labels_encoding(name@, end + 1).bytes
            };
            assert(tail.bytes =~= head + (label + after));
            assert(enc.bytes =~= done + head + (label + after));
            proof {
                self.lemma_next_chunk(bytes0, pos0, done, head, label + after);
            }
            self.write_u8(len as u8)?;
            proof {
                done = done + head;
                assert(enc.bytes =~= done + label + after);
                self.lemma_next_chunk(bytes0, pos0, done, label, after);
            }
            self.write_slice(name, start, end)?;
            proof {
                done = done + label;
            }
            if end == n {
                break ;
            }
            start = end + 1;
        }
        proof {
            self.lemma_next_chunk(bytes0, pos0, done, seq![0u8], Seq::empty());
            assert(enc.bytes =~= done + seq![0u8] + Seq::<u8>::empty());
        }
        self.write_u8(0)?;
        Ok(())
    }
}

} // verus!
