use vstd::prelude::*;
use crate::buffer::{
    advanced, be_bytes_u16, lemma_placed_append, lemma_placed_cut, placed, BytePacketBuffer,
    BUFFER_SIZE,
};
use crate::error::CodecError;

verus! {

/// What a writer has to lay into the buffer.
pub struct Emission {
    /// The bytes to write: the whole wire form, or, where a label of a name
    /// is too long, what stands in front of that label.
    pub bytes: Seq<u8>,
    /// Whether no label was too long.
    pub complete: bool,
}

impl Emission {
    /// Plain bytes, which can always be written out in full.
    pub open spec fn of(bytes: Seq<u8>) -> Emission {
        Emission { bytes, complete: true }
    }

    /// This emission and then `next`, which is reached only where this one
    /// is complete.
    pub open spec fn followed_by(self, next: Emission) -> Emission {
        if self.complete {
            Emission { bytes: self.bytes + next.bytes, complete: next.complete }
        } else {
            self
        }
    }
}

/// How writing `e` from `pos` on ends: it fails on the first byte that does
/// not fit, else on the label that is too long.
pub open spec fn emission_result(pos: int, e: Emission) -> Result<(), CodecError> {
    if e.bytes.len() > 0 && pos + e.bytes.len() > BUFFER_SIZE {
        Err(CodecError::BufferBounds)
    } else if !e.complete {
        Err(CodecError::LabelTooLong)
    } else {
        Ok(())
    }
}

/// One step of a writer that lays several emissions one behind the other.
/// With `done` laid from `at` on and the cursor behind it, laying `e` next
/// either fails as the whole of `total` fails, with the buffer and the cursor
/// as `total` leaves them, or brings the buffer to `done + e.bytes`.
pub proof fn lemma_emit_step(
    bytes: Seq<u8>,
    at: int,
    done: Seq<u8>,
    e: Emission,
    more: Emission,
    total: Emission,
)
    requires
        bytes.len() == BUFFER_SIZE,
        at >= 0,
        done.len() > 0 ==> at + done.len() <= BUFFER_SIZE,
        total == Emission::of(done).followed_by(e.followed_by(more)) || (done.len() == 0 && total
            == e.followed_by(more)),
    ensures
        ({
            let cursor = at + done.len();
            let after = placed(placed(bytes, at, done), cursor, e.bytes);
            &&& after == placed(bytes, at, done + e.bytes)
            &&& emission_result(cursor, e) is Err ==> {
                &&& after == placed(bytes, at, total.bytes)
                &&& advanced(cursor, e.bytes.len() as int) == advanced(at, total.bytes.len() as int)
                &&& emission_result(at, total) == emission_result(cursor, e)
            }
            &&& emission_result(cursor, e) is Ok ==> {
                &&& advanced(cursor, e.bytes.len() as int) == at + (done + e.bytes).len()
                &&& (done + e.bytes).len() > 0 ==> at + (done + e.bytes).len() <= BUFFER_SIZE
                &&& total == Emission::of(done + e.bytes).followed_by(more)
            }
        }),
{
    lemma_placed_append(bytes, at, done, e.bytes);
    if done.len() == 0 {
        assert(done + e.followed_by(more).bytes =~= e.followed_by(more).bytes);
    }
    if e.complete {
        assert(total.bytes =~= (done + e.bytes) + more.bytes);
        if e.bytes.len() > 0 && at + done.len() + e.bytes.len() > BUFFER_SIZE {
            lemma_placed_cut(bytes, at, done + e.bytes, more.bytes);
        }
    } else {
        assert(total.bytes =~= done + e.bytes);
    }
}

/// A writer that has laid all of a complete emission has succeeded.
pub proof fn lemma_emit_done(at: int, done: Seq<u8>, total: Emission)
    requires
        done.len() > 0 ==> at + done.len() <= BUFFER_SIZE,
        total == Emission::of(done).followed_by(Emission::of(Seq::empty())),
    ensures
        total == Emission::of(done),
        emission_result(at, total) == Ok::<(), CodecError>(()),
        advanced(at, total.bytes.len() as int) == at + done.len(),
{
    assert(done + Seq::<u8>::empty() =~= done);
}

/// Plain bytes can be laid in two parts.
pub proof fn lemma_of_concat(first: Seq<u8>, second: Seq<u8>)
    ensures
        Emission::of(first + second) == Emission::of(first).followed_by(Emission::of(second)),
{
}

/// Laying three emissions in a row can be grouped either way.
pub proof fn lemma_followed_by_assoc(a: Emission, b: Emission, c: Emission)
    ensures
        a.followed_by(b).followed_by(c) == a.followed_by(b.followed_by(c)),
{
    if a.complete && b.complete {
        assert((a.bytes + b.bytes) + c.bytes =~= a.bytes + (b.bytes + c.bytes));
    }
}

/// One item of a message as it is written: what is laid first, and what
/// stands in its place once the item has been written in full. The two differ
/// only for a record whose data length is set afterwards.
pub struct Piece {
    pub draft: Emission,
    pub patched: Seq<u8>,
}

impl Piece {
    /// An item that is written once and not touched again.
    pub open spec fn plain(e: Emission) -> Piece {
        Piece { draft: e, patched: e.bytes }
    }

    /// Setting the data length changes no length.
    pub open spec fn wf(self) -> bool {
        self.patched.len() == self.draft.bytes.len()
    }
}

/// What stands in the buffer after the given items have been written one
/// behind the other from `at` on, up to the first that fails: every item
/// written in full in its final form, the one that failed as far as it was
/// laid.
pub open spec fn laid(pieces: Seq<Piece>, at: int) -> Emission
    decreases pieces.len(),
{
    if pieces.len() == 0 {
        Emission::of(Seq::empty())
    } else {
        let before = laid(pieces.drop_last(), at);
        let last = pieces.last();
        if emission_result(at, before) is Err {
            before
        } else if emission_result(at + before.bytes.len(), last.draft) is Err {
            Emission { bytes: before.bytes + last.draft.bytes, complete: last.draft.complete }
        } else {
            Emission { bytes: before.bytes + last.patched, complete: true }
        }
    }
}

/// Once an item has failed, the items behind it change nothing.
pub proof fn lemma_laid_failed(pieces: Seq<Piece>, at: int, k: int)
    requires
        0 <= k <= pieces.len(),
        emission_result(at, laid(pieces.take(k), at)) is Err,
    ensures
        laid(pieces, at) == laid(pieces.take(k), at),
    decreases pieces.len(),
{
    if k == pieces.len() {
        assert(pieces.take(k) =~= pieces);
    } else {
        assert(pieces.drop_last().take(k) =~= pieces.take(k));
        lemma_laid_failed(pieces.drop_last(), at, k);
    }
}

/// One step of a writer that goes through the items in order. With the
/// first `k` items written without failure, writing item `k` leaves the buffer
/// and the cursor as the first `k + 1` items are laid, and fails as they fail.
pub proof fn lemma_laid_step(bytes: Seq<u8>, at: int, pieces: Seq<Piece>, k: int)
    requires
        bytes.len() == BUFFER_SIZE,
        at >= 0,
        0 <= k < pieces.len(),
        pieces[k].wf(),
        emission_result(at, laid(pieces.take(k), at)) is Ok,
    ensures
        ({
            let before = laid(pieces.take(k), at);
            let after = laid(pieces.take(k + 1), at);
            let cursor = at + before.bytes.len();
            let result = emission_result(cursor, pieces[k].draft);
            &&& advanced(at, before.bytes.len() as int) == cursor
            &&& placed(
                placed(bytes, at, before.bytes),
                cursor,
                if result is Ok {
                    pieces[k].patched
                } else {
                    pieces[k].draft.bytes
                },
            ) == placed(bytes, at, after.bytes)
            &&& advanced(cursor, pieces[k].draft.bytes.len() as int) == advanced(
                at,
                after.bytes.len() as int,
            )
            &&& emission_result(at, after) == result
            &&& result is Err ==> laid(pieces, at) == after
        }),
{
    let before = laid(pieces.take(k), at);
    let after = laid(pieces.take(k + 1), at);
    let cursor = at + before.bytes.len();
    let result = emission_result(cursor, pieces[k].draft);
    assert(pieces.take(k + 1).drop_last() =~= pieces.take(k));
    assert(pieces.take(k + 1).last() == pieces[k]);
    if result is Ok {
        lemma_placed_append(bytes, at, before.bytes, pieces[k].patched);
    } else {
        lemma_placed_append(bytes, at, before.bytes, pieces[k].draft.bytes);
        lemma_laid_failed(pieces, at, k + 1);
    }
}

/// The items of `first` and then those of `second` are laid as `first` is,
/// with `second` behind it where `first` did not fail.
pub proof fn lemma_laid_concat(first: Seq<Piece>, second: Seq<Piece>, at: int)
    ensures
        ({
            let a = laid(first, at);
            let b = laid(second, at + a.bytes.len());
            laid(first + second, at) == if emission_result(at, a) is Err {
                a
            } else {
                Emission { bytes: a.bytes + b.bytes, complete: b.complete }
            }
        }),
    decreases second.len(),
{
    let a = laid(first, at);
    let b = laid(second, at + a.bytes.len());
    if second.len() == 0 {
        assert(first + second =~= first);
        assert(a.bytes + b.bytes =~= a.bytes);
    } else {
        let all = first + second;
        assert(all.drop_last() =~= first + second.drop_last());
        assert(all.last() == second.last());
        lemma_laid_concat(first, second.drop_last(), at);
        let b0 = laid(second.drop_last(), at + a.bytes.len());
        if emission_result(at, a) is Ok {
            assert((a.bytes + b0.bytes) + second.last().draft.bytes =~= a.bytes + (b0.bytes
                + second.last().draft.bytes));
            assert((a.bytes + b0.bytes) + second.last().patched =~= a.bytes + (b0.bytes
                + second.last().patched));
        }
    }
}

/// One step of a writer that goes through a message section by section.
/// With the items of `first` written without failure, writing those of
/// `second` leaves the buffer and the cursor as the items of both are laid,
/// and fails as they fail.
pub proof fn lemma_laid_section(bytes: Seq<u8>, at: int, first: Seq<Piece>, second: Seq<Piece>)
    requires
        bytes.len() == BUFFER_SIZE,
        at >= 0,
        emission_result(at, laid(first, at)) is Ok,
    ensures
        ({
            let a = laid(first, at);
            let cursor = at + a.bytes.len();
            let b = laid(second, cursor);
            let all = laid(first + second, at);
            &&& advanced(at, a.bytes.len() as int) == cursor
            &&& placed(placed(bytes, at, a.bytes), cursor, b.bytes) == placed(bytes, at, all.bytes)
            &&& advanced(cursor, b.bytes.len() as int) == advanced(at, all.bytes.len() as int)
            &&& emission_result(at, all) == emission_result(cursor, b)
        }),
{
    let a = laid(first, at);
    let cursor = at + a.bytes.len();
    let b = laid(second, cursor);
    lemma_laid_concat(first, second, at);
    lemma_placed_append(bytes, at, a.bytes, b.bytes);
}

/// A section that failed is the end of the message.
pub proof fn lemma_laid_section_failed(at: int, first: Seq<Piece>, second: Seq<Piece>)
    requires
        emission_result(at, laid(first, at)) is Err,
    ensures
        laid(first + second, at) == laid(first, at),
{
    lemma_laid_concat(first, second, at);
}

/// A single item is laid as it is written.
pub proof fn lemma_laid_one(piece: Piece, at: int)
    requires
        piece.wf(),
        piece.draft.complete,
        piece.patched == piece.draft.bytes,
    ensures
        laid(seq![piece], at) == piece.draft,
{
    let s = seq![piece];
    assert(s.drop_last() =~= Seq::<Piece>::empty());
    assert(laid(s.drop_last(), at) == Emission::of(Seq::empty()));
    assert(Seq::<u8>::empty() + piece.draft.bytes =~= piece.draft.bytes);
}

/// The bytes of the given 16-bit words, each most significant byte first.
pub open spec fn be_words(words: Seq<u16>) -> Seq<u8> {
    Seq::new(
        2 * words.len(),
        |i: int|
            if i % 2 == 0 {
                (words[i / 2] / 0x100) as u8
            } else {
                (words[i / 2] % 0x100) as u8
            },
    )
}

impl BytePacketBuffer {
    /// Writes the given 16-bit words one behind the other, each most
    /// significant byte first. Bytes that do not fit are not written, and
    /// the call fails.
    pub(crate) fn write_words(&mut self, words: &[u16]) -> (r: Result<(), CodecError>)
        ensures
            final(self).buf@ == placed(old(self).buf@, old(self).pos as int, be_words(words@)),
            final(self).pos == advanced(old(self).pos as int, 2 * (words@.len() as int)),
            r == emission_result(old(self).pos as int, Emission::of(be_words(words@))),
    {
        let ghost bytes0 = self.buf@;
        let ghost pos0 = self.pos as int;
        let ghost wire = be_words(words@);
        let ghost total = Emission::of(wire);
        let n = words.len();
        let mut i: usize = 0;
        assert(self.buf@ =~= placed(bytes0, pos0, wire.subrange(0, 0)));
        while i < n
            invariant
                0 <= i <= n,
                n == words@.len(),
                bytes0 == old(self).buf@,
                pos0 == old(self).pos,
                wire == be_words(words@),
                total == Emission::of(wire),
                self.buf@ == placed(bytes0, pos0, wire.subrange(0, 2 * i)),
                self.pos == pos0 + 2 * i,
                i > 0 ==> self.pos <= BUFFER_SIZE,
            decreases n - i,
        {
            proof {
                let done = wire.subrange(0, 2 * i);
                let e = Emission::of(be_bytes_u16(words@[i as int]));
                let more = Emission::of(wire.subrange(2 * i + 2, 2 * n));
                assert(done + e.bytes =~= wire.subrange(0, 2 * i + 2));
                assert(done + (e.bytes + more.bytes) =~= wire);
                lemma_emit_step(bytes0, pos0, done, e, more, total);
            }
            self.write_u16(words[i])?;
            i += 1;
        }
        proof {
            assert(wire.subrange(0, 2 * n) =~= wire);
            assert(wire + Seq::<u8>::empty() =~= wire);
            lemma_emit_done(pos0, wire, total);
        }
        Ok(())
    }
}

} // verus!
