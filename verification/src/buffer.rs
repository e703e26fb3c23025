use vstd::prelude::*;
use crate::error::CodecError;

verus! {

/// Number of bytes in a packet buffer: the largest DNS message carried over UDP.
pub const BUFFER_SIZE: usize = 512;

/// The 16-bit value whose big-endian form stands at `at` in `bytes`.
pub open spec fn u16_at(bytes: Seq<u8>, at: int) -> u16 {
    (bytes[at] as int * 0x100 + bytes[at + 1] as int) as u16
}

/// The 32-bit value whose big-endian form stands at `at` in `bytes`.
pub open spec fn u32_at(bytes: Seq<u8>, at: int) -> u32 {
    (bytes[at] as int * 0x100_0000 + bytes[at + 1] as int * 0x1_0000 + bytes[at + 2] as int * 0x100
        + bytes[at + 3] as int) as u32
}

/// The two bytes of `v`, most significant first.
pub open spec fn be_bytes_u16(v: u16) -> Seq<u8> {
    seq![(v / 0x100) as u8, (v % 0x100) as u8]
}

/// The four bytes of `v`, most significant first.
pub open spec fn be_bytes_u32(v: u32) -> Seq<u8> {
    seq![
        (v / 0x100_0000) as u8,
        (v / 0x1_0000 % 0x100) as u8,
        (v / 0x100 % 0x100) as u8,
        (v % 0x100) as u8,
    ]
}

/// The two bytes of a number give the number back.
pub proof fn lemma_u16_read_written(v: u16)
    ensures
        be_bytes_u16(v).len() == 2,
        u16_at(be_bytes_u16(v), 0) == v,
        be_bytes_u16(v)[0] as int * 0x100 + be_bytes_u16(v)[1] as int == v,
{
    let hi = (v >> 8) as u8;
    let lo = (v & 0xff) as u8;
    assert(hi == (v / 0x100) as u8 && lo == (v % 0x100) as u8) by (bit_vector)
        requires
            hi == (v >> 8) as u8,
            lo == (v & 0xff) as u8,
    ;
    assert(v == hi as int * 0x100 + lo as int) by (bit_vector)
        requires
            hi == (v >> 8) as u8,
            lo == (v & 0xff) as u8,
    ;
}

/// The four bytes of a number give the number back.
pub proof fn lemma_u32_read_written(v: u32)
    ensures
        be_bytes_u32(v).len() == 4,
        u32_at(be_bytes_u32(v), 0) == v,
        be_bytes_u32(v)[0] as int * 0x100_0000 + be_bytes_u32(v)[1] as int * 0x1_0000
            + be_bytes_u32(v)[2] as int * 0x100 + be_bytes_u32(v)[3] as int == v,
{
    let b0 = (v >> 24) as u8;
    let b1 = (v >> 16) as u8;
    let b2 = (v >> 8) as u8;
    let b3 = (v >> 0) as u8;
    assert(b0 == (v / 0x100_0000) as u8 && b1 == (v / 0x1_0000 % 0x100) as u8 && b2 == (v / 0x100
        % 0x100) as u8 && b3 == (v % 0x100) as u8) by (bit_vector)
        requires
            b0 == (v >> 24) as u8,
            b1 == (v >> 16) as u8,
            b2 == (v >> 8) as u8,
            b3 == (v >> 0) as u8,
    ;
    assert(v == b0 as int * 0x100_0000 + b1 as int * 0x1_0000 + b2 as int * 0x100 + b3 as int)
        by (bit_vector)
        requires
            b0 == (v >> 24) as u8,
            b1 == (v >> 16) as u8,
            b2 == (v >> 8) as u8,
            b3 == (v >> 0) as u8,
    ;
}

/// The number made of two bytes has those bytes.
pub proof fn lemma_u16_bytes_back(hi: u8, lo: u8)
    ensures
        hi * 0x100 + lo <= u16::MAX,
        be_bytes_u16((hi * 0x100 + lo) as u16) == seq![hi, lo],
{
    assert(hi as int * 0x100 + (lo as int) <= 0xFFFF) by (bit_vector);
    let v = (hi * 0x100 + lo) as u16;
    let h = (v >> 8) as u8;
    let l = (v & 0xff) as u8;
    assert(h == hi && l == lo) by (bit_vector)
        requires
            v == hi as int * 0x100 + lo as int,
            h == (v >> 8) as u8,
            l == (v & 0xff) as u8,
    ;
    assert(h == (v / 0x100) as u8 && l == (v % 0x100) as u8) by (bit_vector)
        requires
            h == (v >> 8) as u8,
            l == (v & 0xff) as u8,
    ;
    assert(be_bytes_u16(v) =~= seq![hi, lo]);
}

/// The number made of four bytes has those bytes, and its halves are the
/// numbers made of the first two and of the last two.
pub proof fn lemma_u32_bytes_back(b0: u8, b1: u8, b2: u8, b3: u8)
    ensures
        b0 * 0x100_0000 + b1 * 0x1_0000 + b2 * 0x100 + b3 <= u32::MAX,
        be_bytes_u32((b0 * 0x100_0000 + b1 * 0x1_0000 + b2 * 0x100 + b3) as u32) == seq![
            b0,
            b1,
            b2,
            b3,
        ],
        (b0 * 0x100_0000 + b1 * 0x1_0000 + b2 * 0x100 + b3) / 0x1_0000 == b0 * 0x100 + b1,
        (b0 * 0x100_0000 + b1 * 0x1_0000 + b2 * 0x100 + b3) % 0x1_0000 == b2 * 0x100 + b3,
{
    assert(b0 as int * 0x100_0000 + b1 as int * 0x1_0000 + b2 as int * 0x100 + (b3 as int)
        <= 0xFFFF_FFFF) by (bit_vector);
    let v = (b0 * 0x100_0000 + b1 * 0x1_0000 + b2 * 0x100 + b3) as u32;
    let s0 = (v >> 24) as u8;
    let s1 = (v >> 16) as u8;
    let s2 = (v >> 8) as u8;
    let s3 = (v >> 0) as u8;
    assert(s0 == b0 && s1 == b1 && s2 == b2 && s3 == b3 && v >> 16 == b0 as int * 0x100
        + b1 as int && v & 0xFFFF == b2 as int * 0x100 + b3 as int) by (bit_vector)
        requires
            v == b0 as int * 0x100_0000 + b1 as int * 0x1_0000 + b2 as int * 0x100 + b3 as int,
            s0 == (v >> 24) as u8,
            s1 == (v >> 16) as u8,
            s2 == (v >> 8) as u8,
            s3 == (v >> 0) as u8,
    ;
    assert(s0 == (v / 0x100_0000) as u8 && s1 == (v / 0x1_0000 % 0x100) as u8 && s2 == (v / 0x100
        % 0x100) as u8 && s3 == (v % 0x100) as u8) by (bit_vector)
        requires
            s0 == (v >> 24) as u8,
            s1 == (v >> 16) as u8,
            s2 == (v >> 8) as u8,
            s3 == (v >> 0) as u8,
    ;
    assert(v >> 16 == v / 0x1_0000 && v & 0xFFFF == v % 0x1_0000) by (bit_vector);
    assert(be_bytes_u32(v) =~= seq![b0, b1, b2, b3]);
}

/// `bytes` with `data` laid over it from index `at` on. Whatever part of `data`
/// would fall outside `bytes` is cut off.
pub open spec fn placed(bytes: Seq<u8>, at: int, data: Seq<u8>) -> Seq<u8> {
    Seq::new(
        bytes.len(),
        |i: int|
            if at <= i < at + data.len() {
                data[i - at]
            } else {
                bytes[i]
            },
    )
}

/// Where the cursor stands after an attempt to pass `n` bytes one at a time
/// starting from `pos`: the attempt stops at the end of the buffer.
pub open spec fn advanced(pos: int, n: int) -> int {
    if pos + n <= BUFFER_SIZE {
        pos + n
    } else if pos <= BUFFER_SIZE {
        BUFFER_SIZE as int
    } else {
        pos
    }
}

/// Laying `first` and then `second` right behind it is laying their
/// concatenation.
pub proof fn lemma_placed_append(bytes: Seq<u8>, at: int, first: Seq<u8>, second: Seq<u8>)
    ensures
        placed(placed(bytes, at, first), at + first.len(), second) == placed(
            bytes,
            at,
            first + second,
        ),
{
    assert(placed(placed(bytes, at, first), at + first.len(), second) =~= placed(
        bytes,
        at,
        first + second,
    ));
}

/// What is laid past the end of the buffer does not show.
pub proof fn lemma_placed_cut(bytes: Seq<u8>, at: int, data: Seq<u8>, more: Seq<u8>)
    requires
        at + data.len() >= bytes.len(),
    ensures
        placed(bytes, at, data) == placed(bytes, at, data + more),
{
    assert(placed(bytes, at, data) =~= placed(bytes, at, data + more));
}

/// What a reader makes of the bytes under the cursor.
pub struct Parsed<T> {
    /// The value read, or the failure.
    pub result: Result<T, CodecError>,
    /// Where the cursor is left.
    pub cursor: int,
}

/// A fixed region of 512 bytes with a cursor.
pub struct BytePacketBuffer {
    pub buf: [u8; 512],
    pub pos: usize,
}

impl BytePacketBuffer {
    /// The cursor lies inside the buffer or just past its last byte.
    pub open spec fn wf(&self) -> bool {
        self.pos <= BUFFER_SIZE
    }

    /// A buffer of zero bytes with the cursor at the start.
    pub fn new() -> (b: BytePacketBuffer)
        ensures
            b.pos == 0,
            b.buf@ == Seq::new(512, |i: int| 0u8),
            b.wf(),
    {
        BytePacketBuffer { buf: [0; 512], pos: 0 }
    }

    /// The current cursor.
    pub fn pos(&self) -> (p: usize)
        ensures
            p == self.pos,
    {
        self.pos
    }

    /// Reads the byte under the cursor and moves the cursor past it.
    pub fn read(&mut self) -> (r: Result<u8, CodecError>)
        ensures
            final(self).buf == old(self).buf,
            match r {
                Ok(b) => old(self).pos < BUFFER_SIZE && b == old(self).buf@[old(self).pos as int]
                    && final(self).pos == old(self).pos + 1,
                Err(e) => e == CodecError::BufferBounds && old(self).pos >= BUFFER_SIZE
                    && final(self).pos == old(self).pos,
            },
            r is Ok ==> final(self).wf(),
            old(self).pos >= BUFFER_SIZE ==> r is Err && *final(self) == *old(self),
    {
        if self.pos >= BUFFER_SIZE {
            return Err(CodecError::BufferBounds);
        }
        let res = self.buf[self.pos];
        self.pos += 1;
        Ok(res)
    }

    /// Stores `byte` under the cursor and moves the cursor past it.
    pub fn write(&mut self, byte: u8) -> (r: Result<(), CodecError>)
        ensures
            match r {
                Ok(_) => old(self).pos < BUFFER_SIZE
                    && final(self).buf@ == old(self).buf@.update(old(self).pos as int, byte)
                    && final(self).pos == old(self).pos + 1,
                Err(e) => e == CodecError::BufferBounds && old(self).pos >= BUFFER_SIZE
                    && *final(self) == *old(self),
            },
            r is Ok ==> final(self).wf(),
    {
        if self.pos >= BUFFER_SIZE {
            return Err(CodecError::BufferBounds);
        }
        self.buf[self.pos] = byte;
        self.pos += 1;
        Ok(())
    }

    /// The bytes from `start` up to `start + len`, with the cursor left alone.
    pub fn get_range(&mut self, start: usize, len: usize) -> (r: Result<&[u8], CodecError>)
        ensures
            *final(self) == *old(self),
            match r {
                Ok(s) => start + len <= BUFFER_SIZE && s@ == old(self).buf@.subrange(
                    start as int,
                    start + len,
                ),
                Err(e) => e == CodecError::BufferBounds && start + len > BUFFER_SIZE,
            },
    {
        if start > BUFFER_SIZE || len > BUFFER_SIZE - start {
            return Err(CodecError::BufferBounds);
        }
        Ok(&self.buf[start..start + len])
    }

    /// Moves the cursor forward by `steps`, whether or not it stays inside the
    /// buffer.
    pub fn step(&mut self, steps: usize) -> (r: Result<(), CodecError>)
        requires
            old(self).pos + steps <= usize::MAX,
        ensures
            r is Ok,
            final(self).buf == old(self).buf,
            final(self).pos == old(self).pos + steps,
            final(self).wf() <==> old(self).pos + steps <= BUFFER_SIZE,
    {
        self.pos += steps;
        Ok(())
    }

    /// Puts the cursor at `pos`, whether or not that is inside the buffer.
    pub fn seek(&mut self, pos: usize) -> (r: Result<(), CodecError>)
        ensures
            r is Ok,
            final(self).buf == old(self).buf,
            final(self).pos == pos,
            final(self).wf() <==> pos <= BUFFER_SIZE,
    {
        self.pos = pos;
        Ok(())
    }

    /// The byte at `pos`, with the cursor left alone.
    pub fn get(&mut self, pos: usize) -> (r: Result<u8, CodecError>)
        ensures
            *final(self) == *old(self),
            match r {
                Ok(b) => pos < BUFFER_SIZE && b == old(self).buf@[pos as int],
                Err(e) => e == CodecError::BufferBounds && pos >= BUFFER_SIZE,
            },
    {
        if pos >= BUFFER_SIZE {
            return Err(CodecError::BufferBounds);
        }
        Ok(self.buf[pos])
    }

    /// Reads two bytes as a big-endian number and moves the cursor past them.
    /// When fewer than two bytes are left the cursor stops at the end of the
    /// buffer.
    pub fn read_u16(&mut self) -> (r: Result<u16, CodecError>)
        ensures
            final(self).buf == old(self).buf,
            final(self).pos == advanced(old(self).pos as int, 2),
            match r {
                Ok(v) => old(self).pos + 2 <= BUFFER_SIZE && v == u16_at(
                    old(self).buf@,
                    old(self).pos as int,
                ),
                Err(e) => e == CodecError::BufferBounds && old(self).pos + 2 > BUFFER_SIZE,
            },
            r is Ok ==> final(self).wf(),
            old(self).pos >= BUFFER_SIZE ==> r is Err && *final(self) == *old(self),
    {
        let hi = self.read()?;
        let lo = self.read()?;
        let res = (hi as u16) << 8 | (lo as u16);
        assert(res == hi as int * 0x100 + lo as int) by (bit_vector)
            requires
                res == (hi as u16) << 8 | (lo as u16),
        ;
        Ok(res)
    }

    /// Reads four bytes as a big-endian number and moves the cursor past them.
    /// When fewer than four bytes are left the cursor stops at the end of the
    /// buffer.
    pub fn read_u32(&mut self) -> (r: Result<u32, CodecError>)
        ensures
            final(self).buf == old(self).buf,
            final(self).pos == advanced(old(self).pos as int, 4),
            match r {
                Ok(v) => old(self).pos + 4 <= BUFFER_SIZE && v == u32_at(
                    old(self).buf@,
                    old(self).pos as int,
                ),
                Err(e) => e == CodecError::BufferBounds && old(self).pos + 4 > BUFFER_SIZE,
            },
            r is Ok ==> final(self).wf(),
            old(self).pos >= BUFFER_SIZE ==> r is Err && *final(self) == *old(self),
    {
        let b0 = self.read()?;
        let b1 = self.read()?;
        let b2 = self.read()?;
        let b3 = self.read()?;
        let res = (b0 as u32) << 24 | (b1 as u32) << 16 | (b2 as u32) << 8 | (b3 as u32);
        assert(res == b0 as int * 0x100_0000 + b1 as int * 0x1_0000 + b2 as int * 0x100
            + b3 as int) by (bit_vector)
            requires
                res == (b0 as u32) << 24 | (b1 as u32) << 16 | (b2 as u32) << 8 | (b3 as u32),
        ;
        Ok(res)
    }

    /// Writes one byte under the cursor and moves the cursor past it.
    pub fn write_u8(&mut self, byte: u8) -> (r: Result<(), CodecError>)
        ensures
            match r {
                Ok(_) => old(self).pos < BUFFER_SIZE
                    && final(self).buf@ == old(self).buf@.update(old(self).pos as int, byte)
                    && final(self).pos == old(self).pos + 1,
                Err(e) => e == CodecError::BufferBounds && old(self).pos >= BUFFER_SIZE
                    && *final(self) == *old(self),
            },
            r is Ok ==> final(self).wf(),
    {
        self.write(byte)?;
        Ok(())
    }

    /// Writes `value` as two bytes, most significant first. Bytes that do not
    /// fit are not written, and the call fails.
    pub fn write_u16(&mut self, value: u16) -> (r: Result<(), CodecError>)
        ensures
            final(self).buf@ == placed(old(self).buf@, old(self).pos as int, be_bytes_u16(value)),
            final(self).pos == advanced(old(self).pos as int, 2),
            r is Ok <==> old(self).pos + 2 <= BUFFER_SIZE,
            r matches Err(e) ==> e == CodecError::BufferBounds,
            r is Ok ==> final(self).wf(),
    {
        let hi = #[verifier::truncate] ((value >> 8) as u8);
        let lo = #[verifier::truncate] ((value & 0xff) as u8);
        assert(hi == (value / 0x100) as u8 && lo == (value % 0x100) as u8) by (bit_vector)
            requires
                hi == (value >> 8) as u8,
                lo == (value & 0xff) as u8,
        ;
        self.write(hi)?;
        self.write(lo)?;
        Ok(())
    }

    /// Writes `value` as four bytes, most significant first. Bytes that do not
    /// fit are not written, and the call fails.
    pub fn write_u32(&mut self, value: u32) -> (r: Result<(), CodecError>)
        ensures
            final(self).buf@ == placed(old(self).buf@, old(self).pos as int, be_bytes_u32(value)),
            final(self).pos == advanced(old(self).pos as int, 4),
            r is Ok <==> old(self).pos + 4 <= BUFFER_SIZE,
            r matches Err(e) ==> e == CodecError::BufferBounds,
            r is Ok ==> final(self).wf(),
    {
        let b0 = #[verifier::truncate] ((value >> 24) as u8);
        let b1 = #[verifier::truncate] ((value >> 16) as u8);
        let b2 = #[verifier::truncate] ((value >> 8) as u8);
        let b3 = #[verifier::truncate] ((value >> 0) as u8);
        assert(b0 == (value / 0x100_0000) as u8 && b1 == (value / 0x1_0000 % 0x100) as u8 && b2 == (
        value / 0x100 % 0x100) as u8 && b3 == (value % 0x100) as u8) by (bit_vector)
            requires
                b0 == (value >> 24) as u8,
                b1 == (value >> 16) as u8,
                b2 == (value >> 8) as u8,
                b3 == (value >> 0) as u8,
        ;
        self.write(b0)?;
        self.write(b1)?;
        self.write(b2)?;
        self.write(b3)?;
        Ok(())
    }

    /// Stores `val` at `pos`, with the cursor left alone.
    pub fn set(&mut self, pos: usize, val: u8) -> (r: Result<(), CodecError>)
        ensures
            final(self).pos == old(self).pos,
            match r {
                Ok(_) => pos < BUFFER_SIZE && final(self).buf@ == old(self).buf@.update(
                    pos as int,
                    val,
                ),
                Err(e) => e == CodecError::BufferBounds && pos >= BUFFER_SIZE && final(self).buf
                    == old(self).buf,
            },
    {
        if pos >= BUFFER_SIZE {
            return Err(CodecError::BufferBounds);
        }
        self.buf[pos] = val;
        Ok(())
    }

    /// Stores `val` at `pos` as two bytes, most significant first, with the
    /// cursor left alone. A byte that does not fit is not stored, and the call
    /// fails.
    pub fn set_u16(&mut self, pos: usize, val: u16) -> (r: Result<(), CodecError>)
        ensures
            final(self).pos == old(self).pos,
            final(self).buf@ == placed(old(self).buf@, pos as int, be_bytes_u16(val)),
            r is Ok <==> pos + 2 <= BUFFER_SIZE,
            r matches Err(e) ==> e == CodecError::BufferBounds,
    {
        let hi = #[verifier::truncate] ((val >> 8) as u8);
        let lo = #[verifier::truncate] ((val & 0xFF) as u8);
        assert(hi == (val / 0x100) as u8 && lo == (val % 0x100) as u8) by (bit_vector)
            requires
                hi == (val >> 8) as u8,
                lo == (val & 0xFF) as u8,
        ;
        self.set(pos, hi)?;
        self.set(pos + 1, lo)?;
        Ok(())
    }

    /// With `done` written from `at` on and the cursor behind it, writing
    /// `chunk` next gives `done + chunk` from `at` on; and where `chunk` does
    /// not fit, nothing of what follows it would show either.
    pub proof fn lemma_next_chunk(
        &self,
        bytes: Seq<u8>,
        at: int,
        done: Seq<u8>,
        chunk: Seq<u8>,
        more: Seq<u8>,
    )
        requires
            at >= 0,
            self.buf@ == placed(bytes, at, done),
            self.pos == at + done.len(),
        ensures
            placed(self.buf@, self.pos as int, chunk) == placed(bytes, at, done + chunk),
            chunk.len() == 1 && self.pos < BUFFER_SIZE ==> self.buf@.update(
                self.pos as int,
                chunk[0],
            ) == placed(bytes, at, done + chunk),
            self.pos + chunk.len() > BUFFER_SIZE ==> placed(bytes, at, done + chunk) == placed(
                bytes,
                at,
                done + chunk + more,
            ),
            self.pos >= BUFFER_SIZE ==> placed(bytes, at, done) == placed(
                bytes,
                at,
                done + chunk + more,
            ),
    {
        lemma_placed_append(bytes, at, done, chunk);
        assert(bytes.len() == BUFFER_SIZE);
        if chunk.len() == 1 && self.pos < BUFFER_SIZE {
            assert(self.buf@.update(self.pos as int, chunk[0]) =~= placed(
                self.buf@,
                self.pos as int,
                chunk,
            ));
        }
        if self.pos + chunk.len() > BUFFER_SIZE {
            lemma_placed_cut(bytes, at, done + chunk, more);
        }
        if self.pos >= BUFFER_SIZE {
            lemma_placed_cut(bytes, at, done, chunk + more);
            assert(done + (chunk + more) =~= done + chunk + more);
        }
    }
}

} // verus!
