use vstd::prelude::*;
use crate::buffer::{
    advanced, be_bytes_u16, lemma_u16_bytes_back, lemma_u16_read_written, placed, u16_at,
    BytePacketBuffer, BUFFER_SIZE,
};
use crate::emission::be_words;
use crate::error::CodecError;

verus! {

/// The response code of a message.
#[allow(non_camel_case_types)]
#[derive(Clone, Copy, Debug, PartialEq, Eq, Structural)]
pub enum ResultCode {
    NOERROR,
    FORMERR,
    SERVFAIL,
    NXDOMAIN,
    NOTIMP,
    REFUSED,
}

impl ResultCode {
    /// The number that stands for this code on the wire.
    pub open spec fn num(self) -> u8 {
        match self {
            ResultCode::NOERROR => 0,
            ResultCode::FORMERR => 1,
            ResultCode::SERVFAIL => 2,
            ResultCode::NXDOMAIN => 3,
            ResultCode::NOTIMP => 4,
            ResultCode::REFUSED => 5,
        }
    }

    /// The code that `num` stands for. Numbers without a code of their own
    /// read as `NOERROR`.
    pub open spec fn of_num(num: u8) -> ResultCode {
        if num == 1 {
            ResultCode::FORMERR
        } else if num == 2 {
            ResultCode::SERVFAIL
        } else if num == 3 {
            ResultCode::NXDOMAIN
        } else if num == 4 {
            ResultCode::NOTIMP
        } else if num == 5 {
            ResultCode::REFUSED
        } else {
            ResultCode::NOERROR
        }
    }

    /// The number that stands for this code on the wire.
    pub fn to_num(&self) -> (num: u8)
        ensures
            num == self.num(),
            num <= 5,
    {
        match *self {
            ResultCode::NOERROR => 0,
            ResultCode::FORMERR => 1,
            ResultCode::SERVFAIL => 2,
            ResultCode::NXDOMAIN => 3,
            ResultCode::NOTIMP => 4,
            ResultCode::REFUSED => 5,
        }
    }

    /// The code that `num` stands for. Numbers without a code of their own
    /// read as `NOERROR`.
    pub fn from_num(num: u8) -> (code: ResultCode)
        ensures
            code == ResultCode::of_num(num),
            num <= 5 ==> code.num() == num,
            num > 5 ==> code == ResultCode::NOERROR,
    {
        match num {
            1 => ResultCode::FORMERR,
            2 => ResultCode::SERVFAIL,
            3 => ResultCode::NXDOMAIN,
            4 => ResultCode::NOTIMP,
            5 => ResultCode::REFUSED,
            _ => ResultCode::NOERROR,
        }
    }

    /// A code comes back from its own number.
    pub proof fn lemma_of_num_num(self)
        ensures
            ResultCode::of_num(self.num()) == self,
    {
    }
}

/// The fixed 12-byte head of every message.
#[derive(Clone, Copy, Debug, PartialEq, Eq, Structural)]
pub struct DnsHeader {
    pub id: u16,
    pub recursion_desired: bool,
    pub truncated_message: bool,
    pub authoritative_answer: bool,
    pub opcode: u8,
    pub response: bool,
    pub rescode: ResultCode,
    pub checking_disabled: bool,
    pub authed_data: bool,
    pub z: bool,
    pub recursion_available: bool,
    pub questions: u16,
    pub answers: u16,
    pub authoritative_entries: u16,
    pub resource_entries: u16,
}

/// A flag as a number: 1 when set, 0 when clear.
pub open spec fn bit(flag: bool) -> int {
    if flag {
        1
    } else {
        0
    }
}

/// The header made of an identifier, the two flags bytes and the four
/// counts. The first flags byte holds, from the lowest bit up, recursion
/// desired, truncated, authoritative, four bits of opcode, response; the
/// second holds four bits of response code, checking disabled, authenticated
/// data, the reserved bit, recursion available.
pub open spec fn header_of(
    id: u16,
    a: u8,
    b: u8,
    questions: u16,
    answers: u16,
    authoritative_entries: u16,
    resource_entries: u16,
) -> DnsHeader {
    DnsHeader {
        id,
        recursion_desired: a % 2 == 1,
        truncated_message: a / 2 % 2 == 1,
        authoritative_answer: a / 4 % 2 == 1,
        opcode: (a / 8 % 16) as u8,
        response: a / 128 == 1,
        rescode: ResultCode::of_num((b % 16) as u8),
        checking_disabled: b / 16 % 2 == 1,
        authed_data: b / 32 % 2 == 1,
        z: b / 64 % 2 == 1,
        recursion_available: b / 128 == 1,
        questions,
        answers,
        authoritative_entries,
        resource_entries,
    }
}

/// The header whose wire form stands at `at` in `bytes`.
pub open spec fn header_at(bytes: Seq<u8>, at: int) -> DnsHeader {
    header_of(
        u16_at(bytes, at),
        bytes[at + 2],
        bytes[at + 3],
        u16_at(bytes, at + 4),
        u16_at(bytes, at + 6),
        u16_at(bytes, at + 8),
        u16_at(bytes, at + 10),
    )
}

/// A flag as a bit.
fn flag_bit(flag: bool) -> (b: u8)
    ensures
        b == bit(flag),
{
    if flag {
        1
    } else {
        0
    }
}

impl DnsHeader {
    /// The opcode fits the four bits that the wire form has for it.
    pub open spec fn wf(self) -> bool {
        self.opcode < 16
    }

    /// The first flags byte: from the lowest bit up, recursion desired,
    /// truncated, authoritative, four bits of opcode, response.
    pub open spec fn flags_a(self) -> u8 {
        (bit(self.recursion_desired) + 2 * bit(self.truncated_message) + 4 * bit(
            self.authoritative_answer,
        ) + 8 * (self.opcode % 16) + 128 * bit(self.response)) as u8
    }

    /// The second flags byte: from the lowest bit up, four bits of response
    /// code, checking disabled, authenticated data, the reserved bit,
    /// recursion available.
    pub open spec fn flags_b(self) -> u8 {
        (self.rescode.num() + 16 * bit(self.checking_disabled) + 32 * bit(self.authed_data) + 64
            * bit(self.z) + 128 * bit(self.recursion_available)) as u8
    }

    /// The 12 bytes of the header on the wire.
    pub open spec fn wire(self) -> Seq<u8> {
        be_bytes_u16(self.id) + seq![self.flags_a(), self.flags_b()] + be_bytes_u16(self.questions)
            + be_bytes_u16(self.answers) + be_bytes_u16(self.authoritative_entries) + be_bytes_u16(
            self.resource_entries,
        )
    }

    /// The header with every field zero or clear.
    pub open spec fn zero() -> DnsHeader {
        DnsHeader {
            id: 0,
            recursion_desired: false,
            truncated_message: false,
            authoritative_answer: false,
            opcode: 0,
            response: false,
            rescode: ResultCode::NOERROR,
            checking_disabled: false,
            authed_data: false,
            z: false,
            recursion_available: false,
            questions: 0,
            answers: 0,
            authoritative_entries: 0,
            resource_entries: 0,
        }
    }

    /// A header with every field zero or clear.
    pub fn new() -> (h: DnsHeader)
        ensures
            h == DnsHeader::zero(),
            h.wf(),
    {
        DnsHeader {
            id: 0,
            recursion_desired: false,
            truncated_message: false,
            authoritative_answer: false,
            opcode: 0,
            response: false,
            rescode: ResultCode::NOERROR,
            checking_disabled: false,
            authed_data: false,
            z: false,
            recursion_available: false,
            questions: 0,
            answers: 0,
            authoritative_entries: 0,
            resource_entries: 0,
        }
    }

    /// Reads the 12 bytes under the cursor into this header. When fewer than
    /// 12 bytes are left, the header stays as it was and the cursor stops at
    /// the end of the buffer.
    pub fn read(&mut self, buffer: &mut BytePacketBuffer) -> (r: Result<(), CodecError>)
        ensures
            final(buffer).buf == old(buffer).buf,
            final(buffer).pos == advanced(old(buffer).pos as int, 12),
            match r {
                Ok(_) => old(buffer).pos + 12 <= BUFFER_SIZE && *final(self) == header_at(
                    old(buffer).buf@,
                    old(buffer).pos as int,
                ),
                Err(e) => e == CodecError::BufferBounds && old(buffer).pos + 12 > BUFFER_SIZE
                    && *final(self) == *old(self),
            },
            r is Ok ==> final(self).wf() && final(buffer).wf(),
    {
        let ghost bytes = buffer.buf@;
        let ghost at = buffer.pos as int;
        let id = buffer.read_u16()?;
        let flags = buffer.read_u16()?;
        let questions = buffer.read_u16()?;
        let answers = buffer.read_u16()?;
        let authoritative_entries = buffer.read_u16()?;
        let resource_entries = buffer.read_u16()?;

        let a = #[verifier::truncate] ((flags >> 8) as u8);
        let b = #[verifier::truncate] ((flags & 0xFF) as u8);
        proof {
            lemma_u16_bytes_back(bytes[at + 2], bytes[at + 3]);
            assert(a == (flags / 0x100) as u8 && b == (flags % 0x100) as u8) by (bit_vector)
                requires
                    a == (flags >> 8) as u8,
                    b == (flags & 0xFF) as u8,
            ;
            assert(be_bytes_u16(flags) == seq![bytes[at + 2], bytes[at + 3]]);
            assert(a == be_bytes_u16(flags)[0] && b == be_bytes_u16(flags)[1]);
        }
        *self = DnsHeader::unpack(
            id,
            a,
            b,
            questions,
            answers,
            authoritative_entries,
            resource_entries,
        );
        Ok(())
    }

    /// Makes a header of an identifier, the two flags bytes and the four
    /// counts.
    fn unpack(
        id: u16,
        a: u8,
        b: u8,
        questions: u16,
        answers: u16,
        authoritative_entries: u16,
        resource_entries: u16,
    ) -> (h: DnsHeader)
        ensures
            h == header_of(id, a, b, questions, answers, authoritative_entries, resource_entries),
            h.wf(),
    {
        let opcode = (a >> 3) & 0x0F;
        let rescode_num = b & 0x0F;
        assert(opcode == a / 8 % 16 && rescode_num == b % 16 && ((a & 0x01u8) > 0 <==> a % 2 == 1)
            && ((a & 0x02u8) > 0 <==> a / 2 % 2 == 1) && ((a & 0x04u8) > 0 <==> a / 4 % 2 == 1)
            && ((a & 0x80u8) > 0 <==> a / 128 == 1) && ((b & 0x10u8) > 0 <==> b / 16 % 2 == 1)
            && ((b & 0x20u8) > 0 <==> b / 32 % 2 == 1) && ((b & 0x40u8) > 0 <==> b / 64 % 2
            == 1) && ((b & 0x80u8) > 0 <==> b / 128 == 1)) by (bit_vector)
            requires
                opcode == (a >> 3) & 0x0F,
                rescode_num == b & 0x0F,
        ;
        DnsHeader {
            id,
            recursion_desired: (a & 0x01u8) > 0,
            truncated_message: (a & 0x02u8) > 0,
            authoritative_answer: (a & 0x04u8) > 0,
            opcode,
            response: (a & 0x80u8) > 0,
            rescode: ResultCode::from_num(rescode_num),
            checking_disabled: (b & 0x10u8) > 0,
            authed_data: (b & 0x20u8) > 0,
            z: (b & 0x40u8) > 0,
            recursion_available: (b & 0x80u8) > 0,
            questions,
            answers,
            authoritative_entries,
            resource_entries,
        }
    }

    /// Packs the first flags byte.
    fn first_flags(&self) -> (a: u8)
        ensures
            a == self.flags_a(),
    {
        let rd = flag_bit(self.recursion_desired);
        let tc = flag_bit(self.truncated_message);
        let aa = flag_bit(self.authoritative_answer);
        let qr = flag_bit(self.response);
        let opcode = self.opcode;
        let op = opcode & 0x0F;
        let a = rd | (tc << 1) | (aa << 2) | (op << 3) | (qr << 7);
        assert(a == rd + 2 * tc + 4 * aa + 8 * (opcode % 16) + 128 * qr) by (bit_vector)
            requires
                rd <= 1,
                tc <= 1,
                aa <= 1,
                qr <= 1,
                op == opcode & 0x0F,
                a == rd | (tc << 1) | (aa << 2) | (op << 3) | (qr << 7),
        ;
        a
    }

    /// Packs the second flags byte.
    fn second_flags(&self) -> (b: u8)
        ensures
            b == self.flags_b(),
    {
        let rc = self.rescode.to_num();
        let cd = flag_bit(self.checking_disabled);
        let ad = flag_bit(self.authed_data);
        let z = flag_bit(self.z);
        let ra = flag_bit(self.recursion_available);
        let b = rc | (cd << 4) | (ad << 5) | (z << 6) | (ra << 7);
        assert(b == rc + 16 * cd + 32 * ad + 64 * z + 128 * ra) by (bit_vector)
            requires
                rc <= 5,
                cd <= 1,
                ad <= 1,
                z <= 1,
                ra <= 1,
                b == rc | (cd << 4) | (ad << 5) | (z << 6) | (ra << 7),
        ;
        b
    }

    /// The header as the six 16-bit words that it is on the wire.
    pub open spec fn words(self) -> Seq<u16> {
        seq![
            self.id,
            (self.flags_a() * 0x100 + self.flags_b()) as u16,
            self.questions,
            self.answers,
            self.authoritative_entries,
            self.resource_entries,
        ]
    }

    /// The bytes of the header are the bytes of its six words.
    pub proof fn lemma_wire_words(self)
        ensures
            be_words(self.words()) == self.wire(),
            self.wire().len() == 12,
    {
        let w = self.words();
        lemma_u16_bytes_back(self.flags_a(), self.flags_b());
        assert(be_bytes_u16(w[1]) == seq![self.flags_a(), self.flags_b()]);
        assert(be_words(w) =~= self.wire());
    }

    /// Writes the 12 bytes of this header from the cursor on. Bytes that do
    /// not fit are not written, and the call fails. Of the opcode the low four
    /// bits are written.
    pub fn write(&self, buffer: &mut BytePacketBuffer) -> (r: Result<(), CodecError>)
        ensures
            final(buffer).buf@ == placed(old(buffer).buf@, old(buffer).pos as int, self.wire()),
            final(buffer).pos == advanced(old(buffer).pos as int, 12),
            r is Ok <==> old(buffer).pos + 12 <= BUFFER_SIZE,
            r matches Err(e) ==> e == CodecError::BufferBounds,
            r is Ok ==> final(buffer).wf(),
    {
        let a = self.first_flags();
        let b = self.second_flags();
        let flags = (a as u16) << 8 | (b as u16);
        assert(flags == a as int * 0x100 + b as int) by (bit_vector)
            requires
                flags == (a as u16) << 8 | (b as u16),
        ;
        let words = [
            self.id,
            flags,
            self.questions,
            self.answers,
            self.authoritative_entries,
            self.resource_entries,
        ];
        proof {
            assert(words@ =~= self.words());
            self.lemma_wire_words();
        }
        buffer.write_words(words.as_slice())
    }

    /// The first flags byte gives back the fields it was made of.
    pub proof fn lemma_flags_a(self)
        requires
            self.wf(),
        ensures
            (self.flags_a() % 2 == 1) == self.recursion_desired,
            (self.flags_a() / 2 % 2 == 1) == self.truncated_message,
            (self.flags_a() / 4 % 2 == 1) == self.authoritative_answer,
            self.flags_a() / 8 % 16 == self.opcode,
            (self.flags_a() / 128 == 1) == self.response,
    {
        let rd = bit(self.recursion_desired) as u8;
        let tc = bit(self.truncated_message) as u8;
        let aa = bit(self.authoritative_answer) as u8;
        let op = self.opcode;
        let qr = bit(self.response) as u8;
        let a = self.flags_a();
        assert(rd + 2 * tc + 4 * aa + 8 * op + 128 * qr <= 255 && (a == rd + 2 * tc + 4 * aa + 8
            * op + 128 * qr ==> a % 2 == rd && a / 2 % 2 == tc && a / 4 % 2 == aa && a / 8 % 16
            == op && a / 128 == qr)) by (bit_vector)
            requires
                rd <= 1,
                tc <= 1,
                aa <= 1,
                op < 16,
                qr <= 1,
        ;
    }

    /// The second flags byte gives back the fields it was made of.
    pub proof fn lemma_flags_b(self)
        ensures
            ResultCode::of_num((self.flags_b() % 16) as u8) == self.rescode,
            (self.flags_b() / 16 % 2 == 1) == self.checking_disabled,
            (self.flags_b() / 32 % 2 == 1) == self.authed_data,
            (self.flags_b() / 64 % 2 == 1) == self.z,
            (self.flags_b() / 128 == 1) == self.recursion_available,
    {
        let rc = self.rescode.num();
        let cd = bit(self.checking_disabled) as u8;
        let ad = bit(self.authed_data) as u8;
        let z = bit(self.z) as u8;
        let ra = bit(self.recursion_available) as u8;
        let b = self.flags_b();
        assert(rc + 16 * cd + 32 * ad + 64 * z + 128 * ra <= 255 && (b == rc + 16 * cd + 32 * ad
            + 64 * z + 128 * ra ==> b % 16 == rc && b / 16 % 2 == cd && b / 32 % 2 == ad && b / 64
            % 2 == z && b / 128 == ra)) by (bit_vector)
            requires
                rc <= 5,
                cd <= 1,
                ad <= 1,
                z <= 1,
                ra <= 1,
        ;
        self.rescode.lemma_of_num_num();
    }

    /// A header that has been written is read back as it was.
    pub proof fn lemma_read_written(self, bytes: Seq<u8>, at: int)
        requires
            self.wf(),
            bytes.len() == BUFFER_SIZE,
            0 <= at,
            at + 12 <= BUFFER_SIZE,
        ensures
            header_at(placed(bytes, at, self.wire()), at) == self,
    {
        let w = self.wire();
        let out = placed(bytes, at, w);
        let back = header_at(out, at);
        assert(w.len() == 12);
        assert(out[at + 2] == self.flags_a() && out[at + 3] == self.flags_b());
        self.lemma_flags_a();
        self.lemma_flags_b();
        assert(back.id == self.id) by {
            lemma_u16_read_written(self.id);
            assert(out[at] == w[0] && out[at + 1] == w[1]);
        }
        assert(back.questions == self.questions) by {
            lemma_u16_read_written(self.questions);
            assert(out[at + 4] == w[4] && out[at + 5] == w[5]);
        }
        assert(back.answers == self.answers) by {
            lemma_u16_read_written(self.answers);
            assert(out[at + 6] == w[6] && out[at + 7] == w[7]);
        }
        assert(back.authoritative_entries == self.authoritative_entries) by {
            lemma_u16_read_written(self.authoritative_entries);
            assert(out[at + 8] == w[8] && out[at + 9] == w[9]);
        }
        assert(back.resource_entries == self.resource_entries) by {
            lemma_u16_read_written(self.resource_entries);
            assert(out[at + 10] == w[10] && out[at + 11] == w[11]);
        }
    }
}

} // verus!
