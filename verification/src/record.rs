use vstd::prelude::*;
use vstd::utf8::encode_utf8;
use crate::buffer::{
    advanced, be_bytes_u16, be_bytes_u32, lemma_u16_bytes_back, lemma_u32_bytes_back, placed,
    u16_at, u32_at, BytePacketBuffer, Parsed, BUFFER_SIZE,
};
use crate::emission::{
    be_words, emission_result, lemma_emit_done, lemma_emit_step, lemma_followed_by_assoc,
    lemma_of_concat, Emission,
};
use crate::error::CodecError;
use crate::name::{lemma_name_walk_cursor, name_encoding, name_walk};
use crate::query_type::QueryType;
use crate::question::CLASS_IN;

verus! {

/// An IPv4 address as its four octets, first octet first.
#[derive(Clone, Copy, Debug, PartialEq, Eq, Hash)]
pub struct Ipv4Address {
    pub octets: [u8; 4],
}

/// An IPv6 address as its eight 16-bit segments, first segment first.
#[derive(Clone, Copy, Debug, PartialEq, Eq, Hash)]
pub struct Ipv6Address {
    pub segments: [u16; 8],
}

impl Ipv4Address {
    /// The address `a.b.c.d`.
    pub fn new(a: u8, b: u8, c: u8, d: u8) -> (addr: Ipv4Address)
        ensures
            addr.octets@ == seq![a, b, c, d],
    {
        Ipv4Address { octets: [a, b, c, d] }
    }
}

impl Ipv6Address {
    /// The address with the given segments.
    pub fn new(segments: [u16; 8]) -> (addr: Ipv6Address)
        ensures
            addr.segments == segments,
    {
        Ipv6Address { segments }
    }
}

/// A resource record.
#[allow(non_camel_case_types)]
#[allow(inconsistent_fields)]
#[derive(Clone, Debug, PartialEq, Eq)]
pub enum DnsRecord {
    /// A record of a type that the codec does not know. Its data is passed
    /// over on reading; only its length is kept.
    UNKNOWN { domain: String, qtype: u16, data_len: u16, ttl: u32 },
    A { domain: String, addr: Ipv4Address, ttl: u32 },
    NS { domain: String, host: String, ttl: u32 },
    CNAME { domain: String, host: String, ttl: u32 },
    MX { domain: String, priority: u16, host: String, ttl: u32 },
    AAAA { domain: String, addr: Ipv6Address, ttl: u32 },
}

/// A resource record as a plain value.
#[allow(non_camel_case_types)]
#[allow(inconsistent_fields)]
pub enum RecordView {
    UNKNOWN { domain: Seq<char>, qtype: u16, data_len: u16, ttl: u32 },
    A { domain: Seq<char>, addr: Seq<u8>, ttl: u32 },
    NS { domain: Seq<char>, host: Seq<char>, ttl: u32 },
    CNAME { domain: Seq<char>, host: Seq<char>, ttl: u32 },
    MX { domain: Seq<char>, priority: u16, host: Seq<char>, ttl: u32 },
    AAAA { domain: Seq<char>, addr: Seq<u16>, ttl: u32 },
}

impl View for DnsRecord {
    type V = RecordView;

    open spec fn view(&self) -> RecordView {
        match *self {
            DnsRecord::UNKNOWN { domain, qtype, data_len, ttl } => RecordView::UNKNOWN {
                domain: domain@,
                qtype,
                data_len,
                ttl,
            },
            DnsRecord::A { domain, addr, ttl } => RecordView::A {
                domain: domain@,
                addr: addr.octets@,
                ttl,
            },
            DnsRecord::NS { domain, host, ttl } => RecordView::NS {
                domain: domain@,
                host: host@,
                ttl,
            },
            DnsRecord::CNAME { domain, host, ttl } => RecordView::CNAME {
                domain: domain@,
                host: host@,
                ttl,
            },
            DnsRecord::MX { domain, priority, host, ttl } => RecordView::MX {
                domain: domain@,
                priority,
                host: host@,
                ttl,
            },
            DnsRecord::AAAA { domain, addr, ttl } => RecordView::AAAA {
                domain: domain@,
                addr: addr.segments@,
                ttl,
            },
        }
    }
}

impl RecordView {
    /// An address holds as many parts as its family has.
    pub open spec fn wf(self) -> bool {
        match self {
            RecordView::A { addr, .. } => addr.len() == 4,
            RecordView::AAAA { addr, .. } => addr.len() == 8,
            _ => true,
        }
    }
}

/// The segments whose big-endian forms stand one behind the other from `at`
/// on in `bytes`.
pub open spec fn segments_at(bytes: Seq<u8>, at: int) -> Seq<u16> {
    Seq::new(8, |i: int| u16_at(bytes, at + 2 * i))
}

/// The name that ends a record's data, decoded from `at` on, as the host of
/// a record made by `make`.
pub open spec fn host_at(
    bytes: Seq<u8>,
    at: int,
    make: spec_fn(Seq<char>) -> RecordView,
) -> Parsed<RecordView> {
    let walk = name_walk(bytes, at, 0, true);
    match walk.error {
        Some(e) => Parsed {
            result: Err(e),
            cursor: match walk.cursor {
                Some(c) => c,
                None => at,
            },
        },
        None => Parsed { result: Ok(make(walk.text)), cursor: walk.cursor->0 },
    }
}

/// The data of a record of type `qtype_num`, decoded from `at` on.
pub open spec fn record_data_at(
    bytes: Seq<u8>,
    at: int,
    domain: Seq<char>,
    qtype_num: u16,
    ttl: u32,
    data_len: u16,
) -> Parsed<RecordView> {
    match QueryType::of_num(qtype_num) {
        QueryType::A => if at + 4 > BUFFER_SIZE {
            Parsed { result: Err(CodecError::BufferBounds), cursor: advanced(at, 4) }
        } else {
            Parsed {
                result: Ok(RecordView::A { domain, addr: bytes.subrange(at, at + 4), ttl }),
                cursor: at + 4,
            }
        },
        QueryType::AAAA => if at + 16 > BUFFER_SIZE {
            Parsed { result: Err(CodecError::BufferBounds), cursor: advanced(at, 16) }
        } else {
            Parsed {
                result: Ok(RecordView::AAAA { domain, addr: segments_at(bytes, at), ttl }),
                cursor: at + 16,
            }
        },
        QueryType::NS => host_at(
            bytes,
            at,
            |host: Seq<char>| RecordView::NS { domain, host, ttl },
        ),
        QueryType::CNAME => host_at(
            bytes,
            at,
            |host: Seq<char>| RecordView::CNAME { domain, host, ttl },
        ),
        QueryType::MX => if at + 2 > BUFFER_SIZE {
            Parsed { result: Err(CodecError::BufferBounds), cursor: advanced(at, 2) }
        } else {
            host_at(
                bytes,
                at + 2,
                |host: Seq<char>|
                    RecordView::MX { domain, priority: u16_at(bytes, at), host, ttl },
            )
        },
        QueryType::UNKNOWN(_) => Parsed {
            result: Ok(RecordView::UNKNOWN { domain, qtype: qtype_num, data_len, ttl }),
            cursor: at + data_len,
        },
    }
}

/// The record whose wire form starts at `at` in `bytes`: a name, two bytes of
/// type, two bytes of class, which are passed over, four bytes of time to
/// live, two bytes of data length, and the data, whose form goes by the type.
/// The data of a type that the codec does not know is passed over by its
/// length.
pub open spec fn record_at(bytes: Seq<u8>, at: int) -> Parsed<RecordView> {
    let walk = name_walk(bytes, at, 0, true);
    match walk.error {
        Some(e) => Parsed {
            result: Err(e),
            cursor: match walk.cursor {
                Some(c) => c,
                None => at,
            },
        },
        None => {
            let c = walk.cursor->0;
            if c + 10 > BUFFER_SIZE {
                Parsed { result: Err(CodecError::BufferBounds), cursor: advanced(c, 10) }
            } else {
                record_data_at(
                    bytes,
                    c + 10,
                    walk.text,
                    u16_at(bytes, c),
                    u32_at(bytes, c + 4),
                    u16_at(bytes, c + 8),
                )
            }
        },
    }
}

/// What every record of a known type starts with on the wire: its name, its
/// type, the class IN, and its time to live.
#[verifier::opaque]
pub open spec fn record_head(domain: Seq<char>, qtype_num: u16, ttl: u32) -> Emission {
    name_encoding(encode_utf8(domain)).followed_by(
        Emission::of(be_bytes_u16(qtype_num) + be_bytes_u16(CLASS_IN) + be_bytes_u32(ttl)),
    )
}

/// What writing a record that ends in a host name lays into the buffer: the
/// head, two bytes of data length, `extra`, and the host name. The data
/// length is written as zero first and set (`patched`) once the name has been
/// written in full: to the number of bytes that follow it, as far as 16 bits
/// hold that number.
#[verifier::opaque]
pub open spec fn host_record_emission(
    domain: Seq<char>,
    qtype_num: u16,
    ttl: u32,
    extra: Seq<u8>,
    host: Seq<char>,
    patched: bool,
) -> Emission {
    let name = name_encoding(encode_utf8(host));
    let data_len = if patched {
        ((extra.len() + name.bytes.len()) % 0x1_0000) as u16
    } else {
        0
    };
    record_head(domain, qtype_num, ttl).followed_by(
        Emission::of(be_bytes_u16(data_len) + extra).followed_by(name),
    )
}

/// What writing a record that holds an address lays into the buffer: the
/// head, the length of the address in bytes, and the address.
pub open spec fn address_record_emission(
    domain: Seq<char>,
    qtype_num: u16,
    ttl: u32,
    addr: Seq<u8>,
) -> Emission {
    record_head(domain, qtype_num, ttl).followed_by(
        Emission::of(be_bytes_u16((addr.len() % 0x1_0000) as u16) + addr),
    )
}

/// What writing a record lays into the buffer. A record of unknown type has
/// no wire form: nothing is written for it.
#[verifier::opaque]
pub open spec fn record_emission(r: RecordView, patched: bool) -> Emission {
    match r {
        RecordView::UNKNOWN { .. } => Emission::of(Seq::empty()),
        RecordView::A { domain, addr, ttl } => address_record_emission(domain, 1, ttl, addr),
        RecordView::AAAA { domain, addr, ttl } => address_record_emission(
            domain,
            28,
            ttl,
            be_words(addr),
        ),
        RecordView::NS { domain, host, ttl } => host_record_emission(
            domain,
            2,
            ttl,
            Seq::empty(),
            host,
            patched,
        ),
        RecordView::CNAME { domain, host, ttl } => host_record_emission(
            domain,
            5,
            ttl,
            Seq::empty(),
            host,
            patched,
        ),
        RecordView::MX { domain, priority, host, ttl } => host_record_emission(
            domain,
            15,
            ttl,
            be_bytes_u16(priority),
            host,
            patched,
        ),
    }
}

/// Laying `new` over the place of `old` in what has been laid gives what
/// would have been laid with `new` in that place from the start.
pub proof fn lemma_data_length_set(
    bytes: Seq<u8>,
    at: int,
    head: Seq<u8>,
    old: Seq<u8>,
    new: Seq<u8>,
    tail: Seq<u8>,
)
    requires
        old.len() == new.len(),
    ensures
        placed(placed(bytes, at, head + old + tail), at + head.len(), new) == placed(
            bytes,
            at,
            head + new + tail,
        ),
{
    assert(placed(placed(bytes, at, head + old + tail), at + head.len(), new) =~= placed(
        bytes,
        at,
        head + new + tail,
    ));
}

/// The four bytes at `at` are the bytes of the number read from them.
pub proof fn lemma_u32_at_bytes(bytes: Seq<u8>, at: int)
    requires
        0 <= at,
        at + 4 <= bytes.len(),
    ensures
        be_bytes_u32(u32_at(bytes, at)) == bytes.subrange(at, at + 4),
{
    lemma_u32_bytes_back(bytes[at], bytes[at + 1], bytes[at + 2], bytes[at + 3]);
    assert(bytes.subrange(at, at + 4) =~= seq![
        bytes[at],
        bytes[at + 1],
        bytes[at + 2],
        bytes[at + 3],
    ]);
}

/// The two halves of the number read from four bytes are the numbers read
/// from the first two and the last two of them.
pub proof fn lemma_u32_halves(bytes: Seq<u8>, at: int)
    requires
        0 <= at,
        at + 4 <= bytes.len(),
    ensures
        u32_at(bytes, at) / 0x1_0000 == u16_at(bytes, at),
        u32_at(bytes, at) % 0x1_0000 == u16_at(bytes, at + 2),
{
    lemma_u32_bytes_back(bytes[at], bytes[at + 1], bytes[at + 2], bytes[at + 3]);
    lemma_u16_bytes_back(bytes[at], bytes[at + 1]);
    lemma_u16_bytes_back(bytes[at + 2], bytes[at + 3]);
}

/// The address whose four octets are the four bytes of `raw`.
fn ipv4_of_bits(raw: u32) -> (addr: Ipv4Address)
    ensures
        addr.octets@ == be_bytes_u32(raw),
{
    let a = #[verifier::truncate] (((raw >> 24) & 0xFF) as u8);
    let b = #[verifier::truncate] (((raw >> 16) & 0xFF) as u8);
    let c = #[verifier::truncate] (((raw >> 8) & 0xFF) as u8);
    let d = #[verifier::truncate] (((raw >> 0) & 0xFF) as u8);
    assert(a == (raw / 0x100_0000) as u8 && b == (raw / 0x1_0000 % 0x100) as u8 && c == (raw / 0x100
        % 0x100) as u8 && d == (raw % 0x100) as u8) by (bit_vector)
        requires
            a == ((raw >> 24) & 0xFF) as u8,
            b == ((raw >> 16) & 0xFF) as u8,
            c == ((raw >> 8) & 0xFF) as u8,
            d == ((raw >> 0) & 0xFF) as u8,
    ;
    let addr = Ipv4Address::new(a, b, c, d);
    assert(addr.octets@ =~= be_bytes_u32(raw));
    addr
}

/// The upper 16 bits of `raw`.
fn high_half(raw: u32) -> (h: u16)
    ensures
        h == raw / 0x1_0000,
{
    let h = #[verifier::truncate] (((raw >> 16) & 0xFFFF) as u16);
    assert(h == raw / 0x1_0000) by (bit_vector)
        requires
            h == ((raw >> 16) & 0xFFFF) as u16,
    ;
    h
}

/// The lower 16 bits of `raw`.
fn low_half(raw: u32) -> (l: u16)
    ensures
        l == raw % 0x1_0000,
{
    let l = #[verifier::truncate] (((raw >> 0) & 0xFFFF) as u16);
    assert(l == raw % 0x1_0000) by (bit_vector)
        requires
            l == ((raw >> 0) & 0xFFFF) as u16,
    ;
    l
}

/// Reads the host name that ends a record's data.
fn read_host(buffer: &mut BytePacketBuffer) -> (r: Result<String, CodecError>)
    ensures
        final(buffer).buf == old(buffer).buf,
        ({
            let walk = name_walk(old(buffer).buf@, old(buffer).pos as int, 0, true);
            &&& final(buffer).pos == match walk.cursor {
                Some(c) => c,
                None => old(buffer).pos as int,
            }
            &&& match r {
                Ok(host) => walk.error is None && host@ == walk.text,
                Err(e) => walk.error == Some(e),
            }
        }),
{
    let mut host = String::new();
    buffer.read_qname(&mut host)?;
    proof {
        let walk = name_walk(old(buffer).buf@, old(buffer).pos as int, 0, true);
        assert(Seq::<char>::empty() + walk.text =~= walk.text);
    }
    Ok(host)
}

impl DnsRecord {
    /// Reads a record from under the cursor.
    pub fn read(buffer: &mut BytePacketBuffer) -> (r: Result<DnsRecord, CodecError>)
        ensures
            final(buffer).buf == old(buffer).buf,
            ({
                let parsed = record_at(old(buffer).buf@, old(buffer).pos as int);
                &&& final(buffer).pos == parsed.cursor
                &&& match r {
                    Ok(record) => parsed.result == Ok::<RecordView, CodecError>(record@),
                    Err(e) => parsed.result == Err::<RecordView, CodecError>(e),
                }
            }),
            r matches Ok(record) ==> record@.wf(),
            r matches Ok(record) ==> record@ is UNKNOWN || final(buffer).wf(),
    {
        let ghost bytes = buffer.buf@;
        let ghost at = buffer.pos as int;
        proof {
            lemma_name_walk_cursor(bytes, at, 0, true);
        }
        let domain = read_host(buffer)?;
        let ghost c = buffer.pos as int;
        let qtype_num = buffer.read_u16()?;
        let qtype = QueryType::from_num(qtype_num);
        let _ = buffer.read_u16()?;
        let ttl = buffer.read_u32()?;
        let data_len = buffer.read_u16()?;
        let ghost d = c + 10;
        proof {
            lemma_name_walk_cursor(bytes, d, 0, true);
            lemma_name_walk_cursor(bytes, d + 2, 0, true);
        }
        match qtype {
            QueryType::A => {
                let raw_addr = buffer.read_u32()?;
                let addr = ipv4_of_bits(raw_addr);
                proof {
                    lemma_u32_at_bytes(bytes, d);
                }
                Ok(DnsRecord::A { domain, addr, ttl })
            },
            QueryType::AAAA => {
                let raw_addr1 = buffer.read_u32()?;
                let raw_addr2 = buffer.read_u32()?;
                let raw_addr3 = buffer.read_u32()?;
                let raw_addr4 = buffer.read_u32()?;
                let addr = Ipv6Address::new(
                    [
                        high_half(raw_addr1),
                        low_half(raw_addr1),
                        high_half(raw_addr2),
                        low_half(raw_addr2),
                        high_half(raw_addr3),
                        low_half(raw_addr3),
                        high_half(raw_addr4),
                        low_half(raw_addr4),
                    ],
                );
                proof {
                    lemma_u32_halves(bytes, d);
                    lemma_u32_halves(bytes, d + 4);
                    lemma_u32_halves(bytes, d + 8);
                    lemma_u32_halves(bytes, d + 12);
                    assert(addr.segments@ =~= segments_at(bytes, d));
                }
                Ok(DnsRecord::AAAA { domain, addr, ttl })
            },
            QueryType::NS => {
                let host = read_host(buffer)?;
                Ok(DnsRecord::NS { domain, host, ttl })
            },
            QueryType::CNAME => {
                let host = read_host(buffer)?;
                Ok(DnsRecord::CNAME { domain, host, ttl })
            },
            QueryType::MX => {
                let priority = buffer.read_u16()?;
                let host = read_host(buffer)?;
                Ok(DnsRecord::MX { domain, priority, host, ttl })
            },
            QueryType::UNKNOWN(_) => {
                buffer.step(data_len as usize)?;
                Ok(DnsRecord::UNKNOWN { domain, qtype: qtype_num, data_len, ttl })
            },
        }
    }

    /// Writes what every record of a known type starts with.
    fn write_head(buffer: &mut BytePacketBuffer, domain: &str, qtype_num: u16, ttl: u32) -> (r:
        Result<(), CodecError>)
        ensures
            ({
                let e = record_head(domain@, qtype_num, ttl);
                &&& final(buffer).buf@ == placed(old(buffer).buf@, old(buffer).pos as int, e.bytes)
                &&& final(buffer).pos == advanced(old(buffer).pos as int, e.bytes.len() as int)
                &&& r == emission_result(old(buffer).pos as int, e)
            }),
    {
        proof {
            reveal(record_head);
        }
        let ghost bytes0 = buffer.buf@;
        let ghost pos0 = buffer.pos as int;
        let ghost total = record_head(domain@, qtype_num, ttl);
        let ghost e_name = name_encoding(encode_utf8(domain@));
        let ghost e_type = Emission::of(be_bytes_u16(qtype_num));
        let ghost e_class = Emission::of(be_bytes_u16(CLASS_IN));
        let ghost e_ttl = Emission::of(be_bytes_u32(ttl));
        let ghost nothing = Emission::of(Seq::empty());
        let ghost mut done = Seq::<u8>::empty();
        proof {
            assert(buffer.buf@ =~= placed(bytes0, pos0, done));
            lemma_of_concat(e_type.bytes + e_class.bytes, e_ttl.bytes);
            lemma_of_concat(e_type.bytes, e_class.bytes);
            lemma_followed_by_assoc(e_type, e_class, e_ttl);
            lemma_of_concat(e_ttl.bytes, Seq::empty());
            assert(e_ttl.bytes + Seq::<u8>::empty() =~= e_ttl.bytes);
            lemma_emit_step(
                bytes0,
                pos0,
                done,
                e_name,
                e_type.followed_by(e_class.followed_by(e_ttl)),
                total,
            );
        }
        buffer.write_qname(domain)?;
        proof {
            done = done + e_name.bytes;
            lemma_emit_step(bytes0, pos0, done, e_type, e_class.followed_by(e_ttl), total);
        }
        buffer.write_u16(qtype_num)?;
        proof {
            done = done + e_type.bytes;
            lemma_emit_step(bytes0, pos0, done, e_class, e_ttl, total);
        }
        buffer.write_u16(1)?;
        proof {
            done = done + e_class.bytes;
            lemma_emit_step(bytes0, pos0, done, e_ttl, nothing, total);
        }
        buffer.write_u32(ttl)?;
        proof {
            done = done + e_ttl.bytes;
            lemma_emit_done(pos0, done, total);
        }
        Ok(())
    }

    /// Writes an A record: the head, the data length 4, and the four octets.
    fn write_a(buffer: &mut BytePacketBuffer, domain: &str, addr: &Ipv4Address, ttl: u32) -> (r:
        Result<(), CodecError>)
        ensures
            ({
                let e = address_record_emission(domain@, 1, ttl, addr.octets@);
                &&& final(buffer).buf@ == placed(old(buffer).buf@, old(buffer).pos as int, e.bytes)
                &&& final(buffer).pos == advanced(old(buffer).pos as int, e.bytes.len() as int)
                &&& r == emission_result(old(buffer).pos as int, e)
            }),
    {
        let ghost bytes0 = buffer.buf@;
        let ghost pos0 = buffer.pos as int;
        let ghost total = address_record_emission(domain@, 1, ttl, addr.octets@);
        let ghost e_head = record_head(domain@, 1, ttl);
        let ghost e_len = Emission::of(be_bytes_u16(4));
        let ghost e_addr = Emission::of(addr.octets@);
        let ghost nothing = Emission::of(Seq::empty());
        let ghost mut done = Seq::<u8>::empty();
        proof {
            assert(buffer.buf@ =~= placed(bytes0, pos0, done));
            lemma_of_concat(e_len.bytes, e_addr.bytes);
            lemma_of_concat(e_addr.bytes, Seq::empty());
            assert(e_addr.bytes + Seq::<u8>::empty() =~= e_addr.bytes);
            lemma_emit_step(bytes0, pos0, done, e_head, e_len.followed_by(e_addr), total);
        }
        DnsRecord::write_head(buffer, domain, QueryType::A.to_num(), ttl)?;
        proof {
            done = done + e_head.bytes;
            lemma_emit_step(bytes0, pos0, done, e_len, e_addr, total);
        }
        buffer.write_u16(4)?;
        proof {
            done = done + e_len.bytes;
            lemma_emit_step(bytes0, pos0, done, e_addr, nothing, total);
            assert(addr.octets@.subrange(0, 4) =~= addr.octets@);
        }
        buffer.write_slice(addr.octets.as_slice(), 0, 4)?;
        proof {
            done = done + e_addr.bytes;
            lemma_emit_done(pos0, done, total);
        }
        Ok(())
    }

    /// Writes an AAAA record: the head, the data length 16, and the eight
    /// segments.
    fn write_aaaa(buffer: &mut BytePacketBuffer, domain: &str, addr: &Ipv6Address, ttl: u32) -> (r:
        Result<(), CodecError>)
        ensures
            ({
                let e = address_record_emission(domain@, 28, ttl, be_words(addr.segments@));
                &&& final(buffer).buf@ == placed(old(buffer).buf@, old(buffer).pos as int, e.bytes)
                &&& final(buffer).pos == advanced(old(buffer).pos as int, e.bytes.len() as int)
                &&& r == emission_result(old(buffer).pos as int, e)
            }),
    {
        let ghost bytes0 = buffer.buf@;
        let ghost pos0 = buffer.pos as int;
        let ghost total = address_record_emission(domain@, 28, ttl, be_words(addr.segments@));
        let ghost e_head = record_head(domain@, 28, ttl);
        let ghost e_len = Emission::of(be_bytes_u16(16));
        let ghost e_addr = Emission::of(be_words(addr.segments@));
        let ghost nothing = Emission::of(Seq::empty());
        let ghost mut done = Seq::<u8>::empty();
        proof {
            assert(buffer.buf@ =~= placed(bytes0, pos0, done));
            lemma_of_concat(e_len.bytes, e_addr.bytes);
            lemma_of_concat(e_addr.bytes, Seq::empty());
            assert(e_addr.bytes + Seq::<u8>::empty() =~= e_addr.bytes);
            lemma_emit_step(bytes0, pos0, done, e_head, e_len.followed_by(e_addr), total);
        }
        DnsRecord::write_head(buffer, domain, QueryType::AAAA.to_num(), ttl)?;
        proof {
            done = done + e_head.bytes;
            lemma_emit_step(bytes0, pos0, done, e_len, e_addr, total);
        }
        buffer.write_u16(16)?;
        proof {
            done = done + e_len.bytes;
            lemma_emit_step(bytes0, pos0, done, e_addr, nothing, total);
        }
        buffer.write_words(addr.segments.as_slice())?;
        proof {
            done = done + e_addr.bytes;
            lemma_emit_done(pos0, done, total);
        }
        Ok(())
    }

    /// Writes a record whose data ends in a host name. The data length is
    /// not known before the name has been written: it is written as zero
    /// and set afterwards.
    fn write_with_host(
        buffer: &mut BytePacketBuffer,
        domain: &str,
        qtype_num: u16,
        ttl: u32,
        priority: Option<u16>,
        host: &str,
    ) -> (r: Result<(), CodecError>)
        ensures
            ({
                let extra = match priority {
                    Some(p) => be_bytes_u16(p),
                    None => Seq::empty(),
                };
                let e = host_record_emission(domain@, qtype_num, ttl, extra, host@, false);
                let full = host_record_emission(domain@, qtype_num, ttl, extra, host@, true);
                &&& final(buffer).buf@ == placed(
                    old(buffer).buf@,
                    old(buffer).pos as int,
                    if r is Ok {
                        full.bytes
                    } else {
                        e.bytes
                    },
                )
                &&& final(buffer).pos == advanced(old(buffer).pos as int, e.bytes.len() as int)
                &&& r == emission_result(old(buffer).pos as int, e)
            }),
    {
        proof {
            reveal(host_record_emission);
        }
        let ghost bytes0 = buffer.buf@;
        let ghost pos0 = buffer.pos as int;
        let ghost extra = match priority {
            Some(p) => be_bytes_u16(p),
            None => Seq::empty(),
        };
        let ghost total = host_record_emission(domain@, qtype_num, ttl, extra, host@, false);
        let ghost full = host_record_emission(domain@, qtype_num, ttl, extra, host@, true);
        let ghost e_head = record_head(domain@, qtype_num, ttl);
        let ghost e_len = Emission::of(be_bytes_u16(0));
        let ghost e_extra = Emission::of(extra);
        let ghost e_host = name_encoding(encode_utf8(host@));
        let ghost nothing = Emission::of(Seq::empty());
        let ghost mut done = Seq::<u8>::empty();
        proof {
            assert(buffer.buf@ =~= placed(bytes0, pos0, done));
            lemma_of_concat(e_len.bytes, extra);
            lemma_followed_by_assoc(e_len, e_extra, e_host);
            lemma_emit_step(
                bytes0,
                pos0,
                done,
                e_head,
                e_len.followed_by(e_extra.followed_by(e_host)),
                total,
            );
        }
        DnsRecord::write_head(buffer, domain, qtype_num, ttl)?;
        let pos = buffer.pos();
        proof {
            done = done + e_head.bytes;
            lemma_emit_step(bytes0, pos0, done, e_len, e_extra.followed_by(e_host), total);
        }
        buffer.write_u16(0)?;
        proof {
            done = done + e_len.bytes;
            lemma_emit_step(bytes0, pos0, done, e_extra, e_host, total);
        }
        match priority {
            Some(p) => {
                buffer.write_u16(p)?;
            },
            None => {
                assert(buffer.buf@ =~= placed(buffer.buf@, buffer.pos as int, extra));
            },
        }
        proof {
            done = done + e_extra.bytes;
            assert(e_host.followed_by(nothing) == e_host) by {
                assert(e_host.bytes + nothing.bytes =~= e_host.bytes);
            }
            lemma_emit_step(bytes0, pos0, done, e_host, nothing, total);
        }
        buffer.write_qname(host)?;
        proof {
            done = done + e_host.bytes;
            lemma_emit_done(pos0, done, total);
        }
        let size = buffer.pos() - (pos + 2);
        proof {
            assert(size == extra.len() + e_host.bytes.len());
            assert(done =~= e_head.bytes + e_len.bytes + (extra + e_host.bytes));
            assert(full.bytes =~= e_head.bytes + be_bytes_u16(size as u16) + (extra
                + e_host.bytes)) by {
                assert(e_head.complete && e_host.complete);
                assert(full.bytes =~= e_head.bytes + ((be_bytes_u16(size as u16) + extra)
                    + e_host.bytes));
            }
            lemma_data_length_set(
                bytes0,
                pos0,
                e_head.bytes,
                be_bytes_u16(0),
                be_bytes_u16(size as u16),
                extra + e_host.bytes,
            );
        }
        buffer.set_u16(pos, size as u16)?;
        Ok(())
    }

    /// Writes this record from the cursor on and returns the number of bytes
    /// passed. A record of unknown type is passed over: nothing is written
    /// for it. Bytes that do not fit are not written, and a label that is too
    /// long stops the call after what stands in front of it; after either
    /// failure the data length of a record that ends in a host name stands
    /// as zero.
    pub fn write(&self, buffer: &mut BytePacketBuffer) -> (r: Result<usize, CodecError>)
        ensures
            ({
                let e = record_emission(self@, false);
                let full = record_emission(self@, true);
                &&& final(buffer).buf@ == placed(
                    old(buffer).buf@,
                    old(buffer).pos as int,
                    if r is Ok {
                        full.bytes
                    } else {
                        e.bytes
                    },
                )
                &&& final(buffer).pos == advanced(old(buffer).pos as int, e.bytes.len() as int)
                &&& match r {
                    Ok(n) => emission_result(old(buffer).pos as int, e) is Ok && n
                        == e.bytes.len(),
                    Err(err) => emission_result(old(buffer).pos as int, e) == Err::<
                        (),
                        CodecError,
                    >(err),
                }
            }),
    {
        proof {
            reveal(record_emission);
        }
        let start_pos = buffer.pos();
        let ghost bytes0 = buffer.buf@;
        let ghost pos0 = buffer.pos as int;
        let ghost total = record_emission(self@, false);
        match self {
            DnsRecord::A { domain, addr, ttl } => {
                DnsRecord::write_a(buffer, domain.as_str(), addr, *ttl)?;
            },
            DnsRecord::AAAA { domain, addr, ttl } => {
                DnsRecord::write_aaaa(buffer, domain.as_str(), addr, *ttl)?;
            },
            DnsRecord::NS { domain, host, ttl } => {
                DnsRecord::write_with_host(
                    buffer,
                    domain.as_str(),
                    QueryType::NS.to_num(),
                    *ttl,
                    None,
                    host.as_str(),
                )?;
            },
            DnsRecord::CNAME { domain, host, ttl } => {
                DnsRecord::write_with_host(
                    buffer,
                    domain.as_str(),
                    QueryType::CNAME.to_num(),
                    *ttl,
                    None,
                    host.as_str(),
                )?;
            },
            DnsRecord::MX { domain, priority, host, ttl } => {
                DnsRecord::write_with_host(
                    buffer,
                    domain.as_str(),
                    QueryType::MX.to_num(),
                    *ttl,
                    Some(*priority),
                    host.as_str(),
                )?;
            },
            DnsRecord::UNKNOWN { .. } => {
                assert(buffer.buf@ =~= placed(bytes0, pos0, total.bytes));
            },
        }
        Ok(buffer.pos() - start_pos)
    }
}

} // verus!
