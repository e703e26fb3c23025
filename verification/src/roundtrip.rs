use vstd::prelude::*;
use vstd::utf8::{encode_utf8, is_ascii_chars};
use crate::buffer::{
    be_bytes_u16, be_bytes_u32, lemma_u16_read_written, lemma_u32_read_written, placed, u16_at,
    u32_at, Parsed, BUFFER_SIZE,
};
use crate::emission::{be_words, emission_result};
use crate::error::CodecError;
use crate::name::{name_encoding, name_walk, NameWalk};
use crate::name_laws::{
    is_lower_ascii, lemma_lower_ascii_fixed, lemma_plain_name_encoding, lemma_walk_name_encoding,
    plain_name,
};
use crate::question::{question_at, question_emission, QuestionView, CLASS_IN};
use crate::record::{
    address_record_emission, host_record_emission, record_at, record_data_at, record_emission,
    record_head, segments_at, RecordView,
};
use crate::text::lowercase_text;

verus! {

/// A name that the codec writes in full and reads back in lowercase: ASCII
/// text without empty labels and without a label longer than the limit.
pub open spec fn plain_text(name: Seq<char>) -> bool {
    is_ascii_chars(name) && plain_name(encode_utf8(name))
}

/// A part of a region of the buffer is the same part of what stands there.
pub proof fn lemma_subregion(out: Seq<u8>, at: int, full: Seq<u8>, off: int, len: int)
    requires
        0 <= at,
        0 <= off,
        0 <= len,
        off + len <= full.len(),
        at + full.len() <= out.len(),
        out.subrange(at, at + full.len()) == full,
    ensures
        out.subrange(at + off, at + off + len) == full.subrange(off, off + len),
{
    let region = out.subrange(at, at + full.len());
    assert(out.subrange(at + off, at + off + len) =~= region.subrange(off, off + len));
}

/// The number read from the place where its two bytes stand is that number.
pub proof fn lemma_u16_at_region(out: Seq<u8>, at: int, v: u16)
    requires
        0 <= at,
        at + 2 <= out.len(),
        out.subrange(at, at + 2) == be_bytes_u16(v),
    ensures
        u16_at(out, at) == v,
{
    let region = out.subrange(at, at + 2);
    assert(out[at] == region[0] && out[at + 1] == region[1]);
    lemma_u16_read_written(v);
}

/// The number read from the place where its four bytes stand is that number.
pub proof fn lemma_u32_at_region(out: Seq<u8>, at: int, v: u32)
    requires
        0 <= at,
        at + 4 <= out.len(),
        out.subrange(at, at + 4) == be_bytes_u32(v),
    ensures
        u32_at(out, at) == v,
{
    let region = out.subrange(at, at + 4);
    assert(out[at] == region[0] && out[at + 1] == region[1] && out[at + 2] == region[2] && out[at
        + 3] == region[3]);
    lemma_u32_read_written(v);
}

/// The segments read from the place where their bytes stand are those
/// segments.
pub proof fn lemma_segments_at_region(out: Seq<u8>, at: int, segments: Seq<u16>)
    requires
        segments.len() == 8,
        0 <= at,
        at + 16 <= out.len(),
        out.subrange(at, at + 16) == be_words(segments),
    ensures
        segments_at(out, at) == segments,
{
    let wire = be_words(segments);
    let region = out.subrange(at, at + 16);
    assert forall|i: int| 0 <= i < 8 implies u16_at(out, at + 2 * i) == segments[i] by {
        assert(out[at + 2 * i] == region[2 * i]);
        assert(out[at + 2 * i + 1] == region[2 * i + 1]);
        assert(wire[2 * i] == (segments[i] / 0x100) as u8);
        assert(wire[2 * i + 1] == (segments[i] % 0x100) as u8);
    }
    assert(segments_at(out, at) =~= segments);
}

/// The question with its name in lowercase.
pub open spec fn folded_question(q: QuestionView) -> QuestionView {
    QuestionView { name: lowercase_text(q.name), question_type: q.question_type }
}

/// The record with its names in lowercase.
pub open spec fn folded_record(r: RecordView) -> RecordView {
    match r {
        RecordView::UNKNOWN { domain, qtype, data_len, ttl } => RecordView::UNKNOWN {
            domain: lowercase_text(domain),
            qtype,
            data_len,
            ttl,
        },
        RecordView::A { domain, addr, ttl } => RecordView::A {
            domain: lowercase_text(domain),
            addr,
            ttl,
        },
        RecordView::NS { domain, host, ttl } => RecordView::NS {
            domain: lowercase_text(domain),
            host: lowercase_text(host),
            ttl,
        },
        RecordView::CNAME { domain, host, ttl } => RecordView::CNAME {
            domain: lowercase_text(domain),
            host: lowercase_text(host),
            ttl,
        },
        RecordView::MX { domain, priority, host, ttl } => RecordView::MX {
            domain: lowercase_text(domain),
            priority,
            host: lowercase_text(host),
            ttl,
        },
        RecordView::AAAA { domain, addr, ttl } => RecordView::AAAA {
            domain: lowercase_text(domain),
            addr,
            ttl,
        },
    }
}

/// A question that the codec writes in full: its name is plain and its type
/// is well formed.
pub open spec fn plain_question(q: QuestionView) -> bool {
    plain_text(q.name) && q.question_type.wf()
}

/// A record that the codec writes in full: it is of a known type, its
/// address has the parts of its family, and its names are plain.
pub open spec fn plain_record(r: RecordView) -> bool {
    match r {
        RecordView::UNKNOWN { .. } => false,
        RecordView::A { domain, addr, .. } => plain_text(domain) && addr.len() == 4,
        RecordView::AAAA { domain, addr, .. } => plain_text(domain) && addr.len() == 8,
        RecordView::NS { domain, host, .. } => plain_text(domain) && plain_text(host),
        RecordView::CNAME { domain, host, .. } => plain_text(domain) && plain_text(host),
        RecordView::MX { domain, host, .. } => plain_text(domain) && plain_text(host),
    }
}

/// A question that has been written is read back with its name in lowercase.
pub proof fn lemma_question_at_encoding(q: QuestionView, out: Seq<u8>, at: int)
    requires
        plain_question(q),
        out.len() == BUFFER_SIZE,
        0 <= at,
        at + question_emission(q).bytes.len() <= BUFFER_SIZE,
        out.subrange(at, at + question_emission(q).bytes.len()) == question_emission(q).bytes,
    ensures
        question_emission(q).complete,
        question_emission(q).bytes.len() > 0,
        question_at(out, at) == (Parsed {
            result: Ok::<QuestionView, CodecError>(folded_question(q)),
            cursor: at + question_emission(q).bytes.len(),
        }),
{
    let name = name_encoding(encode_utf8(q.name));
    let full = question_emission(q).bytes;
    lemma_plain_name_encoding(encode_utf8(q.name));
    let n = name.bytes.len() as int;
    assert(full =~= name.bytes + (be_bytes_u16(q.question_type.num()) + be_bytes_u16(CLASS_IN)));
    lemma_subregion(out, at, full, 0, n);
    assert(full.subrange(0, n) =~= name.bytes);
    lemma_walk_name_encoding(q.name, out, at, 0);
    lemma_subregion(out, at, full, n, 2);
    assert(full.subrange(n, n + 2) =~= be_bytes_u16(q.question_type.num()));
    lemma_u16_at_region(out, at + n, q.question_type.num());
    q.question_type.lemma_of_num_num();
}

/// The bytes of a record part by part: the name, the type, the class, the
/// time to live, the data length, and the data.
pub open spec fn record_wire(
    domain: Seq<char>,
    qtype_num: u16,
    ttl: u32,
    data_len: u16,
    data: Seq<u8>,
) -> Seq<u8> {
    name_encoding(encode_utf8(domain)).bytes + be_bytes_u16(qtype_num) + be_bytes_u16(CLASS_IN)
        + be_bytes_u32(ttl) + be_bytes_u16(data_len) + data
}

/// Where the wire form of a record stands, its name is read back in
/// lowercase, and its type, its time to live, its data length and its data
/// stand behind the name.
pub proof fn lemma_record_head_at(
    domain: Seq<char>,
    qtype_num: u16,
    ttl: u32,
    data_len: u16,
    data: Seq<u8>,
    out: Seq<u8>,
    at: int,
)
    requires
        plain_text(domain),
        out.len() == BUFFER_SIZE,
        0 <= at,
        at + record_wire(domain, qtype_num, ttl, data_len, data).len() <= BUFFER_SIZE,
        out.subrange(at, at + record_wire(domain, qtype_num, ttl, data_len, data).len())
            == record_wire(domain, qtype_num, ttl, data_len, data),
    ensures
        ({
            let n = name_encoding(encode_utf8(domain)).bytes.len();
            let c = at + n;
            &&& record_wire(domain, qtype_num, ttl, data_len, data).len() == n + 10 + data.len()
            &&& name_walk(out, at, 0, true) == (NameWalk {
                text: lowercase_text(domain),
                cursor: Some(c),
                error: None,
            })
            &&& record_at(out, at) == record_data_at(
                out,
                c + 10,
                lowercase_text(domain),
                qtype_num,
                ttl,
                data_len,
            )
            &&& out.subrange(c + 10, c + 10 + data.len()) == data
        }),
{
    let name = name_encoding(encode_utf8(domain)).bytes;
    let full = record_wire(domain, qtype_num, ttl, data_len, data);
    let n = name.len() as int;
    lemma_plain_name_encoding(encode_utf8(domain));
    lemma_subregion(out, at, full, 0, n);
    assert(full.subrange(0, n) =~= name);
    lemma_walk_name_encoding(domain, out, at, 0);
    lemma_subregion(out, at, full, n, 2);
    assert(full.subrange(n, n + 2) =~= be_bytes_u16(qtype_num));
    lemma_u16_at_region(out, at + n, qtype_num);
    lemma_subregion(out, at, full, n + 4, 4);
    assert(full.subrange(n + 4, n + 8) =~= be_bytes_u32(ttl));
    lemma_u32_at_region(out, at + n + 4, ttl);
    lemma_subregion(out, at, full, n + 8, 2);
    assert(full.subrange(n + 8, n + 10) =~= be_bytes_u16(data_len));
    lemma_u16_at_region(out, at + n + 8, data_len);
    lemma_subregion(out, at, full, n + 10, data.len() as int);
    assert(full.subrange(n + 10, n + 10 + data.len()) =~= data);
}

/// The bytes of a record that holds an address, part by part.
pub proof fn lemma_address_record_wire(domain: Seq<char>, qtype_num: u16, ttl: u32, addr: Seq<u8>)
    requires
        plain_text(domain),
    ensures
        address_record_emission(domain, qtype_num, ttl, addr).complete,
        address_record_emission(domain, qtype_num, ttl, addr).bytes == record_wire(
            domain,
            qtype_num,
            ttl,
            (addr.len() % 0x1_0000) as u16,
            addr,
        ),
{
    reveal(record_head);
    lemma_plain_name_encoding(encode_utf8(domain));
    assert(address_record_emission(domain, qtype_num, ttl, addr).bytes =~= record_wire(
        domain,
        qtype_num,
        ttl,
        (addr.len() % 0x1_0000) as u16,
        addr,
    ));
}

/// The bytes of a record that ends in a host name, part by part.
pub proof fn lemma_host_record_wire(
    domain: Seq<char>,
    qtype_num: u16,
    ttl: u32,
    extra: Seq<u8>,
    host: Seq<char>,
)
    requires
        plain_text(domain),
        plain_text(host),
    ensures
        host_record_emission(domain, qtype_num, ttl, extra, host, false).complete,
        host_record_emission(domain, qtype_num, ttl, extra, host, false).bytes.len()
            == host_record_emission(domain, qtype_num, ttl, extra, host, true).bytes.len(),
        host_record_emission(domain, qtype_num, ttl, extra, host, true).bytes == record_wire(
            domain,
            qtype_num,
            ttl,
            ((extra.len() + name_encoding(encode_utf8(host)).bytes.len()) % 0x1_0000) as u16,
            extra + name_encoding(encode_utf8(host)).bytes,
        ),
{
    reveal(record_head);
    reveal(host_record_emission);
    lemma_plain_name_encoding(encode_utf8(domain));
    lemma_plain_name_encoding(encode_utf8(host));
    assert(host_record_emission(domain, qtype_num, ttl, extra, host, true).bytes =~= record_wire(
        domain,
        qtype_num,
        ttl,
        ((extra.len() + name_encoding(encode_utf8(host)).bytes.len()) % 0x1_0000) as u16,
        extra + name_encoding(encode_utf8(host)).bytes,
    ));
}

/// Where the wire form of a record that ends in a host name stands, the
/// record's head is read back, `extra` stands behind it, and the host name
/// behind `extra` is read back in lowercase.
pub proof fn lemma_host_record_read(
    domain: Seq<char>,
    qtype_num: u16,
    ttl: u32,
    extra: Seq<u8>,
    host: Seq<char>,
    out: Seq<u8>,
    at: int,
)
    requires
        plain_text(domain),
        plain_text(host),
        out.len() == BUFFER_SIZE,
        0 <= at,
        at + host_record_emission(domain, qtype_num, ttl, extra, host, true).bytes.len()
            <= BUFFER_SIZE,
        out.subrange(
            at,
            at + host_record_emission(domain, qtype_num, ttl, extra, host, true).bytes.len(),
        ) == host_record_emission(domain, qtype_num, ttl, extra, host, true).bytes,
    ensures
        ({
            let n = name_encoding(encode_utf8(domain)).bytes.len();
            let h = name_encoding(encode_utf8(host)).bytes.len();
            let d = at + n + 10;
            &&& host_record_emission(domain, qtype_num, ttl, extra, host, true).bytes.len() == n
                + 10 + extra.len() + h
            &&& record_at(out, at) == record_data_at(
                out,
                d,
                lowercase_text(domain),
                qtype_num,
                ttl,
                (extra.len() + h) as u16,
            )
            &&& out.subrange(d, d + extra.len()) == extra
            &&& name_walk(out, d + extra.len(), 0, true) == (NameWalk {
                text: lowercase_text(host),
                cursor: Some(d + extra.len() + h),
                error: None,
            })
        }),
{
    let hn = name_encoding(encode_utf8(host)).bytes;
    let n = name_encoding(encode_utf8(domain)).bytes.len() as int;
    let data = extra + hn;
    let data_len = ((extra.len() + hn.len()) % 0x1_0000) as u16;
    lemma_host_record_wire(domain, qtype_num, ttl, extra, host);
    lemma_plain_name_encoding(encode_utf8(domain));
    assert(record_wire(domain, qtype_num, ttl, data_len, data).len() == n + 10 + data.len());
    lemma_record_head_at(domain, qtype_num, ttl, data_len, data, out, at);
    let d = at + n + 10;
    lemma_subregion(out, d, data, 0, extra.len() as int);
    assert(data.subrange(0, extra.len() as int) =~= extra);
    lemma_subregion(out, d, data, extra.len() as int, hn.len() as int);
    assert(data.subrange(extra.len() as int, (extra.len() + hn.len()) as int) =~= hn);
    lemma_walk_name_encoding(host, out, d + extra.len(), 0);
}

/// An A record that has been written is read back with its name in
/// lowercase.
pub proof fn lemma_a_record_at(domain: Seq<char>, addr: Seq<u8>, ttl: u32, out: Seq<u8>, at: int)
    requires
        plain_text(domain),
        addr.len() == 4,
        out.len() == BUFFER_SIZE,
        0 <= at,
        at + address_record_emission(domain, 1, ttl, addr).bytes.len() <= BUFFER_SIZE,
        out.subrange(at, at + address_record_emission(domain, 1, ttl, addr).bytes.len())
            == address_record_emission(domain, 1, ttl, addr).bytes,
    ensures
        address_record_emission(domain, 1, ttl, addr).complete,
        address_record_emission(domain, 1, ttl, addr).bytes.len() > 0,
        record_at(out, at) == (Parsed {
            result: Ok::<RecordView, CodecError>(
                RecordView::A { domain: lowercase_text(domain), addr, ttl },
            ),
            cursor: at + address_record_emission(domain, 1, ttl, addr).bytes.len(),
        }),
{
    lemma_address_record_wire(domain, 1, ttl, addr);
    lemma_record_head_at(domain, 1, ttl, 4, addr, out, at);
}

/// An AAAA record that has been written is read back with its name in
/// lowercase.
pub proof fn lemma_aaaa_record_at(
    domain: Seq<char>,
    addr: Seq<u16>,
    ttl: u32,
    out: Seq<u8>,
    at: int,
)
    requires
        plain_text(domain),
        addr.len() == 8,
        out.len() == BUFFER_SIZE,
        0 <= at,
        at + address_record_emission(domain, 28, ttl, be_words(addr)).bytes.len()
            <= BUFFER_SIZE,
        out.subrange(
            at,
            at + address_record_emission(domain, 28, ttl, be_words(addr)).bytes.len(),
        ) == address_record_emission(domain, 28, ttl, be_words(addr)).bytes,
    ensures
        address_record_emission(domain, 28, ttl, be_words(addr)).complete,
        address_record_emission(domain, 28, ttl, be_words(addr)).bytes.len() > 0,
        record_at(out, at) == (Parsed {
            result: Ok::<RecordView, CodecError>(
                RecordView::AAAA { domain: lowercase_text(domain), addr, ttl },
            ),
            cursor: at + address_record_emission(domain, 28, ttl, be_words(addr)).bytes.len(),
        }),
{
    let wire = be_words(addr);
    lemma_address_record_wire(domain, 28, ttl, wire);
    lemma_record_head_at(domain, 28, ttl, 16, wire, out, at);
    let d = at + name_encoding(encode_utf8(domain)).bytes.len() + 10;
    lemma_segments_at_region(out, d, addr);
}

/// An NS record that has been written is read back with its names in
/// lowercase.
pub proof fn lemma_ns_record_at(domain: Seq<char>, host: Seq<char>, ttl: u32, out: Seq<u8>, at: int)
    requires
        plain_text(domain),
        plain_text(host),
        out.len() == BUFFER_SIZE,
        0 <= at,
        at + host_record_emission(domain, 2, ttl, Seq::empty(), host, true).bytes.len()
            <= BUFFER_SIZE,
        out.subrange(
            at,
            at + host_record_emission(domain, 2, ttl, Seq::empty(), host, true).bytes.len(),
        ) == host_record_emission(domain, 2, ttl, Seq::empty(), host, true).bytes,
    ensures
        record_at(out, at) == (Parsed {
            result: Ok::<RecordView, CodecError>(
                RecordView::NS { domain: lowercase_text(domain), host: lowercase_text(host), ttl },
            ),
            cursor: at + host_record_emission(domain, 2, ttl, Seq::empty(), host, true).bytes.len(),
        }),
{
    lemma_host_record_read(domain, 2, ttl, Seq::empty(), host, out, at);
}

/// A CNAME record that has been written is read back with its names in
/// lowercase.
pub proof fn lemma_cname_record_at(
    domain: Seq<char>,
    host: Seq<char>,
    ttl: u32,
    out: Seq<u8>,
    at: int,
)
    requires
        plain_text(domain),
        plain_text(host),
        out.len() == BUFFER_SIZE,
        0 <= at,
        at + host_record_emission(domain, 5, ttl, Seq::empty(), host, true).bytes.len()
            <= BUFFER_SIZE,
        out.subrange(
            at,
            at + host_record_emission(domain, 5, ttl, Seq::empty(), host, true).bytes.len(),
        ) == host_record_emission(domain, 5, ttl, Seq::empty(), host, true).bytes,
    ensures
        record_at(out, at) == (Parsed {
            result: Ok::<RecordView, CodecError>(
                RecordView::CNAME {
                    domain: lowercase_text(domain),
                    host: lowercase_text(host),
                    ttl,
                },
            ),
            cursor: at + host_record_emission(domain, 5, ttl, Seq::empty(), host, true).bytes.len(),
        }),
{
    lemma_host_record_read(domain, 5, ttl, Seq::empty(), host, out, at);
}

/// An MX record that has been written is read back with its names in
/// lowercase.
pub proof fn lemma_mx_record_at(
    domain: Seq<char>,
    priority: u16,
    host: Seq<char>,
    ttl: u32,
    out: Seq<u8>,
    at: int,
)
    requires
        plain_text(domain),
        plain_text(host),
        out.len() == BUFFER_SIZE,
        0 <= at,
        at + host_record_emission(domain, 15, ttl, be_bytes_u16(priority), host, true).bytes.len()
            <= BUFFER_SIZE,
        out.subrange(
            at,
            at + host_record_emission(
                domain,
                15,
                ttl,
                be_bytes_u16(priority),
                host,
                true,
            ).bytes.len(),
        ) == host_record_emission(domain, 15, ttl, be_bytes_u16(priority), host, true).bytes,
    ensures
        record_at(out, at) == (Parsed {
            result: Ok::<RecordView, CodecError>(
                RecordView::MX {
                    domain: lowercase_text(domain),
                    priority,
                    host: lowercase_text(host),
                    ttl,
                },
            ),
            cursor: at + host_record_emission(
                domain,
                15,
                ttl,
                be_bytes_u16(priority),
                host,
                true,
            ).bytes.len(),
        }),
{
    let extra = be_bytes_u16(priority);
    lemma_host_record_read(domain, 15, ttl, extra, host, out, at);
    let d = at + name_encoding(encode_utf8(domain)).bytes.len() + 10;
    lemma_u16_at_region(out, d, priority);
}

/// A record that has been written is read back with its names in lowercase.
pub proof fn lemma_record_at_encoding(r: RecordView, out: Seq<u8>, at: int)
    requires
        plain_record(r),
        out.len() == BUFFER_SIZE,
        0 <= at,
        at + record_emission(r, true).bytes.len() <= BUFFER_SIZE,
        out.subrange(at, at + record_emission(r, true).bytes.len()) == record_emission(
            r,
            true,
        ).bytes,
    ensures
        record_emission(r, false).complete,
        record_emission(r, false).bytes.len() == record_emission(r, true).bytes.len(),
        record_emission(r, true).bytes.len() > 0,
        record_at(out, at) == (Parsed {
            result: Ok::<RecordView, CodecError>(folded_record(r)),
            cursor: at + record_emission(r, true).bytes.len(),
        }),
{
    reveal(record_emission);
    match r {
        RecordView::UNKNOWN { .. } => {},
        RecordView::A { domain, addr, ttl } => {
            lemma_a_record_at(domain, addr, ttl, out, at);
        },
        RecordView::AAAA { domain, addr, ttl } => {
            lemma_aaaa_record_at(domain, addr, ttl, out, at);
        },
        RecordView::NS { domain, host, ttl } => {
            lemma_host_record_wire(domain, 2, ttl, Seq::empty(), host);
            lemma_host_record_read(domain, 2, ttl, Seq::empty(), host, out, at);
            lemma_ns_record_at(domain, host, ttl, out, at);
        },
        RecordView::CNAME { domain, host, ttl } => {
            lemma_host_record_wire(domain, 5, ttl, Seq::empty(), host);
            lemma_host_record_read(domain, 5, ttl, Seq::empty(), host, out, at);
            lemma_cname_record_at(domain, host, ttl, out, at);
        },
        RecordView::MX { domain, priority, host, ttl } => {
            lemma_host_record_wire(domain, 15, ttl, be_bytes_u16(priority), host);
            lemma_host_record_read(domain, 15, ttl, be_bytes_u16(priority), host, out, at);
            lemma_mx_record_at(domain, priority, host, ttl, out, at);
        },
    }
}

/// A record that has been written is read back with its names in lowercase:
/// for every record of a known type with plain names, written to a place in
/// the buffer where it fits, decoding from that place gives the record and
/// leaves the cursor behind it.
pub proof fn lemma_record_read_written(r: RecordView, bytes: Seq<u8>, at: int)
    requires
        plain_record(r),
        bytes.len() == BUFFER_SIZE,
        0 <= at,
        at + record_emission(r, true).bytes.len() <= BUFFER_SIZE,
    ensures
        emission_result(at, record_emission(r, false)) is Ok,
        record_at(placed(bytes, at, record_emission(r, true).bytes), at) == (Parsed {
            result: Ok::<RecordView, CodecError>(folded_record(r)),
            cursor: at + record_emission(r, true).bytes.len(),
        }),
{
    let full = record_emission(r, true).bytes;
    let out = placed(bytes, at, full);
    assert(out.subrange(at, at + full.len()) =~= full);
    lemma_record_at_encoding(r, out, at);
}

/// A question that has been written is read back with its name in
/// lowercase: for every question with a plain name, written to a place in the
/// buffer where it fits, decoding from that place gives the question and
/// leaves the cursor behind it.
pub proof fn lemma_question_read_written(q: QuestionView, bytes: Seq<u8>, at: int)
    requires
        plain_question(q),
        bytes.len() == BUFFER_SIZE,
        0 <= at,
        at + question_emission(q).bytes.len() <= BUFFER_SIZE,
    ensures
        emission_result(at, question_emission(q)) is Ok,
        question_at(placed(bytes, at, question_emission(q).bytes), at) == (Parsed {
            result: Ok::<QuestionView, CodecError>(folded_question(q)),
            cursor: at + question_emission(q).bytes.len(),
        }),
{
    let full = question_emission(q).bytes;
    let out = placed(bytes, at, full);
    assert(out.subrange(at, at + full.len()) =~= full);
    lemma_question_at_encoding(q, out, at);
}

/// Lowercasing changes nothing in a question whose name is lowercase ASCII
/// already.
pub proof fn lemma_folded_question_fixed(q: QuestionView)
    requires
        is_lower_ascii(q.name),
    ensures
        folded_question(q) == q,
{
    lemma_lower_ascii_fixed(q.name);
}

/// The names of a record are lowercase ASCII.
pub open spec fn lower_record(r: RecordView) -> bool {
    match r {
        RecordView::UNKNOWN { domain, .. } => is_lower_ascii(domain),
        RecordView::A { domain, .. } => is_lower_ascii(domain),
        RecordView::AAAA { domain, .. } => is_lower_ascii(domain),
        RecordView::NS { domain, host, .. } => is_lower_ascii(domain) && is_lower_ascii(host),
        RecordView::CNAME { domain, host, .. } => is_lower_ascii(domain) && is_lower_ascii(host),
        RecordView::MX { domain, host, .. } => is_lower_ascii(domain) && is_lower_ascii(host),
    }
}

/// Lowercasing changes nothing in a record whose names are lowercase ASCII
/// already: such a record, once written, is read back as it was.
pub proof fn lemma_folded_record_fixed(r: RecordView)
    requires
        lower_record(r),
    ensures
        folded_record(r) == r,
{
    match r {
        RecordView::UNKNOWN { domain, .. } => {
            lemma_lower_ascii_fixed(domain);
        },
        RecordView::A { domain, .. } => {
            lemma_lower_ascii_fixed(domain);
        },
        RecordView::AAAA { domain, .. } => {
            lemma_lower_ascii_fixed(domain);
        },
        RecordView::NS { domain, host, .. } => {
            lemma_lower_ascii_fixed(domain);
            lemma_lower_ascii_fixed(host);
        },
        RecordView::CNAME { domain, host, .. } => {
            lemma_lower_ascii_fixed(domain);
            lemma_lower_ascii_fixed(host);
        },
        RecordView::MX { domain, host, .. } => {
            lemma_lower_ascii_fixed(domain);
            lemma_lower_ascii_fixed(host);
        },
    }
}

} // verus!
