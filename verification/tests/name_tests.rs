use dns_resolver::buffer::BytePacketBuffer;
use dns_resolver::error::CodecError;

fn buffer_with(at: usize, bytes: &[u8]) -> BytePacketBuffer {
    let mut buffer = BytePacketBuffer::new();
    buffer.buf[at..at + bytes.len()].copy_from_slice(bytes);
    buffer
}

const WWW_EXAMPLE_COM: [u8; 17] = [
    0x03, 0x77, 0x77, 0x77, 0x07, 0x65, 0x78, 0x61, 0x6d, 0x70, 0x6c, 0x65, 0x03, 0x63, 0x6f, 0x6d,
    0x00,
];

#[test]
fn write_qname_writes_length_prefixed_labels() {
    let mut buffer = BytePacketBuffer::new();
    buffer.write_qname("www.example.com").unwrap();
    assert_eq!(&buffer.buf[0..17], &WWW_EXAMPLE_COM);
    assert_eq!(buffer.buf[17], 0);
}

#[test]
fn write_qname_empty_writes_single_zero() {
    let mut buffer = BytePacketBuffer::new();
    buffer.buf[0] = 0xAA;
    buffer.buf[1] = 0xBB;
    assert_eq!(buffer.write_qname(""), Ok(()));
    assert_eq!(buffer.pos(), 1);
    assert_eq!(buffer.buf[0], 0x00);
    assert_eq!(buffer.buf[1], 0xBB);
    buffer.seek(0).unwrap();
    let mut out = String::new();
    assert_eq!(buffer.read_qname(&mut out), Ok(()));
    assert_eq!(out, "");
    assert_eq!(buffer.pos(), 1);
}

#[test]
fn write_qname_keeps_case_and_bytes() {
    let mut buffer = BytePacketBuffer::new();
    buffer.write_qname("Ab.C").unwrap();
    assert_eq!(&buffer.buf[0..6], &[2, b'A', b'b', 1, b'C', 0]);
    assert_eq!(buffer.pos(), 6);
}

#[test]
fn write_qname_trailing_dot_gives_empty_label() {
    let mut buffer = BytePacketBuffer::new();
    buffer.buf[3] = 0xFF;
    buffer.write_qname("a.").unwrap();
    assert_eq!(&buffer.buf[0..4], &[1, b'a', 0, 0]);
    assert_eq!(buffer.pos(), 4);
}

#[test]
fn label_of_63_bytes_is_written() {
    let label = "a".repeat(63);
    let mut buffer = BytePacketBuffer::new();
    assert_eq!(buffer.write_qname(&label), Ok(()));
    assert_eq!(buffer.pos(), 65);
    assert_eq!(buffer.buf[0], 63);
    assert_eq!(buffer.buf[63], b'a');
    assert_eq!(buffer.buf[64], 0);
}

#[test]
fn label_of_64_bytes_is_refused() {
    let label = "a".repeat(64);
    let mut buffer = BytePacketBuffer::new();
    assert_eq!(buffer.write_qname(&label), Err(CodecError::LabelTooLong));
    assert_eq!(buffer.pos(), 0);
    assert!(buffer.buf.iter().all(|b| *b == 0));
}

#[test]
fn long_label_stops_after_labels_in_front() {
    let name = format!("ab.{}.com", "x".repeat(64));
    let mut buffer = BytePacketBuffer::new();
    assert_eq!(buffer.write_qname(&name), Err(CodecError::LabelTooLong));
    assert_eq!(buffer.pos(), 3);
    assert_eq!(&buffer.buf[0..4], &[2, b'a', b'b', 0]);
}

#[test]
fn write_qname_past_end_fails_with_bounds() {
    let mut buffer = BytePacketBuffer::new();
    buffer.seek(500).unwrap();
    assert_eq!(buffer.write_qname("www.example.com"), Err(CodecError::BufferBounds));
    assert_eq!(buffer.pos(), 512);
    assert_eq!(&buffer.buf[500..512], &WWW_EXAMPLE_COM[0..12]);
}

#[test]
fn write_qname_that_just_fits() {
    let mut buffer = BytePacketBuffer::new();
    buffer.seek(495).unwrap();
    assert_eq!(buffer.write_qname("www.example.com"), Ok(()));
    assert_eq!(buffer.pos(), 512);
}

#[test]
fn read_qname_plain() {
    let mut buffer = buffer_with(0, &WWW_EXAMPLE_COM);
    let mut out = String::new();
    assert_eq!(buffer.read_qname(&mut out), Ok(()));
    assert_eq!(out, "www.example.com");
    assert_eq!(buffer.pos(), 17);
}

#[test]
fn read_qname_appends_to_what_is_there() {
    let mut buffer = buffer_with(0, &WWW_EXAMPLE_COM);
    let mut out = String::from("seen:");
    assert_eq!(buffer.read_qname(&mut out), Ok(()));
    assert_eq!(out, "seen:www.example.com");
}

#[test]
fn read_qname_lowercases() {
    let mut buffer = BytePacketBuffer::new();
    buffer.write_qname("WWW.Example.COM").unwrap();
    buffer.seek(0).unwrap();
    let mut out = String::new();
    assert_eq!(buffer.read_qname(&mut out), Ok(()));
    assert_eq!(out, "www.example.com");
}

#[test]
fn read_qname_replaces_invalid_utf8() {
    let mut buffer = buffer_with(0, &[2, 0xFF, b'A', 0]);
    let mut out = String::new();
    assert_eq!(buffer.read_qname(&mut out), Ok(()));
    assert_eq!(out, "\u{FFFD}a");
    assert_eq!(buffer.pos(), 4);
}

#[test]
fn read_qname_lowercases_beyond_ascii() {
    let mut buffer = buffer_with(0, &[2, 0xC3, 0x89, 0]);
    let mut out = String::new();
    assert_eq!(buffer.read_qname(&mut out), Ok(()));
    assert_eq!(out, "\u{e9}");
}

#[test]
fn qname_decode_with_pointer() {
    let mut buffer = buffer_with(0, &WWW_EXAMPLE_COM);
    buffer.buf[20] = 0xC0;
    buffer.buf[21] = 0x00;
    buffer.seek(20).unwrap();
    let mut out = String::new();
    assert_eq!(buffer.read_qname(&mut out), Ok(()));
    assert_eq!(out, "www.example.com");
    assert_eq!(buffer.pos(), 22);
}

#[test]
fn qname_label_then_pointer() {
    let mut buffer = buffer_with(0, &WWW_EXAMPLE_COM);
    buffer.buf[30..36].copy_from_slice(&[3, b'f', b't', b'p', 0xC0, 0x04]);
    buffer.seek(30).unwrap();
    let mut out = String::new();
    assert_eq!(buffer.read_qname(&mut out), Ok(()));
    assert_eq!(out, "ftp.example.com");
    assert_eq!(buffer.pos(), 36);
}

#[test]
fn qname_pointer_uses_fourteen_bits() {
    let mut buffer = BytePacketBuffer::new();
    buffer.buf[0x0123..0x0123 + 3].copy_from_slice(&[1, b'z', 0]);
    buffer.buf[0] = 0xC1;
    buffer.buf[1] = 0x23;
    let mut out = String::new();
    assert_eq!(buffer.read_qname(&mut out), Ok(()));
    assert_eq!(out, "z");
    assert_eq!(buffer.pos(), 2);
}

#[test]
fn qname_pointer_past_buffer_fails() {
    let mut buffer = buffer_with(0, &[0xFF, 0xFF]);
    let mut out = String::new();
    assert_eq!(buffer.read_qname(&mut out), Err(CodecError::BufferBounds));
    assert_eq!(buffer.pos(), 2);
    assert_eq!(out, "");
}

#[test]
fn qname_cycle_detection() {
    let mut buffer = buffer_with(0, &[0xC0, 0x02, 0xC0, 0x00]);
    let mut out = String::new();
    assert_eq!(buffer.read_qname(&mut out), Err(CodecError::JumpLimitExceeded));
    assert_eq!(out, "");
    assert_eq!(buffer.pos(), 2);
}

fn chain(buffer: &mut BytePacketBuffer, links: usize) -> usize {
    // The name stands at 100; link k stands at 10 * k and points at link k - 1.
    buffer.buf[100..103].copy_from_slice(&[1, b'x', 0]);
    let mut target = 100usize;
    for k in 1..=links {
        let at = 10 * k;
        buffer.buf[at] = 0xC0;
        buffer.buf[at + 1] = target as u8;
        target = at;
    }
    target
}

#[test]
fn pointer_chain_of_five_succeeds() {
    let mut buffer = BytePacketBuffer::new();
    let start = chain(&mut buffer, 5);
    buffer.seek(start).unwrap();
    let mut out = String::new();
    assert_eq!(buffer.read_qname(&mut out), Ok(()));
    assert_eq!(out, "x");
    assert_eq!(buffer.pos(), start + 2);
}

#[test]
fn pointer_chain_of_six_fails() {
    let mut buffer = BytePacketBuffer::new();
    let start = chain(&mut buffer, 6);
    buffer.seek(start).unwrap();
    let mut out = String::new();
    assert_eq!(buffer.read_qname(&mut out), Err(CodecError::JumpLimitExceeded));
    assert_eq!(out, "");
    assert_eq!(buffer.pos(), start + 2);
}

#[test]
fn pointer_to_pointer_counts_as_additional_jump() {
    // Four links to the name and one pointer in front: five jumps.
    let mut buffer = BytePacketBuffer::new();
    let start = chain(&mut buffer, 4);
    buffer.buf[200] = 0xC0;
    buffer.buf[201] = start as u8;
    buffer.seek(200).unwrap();
    let mut out = String::new();
    assert_eq!(buffer.read_qname(&mut out), Ok(()));
    assert_eq!(out, "x");
    assert_eq!(buffer.pos(), 202);
    // Five links to the name and one pointer in front: six jumps.
    let mut buffer = BytePacketBuffer::new();
    let start = chain(&mut buffer, 5);
    buffer.buf[200] = 0xC0;
    buffer.buf[201] = start as u8;
    buffer.seek(200).unwrap();
    let mut out = String::new();
    assert_eq!(buffer.read_qname(&mut out), Err(CodecError::JumpLimitExceeded));
}

#[test]
fn only_first_jump_moves_cursor() {
    let mut buffer = BytePacketBuffer::new();
    buffer.buf[50..53].copy_from_slice(&[1, b'q', 0]);
    buffer.buf[40] = 0xC0;
    buffer.buf[41] = 50;
    buffer.buf[300] = 0xC0;
    buffer.buf[301] = 40;
    buffer.seek(300).unwrap();
    let mut out = String::new();
    assert_eq!(buffer.read_qname(&mut out), Ok(()));
    assert_eq!(out, "q");
    assert_eq!(buffer.pos(), 302);
}

#[test]
fn read_qname_label_running_past_end_fails() {
    let mut buffer = BytePacketBuffer::new();
    buffer.buf[505..508].copy_from_slice(&[1, b'a', 10]);
    buffer.seek(505).unwrap();
    let mut out = String::new();
    assert_eq!(buffer.read_qname(&mut out), Err(CodecError::BufferBounds));
    assert_eq!(out, "a.");
    assert_eq!(buffer.pos(), 505);
}

#[test]
fn read_qname_without_terminator_fails_at_end() {
    let mut buffer = BytePacketBuffer::new();
    buffer.buf[510] = 1;
    buffer.buf[511] = b'a';
    buffer.seek(510).unwrap();
    let mut out = String::new();
    assert_eq!(buffer.read_qname(&mut out), Err(CodecError::BufferBounds));
    assert_eq!(out, "a");
    assert_eq!(buffer.pos(), 510);
}

#[test]
fn read_qname_long_length_byte_is_a_length() {
    let mut buffer = BytePacketBuffer::new();
    buffer.buf[0] = 70;
    for i in 1..=70 {
        buffer.buf[i] = b'k';
    }
    let mut out = String::new();
    assert_eq!(buffer.read_qname(&mut out), Ok(()));
    assert_eq!(out, "k".repeat(70));
    assert_eq!(buffer.pos(), 72);
}

#[test]
fn name_round_trip_gives_lowercase() {
    for name in ["example.com", "A.B.C", "MiXeD-Case.Example.ORG", "x", "a1.b2.c3.d4"] {
        let mut buffer = BytePacketBuffer::new();
        buffer.seek(33).unwrap();
        assert_eq!(buffer.write_qname(name), Ok(()));
        let end = buffer.pos();
        assert_eq!(end, 33 + name.len() + 2);
        buffer.seek(33).unwrap();
        let mut out = String::new();
        assert_eq!(buffer.read_qname(&mut out), Ok(()));
        assert_eq!(out, name.to_lowercase());
        assert_eq!(buffer.pos(), end);
    }
}

#[test]
fn name_round_trip_fails_for_empty_label() {
    let mut buffer = BytePacketBuffer::new();
    buffer.write_qname("a..b").unwrap();
    assert_eq!(&buffer.buf[0..6], &[1, b'a', 0, 1, b'b', 0]);
    buffer.seek(0).unwrap();
    let mut out = String::new();
    assert_eq!(buffer.read_qname(&mut out), Ok(()));
    assert_eq!(out, "a");
    assert_eq!(buffer.pos(), 3);
}

#[test]
fn decoded_compressed_name_is_rewritten_uncompressed() {
    let mut source = buffer_with(0, &WWW_EXAMPLE_COM);
    source.buf[30..36].copy_from_slice(&[3, b'F', b'T', b'P', 0xC0, 0x04]);
    source.seek(30).unwrap();
    let mut decoded = String::new();
    source.read_qname(&mut decoded).unwrap();
    assert_eq!(decoded, "ftp.example.com");

    let mut target = BytePacketBuffer::new();
    target.write_qname(&decoded).unwrap();
    assert_eq!(target.pos(), 17);
    assert!(target.buf[0..17].iter().all(|b| *b & 0xC0 != 0xC0));
    assert_eq!(
        &target.buf[0..17],
        &[3, b'f', b't', b'p', 7, b'e', b'x', b'a', b'm', b'p', b'l', b'e', 3, b'c', b'o', b'm', 0]
    );
    target.seek(0).unwrap();
    let mut again = String::new();
    target.read_qname(&mut again).unwrap();
    assert_eq!(again, decoded);
}
