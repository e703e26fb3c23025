use dns_resolver::buffer::BytePacketBuffer;
use dns_resolver::error::CodecError;

fn create_byte_packet_buffer() -> BytePacketBuffer {
    BytePacketBuffer::new()
}

#[test]
fn test_create_byte_packet_buffer() {
    let buffer = create_byte_packet_buffer();
    assert_eq!(buffer.pos(), 0);
}

#[test]
fn test_get_range_from_buffer() {
    let mut buffer = create_byte_packet_buffer();
    let result = buffer.get_range(0, 10);
    assert!(result.is_ok());
    let right_val = result.unwrap();

    assert_eq!(right_val, vec![0; 10]);
}

#[test]
fn test_write_single_byte() {
    let mut buffer = create_byte_packet_buffer();
    buffer.write_u8(0x12).unwrap();
    assert_eq!(buffer.pos(), 1);
}

#[test]
fn test_write_two_bytes() {
    let mut buffer = create_byte_packet_buffer();
    buffer.write_u16(0x1234).unwrap();
    assert_eq!(buffer.pos(), 2);
}

#[test]
fn test_write_four_bytes() {
    let mut buffer = create_byte_packet_buffer();
    buffer.write_u32(0x12345678).unwrap();
    assert_eq!(buffer.pos(), 4);
}

#[test]
fn test_read_single_byte() {
    let mut buffer = create_byte_packet_buffer();
    buffer.write_u8(0x12).unwrap();
    let result = buffer.read();
    assert!(result.is_ok());
}

#[test]
fn test_read_two_bytes() {
    let mut buffer = create_byte_packet_buffer();
    buffer.write_u16(0x1234).unwrap();
    let result = buffer.read_u16();
    assert!(result.is_ok());
}

#[test]
fn test_read_four_bytes() {
    let mut buffer = create_byte_packet_buffer();
    buffer.write_u32(0x12345678).unwrap();
    let result = buffer.read_u32();
    assert!(result.is_ok());
}

#[test]
fn test_write_qname() {
    let mut buffer = create_byte_packet_buffer();
    buffer.write_qname("www.example.com").unwrap();
    assert_eq!(buffer.pos(), 17);
}

#[test]
fn test_read_qname() {
    let mut buffer = create_byte_packet_buffer();
    buffer.write_qname("www.example.com").unwrap();
    let result = buffer.read_qname(&mut "www.example.com".to_owned());
    assert!(result.is_ok());
}

#[test]
fn new_buffer_is_all_zero() {
    let buffer = BytePacketBuffer::new();
    assert!(buffer.buf.iter().all(|b| *b == 0));
    assert_eq!(buffer.buf.len(), 512);
}

#[test]
fn read_returns_bytes_in_order() {
    let mut buffer = BytePacketBuffer::new();
    buffer.buf[0] = 0xAB;
    buffer.buf[1] = 0xCD;
    assert_eq!(buffer.read(), Ok(0xAB));
    assert_eq!(buffer.read(), Ok(0xCD));
    assert_eq!(buffer.pos(), 2);
}

#[test]
fn read_at_end_fails_without_change() {
    let mut buffer = BytePacketBuffer::new();
    buffer.buf[511] = 7;
    buffer.seek(512).unwrap();
    let before = buffer.buf;
    assert_eq!(buffer.read(), Err(CodecError::BufferBounds));
    assert_eq!(buffer.pos(), 512);
    assert_eq!(buffer.buf, before);
    assert_eq!(buffer.read_u16(), Err(CodecError::BufferBounds));
    assert_eq!(buffer.read_u32(), Err(CodecError::BufferBounds));
    assert_eq!(buffer.pos(), 512);
    let mut out = String::new();
    assert_eq!(buffer.read_qname(&mut out), Err(CodecError::BufferBounds));
    assert_eq!(out, "");
    assert_eq!(buffer.pos(), 512);
}

#[test]
fn read_last_byte_succeeds() {
    let mut buffer = BytePacketBuffer::new();
    buffer.buf[511] = 0x5A;
    buffer.seek(511).unwrap();
    assert_eq!(buffer.read(), Ok(0x5A));
    assert_eq!(buffer.pos(), 512);
}

#[test]
fn read_u16_is_big_endian() {
    let mut buffer = BytePacketBuffer::new();
    buffer.buf[0] = 0x12;
    buffer.buf[1] = 0x34;
    assert_eq!(buffer.read_u16(), Ok(0x1234));
    assert_eq!(buffer.pos(), 2);
}

#[test]
fn read_u32_is_big_endian() {
    let mut buffer = BytePacketBuffer::new();
    buffer.buf[0] = 0x12;
    buffer.buf[1] = 0x34;
    buffer.buf[2] = 0x56;
    buffer.buf[3] = 0x78;
    assert_eq!(buffer.read_u32(), Ok(0x12345678));
    assert_eq!(buffer.pos(), 4);
}

#[test]
fn read_u16_across_end_stops_at_end() {
    let mut buffer = BytePacketBuffer::new();
    buffer.seek(511).unwrap();
    assert_eq!(buffer.read_u16(), Err(CodecError::BufferBounds));
    assert_eq!(buffer.pos(), 512);
}

#[test]
fn read_u32_across_end_stops_at_end() {
    let mut buffer = BytePacketBuffer::new();
    buffer.seek(509).unwrap();
    assert_eq!(buffer.read_u32(), Err(CodecError::BufferBounds));
    assert_eq!(buffer.pos(), 512);
    buffer.seek(508).unwrap();
    assert_eq!(buffer.read_u32(), Ok(0));
    assert_eq!(buffer.pos(), 512);
}

#[test]
fn write_u16_is_big_endian() {
    let mut buffer = BytePacketBuffer::new();
    buffer.write_u16(0x1234).unwrap();
    assert_eq!(&buffer.buf[0..3], &[0x12, 0x34, 0x00]);
}

#[test]
fn write_u32_is_big_endian() {
    let mut buffer = BytePacketBuffer::new();
    buffer.write_u32(0x12345678).unwrap();
    assert_eq!(&buffer.buf[0..5], &[0x12, 0x34, 0x56, 0x78, 0x00]);
}

#[test]
fn write_at_end_fails_without_change() {
    let mut buffer = BytePacketBuffer::new();
    buffer.seek(512).unwrap();
    assert_eq!(buffer.write(1), Err(CodecError::BufferBounds));
    assert_eq!(buffer.write_u8(1), Err(CodecError::BufferBounds));
    assert_eq!(buffer.write_u16(0x0101), Err(CodecError::BufferBounds));
    assert_eq!(buffer.write_u32(0x01010101), Err(CodecError::BufferBounds));
    assert_eq!(buffer.pos(), 512);
    assert!(buffer.buf.iter().all(|b| *b == 0));
}

#[test]
fn write_u16_across_end_writes_what_fits() {
    let mut buffer = BytePacketBuffer::new();
    buffer.seek(511).unwrap();
    assert_eq!(buffer.write_u16(0xA1B2), Err(CodecError::BufferBounds));
    assert_eq!(buffer.buf[511], 0xA1);
    assert_eq!(buffer.pos(), 512);
}

#[test]
fn write_u32_across_end_writes_what_fits() {
    let mut buffer = BytePacketBuffer::new();
    buffer.seek(510).unwrap();
    assert_eq!(buffer.write_u32(0xA1B2C3D4), Err(CodecError::BufferBounds));
    assert_eq!(&buffer.buf[509..512], &[0x00, 0xA1, 0xB2]);
    assert_eq!(buffer.pos(), 512);
}

#[test]
fn write_fills_last_byte() {
    let mut buffer = BytePacketBuffer::new();
    buffer.seek(511).unwrap();
    assert_eq!(buffer.write_u8(9), Ok(()));
    assert_eq!(buffer.buf[511], 9);
    assert_eq!(buffer.pos(), 512);
}

#[test]
fn get_does_not_move_cursor() {
    let mut buffer = BytePacketBuffer::new();
    buffer.buf[100] = 42;
    assert_eq!(buffer.get(100), Ok(42));
    assert_eq!(buffer.pos(), 0);
    assert_eq!(buffer.get(511), Ok(0));
    assert_eq!(buffer.get(512), Err(CodecError::BufferBounds));
}

#[test]
fn get_range_bounds() {
    let mut buffer = BytePacketBuffer::new();
    buffer.buf[510] = 1;
    buffer.buf[511] = 2;
    assert_eq!(buffer.get_range(510, 2).unwrap(), &[1u8, 2u8]);
    assert_eq!(buffer.get_range(512, 0).unwrap().len(), 0);
    assert_eq!(buffer.get_range(510, 3), Err(CodecError::BufferBounds));
    assert_eq!(buffer.get_range(513, 0), Err(CodecError::BufferBounds));
    assert_eq!(buffer.get_range(usize::MAX, 2), Err(CodecError::BufferBounds));
    assert_eq!(buffer.get_range(2, usize::MAX), Err(CodecError::BufferBounds));
    assert_eq!(buffer.pos(), 0);
}

#[test]
fn step_and_seek_move_cursor() {
    let mut buffer = BytePacketBuffer::new();
    assert_eq!(buffer.step(5), Ok(()));
    assert_eq!(buffer.pos(), 5);
    assert_eq!(buffer.step(7), Ok(()));
    assert_eq!(buffer.pos(), 12);
    assert_eq!(buffer.seek(3), Ok(()));
    assert_eq!(buffer.pos(), 3);
    assert_eq!(buffer.step(600), Ok(()));
    assert_eq!(buffer.pos(), 603);
    assert_eq!(buffer.read(), Err(CodecError::BufferBounds));
}

#[test]
fn set_and_set_u16_patch_in_place() {
    let mut buffer = BytePacketBuffer::new();
    buffer.seek(20).unwrap();
    assert_eq!(buffer.set(3, 0xEE), Ok(()));
    assert_eq!(buffer.buf[3], 0xEE);
    assert_eq!(buffer.set_u16(10, 0xBEEF), Ok(()));
    assert_eq!(&buffer.buf[10..12], &[0xBE, 0xEF]);
    assert_eq!(buffer.pos(), 20);
    assert_eq!(buffer.set(512, 1), Err(CodecError::BufferBounds));
    assert_eq!(buffer.set_u16(511, 0x0102), Err(CodecError::BufferBounds));
    assert_eq!(buffer.buf[511], 0x01);
    assert_eq!(buffer.set_u16(510, 0x0304), Ok(()));
    assert_eq!(&buffer.buf[510..512], &[0x03, 0x04]);
}

#[test]
fn successful_operations_keep_cursor_in_buffer() {
    let mut buffer = BytePacketBuffer::new();
    buffer.seek(508).unwrap();
    assert!(buffer.write_u32(1).is_ok());
    assert!(buffer.pos() <= 512);
    buffer.seek(510).unwrap();
    assert!(buffer.read_u16().is_ok());
    assert!(buffer.pos() <= 512);
    buffer.buf[511] = 0;
    buffer.seek(511).unwrap();
    let mut out = String::new();
    assert!(buffer.read_qname(&mut out).is_ok());
    assert!(buffer.pos() <= 512);
}

#[test]
fn error_messages() {
    assert_eq!(CodecError::BufferBounds.message(), "End of buffer");
    assert_eq!(CodecError::JumpLimitExceeded.message(), "Limit of 5 jumps exceeded");
    assert_eq!(
        CodecError::LabelTooLong.message(),
        "Label is too long and exceeds 63 characters"
    );
}
