use dns_resolver::buffer::{BufferBuilder, BufferParser};
use dns_resolver::errors::DnsError;

#[test]
fn test_buffer_parser_basic() {
    let data = [
        0x01, 0x02, 0x03, 0x04, 0x05, 0x06, 0x07, 0x08, 0x09, 0x0a, 0x0b, 0x0c, 0x0d, 0x0e, 0x0f,
        0x10, 0x11, 0x12, 0x13, 0x14, 0x15, 0x16, 0x17, 0x18, 0x19, 0x1a, 0x1b, 0x1c, 0x1d, 0x1e,
        0x1f, 0x20,
    ];

    let parser = BufferParser::new(&data);

    assert_eq!(parser.get(0).unwrap(), 0x01);
    assert_eq!(parser.get_u16(0).unwrap(), 0x0102);
    assert_eq!(parser.get_u32(0).unwrap(), 0x01020304);
    assert_eq!(parser.get_u128(0).unwrap(), 0x0102030405060708090a0b0c0d0e0f10);
    assert_eq!(parser.get_range(0, 4).unwrap(), vec![0x01, 0x02, 0x03, 0x04]);
}

#[test]
fn test_buffer_parser_read() {
    let data = [
        0x01, 0x02, 0x03, 0x04, 0x05, 0x06, 0x07, 0x08, 0x09, 0x0a, 0x0b, 0x0c, 0x0d, 0x0e, 0x0f,
        0x10, 0x11, 0x12, 0x13, 0x14, 0x15, 0x16, 0x17, 0x18, 0x19, 0x1a, 0x1b, 0x1c, 0x1d, 0x1e,
        0x1f, 0x20,
    ];

    let mut parser = BufferParser::new(&data);

    assert_eq!(parser.read().unwrap(), 0x01);
    assert_eq!(parser.read_u16().unwrap(), 0x0203);
    assert_eq!(parser.read_u32().unwrap(), 0x04050607);
    assert_eq!(parser.read_u128().unwrap(), 0x08090a0b0c0d0e0f1011121314151617);
}

#[test]
fn test_buffer_parser_read_name() {
    let data = [
        0x07, 0x65, 0x78, 0x61, 0x6d, 0x70, 0x6c, 0x65, 0x03, 0x63, 0x6f, 0x6d, 0x00, 0x07, 0x61,
        0x6e, 0x6f, 0x74, 0x68, 0x65, 0x72, 0x03, 0x6f, 0x72, 0x67, 0x00,
    ];

    let mut parser = BufferParser::new(&data);

    assert_eq!(parser.read_name().unwrap(), "example.com");
    assert_eq!(parser.read_name().unwrap(), "another.org");
}

#[test]
fn test_write_buffer_basic() {
    let mut write_buffer = BufferBuilder::new(vec![0u8; 32]);

    write_buffer.write(0x01).unwrap();
    write_buffer.write_u16(0x0203).unwrap();
    write_buffer.write_u32(0x04050607).unwrap();
    write_buffer.write_u128(0x08090a0b0c0d0e0f1011121314151617).unwrap();

    let expected_output = vec![
        0x01, 0x02, 0x03, 0x04, 0x05, 0x06, 0x07, 0x08, 0x09, 0x0a, 0x0b, 0x0c, 0x0d, 0x0e, 0x0f,
        0x10, 0x11, 0x12, 0x13, 0x14, 0x15, 0x16, 0x17, 0x00, 0x00, 0x00, 0x00, 0x00, 0x00, 0x00,
        0x00, 0x00,
    ];

    assert_eq!(write_buffer.into_buf(), expected_output);
}

#[test]
fn test_read_write_buffer_integration() {
    let mut write_buffer = BufferBuilder::new(vec![0u8; 32]);

    write_buffer.write(0x01).unwrap();
    write_buffer.write_u16(0x0203).unwrap();
    write_buffer.write_u32(0x04050607).unwrap();
    write_buffer.write_u128(0x08090a0b0c0d0e0f1011121314151617).unwrap();
    let data = write_buffer.into_buf();

    let mut read_buffer = BufferParser::new(&data);

    assert_eq!(read_buffer.read().unwrap(), 0x01);
    assert_eq!(read_buffer.read_u16().unwrap(), 0x0203);
    assert_eq!(read_buffer.read_u32().unwrap(), 0x04050607);
    assert_eq!(read_buffer.read_u128().unwrap(), 0x08090a0b0c0d0e0f1011121314151617);
}

#[test]
fn test_read_write_name_integration() {
    let mut write_buffer = BufferBuilder::new(vec![0u8; 32]);

    write_buffer.write_name("example.com").unwrap();
    write_buffer.write_name("another.org").unwrap();
    let data = write_buffer.into_buf();

    let mut read_buffer = BufferParser::new(&data);

    assert_eq!(read_buffer.read_name().unwrap(), "example.com");
    assert_eq!(read_buffer.read_name().unwrap(), "another.org");
}

#[test]
fn test_read_name_lowercases() {
    let mut write_buffer = BufferBuilder::new(vec![0u8; 32]);
    write_buffer.write_name("ExAmPlE.CoM").unwrap();
    let data = write_buffer.into_buf();

    let mut read_buffer = BufferParser::new(&data);
    assert_eq!(read_buffer.read_name().unwrap(), "example.com");
}

#[test]
fn test_read_name_follows_pointer() {
    // a name at offset 0, then a pointer to it
    let data = [
        0x03, 0x63, 0x6f, 0x6d, 0x00, 0x03, 0x77, 0x77, 0x77, 0xC0, 0x00, 0x00,
    ];
    let mut parser = BufferParser::new(&data);
    parser.seek(5);
    assert_eq!(parser.read_name().unwrap(), "www.com");
    // the cursor resumes after the first pointer
    assert_eq!(parser.get_pos(), 11);
}

#[test]
fn test_read_name_too_many_jumps() {
    // a pointer that points at itself jumps forever
    let data = [0xC0, 0x00, 0x00, 0x00];
    let mut parser = BufferParser::new(&data);
    let result = parser.read_name();
    assert_eq!(result.unwrap_err(), DnsError::TooManyJumps);
}

#[test]
fn test_write_name_label_too_long() {
    let mut write_buffer = BufferBuilder::new(vec![0u8; 512]);
    let long_label = "a".repeat(64);
    let result = write_buffer.write_name(&long_label);
    assert_eq!(result.unwrap_err(), DnsError::LabelTooLong);
}

#[test]
fn test_write_name_end_of_buffer() {
    let mut write_buffer = BufferBuilder::new(vec![0u8; 8]);
    let result = write_buffer.write_name("example.com");
    assert_eq!(result.unwrap_err(), DnsError::EndOfBuffer);
}
