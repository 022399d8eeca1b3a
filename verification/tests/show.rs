use jpl_runtime::error::{ErrorKind, Expected};
use jpl_runtime::memory::Snapshot;
use jpl_runtime::render::Fault;
use jpl_runtime::show::{show, Failure};
use jpl_runtime::text::{byte_is_digit, byte_is_space, literal_bytes, to_str};

fn ints(values: &[i64]) -> Vec<u8> {
    let mut bytes = Vec::new();
    for value in values {
        bytes.extend_from_slice(&value.to_le_bytes());
    }
    bytes
}

#[test]
fn shows_a_tuple() {
    let mut mem = Snapshot::new();
    mem.map(0x1000, ints(&[7, -3]));
    assert_eq!(
        show(b"(TupleType (IntType) (IntType))", &mem, 0x1000),
        Ok("{7, -3}".to_string())
    );
}

#[test]
fn shows_a_matrix() {
    let mut mem = Snapshot::new();
    mem.map(0x10, ints(&[2, 3, 0x100]));
    mem.map(0x100, ints(&[0, 1, 2, 3, 4, 5]));
    assert_eq!(
        show(b"(ArrayType (IntType) 2)", &mem, 0x10),
        Ok("[0, 1, 2; 3, 4, 5]".to_string())
    );
}

#[test]
fn truncated_keyword_is_rejected_before_memory_is_read() {
    let malformed = || {
        Failure::Error(ErrorKind::MalformedDescriptor { offset: 1, expected: Expected::Token })
    };
    let empty = Snapshot::new();
    assert_eq!(show(b"(TupleTyp", &empty, 0x1000), Err(malformed()));
    let mut full = Snapshot::new();
    full.map(0x1000, ints(&[1, 2, 3]));
    assert_eq!(show(b"(TupleTyp", &full, 0x1000), Err(malformed()));
    assert_eq!(show(b"(TupleTyp", &full, 0), Err(malformed()));
}

#[test]
fn invalid_rank_is_rejected() {
    let mem = Snapshot::new();
    assert_eq!(
        show(b"(ArrayType (IntType) 256)", &mem, 0),
        Err(Failure::Error(ErrorKind::MalformedDescriptor {
            offset: 21,
            expected: Expected::Integer
        }))
    );
}

#[test]
fn descriptor_that_is_no_text_is_rejected() {
    let mem = Snapshot::new();
    assert_eq!(
        show(b"(IntType)\xff", &mem, 0),
        Err(Failure::Error(ErrorKind::InvalidTextEncoding))
    );
    assert_eq!(
        show(b"\xc3(IntType)", &mem, 0),
        Err(Failure::Error(ErrorKind::InvalidTextEncoding))
    );
}

#[test]
fn text_behind_the_descriptor_is_not_read() {
    let mut mem = Snapshot::new();
    mem.map(0, ints(&[12]));
    assert_eq!(show("(IntType) \u{e9}".as_bytes(), &mem, 0), Ok("12".to_string()));
}

#[test]
fn what_memory_lacks_is_handed_on() {
    let mem = Snapshot::new();
    assert_eq!(
        show(b"(IntType)", &mem, 0x40),
        Err(Failure::Faults(vec![Fault::Unmapped { addr: 0x40, len: 8 }]))
    );
    let mut some = Snapshot::new();
    some.map(0x40, ints(&[5]));
    assert_eq!(
        show(b"(FloatType)", &some, 0x40),
        Err(Failure::Faults(vec![Fault::Unformatted { bits: 5 }]))
    );
}

#[test]
fn to_str_gives_the_text_of_utf8_bytes() {
    assert_eq!(to_str(b"hello"), Ok("hello"));
    assert_eq!(to_str(b""), Ok(""));
    assert_eq!(to_str(&[0x68, 0xc3, 0xa9]), Ok("h\u{e9}"));
    assert_eq!(to_str("(IntType)".as_bytes()), Ok("(IntType)"));
}

#[test]
fn to_str_rejects_what_is_not_utf8() {
    assert_eq!(to_str(&[0xff]), Err(ErrorKind::InvalidTextEncoding));
    assert_eq!(to_str(&[0x68, 0xc3]), Err(ErrorKind::InvalidTextEncoding));
    assert_eq!(to_str(&[0xed, 0xa0, 0x80]), Err(ErrorKind::InvalidTextEncoding));
    assert_eq!(to_str(&[0xc0, 0x80]), Err(ErrorKind::InvalidTextEncoding));
}

#[test]
fn byte_classes_agree_with_the_standard_ones() {
    for byte in 0u8..=255 {
        assert_eq!(byte_is_space(byte), byte.is_ascii_whitespace());
        assert_eq!(byte_is_digit(byte), byte.is_ascii_digit());
    }
}

#[test]
fn literal_bytes_are_the_bytes_of_the_text() {
    assert_eq!(literal_bytes("IntType"), &[0x49u8, 0x6e, 0x74, 0x54, 0x79, 0x70, 0x65][..]);
    assert_eq!(literal_bytes(""), &[][..] as &[u8]);
}
