use haiku::errors::{ErrorKind, HaikuError};
use haiku::flattenable::Flattenable;
use haiku::mimetype::MimeType;
use haiku::types::haiku_constant;

#[test]
fn test_flattenable_primitives() {
    let value: u8 = 150;
    let flattened_value = value.flatten();
    assert_eq!(flattened_value.len(), value.flattened_size());
    assert_eq!(value, flattened_value[0]);

    let value: i64 = -3_223_372_036_854_775_807;
    let flattened_value = value.flatten();
    let unflattened_value = i64::unflatten(&flattened_value).unwrap();
    assert_eq!(value, unflattened_value);

    let value = "This is a test string".to_string();
    let flattened_value = value.flatten();
    let unflattened_value = String::unflatten(&flattened_value).unwrap();
    assert_eq!(value, unflattened_value);
}

#[test]
fn integers_flatten_little_endian() {
    assert_eq!(0x1234u16.flatten(), vec![0x34, 0x12]);
    assert_eq!((-2i32).flatten(), vec![0xfe, 0xff, 0xff, 0xff]);
    assert_eq!(1u64.flatten(), vec![1, 0, 0, 0, 0, 0, 0, 0]);
    assert_eq!(true.flatten(), vec![1]);
    assert_eq!(i16::unflatten(&[0xd2, 0x04]).unwrap(), 1234);
    assert_eq!(u32::unflatten(&[1, 2, 3, 4]).unwrap(), 0x04030201);
}

#[test]
fn unflatten_rejects_wrong_sizes() {
    assert_eq!(u32::unflatten(&[1, 2, 3]).unwrap_err().kind(), ErrorKind::InvalidData);
    assert_eq!(bool::unflatten(&[]).unwrap_err().kind(), ErrorKind::InvalidData);
}

#[test]
fn strings_are_nul_terminated_utf8() {
    assert_eq!("abc".to_string().flatten(), vec![97, 98, 99, 0]);
    assert_eq!(String::unflatten(&[104, 105, 0]).unwrap(), "hi");
    assert_eq!(String::unflatten(&[104, 105]).unwrap_err().kind(), ErrorKind::InvalidData);
    assert_eq!(String::unflatten(&[104, 0, 105, 0]).unwrap_err().kind(), ErrorKind::InvalidData);
    assert_eq!(String::unflatten(&[0xff, 0xfe, 0]).unwrap_err().kind(), ErrorKind::InvalidData);
}

#[test]
fn four_character_codes() {
    assert_eq!(haiku_constant('a', 'b', 'c', 'd'), 0x61626364);
    assert_eq!(haiku_constant('_', 'Q', 'I', 'T'), haiku::types::QUIT);
}

#[test]
fn error_kinds() {
    let e = HaikuError::new(ErrorKind::NotFound, "missing");
    assert_eq!(e.kind(), ErrorKind::NotFound);
    assert_eq!(e.raw_os_error(), None);
    assert_eq!(e.description(), "missing");
    let e = HaikuError::from_raw_os_error(haiku::errors::B_TIMED_OUT);
    assert_eq!(e.kind(), ErrorKind::TimedOut);
    assert_eq!(e.raw_os_error(), Some(haiku::errors::B_TIMED_OUT));
    assert_eq!(HaikuError::from_raw_os_error(haiku::errors::B_INTERRUPTED).kind(), ErrorKind::Interrupted);
    assert_eq!(HaikuError::from_raw_os_error(haiku::errors::B_BAD_VALUE).kind(), ErrorKind::InvalidInput);
    assert_eq!(HaikuError::from_raw_os_error(-7).kind(), ErrorKind::Other);
    let e = HaikuError::from(ErrorKind::NotAllowed);
    assert_eq!(e.description(), "operation not allowed");
}

#[test]
fn test_mimetype_check() {
    assert!(MimeType::new("application/x-Vnd-Haiku").is_some());
    assert!(MimeType::new("/document").is_none());
    assert!(MimeType::new("application/").is_none());
    assert!(MimeType::new("invalid/\u{0301}rest").is_none());
    assert!(MimeType::new("invalid//x-vnd-haiku").is_none());
}

#[test]
fn test_mimetype_methods() {
    let supertype = MimeType::new("test").unwrap();
    let childtype = MimeType::new("test/document").unwrap();
    assert!(supertype.is_supertype_only());
    assert!(!childtype.is_supertype_only());
    assert!(supertype == childtype.get_supertype());
}

#[test]
fn mimetype_supertype_text() {
    let t = MimeType::new("text/plain").unwrap();
    assert_eq!(t.get_supertype().as_str(), "text");
    assert!(MimeType::new("a b").is_none());
    assert!(MimeType::new(&"x".repeat(241)).is_none());
    assert!(MimeType::new(&"x".repeat(240)).is_some());
}
