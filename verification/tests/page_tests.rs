use kvwal::block::{Block, Header, LinePointer, PersistentLayerError, ValueEntry};

#[test]
fn header_round_trip() {
    let header = Header {
        page_size: 8192,
        checksum: 0,
        flags: 0,
        lower: 46,
        upper: 8185,
        linp: 12,
    };
    let bytes = header.to_bytes();
    assert_eq!(bytes.len(), 12);
    let back = Header::from_bytes(&bytes).unwrap();
    assert_eq!(back.page_size, 8192);
    assert_eq!(back.lower, 46);
    assert_eq!(back.upper, 8185);
    assert_eq!(back.linp, 12);
}

#[test]
fn header_space_check() {
    let header = Header {
        page_size: 8192,
        checksum: 0,
        flags: 0,
        lower: 12,
        upper: 8191,
        linp: 12,
    };
    assert!(header.is_space_to_write(8179));
    assert!(!header.is_space_to_write(8180));
}

#[test]
fn line_pointer_round_trip() {
    let lp = LinePointer::<32>::new("some_key".to_string(), 4096).unwrap();
    let bytes = lp.to_bytes();
    assert_eq!(bytes.len(), 34);
    let back = LinePointer::<32>::from_bytes(&bytes).unwrap();
    assert_eq!(back.0, "some_key");
    assert_eq!(back.1, 4096);
}

#[test]
fn line_pointer_rejects_long_key() {
    let key = "k".repeat(33);
    assert!(matches!(
        LinePointer::<32>::new(key, 0),
        Err(PersistentLayerError::LinePointerLenError(32, 33))
    ));
}

#[test]
fn value_entry_round_trip() {
    let ve = ValueEntry::from_str("hello").unwrap();
    assert_eq!(ve.len, 5);
    let bytes = ve.to_bytes();
    assert_eq!(bytes, vec![5, 0, 0, 0, b'h', b'e', b'l', b'l', b'o']);
    let back = ValueEntry::from_bytes(&bytes).unwrap();
    assert_eq!(back.len, 5);
    assert_eq!(back.value, "hello");
}

#[test]
fn page_round_trip_no_overflow() {
    let pairs: Vec<(String, String)> = (0..10)
        .map(|i| (format!("key{}", i), format!("value{}", i)))
        .collect();
    let (block, overflow) = Block::construct(pairs.clone()).unwrap();
    assert!(overflow.is_empty());
    let bytes = block.to_bytes();
    assert_eq!(bytes.len(), 8192);
    let decoded = Block::decode(&bytes).unwrap();
    assert_eq!(decoded, pairs);
}

#[test]
fn page_overflow_splits_at_capacity() {
    // 300 pairs at 58 encoded bytes each pass the free space of 8179 bytes
    let pairs: Vec<(String, String)> = (0..300)
        .map(|i| (format!("key{:03}", i), "v".repeat(20)))
        .collect();
    let (block, overflow) = Block::construct(pairs.clone()).unwrap();
    assert!(!overflow.is_empty());
    let fitted = pairs.len() - overflow.len();
    assert_eq!(fitted, 8179 / 58);
    // the overflow is the suffix that did not fit
    assert_eq!(overflow, pairs[fitted..].to_vec());
    // the page decodes to exactly the prefix that did
    let decoded = Block::decode(&block.to_bytes()).unwrap();
    assert_eq!(decoded, pairs[..fitted].to_vec());
}

#[test]
fn construct_rejects_long_key() {
    let pairs = vec![("k".repeat(40), "v".to_string())];
    assert!(matches!(
        Block::construct(pairs),
        Err(PersistentLayerError::LinePointerLenError(32, 40))
    ));
}

#[test]
fn oversized_pair_overflows_without_blocking_later_pairs() {
    let pairs = vec![
        ("big".to_string(), "x".repeat(9000)),
        ("small".to_string(), "v".to_string()),
    ];
    let (block, overflow) = Block::construct(pairs).unwrap();
    assert_eq!(overflow, vec![("big".to_string(), "x".repeat(9000))]);
    let decoded = Block::decode(&block.to_bytes()).unwrap();
    assert_eq!(decoded, vec![("small".to_string(), "v".to_string())]);
}

#[test]
fn decode_rejects_wrong_page_size() {
    let mut bytes = vec![0u8; 8192];
    bytes[0] = 0;
    bytes[1] = 1;  // page_size 256
    assert!(matches!(
        Block::decode(&bytes),
        Err(PersistentLayerError::HeaderError(_))
    ));
}

#[test]
fn line_pointer_rejects_wrong_width() {
    assert!(matches!(
        LinePointer::<32>::from_bytes(&[0u8; 33]),
        Err(PersistentLayerError::LinePointerSerializationError)
    ));
}

#[test]
fn line_pointer_rejects_bad_utf8() {
    let mut bytes = [0u8; 34];
    bytes[0] = 0xFF;
    assert!(matches!(
        LinePointer::<32>::from_bytes(&bytes),
        Err(PersistentLayerError::FailedParsingUTF8)
    ));
}

#[test]
fn value_entry_rejects_truncation() {
    assert!(matches!(
        ValueEntry::from_bytes(&[9, 0]),
        Err(PersistentLayerError::Deserialization(_))
    ));
    assert!(matches!(
        ValueEntry::from_bytes(&[9, 0, 0, 0, b'a']),
        Err(PersistentLayerError::Deserialization(_))
    ));
}
