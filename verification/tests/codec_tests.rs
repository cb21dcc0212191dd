use kvwal::bytecode_serializer::BytecodeSerializer;
use kvwal::errors::BytecodeSerializerError;
use kvwal::operation::Op;

#[test]
fn test_conver_to_varint() {
    let number = 127;
    let expected = vec![0b0111_1111];
    let result = BytecodeSerializer::convert_to_varint(number);
    assert_eq!(result, expected);
}

#[test]
fn test_conver_to_varint_2() {
    let number = 128;
    let expected = vec![0b1000_0000, 0b0000_0001];
    let result = BytecodeSerializer::convert_to_varint(number);
    assert_eq!(result, expected);
}

#[test]
fn test_conver_to_varint_3() {
    let number = 300;
    let expected = vec![0b1010_1100, 0b0000_0010];
    let result = BytecodeSerializer::convert_to_varint(number);
    assert_eq!(result, expected);
}

#[test]
fn test_conver_to_varint_4() {
    let number = 16384;
    let expected = vec![0b1000_0000, 0b1000_0000, 0b0000_0001];
    let result = BytecodeSerializer::convert_to_varint(number);
    assert_eq!(result, expected);
}

#[test]
fn test_conver_to_varint_5() {
    let number = 2097152;
    let expected = vec![0b1000_0000, 0b1000_0000, 0b1000_0000, 0b0000_0001];
    let result = BytecodeSerializer::convert_to_varint(number);
    assert_eq!(result, expected);
}

#[test]
fn varint_of_zero() {
    assert_eq!(BytecodeSerializer::convert_to_varint(0), vec![0x00]);
    assert_eq!(
        BytecodeSerializer::convert_from_varint(&[0x00]).unwrap(),
        (0, 1)
    );
}

#[test]
fn test_convert_from_varint() {
    let bytes = vec![0b0111_1111];
    let expected = (127, 1);
    let result = BytecodeSerializer::convert_from_varint(&bytes).unwrap();
    assert_eq!(result, expected);
}

#[test]
fn test_convert_from_varint_2() {
    let bytes = vec![0b1000_0000, 0b0000_0001];
    let expected = (128, 2);
    let result = BytecodeSerializer::convert_from_varint(&bytes).unwrap();
    assert_eq!(result, expected);
}

#[test]
fn test_convert_from_varint_3() {
    let bytes = vec![0b1010_1100, 0b0000_0010];
    let expected = (300, 2);
    let result = BytecodeSerializer::convert_from_varint(&bytes).unwrap();
    assert_eq!(result, expected);
}

#[test]
fn test_convert_from_varint_4() {
    let bytes = vec![0b1000_0000, 0b1000_0000, 0b0000_0001];
    let expected = (16384, 3);
    let result = BytecodeSerializer::convert_from_varint(&bytes).unwrap();
    assert_eq!(result, expected);
}

#[test]
fn test_convert_from_varint_5() {
    let bytes = vec![0b1000_0000, 0b1000_0000, 0b1000_0000, 0b0000_0001];
    let expected = (2097152, 4);
    let result = BytecodeSerializer::convert_from_varint(&bytes).unwrap();
    assert_eq!(result, expected);
}

#[test]
fn test_convert_from_varint_6() {
    let bytes = vec![0b0000_0000, 0b1000_0000, 0b1000_0000, 0b0000_0001];
    let expected = (0, 1);
    let result = BytecodeSerializer::convert_from_varint(&bytes).unwrap();
    assert_eq!(result, expected);
}

#[test]
fn varint_round_trip_various() {
    for n in [1u64, 127, 128, 300, 16384, 1 << 20, u64::MAX] {
        let enc = BytecodeSerializer::convert_to_varint(n);
        let (v, used) = BytecodeSerializer::convert_from_varint(&enc).unwrap();
        assert_eq!(v, n);
        assert_eq!(used, enc.len());
    }
}

#[test]
fn varint_decode_truncated() {
    assert_eq!(
        BytecodeSerializer::convert_from_varint(&[]),
        Err(BytecodeSerializerError::Truncated)
    );
    assert_eq!(
        BytecodeSerializer::convert_from_varint(&[0x80, 0x80]),
        Err(BytecodeSerializerError::Truncated)
    );
}

#[test]
fn varint_decode_overflow() {
    // eleven digits need a shift past bit 63
    let bytes = [0x80, 0x80, 0x80, 0x80, 0x80, 0x80, 0x80, 0x80, 0x80, 0x80, 0x01];
    assert_eq!(
        BytecodeSerializer::convert_from_varint(&bytes),
        Err(BytecodeSerializerError::VarintOverflow)
    );
    // ten digits whose value passes 2^64
    let bytes = [0x80, 0x80, 0x80, 0x80, 0x80, 0x80, 0x80, 0x80, 0x80, 0x02];
    assert_eq!(
        BytecodeSerializer::convert_from_varint(&bytes),
        Err(BytecodeSerializerError::VarintOverflow)
    );
}

#[test]
fn test_op_to_bytes() {
    let op = Op::GET { key: "key".to_string(), timestamp: 1234567890 };
    let op_bytes = BytecodeSerializer::op_to_bytes(&op);
    let expected = vec![
        237, 200, 254, 222, 2, 210, 133, 216, 204, 4, 3, 107, 101, 121, 4, 50, 178, 183, 170,
        229, 177, 0, 11,
    ];
    assert_eq!(op_bytes, expected);
}

#[test]
fn test_op_from_bytes() {
    let op = Op::GET { key: "key".to_string(), timestamp: 1234567890 };
    let op_result = BytecodeSerializer::op_from_bytes(vec![
        2, 210, 133, 216, 204, 4, 3, 107, 101, 121, 4, 50, 178, 183, 170,
    ])
    .unwrap();
    assert_eq!(op, op_result);
}

fn strip_magics(frame: &[u8]) -> Vec<u8> {
    frame[4..frame.len() - 4].to_vec()
}

#[test]
fn frame_round_trip_all_kinds() {
    let ops = vec![
        Op::SET { timestamp: -7, key: "k".to_string(), value: "v".to_string() },
        Op::SET { timestamp: 0, key: String::new(), value: String::new() },
        Op::GET { timestamp: i64::MIN, key: "café ☕".to_string() },
        Op::DEL { timestamp: i64::MAX, key: "a key".to_string() },
    ];
    for op in ops {
        let frame = BytecodeSerializer::op_to_bytes(&op);
        let back = BytecodeSerializer::op_from_bytes(strip_magics(&frame)).unwrap();
        assert_eq!(back, op);
    }
}

#[test]
fn crc_flip_any_bit_is_detected() {
    let op = Op::SET { timestamp: 42, key: "key".to_string(), value: "value".to_string() };
    let body = strip_magics(&BytecodeSerializer::op_to_bytes(&op));
    for byte in 0..body.len() {
        for bit in 0..8 {
            let mut corrupted = body.clone();
            corrupted[byte] ^= 1 << bit;
            assert!(
                BytecodeSerializer::op_from_bytes(corrupted).is_err(),
                "flip of bit {} in byte {} went unnoticed",
                bit,
                byte
            );
        }
    }
}

#[test]
fn decode_rejects_unknown_opcode() {
    let op = Op::DEL { timestamp: 1, key: "k".to_string() };
    let mut body = strip_magics(&BytecodeSerializer::op_to_bytes(&op));
    body[0] = 0x03;
    assert_eq!(
        BytecodeSerializer::op_from_bytes(body),
        Err(BytecodeSerializerError::UnknownOpcode)
    );
}

#[test]
fn decode_rejects_bad_crc_len() {
    // header, timestamp 0, key "k", then a crc length of 5
    let mut body = vec![0x02, 0x00, 0x01, b'k'];
    body.push(0x05);
    body.extend([0, 0, 0, 0, 0]);
    assert_eq!(
        BytecodeSerializer::op_from_bytes(body),
        Err(BytecodeSerializerError::BadCrcLen)
    );
}

#[test]
fn decode_rejects_bad_utf8_key() {
    // header GET, timestamp 0, key of one invalid byte
    let body = vec![0x02, 0x00, 0x01, 0xFF];
    assert_eq!(
        BytecodeSerializer::op_from_bytes(body),
        Err(BytecodeSerializerError::BadUtf8)
    );
}

#[test]
fn decode_rejects_truncated_input() {
    assert_eq!(
        BytecodeSerializer::op_from_bytes(vec![]),
        Err(BytecodeSerializerError::Truncated)
    );
    assert_eq!(
        BytecodeSerializer::op_from_bytes(vec![0x02, 0x00, 0x05, b'k']),
        Err(BytecodeSerializerError::Truncated)
    );
}

#[test]
fn test_split_to_chunks() {
    let magic_start = 0xDEFEC8EDu32.to_le_bytes();
    let magic_end = 0x0B00B1E5u32.to_le_bytes();
    let mut test_buff: Vec<u8> = vec![];
    let mut chunks: Vec<Vec<u8>> = vec![];
    for x in 1690..1710 {
        let x = x as i32;
        let slice = x.to_le_bytes().to_vec();
        chunks.push(slice)
    }
    for chunk in &chunks {
        test_buff.extend_from_slice(&magic_start);
        test_buff.extend_from_slice(&chunk);
        test_buff.extend_from_slice(&magic_end);
    }
    let chunks_control = BytecodeSerializer::split_to_chunks(&test_buff);
    assert_eq!(chunks, chunks_control);
}

#[test]
fn split_short_input_yields_nothing() {
    assert!(BytecodeSerializer::split_to_chunks(&[]).is_empty());
    assert!(BytecodeSerializer::split_to_chunks(&[0xed]).is_empty());
    assert!(BytecodeSerializer::split_to_chunks(&[0xed, 0xc8, 0xfe]).is_empty());
}

#[test]
fn split_recovers_frame_payloads() {
    let ops = vec![
        Op::SET { timestamp: 1, key: "a".to_string(), value: "1".to_string() },
        Op::DEL { timestamp: 2, key: "a".to_string() },
        Op::GET { timestamp: 3, key: "b".to_string() },
    ];
    let mut buffer: Vec<u8> = Vec::new();
    let mut payloads: Vec<Vec<u8>> = Vec::new();
    for op in &ops {
        let frame = BytecodeSerializer::op_to_bytes(op);
        payloads.push(strip_magics(&frame));
        buffer.extend_from_slice(&frame);
    }
    assert_eq!(BytecodeSerializer::split_to_chunks(&buffer), payloads);
    let recovered = BytecodeSerializer::recover_from_bytes(&buffer).unwrap();
    assert_eq!(recovered, ops);
}

#[test]
fn recover_stops_at_first_bad_frame() {
    let good = BytecodeSerializer::op_to_bytes(&Op::DEL { timestamp: 5, key: "x".to_string() });
    let mut bad = good.clone();
    let len = bad.len();
    bad[len - 9] ^= 0x01;  // inside the CRC trailer
    let mut buffer = good.clone();
    buffer.extend_from_slice(&bad);
    assert!(BytecodeSerializer::recover_from_bytes(&buffer).is_err());
}

#[test]
fn decode_rejects_crc_mismatch() {
    let op = Op::GET { key: "key".to_string(), timestamp: 1234567890 };
    let mut body = strip_magics(&BytecodeSerializer::op_to_bytes(&op));
    // flip one bit of the 'e' in the key: still UTF-8, same lengths
    body[8] ^= 0x01;
    assert_eq!(
        BytecodeSerializer::op_from_bytes(body),
        Err(BytecodeSerializerError::BadCrc)
    );
}
