use rustic_io::error::CodecError;
use rustic_io::datatypes::var::{
    decode_varint, decode_varlong, encode_varint, encode_varlong, VarInt, VarLong,
};
use scroll::Pread;

fn report(error: CodecError) -> anyhow::Error {
    anyhow::Error::msg(format!("{:?}", error))
}

#[test]
fn varints_read_test() -> anyhow::Result<()> {
    let vals = [
        (0, vec![0x00]),
        (1, vec![0x01]),
        (2, vec![0x02]),
        (127, vec![0x7f]),
        (128, vec![0x80, 0x01]),
        (255, vec![0xff, 0x01]),
        (25565, vec![0xdd, 0xc7, 0x01]),
        (2097151, vec![0xff, 0xff, 0x7f]),
        (2147483647, vec![0xff, 0xff, 0xff, 0xff, 0x07]),
        (-1, vec![0xff, 0xff, 0xff, 0xff, 0x0f]),
        (-2147483648, vec![0x80, 0x80, 0x80, 0x80, 0x08]),
    ];

    for (expected_value, bytes) in vals {
        let (result, _) = VarInt::try_from_ctx(&bytes).map_err(report)?;

        assert_eq!(expected_value, result.0);
    }

    Ok(())
}

#[test]
fn varints_write_test() -> anyhow::Result<()> {
    let vals = [
        (0, vec![0x00]),
        (1, vec![0x01]),
        (2, vec![0x02]),
        (127, vec![0x7f]),
        (128, vec![0x80, 0x01]),
        (255, vec![0xff, 0x01]),
        (25565, vec![0xdd, 0xc7, 0x01]),
        (2097151, vec![0xff, 0xff, 0x7f]),
        (2147483647, vec![0xff, 0xff, 0xff, 0xff, 0x07]),
        (-1, vec![0xff, 0xff, 0xff, 0xff, 0x0f]),
        (-2147483648, vec![0x80, 0x80, 0x80, 0x80, 0x08]),
    ];

    for (result, expected_value) in vals {
        let mut bytes = vec![0; expected_value.len()];

        VarInt(result).try_into_ctx(&mut bytes).map_err(report)?;

        assert_eq!(bytes, expected_value);
    }

    Ok(())
}

#[test]
fn varlongs_read_test() -> anyhow::Result<()> {
    let vals = [
        (0, vec![0x00]),
        (1, vec![0x01]),
        (2, vec![0x02]),
        (127, vec![0x7f]),
        (128, vec![0x80, 0x01]),
        (255, vec![0xff, 0x01]),
        (2147483647, vec![0xff, 0xff, 0xff, 0xff, 0x07]),
        (9223372036854775807, vec![0xff, 0xff, 0xff, 0xff, 0xff, 0xff, 0xff, 0xff, 0x7f]),
        (-1, vec![0xff, 0xff, 0xff, 0xff, 0xff, 0xff, 0xff, 0xff, 0xff, 0x01]),
        (-2147483648, vec![0x80, 0x80, 0x80, 0x80, 0xf8, 0xff, 0xff, 0xff, 0xff, 0x01]),
        (-9223372036854775808, vec![0x80, 0x80, 0x80, 0x80, 0x80, 0x80, 0x80, 0x80, 0x80, 0x01]),
    ];

    for (expected_value, bytes) in vals {
        let (result, _) = VarLong::try_from_ctx(&bytes).map_err(report)?;

        assert_eq!(expected_value, result.0);
    }

    Ok(())
}

#[test]
fn varlongs_write_test() -> anyhow::Result<()> {
    let vals = [
        (0, vec![0x00]),
        (1, vec![0x01]),
        (2, vec![0x02]),
        (127, vec![0x7f]),
        (128, vec![0x80, 0x01]),
        (255, vec![0xff, 0x01]),
        (2147483647, vec![0xff, 0xff, 0xff, 0xff, 0x07]),
        (9223372036854775807, vec![0xff, 0xff, 0xff, 0xff, 0xff, 0xff, 0xff, 0xff, 0x7f]),
        (-1, vec![0xff, 0xff, 0xff, 0xff, 0xff, 0xff, 0xff, 0xff, 0xff, 0x01]),
        (-2147483648, vec![0x80, 0x80, 0x80, 0x80, 0xf8, 0xff, 0xff, 0xff, 0xff, 0x01]),
        (-9223372036854775808, vec![0x80, 0x80, 0x80, 0x80, 0x80, 0x80, 0x80, 0x80, 0x80, 0x01]),
    ];

    for (result, expected_value) in vals {
        let mut bytes = vec![0; expected_value.len()];

        VarLong(result).try_into_ctx(&mut bytes).map_err(report)?;

        assert_eq!(bytes, expected_value);
    }

    Ok(())
}

fn varint_bytes(value: i32) -> Vec<u8> {
    let mut buffer = [0u8; 5];
    let written = encode_varint(value, &mut buffer, 0).expect("five bytes hold every varint");
    buffer[..written].to_vec()
}

fn varlong_bytes(value: i64) -> Vec<u8> {
    let mut buffer = [0u8; 10];
    let written = encode_varlong(value, &mut buffer, 0).expect("ten bytes hold every varlong");
    buffer[..written].to_vec()
}

const INT_SAMPLES: [i32; 19] = [
    0,
    1,
    2,
    127,
    128,
    255,
    16383,
    16384,
    25565,
    2097151,
    2097152,
    268435455,
    268435456,
    i32::MAX,
    -1,
    -2,
    -128,
    -25565,
    i32::MIN,
];

const LONG_SAMPLES: [i64; 19] = [
    0,
    1,
    127,
    128,
    255,
    34359738367,
    34359738368,
    2147483647,
    2147483648,
    4294967295,
    4294967296,
    72057594037927935,
    72057594037927936,
    i64::MAX,
    -1,
    -2,
    -2147483648,
    -2147483649,
    i64::MIN,
];

#[test]
fn varint_returns_written_and_consumed_counts() {
    let mut buffer = [0u8; 5];
    assert_eq!(encode_varint(0, &mut buffer, 0).unwrap(), 1);
    assert_eq!(encode_varint(127, &mut buffer, 0).unwrap(), 1);
    assert_eq!(encode_varint(128, &mut buffer, 0).unwrap(), 2);
    assert_eq!(encode_varint(25565, &mut buffer, 0).unwrap(), 3);
    assert_eq!(encode_varint(2097152, &mut buffer, 0).unwrap(), 4);
    assert_eq!(encode_varint(-1, &mut buffer, 0).unwrap(), 5);
    assert_eq!(VarInt(300).try_into_ctx(&mut buffer).unwrap(), 2);

    assert_eq!(decode_varint(&[0x00], 0).unwrap(), (0, 1));
    assert_eq!(decode_varint(&[0xdd, 0xc7, 0x01], 0).unwrap(), (25565, 3));
    assert_eq!(decode_varint(&[0xff, 0xff, 0xff, 0xff, 0x0f], 0).unwrap(), (-1, 5));
    assert_eq!(VarInt::try_from_ctx(&[0xac, 0x02, 0x99]).unwrap(), (VarInt(300), 2));
}

#[test]
fn varlong_returns_written_and_consumed_counts() {
    let mut buffer = [0u8; 10];
    assert_eq!(encode_varlong(0, &mut buffer, 0).unwrap(), 1);
    assert_eq!(encode_varlong(128, &mut buffer, 0).unwrap(), 2);
    assert_eq!(encode_varlong(i64::MAX, &mut buffer, 0).unwrap(), 9);
    assert_eq!(encode_varlong(-1, &mut buffer, 0).unwrap(), 10);
    assert_eq!(encode_varlong(i64::MIN, &mut buffer, 0).unwrap(), 10);
    assert_eq!(VarLong(300).try_into_ctx(&mut buffer).unwrap(), 2);

    assert_eq!(decode_varlong(&[0x7f], 0).unwrap(), (127, 1));
    assert_eq!(
        decode_varlong(&[0xff, 0xff, 0xff, 0xff, 0xff, 0xff, 0xff, 0xff, 0x7f], 0).unwrap(),
        (i64::MAX, 9)
    );
    assert_eq!(VarLong::try_from_ctx(&[0xac, 0x02, 0x99]).unwrap(), (VarLong(300), 2));
}

#[test]
fn varint_round_trip() {
    for value in INT_SAMPLES {
        let bytes = varint_bytes(value);
        assert_eq!(decode_varint(&bytes, 0).unwrap(), (value, bytes.len()));
        assert_eq!(VarInt::try_from_ctx(&bytes).unwrap(), (VarInt(value), bytes.len()));
    }
}

#[test]
fn varlong_round_trip() {
    for value in LONG_SAMPLES {
        let bytes = varlong_bytes(value);
        assert_eq!(decode_varlong(&bytes, 0).unwrap(), (value, bytes.len()));
        assert_eq!(VarLong::try_from_ctx(&bytes).unwrap(), (VarLong(value), bytes.len()));
    }
}

#[test]
fn round_trip_inside_a_larger_buffer() {
    for value in INT_SAMPLES {
        let mut buffer = [0xEEu8; 12];
        let written = encode_varint(value, &mut buffer, 3).unwrap();
        assert_eq!(&buffer[..3], &[0xEE; 3]);
        assert!(buffer[3 + written..].iter().all(|&b| b == 0xEE));
        assert_eq!(&buffer[3..3 + written], varint_bytes(value).as_slice());
        assert_eq!(decode_varint(&buffer, 3).unwrap(), (value, written));
    }
    for value in LONG_SAMPLES {
        let mut buffer = [0xEEu8; 16];
        let written = encode_varlong(value, &mut buffer, 4).unwrap();
        assert_eq!(&buffer[..4], &[0xEE; 4]);
        assert!(buffer[4 + written..].iter().all(|&b| b == 0xEE));
        assert_eq!(&buffer[4..4 + written], varlong_bytes(value).as_slice());
        assert_eq!(decode_varlong(&buffer, 4).unwrap(), (value, written));
    }
}

#[test]
fn varint_canonical_encodings() {
    assert_eq!(varint_bytes(0), vec![0x00]);
    assert_eq!(varint_bytes(127), vec![0x7F]);
    assert_eq!(varint_bytes(128), vec![0x80, 0x01]);
    assert_eq!(varint_bytes(-1), vec![0xFF, 0xFF, 0xFF, 0xFF, 0x0F]);
    assert_eq!(varint_bytes(2147483647), vec![0xFF, 0xFF, 0xFF, 0xFF, 0x07]);
}

#[test]
fn encoding_has_no_idle_group() {
    for value in INT_SAMPLES {
        let bytes = varint_bytes(value);
        assert!(bytes.len() == 1 || *bytes.last().unwrap() != 0);
        assert!(bytes[..bytes.len() - 1].iter().all(|&b| b & 0x80 != 0));
        assert_eq!(bytes[bytes.len() - 1] & 0x80, 0);
    }
    for value in LONG_SAMPLES {
        let bytes = varlong_bytes(value);
        assert!(bytes.len() == 1 || *bytes.last().unwrap() != 0);
        assert!(bytes[..bytes.len() - 1].iter().all(|&b| b & 0x80 != 0));
        assert_eq!(bytes[bytes.len() - 1] & 0x80, 0);
    }
    // A longer spelling of the same number decodes, but is never produced.
    assert_eq!(decode_varint(&[0x80, 0x00], 0).unwrap(), (0, 2));
    assert_eq!(decode_varint(&[0xFF, 0x80, 0x80, 0x00], 0).unwrap(), (127, 4));
    assert_eq!(varint_bytes(0).len(), 1);
    assert_eq!(varint_bytes(127).len(), 1);
}

#[test]
fn varlong_boundary_literals() {
    assert_eq!(
        varlong_bytes(9223372036854775807),
        vec![0xFF, 0xFF, 0xFF, 0xFF, 0xFF, 0xFF, 0xFF, 0xFF, 0x7F]
    );
    assert_eq!(
        varlong_bytes(-9223372036854775808),
        vec![0x80, 0x80, 0x80, 0x80, 0x80, 0x80, 0x80, 0x80, 0x80, 0x01]
    );
    assert_eq!(
        decode_varlong(&[0x80, 0x80, 0x80, 0x80, 0x80, 0x80, 0x80, 0x80, 0x80, 0x01], 0).unwrap(),
        (i64::MIN, 10)
    );
}

#[test]
fn varint_rejects_oversized_input() {
    let six_groups = [0x80, 0x80, 0x80, 0x80, 0x80, 0x01];
    assert!(matches!(
        decode_varint(&six_groups, 0),
        Err(CodecError::SizeExceeded { size: 0, len: 6 })
    ));
    assert!(matches!(
        VarInt::try_from_ctx(&six_groups),
        Err(CodecError::SizeExceeded { size: 0, len: 6 })
    ));
    // The fifth continuation byte settles it: nothing after it is read.
    assert!(matches!(
        decode_varint(&[0x81, 0x80, 0x80, 0x80, 0x80], 0),
        Err(CodecError::SizeExceeded { size: 1, len: 5 })
    ));
    assert!(matches!(
        decode_varint(&[0xAA, 0xAA, 0xDD, 0xC7, 0x81, 0x80, 0x80, 0x80, 0x01], 2),
        Err(CodecError::SizeExceeded { size: 25565, len: 7 })
    ));
    // A value with its sign bit set is widened as a signed number.
    assert!(matches!(
        decode_varint(&[0xFF, 0xFF, 0xFF, 0xFF, 0xFF, 0x00], 0),
        Err(CodecError::SizeExceeded { size: usize::MAX, len: 6 })
    ));
}

#[test]
fn varlong_rejects_oversized_input() {
    let eleven_groups = [0x80, 0x80, 0x80, 0x80, 0x80, 0x80, 0x80, 0x80, 0x80, 0x80, 0x01];
    assert!(matches!(
        decode_varlong(&eleven_groups, 0),
        Err(CodecError::SizeExceeded { size: 0, len: 11 })
    ));
    assert!(matches!(
        VarLong::try_from_ctx(&eleven_groups),
        Err(CodecError::SizeExceeded { size: 0, len: 11 })
    ));
    assert!(matches!(
        decode_varlong(&[0x85, 0x80, 0x80, 0x80, 0x80, 0x80, 0x80, 0x80, 0x80, 0x80], 0),
        Err(CodecError::SizeExceeded { size: 5, len: 10 })
    ));
    // Six groups are too many for 32 bits and fine for 64.
    assert_eq!(
        decode_varlong(&[0x80, 0x80, 0x80, 0x80, 0x80, 0x01], 0).unwrap(),
        (34359738368, 6)
    );
}

#[test]
fn decode_fails_when_the_input_ends_early() {
    assert!(matches!(decode_varint(&[], 0), Err(CodecError::BufferUnderrun(_))));
    assert!(matches!(decode_varint(&[0x80], 0), Err(CodecError::BufferUnderrun(_))));
    assert!(matches!(
        decode_varint(&[0x80, 0x80, 0x80, 0x80], 0),
        Err(CodecError::BufferUnderrun(_))
    ));
    assert!(matches!(decode_varint(&[0x01, 0x02], 2), Err(CodecError::BufferUnderrun(_))));
    assert!(matches!(decode_varint(&[0x01, 0x02], 9), Err(CodecError::BufferUnderrun(_))));
    assert!(matches!(VarInt::try_from_ctx(&[0xFF, 0xFF]), Err(CodecError::BufferUnderrun(_))));

    assert!(matches!(decode_varlong(&[], 0), Err(CodecError::BufferUnderrun(_))));
    assert!(matches!(
        decode_varlong(&[0x80, 0x80, 0x80, 0x80, 0x80, 0x80, 0x80, 0x80, 0x80], 0),
        Err(CodecError::BufferUnderrun(_))
    ));
    assert!(matches!(VarLong::try_from_ctx(&[0x80]), Err(CodecError::BufferUnderrun(_))));
}

#[test]
fn underrun_hands_on_the_error_of_the_buffer_access() {
    let input = [0x80u8, 0x80];
    let direct: scroll::Error = input.pread_with::<u8>(2, scroll::LE).unwrap_err();
    match decode_varint(&input, 0) {
        Err(CodecError::BufferUnderrun(inner)) => {
            assert_eq!(format!("{:?}", inner), format!("{:?}", direct))
        }
        other => panic!("expected an underrun, got {:?}", other),
    }

    let past: scroll::Error = input.pread_with::<u8>(7, scroll::LE).unwrap_err();
    match decode_varlong(&input, 7) {
        Err(CodecError::BufferUnderrun(inner)) => {
            assert_eq!(format!("{:?}", inner), format!("{:?}", past))
        }
        other => panic!("expected an underrun, got {:?}", other),
    }
}

#[test]
fn encode_fails_when_the_buffer_is_too_small() {
    let mut empty: [u8; 0] = [];
    assert!(matches!(encode_varint(0, &mut empty, 0), Err(CodecError::BufferUnderrun(_))));

    let mut four = [0u8; 4];
    assert!(matches!(encode_varint(-1, &mut four, 0), Err(CodecError::BufferUnderrun(_))));
    // What fitted has been written.
    assert_eq!(four, [0xFF, 0xFF, 0xFF, 0xFF]);

    let mut five = [0x11u8; 5];
    assert!(matches!(encode_varint(25565, &mut five, 3), Err(CodecError::BufferUnderrun(_))));
    assert_eq!(five, [0x11, 0x11, 0x11, 0xDD, 0xC7]);

    let mut exact = [0x11u8; 5];
    assert_eq!(encode_varint(25565, &mut exact, 2).unwrap(), 3);
    assert_eq!(exact, [0x11, 0x11, 0xDD, 0xC7, 0x01]);

    let mut outside = [0x11u8; 2];
    assert!(matches!(encode_varint(1, &mut outside, 2), Err(CodecError::BufferUnderrun(_))));
    assert!(matches!(encode_varint(1, &mut outside, 40), Err(CodecError::BufferUnderrun(_))));
    assert_eq!(outside, [0x11, 0x11]);

    let mut nine = [0u8; 9];
    assert!(matches!(encode_varlong(-1, &mut nine, 0), Err(CodecError::BufferUnderrun(_))));
    assert_eq!(nine, [0xFF; 9]);
    assert!(matches!(
        VarLong(i64::MIN).try_into_ctx(&mut nine),
        Err(CodecError::BufferUnderrun(_))
    ));
    assert!(matches!(
        VarInt(128).try_into_ctx(&mut nine[..1]),
        Err(CodecError::BufferUnderrun(_))
    ));
}

#[test]
fn bits_above_the_width_are_ignored() {
    // The fifth byte of a varint has room for seven bits; four are used.
    assert_eq!(decode_varint(&[0xFF, 0xFF, 0xFF, 0xFF, 0x7F], 0).unwrap(), (-1, 5));
    assert_eq!(decode_varint(&[0x80, 0x80, 0x80, 0x80, 0x70], 0).unwrap(), (0, 5));
    assert_eq!(decode_varint(&[0x81, 0x80, 0x80, 0x80, 0x18], 0).unwrap(), (i32::MIN + 1, 5));
    // The tenth byte of a varlong has room for seven bits; one is used.
    assert_eq!(
        decode_varlong(&[0x80, 0x80, 0x80, 0x80, 0x80, 0x80, 0x80, 0x80, 0x80, 0x7E], 0).unwrap(),
        (0, 10)
    );
    assert_eq!(
        decode_varlong(&[0xFF, 0xFF, 0xFF, 0xFF, 0xFF, 0xFF, 0xFF, 0xFF, 0xFF, 0x7F], 0).unwrap(),
        (-1, 10)
    );
}

#[test]
fn reencoding_is_stable() {
    for value in INT_SAMPLES {
        let first = varint_bytes(value);
        let (decoded, _) = decode_varint(&first, 0).unwrap();
        assert_eq!(varint_bytes(decoded), first);
    }
    for value in LONG_SAMPLES {
        let first = varlong_bytes(value);
        let (decoded, _) = decode_varlong(&first, 0).unwrap();
        assert_eq!(varlong_bytes(decoded), first);
    }
}
