use osc_codec::command::{Argument, Command};
use osc_codec::error::Error;
use osc_codec::wire::{decode_string, encode_string, pad};

fn encode_to_vec(c: &Command) -> Vec<u8> {
    let mut buf: Vec<u8> = Vec::new();
    c.encode(&mut buf);
    buf
}

#[test]
fn pad_adds_nothing_when_aligned() {
    let mut buf: Vec<u8> = Vec::new();
    pad(&mut buf);
    assert_eq!(buf, Vec::<u8>::new());

    let mut buf = vec![1u8, 2, 3, 4];
    pad(&mut buf);
    assert_eq!(buf, vec![1u8, 2, 3, 4]);
}

#[test]
fn pad_reaches_next_boundary() {
    let mut buf = vec![9u8];
    pad(&mut buf);
    assert_eq!(buf, vec![9u8, 0, 0, 0]);

    let mut buf = vec![9u8, 9, 9];
    pad(&mut buf);
    assert_eq!(buf, vec![9u8, 9, 9, 0]);
}

#[test]
fn encode_string_appends_terminator_and_padding() {
    let mut buf: Vec<u8> = Vec::new();
    encode_string("/info", &mut buf);
    assert_eq!(buf, vec![0x2F, 0x69, 0x6E, 0x66, 0x6F, 0x00, 0x00, 0x00]);
}

#[test]
fn encode_string_multiple_of_four_gets_full_pad() {
    // Four characters: terminator plus three more zero bytes keep the region
    // a multiple of four.
    let mut buf: Vec<u8> = Vec::new();
    encode_string("/abc", &mut buf);
    assert_eq!(buf, vec![0x2F, 0x61, 0x62, 0x63, 0x00, 0x00, 0x00, 0x00]);
}

#[test]
fn decode_string_returns_value_and_cursor() {
    let mut buf: Vec<u8> = Vec::new();
    encode_string("/info", &mut buf);
    let (s, next) = decode_string(&buf, 0).unwrap();
    assert_eq!(s, "/info");
    assert_eq!(next, 8);
}

#[test]
fn decode_string_skips_full_pad_after_aligned_terminator() {
    let mut buf: Vec<u8> = Vec::new();
    encode_string("/abc", &mut buf);
    let (s, next) = decode_string(&buf, 0).unwrap();
    assert_eq!(s, "/abc");
    assert_eq!(next, 8);
}

#[test]
fn decode_string_without_terminator_is_malformed() {
    let buf = vec![0x41u8, 0x42, 0x43];
    assert_eq!(decode_string(&buf, 0), Err(Error::MalformedMessage));
}

#[test]
fn decode_string_with_invalid_utf8_is_malformed() {
    let buf = vec![0xFFu8, 0xFE, 0x00, 0x00];
    assert_eq!(decode_string(&buf, 0), Err(Error::MalformedMessage));
}

#[test]
fn decode_string_with_missing_padding_is_truncated() {
    // "/info" plus terminator, but without the two padding bytes.
    let buf = vec![0x2Fu8, 0x69, 0x6E, 0x66, 0x6F, 0x00];
    assert_eq!(decode_string(&buf, 0), Err(Error::TruncatedBuffer));
}

#[test]
fn encode_info_command_exact_bytes() {
    let c = Command { address_pattern: String::from("/info"), arguments: vec![] };
    let buf = encode_to_vec(&c);
    assert_eq!(
        buf,
        vec![
            0x2F, 0x69, 0x6E, 0x66, 0x6F, 0x00, 0x00, 0x00, // "/info" NUL pad pad
            0x2C, 0x00, 0x00, 0x00, // ',' NUL pad pad: empty tag sequence
        ]
    );
}

#[test]
fn fader_float_round_trip_is_exact() {
    let c = Command {
        address_pattern: String::from("/ch/01/mix/fader"),
        arguments: vec![Argument::Float(0.5f32.to_bits())],
    };
    let buf = encode_to_vec(&c);
    assert_eq!(buf.len() % 4, 0);
    let back = Command::decode(&buf).unwrap();
    assert_eq!(back, c);
    match back.arguments[0] {
        Argument::Float(bits) => assert_eq!(f32::from_bits(bits), 0.5f32),
        _ => panic!("expected a float argument"),
    }
}

#[test]
fn binary_argument_decodes_exact_payload() {
    // A single binary argument with length prefix 4 and payload 01 02 03 04.
    let buf = vec![
        0x2F, 0x61, 0x00, 0x00, // "/a" NUL pad
        0x2C, 0x62, 0x00, 0x00, // ",b" NUL pad
        0x00, 0x00, 0x00, 0x04, // length prefix 4
        0x01, 0x02, 0x03, 0x04, // payload, already on a 4-byte boundary
    ];
    let c = Command::decode(&buf).unwrap();
    assert_eq!(c.address_pattern, "/a");
    assert_eq!(c.arguments, vec![Argument::Binary(vec![1, 2, 3, 4])]);
}

#[test]
fn binary_argument_unaligned_length_round_trips() {
    let c = Command {
        address_pattern: String::from("/data"),
        arguments: vec![Argument::Binary(vec![7, 8, 9]), Argument::Integer(-2)],
    };
    let buf = encode_to_vec(&c);
    assert_eq!(buf.len() % 4, 0);
    assert_eq!(Command::decode(&buf).unwrap(), c);
}

#[test]
fn round_trip_all_argument_kinds() {
    let c = Command {
        address_pattern: String::from("/mix/se\u{f1}al"),
        arguments: vec![
            Argument::String(String::from("crossfade")),
            Argument::String(String::new()),
            Argument::Integer(-2147483648),
            Argument::Integer(2147483647),
            Argument::Float(1.25f32.to_bits()),
            Argument::Binary(vec![]),
            Argument::Binary(vec![0, 1, 2, 3, 4, 5]),
        ],
    };
    let buf = encode_to_vec(&c);
    assert_eq!(buf.len() % 4, 0);
    assert_eq!(Command::decode(&buf).unwrap(), c);
}

#[test]
fn decoded_arguments_match_tags_in_order() {
    let c = Command {
        address_pattern: String::from("/seq"),
        arguments: vec![
            Argument::Integer(1),
            Argument::String(String::from("two")),
            Argument::Float(3.0f32.to_bits()),
            Argument::Binary(vec![4]),
        ],
    };
    let buf = encode_to_vec(&c);
    let back = Command::decode(&buf).unwrap();
    assert_eq!(back.arguments.len(), 4);
    assert!(matches!(back.arguments[0], Argument::Integer(_)));
    assert!(matches!(back.arguments[1], Argument::String(_)));
    assert!(matches!(back.arguments[2], Argument::Float(_)));
    assert!(matches!(back.arguments[3], Argument::Binary(_)));
}

#[test]
fn integer_encodes_big_endian() {
    let c = Command {
        address_pattern: String::from("/i"),
        arguments: vec![Argument::Integer(0x01020304), Argument::Integer(-1)],
    };
    let buf = encode_to_vec(&c);
    assert_eq!(
        buf,
        vec![
            0x2F, 0x69, 0x00, 0x00, // "/i" NUL pad
            0x2C, 0x69, 0x69, 0x00, // ",ii" NUL
            0x01, 0x02, 0x03, 0x04, // 0x01020304
            0xFF, 0xFF, 0xFF, 0xFF, // -1
        ]
    );
}

#[test]
fn unknown_tag_is_unsupported_type() {
    let buf = vec![
        0x2F, 0x61, 0x00, 0x00, // "/a" NUL pad
        0x2C, 0x78, 0x00, 0x00, // ",x" NUL pad: 'x' is no tag
        0x00, 0x00, 0x00, 0x00,
    ];
    assert_eq!(Command::decode(&buf), Err(Error::UnsupportedType('x')));
}

#[test]
fn buffer_without_nul_is_malformed() {
    let buf = vec![0x01u8, 0x02, 0x03];
    assert_eq!(Command::decode(&buf), Err(Error::MalformedMessage));
}

#[test]
fn tag_block_without_comma_is_malformed() {
    let buf = vec![
        0x2F, 0x61, 0x00, 0x00, // "/a" NUL pad
        0x69, 0x00, 0x00, 0x00, // "i" NUL pad: no leading comma
    ];
    assert_eq!(Command::decode(&buf), Err(Error::MalformedMessage));
}

#[test]
fn empty_tag_block_is_malformed() {
    let buf = vec![
        0x2F, 0x61, 0x00, 0x00, // "/a" NUL pad
        0x00, 0x00, 0x00, 0x00, // empty string where ",..." is expected
    ];
    assert_eq!(Command::decode(&buf), Err(Error::MalformedMessage));
}

#[test]
fn truncated_integer_argument() {
    let buf = vec![
        0x2F, 0x61, 0x00, 0x00, // "/a" NUL pad
        0x2C, 0x69, 0x00, 0x00, // ",i" NUL pad
        0x00, 0x01, // only two of the four bytes
    ];
    assert_eq!(Command::decode(&buf), Err(Error::TruncatedBuffer));
}

#[test]
fn truncated_binary_payload() {
    let buf = vec![
        0x2F, 0x61, 0x00, 0x00, // "/a" NUL pad
        0x2C, 0x62, 0x00, 0x00, // ",b" NUL pad
        0x00, 0x00, 0x00, 0x08, // length prefix 8
        0x01, 0x02, 0x03, 0x04, // only four payload bytes
    ];
    assert_eq!(Command::decode(&buf), Err(Error::TruncatedBuffer));
}

#[test]
fn binary_missing_final_padding_is_truncated() {
    // Payload of three bytes ends off-boundary; the decoder demands the
    // alignment padding the encoder would have written.
    let buf = vec![
        0x2F, 0x61, 0x00, 0x00, // "/a" NUL pad
        0x2C, 0x62, 0x00, 0x00, // ",b" NUL pad
        0x00, 0x00, 0x00, 0x03, // length prefix 3
        0x01, 0x02, 0x03, // payload without its one padding byte
    ];
    assert_eq!(Command::decode(&buf), Err(Error::TruncatedBuffer));
}

#[test]
fn trailing_bytes_after_arguments_are_ignored() {
    let c = Command {
        address_pattern: String::from("/a"),
        arguments: vec![Argument::Integer(5)],
    };
    let mut buf = encode_to_vec(&c);
    buf.extend_from_slice(&[0xAA, 0xBB, 0xCC, 0xDD]);
    assert_eq!(Command::decode(&buf).unwrap(), c);
}

#[test]
fn argument_decode_reads_big_endian_integer() {
    let buf = vec![0xFF, 0xFF, 0xFF, 0xFE];
    let (a, next) = Argument::decode('i', &buf, 0).unwrap();
    assert_eq!(a, Argument::Integer(-2));
    assert_eq!(next, 4);
}

#[test]
fn argument_decode_rejects_unknown_tag() {
    let buf = vec![0u8; 8];
    assert_eq!(Argument::decode('q', &buf, 0), Err(Error::UnsupportedType('q')));
}

#[test]
fn argument_tag_bytes() {
    assert_eq!(Argument::String(String::new()).tag(), b's');
    assert_eq!(Argument::Integer(0).tag(), b'i');
    assert_eq!(Argument::Float(0).tag(), b'f');
    assert_eq!(Argument::Binary(vec![]).tag(), b'b');
}

#[test]
fn non_ascii_string_decodes_past_multibyte_characters() {
    let mut buf: Vec<u8> = Vec::new();
    encode_string("gr\u{fc}n", &mut buf);
    // Two bytes for the umlaut: five in all, terminator at index 5, region 8.
    assert_eq!(buf.len(), 8);
    let (s, next) = decode_string(&buf, 0).unwrap();
    assert_eq!(s, "gr\u{fc}n");
    assert_eq!(next, 8);
}

#[test]
fn string_argument_round_trips_with_cursor_padding() {
    // A string argument whose bytes plus terminator are not a multiple of
    // four exercises the per-argument padding on both sides.
    let c = Command {
        address_pattern: String::from("/meters"),
        arguments: vec![
            Argument::String(String::from("/meters/1")),
            Argument::Integer(7),
        ],
    };
    let buf = encode_to_vec(&c);
    assert_eq!(buf.len() % 4, 0);
    assert_eq!(Command::decode(&buf).unwrap(), c);
}
