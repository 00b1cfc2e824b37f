use blockstream::block::{get_parent_hash, get_payload_len, skip, Block};
use blockstream::error::{Error, ErrorKind};
use blockstream::utils::get_dummy_block_pair;

#[test]
fn test_check() {
    let (_, reader) = get_dummy_block_pair();

    assert_eq!(Ok(()), Block::check(&reader));
}

#[test]
fn test_parsing() {
    let (expected, reader) = get_dummy_block_pair();

    let (block, _) = Block::parse(&reader).unwrap();

    assert_eq!(expected.parent_hash, block.parent_hash);
    assert_eq!(expected.block_number, block.block_number);
    assert_eq!(expected.content, block.content);
}

#[test]
fn test_get_payload_len() {
    let cases = [
        (3, [0b0000_0000, 0b0000_0000, 0b0000_0000, 0b0000_0011]),
        (
            16777217,
            [0b0000_0001, 0b0000_0000, 0b0000_0000, 0b0000_0001],
        ),
    ];

    for (expected, len_in_bytes) in cases {
        let buf = len_in_bytes.to_vec();
        assert_eq!(expected, get_payload_len(&buf, 0).unwrap().0);
    }
}

#[test]
fn test_get_parent_hash() {
    // This is dummy suffix for parent hash tests, it imitates the subsequent bytes that follow
    // after the parent_hash.
    let dummy_suffix = [0x01, 0x0, 0x0, 0x0, 0x0];
    let cases = [(
        b"this is 32 character as bytes 32",
        b"this is 32 character as bytes 32",
    )];

    // Five dummy and 32 parent hash bytes.
    let mut buf = Vec::with_capacity(37);
    for (expected, parent_hash) in cases {
        buf.extend_from_slice(&parent_hash[..]);
        buf.extend_from_slice(&dummy_suffix[..]);

        assert_eq!(&expected[..], &get_parent_hash(&buf, 0).unwrap().0[..]);
    }
}

fn sample_hash(byte: u8) -> Vec<u8> {
    vec![byte; 32]
}

fn frame_for(hash_byte: u8, number: u64, content: &[u8]) -> Vec<u8> {
    Block::new(sample_hash(hash_byte), number, content).encode()
}

#[test]
fn test_round_trip_various_content_lengths() {
    for content_len in [0usize, 1, 14, 255, 4096] {
        let content = vec![0xAB; content_len];
        let expected = Block::new(sample_hash(7), 99, &content);
        let frame = expected.encode();

        assert_eq!(Ok(()), Block::check(&frame));
        let (block, consumed) = Block::parse(&frame).unwrap();
        assert_eq!(consumed, frame.len());
        assert_eq!(expected.block_number, block.block_number);
        assert_eq!(expected.parent_hash, block.parent_hash);
        assert_eq!(expected.content, block.content);
    }
}

#[test]
fn test_truncated_frames_are_incomplete() {
    let frame = frame_for(3, 12, b"payload bytes");
    for cut in 0..frame.len() {
        let prefix = &frame[..cut];
        assert_eq!(Err(Error::incomplete_error()), Block::check(prefix));
        assert!(matches!(
            Block::parse(prefix),
            Err(ref e) if *e.kind() == ErrorKind::Incomplete
        ));
    }
    // The exact full frame never reports incomplete.
    assert_eq!(Ok(()), Block::check(&frame));
    assert!(Block::parse(&frame).is_ok());
}

#[test]
fn test_declared_length_underflow_is_malformed() {
    // A frame declaring a payload length of 39: too short to cover the
    // 32-byte parent hash and 8-byte block number.
    let mut frame = vec![0x01, 0x00, 0x00, 0x00, 39];
    frame.extend_from_slice(&[0u8; 64]);

    assert_eq!(Err(Error::malformed_error()), Block::check(&frame));
    assert!(matches!(
        Block::parse(&frame),
        Err(ref e) if *e.kind() == ErrorKind::Malformed
    ));
}

#[test]
fn test_unsupported_version_is_malformed() {
    let mut frame = frame_for(9, 1, b"x");
    frame[0] = 0x02;

    assert_eq!(Err(Error::malformed_error()), Block::check(&frame));
    assert!(matches!(
        Block::parse(&frame),
        Err(ref e) if *e.kind() == ErrorKind::Malformed
    ));
}

#[test]
fn test_skip_bounds() {
    let buf = [0u8; 10];
    assert_eq!(7, skip(&buf, 3, 4).unwrap());
    assert_eq!(10, skip(&buf, 10, 0).unwrap());
    assert_eq!(
        ErrorKind::Incomplete,
        *skip(&buf, 8, 3).unwrap_err().kind()
    );
}

#[test]
fn test_error_constructors() {
    assert_eq!(ErrorKind::Incomplete, *Error::incomplete_error().kind());
    assert_eq!(ErrorKind::Malformed, *Error::malformed_error().kind());
    let e = Error::other_error(String::from("connection reset"));
    assert_eq!(
        ErrorKind::Other(String::from("connection reset")),
        *e.kind()
    );
    assert_eq!(
        Error::incomplete_error(),
        ErrorKind::Incomplete.into_err()
    );
}
