use blockstream::block::Block;
use blockstream::error::ErrorKind;
use blockstream::stream::{find_common_ancestor, read_blocks, BlockStream, Step};
use blockstream::utils::get_dummy_block_pair;

fn sample_hash(byte: u8) -> Vec<u8> {
    vec![byte; 32]
}

fn sample_block(hash_byte: u8, number: u64) -> Block {
    Block::new(sample_hash(hash_byte), number, b"content")
}

fn assert_same_block(expected: &Block, got: &Block) {
    assert_eq!(expected.block_number, got.block_number);
    assert_eq!(expected.parent_hash, got.parent_hash);
    assert_eq!(expected.content, got.content);
}

#[test]
fn test_read_blocks_fn() {
    let (expected, reader) = get_dummy_block_pair();

    let (blocks, _) = read_blocks(&reader);

    assert_eq!(1, blocks.len());
    for block in &blocks {
        assert_same_block(&expected, block);
    }
}

#[test]
fn test_two_frames_byte_at_a_time() {
    let first = sample_block(1, 7);
    let second = sample_block(2, 8);
    let mut wire = first.encode();
    wire.extend_from_slice(&second.encode());

    let mut stream = BlockStream::new();
    let mut decoded: Vec<Block> = Vec::new();
    let mut delivered = 0usize;
    loop {
        match stream.poll_next() {
            Step::Block(b) => decoded.push(b),
            Step::NeedRead => {
                if delivered == wire.len() {
                    stream.end_of_input();
                } else {
                    // Deliver a single byte, the smallest possible chunk.
                    stream.push_bytes(&wire[delivered..delivered + 1]);
                    delivered += 1;
                }
            }
            Step::Reject(e) => panic!("unexpected decode error: {:?}", e),
            Step::Done => break,
        }
    }

    assert_eq!(2, decoded.len());
    assert_same_block(&first, &decoded[0]);
    assert_same_block(&second, &decoded[1]);
}

#[test]
fn test_two_frames_single_chunk() {
    let first = sample_block(3, 1);
    let second = sample_block(4, 2);
    let mut wire = first.encode();
    wire.extend_from_slice(&second.encode());

    let (blocks, err) = read_blocks(&wire);

    assert!(err.is_none());
    assert_eq!(2, blocks.len());
    assert_same_block(&first, &blocks[0]);
    assert_same_block(&second, &blocks[1]);
}

#[test]
fn test_malformed_tail_surfaces_error() {
    let good = sample_block(5, 1);
    let mut wire = good.encode();
    // A following frame with an unsupported version byte.
    wire.push(0x7F);

    let (blocks, err) = read_blocks(&wire);

    assert_eq!(1, blocks.len());
    assert_same_block(&good, &blocks[0]);
    assert_eq!(ErrorKind::Malformed, *err.unwrap().kind());
}

#[test]
fn test_ancestor_determinism() {
    // Streams with hash sets {A, B, C}, {B, C, D}, {C} and block numbers
    // A < B < C < D: the sole common hash is C, whatever the stream order.
    let a = sample_block(b'A', 1);
    let b = sample_block(b'B', 2);
    let c = sample_block(b'C', 3);
    let d = sample_block(b'D', 4);

    let streams = vec![
        vec![a.clone(), b.clone(), c.clone()],
        vec![b.clone(), c.clone(), d.clone()],
        vec![c.clone()],
    ];
    let found = find_common_ancestor(&streams).unwrap();
    assert_same_block(&c, &found);

    let reordered = vec![
        vec![c.clone()],
        vec![d.clone(), c.clone(), b.clone()],
        vec![c.clone(), b.clone(), a.clone()],
    ];
    let found = find_common_ancestor(&reordered).unwrap();
    assert_same_block(&c, &found);
}

#[test]
fn test_no_common_ancestor() {
    let streams = vec![
        vec![sample_block(b'A', 1)],
        vec![sample_block(b'B', 2)],
    ];
    assert!(find_common_ancestor(&streams).is_none());
    assert!(find_common_ancestor(&[]).is_none());
}

#[test]
fn test_tie_break_prefers_recent() {
    // Hashes X (block number 5) and Y (block number 9) are both common:
    // the more recent Y wins.
    let x = sample_block(b'X', 5);
    let y = sample_block(b'Y', 9);

    let streams = vec![
        vec![x.clone(), y.clone()],
        vec![y.clone(), x.clone()],
    ];
    let found = find_common_ancestor(&streams).unwrap();
    assert_same_block(&y, &found);
}

#[test]
fn test_partial_stream_still_contributes() {
    // Stream 2 of 3 fails mid-transfer: its bytes end inside a frame. The
    // blocks it did deliver still take part in the intersection, and the
    // other streams contribute their full hash sets.
    let shared = sample_block(b'S', 6);
    let a = sample_block(b'A', 1);
    let b = sample_block(b'B', 2);

    let mut wire1 = a.encode();
    wire1.extend_from_slice(&shared.encode());

    let mut wire2 = shared.encode();
    let unfinished = b.encode();
    wire2.extend_from_slice(&unfinished[..unfinished.len() / 2]);

    let mut wire3 = shared.encode();
    wire3.extend_from_slice(&b.encode());

    let mut streams: Vec<Vec<Block>> = Vec::new();
    for wire in [&wire1, &wire2, &wire3] {
        let (blocks, err) = read_blocks(wire);
        assert!(err.is_none());
        streams.push(blocks);
    }
    assert_eq!(2, streams[0].len());
    assert_eq!(1, streams[1].len());
    assert_eq!(2, streams[2].len());

    let found = find_common_ancestor(&streams).unwrap();
    assert_same_block(&shared, &found);
}
