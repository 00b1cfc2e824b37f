//! A sample block and its wire bytes, for exercising the codec.

use vstd::prelude::*;
use vstd::slice::{slice_subrange, slice_to_vec};

use crate::block::{
    block_of, frame_ok, lemma_frame_extends, lemma_round_trip, Block, PARENT_HASH_LEN,
};

verus! {

/// Returns a sample block together with wire bytes that hold the block's
/// frame followed by trailing garbage, imitating a longer stream.
pub fn get_dummy_block_pair() -> (r: (Block, Vec<u8>))
    ensures
        r.0.wf(),
        frame_ok(r.1@),
        block_of(r.1@) == r.0@,
{
    let mut parent_hash: Vec<u8> = Vec::new();
    let mut i: usize = 0;
    while i < PARENT_HASH_LEN
        invariant
            i <= PARENT_HASH_LEN,
            parent_hash@.len() == i,
        decreases PARENT_HASH_LEN - i,
    {
        parent_hash.push(65 + i as u8);
        i = i + 1;
    }
    let mut payload: Vec<u8> = Vec::new();
    let mut k: usize = 0;
    while k < 14
        invariant
            k <= 14,
            payload@.len() == k,
        decreases 14 - k,
    {
        payload.push(117);
        k = k + 1;
    }
    let block = Block::new(parent_hash, 42, payload.as_slice());
    let mut reader = block.encode();
    proof {
        lemma_round_trip(block@);
    }
    // Trailing garbage: the frame's bytes past the version and length
    // fields, appended once more to imitate a longer stream.
    let ghost frame = reader@;
    let mut garbage = slice_to_vec(slice_subrange(reader.as_slice(), 5, reader.len()));
    reader.append(&mut garbage);
    proof {
        lemma_frame_extends(frame, frame.subrange(5, frame.len() as int));
    }
    (block, reader)
}

} // verus!
