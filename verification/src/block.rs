//! The `Block` value type and its wire format.
//!
//! A frame on the wire is, in order: a one-byte protocol version (only
//! `0x01` is defined), a 4-byte big-endian payload length, a 32-byte parent
//! hash, an 8-byte big-endian block number, and the remaining
//! `payload length - 40` bytes of opaque content. The payload length counts
//! everything from the parent hash through the content.

use vstd::prelude::*;
use vstd::slice::{slice_subrange, slice_to_vec};

use crate::error::Error;

verus! {

/// Width in bytes of a parent hash on the wire.
pub const PARENT_HASH_LEN: usize = 32;

/// Width in bytes of a block number on the wire.
pub const BLOCK_ID_LEN: usize = 8;

/// Width in bytes of the payload-length field on the wire.
pub const PAYLOAD_SIZE_LEN: usize = 4;

/// Bytes of the fixed header fields that the payload length must cover:
/// the parent hash and the block number.
pub const BLOCK_HEADER_LEN: usize = 40;

/// Identifier of a block's parent; exactly [`PARENT_HASH_LEN`] bytes.
pub type ParentHash = Vec<u8>;

/// A decoded block: its sequence number, the hash of its parent, and its
/// opaque content.
pub struct Block {
    /// Block number, monotonically increasing as the chain grows.
    pub block_number: u64,
    /// Hash of the parent block.
    pub parent_hash: ParentHash,
    /// Block content.
    pub content: Vec<u8>,
}

/// The mathematical value of a [`Block`].
#[verifier::ext_equal]
pub ghost struct BlockView {
    pub block_number: u64,
    pub parent_hash: Seq<u8>,
    pub content: Seq<u8>,
}

impl View for Block {
    type V = BlockView;

    open spec fn view(&self) -> BlockView {
        BlockView {
            block_number: self.block_number,
            parent_hash: self.parent_hash@,
            content: self.content@,
        }
    }
}

impl BlockView {
    /// A parent hash of the right width, and a content short enough for the
    /// payload length to fit its 4-byte field.
    pub open spec fn encodable(self) -> bool {
        &&& self.parent_hash.len() == PARENT_HASH_LEN
        &&& BLOCK_HEADER_LEN + self.content.len() <= u32::MAX
    }
}

impl Block {
    /// A block as handed out by the codec: the parent hash is exactly
    /// [`PARENT_HASH_LEN`] bytes.
    pub open spec fn wf(&self) -> bool {
        self.parent_hash@.len() == PARENT_HASH_LEN
    }

    pub fn new(parent_hash: ParentHash, block_number: u64, content: &[u8]) -> (b: Block)
        requires
            parent_hash@.len() == PARENT_HASH_LEN,
        ensures
            b@ == (BlockView { block_number, parent_hash: parent_hash@, content: content@ }),
            b.wf(),
    {
        Block { block_number, parent_hash, content: slice_to_vec(content) }
    }
}

impl Clone for Block {
    fn clone(&self) -> (b: Self)
        ensures
            b@ == self@,
    {
        Block {
            block_number: self.block_number,
            parent_hash: slice_to_vec(self.parent_hash.as_slice()),
            content: slice_to_vec(self.content.as_slice()),
        }
    }
}

/// The unsigned value of a big-endian byte string.
pub open spec fn be_val(s: Seq<u8>) -> int
    decreases s.len(),
{
    if s.len() == 0 {
        0
    } else {
        be_val(s.drop_last()) * 256 + s.last()
    }
}

/// `256` raised to `n`: the number of values an `n`-byte field can hold.
pub open spec fn pow256(n: nat) -> int
    decreases n,
{
    if n == 0 {
        1
    } else {
        256 * pow256((n - 1) as nat)
    }
}

/// The `n`-byte big-endian encoding of `v`; meaningful when `v < 256^n`.
pub open spec fn be_bytes(v: int, n: nat) -> Seq<u8>
    decreases n,
{
    if n == 0 {
        Seq::empty()
    } else {
        be_bytes(v / 256, (n - 1) as nat) + seq![(v % 256) as u8]
    }
}

pub proof fn lemma_be_bytes_len(v: int, n: nat)
    ensures
        be_bytes(v, n).len() == n,
    decreases n,
{
    if n > 0 {
        lemma_be_bytes_len(v / 256, (n - 1) as nat);
    }
}

/// Reading back an `n`-byte big-endian encoding recovers the value.
pub proof fn lemma_be_val_of_be_bytes(v: int, n: nat)
    requires
        0 <= v,
        v < pow256(n),
    ensures
        be_val(be_bytes(v, n)) == v,
    decreases n,
{
    if n == 0 {
        assert(be_val(be_bytes(v, 0)) == 0);
    } else {
        let m = (n - 1) as nat;
        let q = v / 256;
        let r = v % 256;
        assert(pow256(n) == 256 * pow256(m));
        vstd::arithmetic::div_mod::lemma_fundamental_div_mod(v, 256);
        assert(q < pow256(m)) by {
            if q >= pow256(m) {
                assert(v == 256 * q + r);
                assert(256 * q >= 256 * pow256(m)) by (nonlinear_arith)
                    requires
                        q >= pow256(m),
                ;
            }
        }
        lemma_be_val_of_be_bytes(q, m);
        let b = be_bytes(q, m);
        assert(be_bytes(v, n) == b + seq![r as u8]);
        assert((b + seq![r as u8]).drop_last() =~= b);
        assert((b + seq![r as u8]).last() == r as u8);
        assert(be_val(b + seq![r as u8]) == be_val(b) * 256 + r);
    }
}

/// The payload length declared by the frame at the front of `s`;
/// meaningful when `s` holds at least the version and length fields.
pub open spec fn payload_len_of(s: Seq<u8>) -> int {
    be_val(s.subrange(1, 5))
}

/// The total width of the frame at the front of `s`: the version and length
/// fields plus the declared payload.
pub open spec fn frame_len_of(s: Seq<u8>) -> int {
    5 + payload_len_of(s)
}

/// `s` starts with one complete, well-formed frame.
pub open spec fn frame_ok(s: Seq<u8>) -> bool {
    &&& s.len() >= 5
    &&& s[0] == 1u8
    &&& payload_len_of(s) >= BLOCK_HEADER_LEN
    &&& s.len() >= frame_len_of(s)
}

/// `s` starts with a structurally invalid frame: an unsupported version
/// byte, or a declared payload length too small to cover the parent hash
/// and block number. No amount of further bytes can repair it.
pub open spec fn frame_malformed(s: Seq<u8>) -> bool {
    ||| s.len() >= 1 && s[0] != 1u8
    ||| s.len() >= 5 && s[0] == 1u8 && payload_len_of(s) < BLOCK_HEADER_LEN
}

/// More bytes are needed before the frame at the front of `s` can be
/// decoded or rejected.
pub open spec fn frame_needs_more(s: Seq<u8>) -> bool {
    !frame_ok(s) && !frame_malformed(s)
}

/// The block carried by the frame at the front of `s`; meaningful when
/// `frame_ok(s)`.
pub open spec fn block_of(s: Seq<u8>) -> BlockView {
    BlockView {
        block_number: be_val(s.subrange(37, 45)) as u64,
        parent_hash: s.subrange(5, 37),
        content: s.subrange(45, frame_len_of(s)),
    }
}

/// The one frame `b` encodes to.
pub open spec fn encode_spec(b: BlockView) -> Seq<u8> {
    seq![1u8] + be_bytes(BLOCK_HEADER_LEN + b.content.len(), 4) + b.parent_hash + be_bytes(
        b.block_number as int,
        8,
    ) + b.content
}

/// The blocks of every complete frame at the front of `s`, in wire order;
/// decoding stops at the first position that is not a complete well-formed
/// frame.
pub open spec fn blocks_of(s: Seq<u8>) -> Seq<BlockView>
    decreases s.len(),
{
    if frame_ok(s) {
        seq![block_of(s)] + blocks_of(s.skip(frame_len_of(s)))
    } else {
        Seq::empty()
    }
}

/// The bytes left over once every complete frame at the front of `s` has
/// been decoded.
pub open spec fn rest_of(s: Seq<u8>) -> Seq<u8>
    decreases s.len(),
{
    if frame_ok(s) {
        rest_of(s.skip(frame_len_of(s)))
    } else {
        s
    }
}

/// Reads the byte at `pos`, returning it together with the next position.
pub fn get_u8(buf: &[u8], pos: usize) -> (r: Result<(u8, usize), Error>)
    ensures
        pos < buf@.len() ==> (r matches Ok(v) && v.0 == buf@[pos as int] && v.1 == pos + 1),
        pos >= buf@.len() ==> (r matches Err(e) && e.kind is Incomplete),
{
    if pos < buf.len() {
        Ok((buf[pos], pos + 1))
    } else {
        Err(Error::incomplete_error())
    }
}

/// Reads the 4-byte big-endian payload length at `pos`, returning it
/// together with the next position.
pub fn get_payload_len(buf: &[u8], pos: usize) -> (r: Result<(u32, usize), Error>)
    ensures
        pos + PAYLOAD_SIZE_LEN <= buf@.len() ==> (r matches Ok(v)
            && v.0 == be_val(buf@.subrange(pos as int, pos + PAYLOAD_SIZE_LEN))
            && v.1 == pos + PAYLOAD_SIZE_LEN),
        pos + PAYLOAD_SIZE_LEN > buf@.len() ==> (r matches Err(e) && e.kind is Incomplete),
{
    if buf.len() >= PAYLOAD_SIZE_LEN && pos <= buf.len() - PAYLOAD_SIZE_LEN {
        let b0 = buf[pos];
        let b1 = buf[pos + 1];
        let b2 = buf[pos + 2];
        let b3 = buf[pos + 3];
        let v = (((b0 as u32) * 256 + b1 as u32) * 256 + b2 as u32) * 256 + b3 as u32;
        proof {
            let s = buf@.subrange(pos as int, pos + PAYLOAD_SIZE_LEN);
            let s3 = s.drop_last();
            let s2 = s3.drop_last();
            let s1 = s2.drop_last();
            let s0 = s1.drop_last();
            assert(s0.len() == 0);
            assert(be_val(s1) == be_val(s0) * 256 + s[0]);
            assert(be_val(s2) == be_val(s1) * 256 + s[1]);
            assert(be_val(s3) == be_val(s2) * 256 + s[2]);
            assert(be_val(s) == be_val(s3) * 256 + s[3]);
        }
        Ok((v, pos + PAYLOAD_SIZE_LEN))
    } else {
        Err(Error::incomplete_error())
    }
}

/// Reads the 32-byte parent hash at `pos`, returning it together with the
/// next position.
pub fn get_parent_hash(buf: &[u8], pos: usize) -> (r: Result<(ParentHash, usize), Error>)
    ensures
        pos + PARENT_HASH_LEN <= buf@.len() ==> (r matches Ok(v)
            && v.0@ == buf@.subrange(pos as int, pos + PARENT_HASH_LEN)
            && v.1 == pos + PARENT_HASH_LEN),
        pos + PARENT_HASH_LEN > buf@.len() ==> (r matches Err(e) && e.kind is Incomplete),
{
    if buf.len() >= PARENT_HASH_LEN && pos <= buf.len() - PARENT_HASH_LEN {
        let hash = slice_to_vec(slice_subrange(buf, pos, pos + PARENT_HASH_LEN));
        Ok((hash, pos + PARENT_HASH_LEN))
    } else {
        Err(Error::incomplete_error())
    }
}

/// Reads the 8-byte big-endian block number at `pos`, returning it together
/// with the next position.
pub fn get_block_id(buf: &[u8], pos: usize) -> (r: Result<(u64, usize), Error>)
    ensures
        pos + BLOCK_ID_LEN <= buf@.len() ==> (r matches Ok(v)
            && v.0 == be_val(buf@.subrange(pos as int, pos + BLOCK_ID_LEN))
            && v.1 == pos + BLOCK_ID_LEN),
        pos + BLOCK_ID_LEN > buf@.len() ==> (r matches Err(e) && e.kind is Incomplete),
{
    if buf.len() >= BLOCK_ID_LEN && pos <= buf.len() - BLOCK_ID_LEN {
        let b0 = buf[pos];
        let b1 = buf[pos + 1];
        let b2 = buf[pos + 2];
        let b3 = buf[pos + 3];
        let b4 = buf[pos + 4];
        let b5 = buf[pos + 5];
        let b6 = buf[pos + 6];
        let b7 = buf[pos + 7];
        let v = (((((((b0 as u64) * 256 + b1 as u64) * 256 + b2 as u64) * 256 + b3 as u64) * 256
            + b4 as u64) * 256 + b5 as u64) * 256 + b6 as u64) * 256 + b7 as u64;
        proof {
            let s = buf@.subrange(pos as int, pos + BLOCK_ID_LEN);
            let s7 = s.drop_last();
            let s6 = s7.drop_last();
            let s5 = s6.drop_last();
            let s4 = s5.drop_last();
            let s3 = s4.drop_last();
            let s2 = s3.drop_last();
            let s1 = s2.drop_last();
            let s0 = s1.drop_last();
            assert(s0.len() == 0);
            assert(be_val(s1) == be_val(s0) * 256 + s[0]);
            assert(be_val(s2) == be_val(s1) * 256 + s[1]);
            assert(be_val(s3) == be_val(s2) * 256 + s[2]);
            assert(be_val(s4) == be_val(s3) * 256 + s[3]);
            assert(be_val(s5) == be_val(s4) * 256 + s[4]);
            assert(be_val(s6) == be_val(s5) * 256 + s[5]);
            assert(be_val(s7) == be_val(s6) * 256 + s[6]);
            assert(be_val(s) == be_val(s7) * 256 + s[7]);
        }
        Ok((v, pos + BLOCK_ID_LEN))
    } else {
        Err(Error::incomplete_error())
    }
}

impl Block {
    /// Verifies that `buf` starts with one complete, well-formed frame,
    /// without copying or allocating any of it. `Incomplete` means more
    /// bytes may still complete the frame; `Malformed` means no bytes can.
    pub fn check(buf: &[u8]) -> (r: Result<(), Error>)
        ensures
            r is Ok <==> frame_ok(buf@),
            r matches Err(e) ==> (e.kind is Incomplete <==> frame_needs_more(buf@)),
            r matches Err(e) ==> (e.kind is Malformed <==> frame_malformed(buf@)),
            r matches Err(e) ==> (e.kind is Incomplete || e.kind is Malformed),
    {
        let version = match get_u8(buf, 0) {
            Ok(v) => v.0,
            Err(e) => {
                return Err(e);
            },
        };
        if version != 1 {
            return Err(Error::malformed_error());
        }
        let (len, pos) = match get_payload_len(buf, 1) {
            Ok(v) => v,
            Err(e) => {
                return Err(e);
            },
        };
        if len < BLOCK_HEADER_LEN as u32 {
            return Err(Error::malformed_error());
        }
        // check if we have enough data for parsing.
        if buf.len() - pos < len as usize {
            return Err(Error::incomplete_error());
        }
        Ok(())
    }

    /// Decodes the frame at the front of `buf` into a [`Block`], returning
    /// it together with the number of bytes the frame occupied. It fails
    /// exactly where [`Block::check`] fails, with the same error kinds.
    pub fn parse(buf: &[u8]) -> (r: Result<(Block, usize), Error>)
        ensures
            r is Ok <==> frame_ok(buf@),
            r matches Ok(v) ==> v.0@ == block_of(buf@) && v.0.wf() && v.1 == frame_len_of(buf@),
            r matches Err(e) ==> (e.kind is Incomplete <==> frame_needs_more(buf@)),
            r matches Err(e) ==> (e.kind is Malformed <==> frame_malformed(buf@)),
            r matches Err(e) ==> (e.kind is Incomplete || e.kind is Malformed),
    {
        let version = match get_u8(buf, 0) {
            Ok(v) => v.0,
            Err(e) => {
                return Err(e);
            },
        };
        if version != 1 {
            return Err(Error::malformed_error());
        }
        let (len, pos) = match get_payload_len(buf, 1) {
            Ok(v) => v,
            Err(e) => {
                return Err(e);
            },
        };
        if len < BLOCK_HEADER_LEN as u32 {
            return Err(Error::malformed_error());
        }
        let (parent_hash, pos) = match get_parent_hash(buf, pos) {
            Ok(v) => v,
            Err(e) => {
                return Err(e);
            },
        };
        let (block_number, pos) = match get_block_id(buf, pos) {
            Ok(v) => v,
            Err(e) => {
                return Err(e);
            },
        };
        // The parent hash and block number are already consumed out of the
        // declared payload; only the content may still be missing.
        let content_len = (len as usize) - BLOCK_HEADER_LEN;
        if buf.len() - pos < content_len {
            return Err(Error::incomplete_error());
        }
        let content = slice_to_vec(slice_subrange(buf, pos, pos + content_len));
        let block = Block { block_number, parent_hash, content };
        Ok((block, pos + content_len))
    }

    /// Serialises the block into the one frame that decodes back to it.
    pub fn encode(&self) -> (r: Vec<u8>)
        requires
            self@.encodable(),
        ensures
            r@ == encode_spec(self@),
    {
        let payload_len: u32 = BLOCK_HEADER_LEN as u32 + self.content.len() as u32;
        let mut out: Vec<u8> = Vec::new();
        out.push(1u8);
        let mut len_bytes = u32_be_bytes(payload_len);
        out.append(&mut len_bytes);
        let mut hash = slice_to_vec(self.parent_hash.as_slice());
        out.append(&mut hash);
        let mut number_bytes = u64_be_bytes(self.block_number);
        out.append(&mut number_bytes);
        let mut content = slice_to_vec(self.content.as_slice());
        out.append(&mut content);
        proof {
            assert(out@ =~= encode_spec(self@));
        }
        out
    }
}

/// The 4-byte big-endian encoding of `v`.
pub fn u32_be_bytes(v: u32) -> (r: Vec<u8>)
    ensures
        r@ == be_bytes(v as int, 4),
{
    let q1 = v / 256;
    let q2 = q1 / 256;
    let q3 = q2 / 256;
    let mut r: Vec<u8> = Vec::new();
    r.push(q3 as u8);
    r.push((q2 % 256) as u8);
    r.push((q1 % 256) as u8);
    r.push((v % 256) as u8);
    proof {
        assert(be_bytes(q3 as int / 256, 0) =~= Seq::<u8>::empty());
        assert(be_bytes(q3 as int, 1) =~= seq![(q3 % 256) as u8]);
        assert(be_bytes(q2 as int, 2) =~= be_bytes(q3 as int, 1) + seq![(q2 % 256) as u8]);
        assert(be_bytes(q1 as int, 3) =~= be_bytes(q2 as int, 2) + seq![(q1 % 256) as u8]);
        assert(be_bytes(v as int, 4) =~= be_bytes(q1 as int, 3) + seq![(v % 256) as u8]);
        assert(r@ =~= be_bytes(v as int, 4));
    }
    r
}

/// The 8-byte big-endian encoding of `v`.
pub fn u64_be_bytes(v: u64) -> (r: Vec<u8>)
    ensures
        r@ == be_bytes(v as int, 8),
{
    let q1 = v / 256;
    let q2 = q1 / 256;
    let q3 = q2 / 256;
    let q4 = q3 / 256;
    let q5 = q4 / 256;
    let q6 = q5 / 256;
    let q7 = q6 / 256;
    let mut r: Vec<u8> = Vec::new();
    r.push(q7 as u8);
    r.push((q6 % 256) as u8);
    r.push((q5 % 256) as u8);
    r.push((q4 % 256) as u8);
    r.push((q3 % 256) as u8);
    r.push((q2 % 256) as u8);
    r.push((q1 % 256) as u8);
    r.push((v % 256) as u8);
    proof {
        assert(be_bytes(q7 as int / 256, 0) =~= Seq::<u8>::empty());
        assert(be_bytes(q7 as int, 1) =~= seq![(q7 % 256) as u8]);
        assert(be_bytes(q6 as int, 2) =~= be_bytes(q7 as int, 1) + seq![(q6 % 256) as u8]);
        assert(be_bytes(q5 as int, 3) =~= be_bytes(q6 as int, 2) + seq![(q5 % 256) as u8]);
        assert(be_bytes(q4 as int, 4) =~= be_bytes(q5 as int, 3) + seq![(q4 % 256) as u8]);
        assert(be_bytes(q3 as int, 5) =~= be_bytes(q4 as int, 4) + seq![(q3 % 256) as u8]);
        assert(be_bytes(q2 as int, 6) =~= be_bytes(q3 as int, 5) + seq![(q2 % 256) as u8]);
        assert(be_bytes(q1 as int, 7) =~= be_bytes(q2 as int, 6) + seq![(q1 % 256) as u8]);
        assert(be_bytes(v as int, 8) =~= be_bytes(q1 as int, 7) + seq![(v % 256) as u8]);
        assert(r@ =~= be_bytes(v as int, 8));
    }
    r
}

/// Advances `pos` by `n`, failing when fewer than `n` bytes remain.
pub fn skip(buf: &[u8], pos: usize, n: usize) -> (r: Result<usize, Error>)
    ensures
        pos + n <= buf@.len() ==> (r matches Ok(p) && p == pos + n),
        pos + n > buf@.len() ==> (r matches Err(e) && e.kind is Incomplete),
{
    if pos <= buf.len() && n <= buf.len() - pos {
        Ok(pos + n)
    } else {
        Err(Error::incomplete_error())
    }
}

/// Encoding then decoding gives the block back: the frame an encodable
/// block serialises to is complete and well formed, is exactly as long as
/// its declared frame length, and decodes back to the same block number,
/// parent hash and content.
pub proof fn lemma_round_trip(b: BlockView)
    requires
        b.encodable(),
    ensures
        frame_ok(encode_spec(b)),
        frame_len_of(encode_spec(b)) == encode_spec(b).len(),
        block_of(encode_spec(b)) == b,
{
    let s = encode_spec(b);
    let plen = BLOCK_HEADER_LEN + b.content.len();
    lemma_be_bytes_len(plen as int, 4);
    lemma_be_bytes_len(b.block_number as int, 8);
    assert(s.len() == 45 + b.content.len());
    assert(s.subrange(1, 5) =~= be_bytes(plen as int, 4));
    assert(pow256(4) == 0x1_0000_0000) by {
        assert(pow256(0) == 1);
        assert(pow256(1) == 256);
        assert(pow256(2) == 0x1_0000);
        assert(pow256(3) == 0x100_0000);
    }
    lemma_be_val_of_be_bytes(plen as int, 4);
    assert(payload_len_of(s) == plen);
    assert(s.subrange(5, 37) =~= b.parent_hash);
    assert(s.subrange(37, 45) =~= be_bytes(b.block_number as int, 8));
    assert(pow256(8) == 0x1_0000_0000_0000_0000) by {
        assert(pow256(0) == 1);
        assert(pow256(1) == 256);
        assert(pow256(2) == 0x1_0000);
        assert(pow256(3) == 0x100_0000);
        assert(pow256(4) == 0x1_0000_0000);
        assert(pow256(5) == 0x100_0000_0000);
        assert(pow256(6) == 0x1_0000_0000_0000);
        assert(pow256(7) == 0x100_0000_0000_0000);
    }
    lemma_be_val_of_be_bytes(b.block_number as int, 8);
    assert(s.subrange(45, frame_len_of(s)) =~= b.content);
    assert(block_of(s) =~= b);
}

/// Every proper prefix of a well-formed frame is reported as needing more
/// bytes — never as complete, and never as malformed.
pub proof fn lemma_prefix_incomplete(b: BlockView, n: int)
    requires
        b.encodable(),
        0 <= n < encode_spec(b).len(),
    ensures
        frame_needs_more(encode_spec(b).take(n)),
{
    lemma_round_trip(b);
    let s = encode_spec(b);
    let t = s.take(n);
    if n >= 1 {
        assert(t[0] == s[0]);
    }
    if n >= 5 {
        assert(t.subrange(1, 5) =~= s.subrange(1, 5));
        assert(payload_len_of(t) == payload_len_of(s));
    }
}

/// A complete frame at the front of a buffer is unaffected by whatever
/// bytes arrive after it: it still decodes to the same block, and the bytes
/// past it are exactly the appended ones plus whatever already followed it.
pub proof fn lemma_frame_extends(s: Seq<u8>, t: Seq<u8>)
    requires
        frame_ok(s),
    ensures
        frame_ok(s + t),
        frame_len_of(s + t) == frame_len_of(s),
        block_of(s + t) == block_of(s),
        (s + t).skip(frame_len_of(s)) == s.skip(frame_len_of(s)) + t,
{
    let u = s + t;
    assert(u.subrange(1, 5) =~= s.subrange(1, 5));
    assert(payload_len_of(u) == payload_len_of(s));
    assert(u.subrange(5, 37) =~= s.subrange(5, 37));
    assert(u.subrange(37, 45) =~= s.subrange(37, 45));
    assert(u.subrange(45, frame_len_of(u)) =~= s.subrange(45, frame_len_of(s)));
    assert(block_of(u) =~= block_of(s));
    assert(u.skip(frame_len_of(s)) =~= s.skip(frame_len_of(s)) + t);
}

/// A buffer holding exactly two back-to-back well-formed frames decodes to
/// exactly the two blocks, in wire order, with nothing lost or duplicated.
/// Since appending chunks concatenates them, the buffer's contents — and
/// so the decoded blocks — do not depend on how the bytes were split into
/// chunks on delivery.
/// Two buffers each holding exactly one complete well-formed frame decode,
/// concatenated, to exactly their two blocks in order.
pub proof fn lemma_blocks_of_two(s1: Seq<u8>, s2: Seq<u8>)
    requires
        frame_ok(s1),
        frame_len_of(s1) == s1.len(),
        frame_ok(s2),
        frame_len_of(s2) == s2.len(),
    ensures
        blocks_of(s1 + s2) == seq![block_of(s1), block_of(s2)],
{
    let s = s1 + s2;
    lemma_frame_extends(s1, s2);
    assert(s.skip(frame_len_of(s)) == s2) by {
        assert(s1.skip(frame_len_of(s1)) =~= Seq::<u8>::empty());
        assert(Seq::<u8>::empty() + s2 =~= s2);
    }
    let empty = Seq::<u8>::empty();
    assert(s2.skip(frame_len_of(s2)) =~= empty);
    assert(!frame_ok(empty));
    assert(blocks_of(empty) == Seq::<BlockView>::empty());
    assert(blocks_of(s2) == seq![block_of(s2)] + Seq::<BlockView>::empty());
    assert(blocks_of(s) == seq![block_of(s)] + (seq![block_of(s2)] + Seq::<BlockView>::empty()));
    assert(seq![block_of(s1)] + (seq![block_of(s2)] + Seq::<BlockView>::empty()) =~= seq![
        block_of(s1),
        block_of(s2),
    ]);
}

/// A buffer holding exactly two back-to-back well-formed frames decodes to
/// exactly the two blocks, in wire order, with nothing lost or duplicated.
/// Since appending chunks concatenates them, the buffer's contents — and
/// so the decoded blocks — do not depend on how the bytes were split into
/// chunks on delivery.
pub proof fn lemma_buffer_retention(b1: BlockView, b2: BlockView)
    requires
        b1.encodable(),
        b2.encodable(),
    ensures
        blocks_of(encode_spec(b1) + encode_spec(b2)) == seq![b1, b2],
{
    lemma_round_trip(b1);
    lemma_round_trip(b2);
    lemma_blocks_of_two(encode_spec(b1), encode_spec(b2));
}

} // verus!
