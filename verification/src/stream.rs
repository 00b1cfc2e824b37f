//! The incremental stream decoder and the common-ancestor search.
//!
//! [`BlockStream`] owns one growable buffer of not-yet-consumed bytes. A
//! transport delivers chunks into it with [`BlockStream::push_bytes`];
//! [`BlockStream::poll_next`] decodes one frame off the front of the buffer
//! whenever a complete one is present, retaining any trailing bytes of the
//! next frame. The transport itself — whatever asynchronously supplies the
//! chunks — lives outside this crate; the decoder only decides.

use vstd::prelude::*;
use vstd::slice::{slice_subrange, slice_to_vec};

use crate::block::{
    block_of, blocks_of, frame_len_of, frame_malformed, frame_needs_more, frame_ok, rest_of, Block,
    BlockView,
};
use crate::error::{Error, ErrorKind};

verus! {

/// Initial capacity of a decoder's byte buffer.
pub const BUFFER_CAP: usize = 4096;

/// What one pull on a [`BlockStream`] yields.
pub enum Step {
    /// A fully decoded block; its frame has been removed from the buffer.
    Block(Block),
    /// The buffered bytes begin with a structurally invalid frame; the
    /// stream is terminated and this error is its last item.
    Reject(Error),
    /// The buffered bytes do not yet hold a complete frame: ask the
    /// transport for more.
    NeedRead,
    /// The stream has terminated; nothing more will be produced.
    Done,
}

/// An incremental decoder for one stream of block frames.
pub struct BlockStream {
    buf: Vec<u8>,
    done: bool,
}

impl BlockStream {
    /// Bytes delivered by the transport and not yet consumed by a decoded
    /// frame.
    pub closed spec fn pending(&self) -> Seq<u8> {
        self.buf@
    }

    /// Whether the stream has terminated: end of input, a transport
    /// failure, or a malformed frame.
    pub closed spec fn terminated(&self) -> bool {
        self.done
    }

    pub fn new() -> (s: Self)
        ensures
            s.pending() == Seq::<u8>::empty(),
            !s.terminated(),
    {
        BlockStream { buf: Vec::with_capacity(BUFFER_CAP), done: false }
    }

    /// Appends a chunk of bytes delivered by the transport. Chunks
    /// concatenate: the buffer's contents do not depend on how the wire
    /// bytes were split up.
    pub fn push_bytes(&mut self, chunk: &[u8])
        requires
            !old(self).terminated(),
        ensures
            final(self).pending() == old(self).pending() + chunk@,
            !final(self).terminated(),
    {
        let mut i: usize = 0;
        while i < chunk.len()
            invariant
                i <= chunk@.len(),
                self.buf@ == old(self).buf@ + chunk@.subrange(0, i as int),
                self.done == old(self).done,
            decreases chunk@.len() - i,
        {
            self.buf.push(chunk[i]);
            proof {
                assert(old(self).buf@ + chunk@.subrange(0, i as int) + seq![chunk@[i as int]]
                    =~= old(self).buf@ + chunk@.subrange(0, i + 1));
            }
            i = i + 1;
        }
        proof {
            assert(chunk@.subrange(0, chunk@.len() as int) =~= chunk@);
        }
    }

    /// Records end of input: the transport has no more bytes to deliver.
    pub fn end_of_input(&mut self)
        ensures
            final(self).terminated(),
            final(self).pending() == old(self).pending(),
    {
        self.done = true;
    }

    /// Records a transport failure, terminating the stream, and returns the
    /// error to surface as the stream's last item.
    pub fn transport_failed(&mut self, msg: String) -> (e: Error)
        ensures
            final(self).terminated(),
            final(self).pending() == old(self).pending(),
            e.kind == ErrorKind::Other(msg),
    {
        self.done = true;
        Error::other_error(msg)
    }

    /// One decode attempt against the buffered bytes. A complete frame is
    /// consumed off the front of the buffer and its block produced; a
    /// malformed frame terminates the stream with its error; an incomplete
    /// frame asks the caller to supply more bytes first.
    pub fn poll_next(&mut self) -> (step: Step)
        ensures
            old(self).terminated() ==> (step is Done && final(self).terminated()
                && final(self).pending() == old(self).pending()),
            !old(self).terminated() && frame_ok(old(self).pending()) ==> (step matches Step::Block(b)
                && b@ == block_of(old(self).pending())
                && b.wf()
                && final(self).pending() == old(self).pending().skip(
                frame_len_of(old(self).pending()),
            )
                && !final(self).terminated()),
            !old(self).terminated() && frame_malformed(old(self).pending()) ==> (step matches Step::Reject(e)
                && e.kind is Malformed
                && final(self).terminated()
                && final(self).pending() == old(self).pending()),
            !old(self).terminated() && frame_needs_more(old(self).pending()) ==> (step is NeedRead
                && !final(self).terminated()
                && final(self).pending() == old(self).pending()),
    {
        if self.done {
            return Step::Done;
        }
        // The check is cheaper than a parse: it allocates nothing, so it is
        // the one run on every partial delivery.
        match Block::check(self.buf.as_slice()) {
            Ok(()) => {
                match Block::parse(self.buf.as_slice()) {
                    Ok((block, consumed)) => {
                        // Drop the consumed frame; retain any trailing bytes
                        // that belong to the next one.
                        let rest = slice_to_vec(
                            slice_subrange(self.buf.as_slice(), consumed, self.buf.len()),
                        );
                        self.buf = rest;
                        Step::Block(block)
                    },
                    // A checked frame always parses.
                    Err(_) => vstd::pervasive::unreached(),
                }
            },
            Err(e) => {
                match &e.kind {
                    ErrorKind::Incomplete => Step::NeedRead,
                    _ => {
                        self.done = true;
                        Step::Reject(e)
                    },
                }
            },
        }
    }
}

/// The mathematical values of a sequence of blocks.
pub open spec fn views_of(blocks: Seq<Block>) -> Seq<BlockView> {
    blocks.map_values(|b: Block| b@)
}

/// Decodes every complete frame at the front of `input`, in wire order.
/// The error, present exactly when decoding stopped at a malformed frame,
/// is the terminal item a [`BlockStream`] over the same bytes would have
/// produced; without it the trailing bytes were merely incomplete.
pub fn read_blocks(input: &[u8]) -> (r: (Vec<Block>, Option<Error>))
    ensures
        views_of(r.0@) == blocks_of(input@),
        r.1 is Some <==> frame_malformed(rest_of(input@)),
        r.1 matches Some(e) ==> e.kind is Malformed,
{
    let mut stream = BlockStream::new();
    stream.push_bytes(input);
    proof {
        assert(Seq::<u8>::empty() + input@ =~= input@);
        assert(views_of(Seq::<Block>::empty()) =~= Seq::<BlockView>::empty());
    }
    let mut blocks: Vec<Block> = Vec::new();
    loop
        invariant
            !stream.terminated(),
            views_of(blocks@) + blocks_of(stream.pending()) == blocks_of(input@),
            rest_of(stream.pending()) == rest_of(input@),
        decreases stream.pending().len(),
    {
        let ghost pending = stream.pending();
        match stream.poll_next() {
            Step::Block(b) => {
                proof {
                    let tail = pending.skip(frame_len_of(pending));
                    assert(blocks_of(pending) == seq![block_of(pending)] + blocks_of(tail));
                    assert(views_of(blocks@.push(b)) =~= views_of(blocks@) + seq![b@]);
                    assert(views_of(blocks@) + seq![b@] + blocks_of(tail) =~= views_of(blocks@)
                        + (seq![block_of(pending)] + blocks_of(tail)));
                }
                blocks.push(b);
            },
            Step::Reject(e) => {
                proof {
                    assert(blocks_of(pending) =~= Seq::<BlockView>::empty());
                    assert(views_of(blocks@) + Seq::<BlockView>::empty() =~= views_of(blocks@));
                }
                return (blocks, Some(e));
            },
            Step::NeedRead => {
                // The slice was the whole input: nothing more will arrive.
                proof {
                    assert(blocks_of(pending) =~= Seq::<BlockView>::empty());
                    assert(views_of(blocks@) + Seq::<BlockView>::empty() =~= views_of(blocks@));
                }
                return (blocks, None);
            },
            Step::Done => {
                proof {
                    assert(false);
                }
                return (blocks, None);
            },
        }
    }
}

/// The views of every stream's decoded blocks.
pub open spec fn stream_views(streams: Seq<Vec<Block>>) -> Seq<Seq<BlockView>> {
    streams.map_values(|v: Vec<Block>| views_of(v@))
}

/// Whether some block of `blocks` has `h` as its parent hash.
pub open spec fn has_hash(blocks: Seq<BlockView>, h: Seq<u8>) -> bool {
    exists|j: int| 0 <= j < blocks.len() && blocks[j].parent_hash == h
}

/// Whether `h` is in every stream's set of decoded parent hashes.
pub open spec fn is_common(ss: Seq<Seq<BlockView>>, h: Seq<u8>) -> bool {
    forall|i: int| 0 <= i < ss.len() ==> has_hash(ss[i], h)
}

/// All the streams' blocks in one sequence, in stream order then wire
/// order: the order in which the search writes its hash-to-block table.
pub open spec fn flat_of(ss: Seq<Seq<BlockView>>) -> Seq<BlockView>
    decreases ss.len(),
{
    if ss.len() == 0 {
        Seq::empty()
    } else {
        flat_of(ss.drop_last()) + ss.last()
    }
}

/// The table entry for hash `h`: the last block written with that parent
/// hash, or nothing when no block carries it (last writer wins).
pub open spec fn lookup(blocks: Seq<BlockView>, h: Seq<u8>) -> Option<BlockView>
    decreases blocks.len(),
{
    if blocks.len() == 0 {
        None
    } else if blocks.last().parent_hash == h {
        Some(blocks.last())
    } else {
        lookup(blocks.drop_last(), h)
    }
}

/// The table has an entry for `h` exactly when some block carries `h`, and
/// the entry it holds carries `h` itself.
pub proof fn lemma_lookup_some(blocks: Seq<BlockView>, h: Seq<u8>)
    ensures
        has_hash(blocks, h) <==> lookup(blocks, h) is Some,
        lookup(blocks, h) matches Some(c) ==> c.parent_hash == h,
    decreases blocks.len(),
{
    if blocks.len() == 0 {
        assert(!has_hash(blocks, h));
    } else {
        let d = blocks.drop_last();
        lemma_lookup_some(d, h);
        if blocks.last().parent_hash == h {
            assert(blocks[blocks.len() - 1].parent_hash == h);
            assert(has_hash(blocks, h));
        } else {
            if has_hash(blocks, h) {
                let j = choose|j: int| 0 <= j < blocks.len() && blocks[j].parent_hash == h;
                assert(j < blocks.len() - 1);
                assert(d[j] == blocks[j]);
                assert(has_hash(d, h));
            }
            if has_hash(d, h) {
                let j = choose|j: int| 0 <= j < d.len() && d[j].parent_hash == h;
                assert(blocks[j] == d[j]);
                assert(has_hash(blocks, h));
            }
        }
    }
}

/// Every decoded block's parent hash appears somewhere in the table order.
pub proof fn lemma_flat_has(ss: Seq<Seq<BlockView>>, i: int, j: int)
    requires
        0 <= i < ss.len(),
        0 <= j < ss[i].len(),
    ensures
        has_hash(flat_of(ss), ss[i][j].parent_hash),
    decreases ss.len(),
{
    let d = ss.drop_last();
    if i == ss.len() - 1 {
        let k = flat_of(d).len() + j;
        assert(flat_of(ss)[k] == ss[i][j]);
        assert(has_hash(flat_of(ss), ss[i][j].parent_hash));
    } else {
        assert(d[i] == ss[i]);
        lemma_flat_has(d, i, j);
        let h = ss[i][j].parent_hash;
        let k = choose|k: int| 0 <= k < flat_of(d).len() && flat_of(d)[k].parent_hash == h;
        assert(flat_of(ss)[k] == flat_of(d)[k]);
        assert(has_hash(flat_of(ss), h));
    }
}

/// Whether two parent hashes hold the same bytes.
fn hashes_equal(a: &Vec<u8>, b: &Vec<u8>) -> (r: bool)
    ensures
        r == (a@ == b@),
{
    if a.len() != b.len() {
        return false;
    }
    let mut i: usize = 0;
    while i < a.len()
        invariant
            i <= a@.len(),
            a@.len() == b@.len(),
            forall|k: int| 0 <= k < i ==> a@[k] == b@[k],
        decreases a@.len() - i,
    {
        if a[i] != b[i] {
            return false;
        }
        i = i + 1;
    }
    proof {
        assert(a@ =~= b@);
    }
    true
}

/// Whether some block of `blocks` has `h` as its parent hash.
fn contains_hash(blocks: &Vec<Block>, h: &Vec<u8>) -> (r: bool)
    ensures
        r == has_hash(views_of(blocks@), h@),
{
    let mut i: usize = 0;
    while i < blocks.len()
        invariant
            i <= blocks@.len(),
            forall|k: int| 0 <= k < i ==> views_of(blocks@)[k].parent_hash != h@,
        decreases blocks@.len() - i,
    {
        if hashes_equal(&blocks[i].parent_hash, h) {
            proof {
                assert(views_of(blocks@)[i as int].parent_hash == h@);
            }
            return true;
        }
        i = i + 1;
    }
    false
}

/// Whether `h` is in every stream's set of decoded parent hashes.
fn hash_in_all(streams: &[Vec<Block>], h: &Vec<u8>) -> (r: bool)
    ensures
        r == is_common(stream_views(streams@), h@),
{
    let mut i: usize = 0;
    while i < streams.len()
        invariant
            i <= streams@.len(),
            forall|k: int| 0 <= k < i ==> has_hash(stream_views(streams@)[k], h@),
        decreases streams@.len() - i,
    {
        proof {
            assert(stream_views(streams@)[i as int] == views_of(streams@[i as int]@));
        }
        if !contains_hash(&streams[i], h) {
            return false;
        }
        i = i + 1;
    }
    true
}

/// Clones every stream's blocks into one list in table order.
fn flatten_streams(streams: &[Vec<Block>]) -> (all: Vec<Block>)
    ensures
        views_of(all@) == flat_of(stream_views(streams@)),
{
    let ghost ss = stream_views(streams@);
    let mut all: Vec<Block> = Vec::new();
    proof {
        assert(ss.take(0) =~= Seq::<Seq<BlockView>>::empty());
        assert(views_of(all@) =~= flat_of(ss.take(0)));
    }
    let mut i: usize = 0;
    while i < streams.len()
        invariant
            i <= streams@.len(),
            ss == stream_views(streams@),
            views_of(all@) == flat_of(ss.take(i as int)),
        decreases streams@.len() - i,
    {
        proof {
            assert(ss[i as int] == views_of(streams@[i as int]@));
        }
        let mut j: usize = 0;
        while j < streams[i].len()
            invariant
                i < streams@.len(),
                j <= streams@[i as int]@.len(),
                ss == stream_views(streams@),
                ss[i as int] == views_of(streams@[i as int]@),
                views_of(all@) == flat_of(ss.take(i as int)) + ss[i as int].take(j as int),
            decreases streams@[i as int]@.len() - j,
        {
            let b = streams[i][j].clone();
            let ghost bv = b@;
            let ghost prev = all@;
            all.push(b);
            proof {
                assert(bv == ss[i as int][j as int]);
                assert(views_of(all@) =~= views_of(prev).push(bv));
                assert(views_of(prev).push(bv) =~= flat_of(ss.take(i as int)) + ss[i as int].take(
                    j + 1,
                ));
            }
            j = j + 1;
        }
        proof {
            assert(ss[i as int].take(ss[i as int].len() as int) =~= ss[i as int]);
            assert(ss.take(i + 1).drop_last() =~= ss.take(i as int));
            assert(ss.take(i + 1).last() == ss[i as int]);
            assert(flat_of(ss.take(i + 1)) == flat_of(ss.take(i as int)) + ss[i as int]);
        }
        i = i + 1;
    }
    proof {
        assert(ss.take(ss.len() as int) =~= ss);
    }
    all
}

/// Looks up the table entry for `h`: the last block, in table order, whose
/// parent hash is `h`.
fn lookup_block(all: &Vec<Block>, h: &Vec<u8>) -> (r: Option<Block>)
    ensures
        r matches Some(b) ==> lookup(views_of(all@), h@) == Some(b@),
        r is None ==> lookup(views_of(all@), h@) is None,
{
    let ghost vs = views_of(all@);
    proof {
        assert(vs.take(vs.len() as int) =~= vs);
    }
    let mut i: usize = all.len();
    while i > 0
        invariant
            i <= all@.len(),
            vs == views_of(all@),
            lookup(vs, h@) == lookup(vs.take(i as int), h@),
        decreases i,
    {
        i = i - 1;
        proof {
            assert(vs.take(i + 1).drop_last() =~= vs.take(i as int));
            assert(vs.take(i + 1).last() == vs[i as int]);
        }
        if hashes_equal(&all[i].parent_hash, h) {
            proof {
                assert(lookup(vs.take(i + 1), h@) == Some(vs[i as int]));
            }
            return Some(all[i].clone());
        }
    }
    proof {
        assert(vs.take(0) =~= Seq::<BlockView>::empty());
    }
    None
}

/// Searches several decoded streams for their most recent common ancestor.
///
/// A hash is common when every stream decoded a block carrying it. The
/// result is the block the bookkeeping table maps such a hash to — the last
/// block written with it, in stream order then wire order — chosen so that
/// no common hash's table entry has a greater block number. `None` exactly
/// when there is no stream at all or no common hash. One stream's early
/// truncation (after a transport failure or a malformed frame) only shrinks
/// that stream's hash set; the others still contribute theirs in full.
pub fn find_common_ancestor(streams: &[Vec<Block>]) -> (r: Option<Block>)
    ensures
        r is Some <==> (streams@.len() > 0 && exists|h: Seq<u8>|
            is_common(stream_views(streams@), h)),
        r matches Some(b) ==> is_common(stream_views(streams@), b@.parent_hash) && lookup(
            flat_of(stream_views(streams@)),
            b@.parent_hash,
        ) == Some(b@),
        r matches Some(b) ==> forall|h: Seq<u8>|
            is_common(stream_views(streams@), h) ==> (lookup(
                flat_of(stream_views(streams@)),
                h,
            ) matches Some(c) && c.block_number <= b@.block_number),
{
    let ghost ss = stream_views(streams@);
    let ghost flat = flat_of(ss);
    if streams.len() == 0 {
        return None;
    }
    let all = flatten_streams(streams);
    proof {
        assert(ss[0] == views_of(streams@[0]@));
    }
    let mut best: Option<Block> = None;
    let mut j: usize = 0;
    while j < streams[0].len()
        invariant
            streams@.len() > 0,
            ss == stream_views(streams@),
            flat == flat_of(ss),
            views_of(all@) == flat,
            ss[0] == views_of(streams@[0]@),
            j <= streams@[0]@.len(),
            best is None ==> forall|k: int|
                0 <= k < j ==> !is_common(ss, ss[0][k].parent_hash),
            best matches Some(b) ==> is_common(ss, b@.parent_hash) && lookup(flat, b@.parent_hash)
                == Some(b@),
            best matches Some(b) ==> forall|k: int|
                0 <= k < j && is_common(ss, ss[0][k].parent_hash) ==> (lookup(
                    flat,
                    ss[0][k].parent_hash,
                ) matches Some(c) && c.block_number <= b@.block_number),
        decreases streams@[0]@.len() - j,
    {
        let h = &streams[0][j].parent_hash;
        proof {
            assert(ss[0][j as int] == streams@[0]@[j as int]@);
        }
        if hash_in_all(streams, h) {
            match lookup_block(&all, h) {
                Some(b) => {
                    proof {
                        lemma_lookup_some(flat, h@);
                    }
                    let replace = match &best {
                        None => true,
                        Some(cur) => b.block_number > cur.block_number,
                    };
                    if replace {
                        best = Some(b);
                    }
                },
                None => {
                    proof {
                        lemma_flat_has(ss, 0, j as int);
                        lemma_lookup_some(flat, h@);
                        assert(false);
                    }
                },
            }
        }
        j = j + 1;
    }
    proof {
        if streams@.len() > 0 && exists|h: Seq<u8>| is_common(ss, h) {
            let h = choose|h: Seq<u8>| is_common(ss, h);
            assert(has_hash(ss[0], h));
            let k = choose|k: int| 0 <= k < ss[0].len() && ss[0][k].parent_hash == h;
            assert(best is Some);
        }
        if best is Some {
            let b = best->Some_0;
            assert forall|h: Seq<u8>| is_common(ss, h) implies (lookup(flat, h) matches Some(c)
                && c.block_number <= b@.block_number) by {
                assert(has_hash(ss[0], h));
                let k = choose|k: int| 0 <= k < ss[0].len() && ss[0][k].parent_hash == h;
                assert(is_common(ss, ss[0][k].parent_hash));
            }
        }
    }
    best
}

} // verus!
