//! The first form of the block compression: reads cut into blocks (the
//! last one may be short), each stored raw or compressed, with a table of
//! where each block's stored bytes sit in the result. Also the store that
//! keeps one block per read, keyed by the number of the read.
use vstd::prelude::*;
use std::collections::HashMap;
use crate::blocks::{Block, sort_blocks, sort_by_index, compression_pays, pays_to_compress, stored_total, lemma_stored_total_sort, lemma_prefix_totals};
use crate::codec::{compress, lz4_frame, LEVEL};
use crate::table::{Entry, entry_source_total, locates, lemma_empty_locates, lemma_push_entry_locates};

verus! {

broadcast use vstd::std_specs::hash::group_hash_axioms;

/// The length of a block.
pub const BLOCK_SIZE: usize = 64 * 1024;

/// How many bytes one read of the chunked compression asks for.
pub const READ_SIZE: usize = 64 * 1024 * 10;

/// The bytes kept for one read of `n` bytes into `buf`, given the frame of
/// the whole of `buf`: the frame when it is at most 90 percent of `n`, else
/// the whole buffer.
pub open spec fn kept_bytes(buf: Seq<u8>, n: usize, frame: Seq<u8>) -> Seq<u8> {
    if compression_pays(frame.len() as int, n as int) {
        frame
    } else {
        buf
    }
}

/// One stored block per read, keyed by the number of the read.
pub struct SampleStore {
    blocks: HashMap<usize, Vec<u8>>,
    count: usize,
}

impl View for SampleStore {
    type V = (Map<usize, Vec<u8>>, usize);

    closed spec fn view(&self) -> (Map<usize, Vec<u8>>, usize) {
        (self.blocks@, self.count)
    }
}

impl SampleStore {
    /// A store that has seen no read.
    pub fn new() -> (s: Self)
        ensures
            s@.0 == Map::<usize, Vec<u8>>::empty(),
            s@.1 == 0,
    {
        SampleStore { blocks: HashMap::new(), count: 0 }
    }

    /// The number of reads stored.
    pub fn count(&self) -> (c: usize)
        ensures
            c == self@.1,
    {
        self.count
    }

    /// The bytes stored for read `k`, if any.
    pub fn get(&self, k: usize) -> (r: Option<&Vec<u8>>)
        ensures
            match r {
                Some(v) => self@.0.contains_key(k) && *v == self@.0[k],
                None => !self@.0.contains_key(k),
            },
    {
        self.blocks.get(&k)
    }

    /// Stores the next read (`n` bytes read into `buf`), given the frame of
    /// the whole buffer.
    pub fn store_frame(&mut self, buf: &[u8], n: usize, frame: Vec<u8>)
        requires
            old(self)@.1 < usize::MAX,
        ensures
            final(self)@.1 == old(self)@.1 + 1,
            final(self)@.0.dom() == old(self)@.0.dom().insert(old(self)@.1),
            final(self)@.0[old(self)@.1]@ == kept_bytes(buf@, n, frame@),
            forall|k: usize| k != old(self)@.1 && old(self)@.0.contains_key(k)
                ==> #[trigger] final(self)@.0[k] == old(self)@.0[k],
    {
        let kept = if pays_to_compress(frame.len(), n) {
            frame
        } else {
            vstd::slice::slice_to_vec(buf)
        };
        self.blocks.insert(self.count, kept);
        self.count = self.count + 1;
    }

    /// Compresses the whole buffer of the next read and stores the frame or
    /// the buffer. Hands back the length of the frame and the outcome of
    /// closing it; when closing failed, the bytes written before stand for
    /// the frame. Fails only when the encoder cannot be built or cannot take
    /// the bytes, leaving the store as it was.
    pub fn store_read(&mut self, buf: &[u8], n: usize) -> (r: Result<(usize, Result<(), std::io::Error>), std::io::Error>)
        requires
            old(self)@.1 < usize::MAX,
        ensures
            r matches Ok((len, end)) ==> {
                &&& final(self)@.1 == old(self)@.1 + 1
                &&& final(self)@.0.dom() == old(self)@.0.dom().insert(old(self)@.1)
                &&& forall|k: usize| k != old(self)@.1 && old(self)@.0.contains_key(k)
                    ==> #[trigger] final(self)@.0[k] == old(self)@.0[k]
                &&& compression_pays(len as int, n as int) ==> final(self)@.0[old(self)@.1]@.len() == len
                &&& !compression_pays(len as int, n as int) ==> final(self)@.0[old(self)@.1]@ == buf@
                &&& end is Ok ==> {
                    &&& len == lz4_frame(LEVEL, seq![buf@]).len()
                    &&& len >= 15
                    &&& final(self)@.0[old(self)@.1]@ == kept_bytes(buf@, n, lz4_frame(LEVEL, seq![buf@]))
                }
            },
            r is Err ==> final(self)@ == old(self)@,
    {
        match compress(buf) {
            Ok((frame, end)) => {
                let len = frame.len();
                self.store_frame(buf, n, frame);
                Ok((len, end))
            },
            Err(e) => Err(e),
        }
    }
}

/// The state of a chunked compression, as plain values.
pub struct ChunkView {
    /// The bytes stored so far.
    pub result: Seq<u8>,
    /// The table so far; its input fields are always zero.
    pub table: Seq<Entry>,
    /// The result offset that the next block gets.
    pub stored_offset: usize,
    /// The stored bytes of each entry, in table order.
    pub stored: Seq<Seq<u8>>,
}

/// A chunked compression over the reads of one input.
pub struct ChunkRun {
    result: Vec<u8>,
    table: Vec<Entry>,
    stored_offset: usize,
    stored: Ghost<Seq<Seq<u8>>>,
}

impl View for ChunkRun {
    type V = ChunkView;

    closed spec fn view(&self) -> ChunkView {
        ChunkView {
            result: self.result@,
            table: self.table@,
            stored_offset: self.stored_offset,
            stored: self.stored@,
        }
    }
}

/// The run after one more block: an entry `(0, 0, size, offset)`, the
/// stored bytes appended, the offset moved past them.
pub open spec fn append_chunk(v: ChunkView, b: Block) -> ChunkView {
    ChunkView {
        result: v.result + b.data@,
        table: v.table.push((0, 0, b.data@.len() as usize, v.stored_offset)),
        stored_offset: (v.stored_offset + b.data@.len()) as usize,
        stored: v.stored.push(b.data@),
    }
}

/// The run after the blocks `bs`, in the order given.
pub open spec fn append_chunks(v: ChunkView, bs: Seq<Block>) -> ChunkView
    decreases bs.len(),
{
    if bs.len() == 0 {
        v
    } else {
        append_chunk(append_chunks(v, bs.drop_last()), bs.last())
    }
}

/// The table locates each block's stored bytes in the result, the input
/// fields are zero, and the offset stands at the end of the result.
pub open spec fn chunks_tiled(v: ChunkView) -> bool {
    &&& locates(v.table, v.stored, v.result)
    &&& entry_source_total(v.table) == 0
    &&& v.stored_offset == v.result.len()
}

impl ChunkRun {
    /// A run that has seen no input.
    pub fn new() -> (r: Self)
        ensures
            r@ == (ChunkView { result: Seq::empty(), table: Seq::empty(), stored_offset: 0, stored: Seq::empty() }),
            chunks_tiled(r@),
    {
        proof {
            lemma_empty_locates();
        }
        ChunkRun { result: Vec::new(), table: Vec::new(), stored_offset: 0, stored: Ghost(Seq::empty()) }
    }

    /// The bytes stored so far.
    pub fn result(&self) -> (r: &Vec<u8>)
        ensures
            r@ == self@.result,
    {
        &self.result
    }

    /// The result offset that the next block gets.
    pub fn stored_offset(&self) -> (r: usize)
        ensures
            r == self@.stored_offset,
    {
        self.stored_offset
    }

    /// The table so far.
    pub fn table(&self) -> (r: &Vec<Entry>)
        ensures
            r@ == self@.table,
    {
        &self.table
    }

    /// Records the blocks of one read, which may come in any order: they are
    /// put in the order of their indices first, then each gets an entry at
    /// the running offset and its stored bytes are appended.
    pub fn record_chunks(&mut self, blocks: Vec<Block>)
        requires
            old(self)@.stored_offset + stored_total(blocks@) <= usize::MAX,
        ensures
            final(self)@ == append_chunks(old(self)@, sort_by_index(blocks@)),
            chunks_tiled(old(self)@) ==> chunks_tiled(final(self)@),
            old(self)@.table.is_prefix_of(final(self)@.table),
            old(self)@.result.is_prefix_of(final(self)@.result),
    {
        let ghost start = self@;
        let sorted = sort_blocks(blocks);
        let ghost all = sorted@;
        proof {
            lemma_stored_total_sort(blocks@);
        }
        let mut rest = sorted;
        let total = rest.len();
        let mut k: usize = 0;
        while rest.len() > 0
            invariant
                total == all.len(),
                k + rest@.len() == all.len(),
                rest@ == all.subrange(k as int, all.len() as int),
                self@ == append_chunks(start, all.subrange(0, k as int)),
                self.stored_offset == start.stored_offset + stored_total(all.subrange(0, k as int)),
                start.stored_offset + stored_total(all) <= usize::MAX,
                chunks_tiled(start) ==> chunks_tiled(self@),
                start.table.is_prefix_of(self@.table),
                start.result.is_prefix_of(self@.result),
            decreases rest@.len(),
        {
            let mut b = rest.remove(0);
            let ghost before = self@;
            let ghost b0 = b;
            proof {
                assert(all.subrange(0, k + 1).drop_last() =~= all.subrange(0, k as int));
                assert(all.subrange(0, k + 1).last() == b0);
                lemma_prefix_totals(all, k + 1);
                if chunks_tiled(before) {
                    lemma_push_entry_locates(
                        before.table,
                        before.stored,
                        before.result,
                        (0, 0, b0.data@.len() as usize, before.stored_offset),
                        b0.data@,
                    );
                }
            }
            let len = b.data.len();
            self.table.push((0, 0, len, self.stored_offset));
            self.stored_offset = self.stored_offset + len;
            let ghost data = b.data@;
            self.result.append(&mut b.data);
            self.stored = Ghost(self.stored@.push(data));
            k += 1;
            proof {
                assert(rest@ =~= all.subrange(k as int, all.len() as int));
                assert(self@ == append_chunk(before, b0));
            }
        }
        proof {
            assert(all.subrange(0, k as int) =~= all);
        }
    }

    /// Ends the run and hands out the stored bytes and the table.
    pub fn finish(self) -> (r: (Vec<u8>, Vec<Entry>))
        ensures
            r.0@ == self@.result,
            r.1@ == self@.table,
    {
        (self.result, self.table)
    }
}

} // verus!
