//! Block-wise compression of a stream of reads into one byte vector and a
//! table that says where each block went.
//!
//! Each read is cut into full blocks of `BLOCK_SIZE` bytes and the bytes left
//! over behind them. A block is stored as its LZ4 frame when the frame is at
//! most 90 percent of the block, and raw otherwise. The table has one entry
//! `(src_size, src_offset, stored_size, stored_offset)` per full block: its
//! length in the input, where it starts in the input, its stored length and
//! where the stored bytes start in the result. The left-over bytes are
//! compressed as they are, with no padding to a full block; when their frame
//! pays it is appended with an entry of its own, and otherwise the raw bytes
//! are appended with no entry.
use vstd::prelude::*;
use crate::blocks::{
    Block, honest, block_fits, blocks_of_read, block_view, chosen_block, sort_blocks, sort_by_index,
    compression_pays, pays_to_compress, stored_total, source_total, lemma_stored_total_sort,
    lemma_prefix_totals, lemma_read_in_order, lemma_sort_keeps_blocks,
};
use crate::codec::{compress, lz4_frame, LEVEL};
use crate::table::{Entry, entry_source_total, entry_stored_total, locates, lemma_push_entry_locates, lemma_last_entry_ends, lemma_entry_locates_bytes, lemma_stored_total_locates};

verus! {

/// The length of a full block.
pub const BLOCK_SIZE: usize = 64 * 1024;

/// How many bytes one read asks for.
pub const READ_SIZE: usize = 64 * 1024 * 10;

/// The state of a compression run, as plain values.
pub struct RunView {
    /// The bytes stored so far.
    pub result: Seq<u8>,
    /// The compression table so far.
    pub table: Seq<Entry>,
    /// The input offset that the next full block gets.
    pub src_offset: usize,
    /// The result offset that the next full block gets.
    pub stored_offset: usize,
    /// Whether any block or remainder was stored compressed.
    pub is_compressed: bool,
    /// The stored bytes of each table entry, in table order.
    pub stored: Seq<Seq<u8>>,
}

/// A compression run over the reads of one input.
pub struct CompressionRun {
    result: Vec<u8>,
    table: Vec<Entry>,
    src_offset: usize,
    stored_offset: usize,
    is_compressed: bool,
    stored: Ghost<Seq<Seq<u8>>>,
}

impl View for CompressionRun {
    type V = RunView;

    closed spec fn view(&self) -> RunView {
        RunView {
            result: self.result@,
            table: self.table@,
            src_offset: self.src_offset,
            stored_offset: self.stored_offset,
            is_compressed: self.is_compressed,
            stored: self.stored@,
        }
    }
}

/// The run after one more full block: an entry at the running offsets, the
/// stored bytes appended, the running offsets moved past the block.
pub open spec fn append_block(v: RunView, b: Block) -> RunView {
    RunView {
        result: v.result + b.data@,
        table: v.table.push((b.src_len, v.src_offset, b.data@.len() as usize, v.stored_offset)),
        src_offset: (v.src_offset + b.src_len) as usize,
        stored_offset: (v.stored_offset + b.data@.len()) as usize,
        is_compressed: v.is_compressed || b.compressed,
        stored: v.stored.push(b.data@),
    }
}

/// The run after the blocks `bs`, in the order given.
pub open spec fn append_blocks(v: RunView, bs: Seq<Block>) -> RunView
    decreases bs.len(),
{
    if bs.len() == 0 {
        v
    } else {
        append_block(append_blocks(v, bs.drop_last()), bs.last())
    }
}

/// The table of the run locates its stored pieces in its result.
pub open spec fn table_locates(v: RunView) -> bool {
    locates(v.table, v.stored, v.result)
}

/// The table locates the result, and the running offsets stand right
/// behind the last entry, so that the next block continues the tiling.
pub open spec fn tiled(v: RunView) -> bool {
    &&& table_locates(v)
    &&& v.stored_offset == v.result.len()
    &&& v.src_offset == entry_source_total(v.table)
}

/// The run with one more table entry `e` whose stored bytes are `data`;
/// the running offsets and the flag stay.
pub open spec fn push_entry(v: RunView, e: Entry, data: Seq<u8>) -> RunView {
    RunView { result: v.result + data, table: v.table.push(e), stored: v.stored.push(data), ..v }
}

proof fn lemma_append_blocks_shape(v: RunView, s: Seq<Block>)
    ensures
        append_blocks(v, s).table.len() == v.table.len() + s.len(),
        append_blocks(v, s).stored.len() == v.stored.len() + s.len(),
        forall|i: int| 0 <= i < v.table.len() ==> #[trigger] append_blocks(v, s).table[i] == v.table[i],
        forall|i: int| 0 <= i < s.len() ==> {
            &&& (#[trigger] append_blocks(v, s).table[v.table.len() + i]).0 == s[i].src_len
            &&& append_blocks(v, s).table[v.table.len() + i].2 == s[i].data@.len() as usize
            &&& append_blocks(v, s).stored[v.stored.len() + i] == s[i].data@
        },
    decreases s.len(),
{
    if s.len() > 0 {
        lemma_append_blocks_shape(v, s.drop_last());
        let w = append_blocks(v, s.drop_last());
        assert forall|i: int| 0 <= i < s.len() implies {
            &&& (#[trigger] append_blocks(v, s).table[v.table.len() + i]).0 == s[i].src_len
            &&& append_blocks(v, s).table[v.table.len() + i].2 == s[i].data@.len() as usize
            &&& append_blocks(v, s).stored[v.stored.len() + i] == s[i].data@
        } by {
            let full = append_blocks(v, s);
            assert(full == append_block(w, s.last()));
            if i < s.len() - 1 {
                assert(s.drop_last()[i] == s[i]);
                assert(w.table[v.table.len() + i] == full.table[v.table.len() + i]);
                assert(w.stored[v.stored.len() + i] == full.stored[v.stored.len() + i]);
            } else {
                assert(s.last() == s[i]);
            }
        }
    }
}

/// Recording the blocks of one read, cut into `chunks` and arriving in any
/// order, gives one new entry per chunk in the order of the read: it stands
/// for the whole chunk and its stored bytes are the chunk, or at most 90
/// percent of it when compressed. The entries before stay.
pub proof fn lemma_read_recorded(v: RunView, bs: Seq<Block>, chunks: Seq<Seq<u8>>)
    requires
        blocks_of_read(bs, chunks),
    ensures
        append_blocks(v, sort_by_index(bs)).table.len() == v.table.len() + chunks.len(),
        forall|i: int| 0 <= i < v.table.len() ==> #[trigger] append_blocks(v, sort_by_index(bs)).table[i] == v.table[i],
        forall|i: int| 0 <= i < chunks.len() ==> {
            &&& (#[trigger] append_blocks(v, sort_by_index(bs)).table[v.table.len() + i]).0 == chunks[i].len()
            &&& block_fits(sort_by_index(bs)[i], i as usize, chunks[i])
            &&& append_blocks(v, sort_by_index(bs)).stored[v.stored.len() + i] == sort_by_index(bs)[i].data@
        },
{
    crate::blocks::lemma_read_in_order(bs, chunks);
    lemma_append_blocks_shape(v, sort_by_index(bs));
    let s = sort_by_index(bs);
    assert forall|i: int| 0 <= i < chunks.len() implies {
        &&& (#[trigger] append_blocks(v, s).table[v.table.len() + i]).0 == chunks[i].len()
        &&& block_fits(s[i], i as usize, chunks[i])
        &&& append_blocks(v, s).stored[v.stored.len() + i] == s[i].data@
    } by {
        assert(i < s.len());
        assert(s[i].index == i && block_fits(s[i], i as usize, chunks[i]));
        assert(append_blocks(v, s).table[v.table.len() + i].0 == s[i].src_len);
    }
}

/// Recording the same blocks in another order gives the same run.
pub proof fn lemma_record_order_irrelevant(v: RunView, a: Seq<Block>, b: Seq<Block>)
    requires
        a.to_multiset() == b.to_multiset(),
        crate::blocks::distinct_indices(a),
    ensures
        append_blocks(v, sort_by_index(a)) == append_blocks(v, sort_by_index(b)),
{
    crate::blocks::lemma_arrival_order_irrelevant(a, b);
}

/// Appending a full block to a tiled run leaves it tiled.
pub proof fn lemma_append_block_tiled(v: RunView, b: Block)
    requires
        tiled(v),
        v.stored_offset + b.data@.len() <= usize::MAX,
        v.src_offset + b.src_len <= usize::MAX,
    ensures
        tiled(append_block(v, b)),
{
    let e = (b.src_len, v.src_offset, b.data@.len() as usize, v.stored_offset);
    lemma_push_entry_locates(v.table, v.stored, v.result, e, b.data@);
}

/// The earlier state is a prefix of the later one: entries and stored bytes
/// are only ever added at the end, and the flag never falls back.
pub open spec fn extends(old_v: RunView, new_v: RunView) -> bool {
    &&& old_v.table.is_prefix_of(new_v.table)
    &&& old_v.result.is_prefix_of(new_v.result)
    &&& old_v.stored.is_prefix_of(new_v.stored)
    &&& old_v.is_compressed ==> new_v.is_compressed
}

/// The entry of a compressed remainder: it continues the last entry of the
/// table (not the running offsets), or starts at zero in an empty table.
pub open spec fn remainder_entry(v: RunView, rem_len: usize, frame_len: usize) -> Entry {
    if v.table.len() >= 1 {
        let l = v.table.last();
        (rem_len, (l.1 + l.0) as usize, frame_len, (l.3 + l.2) as usize)
    } else {
        (rem_len, 0, frame_len, 0)
    }
}

/// The offsets that a remainder entry takes from the last entry fit.
pub open spec fn last_entry_fits(v: RunView) -> bool {
    v.table.len() >= 1 ==> {
        &&& v.table.last().1 + v.table.last().0 <= usize::MAX
        &&& v.table.last().3 + v.table.last().2 <= usize::MAX
    }
}

/// The run after the bytes `rem` that are left over behind the full blocks
/// of a read, given their frame: nothing for an empty remainder; a table
/// entry and the frame when the frame pays; else the raw bytes, with no
/// entry. The running offsets stay as they were.
pub open spec fn append_remainder(v: RunView, rem: Seq<u8>, frame: Seq<u8>) -> RunView {
    if rem.len() == 0 {
        v
    } else if compression_pays(frame.len() as int, rem.len() as int) {
        RunView {
            is_compressed: true,
            ..push_entry(v, remainder_entry(v, rem.len() as usize, frame.len() as usize), frame)
        }
    } else {
        RunView { result: v.result + rem, ..v }
    }
}

/// The state of a run that has seen no input.
pub open spec fn empty_run() -> RunView {
    RunView {
        result: Seq::empty(),
        table: Seq::empty(),
        src_offset: 0,
        stored_offset: 0,
        is_compressed: false,
        stored: Seq::empty(),
    }
}

impl CompressionRun {
    /// A run that has seen no input.
    pub fn new() -> (r: Self)
        ensures
            r@ == empty_run(),
            tiled(r@),
    {
        let r = CompressionRun {
            result: Vec::new(),
            table: Vec::new(),
            src_offset: 0,
            stored_offset: 0,
            is_compressed: false,
            stored: Ghost(Seq::empty()),
        };
        assert(r@.stored.flatten_alt() =~= Seq::<u8>::empty());
        r
    }

    /// The bytes stored so far.
    pub fn result(&self) -> (r: &Vec<u8>)
        ensures
            r@ == self@.result,
    {
        &self.result
    }

    /// The compression table so far.
    pub fn table(&self) -> (r: &Vec<Entry>)
        ensures
            r@ == self@.table,
    {
        &self.table
    }

    /// The input offset that the next full block gets.
    pub fn src_offset(&self) -> (r: usize)
        ensures
            r == self@.src_offset,
    {
        self.src_offset
    }

    /// The result offset that the next full block gets.
    pub fn stored_offset(&self) -> (r: usize)
        ensures
            r == self@.stored_offset,
    {
        self.stored_offset
    }

    /// Whether any block or remainder was stored compressed.
    pub fn is_compressed(&self) -> (r: bool)
        ensures
            r == self@.is_compressed,
    {
        self.is_compressed
    }

    /// Records the bytes left over behind the full blocks of a read, given
    /// their frame.
    pub fn record_remainder_frame(&mut self, rem: &[u8], frame: Vec<u8>)
        requires
            last_entry_fits(old(self)@),
        ensures
            final(self)@ == append_remainder(old(self)@, rem@, frame@),
            extends(old(self)@, final(self)@),
            !final(self)@.is_compressed ==> final(self)@.result.len() == old(self)@.result.len() + rem@.len(),
            tiled(old(self)@) && compression_pays(frame@.len() as int, rem@.len() as int)
                ==> table_locates(final(self)@),
    {
        if rem.len() == 0 {
            return;
        }
        let ghost before = self@;
        let mut frame = frame;
        if pays_to_compress(frame.len(), rem.len()) {
            self.is_compressed = true;
            let n = self.table.len();
            let entry = if n >= 1 {
                let (last_src, last_src_offset, last_comp, last_comp_offset) = self.table[n - 1];
                (rem.len(), last_src_offset + last_src, frame.len(), last_comp_offset + last_comp)
            } else {
                (rem.len(), 0, frame.len(), 0)
            };
            proof {
                if tiled(before) {
                    if n >= 1 {
                        lemma_last_entry_ends(before.table, before.stored, before.result);
                    } else {
                        assert(before.stored.flatten_alt() =~= Seq::<u8>::empty());
                    }
                    lemma_push_entry_locates(before.table, before.stored, before.result, entry, frame@);
                }
            }
            self.table.push(entry);
            let ghost data = frame@;
            self.result.append(&mut frame);
            self.stored = Ghost(self.stored@.push(data));
        } else {
            let mut raw = vstd::slice::slice_to_vec(rem);
            self.result.append(&mut raw);
        }
    }

    /// Compresses the bytes left over behind the full blocks of a read, as
    /// they are (not padded to a full block), and records them. Hands back the outcome of closing the frame; when
    /// closing failed, the bytes written before stand for the frame. Fails
    /// only when the encoder cannot be built or cannot take the bytes,
    /// leaving the run as it was; an empty remainder is not compressed. A
    /// remainder of at most 16 bytes, whose frame is never short enough to
    /// pay, is stored raw.
    pub fn record_remainder(&mut self, rem: &[u8]) -> (r: Result<Result<(), std::io::Error>, std::io::Error>)
        requires
            last_entry_fits(old(self)@),
        ensures
            r is Ok ==> exists|f: Seq<u8>| final(self)@ == #[trigger] append_remainder(old(self)@, rem@, f),
            r matches Ok(end) ==> (end is Ok ==> final(self)@ == append_remainder(
                old(self)@,
                rem@,
                lz4_frame(LEVEL, seq![rem@]),
            )),
            r is Err ==> final(self)@ == old(self)@,
            rem@.len() == 0 ==> (r matches Ok(end) && end is Ok),
            r matches Ok(end) ==> (end is Ok && rem@.len() <= 16 ==> final(self)@ == (RunView {
                result: old(self)@.result + rem@,
                ..old(self)@
            })),
    {
        if rem.len() == 0 {
            proof {
                assert(append_remainder(old(self)@, rem@, Seq::empty()) == old(self)@);
            }
            return Ok(Ok(()));
        }
        match compress(rem) {
            Ok((frame, end)) => {
                self.record_remainder_frame(rem, frame);
                Ok(end)
            },
            Err(e) => Err(e),
        }
    }

    /// Ends the run and hands out the stored bytes and the table. When no
    /// block was stored compressed, the stored bytes are the input itself and
    /// must be as long as the input file (`file_len`); they are cut to that
    /// length, which leaves them as they are.
    pub fn finish(self, file_len: u64) -> (r: (Vec<u8>, Vec<Entry>))
        requires
            !self@.is_compressed ==> (file_len as usize) == self@.result.len(),
        ensures
            r.0@ == self@.result,
            r.1@ == self@.table,
    {
        let mut result = self.result;
        if !self.is_compressed {
            result.truncate(file_len as usize);
        }
        (result, self.table)
    }

    /// Records the full blocks of one read, which may come in any order:
    /// they are put in the order of their indices first, then each gets a
    /// table entry at the running offsets and its stored bytes are appended.
    pub fn record_blocks(&mut self, blocks: Vec<Block>)
        requires
            old(self)@.stored_offset + stored_total(blocks@) <= usize::MAX,
            old(self)@.src_offset + source_total(blocks@) <= usize::MAX,
        ensures
            final(self)@ == append_blocks(old(self)@, sort_by_index(blocks@)),
            extends(old(self)@, final(self)@),
            tiled(old(self)@) ==> tiled(final(self)@),
            (forall|i: int| 0 <= i < blocks@.len() ==> honest(#[trigger] blocks@[i]))
                && !final(self)@.is_compressed
                ==> final(self)@.result.len() == old(self)@.result.len() + source_total(blocks@),
    {
        let ghost start = self@;
        let sorted = sort_blocks(blocks);
        let ghost all = sorted@;
        let ghost all_honest = forall|i: int| 0 <= i < blocks@.len() ==> honest(#[trigger] blocks@[i]);
        proof {
            lemma_stored_total_sort(blocks@);
            crate::blocks::lemma_sort_keeps_blocks(blocks@);
            if all_honest {
                assert forall|i: int| 0 <= i < all.len() implies honest(#[trigger] all[i]) by {
                    broadcast use vstd::seq_lib::group_to_multiset_ensures;
                    assert(all.contains(all[i]));
                    assert(blocks@.to_multiset().count(all[i]) > 0);
                    let k = choose|k: int| 0 <= k < blocks@.len() && blocks@[k] == all[i];
                    assert(honest(blocks@[k]));
                }
            }
        }
        let mut rest = sorted;
        let total = rest.len();
        let mut k: usize = 0;
        while rest.len() > 0
            invariant
                total == all.len(),
                k + rest@.len() == all.len(),
                rest@ == all.subrange(k as int, all.len() as int),
                self@ == append_blocks(start, all.subrange(0, k as int)),
                self.stored_offset == start.stored_offset + stored_total(all.subrange(0, k as int)),
                self.src_offset == start.src_offset + source_total(all.subrange(0, k as int)),
                start.stored_offset + stored_total(all) <= usize::MAX,
                start.src_offset + source_total(all) <= usize::MAX,
                tiled(start) ==> tiled(self@),
                extends(start, self@),
                all_honest ==> forall|i: int| 0 <= i < all.len() ==> honest(#[trigger] all[i]),
                all_honest && !self.is_compressed
                    ==> self.result@.len() == start.result.len() + source_total(all.subrange(0, k as int)),
            decreases rest@.len(),
        {
            let mut b = rest.remove(0);
            let ghost before = self@;
            let ghost b0 = b;
            proof {
                assert(all.subrange(0, k + 1).drop_last() =~= all.subrange(0, k as int));
                assert(all.subrange(0, k + 1).last() == b0);
                lemma_prefix_totals(all, k + 1);
                if tiled(start) {
                    lemma_append_block_tiled(before, b0);
                }
            }
            let len = b.data.len();
            self.table.push((b.src_len, self.src_offset, len, self.stored_offset));
            self.stored_offset = self.stored_offset + len;
            self.src_offset = self.src_offset + b.src_len;
            self.is_compressed = self.is_compressed || b.compressed;
            let ghost data = b.data@;
            self.result.append(&mut b.data);
            self.stored = Ghost(self.stored@.push(data));
            k += 1;
            proof {
                assert(rest@ =~= all.subrange(k as int, all.len() as int));
                assert(self@ == append_block(before, b0));
                assert(extends(start, self@));
            }
        }
        proof {
            assert(all.subrange(0, k as int) =~= all);
        }
    }
}

/// The full blocks of a read, in order, as `exact_chunks` cuts them.
pub open spec fn full_chunks(r: Seq<u8>) -> Seq<Seq<u8>> {
    let b = BLOCK_SIZE as int;
    Seq::new(((r.len() as int) / b) as nat, |i: int| r.subrange(i * b, i * b + b))
}

/// The bytes of a read left over behind its full blocks.
pub open spec fn leftover(r: Seq<u8>) -> Seq<u8> {
    let b = BLOCK_SIZE as int;
    r.subrange(((r.len() as int) / b) * b, r.len() as int)
}

/// The run after one read `r`: its full blocks, arriving in the order `bs`
/// (`record_blocks`), then the bytes left over behind them, whose frame is
/// `frame` (`record_remainder`).
pub open spec fn append_read(v: RunView, bs: Seq<Block>, r: Seq<u8>, frame: Seq<u8>) -> RunView {
    append_remainder(append_blocks(v, sort_by_index(bs)), leftover(r), frame)
}

/// The run after the reads `reads`, read `i` giving the blocks `bss[i]` and
/// the frame `frames[i]` of its left-over bytes.
pub open spec fn append_reads(
    v: RunView,
    reads: Seq<Seq<u8>>,
    bss: Seq<Seq<Block>>,
    frames: Seq<Seq<u8>>,
) -> RunView
    decreases reads.len(),
{
    if reads.len() == 0 {
        v
    } else {
        append_read(
            append_reads(v, reads.drop_last(), bss.drop_last(), frames.drop_last()),
            bss.last(),
            reads.last(),
            frames.last(),
        )
    }
}

/// The piece stored for the input bytes `chunk`: the bytes themselves, or
/// bytes at most 90 percent as many.
pub open spec fn piece_fits(p: Seq<u8>, chunk: Seq<u8>) -> bool {
    p == chunk || compression_pays(p.len() as int, chunk.len() as int)
}

/// An entry either stores its input bytes as they are, and the result gives
/// them back at its stored offset, or stores at most 90 percent as many.
pub open spec fn entry_reads_back(e: Entry, result: Seq<u8>, content: Seq<u8>) -> bool {
    if e.2 == e.0 {
        result.subrange(e.3 as int, e.3 + e.2) == content.subrange(e.1 as int, e.1 + e.0)
    } else {
        compression_pays(e.2 as int, e.0 as int)
    }
}

/// What a run over the whole input `content` holds, where `tail_frame` is
/// the frame of the bytes left over behind its last full block:
/// - one entry per full block, block `k` at input offset `k * BLOCK_SIZE`,
///   and one more for the left-over bytes when their frame pays;
/// - the table locates the stored bytes in the result, and left-over bytes
///   stored raw, with no entry, make up the rest of the result;
/// - the input sizes add up to the input, less raw left-over bytes, and the
///   stored sizes to the located part of the result;
/// - the result is never longer than the input;
/// - every entry holds its input bytes as they are, or at most 90 percent
///   as many bytes;
/// - when nothing was stored compressed, the result is the input.
pub open spec fn whole_input_run(v: RunView, content: Seq<u8>, tail_frame: Seq<u8>) -> bool {
    let b = BLOCK_SIZE as int;
    let n = (content.len() as int) / b;
    let tail = content.subrange(n * b, content.len() as int);
    let entered = tail.len() > 0 && compression_pays(tail_frame.len() as int, tail.len() as int);
    let raw_tail = tail.len() > 0 && !entered;
    let located = if raw_tail {
        v.result.subrange(0, v.result.len() - tail.len())
    } else {
        v.result
    };
    &&& v.table.len() == if entered { n + 1 } else { n }
    &&& forall|k: int| 0 <= k < n ==> (#[trigger] v.table[k]).0 == b && v.table[k].1 == k * b
    &&& entered ==> v.table[n].0 == tail.len() && v.table[n].1 == n * b && v.stored[n] == tail_frame
    &&& locates(v.table, v.stored, located)
    &&& v.result == located + (if raw_tail { tail } else { Seq::empty() })
    &&& entry_source_total(v.table) == (if raw_tail { n * b } else { content.len() as int })
    &&& entry_stored_total(v.table) == located.len()
    &&& v.result.len() <= content.len()
    &&& forall|k: int| 0 <= k < v.table.len() ==> entry_reads_back(#[trigger] v.table[k], v.result, content)
    &&& !v.is_compressed ==> v.result == content
}

/// The run has stored the full blocks of `c`, one entry each, tiled.
spec fn covers(v: RunView, c: Seq<u8>) -> bool {
    let b = BLOCK_SIZE as int;
    &&& tiled(v)
    &&& c.len() == v.table.len() * b
    &&& forall|k: int| 0 <= k < v.table.len() ==> (#[trigger] v.table[k]).0 == b
    &&& forall|k: int| 0 <= k < v.table.len() ==> piece_fits(#[trigger] v.stored[k], c.subrange(k * b, k * b + b))
    &&& v.result.len() <= c.len()
    &&& !v.is_compressed ==> v.result == c
}

/// Offsets of whole blocks: `k` blocks and one more are `k + 1` blocks, and
/// fewer blocks start no later.
proof fn lemma_block_offsets(k: int, n: int)
    by (nonlinear_arith)
    requires
        0 <= k <= n,
    ensures
        (k + 1) * (BLOCK_SIZE as int) == k * (BLOCK_SIZE as int) + BLOCK_SIZE,
        0 <= k * (BLOCK_SIZE as int) <= n * (BLOCK_SIZE as int),
        (n - k) * (BLOCK_SIZE as int) == n * (BLOCK_SIZE as int) - k * (BLOCK_SIZE as int),
{
}

/// Entries that each stand for a full block add up to that many blocks.
proof fn lemma_source_total_blocks(t: Seq<Entry>)
    requires
        forall|k: int| 0 <= k < t.len() ==> (#[trigger] t[k]).0 == BLOCK_SIZE,
    ensures
        entry_source_total(t) == t.len() * (BLOCK_SIZE as int),
    decreases t.len(),
{
    if t.len() > 0 {
        assert forall|k: int| 0 <= k < t.len() - 1 implies (#[trigger] t.drop_last()[k]).0 == BLOCK_SIZE by {
            assert(t[k].0 == BLOCK_SIZE);
        }
        lemma_source_total_blocks(t.drop_last());
        assert(t[t.len() - 1].0 == BLOCK_SIZE);
    }
}

proof fn lemma_cover_empty()
    ensures
        covers(empty_run(), Seq::empty()),
{
    assert(Seq::<Seq<u8>>::empty().flatten_alt() =~= Seq::<u8>::empty());
}

/// One more full block keeps the run covering the input so far.
proof fn lemma_cover_block(v: RunView, c: Seq<u8>, blk: Block, chunk: Seq<u8>)
    requires
        covers(v, c),
        chunk.len() == BLOCK_SIZE,
        block_fits(blk, blk.index, chunk),
        c.len() + BLOCK_SIZE <= usize::MAX,
    ensures
        covers(append_block(v, blk), c + chunk),
{
    let b = BLOCK_SIZE as int;
    let n = v.table.len() as int;
    let w = append_block(v, blk);
    let c2 = c + chunk;
    lemma_source_total_blocks(v.table);
    assert(blk.data@.len() <= b);
    lemma_append_block_tiled(v, blk);
    assert forall|k: int| 0 <= k < w.table.len() implies (#[trigger] w.table[k]).0 == b by {
        if k < n {
            assert(w.table[k] == v.table[k]);
        }
    }
    lemma_block_offsets(n, n);
    assert forall|k: int| 0 <= k < w.table.len() implies piece_fits(#[trigger] w.stored[k], c2.subrange(k * b, k * b + b)) by {
        if k < n {
            lemma_block_offsets(k, n);
            lemma_block_offsets(k + 1, n);
            assert(w.stored[k] == v.stored[k]);
            assert(c2.subrange(k * b, k * b + b) =~= c.subrange(k * b, k * b + b));
        } else {
            assert(c2.subrange(k * b, k * b + b) =~= chunk);
        }
    }
    if !w.is_compressed {
        assert(w.result =~= c2);
    }
}

/// The full blocks of a read, in order, keep the run covering the input so
/// far followed by the blocks.
proof fn lemma_cover_blocks(v: RunView, c: Seq<u8>, s: Seq<Block>, r: Seq<u8>)
    requires
        covers(v, c),
        s.len() <= (r.len() as int) / (BLOCK_SIZE as int),
        forall|i: int| 0 <= i < s.len() ==> block_fits(#[trigger] s[i], s[i].index, full_chunks(r)[i]),
        c.len() + r.len() <= usize::MAX,
    ensures
        covers(append_blocks(v, s), c + r.subrange(0, s.len() * (BLOCK_SIZE as int))),
    decreases s.len(),
{
    let b = BLOCK_SIZE as int;
    if s.len() == 0 {
        assert(c + r.subrange(0, 0) =~= c);
    } else {
        let m = s.len() - 1;
        let d = s.drop_last();
        assert forall|i: int| 0 <= i < d.len() implies block_fits(#[trigger] d[i], d[i].index, full_chunks(r)[i]) by {
            assert(d[i] == s[i]);
        }
        lemma_cover_blocks(v, c, d, r);
        let q = (r.len() as int) / b;
        vstd::arithmetic::div_mod::lemma_fundamental_div_mod(r.len() as int, b);
        lemma_block_offsets(m, q);
        lemma_block_offsets(m + 1, q);
        assert(q * b <= r.len());
        let chunk = full_chunks(r)[m];
        assert(chunk == r.subrange(m * b, m * b + b));
        assert(chunk.len() == BLOCK_SIZE);
        assert(block_fits(s[m], s[m].index, chunk));
        lemma_cover_block(append_blocks(v, d), c + r.subrange(0, m * b), s.last(), chunk);
        assert(c + r.subrange(0, m * b) + chunk =~= c + r.subrange(0, s.len() * b));
    }
}

/// Reads of whole blocks each leave the run covering the input so far.
proof fn lemma_cover_reads(reads: Seq<Seq<u8>>, bss: Seq<Seq<Block>>, frames: Seq<Seq<u8>>)
    requires
        reads.len() == bss.len(),
        reads.len() == frames.len(),
        forall|i: int| 0 <= i < reads.len() ==> ((#[trigger] reads[i]).len() as int) % (BLOCK_SIZE as int) == 0,
        forall|i: int| 0 <= i < reads.len() ==> blocks_of_read(#[trigger] bss[i], full_chunks(reads[i])),
        reads.flatten_alt().len() <= usize::MAX,
    ensures
        covers(append_reads(empty_run(), reads, bss, frames), reads.flatten_alt()),
    decreases reads.len(),
{
    let b = BLOCK_SIZE as int;
    if reads.len() == 0 {
        lemma_cover_empty();
    } else {
        let n = reads.len() - 1;
        let init = reads.drop_last();
        assert forall|i: int| 0 <= i < init.len() implies ((#[trigger] init[i]).len() as int) % b == 0 by {
            assert(init[i] == reads[i]);
        }
        assert forall|i: int| 0 <= i < init.len() implies blocks_of_read(#[trigger] bss.drop_last()[i], full_chunks(init[i])) by {
            assert(init[i] == reads[i]);
            assert(bss.drop_last()[i] == bss[i]);
        }
        lemma_cover_reads(init, bss.drop_last(), frames.drop_last());
        let w = append_reads(empty_run(), init, bss.drop_last(), frames.drop_last());
        let c = init.flatten_alt();
        let r = reads[n];
        assert((r.len() as int) % b == 0);
        assert(blocks_of_read(bss[n], full_chunks(r)));
        lemma_read_in_order(bss[n], full_chunks(r));
        let s = sort_by_index(bss[n]);
        assert forall|i: int| 0 <= i < s.len() implies block_fits(#[trigger] s[i], s[i].index, full_chunks(r)[i]) by {
            assert(s[i].index == i && block_fits(s[i], i as usize, full_chunks(r)[i]));
        }
        lemma_cover_blocks(w, c, s, r);
        assert(r.subrange(0, s.len() * b) =~= r);
        assert(leftover(r) =~= Seq::<u8>::empty());
        assert(reads.flatten_alt() == c + r);
    }
}

/// The run of all the reads up to the left-over bytes of the last one.
spec fn before_tail(reads: Seq<Seq<u8>>, bss: Seq<Seq<Block>>, frames: Seq<Seq<u8>>) -> RunView {
    if reads.len() == 0 {
        empty_run()
    } else {
        append_blocks(
            append_reads(empty_run(), reads.drop_last(), bss.drop_last(), frames.drop_last()),
            sort_by_index(bss.last()),
        )
    }
}

/// The bytes of the input behind its last full block.
spec fn input_tail(content: Seq<u8>) -> Seq<u8> {
    let b = BLOCK_SIZE as int;
    content.subrange(((content.len() as int) / b) * b, content.len() as int)
}

/// The input up to the end of its last full block.
spec fn input_blocks(content: Seq<u8>) -> Seq<u8> {
    let b = BLOCK_SIZE as int;
    content.subrange(0, ((content.len() as int) / b) * b)
}

/// Up to the left-over bytes of the last read, the run covers the full
/// blocks of the input, and those left-over bytes are the input's tail.
proof fn lemma_run_before_tail(reads: Seq<Seq<u8>>, bss: Seq<Seq<Block>>, frames: Seq<Seq<u8>>)
    requires
        reads.len() == bss.len(),
        reads.len() == frames.len(),
        forall|i: int| 0 <= i < reads.len() - 1 ==> ((#[trigger] reads[i]).len() as int) % (BLOCK_SIZE as int) == 0,
        forall|i: int| 0 <= i < reads.len() ==> blocks_of_read(#[trigger] bss[i], full_chunks(reads[i])),
        reads.flatten_alt().len() <= usize::MAX,
    ensures
        covers(before_tail(reads, bss, frames), input_blocks(reads.flatten_alt())),
        reads.len() > 0 ==> append_reads(empty_run(), reads, bss, frames) == append_remainder(
            before_tail(reads, bss, frames),
            input_tail(reads.flatten_alt()),
            frames.last(),
        ),
        reads.len() == 0 ==> input_tail(reads.flatten_alt()).len() == 0,
{
    let b = BLOCK_SIZE as int;
    let content = reads.flatten_alt();
    if reads.len() == 0 {
        lemma_cover_empty();
        assert(content =~= Seq::<u8>::empty());
        assert(input_blocks(content) =~= Seq::<u8>::empty());
        return;
    }
    let n = reads.len() - 1;
    let init = reads.drop_last();
    assert forall|i: int| 0 <= i < init.len() implies ((#[trigger] init[i]).len() as int) % b == 0 by {
        assert(init[i] == reads[i]);
    }
    assert forall|i: int| 0 <= i < init.len() implies blocks_of_read(#[trigger] bss.drop_last()[i], full_chunks(init[i])) by {
        assert(init[i] == reads[i]);
        assert(bss.drop_last()[i] == bss[i]);
    }
    lemma_cover_reads(init, bss.drop_last(), frames.drop_last());
    let w = append_reads(empty_run(), init, bss.drop_last(), frames.drop_last());
    let c = init.flatten_alt();
    let r = reads[n];
    assert(content == c + r);
    assert(blocks_of_read(bss[n], full_chunks(r)));
    lemma_read_in_order(bss[n], full_chunks(r));
    let s = sort_by_index(bss[n]);
    assert forall|i: int| 0 <= i < s.len() implies block_fits(#[trigger] s[i], s[i].index, full_chunks(r)[i]) by {
        assert(s[i].index == i && block_fits(s[i], i as usize, full_chunks(r)[i]));
    }
    lemma_cover_blocks(w, c, s, r);
    let q = (r.len() as int) / b;
    let m = w.table.len() as int;
    assert((content.len() as int) / b == m + q) by {
        vstd::arithmetic::div_mod::lemma_fundamental_div_mod(r.len() as int, b);
        vstd::arithmetic::div_mod::lemma_fundamental_div_mod_converse(
            content.len() as int,
            b,
            m + q,
            (r.len() as int) % b,
        );
    }
    let nb = (content.len() as int) / b;
    lemma_block_offsets(m, nb);
    lemma_block_offsets(q, nb);
    assert(nb * b == m * b + q * b);
    assert(input_tail(content) =~= leftover(r));
    assert(c + r.subrange(0, q * b) =~= input_blocks(content));
}

/// The full blocks of a covered input each start at their block and read
/// back or pay, and the stored sizes add up to the result.
proof fn lemma_covered_entries(w: RunView, content: Seq<u8>)
    requires
        covers(w, input_blocks(content)),
    ensures
        w.table.len() == (content.len() as int) / (BLOCK_SIZE as int),
        forall|k: int| 0 <= k < w.table.len() ==> (#[trigger] w.table[k]).0 == BLOCK_SIZE
            && w.table[k].1 == k * (BLOCK_SIZE as int),
        forall|k: int| 0 <= k < w.table.len() ==> entry_reads_back(#[trigger] w.table[k], w.result, content),
        entry_stored_total(w.table) == w.result.len(),
        w.result.len() <= input_blocks(content).len(),
{
    let b = BLOCK_SIZE as int;
    let nb = (content.len() as int) / b;
    let c2 = input_blocks(content);
    vstd::arithmetic::div_mod::lemma_fundamental_div_mod(content.len() as int, b);
    lemma_block_offsets(nb, nb);
    assert(w.table.len() * b == nb * b);
    assert(w.table.len() == nb) by (nonlinear_arith)
        requires
            w.table.len() * b == nb * b,
            b > 0,
    {
    }
    assert forall|k: int| 0 <= k < nb implies #[trigger] w.table[k].1 == k * b by {
        let pre = w.table.subrange(0, k);
        assert forall|j: int| 0 <= j < pre.len() implies (#[trigger] pre[j]).0 == BLOCK_SIZE by {
            assert(pre[j] == w.table[j]);
        }
        lemma_source_total_blocks(pre);
    }
    assert forall|k: int| 0 <= k < nb implies entry_reads_back(#[trigger] w.table[k], w.result, content) by {
        lemma_block_offsets(k, nb);
        lemma_block_offsets(k + 1, nb);
        let chunk = c2.subrange(k * b, k * b + b);
        assert(chunk =~= content.subrange(k * b, k * b + b));
        assert(piece_fits(w.stored[k], chunk));
        lemma_entry_locates_bytes(w.table, w.stored, w.result, k);
    }
    lemma_stored_total_locates(w.table, w.stored, w.result);
}

/// The left-over bytes of the input finish the run as `whole_input_run`
/// says, whatever their frame.
proof fn lemma_finish_tail(w: RunView, content: Seq<u8>, f: Seq<u8>)
    requires
        covers(w, input_blocks(content)),
        content.len() <= usize::MAX,
    ensures
        whole_input_run(append_remainder(w, input_tail(content), f), content, f),
{
    let tail = input_tail(content);
    if tail.len() == 0 {
        lemma_finish_no_tail(w, content, f);
    } else if compression_pays(f.len() as int, tail.len() as int) {
        lemma_finish_entered_tail(w, content, f);
    } else {
        lemma_finish_raw_tail(w, content, f);
    }
}

/// With no bytes left over, the full blocks are the whole input.
proof fn lemma_finish_no_tail(w: RunView, content: Seq<u8>, f: Seq<u8>)
    requires
        covers(w, input_blocks(content)),
        input_tail(content).len() == 0,
    ensures
        whole_input_run(append_remainder(w, input_tail(content), f), content, f),
{
    let b = BLOCK_SIZE as int;
    let nb = (content.len() as int) / b;
    lemma_covered_entries(w, content);
    vstd::arithmetic::div_mod::lemma_fundamental_div_mod(content.len() as int, b);
    lemma_block_offsets(nb, nb);
    lemma_source_total_blocks(w.table);
    assert(content =~= input_blocks(content));
    assert(w.result =~= w.result + Seq::<u8>::empty());
}

/// Left-over bytes whose frame does not pay are appended raw, with no entry.
proof fn lemma_finish_raw_tail(w: RunView, content: Seq<u8>, f: Seq<u8>)
    requires
        covers(w, input_blocks(content)),
        input_tail(content).len() > 0,
        !compression_pays(f.len() as int, input_tail(content).len() as int),
    ensures
        whole_input_run(append_remainder(w, input_tail(content), f), content, f),
{
    let b = BLOCK_SIZE as int;
    let nb = (content.len() as int) / b;
    let tail = input_tail(content);
    lemma_covered_entries(w, content);
    vstd::arithmetic::div_mod::lemma_fundamental_div_mod(content.len() as int, b);
    lemma_block_offsets(nb, nb);
    lemma_source_total_blocks(w.table);
    assert(input_blocks(content) + tail =~= content);
    let v = append_remainder(w, tail, f);
    assert(v.result.subrange(0, v.result.len() - tail.len()) =~= w.result);
    if !v.is_compressed {
        assert(v.result =~= content);
    }
    assert forall|k: int| 0 <= k < v.table.len() implies entry_reads_back(#[trigger] v.table[k], v.result, content) by {
        assert(entry_reads_back(w.table[k], w.result, content));
        lemma_entry_locates_bytes(w.table, w.stored, w.result, k);
        let e = w.table[k];
        assert(v.result.subrange(e.3 as int, e.3 + e.2) =~= w.result.subrange(e.3 as int, e.3 + e.2));
    }
}

/// Left-over bytes whose frame pays get an entry behind the full blocks.
proof fn lemma_finish_entered_tail(w: RunView, content: Seq<u8>, f: Seq<u8>)
    requires
        covers(w, input_blocks(content)),
        content.len() <= usize::MAX,
        input_tail(content).len() > 0,
        compression_pays(f.len() as int, input_tail(content).len() as int),
    ensures
        whole_input_run(append_remainder(w, input_tail(content), f), content, f),
{
    let b = BLOCK_SIZE as int;
    let nb = (content.len() as int) / b;
    let tail = input_tail(content);
    lemma_covered_entries(w, content);
    vstd::arithmetic::div_mod::lemma_fundamental_div_mod(content.len() as int, b);
    lemma_block_offsets(nb, nb);
    lemma_source_total_blocks(w.table);
    let v = append_remainder(w, tail, f);
    let e = remainder_entry(w, tail.len() as usize, f.len() as usize);
    if nb >= 1 {
        lemma_last_entry_ends(w.table, w.stored, w.result);
    } else {
        assert(w.stored.flatten_alt() =~= Seq::<u8>::empty());
    }
    assert(e == (tail.len() as usize, (nb * b) as usize, f.len() as usize, w.result.len() as usize));
    lemma_push_entry_locates(w.table, w.stored, w.result, e, f);
    lemma_stored_total_locates(v.table, v.stored, v.result);
    assert(v.result =~= v.result + Seq::<u8>::empty());
    assert forall|k: int| 0 <= k < v.table.len() implies entry_reads_back(#[trigger] v.table[k], v.result, content) by {
        if k < nb {
            assert(v.table[k] == w.table[k]);
            assert(entry_reads_back(w.table[k], w.result, content));
            lemma_entry_locates_bytes(w.table, w.stored, w.result, k);
            let e2 = w.table[k];
            assert(v.result.subrange(e2.3 as int, e2.3 + e2.2) =~= w.result.subrange(e2.3 as int, e2.3 + e2.2));
        }
    }
    assert forall|k: int| 0 <= k < nb implies (#[trigger] v.table[k]).0 == b && v.table[k].1 == k * b by {
        assert(v.table[k] == w.table[k]);
    }
}

/// The law of a whole run: an input read in reads that each hold whole
/// blocks but the last (as every read of `READ_SIZE` bytes does), each read's
/// blocks fitting its full blocks and arriving in any order, and any frames
/// for the left-over bytes, gives a run as `whole_input_run` says. The input
/// is the reads one after another; its length must fit in a `usize`.
pub proof fn lemma_whole_input(reads: Seq<Seq<u8>>, bss: Seq<Seq<Block>>, frames: Seq<Seq<u8>>)
    requires
        reads.len() == bss.len(),
        reads.len() == frames.len(),
        forall|i: int| 0 <= i < reads.len() - 1 ==> ((#[trigger] reads[i]).len() as int) % (BLOCK_SIZE as int) == 0,
        forall|i: int| 0 <= i < reads.len() ==> blocks_of_read(#[trigger] bss[i], full_chunks(reads[i])),
        reads.flatten().len() <= usize::MAX,
    ensures
        whole_input_run(
            append_reads(empty_run(), reads, bss, frames),
            reads.flatten(),
            if reads.len() > 0 { frames.last() } else { Seq::empty() },
        ),
{
    reads.lemma_flatten_and_flatten_alt_are_equivalent();
    let content = reads.flatten_alt();
    let f = if reads.len() > 0 { frames.last() } else { Seq::empty() };
    lemma_run_before_tail(reads, bss, frames);
    lemma_finish_tail(before_tail(reads, bss, frames), content, f);
    if reads.len() == 0 {
        assert(append_remainder(empty_run(), input_tail(content), f) == empty_run());
    }
}

/// Every block of a read closed its frame: each is the choice between its
/// chunk and the chunk's frame.
pub open spec fn frames_closed(bs: Seq<Block>, chunks: Seq<Seq<u8>>) -> bool {
    forall|j: int| 0 <= j < bs.len() ==> block_view(#[trigger] bs[j]) == chosen_block(
        bs[j].index,
        chunks[bs[j].index as int],
        lz4_frame(LEVEL, seq![chunks[bs[j].index as int]]),
    )
}

/// Every read of a run closed all its frames: those of its blocks, and that
/// of its left-over bytes when there are any.
pub open spec fn run_frames_closed(reads: Seq<Seq<u8>>, bss: Seq<Seq<Block>>, frames: Seq<Seq<u8>>) -> bool {
    forall|i: int| 0 <= i < reads.len() ==> {
        &&& blocks_of_read(#[trigger] bss[i], full_chunks(reads[i]))
        &&& frames_closed(bss[i], full_chunks(reads[i]))
        &&& leftover(reads[i]).len() > 0 ==> frames[i] == lz4_frame(LEVEL, seq![leftover(reads[i])])
    }
}

/// Blocks with the same plain values, one by one, give the same run.
proof fn lemma_same_views_same_run(v: RunView, a: Seq<Block>, b: Seq<Block>)
    requires
        a.len() == b.len(),
        forall|i: int| 0 <= i < a.len() ==> block_view(#[trigger] a[i]) == block_view(b[i]),
    ensures
        append_blocks(v, a) == append_blocks(v, b),
    decreases a.len(),
{
    if a.len() > 0 {
        let n = a.len() - 1;
        assert forall|i: int| 0 <= i < n implies block_view(#[trigger] a.drop_last()[i]) == block_view(b.drop_last()[i]) by {
            assert(block_view(a[i]) == block_view(b[i]));
        }
        lemma_same_views_same_run(v, a.drop_last(), b.drop_last());
        assert(block_view(a[n]) == block_view(b[n]));
    }
}

/// Sorted, the blocks of a read whose frames all closed are the choices
/// for its chunks, in order.
proof fn lemma_closed_sorted(bs: Seq<Block>, chunks: Seq<Seq<u8>>)
    requires
        blocks_of_read(bs, chunks),
        frames_closed(bs, chunks),
    ensures
        sort_by_index(bs).len() == chunks.len(),
        forall|i: int| 0 <= i < chunks.len() ==> block_view(#[trigger] sort_by_index(bs)[i]) == chosen_block(
            i as usize,
            chunks[i],
            lz4_frame(LEVEL, seq![chunks[i]]),
        ),
{
    broadcast use vstd::seq_lib::group_to_multiset_ensures;

    let s = sort_by_index(bs);
    lemma_read_in_order(bs, chunks);
    lemma_sort_keeps_blocks(bs);
    assert forall|i: int| 0 <= i < chunks.len() implies block_view(#[trigger] s[i]) == chosen_block(
        i as usize,
        chunks[i],
        lz4_frame(LEVEL, seq![chunks[i]]),
    ) by {
        assert(s[i].index == i);
        assert(s.contains(s[i]));
        assert(bs.to_multiset().count(s[i]) > 0);
        let p = choose|p: int| 0 <= p < bs.len() && bs[p] == s[i];
        assert(block_view(bs[p]) == chosen_block(
            bs[p].index,
            chunks[bs[p].index as int],
            lz4_frame(LEVEL, seq![chunks[bs[p].index as int]]),
        ));
    }
}

/// Two runs over the same reads in which every frame closed are the same
/// run: the result and the table depend on the input alone, not on the
/// order in which blocks arrive nor on which call made them.
pub proof fn lemma_closed_runs_agree(
    v: RunView,
    reads: Seq<Seq<u8>>,
    bss1: Seq<Seq<Block>>,
    frames1: Seq<Seq<u8>>,
    bss2: Seq<Seq<Block>>,
    frames2: Seq<Seq<u8>>,
)
    requires
        reads.len() == bss1.len(),
        reads.len() == frames1.len(),
        reads.len() == bss2.len(),
        reads.len() == frames2.len(),
    ensures
        run_frames_closed(reads, bss1, frames1) && run_frames_closed(reads, bss2, frames2)
            ==> append_reads(v, reads, bss1, frames1) == append_reads(v, reads, bss2, frames2),
    decreases reads.len(),
{
    if reads.len() > 0 && run_frames_closed(reads, bss1, frames1) && run_frames_closed(reads, bss2, frames2) {
        let n = reads.len() - 1;
        let init = reads.drop_last();
        assert(run_frames_closed(init, bss1.drop_last(), frames1.drop_last())) by {
            assert forall|i: int| 0 <= i < init.len() implies {
                &&& blocks_of_read(#[trigger] bss1.drop_last()[i], full_chunks(init[i]))
                &&& frames_closed(bss1.drop_last()[i], full_chunks(init[i]))
                &&& leftover(init[i]).len() > 0 ==> frames1.drop_last()[i] == lz4_frame(LEVEL, seq![leftover(init[i])])
            } by {
                assert(init[i] == reads[i]);
                assert(bss1.drop_last()[i] == bss1[i]);
                assert(frames1.drop_last()[i] == frames1[i]);
            }
        }
        assert(run_frames_closed(init, bss2.drop_last(), frames2.drop_last())) by {
            assert forall|i: int| 0 <= i < init.len() implies {
                &&& blocks_of_read(#[trigger] bss2.drop_last()[i], full_chunks(init[i]))
                &&& frames_closed(bss2.drop_last()[i], full_chunks(init[i]))
                &&& leftover(init[i]).len() > 0 ==> frames2.drop_last()[i] == lz4_frame(LEVEL, seq![leftover(init[i])])
            } by {
                assert(init[i] == reads[i]);
                assert(bss2.drop_last()[i] == bss2[i]);
                assert(frames2.drop_last()[i] == frames2[i]);
            }
        }
        lemma_closed_runs_agree(v, init, bss1.drop_last(), frames1.drop_last(), bss2.drop_last(), frames2.drop_last());
        let w = append_reads(v, init, bss1.drop_last(), frames1.drop_last());
        let r = reads[n];
        let chunks = full_chunks(r);
        assert(blocks_of_read(bss1[n], chunks) && frames_closed(bss1[n], chunks));
        assert(blocks_of_read(bss2[n], chunks) && frames_closed(bss2[n], chunks));
        lemma_closed_sorted(bss1[n], chunks);
        lemma_closed_sorted(bss2[n], chunks);
        let s1 = sort_by_index(bss1[n]);
        let s2 = sort_by_index(bss2[n]);
        assert forall|i: int| 0 <= i < s1.len() implies block_view(#[trigger] s1[i]) == block_view(s2[i]) by {
            assert(block_view(s1[i]) == chosen_block(i as usize, chunks[i], lz4_frame(LEVEL, seq![chunks[i]])));
            assert(block_view(s2[i]) == chosen_block(i as usize, chunks[i], lz4_frame(LEVEL, seq![chunks[i]])));
        }
        lemma_same_views_same_run(w, s1, s2);
        if leftover(r).len() > 0 {
            assert(frames1[n] == frames2[n]);
        }
    }
}

} // verus!
