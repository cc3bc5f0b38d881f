//! Blocks of input, each kept raw or replaced by its LZ4 frame when that
//! saves enough, and the ordering of such blocks by their position.
use vstd::prelude::*;
use crate::codec::{compress, lz4_frame, LEVEL};

verus! {

/// A frame is kept in place of its raw bytes when it is at most 90 percent
/// of their length.
pub open spec fn compression_pays(compressed_len: int, raw_len: int) -> bool {
    compressed_len * 100 <= raw_len * 90
}

/// Decides whether a frame of `compressed_len` bytes is worth keeping in
/// place of `raw_len` raw bytes.
pub fn pays_to_compress(compressed_len: usize, raw_len: usize) -> (b: bool)
    ensures
        b == compression_pays(compressed_len as int, raw_len as int),
{
    (compressed_len as u128) * 100 <= (raw_len as u128) * 90
}

/// One block of input after the compression decision.
pub struct Block {
    /// The position of the block among the blocks of its read.
    pub index: usize,
    /// The bytes that are stored for the block.
    pub data: Vec<u8>,
    /// The number of input bytes that the block stands for.
    pub src_len: usize,
    /// Whether `data` is the LZ4 frame of the input rather than the input.
    pub compressed: bool,
}

/// The block that is stored for `raw`, given its frame `compressed`.
pub open spec fn chosen_block(index: usize, raw: Seq<u8>, compressed: Seq<u8>) -> (usize, Seq<u8>, nat, bool) {
    if compression_pays(compressed.len() as int, raw.len() as int) {
        (index, compressed, raw.len(), true)
    } else {
        (index, raw, raw.len(), false)
    }
}

/// The plain values of a block: index, stored bytes, source length, flag.
pub open spec fn block_view(b: Block) -> (usize, Seq<u8>, nat, bool) {
    (b.index, b.data@, b.src_len as nat, b.compressed)
}

/// A block stored raw stands for as many input bytes as it stores.
pub open spec fn honest(b: Block) -> bool {
    !b.compressed ==> b.data@.len() == b.src_len
}

/// Chooses between the raw bytes of a block and its frame.
pub fn select_block(index: usize, raw: &[u8], compressed: Vec<u8>) -> (b: Block)
    ensures
        block_view(b) == chosen_block(index, raw@, compressed@),
        block_fits(b, index, raw@),
        honest(b),
{
    if pays_to_compress(compressed.len(), raw.len()) {
        Block { index, data: compressed, src_len: raw.len(), compressed: true }
    } else {
        Block { index, data: vstd::slice::slice_to_vec(raw), src_len: raw.len(), compressed: false }
    }
}

/// `b` is a block for the bytes `raw` at position `index`: it stands for
/// all of `raw`, and stores either `raw` itself or bytes at most 90 percent
/// as long, flagged as compressed.
pub open spec fn block_fits(b: Block, index: usize, raw: Seq<u8>) -> bool {
    &&& b.index == index
    &&& b.src_len == raw.len()
    &&& b.compressed ==> compression_pays(b.data@.len() as int, raw.len() as int)
    &&& !b.compressed ==> b.data@ == raw
}

/// Compresses one block and keeps the frame when it pays; hands back, with
/// the block, the outcome of closing the frame. When the frame was closed
/// the block is the choice between `raw` and its frame, and a block of at
/// most 16 bytes always stays raw, as no frame is shorter than 15 bytes;
/// when closing failed the choice was made with the bytes written before.
pub fn compress_block(index: usize, raw: &[u8]) -> (r: Result<(Block, Result<(), std::io::Error>), std::io::Error>)
    ensures
        r matches Ok((b, end)) ==> block_fits(b, index, raw@) && honest(b),
        r matches Ok((b, end)) ==> (end is Ok ==> block_view(b) == chosen_block(
            index,
            raw@,
            lz4_frame(LEVEL, seq![raw@]),
        )),
        r matches Ok((b, end)) ==> (end is Ok && raw@.len() <= 16 ==> !b.compressed),
{
    match compress(raw) {
        Ok((frame, end)) => Ok((select_block(index, raw, frame), end)),
        Err(e) => Err(e),
    }
}

/// Inserts `b` into `s` behind every block whose index is not above its own.
pub open spec fn insert_by_index(s: Seq<Block>, b: Block) -> Seq<Block>
    decreases s.len(),
{
    if s.len() == 0 {
        seq![b]
    } else if s.last().index <= b.index {
        s.push(b)
    } else {
        insert_by_index(s.drop_last(), b).push(s.last())
    }
}

/// The blocks in the order of their indices; blocks of equal index keep
/// their order (a stable sort).
pub open spec fn sort_by_index(s: Seq<Block>) -> Seq<Block>
    decreases s.len(),
{
    if s.len() == 0 {
        s
    } else {
        insert_by_index(sort_by_index(s.drop_last()), s.last())
    }
}

/// The indices of a sequence of blocks never go down.
pub open spec fn sorted_by_index(s: Seq<Block>) -> bool {
    forall|i: int, j: int| 0 <= i <= j < s.len() ==> s[i].index <= s[j].index
}

/// Where `insert_by_index` puts the new block: behind the last block whose
/// index is not above it.
proof fn lemma_insert_at(s: Seq<Block>, b: Block, j: int)
    requires
        0 <= j <= s.len(),
        forall|k: int| j <= k < s.len() ==> s[k].index > b.index,
        j > 0 ==> s[j - 1].index <= b.index,
    ensures
        insert_by_index(s, b) == s.insert(j, b),
    decreases s.len(),
{
    if s.len() == 0 {
        assert(s.insert(j, b) =~= seq![b]);
    } else if s.last().index <= b.index {
        assert(j == s.len());
        assert(s.insert(j, b) =~= s.push(b));
    } else {
        lemma_insert_at(s.drop_last(), b, j);
        assert(s.insert(j, b) =~= s.drop_last().insert(j, b).push(s.last()));
    }
}

proof fn lemma_insert_keeps_blocks(s: Seq<Block>, b: Block)
    ensures
        insert_by_index(s, b).to_multiset() == s.to_multiset().insert(b),
    decreases s.len(),
{
    broadcast use vstd::seq_lib::group_to_multiset_ensures;

    if s.len() == 0 {
        assert(seq![b] =~= s.push(b));
    } else if s.last().index <= b.index {
    } else {
        lemma_insert_keeps_blocks(s.drop_last(), b);
        assert(s =~= s.drop_last().push(s.last()));
        assert(insert_by_index(s, b).to_multiset() =~= s.to_multiset().insert(b));
    }
}

proof fn lemma_insert_orders(s: Seq<Block>, b: Block)
    requires
        sorted_by_index(s),
    ensures
        sorted_by_index(insert_by_index(s, b)),
    decreases s.len(),
{
    broadcast use vstd::seq_lib::group_to_multiset_ensures;

    if s.len() == 0 {
    } else if s.last().index <= b.index {
    } else {
        let d = s.drop_last();
        lemma_insert_orders(d, b);
        lemma_insert_keeps_blocks(d, b);
        let t = insert_by_index(d, b);
        assert forall|i: int| 0 <= i < t.len() implies t[i].index <= s.last().index by {
            assert(t.contains(t[i]));
            assert(t.to_multiset().count(t[i]) > 0);
            if t[i] != b {
                assert(d.to_multiset().count(t[i]) > 0);
                assert(d.contains(t[i]));
            }
        }
    }
}

/// Sorting by index keeps every block, each as often as it came.
pub proof fn lemma_sort_keeps_blocks(s: Seq<Block>)
    ensures
        sort_by_index(s).to_multiset() == s.to_multiset(),
    decreases s.len(),
{
    broadcast use vstd::seq_lib::group_to_multiset_ensures;

    if s.len() > 0 {
        lemma_sort_keeps_blocks(s.drop_last());
        lemma_insert_keeps_blocks(sort_by_index(s.drop_last()), s.last());
        assert(s =~= s.drop_last().push(s.last()));
    }
}

/// Sorting by index leaves the indices in order.
pub proof fn lemma_sort_orders(s: Seq<Block>)
    ensures
        sorted_by_index(sort_by_index(s)),
    decreases s.len(),
{
    if s.len() > 0 {
        lemma_sort_orders(s.drop_last());
        lemma_insert_orders(sort_by_index(s.drop_last()), s.last());
    }
}

/// Sorts blocks by index, keeping blocks of equal index in their order.
pub fn sort_blocks(blocks: Vec<Block>) -> (sorted: Vec<Block>)
    ensures
        sorted@ == sort_by_index(blocks@),
{
    let mut rest = blocks;
    let mut sorted: Vec<Block> = Vec::new();
    let ghost all = rest@;
    let mut taken: usize = 0;
    let total = rest.len();
    while rest.len() > 0
        invariant
            total == all.len(),
            taken + rest@.len() == all.len(),
            rest@ == all.subrange(taken as int, all.len() as int),
            sorted@ == sort_by_index(all.subrange(0, taken as int)),
        decreases rest@.len(),
    {
        let b = rest.remove(0);
        let ghost prefix = sorted@;
        let mut j = sorted.len();
        while j > 0 && sorted[j - 1].index > b.index
            invariant
                j <= sorted@.len(),
                sorted@ == prefix,
                forall|k: int| j <= k < sorted@.len() ==> sorted@[k].index > b.index,
            decreases j,
        {
            j -= 1;
        }
        proof {
            lemma_insert_at(prefix, b, j as int);
            assert(all.subrange(0, taken + 1).drop_last() =~= all.subrange(0, taken as int));
            assert(all.subrange(0, taken + 1).last() == b);
        }
        sorted.insert(j, b);
        taken += 1;
        proof {
            assert(rest@ =~= all.subrange(taken as int, all.len() as int));
        }
    }
    proof {
        assert(all.subrange(0, all.len() as int) =~= all);
    }
    sorted
}

/// The number of stored bytes of the blocks `bs`.
pub open spec fn stored_total(bs: Seq<Block>) -> int
    decreases bs.len(),
{
    if bs.len() == 0 {
        0
    } else {
        stored_total(bs.drop_last()) + bs.last().data@.len()
    }
}

/// The number of input bytes that the blocks `bs` stand for.
pub open spec fn source_total(bs: Seq<Block>) -> int
    decreases bs.len(),
{
    if bs.len() == 0 {
        0
    } else {
        source_total(bs.drop_last()) + bs.last().src_len
    }
}

/// Inserting a block adds its stored and source lengths to the totals.
pub proof fn lemma_stored_total_insert(s: Seq<Block>, b: Block)
    ensures
        stored_total(insert_by_index(s, b)) == stored_total(s) + b.data@.len(),
        source_total(insert_by_index(s, b)) == source_total(s) + b.src_len,
    decreases s.len(),
{
    if s.len() == 0 {
        assert(seq![b].drop_last() =~= s);
    } else if s.last().index <= b.index {
        assert(s.push(b).drop_last() =~= s);
    } else {
        lemma_stored_total_insert(s.drop_last(), b);
        let t = insert_by_index(s.drop_last(), b);
        assert(t.push(s.last()).drop_last() =~= t);
    }
}

/// Sorting keeps the stored and source totals.
pub proof fn lemma_stored_total_sort(s: Seq<Block>)
    ensures
        stored_total(sort_by_index(s)) == stored_total(s),
        source_total(sort_by_index(s)) == source_total(s),
    decreases s.len(),
{
    if s.len() > 0 {
        lemma_stored_total_sort(s.drop_last());
        lemma_stored_total_insert(sort_by_index(s.drop_last()), s.last());
    }
}

/// The totals of a prefix are at most the totals of the whole.
pub proof fn lemma_prefix_totals(s: Seq<Block>, k: int)
    requires
        0 <= k <= s.len(),
    ensures
        stored_total(s.subrange(0, k)) <= stored_total(s),
        source_total(s.subrange(0, k)) <= source_total(s),
    decreases s.len(),
{
    if k < s.len() {
        assert(s.subrange(0, k) =~= s.drop_last().subrange(0, k));
        lemma_prefix_totals(s.drop_last(), k);
    } else {
        assert(s.subrange(0, k) =~= s);
    }
}

/// No two blocks share an index.
pub open spec fn distinct_indices(s: Seq<Block>) -> bool {
    forall|i: int, j: int| 0 <= i < s.len() && 0 <= j < s.len() && i != j ==> s[i].index != s[j].index
}

/// The indices strictly increase.
pub open spec fn strictly_by_index(s: Seq<Block>) -> bool {
    forall|i: int, j: int| 0 <= i < j < s.len() ==> s[i].index < s[j].index
}

proof fn lemma_sort_strict(a: Seq<Block>)
    requires
        distinct_indices(a),
    ensures
        strictly_by_index(sort_by_index(a)),
{
    broadcast use vstd::seq_lib::group_to_multiset_ensures;

    let sa = sort_by_index(a);
    lemma_sort_orders(a);
    lemma_sort_keeps_blocks(a);
    assert(a.no_duplicates()) by {
        assert forall|i: int, j: int| 0 <= i < a.len() && 0 <= j < a.len() && i != j implies a[i] != a[j] by {
            assert(a[i].index != a[j].index);
        }
    }
    a.lemma_multiset_has_no_duplicates();
    sa.lemma_multiset_has_no_duplicates_conv();
    assert forall|i: int, j: int| 0 <= i < j < sa.len() implies sa[i].index < sa[j].index by {
        if sa[i].index == sa[j].index {
            assert(sa.contains(sa[i]));
            assert(sa.contains(sa[j]));
            assert(a.to_multiset().count(sa[i]) > 0);
            assert(a.to_multiset().count(sa[j]) > 0);
            let p = choose|p: int| 0 <= p < a.len() && a[p] == sa[i];
            let q = choose|q: int| 0 <= q < a.len() && a[q] == sa[j];
            assert(p == q);
        }
    }
}

proof fn lemma_strict_unique(s1: Seq<Block>, s2: Seq<Block>)
    requires
        strictly_by_index(s1),
        strictly_by_index(s2),
        s1.to_multiset() == s2.to_multiset(),
    ensures
        s1 == s2,
    decreases s1.len(),
{
    broadcast use vstd::seq_lib::group_to_multiset_ensures;

    assert(s1.to_multiset().len() == s1.len());
    assert(s2.to_multiset().len() == s2.len());
    if s1.len() == 0 {
        assert(s2.len() == 0);
        assert(s1 =~= s2);
    } else {
        let n = s1.len() as int;
        assert(s2.len() == n);
        let l1 = s1.last();
        let l2 = s2.last();
        assert(s1.contains(l1));
        assert(s2.contains(l2));
        assert(s2.to_multiset().count(l1) > 0);
        assert(s1.to_multiset().count(l2) > 0);
        let p = choose|p: int| 0 <= p < n && s2[p] == l1;
        let q = choose|q: int| 0 <= q < n && s1[q] == l2;
        assert(l1.index <= l2.index) by {
            if p < n - 1 {
                assert(s2[p].index < s2[n - 1].index);
            }
        }
        assert(l2.index <= l1.index) by {
            if q < n - 1 {
                assert(s1[q].index < s1[n - 1].index);
            }
        }
        if p < n - 1 {
            assert(s2[p].index < s2[n - 1].index);
        }
        assert(p == n - 1);
        assert(l1 == l2);
        assert(s1.remove(n - 1) =~= s1.drop_last());
        assert(s2.remove(n - 1) =~= s2.drop_last());
        assert(s1.drop_last().to_multiset() =~= s2.drop_last().to_multiset());
        lemma_strict_unique(s1.drop_last(), s2.drop_last());
        assert(s1 =~= s1.drop_last().push(l1));
        assert(s2 =~= s2.drop_last().push(l2));
    }
}

/// The order in which blocks arrive does not matter: blocks with distinct
/// indices come out of the sort the same, whatever order they came in.
pub proof fn lemma_arrival_order_irrelevant(a: Seq<Block>, b: Seq<Block>)
    requires
        a.to_multiset() == b.to_multiset(),
        distinct_indices(a),
    ensures
        sort_by_index(a) == sort_by_index(b),
{
    broadcast use vstd::seq_lib::group_to_multiset_ensures;

    assert(distinct_indices(b)) by {
        assert forall|i: int, j: int| 0 <= i < b.len() && 0 <= j < b.len() && i != j implies b[i].index
            != b[j].index by {
            assert(a.no_duplicates()) by {
                assert forall|x: int, y: int| 0 <= x < a.len() && 0 <= y < a.len() && x != y implies a[x] != a[y] by {
                    assert(a[x].index != a[y].index);
                }
            }
            a.lemma_multiset_has_no_duplicates();
            b.lemma_multiset_has_no_duplicates_conv();
            if b[i].index == b[j].index {
                assert(b.contains(b[i]));
                assert(b.contains(b[j]));
                assert(a.to_multiset().count(b[i]) > 0);
                assert(a.to_multiset().count(b[j]) > 0);
                let p = choose|p: int| 0 <= p < a.len() && a[p] == b[i];
                let q = choose|q: int| 0 <= q < a.len() && a[q] == b[j];
                assert(p == q);
            }
        }
    }
    lemma_sort_strict(a);
    lemma_sort_strict(b);
    lemma_sort_keeps_blocks(a);
    lemma_sort_keeps_blocks(b);
    lemma_strict_unique(sort_by_index(a), sort_by_index(b));
}

/// The blocks are those of a read cut into `chunks`, in any order: one per
/// chunk, each indexed by its chunk's position and fitting that chunk.
pub open spec fn blocks_of_read(bs: Seq<Block>, chunks: Seq<Seq<u8>>) -> bool {
    &&& bs.len() == chunks.len()
    &&& distinct_indices(bs)
    &&& forall|j: int| 0 <= j < bs.len() ==> (#[trigger] bs[j]).index < chunks.len()
            && block_fits(bs[j], bs[j].index, chunks[bs[j].index as int])
}

proof fn lemma_strict_gap(s: Seq<Block>, i: int, j: int)
    requires
        strictly_by_index(s),
        0 <= i <= j < s.len(),
    ensures
        s[j].index >= s[i].index + (j - i),
    decreases j - i,
{
    if i < j {
        lemma_strict_gap(s, i, j - 1);
        assert(s[j - 1].index < s[j].index);
    }
}

/// Whatever order the blocks of a read arrive in, sorted they come one per
/// chunk in the order of the read, each fitting its chunk.
pub proof fn lemma_read_in_order(bs: Seq<Block>, chunks: Seq<Seq<u8>>)
    requires
        blocks_of_read(bs, chunks),
    ensures
        sort_by_index(bs).len() == chunks.len(),
        forall|i: int| 0 <= i < chunks.len() ==> (#[trigger] sort_by_index(bs)[i]).index == i
            && block_fits(sort_by_index(bs)[i], i as usize, chunks[i]),
{
    broadcast use vstd::seq_lib::group_to_multiset_ensures;

    let s = sort_by_index(bs);
    let n = chunks.len() as int;
    lemma_sort_strict(bs);
    lemma_sort_keeps_blocks(bs);
    assert(s.to_multiset().len() == s.len());
    assert(bs.to_multiset().len() == bs.len());
    assert forall|i: int| 0 <= i < n implies (#[trigger] s[i]).index == i && block_fits(s[i], i as usize, chunks[i]) by {
        assert forall|k: int| 0 <= k < n implies (#[trigger] s[k]).index < n by {
            assert(s.contains(s[k]));
            assert(bs.to_multiset().count(s[k]) > 0);
            let p = choose|p: int| 0 <= p < bs.len() && bs[p] == s[k];
            assert(bs[p].index < n);
        }
        lemma_strict_gap(s, 0, i);
        lemma_strict_gap(s, i, n - 1);
        assert(s[0].index >= 0);
        assert(s[n - 1].index < n);
        assert(s.contains(s[i]));
        assert(bs.to_multiset().count(s[i]) > 0);
        let p = choose|p: int| 0 <= p < bs.len() && bs[p] == s[i];
        assert(block_fits(bs[p], bs[p].index, chunks[bs[p].index as int]));
    }
}

/// Cuts `buf` into as many whole blocks of `size` bytes as it holds, in
/// order, and the bytes left over behind them, as `chunks_exact` does.
pub fn exact_chunks(buf: &[u8], size: usize) -> (r: (Vec<&[u8]>, &[u8]))
    requires
        size > 0,
    ensures
        r.0@.len() == (buf@.len() as int) / (size as int),
        forall|i: int| 0 <= i < r.0@.len() ==> (#[trigger] r.0@[i])@ == buf@.subrange(i * size, i * size + size),
        r.1@ == buf@.subrange(r.0@.len() * size, buf@.len() as int),
        r.1@.len() < size,
{
    let mut out: Vec<&[u8]> = Vec::new();
    let mut offset: usize = 0;
    let len = buf.len();
    proof {
        assert(out@.len() == 0);
        assert(0 * (size as int) == 0) by (nonlinear_arith);
    }
    while len - offset >= size
        invariant
            len == buf@.len(),
            size > 0,
            offset <= len,
            offset == out@.len() * size,
            forall|i: int| 0 <= i < out@.len() ==> (#[trigger] out@[i])@ == buf@.subrange(i * size, i * size + size),
        decreases len - offset,
    {
        let piece = vstd::slice::slice_subrange(buf, offset, offset + size);
        let ghost k = out@.len() as int;
        out.push(piece);
        proof {
            assert((k + 1) * size == k * size + size) by (nonlinear_arith);
        }
        offset = offset + size;
    }
    let rest = vstd::slice::slice_subrange(buf, offset, len);
    proof {
        let k = out@.len() as int;
        let z = size as int;
        let l = len as int;
        assert(k == l / z) by (nonlinear_arith)
            requires
                z > 0,
                k * z <= l,
                l - k * z < z,
        {
            vstd::arithmetic::div_mod::lemma_fundamental_div_mod(l, z);
            if k < l / z {
                assert(k * z + z <= (l / z) * z) by {
                    vstd::arithmetic::mul::lemma_mul_inequality(k + 1, l / z, z);
                }
            } else if k > l / z {
                vstd::arithmetic::mul::lemma_mul_inequality(l / z + 1, k, z);
            }
        }
    }
    (out, rest)
}

/// Where the block at `i` of a cut into blocks of `size` bytes ends: a
/// block later, or at the end of the buffer.
pub open spec fn chunk_end(i: int, size: int, len: int) -> int {
    if i * size + size <= len {
        i * size + size
    } else {
        len
    }
}

/// Cuts `buf` into blocks of `size` bytes, in order; the last one is short
/// when the length is not a multiple of `size`, as `chunks` does.
pub fn chunks(buf: &[u8], size: usize) -> (r: Vec<&[u8]>)
    requires
        size > 0,
    ensures
        r@.len() == (buf@.len() + size - 1) as int / (size as int),
        forall|i: int| 0 <= i < r@.len() ==> (#[trigger] r@[i])@ == buf@.subrange(
            i * size,
            chunk_end(i, size as int, buf@.len() as int),
        ),
{
    let (whole, rest) = exact_chunks(buf, size);
    let mut out = whole;
    let ghost k = out@.len() as int;
    let ghost z = size as int;
    let ghost l = buf@.len() as int;
    proof {
        assert(k * z <= l) by (nonlinear_arith)
            requires
                z > 0,
                k == l / z,
        {
            vstd::arithmetic::div_mod::lemma_fundamental_div_mod(l, z);
        }
        assert forall|i: int| 0 <= i < k implies #[trigger] chunk_end(i, z, l) == i * z + z by {
            assert(i * z + z <= k * z) by (nonlinear_arith)
                requires
                    0 <= i < k,
                    z > 0,
            {
                vstd::arithmetic::mul::lemma_mul_inequality(i + 1, k, z);
            }
        }
    }
    if rest.len() > 0 {
        out.push(rest);
        proof {
            assert(l - k * z > 0);
            assert(k * z + z > l);
            assert((l + z - 1) / z == k + 1) by (nonlinear_arith)
                requires
                    z > 0,
                    k * z < l,
                    l < k * z + z,
            {
                vstd::arithmetic::div_mod::lemma_fundamental_div_mod(l + z - 1, z);
                let q = (l + z - 1) / z;
                if q < k + 1 {
                    vstd::arithmetic::mul::lemma_mul_inequality(q + 1, k + 1, z);
                } else if q > k + 1 {
                    vstd::arithmetic::mul::lemma_mul_inequality(k + 2, q, z);
                }
            }
        }
    } else {
        proof {
            assert((l + z - 1) / z == k) by (nonlinear_arith)
                requires
                    z > 0,
                    k * z == l,
            {
                vstd::arithmetic::div_mod::lemma_fundamental_div_mod(l + z - 1, z);
                let q = (l + z - 1) / z;
                if q < k {
                    vstd::arithmetic::mul::lemma_mul_inequality(q + 1, k, z);
                } else if q > k {
                    vstd::arithmetic::mul::lemma_mul_inequality(k + 1, q, z);
                }
            }
        }
    }
    out
}

} // verus!
