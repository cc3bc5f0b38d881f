//! Compression tables: one entry per stored block, saying where the block
//! came from in the input and where its stored bytes sit in the result.
use vstd::prelude::*;

verus! {

/// One entry of a compression table:
/// `(src_size, src_offset, stored_size, stored_offset)`.
pub type Entry = (usize, usize, usize, usize);

/// The sum of the input sizes of the entries.
pub open spec fn entry_source_total(t: Seq<Entry>) -> int
    decreases t.len(),
{
    if t.len() == 0 {
        0
    } else {
        entry_source_total(t.drop_last()) + t.last().0
    }
}

/// The sum of the stored sizes of the entries.
pub open spec fn entry_stored_total(t: Seq<Entry>) -> int
    decreases t.len(),
{
    if t.len() == 0 {
        0
    } else {
        entry_stored_total(t.drop_last()) + t.last().2
    }
}

/// The table locates the stored pieces in the result: the result is the
/// pieces one after another, each entry's stored offset and size cover
/// exactly its piece, and its input offset is the sum of the input sizes
/// before it.
pub open spec fn locates(table: Seq<Entry>, stored: Seq<Seq<u8>>, result: Seq<u8>) -> bool {
    &&& table.len() == stored.len()
    &&& result == stored.flatten_alt()
    &&& forall|j: int| 0 <= j < table.len() ==> #[trigger] table[j].2 == stored[j].len()
    &&& forall|j: int| 0 <= j < table.len() ==>
            #[trigger] table[j].3 == stored.subrange(0, j).flatten_alt().len()
    &&& forall|j: int| 0 <= j < table.len() ==>
            #[trigger] table[j].1 == entry_source_total(table.subrange(0, j))
}

/// An empty table locates an empty result.
pub proof fn lemma_empty_locates()
    ensures
        locates(Seq::empty(), Seq::empty(), Seq::empty()),
{
    assert(Seq::<Seq<u8>>::empty().flatten_alt() =~= Seq::<u8>::empty());
}

/// An entry that starts where the stored bytes and the entered input end,
/// and covers exactly its stored bytes, keeps the table locating the result.
pub proof fn lemma_push_entry_locates(
    table: Seq<Entry>,
    stored: Seq<Seq<u8>>,
    result: Seq<u8>,
    e: Entry,
    data: Seq<u8>,
)
    requires
        locates(table, stored, result),
        e.3 == result.len(),
        e.2 == data.len(),
        e.1 == entry_source_total(table),
    ensures
        locates(table.push(e), stored.push(data), result + data),
        entry_source_total(table.push(e)) == entry_source_total(table) + e.0,
{
    let t = table.push(e);
    let st = stored.push(data);
    let n = table.len() as int;
    assert(st.drop_last() =~= stored);
    assert(t.drop_last() =~= table);
    assert(result + data =~= st.flatten_alt());
    assert forall|j: int| 0 <= j < t.len() implies #[trigger] t[j].3 == st.subrange(0, j).flatten_alt().len() by {
        if j < n {
            assert(st.subrange(0, j) =~= stored.subrange(0, j));
        } else {
            assert(st.subrange(0, j) =~= stored);
        }
    }
    assert forall|j: int| 0 <= j < t.len() implies #[trigger] t[j].1 == entry_source_total(t.subrange(0, j)) by {
        if j < n {
            assert(t.subrange(0, j) =~= table.subrange(0, j));
        } else {
            assert(t.subrange(0, j) =~= table);
        }
    }
    assert forall|j: int| 0 <= j < t.len() implies #[trigger] t[j].2 == st[j].len() by {}
}

/// When the table locates the result, its last entry ends where the result
/// and the entered input end.
pub proof fn lemma_last_entry_ends(table: Seq<Entry>, stored: Seq<Seq<u8>>, result: Seq<u8>)
    requires
        locates(table, stored, result),
        table.len() > 0,
    ensures
        table.last().3 + table.last().2 == result.len(),
        table.last().1 + table.last().0 == entry_source_total(table),
{
    let n = table.len() as int;
    assert(table.subrange(0, n - 1) =~= table.drop_last());
    assert(stored =~= stored.subrange(0, n - 1).push(stored[n - 1]));
    assert(stored.subrange(0, n - 1).push(stored[n - 1]).drop_last() =~= stored.subrange(0, n - 1));
}

/// When the table locates the result, every entry's stored offset and size
/// pick out of the result exactly the bytes stored for it.
pub proof fn lemma_entry_locates_bytes(table: Seq<Entry>, stored: Seq<Seq<u8>>, result: Seq<u8>, j: int)
    requires
        locates(table, stored, result),
        0 <= j < table.len(),
    ensures
        table[j].3 + table[j].2 <= result.len(),
        result.subrange(table[j].3 as int, table[j].3 + table[j].2) == stored[j],
{
    let s = stored;
    let pre = s.subrange(0, j);
    let post = s.subrange(j + 1, s.len() as int);
    assert(s =~= pre + seq![s[j]] + post);
    vstd::seq_lib::lemma_flatten_alt_concat(pre + seq![s[j]], post);
    vstd::seq_lib::lemma_flatten_alt_concat(pre, seq![s[j]]);
    assert(seq![s[j]].drop_last() =~= Seq::<Seq<u8>>::empty());
    assert(Seq::<Seq<u8>>::empty().flatten_alt() =~= Seq::<u8>::empty());
    assert(seq![s[j]].last() == s[j]);
    assert(seq![s[j]].flatten_alt() =~= s[j]);
    assert(result.subrange(table[j].3 as int, table[j].3 + table[j].2) =~= s[j]);
}

/// When every entry's stored size is the length of its piece, the stored
/// sizes add up to the length of the pieces one after another.
proof fn lemma_stored_sizes_add_up(table: Seq<Entry>, stored: Seq<Seq<u8>>)
    requires
        table.len() == stored.len(),
        forall|j: int| 0 <= j < table.len() ==> #[trigger] table[j].2 == stored[j].len(),
    ensures
        entry_stored_total(table) == stored.flatten_alt().len(),
    decreases table.len(),
{
    if table.len() > 0 {
        let n = table.len() - 1;
        assert forall|j: int| 0 <= j < n implies #[trigger] table.drop_last()[j].2 == stored.drop_last()[j].len() by {
            assert(table[j].2 == stored[j].len());
        }
        lemma_stored_sizes_add_up(table.drop_last(), stored.drop_last());
        assert(table[n].2 == stored[n].len());
    }
}

/// When the table locates the result, its stored sizes add up to the length
/// of the result.
pub proof fn lemma_stored_total_locates(table: Seq<Entry>, stored: Seq<Seq<u8>>, result: Seq<u8>)
    requires
        locates(table, stored, result),
    ensures
        entry_stored_total(table) == result.len(),
{
    lemma_stored_sizes_add_up(table, stored);
}

} // verus!
