# playground

A small library of verified building blocks, proved with Verus.

- `codec`: LZ4 frame compression through the `lz4` crate.
- `blocks`: the per-block choice between raw bytes and their frame (a frame
  is kept when it is at most 90 percent of the block), the cutting of a
  read into blocks, and a stable sort of blocks by position, with the proof
  that the order in which blocks arrive does not matter.
- `table`: compression tables `(src_size, src_offset, stored_size,
  stored_offset)` and the proof that such a table locates every block's
  stored bytes in the result.
- `compress`, `package::compress`: block-wise compression runs over the
  reads of an input, and the per-read store. In `package::compress` every
  full block gets a table entry; the bytes left over behind the full blocks
  of a read get one only when they are stored compressed (they are
  compressed unpadded), and are appended raw without one otherwise. The
  module proves, for a whole input read in full reads, how many entries the
  table has, where each starts, that the table locates the stored bytes,
  that raw pieces read back as the input, that the result is never longer
  than the input, and that two runs over the same input whose frames all
  closed give the same result and table.
- `iterator_sample`: triangle numbers, line splitting and trimming as
  `str::lines` and `str::trim` do it, message header and body, fizz/buzz
  pairs, sums, products, minimum and maximum, a counting range, and a map
  with text keys kept in `str` order.
- `collection_sample`: binary search; `closure_sample`: squaring and
  applying a function; `traits`: writing a greeting to a writer;
  `util::error`: the error kinds and their messages.

`app/` is the program around it: reading files, rayon's thread pool,
logging, printing, floating point and the `thiserror` derives.
