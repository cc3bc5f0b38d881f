//! The LZ4 frame encoder of the `lz4` crate, seen through trusted items.
use vstd::prelude::*;
use lz4::{Encoder, EncoderBuilder};

verus! {

/// The frame encoder of the `lz4` crate, writing into a byte vector.
#[verifier::external_type_specification]
#[verifier::external_body]
#[verifier::reject_recursive_types(W)]
pub struct ExLz4Encoder<W>(Encoder<W>);

/// The `std::io::Error` that the encoder reports.
#[verifier::external_type_specification]
#[verifier::external_body]
pub struct ExIoError(std::io::Error);

/// The compression level that an encoder was built with.
pub uninterp spec fn encoder_level(e: Encoder<Vec<u8>>) -> u32;

/// The byte slices that have been handed to an encoder's `write`, in order.
pub uninterp spec fn encoder_writes(e: Encoder<Vec<u8>>) -> Seq<Seq<u8>>;

/// The LZ4 frame (header, blocks, end mark and checksums, with the crate's
/// default frame settings) that an encoder of the given level produces from
/// the given sequence of writes.
pub uninterp spec fn lz4_frame(level: u32, writes: Seq<Seq<u8>>) -> Seq<u8>;

/// `EncoderBuilder::new().level(level).build(Vec::with_capacity(capacity))`.
/// Claimed: on success the encoder has the given level and has been handed
/// no write yet. Building can fail (the C library cannot make a compression
/// context, or the frame header does not fit); nothing is claimed of when.
#[verifier::external_body]
pub(crate) fn new_encoder(level: u32, capacity: usize) -> (r: Result<Encoder<Vec<u8>>, std::io::Error>)
    ensures
        r matches Ok(e) ==> encoder_level(e) == level && encoder_writes(e) == Seq::<Seq<u8>>::empty(),
{
    EncoderBuilder::new().level(level).build(Vec::with_capacity(capacity))
}

/// `<Encoder<Vec<u8>> as std::io::Write>::write`. Claimed: on success the
/// whole slice was taken (the source returns `Ok(buffer.len())` only after
/// every piece went through) and is recorded as the next write; the level
/// stays. On failure nothing is claimed of the encoder.
#[verifier::external_body]
pub(crate) fn encoder_write(e: &mut Encoder<Vec<u8>>, buf: &[u8]) -> (r: Result<usize, std::io::Error>)
    ensures
        r matches Ok(n) ==> {
            &&& n == buf@.len()
            &&& encoder_writes(*final(e)) == encoder_writes(*old(e)).push(buf@)
            &&& encoder_level(*final(e)) == encoder_level(*old(e))
        },
{
    std::io::Write::write(e, buf)
}

/// The outline of every frame that an encoder of this crate writes: it
/// starts with the LZ4 frame magic number `0x184D2204`, stored little-endian,
/// and holds at least the 7 header bytes (magic number, flag byte, block
/// descriptor, header checksum), the 4-byte end mark and the 4-byte content
/// checksum that the builder's default settings switch on.
pub open spec fn frame_outline(f: Seq<u8>) -> bool {
    &&& f.len() >= 15
    &&& f.subrange(0, 4) == seq![0x04u8, 0x22u8, 0x4Du8, 0x18u8]
}

/// `Encoder::finish`: writes the end of the frame and hands back the vector.
/// Claimed: when the end was written, the vector holds the LZ4 frame of the
/// encoder's level and writes, and that frame has the outline above (the
/// vector starts empty, `build` writes the header through `LZ4F_compressBegin`,
/// `finish` the end mark and the content checksum through
/// `LZ4F_compressEnd`). When writing the end failed, nothing is claimed of
/// the vector.
#[verifier::external_body]
pub(crate) fn encoder_finish(e: Encoder<Vec<u8>>) -> (r: (Vec<u8>, Result<(), std::io::Error>))
    ensures
        r.1 is Ok ==> r.0@ == lz4_frame(encoder_level(e), encoder_writes(e)),
        r.1 is Ok ==> frame_outline(r.0@),
{
    e.finish()
}

/// The level at which the playground compresses.
pub const LEVEL: u32 = 4;

/// The room that the output vector is created with: a block and some slack.
pub const OUTPUT_CAPACITY: usize = 64 * 1024 + 1000;

/// Compresses `buf` into one LZ4 frame at level 4. Fails when the encoder
/// cannot be built or cannot take the bytes. Otherwise hands back the bytes
/// the encoder wrote together with the outcome of closing the frame, as
/// `Encoder::finish` does: when the frame was closed they are the whole
/// frame; when closing failed they are what was written before, and the
/// error says so.
pub fn compress(buf: &[u8]) -> (r: Result<(Vec<u8>, Result<(), std::io::Error>), std::io::Error>)
    ensures
        r matches Ok((out, end)) ==> (end is Ok ==> out@ == lz4_frame(LEVEL, seq![buf@])),
        r matches Ok((out, end)) ==> (end is Ok ==> frame_outline(out@)),
{
    let mut encoder = match new_encoder(LEVEL, OUTPUT_CAPACITY) {
        Ok(e) => e,
        Err(err) => return Err(err),
    };
    match encoder_write(&mut encoder, buf) {
        Ok(_) => {},
        Err(err) => return Err(err),
    }
    let (out, finished) = encoder_finish(encoder);
    proof {
        assert(Seq::<Seq<u8>>::empty().push(buf@) =~= seq![buf@]);
    }
    Ok((out, finished))
}

/// Compressing depends on the bytes alone: at the fixed level, inputs with
/// equal bytes have equal frames, so two calls of `compress` on them whose
/// frames were closed give equal outputs, whatever thread makes them and in
/// whatever order.
pub proof fn lemma_frame_of_equal_bytes(a: Seq<u8>, b: Seq<u8>)
    requires
        a == b,
    ensures
        lz4_frame(LEVEL, seq![a]) == lz4_frame(LEVEL, seq![b]),
{
}

} // verus!
