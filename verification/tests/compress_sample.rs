use playground::blocks::compress_block;
use playground::codec::compress;
use playground::compress::{ChunkRun, SampleStore, BLOCK_SIZE};

#[test]
fn store_keeps_frame_of_compressible_read() {
    let mut buf = [0u8; BLOCK_SIZE];
    for (i, b) in buf.iter_mut().take(1000).enumerate() {
        *b = (i % 10) as u8;
    }
    let mut store = SampleStore::new();
    let (len, end) = store.store_read(&buf, 1000).unwrap();
    assert!(end.is_ok());
    assert_eq!(store.count(), 1);
    let frame = compress(&buf).unwrap().0;
    assert_eq!(len, frame.len());
    assert_eq!(store.get(0).unwrap(), &frame);
    assert!(store.get(1).is_none());
}

#[test]
fn store_keeps_whole_buffer_when_frame_is_too_big() {
    let buf = vec![1u8; 64];
    let mut store = SampleStore::new();
    store.store_frame(&buf, 10, vec![0u8; 10]);
    store.store_frame(&buf, 10, vec![0u8; 9]);
    assert_eq!(store.count(), 2);
    assert_eq!(store.get(0).unwrap(), &buf);
    assert_eq!(store.get(1).unwrap(), &vec![0u8; 9]);
}

#[test]
fn chunk_table_has_zero_input_fields_and_tiles_the_result() {
    let mut data = vec![b'x'; BLOCK_SIZE];
    data.extend((0..3000u32).map(|i| (i.wrapping_mul(2654435761) >> 13) as u8));
    let mut blocks: Vec<_> = data
        .chunks(BLOCK_SIZE)
        .enumerate()
        .map(|(i, d)| compress_block(i, d).unwrap().0)
        .collect();
    let first = blocks[0].data.clone();
    let second = blocks[1].data.clone();
    blocks.reverse();
    let mut run = ChunkRun::new();
    run.record_chunks(blocks);
    assert_eq!(run.stored_offset(), first.len() + second.len());
    let (result, table) = run.finish();
    assert_eq!(table, vec![(0, 0, first.len(), 0), (0, 0, second.len(), first.len())]);
    assert_eq!(&result[..first.len()], &first[..]);
    assert_eq!(&result[first.len()..], &second[..]);
}
