use playground::blocks::{chunks, compress_block, exact_chunks, pays_to_compress, select_block, sort_blocks, Block};
use playground::codec::compress;

fn block(index: usize, tag: u8) -> Block {
    Block { index, data: vec![tag], src_len: 1, compressed: false }
}

#[test]
fn pays_at_ninety_percent_and_not_above() {
    assert!(pays_to_compress(90, 100));
    assert!(!pays_to_compress(91, 100));
    assert!(pays_to_compress(0, 0));
    assert!(!pays_to_compress(1, 0));
    assert!(pays_to_compress(58982, 65536));
    assert!(!pays_to_compress(58983, 65536));
}

#[test]
fn select_block_keeps_raw_when_frame_too_big() {
    let raw = vec![1u8, 2, 3, 4, 5, 6, 7, 8, 9, 10];
    let b = select_block(4, &raw, vec![0u8; 10]);
    assert_eq!((b.index, b.data.clone(), b.src_len, b.compressed), (4, raw.clone(), 10, false));
    let b = select_block(4, &raw, vec![0u8; 9]);
    assert_eq!((b.index, b.data.clone(), b.src_len, b.compressed), (4, vec![0u8; 9], 10, true));
}

#[test]
fn compress_block_stores_the_frame_of_compressible_input() {
    let raw = vec![b'a'; 4096];
    let b = compress_block(2, &raw).unwrap().0;
    assert!(b.compressed);
    assert_eq!(b.index, 2);
    assert_eq!(b.src_len, 4096);
    assert_eq!(b.data, compress(&raw).unwrap().0);
    assert_ne!(b.data, raw);
}

#[test]
fn compress_block_keeps_sixteen_bytes_raw() {
    let raw = vec![0u8; 16];
    let (b, end) = compress_block(3, &raw).unwrap();
    assert!(end.is_ok());
    assert!(!b.compressed);
    assert_eq!(b.data, raw);
    assert_eq!(b.index, 3);
}

#[test]
fn compress_block_keeps_tiny_input_raw() {
    let raw = vec![9u8, 8, 7];
    let b = compress_block(0, &raw).unwrap().0;
    assert!(!b.compressed);
    assert_eq!(b.data, raw);
}

#[test]
fn sort_blocks_orders_by_index_and_is_stable() {
    let sorted = sort_blocks(vec![block(2, 0), block(0, 1), block(1, 2), block(0, 3)]);
    let seen: Vec<(usize, u8)> = sorted.iter().map(|b| (b.index, b.data[0])).collect();
    assert_eq!(seen, vec![(0, 1), (0, 3), (1, 2), (2, 0)]);
}

#[test]
fn sort_blocks_of_nothing() {
    assert!(sort_blocks(Vec::new()).is_empty());
}

#[test]
fn exact_chunks_cut_like_std() {
    let data: Vec<u8> = (0..23u8).collect();
    for size in [1usize, 4, 5, 23, 30] {
        let (whole, rest) = exact_chunks(&data, size);
        let std_cut = data.chunks_exact(size);
        assert_eq!(rest, std_cut.remainder());
        assert_eq!(whole, std_cut.collect::<Vec<_>>());
        assert_eq!(chunks(&data, size), data.chunks(size).collect::<Vec<_>>());
    }
    assert!(chunks(&[], 4).is_empty());
}

#[test]
fn compress_closes_the_frame() {
    let (out, end) = compress(&[5u8; 300]).unwrap();
    assert!(end.is_ok());
    assert_eq!(&out[0..4], &[0x04, 0x22, 0x4D, 0x18]);
    let (_, end) = compress_block(0, &[5u8; 300]).unwrap();
    assert!(end.is_ok());
}
