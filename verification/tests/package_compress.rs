use playground::blocks::{compress_block, Block};
use playground::blocks::exact_chunks;
use playground::package::compress::{CompressionRun, BLOCK_SIZE, READ_SIZE};

fn pseudo_random(len: usize, seed: u32) -> Vec<u8> {
    let mut out = Vec::with_capacity(len);
    let mut r: u32 = seed;
    for _ in 0..len {
        r = r.wrapping_mul(1664525).wrapping_add(1013904223);
        out.push((r >> 24) as u8);
    }
    out
}

fn compressible(len: usize) -> Vec<u8> {
    let text = b"the quick brown fox jumps over the lazy dog. ";
    (0..len).map(|i| text[i % text.len()]).collect()
}

fn blocks_of(buf: &[u8]) -> Vec<Block> {
    buf.chunks_exact(BLOCK_SIZE)
        .enumerate()
        .map(|(i, d)| compress_block(i, d).unwrap().0)
        .collect()
}

fn check_table_locates(result: &[u8], table: &[(usize, usize, usize, usize)], pieces: &[Vec<u8>]) {
    let mut src = 0;
    let mut off = 0;
    for (j, e) in table.iter().enumerate() {
        assert_eq!(e.1, src);
        assert_eq!(e.3, off);
        assert_eq!(&result[e.3..e.3 + e.2], &pieces[j][..]);
        src += e.0;
        off += e.2;
    }
    assert_eq!(off, result.len());
}

#[test]
fn compress_but_all_data_not_compressed() {
    let input = pseudo_random(2 * BLOCK_SIZE + 100, 7);
    let mut run = CompressionRun::new();
    run.record_blocks(blocks_of(&input));
    run.record_remainder(&input[2 * BLOCK_SIZE..]).unwrap().unwrap();
    assert!(!run.is_compressed());
    let (result, table) = run.finish(input.len() as u64);
    assert_eq!(result, input);
    assert_eq!(table, vec![(BLOCK_SIZE, 0, BLOCK_SIZE, 0), (BLOCK_SIZE, BLOCK_SIZE, BLOCK_SIZE, BLOCK_SIZE)]);
}

#[test]
fn compress_normal() {
    let input = compressible(3 * BLOCK_SIZE + 5000);
    let mut run = CompressionRun::new();
    run.record_blocks(blocks_of(&input));
    run.record_remainder(&input[3 * BLOCK_SIZE..]).unwrap().unwrap();
    assert!(run.is_compressed());
    let (result, table) = run.finish(input.len() as u64);
    assert!(result.len() <= input.len());
    assert_eq!(table.len(), 4);
}

#[test]
fn table_locates_every_block_in_the_result() {
    let mut input = compressible(BLOCK_SIZE);
    input.extend(pseudo_random(BLOCK_SIZE, 3));
    input.extend(compressible(BLOCK_SIZE));
    let blocks = blocks_of(&input);
    let pieces: Vec<Vec<u8>> = blocks.iter().map(|b| b.data.clone()).collect();
    assert!(blocks[0].compressed && !blocks[1].compressed && blocks[2].compressed);
    let mut run = CompressionRun::new();
    run.record_blocks(blocks);
    assert_eq!(run.src_offset(), 3 * BLOCK_SIZE);
    assert_eq!(run.stored_offset(), run.result().len());
    check_table_locates(run.result(), run.table(), &pieces);
    assert_eq!(&run.result()[run.table()[1].3..run.table()[1].3 + BLOCK_SIZE], &input[BLOCK_SIZE..2 * BLOCK_SIZE]);
}

#[test]
fn blocks_out_of_order_are_recorded_by_index() {
    let input = {
        let mut v = pseudo_random(BLOCK_SIZE, 1);
        v.extend(pseudo_random(BLOCK_SIZE, 2));
        v
    };
    let mut blocks = blocks_of(&input);
    blocks.reverse();
    let mut run = CompressionRun::new();
    run.record_blocks(blocks);
    assert_eq!(run.result(), &input);
    assert_eq!(run.table()[0], (BLOCK_SIZE, 0, BLOCK_SIZE, 0));
    assert_eq!(run.table()[1], (BLOCK_SIZE, BLOCK_SIZE, BLOCK_SIZE, BLOCK_SIZE));
}

#[test]
fn reads_continue_the_offsets() {
    let first = compressible(BLOCK_SIZE);
    let second = pseudo_random(BLOCK_SIZE, 9);
    let mut run = CompressionRun::new();
    run.record_blocks(blocks_of(&first));
    let after_first = run.stored_offset();
    run.record_blocks(blocks_of(&second));
    assert_eq!(run.table()[1], (BLOCK_SIZE, BLOCK_SIZE, BLOCK_SIZE, after_first));
    assert_eq!(run.stored_offset(), after_first + BLOCK_SIZE);
}

#[test]
fn compressed_remainder_continues_the_last_entry() {
    let block = pseudo_random(BLOCK_SIZE, 5);
    let rem = compressible(3000);
    let mut run = CompressionRun::new();
    run.record_blocks(blocks_of(&block));
    run.record_remainder(&rem).unwrap().unwrap();
    let t = run.table().clone();
    assert_eq!(t.len(), 2);
    assert_eq!(t[1].0, 3000);
    assert_eq!(t[1].1, BLOCK_SIZE);
    assert_eq!(t[1].3, BLOCK_SIZE);
    assert!(t[1].2 * 100 <= 3000 * 90);
    assert_eq!(run.result().len(), BLOCK_SIZE + t[1].2);
    // The running offsets are not moved by a remainder.
    assert_eq!(run.src_offset(), BLOCK_SIZE);
    assert_eq!(run.stored_offset(), BLOCK_SIZE);
    assert!(run.is_compressed());
}

#[test]
fn compressed_remainder_in_an_empty_table_starts_at_zero() {
    let rem = compressible(5000);
    let mut run = CompressionRun::new();
    run.record_remainder(&rem).unwrap().unwrap();
    let t = run.table().clone();
    assert_eq!(t.len(), 1);
    assert_eq!((t[0].0, t[0].1, t[0].3), (5000, 0, 0));
}

#[test]
fn raw_remainder_gets_no_entry() {
    let rem = pseudo_random(500, 11);
    let mut run = CompressionRun::new();
    run.record_remainder(&rem).unwrap().unwrap();
    assert!(run.table().is_empty());
    assert_eq!(run.result(), &rem);
    assert!(!run.is_compressed());
}

#[test]
fn empty_remainder_changes_nothing() {
    let mut run = CompressionRun::new();
    run.record_remainder(&[]).unwrap().unwrap();
    assert!(run.result().is_empty());
    assert!(run.table().is_empty());
}

#[test]
fn remainder_frame_decides_by_ninety_percent() {
    let rem = vec![7u8; 100];
    let mut run = CompressionRun::new();
    run.record_remainder_frame(&rem, vec![1u8; 91]);
    assert_eq!(run.result(), &rem);
    let mut run = CompressionRun::new();
    run.record_remainder_frame(&rem, vec![1u8; 90]);
    assert_eq!(run.result(), &vec![1u8; 90]);
    assert_eq!(run.table(), &vec![(100, 0, 90, 0)]);
}

#[test]
fn finish_hands_out_result_and_table() {
    let input = compressible(BLOCK_SIZE);
    let mut run = CompressionRun::new();
    run.record_blocks(blocks_of(&input));
    let expected_result = run.result().clone();
    let expected_table = run.table().clone();
    let (result, table) = run.finish(12345);
    assert_eq!(result, expected_result);
    assert_eq!(table, expected_table);
}

#[test]
fn arrival_order_does_not_change_the_run() {
    let mut input = compressible(BLOCK_SIZE);
    input.extend(pseudo_random(BLOCK_SIZE, 21));
    input.extend(compressible(BLOCK_SIZE / 2 * 2));
    let mut a = CompressionRun::new();
    a.record_blocks(blocks_of(&input));
    let mut shuffled = blocks_of(&input);
    shuffled.swap(0, 2);
    shuffled.swap(1, 2);
    let mut b = CompressionRun::new();
    b.record_blocks(shuffled);
    assert_eq!(a.result(), b.result());
    assert_eq!(a.table(), b.table());
    assert_eq!(a.table().len(), 3);
    for (i, e) in a.table().iter().enumerate() {
        assert_eq!(e.0, BLOCK_SIZE);
        assert_eq!(e.1, i * BLOCK_SIZE);
    }
}

fn run_in_reads(input: &[u8]) -> (Vec<u8>, Vec<(usize, usize, usize, usize)>) {
    let mut run = CompressionRun::new();
    for read in input.chunks(READ_SIZE) {
        let (whole, rest) = exact_chunks(read, BLOCK_SIZE);
        let mut blocks: Vec<Block> = whole
            .iter()
            .enumerate()
            .map(|(i, d)| compress_block(i, d).unwrap().0)
            .collect();
        blocks.reverse();
        run.record_blocks(blocks);
        run.record_remainder(rest).unwrap().unwrap();
    }
    run.finish(input.len() as u64)
}

#[test]
fn whole_input_gives_one_entry_per_full_block() {
    let mut input = Vec::new();
    for k in 0..23 {
        if k % 3 == 1 {
            input.extend(pseudo_random(BLOCK_SIZE, k));
        } else {
            input.extend(compressible(BLOCK_SIZE));
        }
    }
    let tail = pseudo_random(777, 99);
    input.extend(&tail);
    let (result, table) = run_in_reads(&input);
    assert_eq!(table.len(), 23);
    for (k, e) in table.iter().enumerate() {
        assert_eq!(e.0, BLOCK_SIZE);
        assert_eq!(e.1, k * BLOCK_SIZE);
        if e.2 == e.0 {
            assert_eq!(&result[e.3..e.3 + e.2], &input[e.1..e.1 + e.0]);
        } else {
            assert!(e.2 * 100 <= e.0 * 90);
        }
    }
    let located: usize = table.iter().map(|e| e.2).sum();
    assert_eq!(located + tail.len(), result.len());
    assert_eq!(&result[located..], &tail[..]);
    assert!(result.len() <= input.len());
}

#[test]
fn whole_input_with_compressed_tail_adds_its_entry() {
    let input = compressible(READ_SIZE + 2 * BLOCK_SIZE + 5000);
    let (result, table) = run_in_reads(&input);
    assert_eq!(table.len(), 13);
    let last = table[12];
    assert_eq!(last.0, 5000);
    assert_eq!(last.1, 12 * BLOCK_SIZE);
    let stored: usize = table.iter().map(|e| e.2).sum();
    let source: usize = table.iter().map(|e| e.0).sum();
    assert_eq!(stored, result.len());
    assert_eq!(source, input.len());
    assert!(result.len() <= input.len());
}

#[test]
fn short_remainder_stays_raw() {
    let rem = compressible(16);
    let mut run = CompressionRun::new();
    run.record_remainder(&rem).unwrap().unwrap();
    assert!(run.table().is_empty());
    assert_eq!(run.result(), &rem);
    assert!(!run.is_compressed());
}

#[test]
fn two_runs_over_the_same_input_agree() {
    let mut input = compressible(READ_SIZE);
    input.extend(pseudo_random(BLOCK_SIZE + 300, 4));
    input.extend(compressible(2 * BLOCK_SIZE + 4000));
    assert_eq!(run_in_reads(&input), run_in_reads(&input));
}
