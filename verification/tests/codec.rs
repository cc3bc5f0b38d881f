use playground::codec::compress;

#[test]
fn compress_makes_an_lz4_frame() {
    let out = compress(b"Some data Some data Some data Some data").unwrap().0;
    assert_eq!(&out[0..4], &[0x04, 0x22, 0x4D, 0x18]);
}

#[test]
fn compress_shrinks_repetitive_input() {
    let input = vec![0u8; 65536];
    let out = compress(&input).unwrap().0;
    assert!(out.len() < 1000);
    assert_ne!(out, input);
}

#[test]
fn compress_is_repeatable() {
    let input: Vec<u8> = (0..5000u32).map(|i| (i % 251) as u8).collect();
    assert_eq!(compress(&input).unwrap().0, compress(&input).unwrap().0);
}

#[test]
fn compress_of_nothing_is_a_frame_too() {
    let (out, end) = compress(&[]).unwrap();
    assert!(end.is_ok());
    assert_eq!(out.len(), 15);
    assert_eq!(&out[0..4], &[0x04, 0x22, 0x4D, 0x18]);
}

#[test]
fn every_frame_has_at_least_fifteen_bytes() {
    for n in [1usize, 2, 16, 17, 100] {
        let (out, end) = compress(&vec![b'a'; n]).unwrap();
        assert!(end.is_ok());
        assert!(out.len() >= 15);
        assert_eq!(&out[0..4], &[0x04, 0x22, 0x4D, 0x18]);
    }
}
