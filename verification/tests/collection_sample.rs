use playground::collection_sample::binary_search;

#[test]
fn search_in_the_sample_slice() {
    let v = vec![1, 2, 3, 4, 5, 32];
    assert_eq!(v[5], 32);
    assert_eq!(binary_search(&v[1..3], 10), Err(2));
}

#[test]
fn search_finds_and_places() {
    let v = [1, 3, 5, 7];
    assert_eq!(binary_search(&v, 5), Ok(2));
    assert_eq!(binary_search(&v, 0), Err(0));
    assert_eq!(binary_search(&v, 4), Err(2));
    assert_eq!(binary_search(&v, 8), Err(4));
    assert_eq!(binary_search(&[], 8), Err(0));
    for x in 0..10 {
        assert_eq!(binary_search(&v, x), v.binary_search(&x));
    }
}
