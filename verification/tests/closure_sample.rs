use playground::closure_sample::{calc_specify_fn, pow};

#[test]
fn squares() {
    assert_eq!(pow(2), 4);
    assert_eq!(pow(0), 0);
    assert_eq!(calc_specify_fn(2, pow), 4);
    assert_eq!(calc_specify_fn(3, |n| n * n), 9);
}
