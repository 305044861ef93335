use imageviewer::codec::decode_order;
use imageviewer::store::OrderStore;

#[test]
fn new_store_has_empty_token() {
    let s = OrderStore::new();
    assert_eq!(s.current(), "");
    assert!(decode_order(&s.current()).is_empty());
}

#[test]
fn reshuffle_gives_permutation() {
    let mut s = OrderStore::new();
    s.reshuffle(7);
    let mut p = decode_order(&s.current());
    assert_eq!(p.len(), 7);
    p.sort();
    assert_eq!(p, (0..7).collect::<Vec<usize>>());
}

#[test]
fn reshuffle_single_page() {
    let mut s = OrderStore::new();
    s.reshuffle(1);
    assert_eq!(s.current(), "0");
}

#[test]
fn repeated_reshuffles_always_decodable() {
    // Every replacement installs a complete token: whichever reshuffle ran
    // last, the current token decodes to a full permutation.
    let mut s = OrderStore::new();
    for n in 1..40usize {
        s.reshuffle(n);
        let mut p = decode_order(&s.current());
        assert_eq!(p.len(), n);
        p.sort();
        assert_eq!(p, (0..n).collect::<Vec<usize>>());
    }
}

#[test]
fn reshuffle_zero_pages_gives_empty_token() {
    let mut s = OrderStore::new();
    s.reshuffle(0);
    assert_eq!(s.current(), "");
    assert!(decode_order(&s.current()).is_empty());
}
