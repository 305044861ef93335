use imageviewer::codec::decode_order;
use imageviewer::nav::resolve;
use imageviewer::nav::Mode;
use imageviewer::nav::NavRequest;
use imageviewer::store::OrderStore;

#[test]
fn sequential_five_pages_first() {
    let mut store = OrderStore::new();
    let req = NavRequest {
        page: Some(0),
        order: None,
        shuffle: false,
        interval: None,
        save: false,
    };
    let v = resolve(&mut store, 5, &req);
    assert_eq!(v.mode, Mode::Sequential);
    assert_eq!(v.current_page, 0);
    assert_eq!(v.previous_page, 4);
    assert_eq!(v.next_page, 1);
    assert_eq!(v.current_index, 0);
    assert!(v.order_token.is_none());
}

#[test]
fn sequential_five_pages_last() {
    let mut store = OrderStore::new();
    let req = NavRequest {
        page: Some(4),
        order: None,
        shuffle: false,
        interval: None,
        save: false,
    };
    let v = resolve(&mut store, 5, &req);
    assert_eq!(v.previous_page, 3);
    assert_eq!(v.next_page, 0);
    assert_eq!(v.current_index, 4);
}

#[test]
fn single_image_wraps_to_itself() {
    let mut store = OrderStore::new();
    let req = NavRequest {
        page: None,
        order: None,
        shuffle: false,
        interval: None,
        save: false,
    };
    let v = resolve(&mut store, 1, &req);
    assert_eq!(v.previous_page, 0);
    assert_eq!(v.next_page, 0);
    assert_eq!(v.current_page, 0);
    assert_eq!(v.current_index, 0);
}

#[test]
fn mismatched_order_falls_back_to_sequential() {
    // Stored order of length 5, request order of length 3: the short order
    // is dropped, not indexed.
    let mut store = OrderStore::new();
    store.reshuffle(5);
    let req = NavRequest {
        page: Some(2),
        order: Some("0,1,2".to_string()),
        shuffle: false,
        interval: None,
        save: false,
    };
    let v = resolve(&mut store, 5, &req);
    assert_eq!(v.mode, Mode::Sequential);
    assert!(v.order_token.is_none());
    assert_eq!(v.current_index, 2);
}

#[test]
fn malformed_order_falls_back_to_sequential() {
    let mut store = OrderStore::new();
    let req = NavRequest {
        page: Some(1),
        order: Some("a,b".to_string()),
        shuffle: false,
        interval: None,
        save: false,
    };
    let v = resolve(&mut store, 2, &req);
    assert_eq!(v.mode, Mode::Sequential);
    assert!(v.order_token.is_none());
    assert_eq!(v.current_index, 1);
}

#[test]
fn valid_order_is_browsed() {
    let mut store = OrderStore::new();
    let req = NavRequest {
        page: Some(0),
        order: Some("2,0,1".to_string()),
        shuffle: false,
        interval: None,
        save: false,
    };
    let v = resolve(&mut store, 3, &req);
    assert_eq!(v.mode, Mode::Shuffled);
    assert_eq!(v.current_index, 2);
    assert_eq!(v.order_token.as_deref(), Some("2,0,1"));
}

#[test]
fn page_out_of_range_wraps_to_zero() {
    let mut store = OrderStore::new();
    let req = NavRequest {
        page: Some(9),
        order: None,
        shuffle: false,
        interval: None,
        save: false,
    };
    let v = resolve(&mut store, 3, &req);
    assert_eq!(v.current_page, 0);
    assert_eq!(v.current_index, 0);
}

#[test]
fn shuffle_request_generates_fresh_order() {
    let mut store = OrderStore::new();
    let req = NavRequest {
        page: Some(1),
        order: None,
        shuffle: true,
        interval: None,
        save: false,
    };
    let v = resolve(&mut store, 4, &req);
    assert_eq!(v.mode, Mode::Shuffled);
    assert!(v.current_index < 4);
    let token = v.order_token.expect("a shuffle carries its token");
    assert_eq!(token, store.current());
    let mut p = decode_order(&token);
    assert_eq!(p.len(), 4);
    assert_eq!(p[1], v.current_index);
    p.sort();
    assert_eq!(p, (0..4).collect::<Vec<usize>>());
}

#[test]
fn shuffle_request_ignores_supplied_order() {
    let mut store = OrderStore::new();
    let req = NavRequest {
        page: Some(0),
        order: Some("9,9,9".to_string()),
        shuffle: true,
        interval: None,
        save: false,
    };
    let v = resolve(&mut store, 3, &req);
    assert_eq!(v.mode, Mode::Shuffled);
    assert!(v.current_index < 3);
    assert_ne!(v.order_token.as_deref(), Some("9,9,9"));
}

#[test]
fn out_of_range_order_falls_back_single_image() {
    // Right length, out-of-range value: with one image the token "5" must
    // not be browsed; the view degrades to sequential and stays in bounds.
    let mut store = OrderStore::new();
    let req = NavRequest {
        page: None,
        order: Some("5".to_string()),
        shuffle: false,
        interval: None,
        save: false,
    };
    let v = resolve(&mut store, 1, &req);
    assert_eq!(v.mode, Mode::Sequential);
    assert!(v.order_token.is_none());
    assert_eq!(v.current_index, 0);
}

#[test]
fn out_of_range_order_falls_back_two_images() {
    let mut store = OrderStore::new();
    let req = NavRequest {
        page: Some(0),
        order: Some("7,9".to_string()),
        shuffle: false,
        interval: None,
        save: false,
    };
    let v = resolve(&mut store, 2, &req);
    assert_eq!(v.mode, Mode::Sequential);
    assert!(v.order_token.is_none());
    assert_eq!(v.current_index, 0);
}

#[test]
fn boundary_value_order_is_browsed() {
    // Entries up to images_len - 1 are in range and the order is used.
    let mut store = OrderStore::new();
    let req = NavRequest {
        page: Some(1),
        order: Some("1,0".to_string()),
        shuffle: false,
        interval: None,
        save: false,
    };
    let v = resolve(&mut store, 2, &req);
    assert_eq!(v.mode, Mode::Shuffled);
    assert_eq!(v.current_index, 0);
}
