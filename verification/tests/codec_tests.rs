use imageviewer::codec::decode_order;
use imageviewer::codec::encode_order;

#[test]
fn round_trip_small() {
    let p: Vec<usize> = vec![3, 1, 2, 0];
    let t = encode_order(&p);
    assert_eq!(t, "3,1,2,0");
    assert_eq!(decode_order(&t), p);
}

#[test]
fn round_trip_single() {
    let p: Vec<usize> = vec![0];
    let t = encode_order(&p);
    assert_eq!(t, "0");
    assert_eq!(decode_order(&t), p);
}

#[test]
fn round_trip_empty() {
    let p: Vec<usize> = vec![];
    let t = encode_order(&p);
    assert_eq!(t, "");
    assert_eq!(decode_order(&t), p);
}

#[test]
fn round_trip_multi_digit() {
    let p: Vec<usize> = vec![10, 2, 117];
    let t = encode_order(&p);
    assert_eq!(t, "10,2,117");
    assert_eq!(decode_order(&t), p);
}

#[test]
fn decode_plain() {
    assert_eq!(decode_order("1,2,3"), vec![1, 2, 3]);
}

#[test]
fn decode_percent_escapes() {
    // "%31" is '1' and "%2C" is ','; a decoder that left the token unchanged
    // would fail to parse the first field.
    assert_eq!(decode_order("%31%2C2"), vec![1, 2]);
}

#[test]
fn decode_plus_sign() {
    assert_eq!(decode_order("+5,2"), vec![5, 2]);
}

#[test]
fn decode_malformed_letter() {
    assert_eq!(decode_order("1,x,2"), Vec::<usize>::new());
}

#[test]
fn decode_malformed_empty_field() {
    assert_eq!(decode_order("1,,2"), Vec::<usize>::new());
}

#[test]
fn decode_malformed_trailing_comma() {
    assert_eq!(decode_order("1,2,"), Vec::<usize>::new());
}

#[test]
fn decode_malformed_overflow() {
    assert_eq!(
        decode_order("1,99999999999999999999999999"),
        Vec::<usize>::new()
    );
}

#[test]
fn decode_malformed_stray_percent() {
    // '%' not followed by two hex digits stays literal and poisons its field.
    assert_eq!(decode_order("%zz"), Vec::<usize>::new());
}

#[test]
fn decode_largest_value() {
    assert_eq!(decode_order("18446744073709551615"), vec![usize::MAX]);
}

#[test]
fn decode_malformed_lone_plus() {
    assert_eq!(decode_order("+"), Vec::<usize>::new());
}
