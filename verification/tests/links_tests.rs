use imageviewer::links::compose_url;

#[test]
fn shuffle_link_has_no_order_or_interval() {
    let url = compose_url(&Some(String::new()), &None, 3, &None, false);
    assert_eq!(url, "?shuffle=true&page=3");
}

#[test]
fn plain_page_link() {
    let url = compose_url(&None, &None, 0, &None, false);
    assert_eq!(url, "?page=0");
}

#[test]
fn order_token_is_form_encoded() {
    // The commas of the token must arrive percent-escaped; a composer that
    // passed the value through unchanged would emit a bare comma.
    let url = compose_url(&None, &Some("0,1".to_string()), 2, &Some(500), false);
    assert_eq!(url, "?interval=500&order=0%2C1&page=2");
}

#[test]
fn save_link() {
    let url = compose_url(&None, &None, 7, &None, true);
    assert_eq!(url, "?save=true&page=7");
}

#[test]
fn all_parameters_in_fixed_order() {
    let url = compose_url(
        &Some("x".to_string()),
        &Some("1,0".to_string()),
        5,
        &Some(1000),
        true,
    );
    assert_eq!(url, "?interval=1000&order=1%2C0&shuffle=true&save=true&page=5");
}

#[test]
fn matches_form_urlencoded_serializer() {
    // The composed URL must be byte-for-byte what the form-urlencoded
    // serializer would build from the same pairs.
    let token = "10,2, %+a";
    let url = compose_url(&None, &Some(token.to_string()), 12, &Some(500), true);
    let mut ser = url::form_urlencoded::Serializer::for_suffix("?".to_string(), 1);
    ser.append_pair("interval", "500");
    ser.append_pair("order", token);
    ser.append_pair("save", "true");
    ser.append_pair("page", "12");
    assert_eq!(url, ser.finish());
}
