use timetable::filter::filter_query;

#[test]
fn test_filter() {
    let mut req = vec!["SE102".to_string()];
    let mut sel = vec!["SE102".to_string()];
    assert_eq!(filter_query(&req, &sel), true);
    req.push("BS900".to_string());
    assert_eq!(filter_query(&req, &sel), false);
    req.pop();
    for _ in 0..15 {
        req.push("SE102".to_string());
    }
    assert_eq!(filter_query(&req, &sel), false);
    for _ in 0..15 {
        req.pop();
    }
    assert_eq!(filter_query(&req, &sel), true);
    for _ in 0..15 {
        sel.push("SE102".to_string());
    }
    assert_eq!(filter_query(&req, &sel), false);
    for _ in 0..15 {
        sel.pop();
    }
    assert_eq!(filter_query(&req, &sel), true);
}

#[test]
fn individually_barred_codes_are_refused() {
    let ok: Vec<String> = vec![];
    assert!(!filter_query(&vec!["HL471".to_string()], &ok));
    assert!(!filter_query(&ok, &vec!["HL302".to_string()]));
    assert!(filter_query(&vec!["HL472".to_string()], &ok));
}
