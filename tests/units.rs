use station_stats::{
    format_entries, key_less, mean_of, parse_temperature, process_line, sorted_entries,
    split_once, ParseError, StationData, StationTable, MAX_TENTHS,
};

#[test]
fn parses_fixed_point_tenths() {
    assert_eq!(parse_temperature(b"12.0"), Ok(120));
    assert_eq!(parse_temperature(b"-3.5"), Ok(-35));
    assert_eq!(parse_temperature(b"0.0"), Ok(0));
    assert_eq!(parse_temperature(b"-0.0"), Ok(0));
    assert_eq!(parse_temperature(b"-99.9"), Ok(-999));
    assert_eq!(parse_temperature(b"5.0\r"), Ok(50));
}

#[test]
fn token_without_digits_is_rejected() {
    assert_eq!(parse_temperature(b""), Err(ParseError::NoDigits));
    assert_eq!(parse_temperature(b"-."), Err(ParseError::NoDigits));
    assert_eq!(parse_temperature(b"abc"), Err(ParseError::NoDigits));
}

#[test]
fn token_out_of_range_is_rejected() {
    assert_eq!(parse_temperature(b"100000000.0"), Ok(MAX_TENTHS));
    assert_eq!(parse_temperature(b"-100000000.0"), Ok(-MAX_TENTHS));
    assert_eq!(parse_temperature(b"100000000.1"), Err(ParseError::OutOfRange));
    assert_eq!(parse_temperature(b"99999999999999999999999.9"), Err(ParseError::OutOfRange));
}

#[test]
fn splits_at_first_delimiter() {
    let (k, v) = split_once(b"Oslo;1.5", b';');
    assert_eq!(k, b"Oslo");
    assert_eq!(v, b"1.5");
    let (k, v) = split_once(b"a;b;c", b';');
    assert_eq!(k, b"a");
    assert_eq!(v, b"b;c");
    let (k, v) = split_once(b"nodelim", b';');
    assert_eq!(k, b"nodelim");
    assert_eq!(v, b"");
    let (k, v) = split_once(b";7.0", b';');
    assert_eq!(k, b"");
    assert_eq!(v, b"7.0");
}

#[test]
fn station_data_folds_readings() {
    let mut d = StationData::new();
    assert_eq!(d.count, 0);
    d.update(-35);
    assert_eq!((d.min_temp, d.max_temp, d.total_temp, d.count), (-35, -35, -35, 1));
    d.update(25);
    d.update(10);
    assert_eq!((d.min_temp, d.max_temp, d.total_temp, d.count), (-35, 25, 0, 3));
    assert_eq!(mean_of(&d), 0);
}

#[test]
fn station_data_merges() {
    let mut a = StationData::new();
    a.update(120);
    a.update(140);
    let mut b = StationData::new();
    b.update(50);
    b.update(200);
    a.aggregate(&b);
    assert_eq!((a.min_temp, a.max_temp, a.total_temp, a.count), (50, 200, 510, 4));
    assert_eq!(mean_of(&a), 128);
    assert!(a.min_temp <= mean_of(&a) && mean_of(&a) <= a.max_temp);
}

#[test]
fn process_line_updates_table() {
    let mut t = StationTable::new();
    assert_eq!(process_line(&mut t, b"Hamburg;12.0"), Ok(()));
    assert_eq!(process_line(&mut t, b"Hamburg;14.0"), Ok(()));
    assert_eq!(process_line(&mut t, b"Berlin;5.0"), Ok(()));
    assert_eq!(process_line(&mut t, b"Berlin"), Err(ParseError::NoDigits));
    assert_eq!(t.readings(), 3);
    let es = sorted_entries(t);
    assert_eq!(es.len(), 2);
    assert_eq!(es[0].0, b"Berlin".to_vec());
    assert_eq!((es[0].1.min_temp, es[0].1.max_temp, es[0].1.count), (50, 50, 1));
    assert_eq!(es[1].0, b"Hamburg".to_vec());
    assert_eq!((es[1].1.min_temp, es[1].1.max_temp, es[1].1.count), (120, 140, 2));
    assert_eq!(es[1].1.total_temp, 260);
}

#[test]
fn sorted_entries_orders_many_keys() {
    let mut t = StationTable::new();
    for k in ["delta", "alpha", "charlie", "bravo", "alpha", "echo"] {
        let line = format!("{};1.0", k);
        process_line(&mut t, line.as_bytes()).unwrap();
    }
    let es = sorted_entries(t);
    let keys: Vec<Vec<u8>> = es.iter().map(|e| e.0.clone()).collect();
    let want: Vec<Vec<u8>> = ["alpha", "bravo", "charlie", "delta", "echo"]
        .iter()
        .map(|s| s.as_bytes().to_vec())
        .collect();
    assert_eq!(keys, want);
    assert_eq!(es[0].1.count, 2);
}

#[test]
fn byte_order_comparison() {
    assert!(key_less(b"Amman", b"Zurich"));
    assert!(!key_less(b"Zurich", b"Amman"));
    assert!(key_less(b"ab", b"abc"));
    assert!(!key_less(b"abc", b"ab"));
    assert!(!key_less(b"same", b"same"));
    assert!(key_less(b"", b"a"));
    assert!(key_less(b"Z", b"a"));
}

#[test]
fn formats_entries() {
    let mut d = StationData::new();
    d.update(-35);
    d.update(25);
    let es = vec![(b"X".to_vec(), d)];
    assert_eq!(format_entries(&es), b"{X=-3.5/-0.5/2.5}\n".to_vec());
    assert_eq!(format_entries(&Vec::new()), b"{}\n".to_vec());
}
