use match_engine::parse::parse_orderfile;

#[test]
fn parse_order_lines() {
    assert_eq!(parse_orderfile(b"1, 42000, 10, 1"), Some((true, 42000, 10)));
    assert_eq!(parse_orderfile(b"7,43200,20,0"), Some((false, 43200, 20)));
    assert_eq!(parse_orderfile(b"5 , -150 , 7 , 1"), Some((true, -150, 7)));
    assert_eq!(parse_orderfile(b"5,+42000,+7,1"), Some((true, 42000, 7)));
    // a side field that does not parse counts as an ask
    assert_eq!(parse_orderfile(b"1,42000,10,zz"), Some((false, 42000, 10)));
    // extra fields beyond the fourth are ignored
    assert_eq!(parse_orderfile(b"1,42000,10,1,extra"), Some((true, 42000, 10)));
}

#[test]
fn parse_rejects_malformed() {
    assert_eq!(parse_orderfile(b""), None);
    assert_eq!(parse_orderfile(b"1,42000,10"), None);
    assert_eq!(parse_orderfile(b"1,,10,1"), None);
    assert_eq!(parse_orderfile(b"1,abc,10,1"), None);
    assert_eq!(parse_orderfile(b"1,42000,-10,1"), None);
    assert_eq!(parse_orderfile(b"1,42000,4294967296,1"), None);
    assert_eq!(parse_orderfile(b"1,2147483648,10,1"), None);
    assert_eq!(parse_orderfile(b"1,-2147483648,10,1"), Some((true, -2147483648, 10)));
    assert_eq!(parse_orderfile(b"1,4294967295,10,1"), None);
}
