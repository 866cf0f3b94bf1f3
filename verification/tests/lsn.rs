use nabla::lsn::parse;

#[test]
fn round_trips() {
    for text in ["0/0", "0/16B3748", "1/0", "FFFFFFFF/FFFFFFFF"] {
        assert_eq!(nabla::lsn::format(parse(text).unwrap()), text);
    }
    assert_eq!(parse("garbage"), None);
}

#[test]
fn reads_both_cases_and_blanks() {
    assert_eq!(parse(" 1/aB "), Some(0x1_0000_00AB));
    assert_eq!(parse("1/"), None);
    assert_eq!(parse("/1"), None);
    assert_eq!(parse("1/2/3"), None);
    assert_eq!(parse(""), None);
    assert_eq!(parse("+1/+2"), Some(0x1_0000_0002));
    assert_eq!(parse("10000000000000000/0"), None);
}

#[test]
fn writes_upper_case_halves() {
    assert_eq!(nabla::lsn::format(0), "0/0");
    assert_eq!(nabla::lsn::format(0x1_0000_00AB), "1/AB");
    assert_eq!(nabla::lsn::format(u64::MAX), "FFFFFFFF/FFFFFFFF");
}
