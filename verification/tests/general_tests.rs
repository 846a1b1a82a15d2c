use rangemerge::general::{Range, RangeParseError, RangeVec};

#[test]
fn general_test() -> Result<(), RangeParseError> {
    let cases = vec![
        ("1-5,3-7", "1-7"),
        ("-4, 20-30, 2-7", "-7, 20-30"),
        ("-4, 5-10", "-4, 5-10"),
        ("1-20, 15-25, 22-40", "1-40"),
        ("-100, 50-255", "-255"),
    ];

    for (input, expected) in cases {
        let res = rangemerge::general::calc(RangeVec::from_str(input)?);
        assert_eq!(res.to_string(), expected);
    }
    Ok(())
}

#[test]
fn general_negative_starts() {
    let res = rangemerge::general::calc(RangeVec::from_str("-4--2").unwrap());
    assert_eq!(res.to_string(), "-4--2");
    let res = rangemerge::general::calc(RangeVec::from_str("-10-5, -3-8").unwrap());
    assert_eq!(res.to_string(), "-10-8");
    // a second leading minus reads as a sign on the end value
    let rv = RangeVec::from_str("--5").unwrap();
    assert_eq!(rv.ranges[0], Range { start: 0, end: -5 });
}

#[test]
fn general_singleton_survives() {
    let res = rangemerge::general::calc(RangeVec::from_str("5-5").unwrap());
    assert_eq!(res.to_string(), "5-5");
    let res = rangemerge::general::calc(RangeVec::from_str("5-5, 4-6").unwrap());
    assert_eq!(res.to_string(), "4-6");
}

#[test]
fn general_touching_ranges_fuse() {
    let res = rangemerge::general::calc(RangeVec::from_str("1-5, 5-9").unwrap());
    assert_eq!(res.to_string(), "1-9");
    let res = rangemerge::general::calc(RangeVec::from_str("1-2, 3-4").unwrap());
    assert_eq!(res.to_string(), "1-2, 3-4");
}

#[test]
fn general_rejects_bad_shape() {
    let err = RangeVec::from_str("1-2-3").unwrap_err();
    assert_eq!(err.message(), "Bad range format");
    let err = RangeVec::from_str("").unwrap_err();
    assert_eq!(err.message(), "Bad range format");
    let err = RangeVec::from_str("a-5").unwrap_err();
    assert_eq!(err.message(), "Bad range format");
    let err = RangeVec::from_str("5-").unwrap_err();
    assert_eq!(err.message(), "Bad range format");
}

#[test]
fn general_rejects_out_of_domain() {
    let err = RangeVec::from_str("1-9999999999").unwrap_err();
    assert_eq!(err.message(), "number too large to fit in target type");
    let err = RangeVec::from_str("-9999999999-5").unwrap_err();
    assert_eq!(err.message(), "number too small to fit in target type");
    let ok = RangeVec::from_str("2147483646-2147483647").unwrap();
    assert_eq!(rangemerge::general::calc(ok).to_string(), "2147483646-2147483647");
    let ok = RangeVec::from_str("-2147483648--2147483648").unwrap();
    assert_eq!(rangemerge::general::calc(ok).to_string(), "-2147483648--2147483648");
}

#[test]
fn general_merge_is_idempotent() {
    let once = rangemerge::general::calc(RangeVec::from_str("1-5,3-7, 9-9, -3-0").unwrap());
    let twice = rangemerge::general::calc(rangemerge::general::calc(RangeVec::from_str("1-5,3-7, 9-9, -3-0").unwrap()));
    assert_eq!(once.to_string(), twice.to_string());
}

#[test]
fn general_round_trip() {
    let merged = rangemerge::general::calc(RangeVec::from_str("-10-5, -3-8, 20-30, 35-35").unwrap());
    let text = merged.to_string();
    let back = rangemerge::general::calc(RangeVec::from_str(&text).unwrap());
    assert_eq!(back.to_string(), text);
}

#[test]
fn general_single_token_parse() {
    assert_eq!(Range::from_str("1-5").unwrap(), Range { start: 1, end: 5 });
    assert_eq!(Range::from_str(" -7 ").unwrap(), Range { start: 0, end: 7 });
    assert_eq!(Range::from_str("-4--2").unwrap(), Range { start: -4, end: -2 });
    let err = Range::from_str("1-2-3").unwrap_err();
    assert_eq!(err.message(), "Bad range format");
}

#[test]
fn general_error_construction() {
    let err = RangeParseError::new("some description");
    assert_eq!(err.message(), "some description");
}

#[test]
fn general_direct_construction() {
    let rv = RangeVec {
        ranges: vec![Range { start: -3, end: 7 }, Range { start: 7, end: 9 }],
    };
    assert_eq!(rangemerge::general::calc(rv).to_string(), "-3-9");
}
