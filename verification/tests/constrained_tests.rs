use rangemerge::constrained::{Range, RangeParseError, RangeVec};

#[test]
fn constrained_test() -> Result<(), RangeParseError> {
    let cases = vec![
        ("1-5,3-7", "1-7"),
        ("-4, 20-30, 2-7", "-7, 20-30"),
        ("-4, 5-10", "-4, 5-10"),
        ("1-20, 15-25, 22-40", "1-40"),
        ("-100, 50-255", "-255"),
    ];

    for (input, expected) in cases {
        let res = rangemerge::constrained::calc(RangeVec::from_str(input)?);
        assert_eq!(res.to_string(), expected);
    }
    Ok(())
}

#[test]
fn constrained_rejects_out_of_domain() {
    let err = RangeVec::from_str("300-310").unwrap_err();
    assert_eq!(err.message(), "number too large to fit in target type");
    let err = RangeVec::from_str("1-256").unwrap_err();
    assert_eq!(err.message(), "number too large to fit in target type");
}

#[test]
fn constrained_rejects_bad_shape() {
    let err = RangeVec::from_str("1-2-3").unwrap_err();
    assert_eq!(err.message(), "Wrong format");
    let err = RangeVec::from_str("").unwrap_err();
    assert_eq!(err.message(), "Wrong format");
    let err = RangeVec::from_str("5").unwrap_err();
    assert_eq!(err.message(), "Wrong format");
}

#[test]
fn constrained_rejects_bad_numbers() {
    let err = RangeVec::from_str("a-5").unwrap_err();
    assert_eq!(err.message(), "invalid digit found in string");
    let err = RangeVec::from_str("5-").unwrap_err();
    assert_eq!(err.message(), "cannot parse integer from empty string");
    let err = RangeVec::from_str("1-5, 2-x").unwrap_err();
    assert_eq!(err.message(), "invalid digit found in string");
}

#[test]
fn constrained_zero_width_range_vanishes() {
    let res = rangemerge::constrained::calc(RangeVec::from_str("5-5").unwrap());
    assert_eq!(res.to_string(), "");
    let res = rangemerge::constrained::calc(RangeVec::from_str("5-5, 4-6").unwrap());
    assert_eq!(res.to_string(), "4-6");
}

#[test]
fn constrained_touching_ranges_fuse() {
    let res = rangemerge::constrained::calc(RangeVec::from_str("1-5, 5-9").unwrap());
    assert_eq!(res.to_string(), "1-9");
    let res = rangemerge::constrained::calc(RangeVec::from_str("1-2, 3-4").unwrap());
    assert_eq!(res.to_string(), "1-2, 3-4");
}

#[test]
fn constrained_merge_is_idempotent() {
    let once = rangemerge::constrained::calc(RangeVec::from_str("1-5,3-7, 9-9, 20-30").unwrap());
    let twice = rangemerge::constrained::calc(rangemerge::constrained::calc(RangeVec::from_str("1-5,3-7, 9-9, 20-30").unwrap()));
    assert_eq!(once.to_string(), twice.to_string());
}

#[test]
fn constrained_round_trip() {
    let merged = rangemerge::constrained::calc(RangeVec::from_str("1-5,3-7, 20-30").unwrap());
    let text = merged.to_string();
    let back = rangemerge::constrained::calc(RangeVec::from_str(&text).unwrap());
    assert_eq!(back.to_string(), text);
}

#[test]
fn constrained_direct_construction() {
    let rv = RangeVec {
        ranges: vec![Range { start: 3, end: 7 }, Range { start: 5, end: 9 }],
    };
    assert_eq!(rangemerge::constrained::calc(rv).to_string(), "3-9");
}

#[test]
fn constrained_spaces_only_around_tokens() {
    assert_eq!(
        rangemerge::constrained::calc(RangeVec::from_str("  1-5 , 3-7  ").unwrap()).to_string(),
        "1-7"
    );
    let err = RangeVec::from_str("1 - 5").unwrap_err();
    assert_eq!(err.message(), "invalid digit found in string");
}
