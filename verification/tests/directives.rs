use xlayout::layout::{Layout, ParseError, Rotation};

#[test]
fn test_layout() {
    let test_valid_strings = vec![
        "1",
        "1l",
        "1N",
        "1R",
        "1f",
        "1fP",
        "1x10",
        "1y-10",
        "1fpx10y-10",
    ];

    for s in test_valid_strings {
        let l1 = Layout::new(s);
        assert!(l1.is_ok());
        println!("{:?} => {:?}", s, l1.unwrap());
    }
}

#[test]
fn parse_full_directive() {
    let l = Layout::new("1Lx300y0fp").unwrap();
    assert_eq!(l.mon_idx, 1);
    assert!(matches!(l.rotation, Rotation::Left));
    assert_eq!(l.position, (Some(300), Some(0)));
    assert!(l.force);
    assert!(l.primary);
}

#[test]
fn parse_defaults() {
    let l = Layout::new("7").unwrap();
    assert_eq!(l.mon_idx, 7);
    assert!(matches!(l.rotation, Rotation::Normal));
    assert_eq!(l.position, (None, None));
    assert!(!l.force);
    assert!(!l.primary);
}

#[test]
fn parse_flag_order_irrelevant() {
    let a = Layout::new("1fp").unwrap();
    let b = Layout::new("1pf").unwrap();
    assert_eq!(a, b);
    assert!(a.force && a.primary);

    let c = Layout::new("2x10y-10Rf").unwrap();
    let d = Layout::new("2fy-10Rx10").unwrap();
    assert_eq!(c, d);
    assert_eq!(c.position, (Some(10), Some(-10)));
    assert!(matches!(c.rotation, Rotation::Right));
}

#[test]
fn parse_rotations() {
    assert!(matches!(Layout::new("0n").unwrap().rotation, Rotation::Normal));
    assert!(matches!(Layout::new("0R").unwrap().rotation, Rotation::Right));
    assert!(matches!(Layout::new("0i").unwrap().rotation, Rotation::Inverted));
    assert!(matches!(Layout::new("0L").unwrap().rotation, Rotation::Left));
}

#[test]
fn reject_two_rotations() {
    assert_eq!(Layout::new("1lr"), Err(ParseError::AmbiguousRotation));
    assert_eq!(Layout::new("1NL"), Err(ParseError::AmbiguousRotation));
    assert_eq!(Layout::new("1ll"), Err(ParseError::AmbiguousRotation));
}

#[test]
fn reject_missing_index() {
    assert_eq!(Layout::new(""), Err(ParseError::MissingMonitorIndex));
    assert_eq!(Layout::new("a1"), Err(ParseError::MissingMonitorIndex));
    assert_eq!(Layout::new("x10"), Err(ParseError::MissingMonitorIndex));
    assert_eq!(Layout::new("-1"), Err(ParseError::MissingMonitorIndex));
}

#[test]
fn reject_bad_numbers() {
    assert_eq!(Layout::new("1x"), Err(ParseError::InvalidNumber));
    assert_eq!(Layout::new("1xz"), Err(ParseError::InvalidNumber));
    assert_eq!(Layout::new("1x-"), Err(ParseError::InvalidNumber));
    assert_eq!(Layout::new("1y--5"), Err(ParseError::InvalidNumber));
    assert_eq!(Layout::new("99999999999"), Err(ParseError::InvalidNumber));
    assert_eq!(Layout::new("1x2147483648"), Err(ParseError::InvalidNumber));
    assert_eq!(Layout::new("1x-2147483649"), Err(ParseError::InvalidNumber));
}

#[test]
fn accept_extreme_positions() {
    let l = Layout::new("1x2147483647y-2147483648").unwrap();
    assert_eq!(l.position, (Some(2147483647), Some(-2147483648)));
}

#[test]
fn reject_garbage() {
    assert_eq!(Layout::new("1z"), Err(ParseError::TrailingGarbage));
    assert_eq!(Layout::new("1x90a"), Err(ParseError::TrailingGarbage));
    assert_eq!(Layout::new("1:99:c"), Err(ParseError::TrailingGarbage));
    assert_eq!(Layout::new("1ff"), Err(ParseError::TrailingGarbage));
    assert_eq!(Layout::new("1x5x6"), Err(ParseError::TrailingGarbage));
    assert_eq!(Layout::new("1 "), Err(ParseError::TrailingGarbage));
}
