use password_policy::line::{parse_line, parse_range_line, ParseError};
use password_policy::policy::{PasswordPolicy, RangePolicy};
use password_policy::tally::{check_line, count_valid, PolicyKind};

#[test]
fn test_is_valid() {
    let pp = PasswordPolicy {
        byte: b'a',
        positions: [0, 2],
    };

    assert_eq!(pp.is_valid("zeus"), false);
    assert_eq!(pp.is_valid("abcd"), true);
    assert_eq!(pp.is_valid("qbad"), true);
    assert_eq!(pp.is_valid("aaaa"), false);
}

#[test]
fn test_parse_line() {
    assert_eq!(
        parse_line("1-3 a: banana").unwrap(),
        (
            PasswordPolicy {
                byte: b'a',
                positions: [0, 2]
            },
            "banana"
        )
    );
}

#[test]
fn range_policy_counts_occurrences() {
    let rp = RangePolicy { byte: b'a', min: 1, max: 3 };
    assert_eq!(rp.is_valid("abcd"), true);
    assert_eq!(rp.is_valid("aaaa"), false);
    assert_eq!(rp.is_valid("zeus"), false);
    assert_eq!(rp.is_valid("banana"), true);
    assert_eq!(rp.is_valid("aaa"), true);
}

#[test]
fn inverted_range_accepts_nothing() {
    let rp = RangePolicy { byte: b'a', min: 3, max: 1 };
    assert!(!rp.is_valid(""));
    assert!(!rp.is_valid("a"));
    assert!(!rp.is_valid("aa"));
    assert!(!rp.is_valid("aaa"));
}

#[test]
fn parse_range_line_reads_bounds_as_counts() {
    assert_eq!(
        parse_range_line("1-3 a: banana").unwrap(),
        (RangePolicy { byte: b'a', min: 1, max: 3 }, "banana")
    );
}

#[test]
fn empty_password_boundary() {
    let pp = PasswordPolicy { byte: b'a', positions: [0, 2] };
    assert!(!pp.is_valid(""));
    let zero_min = RangePolicy { byte: b'a', min: 0, max: 2 };
    assert!(zero_min.is_valid(""));
    let one_min = RangePolicy { byte: b'a', min: 1, max: 2 };
    assert!(!one_min.is_valid(""));
}

#[test]
fn position_past_end_does_not_match() {
    let pp = PasswordPolicy { byte: b'c', positions: [2, 10] };
    assert!(pp.is_valid("abc"));
    assert!(!pp.is_valid("ab"));
    let same = PasswordPolicy { byte: b'a', positions: [1, 1] };
    assert!(!same.is_valid("aa"));
}

#[test]
fn missing_colon_is_rejected() {
    assert_eq!(parse_line("1-3 a banana"), Err(ParseError::ExpectedSubject));
    assert_eq!(parse_line("1-3 a"), Err(ParseError::ExpectedSubject));
    assert_eq!(parse_line("1-3 a:banana"), Err(ParseError::ExpectedSubject));
    assert_eq!(parse_line("1-3 a;  banana"), Err(ParseError::ExpectedSubject));
    assert_eq!(parse_line(""), Err(ParseError::ExpectedSubject));
    assert_eq!(parse_range_line("1-3 a banana"), Err(ParseError::ExpectedSubject));
}

#[test]
fn non_numeric_bounds_are_rejected() {
    assert_eq!(parse_line("x-3 a: banana"), Err(ParseError::InvalidLowBound));
    assert_eq!(parse_line("1-y a: banana"), Err(ParseError::InvalidHighBound));
    assert_eq!(parse_range_line("-3 a: banana"), Err(ParseError::InvalidLowBound));
    assert_eq!(parse_range_line("1- a: banana"), Err(ParseError::InvalidHighBound));
    assert_eq!(parse_range_line("1-3-5 a: banana"), Err(ParseError::InvalidHighBound));
}

#[test]
fn each_error_kind_has_an_input() {
    assert_eq!(parse_line(": banana"), Err(ParseError::ExpectedSubject));
    assert_eq!(parse_line(" a: banana"), Err(ParseError::ExpectedBounds));
    assert_eq!(parse_line("1-3a: banana"), Err(ParseError::ExpectedTarget));
    assert_eq!(parse_line("1-3 : banana"), Err(ParseError::ExpectedTarget));
    assert_eq!(parse_line("13 a: banana"), Err(ParseError::InvalidHighBound));
    assert_eq!(parse_line("1 3 a: banana"), Err(ParseError::InvalidHighBound));
    assert_eq!(parse_line("1-3 A: banana"), Err(ParseError::InvalidTarget));
    assert_eq!(parse_line("1-3 ab: banana"), Err(ParseError::InvalidTarget));
    assert_eq!(parse_line("1-3 a b: banana"), Err(ParseError::InvalidTarget));
}

#[test]
fn zero_position_is_rejected_but_zero_count_is_not() {
    assert_eq!(parse_line("0-3 a: banana"), Err(ParseError::InvalidLowBound));
    assert_eq!(parse_line("1-0 a: banana"), Err(ParseError::InvalidHighBound));
    assert_eq!(
        parse_range_line("0-0 z: banana").unwrap(),
        (RangePolicy { byte: b'z', min: 0, max: 0 }, "banana")
    );
}

#[test]
fn bounds_past_usize_are_rejected() {
    assert_eq!(
        parse_line("99999999999999999999999-3 a: x"),
        Err(ParseError::InvalidLowBound)
    );
    assert_eq!(
        parse_range_line("1-99999999999999999999999 a: x"),
        Err(ParseError::InvalidHighBound)
    );
    let max = format!("1-{} a: x", usize::MAX);
    assert_eq!(
        parse_range_line(&max).unwrap(),
        (RangePolicy { byte: b'a', min: 1, max: usize::MAX }, "x")
    );
}

#[test]
fn password_is_trimmed() {
    assert_eq!(
        parse_line("12-05 q: ").unwrap(),
        (PasswordPolicy { byte: b'q', positions: [11, 4] }, "")
    );
    assert_eq!(
        parse_line("2-9 c: cc: c é ").unwrap(),
        (PasswordPolicy { byte: b'c', positions: [1, 8] }, "cc: c é")
    );
    assert_eq!(
        parse_line("1-3 a: x ").unwrap(),
        (PasswordPolicy { byte: b'a', positions: [0, 2] }, "x")
    );
    assert_eq!(
        parse_range_line("1-3 a: \t  x y\r\n").unwrap(),
        (RangePolicy { byte: b'a', min: 1, max: 3 }, "x y")
    );
    assert_eq!(
        parse_line("1-3 a: x\u{0b}").unwrap(),
        (PasswordPolicy { byte: b'a', positions: [0, 2] }, "x")
    );
    assert_eq!(
        parse_range_line("1-3 a: \u{3000}\u{a0}x\u{85}y\u{2029}\u{1680}").unwrap(),
        (RangePolicy { byte: b'a', min: 1, max: 3 }, "x\u{85}y")
    );
    assert_eq!(
        parse_range_line("1-3 a:  \t ").unwrap(),
        (RangePolicy { byte: b'a', min: 1, max: 3 }, "")
    );
}

#[test]
fn password_trim_agrees_with_str_trim() {
    let tails = ["", " x ", "\u{0b}x\u{0c}", "\u{202f}x y\u{205f}", "\u{200b}x\u{200b}", "é\u{2000}"];
    for tail in tails {
        let line = format!("1-3 a: {}", tail);
        let (_, password) = parse_line(&line).unwrap();
        assert_eq!(password, format!(" {}", tail).trim());
    }
}

#[test]
fn written_policy_reads_back() {
    let pp = PasswordPolicy { byte: b'k', positions: [6, 41] };
    let text = format!("{}-{} {}: {}", 7, 42, 'k', "kayak");
    assert_eq!(parse_line(&text).unwrap(), (pp, "kayak"));
    let rp = RangePolicy { byte: b'k', min: 0, max: 120 };
    let text = format!("{}-{} {}: {}", 0, 120, 'k', "kayak");
    assert_eq!(parse_range_line(&text).unwrap(), (rp, "kayak"));
}

#[test]
fn check_line_applies_the_chosen_rule() {
    assert_eq!(check_line(PolicyKind::Positions, "1-3 a: abcde"), Ok(true));
    assert_eq!(check_line(PolicyKind::Positions, "1-3 b: cdefg"), Ok(false));
    assert_eq!(check_line(PolicyKind::Positions, "2-9 c: ccccccccc"), Ok(false));
    assert_eq!(check_line(PolicyKind::Range, "1-3 a: abcde"), Ok(true));
    assert_eq!(check_line(PolicyKind::Range, "1-3 b: cdefg"), Ok(false));
    assert_eq!(check_line(PolicyKind::Range, "2-9 c: ccccccccc"), Ok(true));
    assert_eq!(check_line(PolicyKind::Range, "2-9 c ccccccccc"), Err(ParseError::ExpectedSubject));
}

#[test]
fn count_valid_counts_or_stops_at_first_bad_line() {
    let lines = ["1-3 a: abcde", "1-3 b: cdefg", "2-9 c: ccccccccc"];
    assert_eq!(count_valid(PolicyKind::Positions, &lines), Ok(1));
    assert_eq!(count_valid(PolicyKind::Range, &lines), Ok(2));
    assert_eq!(count_valid(PolicyKind::Range, &[]), Ok(0));
    let bad = ["1-3 a: abcde", "1-3 b cdefg", "x-9 c: ccccccccc"];
    assert_eq!(
        count_valid(PolicyKind::Range, &bad),
        Err((1, ParseError::ExpectedSubject))
    );
}
