use movielens::number::{is_decimal_text, parse_i32};

#[test]
fn reads_plain_integers() {
    assert_eq!(parse_i32("0"), Some(0));
    assert_eq!(parse_i32("7"), Some(7));
    assert_eq!(parse_i32("122"), Some(122));
    assert_eq!(parse_i32("838985046"), Some(838985046));
}

#[test]
fn reads_signed_integers() {
    assert_eq!(parse_i32("-1"), Some(-1));
    assert_eq!(parse_i32("+1"), Some(1));
    assert_eq!(parse_i32("-0"), Some(0));
    assert_eq!(parse_i32("+0"), Some(0));
    assert_eq!(parse_i32("-838985046"), Some(-838985046));
}

#[test]
fn reads_leading_zeros() {
    assert_eq!(parse_i32("007"), Some(7));
    assert_eq!(parse_i32("-00012"), Some(-12));
    assert_eq!(parse_i32("0000000000000000000000000000001"), Some(1));
}

#[test]
fn reads_the_limits_of_32_bits() {
    assert_eq!(parse_i32("2147483647"), Some(i32::MAX));
    assert_eq!(parse_i32("+2147483647"), Some(i32::MAX));
    assert_eq!(parse_i32("-2147483648"), Some(i32::MIN));
    assert_eq!(parse_i32("-2147483647"), Some(-2147483647));
}

#[test]
fn refuses_what_does_not_fit() {
    assert_eq!(parse_i32("2147483648"), None);
    assert_eq!(parse_i32("+2147483648"), None);
    assert_eq!(parse_i32("-2147483649"), None);
    assert_eq!(parse_i32("4294967296"), None);
    assert_eq!(parse_i32("99999999999999999999999999999999999999"), None);
    assert_eq!(parse_i32("-99999999999999999999999999999999999999"), None);
}

#[test]
fn refuses_what_is_no_integer() {
    for text in [
        "", "+", "-", "+-1", "--1", "1-", "1+1", " 1", "1 ", "1.0", "1e3", "0x10", "abc", "12a",
        "a12", "1_000", "\u{663}", "\u{ff11}", "1\n",
    ] {
        assert_eq!(parse_i32(text), None, "{:?}", text);
    }
}

#[test]
fn parse_i32_agrees_with_the_standard_library() {
    let texts = [
        "0", "-0", "+0", "1", "-1", "+1", "2147483647", "2147483648", "-2147483648",
        "-2147483649", "00000000002147483647", "-00000000002147483648", "21474836470", "", "+",
        "-", "1 ", " 1", "1.5", "five", "٣", "123456789", "-123456789", "1234567890123",
    ];
    for text in texts {
        assert_eq!(parse_i32(text), text.parse::<i32>().ok(), "{:?}", text);
    }
}

#[test]
fn ratings_as_they_are_written_are_decimals() {
    for text in ["0.5", "1", "1.5", "2", "2.5", "3", "3.5", "4", "4.5", "5", "5.0"] {
        assert!(is_decimal_text(text), "{:?}", text);
    }
}

#[test]
fn decimals_may_have_a_sign_a_point_and_an_exponent() {
    for text in [
        "3.14", "-3.14", "+3.14", "2.5E10", "2.5e10", "2.5E-10", "2.5e+10", "5.", ".5", "0.5",
        "7", "007", "-.5", "+5.", "1e0", "1E0", "0e0", ".5e1", "5.e1", "00.00", "1e0000010",
    ] {
        assert!(is_decimal_text(text), "{:?}", text);
    }
}

#[test]
fn the_words_for_infinity_and_no_number_are_decimals() {
    for text in [
        "inf", "-inf", "+inf", "INF", "Inf", "iNf", "infinity", "-infinity", "+infinity",
        "Infinity", "INFINITY", "nan", "NaN", "NAN", "-nan", "+NaN",
    ] {
        assert!(is_decimal_text(text), "{:?}", text);
    }
}

#[test]
fn what_is_no_decimal_is_refused() {
    for text in [
        "", "+", "-", ".", "+.", "-.", "e", "e5", ".e5", "1e", "1e+", "1e-", "1e1.5", "1.5.5",
        "1..5", "--1", "+-1", "1-", " 1", "1 ", "1,5", "abc", "five", "0x10", "1f", "1.0f",
        "in", "infi", "infinit", "infinityy", "na", "nann", "i n f", "1inf", "inf1", "1_0",
        "\u{663}.5", "1e\u{663}", "\u{130}nf", "\u{212a}",
    ] {
        assert!(!is_decimal_text(text), "{:?}", text);
    }
}

#[test]
fn is_decimal_text_agrees_with_the_standard_library() {
    let texts = [
        "0.5", "5", "5.0", "4.5", "", "+", "-", ".", "1.", ".1", "1.1", "1.1.1", "1e1", "1e", "e1",
        "1e+1", "1e-1", "1e+-1", "1E1", "1.e1", ".1e1", ".e1", "+.1", "-.1", "+1.", "inf",
        "infinity", "nan", "-inf", "-nan", "+infinity", "infinit", "nane", "iNfINiTy", "NaN",
        "1 ", " 1", "1f32", "0x1p3", "1_000.0", "١", "1e1e1", "1e1.0", "--1", "++1", "+-1",
        "123456789012345678901234567890", "0.000000000000000000000000000000000000000000001",
        "1e400", "1e-400", "inf ", "Ⅷ",
    ];
    for text in texts {
        assert_eq!(is_decimal_text(text), text.parse::<f32>().is_ok(), "{:?}", text);
    }
}
