use autodbconv::numbers::{parse_integer, parse_real_or_integer, Real};
use autodbconv::Error;

#[test]
fn decimal_integers() {
    assert_eq!(parse_integer("0").unwrap(), 0);
    assert_eq!(parse_integer("19200").unwrap(), 19200);
    assert_eq!(parse_integer("+7").unwrap(), 7);
    assert_eq!(parse_integer("18446744073709551615").unwrap(), u64::MAX);
}

#[test]
fn hexadecimal_integers() {
    assert_eq!(parse_integer("0x0").unwrap(), 0);
    assert_eq!(parse_integer("0x10").unwrap(), 16);
    assert_eq!(parse_integer("0xfF").unwrap(), 255);
    assert_eq!(parse_integer("0xFFFFFFFFFFFFFFFF").unwrap(), u64::MAX);
}

#[test]
fn malformed_integers() {
    assert!(matches!(parse_integer(""), Err(Error::NumberParse)));
    assert!(matches!(parse_integer("abc"), Err(Error::NumberParse)));
    assert!(matches!(parse_integer("12a"), Err(Error::NumberParse)));
    assert!(matches!(parse_integer("0x"), Err(Error::NumberParse)));
    assert!(matches!(parse_integer("0xZZ"), Err(Error::NumberParse)));
    assert!(matches!(parse_integer("-3"), Err(Error::NumberParse)));
    // one past the largest 64-bit value
    assert!(matches!(
        parse_integer("18446744073709551616"),
        Err(Error::NumberParse)
    ));
    assert!(matches!(
        parse_integer("0x10000000000000000"),
        Err(Error::NumberParse)
    ));
}

#[test]
fn decimal_reals() {
    assert_eq!(
        parse_real_or_integer("19.2").unwrap(),
        Real { neg: false, mantissa: 192, exp10: -1 }
    );
    assert_eq!(
        parse_real_or_integer("10").unwrap(),
        Real { neg: false, mantissa: 10, exp10: 0 }
    );
    assert_eq!(
        parse_real_or_integer("0.1").unwrap(),
        Real { neg: false, mantissa: 1, exp10: -1 }
    );
    assert_eq!(
        parse_real_or_integer("1.").unwrap(),
        Real { neg: false, mantissa: 1, exp10: 0 }
    );
    assert_eq!(
        parse_real_or_integer(".5").unwrap(),
        Real { neg: false, mantissa: 5, exp10: -1 }
    );
    assert_eq!(
        parse_real_or_integer("-2.50").unwrap(),
        Real { neg: true, mantissa: 250, exp10: -2 }
    );
    assert_eq!(
        parse_real_or_integer("+3").unwrap(),
        Real { neg: false, mantissa: 3, exp10: 0 }
    );
}

#[test]
fn hexadecimal_reals() {
    assert_eq!(
        parse_real_or_integer("0x10").unwrap(),
        Real { neg: false, mantissa: 16, exp10: 0 }
    );
}

#[test]
fn malformed_reals() {
    assert!(matches!(parse_real_or_integer(""), Err(Error::NumberParse)));
    assert!(matches!(parse_real_or_integer("."), Err(Error::NumberParse)));
    assert!(matches!(parse_real_or_integer("-"), Err(Error::NumberParse)));
    assert!(matches!(parse_real_or_integer("1.2.3"), Err(Error::NumberParse)));
    assert!(matches!(parse_real_or_integer("1,2"), Err(Error::NumberParse)));
    assert!(matches!(parse_real_or_integer("0xZZ"), Err(Error::NumberParse)));
}

#[test]
fn exponent_reals() {
    assert_eq!(
        parse_real_or_integer("1e3").unwrap(),
        Real { neg: false, mantissa: 1, exp10: 3 }
    );
    assert_eq!(
        parse_real_or_integer("1.5e-2").unwrap(),
        Real { neg: false, mantissa: 15, exp10: -3 }
    );
    assert_eq!(
        parse_real_or_integer("2E+1").unwrap(),
        Real { neg: false, mantissa: 2, exp10: 1 }
    );
    assert_eq!(
        parse_real_or_integer(".5e1").unwrap(),
        Real { neg: false, mantissa: 5, exp10: 0 }
    );
    assert_eq!(
        parse_real_or_integer("-19.2e2").unwrap(),
        Real { neg: true, mantissa: 192, exp10: 1 }
    );
}

#[test]
fn malformed_exponents() {
    assert!(matches!(parse_real_or_integer("1e"), Err(Error::NumberParse)));
    assert!(matches!(parse_real_or_integer("e5"), Err(Error::NumberParse)));
    assert!(matches!(parse_real_or_integer("1e+"), Err(Error::NumberParse)));
    assert!(matches!(parse_real_or_integer("1e2.5"), Err(Error::NumberParse)));
    assert!(matches!(
        parse_real_or_integer("1e99999999999"),
        Err(Error::NumberParse)
    ));
}
