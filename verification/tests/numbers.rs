use dynamode::number::{classify_number, format_integer, NumberClass};

/// What the standard library makes of the same text: the yardstick for the
/// grammar and for the limit of binary64.
fn by_std(text: &str) -> NumberClass {
    if let Ok(i) = text.parse::<i64>() {
        return NumberClass::Integer(i);
    }
    match text.parse::<f64>() {
        Ok(f) if f.is_finite() => NumberClass::Finite,
        Ok(_) => NumberClass::NonFinite,
        Err(_) => NumberClass::Malformed,
    }
}

const LIMIT: &str = "179769313486231580793728971405303415079934132710037826936173778980444968292764750946649017977587207096330286416692887910946555547851940402630657488671505820681908902000708383676273854845817711531764475730270069855571366959622842914819860834936475292719074168444365510704342711559699508093042880177904174497792";

const BELOW_LIMIT: &str = "179769313486231580793728971405303415079934132710037826936173778980444968292764750946649017977587207096330286416692887910946555547851940402630657488671505820681908902000708383676273854845817711531764475730270069855571366959622842914819860834936475292719074168444365510704342711559699508093042880177904174497791";

#[test]
fn integers_are_classified_with_their_value() {
    assert_eq!(classify_number("473"), NumberClass::Integer(473));
    assert_eq!(classify_number("0"), NumberClass::Integer(0));
    assert_eq!(classify_number("-0"), NumberClass::Integer(0));
    assert_eq!(classify_number("+5"), NumberClass::Integer(5));
    assert_eq!(classify_number("-17"), NumberClass::Integer(-17));
    assert_eq!(classify_number("007"), NumberClass::Integer(7));
    assert_eq!(
        classify_number("9223372036854775807"),
        NumberClass::Integer(i64::MAX)
    );
    assert_eq!(
        classify_number("-9223372036854775808"),
        NumberClass::Integer(i64::MIN)
    );
    assert_eq!(
        classify_number("000000000000000000000000000000000000012"),
        NumberClass::Integer(12)
    );
}

#[test]
fn integers_beyond_64_bits_are_decimal_numbers() {
    assert_eq!(classify_number("9223372036854775808"), NumberClass::Finite);
    assert_eq!(classify_number("-9223372036854775809"), NumberClass::Finite);
    assert_eq!(classify_number("18446744073709551615"), NumberClass::Finite);
}

#[test]
fn decimal_numbers_are_finite() {
    for text in [
        "3.14", "-3.14", "2.5E10", "2.5e10", "2.5E-10", "5.", ".5", "0.5", "+.5", "-5.", "1e0",
        "1E+3", "0.0", "-0.0", "0e999999999999999999999999999999", "1e-400", "00.1e2",
        "1.7976931348623157e308", "4.9e-324",
    ] {
        assert_eq!(classify_number(text), NumberClass::Finite, "{}", text);
    }
}

#[test]
fn names_of_infinities_and_nan_are_not_finite() {
    for text in [
        "inf", "-inf", "+inf", "Inf", "INF", "infinity", "-Infinity", "+INFINITY", "nan", "NaN",
        "-nan", "+NAN", "iNfInItY",
    ] {
        assert_eq!(classify_number(text), NumberClass::NonFinite, "{}", text);
    }
}

#[test]
fn magnitudes_beyond_binary64_are_not_finite() {
    for text in [
        "1e309", "1e999", "-1e309", "1.8e308", "0.1e310", "17977e304",
        "1e1000000000000000000000000000000000000", "0.000001e315",
    ] {
        assert_eq!(classify_number(text), NumberClass::NonFinite, "{}", text);
    }
}

#[test]
fn the_limit_of_binary64_is_exact() {
    assert_eq!(classify_number(LIMIT), NumberClass::NonFinite);
    assert_eq!(classify_number(BELOW_LIMIT), NumberClass::Finite);
    let negative = format!("-{}", LIMIT);
    assert_eq!(classify_number(&negative), NumberClass::NonFinite);
    let with_fraction = format!("{}.999999", BELOW_LIMIT);
    assert_eq!(classify_number(&with_fraction), NumberClass::Finite);
    let with_zero_fraction = format!("{}.000", LIMIT);
    assert_eq!(classify_number(&with_zero_fraction), NumberClass::NonFinite);
    let shifted = format!("0.{}e309", LIMIT);
    assert_eq!(classify_number(&shifted), NumberClass::NonFinite);
    let shifted_below = format!("0.{}e309", BELOW_LIMIT);
    assert_eq!(classify_number(&shifted_below), NumberClass::Finite);
    let scaled_down = format!("{}000e-3", LIMIT);
    assert_eq!(classify_number(&scaled_down), NumberClass::NonFinite);
    let with_leading_zeros = format!("000{}", BELOW_LIMIT);
    assert_eq!(classify_number(&with_leading_zeros), NumberClass::Finite);
}

#[test]
fn text_that_is_no_number_is_malformed() {
    for text in [
        "", "+", "-", ".", "+.", "e5", "1e", "1e+", "1e-", "1.2.3", "--1", "+-1", " 1", "1 ",
        "1_000", "0x10", "1,5", "abc", "1e5.5", "1f", "in", "infinit", "nane", "٣", "1٣", "½",
        "1e٣", "12a", "1.e", ".e1", "1ee1", "i", "infinityy",
    ] {
        assert_eq!(classify_number(text), NumberClass::Malformed, "{:?}", text);
    }
}

#[test]
fn classification_agrees_with_the_standard_library() {
    let mut texts: Vec<String> = Vec::new();
    for text in [
        "0", "1", "-1", "+1", "42", "473", "3.14", "-3.14", "1e10", "1E10", "1e-10", "5.", ".5",
        "", ".", "+", "-", "inf", "nan", "infinity", "-inf", "+NaN", "1e308", "1e309", "2e308",
        "1.79e308", "1.797693134862315e308", "1.7976931348623157e308", "1.7976931348623158e308",
        "1.7976931348623159e308", "1.797693134862315807e308", "1.797693134862315808e308",
        "9223372036854775807", "9223372036854775808", "-9223372036854775808",
        "-9223372036854775809", "1e", "e1", "1e+", "0.0000000001e320", "0.1e309", "0.1e310",
        "123456789012345678901234567890", "1e400", "-1e400", "1e-400", "0e400", "0.0e400",
        "000.000e5", "1.0", "100.0e306", "100.0e307", "179.76931348623157e306",
        "179.76931348623159e306", " 1", "1 ", "1_0", "+.5e-3", "-.e3", "1.e3", "NaN1", "in f",
    ] {
        texts.push(text.to_string());
    }
    texts.push(LIMIT.to_string());
    texts.push(BELOW_LIMIT.to_string());
    texts.push(format!("{}0", BELOW_LIMIT));
    texts.push(format!("{}e-1", LIMIT));
    texts.push(format!("{}e1", BELOW_LIMIT));
    texts.push(format!("{}.5", BELOW_LIMIT));
    texts.push(format!("1{}", "0".repeat(308)));
    texts.push(format!("1{}", "0".repeat(309)));
    texts.push(format!("0.{}1e400", "0".repeat(95)));
    texts.push(format!("{}e-400", "9".repeat(400)));
    texts.push(format!("{}e-91", "9".repeat(400)));
    texts.push(format!("{}e-92", "9".repeat(400)));
    for text in &texts {
        assert_eq!(classify_number(text), by_std(text), "{:?}", text);
    }
}

#[test]
fn integers_are_written_as_the_standard_library_writes_them() {
    for i in [
        0i64, 1, -1, 9, 10, 11, 99, 100, 420, 473, -473, 1234567890, i64::MAX, i64::MIN,
        i64::MIN + 1, i64::MAX - 1,
    ] {
        assert_eq!(format_integer(i), i.to_string());
    }
    assert_eq!(format_integer(473), "473");
    assert_eq!(format_integer(-9223372036854775808), "-9223372036854775808");
}

#[test]
fn written_integers_are_read_back() {
    for i in [0i64, 7, -7, 473, 1000000, i64::MAX, i64::MIN] {
        assert_eq!(
            classify_number(&format_integer(i)),
            NumberClass::Integer(i)
        );
    }
}

/// A small generator of numbers that look random and are the same on every
/// run.
struct Sequence(u64);

impl Sequence {
    fn next(&mut self) -> u64 {
        self.0 = self
            .0
            .wrapping_mul(6364136223846793005)
            .wrapping_add(1442695040888963407);
        self.0 >> 33
    }

    fn below(&mut self, bound: u64) -> u64 {
        self.next() % bound
    }
}

#[test]
fn classification_agrees_with_the_standard_library_on_many_texts() {
    let alphabet: Vec<char> = "0123456789+-.eE".chars().collect();
    let mut sequence = Sequence(1);
    for _ in 0..200_000 {
        let length = sequence.below(9);
        let text: String = (0..length)
            .map(|_| alphabet[sequence.below(alphabet.len() as u64) as usize])
            .collect();
        assert_eq!(classify_number(&text), by_std(&text), "{:?}", text);
    }
}

#[test]
fn classification_agrees_with_the_standard_library_on_names() {
    let alphabet: Vec<char> = "infatyINFATY+-1. ".chars().collect();
    let mut sequence = Sequence(2);
    for _ in 0..100_000 {
        let length = sequence.below(10);
        let text: String = (0..length)
            .map(|_| alphabet[sequence.below(alphabet.len() as u64) as usize])
            .collect();
        assert_eq!(classify_number(&text), by_std(&text), "{:?}", text);
    }
    for name in ["inf", "infinity", "nan"] {
        for mask in 0..(1u32 << name.len()) {
            let mixed: String = name
                .chars()
                .enumerate()
                .map(|(i, c)| {
                    if mask & (1 << i) != 0 {
                        c.to_ascii_uppercase()
                    } else {
                        c
                    }
                })
                .collect();
            for sign in ["", "+", "-"] {
                let text = format!("{}{}", sign, mixed);
                assert_eq!(classify_number(&text), NumberClass::NonFinite, "{}", text);
                assert_eq!(classify_number(&text), by_std(&text), "{}", text);
            }
        }
    }
}

#[test]
fn classification_agrees_with_the_standard_library_near_the_limit() {
    let mut sequence = Sequence(3);
    let limit: Vec<char> = LIMIT.chars().collect();
    for _ in 0..20_000 {
        let mut digits = limit.clone();
        let changes = sequence.below(3);
        for _ in 0..changes {
            let at = sequence.below(digits.len() as u64) as usize;
            digits[at] = char::from(b'0' + sequence.below(10) as u8);
        }
        let extra = sequence.below(4) as usize;
        for _ in 0..extra {
            digits.push(char::from(b'0' + sequence.below(10) as u8));
        }
        let point = sequence.below(digits.len() as u64 + 1) as usize;
        let mut text: String = digits[..point].iter().collect();
        if sequence.below(4) != 0 {
            text.push('.');
        }
        text.extend(digits[point..].iter());
        let shift = (digits.len() - point) as i64 - extra as i64 + sequence.below(3) as i64 - 1;
        if sequence.below(2) == 0 || shift != 0 {
            text.push_str(&format!("e{}", shift));
        }
        if sequence.below(5) == 0 {
            text.insert(0, '-');
        }
        if sequence.below(5) == 0 {
            text.insert_str(if text.starts_with('-') { 1 } else { 0 }, "000");
        }
        assert_eq!(classify_number(&text), by_std(&text), "{:?}", text);
    }
}

#[test]
fn exponents_of_any_length_are_read() {
    for text in [
        "1e00000000000000000000000000000000000000001",
        "1e-0000000000000000000000000000000000000309",
        "1e+0000000000000000000000000000000000000308",
        "1e+0000000000000000000000000000000000000309",
        "1e999999999999999999999999",
        "1e1000000000000000000000000",
        "1e-1000000000000000000000000",
        "0e1000000000000000000000000",
        "0.0e-1000000000000000000000000",
        "1e18446744073709551616",
        "1e-18446744073709551616",
        "1e340282366920938463463374607431768211456",
        "1e-340282366920938463463374607431768211456",
    ] {
        assert_eq!(classify_number(text), by_std(text), "{}", text);
    }
    let long_fraction = format!("0.{}1e400", "0".repeat(400));
    assert_eq!(classify_number(&long_fraction), NumberClass::Finite);
    assert_eq!(classify_number(&long_fraction), by_std(&long_fraction));
    let long_whole = format!("1{}e-400", "0".repeat(800));
    assert_eq!(classify_number(&long_whole), NumberClass::NonFinite);
    assert_eq!(classify_number(&long_whole), by_std(&long_whole));
    let just_fits = format!("1{}e-400", "0".repeat(708));
    assert_eq!(classify_number(&just_fits), NumberClass::Finite);
    assert_eq!(classify_number(&just_fits), by_std(&just_fits));
}
