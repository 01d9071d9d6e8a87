use kraken_exporter::decimal::accepts;

/// What the standard library makes of the text: a finite number that is not
/// below zero.
fn shown_by_std(text: &str) -> bool {
    match text.parse::<f64>() {
        Ok(x) => x.is_finite() && x >= 0.0,
        Err(_) => false,
    }
}

#[test]
fn accepts_plain_decimals() {
    for text in ["30000.1", "1.0", "2.0", "29500", "29400", "0", "0.00000001", "5.", ".5", "+7"] {
        assert!(accepts(text), "{}", text);
        assert!(shown_by_std(text), "{}", text);
    }
}

#[test]
fn accepts_exponents() {
    for text in ["1e5", "1E5", "1e+5", "1e-5", "12.5e3", ".5e1", "5.e1", "0e999999999999999999999"] {
        assert!(accepts(text), "{}", text);
        assert!(shown_by_std(text), "{}", text);
    }
}

#[test]
fn refuses_what_is_no_number() {
    for text in [
        "", "NaNish", "nan", "inf", "infinity", "+", "-", ".", "e5", "1e", "1e+", "1.2.3", " 1",
        "1 ", "1,5", "0x10", "1e5.0", "--1", "1_000",
    ] {
        assert!(!accepts(text), "{}", text);
        assert!(!shown_by_std(text), "{}", text);
    }
}

#[test]
fn refuses_negative_numbers_but_takes_minus_zero() {
    for text in ["-1", "-0.5", "-1e5", "-30000.1"] {
        assert!(!accepts(text), "{}", text);
        assert!(!shown_by_std(text), "{}", text);
    }
    for text in ["-0", "-0.0", "-0e5", "-.0"] {
        assert!(accepts(text), "{}", text);
        assert!(shown_by_std(text), "{}", text);
    }
}

#[test]
fn decides_by_the_magnitude_at_the_limit() {
    let limit = "179769313486231580793728971405303415079934132710037826936173778980444968292764750946649017977587207096330286416692887910946555547851940402630657488671505820681908902000708383676273854845817711531764475730270069855571366959622842914819860834936475292719074168444365510704342711559699508093042880177904174497792";
    let below = "179769313486231580793728971405303415079934132710037826936173778980444968292764750946649017977587207096330286416692887910946555547851940402630657488671505820681908902000708383676273854845817711531764475730270069855571366959622842914819860834936475292719074168444365510704342711559699508093042880177904174497791";
    assert!(!accepts(limit));
    assert!(!shown_by_std(limit));
    assert!(accepts(below));
    assert!(shown_by_std(below));
    let below_with_fraction = format!("{}.99999", below);
    assert!(accepts(&below_with_fraction));
    assert!(shown_by_std(&below_with_fraction));
    let limit_with_fraction = format!("{}.00000", limit);
    assert!(!accepts(&limit_with_fraction));
    assert!(!shown_by_std(&limit_with_fraction));
}

#[test]
fn agrees_with_the_standard_library_near_the_limit() {
    for text in [
        "1.7976931348623157e308",
        "1.7976931348623158e308",
        "1.7976931348623159e308",
        "1.797693134862315807e308",
        "1.797693134862315808e308",
        "17976931348623157e292",
        "17976931348623159e292",
        "0.17976931348623158e309",
        "0.17976931348623159e309",
        "179769313486231580793e288",
        "179769313486231580794e288",
        "1e308",
        "1e309",
        "9.99e308",
        "0.0001e313",
        "0.0001e312",
        "00001e308",
        "00002e308",
        "1e400",
        "1e-400",
        "123456789012345678901234567890",
        "1797693134862315700000000000000000000000000000000000000000000000000000000000000000000000000000000000000000000000000000000000000000000000000000000000000000000000000000000000000000000000000000000000000000000000000000000000000000000000000000000000000000000000000000000000000000000000000000000000000000000000000000000000000000000000000000000000000000000000.0e-42",
    ] {
        assert_eq!(accepts(text), shown_by_std(text), "{}", text);
    }
}

#[test]
fn takes_any_length_of_exponent() {
    assert!(!accepts("1e99999999999999999999999999999999999999999999"));
    assert!(accepts("1e-99999999999999999999999999999999999999999999"));
    assert!(accepts("1e0000000000000000000000000000000000000000000005"));
    assert!(!accepts("1e0000000000000000000000000000000000000000000309"));
}

/// A small generator of numbers that repeats itself from run to run.
struct Dice(u64);

impl Dice {
    fn roll(&mut self, sides: u64) -> u64 {
        self.0 = self.0.wrapping_mul(6364136223846793005).wrapping_add(1442695040888963407);
        (self.0 >> 33) % sides
    }

    fn digits(&mut self, most: u64) -> String {
        let n = self.roll(most + 1);
        (0..n).map(|_| char::from(b'0' + self.roll(10) as u8)).collect()
    }
}

/// What the standard library makes of the text, but with a number below zero
/// refused even where it is so small that it is rounded to zero.
fn shown_exactly(text: &str) -> bool {
    let mantissa = text.split(|c| c == 'e' || c == 'E').next().unwrap_or("");
    let below_zero = text.starts_with('-') && mantissa.chars().any(|c| ('1'..='9').contains(&c));
    match text.parse::<f64>() {
        Ok(x) => x.is_finite() && !below_zero,
        Err(_) => false,
    }
}

#[test]
fn agrees_with_the_standard_library_on_many_numbers() {
    let mut dice = Dice(20240229);
    for _ in 0..20000 {
        let mut text = String::new();
        match dice.roll(6) {
            0 => text.push('+'),
            1 => text.push('-'),
            _ => {}
        }
        text.push_str(&dice.digits(6));
        if dice.roll(2) == 0 {
            text.push('.');
            text.push_str(&dice.digits(6));
        }
        if dice.roll(2) == 0 {
            text.push(if dice.roll(2) == 0 { 'e' } else { 'E' });
            match dice.roll(4) {
                0 => text.push('+'),
                1 => text.push('-'),
                _ => {}
            }
            let exponent = match dice.roll(4) {
                0 => dice.digits(3),
                1 => format!("{}", 290 + dice.roll(30)),
                2 => format!("{}", 300 + dice.roll(12)),
                _ => format!("{}", dice.roll(400)),
            };
            text.push_str(&exponent);
        }
        assert_eq!(accepts(&text), shown_exactly(&text), "{}", text);
    }
}

#[test]
fn agrees_with_the_standard_library_at_the_edge_of_the_limit() {
    let limit = "179769313486231580793728971405303415079934132710037826936173778980444968292764750946649017977587207096330286416692887910946555547851940402630657488671505820681908902000708383676273854845817711531764475730270069855571366959622842914819860834936475292719074168444365510704342711559699508093042880177904174497792";
    let mut dice = Dice(7);
    for _ in 0..3000 {
        // The digits of the limit up to some place, then other digits; the
        // point anywhere among them, and the exponent such that between 307 and
        // 311 digits stand before the point of the number.
        let keep = dice.roll(limit.len() as u64 + 1) as usize;
        let mut digits = String::from(&limit[..keep]);
        digits.push_str(&dice.digits(40));
        if digits.is_empty() {
            digits.push('1');
        }
        let zeros = "0".repeat(dice.roll(3) as usize);
        let point = dice.roll(digits.len() as u64 + 1) as usize;
        let exponent = 307 + dice.roll(5) as i64 - point as i64;
        let text = format!("{}{}.{}e{}", zeros, &digits[..point], &digits[point..], exponent);
        assert_eq!(accepts(&text), shown_exactly(&text), "{}", text);
    }
}

#[test]
fn agrees_with_the_standard_library_on_what_is_no_number() {
    let letters = ['0', '1', '9', '.', 'e', 'E', '+', '-', ' ', 'x', 'n', 'a', 'i', 'f', '_', ','];
    let mut dice = Dice(99);
    for _ in 0..20000 {
        let n = dice.roll(7);
        let text: String = (0..n).map(|_| letters[dice.roll(16) as usize]).collect();
        assert_eq!(accepts(&text), shown_exactly(&text), "{:?}", text);
    }
}
