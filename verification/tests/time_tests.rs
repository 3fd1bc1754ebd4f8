use time_display::time::{ParseError, Time};

#[test]
fn t00_03_21() {
    let t = Time::parse("3.21").unwrap();
    assert_eq!(t.render(), "  : 3.21");
}

#[test]
fn t00_43_21() {
    let t = Time::parse("43.21").unwrap();
    assert_eq!(t.render(), "  :43.21");
}

#[test]
fn t05_43_21() {
    let t = Time::parse("5:43.21").unwrap();
    assert_eq!(t.render(), " 5:43.21");
}

#[test]
fn t65_43_21() {
    let t = Time::parse("65:43.21").unwrap();
    assert_eq!(t.render(), "65:43.21");
}

#[test]
fn at_60s() {
    let t = Time::from_micros((60.0_f64 * 1_000_000.0) as u64);
    assert_eq!(t.render(), " 1:00.00");
}

#[test]
fn parse_ticks_exact() {
    assert_eq!(Time::parse("3.21").unwrap().ticks(), 3_210_000);
    assert_eq!(Time::parse("5:43.21").unwrap().ticks(), 5 * 60_000_000 + 43_210_000);
    assert_eq!(Time::parse("0").unwrap().ticks(), 0);
    assert_eq!(Time::parse(".5").unwrap().ticks(), 500_000);
    assert_eq!(Time::parse("5.").unwrap().ticks(), 5_000_000);
}

#[test]
fn parse_does_not_normalize_seconds() {
    // 1 minute plus 75 seconds: the fields are independent.
    let t = Time::parse("1:75.0").unwrap();
    assert_eq!(t.ticks(), 60_000_000 + 75_000_000);
}

#[test]
fn parse_truncates_beyond_microseconds() {
    // The seventh fractional digit is dropped, not rounded.
    assert_eq!(Time::parse("0.0000019").unwrap().ticks(), 1);
}

#[test]
fn parse_too_many_parts() {
    match Time::parse("1:2:3") {
        Err(ParseError::TooManyParts(t)) => assert_eq!(t, "1:2:3"),
        _ => panic!("expected a too-many-parts error"),
    }
}

#[test]
fn parse_invalid_minutes() {
    match Time::parse("a:1") {
        Err(ParseError::InvalidMinutes(t)) => assert_eq!(t, "a"),
        _ => panic!("expected an invalid-minutes error"),
    }
    // Twenty-one digits never fit a 64-bit minute count.
    match Time::parse("999999999999999999999:1") {
        Err(ParseError::InvalidMinutes(t)) => assert_eq!(t, "999999999999999999999"),
        _ => panic!("expected an invalid-minutes error"),
    }
}

#[test]
fn parse_invalid_seconds() {
    match Time::parse("1:b") {
        Err(ParseError::InvalidSeconds(t)) => assert_eq!(t, "b"),
        _ => panic!("expected an invalid-seconds error"),
    }
    match Time::parse("") {
        Err(ParseError::InvalidSeconds(t)) => assert_eq!(t, ""),
        _ => panic!("expected an invalid-seconds error"),
    }
    match Time::parse("1:2.3.4") {
        Err(ParseError::InvalidSeconds(t)) => assert_eq!(t, "2.3.4"),
        _ => panic!("expected an invalid-seconds error"),
    }
}

#[test]
fn render_carry_correction_boundary() {
    // 59.995 s rounds to a full minute and carries.
    assert_eq!(Time::from_micros(59_995_000).render(), " 1:00.00");
    // Just below the boundary it stays in the seconds field.
    assert_eq!(Time::from_micros(59_994_999).render(), "  :59.99");
}

#[test]
fn render_shape_at_least_eight_chars() {
    for &ticks in &[0u64, 1, 3_210_000, 59_995_000, 100 * 60_000_000, u64::MAX] {
        let r = Time::from_micros(ticks).render();
        assert!(r.len() >= 8);
        let cs: Vec<char> = r.chars().collect();
        let n = cs.len();
        assert_eq!(cs[n - 6], ':');
        assert_eq!(cs[n - 3], '.');
        assert!(cs[n - 4].is_ascii_digit());
        assert!(cs[n - 2].is_ascii_digit());
        assert!(cs[n - 1].is_ascii_digit());
        assert!(cs[n - 5].is_ascii_digit() || cs[n - 5] == ' ');
        for &c in &cs[..n - 6] {
            assert!(c == ' ' || c.is_ascii_digit());
        }
    }
}

#[test]
fn render_minutes_grow_past_one_hundred() {
    let t = Time::from_micros(100 * 60_000_000);
    assert_eq!(t.render(), "100:00.00");
}

#[test]
fn add_is_associative_and_commutative() {
    let a = Time::from_micros(1_500_000);
    let b = Time::from_micros(2_250_000);
    let c = Time::from_micros(777);
    assert_eq!(a.add(b).add(c), a.add(b.add(c)));
    assert_eq!(a.add(b), b.add(a));
    // The same holds at the saturation boundary.
    let big = Time::from_micros(u64::MAX - 1);
    assert_eq!(big.add(a).add(b), big.add(a.add(b)));
    assert_eq!(big.add(a), a.add(big));
    assert_eq!(big.add(a).ticks(), u64::MAX);
}

#[test]
fn add_assign_matches_add() {
    let mut t = Time::from_micros(10);
    t.add_assign(Time::from_micros(32));
    assert_eq!(t.ticks(), 42);
}

#[test]
fn minute_and_second_ticks() {
    let t = Time::parse("65:43.21").unwrap();
    assert_eq!(t.minute(), 65);
    assert_eq!(t.second_ticks(), 43_210_000);
    assert_eq!(Time::zero().minute(), 0);
    assert!(Time::zero().lt(&t));
}
