use ap_scanner::wifi::{parse_unsigned, Frequency, ParseError, Width, Wifi};

#[test]
fn frequency_bands() {
    assert_eq!(Frequency::from_mhz(2412), Frequency::Freq2400MHz(2412));
    assert_eq!(Frequency::from_mhz(2499), Frequency::Freq2400MHz(2499));
    assert_eq!(Frequency::from_mhz(2500), Frequency::Freq5000MHz(2500));
    assert_eq!(Frequency::from_mhz(5180), Frequency::Freq5000MHz(5180));
}

#[test]
fn frequency_from_text() {
    assert_eq!(Frequency::from_str("2437"), Ok(Frequency::Freq2400MHz(2437)));
    assert_eq!(Frequency::from_str("5745"), Ok(Frequency::Freq5000MHz(5745)));
    assert_eq!(Frequency::from_str("+2412"), Ok(Frequency::Freq2400MHz(2412)));
    assert_eq!(Frequency::from_str("65535"), Ok(Frequency::Freq5000MHz(65535)));
    assert_eq!(Frequency::from_str("65536"), Err(ParseError::NotANumber));
    assert_eq!(Frequency::from_str(""), Err(ParseError::NotANumber));
    assert_eq!(Frequency::from_str("+"), Err(ParseError::NotANumber));
    assert_eq!(Frequency::from_str("24x7"), Err(ParseError::NotANumber));
    assert_eq!(Frequency::from_str("-5"), Err(ParseError::NotANumber));
}

#[test]
fn width_from_text() {
    assert_eq!(Width::from_str("20 MHz"), Ok(Width::MHz20));
    assert_eq!(Width::from_str("40"), Ok(Width::MHz40));
    assert_eq!(Width::from_str("80 MHz, center"), Ok(Width::MHz80));
    assert_eq!(Width::from_str("160 MHz"), Ok(Width::MHz160));
    assert_eq!(Width::from_str("30 MHz"), Err(ParseError::UnknownWidth));
    assert_eq!(Width::from_str("320 MHz"), Err(ParseError::UnknownWidth));
    assert_eq!(Width::from_str(" 20"), Err(ParseError::UnknownWidth));
    assert_eq!(Width::from_str("any"), Err(ParseError::UnknownWidth));
}

#[test]
fn unsigned_numbers() {
    assert_eq!(parse_unsigned("007", 255), Some(7));
    assert_eq!(parse_unsigned("255", 255), Some(255));
    assert_eq!(parse_unsigned("256", 255), None);
    assert_eq!(parse_unsigned("0000000000256", 255), None);
    assert_eq!(parse_unsigned("12 ", 255), None);
}

#[test]
fn band_of_an_observation() {
    let w = Wifi {
        ssid: "n".to_string(),
        mac: "m".to_string(),
        channel: 36,
        signal_mdbm: -61000,
        frequency: Frequency::Freq5000MHz(5180),
        width: Width::MHz80,
    };
    assert!(w.is_5g());
    assert!(!w.is_2_4g());
    let c = w.clone();
    assert_eq!(c.mac, "m");
    assert_eq!(c.width, Width::MHz80);
}
