use trc_calc::number::parse_decimal;
use trc_calc::number::Decimal;
use trc_calc::config::parse_device_spec;

#[test]
fn decimal_literals() {
    assert_eq!(parse_decimal(b"5e-9"), Some(Decimal::new(5, -9)));
    assert_eq!(parse_decimal(b"10.0"), Some(Decimal::new(100, -1)));
    assert_eq!(parse_decimal(b"1.0e4"), Some(Decimal::new(10, 3)));
    assert_eq!(parse_decimal(b"50.0"), Some(Decimal::new(500, -1)));
    assert_eq!(parse_decimal(b"0"), Some(Decimal::new(0, 0)));
    assert_eq!(parse_decimal(b"1e+3"), Some(Decimal::new(1, 3)));
    assert_eq!(parse_decimal(b"007"), Some(Decimal::new(7, 0)));
    assert_eq!(parse_decimal(b"3.14159265"), Some(Decimal::new(314159265, -8)));
}

#[test]
fn decimal_rejects_malformed() {
    assert_eq!(parse_decimal(b""), None);
    assert_eq!(parse_decimal(b"abc"), None);
    assert_eq!(parse_decimal(b"1."), None);
    assert_eq!(parse_decimal(b".5"), None);
    assert_eq!(parse_decimal(b"1e"), None);
    assert_eq!(parse_decimal(b"1e-"), None);
    assert_eq!(parse_decimal(b"1 2"), None);
    assert_eq!(parse_decimal(b"12x"), None);
    assert_eq!(parse_decimal(b"1.2.3"), None);
    assert_eq!(parse_decimal(b"-1"), None);
}

#[test]
fn decimal_rejects_out_of_range() {
    // one more than u64::MAX
    assert_eq!(parse_decimal(b"18446744073709551616"), None);
    // still fits
    assert_eq!(
        parse_decimal(b"18446744073709551615"),
        Some(Decimal::new(18446744073709551615, 0))
    );
    // exponent far outside i32
    assert_eq!(parse_decimal(b"1e99999999999"), None);
    assert_eq!(parse_decimal(b"1e-99999999999"), None);
}

fn demo_config() -> &'static [u8] {
    b"loop_delay = 5e-9\n\
max_pole_zero_ratio = 10.0\n\
offset_resistance = 50.0\n\
\n\
[ranges]\n\
\"10k\"  = 1.0e4\n\
\"100k\" = 1.0e5\n\
\"1M\"   = 1.0e6\n"
}

#[test]
fn config_parses_demo_device() {
    let dev = parse_device_spec(demo_config()).unwrap();
    assert_eq!(dev.loop_delay, Decimal::new(5, -9));
    assert_eq!(dev.max_pole_zero_ratio, Decimal::new(100, -1));
    assert_eq!(dev.offset_resistance, Decimal::new(500, -1));
    assert_eq!(dev.ranges.len(), 3);
    assert_eq!(dev.ranges[0].0, "10k".as_bytes().to_vec());
    assert_eq!(dev.ranges[0].1, Decimal::new(10, 3));
    assert_eq!(dev.ranges[1].0, "100k".as_bytes().to_vec());
    assert_eq!(dev.ranges[2].0, "1M".as_bytes().to_vec());
}

#[test]
fn config_parsed_device_solves() {
    let dev = parse_device_spec(demo_config()).unwrap();
    let trc = dev
        .calculate("10k", Decimal::new(1, -9), Decimal::new(1, 6))
        .unwrap();
    assert_eq!(trc.compensation_freq_uhz, 125811120007u128);
    assert_eq!(trc.pole_zero_ratio_ppm, 10000000u128);
}

#[test]
fn config_allows_bare_range_names() {
    let text = b"loop_delay = 0\nmax_pole_zero_ratio = 10.0\noffset_resistance = 0\n[ranges]\n10k = 1.0e4\n";
    let dev = parse_device_spec(text).unwrap();
    assert_eq!(dev.ranges[0].0, "10k".as_bytes().to_vec());
}

#[test]
fn config_rejects_missing_field() {
    let text = b"loop_delay = 5e-9\noffset_resistance = 50.0\n[ranges]\n\"10k\" = 1.0e4\n";
    assert!(parse_device_spec(text).is_none());
}

#[test]
fn config_rejects_duplicate_field() {
    let text = b"loop_delay = 5e-9\nloop_delay = 5e-9\nmax_pole_zero_ratio = 10.0\noffset_resistance = 50.0\n";
    assert!(parse_device_spec(text).is_none());
}

#[test]
fn config_rejects_unknown_key() {
    let text = b"loop_delay = 5e-9\nmax_pole_zero_ratio = 10.0\noffset_resistance = 50.0\nwidget = 1\n";
    assert!(parse_device_spec(text).is_none());
}

#[test]
fn config_rejects_bad_number() {
    let text = b"loop_delay = oops\nmax_pole_zero_ratio = 10.0\noffset_resistance = 50.0\n";
    assert!(parse_device_spec(text).is_none());
}

#[test]
fn config_rejects_ratio_not_above_one() {
    let text = b"loop_delay = 5e-9\nmax_pole_zero_ratio = 1.0\noffset_resistance = 50.0\n[ranges]\n\"10k\" = 1.0e4\n";
    assert!(parse_device_spec(text).is_none());
    let text2 = b"loop_delay = 5e-9\nmax_pole_zero_ratio = 0.5\noffset_resistance = 50.0\n[ranges]\n\"10k\" = 1.0e4\n";
    assert!(parse_device_spec(text2).is_none());
}

#[test]
fn config_rejects_duplicate_range() {
    let text = b"loop_delay = 5e-9\nmax_pole_zero_ratio = 10.0\noffset_resistance = 50.0\n[ranges]\n\"10k\" = 1.0e4\n\"10k\" = 1.0e5\n";
    assert!(parse_device_spec(text).is_none());
}

#[test]
fn config_rejects_second_section() {
    let text = b"loop_delay = 5e-9\nmax_pole_zero_ratio = 10.0\noffset_resistance = 50.0\n[ranges]\n\"10k\" = 1.0e4\n[ranges]\n";
    assert!(parse_device_spec(text).is_none());
}
