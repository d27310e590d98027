use trc_calc::device::DeviceSpecification;
use trc_calc::device::Error;
use trc_calc::number::Decimal;

fn demo_device() -> DeviceSpecification {
    DeviceSpecification {
        loop_delay: Decimal::new(5, -9),
        max_pole_zero_ratio: Decimal::new(100, -1),
        offset_resistance: Decimal::new(50, 0),
        ranges: vec![("10k".as_bytes().to_vec(), Decimal::new(10, 3))],
    }
}

// C = 1e-12 F, GBW = 1e6 Hz: the 4*GBW ceiling binds and the design's
// degenerate regime (pole below zero, ratio under one) appears.
#[test]
fn regression_small_capacitance() {
    let dev = demo_device();
    let trc = dev
        .calculate("10k", Decimal::new(1, -12), Decimal::new(1, 6))
        .unwrap();
    assert_eq!(trc.gain_bandwidth, Decimal::new(1, 6));
    assert_eq!(trc.compensation_freq_uhz, 6503869398225u128);
    assert_eq!(trc.pole_zero_ratio_ppm, 378247u128);
    assert!(trc.pole_zero_ratio_ppm < 1000000);
}

// C = 1e-9 F, GBW = 1e6 Hz: unclamped; the ratio is the device maximum.
#[test]
fn regression_mid_capacitance() {
    let dev = demo_device();
    let trc = dev
        .calculate("10k", Decimal::new(1, -9), Decimal::new(1, 6))
        .unwrap();
    assert_eq!(trc.compensation_freq_uhz, 125811120007u128);
    assert_eq!(trc.pole_zero_ratio_ppm, 10000000u128);
    // close to the figures computed from the design formulas
    let comp_hz = trc.compensation_freq_uhz as f64 / 1e6;
    assert!((comp_hz - 1.261e5).abs() / 1.261e5 < 0.01);
}

// C = 1e-6 F, GBW = 1e3 Hz.
#[test]
fn regression_large_capacitance() {
    let dev = demo_device();
    let trc = dev
        .calculate("10k", Decimal::new(1, -6), Decimal::new(1, 3))
        .unwrap();
    assert_eq!(trc.compensation_freq_uhz, 125842374u128);
    assert_eq!(trc.pole_zero_ratio_ppm, 10000000u128);
    let comp_hz = trc.compensation_freq_uhz as f64 / 1e6;
    assert!((comp_hz - 126.1).abs() / 126.1 < 0.01);
}

// The gain-bandwidth input is echoed exactly.
#[test]
fn gain_bandwidth_echoed() {
    let dev = demo_device();
    let gbw = Decimal::new(123456, 1);
    let trc = dev.calculate("10k", Decimal::new(1, -9), gbw).unwrap();
    assert_eq!(trc.gain_bandwidth, gbw);
}

// Identical inputs yield identical outputs.
#[test]
fn deterministic() {
    let dev = demo_device();
    let a = dev
        .calculate("10k", Decimal::new(7, -10), Decimal::new(2, 6))
        .unwrap();
    let b = dev
        .calculate("10k", Decimal::new(7, -10), Decimal::new(2, 6))
        .unwrap();
    assert_eq!(a, b);
}

// A range name absent from the device gives NoSuchRange.
#[test]
fn unknown_range() {
    let dev = demo_device();
    let r = dev.calculate("does_not_exist", Decimal::new(1, -12), Decimal::new(1, 6));
    assert_eq!(r, Err(Error::NoSuchRange));
    // the device is untouched: a valid query still succeeds
    assert!(dev
        .calculate("10k", Decimal::new(1, -12), Decimal::new(1, 6))
        .is_ok());
}

// Doubling the capacitance lowers the natural pole and does not raise
// the compensation frequency.
#[test]
fn doubling_capacitance() {
    let dev = demo_device();
    let f1 = dev.natural_pole("10k", Decimal::new(1, -12)).unwrap();
    let f2 = dev.natural_pole("10k", Decimal::new(2, -12)).unwrap();
    assert_eq!(f1, 10575079287292u128);
    assert_eq!(f2, 6340834393376u128);
    assert!(f2 < f1);
    let c1 = dev
        .calculate("10k", Decimal::new(1, -12), Decimal::new(1, 6))
        .unwrap();
    let c2 = dev
        .calculate("10k", Decimal::new(2, -12), Decimal::new(1, 6))
        .unwrap();
    assert!(c2.compensation_freq_uhz <= c1.compensation_freq_uhz);
}

// With no loop delay and no offset resistance the natural pole is
// 1 / (2 pi R C).
#[test]
fn pure_rc_pole() {
    let dev = DeviceSpecification {
        loop_delay: Decimal::new(0, 0),
        max_pole_zero_ratio: Decimal::new(10, 0),
        offset_resistance: Decimal::new(0, 0),
        ranges: vec![("10k".as_bytes().to_vec(), Decimal::new(10, 3))],
    };
    let f = dev.natural_pole("10k", Decimal::new(1, -12)).unwrap();
    assert_eq!(f, 15915494327375u128);
    let f_hz = f as f64 / 1e6;
    let expected = 1.0 / (2.0 * 3.14159265 * 1e4 * 1e-12);
    assert!((f_hz - expected).abs() / expected < 1e-7);
}

// The compensation frequency squares to the product of the placed pole
// and zero (values from the unclamped run of regression_mid_capacitance).
#[test]
fn geometric_mean_squares() {
    let dev = demo_device();
    let trc = dev
        .calculate("10k", Decimal::new(1, -9), Decimal::new(1, 6))
        .unwrap();
    let fp: u128 = 397849694200;
    let fz: u128 = 39784969420;
    let c = trc.compensation_freq_uhz;
    assert!(c * c <= fp * fz);
    assert!(fp * fz < (c + 1) * (c + 1));
}

// In an unclamped run the compensation frequency dominates the natural
// pole.
#[test]
fn comp_freq_dominates_natural_pole() {
    let dev = demo_device();
    let fcap = dev.natural_pole("10k", Decimal::new(1, -9)).unwrap();
    let trc = dev
        .calculate("10k", Decimal::new(1, -9), Decimal::new(1, 6))
        .unwrap();
    assert!(trc.compensation_freq_uhz >= fcap);
}

// The effective resistance adds the offset to the range's base value.
#[test]
fn effective_resistance_includes_offset() {
    let dev = demo_device();
    // 10_000 ohm + 50 ohm, in micro-ohms
    assert_eq!(dev.calculateResistance("10k"), Ok(10050000000u128));
    assert_eq!(
        dev.calculateResistance("missing"),
        Err(Error::NoSuchRange)
    );
}

// A huge capacitance pushes the natural pole toward zero; the solver
// still returns a valid, degenerate placement.
#[test]
fn degenerate_large_capacitance() {
    let dev = demo_device();
    let trc = dev
        .calculate("10k", Decimal::new(1, 0), Decimal::new(1, 6))
        .unwrap();
    assert_eq!(dev.natural_pole("10k", Decimal::new(1, 0)), Ok(15u128));
    assert_eq!(trc.compensation_freq_uhz, 3872980u128);
    assert_eq!(trc.pole_zero_ratio_ppm, 10000000u128);
}

// A fractional maximum ratio is honoured exactly (to the floor ppm).
#[test]
fn fractional_max_ratio() {
    let dev = DeviceSpecification {
        loop_delay: Decimal::new(5, -9),
        max_pole_zero_ratio: Decimal::new(25, -1),
        offset_resistance: Decimal::new(50, 0),
        ranges: vec![("10k".as_bytes().to_vec(), Decimal::new(10, 3))],
    };
    let trc = dev
        .calculate("10k", Decimal::new(1, -9), Decimal::new(1, 6))
        .unwrap();
    assert_eq!(trc.compensation_freq_uhz, 125811120008u128);
    assert_eq!(trc.pole_zero_ratio_ppm, 2499999u128);
}

// Range names are enumerated in order.
#[test]
fn range_name_listing() {
    let dev = demo_device();
    let names = dev.range_names();
    assert_eq!(names, vec!["10k".as_bytes().to_vec()]);
}
