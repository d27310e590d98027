use trc_calc::catalog::device_names;
use trc_calc::catalog::load_device;
use trc_calc::number::Decimal;

#[test]
fn names_are_toml_stems_in_order() {
    let files: Vec<Vec<u8>> = vec![
        "alpha.toml".as_bytes().to_vec(),
        "readme.txt".as_bytes().to_vec(),
        "beta.toml".as_bytes().to_vec(),
        "toml".as_bytes().to_vec(),
    ];
    let names = device_names(&files);
    assert_eq!(
        names,
        vec!["alpha".as_bytes().to_vec(), "beta".as_bytes().to_vec()]
    );
}

#[test]
fn load_finds_and_parses() {
    let config = b"loop_delay = 5e-9\nmax_pole_zero_ratio = 10.0\noffset_resistance = 50.0\n[ranges]\n\"10k\" = 1.0e4\n";
    let files: Vec<(Vec<u8>, Vec<u8>)> = vec![
        ("other.txt".as_bytes().to_vec(), b"junk".to_vec()),
        ("demo.toml".as_bytes().to_vec(), config.to_vec()),
    ];
    let dev = load_device(&files, "demo".as_bytes()).unwrap();
    assert_eq!(dev.loop_delay, Decimal::new(5, -9));
    let trc = dev
        .calculate("10k", Decimal::new(1, -9), Decimal::new(1, 6))
        .unwrap();
    assert_eq!(trc.pole_zero_ratio_ppm, 10000000u128);
}

#[test]
fn load_rejects_malformed_resource() {
    // the resource exists, but a scalar parameter is missing
    let files: Vec<(Vec<u8>, Vec<u8>)> = vec![(
        "demo.toml".as_bytes().to_vec(),
        b"loop_delay = 5e-9\nmax_pole_zero_ratio = 10.0\n".to_vec(),
    )];
    assert!(load_device(&files, "demo".as_bytes()).is_none());
}

#[test]
fn load_misses_unknown_device() {
    let files: Vec<(Vec<u8>, Vec<u8>)> = vec![(
        "demo.toml".as_bytes().to_vec(),
        b"loop_delay = 0\nmax_pole_zero_ratio = 2\noffset_resistance = 0\n".to_vec(),
    )];
    assert!(load_device(&files, "does_not_exist".as_bytes()).is_none());
}
