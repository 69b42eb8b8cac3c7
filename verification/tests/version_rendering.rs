use debian::version::Version;

#[test]
fn renders_canonical_form() {
    let v = Version::parse("7:2.1.4-0~bpo2").unwrap();
    assert_eq!(v.to_string(), "7:2.1.4-0~bpo2");

    let v = Version::parse("1:1:1-8-8").unwrap();
    assert_eq!(v.to_string(), "1:1:1-8-8");

    let v = Version::parse("2.1.4").unwrap();
    assert_eq!(v.to_string(), "2.1.4");
}

#[test]
fn zero_epoch_and_empty_revision_are_omitted() {
    assert_eq!(Version::parse("0:1.0").unwrap().to_string(), "1.0");
    assert_eq!(Version::parse("1.0-").unwrap().to_string(), "1.0");
    assert_eq!(Version::parse("0:1.0-").unwrap().to_string(), "1.0");
}

#[test]
fn round_trip_preserves_equality() {
    for s in [
        "7:2.1.4-0~bpo2",
        "1:1:1-8-8",
        "0:1.0",
        "1.0-",
        "2.1.4",
        "8:1.8-0~bpo2",
        "abc",
        "007",
        "1.07",
        "a1b2c3-x9",
        "",
    ] {
        let v = Version::parse(s).unwrap();
        let again = Version::parse(&v.to_string()).unwrap();
        assert_eq!(v, again, "round trip of {:?}", s);
    }
}

#[test]
fn trailing_alpha_run_renders_its_zero() {
    // an element with no digit run carries the numeric value zero, which
    // rendering always emits
    let v = Version::parse("abc").unwrap();
    assert_eq!(v.to_string(), "abc0");
    assert_eq!(Version::parse("abc").unwrap(), Version::parse("abc0").unwrap());
}

#[test]
fn leading_zeros_compare_numerically() {
    assert_eq!(Version::parse("1.07").unwrap(), Version::parse("1.7").unwrap());
    assert_eq!(Version::parse("007").unwrap().to_string(), "7");
}

#[test]
fn numeric_runs_hold_full_64_bit_values() {
    let v = Version::parse("18446744073709551615").unwrap();
    assert_eq!(v.upstream_version.elements[0].numeric, u64::MAX);
    assert_eq!(v.to_string(), "18446744073709551615");
}

#[test]
fn epoch_must_be_numeric() {
    let e = Version::parse("a:1.0").unwrap_err();
    assert_eq!(e.pos, 0);
    assert_eq!(e.msg, "Expected a numeric epoch.");
    assert!(Version::parse(":1.0").is_err());
    assert!(Version::parse("1.0:2").is_err());
    assert!(Version::parse("-1:2").is_err());
}

#[test]
fn epoch_must_fit_32_bits() {
    assert!(Version::parse("4294967296:1").is_err());
    let v = Version::parse("4294967295:1").unwrap();
    assert_eq!(v.epoch, u32::MAX);
}

#[test]
fn empty_input_parses_to_empty_parts() {
    let v = Version::parse("").unwrap();
    assert_eq!(v.epoch, 0);
    assert_eq!(v.upstream_version.count_elements(), 0);
    assert_eq!(v.debian_revision.count_elements(), 0);
    assert_eq!(v.to_string(), "");
}

#[test]
fn only_first_colon_and_last_dash_separate() {
    let v = Version::parse("1:1:1-8-8").unwrap();
    assert_eq!(v.epoch, 1);
    assert_eq!(v.upstream_version.to_string(), "1:1-8");
    assert_eq!(v.debian_revision.to_string(), "8");
}

#[test]
fn count_elements_counts_runs() {
    let v = Version::parse("1.2.3").unwrap();
    assert_eq!(v.upstream_version.count_elements(), 3);
    let v = Version::parse("abc12def").unwrap();
    assert_eq!(v.upstream_version.count_elements(), 2);
}

#[test]
fn element_order_is_numeric_before_alpha() {
    // the numeric run decides first; the alpha run breaks ties
    assert!(Version::parse("2abc").unwrap() < Version::parse("10aaa").unwrap());
    assert!(Version::parse("2abc").unwrap() < Version::parse("2abd").unwrap());
    // a segment precedes any proper extension of itself
    assert!(Version::parse("1.2").unwrap() < Version::parse("1.2.0").unwrap());
}
