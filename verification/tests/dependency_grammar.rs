use debian::control::{parse_dep_list, parse_single_dep, DepError, VRel};
use debian::version::Version;

#[test]
fn arch_and_build_profile_condition() {
    let d = parse_single_dep("libbluetooth-dev [linux-any] <!stage1>").unwrap();
    assert_eq!(d.package, "libbluetooth-dev");
    assert_eq!(d.version, None);
    assert_eq!(d.arch.as_deref(), Some("linux-any"));
    assert_eq!(d.condition.as_deref(), Some("!stage1"));
}

#[test]
fn garbage_after_package_name_is_rejected() {
    let e = parse_single_dep("pkg )garbage").unwrap_err();
    assert_eq!(e, DepError::GarbageAfterPackageName);
}

#[test]
fn version_placeholders_yield_no_constraint() {
    let d = parse_single_dep("foo (= ${binary:Version})").unwrap();
    assert_eq!(d.package, "foo");
    assert_eq!(d.version, None);
    let d = parse_single_dep("bar (= ${source:Version})").unwrap();
    assert_eq!(d.version, None);
}

#[test]
fn relation_tokens_and_legacy_aliases() {
    let one = Version::parse("1.0").unwrap();
    for (text, rel) in [
        (">= 1.0", VRel::GreaterOrEqual),
        ("> 1.0", VRel::GreaterOrEqual),
        (">> 1.0", VRel::Greater),
        ("<= 1.0", VRel::LesserOrEqual),
        ("< 1.0", VRel::LesserOrEqual),
        ("<< 1.0", VRel::Lesser),
        ("= 1.0", VRel::Equal),
    ] {
        let d = parse_single_dep(&format!("foo ({})", text)).unwrap();
        assert_eq!(d.version, Some((rel, one.clone())), "relation {:?}", text);
    }
}

#[test]
fn each_error_variant_has_an_input() {
    assert_eq!(parse_single_dep("foo x").unwrap_err(), DepError::GarbageAfterPackageName);
    assert_eq!(parse_single_dep("foo ()").unwrap_err(), DepError::MissingVersion);
    assert_eq!(parse_single_dep("foo (== 1.0)").unwrap_err(), DepError::InvalidRelation);
    assert_eq!(parse_single_dep("foo (>= a:1)").unwrap_err(), DepError::VersionParseFailed);
    assert_eq!(parse_single_dep("foo (>= 1) x").unwrap_err(), DepError::GarbageAfterVersion);
    assert_eq!(parse_single_dep("foo [ ]").unwrap_err(), DepError::EmptyArch);
    assert_eq!(parse_single_dep("foo [amd64] x y").unwrap_err(), DepError::GarbageAfterArch);
}

#[test]
fn stray_byte_after_arch_is_dropped() {
    // a lone non-space character after the arch clause ends the scan
    // without being kept and without an error
    let d = parse_single_dep("foo [amd64] x").unwrap();
    assert_eq!(d.package, "foo");
    assert_eq!(d.arch.as_deref(), Some("amd64"));
    assert_eq!(d.condition, None);
}

#[test]
fn dependency_list_groups_and_alternatives() {
    let deps = parse_dep_list("foo (>= 3.2) | bar, baz (>= 1)").unwrap();
    assert_eq!(deps.len(), 2);
    assert_eq!(deps[0].alternatives.len(), 2);
    assert_eq!(deps[0].alternatives[0].package, "foo");
    assert_eq!(
        deps[0].alternatives[0].version,
        Some((VRel::GreaterOrEqual, Version::parse("3.2").unwrap()))
    );
    assert_eq!(deps[0].alternatives[1].package, "bar");
    assert_eq!(deps[0].alternatives[1].version, None);
    assert_eq!(deps[1].alternatives.len(), 1);
    assert_eq!(deps[1].alternatives[0].package, "baz");
    assert_eq!(
        deps[1].alternatives[0].version,
        Some((VRel::GreaterOrEqual, Version::parse("1").unwrap()))
    );
}

#[test]
fn dependency_list_aborts_on_first_failure() {
    assert_eq!(parse_dep_list("foo, bar ()").unwrap_err(), DepError::MissingVersion);
    assert_eq!(parse_dep_list("foo | pkg )x, bar").unwrap_err(), DepError::GarbageAfterPackageName);
}

#[test]
fn relation_tokens_render_canonically() {
    assert_eq!(VRel::GreaterOrEqual.to_string(), ">=");
    assert_eq!(VRel::Greater.to_string(), ">>");
    assert_eq!(VRel::LesserOrEqual.to_string(), "<=");
    assert_eq!(VRel::Lesser.to_string(), "<<");
    assert_eq!(VRel::Equal.to_string(), "=");
}

#[test]
fn dependencies_render_back_to_text() {
    let d = parse_single_dep("foo (>= 3.2)").unwrap();
    assert_eq!(d.to_string(), "foo (>= 3.2)");

    // a legacy alias is normalised to its two-character token
    let d = parse_single_dep("foo (> 3.2)").unwrap();
    assert_eq!(d.to_string(), "foo (>= 3.2)");

    let d = parse_single_dep("foo (= 1.0) [amd64]").unwrap();
    assert_eq!(d.to_string(), "foo (= 1.0) [amd64]");

    // the build-profile condition is parsed but not re-emitted
    let d = parse_single_dep("foo [linux-any] <!stage1>").unwrap();
    assert_eq!(d.to_string(), "foo [linux-any]");

    let deps = parse_dep_list("foo (>= 3.2) | bar, baz").unwrap();
    assert_eq!(deps[0].to_string(), "foo (>= 3.2) | bar");
    assert_eq!(deps[1].to_string(), "baz");
}

#[test]
fn alternatives_keep_their_order() {
    let deps = parse_dep_list("zzz | aaa | mmm").unwrap();
    let names: Vec<&str> = deps[0]
        .alternatives
        .iter()
        .map(|d| d.package.as_str())
        .collect();
    assert_eq!(names, ["zzz", "aaa", "mmm"]);
}
