use std::str::FromStr;

use debian::control::{parse_dep_list, VRel};
use debian::version::{Version, VersionElement, VersionPart};

#[test]
fn tests_version_basics() {
    let v = Version::parse("7:2.1.4-0~bpo2").unwrap();
    assert_eq!(v.epoch, 7);
    assert_eq!(&v.upstream_version.to_string(), "2.1.4");
    assert_eq!(&v.upstream_version.to_string(), "2.1.4");
    assert_eq!(&v.debian_revision.to_string(), "0~bpo2");
    assert_eq!(Version::from_str("7:2.1.4-0~bpo2").unwrap(), v);

    let v = Version::parse("2.1.4-0~bpo2").unwrap();
    assert_eq!(v.epoch, 0);
    assert_eq!(&v.upstream_version.to_string(), "2.1.4");
    assert_eq!(&v.debian_revision.to_string(), "0~bpo2");

    let v = Version::parse("7:2.1.4").unwrap();
    assert_eq!(v.epoch, 7);
    assert_eq!(v.upstream_version.to_string(), "2.1.4");
    assert_eq!(v.debian_revision.to_string(), "");

    let v = Version::parse("2.1.4").unwrap();
    assert_eq!(v.epoch, 0);
    assert_eq!(v.upstream_version.to_string(), "2.1.4");
    assert_eq!(v.debian_revision.to_string(), "");

    let v = Version::parse("1:1:1-8-8").unwrap();
    assert_eq!(v.epoch, 1);
    assert_eq!(v.upstream_version.to_string(), "1:1-8");
    assert_eq!(v.debian_revision.to_string(), "8");
}

#[test]
fn tests_version_comparisons() {
    let v = Version::parse("7:2.1.4-0~bpo2").unwrap();
    assert!(v < Version::parse("8:1.8-0~bpo2").unwrap());

    assert_eq!(
        Version::parse("0:1.0").unwrap(),
        Version::parse("1.0").unwrap()
    );
    assert!(Version::parse("7:1.8-0~bpo2").unwrap() < Version::parse("8:1.8-0~bpo2").unwrap());
    assert!(Version::parse("8:1.8-0~bpo1").unwrap() < Version::parse("8:1.8-0~bpo2").unwrap());
    assert!(Version::parse("8:1.8-0~bpo2").unwrap() < Version::parse("8:1.8-1~bpo2").unwrap());
    assert!(Version::parse("8:1.7-0~bpo2").unwrap() < Version::parse("8:1.8-0~bpo2").unwrap());
    assert!(Version::parse("8:0.8-0~bpo2").unwrap() < Version::parse("8:1.8-0~bpo2").unwrap());

    assert!(Version::parse("9:1.8-0~bpo2").unwrap() > Version::parse("8:1.8-0~bpo2").unwrap());
    assert!(Version::parse("8:1.8-0~bpo3").unwrap() > Version::parse("8:1.8-0~bpo2").unwrap());
    assert!(Version::parse("8:1.8-2~bpo2").unwrap() > Version::parse("8:1.8-1~bpo2").unwrap());
    assert!(Version::parse("8:1.9-0~bpo2").unwrap() > Version::parse("8:1.8-0~bpo2").unwrap());
    assert!(Version::parse("8:2.8-0~bpo2").unwrap() > Version::parse("8:1.8-0~bpo2").unwrap());
}

#[test]
fn tests_dependency_basics() {
    let deps = parse_dep_list("foo (>= 3.2) | bar, baz (>= 1)").unwrap();
    assert_eq!(deps.len(), 2);
    assert_eq!(deps[0].alternatives.len(), 2);
    assert_eq!(deps[1].alternatives.len(), 1);
    let sd1 = &deps[0].alternatives[0];
    assert_eq!(&sd1.package[..], "foo");
    assert_eq!(
        sd1.version,
        Some((
            VRel::GreaterOrEqual,
            Version {
                epoch: 0,
                upstream_version: VersionPart {
                    elements: vec![
                        VersionElement {
                            alpha: "".to_string(),
                            numeric: 3
                        },
                        VersionElement {
                            alpha: ".".to_string(),
                            numeric: 2
                        }
                    ]
                },
                debian_revision: VersionPart { elements: vec![] }
            }
        ))
    );
    let sd2 = &deps[0].alternatives[1];
    assert_eq!(&sd2.package[..], "bar");
    assert_eq!(sd2.version, None);
    let sd3 = &deps[1].alternatives[0];
    assert_eq!(&sd3.package[..], "baz");
    assert_eq!(
        sd3.version,
        Some((
            VRel::GreaterOrEqual,
            Version {
                epoch: 0,
                upstream_version: VersionPart {
                    elements: vec![VersionElement {
                        alpha: "".to_string(),
                        numeric: 1
                    }]
                },
                debian_revision: VersionPart { elements: vec![] }
            }
        ))
    );
}
