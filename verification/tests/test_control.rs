use debian::control::{parse_dep_list, VRel};
use debian::version::{Version, VersionElement, VersionPart};

#[test]
fn test_control_dependency_basics() {
    let deps = parse_dep_list("foo (>= 3.2) | bar, baz (>= 1)").unwrap();
    assert_eq!(deps.len(), 2);
    assert_eq!(deps[0].alternatives.len(), 2);
    assert_eq!(deps[1].alternatives.len(), 1);
    let sd1 = &deps[0].alternatives[0];
    assert_eq!(&sd1.package[..], "foo");
    assert_eq!(
        sd1.version,
        Some((
            VRel::GreaterOrEqual,
            Version {
                epoch: 0,
                upstream_version: VersionPart {
                    elements: vec![
                        VersionElement {
                            alpha: "".to_string(),
                            numeric: 3
                        },
                        VersionElement {
                            alpha: ".".to_string(),
                            numeric: 2
                        }
                    ]
                },
                debian_revision: VersionPart { elements: vec![] }
            }
        ))
    );
    let sd2 = &deps[0].alternatives[1];
    assert_eq!(&sd2.package[..], "bar");
    assert_eq!(sd2.version, None);
    let sd3 = &deps[1].alternatives[0];
    assert_eq!(&sd3.package[..], "baz");
    assert_eq!(
        sd3.version,
        Some((
            VRel::GreaterOrEqual,
            Version {
                epoch: 0,
                upstream_version: VersionPart {
                    elements: vec![VersionElement {
                        alpha: "".to_string(),
                        numeric: 1
                    }]
                },
                debian_revision: VersionPart { elements: vec![] }
            }
        ))
    );
}
