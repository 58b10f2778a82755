use dotted_version::Version;
use dotted_version::VersionPart;
use dotted_version::Version as V;

#[test]
fn comparisons() {
    assert!(V::new(&[1, 2, 3]) == V::from_str("1.2.3").unwrap());
    assert!(V::new(&[1, 2, 3]) < V::new(&[2, 3]));
    assert!(V::new(&[1, 2, 3]) <= V::new(&[1, 2, 4]));
    assert!(V::new(&[233]) > V::new(&[2, 3]));
    assert!(V::new(&[22, 3, 56, 8]) >= V::new(&[22, 3, 56]));
}

#[test]
fn sorting() {
    let mut vector = vec![
        Version::new(&[1, 4, 5]),
        Version::new(&[1, 0, 5]),
        Version::new(&[0, 4, 5]),
        Version::new(&[0, 9, 5]),
        Version::new(&[3, 0, 5]),
    ];

    vector.sort_by(|a, b| a.cmp(b));

    assert_eq!(vector[0], Version::new(&[0, 4, 5]));
    assert_eq!(vector[4], Version::new(&[3, 0, 5]));
    assert_eq!(vector[3], Version::new(&[1, 4, 5]));
}

#[test]
fn version_is_compatible_with() {
    assert!(Version::from_str("0.1.0").unwrap().is_compatible_with(&Version::from_str("0.*.*").unwrap()));
    assert!(Version::from_str("4.1.0").unwrap().is_compatible_with(&Version::from_str("4.*.*").unwrap()));
    assert!(!Version::from_str("1.2.0").unwrap().is_compatible_with(&Version::from_str("1.1.*").unwrap()));
    assert!(!Version::from_str("11.1.*").unwrap().is_compatible_with(&Version::from_str("11.1.4").unwrap()));
    assert!(Version::from_str("1.1").unwrap().is_compatible_with(&Version::from_str("1.1.0").unwrap()));
    assert!(!Version::from_str("1.1.*").unwrap().is_compatible_with(&Version::from_str("1.*.*").unwrap()));
    assert!(Version::from_str("21.11.0").unwrap().is_compatible_with(&Version::from_str("*").unwrap()));
    assert_eq!(false, Version::from_str("21.11.0").unwrap().is_compatible_with(&Version::from_str("12.*").unwrap()));
    assert_eq!(false, Version::from_str("12.0").unwrap().is_compatible_with(&Version::from_str("12.1.2").unwrap()));
    assert_eq!(false, Version::from_str("21.11").unwrap().is_compatible_with(&Version::from_str("12").unwrap()));
    assert_eq!(false, Version::from_str("21.*").unwrap().is_compatible_with(&Version::from_str("22.12").unwrap()));
}

#[test]
fn version_comparisons() {
    assert!(Version::from_str("1.1.0").unwrap() > Version::from_str("1.0.0").unwrap());
    assert!(Version::from_str("1.2.0").unwrap() < Version::from_str("1.3.1").unwrap());
    assert!(Version::from_str("2.3.2").unwrap() > Version::from_str("1.4.8").unwrap());
    assert!(Version::from_str("1.10.2").unwrap() > Version::from_str("1.4.22").unwrap());
}

#[test]
fn latest_compatible() {
    let versions: Vec<String> = vec![
        "1.0.1".to_string(),
        "1.0.2".to_string(),
        "1.1.0".to_string(),
        "1.0.0".to_string(),
    ];

    let version = Version::from_str("1.*.*").unwrap();

    assert_eq!(version.latest_compatible(&versions).unwrap().to_string(), "1.1.0".to_string());
}

#[test]
fn latest_compatible_version() {
    let versions: Vec<Version> = vec![
        Version::from_str("1.0.0").unwrap(),
        Version::from_str("1.0.1").unwrap(),
        Version::from_str("1.0.2").unwrap(),
        Version::from_str("1.1.0").unwrap(),
        Version::from_str("2.3.132").unwrap(),
    ];

    let version = Version::from_str("1.*.*").unwrap();
    assert_eq!(version.latest_compatible_version(&versions).unwrap().to_string(), "1.1.0".to_string());
    assert_eq!(Version::new(&[1]).latest_compatible_version(&versions).unwrap().to_string(), "1.1.0".to_string());
}

#[test]
fn versionpart_is_number() {
    let vp = VersionPart::Number(12);
    let vp2 = VersionPart::Wildcard("*".to_string());
    assert!(vp.is_number());
    assert!(!vp2.is_number());
}

#[test]
fn versionpart_is_wildcard() {
    let vp = VersionPart::Number(12);
    let vp2 = VersionPart::Wildcard("*".to_string());
    assert!(!vp.is_wildcard());
    assert!(vp2.is_wildcard());
}

#[test]
fn versionpart_equals() {
    let vp = VersionPart::Number(14);
    let vp2 = VersionPart::Number(65);
    let vp3 = VersionPart::Wildcard("*".to_string());
    assert!(vp == VersionPart::Number(14));
    assert!(vp2 == VersionPart::Number(65));
    assert!(vp2 != vp);
    assert!(vp != vp3);
}

#[test]
fn version_from_string() {
    let ver1: Version = Version::from_str("1.0.0").unwrap();
    assert_eq!(Version::new(&[1, 0, 0]), ver1);

    let ver2: Version = Version::from_str("1.1.0").unwrap();
    assert_eq!(Version::new(&[1, 1, 0]), ver2);
}

#[test]
fn version_from_string_fails() {
    let ver1 = Version::from_str("x243");
    println!("{:?}", ver1);
    assert!(ver1.is_none());
}

#[test]
fn version_parse_serde() {
    let version = Version::from_str_with("0_1_2", "_").unwrap();
    assert_eq!(version, Version::new(&[0, 1, 2]));
}

#[test]
fn basic_parsing() {
    assert_eq!(Version::from_str("0.1.2").unwrap(), Version::new(&[0, 1, 2]));
    assert_eq!(Version::from_str("120.1.2").unwrap(), Version::new(&[120, 1, 2]));
    assert_eq!(Version::from_str("1.12.2").unwrap(), Version::new(&[1, 12, 2]));
    assert_eq!(Version::from_str("1.1.132").unwrap(), Version::new(&[1, 1, 132]));
    assert_eq!(Version::from_str("0.0.2").unwrap(), Version::new(&[0, 0, 2]));
    assert_eq!(Version::from_str("0132.1.2").unwrap(), Version::new(&[132, 1, 2]));
    assert_eq!(Version::from_str("1.2.3.12.123.231.111").unwrap(), Version::new(&[1, 2, 3, 12, 123, 231, 111]));
    assert_eq!(Version::from_str("1.2").unwrap(), Version::new(&[1, 2]));
    assert_eq!(Version::from_str("1").unwrap(), Version::new(&[1]));
}
