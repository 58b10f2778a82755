use dotted_version::Version;
use dotted_version::VersionPart;
use std::cmp::Ordering;

#[test]
fn shorter_version_equals_its_extension() {
    assert!(Version::new(&[1, 2, 3]) == Version::new(&[1, 2]));
    assert!(Version::from_str("1.2.3.4").unwrap() == Version::from_str("1.2.3").unwrap());
    assert!(Version::new(&[1, 2, 3]) != Version::new(&[1, 3]));
}

#[test]
fn wildcard_settles_equality() {
    assert!(Version::from_str("1.*").unwrap() == Version::from_str("1.7.9").unwrap());
    assert!(Version::from_str("2.*").unwrap() != Version::from_str("1.7.9").unwrap());
}

#[test]
fn pattern_with_wildcard_is_not_compatible() {
    let a = Version::from_str("1.1.*").unwrap();
    let b = Version::from_str("1.*.*").unwrap();
    assert!(!a.is_compatible_with(&b));
    assert!(!Version::from_str("11.1.*").unwrap().is_compatible_with(&Version::from_str("11.1.4").unwrap()));
    assert!(Version::from_str("0.1.0").unwrap().is_compatible_with(&Version::from_str("0.*.*").unwrap()));
}

#[test]
fn compatible_with_full_wildcard() {
    let any = Version::new_wildcard();
    assert!(Version::new(&[3, 4]).is_compatible_with(&any));
    assert!(!any.is_compatible_with(&Version::new(&[3, 4])));
    assert_eq!(any.to_string(), "*");
    assert!(any.is_wildcard());
    assert!(!any.is_number());
    assert!(any.has_wildcards());
}

#[test]
fn predicates_on_versions() {
    let v = Version::new(&[1, 2]);
    assert!(v.is_number());
    assert!(!v.is_wildcard());
    assert!(!v.has_wildcards());
    let w = Version::from_str("1.*").unwrap();
    assert!(!w.is_number());
    assert!(!w.is_wildcard());
    assert!(w.has_wildcards());
}

#[test]
fn sorting_puts_oldest_first() {
    let mut list = vec![
        Version::new(&[1, 4, 5]),
        Version::new(&[1, 0, 5]),
        Version::new(&[0, 4, 5]),
        Version::new(&[0, 9, 5]),
        Version::new(&[3, 0, 5]),
    ];
    list.sort_by(|a, b| a.cmp(b));
    assert_eq!(list[0].to_string(), "0.4.5");
    assert_eq!(list[4].to_string(), "3.0.5");
}

#[test]
fn wildcard_sorts_above_numbers() {
    let w = Version::from_str("1.*").unwrap();
    assert_eq!(w.cmp(&Version::new(&[1, 200])), Ordering::Greater);
    assert_eq!(Version::new(&[1, 200]).cmp(&w), Ordering::Less);
    assert_eq!(w.cmp(&Version::from_str("1.*").unwrap()), Ordering::Equal);
    assert_eq!(Version::new(&[1, 2]).cmp(&Version::new(&[1, 2, 9])), Ordering::Equal);
}

#[test]
fn part_order_and_equality_differ() {
    let a = VersionPart::Wildcard("*".to_string());
    let b = VersionPart::Wildcard("*".to_string());
    assert_eq!(a.cmp(&b), Ordering::Equal);
    assert!(a != b);
    assert_eq!(a.cmp(&VersionPart::Number(255)), Ordering::Greater);
    assert_eq!(VersionPart::Number(3).cmp(&VersionPart::Number(12)), Ordering::Less);
    assert_eq!(VersionPart::Number(3).partial_cmp(&VersionPart::Number(3)), Some(Ordering::Equal));
}

#[test]
fn part_text() {
    assert_eq!(VersionPart::Number(0).to_string(), "0");
    assert_eq!(VersionPart::Number(7).to_string(), "7");
    assert_eq!(VersionPart::Number(40).to_string(), "40");
    assert_eq!(VersionPart::Number(255).to_string(), "255");
    assert_eq!(VersionPart::Wildcard("x".to_string()).to_string(), "x");
}

#[test]
fn latest_compatible_version_of_minor_pattern() {
    let list = vec![
        Version::new(&[1, 0, 0]),
        Version::new(&[1, 0, 1]),
        Version::new(&[1, 0, 2]),
        Version::new(&[1, 1, 0]),
    ];
    let pattern = Version::from_str("1.*.*").unwrap();
    let best = pattern.latest_compatible_version(&list).unwrap();
    assert_eq!(best.to_string(), "1.1.0");
    assert!(std::ptr::eq(best, &list[3]));
}

#[test]
fn latest_compatible_version_skips_incompatible_first() {
    let list = vec![Version::new(&[9, 9]), Version::new(&[1, 0]), Version::new(&[1, 2])];
    let pattern = Version::from_str("1.*").unwrap();
    assert_eq!(pattern.latest_compatible_version(&list).unwrap().to_string(), "1.2");
    let none: Vec<Version> = vec![Version::new(&[2])];
    assert!(pattern.latest_compatible_version(&none).is_none());
    assert!(pattern.latest_compatible_version(&Vec::new()).is_none());
}

#[test]
fn latest_compatible_skips_bad_first_entry() {
    let list: Vec<String> = vec!["junk".to_string(), "1.0".to_string(), "1.3".to_string(), "2.0".to_string()];
    let pattern = Version::from_str("1.*").unwrap();
    assert_eq!(pattern.latest_compatible(&list), Some("1.3"));
    let incompatible: Vec<String> = vec!["3.0".to_string(), "x".to_string()];
    assert_eq!(pattern.latest_compatible(&incompatible), None);
    assert_eq!(pattern.latest_compatible(&Vec::new()), None);
}

#[test]
fn latest_compatible_keeps_first_of_level_entries() {
    let list: Vec<String> = vec!["1.2".to_string(), "1.2.0".to_string()];
    let pattern = Version::from_str("1.*").unwrap();
    let best = pattern.latest_compatible(&list).unwrap();
    assert!(std::ptr::eq(best, list[0].as_str()));
}

#[test]
fn from_latest_vec_picks_greatest() {
    let list: Vec<String> = vec![
        "1.2.0".to_string(),
        "nope".to_string(),
        "4.*".to_string(),
        "3.1".to_string(),
        "2.9.9".to_string(),
    ];
    assert_eq!(Version::from_latest_vec(&list).unwrap().to_string(), "3.1");
    let bad: Vec<String> = vec!["*".to_string(), "a.b".to_string()];
    assert!(Version::from_latest_vec(&bad).is_none());
    assert!(Version::from_latest_vec(&Vec::new()).is_none());
}

#[test]
fn from_latest_vec_keeps_first_of_level_entries() {
    let list: Vec<String> = vec!["2.0".to_string(), "2".to_string(), "1.9".to_string()];
    assert_eq!(Version::from_latest_vec(&list).unwrap().to_string(), "2.0");
}

#[test]
fn parse_failures() {
    assert!(Version::from_str("x243").is_none());
    assert!(Version::from_str("").is_none());
    assert!(Version::from_str("1..2").is_none());
    assert!(Version::from_str("1.2.").is_none());
    assert!(Version::from_str("256").is_none());
    assert!(Version::from_str("1.-2").is_none());
    assert!(Version::from_str("+").is_none());
    assert!(Version::from_str_with("1.2", "").is_none());
}

#[test]
fn parse_number_forms() {
    assert_eq!(Version::from_str("+5").unwrap().to_string(), "5");
    assert_eq!(Version::from_str("255.000").unwrap().to_string(), "255.0");
    assert_eq!(Version::from_str("007").unwrap().to_string(), "7");
}

#[test]
fn wildcard_ends_parsing() {
    let v = Version::from_str("1.*.junk").unwrap();
    assert_eq!(v.to_string(), "1.*");
    assert_eq!(Version::from_str("*").unwrap().to_string(), "*");
    assert!(Version::from_str("1.**").is_none());
}

#[test]
fn custom_delimiters() {
    let v = Version::from_str_with("1::22::3", "::").unwrap();
    assert_eq!(v.to_string(), "1.22.3");
    assert!(Version::from_str_with("1:::2", "::").is_none());
    let w = Version::from_str_with("4-*", "-").unwrap();
    assert_eq!(w.to_string(), "4.*");
    assert_eq!(Version::from_str_with("1.2", "-").map(|v| v.to_string()), None);
}

#[test]
fn rendering() {
    let v = Version::new(&[0, 1, 2]);
    assert_eq!(v.to_string(), "0.1.2");
    assert_eq!(v.to_string_serializer(), "0_1_2");
    assert_eq!(Version::new(&[255, 10]).to_string(), "255.10");
}

#[test]
fn round_trips() {
    let ns: [u8; 4] = [0, 9, 100, 255];
    let v = Version::new(&ns);
    let back = Version::from_str(&v.to_string()).unwrap();
    assert_eq!(back.to_string(), v.to_string());
    assert!(back == v);
    let s = Version::from_str("0.1.2").unwrap();
    assert_eq!(s.to_string_serializer(), "0_1_2");
    let again = Version::from_str_with(&s.to_string_serializer(), "_").unwrap();
    assert_eq!(again.to_string(), "0.1.2");
    let w = Version::from_str("3.*").unwrap();
    assert_eq!(Version::from_str_with(&w.to_string_serializer(), "_").unwrap().to_string(), "3.*");
}

#[test]
fn clone_is_independent_copy() {
    let v = Version::from_str("5.4.*").unwrap();
    let c = v.clone();
    drop(v);
    assert_eq!(c.to_string(), "5.4.*");
}
