use changement::bump::{max_bump, VersionBump};
use changement::version::Version;

#[test]
fn bump_ordering_is_total() {
    assert!(VersionBump::Major.rank() > VersionBump::Minor.rank());
    assert!(VersionBump::Minor.rank() > VersionBump::Patch.rank());
    let all = [VersionBump::Major, VersionBump::Minor, VersionBump::Patch];
    for a in all {
        assert_eq!(a.max(a), a);
        for b in all {
            assert_eq!(a.max(b), b.max(a));
        }
    }
    assert_eq!(VersionBump::Patch.max(VersionBump::Major), VersionBump::Major);
    assert_eq!(VersionBump::Minor.max(VersionBump::Patch), VersionBump::Minor);
    assert_eq!(max_bump(None, Some(VersionBump::Patch)), Some(VersionBump::Patch));
    assert_eq!(max_bump(Some(VersionBump::Minor), None), Some(VersionBump::Minor));
    assert_eq!(max_bump(None, None), None);
}

#[test]
fn bump_tokens() {
    assert_eq!(VersionBump::Major.as_str(), "major");
    assert_eq!(VersionBump::Minor.to_string(), "minor");
    assert_eq!(VersionBump::parse("patch"), Some(VersionBump::Patch));
    assert_eq!(VersionBump::parse("major"), Some(VersionBump::Major));
    assert_eq!(VersionBump::parse("Major"), None);
    assert_eq!(VersionBump::parse(""), None);
}

#[test]
fn bumping_one_two_three() {
    let v = Version::parse("1.2.3").unwrap();
    assert_eq!(v.bumped(VersionBump::Major).unwrap().to_string(), "2.0.0");
    assert_eq!(v.bumped(VersionBump::Minor).unwrap().to_string(), "1.3.0");
    assert_eq!(v.bumped(VersionBump::Patch).unwrap().to_string(), "1.2.4");
}

#[test]
fn bumping_clears_labels_and_refuses_overflow() {
    let v = Version::parse("1.0.0-beta.1+7").unwrap();
    assert_eq!(v.pre, "beta.1");
    assert_eq!(v.build, "7");
    assert_eq!(v.to_string(), "1.0.0-beta.1+7");
    assert_eq!(v.bumped(VersionBump::Patch).unwrap(), Version::new(1, 0, 1));
    let top = Version::new(u64::MAX, 4, 5);
    assert_eq!(top.bumped(VersionBump::Major), None);
    assert_eq!(top.bumped(VersionBump::Minor).unwrap(), Version::new(u64::MAX, 5, 0));
}

#[test]
fn version_parse_reads_counters() {
    let v = Version::parse("10.20.30").unwrap();
    assert_eq!((v.major, v.minor, v.patch), (10, 20, 30));
    assert!(v.pre.is_empty());
    assert!(Version::parse("1.2").is_none());
    assert!(Version::parse("not a version").is_none());
    assert!(Version::parse("").is_none());
}

#[test]
fn version_text_has_no_leading_zeros() {
    assert_eq!(Version::new(0, 0, 0).to_string(), "0.0.0");
    assert_eq!(Version::new(100, 9, 10).to_string(), "100.9.10");
    assert_eq!(Version::new(u64::MAX, 0, 1).to_string(), "18446744073709551615.0.1");
    assert_eq!(Version::new(1, 2, 3), Version::parse("1.2.3").unwrap());
    assert_eq!(Version::new(1, 2, 3).copy(), Version::new(1, 2, 3));
}

#[test]
fn parsed_version_prints_as_its_text() {
    for text in ["0.0.0", "1.2.3", "1.0.0-alpha.1", "2.3.4+build.5", "1.0.0-rc.1+001"] {
        assert_eq!(Version::parse(text).unwrap().to_string(), text);
    }
}
