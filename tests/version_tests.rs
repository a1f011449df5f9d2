use schema_registry::version::{Version, VersionError};
use std::cmp::Ordering;

fn v(major: u8, minor: u8, patch: u8) -> Version {
    Version { major, minor, patch }
}

#[test]
fn parses_underscore_token() {
    assert_eq!(Version::from_str("v1_2_0"), Ok(v(1, 2, 0)));
}

#[test]
fn parses_without_prefix_and_with_dots() {
    assert_eq!(Version::from_str("10.20.30"), Ok(v(10, 20, 30)));
}

#[test]
fn ignores_extra_components() {
    assert_eq!(Version::from_str("v1.2.3.4"), Ok(v(1, 2, 3)));
    assert_eq!(Version::from_str("v1_2_3_x"), Ok(v(1, 2, 3)));
}

#[test]
fn accepts_leading_plus_and_zeros() {
    assert_eq!(Version::from_str("+1.007.255"), Ok(v(1, 7, 255)));
}

#[test]
fn rejects_too_few_components() {
    assert_eq!(Version::from_str("v1.2"), Err(VersionError::InvalidVersion));
    assert_eq!(Version::from_str(""), Err(VersionError::InvalidVersion));
    assert_eq!(Version::from_str("v"), Err(VersionError::InvalidVersion));
}

#[test]
fn rejects_bad_components() {
    assert_eq!(Version::from_str("v1.2.x"), Err(VersionError::InvalidVersion));
    assert_eq!(Version::from_str("v1.2."), Err(VersionError::InvalidVersion));
    assert_eq!(Version::from_str("v1.256.0"), Err(VersionError::InvalidVersion));
    assert_eq!(Version::from_str("v1.-2.0"), Err(VersionError::InvalidVersion));
    assert_eq!(Version::from_str("vv1.2.3"), Err(VersionError::InvalidVersion));
}

#[test]
fn canonical_text() {
    assert_eq!(v(1, 2, 0).to_string(), "v1.2.0");
    assert_eq!(v(255, 10, 9).to_string(), "v255.10.9");
    assert_eq!(v(0, 0, 0).to_string(), "v0.0.0");
}

#[test]
fn canonical_text_round_trip() {
    for (a, b, c) in [(0, 0, 0), (1, 2, 3), (9, 10, 99), (100, 200, 255)] {
        let text = v(a, b, c).to_string();
        let back = Version::from_str(&text).unwrap();
        assert_eq!(back, v(a, b, c));
        assert_eq!(back.to_string(), text);
    }
}

#[test]
fn order_compares_major_minor_patch() {
    assert_eq!(v(1, 0, 0).cmp(&v(0, 9, 9)), Ordering::Greater);
    assert_eq!(v(1, 2, 0).cmp(&v(1, 10, 0)), Ordering::Less);
    assert_eq!(v(1, 2, 3).cmp(&v(1, 2, 4)), Ordering::Less);
    assert_eq!(v(1, 2, 3).cmp(&v(1, 2, 3)), Ordering::Equal);
}

#[test]
fn order_is_total_and_transitive() {
    let all = [v(0, 0, 1), v(0, 1, 0), v(1, 0, 0), v(1, 0, 0), v(2, 3, 4)];
    for a in &all {
        for b in &all {
            let ab = a.cmp(b);
            assert_eq!(ab, b.cmp(a).reverse());
            assert_eq!(ab == Ordering::Equal, a == b);
            for c in &all {
                if ab == Ordering::Less && b.cmp(c) == Ordering::Less {
                    assert_eq!(a.cmp(c), Ordering::Less);
                }
            }
        }
    }
}
