use driver_indexer::version::compareVersion;
use std::cmp::Ordering;

// 版本号对比测试
#[test]
#[allow(non_snake_case)]
fn versionMatches() {
    println!("{:?}", compareVersion("1.0.0.9", "1.0.1.9"));
}

#[test]
fn version_less_by_component() {
    assert_eq!(compareVersion("1.0.0.9", "1.0.1.9"), Ok(Ordering::Less));
}

#[test]
fn version_equal_to_itself() {
    assert_eq!(compareVersion("10.20.30", "10.20.30"), Ok(Ordering::Equal));
}

#[test]
fn version_missing_components_read_as_zero() {
    assert_eq!(compareVersion("1.2", "1.2.0"), Ok(Ordering::Equal));
    assert_eq!(compareVersion("1.2.0.0", "1.2"), Ok(Ordering::Equal));
    assert_eq!(compareVersion("1.2.1", "1.2"), Ok(Ordering::Greater));
}

#[test]
fn version_numeric_not_lexicographic() {
    assert_eq!(compareVersion("10.0", "9.0"), Ok(Ordering::Greater));
    assert_eq!(compareVersion("2.9", "2.10"), Ok(Ordering::Less));
}

#[test]
fn version_malformed_component_is_error() {
    assert!(compareVersion("1.x", "1.0").is_err());
    assert!(compareVersion("", "1").is_err());
    // the scan answers before it reaches the malformed component
    assert_eq!(compareVersion("2.x", "1.y"), Ok(Ordering::Greater));
}

#[test]
fn version_plus_sign_accepted() {
    assert_eq!(compareVersion("+3.4", "3.4"), Ok(Ordering::Equal));
}

#[test]
fn version_overflowing_component_is_error() {
    assert!(compareVersion("99999999999999999999", "1").is_err());
    assert_eq!(compareVersion("4294967295", "4294967294"), Ok(Ordering::Greater));
}
