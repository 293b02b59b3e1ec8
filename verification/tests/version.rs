use hadron::usb::{check_device, parse_version, ConnectError, Connection};
use hadron::version::Version;

#[test]
fn order_of_versions() {
    let a = Version::new(1, 1, 0);
    let b = Version::new(1, 2, 0);
    let c = Version::new(2, 0, 0);
    assert!(a.older_than(b));
    assert!(b.older_than(c));
    assert!(!b.older_than(a));
    assert!(!a.older_than(a));
    assert!(c.newer_than(a));
    assert!(!a.newer_than(a));
    assert!(a.same(Version::new(1, 1, 0)));
    assert!(!a.same(b));
    assert!(Version::new(1, 1, 1).newer_than(a));
}

#[test]
fn exactly_one_relation_holds() {
    let vs = [Version::new(0, 9, 9), Version::new(1, 1, 0), Version::new(1, 1, 3), Version::new(2, 0, 0)];
    for a in vs {
        for b in vs {
            let n = [a.older_than(b), a.same(b), a.newer_than(b)].iter().filter(|x| **x).count();
            assert_eq!(n, 1);
            assert_eq!(a.newer_than(b), b.older_than(a));
        }
    }
}

#[test]
fn current_is_1_1_0() {
    assert_eq!(Version::current(), Version::new(1, 1, 0));
}

#[test]
fn version_text() {
    assert_eq!(Version::new(1, 1, 0).to_string(), "1.1.0");
    assert_eq!(Version::new(255, 10, 7).to_string(), "255.10.7");
}

#[test]
fn parses_versions() {
    assert_eq!(parse_version("1.1.0"), Some(Version::new(1, 1, 0)));
    assert_eq!(parse_version("1.2"), Some(Version::new(1, 2, 0)));
    assert_eq!(parse_version("1.2.x"), Some(Version::new(1, 2, 0)));
    assert_eq!(parse_version("1.2.3.4"), Some(Version::new(1, 2, 3)));
    assert_eq!(parse_version("+1.02.+3"), Some(Version::new(1, 2, 3)));
    assert_eq!(parse_version("1"), None);
    assert_eq!(parse_version("256.0"), None);
    assert_eq!(parse_version("1.-2"), None);
    assert_eq!(parse_version("a.b"), None);
    assert_eq!(parse_version(".1"), None);
    assert_eq!(parse_version("+.1"), None);
}

#[test]
fn version_text_reads_back() {
    for v in [Version::new(0, 0, 0), Version::new(1, 1, 0), Version::new(255, 255, 255), Version::new(9, 10, 99)] {
        assert_eq!(parse_version(&v.to_string()), Some(v));
    }
}

#[test]
fn device_checks() {
    assert_eq!(check_device("Nintendo Switch", "1.1.0"), Err(ConnectError::NotGoldleaf));
    assert_eq!(check_device("Goldleaf", "garbage"), Err(ConnectError::UnknownVersion));
    assert_eq!(
        check_device("Goldleaf", "1.0.9"),
        Err(ConnectError::Outdated(Version::new(1, 0, 9)))
    );
    assert_eq!(
        check_device("Goldleaf USB", "1.1.0"),
        Ok(Connection { version: Version::new(1, 1, 0), is_dev: false })
    );
    assert_eq!(
        check_device("Goldleaf", "1.2.0-dev"),
        Ok(Connection { version: Version::new(1, 2, 0), is_dev: true })
    );
    assert_eq!(
        check_device("Goldleaf", "1.0.0-dev"),
        Err(ConnectError::Outdated(Version::new(1, 0, 0)))
    );
}
