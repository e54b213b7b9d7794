use jv::models::version::Version;
use jv::models::range::VersionRange;
use std::cmp::Ordering;

fn v(s: &str) -> Version {
    Version::new(s)
}

#[test]
fn maven_order_doc_example() {
    let chain = ["1.0-alpha", "1.0-beta", "1.0-rc1", "1.0", "1.0.1", "1.1"];
    for w in chain.windows(2) {
        assert_eq!(v(w[0]).compare(&v(w[1])), Ordering::Less, "{} < {}", w[0], w[1]);
        assert_eq!(v(w[1]).compare(&v(w[0])), Ordering::Greater, "{} > {}", w[1], w[0]);
    }
}

#[test]
fn padding_makes_trailing_zeros_equal() {
    assert_eq!(v("1.0").compare(&v("1")), Ordering::Equal);
    assert_eq!(v("1.0.0").compare(&v("1")), Ordering::Equal);
    assert_eq!(v("1.0").compare_int(&v("1.0")), 0);
}

#[test]
fn qualifiers_ignore_case_and_order() {
    assert_eq!(v("1.0-ALPHA").compare(&v("1.0-alpha")), Ordering::Equal);
    assert_eq!(v("1.0-a").compare(&v("1.0-alpha")), Ordering::Equal);
    assert_eq!(v("1.0-SNAPSHOT").compare(&v("1.0")), Ordering::Less);
    assert_eq!(v("1.0-M1").compare(&v("1.0-RC1")), Ordering::Less);
    assert_eq!(v("1.0-sp").compare(&v("1.0-final")), Ordering::Greater);
    assert_eq!(v("1.0-ga").compare(&v("1.0-release")), Ordering::Equal);
}

#[test]
fn qualifier_order_around_the_release() {
    let chain = ["1-alpha", "1-beta", "1-milestone", "1-rc", "1-snapshot", "1", "1-sp"];
    for w in chain.windows(2) {
        assert_eq!(v(w[0]).compare(&v(w[1])), Ordering::Less, "{} < {}", w[0], w[1]);
    }
    assert_eq!(v("1-final").compare(&v("1")), Ordering::Equal);
    assert_eq!(v("1-ga").compare(&v("1.0")), Ordering::Equal);
    assert_eq!(v("1-sp").compare(&v("1-jre")), Ordering::Less);
    assert_eq!(v("1-sp").compare(&v("1.1")), Ordering::Less);
}

#[test]
fn text_tokens_sit_between_zero_and_positive_numbers() {
    assert_eq!(v("1.0-jre").compare(&v("1.0")), Ordering::Greater);
    assert_eq!(v("1.jre").compare(&v("1.1")), Ordering::Less);
    assert_eq!(v("1.abc").compare(&v("1.abd")), Ordering::Less);
    assert_eq!(v("1-alpha").compare(&v("1-jre")), Ordering::Less);
}

#[test]
fn digits_and_letters_split_into_tokens() {
    assert_eq!(v("1alpha").compare(&v("1-alpha")), Ordering::Equal);
    assert_eq!(v("1.0rc2").compare(&v("1.0-rc-2")), Ordering::Equal);
}

#[test]
fn numbers_beyond_u64_are_text() {
    assert_eq!(v("99999999999999999999").compare(&v("1")), Ordering::Less);
    assert_eq!(v("18446744073709551615").compare(&v("18446744073709551614")), Ordering::Greater);
}

#[test]
fn empty_text_is_zero() {
    assert_eq!(v("").compare(&v("0")), Ordering::Equal);
    assert_eq!(v("...").compare(&v("0.0")), Ordering::Equal);
}

#[test]
fn parse_rejects_blank_only() {
    assert_eq!(Version::parse("").unwrap_err(), "version string cannot be empty");
    assert_eq!(Version::parse("  \t").unwrap_err(), "version string cannot be empty");
    assert_eq!(Version::parse("1.0").unwrap().raw, "1.0");
    assert_eq!(Version::parse(" 1.0 ").unwrap().raw, " 1.0 ");
}

#[test]
fn exact_range_holds_only_the_same_text() {
    let r = VersionRange::parse("1.0").unwrap();
    assert_eq!(r.exact.as_ref().unwrap().raw, "1.0");
    assert!(r.lower.is_none() && r.upper.is_none());
    assert!(r.contains(&v("1.0")));
    assert!(!r.contains(&v("1")));
    assert_eq!(r.description(), "1.0");
}

#[test]
fn closed_and_half_open_ranges() {
    let r = VersionRange::parse("[1.0,2.0]").unwrap();
    assert!(r.contains(&v("1.0")));
    assert!(r.contains(&v("1.5")));
    assert!(r.contains(&v("2.0")));
    assert!(!r.contains(&v("2.0.1")));
    assert!(!r.contains(&v("0.9")));
    let h = VersionRange::parse("[1.0,2.0)").unwrap();
    assert!(!h.contains(&v("2.0")));
    assert!(h.contains(&v("1.9.9")));
    let o = VersionRange::parse("(1.0,2.0)").unwrap();
    assert!(!o.contains(&v("1.0")));
    assert!(o.contains(&v("1.0.1")));
}

#[test]
fn open_ended_ranges() {
    let r = VersionRange::parse("(,2.0]").unwrap();
    assert!(r.lower.is_none());
    assert!(r.contains(&v("0.1")));
    assert!(r.contains(&v("2.0")));
    assert!(!r.contains(&v("2.1")));
    let u = VersionRange::parse("[1.0,)").unwrap();
    assert!(u.upper.is_none());
    assert!(u.contains(&v("5")));
    assert!(!u.contains(&v("0.9")));
    let both = VersionRange::parse("[ , ]").unwrap();
    assert!(both.lower.is_none() && both.upper.is_none());
    assert!(both.contains(&v("42")));
}

#[test]
fn single_version_range_and_trimming() {
    let r = VersionRange::parse("  [ 1.5 ] ").unwrap();
    assert_eq!(r.raw, "[ 1.5 ]");
    let (lo, li) = r.lower.as_ref().unwrap();
    let (hi, hinc) = r.upper.as_ref().unwrap();
    assert_eq!(lo.raw, "1.5");
    assert_eq!(hi.raw, "1.5");
    assert!(*li && *hinc);
    assert!(r.contains(&v("1.5")));
    assert!(!r.contains(&v("1.6")));
}

#[test]
fn prefix_ranges() {
    let r = VersionRange::parse("1.+").unwrap();
    assert_eq!(r.lower.as_ref().unwrap().0.raw, "1");
    assert!(r.lower.as_ref().unwrap().1);
    assert_eq!(r.upper.as_ref().unwrap().0.raw, "2");
    assert!(!r.upper.as_ref().unwrap().1);
    assert!(r.contains(&v("1.5")));
    assert!(r.contains(&v("1.100000")));
    assert!(!r.contains(&v("2.0")));
    assert!(!r.contains(&v("0.9")));
    let p = VersionRange::parse("2.3.+").unwrap();
    assert_eq!(p.lower.as_ref().unwrap().0.raw, "2.3");
    assert_eq!(p.upper.as_ref().unwrap().0.raw, "3");
    assert!(!p.contains(&v("2.2")));
    assert!(p.contains(&v("2.9")));
    let n = VersionRange::parse("99.+").unwrap();
    assert_eq!(n.upper.as_ref().unwrap().0.raw, "100");
    let q = VersionRange::parse("v1.+").unwrap();
    assert_eq!(q.upper.as_ref().unwrap().0.raw, "v1.99999");
}

#[test]
fn range_errors() {
    assert_eq!(VersionRange::parse("").unwrap_err(), "empty version range");
    assert_eq!(VersionRange::parse("   ").unwrap_err(), "empty version range");
    assert_eq!(VersionRange::parse("1.0]").unwrap_err(), "invalid version range syntax: 1.0]");
    assert_eq!(VersionRange::parse("[1,2,3]").unwrap_err(), "malformed range: [1,2,3]");
    assert_eq!(VersionRange::parse("[]").unwrap_err(), "malformed range: []");
    assert_eq!(VersionRange::parse(".+").unwrap_err(), "version string cannot be empty");
}

#[test]
fn versions_compare_with_operators() {
    assert!(v("1.0-alpha") < v("1.0-beta"));
    assert!(v("1.0-rc1") < v("1.0"));
    assert!(v("1.0.1") > v("1.0"));
    assert!(v("1") <= v("1.0") && v("1") >= v("1.0"));
    assert_eq!(v("1").partial_cmp(&v("1.0.0")), Some(Ordering::Equal));
    assert_ne!(v("1"), v("1.0"));
}

#[test]
fn range_descriptions_parse_back_to_the_same_range() {
    for spec in ["  [1.0,2.0) ", "1.5", "(,2]", "3.+", "[1.2]"] {
        let r = VersionRange::parse(spec).unwrap();
        assert_eq!(r.raw, spec.trim());
        assert_eq!(VersionRange::parse(&r.description()), Ok(r));
    }
}
