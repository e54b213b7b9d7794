use jv::resolver::pubgrub::{pubgrub_proof_of_concept, smoke_test_pubgrub_compatibility, version_rank};
use jv::Version;

#[test]
fn pubgrub_smoke_test_passes() {
    assert!(smoke_test_pubgrub_compatibility());
}

#[test]
fn proof_of_concept_is_true() {
    assert!(pubgrub_proof_of_concept());
}

#[test]
fn ranks_follow_maven_order() {
    let universe = vec![
        Version::new("1.1"),
        Version::new("1.0"),
        Version::new("1.0-alpha"),
        Version::new("1"),
    ];
    assert_eq!(version_rank(&Version::new("1.0-alpha"), &universe), 0);
    assert_eq!(version_rank(&Version::new("1.0"), &universe), 1);
    assert_eq!(version_rank(&Version::new("1"), &universe), 1);
    assert_eq!(version_rank(&Version::new("1.1"), &universe), 3);
}
