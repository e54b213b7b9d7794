use jv::cache::manager::{hex_lower, is_expired, join_path, pom_content_intact, pom_hash, CacheManager};
use jv::models::{Artifact, MavenCoordinate};
use jv::Version;

#[test]
fn paths_join_like_pathbuf() {
    assert_eq!(join_path("a", "b"), "a/b");
    assert_eq!(join_path("a/", "b"), "a/b");
    assert_eq!(join_path("", "b"), "b");
    assert_eq!(join_path("a", "/abs"), "/abs");
    assert_eq!(join_path("a", ""), "a/");
}

#[test]
fn cache_layout() {
    let c = CacheManager::with_root_and_namespace("/home/u/.cache/jv".to_string(), None);
    assert_eq!(c.root(), "/home/u/.cache/jv");
    assert!(c.namespace().is_none());
    assert_eq!(c.effective_root(), "/home/u/.cache/jv");
    let coord = MavenCoordinate::new("com.google.guava", "guava", Version::new("33.2.1-jre"));
    assert_eq!(c.pom_path(&coord), "/home/u/.cache/jv/poms/com/google/guava/guava/33.2.1-jre.pom");
    assert_eq!(
        c.metadata_path("com.google.guava", "guava"),
        "/home/u/.cache/jv/metadata/com/google/guava/guava/maven-metadata.xml"
    );
    let mut art = Artifact::jar(coord.clone());
    assert_eq!(
        c.artifact_path(&art),
        "/home/u/.cache/jv/artifacts/com/google/guava/guava/33.2.1-jre.jar"
    );
    art.classifier = Some("sources".into());
    assert_eq!(
        c.artifact_path(&art),
        "/home/u/.cache/jv/artifacts/com/google/guava/guava/33.2.1-jre-sources.jar"
    );
    assert_eq!(
        c.bom_effective_path("org.springframework.boot", "spring-boot-dependencies", &Version::new("3.3.0")),
        "/home/u/.cache/jv/effective-boms/org/springframework/boot/spring-boot-dependencies/3.3.0.json"
    );
    let n = CacheManager::with_root_and_namespace("/r".to_string(), Some("corp".to_string()));
    assert_eq!(n.namespace(), Some("corp"));
    assert_eq!(n.effective_root(), "/r/repos/corp");
    assert_eq!(n.pom_path(&coord), "/r/repos/corp/poms/com/google/guava/guava/33.2.1-jre.pom");
}

#[test]
fn maven_central_urls() {
    assert!(CacheManager::is_maven_central("https://repo.maven.apache.org/maven2/"));
    assert!(CacheManager::is_maven_central("https://maven-central.storage-download.googleapis.com/maven2"));
    assert!(!CacheManager::is_maven_central("https://repo.example.com/"));
}

#[test]
fn pom_hashes() {
    assert_eq!(pom_hash(""), "e3b0c44298fc1c149afbf4c8996fb92427ae41e4649b934ca495991b7852b855");
    assert_eq!(pom_hash("abc"), "ba7816bf8f01cfea414140de5dae2223b00361a396177a9cb410ff61f20015ad");
    assert_eq!(hex_lower(&[0x00, 0xab, 0x0f]), "00ab0f");
    let x = "<project/>";
    let h = pom_hash(x);
    assert!(pom_content_intact(x, Some(&h)));
    assert!(pom_content_intact(x, Some(&format!("  {h}\n"))));
    assert!(!pom_content_intact(x, Some("deadbeef")));
    assert!(!pom_content_intact("<project></project>", Some(&h)));
    assert!(pom_content_intact(x, None));
}

#[test]
fn cache_under_user_cache_dir() {
    let c = CacheManager::under_cache_dir(Some("/home/u/.cache".to_string()), None).unwrap();
    assert_eq!(c.root(), "/home/u/.cache/jv");
    assert!(c.namespace().is_none());
    let n = CacheManager::under_cache_dir(Some("/tmp/".to_string()), Some("corp".to_string())).unwrap();
    assert_eq!(n.root(), "/tmp/jv");
    assert_eq!(n.effective_root(), "/tmp/jv/repos/corp");
    match CacheManager::under_cache_dir(None, None) {
        Err(jv::error::JvError::Cache { path, reason }) => {
            assert_eq!(path, "~/.cache");
            assert_eq!(reason, "unable to determine user cache directory");
        }
        other => panic!("unexpected {:?}", other),
    }
    let r = CacheManager::with_root("/r".to_string());
    assert_eq!(r.root(), "/r");
    assert!(r.namespace().is_none());
}

#[test]
fn default_cache_is_not_namespaced() {
    match CacheManager::new() {
        Ok(c) => {
            assert!(c.namespace().is_none());
            assert!(c.root().ends_with("/jv"));
        }
        Err(e) => panic!("no user cache directory: {:?}", e),
    }
}

#[test]
fn expiry_of_cache_entries() {
    let day = 86_400u64;
    let now = 100 * day;
    assert!(is_expired(now - 31 * day, now, 30));
    assert!(!is_expired(now - 30 * day, now, 30));
    assert!(!is_expired(now - 29 * day, now, 30));
    assert!(is_expired(now - 1, now, 0));
    assert!(!is_expired(0, now, 200));
    assert!(!is_expired(0, now, u64::MAX));
}
