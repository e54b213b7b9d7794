use jv::models::{Artifact, MavenCoordinate};
use jv::error::JvError;
use jv::repository::client::{
    artifact_remote_path, extract_tag, metadata_remote_path, parse_metadata, pom_remote_path,
    Repository,
};
use jv::Version;

const METADATA: &str = "<?xml version=\"1.0\" encoding=\"UTF-8\"?>\r\n<metadata>\n  <groupId>org.example</groupId>\n  <versioning>\n    <latest>2.0</latest>\n    <release>1.9</release>\n    <versions>\n      <version>1.0</version>\n      <version> </version>\n      <version>1.9</version>\n      <version>2.0</version>\n    </versions>\n    <lastUpdated>20240101</lastUpdated>\n  </versioning>\n</metadata>\n";

#[test]
fn reads_metadata() {
    let m = parse_metadata(METADATA, "org.example", "lib").unwrap();
    assert_eq!(m.group_id, "org.example");
    assert_eq!(m.artifact_id, "lib");
    assert_eq!(m.latest.as_ref().unwrap().raw, "2.0");
    assert_eq!(m.release.as_ref().unwrap().raw, "1.9");
    let vs: Vec<_> = m.versions.iter().map(|v| v.raw.clone()).collect();
    assert_eq!(vs, vec!["1.0", "1.9", "2.0"]);
    assert!(m.last_updated.is_none());
}

#[test]
fn blank_latest_is_unset() {
    let m = parse_metadata("<latest>1</latest>\n<latest> </latest>", "g", "a").unwrap();
    assert!(m.latest.is_none());
    let empty = parse_metadata("", "g", "a").unwrap();
    assert!(empty.versions.is_empty() && empty.latest.is_none() && empty.release.is_none());
}

#[test]
fn extracts_tag_text() {
    let line: Vec<char> = "<version>1.2.3</version>".chars().collect();
    assert_eq!(extract_tag(&line, "version").as_deref(), Some("1.2.3"));
    let open_only: Vec<char> = "<version>1.2.3".chars().collect();
    assert_eq!(extract_tag(&open_only, "version"), None);
}

#[test]
fn remote_paths() {
    let c = MavenCoordinate::new("org.apache.commons", "commons-lang3", Version::new("3.14.0"));
    assert_eq!(pom_remote_path(&c), "org/apache/commons/commons-lang3/3.14.0/commons-lang3-3.14.0.pom");
    let mut a = Artifact::jar(c.clone());
    assert_eq!(artifact_remote_path(&a), "org/apache/commons/commons-lang3/3.14.0/commons-lang3-3.14.0.jar");
    a.classifier = Some("javadoc".into());
    assert_eq!(
        artifact_remote_path(&a),
        "org/apache/commons/commons-lang3/3.14.0/commons-lang3-3.14.0-javadoc.jar"
    );
    assert_eq!(metadata_remote_path("org.apache.commons", "commons-lang3"), "org/apache/commons/commons-lang3/maven-metadata.xml");
}

#[test]
fn maven_central_url_is_valid() {
    let central = Repository::maven_central();
    assert!(central.url.as_str().contains("maven.apache.org"));
}

#[test]
fn repository_url_is_parsed() {
    let r = Repository::new("user", "https://example.com").unwrap();
    assert_eq!(r.id, "user");
    assert_eq!(r.url, "https://example.com/");
    assert!(!r.snapshots && r.username.is_none() && r.password.is_none());
}

#[test]
fn repository_url_that_does_not_parse_is_refused() {
    match Repository::new("user", "not a url") {
        Err(JvError::Other(m)) => assert!(!m.is_empty()),
        other => panic!("unexpected {:?}", other),
    }
}

#[test]
fn remote_urls_join_the_repository_url() {
    let central = Repository::maven_central();
    assert_eq!(
        central.remote_url("org/x/a/1/a-1.pom").unwrap(),
        "https://repo.maven.apache.org/maven2/org/x/a/1/a-1.pom"
    );
    let r = Repository::new("user", "https://example.com/repo").unwrap();
    assert_eq!(r.remote_url("g/a").unwrap(), "https://example.com/g/a");
}
