use jv::download::DownloadResult;
use jv::models::{Artifact, Dependency, MavenCoordinate, Scope};
use jv::parser::pom::Pom;
use jv::resolver::simple::{direct_artifacts, resolved_from_downloads};
use jv::Version;

#[test]
fn direct_artifacts_follow_declarations() {
    let mut war = Dependency::new("g", "web", "1");
    war.dep_type = Some("war".into());
    let mut jar = Dependency::new("g", "lib", "2");
    jar.dep_type = Some("jar".into());
    jar.classifier = Some("sources".into());
    let pom = Pom {
        coordinate: MavenCoordinate::new("r", "root", Version::new("1")),
        parent: None,
        packaging: "jar".into(),
        properties: vec![],
        dependencies: vec![war, jar, Dependency::new("g", "t", "3").with_scope(Scope::Test)],
        dependency_management: vec![],
        modules: vec![],
    };
    let arts = direct_artifacts(&pom);
    assert_eq!(arts.len(), 2);
    assert_eq!(arts[0].extension, "war");
    assert_eq!(arts[1].extension, "jar");
    assert_eq!(arts[1].classifier.as_deref(), Some("sources"));
}

#[test]
fn resolved_from_fetched_artifacts() {
    let root = MavenCoordinate::new("r", "root", Version::new("1"));
    let ok = DownloadResult {
        artifact: Artifact::jar(MavenCoordinate::new("g", "a", Version::new("1"))),
        path: Some("/tmp/a.jar".into()),
        cached: true,
        error: None,
    };
    let failed = DownloadResult {
        artifact: Artifact::jar(MavenCoordinate::new("g", "b", Version::new("1"))),
        path: None,
        cached: false,
        error: Some("404".into()),
    };
    let r = resolved_from_downloads(&root, &vec![ok, failed]);
    assert_eq!(r.len(), 1);
    assert_eq!(r[0].coordinate.artifact_id, "a");
    assert_eq!(r[0].scope, Scope::Compile);
    assert_eq!(r[0].depended_by.as_ref(), Some(&root));
    assert_eq!(r[0].artifacts.len(), 1);
}
