use jv::models::{Artifact, Dependency, Exclusion, MavenCoordinate, ResolvedDependency, Scope};
use jv::Version;

fn coord(g: &str, a: &str, v: &str) -> MavenCoordinate {
    MavenCoordinate::new(g, a, Version::new(v))
}

#[test]
fn coordinate_paths() {
    let c = coord("com.google.guava", "guava", "33.2.1-jre");
    assert_eq!(c.path(), "com/google/guava/guava");
    assert_eq!(
        c.repository_path(".jar", None),
        "com/google/guava/guava/33.2.1-jre/guava-33.2.1-jre.jar"
    );
    assert_eq!(
        c.repository_path(".jar", Some("sources")),
        "com/google/guava/guava/33.2.1-jre/guava-33.2.1-jre-sources.jar"
    );
    assert_eq!(
        c.repository_path(".jar", Some("")),
        "com/google/guava/guava/33.2.1-jre/guava-33.2.1-jre.jar"
    );
    assert_eq!(c.to_string(), "com.google.guava:guava:33.2.1-jre");
}

#[test]
fn scope_classpaths() {
    assert!(Scope::Compile.is_compile() && Scope::Provided.is_compile() && Scope::System.is_compile());
    assert!(!Scope::Runtime.is_compile() && !Scope::Test.is_compile());
    assert!(Scope::Compile.is_runtime() && Scope::Runtime.is_runtime());
    assert!(!Scope::Provided.is_runtime());
    assert!(Scope::Compile.is_transitive() && Scope::Runtime.is_transitive() && Scope::Import.is_transitive());
    assert!(!Scope::Test.is_transitive() && !Scope::Provided.is_transitive() && !Scope::System.is_transitive());
    assert_eq!(Scope::default(), Scope::Compile);
}

#[test]
fn scope_names() {
    assert_eq!(Scope::from_str("COMPILE").unwrap(), Scope::Compile);
    assert_eq!(Scope::from_str("").unwrap(), Scope::Compile);
    assert_eq!(Scope::from_str("Runtime").unwrap(), Scope::Runtime);
    assert_eq!(Scope::from_str("import").unwrap(), Scope::Import);
    assert_eq!(Scope::from_str("BoGuS").unwrap_err(), "unknown scope: bogus");
    for s in [Scope::Compile, Scope::Runtime, Scope::Test, Scope::Provided, Scope::System, Scope::Import] {
        assert_eq!(Scope::from_str(&s.to_string()).unwrap(), s);
    }
    assert_eq!(Scope::Provided.to_string(), "provided");
}

#[test]
fn exclusions_match_with_wildcards() {
    let any = Exclusion { group_id: "*".into(), artifact_id: "*".into() };
    assert!(any.matches("x", "y"));
    let group = Exclusion { group_id: "g".into(), artifact_id: "*".into() };
    assert!(group.matches("g", "anything"));
    assert!(!group.matches("h", "anything"));
    let exact = Exclusion { group_id: "g".into(), artifact_id: "a".into() };
    assert!(exact.matches("g", "a"));
    assert!(!exact.matches("g", "b"));
}

#[test]
fn dependency_defaults_and_scope() {
    let d = Dependency::new("org.apache.commons", "commons-lang3", "3.14.0");
    assert_eq!(d.coordinate.version.raw, "3.14.0");
    assert_eq!(d.scope, Scope::Compile);
    assert!(!d.optional && d.exclusions.is_empty() && d.classifier.is_none() && d.dep_type.is_none());
    let t = d.with_scope(Scope::Test);
    assert_eq!(t.scope, Scope::Test);
    assert_eq!(t.coordinate.artifact_id, "commons-lang3");
    assert_eq!(Dependency::new("g", "a", "").coordinate.version.raw, "");
}

#[test]
fn artifacts_and_resolved_entries() {
    let j = Artifact::jar(coord("g", "a", "1"));
    assert_eq!(j.extension, "jar");
    assert!(j.classifier.is_none() && j.sha1.is_none());
    let p = Artifact::pom(coord("g", "a", "1"));
    assert_eq!(p.extension, "pom");
    let r = ResolvedDependency::new(coord("g", "a", "1"), Scope::Runtime);
    assert_eq!(r.scope, Scope::Runtime);
    assert!(!r.optional && r.depended_by.is_none() && r.artifacts.is_empty());
}

#[test]
fn values_parse_from_text() {
    assert_eq!("Runtime".parse::<Scope>(), Ok(Scope::Runtime));
    assert_eq!("weird".parse::<Scope>(), Err("unknown scope: weird".to_string()));
    assert_eq!("1.2".parse::<jv::Version>().unwrap().raw, "1.2");
    assert!(" ".parse::<jv::Version>().is_err());
    let r = "[1,2)".parse::<jv::VersionRange>().unwrap();
    assert!(r.contains(&jv::Version::new("1.5")));
}

#[test]
fn scope_names_parse_in_any_case() {
    for s in [Scope::Compile, Scope::Runtime, Scope::Test, Scope::Provided, Scope::System, Scope::Import] {
        assert_eq!(Scope::from_str(&s.to_string()), Ok(s));
        assert_eq!(Scope::from_str(&s.to_string().to_uppercase()), Ok(s));
    }
    assert_eq!(Scope::from_str(""), Ok(Scope::Compile));
    assert_eq!(Scope::from_str("Bogus"), Err("unknown scope: bogus".to_string()));
}
