use jv::error::JvError;
use jv::models::Scope;
use jv::parser::pom::{
    Dependencies, DependencyManagement, DependencyXml, ExclusionXml, ExclusionsXml, Modules, Parent,
    Pom, Project, Properties,
};

fn s(x: &str) -> Option<String> {
    Some(x.to_string())
}

fn dep(g: &str, a: &str, v: Option<&str>) -> DependencyXml {
    DependencyXml {
        group_id: s(g),
        artifact_id: s(a),
        version: v.map(|x| x.to_string()),
        ..Default::default()
    }
}

/// The project that `<project><groupId>com.example</groupId><artifactId>demo</artifactId>
/// <version>1.0.0</version><dependencies><dependency>org.apache.commons:commons-lang3:3.14.0
/// </dependency></dependencies></project>` is read into.
fn simple_project() -> Project {
    Project {
        group_id: s("com.example"),
        artifact_id: s("demo"),
        version: s("1.0.0"),
        dependencies: Some(Dependencies {
            entries: vec![dep("org.apache.commons", "commons-lang3", Some("3.14.0"))],
        }),
        ..Default::default()
    }
}

#[test]
fn converts_simple_project() {
    let pom = Pom::from_project(simple_project()).expect("should convert");
    assert_eq!(pom.coordinate.group_id, "com.example");
    assert_eq!(pom.coordinate.artifact_id, "demo");
    assert_eq!(pom.coordinate.version.raw, "1.0.0");
    assert_eq!(pom.dependencies.len(), 1);
    assert_eq!(pom.dependencies[0].coordinate.group_id, "org.apache.commons");
    assert_eq!(pom.packaging, "jar");
    assert!(pom.parent.is_none());
    assert!(pom.properties.is_empty() && pom.modules.is_empty() && pom.dependency_management.is_empty());
}

#[test]
fn inherits_group_and_version_from_parent() {
    let p = Project {
        artifact_id: s("child"),
        packaging: s("pom"),
        parent: Some(Parent {
            group_id: "org.acme".into(),
            artifact_id: "parent".into(),
            version: "7".into(),
            relative_path: None,
        }),
        properties: Some(Properties { entries: vec![("k".into(), "v".into())] }),
        modules: Some(Modules { entries: vec!["m1".into(), "m2".into()] }),
        ..Default::default()
    };
    let pom = Pom::from_project(p).unwrap();
    assert_eq!(pom.coordinate.group_id, "org.acme");
    assert_eq!(pom.coordinate.version.raw, "7");
    assert_eq!(pom.parent.as_ref().unwrap().artifact_id, "parent");
    assert_eq!(pom.packaging, "pom");
    assert_eq!(pom.properties, vec![("k".to_string(), "v".to_string())]);
    assert_eq!(pom.modules, vec!["m1".to_string(), "m2".to_string()]);
}

fn reason(r: Result<Pom, JvError>) -> String {
    match r {
        Err(JvError::PomParse { coord, reason }) => {
            assert_eq!(coord, "unknown");
            reason
        }
        other => panic!("unexpected {:?}", other),
    }
}

#[test]
fn reports_missing_coordinates() {
    let no_group = Project { artifact_id: s("a"), version: s("1"), ..Default::default() };
    assert_eq!(reason(Pom::from_project(no_group)), "missing groupId (and no parent to inherit from)");
    let no_artifact = Project { group_id: s("g"), version: s("1"), ..Default::default() };
    assert_eq!(reason(Pom::from_project(no_artifact)), "missing artifactId");
    let no_version = Project { group_id: s("g"), artifact_id: s("a"), ..Default::default() };
    assert_eq!(reason(Pom::from_project(no_version)), "missing version (and no parent to inherit from)");
}

#[test]
fn converts_dependency_details() {
    let mut with_scope = dep("g", "scoped", Some("1"));
    with_scope.scope = s("TEST");
    let mut unknown_scope = dep("g", "unknown", Some("1"));
    unknown_scope.scope = s("weird");
    let mut opt = dep("g", "opt", Some("1"));
    opt.optional = s("TRUE");
    let mut not_opt = dep("g", "notopt", Some("1"));
    not_opt.optional = s("yes");
    let mut excl = dep("g", "excl", Some("1"));
    excl.exclusions = Some(ExclusionsXml {
        entries: vec![
            ExclusionXml { group_id: s("x"), artifact_id: s("y") },
            ExclusionXml { group_id: s("only-group"), artifact_id: None },
        ],
    });
    excl.classifier = s("sources");
    excl.dep_type = s("war");
    let no_group = DependencyXml { artifact_id: s("a"), ..Default::default() };
    let entries = vec![
        dep("g", "managed", None),
        with_scope,
        unknown_scope,
        opt,
        not_opt,
        excl,
        no_group,
    ];
    let out = Pom::convert_dependencies(&entries, &Vec::new());
    assert_eq!(out.len(), 6);
    assert_eq!(out[0].coordinate.version.raw, "managed");
    assert_eq!(out[1].scope, Scope::Test);
    assert_eq!(out[2].scope, Scope::Compile);
    assert!(out[3].optional);
    assert!(!out[4].optional);
    assert_eq!(out[5].exclusions.len(), 1);
    assert_eq!(out[5].exclusions[0].group_id, "x");
    assert_eq!(out[5].classifier.as_deref(), Some("sources"));
    assert_eq!(out[5].dep_type.as_deref(), Some("war"));
}

#[test]
fn managed_dependencies_are_converted() {
    let p = Project {
        group_id: s("g"),
        artifact_id: s("a"),
        version: s("1"),
        dependency_management: Some(DependencyManagement {
            dependencies: Some(Dependencies { entries: vec![dep("x", "y", Some("2"))] }),
        }),
        ..Default::default()
    };
    let pom = Pom::from_project(p).unwrap();
    assert_eq!(pom.dependency_management.len(), 1);
    assert_eq!(pom.dependency_management[0].coordinate.version.raw, "2");
}
