use jv::models::{Dependency, MavenCoordinate, Scope};
use jv::parser::pom::Pom;
use jv::resolver::effective::{interpolate, EffectivePom, ParentWalk};
use jv::Version;

fn props(p: &[(&str, &str)]) -> Vec<(String, String)> {
    p.iter().map(|(k, v)| (k.to_string(), v.to_string())).collect()
}

#[test]
fn interpolates_properties() {
    let ps = props(&[("a", "1.0"), ("b", "${a}-x")]);
    assert_eq!(interpolate(&ps, "${a}"), "1.0");
    assert_eq!(interpolate(&ps, "${b}"), "1.0-x");
    assert_eq!(interpolate(&ps, "v${a}v${a}"), "v1.0v1.0");
    assert_eq!(interpolate(&ps, "plain"), "plain");
    assert_eq!(interpolate(&ps, "${missing}"), "${missing}");
}

#[test]
fn project_version_placeholder() {
    let ps = props(&[("project.version", "3.2")]);
    assert_eq!(interpolate(&ps, "${project.version}"), "3.2");
}

#[test]
fn interpolation_stops_after_ten_rounds() {
    let ps = props(&[("a", "${a}x")]);
    assert_eq!(interpolate(&ps, "${a}"), "${a}xxxxxxxxxx");
}

fn pom(g: &str, a: &str, v: &str, properties: Vec<(String, String)>, deps: Vec<Dependency>, managed: Vec<Dependency>) -> Pom {
    Pom {
        coordinate: MavenCoordinate::new(g, a, Version::new(v)),
        parent: None,
        packaging: "jar".into(),
        properties,
        dependencies: deps,
        dependency_management: managed,
        modules: vec![],
    }
}

#[test]
fn nearer_poms_win_when_merging() {
    let child = pom(
        "org.acme",
        "child",
        "2.0",
        props(&[("lib.version", "5")]),
        vec![Dependency::new("x", "direct", "${lib.version}"), Dependency::new("x", "own", "${project.version}")],
        vec![Dependency::new("m", "shared", "child-managed")],
    );
    let parent = pom(
        "org.acme",
        "parent",
        "1.0",
        props(&[("lib.version", "4"), ("only.parent", "p")]),
        vec![Dependency::new("x", "inherited", "${only.parent}")],
        vec![Dependency::new("m", "shared", "parent-managed"), Dependency::new("m", "other", "${lib.version}")],
    );
    let target = MavenCoordinate::new("org.acme", "child", Version::new("2.0"));
    let e = EffectivePom::from_chain(&target, &vec![child, parent]);
    assert_eq!(e.coordinate, target);
    let get = |k: &str| e.properties.iter().find(|(x, _)| x == k).map(|(_, v)| v.clone());
    assert_eq!(get("lib.version").as_deref(), Some("5"));
    assert_eq!(get("only.parent").as_deref(), Some("p"));
    assert_eq!(get("project.version").as_deref(), Some("2.0"));
    assert_eq!(get("project.artifactId").as_deref(), Some("child"));
    let names: Vec<_> = e.dependencies.iter().map(|d| d.coordinate.artifact_id.clone()).collect();
    assert_eq!(names, vec!["inherited", "direct", "own"]);
    let versions: Vec<_> = e.dependencies.iter().map(|d| d.coordinate.version.raw.clone()).collect();
    assert_eq!(versions, vec!["p", "5", "2.0"]);
    assert_eq!(e.dependency_management.len(), 2);
    assert_eq!(e.dependency_management[0].coordinate.version.raw, "child-managed");
    assert_eq!(e.dependency_management[1].coordinate.version.raw, "5");
}

#[test]
fn blank_interpolation_keeps_version() {
    let p = pom("g", "a", "1", props(&[("empty", " ")]), vec![Dependency::new("x", "y", "${empty}")], vec![]);
    let target = MavenCoordinate::new("g", "a", Version::new("1"));
    let e = EffectivePom::from_chain(&target, &vec![p]);
    assert_eq!(e.dependencies[0].coordinate.version.raw, "${empty}");
}

#[test]
fn parent_walk_stops_on_repeats_and_length() {
    let mut w = ParentWalk::new();
    let a = MavenCoordinate::new("g", "a", Version::new("1"));
    let a2 = MavenCoordinate::new("g", "a", Version::new("2"));
    assert!(w.should_fetch(&a));
    assert!(!w.should_fetch(&a2));
    let mut w2 = ParentWalk::new();
    for i in 0..50 {
        assert!(w2.should_fetch(&MavenCoordinate::new("g", &format!("a{i}"), Version::new("1"))));
    }
    assert!(!w2.should_fetch(&MavenCoordinate::new("g", "fresh", Version::new("1"))));
}

#[test]
fn imported_boms_are_merged_below_declared_entries() {
    let bom_import = Dependency::new("org.boot", "boot-deps", "3.0").with_scope(Scope::Import);
    let own = pom(
        "g",
        "app",
        "1",
        vec![],
        vec![],
        vec![bom_import, Dependency::new("x", "shared", "own")],
    );
    let target = MavenCoordinate::new("g", "app", Version::new("1"));
    let e = EffectivePom::from_chain(&target, &vec![own]);
    let imports: Vec<_> = e.imported_boms().iter().map(|c| c.to_string()).collect();
    assert_eq!(imports, vec!["org.boot:boot-deps:3.0"]);
    let bom_coord = MavenCoordinate::new("org.boot", "boot-deps", Version::new("3.0"));
    let bom = EffectivePom::from_chain(
        &bom_coord,
        &vec![pom(
            "org.boot",
            "boot-deps",
            "3.0",
            vec![],
            vec![],
            vec![Dependency::new("x", "shared", "bom"), Dependency::new("y", "only-bom", "2")],
        )],
    );
    let other = EffectivePom::from_chain(
        &bom_coord,
        &vec![pom("o", "o", "1", vec![], vec![], vec![Dependency::new("y", "only-bom", "9")])],
    );
    let merged = e.with_imports(&vec![bom, other]);
    let got: Vec<_> = merged.dependency_management.iter().map(|d| d.coordinate.to_string()).collect();
    assert_eq!(got, vec!["x:shared:own", "y:only-bom:2"]);
}
