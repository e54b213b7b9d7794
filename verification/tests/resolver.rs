use jv::models::{Dependency, Exclusion, MavenCoordinate, Scope};
use jv::parser::pom::Pom;
use jv::resolver::effective::EffectivePom;
use jv::resolver::transitive::{
    needs_available_versions, range_accepts, resolve_best_version, TransitiveResolver,
};
use jv::Version;

fn coord(g: &str, a: &str, v: &str) -> MavenCoordinate {
    MavenCoordinate::new(g, a, Version::new(v))
}

#[test]
fn ranges_accept_versions() {
    assert!(range_accepts(&Version::new("managed"), &Version::new("9")));
    assert!(range_accepts(&Version::new("[1,2]"), &Version::new("1.5")));
    assert!(!range_accepts(&Version::new("[1,2]"), &Version::new("2.5")));
    assert!(range_accepts(&Version::new("1.0"), &Version::new("1.0")));
    assert!(!range_accepts(&Version::new("1.0"), &Version::new("1")));
    assert!(!range_accepts(&Version::new("[1"), &Version::new("1")));
    assert!(range_accepts(&Version::new("[1"), &Version::new("[1")));
}

fn versions(vs: &[&str]) -> Vec<Version> {
    vs.iter().map(|v| Version::new(v)).collect()
}

#[test]
fn best_versions() {
    let none: Vec<Version> = vec![];
    assert_eq!(resolve_best_version(&coord("g", "a", "1.0"), &none).raw, "1.0");
    assert_eq!(resolve_best_version(&coord("g", "a", "[1.0,2.0)"), &none).raw, "1.0");
    assert_eq!(resolve_best_version(&coord("g", "a", "(,2.0]"), &none).raw, "(,2.0]");
    assert_eq!(resolve_best_version(&coord("g", "a", "managed"), &none).raw, "managed");
    assert_eq!(resolve_best_version(&coord("g", "a", "1.+"), &none).raw, "1");
    assert_eq!(resolve_best_version(&coord("g", "a", " 2.0 "), &none).raw, "2.0");
}

#[test]
fn ranges_pick_the_highest_available_version() {
    let avail = versions(&["1.0", "1.5", "2.0"]);
    assert_eq!(resolve_best_version(&coord("g", "a", "[1.0,2.0)"), &avail).raw, "1.5");
    assert_eq!(resolve_best_version(&coord("g", "a", "[1.0,2.0]"), &avail).raw, "2.0");
    assert_eq!(resolve_best_version(&coord("g", "a", "1.+"), &avail).raw, "1.5");
    assert_eq!(resolve_best_version(&coord("g", "a", "[3,4)"), &avail).raw, "3");
    assert_eq!(resolve_best_version(&coord("g", "a", "1.0"), &avail).raw, "1.0");
    let ties = versions(&["1.5", "1.5.0", "1.2"]);
    assert_eq!(resolve_best_version(&coord("g", "a", "[1,2)"), &ties).raw, "1.5");
    assert!(needs_available_versions(&coord("g", "a", "[1.0,2.0)")));
    assert!(!needs_available_versions(&coord("g", "a", "1.0")));
    assert!(!needs_available_versions(&coord("g", "a", "managed")));
    assert!(!needs_available_versions(&coord("g", "a", "[1")));
}

/// The next selection with no versions listed as available.
fn next(r: &mut TransitiveResolver) -> Option<(Dependency, MavenCoordinate)> {
    r.pending()?;
    r.select(&vec![])
}

fn root_pom(deps: Vec<Dependency>) -> Pom {
    Pom {
        coordinate: coord("com.example", "root", "1.0"),
        parent: None,
        packaging: "jar".into(),
        properties: vec![],
        dependencies: deps,
        dependency_management: vec![],
        modules: vec![],
    }
}

#[test]
fn nearest_declaration_wins() {
    let mut with_excl = Dependency::new("a", "x", "1.0");
    with_excl.exclusions.push(Exclusion { group_id: "e".into(), artifact_id: "*".into() });
    let root = root_pom(vec![
        with_excl,
        Dependency::new("b", "y", "managed"),
        Dependency::new("c", "z", "2.0").with_scope(Scope::Test),
        Dependency::new("a", "x", "3.0"),
    ]);
    let mut r = TransitiveResolver::new(&root);

    let (dep, c) = next(&mut r).expect("a:x first");
    assert_eq!(c.to_string(), "a:x:1.0");
    assert_eq!(dep.exclusions.len(), 1);

    let effective = EffectivePom {
        coordinate: c.clone(),
        properties: vec![],
        dependencies: vec![
            Dependency::new("d", "w", "managed"),
            Dependency::new("e", "v", "1.0"),
            Dependency::new("f", "u", "1.0").with_scope(Scope::Test),
            Dependency::new("h", "t", "[2.0,3.0)"),
        ],
        dependency_management: vec![Dependency::new("d", "w", "4.0")],
    };
    r.absorb(&dep, &effective);

    let (_, c2) = next(&mut r).expect("d:w next");
    assert_eq!(c2.to_string(), "d:w:4.0");
    let (_, c3) = next(&mut r).expect("h:t next");
    assert_eq!(c3.to_string(), "h:t:2.0");
    assert!(next(&mut r).is_none());

    let res = r.finish(&root.coordinate);
    assert_eq!(res.root, root.coordinate);
    let got: Vec<_> = res.dependencies.iter().map(|d| d.coordinate.to_string()).collect();
    assert_eq!(got, vec!["a:x:1.0", "d:w:4.0", "h:t:2.0"]);
    let parents: Vec<_> = res
        .dependencies
        .iter()
        .map(|d| d.depended_by.as_ref().unwrap().to_string())
        .collect();
    assert_eq!(parents, vec!["com.example:root:1.0", "a:x:1.0", "a:x:1.0"]);
    assert!(res.dependencies.iter().all(|d| d.artifacts.is_empty()));
}

#[test]
fn unresolved_properties_are_dropped_and_order_is_by_group() {
    let root = root_pom(vec![
        Dependency::new("z.group", "late", "1"),
        Dependency::new("a.group", "early", "${missing}"),
        Dependency::new("m.group", "mid", "2").with_scope(Scope::Runtime),
    ]);
    let mut r = TransitiveResolver::new(&root);
    while let Some((dep, c)) = next(&mut r) {
        let e = EffectivePom { coordinate: c, properties: vec![], dependencies: vec![], dependency_management: vec![] };
        r.absorb(&dep, &e);
    }
    let res = r.finish(&root.coordinate);
    let got: Vec<_> = res.dependencies.iter().map(|d| d.coordinate.to_string()).collect();
    assert_eq!(got, vec!["m.group:mid:2", "z.group:late:1"]);
    assert_eq!(res.dependencies[0].scope, Scope::Runtime);
}

#[test]
fn excluded_transitive_dependency_is_not_resolved() {
    let mut guava = Dependency::new("com.google.guava", "guava", "33.2.1-jre");
    guava.exclusions.push(Exclusion {
        group_id: "com.google.code.findbugs".into(),
        artifact_id: "jsr305".into(),
    });
    let root = root_pom(vec![guava]);
    let mut r = TransitiveResolver::new(&root);
    let (dep, c) = next(&mut r).expect("guava first");
    assert_eq!(c.to_string(), "com.google.guava:guava:33.2.1-jre");
    let effective = EffectivePom {
        coordinate: c,
        properties: vec![],
        dependencies: vec![
            Dependency::new("com.google.guava", "failureaccess", "1.0.2"),
            Dependency::new("com.google.code.findbugs", "jsr305", "3.0.2"),
        ],
        dependency_management: vec![],
    };
    r.absorb(&dep, &effective);
    while let Some((d, c)) = next(&mut r) {
        let e = EffectivePom { coordinate: c, properties: vec![], dependencies: vec![], dependency_management: vec![] };
        r.absorb(&d, &e);
    }
    let res = r.finish(&root.coordinate);
    assert!(!res.dependencies.iter().any(|d| d.coordinate.artifact_id == "jsr305"));
    let got: Vec<_> = res.dependencies.iter().map(|d| d.coordinate.to_string()).collect();
    assert_eq!(got, vec!["com.google.guava:failureaccess:1.0.2", "com.google.guava:guava:33.2.1-jre"]);
}

#[test]
fn selection_uses_the_available_versions_and_records_the_parent() {
    let root = root_pom(vec![Dependency::new("a", "x", "1.0")]);
    let mut r = TransitiveResolver::new(&root);
    let d = r.pending().expect("a:x pending");
    assert_eq!(d.coordinate.to_string(), "a:x:1.0");
    let (dep, c) = r.select(&vec![]).expect("a:x selected");
    assert!(r.select(&vec![]).is_none());
    let effective = EffectivePom {
        coordinate: c.clone(),
        properties: vec![],
        dependencies: vec![Dependency::new("b", "y", "[1.0,2.0)")],
        dependency_management: vec![],
    };
    r.absorb(&dep, &effective);
    let b = r.pending().expect("b:y pending");
    assert!(needs_available_versions(&b.coordinate));
    let (_, cb) = r.select(&versions(&["1.0", "1.5", "2.0"])).expect("b:y selected");
    assert_eq!(cb.to_string(), "b:y:1.5");
    assert!(r.pending().is_none());
    let res = r.finish(&root.coordinate);
    let got: Vec<_> = res
        .dependencies
        .iter()
        .map(|d| format!("{} <- {}", d.coordinate.to_string(), d.depended_by.as_ref().unwrap().to_string()))
        .collect();
    assert_eq!(got, vec!["a:x:1.0 <- com.example:root:1.0", "b:y:1.5 <- a:x:1.0"]);
}
