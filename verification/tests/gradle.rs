use jv::models::Scope;
use jv::parser::gradle::{dependencies_from_captures, parse_build_gradle};

#[test]
fn parses_common_gradle_dependency_notation() {
    let build = r#"
            dependencies {
                implementation 'com.google.guava:guava:33.2.1-jre'
                api "org.apache.commons:commons-lang3:3.14.0"
                testImplementation('junit:junit:4.13.2')
            }
        "#;

    let deps = parse_build_gradle(build);
    assert_eq!(deps.len(), 3);

    assert_eq!(deps[0].coordinate.group_id, "com.google.guava");
    assert_eq!(deps[0].scope, Scope::Compile);

    assert_eq!(deps[2].coordinate.artifact_id, "junit");
    assert_eq!(deps[2].scope, Scope::Test);
}

#[test]
fn gradle_configurations_and_versions() {
    let build = "runtimeOnly 'a:b:1'\ntestRuntimeOnly \"c:d:2\"\ncompileOnly 'e:f:3'\nimplementation 'g:h'\n";
    let deps = parse_build_gradle(build);
    let got: Vec<_> = deps
        .iter()
        .map(|d| (d.coordinate.to_string(), d.scope))
        .collect();
    assert_eq!(got, vec![("a:b:1".to_string(), Scope::Compile), ("c:d:2".to_string(), Scope::Test)]);
    assert!(deps.iter().all(|d| !d.optional && d.exclusions.is_empty()));
}

#[test]
fn captures_with_blank_versions_declare_nothing() {
    let s = |x: &str| Some(x.to_string());
    let caps = vec![
        vec![s("whole"), s("api"), s("g"), s("a"), s(" ")],
        vec![s("whole"), s("testImplementation"), s("g"), s("b"), s("1")],
        vec![s("whole"), s("api"), None, s("c"), s("1")],
    ];
    let deps = dependencies_from_captures(&caps);
    assert_eq!(deps.len(), 1);
    assert_eq!(deps[0].coordinate.to_string(), "g:b:1");
    assert_eq!(deps[0].scope, Scope::Test);
}
