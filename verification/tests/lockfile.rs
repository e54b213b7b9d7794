use jv::lockfile::LockFile;
use jv::models::{MavenCoordinate, ResolvedDependency, Scope};
use jv::Version;

fn resolved(g: &str, a: &str, v: &str, scope: Scope, optional: bool) -> ResolvedDependency {
    let mut r = ResolvedDependency::new(MavenCoordinate::new(g, a, Version::new(v)), scope);
    r.optional = optional;
    r
}

#[test]
fn lock_entries_are_sorted_by_gav() {
    let input = vec![
        resolved("org.b", "x", "1", Scope::Compile, false),
        resolved("org.a", "y", "2", Scope::Runtime, true),
        resolved("org.a", "x", "10", Scope::Test, false),
        resolved("org.a", "x", "1", Scope::Provided, false),
    ];
    let lock = LockFile::from_resolved_at(&input, "42".to_string());
    assert_eq!(lock.version, 1);
    assert_eq!(lock.created_at, "42");
    let keys: Vec<_> = lock
        .dependencies
        .iter()
        .map(|d| format!("{}:{}:{}:{}:{}", d.group, d.artifact, d.version, d.scope, d.optional))
        .collect();
    assert_eq!(
        keys,
        vec![
            "org.a:x:1:provided:false",
            "org.a:x:10:test:false",
            "org.a:y:2:runtime:true",
            "org.b:x:1:compile:false",
        ]
    );
}

#[test]
fn lock_created_now_is_a_number() {
    let lock = LockFile::from_resolved(&[]);
    assert!(!lock.created_at.is_empty());
    assert!(lock.created_at.chars().all(|c| c.is_ascii_digit()));
    assert!(lock.created_at.parse::<u64>().unwrap() > 1_600_000_000);
    assert!(lock.dependencies.is_empty());
}

#[test]
fn lock_entries_with_the_same_key_keep_their_order() {
    let scopes = |lock: &LockFile| -> Vec<String> {
        lock.dependencies.iter().map(|d| format!("{}:{}", d.version, d.scope)).collect()
    };
    let input = vec![
        resolved("g", "a", "2", Scope::Runtime, false),
        resolved("g", "a", "1", Scope::Test, false),
        resolved("g", "a", "1", Scope::Compile, false),
    ];
    let lock = LockFile::from_resolved_at(&input, "0".to_string());
    assert_eq!(scopes(&lock), vec!["1:test", "1:compile", "2:runtime"]);
    let reversed: Vec<_> = vec![
        resolved("g", "a", "1", Scope::Compile, false),
        resolved("g", "a", "1", Scope::Test, false),
        resolved("g", "a", "2", Scope::Runtime, false),
    ];
    let lock = LockFile::from_resolved_at(&reversed, "0".to_string());
    assert_eq!(scopes(&lock), vec!["1:compile", "1:test", "2:runtime"]);
}

#[test]
fn lock_entries_do_not_depend_on_input_order() {
    let a = vec![
        resolved("org.b", "x", "1", Scope::Compile, false),
        resolved("org.a", "y", "2", Scope::Runtime, true),
        resolved("org.a", "x", "1", Scope::Test, false),
    ];
    let b = vec![
        resolved("org.a", "x", "1", Scope::Test, false),
        resolved("org.b", "x", "1", Scope::Compile, false),
        resolved("org.a", "y", "2", Scope::Runtime, true),
    ];
    let text = |l: &LockFile| -> Vec<String> {
        l.dependencies
            .iter()
            .map(|d| format!("{}:{}:{}:{}:{}", d.group, d.artifact, d.version, d.scope, d.optional))
            .collect()
    };
    let la = LockFile::from_resolved_at(&a, "1".to_string());
    let lb = LockFile::from_resolved_at(&b, "2".to_string());
    assert_eq!(text(&la), text(&lb));
}
