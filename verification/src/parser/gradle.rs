//! Very basic Gradle build file reading (declarative `dependencies {}` only).
//!
//! Handles the most common notations of real `build.gradle` /
//! `build.gradle.kts` files, e.g. `implementation 'g:a:v'`,
//! `api "g:a:v"`, `testImplementation("g:a:v")`. Full Groovy/Kotlin DSL
//! execution is out of scope.

use vstd::prelude::*;
use crate::models::{deps_view, CoordinateView, Dependency, DependencyView, Scope};
use crate::text::{chars_of, is_word, trim};
use crate::models::version::Version;

verus! {

/// The dependency declarations that are recognized: a configuration,
/// optional white space or `(`, then `'group:artifact:version'` in single or
/// double quotes.
pub const GRADLE_DEPENDENCY_PATTERN: &'static str = "(?x)
        (implementation|api|compile|runtimeOnly|testImplementation|testRuntimeOnly)
        \\s*[\\(\\s]?
        ['\"]([^:'\"]+):([^:'\"]+):([^:'\"]+)['\"]
        [\\)\\s]?
    ";

/// The capture groups (group 0 first) of every successive non-overlapping
/// match of `pattern` in `text`, as the `regex` crate finds them; `None`
/// when `pattern` is not a valid regular expression.
pub uninterp spec fn regex_captures_of(pattern: Seq<char>, text: Seq<char>) -> Option<
    Seq<Seq<Option<Seq<char>>>>,
>;

/// View of captured groups.
pub open spec fn groups_view(g: Seq<Option<String>>) -> Seq<Option<Seq<char>>> {
    g.map_values(|o: Option<String>| match o {
        Some(s) => Some(s@),
        None => None,
    })
}

/// View of the captures of a whole text.
pub open spec fn captures_view(c: Seq<Vec<Option<String>>>) -> Seq<Seq<Option<Seq<char>>>> {
    c.map_values(|g: Vec<Option<String>>| groups_view(g@))
}

/// `regex::Regex::new(pattern)` and, when it compiles, `captures_iter(text)`
/// with every group of every match taken as text.
#[verifier::external_body]
fn regex_captures(pattern: &str, text: &str) -> (r: Option<Vec<Vec<Option<String>>>>)
    ensures
        match r {
            Some(c) => regex_captures_of(pattern@, text@) == Some(captures_view(c@)),
            None => regex_captures_of(pattern@, text@) is None,
        },
{
    let re = regex::Regex::new(pattern).ok()?;
    Some(
        re.captures_iter(text).map(
            |c| c.iter().map(|m| m.map(|m| m.as_str().to_string())).collect(),
        ).collect(),
    )
}

/// The scope of a Gradle configuration: test for `testImplementation` and
/// `testRuntimeOnly`, compile otherwise.
pub open spec fn configuration_scope(config: Seq<char>) -> Scope {
    if config == "testImplementation"@ || config == "testRuntimeOnly"@ {
        Scope::Test
    } else {
        Scope::Compile
    }
}

/// The dependency one match declares: groups 1 to 4 are configuration,
/// group, artifact and version; a blank version declares nothing.
pub open spec fn gradle_dependency(g: Seq<Option<Seq<char>>>) -> Option<DependencyView> {
    if g.len() < 5 || g[1] is None || g[2] is None || g[3] is None || g[4] is None {
        None
    } else if trim(g[4].unwrap()).len() == 0 {
        None
    } else {
        Some(
            DependencyView {
                coordinate: CoordinateView {
                    group: g[2].unwrap(),
                    artifact: g[3].unwrap(),
                    version: g[4].unwrap(),
                },
                scope: configuration_scope(g[1].unwrap()),
                optional: false,
                exclusions: Seq::empty(),
                classifier: None,
                dep_type: None,
            },
        )
    }
}

/// The dependencies that a sequence of matches declares, in order.
pub open spec fn gradle_dependencies(cs: Seq<Seq<Option<Seq<char>>>>) -> Seq<DependencyView>
    decreases cs.len(),
{
    if cs.len() == 0 {
        Seq::empty()
    } else {
        let rest = gradle_dependencies(cs.drop_last());
        match gradle_dependency(cs.last()) {
            Some(d) => rest.push(d),
            None => rest,
        }
    }
}

/// The dependencies declared by the given matches.
pub fn dependencies_from_captures(caps: &Vec<Vec<Option<String>>>) -> (r: Vec<Dependency>)
    ensures
        deps_view(r@) == gradle_dependencies(captures_view(caps@)),
{
    let ghost cv = captures_view(caps@);
    let mut r: Vec<Dependency> = Vec::new();
    let mut i: usize = 0;
    while i < caps.len()
        invariant
            i <= caps.len(),
            cv == captures_view(caps@),
            deps_view(r@) == gradle_dependencies(cv.take(i as int)),
        decreases caps.len() - i,
    {
        assert(cv.take(i + 1).drop_last() =~= cv.take(i as int));
        assert(cv.take(i + 1).last() == groups_view(caps@[i as int]@));
        let g = &caps[i];
        if g.len() >= 5 {
            assert(groups_view(g@)[1] == match g@[1] {
                Some(s) => Some(s@),
                None => None::<Seq<char>>,
            });
            match (&g[1], &g[2], &g[3], &g[4]) {
                (Some(config), Some(group), Some(artifact), Some(version)) => {
                    match Version::parse(version.as_str()) {
                        Ok(ver) => {
                            let c = chars_of(config.as_str());
                            let scope = if is_word(c.as_slice(), "testImplementation") || is_word(
                                c.as_slice(),
                                "testRuntimeOnly",
                            ) {
                                Scope::Test
                            } else {
                                Scope::Compile
                            };
                            let mut dep = Dependency::new(group.as_str(), artifact.as_str(), "");
                            dep.coordinate.version = ver;
                            dep.scope = scope;
                            let ghost before = deps_view(r@);
                            r.push(dep);
                            assert(dep@.exclusions =~= Seq::<crate::models::ExclusionView>::empty());
                            assert(deps_view(r@) =~= before.push(dep@));
                        },
                        Err(_) => {},
                    }
                },
                _ => {},
            }
        }
        i = i + 1;
    }
    assert(cv.take(caps.len() as int) =~= cv);
    r
}

/// Extremely lightweight Gradle dependency extractor: the dependencies
/// declared by the matches of `GRADLE_DEPENDENCY_PATTERN` in `content`.
pub fn parse_build_gradle(content: &str) -> (r: Vec<Dependency>)
    ensures
        match regex_captures_of(GRADLE_DEPENDENCY_PATTERN@, content@) {
            Some(c) => deps_view(r@) == gradle_dependencies(c),
            None => r@.len() == 0,
        },
{
    match regex_captures(GRADLE_DEPENDENCY_PATTERN, content) {
        Some(caps) => dependencies_from_captures(&caps),
        None => Vec::new(),
    }
}

/// A Gradle test configuration (`testImplementation`, `testRuntimeOnly`).
pub open spec fn is_test_configuration(config: Seq<char>) -> bool {
    config == "testImplementation"@ || config == "testRuntimeOnly"@
}

/// `d` is read from match `m`: it has the match's group, artifact and
/// version, and the test scope exactly when the match's configuration is a
/// test one, the compile scope otherwise (`implementation`, `api`,
/// `compile`, `runtimeOnly`).
pub open spec fn read_from_match(d: DependencyView, m: Seq<Option<Seq<char>>>) -> bool {
    &&& m.len() >= 5
    &&& m[1] is Some && m[2] is Some && m[3] is Some && m[4] is Some
    &&& d.coordinate.group == m[2].unwrap()
    &&& d.coordinate.artifact == m[3].unwrap()
    &&& d.coordinate.version == m[4].unwrap()
    &&& (d.scope == Scope::Test <==> is_test_configuration(m[1].unwrap()))
    &&& (d.scope == Scope::Test || d.scope == Scope::Compile)
    &&& !d.optional
    &&& d.exclusions.len() == 0
}

/// `d` is read from one of the matches `cs`.
pub open spec fn read_from_one_of(d: DependencyView, cs: Seq<Seq<Option<Seq<char>>>>) -> bool {
    exists|j: int| 0 <= j < cs.len() && #[trigger] read_from_match(d, cs[j])
}

/// Every dependency read from Gradle matches is read from one of them (see
/// `read_from_match`): in particular only the test configurations give the
/// test scope, and every other configuration gives the compile scope.
pub proof fn lemma_gradle_scopes(cs: Seq<Seq<Option<Seq<char>>>>)
    ensures
        forall|k: int|
            0 <= k < gradle_dependencies(cs).len() ==> #[trigger] read_from_one_of(
                gradle_dependencies(cs)[k],
                cs,
            ),
    decreases cs.len(),
{
    if cs.len() > 0 {
        let init = cs.drop_last();
        lemma_gradle_scopes(init);
        let r = gradle_dependencies(cs);
        let ri = gradle_dependencies(init);
        assert forall|k: int| 0 <= k < r.len() implies #[trigger] read_from_one_of(r[k], cs) by {
            if k < ri.len() {
                assert(r[k] == ri[k]);
                assert(read_from_one_of(ri[k], init));
                let j = choose|j: int| 0 <= j < init.len() && #[trigger] read_from_match(ri[k], init[j]);
                assert(cs[j] == init[j]);
                assert(read_from_match(r[k], cs[j]));
            } else {
                let j = cs.len() - 1;
                assert(cs[j] == cs.last());
                assert(read_from_match(r[k], cs[j]));
            }
        }
    }
}

} // verus!
