//! The POM model: the document structure of a `pom.xml` (as plain values)
//! and its conversion into the resolver's high-level `Pom`.
//!
//! Reading the XML text into a `Project` is done by the application with
//! `quick-xml`; everything after that is here.

use vstd::prelude::*;
use crate::error::{JvError, is_pom_parse_error};
use crate::models::{
    clone_opt_string, deps_view, exclusions_view, opt_str_view, CoordinateView, Dependency,
    DependencyView, Exclusion, ExclusionView, MavenCoordinate, Scope, scope_parse,
};
use crate::text::{chars_of, eq_ignore_ascii_case, eq_ignore_ascii_case_exec, owned};
use crate::models::version::Version;

verus! {

/// `<project>`: the fields of a POM that resolution needs.
#[derive(Debug, Default)]
pub struct Project {
    pub group_id: Option<String>,
    pub artifact_id: Option<String>,
    pub version: Option<String>,
    pub packaging: Option<String>,
    pub parent: Option<Parent>,
    pub properties: Option<Properties>,
    pub dependencies: Option<Dependencies>,
    pub dependency_management: Option<DependencyManagement>,
    pub modules: Option<Modules>,
    pub name: Option<String>,
    pub description: Option<String>,
}

/// `<parent>`.
#[derive(Debug, Default)]
pub struct Parent {
    pub group_id: String,
    pub artifact_id: String,
    pub version: String,
    pub relative_path: Option<String>,
}

/// `<properties>`: every property as text (non-text values read as empty).
#[derive(Debug, Default)]
pub struct Properties {
    pub entries: Vec<(String, String)>,
}

/// `<dependencies>`.
#[derive(Debug, Default)]
pub struct Dependencies {
    pub entries: Vec<DependencyXml>,
}

/// `<dependency>` as written.
#[derive(Debug, Default)]
pub struct DependencyXml {
    pub group_id: Option<String>,
    pub artifact_id: Option<String>,
    pub version: Option<String>,
    pub scope: Option<String>,
    pub optional: Option<String>,
    pub classifier: Option<String>,
    pub dep_type: Option<String>,
    pub exclusions: Option<ExclusionsXml>,
}

/// `<exclusions>`.
#[derive(Debug, Default)]
pub struct ExclusionsXml {
    pub entries: Vec<ExclusionXml>,
}

/// `<exclusion>` as written.
#[derive(Debug, Default)]
pub struct ExclusionXml {
    pub group_id: Option<String>,
    pub artifact_id: Option<String>,
}

/// `<dependencyManagement>`.
#[derive(Debug, Default)]
pub struct DependencyManagement {
    pub dependencies: Option<Dependencies>,
}

/// `<modules>`.
#[derive(Debug, Default)]
pub struct Modules {
    pub entries: Vec<String>,
}

/// High-level representation of a parsed POM ready for the resolver.
#[derive(Debug)]
pub struct Pom {
    pub coordinate: MavenCoordinate,
    pub parent: Option<MavenCoordinate>,
    pub packaging: String,
    pub properties: Vec<(String, String)>,
    pub dependencies: Vec<Dependency>,
    pub dependency_management: Vec<Dependency>,
    pub modules: Vec<String>,
}

// ---------------------------------------------------------------------
// Specifications
// ---------------------------------------------------------------------

/// Views of key/value text pairs.
pub open spec fn pairs_view(v: Seq<(String, String)>) -> Seq<(Seq<char>, Seq<char>)> {
    v.map_values(|p: (String, String)| (p.0@, p.1@))
}

/// Views of a list of strings.
pub open spec fn strings_view(v: Seq<String>) -> Seq<Seq<char>> {
    v.map_values(|s: String| s@)
}

/// An exclusion as written is kept when it names both group and artifact.
pub open spec fn convert_exclusion(e: ExclusionXml) -> Option<ExclusionView> {
    match (e.group_id, e.artifact_id) {
        (Some(g), Some(a)) => Some(ExclusionView { group: g@, artifact: a@ }),
        _ => None,
    }
}

/// The exclusions kept from a list as written, in order.
pub open spec fn converted_exclusions(es: Seq<ExclusionXml>) -> Seq<ExclusionView>
    decreases es.len(),
{
    if es.len() == 0 {
        Seq::empty()
    } else {
        let rest = converted_exclusions(es.drop_last());
        match convert_exclusion(es.last()) {
            Some(x) => rest.push(x),
            None => rest,
        }
    }
}

/// The scope of a dependency as written: its parsed `<scope>`, or compile
/// when it is missing or unknown.
pub open spec fn declared_scope(s: Option<String>) -> Scope {
    match s {
        Some(t) => match scope_parse(t@) {
            Ok(sc) => sc,
            Err(_) => Scope::Compile,
        },
        None => Scope::Compile,
    }
}

/// A dependency as written is kept when it names group and artifact; a
/// missing version reads `managed`; `<optional>` is true when it reads
/// `true` in any case.
pub open spec fn convert_dependency(d: DependencyXml) -> Option<DependencyView> {
    match (d.group_id, d.artifact_id) {
        (Some(g), Some(a)) => Some(
            DependencyView {
                coordinate: CoordinateView {
                    group: g@,
                    artifact: a@,
                    version: match d.version {
                        Some(v) => v@,
                        None => "managed"@,
                    },
                },
                scope: declared_scope(d.scope),
                optional: match d.optional {
                    Some(o) => eq_ignore_ascii_case(o@, "true"@),
                    None => false,
                },
                exclusions: match d.exclusions {
                    Some(x) => converted_exclusions(x.entries@),
                    None => Seq::empty(),
                },
                classifier: opt_str_view(d.classifier),
                dep_type: opt_str_view(d.dep_type),
            },
        ),
        _ => None,
    }
}

/// The dependencies kept from a list as written, in order.
pub open spec fn converted_dependencies(ds: Seq<DependencyXml>) -> Seq<DependencyView>
    decreases ds.len(),
{
    if ds.len() == 0 {
        Seq::empty()
    } else {
        let rest = converted_dependencies(ds.drop_last());
        match convert_dependency(ds.last()) {
            Some(x) => rest.push(x),
            None => rest,
        }
    }
}

/// Group of a project: its own, else its parent's.
pub open spec fn project_group(p: Project) -> Option<Seq<char>> {
    match p.group_id {
        Some(g) => Some(g@),
        None => match p.parent {
            Some(par) => Some(par.group_id@),
            None => None,
        },
    }
}

/// Version of a project: its own, else its parent's.
pub open spec fn project_version(p: Project) -> Option<Seq<char>> {
    match p.version {
        Some(v) => Some(v@),
        None => match p.parent {
            Some(par) => Some(par.version@),
            None => None,
        },
    }
}

/// Dependencies as written in a project's `<dependencies>`.
pub open spec fn written_dependencies(p: Project) -> Seq<DependencyXml> {
    match p.dependencies {
        Some(d) => d.entries@,
        None => Seq::empty(),
    }
}

/// Dependencies as written in a project's `<dependencyManagement>`.
pub open spec fn written_managed(p: Project) -> Seq<DependencyXml> {
    match p.dependency_management {
        Some(dm) => match dm.dependencies {
            Some(d) => d.entries@,
            None => Seq::empty(),
        },
        None => Seq::empty(),
    }
}

/// The parent coordinate of a project, if it has a parent.
pub open spec fn project_parent(p: Project) -> Option<CoordinateView> {
    match p.parent {
        Some(par) => Some(
            CoordinateView { group: par.group_id@, artifact: par.artifact_id@, version: par.version@ },
        ),
        None => None,
    }
}

/// View of an optional coordinate.
pub open spec fn opt_coord_view(c: Option<MavenCoordinate>) -> Option<CoordinateView> {
    match c {
        Some(x) => Some(x@),
        None => None,
    }
}

/// A project converts when its group (own or inherited), artifact and
/// version (own or inherited) are known.
pub open spec fn project_converts(p: Project) -> bool {
    project_group(p) is Some && p.artifact_id is Some && project_version(p) is Some
}

/// The error reason for a project that does not convert, checking group,
/// then artifact, then version.
pub open spec fn project_error_reason(p: Project) -> Seq<char> {
    if project_group(p) is None {
        "missing groupId (and no parent to inherit from)"@
    } else if p.artifact_id is None {
        "missing artifactId"@
    } else {
        "missing version (and no parent to inherit from)"@
    }
}

/// The converted POM matches the project it came from.
pub open spec fn pom_matches_project(pom: Pom, p: Project) -> bool {
    &&& Some(pom.coordinate@.group) == project_group(p)
    &&& Some(pom.coordinate@.artifact) == opt_str_view(p.artifact_id)
    &&& Some(pom.coordinate@.version) == project_version(p)
    &&& opt_coord_view(pom.parent) == project_parent(p)
    &&& pom.packaging@ == match p.packaging {
        Some(k) => k@,
        None => "jar"@,
    }
    &&& pairs_view(pom.properties@) == match p.properties {
        Some(pr) => pairs_view(pr.entries@),
        None => Seq::empty(),
    }
    &&& deps_view(pom.dependencies@) == converted_dependencies(written_dependencies(p))
    &&& deps_view(pom.dependency_management@) == converted_dependencies(written_managed(p))
    &&& strings_view(pom.modules@) == match p.modules {
        Some(m) => strings_view(m.entries@),
        None => Seq::empty(),
    }
}

// ---------------------------------------------------------------------
// Conversion
// ---------------------------------------------------------------------

/// The exclusions kept from a list as written.
fn convert_exclusions(xs: &Vec<ExclusionXml>) -> (r: Vec<Exclusion>)
    ensures
        exclusions_view(r@) == converted_exclusions(xs@),
{
    let mut r: Vec<Exclusion> = Vec::new();
    let mut i: usize = 0;
    while i < xs.len()
        invariant
            i <= xs.len(),
            exclusions_view(r@) == converted_exclusions(xs@.take(i as int)),
        decreases xs.len() - i,
    {
        let e = &xs[i];
        assert(xs@.take(i + 1).drop_last() =~= xs@.take(i as int));
        assert(xs@.take(i + 1).last() == xs@[i as int]);
        match (&e.group_id, &e.artifact_id) {
            (Some(g), Some(a)) => {
                let ghost before = r@;
                r.push(Exclusion { group_id: g.clone(), artifact_id: a.clone() });
                assert(exclusions_view(r@) =~= exclusions_view(before).push(
                    ExclusionView { group: g@, artifact: a@ },
                ));
            },
            _ => {},
        }
        i = i + 1;
    }
    assert(xs@.take(xs.len() as int) =~= xs@);
    r
}

impl Pom {
    /// Converts a POM document into the high-level model: the group and
    /// version are inherited from the parent when missing.
    pub fn from_project(project: Project) -> (r: Result<Pom, JvError>)
        ensures
            match r {
                Ok(pom) => project_converts(project) && pom_matches_project(pom, project),
                Err(e) => !project_converts(project) && is_pom_parse_error(
                    e,
                    project_error_reason(project),
                ),
            },
    {
        let group_id = match &project.group_id {
            Some(g) => g.clone(),
            None => match &project.parent {
                Some(p) => p.group_id.clone(),
                None => {
                    return Err(
                        JvError::PomParse {
                            coord: owned("unknown"),
                            reason: owned("missing groupId (and no parent to inherit from)"),
                        },
                    );
                },
            },
        };
        let artifact_id = match &project.artifact_id {
            Some(a) => a.clone(),
            None => {
                return Err(
                    JvError::PomParse {
                        coord: owned("unknown"),
                        reason: owned("missing artifactId"),
                    },
                );
            },
        };
        let version = match &project.version {
            Some(v) => v.clone(),
            None => match &project.parent {
                Some(p) => p.version.clone(),
                None => {
                    return Err(
                        JvError::PomParse {
                            coord: owned("unknown"),
                            reason: owned("missing version (and no parent to inherit from)"),
                        },
                    );
                },
            },
        };
        let v = match Version::parse(version.as_str()) {
            Ok(v) => v,
            Err(_) => Version::new(version.as_str()),
        };
        let coordinate = MavenCoordinate { group_id, artifact_id, version: v };
        let parent = match &project.parent {
            Some(p) => Some(
                MavenCoordinate {
                    group_id: p.group_id.clone(),
                    artifact_id: p.artifact_id.clone(),
                    version: match Version::parse(p.version.as_str()) {
                        Ok(v) => v,
                        Err(_) => Version::new(p.version.as_str()),
                    },
                },
            ),
            None => None,
        };
        let ghost p0 = project;
        let Project {
            group_id: _,
            artifact_id: _,
            version: _,
            packaging,
            parent: _,
            properties,
            dependencies,
            dependency_management,
            modules,
            name: _,
            description: _,
        } = project;
        let props: Vec<(String, String)> = match properties {
            Some(p) => p.entries,
            None => Vec::new(),
        };
        let deps = match &dependencies {
            Some(d) => Self::convert_dependencies(&d.entries, &props),
            None => Vec::new(),
        };
        let managed = match &dependency_management {
            Some(dm) => match &dm.dependencies {
                Some(d) => Self::convert_dependencies(&d.entries, &props),
                None => Vec::new(),
            },
            None => Vec::new(),
        };
        let mods: Vec<String> = match modules {
            Some(m) => m.entries,
            None => Vec::new(),
        };
        let pk = match packaging {
            Some(k) => k,
            None => owned("jar"),
        };
        proof {
            assert(pairs_view(Seq::<(String, String)>::empty()) =~= Seq::empty());
            assert(deps_view(Seq::<Dependency>::empty()) =~= Seq::empty());
            assert(strings_view(Seq::<String>::empty()) =~= Seq::empty());
            assert(converted_dependencies(Seq::<DependencyXml>::empty()) =~= Seq::empty());
        }
        let pom = Pom {
            coordinate,
            parent,
            packaging: pk,
            properties: props,
            dependencies: deps,
            dependency_management: managed,
            modules: mods,
        };
        assert(pom_matches_project(pom, p0));
        Ok(pom)
    }

    /// The dependencies kept from a list as written (see
    /// `convert_dependency`); properties are not applied here.
    pub fn convert_dependencies(xml_deps: &Vec<DependencyXml>, props: &Vec<(String, String)>) -> (r:
        Vec<Dependency>)
        ensures
            deps_view(r@) == converted_dependencies(xml_deps@),
    {
        let mut r: Vec<Dependency> = Vec::new();
        let mut i: usize = 0;
        while i < xml_deps.len()
            invariant
                i <= xml_deps.len(),
                deps_view(r@) == converted_dependencies(xml_deps@.take(i as int)),
            decreases xml_deps.len() - i,
        {
            let d = &xml_deps[i];
            assert(xml_deps@.take(i + 1).drop_last() =~= xml_deps@.take(i as int));
            assert(xml_deps@.take(i + 1).last() == xml_deps@[i as int]);
            match (&d.group_id, &d.artifact_id) {
                (Some(g), Some(a)) => {
                    let ver = match &d.version {
                        Some(v) => v.clone(),
                        None => owned("managed"),
                    };
                    let version = match Version::parse(ver.as_str()) {
                        Ok(v) => v,
                        Err(_) => Version::new(ver.as_str()),
                    };
                    let scope = match &d.scope {
                        Some(s) => match Scope::from_str(s.as_str()) {
                            Ok(sc) => sc,
                            Err(_) => Scope::Compile,
                        },
                        None => Scope::Compile,
                    };
                    let optional = match &d.optional {
                        Some(o) => {
                            let oc = chars_of(o.as_str());
                            let t = chars_of("true");
                            eq_ignore_ascii_case_exec(oc.as_slice(), t.as_slice())
                        },
                        None => false,
                    };
                    let exclusions = match &d.exclusions {
                        Some(x) => convert_exclusions(&x.entries),
                        None => Vec::new(),
                    };
                    proof {
                        assert(exclusions_view(Seq::<Exclusion>::empty()) =~= Seq::empty());
                    }
                    let dep = Dependency {
                        coordinate: MavenCoordinate { group_id: g.clone(), artifact_id: a.clone(), version },
                        scope,
                        optional,
                        exclusions,
                        classifier: clone_opt_string(&d.classifier),
                        dep_type: clone_opt_string(&d.dep_type),
                    };
                    let ghost before = r@;
                    assert(Some(dep@) == convert_dependency(xml_deps@[i as int]));
                    r.push(dep);
                    assert(deps_view(r@) =~= deps_view(before).push(dep@));
                },
                _ => {},
            }
            i = i + 1;
        }
        assert(xml_deps@.take(xml_deps.len() as int) =~= xml_deps@);
        r
    }
}

/// A project's own coordinates win over its parent's: the converted POM has
/// the project's own group and version where it declares them, the parent's
/// only where it does not, and always the project's own artifact.
pub proof fn lemma_own_coordinates_win(pom: Pom, p: Project)
    requires
        pom_matches_project(pom, p),
    ensures
        p.artifact_id matches Some(a) && pom.coordinate.artifact_id@ == a@,
        p.version matches Some(v) ==> pom.coordinate.version@ == v@,
        p.group_id matches Some(g) ==> pom.coordinate.group_id@ == g@,
        p.version is None ==> (p.parent matches Some(par) && pom.coordinate.version@ == par.version@),
        p.group_id is None ==> (p.parent matches Some(par) && pom.coordinate.group_id@
            == par.group_id@),
{
}

} // verus!
