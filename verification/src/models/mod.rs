//! Core data models: coordinates, scopes, exclusions, dependencies,
//! artifacts, resolved entries, versions and version ranges.

pub mod range;
pub mod version;

pub use range::VersionRange;
pub use version::Version;

use vstd::prelude::*;
use crate::text::{
    ascii_lower, chars_of, is_ascii_seq, join2, owned, replace_char, replace_char_exec, string_of,
    text_lower, is_word,
};

verus! {

// ---------------------------------------------------------------------
// Small cloning helpers with exact results
// ---------------------------------------------------------------------

/// A copy of an optional string.
pub fn clone_opt_string(o: &Option<String>) -> (r: Option<String>)
    ensures
        r == *o,
{
    match o {
        Some(s) => Some(s.clone()),
        None => None,
    }
}

/// View of an optional string.
pub open spec fn opt_str_view(o: Option<String>) -> Option<Seq<char>> {
    match o {
        Some(s) => Some(s@),
        None => None,
    }
}

// ---------------------------------------------------------------------
// MavenCoordinate
// ---------------------------------------------------------------------

/// Maven coordinate in the standard `groupId:artifactId:version` form.
#[derive(Debug, PartialEq, Eq, Hash)]
pub struct MavenCoordinate {
    pub group_id: String,
    pub artifact_id: String,
    pub version: Version,
}

impl Clone for MavenCoordinate {
    fn clone(&self) -> (r: Self)
        ensures
            r == *self,
    {
        MavenCoordinate {
            group_id: self.group_id.clone(),
            artifact_id: self.artifact_id.clone(),
            version: self.version.clone(),
        }
    }
}

/// Mathematical view of a coordinate.
pub struct CoordinateView {
    pub group: Seq<char>,
    pub artifact: Seq<char>,
    pub version: Seq<char>,
}

impl View for MavenCoordinate {
    type V = CoordinateView;

    open spec fn view(&self) -> CoordinateView {
        CoordinateView {
            group: self.group_id@,
            artifact: self.artifact_id@,
            version: self.version@,
        }
    }
}

/// Repository path fragment of a group and artifact: the group with every
/// `.` turned into `/`, then `/` and the artifact.
pub open spec fn coordinate_path(group: Seq<char>, artifact: Seq<char>) -> Seq<char> {
    replace_char(group, '.', '/') + "/"@ + artifact
}

/// `group:artifact:version`.
pub open spec fn coordinate_text(c: MavenCoordinate) -> Seq<char> {
    c.group_id@ + ":"@ + c.artifact_id@ + ":"@ + c.version@
}

/// Full repository path of a file of a coordinate:
/// `path/version/artifact-version`, then `-classifier` when a non-empty
/// classifier is given, then the extension as given (e.g. `.jar`).
pub open spec fn repository_path_of(
    c: MavenCoordinate,
    extension: Seq<char>,
    classifier: Option<Seq<char>>,
) -> Seq<char> {
    let base = coordinate_path(c.group_id@, c.artifact_id@) + "/"@ + c.version@ + "/"@
        + c.artifact_id@ + "-"@ + c.version@;
    match classifier {
        Some(cl) => if cl.len() > 0 {
            base + "-"@ + cl + extension
        } else {
            base + extension
        },
        None => base + extension,
    }
}

impl MavenCoordinate {
    pub fn new(group_id: &str, artifact_id: &str, version: Version) -> (r: Self)
        ensures
            r.group_id@ == group_id@,
            r.artifact_id@ == artifact_id@,
            r.version == version,
    {
        MavenCoordinate { group_id: owned(group_id), artifact_id: owned(artifact_id), version }
    }

    /// Returns the standard Maven path fragment for this coordinate (without
    /// version), e.g. "com/google/guava".
    pub fn path(&self) -> (r: String)
        ensures
            r@ == coordinate_path(self.group_id@, self.artifact_id@),
    {
        let g = chars_of(self.group_id.as_str());
        let slashed = replace_char_exec(g.as_slice(), '.', '/');
        let s = string_of(slashed.as_slice());
        let s2 = join2(s.as_str(), "/");
        join2(s2.as_str(), self.artifact_id.as_str())
    }

    /// Returns the full Maven repository path for a specific file.
    pub fn repository_path(&self, extension: &str, classifier: Option<&str>) -> (r: String)
        ensures
            r@ == repository_path_of(
                *self,
                extension@,
                match classifier {
                    Some(c) => Some(c@),
                    None => None,
                },
            ),
    {
        let p = self.path();
        let b1 = join2(p.as_str(), "/");
        let b2 = join2(b1.as_str(), self.version.raw.as_str());
        let b3 = join2(b2.as_str(), "/");
        let b4 = join2(b3.as_str(), self.artifact_id.as_str());
        let b5 = join2(b4.as_str(), "-");
        let base = join2(b5.as_str(), self.version.raw.as_str());
        match classifier {
            Some(c) => {
                if !c.is_empty() {
                    let x = join2(base.as_str(), "-");
                    let y = join2(x.as_str(), c);
                    join2(y.as_str(), extension)
                } else {
                    join2(base.as_str(), extension)
                }
            },
            None => join2(base.as_str(), extension),
        }
    }

    /// `group:artifact:version`, the text form of a coordinate.
    pub fn to_string(&self) -> (r: String)
        ensures
            r@ == coordinate_text(*self),
    {
        let a = join2(self.group_id.as_str(), ":");
        let b = join2(a.as_str(), self.artifact_id.as_str());
        let c = join2(b.as_str(), ":");
        join2(c.as_str(), self.version.raw.as_str())
    }
}

// ---------------------------------------------------------------------
// Scope
// ---------------------------------------------------------------------

/// Maven dependency scope. Determines which classpaths a dependency participates in.
#[derive(Debug, Clone, Copy, PartialEq, Eq, Hash, Structural)]
pub enum Scope {
    Compile,
    Runtime,
    Test,
    Provided,
    System,
    /// Special scope used in <dependencyManagement> to import dependencyManagement from another POM.
    Import,
}

impl Default for Scope {
    fn default() -> (r: Scope)
        ensures
            r == Scope::Compile,
    {
        Scope::Compile
    }
}

/// The lower-case name of a scope.
pub open spec fn scope_name(s: Scope) -> Seq<char> {
    match s {
        Scope::Compile => "compile"@,
        Scope::Runtime => "runtime"@,
        Scope::Test => "test"@,
        Scope::Provided => "provided"@,
        Scope::System => "system"@,
        Scope::Import => "import"@,
    }
}

/// The scope named by a lower-cased word (the empty word names `compile`).
pub open spec fn scope_word(l: Seq<char>) -> Option<Scope> {
    if l == "compile"@ || l == ""@ {
        Some(Scope::Compile)
    } else if l == "runtime"@ {
        Some(Scope::Runtime)
    } else if l == "test"@ {
        Some(Scope::Test)
    } else if l == "provided"@ {
        Some(Scope::Provided)
    } else if l == "system"@ {
        Some(Scope::System)
    } else if l == "import"@ {
        Some(Scope::Import)
    } else {
        None
    }
}

/// What parsing a scope name gives: the scope named by its lower-cased
/// text, or the message `unknown scope: <lower-cased text>`.
pub open spec fn scope_parse(s: Seq<char>) -> Result<Scope, Seq<char>> {
    match scope_word(text_lower(s)) {
        Some(sc) => Ok(sc),
        None => Err("unknown scope: "@ + text_lower(s)),
    }
}

impl Scope {
    /// Returns true if this scope contributes to the compile classpath.
    pub fn is_compile(&self) -> (r: bool)
        ensures
            r == (*self == Scope::Compile || *self == Scope::Provided || *self == Scope::System),
    {
        matches!(self, Scope::Compile | Scope::Provided | Scope::System)
    }

    /// Returns true if this scope contributes to the runtime classpath.
    pub fn is_runtime(&self) -> (r: bool)
        ensures
            r == (*self == Scope::Compile || *self == Scope::Runtime),
    {
        matches!(self, Scope::Compile | Scope::Runtime)
    }

    /// Returns true if this scope should be included in the final resolved set for a normal build.
    pub fn is_transitive(&self) -> (r: bool)
        ensures
            r == !(*self == Scope::Test || *self == Scope::Provided || *self == Scope::System),
    {
        !matches!(self, Scope::Test | Scope::Provided | Scope::System)
    }

    /// Parses a scope name, ignoring case; the empty name is `compile`.
    pub fn from_str(s: &str) -> (r: Result<Scope, String>)
        ensures
            match r {
                Ok(sc) => scope_parse(s@) == Ok::<Scope, Seq<char>>(sc),
                Err(e) => scope_parse(s@) == Err::<Scope, Seq<char>>(e@),
            },
    {
        let lower = crate::text::lowercase(s);
        let l = chars_of(lower.as_str());
        let w = l.as_slice();
        if is_word(w, "compile") || is_word(w, "") {
            Ok(Scope::Compile)
        } else if is_word(w, "runtime") {
            Ok(Scope::Runtime)
        } else if is_word(w, "test") {
            Ok(Scope::Test)
        } else if is_word(w, "provided") {
            Ok(Scope::Provided)
        } else if is_word(w, "system") {
            Ok(Scope::System)
        } else if is_word(w, "import") {
            Ok(Scope::Import)
        } else {
            Err(join2("unknown scope: ", lower.as_str()))
        }
    }

    /// The lower-case name of this scope (its text form).
    pub fn to_string(&self) -> (r: String)
        ensures
            r@ == scope_name(*self),
    {
        match self {
            Scope::Compile => owned("compile"),
            Scope::Runtime => owned("runtime"),
            Scope::Test => owned("test"),
            Scope::Provided => owned("provided"),
            Scope::System => owned("system"),
            Scope::Import => owned("import"),
        }
    }
}

impl core::str::FromStr for Scope {
    type Err = String;

    /// As `Scope::from_str`.
    fn from_str(s: &str) -> (r: Result<Scope, String>)
        ensures
            match r {
                Ok(sc) => scope_parse(s@) == Ok::<Scope, Seq<char>>(sc),
                Err(e) => scope_parse(s@) == Err::<Scope, Seq<char>>(e@),
            },
    {
        Scope::from_str(s)
    }
}

// ---------------------------------------------------------------------
// Exclusion
// ---------------------------------------------------------------------

/// Represents an exclusion declared on a dependency.
#[derive(Debug, PartialEq, Eq, Hash)]
pub struct Exclusion {
    pub group_id: String,
    pub artifact_id: String,
}

impl Clone for Exclusion {
    fn clone(&self) -> (r: Self)
        ensures
            r == *self,
    {
        Exclusion { group_id: self.group_id.clone(), artifact_id: self.artifact_id.clone() }
    }
}

/// Mathematical view of an exclusion.
pub struct ExclusionView {
    pub group: Seq<char>,
    pub artifact: Seq<char>,
}

impl View for Exclusion {
    type V = ExclusionView;

    open spec fn view(&self) -> ExclusionView {
        ExclusionView { group: self.group_id@, artifact: self.artifact_id@ }
    }
}

/// Views of a list of exclusions.
pub open spec fn exclusions_view(v: Seq<Exclusion>) -> Seq<ExclusionView> {
    v.map_values(|e: Exclusion| e@)
}

/// An exclusion matches a group and artifact when each of its parts is `*`
/// or equal to the corresponding given part.
pub open spec fn exclusion_matches(e: ExclusionView, group: Seq<char>, artifact: Seq<char>) -> bool {
    (e.group == "*"@ || e.group == group) && (e.artifact == "*"@ || e.artifact == artifact)
}

impl Exclusion {
    pub fn matches(&self, group: &str, artifact: &str) -> (r: bool)
        ensures
            r == exclusion_matches(self@, group@, artifact@),
    {
        let g = chars_of(self.group_id.as_str());
        let a = chars_of(self.artifact_id.as_str());
        let gq = chars_of(group);
        let aq = chars_of(artifact);
        (is_word(g.as_slice(), "*") || crate::text::same_chars(g.as_slice(), gq.as_slice())) && (
        is_word(a.as_slice(), "*") || crate::text::same_chars(a.as_slice(), aq.as_slice()))
    }
}

/// A copy of a list of exclusions.
pub fn clone_exclusions(v: &Vec<Exclusion>) -> (r: Vec<Exclusion>)
    ensures
        r@ == v@,
{
    let mut r: Vec<Exclusion> = Vec::new();
    let mut i: usize = 0;
    while i < v.len()
        invariant
            i <= v.len(),
            r@ == v@.take(i as int),
        decreases v.len() - i,
    {
        r.push(v[i].clone());
        i = i + 1;
        assert(r@ =~= v@.take(i as int));
    }
    assert(v@.take(v.len() as int) =~= v@);
    r
}

// ---------------------------------------------------------------------
// Dependency
// ---------------------------------------------------------------------

/// A single dependency declaration as it appears in a POM or build file.
#[derive(Debug, PartialEq, Eq)]
pub struct Dependency {
    pub coordinate: MavenCoordinate,
    pub scope: Scope,
    pub optional: bool,
    pub exclusions: Vec<Exclusion>,
    /// Classifier (e.g., "sources", "javadoc", or custom)
    pub classifier: Option<String>,
    /// Type / packaging (jar, pom, war, etc.)
    pub dep_type: Option<String>,
}

/// Mathematical view of a dependency.
pub struct DependencyView {
    pub coordinate: CoordinateView,
    pub scope: Scope,
    pub optional: bool,
    pub exclusions: Seq<ExclusionView>,
    pub classifier: Option<Seq<char>>,
    pub dep_type: Option<Seq<char>>,
}

impl View for Dependency {
    type V = DependencyView;

    open spec fn view(&self) -> DependencyView {
        DependencyView {
            coordinate: self.coordinate@,
            scope: self.scope,
            optional: self.optional,
            exclusions: exclusions_view(self.exclusions@),
            classifier: opt_str_view(self.classifier),
            dep_type: opt_str_view(self.dep_type),
        }
    }
}

/// Views of a list of dependencies.
pub open spec fn deps_view(v: Seq<Dependency>) -> Seq<DependencyView> {
    v.map_values(|d: Dependency| d@)
}

impl Clone for Dependency {
    fn clone(&self) -> (r: Self)
        ensures
            r@ == self@,
    {
        Dependency {
            coordinate: self.coordinate.clone(),
            scope: self.scope,
            optional: self.optional,
            exclusions: clone_exclusions(&self.exclusions),
            classifier: clone_opt_string(&self.classifier),
            dep_type: clone_opt_string(&self.dep_type),
        }
    }
}

impl Dependency {
    /// A compile-scope, non-optional dependency without exclusions,
    /// classifier or type.
    pub fn new(group_id: &str, artifact_id: &str, version: &str) -> (r: Self)
        ensures
            r.coordinate.group_id@ == group_id@,
            r.coordinate.artifact_id@ == artifact_id@,
            r.coordinate.version@ == version@,
            r.scope == Scope::Compile,
            !r.optional,
            r.exclusions@.len() == 0,
            r.classifier is None,
            r.dep_type is None,
    {
        let v = match Version::parse(version) {
            Ok(v) => v,
            Err(_) => Version::new(version),
        };
        Dependency {
            coordinate: MavenCoordinate::new(group_id, artifact_id, v),
            scope: Scope::Compile,
            optional: false,
            exclusions: Vec::new(),
            classifier: None,
            dep_type: None,
        }
    }

    /// The same dependency with another scope.
    pub fn with_scope(self, scope: Scope) -> (r: Self)
        ensures
            r@ == (DependencyView { scope, ..self@ }),
    {
        let mut d = self;
        d.scope = scope;
        d
    }
}

// ---------------------------------------------------------------------
// Artifact
// ---------------------------------------------------------------------

/// An artifact that can be downloaded from a Maven repository.
#[derive(Debug, PartialEq, Eq)]
pub struct Artifact {
    pub coordinate: MavenCoordinate,
    pub classifier: Option<String>,
    /// "jar", "pom", "war", etc.
    pub extension: String,
    /// SHA-1 checksum if known from metadata
    pub sha1: Option<String>,
}

/// Mathematical view of an artifact.
pub struct ArtifactView {
    pub coordinate: CoordinateView,
    pub classifier: Option<Seq<char>>,
    pub extension: Seq<char>,
    pub sha1: Option<Seq<char>>,
}

impl View for Artifact {
    type V = ArtifactView;

    open spec fn view(&self) -> ArtifactView {
        ArtifactView {
            coordinate: self.coordinate@,
            classifier: opt_str_view(self.classifier),
            extension: self.extension@,
            sha1: opt_str_view(self.sha1),
        }
    }
}

impl Clone for Artifact {
    fn clone(&self) -> (r: Self)
        ensures
            r == *self,
    {
        Artifact {
            coordinate: self.coordinate.clone(),
            classifier: clone_opt_string(&self.classifier),
            extension: self.extension.clone(),
            sha1: clone_opt_string(&self.sha1),
        }
    }
}

impl Artifact {
    /// The main jar of a coordinate.
    pub fn jar(coordinate: MavenCoordinate) -> (r: Self)
        ensures
            r.coordinate == coordinate,
            r.classifier is None,
            r.extension@ == "jar"@,
            r.sha1 is None,
    {
        Artifact { coordinate, classifier: None, extension: owned("jar"), sha1: None }
    }

    /// The POM of a coordinate.
    pub fn pom(coordinate: MavenCoordinate) -> (r: Self)
        ensures
            r.coordinate == coordinate,
            r.classifier is None,
            r.extension@ == "pom"@,
            r.sha1 is None,
    {
        Artifact { coordinate, classifier: None, extension: owned("pom"), sha1: None }
    }
}

// ---------------------------------------------------------------------
// ResolvedDependency
// ---------------------------------------------------------------------

/// A resolved dependency entry that appears in the lock file.
#[derive(Debug)]
pub struct ResolvedDependency {
    pub coordinate: MavenCoordinate,
    pub scope: Scope,
    pub optional: bool,
    /// The direct parent dependency that pulled this in (for conflict debugging)
    pub depended_by: Option<MavenCoordinate>,
    /// All artifacts associated (usually the main jar + pom)
    pub artifacts: Vec<Artifact>,
}

/// Mathematical view of a resolved entry.
pub struct ResolvedView {
    pub coordinate: CoordinateView,
    pub scope: Scope,
    pub optional: bool,
    pub depended_by: Option<CoordinateView>,
    pub artifacts: Seq<ArtifactView>,
}

impl View for ResolvedDependency {
    type V = ResolvedView;

    open spec fn view(&self) -> ResolvedView {
        ResolvedView {
            coordinate: self.coordinate@,
            scope: self.scope,
            optional: self.optional,
            depended_by: match self.depended_by {
                Some(c) => Some(c@),
                None => None,
            },
            artifacts: self.artifacts@.map_values(|a: Artifact| a@),
        }
    }
}

/// Views of a list of resolved entries.
pub open spec fn resolved_view(v: Seq<ResolvedDependency>) -> Seq<ResolvedView> {
    v.map_values(|r: ResolvedDependency| r@)
}

impl ResolvedDependency {
    pub fn new(coordinate: MavenCoordinate, scope: Scope) -> (r: Self)
        ensures
            r.coordinate == coordinate,
            r.scope == scope,
            !r.optional,
            r.depended_by is None,
            r.artifacts@.len() == 0,
    {
        ResolvedDependency {
            coordinate,
            scope,
            optional: false,
            depended_by: None,
            artifacts: Vec::new(),
        }
    }
}

/// Parsing the text form of any scope gives that scope back.
pub proof fn lemma_scope_text_roundtrip(s: Scope)
    ensures
        scope_parse(scope_name(s)) == Ok::<Scope, Seq<char>>(s),
        scope_word(scope_name(s)) == Some(s),
{
    reveal_strlit("compile");
    reveal_strlit("runtime");
    reveal_strlit("test");
    reveal_strlit("provided");
    reveal_strlit("system");
    reveal_strlit("import");
    reveal_strlit("");
    match s {
        Scope::Compile => {
            assert(ascii_lower("compile"@) =~= "compile"@);
            assert(scope_word("compile"@) == Some(Scope::Compile));
        },
        Scope::Runtime => {
            assert(ascii_lower("runtime"@) =~= "runtime"@);
            assert("runtime"@[0] != "compile"@[0]);
            assert(scope_word("runtime"@) == Some(Scope::Runtime));
        },
        Scope::Test => {
            assert(ascii_lower("test"@) =~= "test"@);
            assert(scope_word("test"@) == Some(Scope::Test));
        },
        Scope::Provided => {
            assert(ascii_lower("provided"@) =~= "provided"@);
            assert(scope_word("provided"@) == Some(Scope::Provided));
        },
        Scope::System => {
            assert(ascii_lower("system"@) =~= "system"@);
            assert(scope_word("system"@) == Some(Scope::System));
        },
        Scope::Import => {
            assert(ascii_lower("import"@) =~= "import"@);
            assert("import"@[0] != "system"@[0]);
            assert(scope_word("import"@) == Some(Scope::Import));
        },
    }
    assert(scope_word(ascii_lower(scope_name(s))) == Some(s));
}

/// Scope names parse in any letter case: every ASCII text that lower-cases
/// to a scope's name (its upper-cased name among them) parses to that scope.
pub proof fn lemma_scope_name_any_case(s: Scope, t: Seq<char>)
    requires
        is_ascii_seq(t),
        ascii_lower(t) == scope_name(s),
    ensures
        scope_parse(t) == Ok::<Scope, Seq<char>>(s),
{
    lemma_scope_text_roundtrip(s);
    assert(text_lower(t) == scope_name(s));
}

} // verus!
