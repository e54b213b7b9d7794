//! Direct-only resolution: the artifacts to fetch for the dependencies a POM
//! declares, and the resolved list made from what was fetched.

use vstd::prelude::*;
use crate::download::parallel::DownloadResult;
use crate::models::{
    clone_opt_string, resolved_view, Artifact, ArtifactView, CoordinateView, DependencyView,
    MavenCoordinate, ResolvedDependency, ResolvedView, Scope, deps_view,
};
use crate::parser::pom::Pom;
use crate::resolver::transitive::scope_transitive;
use crate::text::{chars_of, is_word};

verus! {

/// The artifact fetched for a direct dependency: with its classifier, and
/// its type as extension (`jar` when no type is given).
pub open spec fn direct_artifact(d: DependencyView) -> ArtifactView {
    ArtifactView {
        coordinate: d.coordinate,
        classifier: d.classifier,
        extension: match d.dep_type {
            Some(t) => t,
            None => "jar"@,
        },
        sha1: None,
    }
}

/// The artifacts for the direct dependencies of transitive scope, in order.
pub open spec fn direct_artifacts_spec(ds: Seq<DependencyView>) -> Seq<ArtifactView>
    decreases ds.len(),
{
    if ds.len() == 0 {
        Seq::empty()
    } else if scope_transitive(ds.last().scope) {
        direct_artifacts_spec(ds.drop_last()).push(direct_artifact(ds.last()))
    } else {
        direct_artifacts_spec(ds.drop_last())
    }
}

/// Views of a list of artifacts.
pub open spec fn artifacts_view(v: Seq<Artifact>) -> Seq<ArtifactView> {
    v.map_values(|a: Artifact| a@)
}

/// The artifacts to fetch for the direct dependencies of a POM (compile and
/// runtime scopes for a normal build).
pub fn direct_artifacts(pom: &Pom) -> (r: Vec<Artifact>)
    ensures
        artifacts_view(r@) == direct_artifacts_spec(deps_view(pom.dependencies@)),
{
    let ghost dv = deps_view(pom.dependencies@);
    let mut r: Vec<Artifact> = Vec::new();
    let mut i: usize = 0;
    while i < pom.dependencies.len()
        invariant
            i <= pom.dependencies.len(),
            dv == deps_view(pom.dependencies@),
            artifacts_view(r@) == direct_artifacts_spec(dv.take(i as int)),
        decreases pom.dependencies.len() - i,
    {
        assert(dv.take(i + 1).drop_last() =~= dv.take(i as int));
        assert(dv.take(i + 1).last() == dv[i as int]);
        let d = &pom.dependencies[i];
        if d.scope.is_transitive() {
            let mut a = Artifact::jar(d.coordinate.clone());
            a.classifier = clone_opt_string(&d.classifier);
            match &d.dep_type {
                Some(t) => {
                    let tc = chars_of(t.as_str());
                    if !is_word(tc.as_slice(), "jar") {
                        a.extension = t.clone();
                    }
                },
                None => {},
            }
            let ghost before = artifacts_view(r@);
            r.push(a);
            assert(artifacts_view(r@) =~= before.push(direct_artifact(dv[i as int])));
        }
        i = i + 1;
    }
    assert(dv.take(pom.dependencies.len() as int) =~= dv);
    r
}

/// The resolved entry for a fetched artifact.
pub open spec fn downloaded_entry(a: ArtifactView, root: CoordinateView) -> ResolvedView {
    ResolvedView {
        coordinate: a.coordinate,
        scope: Scope::Compile,
        optional: false,
        depended_by: Some(root),
        artifacts: seq![a],
    }
}

/// The resolved entries for the download results that have a path, in order.
pub open spec fn downloaded_entries(rs: Seq<DownloadResult>, root: CoordinateView) -> Seq<ResolvedView>
    decreases rs.len(),
{
    if rs.len() == 0 {
        Seq::empty()
    } else if rs.last().path is Some {
        downloaded_entries(rs.drop_last(), root).push(downloaded_entry(rs.last().artifact@, root))
    } else {
        downloaded_entries(rs.drop_last(), root)
    }
}

/// A very basic resolved list: every artifact that was fetched, as a
/// compile dependency of `root`.
pub fn resolved_from_downloads(root: &MavenCoordinate, results: &Vec<DownloadResult>) -> (r: Vec<
    ResolvedDependency,
>)
    ensures
        resolved_view(r@) == downloaded_entries(results@, root@),
{
    let mut r: Vec<ResolvedDependency> = Vec::new();
    let mut i: usize = 0;
    while i < results.len()
        invariant
            i <= results.len(),
            resolved_view(r@) == downloaded_entries(results@.take(i as int), root@),
        decreases results.len() - i,
    {
        assert(results@.take(i + 1).drop_last() =~= results@.take(i as int));
        assert(results@.take(i + 1).last() == results@[i as int]);
        let x = &results[i];
        if x.path.is_some() {
            let mut arts: Vec<Artifact> = Vec::new();
            arts.push(x.artifact.clone());
            let e = ResolvedDependency {
                coordinate: x.artifact.coordinate.clone(),
                scope: Scope::Compile,
                optional: false,
                depended_by: Some(root.clone()),
                artifacts: arts,
            };
            let ghost before = resolved_view(r@);
            r.push(e);
            assert(e@.artifacts =~= seq![x.artifact@]);
            assert(resolved_view(r@) =~= before.push(downloaded_entry(x.artifact@, root@)));
        }
        i = i + 1;
    }
    assert(results@.take(results.len() as int) =~= results@);
    r
}

/// A scope whose direct dependencies are fetched: compile, runtime, import.
pub open spec fn fetched_scope(s: Scope) -> bool {
    s == Scope::Compile || s == Scope::Runtime || s == Scope::Import
}

/// Artifact `a` is the one fetched for direct dependency `d`: same
/// coordinate and classifier, and the declared type (else `jar`) as extension.
pub open spec fn fetched_for(a: ArtifactView, d: DependencyView) -> bool {
    &&& a.coordinate == d.coordinate
    &&& a.classifier == d.classifier
    &&& a.extension == (if d.dep_type is Some { d.dep_type.unwrap() } else { "jar"@ })
}

/// Some artifact of `r` is the one fetched for `d`.
pub open spec fn fetched_among(r: Seq<ArtifactView>, d: DependencyView) -> bool {
    exists|k: int| 0 <= k < r.len() && #[trigger] fetched_for(r[k], d)
}

/// `a` is fetched for some direct dependency of `ds` of a fetched scope.
pub open spec fn fetched_from(a: ArtifactView, ds: Seq<DependencyView>) -> bool {
    exists|j: int| 0 <= j < ds.len() && fetched_scope(ds[j].scope) && #[trigger] fetched_for(a, ds[j])
}

proof fn lemma_direct_artifacts_extend(ds: Seq<DependencyView>)
    requires
        ds.len() > 0,
    ensures
        direct_artifacts_spec(ds) == (if scope_transitive(ds.last().scope) {
            direct_artifacts_spec(ds.drop_last()).push(direct_artifact(ds.last()))
        } else {
            direct_artifacts_spec(ds.drop_last())
        }),
{
}

/// Direct resolution fetches an artifact for every direct dependency of
/// compile, runtime or import scope: test, provided and system are the only
/// scopes skipped.
pub proof fn lemma_direct_artifacts_complete(ds: Seq<DependencyView>)
    ensures
        forall|j: int|
            0 <= j < ds.len() && #[trigger] fetched_scope(ds[j].scope) ==> fetched_among(
                direct_artifacts_spec(ds),
                ds[j],
            ),
    decreases ds.len(),
{
    if ds.len() > 0 {
        let init = ds.drop_last();
        lemma_direct_artifacts_complete(init);
        lemma_direct_artifacts_extend(ds);
        let r = direct_artifacts_spec(ds);
        let ri = direct_artifacts_spec(init);
        assert forall|j: int|
            0 <= j < ds.len() && #[trigger] fetched_scope(ds[j].scope) implies fetched_among(r, ds[j]) by {
            if j < init.len() {
                assert(ds[j] == init[j]);
                assert(fetched_among(ri, init[j]));
                let k = choose|k: int| 0 <= k < ri.len() && #[trigger] fetched_for(ri[k], init[j]);
                assert(r[k] == ri[k]);
                assert(fetched_for(r[k], ds[j]));
            } else {
                assert(ds[j] == ds.last());
                assert(fetched_for(r[ri.len() as int], ds[j]));
            }
        }
    }
}

/// Every artifact of direct resolution is the one fetched for a direct
/// dependency of compile, runtime or import scope.
pub proof fn lemma_direct_artifacts_sound(ds: Seq<DependencyView>)
    ensures
        forall|k: int|
            0 <= k < direct_artifacts_spec(ds).len() ==> #[trigger] fetched_from(
                direct_artifacts_spec(ds)[k],
                ds,
            ),
    decreases ds.len(),
{
    if ds.len() > 0 {
        let init = ds.drop_last();
        lemma_direct_artifacts_sound(init);
        lemma_direct_artifacts_extend(ds);
        let r = direct_artifacts_spec(ds);
        let ri = direct_artifacts_spec(init);
        assert forall|k: int| 0 <= k < r.len() implies #[trigger] fetched_from(r[k], ds) by {
            if k < ri.len() {
                assert(r[k] == ri[k]);
                assert(fetched_from(ri[k], init));
                let j = choose|j: int|
                    0 <= j < init.len() && fetched_scope(init[j].scope) && #[trigger] fetched_for(
                        ri[k],
                        init[j],
                    );
                assert(ds[j] == init[j]);
                assert(fetched_for(r[k], ds[j]));
            } else {
                let j = ds.len() - 1;
                assert(ds[j] == ds.last());
                assert(fetched_for(r[k], ds[j]));
            }
        }
    }
}

} // verus!
