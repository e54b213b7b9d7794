//! Transitive dependency resolution decisions.
//!
//! Algorithm: breadth-first traversal with "nearest wins" (Maven's classic
//! strategy): the first declaration of a `group:artifact` that the
//! traversal reaches selects its version; later declarations of the same
//! `group:artifact` are skipped. A version range selects the highest
//! available version it contains (its lower bound when none is available);
//! an exact version is taken as it is. Children of a selected dependency
//! are taken from its effective POM: only transitive scopes, managed
//! versions filled in from `<dependencyManagement>`, and the declaration's
//! exclusions applied. Every resolved entry records the coordinate of the
//! POM that declared it (the root for direct dependencies).
//!
//! The traversal is a state machine: `pending` names the next declaration
//! to resolve, the caller lists the versions available for it when it is a
//! range (`needs_available_versions`), `select` chooses its version and
//! names the coordinate whose effective POM is needed, the caller builds
//! that effective POM (network and cache work) and hands it to `absorb`,
//! and `finish` produces the resolution.

use vstd::prelude::*;
use crate::resolver::effective::{ga_index, EffectivePom};
use crate::models::{
    deps_view, exclusion_matches, resolved_view, CoordinateView, Dependency,
    DependencyView, ExclusionView, MavenCoordinate, ResolvedDependency, ResolvedView, Scope,
};
use crate::parser::pom::Pom;
use crate::models::range::{range_contains, range_parse, RangeView, VersionRange};
use crate::text::{chars_of, contains, contains_exec, is_word, lex, lex_exec, same_chars};
use crate::models::version::{version_order, versions_view, Version};

verus! {

broadcast use vstd::seq_lib::group_to_multiset_ensures;

/// Options of a resolution.
#[derive(Debug, Default)]
pub struct ResolveOptions {
    pub extra_repositories: Vec<String>,
}

/// Successful resolution result.
#[derive(Debug)]
pub struct Resolution {
    pub root: MavenCoordinate,
    pub dependencies: Vec<ResolvedDependency>,
}

// ---------------------------------------------------------------------
// Version choice
// ---------------------------------------------------------------------

/// Whether the concrete version `selected` satisfies what `declared` asked
/// for: always for `managed`; a parsable range must contain it; otherwise
/// the texts must be equal.
pub open spec fn range_accepts_spec(declared: Seq<char>, selected: Seq<char>) -> bool {
    if declared == "managed"@ {
        true
    } else {
        match range_parse(declared) {
            Ok(r) => range_contains(r, selected),
            Err(_) => declared == selected,
        }
    }
}

/// Does the concrete version satisfy what the declaration asked for?
pub fn range_accepts(declared: &Version, selected: &Version) -> (r: bool)
    ensures
        r == range_accepts_spec(declared@, selected@),
{
    let d = chars_of(declared.raw.as_str());
    if is_word(d.as_slice(), "managed") {
        return true;
    }
    match VersionRange::parse(declared.raw.as_str()) {
        Ok(r) => r.contains(selected),
        Err(_) => declared.raw == selected.raw,
    }
}

/// The highest of the `available` versions that the range contains (the
/// first listed among versions equal in the Maven order), if any.
pub open spec fn highest_in(r: RangeView, available: Seq<Seq<char>>) -> Option<Seq<char>>
    decreases available.len(),
{
    if available.len() == 0 {
        None
    } else {
        let best = highest_in(r, available.drop_last());
        let x = available.last();
        if range_contains(r, x) && (best is None || version_order(x, best.unwrap()) > 0) {
            Some(x)
        } else {
            best
        }
    }
}

/// The version chosen for a declared version text, given the versions
/// available for it: an exact version is taken as it is; a range gives the
/// highest available version it contains, or, when none is available, its
/// lower bound; anything else (and `managed`) is kept as it is.
pub open spec fn best_version(v: Seq<char>, available: Seq<Seq<char>>) -> Seq<char> {
    if v != "managed"@ {
        match range_parse(v) {
            Ok(r) => match r.exact {
                Some(e) => e,
                None => match highest_in(r, available) {
                    Some(h) => h,
                    None => match r.lower {
                        Some(lo) => lo.0,
                        None => v,
                    },
                },
            },
            Err(_) => v,
        }
    } else {
        v
    }
}

/// Whether the version chosen for a declared version text depends on the
/// versions available: it is a range (not `managed`, not an exact version).
pub open spec fn needs_versions(v: Seq<char>) -> bool {
    v != "managed"@ && match range_parse(v) {
        Ok(r) => r.exact is None,
        Err(_) => false,
    }
}

/// The highest version of `available` that `range` contains.
fn highest_contained(range: &VersionRange, available: &Vec<Version>) -> (r: Option<Version>)
    ensures
        match r {
            Some(v) => highest_in(range@, versions_view(available@)) == Some(v@),
            None => highest_in(range@, versions_view(available@)) is None,
        },
{
    let ghost av = versions_view(available@);
    let mut best: Option<Version> = None;
    let mut i: usize = 0;
    while i < available.len()
        invariant
            i <= available.len(),
            av == versions_view(available@),
            match best {
                Some(v) => highest_in(range@, av.take(i as int)) == Some(v@),
                None => highest_in(range@, av.take(i as int)) is None,
            },
        decreases available.len() - i,
    {
        assert(av.take(i + 1).drop_last() =~= av.take(i as int));
        assert(av.take(i + 1).last() == available@[i as int]@);
        let x = &available[i];
        if range.contains(x) {
            let better = match &best {
                Some(b) => x.compare_int(b) > 0,
                None => true,
            };
            if better {
                best = Some(x.clone());
            }
        }
        i = i + 1;
    }
    assert(av.take(available.len() as int) =~= av);
    best
}

/// Whether the version chosen for a coordinate depends on the versions
/// available for it (see `needs_versions`).
pub fn needs_available_versions(dep: &MavenCoordinate) -> (r: bool)
    ensures
        r == needs_versions(dep.version@),
{
    let d = chars_of(dep.version.raw.as_str());
    if is_word(d.as_slice(), "managed") {
        return false;
    }
    match VersionRange::parse(dep.version.raw.as_str()) {
        Ok(range) => range.exact.is_none(),
        Err(_) => false,
    }
}

/// Picks the concrete version for a (possibly ranged) coordinate among the
/// versions available for it: the highest compatible one.
pub fn resolve_best_version(dep: &MavenCoordinate, available: &Vec<Version>) -> (r: Version)
    ensures
        r@ == best_version(dep.version@, versions_view(available@)),
{
    let d = chars_of(dep.version.raw.as_str());
    if !is_word(d.as_slice(), "managed") {
        match VersionRange::parse(dep.version.raw.as_str()) {
            Ok(range) => {
                if let Some(exact) = &range.exact {
                    return exact.clone();
                }
                if let Some(h) = highest_contained(&range, available) {
                    return h;
                }
                if let Some((lo, _)) = range.lower {
                    return lo;
                }
            },
            Err(_) => {},
        }
        return dep.version.clone();
    }
    dep.version.clone()
}

// ---------------------------------------------------------------------
// Specification of the traversal
// ---------------------------------------------------------------------

/// A scope whose dependencies take part in a normal build.
pub open spec fn scope_transitive(s: Scope) -> bool {
    !(s == Scope::Test || s == Scope::Provided || s == Scope::System)
}

/// A root dependency seeds the traversal when its version is known (not
/// empty, not `managed`) and its scope is transitive.
pub open spec fn seeds(d: DependencyView) -> bool {
    d.coordinate.version.len() != 0 && d.coordinate.version != "managed"@ && scope_transitive(
        d.scope,
    )
}

/// The seeding dependencies of the root, in order.
pub open spec fn seeded(ds: Seq<DependencyView>) -> Seq<DependencyView>
    decreases ds.len(),
{
    if ds.len() == 0 {
        Seq::empty()
    } else if seeds(ds.last()) {
        seeded(ds.drop_last()).push(ds.last())
    } else {
        seeded(ds.drop_last())
    }
}

/// One selection: a `group:artifact`, its chosen version, the declaration
/// that won and the resolved coordinate of the POM that declared it.
pub struct SelectionView {
    pub group: Seq<char>,
    pub artifact: Seq<char>,
    pub version: Seq<char>,
    pub dep: DependencyView,
    pub parent: CoordinateView,
}

/// Mathematical view of the traversal state: the selections, the queued
/// declarations with the coordinate of the POM that declared each, and the
/// position of the next declaration to look at.
pub struct ResolverView {
    pub selected: Seq<SelectionView>,
    pub queue: Seq<DependencyView>,
    pub parents: Seq<CoordinateView>,
    pub head: int,
}

/// `group:artifact` is already selected.
pub open spec fn is_selected(sel: Seq<SelectionView>, g: Seq<char>, a: Seq<char>) -> bool {
    exists|i: int| 0 <= i < sel.len() && #[trigger] sel[i].group == g && sel[i].artifact == a
}

/// No `group:artifact` is selected twice.
pub open spec fn distinct_selections(sel: Seq<SelectionView>) -> bool {
    forall|i: int, j: int|
        0 <= i < j < sel.len() ==> !(sel[i].group == sel[j].group && sel[i].artifact
            == sel[j].artifact)
}

/// Position of the first queued declaration at or after `h` whose
/// `group:artifact` is not selected yet (the queue length when none).
pub open spec fn first_unselected(sel: Seq<SelectionView>, q: Seq<DependencyView>, h: int) -> int
    decreases q.len() - h,
{
    if h < 0 || h >= q.len() {
        q.len() as int
    } else if is_selected(sel, q[h].coordinate.group, q[h].coordinate.artifact) {
        first_unselected(sel, q, h + 1)
    } else {
        h
    }
}

proof fn lemma_first_unselected_ge(sel: Seq<SelectionView>, q: Seq<DependencyView>, h: int)
    requires
        0 <= h <= q.len(),
    ensures
        first_unselected(sel, q, h) >= h,
    decreases q.len() - h,
{
    if h < q.len() {
        lemma_first_unselected_ge(sel, q, h + 1);
    }
}

/// The selection a declaration of `parent` makes, given the versions
/// available for it.
pub open spec fn selection_of(
    d: DependencyView,
    parent: CoordinateView,
    available: Seq<Seq<char>>,
) -> SelectionView {
    SelectionView {
        group: d.coordinate.group,
        artifact: d.coordinate.artifact,
        version: best_version(d.coordinate.version, available),
        dep: d,
        parent,
    }
}

/// The coordinate a declaration resolves to, given the versions available.
pub open spec fn resolved_coordinate(d: DependencyView, available: Seq<Seq<char>>) -> CoordinateView {
    CoordinateView { version: best_version(d.coordinate.version, available), ..d.coordinate }
}

/// Some exclusion of the list matches `group:artifact`.
pub open spec fn excluded_by(es: Seq<ExclusionView>, g: Seq<char>, a: Seq<char>) -> bool {
    exists|i: int| 0 <= i < es.len() && exclusion_matches(#[trigger] es[i], g, a)
}

/// A child declaration with its managed version filled in: when its
/// version reads `managed` or is empty and the managed list has an entry
/// for its `group:artifact`, that entry's version.
pub open spec fn with_managed_version(c: DependencyView, mgmt: Seq<DependencyView>) -> DependencyView {
    if c.coordinate.version == "managed"@ || c.coordinate.version.len() == 0 {
        match ga_index(mgmt, c.coordinate.group, c.coordinate.artifact) {
            Some(i) => DependencyView {
                coordinate: CoordinateView { version: mgmt[i].coordinate.version, ..c.coordinate },
                ..c
            },
            None => c,
        }
    } else {
        c
    }
}

/// The children of `parent` that join the queue, in order: transitive
/// scopes only, managed versions filled in, exclusions of `parent` applied.
pub open spec fn children(
    parent: DependencyView,
    deps: Seq<DependencyView>,
    mgmt: Seq<DependencyView>,
) -> Seq<DependencyView>
    decreases deps.len(),
{
    if deps.len() == 0 {
        Seq::empty()
    } else {
        let rest = children(parent, deps.drop_last(), mgmt);
        let c = with_managed_version(deps.last(), mgmt);
        if !scope_transitive(deps.last().scope) || excluded_by(
            parent.exclusions,
            c.coordinate.group,
            c.coordinate.artifact,
        ) {
            rest
        } else {
            rest.push(c)
        }
    }
}

/// A selection whose version still holds an unresolved `${`.
pub open spec fn unresolved(s: SelectionView) -> bool {
    contains(s.version, "${"@)
}

/// The resolved entry of a selection: depended on by the POM that declared it.
pub open spec fn entry_of(s: SelectionView) -> ResolvedView {
    ResolvedView {
        coordinate: CoordinateView { group: s.group, artifact: s.artifact, version: s.version },
        scope: s.dep.scope,
        optional: s.dep.optional,
        depended_by: Some(s.parent),
        artifacts: Seq::empty(),
    }
}

/// Entries of the resolved selections, in selection order.
pub open spec fn entries(sel: Seq<SelectionView>) -> Seq<ResolvedView>
    decreases sel.len(),
{
    if sel.len() == 0 {
        Seq::empty()
    } else if unresolved(sel.last()) {
        entries(sel.drop_last())
    } else {
        entries(sel.drop_last()).push(entry_of(sel.last()))
    }
}

/// Order of resolved entries by group, then artifact.
pub open spec fn ga_le(x: ResolvedView, y: ResolvedView) -> bool {
    lex(x.coordinate.group, y.coordinate.group) < 0 || (lex(x.coordinate.group, y.coordinate.group)
        == 0 && lex(x.coordinate.artifact, y.coordinate.artifact) <= 0)
}

/// Entries sorted by group, then artifact.
pub open spec fn sorted_by_ga(s: Seq<ResolvedView>) -> bool {
    forall|i: int, j: int| 0 <= i < j < s.len() ==> ga_le(s[i], s[j])
}

// ---------------------------------------------------------------------
// The traversal state machine
// ---------------------------------------------------------------------

/// One selection.
struct Selection {
    group: String,
    artifact: String,
    version: Version,
    dep: Dependency,
    parent: MavenCoordinate,
}

/// State of a transitive resolution.
pub struct TransitiveResolver {
    selected: Vec<Selection>,
    queue: Vec<Dependency>,
    parents: Vec<MavenCoordinate>,
    head: usize,
}

impl View for TransitiveResolver {
    type V = ResolverView;

    closed spec fn view(&self) -> ResolverView {
        ResolverView {
            selected: self.selected@.map_values(
                |s: Selection|
                    SelectionView {
                        group: s.group@,
                        artifact: s.artifact@,
                        version: s.version@,
                        dep: s.dep@,
                        parent: s.parent@,
                    },
            ),
            queue: deps_view(self.queue@),
            parents: self.parents@.map_values(|c: MavenCoordinate| c@),
            head: self.head as int,
        }
    }
}

/// Declaration `i` is the first in the queue for its `group:artifact`.
pub open spec fn first_of_ga(q: Seq<DependencyView>, i: int) -> bool {
    forall|j: int|
        0 <= j < i ==> !(#[trigger] q[j].coordinate.group == q[i].coordinate.group
            && q[j].coordinate.artifact == q[i].coordinate.artifact)
}

/// Every declaration before the head has its `group:artifact` selected.
pub open spec fn passed_selected(v: ResolverView) -> bool {
    forall|i: int|
        0 <= i < v.head ==> is_selected(
            v.selected,
            #[trigger] v.queue[i].coordinate.group,
            v.queue[i].coordinate.artifact,
        )
}

/// Every selection is the one made by the first declaration of its
/// `group:artifact` in the queue, before the head (nearest wins), with the
/// POM that declared it, for some list of available versions.
pub open spec fn selections_from_first(v: ResolverView) -> bool {
    forall|k: int|
        0 <= k < v.selected.len() ==> exists|i: int, a: Seq<Seq<char>>|
            0 <= i < v.head && first_of_ga(v.queue, i) && #[trigger] v.selected[k]
                == selection_of(v.queue[i], v.parents[i], a)
}

/// The state is consistent: every queued declaration has its declaring
/// POM, the head lies in the queue, no `group:artifact` is selected twice,
/// every declaration passed has its `group:artifact` selected, and every
/// selection comes from the first declaration of its `group:artifact`.
pub open spec fn resolver_wf(v: ResolverView) -> bool {
    &&& v.parents.len() == v.queue.len()
    &&& 0 <= v.head <= v.queue.len()
    &&& distinct_selections(v.selected)
    &&& passed_selected(v)
    &&& selections_from_first(v)
}

proof fn lemma_first_unselected_skips(sel: Seq<SelectionView>, q: Seq<DependencyView>, h: int)
    requires
        0 <= h <= q.len(),
    ensures
        h <= first_unselected(sel, q, h) <= q.len(),
        forall|i: int|
            h <= i < first_unselected(sel, q, h) ==> is_selected(
                sel,
                #[trigger] q[i].coordinate.group,
                q[i].coordinate.artifact,
            ),
        first_unselected(sel, q, h) < q.len() ==> !is_selected(
            sel,
            q[first_unselected(sel, q, h)].coordinate.group,
            q[first_unselected(sel, q, h)].coordinate.artifact,
        ),
    decreases q.len() - h,
{
    if h < q.len() {
        lemma_first_unselected_skips(sel, q, h + 1);
    }
}

/// Moving the head over declarations whose `group:artifact` is selected
/// keeps the state consistent.
proof fn lemma_wf_head_advance(v: ResolverView, w: ResolverView)
    requires
        resolver_wf(v),
        w.selected == v.selected,
        w.queue == v.queue,
        w.parents == v.parents,
        v.head <= w.head <= v.queue.len(),
        forall|i: int|
            v.head <= i < w.head ==> is_selected(
                v.selected,
                #[trigger] v.queue[i].coordinate.group,
                v.queue[i].coordinate.artifact,
            ),
    ensures
        resolver_wf(w),
{
    assert forall|k: int| 0 <= k < w.selected.len() implies exists|i: int, a: Seq<Seq<char>>|
        0 <= i < w.head && first_of_ga(w.queue, i) && #[trigger] w.selected[k] == selection_of(
            w.queue[i],
            w.parents[i],
            a,
        ) by {
        let (i, a) = choose|i: int, a: Seq<Seq<char>>|
            0 <= i < v.head && first_of_ga(v.queue, i) && #[trigger] v.selected[k]
                == selection_of(v.queue[i], v.parents[i], a);
    }
    assert forall|i: int| 0 <= i < w.head implies is_selected(
        w.selected,
        #[trigger] w.queue[i].coordinate.group,
        w.queue[i].coordinate.artifact,
    ) by {
        if i < v.head {
            assert(is_selected(v.selected, v.queue[i].coordinate.group, v.queue[i].coordinate.artifact));
        }
    }
}

/// Queuing more declarations keeps the state consistent.
proof fn lemma_wf_extend(v: ResolverView, w: ResolverView)
    requires
        resolver_wf(v),
        w.selected == v.selected,
        w.head == v.head,
        w.parents.len() == w.queue.len(),
        w.queue.len() >= v.queue.len(),
        forall|i: int| 0 <= i < v.queue.len() ==> #[trigger] w.queue[i] == v.queue[i],
        forall|i: int| 0 <= i < v.parents.len() ==> #[trigger] w.parents[i] == v.parents[i],
    ensures
        resolver_wf(w),
{
    assert forall|i: int| 0 <= i < w.head implies is_selected(
        w.selected,
        #[trigger] w.queue[i].coordinate.group,
        w.queue[i].coordinate.artifact,
    ) by {
        assert(w.queue[i] == v.queue[i]);
        assert(is_selected(v.selected, v.queue[i].coordinate.group, v.queue[i].coordinate.artifact));
    }
    assert forall|k: int| 0 <= k < w.selected.len() implies exists|i: int, a: Seq<Seq<char>>|
        0 <= i < w.head && first_of_ga(w.queue, i) && #[trigger] w.selected[k] == selection_of(
            w.queue[i],
            w.parents[i],
            a,
        ) by {
        let (i, a) = choose|i: int, a: Seq<Seq<char>>|
            0 <= i < v.head && first_of_ga(v.queue, i) && #[trigger] v.selected[k]
                == selection_of(v.queue[i], v.parents[i], a);
        assert(w.queue[i] == v.queue[i]);
        assert(w.parents[i] == v.parents[i]);
        assert forall|j: int| 0 <= j < i implies !(#[trigger] w.queue[j].coordinate.group
            == w.queue[i].coordinate.group && w.queue[j].coordinate.artifact
            == w.queue[i].coordinate.artifact) by {
            assert(w.queue[j] == v.queue[j]);
            assert(!(v.queue[j].coordinate.group == v.queue[i].coordinate.group
                && v.queue[j].coordinate.artifact == v.queue[i].coordinate.artifact));
        }
    }
}

/// Selecting the declaration at the head, whose `group:artifact` is not
/// selected yet, keeps the state consistent.
proof fn lemma_wf_select(v: ResolverView, w: ResolverView, a: Seq<Seq<char>>)
    requires
        resolver_wf(v),
        v.head < v.queue.len(),
        !is_selected(
            v.selected,
            v.queue[v.head].coordinate.group,
            v.queue[v.head].coordinate.artifact,
        ),
        w.queue == v.queue,
        w.parents == v.parents,
        w.head == v.head + 1,
        w.selected == v.selected.push(selection_of(v.queue[v.head], v.parents[v.head], a)),
    ensures
        resolver_wf(w),
{
    let h = v.head;
    let n = v.selected.len() as int;
    assert(first_of_ga(v.queue, h)) by {
        assert forall|j: int| 0 <= j < h implies !(#[trigger] v.queue[j].coordinate.group
            == v.queue[h].coordinate.group && v.queue[j].coordinate.artifact
            == v.queue[h].coordinate.artifact) by {
            assert(is_selected(v.selected, v.queue[j].coordinate.group, v.queue[j].coordinate.artifact));
        }
    }
    assert(distinct_selections(w.selected)) by {
        assert forall|i: int, j: int| 0 <= i < j < w.selected.len() implies !(w.selected[i].group
            == w.selected[j].group && w.selected[i].artifact == w.selected[j].artifact) by {
            if j == n {
                assert(w.selected[i] == v.selected[i]);
            } else {
                assert(w.selected[i] == v.selected[i] && w.selected[j] == v.selected[j]);
            }
        }
    }
    assert forall|i: int| 0 <= i < w.head implies is_selected(
        w.selected,
        #[trigger] w.queue[i].coordinate.group,
        w.queue[i].coordinate.artifact,
    ) by {
        if i < h {
            assert(is_selected(v.selected, v.queue[i].coordinate.group, v.queue[i].coordinate.artifact));
            let m = choose|m: int|
                0 <= m < v.selected.len() && #[trigger] v.selected[m].group
                    == v.queue[i].coordinate.group && v.selected[m].artifact
                    == v.queue[i].coordinate.artifact;
            assert(w.selected[m] == v.selected[m]);
        } else {
            assert(w.selected[n].group == w.queue[i].coordinate.group);
        }
    }
    assert forall|k: int| 0 <= k < w.selected.len() implies exists|i: int, b: Seq<Seq<char>>|
        0 <= i < w.head && first_of_ga(w.queue, i) && #[trigger] w.selected[k] == selection_of(
            w.queue[i],
            w.parents[i],
            b,
        ) by {
        if k < n {
            assert(w.selected[k] == v.selected[k]);
            let (i, b) = choose|i: int, b: Seq<Seq<char>>|
                0 <= i < v.head && first_of_ga(v.queue, i) && #[trigger] v.selected[k]
                    == selection_of(v.queue[i], v.parents[i], b);
        } else {
            assert(w.selected[k] == selection_of(w.queue[h], w.parents[h], a));
        }
    }
}

impl TransitiveResolver {
    /// The state for a root POM: nothing selected, the root's seeding
    /// dependencies queued, each declared by the root.
    pub fn new(root: &Pom) -> (r: Self)
        ensures
            resolver_wf(r@),
            r@.selected.len() == 0,
            r@.queue == seeded(deps_view(root.dependencies@)),
            forall|i: int| 0 <= i < r@.parents.len() ==> #[trigger] r@.parents[i] == root.coordinate@,
            r@.head == 0,
    {
        let mut queue: Vec<Dependency> = Vec::new();
        let mut parents: Vec<MavenCoordinate> = Vec::new();
        let mut i: usize = 0;
        while i < root.dependencies.len()
            invariant
                i <= root.dependencies.len(),
                deps_view(queue@) == seeded(deps_view(root.dependencies@.take(i as int))),
                parents@.len() == queue@.len(),
                forall|k: int| 0 <= k < parents@.len() ==> #[trigger] parents@[k]@ == root.coordinate@,
            decreases root.dependencies.len() - i,
        {
            let d = &root.dependencies[i];
            let ghost before = queue@;
            assert(deps_view(root.dependencies@.take(i + 1)).drop_last() =~= deps_view(
                root.dependencies@.take(i as int),
            ));
            assert(deps_view(root.dependencies@.take(i + 1)).last() == d@);
            let v = chars_of(d.coordinate.version.raw.as_str());
            if v.len() != 0 && !is_word(v.as_slice(), "managed") && d.scope.is_transitive() {
                let x = d.clone();
                queue.push(x);
                parents.push(root.coordinate.clone());
                assert(deps_view(queue@) =~= deps_view(before).push(x@));
            }
            i = i + 1;
        }
        assert(root.dependencies@.take(root.dependencies.len() as int) =~= root.dependencies@);
        let r = TransitiveResolver { selected: Vec::new(), queue, parents, head: 0 };
        assert(r@.selected =~= Seq::<SelectionView>::empty());
        r
    }

    /// Whether `group:artifact` is selected.
    fn find_selected(&self, g: &str, a: &str) -> (r: bool)
        ensures
            r == is_selected(self@.selected, g@, a@),
    {
        let gc = chars_of(g);
        let ac = chars_of(a);
        let mut i: usize = 0;
        while i < self.selected.len()
            invariant
                i <= self.selected.len(),
                gc@ == g@,
                ac@ == a@,
                forall|k: int|
                    0 <= k < i ==> !(#[trigger] self@.selected[k].group == g@ && self@.selected[k].artifact
                        == a@),
            decreases self.selected.len() - i,
        {
            let x = chars_of(self.selected[i].group.as_str());
            let y = chars_of(self.selected[i].artifact.as_str());
            if same_chars(x.as_slice(), gc.as_slice()) && same_chars(y.as_slice(), ac.as_slice()) {
                assert(self@.selected[i as int].group == g@);
                return true;
            }
            i = i + 1;
        }
        false
    }

    /// Passes over queued declarations of an already selected
    /// `group:artifact` (nearest wins) and returns the next declaration to
    /// select, if any; nothing is selected yet.
    pub fn pending(&mut self) -> (r: Option<Dependency>)
        requires
            resolver_wf(old(self)@),
        ensures
            resolver_wf(final(self)@),
            final(self)@.queue == old(self)@.queue,
            final(self)@.parents == old(self)@.parents,
            final(self)@.selected == old(self)@.selected,
            final(self)@.head == first_unselected(
                old(self)@.selected,
                old(self)@.queue,
                old(self)@.head,
            ),
            match r {
                Some(d) => {
                    &&& final(self)@.head < final(self)@.queue.len()
                    &&& d@ == final(self)@.queue[final(self)@.head]
                    &&& !is_selected(final(self)@.selected, d@.coordinate.group, d@.coordinate.artifact)
                },
                None => final(self)@.head == final(self)@.queue.len(),
            },
    {
        let ghost v0 = self@;
        let mut h: usize = self.head;
        let mut found = false;
        while !found && h < self.queue.len()
            invariant
                resolver_wf(self@),
                self@ == v0,
                v0.head <= h <= v0.queue.len(),
                first_unselected(v0.selected, v0.queue, v0.head) == first_unselected(
                    v0.selected,
                    v0.queue,
                    h as int,
                ),
                found ==> h < v0.queue.len() && !is_selected(
                    v0.selected,
                    v0.queue[h as int].coordinate.group,
                    v0.queue[h as int].coordinate.artifact,
                ),
            decreases self.queue.len() - h + (if found { 0int } else { 1int }),
        {
            assert(self@.queue[h as int] == self.queue@[h as int]@);
            let taken = self.find_selected(
                self.queue[h].coordinate.group_id.as_str(),
                self.queue[h].coordinate.artifact_id.as_str(),
            );
            if !taken {
                found = true;
            } else {
                h = h + 1;
            }
        }
        self.head = h;
        proof {
            lemma_first_unselected_skips(v0.selected, v0.queue, v0.head);
            assert(self@.selected == v0.selected && self@.queue == v0.queue);
            assert(self@.parents == v0.parents);
            lemma_wf_head_advance(v0, self@);
        }
        if !found {
            assert(first_unselected(v0.selected, v0.queue, h as int) == h);
            return None;
        }
        assert(self@.queue[h as int] == self.queue@[h as int]@);
        Some(self.queue[h].clone())
    }

    /// Selects the declaration at the head, when it names a
    /// `group:artifact` not selected yet, with the best of the `available`
    /// versions, and returns it with its resolved coordinate, whose effective
    /// POM the caller is to build. `None`, changing nothing, otherwise.
    pub fn select(&mut self, available: &Vec<Version>) -> (r: Option<(Dependency, MavenCoordinate)>)
        requires
            resolver_wf(old(self)@),
        ensures
            resolver_wf(final(self)@),
            final(self)@.queue == old(self)@.queue,
            final(self)@.parents == old(self)@.parents,
            ({
                let h = old(self)@.head;
                let q = old(self)@.queue;
                if h < q.len() && !is_selected(
                    old(self)@.selected,
                    q[h].coordinate.group,
                    q[h].coordinate.artifact,
                ) {
                    &&& r is Some
                    &&& r.unwrap().0@ == q[h]
                    &&& r.unwrap().1@ == resolved_coordinate(q[h], versions_view(available@))
                    &&& final(self)@.selected == old(self)@.selected.push(
                        selection_of(q[h], old(self)@.parents[h], versions_view(available@)),
                    )
                    &&& final(self)@.head == h + 1
                } else {
                    &&& r is None
                    &&& final(self)@ == old(self)@
                }
            }),
    {
        let ghost v0 = self@;
        let h = self.head;
        if h >= self.queue.len() {
            return None;
        }
        assert(v0.queue[h as int] == self.queue@[h as int]@);
        if self.find_selected(
            self.queue[h].coordinate.group_id.as_str(),
            self.queue[h].coordinate.artifact_id.as_str(),
        ) {
            return None;
        }
        self.head = h + 1;
        let dep = self.queue[h].clone();
        let parent = self.parents[h].clone();
        assert(parent@ == v0.parents[h as int]);
        let chosen = resolve_best_version(&dep.coordinate, available);
        let coord = MavenCoordinate {
            group_id: dep.coordinate.group_id.clone(),
            artifact_id: dep.coordinate.artifact_id.clone(),
            version: chosen.clone(),
        };
        let sel = Selection {
            group: dep.coordinate.group_id.clone(),
            artifact: dep.coordinate.artifact_id.clone(),
            version: chosen,
            dep: dep.clone(),
            parent,
        };
        let ghost before = self@.selected;
        self.selected.push(sel);
        assert(self@.selected =~= before.push(
            selection_of(v0.queue[h as int], v0.parents[h as int], versions_view(available@)),
        ));
        assert(self@.parents =~= v0.parents);
        proof {
            lemma_wf_select(v0, self@, versions_view(available@));
        }
        Some((dep, coord))
    }

    /// Queues the children of `parent` taken from its effective POM (see
    /// `children`), each declared by the effective POM's coordinate.
    pub fn absorb(&mut self, parent: &Dependency, effective: &EffectivePom)
        requires
            resolver_wf(old(self)@),
        ensures
            resolver_wf(final(self)@),
            final(self)@.selected == old(self)@.selected,
            final(self)@.head == old(self)@.head,
            final(self)@.queue == old(self)@.queue + children(
                parent@,
                deps_view(effective.dependencies@),
                deps_view(effective.dependency_management@),
            ),
            final(self)@.parents.len() == final(self)@.queue.len(),
            forall|i: int|
                0 <= i < old(self)@.parents.len() ==> #[trigger] final(self)@.parents[i]
                    == old(self)@.parents[i],
            forall|i: int|
                old(self)@.parents.len() <= i < final(self)@.parents.len()
                    ==> #[trigger] final(self)@.parents[i] == effective.coordinate@,
    {
        let ghost v0 = self@;
        let ghost pv = parent@;
        let ghost ds = deps_view(effective.dependencies@);
        let ghost ms = deps_view(effective.dependency_management@);
        let mut i: usize = 0;
        while i < effective.dependencies.len()
            invariant
                i <= effective.dependencies.len(),
                pv == parent@,
                ds == deps_view(effective.dependencies@),
                ms == deps_view(effective.dependency_management@),
                resolver_wf(v0),
                resolver_wf(self@),
                self@.selected == v0.selected,
                self@.head == v0.head,
                self@.queue == v0.queue + children(pv, ds.take(i as int), ms),
                self@.parents.len() >= v0.parents.len(),
                forall|k: int| 0 <= k < v0.parents.len() ==> #[trigger] self@.parents[k] == v0.parents[k],
                forall|k: int|
                    v0.parents.len() <= k < self@.parents.len() ==> #[trigger] self@.parents[k]
                        == effective.coordinate@,
            decreases effective.dependencies.len() - i,
        {
            assert(ds.take(i + 1).drop_last() =~= ds.take(i as int));
            assert(ds.take(i + 1).last() == ds[i as int]);
            let c = &effective.dependencies[i];
            if c.scope.is_transitive() {
                let mut child = c.clone();
                let v = chars_of(child.coordinate.version.raw.as_str());
                if is_word(v.as_slice(), "managed") || v.len() == 0 {
                    match crate::resolver::effective::find_ga(
                        &effective.dependency_management,
                        child.coordinate.group_id.as_str(),
                        child.coordinate.artifact_id.as_str(),
                    ) {
                        Some(j) => {
                            child.coordinate.version = effective.dependency_management[j].coordinate.version.clone();
                        },
                        None => {},
                    }
                }
                assert(child@ == with_managed_version(ds[i as int], ms));
                let excluded = Self::any_excludes(
                    &parent.exclusions,
                    child.coordinate.group_id.as_str(),
                    child.coordinate.artifact_id.as_str(),
                );
                if !excluded {
                    let ghost before = self@.queue;
                    let ghost pbefore = self@.parents;
                    self.queue.push(child);
                    self.parents.push(effective.coordinate.clone());
                    assert(self@.queue =~= before.push(with_managed_version(ds[i as int], ms)));
                    assert(self@.parents =~= pbefore.push(effective.coordinate@));
                    assert forall|k: int| 0 <= k < v0.parents.len() implies #[trigger] self@.parents[k]
                        == v0.parents[k] by {
                        assert(self@.parents[k] == pbefore[k]);
                    }
                }
            }
            proof {
                assert forall|k: int| 0 <= k < v0.queue.len() implies #[trigger] self@.queue[k]
                    == v0.queue[k] by {
                    assert(self@.queue[k] == (v0.queue + children(pv, ds.take(i + 1), ms))[k]);
                }
                lemma_wf_extend(v0, self@);
            }
            i = i + 1;
        }
        assert(ds.take(effective.dependencies.len() as int) =~= ds);
    }

    /// Whether some exclusion of the list matches `group:artifact`.
    fn any_excludes(es: &Vec<crate::models::Exclusion>, g: &str, a: &str) -> (r: bool)
        ensures
            r == excluded_by(crate::models::exclusions_view(es@), g@, a@),
    {
        let mut i: usize = 0;
        while i < es.len()
            invariant
                i <= es.len(),
                forall|k: int|
                    0 <= k < i ==> !exclusion_matches(
                        #[trigger] crate::models::exclusions_view(es@)[k],
                        g@,
                        a@,
                    ),
            decreases es.len() - i,
        {
            if es[i].matches(g, a) {
                assert(exclusion_matches(crate::models::exclusions_view(es@)[i as int], g@, a@));
                return true;
            }
            i = i + 1;
        }
        false
    }

    /// The resolved entries: every selection whose version has no
    /// unresolved `${`, with the scope and optionality of its winning
    /// declaration, depended on by the POM that declared it, sorted by
    /// group then artifact; the resolution's root is `root`.
    pub fn finish(&self, root: &MavenCoordinate) -> (r: Resolution)
        ensures
            r.root == *root,
            sorted_by_ga(resolved_view(r.dependencies@)),
            resolved_view(r.dependencies@).to_multiset() == entries(self@.selected).to_multiset(),
    {
        let mut list: Vec<ResolvedDependency> = Vec::new();
        let ghost sv = self@.selected;
        let mut i: usize = 0;
        while i < self.selected.len()
            invariant
                i <= self.selected.len(),
                sv == self@.selected,
                resolved_view(list@) == entries(sv.take(i as int)),
            decreases self.selected.len() - i,
        {
            let s = &self.selected[i];
            assert(sv.take(i + 1).drop_last() =~= sv.take(i as int));
            assert(sv.take(i + 1).last() == sv[i as int]);
            let v = chars_of(s.version.raw.as_str());
            let pat = chars_of("${");
            if !contains_exec(v.as_slice(), pat.as_slice()) {
                let e = ResolvedDependency {
                    coordinate: MavenCoordinate {
                        group_id: s.group.clone(),
                        artifact_id: s.artifact.clone(),
                        version: s.version.clone(),
                    },
                    scope: s.dep.scope,
                    optional: s.dep.optional,
                    depended_by: Some(s.parent.clone()),
                    artifacts: Vec::new(),
                };
                let ghost before = list@;
                list.push(e);
                assert(e@.artifacts =~= Seq::<crate::models::ArtifactView>::empty());
                assert(resolved_view(list@) =~= resolved_view(before).push(entry_of(sv[i as int])));
            }
            i = i + 1;
        }
        assert(sv.take(self.selected.len() as int) =~= sv);
        let sorted = sort_by_ga(list);
        Resolution { root: root.clone(), dependencies: sorted }
    }
}

/// Key comparison of two resolved entries by group, then artifact.
fn ga_le_exec(x: &ResolvedDependency, y: &ResolvedDependency) -> (r: bool)
    ensures
        r == ga_le(x@, y@),
{
    let xg = chars_of(x.coordinate.group_id.as_str());
    let yg = chars_of(y.coordinate.group_id.as_str());
    let o = lex_exec(xg.as_slice(), yg.as_slice());
    if o < 0 {
        return true;
    }
    if o > 0 {
        return false;
    }
    let xa = chars_of(x.coordinate.artifact_id.as_str());
    let ya = chars_of(y.coordinate.artifact_id.as_str());
    lex_exec(xa.as_slice(), ya.as_slice()) <= 0
}

proof fn lemma_ga_le_total(x: ResolvedView, y: ResolvedView)
    ensures
        ga_le(x, y) || ga_le(y, x),
{
    crate::text::lemma_lex_antisym(x.coordinate.group, y.coordinate.group);
    crate::text::lemma_lex_antisym(x.coordinate.artifact, y.coordinate.artifact);
}

proof fn lemma_ga_le_trans(x: ResolvedView, y: ResolvedView, z: ResolvedView)
    requires
        ga_le(x, y),
        ga_le(y, z),
    ensures
        ga_le(x, z),
{
    crate::text::lemma_lex_antisym(x.coordinate.group, y.coordinate.group);
    crate::text::lemma_lex_antisym(y.coordinate.group, z.coordinate.group);
    crate::text::lemma_lex_antisym(x.coordinate.group, z.coordinate.group);
    crate::text::lemma_lex_trans(x.coordinate.group, y.coordinate.group, z.coordinate.group);
    if lex(x.coordinate.group, z.coordinate.group) == 0 {
        crate::text::lemma_lex_zero(x.coordinate.group, z.coordinate.group);
        crate::text::lemma_lex_trans(z.coordinate.group, x.coordinate.group, y.coordinate.group);
        crate::text::lemma_lex_trans(y.coordinate.group, z.coordinate.group, x.coordinate.group);
        crate::text::lemma_lex_trans(
            x.coordinate.artifact,
            y.coordinate.artifact,
            z.coordinate.artifact,
        );
    }
}

/// Stable insertion sort of resolved entries by group, then artifact.
fn sort_by_ga(v: Vec<ResolvedDependency>) -> (r: Vec<ResolvedDependency>)
    ensures
        sorted_by_ga(resolved_view(r@)),
        resolved_view(r@).to_multiset() == resolved_view(v@).to_multiset(),
{
    let mut out: Vec<ResolvedDependency> = Vec::new();
    let mut rest = v;
    let ghost orig = resolved_view(rest@);
    let ghost consumed: Seq<ResolvedView> = Seq::empty();
    proof {
        assert(resolved_view(out@) =~= Seq::<ResolvedView>::empty());
    }
    while rest.len() > 0
        invariant
            sorted_by_ga(resolved_view(out@)),
            resolved_view(out@).to_multiset().add(resolved_view(rest@).to_multiset())
                == orig.to_multiset(),
        decreases rest.len(),
    {
        let ghost rv = resolved_view(rest@);
        let x = rest.remove(0);
        assert(rv =~= seq![x@] + resolved_view(rest@));
        proof {
            vstd::seq_lib::lemma_multiset_commutative(seq![x@], resolved_view(rest@));
            assert(rv.to_multiset() == seq![x@].to_multiset().add(resolved_view(rest@).to_multiset()));
        }
        // position: after every element that is not greater than x
        let mut p: usize = out.len();
        while p > 0 && !ga_le_exec(&out[p - 1], &x)
            invariant
                p <= out.len(),
                forall|k: int| p <= k < out.len() ==> !ga_le(resolved_view(out@)[k], x@),
            decreases p,
        {
            p = p - 1;
        }
        let ghost ov = resolved_view(out@);
        proof {
            if p > 0 {
                assert(ga_le(ov[p - 1], x@));
            }
        }
        out.insert(p, x);
        proof {
            assert(resolved_view(out@) =~= ov.insert(p as int, x@));
            vstd::seq_lib::to_multiset_insert(ov, p as int, x@);
            let nv = resolved_view(out@);
            assert forall|i: int, j: int| 0 <= i < j < nv.len() implies ga_le(nv[i], nv[j]) by {
                if j < p {
                    assert(nv[i] == ov[i] && nv[j] == ov[j]);
                } else if j == p {
                    assert(nv[i] == ov[i] && nv[j] == x@);
                    if i < p - 1 {
                        lemma_ga_le_trans(ov[i], ov[p - 1], x@);
                    }
                } else if i == p {
                    assert(nv[i] == x@ && nv[j] == ov[j - 1]);
                    lemma_ga_le_total(ov[j - 1], x@);
                } else if i < p {
                    assert(nv[i] == ov[i] && nv[j] == ov[j - 1]);
                } else {
                    assert(nv[i] == ov[i - 1] && nv[j] == ov[j - 1]);
                }
            }
            assert(seq![x@].to_multiset() =~= vstd::multiset::Multiset::<ResolvedView>::empty().insert(x@));
        }
    }
    assert(resolved_view(rest@).to_multiset() =~= vstd::multiset::Multiset::<ResolvedView>::empty());
    out
}

// ---------------------------------------------------------------------
// Laws
// ---------------------------------------------------------------------

/// No two entries share a `group:artifact`.
pub open spec fn ga_unique(s: Seq<ResolvedView>) -> bool {
    forall|i: int, j: int|
        0 <= i < j < s.len() ==> !(s[i].coordinate.group == s[j].coordinate.group
            && s[i].coordinate.artifact == s[j].coordinate.artifact)
}

proof fn lemma_entries_come_from(sel: Seq<SelectionView>)
    ensures
        forall|i: int|
            0 <= i < entries(sel).len() ==> exists|j: int|
                0 <= j < sel.len() && #[trigger] entries(sel)[i].coordinate.group
                    == sel[j].group && entries(sel)[i].coordinate.artifact == sel[j].artifact,
    decreases sel.len(),
{
    if sel.len() > 0 {
        let init = sel.drop_last();
        lemma_entries_come_from(init);
        let e = entries(sel);
        assert forall|i: int| 0 <= i < e.len() implies exists|j: int|
            0 <= j < sel.len() && #[trigger] e[i].coordinate.group == sel[j].group
                && e[i].coordinate.artifact == sel[j].artifact by {
            if i < entries(init).len() {
                assert(e[i] == entries(init)[i]);
                let j = choose|j: int|
                    0 <= j < init.len() && #[trigger] entries(init)[i].coordinate.group
                        == init[j].group && entries(init)[i].coordinate.artifact
                        == init[j].artifact;
                assert(sel[j] == init[j]);
            } else {
                assert(sel[sel.len() - 1] == sel.last());
            }
        }
    }
}

/// A resolution lists each `group:artifact` at most once: the entries of
/// selections that never repeat a `group:artifact` never repeat one either.
pub proof fn lemma_entries_ga_unique(sel: Seq<SelectionView>)
    requires
        distinct_selections(sel),
    ensures
        ga_unique(entries(sel)),
    decreases sel.len(),
{
    if sel.len() > 0 {
        let init = sel.drop_last();
        assert(distinct_selections(init)) by {
            assert forall|i: int, j: int| 0 <= i < j < init.len() implies !(init[i].group
                == init[j].group && init[i].artifact == init[j].artifact) by {
                assert(init[i] == sel[i] && init[j] == sel[j]);
            }
        }
        lemma_entries_ga_unique(init);
        lemma_entries_come_from(init);
        let e = entries(sel);
        let ei = entries(init);
        if !unresolved(sel.last()) {
            assert forall|i: int, j: int| 0 <= i < j < e.len() implies !(e[i].coordinate.group
                == e[j].coordinate.group && e[i].coordinate.artifact
                == e[j].coordinate.artifact) by {
                if j < ei.len() {
                    assert(e[i] == ei[i] && e[j] == ei[j]);
                } else {
                    assert(e[i] == ei[i]);
                    let k = choose|k: int|
                        0 <= k < init.len() && #[trigger] ei[i].coordinate.group == init[k].group
                            && ei[i].coordinate.artifact == init[k].artifact;
                    assert(sel[k] == init[k]);
                    assert(e[j].coordinate.group == sel[sel.len() - 1].group);
                }
            }
        }
    }
}

/// A finished run resolves every root dependency: when the head has passed
/// the whole queue, whose first declarations are the root's seeding
/// dependencies declared by the root (as `new` queues them, and `pending`,
/// `select` and `absorb` keep them), every root dependency has its
/// `group:artifact` selected, no `group:artifact` is selected twice, and the
/// selection for the first root declaration of a `group:artifact` is the one
/// that declaration makes: declared by the root, with its best version.
pub proof fn lemma_run_resolves_root(v: ResolverView, ds: Seq<DependencyView>, root: CoordinateView)
    requires
        resolver_wf(v),
        v.head == v.queue.len(),
        seeded(ds).len() <= v.queue.len(),
        forall|i: int| 0 <= i < seeded(ds).len() ==> #[trigger] v.queue[i] == seeded(ds)[i],
        forall|i: int| 0 <= i < seeded(ds).len() ==> #[trigger] v.parents[i] == root,
    ensures
        distinct_selections(v.selected),
        forall|i: int|
            0 <= i < seeded(ds).len() ==> is_selected(
                v.selected,
                #[trigger] seeded(ds)[i].coordinate.group,
                seeded(ds)[i].coordinate.artifact,
            ),
        forall|i: int|
            0 <= i < seeded(ds).len() && #[trigger] first_of_ga(seeded(ds), i) ==> exists|
                k: int,
                a: Seq<Seq<char>>,
            |
                #![trigger v.selected[k], selection_of(seeded(ds)[i], root, a)]
                0 <= k < v.selected.len() && v.selected[k] == selection_of(seeded(ds)[i], root, a),
{
    let sd = seeded(ds);
    assert forall|i: int| 0 <= i < sd.len() implies is_selected(
        v.selected,
        #[trigger] sd[i].coordinate.group,
        sd[i].coordinate.artifact,
    ) by {
        assert(v.queue[i] == sd[i]);
        assert(is_selected(v.selected, v.queue[i].coordinate.group, v.queue[i].coordinate.artifact));
    }
    assert forall|i: int| 0 <= i < sd.len() && #[trigger] first_of_ga(sd, i) implies exists|
        k: int,
        a: Seq<Seq<char>>,
    |
        #![trigger v.selected[k], selection_of(sd[i], root, a)]
        0 <= k < v.selected.len() && v.selected[k] == selection_of(sd[i], root, a) by {
        assert(v.queue[i] == sd[i]);
        assert(is_selected(v.selected, v.queue[i].coordinate.group, v.queue[i].coordinate.artifact));
        let m = choose|m: int|
            0 <= m < v.selected.len() && #[trigger] v.selected[m].group
                == v.queue[i].coordinate.group && v.selected[m].artifact
                == v.queue[i].coordinate.artifact;
        let (j, a) = choose|j: int, a: Seq<Seq<char>>|
            0 <= j < v.head && first_of_ga(v.queue, j) && #[trigger] v.selected[m]
                == selection_of(v.queue[j], v.parents[j], a);
        if j < i {
            assert(v.queue[j] == sd[j]);
            assert(!(sd[j].coordinate.group == sd[i].coordinate.group
                && sd[j].coordinate.artifact == sd[i].coordinate.artifact));
        } else if j > i {
            assert(!(v.queue[i].coordinate.group == v.queue[j].coordinate.group
                && v.queue[i].coordinate.artifact == v.queue[j].coordinate.artifact));
        }
        assert(j == i);
        assert(v.parents[i] == root);
        assert(v.selected[m] == selection_of(sd[i], root, a));
    }
}

/// A child declaration that `absorb` queues as it stands: its version is
/// explicit (not empty, not `managed`), its scope is compile, runtime or
/// import, and the parent does not exclude its `group:artifact`.
pub open spec fn queued_as_declared(parent: DependencyView, d: DependencyView) -> bool {
    &&& d.coordinate.version.len() != 0
    &&& d.coordinate.version != "managed"@
    &&& (d.scope == Scope::Compile || d.scope == Scope::Runtime || d.scope == Scope::Import)
    &&& !excluded_by(parent.exclusions, d.coordinate.group, d.coordinate.artifact)
}

/// A child declared with an explicit version is queued with exactly that
/// version, whatever the dependency management lists for its
/// `group:artifact`: management only fills versions that are missing.
pub proof fn lemma_explicit_versions_kept(
    parent: DependencyView,
    deps: Seq<DependencyView>,
    mgmt: Seq<DependencyView>,
)
    ensures
        forall|j: int|
            0 <= j < deps.len() && #[trigger] queued_as_declared(parent, deps[j]) ==> children(
                parent,
                deps,
                mgmt,
            ).contains(deps[j]),
    decreases deps.len(),
{
    if deps.len() > 0 {
        let init = deps.drop_last();
        lemma_explicit_versions_kept(parent, init, mgmt);
        let rest = children(parent, init, mgmt);
        let r = children(parent, deps, mgmt);
        assert forall|j: int|
            0 <= j < deps.len() && #[trigger] queued_as_declared(parent, deps[j]) implies r.contains(
            deps[j]) by {
            if j < init.len() {
                assert(deps[j] == init[j]);
                assert(queued_as_declared(parent, init[j]));
                let k = choose|k: int| 0 <= k < rest.len() && rest[k] == init[j];
                if r != rest {
                    assert(r[k] == rest[k]);
                }
                assert(r[k] == deps[j]);
            } else {
                assert(deps[j] == deps.last());
                assert(with_managed_version(deps.last(), mgmt) == deps.last());
                assert(r == rest.push(deps.last()));
                assert(r[rest.len() as int] == deps[j]);
            }
        }
    }
}

} // verus!
