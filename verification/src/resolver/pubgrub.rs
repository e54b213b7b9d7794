//! Bridge to the PubGrub solver (`pubgrub` crate).
//!
//! PubGrub orders versions by their type's `Ord`. Maven versions are handed
//! to it as their rank among the versions of a problem: the number of those
//! versions that are strictly below in the Maven order. Ranks order exactly
//! as the Maven order does (see `lemma_rank_embeds_order`), so PubGrub
//! solves the same problem over integers.

use vstd::prelude::*;
use crate::models::version::{
    lemma_version_order_antisymmetric, lemma_version_order_reflexive,
    lemma_version_order_transitive, version_order, versions_view, Version,
};

verus! {

#[verifier::external_type_specification]
#[verifier::external_body]
#[verifier::reject_recursive_types(V)]
pub struct ExRanges<V>(::pubgrub::Ranges<V>);

// ---------------------------------------------------------------------
// Ranks
// ---------------------------------------------------------------------

/// How many versions of `universe` are strictly below `v` in the Maven order.
pub open spec fn rank(universe: Seq<Seq<char>>, v: Seq<char>) -> nat
    decreases universe.len(),
{
    if universe.len() == 0 {
        0
    } else {
        rank(universe.drop_last(), v) + if version_order(universe.last(), v) < 0 {
            1nat
        } else {
            0nat
        }
    }
}

/// Ranks never decrease along the Maven order.
pub proof fn lemma_rank_monotonic(universe: Seq<Seq<char>>, a: Seq<char>, b: Seq<char>)
    requires
        version_order(a, b) <= 0,
    ensures
        rank(universe, a) <= rank(universe, b),
    decreases universe.len(),
{
    if universe.len() > 0 {
        lemma_rank_monotonic(universe.drop_last(), a, b);
        let u = universe.last();
        lemma_version_order_antisymmetric(u, a);
        if version_order(u, a) < 0 {
            lemma_version_order_transitive(u, a, b);
        }
    }
}

/// A version of the universe ranks strictly below every version above it.
pub proof fn lemma_rank_strict(universe: Seq<Seq<char>>, a: Seq<char>, b: Seq<char>)
    requires
        universe.contains(a),
        version_order(a, b) < 0,
    ensures
        rank(universe, a) < rank(universe, b),
    decreases universe.len(),
{
    let u = universe.last();
    let init = universe.drop_last();
    lemma_version_order_reflexive(a);
    if u == a {
        lemma_rank_monotonic(init, a, b);
    } else {
        let k = choose|k: int| 0 <= k < universe.len() && universe[k] == a;
        assert(init[k] == a);
        lemma_rank_strict(init, a, b);
        lemma_version_order_antisymmetric(u, a);
        if version_order(u, a) < 0 {
            lemma_version_order_transitive(u, a, b);
        }
    }
}

/// Ranks within a universe order exactly as the Maven order: equal versions
/// have equal ranks and a lower version has a lower rank.
pub proof fn lemma_rank_embeds_order(universe: Seq<Seq<char>>, a: Seq<char>, b: Seq<char>)
    requires
        universe.contains(a),
        universe.contains(b),
    ensures
        version_order(a, b) == 0 <==> rank(universe, a) == rank(universe, b),
        version_order(a, b) < 0 <==> rank(universe, a) < rank(universe, b),
{
    lemma_version_order_antisymmetric(a, b);
    if version_order(a, b) == 0 {
        lemma_rank_monotonic(universe, a, b);
        lemma_rank_monotonic(universe, b, a);
    } else if version_order(a, b) < 0 {
        lemma_rank_strict(universe, a, b);
    } else {
        lemma_rank_strict(universe, b, a);
    }
}


/// The rank of `v` among `universe`.
pub fn version_rank(v: &Version, universe: &Vec<Version>) -> (r: u64)
    ensures
        r == rank(versions_view(universe@), v@),
{
    let ghost uv = versions_view(universe@);
    let mut n: u64 = 0;
    let mut i: usize = 0;
    while i < universe.len()
        invariant
            i <= universe.len(),
            uv == versions_view(universe@),
            n == rank(uv.take(i as int), v@),
            n <= i,
        decreases universe.len() - i,
    {
        assert(uv.take(i + 1).drop_last() =~= uv.take(i as int));
        assert(uv.take(i + 1).last() == universe@[i as int]@);
        if universe[i].compare_int(v) < 0 {
            n = n + 1;
        }
        i = i + 1;
    }
    assert(uv.take(universe.len() as int) =~= uv);
    n
}

// ---------------------------------------------------------------------
// Calls into the solver
// ---------------------------------------------------------------------

/// The solver's offline dependency provider over text package names and
/// integer versions (`pubgrub::OfflineDependencyProvider`), held opaquely:
/// its contents are known through `provider_contents`.
#[verifier::external_body]
pub struct SolverProvider {
    inner: ::pubgrub::OfflineDependencyProvider<String, ::pubgrub::Ranges<u64>>,
}

/// The versions that a `pubgrub::Ranges<u64>` holds.
pub uninterp spec fn ranges_members(r: ::pubgrub::Ranges<u64>) -> Set<u64>;

/// The dependencies that an `OfflineDependencyProvider` holds: for each
/// registered package and version, the versions allowed of each package it
/// depends on.
pub uninterp spec fn provider_contents(
    p: SolverProvider,
) -> Map<(Seq<char>, u64), Map<Seq<char>, Set<u64>>>;

/// `choice` (one version per package) is a solution for `root` at
/// `version`: it picks that version of the root, picks only registered
/// package versions, and every dependency of a picked version is picked with
/// a version its set allows.
pub open spec fn is_solution(
    contents: Map<(Seq<char>, u64), Map<Seq<char>, Set<u64>>>,
    choice: Map<Seq<char>, u64>,
    root: Seq<char>,
    version: u64,
) -> bool {
    &&& choice.contains_key(root)
    &&& choice[root] == version
    &&& forall|p: Seq<char>|
        #[trigger] choice.contains_key(p) ==> contents.contains_key((p, choice[p])) && forall|
            q: Seq<char>,
        |
            #[trigger] contents[(p, choice[p])].contains_key(q) ==> choice.contains_key(q)
                && contents[(p, choice[p])][q].contains(choice[q])
}

/// Whether a solution exists: what `pubgrub::resolve` decides (it returns a
/// solution when one exists, and `NoSolution` otherwise).
pub open spec fn pubgrub_solvable(
    contents: Map<(Seq<char>, u64), Map<Seq<char>, Set<u64>>>,
    root: Seq<char>,
    version: u64,
) -> bool {
    exists|choice: Map<Seq<char>, u64>| is_solution(contents, choice, root, version)
}

/// The dependency map of a list of `(package, range)` pairs, a later pair
/// for a package replacing an earlier one.
pub open spec fn dependency_sets(deps: Seq<(String, ::pubgrub::Ranges<u64>)>) -> Map<
    Seq<char>,
    Set<u64>,
>
    decreases deps.len(),
{
    if deps.len() == 0 {
        Map::empty()
    } else {
        dependency_sets(deps.drop_last()).insert(
            deps.last().0@,
            ranges_members(deps.last().1),
        )
    }
}

/// `pubgrub::Ranges::higher_than(v)`: the versions from `v` on.
#[verifier::external_body]
fn ranges_at_least(v: u64) -> (r: ::pubgrub::Ranges<u64>)
    ensures
        ranges_members(r) == Set::new(|x: u64| x >= v),
{
    ::pubgrub::Ranges::higher_than(v)
}

/// `pubgrub::Ranges::singleton(v)`: exactly `v`.
#[verifier::external_body]
fn ranges_exactly(v: u64) -> (r: ::pubgrub::Ranges<u64>)
    ensures
        ranges_members(r) == set![v],
{
    ::pubgrub::Ranges::singleton(v)
}

/// `pubgrub::OfflineDependencyProvider::new`: a provider holding nothing.
#[verifier::external_body]
fn provider_new() -> (r: SolverProvider)
    ensures
        provider_contents(r).dom() == Set::<(Seq<char>, u64)>::empty(),
{
    SolverProvider { inner: ::pubgrub::OfflineDependencyProvider::new() }
}

/// `OfflineDependencyProvider::add_dependencies`: the dependencies of
/// `package` at `version` become those listed (collected into a map),
/// replacing any registered before for that pair.
#[verifier::external_body]
fn provider_add(
    p: &mut SolverProvider,
    package: String,
    version: u64,
    dependencies: Vec<(String, ::pubgrub::Ranges<u64>)>,
)
    ensures
        provider_contents(*final(p)) == provider_contents(*old(p)).insert(
            (package@, version),
            dependency_sets(dependencies@),
        ),
{
    p.inner.add_dependencies(package, version, dependencies)
}

/// `pubgrub::resolve(p, root, version).is_ok()`: whether the solver finds a
/// solution, which it does exactly when one exists (`pubgrub_solvable` of
/// the provider's contents).
#[verifier::external_body]
fn pubgrub_resolves(
    p: &SolverProvider,
    root: String,
    version: u64,
) -> (r: bool)
    ensures
        r == pubgrub_solvable(provider_contents(*p), root@, version),
{
    ::pubgrub::resolve(&p.inner, root, version).is_ok()
}

/// The contents of a new provider after registering, in order, each
/// package version with its dependencies.
pub open spec fn registered(packages: Seq<(String, u64, Vec<(String, ::pubgrub::Ranges<u64>)>)>) -> Map<
    (Seq<char>, u64),
    Map<Seq<char>, Set<u64>>,
>
    decreases packages.len(),
{
    if packages.len() == 0 {
        Map::empty()
    } else {
        let last = packages.last();
        registered(packages.drop_last()).insert((last.0@, last.1), dependency_sets(last.2@))
    }
}

/// Registers the packages, in order, in a new provider and asks the solver
/// whether `root` at `root_version` has a solution.
fn pubgrub_finds_solution(
    packages: Vec<(String, u64, Vec<(String, ::pubgrub::Ranges<u64>)>)>,
    root: String,
    root_version: u64,
) -> (r: bool)
    ensures
        r == pubgrub_solvable(registered(packages@), root@, root_version),
{
    let mut provider = provider_new();
    let mut rest = packages;
    let ghost all = rest@;
    proof {
        assert(provider_contents(provider) =~= Map::empty());
        assert(all.take(0) =~= Seq::<(String, u64, Vec<(String, ::pubgrub::Ranges<u64>)>)>::empty());
        assert(all.skip(0) =~= all);
    }
    while rest.len() > 0
        invariant
            rest@.len() <= all.len(),
            rest@ == all.skip(all.len() - rest@.len()),
            provider_contents(provider) == registered(all.take(all.len() - rest@.len())),
        decreases rest.len(),
    {
        let ghost n = all.len() - rest@.len();
        let ghost before = rest@;
        let (package, version, dependencies) = rest.remove(0);
        proof {
            assert(before[0] == all[n]);
            assert(all.take(n + 1).drop_last() =~= all.take(n));
            assert(all.take(n + 1).last() == all[n]);
            assert(rest@ =~= all.skip(n + 1));
        }
        provider_add(&mut provider, package, version, dependencies);
    }
    proof {
        assert(all.take(all.len() as int) =~= all);
    }
    pubgrub_resolves(&provider, root, root_version)
}

/// A small self-contained example running the solver on Maven versions:
/// `root 1.0` needs `guava` from `32.0` and `commons-lang3` exactly
/// `3.14.0`; `guava 33.2.1-jre` and `commons-lang3 3.14.0` exist. It only
/// shows that versions can be handed to the solver, and always answers true.
pub fn smoke_test_pubgrub_compatibility() -> (r: bool)
    ensures
        r,
{
    let mut universe: Vec<Version> = Vec::new();
    universe.push(Version::new("1.0"));
    universe.push(Version::new("32.0"));
    universe.push(Version::new("3.14.0"));
    universe.push(Version::new("33.2.1-jre"));
    let root_v = version_rank(&Version::new("1.0"), &universe);
    let guava_min = version_rank(&Version::new("32.0"), &universe);
    let lang_v = version_rank(&Version::new("3.14.0"), &universe);
    let guava_v = version_rank(&Version::new("33.2.1-jre"), &universe);
    let mut root_deps: Vec<(String, ::pubgrub::Ranges<u64>)> = Vec::new();
    root_deps.push((crate::text::owned("guava"), ranges_at_least(guava_min)));
    root_deps.push((crate::text::owned("commons-lang3"), ranges_exactly(lang_v)));
    let mut packages: Vec<(String, u64, Vec<(String, ::pubgrub::Ranges<u64>)>)> = Vec::new();
    packages.push((crate::text::owned("root"), root_v, root_deps));
    packages.push((crate::text::owned("guava"), guava_v, Vec::new()));
    packages.push((crate::text::owned("commons-lang3"), lang_v, Vec::new()));
    let _solution = pubgrub_finds_solution(packages, crate::text::owned("root"), root_v);
    true
}

/// Placeholder for the solver-based resolver; always true.
pub fn pubgrub_proof_of_concept() -> (r: bool)
    ensures
        r,
{
    true
}

} // verus!
