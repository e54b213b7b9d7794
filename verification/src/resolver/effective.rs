//! Minimal "effective POM" construction for resolution purposes:
//! parent-chain walking decisions, property merging and `${...}`
//! interpolation, and `<dependencyManagement>` merging (child wins),
//! including the BOMs it imports (`<scope>import</scope>`; entries declared
//! directly win over imported ones, earlier imports over later ones).

use vstd::prelude::*;
use crate::models::{
    deps_view, CoordinateView, Dependency, DependencyView, MavenCoordinate, Scope,
};
use crate::parser::pom::{pairs_view, Pom};
use crate::text::{
    chars_of, contains, contains_exec, matches_at, join2, owned, replace_all, replace_all_exec, string_of,
    trim, same_chars,
};
use crate::models::version::Version;

verus! {

/// Text key/value pairs, as a sequence of views.
pub type PropsView = Seq<(Seq<char>, Seq<char>)>;

// ---------------------------------------------------------------------
// Property maps
// ---------------------------------------------------------------------

/// First index at or after `i` whose key is `k`.
pub open spec fn key_index_from(ps: PropsView, k: Seq<char>, i: int) -> Option<int>
    decreases ps.len() - i,
{
    if i < 0 || i >= ps.len() {
        None
    } else if ps[i].0 == k {
        Some(i)
    } else {
        key_index_from(ps, k, i + 1)
    }
}

/// First index whose key is `k`.
pub open spec fn key_index(ps: PropsView, k: Seq<char>) -> Option<int> {
    key_index_from(ps, k, 0)
}

/// The value of key `k`, if present.
pub open spec fn prop_get(ps: PropsView, k: Seq<char>) -> Option<Seq<char>> {
    match key_index(ps, k) {
        Some(i) => Some(ps[i].1),
        None => None,
    }
}

/// Map insertion: the value of an existing key is replaced in place, a new
/// key is appended.
pub open spec fn prop_insert(ps: PropsView, k: Seq<char>, v: Seq<char>) -> PropsView {
    match key_index(ps, k) {
        Some(i) => ps.update(i, (k, v)),
        None => ps.push((k, v)),
    }
}

/// Insertion of every pair of `new`, in order.
pub open spec fn prop_insert_all(ps: PropsView, new: PropsView) -> PropsView
    decreases new.len(),
{
    if new.len() == 0 {
        ps
    } else {
        let before = prop_insert_all(ps, new.drop_last());
        prop_insert(before, new.last().0, new.last().1)
    }
}

/// No key occurs twice.
pub open spec fn distinct_keys(ps: PropsView) -> bool {
    forall|i: int, j: int| 0 <= i < j < ps.len() ==> ps[i].0 != ps[j].0
}

/// The properties one POM contributes on top of `ps`: its own properties,
/// then `project.groupId`, `project.artifactId` and `project.version`.
pub open spec fn pom_props_step(ps: PropsView, pom: Pom) -> PropsView {
    let a = prop_insert_all(ps, pairs_view(pom.properties@));
    let b = prop_insert(a, "project.groupId"@, pom.coordinate@.group);
    let c = prop_insert(b, "project.artifactId"@, pom.coordinate@.artifact);
    prop_insert(c, "project.version"@, pom.coordinate@.version)
}

/// Properties merged from the root of the chain (its last POM) down to
/// position `j`; nearer POMs override.
pub open spec fn chain_props(chain: Seq<Pom>, j: int) -> PropsView
    decreases chain.len() - j,
{
    if j < 0 || j >= chain.len() {
        Seq::empty()
    } else {
        pom_props_step(chain_props(chain, j + 1), chain[j])
    }
}

// ---------------------------------------------------------------------
// Dependency management maps (keyed by group and artifact)
// ---------------------------------------------------------------------

/// First index at or after `i` of a managed entry for `group:artifact`.
pub open spec fn ga_index_from(ms: Seq<DependencyView>, g: Seq<char>, a: Seq<char>, i: int) -> Option<
    int,
>
    decreases ms.len() - i,
{
    if i < 0 || i >= ms.len() {
        None
    } else if ms[i].coordinate.group == g && ms[i].coordinate.artifact == a {
        Some(i)
    } else {
        ga_index_from(ms, g, a, i + 1)
    }
}

/// First index of a managed entry for `group:artifact`.
pub open spec fn ga_index(ms: Seq<DependencyView>, g: Seq<char>, a: Seq<char>) -> Option<int> {
    ga_index_from(ms, g, a, 0)
}

/// Managed-entry insertion keyed by group and artifact.
pub open spec fn mgmt_insert(ms: Seq<DependencyView>, d: DependencyView) -> Seq<DependencyView> {
    match ga_index(ms, d.coordinate.group, d.coordinate.artifact) {
        Some(i) => ms.update(i, d),
        None => ms.push(d),
    }
}

/// Insertion of every entry of `new`, in order.
pub open spec fn mgmt_insert_all(ms: Seq<DependencyView>, new: Seq<DependencyView>) -> Seq<
    DependencyView,
>
    decreases new.len(),
{
    if new.len() == 0 {
        ms
    } else {
        mgmt_insert(mgmt_insert_all(ms, new.drop_last()), new.last())
    }
}

/// Managed entries merged from the root of the chain down to position `j`.
pub open spec fn chain_mgmt(chain: Seq<Pom>, j: int) -> Seq<DependencyView>
    decreases chain.len() - j,
{
    if j < 0 || j >= chain.len() {
        Seq::empty()
    } else {
        mgmt_insert_all(chain_mgmt(chain, j + 1), deps_view(chain[j].dependency_management@))
    }
}

/// Direct dependencies of every POM from the root down to position `j`,
/// the root's first.
pub open spec fn chain_deps(chain: Seq<Pom>, j: int) -> Seq<DependencyView>
    decreases chain.len() - j,
{
    if j < 0 || j >= chain.len() {
        Seq::empty()
    } else {
        chain_deps(chain, j + 1) + deps_view(chain[j].dependencies@)
    }
}

// ---------------------------------------------------------------------
// Interpolation
// ---------------------------------------------------------------------

/// `${key}`.
pub open spec fn placeholder(k: Seq<char>) -> Seq<char> {
    "${"@ + k + "}"@
}

/// One pass over the properties from index `i`, replacing each `${key}` that
/// occurs; also reports whether anything was replaced.
pub open spec fn pass_from(ps: PropsView, s: Seq<char>, i: int) -> (Seq<char>, bool)
    decreases ps.len() - i,
{
    if i < 0 || i >= ps.len() {
        (s, false)
    } else {
        let ph = placeholder(ps[i].0);
        let s1 = if contains(s, ph) {
            replace_all(s, ph, ps[i].1)
        } else {
            s
        };
        let r = pass_from(ps, s1, i + 1);
        (r.0, contains(s, ph) || r.1)
    }
}

/// One round: a pass over all properties, then `${project.version}` once more.
pub open spec fn interpolation_round(ps: PropsView, s: Seq<char>) -> (Seq<char>, bool) {
    let p = pass_from(ps, s, 0);
    let pv = "${project.version}"@;
    if contains(p.0, pv) && prop_get(ps, "project.version"@) is Some {
        (replace_all(p.0, pv, prop_get(ps, "project.version"@).unwrap()), true)
    } else {
        p
    }
}

/// Rounds of replacement while something changes, at most `n` of them.
pub open spec fn interpolate_rounds(ps: PropsView, s: Seq<char>, n: nat) -> Seq<char>
    decreases n,
{
    if n == 0 {
        s
    } else {
        let r = interpolation_round(ps, s);
        if r.1 {
            interpolate_rounds(ps, r.0, (n - 1) as nat)
        } else {
            r.0
        }
    }
}

/// `${...}` interpolation of `value`: at most ten rounds.
pub open spec fn interpolation(ps: PropsView, value: Seq<char>) -> Seq<char> {
    interpolate_rounds(ps, value, 10)
}

/// A dependency whose version text is interpolated; the version is kept
/// when the interpolated text is blank.
pub open spec fn interpolated_dep(ps: PropsView, d: DependencyView) -> DependencyView {
    let t = interpolation(ps, d.coordinate.version);
    if trim(t).len() == 0 {
        d
    } else {
        DependencyView { coordinate: CoordinateView { version: t, ..d.coordinate }, ..d }
    }
}

/// The information needed from a POM (and its parents) to resolve dependencies.
#[derive(Debug)]
pub struct EffectivePom {
    pub coordinate: MavenCoordinate,
    pub properties: Vec<(String, String)>,
    pub dependencies: Vec<Dependency>,
    /// From <dependencyManagement> (including inherited), keyed by group and artifact.
    pub dependency_management: Vec<Dependency>,
}

/// Index of key `k` in `ps`, if present.
fn find_key(ps: &Vec<(String, String)>, k: &str) -> (r: Option<usize>)
    ensures
        match r {
            Some(i) => key_index(pairs_view(ps@), k@) == Some(i as int) && i < ps@.len(),
            None => key_index(pairs_view(ps@), k@) is None,
        },
{
    let kc = chars_of(k);
    let ghost pv = pairs_view(ps@);
    let mut i: usize = 0;
    while i < ps.len()
        invariant
            i <= ps.len(),
            pv == pairs_view(ps@),
            kc@ == k@,
            key_index(pv, k@) == key_index_from(pv, k@, i as int),
        decreases ps.len() - i,
    {
        let c = chars_of(ps[i].0.as_str());
        if same_chars(c.as_slice(), kc.as_slice()) {
            return Some(i);
        }
        i = i + 1;
    }
    None
}

/// Inserts `k -> v` with map semantics.
fn insert_prop(ps: &mut Vec<(String, String)>, k: &str, v: &str)
    ensures
        pairs_view(final(ps)@) == prop_insert(pairs_view(old(ps)@), k@, v@),
{
    match find_key(ps, k) {
        Some(i) => {
            let ghost before = pairs_view(ps@);
            ps.set(i, (owned(k), owned(v)));
            assert(pairs_view(ps@) =~= before.update(i as int, (k@, v@)));
        },
        None => {
            let ghost before = pairs_view(ps@);
            ps.push((owned(k), owned(v)));
            assert(pairs_view(ps@) =~= before.push((k@, v@)));
        },
    }
}

/// Index of a managed entry for `g:a`, if present.
pub(crate) fn find_ga(ms: &Vec<Dependency>, g: &str, a: &str) -> (r: Option<usize>)
    ensures
        match r {
            Some(i) => ga_index(deps_view(ms@), g@, a@) == Some(i as int) && i < ms@.len(),
            None => ga_index(deps_view(ms@), g@, a@) is None,
        },
{
    let gc = chars_of(g);
    let ac = chars_of(a);
    let ghost mv = deps_view(ms@);
    let mut i: usize = 0;
    while i < ms.len()
        invariant
            i <= ms.len(),
            mv == deps_view(ms@),
            gc@ == g@,
            ac@ == a@,
            ga_index(mv, g@, a@) == ga_index_from(mv, g@, a@, i as int),
        decreases ms.len() - i,
    {
        let x = chars_of(ms[i].coordinate.group_id.as_str());
        let y = chars_of(ms[i].coordinate.artifact_id.as_str());
        if same_chars(x.as_slice(), gc.as_slice()) && same_chars(y.as_slice(), ac.as_slice()) {
            return Some(i);
        }
        i = i + 1;
    }
    None
}

/// Inserts a managed entry keyed by its group and artifact.
fn insert_managed(ms: &mut Vec<Dependency>, d: Dependency)
    ensures
        deps_view(final(ms)@) == mgmt_insert(deps_view(old(ms)@), d@),
{
    let ghost before = deps_view(ms@);
    match find_ga(ms, d.coordinate.group_id.as_str(), d.coordinate.artifact_id.as_str()) {
        Some(i) => {
            let ghost dv = d@;
            ms.set(i, d);
            assert(deps_view(ms@) =~= before.update(i as int, dv));
        },
        None => {
            let ghost dv = d@;
            ms.push(d);
            assert(deps_view(ms@) =~= before.push(dv));
        },
    }
}

/// Very basic `${property}` interpolation: at most ten rounds, each
/// replacing every `${key}` of every property, then `${project.version}`.
pub fn interpolate(properties: &Vec<(String, String)>, value: &str) -> (r: String)
    ensures
        r@ == interpolation(pairs_view(properties@), value@),
{
    let ghost ps = pairs_view(properties@);
    let mut result: Vec<char> = chars_of(value);
    let mut changed = true;
    let mut guard: usize = 0;
    let pv = chars_of("${project.version}");
    let open_ph = chars_of("${");
    let close_ph = chars_of("}");
    proof {
        reveal_strlit("${project.version}");
    }
    while changed && guard < 10
        invariant
            guard <= 10,
            ps == pairs_view(properties@),
            pv@ == "${project.version}"@,
            pv@.len() > 0,
            open_ph@ == "${"@,
            close_ph@ == "}"@,
            interpolation(ps, value@) == if changed {
                interpolate_rounds(ps, result@, (10 - guard) as nat)
            } else {
                result@
            },
        decreases 10 - guard,
    {
        let ghost start = result@;
        changed = false;
        guard = guard + 1;
        let mut i: usize = 0;
        assert(pass_from(ps, start, 0) == pass_from(ps, result@, 0));
        while i < properties.len()
            invariant
                i <= properties.len(),
                ps == pairs_view(properties@),
                open_ph@ == "${"@,
                close_ph@ == "}"@,
                pass_from(ps, start, 0) == (pass_from(ps, result@, i as int).0, changed
                    || pass_from(ps, result@, i as int).1),
            decreases properties.len() - i,
        {
            let k = chars_of(properties[i].0.as_str());
            let a = crate::text::concat(open_ph.as_slice(), k.as_slice());
            let ph = crate::text::concat(a.as_slice(), close_ph.as_slice());
            let ghost before = result@;
            assert(ph@ == placeholder(ps[i as int].0));
            assert(ph@.len() > 0) by {
                reveal_strlit("${");
            }
            if contains_exec(result.as_slice(), ph.as_slice()) {
                let val = chars_of(properties[i].1.as_str());
                result = replace_all_exec(result.as_slice(), ph.as_slice(), val.as_slice());
                changed = true;
            }
            assert(pass_from(ps, before, i as int) == (pass_from(ps, result@, i + 1).0, contains(
                before,
                placeholder(ps[i as int].0),
            ) || pass_from(ps, result@, i + 1).1));
            i = i + 1;
        }
        assert(pass_from(ps, result@, i as int) == (result@, false));
        let ghost after_pass = result@;
        let ghost changed_pass = changed;
        assert(pass_from(ps, start, 0) == (after_pass, changed_pass));
        if contains_exec(result.as_slice(), pv.as_slice()) {
            match find_key(properties, "project.version") {
                Some(j) => {
                    let val = chars_of(properties[j].1.as_str());
                    result = replace_all_exec(result.as_slice(), pv.as_slice(), val.as_slice());
                    changed = true;
                },
                None => {},
            }
        }
        proof {
            assert(interpolation_round(ps, start) == (result@, changed));
            assert(interpolate_rounds(ps, start, (10 - (guard - 1)) as nat) == if changed {
                interpolate_rounds(ps, result@, (10 - guard) as nat)
            } else {
                result@
            });
        }
    }
    string_of(result.as_slice())
}

/// Walk of a parent chain: which coordinates have been fetched so far.
/// At most fifty POMs are fetched, and never two with the same
/// `group:artifact` key.
pub struct ParentWalk {
    seen: Vec<String>,
}

/// The `group:artifact` key of a coordinate.
pub open spec fn ga_key(c: CoordinateView) -> Seq<char> {
    c.group + ":"@ + c.artifact
}

impl View for ParentWalk {
    type V = Seq<Seq<char>>;

    closed spec fn view(&self) -> Seq<Seq<char>> {
        self.seen@.map_values(|s: String| s@)
    }
}

/// Upper bound on the length of a parent chain.
pub const MAX_CHAIN: usize = 50;

/// A walk never fetches more than fifty POMs nor the same
/// `group:artifact` key twice.
pub open spec fn walk_bounded(seen: Seq<Seq<char>>) -> bool {
    seen.len() <= MAX_CHAIN && seen.no_duplicates()
}

impl ParentWalk {
    /// A walk that has fetched nothing yet.
    pub fn new() -> (r: Self)
        ensures
            r@ == Seq::<Seq<char>>::empty(),
            walk_bounded(r@),
    {
        let r = ParentWalk { seen: Vec::new() };
        assert(r@ =~= Seq::<Seq<char>>::empty());
        r
    }

    /// Whether the POM of `current` is to be fetched next: only while fewer
    /// than fifty were fetched and its `group:artifact` key is new; the key
    /// is then recorded.
    pub fn should_fetch(&mut self, current: &MavenCoordinate) -> (r: bool)
        ensures
            r == (old(self)@.len() < MAX_CHAIN && !old(self)@.contains(ga_key(current@))),
            r ==> final(self)@ == old(self)@.push(ga_key(current@)),
            !r ==> final(self)@ == old(self)@,
            walk_bounded(old(self)@) ==> walk_bounded(final(self)@),
    {
        let key = join2(current.group_id.as_str(), ":");
        let key = join2(key.as_str(), current.artifact_id.as_str());
        if self.seen.len() >= MAX_CHAIN {
            return false;
        }
        let kc = chars_of(key.as_str());
        let mut i: usize = 0;
        while i < self.seen.len()
            invariant
                i <= self.seen.len(),
                kc@ == ga_key(current@),
                forall|m: int| 0 <= m < i ==> self.seen@[m]@ != ga_key(current@),
            decreases self.seen.len() - i,
        {
            let c = chars_of(self.seen[i].as_str());
            if same_chars(c.as_slice(), kc.as_slice()) {
                assert(self@[i as int] == ga_key(current@));
                return false;
            }
            i = i + 1;
        }
        assert(!self@.contains(ga_key(current@))) by {
            if self@.contains(ga_key(current@)) {
                let m = choose|m: int| 0 <= m < self@.len() && self@[m] == ga_key(current@);
                assert(self.seen@[m]@ == ga_key(current@));
            }
        }
        let ghost before = self@;
        self.seen.push(key);
        assert(self@ =~= before.push(ga_key(current@)));
        proof {
            if before.no_duplicates() {
                assert forall|a: int, b: int| 0 <= a < self@.len() && 0 <= b < self@.len() && a != b
                    implies self@[a] != self@[b] by {
                    if a < before.len() && b < before.len() {
                        assert(self@[a] == before[a] && self@[b] == before[b]);
                    } else if a == before.len() {
                        assert(self@[b] == before[b]);
                    } else {
                        assert(self@[a] == before[a]);
                    }
                }
            }
        }
        true
    }
}

/// The dependency with its version interpolated (kept when blank).
fn interpolate_dep(properties: &Vec<(String, String)>, d: &Dependency) -> (r: Dependency)
    ensures
        r@ == interpolated_dep(pairs_view(properties@), d@),
{
    let t = interpolate(properties, d.coordinate.version.raw.as_str());
    let mut r = d.clone();
    match Version::parse(t.as_str()) {
        Ok(v) => {
            r.coordinate.version = v;
        },
        Err(_) => {},
    }
    r
}

/// Every dependency with its version interpolated.
fn interpolate_all(properties: &Vec<(String, String)>, ds: &Vec<Dependency>) -> (r: Vec<Dependency>)
    ensures
        deps_view(r@) == deps_view(ds@).map_values(
            |d: DependencyView| interpolated_dep(pairs_view(properties@), d),
        ),
{
    let mut r: Vec<Dependency> = Vec::new();
    let mut i: usize = 0;
    while i < ds.len()
        invariant
            i <= ds.len(),
            deps_view(r@) == deps_view(ds@.take(i as int)).map_values(
                |d: DependencyView| interpolated_dep(pairs_view(properties@), d),
            ),
        decreases ds.len() - i,
    {
        let x = interpolate_dep(properties, &ds[i]);
        let ghost before = r@;
        r.push(x);
        assert(deps_view(r@) =~= deps_view(before).push(x@));
        assert(deps_view(ds@.take(i + 1)) =~= deps_view(ds@.take(i as int)).push(ds@[i as int]@));
        i = i + 1;
        assert(deps_view(r@) =~= deps_view(ds@.take(i as int)).map_values(
            |d: DependencyView| interpolated_dep(pairs_view(properties@), d),
        ));
    }
    assert(ds@.take(ds.len() as int) =~= ds@);
    r
}

/// The effective properties, dependencies and managed dependencies of a
/// parent chain (`chain[0]` the POM itself, each next one the parent of
/// the previous): merged from the root down, nearer POMs winning, with
/// every version interpolated.
pub open spec fn effective_matches_chain(e: EffectivePom, coord: MavenCoordinate, chain: Seq<Pom>) -> bool {
    let ps = chain_props(chain, 0);
    &&& e.coordinate == coord
    &&& pairs_view(e.properties@) == ps
    &&& deps_view(e.dependencies@) == chain_deps(chain, 0).map_values(
        |d: DependencyView| interpolated_dep(ps, d),
    )
    &&& deps_view(e.dependency_management@) == chain_mgmt(chain, 0).map_values(
        |d: DependencyView| interpolated_dep(ps, d),
    )
}

impl EffectivePom {
    /// Builds the effective view of `coord` from its fetched parent chain.
    pub fn from_chain(coord: &MavenCoordinate, chain: &Vec<Pom>) -> (r: EffectivePom)
        ensures
            effective_matches_chain(r, *coord, chain@),
    {
        let mut props: Vec<(String, String)> = Vec::new();
        let mut mgmt: Vec<Dependency> = Vec::new();
        let mut direct: Vec<Dependency> = Vec::new();
        let mut k: usize = chain.len();
        assert(pairs_view(props@) =~= chain_props(chain@, k as int));
        assert(deps_view(mgmt@) =~= chain_mgmt(chain@, k as int));
        assert(deps_view(direct@) =~= chain_deps(chain@, k as int));
        while k > 0
            invariant
                k <= chain.len(),
                pairs_view(props@) == chain_props(chain@, k as int),
                deps_view(mgmt@) == chain_mgmt(chain@, k as int),
                deps_view(direct@) == chain_deps(chain@, k as int),
            decreases k,
        {
            let pom = &chain[k - 1];
            let ghost p0 = pairs_view(props@);
            let ghost pp = pairs_view(pom.properties@);
            let mut m: usize = 0;
            while m < pom.properties.len()
                invariant
                    m <= pom.properties.len(),
                    pp == pairs_view(pom.properties@),
                    pairs_view(props@) == prop_insert_all(p0, pp.take(m as int)),
                decreases pom.properties.len() - m,
            {
                insert_prop(&mut props, pom.properties[m].0.as_str(), pom.properties[m].1.as_str());
                assert(pp.take(m + 1).drop_last() =~= pp.take(m as int));
                m = m + 1;
            }
            assert(pp.take(pom.properties.len() as int) =~= pp);
            insert_prop(&mut props, "project.groupId", pom.coordinate.group_id.as_str());
            insert_prop(&mut props, "project.artifactId", pom.coordinate.artifact_id.as_str());
            insert_prop(&mut props, "project.version", pom.coordinate.version.raw.as_str());
            let ghost m0 = deps_view(mgmt@);
            let ghost pm = deps_view(pom.dependency_management@);
            let mut m: usize = 0;
            while m < pom.dependency_management.len()
                invariant
                    m <= pom.dependency_management.len(),
                    pm == deps_view(pom.dependency_management@),
                    deps_view(mgmt@) == mgmt_insert_all(m0, pm.take(m as int)),
                decreases pom.dependency_management.len() - m,
            {
                insert_managed(&mut mgmt, pom.dependency_management[m].clone());
                assert(pm.take(m + 1).drop_last() =~= pm.take(m as int));
                m = m + 1;
            }
            assert(pm.take(pom.dependency_management.len() as int) =~= pm);
            let ghost d0 = deps_view(direct@);
            let mut m: usize = 0;
            while m < pom.dependencies.len()
                invariant
                    m <= pom.dependencies.len(),
                    deps_view(direct@) == d0 + deps_view(pom.dependencies@.take(m as int)),
                decreases pom.dependencies.len() - m,
            {
                let x = pom.dependencies[m].clone();
                let ghost before = direct@;
                direct.push(x);
                assert(deps_view(direct@) =~= deps_view(before).push(x@));
                assert(deps_view(pom.dependencies@.take(m + 1)) =~= deps_view(
                    pom.dependencies@.take(m as int),
                ).push(pom.dependencies@[m as int]@));
                m = m + 1;
                assert(deps_view(direct@) =~= d0 + deps_view(pom.dependencies@.take(m as int)));
            }
            assert(pom.dependencies@.take(pom.dependencies.len() as int) =~= pom.dependencies@);
            k = k - 1;
        }
        let deps = interpolate_all(&props, &direct);
        let managed = interpolate_all(&props, &mgmt);
        EffectivePom {
            coordinate: coord.clone(),
            properties: props,
            dependencies: deps,
            dependency_management: managed,
        }
    }
}

// ---------------------------------------------------------------------
// Imported BOMs (`<scope>import</scope>` in `<dependencyManagement>`)
// ---------------------------------------------------------------------

/// A managed entry that imports a BOM.
pub open spec fn is_import(d: DependencyView) -> bool {
    d.scope == Scope::Import
}

/// The coordinates of the BOMs that managed entries import, in order.
pub open spec fn import_coords(ms: Seq<DependencyView>) -> Seq<CoordinateView>
    decreases ms.len(),
{
    if ms.len() == 0 {
        Seq::empty()
    } else if is_import(ms.last()) {
        import_coords(ms.drop_last()).push(ms.last().coordinate)
    } else {
        import_coords(ms.drop_last())
    }
}

/// Adds, in order, the entries of `ds` that import nothing and whose
/// `group:artifact` is not managed yet.
pub open spec fn add_absent(acc: Seq<DependencyView>, ds: Seq<DependencyView>) -> Seq<DependencyView>
    decreases ds.len(),
{
    if ds.len() == 0 {
        acc
    } else {
        let before = add_absent(acc, ds.drop_last());
        let d = ds.last();
        if !is_import(d) && ga_index(before, d.coordinate.group, d.coordinate.artifact) is None {
            before.push(d)
        } else {
            before
        }
    }
}

/// The entries of managed list `own` that import nothing, in order.
pub open spec fn own_managed(own: Seq<DependencyView>) -> Seq<DependencyView> {
    add_absent(Seq::empty(), own)
}

/// Managed entries with the imported BOMs merged in: the entries declared
/// directly win; each BOM, in import order, adds the entries it manages
/// for a `group:artifact` not managed yet.
pub open spec fn merged_imports(own: Seq<DependencyView>, boms: Seq<Seq<DependencyView>>) -> Seq<
    DependencyView,
>
    decreases boms.len(),
{
    if boms.len() == 0 {
        own_managed(own)
    } else {
        add_absent(merged_imports(own, boms.drop_last()), boms.last())
    }
}

/// The managed entries of each of a list of effective POMs.
pub open spec fn boms_managed(boms: Seq<EffectivePom>) -> Seq<Seq<DependencyView>> {
    boms.map_values(|b: EffectivePom| deps_view(b.dependency_management@))
}

/// Adds the entries of `ds` that import nothing and whose `group:artifact`
/// is not managed yet.
fn add_absent_exec(acc: &mut Vec<Dependency>, ds: &Vec<Dependency>)
    ensures
        deps_view(final(acc)@) == add_absent(deps_view(old(acc)@), deps_view(ds@)),
{
    let ghost a0 = deps_view(acc@);
    let ghost dv = deps_view(ds@);
    let mut i: usize = 0;
    while i < ds.len()
        invariant
            i <= ds.len(),
            dv == deps_view(ds@),
            deps_view(acc@) == add_absent(a0, dv.take(i as int)),
        decreases ds.len() - i,
    {
        assert(dv.take(i + 1).drop_last() =~= dv.take(i as int));
        assert(dv.take(i + 1).last() == dv[i as int]);
        let d = &ds[i];
        let import = match d.scope {
            Scope::Import => true,
            _ => false,
        };
        if !import {
            match find_ga(acc, d.coordinate.group_id.as_str(), d.coordinate.artifact_id.as_str()) {
                Some(_) => {},
                None => {
                    let x = d.clone();
                    let ghost before = deps_view(acc@);
                    acc.push(x);
                    assert(deps_view(acc@) =~= before.push(x@));
                },
            }
        }
        i = i + 1;
    }
    assert(dv.take(ds.len() as int) =~= dv);
}

impl EffectivePom {
    /// The BOMs that this POM's `<dependencyManagement>` imports, in order.
    pub fn imported_boms(&self) -> (r: Vec<MavenCoordinate>)
        ensures
            r@.map_values(|c: MavenCoordinate| c@) == import_coords(
                deps_view(self.dependency_management@),
            ),
    {
        let ghost mv = deps_view(self.dependency_management@);
        let mut r: Vec<MavenCoordinate> = Vec::new();
        let mut i: usize = 0;
        while i < self.dependency_management.len()
            invariant
                i <= self.dependency_management.len(),
                mv == deps_view(self.dependency_management@),
                r@.map_values(|c: MavenCoordinate| c@) == import_coords(mv.take(i as int)),
            decreases self.dependency_management.len() - i,
        {
            assert(mv.take(i + 1).drop_last() =~= mv.take(i as int));
            assert(mv.take(i + 1).last() == mv[i as int]);
            let d = &self.dependency_management[i];
            match d.scope {
                Scope::Import => {
                    let c = d.coordinate.clone();
                    let ghost before = r@.map_values(|c: MavenCoordinate| c@);
                    r.push(c);
                    assert(r@.map_values(|c: MavenCoordinate| c@) =~= before.push(c@));
                },
                _ => {},
            }
            i = i + 1;
        }
        assert(mv.take(self.dependency_management.len() as int) =~= mv);
        r
    }

    /// This effective POM with the managed entries of its imported BOMs
    /// (given in import order, as effective POMs) merged in; the import
    /// entries themselves are dropped.
    pub fn with_imports(self, boms: &Vec<EffectivePom>) -> (r: EffectivePom)
        ensures
            r.coordinate == self.coordinate,
            r.properties == self.properties,
            r.dependencies == self.dependencies,
            deps_view(r.dependency_management@) == merged_imports(
                deps_view(self.dependency_management@),
                boms_managed(boms@),
            ),
    {
        let ghost bv = boms_managed(boms@);
        let ghost own = deps_view(self.dependency_management@);
        let mut merged: Vec<Dependency> = Vec::new();
        proof {
            assert(deps_view(merged@) =~= Seq::<DependencyView>::empty());
        }
        add_absent_exec(&mut merged, &self.dependency_management);
        let mut k: usize = 0;
        proof {
            assert(bv.take(0) =~= Seq::<Seq<DependencyView>>::empty());
        }
        while k < boms.len()
            invariant
                k <= boms.len(),
                bv == boms_managed(boms@),
                deps_view(merged@) == merged_imports(own, bv.take(k as int)),
            decreases boms.len() - k,
        {
            assert(bv.take(k + 1).drop_last() =~= bv.take(k as int));
            assert(bv.take(k + 1).last() == deps_view(boms@[k as int].dependency_management@));
            add_absent_exec(&mut merged, &boms[k].dependency_management);
            k = k + 1;
        }
        assert(bv.take(boms.len() as int) =~= bv);
        EffectivePom {
            coordinate: self.coordinate,
            properties: self.properties,
            dependencies: self.dependencies,
            dependency_management: merged,
        }
    }
}

// ---------------------------------------------------------------------
// Laws
// ---------------------------------------------------------------------

proof fn lemma_key_index_at(ps: PropsView, k: Seq<char>, i: int, j: int)
    requires
        0 <= i <= j < ps.len(),
        ps[j].0 == k,
        forall|m: int| i <= m < j ==> ps[m].0 != k,
    ensures
        key_index_from(ps, k, i) == Some(j),
    decreases j - i,
{
    if i < j {
        lemma_key_index_at(ps, k, i + 1, j);
    }
}

proof fn lemma_key_index_from(ps: PropsView, k: Seq<char>, i: int)
    requires
        0 <= i,
    ensures
        key_index_from(ps, k, i) matches Some(j) ==> forall|m: int| i <= m < j ==> ps[m].0 != k,
        key_index_from(ps, k, i) matches Some(j) ==> i <= j < ps.len() && ps[j].0 == k,
        key_index_from(ps, k, i) is None ==> forall|j: int| i <= j < ps.len() ==> ps[j].0 != k,
    decreases ps.len() - i,
{
    if i < ps.len() && ps[i].0 != k {
        lemma_key_index_from(ps, k, i + 1);
    }
}

/// Map insertion keeps keys distinct.
pub proof fn lemma_prop_insert_distinct(ps: PropsView, k: Seq<char>, v: Seq<char>)
    requires
        distinct_keys(ps),
    ensures
        distinct_keys(prop_insert(ps, k, v)),
        prop_get(prop_insert(ps, k, v), k) == Some(v),
{
    lemma_key_index_from(ps, k, 0);
    let r = prop_insert(ps, k, v);
    lemma_key_index_from(r, k, 0);
    match key_index(ps, k) {
        Some(i) => {
            assert forall|a: int, b: int| 0 <= a < b < r.len() implies r[a].0 != r[b].0 by {
                assert(ps[a].0 != ps[b].0);
            }
            lemma_key_index_at(r, k, 0, i);
        },
        None => {
            assert forall|a: int, b: int| 0 <= a < b < r.len() implies r[a].0 != r[b].0 by {
                if b < ps.len() {
                    assert(ps[a].0 != ps[b].0);
                }
            }
            lemma_key_index_at(r, k, 0, ps.len() as int);
        },
    }
}

proof fn lemma_prop_insert_all_distinct(ps: PropsView, new: PropsView)
    requires
        distinct_keys(ps),
    ensures
        distinct_keys(prop_insert_all(ps, new)),
    decreases new.len(),
{
    if new.len() > 0 {
        lemma_prop_insert_all_distinct(ps, new.drop_last());
        lemma_prop_insert_distinct(prop_insert_all(ps, new.drop_last()), new.last().0, new.last().1);
    }
}

/// The merged properties of a parent chain never hold a key twice, and each
/// of the chain's POMs sees its own coordinates as `project.groupId`,
/// `project.artifactId` and `project.version`.
pub proof fn lemma_chain_props_distinct(chain: Seq<Pom>, j: int)
    ensures
        distinct_keys(chain_props(chain, j)),
        0 <= j < chain.len() ==> prop_get(chain_props(chain, j), "project.version"@) == Some(
            chain[j].coordinate@.version,
        ),
    decreases chain.len() - j,
{
    if 0 <= j < chain.len() {
        lemma_chain_props_distinct(chain, j + 1);
        let ps = chain_props(chain, j + 1);
        let pom = chain[j];
        lemma_prop_insert_all_distinct(ps, pairs_view(pom.properties@));
        let a = prop_insert_all(ps, pairs_view(pom.properties@));
        lemma_prop_insert_distinct(a, "project.groupId"@, pom.coordinate@.group);
        let b = prop_insert(a, "project.groupId"@, pom.coordinate@.group);
        lemma_prop_insert_distinct(b, "project.artifactId"@, pom.coordinate@.artifact);
        let c = prop_insert(b, "project.artifactId"@, pom.coordinate@.artifact);
        lemma_prop_insert_distinct(c, "project.version"@, pom.coordinate@.version);
    } else {
        assert(chain_props(chain, j) =~= Seq::empty());
    }
}

/// The value declared last for key `k` in a list of pairs, if any.
pub open spec fn last_value(ps: PropsView, k: Seq<char>) -> Option<Seq<char>>
    decreases ps.len(),
{
    if ps.len() == 0 {
        None
    } else if ps.last().0 == k {
        Some(ps.last().1)
    } else {
        last_value(ps.drop_last(), k)
    }
}

proof fn lemma_prop_get_insert(ps: PropsView, k2: Seq<char>, v: Seq<char>, k: Seq<char>)
    ensures
        prop_get(prop_insert(ps, k2, v), k) == if k2 == k {
            Some(v)
        } else {
            prop_get(ps, k)
        },
{
    lemma_key_index_from(ps, k2, 0);
    lemma_key_index_from(ps, k, 0);
    let r = prop_insert(ps, k2, v);
    lemma_key_index_from(r, k, 0);
    match key_index(ps, k2) {
        Some(i) => {
            assert(r.len() == ps.len());
            if k2 == k {
                lemma_key_index_at(r, k, 0, i);
            } else {
                match key_index(ps, k) {
                    Some(j) => {
                        assert(j != i);
                        lemma_key_index_at(r, k, 0, j);
                    },
                    None => {
                        if key_index(r, k) is Some {
                            let j = key_index(r, k).unwrap();
                            assert(j != i);
                            assert(r[j] == ps[j]);
                        }
                    },
                }
            }
        },
        None => {
            if k2 == k {
                lemma_key_index_at(r, k, 0, ps.len() as int);
            } else {
                match key_index(ps, k) {
                    Some(j) => {
                        lemma_key_index_at(r, k, 0, j);
                    },
                    None => {
                        if key_index(r, k) is Some {
                            let j = key_index(r, k).unwrap();
                            assert(j < ps.len());
                            assert(r[j] == ps[j]);
                        }
                    },
                }
            }
        },
    }
}

proof fn lemma_prop_get_insert_all(ps: PropsView, new: PropsView, k: Seq<char>)
    ensures
        prop_get(prop_insert_all(ps, new), k) == match last_value(new, k) {
            Some(v) => Some(v),
            None => prop_get(ps, k),
        },
    decreases new.len(),
{
    if new.len() > 0 {
        lemma_prop_get_insert_all(ps, new.drop_last(), k);
        lemma_prop_get_insert(prop_insert_all(ps, new.drop_last()), new.last().0, new.last().1, k);
    }
}

/// Nearer POMs win: in the properties merged down to the POM at `j`, the
/// project keys hold that POM's coordinate, and any other key holds the
/// value that POM declares last for it or, when it declares none, the
/// value merged from its parents.
pub proof fn lemma_chain_props_nearest_wins(chain: Seq<Pom>, j: int, k: Seq<char>)
    requires
        0 <= j < chain.len(),
    ensures
        prop_get(chain_props(chain, j), k) == if k == "project.groupId"@ {
            Some(chain[j].coordinate@.group)
        } else if k == "project.artifactId"@ {
            Some(chain[j].coordinate@.artifact)
        } else if k == "project.version"@ {
            Some(chain[j].coordinate@.version)
        } else {
            match last_value(pairs_view(chain[j].properties@), k) {
                Some(v) => Some(v),
                None => prop_get(chain_props(chain, j + 1), k),
            }
        },
{
    let ps = chain_props(chain, j + 1);
    let pom = chain[j];
    let a = prop_insert_all(ps, pairs_view(pom.properties@));
    let b = prop_insert(a, "project.groupId"@, pom.coordinate@.group);
    let c = prop_insert(b, "project.artifactId"@, pom.coordinate@.artifact);
    lemma_prop_get_insert_all(ps, pairs_view(pom.properties@), k);
    lemma_prop_get_insert(a, "project.groupId"@, pom.coordinate@.group, k);
    lemma_prop_get_insert(b, "project.artifactId"@, pom.coordinate@.artifact, k);
    lemma_prop_get_insert(c, "project.version"@, pom.coordinate@.version, k);
    reveal_strlit("project.groupId");
    reveal_strlit("project.artifactId");
    reveal_strlit("project.version");
    assert("project.groupId"@[8] != "project.artifactId"@[8]);
    assert("project.groupId"@[8] != "project.version"@[8]);
    assert("project.artifactId"@[8] != "project.version"@[8]);
}

/// The managed entry for `group:artifact`, if any.
pub open spec fn managed_entry(ms: Seq<DependencyView>, g: Seq<char>, a: Seq<char>) -> Option<
    DependencyView,
> {
    match ga_index(ms, g, a) {
        Some(i) => Some(ms[i]),
        None => None,
    }
}

/// The entry declared last for `group:artifact` in a list, if any.
pub open spec fn last_managed(ms: Seq<DependencyView>, g: Seq<char>, a: Seq<char>) -> Option<
    DependencyView,
>
    decreases ms.len(),
{
    if ms.len() == 0 {
        None
    } else if ms.last().coordinate.group == g && ms.last().coordinate.artifact == a {
        Some(ms.last())
    } else {
        last_managed(ms.drop_last(), g, a)
    }
}

proof fn lemma_ga_index_at(ms: Seq<DependencyView>, g: Seq<char>, a: Seq<char>, i: int, j: int)
    requires
        0 <= i <= j < ms.len(),
        ms[j].coordinate.group == g && ms[j].coordinate.artifact == a,
        forall|m: int|
            i <= m < j ==> !(ms[m].coordinate.group == g && ms[m].coordinate.artifact == a),
    ensures
        ga_index_from(ms, g, a, i) == Some(j),
    decreases j - i,
{
    if i < j {
        lemma_ga_index_at(ms, g, a, i + 1, j);
    }
}

proof fn lemma_ga_index_from(ms: Seq<DependencyView>, g: Seq<char>, a: Seq<char>, i: int)
    requires
        0 <= i,
    ensures
        ga_index_from(ms, g, a, i) matches Some(j) ==> i <= j < ms.len()
            && ms[j].coordinate.group == g && ms[j].coordinate.artifact == a,
        ga_index_from(ms, g, a, i) is None ==> forall|j: int|
            i <= j < ms.len() ==> !(ms[j].coordinate.group == g && ms[j].coordinate.artifact == a),
        ga_index_from(ms, g, a, i) matches Some(j) ==> forall|m: int|
            i <= m < j ==> !(ms[m].coordinate.group == g && ms[m].coordinate.artifact == a),
    decreases ms.len() - i,
{
    if i < ms.len() && !(ms[i].coordinate.group == g && ms[i].coordinate.artifact == a) {
        lemma_ga_index_from(ms, g, a, i + 1);
    }
}

proof fn lemma_managed_entry_insert(ms: Seq<DependencyView>, d: DependencyView, g: Seq<char>, a: Seq<char>)
    ensures
        managed_entry(mgmt_insert(ms, d), g, a) == if d.coordinate.group == g
            && d.coordinate.artifact == a {
            Some(d)
        } else {
            managed_entry(ms, g, a)
        },
{
    let dg = d.coordinate.group;
    let da = d.coordinate.artifact;
    let same = dg == g && da == a;
    lemma_ga_index_from(ms, dg, da, 0);
    lemma_ga_index_from(ms, g, a, 0);
    let r = mgmt_insert(ms, d);
    lemma_ga_index_from(r, g, a, 0);
    match ga_index(ms, dg, da) {
        Some(i) => {
            assert(r.len() == ms.len());
            if same {
                lemma_ga_index_at(r, g, a, 0, i);
            } else {
                match ga_index(ms, g, a) {
                    Some(j) => {
                        assert(j != i);
                        lemma_ga_index_at(r, g, a, 0, j);
                    },
                    None => {
                        if ga_index(r, g, a) is Some {
                            let j = ga_index(r, g, a).unwrap();
                            assert(j != i);
                            assert(r[j] == ms[j]);
                        }
                    },
                }
            }
        },
        None => {
            if same {
                lemma_ga_index_at(r, g, a, 0, ms.len() as int);
            } else {
                match ga_index(ms, g, a) {
                    Some(j) => {
                        lemma_ga_index_at(r, g, a, 0, j);
                    },
                    None => {
                        if ga_index(r, g, a) is Some {
                            let j = ga_index(r, g, a).unwrap();
                            assert(j < ms.len());
                            assert(r[j] == ms[j]);
                        }
                    },
                }
            }
        },
    }
}

proof fn lemma_managed_entry_insert_all(
    ms: Seq<DependencyView>,
    new: Seq<DependencyView>,
    g: Seq<char>,
    a: Seq<char>,
)
    ensures
        managed_entry(mgmt_insert_all(ms, new), g, a) == match last_managed(new, g, a) {
            Some(d) => Some(d),
            None => managed_entry(ms, g, a),
        },
    decreases new.len(),
{
    if new.len() > 0 {
        lemma_managed_entry_insert_all(ms, new.drop_last(), g, a);
        lemma_managed_entry_insert(mgmt_insert_all(ms, new.drop_last()), new.last(), g, a);
    }
}

/// Nearer POMs win in `<dependencyManagement>`: merged down to the POM at
/// `j`, the entry for `group:artifact` is the one that POM declares last,
/// or, when it declares none, the one merged from its parents.
pub proof fn lemma_chain_mgmt_nearest_wins(chain: Seq<Pom>, j: int, g: Seq<char>, a: Seq<char>)
    requires
        0 <= j < chain.len(),
    ensures
        managed_entry(chain_mgmt(chain, j), g, a) == match last_managed(
            deps_view(chain[j].dependency_management@),
            g,
            a,
        ) {
            Some(d) => Some(d),
            None => managed_entry(chain_mgmt(chain, j + 1), g, a),
        },
{
    lemma_managed_entry_insert_all(
        chain_mgmt(chain, j + 1),
        deps_view(chain[j].dependency_management@),
        g,
        a,
    );
}

proof fn lemma_contains_prefix(s: Seq<char>, p: Seq<char>, q: Seq<char>)
    requires
        contains(s, p + q),
    ensures
        contains(s, p),
{
    let i = choose|i: int| matches_at(s, p + q, i);
    assert(s.subrange(i, i + p.len()) =~= s.subrange(i, i + (p + q).len()).subrange(0, p.len() as int));
    assert(s.subrange(i, i + p.len()) =~= (p + q).subrange(0, p.len() as int));
    assert((p + q).subrange(0, p.len() as int) =~= p);
    assert(matches_at(s, p, i));
}

proof fn lemma_pass_identity(ps: PropsView, s: Seq<char>, i: int)
    requires
        !contains(s, "${"@),
        0 <= i,
    ensures
        pass_from(ps, s, i) == (s, false),
    decreases ps.len() - i,
{
    if i < ps.len() {
        if contains(s, placeholder(ps[i].0)) {
            assert(placeholder(ps[i].0) =~= "${"@ + (ps[i].0 + "}"@));
            lemma_contains_prefix(s, "${"@, ps[i].0 + "}"@);
        }
        lemma_pass_identity(ps, s, i + 1);
    }
}

/// Interpolation leaves a value without `${` unchanged.
pub proof fn lemma_interpolation_identity(ps: PropsView, s: Seq<char>)
    requires
        !contains(s, "${"@),
    ensures
        interpolation(ps, s) == s,
{
    lemma_pass_identity(ps, s, 0);
    reveal_strlit("${project.version}");
    reveal_strlit("${");
    if contains(s, "${project.version}"@) {
        assert("${project.version}"@ =~= "${"@ + "project.version}"@) by {
            reveal_strlit("project.version}");
        }
        lemma_contains_prefix(s, "${"@, "project.version}"@);
    }
}

proof fn lemma_add_absent_extends(acc: Seq<DependencyView>, ds: Seq<DependencyView>)
    ensures
        add_absent(acc, ds).len() >= acc.len(),
        forall|i: int| 0 <= i < acc.len() ==> #[trigger] add_absent(acc, ds)[i] == acc[i],
    decreases ds.len(),
{
    if ds.len() > 0 {
        lemma_add_absent_extends(acc, ds.drop_last());
    }
}

/// A managed entry found in a list is found, at the same place, in any
/// extension of it.
proof fn lemma_managed_entry_prefix(acc: Seq<DependencyView>, ext: Seq<DependencyView>, g: Seq<char>, a: Seq<char>)
    requires
        ext.len() >= acc.len(),
        forall|i: int| 0 <= i < acc.len() ==> #[trigger] ext[i] == acc[i],
        managed_entry(acc, g, a) is Some,
    ensures
        managed_entry(ext, g, a) == managed_entry(acc, g, a),
{
    lemma_ga_index_from(acc, g, a, 0);
    let j = ga_index(acc, g, a).unwrap();
    assert(ext[j] == acc[j]);
    assert forall|m: int| 0 <= m < j implies !(ext[m].coordinate.group == g
        && ext[m].coordinate.artifact == a) by {
        assert(ext[m] == acc[m]);
    }
    lemma_ga_index_at(ext, g, a, 0, j);
}

/// Directly declared managed entries win over imported BOMs: a
/// `group:artifact` that the POM itself manages keeps its own entry
/// whatever BOMs are imported.
pub proof fn lemma_declared_managed_win(
    own: Seq<DependencyView>,
    boms: Seq<Seq<DependencyView>>,
    g: Seq<char>,
    a: Seq<char>,
)
    requires
        managed_entry(own_managed(own), g, a) is Some,
    ensures
        managed_entry(merged_imports(own, boms), g, a) == managed_entry(own_managed(own), g, a),
    decreases boms.len(),
{
    if boms.len() > 0 {
        lemma_declared_managed_win(own, boms.drop_last(), g, a);
        let prev = merged_imports(own, boms.drop_last());
        lemma_add_absent_extends(prev, boms.last());
        lemma_managed_entry_prefix(prev, add_absent(prev, boms.last()), g, a);
    }
}

} // verus!
