//! Deterministic lock file content (`jv.lock`): the exact set of resolved
//! artifacts, sorted by group, artifact and version.
//!
//! Writing and reading the TOML text is done by the application.

use vstd::prelude::*;
use crate::models::{resolved_view, scope_name, ResolvedDependency, ResolvedView};
use crate::text::{all_digits, decimal, decimal_exec, digit_char, lex, lex_exec, chars_of, owned, string_of};

verus! {

broadcast use vstd::seq_lib::group_to_multiset_ensures;

/// The top-level structure written to `jv.lock`.
#[derive(Debug)]
pub struct LockFile {
    pub version: u32,
    pub created_at: String,
    /// All resolved dependencies in a stable order (sorted by GAV)
    pub dependencies: Vec<LockedDependency>,
}

/// One locked dependency.
#[derive(Debug)]
pub struct LockedDependency {
    pub group: String,
    pub artifact: String,
    pub version: String,
    pub scope: String,
    pub optional: bool,
}

/// Mathematical view of a locked dependency.
pub struct LockedView {
    pub group: Seq<char>,
    pub artifact: Seq<char>,
    pub version: Seq<char>,
    pub scope: Seq<char>,
    pub optional: bool,
}

impl View for LockedDependency {
    type V = LockedView;

    open spec fn view(&self) -> LockedView {
        LockedView {
            group: self.group@,
            artifact: self.artifact@,
            version: self.version@,
            scope: self.scope@,
            optional: self.optional,
        }
    }
}

/// Views of locked dependencies.
pub open spec fn locked_view(v: Seq<LockedDependency>) -> Seq<LockedView> {
    v.map_values(|d: LockedDependency| d@)
}

/// The lock entry of a resolved dependency.
pub open spec fn locked_of(r: ResolvedView) -> LockedView {
    LockedView {
        group: r.coordinate.group,
        artifact: r.coordinate.artifact,
        version: r.coordinate.version,
        scope: scope_name(r.scope),
        optional: r.optional,
    }
}

/// Order of lock entries by group, then artifact, then version text.
pub open spec fn gav_le(x: LockedView, y: LockedView) -> bool {
    lex(x.group, y.group) < 0 || (lex(x.group, y.group) == 0 && (lex(x.artifact, y.artifact) < 0 || (
    lex(x.artifact, y.artifact) == 0 && lex(x.version, y.version) <= 0)))
}

/// Entries sorted by group, artifact and version.
pub open spec fn sorted_by_gav(s: Seq<LockedView>) -> bool {
    forall|i: int, j: int| 0 <= i < j < s.len() ==> gav_le(s[i], s[j])
}

/// Two lock entries have the same group, artifact and version.
pub open spec fn same_gav(x: LockedView, y: LockedView) -> bool {
    x.group == y.group && x.artifact == y.artifact && x.version == y.version
}

/// The entries of `s` with the group, artifact and version of `k`, in order.
pub open spec fn with_gav_of(s: Seq<LockedView>, k: LockedView) -> Seq<LockedView>
    decreases s.len(),
{
    if s.len() == 0 {
        Seq::empty()
    } else if same_gav(s.last(), k) {
        with_gav_of(s.drop_last(), k).push(s.last())
    } else {
        with_gav_of(s.drop_last(), k)
    }
}

/// The lock entries of resolved dependencies, in their order.
pub open spec fn locked_entries(resolved: Seq<ResolvedDependency>) -> Seq<LockedView> {
    resolved_view(resolved).map_values(|r: ResolvedView| locked_of(r))
}

/// The lock file content of a resolution: format version 1 and the entries
/// of every resolved dependency, sorted by group, artifact and version,
/// entries with the same key keeping their order (a stable sort).
pub open spec fn lock_matches(l: LockFile, resolved: Seq<ResolvedDependency>) -> bool {
    &&& l.version == 1
    &&& sorted_by_gav(locked_view(l.dependencies@))
    &&& locked_view(l.dependencies@).to_multiset() == locked_entries(resolved).to_multiset()
    &&& forall|k: LockedView|
        #[trigger] with_gav_of(locked_view(l.dependencies@), k) == with_gav_of(
            locked_entries(resolved),
            k,
        )
}

proof fn lemma_with_gav_concat(a: Seq<LockedView>, b: Seq<LockedView>, k: LockedView)
    ensures
        with_gav_of(a + b, k) == with_gav_of(a, k) + with_gav_of(b, k),
    decreases b.len(),
{
    if b.len() == 0 {
        assert(a + b =~= a);
        assert(with_gav_of(a, k) + with_gav_of(b, k) =~= with_gav_of(a, k));
    } else {
        lemma_with_gav_concat(a, b.drop_last(), k);
        assert((a + b).drop_last() =~= a + b.drop_last());
        assert((a + b).last() == b.last());
        if same_gav(b.last(), k) {
            assert(with_gav_of(a, k) + with_gav_of(b.drop_last(), k).push(b.last()) =~= (
            with_gav_of(a, k) + with_gav_of(b.drop_last(), k)).push(b.last()));
        }
    }
}

proof fn lemma_with_gav_none(s: Seq<LockedView>, k: LockedView)
    requires
        forall|i: int| 0 <= i < s.len() ==> !same_gav(#[trigger] s[i], k),
    ensures
        with_gav_of(s, k) == Seq::<LockedView>::empty(),
    decreases s.len(),
{
    if s.len() > 0 {
        lemma_with_gav_none(s.drop_last(), k);
    }
}

/// Inserting `x` at `p`, where every entry from `p` on sorts strictly after
/// `x`, adds `x` at the end of the entries with its key and leaves the
/// others.
proof fn lemma_with_gav_insert(s: Seq<LockedView>, p: int, x: LockedView, k: LockedView)
    requires
        0 <= p <= s.len(),
        forall|j: int| p <= j < s.len() ==> !gav_le(#[trigger] s[j], x),
    ensures
        with_gav_of(s.insert(p, x), k) == if same_gav(x, k) {
            with_gav_of(s, k).push(x)
        } else {
            with_gav_of(s, k)
        },
{
    let a = s.take(p);
    let b = s.skip(p);
    let e = Seq::<LockedView>::empty();
    assert(s.insert(p, x) =~= a + seq![x] + b);
    assert(s =~= a + b);
    lemma_with_gav_concat(a + seq![x], b, k);
    lemma_with_gav_concat(a, seq![x], k);
    lemma_with_gav_concat(a, b, k);
    let wa = with_gav_of(a, k);
    let wb = with_gav_of(b, k);
    assert(with_gav_of(seq![x], k) == if same_gav(x, k) {
        seq![x]
    } else {
        e
    }) by {
        assert(seq![x].drop_last() =~= e);
        assert(seq![x].last() == x);
        assert(with_gav_of(e, k) =~= e);
        assert(e.push(x) =~= seq![x]);
    }
    assert(with_gav_of(s.insert(p, x), k) == wa + with_gav_of(seq![x], k) + wb);
    assert(with_gav_of(s, k) == wa + wb);
    if same_gav(x, k) {
        assert forall|i: int| 0 <= i < b.len() implies !same_gav(#[trigger] b[i], k) by {
            assert(b[i] == s[p + i]);
            if same_gav(b[i], k) {
                crate::text::lemma_lex_refl(x.group);
                crate::text::lemma_lex_refl(x.artifact);
                crate::text::lemma_lex_refl(x.version);
            }
        }
        lemma_with_gav_none(b, k);
        assert(wa + seq![x] + e =~= (wa + e).push(x));
    } else {
        assert(wa + e + wb =~= wa + wb);
    }
}

proof fn lemma_lex3_total(x: LockedView, y: LockedView)
    ensures
        gav_le(x, y) || gav_le(y, x),
{
    crate::text::lemma_lex_antisym(x.group, y.group);
    crate::text::lemma_lex_antisym(x.artifact, y.artifact);
    crate::text::lemma_lex_antisym(x.version, y.version);
}

proof fn lemma_lex_eq_trans(a: Seq<char>, b: Seq<char>, c: Seq<char>)
    ensures
        lex(a, b) <= 0 && lex(b, c) <= 0 ==> lex(a, c) <= 0,
        lex(a, b) <= 0 && lex(b, c) <= 0 && lex(a, c) == 0 ==> lex(a, b) == 0 && lex(b, c) == 0,
{
    crate::text::lemma_lex_antisym(a, b);
    crate::text::lemma_lex_antisym(b, c);
    crate::text::lemma_lex_antisym(a, c);
    if lex(a, b) <= 0 && lex(b, c) <= 0 {
        crate::text::lemma_lex_trans(a, b, c);
        if lex(a, c) == 0 {
            crate::text::lemma_lex_zero(a, c);
            crate::text::lemma_lex_trans(b, c, a);
            crate::text::lemma_lex_trans(c, a, b);
        }
    }
}

proof fn lemma_gav_trans(x: LockedView, y: LockedView, z: LockedView)
    requires
        gav_le(x, y),
        gav_le(y, z),
    ensures
        gav_le(x, z),
{
    lemma_lex_eq_trans(x.group, y.group, z.group);
    lemma_lex_eq_trans(x.artifact, y.artifact, z.artifact);
    lemma_lex_eq_trans(x.version, y.version, z.version);
    crate::text::lemma_lex_antisym(x.group, y.group);
    crate::text::lemma_lex_antisym(y.group, z.group);
    crate::text::lemma_lex_antisym(x.artifact, y.artifact);
    crate::text::lemma_lex_antisym(y.artifact, z.artifact);
    if lex(x.group, y.group) == 0 {
        crate::text::lemma_lex_zero(x.group, y.group);
    }
    if lex(y.group, z.group) == 0 {
        crate::text::lemma_lex_zero(y.group, z.group);
    }
    if lex(x.artifact, y.artifact) == 0 {
        crate::text::lemma_lex_zero(x.artifact, y.artifact);
    }
    if lex(y.artifact, z.artifact) == 0 {
        crate::text::lemma_lex_zero(y.artifact, z.artifact);
    }
}

/// No two entries share group, artifact and version.
pub open spec fn distinct_gav(s: Seq<LockedView>) -> bool {
    forall|i: int, j: int| 0 <= i < j < s.len() ==> !same_gav(s[i], s[j])
}

proof fn lemma_gav_le_antisym(x: LockedView, y: LockedView)
    requires
        gav_le(x, y),
        gav_le(y, x),
    ensures
        same_gav(x, y),
{
    crate::text::lemma_lex_antisym(x.group, y.group);
    crate::text::lemma_lex_antisym(x.artifact, y.artifact);
    crate::text::lemma_lex_antisym(x.version, y.version);
    crate::text::lemma_lex_zero(x.group, y.group);
    crate::text::lemma_lex_zero(x.artifact, y.artifact);
    crate::text::lemma_lex_zero(x.version, y.version);
}

/// Distinct keys are kept by any sequence with the same elements.
proof fn lemma_distinct_gav_transfer(a: Seq<LockedView>, b: Seq<LockedView>)
    requires
        distinct_gav(a),
        a.to_multiset() == b.to_multiset(),
    ensures
        distinct_gav(b),
{
    broadcast use vstd::seq_lib::group_to_multiset_ensures;

    assert(a.no_duplicates()) by {
        assert forall|i: int, j: int| 0 <= i < a.len() && 0 <= j < a.len() && i != j implies a[i]
            != a[j] by {
            if i < j {
                assert(!same_gav(a[i], a[j]));
            } else {
                assert(!same_gav(a[j], a[i]));
            }
        }
    }
    a.lemma_multiset_has_no_duplicates();
    assert forall|x: LockedView| b.to_multiset().contains(x) implies b.to_multiset().count(x) == 1 by {
        assert(a.to_multiset().contains(x));
    }
    b.lemma_multiset_has_no_duplicates_conv();
    assert forall|i: int, j: int| 0 <= i < j < b.len() implies !same_gav(b[i], b[j]) by {
        assert(b.contains(b[i]));
        assert(b.contains(b[j]));
        assert(b.to_multiset().count(b[i]) > 0);
        assert(b.to_multiset().count(b[j]) > 0);
        assert(a.to_multiset().count(b[i]) > 0);
        assert(a.to_multiset().count(b[j]) > 0);
        assert(a.contains(b[i]));
        assert(a.contains(b[j]));
        let p = choose|p: int| 0 <= p < a.len() && a[p] == b[i];
        let q = choose|q: int| 0 <= q < a.len() && a[q] == b[j];
        assert(b[i] != b[j]);
        assert(p != q);
        if p < q {
            assert(!same_gav(a[p], a[q]));
        } else {
            assert(!same_gav(a[q], a[p]));
        }
    }
}

/// Two sorted sequences with the same elements and distinct keys are equal.
proof fn lemma_sorted_distinct_unique(a: Seq<LockedView>, b: Seq<LockedView>)
    requires
        sorted_by_gav(a),
        sorted_by_gav(b),
        a.to_multiset() == b.to_multiset(),
        distinct_gav(a),
        distinct_gav(b),
    ensures
        a == b,
    decreases a.len(),
{
    broadcast use vstd::seq_lib::group_to_multiset_ensures;

    assert(a.len() == a.to_multiset().len());
    assert(b.len() == b.to_multiset().len());
    if a.len() == 0 {
        assert(a =~= b);
    } else {
        let n = a.len() - 1;
        let x = a.last();
        let y = b.last();
        assert(a.contains(x));
        assert(b.contains(y));
        assert(b.to_multiset().count(x) > 0);
        assert(a.to_multiset().count(y) > 0);
        assert(b.contains(x));
        assert(a.contains(y));
        let p = choose|p: int| 0 <= p < a.len() && a[p] == y;
        let q = choose|q: int| 0 <= q < b.len() && b[q] == x;
        if p < n {
            assert(gav_le(a[p], a[n]));
        } else {
            crate::text::lemma_lex_refl(y.group);
            crate::text::lemma_lex_refl(y.artifact);
            crate::text::lemma_lex_refl(y.version);
        }
        if q < n {
            assert(gav_le(b[q], b[n]));
        } else {
            crate::text::lemma_lex_refl(x.group);
            crate::text::lemma_lex_refl(x.artifact);
            crate::text::lemma_lex_refl(x.version);
        }
        lemma_gav_le_antisym(x, y);
        if p != n {
            assert(!same_gav(a[p], a[n]));
        }
        assert(x == y);
        assert(a.remove(n) =~= a.drop_last());
        assert(b.remove(n) =~= b.drop_last());
        let a2 = a.drop_last();
        let b2 = b.drop_last();
        assert(a2.to_multiset() =~= b2.to_multiset());
        lemma_sorted_distinct_unique(a2, b2);
        assert(a =~= a2.push(x));
        assert(b =~= b2.push(y));
    }
}

/// Lock files are deterministic: resolutions with the same entries, in any
/// order, no two sharing group, artifact and version, give the same lock
/// entries.
pub proof fn lemma_lock_deterministic(
    l1: LockFile,
    r1: Seq<ResolvedDependency>,
    l2: LockFile,
    r2: Seq<ResolvedDependency>,
)
    requires
        lock_matches(l1, r1),
        lock_matches(l2, r2),
        locked_entries(r1).to_multiset() == locked_entries(r2).to_multiset(),
        distinct_gav(locked_entries(r1)),
    ensures
        locked_view(l1.dependencies@) == locked_view(l2.dependencies@),
{
    let a = locked_view(l1.dependencies@);
    let b = locked_view(l2.dependencies@);
    lemma_distinct_gav_transfer(locked_entries(r1), a);
    lemma_distinct_gav_transfer(locked_entries(r1), b);
    lemma_sorted_distinct_unique(a, b);
}

/// Key comparison of two lock entries.
fn gav_le_exec(x: &LockedDependency, y: &LockedDependency) -> (r: bool)
    ensures
        r == gav_le(x@, y@),
{
    let xg = chars_of(x.group.as_str());
    let yg = chars_of(y.group.as_str());
    let o = lex_exec(xg.as_slice(), yg.as_slice());
    if o != 0 {
        return o < 0;
    }
    let xa = chars_of(x.artifact.as_str());
    let ya = chars_of(y.artifact.as_str());
    let o2 = lex_exec(xa.as_slice(), ya.as_slice());
    if o2 != 0 {
        return o2 < 0;
    }
    let xv = chars_of(x.version.as_str());
    let yv = chars_of(y.version.as_str());
    lex_exec(xv.as_slice(), yv.as_slice()) <= 0
}

/// Stable insertion sort of lock entries by group, artifact and version.
fn sort_by_gav(v: Vec<LockedDependency>) -> (r: Vec<LockedDependency>)
    ensures
        sorted_by_gav(locked_view(r@)),
        locked_view(r@).to_multiset() == locked_view(v@).to_multiset(),
        forall|k: LockedView|
            #[trigger] with_gav_of(locked_view(r@), k) == with_gav_of(locked_view(v@), k),
{
    let mut out: Vec<LockedDependency> = Vec::new();
    let mut rest = v;
    let ghost orig = locked_view(rest@);
    proof {
        assert(locked_view(out@) =~= Seq::<LockedView>::empty());
        assert(orig.skip(0) =~= orig);
        assert forall|k: LockedView| #[trigger] with_gav_of(locked_view(out@), k) == with_gav_of(
            orig.take(0),
            k,
        ) by {
            assert(orig.take(0) =~= Seq::<LockedView>::empty());
        }
    }
    while rest.len() > 0
        invariant
            sorted_by_gav(locked_view(out@)),
            locked_view(out@).to_multiset().add(locked_view(rest@).to_multiset())
                == orig.to_multiset(),
            rest@.len() <= orig.len(),
            locked_view(rest@) == orig.skip(orig.len() - rest@.len()),
            forall|k: LockedView|
                #[trigger] with_gav_of(locked_view(out@), k) == with_gav_of(
                    orig.take(orig.len() - rest@.len()),
                    k,
                ),
        decreases rest.len(),
    {
        let ghost rv = locked_view(rest@);
        let ghost n = orig.len() - rest@.len();
        let x = rest.remove(0);
        assert(rv =~= seq![x@] + locked_view(rest@));
        assert(orig[n] == x@) by {
            assert(rv[0] == orig.skip(n)[0]);
        }
        assert(rv == orig.skip(n));
        assert forall|i: int| 0 <= i < locked_view(rest@).len() implies #[trigger] locked_view(
            rest@,
        )[i] == orig.skip(n + 1)[i] by {
            assert(rv[i + 1] == locked_view(rest@)[i]);
            assert(rv[i + 1] == orig[n + 1 + i]);
        }
        assert(locked_view(rest@) =~= orig.skip(n + 1));
        assert(orig.take(n + 1).drop_last() =~= orig.take(n));
        assert(orig.take(n + 1).last() == x@);
        proof {
            vstd::seq_lib::lemma_multiset_commutative(seq![x@], locked_view(rest@));
        }
        let mut p: usize = out.len();
        while p > 0 && !gav_le_exec(&out[p - 1], &x)
            invariant
                p <= out.len(),
                forall|k: int| p <= k < out.len() ==> !gav_le(locked_view(out@)[k], x@),
            decreases p,
        {
            p = p - 1;
        }
        let ghost ov = locked_view(out@);
        let ghost xv = x@;
        out.insert(p, x);
        proof {
            assert(locked_view(out@) =~= ov.insert(p as int, xv));
            assert forall|k: LockedView| #[trigger] with_gav_of(locked_view(out@), k) == with_gav_of(
                orig.take(n + 1),
                k,
            ) by {
                lemma_with_gav_insert(ov, p as int, xv, k);
            }
            vstd::seq_lib::to_multiset_insert(ov, p as int, x@);
            let nv = locked_view(out@);
            assert forall|i: int, j: int| 0 <= i < j < nv.len() implies gav_le(nv[i], nv[j]) by {
                if j < p {
                    assert(nv[i] == ov[i] && nv[j] == ov[j]);
                } else if j == p {
                    assert(nv[i] == ov[i] && nv[j] == x@);
                    if i < p - 1 {
                        lemma_gav_trans(ov[i], ov[p - 1], x@);
                    }
                } else if i == p {
                    assert(nv[i] == x@ && nv[j] == ov[j - 1]);
                    lemma_lex3_total(ov[j - 1], x@);
                } else if i < p {
                    assert(nv[i] == ov[i] && nv[j] == ov[j - 1]);
                } else {
                    assert(nv[i] == ov[i - 1] && nv[j] == ov[j - 1]);
                }
            }
            assert(seq![x@].to_multiset() =~= vstd::multiset::Multiset::<LockedView>::empty().insert(x@));
        }
    }
    assert(locked_view(rest@).to_multiset() =~= vstd::multiset::Multiset::<LockedView>::empty());
    out
}

#[verifier::external_type_specification]
#[verifier::external_body]
pub struct ExSystemTime(std::time::SystemTime);

/// `SystemTime::now`: the system clock's current time. It depends on the
/// clock, so nothing is stated of it.
#[verifier::external_body]
fn system_now() -> std::time::SystemTime {
    std::time::SystemTime::now()
}

/// `SystemTime::duration_since(UNIX_EPOCH)`: the time elapsed since the Unix
/// epoch, `None` when `t` is before it. The time is opaque here, so nothing
/// is stated of the result.
#[verifier::external_body]
fn elapsed_since_epoch(t: std::time::SystemTime) -> Option<core::time::Duration> {
    t.duration_since(std::time::UNIX_EPOCH).ok()
}

/// `Duration::as_secs`: the whole seconds of a duration. The duration is
/// opaque here, so nothing is stated of the result.
#[verifier::external_body]
fn whole_seconds(d: core::time::Duration) -> u64 {
    d.as_secs()
}

impl LockFile {
    /// The lock file content of a resolution, created at the given time text.
    pub fn from_resolved_at(resolved: &[ResolvedDependency], created_at: String) -> (r: LockFile)
        ensures
            lock_matches(r, resolved@),
            r.created_at == created_at,
    {
        let mut deps: Vec<LockedDependency> = Vec::new();
        let ghost rv = resolved_view(resolved@);
        let mut i: usize = 0;
        while i < resolved.len()
            invariant
                i <= resolved.len(),
                rv == resolved_view(resolved@),
                locked_view(deps@) == rv.take(i as int).map_values(|r: ResolvedView| locked_of(r)),
            decreases resolved.len() - i,
        {
            let r = &resolved[i];
            let d = LockedDependency {
                group: r.coordinate.group_id.clone(),
                artifact: r.coordinate.artifact_id.clone(),
                version: r.coordinate.version.raw.clone(),
                scope: r.scope.to_string(),
                optional: r.optional,
            };
            let ghost before = locked_view(deps@);
            deps.push(d);
            assert(locked_view(deps@) =~= before.push(d@));
            assert(d@ == locked_of(rv[i as int]));
            i = i + 1;
            assert(locked_view(deps@) =~= rv.take(i as int).map_values(
                |r: ResolvedView| locked_of(r),
            ));
        }
        assert(rv.take(resolved.len() as int) =~= rv);
        let sorted = sort_by_gav(deps);
        LockFile { version: 1, created_at, dependencies: sorted }
    }

    /// The lock file content of a resolution, created now: `created_at` is
    /// the decimal number of seconds since the Unix epoch, or `0` when the
    /// clock reads before it.
    pub fn from_resolved(resolved: &[ResolvedDependency]) -> (r: LockFile)
        ensures
            lock_matches(r, resolved@),
            exists|secs: u64| r.created_at@ == #[trigger] decimal(secs as nat),
            r.created_at@.len() > 0,
            all_digits(r.created_at@),
    {
        let created = match elapsed_since_epoch(system_now()) {
            Some(e) => {
                let s = whole_seconds(e);
                let d = decimal_exec(s);
                proof {
                    crate::text::lemma_decimal_digits(s as nat);
                }
                string_of(d.as_slice())
            },
            None => {
                let z = owned("0");
                proof {
                    reveal_strlit("0");
                    crate::text::lemma_decimal_digits(0);
                    assert(digit_char(0) == '0');
                    assert(z@ =~= decimal(0u64 as nat));
                }
                z
            },
        };
        Self::from_resolved_at(resolved, created)
    }
}

} // verus!
