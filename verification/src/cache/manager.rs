//! Layout of the global artifact cache and integrity of cached POMs.
//!
//! Layout (under the cache root, or `repos/<namespace>` under it):
//!   metadata/<group>/<artifact>/maven-metadata.xml
//!   poms/<group>/<artifact>/<version>.pom
//!   artifacts/<group>/<artifact>/<version>[-<classifier>].<ext>
//!   effective-boms/<group>/<artifact>/<version>.json
//! where `<group>` is the group with `.` turned into `/`.
//!
//! Reading and writing files is done by the application.

use vstd::prelude::*;
use crate::error::JvError;
use crate::models::{Artifact, MavenCoordinate};
use crate::text::{
    chars_of, contains, contains_exec, digit_char, is_ws, join2, owned, replace_char, replace_char_exec,
    same_chars, string_of, trim, trim_str, trim_start, trim_end,
};
use crate::models::version::Version;

verus! {

// ---------------------------------------------------------------------
// Paths
// ---------------------------------------------------------------------

/// `base` joined with `comp` as `PathBuf::push` does on Unix: an absolute
/// `comp` replaces `base`; otherwise a `/` is put between them unless `base`
/// is empty or already ends with `/`.
pub open spec fn path_join(base: Seq<char>, comp: Seq<char>) -> Seq<char> {
    if comp.len() > 0 && comp[0] == '/' {
        comp
    } else if base.len() == 0 || base.last() == '/' {
        base + comp
    } else {
        base + "/"@ + comp
    }
}

/// `base` joined with `comp`.
pub fn join_path(base: &str, comp: &str) -> (r: String)
    ensures
        r@ == path_join(base@, comp@),
{
    let b = chars_of(base);
    let c = chars_of(comp);
    if c.len() > 0 && c[0] == '/' {
        return string_of(c.as_slice());
    }
    if b.len() == 0 || b[b.len() - 1] == '/' {
        return join2(base, comp);
    }
    let t = join2(base, "/");
    join2(t.as_str(), comp)
}

/// Filesystem-backed cache: its root and an optional repository namespace.
#[derive(Debug, Clone)]
pub struct CacheManager {
    root: String,
    /// Used to separate caches for different Maven repositories; Maven
    /// Central uses none.
    repo_namespace: Option<String>,
}

/// Cached effective data extracted from an imported BOM.
#[derive(Debug, Default)]
pub struct CachedBomData {
    /// GA -> Version (from the BOM's dependencyManagement)
    pub managed_versions: Vec<(String, String)>,
    /// Key properties from the BOM that are commonly used for version interpolation
    pub properties: Vec<(String, String)>,
}

/// The directory that holds a cache's entries.
pub open spec fn effective_root_spec(root: Seq<char>, ns: Option<Seq<char>>) -> Seq<char> {
    match ns {
        Some(n) => path_join(path_join(root, "repos"@), n),
        None => root,
    }
}

/// `dir/<group with / for .>/<artifact>/<file>` under the effective root.
pub open spec fn entry_path(er: Seq<char>, dir: Seq<char>, group: Seq<char>, artifact: Seq<char>, file: Seq<char>) -> Seq<char> {
    path_join(path_join(path_join(path_join(er, dir), replace_char(group, '.', '/')), artifact), file)
}

/// File name of a cached artifact: `version[-classifier].extension`.
pub open spec fn artifact_file_name(a: Artifact) -> Seq<char> {
    let base = a.coordinate.version@;
    let with_classifier = match a.classifier {
        Some(c) => if c@.len() > 0 {
            base + "-"@ + c@
        } else {
            base
        },
        None => base,
    };
    with_classifier + "."@ + a.extension@
}

/// Whether a repository URL is Maven Central's.
pub open spec fn is_maven_central_spec(url: Seq<char>) -> bool {
    contains(url, "repo.maven.apache.org"@) || contains(url, "maven-central.storage-download"@)
}

/// `dirs::cache_dir`: the user's cache directory, if the platform has one
/// and its path is valid UTF-8 (the cache root is held as text; a path that
/// is not is reported as none rather than altered). It depends on the
/// environment, so nothing is stated of it.
#[verifier::external_body]
fn user_cache_dir() -> (r: Option<String>) {
    dirs::cache_dir().and_then(|p| p.into_os_string().into_string().ok())
}

/// A cache root that is the `jv` directory under some directory.
pub open spec fn in_jv_dir(root: Seq<char>) -> bool {
    exists|d: Seq<char>| root == #[trigger] path_join(d, "jv"@)
}

/// The error when no user cache directory is known.
pub open spec fn no_cache_dir_error(e: JvError) -> bool {
    match e {
        JvError::Cache { path, reason } => path@ == "~/.cache"@ && reason@
            == "unable to determine user cache directory"@,
        _ => false,
    }
}

impl CacheManager {
    /// A cache rooted at `root`, with an optional repository namespace.
    /// (Creating the directory is the caller's I/O.)
    pub fn with_root_and_namespace(root: String, namespace: Option<String>) -> (r: Self)
        ensures
            r.root_view() == root@,
            r.namespace_view() == match namespace {
                Some(n) => Some(n@),
                None => None,
            },
    {
        CacheManager { root, repo_namespace: namespace }
    }

    /// A cache rooted at `root`, without a namespace.
    pub fn with_root(root: String) -> (r: Self)
        ensures
            r.root_view() == root@,
            r.namespace_view() is None,
    {
        Self::with_root_and_namespace(root, None)
    }

    /// The cache in the `jv` directory under the user cache directory
    /// `cache_dir`; an error when there is none.
    pub fn under_cache_dir(cache_dir: Option<String>, namespace: Option<String>) -> (r: Result<
        Self,
        JvError,
    >)
        ensures
            match cache_dir {
                Some(d) => match r {
                    Ok(c) => {
                        &&& c.root_view() == path_join(d@, "jv"@)
                        &&& c.namespace_view() == match namespace {
                            Some(n) => Some(n@),
                            None => None,
                        }
                    },
                    Err(_) => false,
                },
                None => match r {
                    Ok(_) => false,
                    Err(e) => no_cache_dir_error(e),
                },
            },
    {
        match cache_dir {
            Some(d) => Ok(Self::with_root_and_namespace(join_path(d.as_str(), "jv"), namespace)),
            None => Err(
                JvError::Cache {
                    path: owned("~/.cache"),
                    reason: owned("unable to determine user cache directory"),
                },
            ),
        }
    }

    /// The cache in the platform's user cache directory, with an optional
    /// repository namespace: rooted at its `jv` subdirectory, or the
    /// `no_cache_dir_error` when the platform has none.
    pub fn new_with_namespace(namespace: Option<String>) -> (r: Result<Self, JvError>)
        ensures
            match r {
                Ok(c) => {
                    &&& in_jv_dir(c.root_view())
                    &&& c.namespace_view() == match namespace {
                        Some(n) => Some(n@),
                        None => None,
                    }
                },
                Err(e) => no_cache_dir_error(e),
            },
    {
        let dir = user_cache_dir();
        let ghost d = dir;
        let r = Self::under_cache_dir(dir, namespace);
        proof {
            if let Some(x) = d {
                assert(r is Ok && r.unwrap().root_view() == path_join(x@, "jv"@));
            }
        }
        r
    }

    /// The cache in the platform's user cache directory, without a namespace.
    pub fn new() -> (r: Result<Self, JvError>)
        ensures
            match r {
                Ok(c) => in_jv_dir(c.root_view()) && c.namespace_view() is None,
                Err(e) => no_cache_dir_error(e),
            },
    {
        Self::new_with_namespace(None)
    }

    /// The cache used for a repository URL: all repositories share the
    /// global cache (the coordinate is already unique across them).
    pub fn for_repository(_repo_url: &str) -> (r: Result<Self, JvError>)
        ensures
            match r {
                Ok(c) => in_jv_dir(c.root_view()) && c.namespace_view() is None,
                Err(e) => no_cache_dir_error(e),
            },
    {
        Self::new()
    }

    /// The root of this cache.
    pub closed spec fn root_view(&self) -> Seq<char> {
        self.root@
    }

    /// The namespace of this cache, if any.
    pub closed spec fn namespace_view(&self) -> Option<Seq<char>> {
        match self.repo_namespace {
            Some(n) => Some(n@),
            None => None,
        }
    }

    /// The directory that holds this cache's entries.
    pub open spec fn effective_root_view(&self) -> Seq<char> {
        effective_root_spec(self.root_view(), self.namespace_view())
    }

    /// Returns the effective root path, including the repository namespace if present.
    pub fn effective_root(&self) -> (r: String)
        ensures
            r@ == self.effective_root_view(),
    {
        match &self.repo_namespace {
            Some(ns) => {
                let a = join_path(self.root.as_str(), "repos");
                join_path(a.as_str(), ns.as_str())
            },
            None => self.root.clone(),
        }
    }

    /// The root of this cache.
    pub fn root(&self) -> (r: &str)
        ensures
            r@ == self.root_view(),
    {
        self.root.as_str()
    }

    /// Returns the namespace of this cache instance, if any.
    pub fn namespace(&self) -> (r: Option<&str>)
        ensures
            match r {
                Some(n) => self.namespace_view() == Some(n@),
                None => self.namespace_view() is None,
            },
    {
        match &self.repo_namespace {
            Some(n) => Some(n.as_str()),
            None => None,
        }
    }

    /// Whether a repository URL is Maven Central's.
    pub fn is_maven_central(url: &str) -> (r: bool)
        ensures
            r == is_maven_central_spec(url@),
    {
        let u = chars_of(url);
        let a = chars_of("repo.maven.apache.org");
        let b = chars_of("maven-central.storage-download");
        contains_exec(u.as_slice(), a.as_slice()) || contains_exec(u.as_slice(), b.as_slice())
    }

    /// `dir/<group>/<artifact>/<file>` under the effective root.
    fn entry(&self, dir: &str, group: &str, artifact: &str, file: &str) -> (r: String)
        ensures
            r@ == entry_path(self.effective_root_view(), dir@, group@, artifact@, file@),
    {
        let er = self.effective_root();
        let g = chars_of(group);
        let gs = string_of(replace_char_exec(g.as_slice(), '.', '/').as_slice());
        let a = join_path(er.as_str(), dir);
        let b = join_path(a.as_str(), gs.as_str());
        let c = join_path(b.as_str(), artifact);
        join_path(c.as_str(), file)
    }

    /// `metadata/<group>/<artifact>/maven-metadata.xml`.
    pub fn metadata_path(&self, group_id: &str, artifact_id: &str) -> (r: String)
        ensures
            r@ == entry_path(
                self.effective_root_view(),
                "metadata"@,
                group_id@,
                artifact_id@,
                "maven-metadata.xml"@,
            ),
    {
        self.entry("metadata", group_id, artifact_id, "maven-metadata.xml")
    }

    /// `poms/<group>/<artifact>/<version>.pom`.
    pub fn pom_path(&self, coord: &MavenCoordinate) -> (r: String)
        ensures
            r@ == entry_path(
                self.effective_root_view(),
                "poms"@,
                coord.group_id@,
                coord.artifact_id@,
                coord.version@ + ".pom"@,
            ),
    {
        let f = join2(coord.version.raw.as_str(), ".pom");
        self.entry("poms", coord.group_id.as_str(), coord.artifact_id.as_str(), f.as_str())
    }

    /// `artifacts/<group>/<artifact>/<version>[-<classifier>].<ext>`.
    pub fn artifact_path(&self, artifact: &Artifact) -> (r: String)
        ensures
            r@ == entry_path(
                self.effective_root_view(),
                "artifacts"@,
                artifact.coordinate.group_id@,
                artifact.coordinate.artifact_id@,
                artifact_file_name(*artifact),
            ),
    {
        let mut name = owned(artifact.coordinate.version.raw.as_str());
        match &artifact.classifier {
            Some(c) => {
                if !c.as_str().is_empty() {
                    let t = join2(name.as_str(), "-");
                    name = join2(t.as_str(), c.as_str());
                }
            },
            None => {},
        }
        let t = join2(name.as_str(), ".");
        let file = join2(t.as_str(), artifact.extension.as_str());
        self.entry(
            "artifacts",
            artifact.coordinate.group_id.as_str(),
            artifact.coordinate.artifact_id.as_str(),
            file.as_str(),
        )
    }

    /// `effective-boms/<group>/<artifact>/<version>.json`.
    pub fn bom_effective_path(&self, group_id: &str, artifact_id: &str, version: &Version) -> (r:
        String)
        ensures
            r@ == entry_path(
                self.effective_root_view(),
                "effective-boms"@,
                group_id@,
                artifact_id@,
                version@ + ".json"@,
            ),
    {
        let f = join2(version.raw.as_str(), ".json");
        self.entry("effective-boms", group_id, artifact_id, f.as_str())
    }
}

// ---------------------------------------------------------------------
// Pruning
// ---------------------------------------------------------------------

/// The time, in seconds since the Unix epoch, before which a cache entry is
/// stale: `max_age_days` days before `now`, or the epoch itself when that
/// lies before it.
pub open spec fn prune_cutoff(now: u64, max_age_days: u64) -> int {
    if max_age_days * 86400 <= now {
        now - max_age_days * 86400
    } else {
        0
    }
}

/// Whether a cache entry last modified at `modified` (seconds since the
/// Unix epoch) is older than `max_age_days` days at `now`.
pub fn is_expired(modified: u64, now: u64, max_age_days: u64) -> (r: bool)
    ensures
        r == (modified < prune_cutoff(now, max_age_days)),
{
    let cutoff: u64 = match max_age_days.checked_mul(86400) {
        Some(age) => if age <= now {
            now - age
        } else {
            0
        },
        None => 0,
    };
    modified < cutoff
}

// ---------------------------------------------------------------------
// Integrity of cached POMs
// ---------------------------------------------------------------------

/// The SHA-256 digest of the UTF-8 encoding of a text, as `sha2` computes it.
pub uninterp spec fn sha256_of_text(text: Seq<char>) -> Seq<u8>;

/// `sha2::Sha256::digest` of the UTF-8 bytes of `s`: the 32-byte digest.
#[verifier::external_body]
fn sha256_digest(s: &str) -> (r: Vec<u8>)
    ensures
        r@ == sha256_of_text(s@),
        r@.len() == 32,
{
    <sha2::Sha256 as sha2::Digest>::digest(s.as_bytes()).to_vec()
}

/// Lower-case hexadecimal digit of `n < 16`.
pub open spec fn hex_digit(n: nat) -> char {
    if n < 10 {
        digit_char(n)
    } else {
        ((n - 10 + 97) as u32) as char
    }
}

/// Lower-case hexadecimal text of bytes, two digits per byte.
pub open spec fn hex_of(bs: Seq<u8>) -> Seq<char>
    decreases bs.len(),
{
    if bs.len() == 0 {
        Seq::empty()
    } else {
        hex_of(bs.drop_last()) + seq![hex_digit((bs.last() / 16) as nat), hex_digit((bs.last() % 16) as nat)]
    }
}

fn hex_digit_exec(n: u8) -> (c: char)
    requires
        n < 16,
    ensures
        c == hex_digit(n as nat),
{
    if n < 10 {
        crate::text::digit_to_char(n as u64)
    } else {
        let b: u8 = n - 10 + 97;
        b as char
    }
}

/// Lower-case hexadecimal text of bytes.
pub fn hex_lower(bs: &[u8]) -> (r: String)
    ensures
        r@ == hex_of(bs@),
{
    let mut out: Vec<char> = Vec::new();
    let mut i: usize = 0;
    while i < bs.len()
        invariant
            i <= bs.len(),
            out@ == hex_of(bs@.take(i as int)),
        decreases bs.len() - i,
    {
        let b = bs[i];
        out.push(hex_digit_exec(b / 16));
        out.push(hex_digit_exec(b % 16));
        assert(bs@.take(i + 1).drop_last() =~= bs@.take(i as int));
        i = i + 1;
        assert(out@ =~= hex_of(bs@.take(i as int)));
    }
    assert(bs@.take(bs.len() as int) =~= bs@);
    string_of(out.as_slice())
}

/// The integrity hash recorded beside a cached POM: the lower-case hex
/// SHA-256 of its text.
pub fn pom_hash(xml: &str) -> (r: String)
    ensures
        r@ == hex_of(sha256_of_text(xml@)),
{
    let d = sha256_digest(xml);
    hex_lower(d.as_slice())
}

/// A cached POM is intact when no hash is recorded for it, or when the
/// recorded hash, trimmed, equals the hash of its text.
pub open spec fn pom_intact_spec(content: Seq<char>, recorded: Option<Seq<char>>) -> bool {
    match recorded {
        Some(h) => hex_of(sha256_of_text(content)) == trim(h),
        None => true,
    }
}

/// Whether a cached POM's text matches its recorded hash (if one is recorded).
pub fn pom_content_intact(content: &str, recorded: Option<&str>) -> (r: bool)
    ensures
        r == pom_intact_spec(content@, match recorded {
            Some(h) => Some(h@),
            None => None,
        }),
{
    match recorded {
        Some(h) => {
            let actual = pom_hash(content);
            let a = chars_of(actual.as_str());
            let t = trim_str(h);
            same_chars(a.as_slice(), t.as_slice())
        },
        None => true,
    }
}

proof fn lemma_hex_no_ws(bs: Seq<u8>)
    ensures
        forall|i: int| 0 <= i < hex_of(bs).len() ==> !is_ws(#[trigger] hex_of(bs)[i]),
    decreases bs.len(),
{
    if bs.len() > 0 {
        lemma_hex_no_ws(bs.drop_last());
        let h = hex_of(bs);
        let p = hex_of(bs.drop_last());
        assert forall|i: int| 0 <= i < h.len() implies !is_ws(#[trigger] h[i]) by {
            if i < p.len() {
                assert(h[i] == p[i]);
            }
        }
    }
}

proof fn lemma_trim_no_ws(s: Seq<char>)
    requires
        forall|i: int| 0 <= i < s.len() ==> !is_ws(#[trigger] s[i]),
    ensures
        trim(s) == s,
{
    assert(trim_start(s) == s);
    assert(trim_end(s) == s);
}

/// What a write records, a read accepts: a POM checked against the hash
/// recorded for its own text is intact.
pub proof fn lemma_recorded_hash_accepted(content: Seq<char>)
    ensures
        pom_intact_spec(content, Some(hex_of(sha256_of_text(content)))),
{
    lemma_hex_no_ws(sha256_of_text(content));
    lemma_trim_no_ws(hex_of(sha256_of_text(content)));
}

} // verus!
