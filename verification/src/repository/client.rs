//! Repository layout and `maven-metadata.xml` reading.
//!
//! The HTTP client lives in the application; here are the repositories it
//! talks to, the paths it asks them for and the reading of the metadata it
//! gets back.

use vstd::prelude::*;
use crate::error::JvError;
use crate::models::{clone_opt_string, coordinate_path, Artifact, MavenCoordinate};
use crate::text::{
    chars_of, find, find_exec, join2, owned, lemma_find_from_some, lines, lines_exec, matches_at,
    replace_char, replace_char_exec, slice_chars, starts_with, starts_with_exec, string_of, trim,
    trimmed,
};
use crate::models::version::Version;

verus! {

// ---------------------------------------------------------------------
// Repositories
// ---------------------------------------------------------------------

/// What `reqwest::Url::parse` makes of a URL text: the URL as it serializes
/// it, or the message of the parse error.
pub uninterp spec fn url_parse_of(text: Seq<char>) -> Result<Seq<char>, Seq<char>>;

/// `reqwest::Url::parse` (the `url` crate's parser): on success the parsed
/// URL's serialization (`as_str`), else the error's `Display` text; the
/// outcome is `url_parse_of` of the input.
#[verifier::external_body]
fn parse_url(text: &str) -> (r: Result<String, String>)
    ensures
        match r {
            Ok(u) => url_parse_of(text@) == Ok::<Seq<char>, Seq<char>>(u@),
            Err(m) => url_parse_of(text@) == Err::<Seq<char>, Seq<char>>(m@),
        },
{
    match reqwest::Url::parse(text) {
        Ok(u) => Ok(u.as_str().to_string()),
        Err(e) => Err(e.to_string()),
    }
}

/// What `reqwest::Url::join` makes of `path` against the base URL `base`
/// (given as its text): the joined URL as it serializes it, or the message
/// of the parse error.
pub uninterp spec fn url_join_of(base: Seq<char>, path: Seq<char>) -> Result<Seq<char>, Seq<char>>;

/// `reqwest::Url::join` of `path` on the URL that `base` holds (the text is
/// turned into a `Url` first): the joined URL's serialization, else the
/// error's `Display` text; the outcome is `url_join_of` of the inputs.
#[verifier::external_body]
fn join_url_text(base: &str, path: &str) -> (r: Result<String, String>)
    ensures
        match r {
            Ok(u) => url_join_of(base@, path@) == Ok::<Seq<char>, Seq<char>>(u@),
            Err(m) => url_join_of(base@, path@) == Err::<Seq<char>, Seq<char>>(m@),
        },
{
    match reqwest::Url::parse(base).and_then(|b| b.join(path)) {
        Ok(u) => Ok(u.as_str().to_string()),
        Err(e) => Err(e.to_string()),
    }
}

/// Information about a single Maven repository.
#[derive(Debug)]
pub struct Repository {
    /// Unique identifier (e.g. "central", "my-company")
    pub id: String,
    /// Base URL, as parsed, e.g. "https://repo.maven.apache.org/maven2/"
    pub url: String,
    /// Whether to allow snapshots from this repository
    pub snapshots: bool,
    /// Optional HTTP basic auth
    pub username: Option<String>,
    pub password: Option<String>,
}

impl Clone for Repository {
    fn clone(&self) -> (r: Self)
        ensures
            r.id@ == self.id@,
            r.url@ == self.url@,
            r.snapshots == self.snapshots,
            r.username == self.username,
            r.password == self.password,
    {
        Repository {
            id: self.id.clone(),
            url: self.url.clone(),
            snapshots: self.snapshots,
            username: clone_opt_string(&self.username),
            password: clone_opt_string(&self.password),
        }
    }
}

impl Repository {
    /// Maven Central (the default).
    pub fn maven_central() -> (r: Self)
        ensures
            r.id@ == "central"@,
            r.url@ == "https://repo.maven.apache.org/maven2/"@,
            !r.snapshots,
            r.username is None,
            r.password is None,
    {
        Repository {
            id: owned("central"),
            url: owned("https://repo.maven.apache.org/maven2/"),
            snapshots: false,
            username: None,
            password: None,
        }
    }

    /// The URL of `path` in this repository: the path joined to the
    /// repository's URL, or `Other` with the message when that fails.
    pub fn remote_url(&self, path: &str) -> (r: Result<String, JvError>)
        ensures
            match url_join_of(self.url@, path@) {
                Ok(u) => match r {
                    Ok(x) => x@ == u,
                    Err(_) => false,
                },
                Err(m) => match r {
                    Ok(_) => false,
                    Err(e) => match e {
                        JvError::Other(t) => t@ == m,
                        _ => false,
                    },
                },
            },
    {
        match join_url_text(self.url.as_str(), path) {
            Ok(u) => Ok(u),
            Err(m) => Err(JvError::Other(m)),
        }
    }

    /// A repository with the given id at the given URL: `Other` with the
    /// parser's message when the URL does not parse; snapshots off and no
    /// credentials otherwise.
    pub fn new(id: &str, url: &str) -> (r: Result<Self, JvError>)
        ensures
            match url_parse_of(url@) {
                Ok(u) => match r {
                    Ok(repo) => {
                        &&& repo.id@ == id@
                        &&& repo.url@ == u
                        &&& !repo.snapshots
                        &&& repo.username is None
                        &&& repo.password is None
                    },
                    Err(_) => false,
                },
                Err(m) => match r {
                    Ok(_) => false,
                    Err(e) => match e {
                        JvError::Other(t) => t@ == m,
                        _ => false,
                    },
                },
            },
    {
        match parse_url(url) {
            Ok(u) => Ok(Repository { id: owned(id), url: u, snapshots: false, username: None, password: None }),
            Err(m) => Err(JvError::Other(m)),
        }
    }
}

/// Parsed `maven-metadata.xml` content (subset of fields we care about).
#[derive(Debug, Default)]
pub struct MavenMetadata {
    pub group_id: String,
    pub artifact_id: String,
    pub latest: Option<Version>,
    pub release: Option<Version>,
    pub versions: Vec<Version>,
    pub last_updated: Option<String>,
}

/// Mathematical view of metadata: texts of its versions.
pub struct MetadataView {
    pub group_id: Seq<char>,
    pub artifact_id: Seq<char>,
    pub latest: Option<Seq<char>>,
    pub release: Option<Seq<char>>,
    pub versions: Seq<Seq<char>>,
    pub last_updated: Option<Seq<char>>,
}

impl View for MavenMetadata {
    type V = MetadataView;

    open spec fn view(&self) -> MetadataView {
        MetadataView {
            group_id: self.group_id@,
            artifact_id: self.artifact_id@,
            latest: match self.latest {
                Some(v) => Some(v@),
                None => None,
            },
            release: match self.release {
                Some(v) => Some(v@),
                None => None,
            },
            versions: self.versions@.map_values(|v: Version| v@),
            last_updated: match self.last_updated {
                Some(s) => Some(s@),
                None => None,
            },
        }
    }
}

/// `<tag>`.
pub open spec fn open_tag(tag: Seq<char>) -> Seq<char> {
    "<"@ + tag + ">"@
}

/// `</tag>`.
pub open spec fn close_tag(tag: Seq<char>) -> Seq<char> {
    "</"@ + tag + ">"@
}

/// The text between the first `<tag>` and the first `</tag>` of a line.
pub open spec fn extract_tag_spec(line: Seq<char>, tag: Seq<char>) -> Option<Seq<char>> {
    match (find(line, open_tag(tag)), find(line, close_tag(tag))) {
        (Some(s), Some(e)) => Some(line.subrange(s + open_tag(tag).len(), e)),
        _ => None,
    }
}

/// The first `</tag>` of a line does not come before the end of its first `<tag>`.
pub open spec fn tags_in_order(line: Seq<char>, tag: Seq<char>) -> bool {
    match (find(line, open_tag(tag)), find(line, close_tag(tag))) {
        (Some(s), Some(e)) => s + open_tag(tag).len() <= e,
        _ => true,
    }
}

/// A version text when it is not blank.
pub open spec fn parsed_version(v: Seq<char>) -> Option<Seq<char>> {
    if trim(v).len() == 0 {
        None
    } else {
        Some(v)
    }
}

/// The metadata after reading one line: a trimmed line starting with
/// `<latest>` or `<release>` sets that field from the tag's text (unset when
/// blank); one starting with `<version>` appends a non-blank version.
pub open spec fn metadata_step(m: MetadataView, line: Seq<char>) -> MetadataView {
    let l = trim(line);
    if starts_with(l, "<latest>"@) {
        match extract_tag_spec(l, "latest"@) {
            Some(v) => MetadataView { latest: parsed_version(v), ..m },
            None => m,
        }
    } else if starts_with(l, "<release>"@) {
        match extract_tag_spec(l, "release"@) {
            Some(v) => MetadataView { release: parsed_version(v), ..m },
            None => m,
        }
    } else if starts_with(l, "<version>"@) {
        match extract_tag_spec(l, "version"@) {
            Some(v) => if trim(v).len() == 0 {
                m
            } else {
                MetadataView { versions: m.versions.push(v), ..m }
            },
            None => m,
        }
    } else {
        m
    }
}

/// The metadata after reading the given lines in order.
pub open spec fn metadata_of_lines(m: MetadataView, ls: Seq<Seq<char>>) -> MetadataView
    decreases ls.len(),
{
    if ls.len() == 0 {
        m
    } else {
        metadata_step(metadata_of_lines(m, ls.drop_last()), ls.last())
    }
}

/// The metadata read from a document for `group:artifact`.
pub open spec fn metadata_of(xml: Seq<char>, group: Seq<char>, artifact: Seq<char>) -> MetadataView {
    metadata_of_lines(
        MetadataView {
            group_id: group,
            artifact_id: artifact,
            latest: None,
            release: None,
            versions: Seq::empty(),
            last_updated: None,
        },
        lines(xml),
    )
}

/// A line that starts with `<tag>` has its tags in order when `tag` is
/// non-empty, holds no `<` and does not start with `/`.
proof fn lemma_tags_in_order(line: Seq<char>, tag: Seq<char>)
    requires
        starts_with(line, open_tag(tag)),
        tag.len() > 0,
        tag[0] != '/',
        forall|k: int| 0 <= k < tag.len() ==> tag[k] != '<',
    ensures
        tags_in_order(line, tag),
{
    reveal_strlit("<");
    reveal_strlit(">");
    reveal_strlit("</");
    let o = open_tag(tag);
    let c = close_tag(tag);
    lemma_find_from_some(line, o, 0);
    lemma_find_from_some(line, c, 0);
    assert(matches_at(line, o, 0));
    assert(find(line, o) == Some(0int));
    if let Some(e) = find(line, c) {
        if e < o.len() {
            assert(line.subrange(e, e + c.len())[0] == c[0]);
            assert(line[e] == '<');
            assert(line.subrange(0, o.len() as int)[e] == o[e]);
            if e == 0 {
                assert(line.subrange(e, e + c.len())[1] == c[1]);
                assert(line.subrange(0, o.len() as int)[1] == o[1]);
                assert(o[1] == tag[0]);
            } else if e <= tag.len() {
                assert(o[e] == tag[e - 1]);
            } else {
                assert(o[e] == '>');
            }
        }
    }
}

/// The text between `<tag>` and `</tag>` in a line, if both are present.
pub fn extract_tag(line: &[char], tag: &str) -> (r: Option<String>)
    requires
        tags_in_order(line@, tag@),
    ensures
        match r {
            Some(s) => extract_tag_spec(line@, tag@) == Some(s@),
            None => extract_tag_spec(line@, tag@) is None,
        },
{
    let a = join2("<", tag);
    let open = join2(a.as_str(), ">");
    let b = join2("</", tag);
    let close = join2(b.as_str(), ">");
    let oc = chars_of(open.as_str());
    let cc = chars_of(close.as_str());
    match find_exec(line, oc.as_slice()) {
        Some(start) => match find_exec(line, cc.as_slice()) {
            Some(end) => {
                proof {
                    lemma_find_from_some(line@, oc@, 0);
                    lemma_find_from_some(line@, cc@, 0);
                    assert(oc@ == open_tag(tag@));
                    assert(cc@ == close_tag(tag@));
                }
                let t = slice_chars(line, start + oc.len(), end);
                Some(string_of(t.as_slice()))
            },
            None => None,
        },
        None => None,
    }
}

/// Reads `maven-metadata.xml` line by line (see `metadata_step`).
pub fn parse_metadata(xml: &str, group_id: &str, artifact_id: &str) -> (r: Result<
    MavenMetadata,
    JvError,
>)
    ensures
        r matches Ok(m) && m@ == metadata_of(xml@, group_id@, artifact_id@),
{
    let mut meta = MavenMetadata {
        group_id: crate::text::owned(group_id),
        artifact_id: crate::text::owned(artifact_id),
        latest: None,
        release: None,
        versions: Vec::new(),
        last_updated: None,
    };
    let x = chars_of(xml);
    let ls = lines_exec(x.as_slice());
    let ghost lv = lines(xml@);
    assert(meta@.versions =~= Seq::<Seq<char>>::empty());
    let lt = chars_of("<latest>");
    let rt = chars_of("<release>");
    let vt = chars_of("<version>");
    proof {
        reveal_strlit("<");
        reveal_strlit(">");
        reveal_strlit("<latest>");
        reveal_strlit("<release>");
        reveal_strlit("<version>");
        reveal_strlit("latest");
        reveal_strlit("release");
        reveal_strlit("version");
        assert(open_tag("latest"@) =~= "<latest>"@);
        assert(open_tag("release"@) =~= "<release>"@);
        assert(open_tag("version"@) =~= "<version>"@);
    }
    let mut i: usize = 0;
    while i < ls.len()
        invariant
            i <= ls.len(),
            ls@.len() == lv.len(),
            lv == lines(xml@),
            forall|k: int| 0 <= k < ls@.len() ==> #[trigger] ls@[k]@ == lv[k],
            meta@ == metadata_of_lines(
                MetadataView {
                    group_id: group_id@,
                    artifact_id: artifact_id@,
                    latest: None,
                    release: None,
                    versions: Seq::empty(),
                    last_updated: None,
                },
                lv.take(i as int),
            ),
            lt@ == "<latest>"@,
            rt@ == "<release>"@,
            vt@ == "<version>"@,
            open_tag("latest"@) == "<latest>"@,
            open_tag("release"@) == "<release>"@,
            open_tag("version"@) == "<version>"@,
        decreases ls.len() - i,
    {
        assert(lv.take(i + 1).drop_last() =~= lv.take(i as int));
        assert(lv.take(i + 1).last() == lv[i as int]);
        let l = trimmed(ls[i].as_slice());
        if starts_with_exec(l.as_slice(), lt.as_slice()) {
            proof {
                reveal_strlit("latest");
                lemma_tags_in_order(l@, "latest"@);
            }
            match extract_tag(l.as_slice(), "latest") {
                Some(v) => {
                    meta.latest = match Version::parse(v.as_str()) {
                        Ok(x) => Some(x),
                        Err(_) => None,
                    };
                },
                None => {},
            }
        } else if starts_with_exec(l.as_slice(), rt.as_slice()) {
            proof {
                reveal_strlit("release");
                lemma_tags_in_order(l@, "release"@);
            }
            match extract_tag(l.as_slice(), "release") {
                Some(v) => {
                    meta.release = match Version::parse(v.as_str()) {
                        Ok(x) => Some(x),
                        Err(_) => None,
                    };
                },
                None => {},
            }
        } else if starts_with_exec(l.as_slice(), vt.as_slice()) {
            proof {
                reveal_strlit("version");
                lemma_tags_in_order(l@, "version"@);
            }
            match extract_tag(l.as_slice(), "version") {
                Some(v) => {
                    match Version::parse(v.as_str()) {
                        Ok(x) => {
                            let ghost before = meta@.versions;
                            meta.versions.push(x);
                            assert(meta@.versions =~= before.push(v@));
                        },
                        Err(_) => {},
                    }
                },
                None => {},
            }
        }
        i = i + 1;
    }
    assert(lv.take(ls.len() as int) =~= lv);
    Ok(meta)
}

/// Remote path of a coordinate's POM: `path/version/artifact-version.pom`.
pub open spec fn pom_remote_path_spec(c: MavenCoordinate) -> Seq<char> {
    coordinate_path(c.group_id@, c.artifact_id@) + "/"@ + c.version@ + "/"@ + c.artifact_id@ + "-"@
        + c.version@ + ".pom"@
}

/// Remote path of an artifact file:
/// `path/version/artifact-version[-classifier].extension`.
pub open spec fn artifact_remote_path_spec(a: Artifact) -> Seq<char> {
    let c = a.coordinate;
    let base = coordinate_path(c.group_id@, c.artifact_id@) + "/"@ + c.version@ + "/"@
        + c.artifact_id@ + "-"@ + c.version@;
    let with_classifier = match a.classifier {
        Some(cl) => if cl@.len() > 0 {
            base + "-"@ + cl@
        } else {
            base
        },
        None => base,
    };
    with_classifier + "."@ + a.extension@
}

/// Remote path of `maven-metadata.xml` for a group and artifact.
pub open spec fn metadata_remote_path_spec(group: Seq<char>, artifact: Seq<char>) -> Seq<char> {
    replace_char(group, '.', '/') + "/"@ + artifact + "/maven-metadata.xml"@
}

/// The remote path of a coordinate's POM.
pub fn pom_remote_path(coord: &MavenCoordinate) -> (r: String)
    ensures
        r@ == pom_remote_path_spec(*coord),
{
    let p = coord.path();
    let a = join2(p.as_str(), "/");
    let b = join2(a.as_str(), coord.version.raw.as_str());
    let c = join2(b.as_str(), "/");
    let d = join2(c.as_str(), coord.artifact_id.as_str());
    let e = join2(d.as_str(), "-");
    let f = join2(e.as_str(), coord.version.raw.as_str());
    join2(f.as_str(), ".pom")
}

/// The remote path of an artifact file.
pub fn artifact_remote_path(artifact: &Artifact) -> (r: String)
    ensures
        r@ == artifact_remote_path_spec(*artifact),
{
    let coord = &artifact.coordinate;
    let p = coord.path();
    let a = join2(p.as_str(), "/");
    let b = join2(a.as_str(), coord.version.raw.as_str());
    let c = join2(b.as_str(), "/");
    let d = join2(c.as_str(), coord.artifact_id.as_str());
    let e = join2(d.as_str(), "-");
    let mut s = join2(e.as_str(), coord.version.raw.as_str());
    match &artifact.classifier {
        Some(cl) => {
            if !cl.as_str().is_empty() {
                let t = join2(s.as_str(), "-");
                s = join2(t.as_str(), cl.as_str());
            }
        },
        None => {},
    }
    let t = join2(s.as_str(), ".");
    join2(t.as_str(), artifact.extension.as_str())
}

/// The remote path of `maven-metadata.xml`.
pub fn metadata_remote_path(group_id: &str, artifact_id: &str) -> (r: String)
    ensures
        r@ == metadata_remote_path_spec(group_id@, artifact_id@),
{
    let g = chars_of(group_id);
    let slashed = replace_char_exec(g.as_slice(), '.', '/');
    let s = string_of(slashed.as_slice());
    let a = join2(s.as_str(), "/");
    let b = join2(a.as_str(), artifact_id);
    join2(b.as_str(), "/maven-metadata.xml")
}

} // verus!
