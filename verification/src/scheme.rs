//! The scheme data model. A scheme's identity for merge purposes is not
//! its name but its palette, carried here as the palette's canonical
//! serialization string: two records with the same serialization are the
//! same scheme.

use vstd::prelude::*;
use vstd::string::*;
use crate::text::{str_eq, str_starts_with};

verus! {

/// The view of an optional string.
pub open spec fn opt_view(o: Option<String>) -> Option<Seq<char>> {
    match o {
        Some(s) => Some(s@),
        None => None,
    }
}

/// The views of a list of strings.
pub open spec fn views_of(ss: Seq<String>) -> Seq<Seq<char>> {
    ss.map_values(|s: String| s@)
}

/// A scheme's metadata: its alias history, where it came from, and the
/// release it first appeared in (`None` until first published).
pub struct SchemeMetaData {
    pub aliases: Vec<String>,
    pub origin_url: Option<String>,
    pub wezterm_version: Option<String>,
}

/// A candidate or canonical scheme record. `palette` is the canonical
/// serialization of the scheme's color document and is its identity.
pub struct Scheme {
    pub name: String,
    pub file_name: Option<String>,
    pub palette: String,
    pub metadata: SchemeMetaData,
}

/// The mathematical value of a scheme record.
pub struct SchemeView {
    pub name: Seq<char>,
    pub file_name: Option<Seq<char>>,
    pub palette: Seq<char>,
    pub aliases: Seq<Seq<char>>,
    pub origin_url: Option<Seq<char>>,
    pub version: Option<Seq<char>>,
}

impl View for Scheme {
    type V = SchemeView;

    open spec fn view(&self) -> SchemeView {
        SchemeView {
            name: self.name@,
            file_name: opt_view(self.file_name),
            palette: self.palette@,
            aliases: views_of(self.metadata.aliases@),
            origin_url: opt_view(self.metadata.origin_url),
            version: opt_view(self.metadata.wezterm_version),
        }
    }
}

/// The views of a list of scheme records.
pub open spec fn scheme_views(ss: Seq<Scheme>) -> Seq<SchemeView> {
    ss.map_values(|s: Scheme| s@)
}

/// The version label that marks a scheme as not yet released.
pub open spec fn spec_nightly() -> Seq<char> {
    "nightly builds only"@
}

/// The sentinel version of a scheme first seen in the current run.
pub fn nightly_string() -> (r: String)
    ensures
        r@ == spec_nightly(),
{
    String::from_str("nightly builds only")
}

/// Stamps metadata as belonging to an unreleased scheme.
pub fn apply_nightly_version(metadata: &mut SchemeMetaData)
    ensures
        final(metadata).aliases == old(metadata).aliases,
        final(metadata).origin_url == old(metadata).origin_url,
        opt_view(final(metadata).wezterm_version) == Some(spec_nightly()),
{
    metadata.wezterm_version = Some(nightly_string());
}

/// A malformed source document, reported and skipped.
pub struct ParseError {
    pub message: String,
}

/// What a format parser extracted from one source document.
pub struct ParsedScheme {
    pub name: Option<String>,
    pub palette: String,
    pub aliases: Vec<String>,
    pub origin_url: Option<String>,
}

/// One document taken from a source archive: the file stem it was found
/// under, and the outcome of parsing it.
pub struct SourceDoc {
    pub file_stem: String,
    pub parsed: Result<ParsedScheme, ParseError>,
}

/// A record of the previously published canonical dataset.
pub struct PriorRecord {
    pub name: String,
    pub aliases: Vec<String>,
    pub wezterm_version: Option<String>,
    pub origin_url: Option<String>,
    pub palette: String,
    pub has_ansi: bool,
}

/// The candidate a parsed document becomes: named by the document or its
/// file stem plus the source's suffix, attributed to the repository when
/// the document names no origin, and stamped as unreleased.
pub open spec fn spec_prepare(
    name: Option<Seq<char>>,
    palette: Seq<char>,
    aliases: Seq<Seq<char>>,
    origin_url: Option<Seq<char>>,
    file_stem: Seq<char>,
    repo_url: Seq<char>,
    suffix: Seq<char>,
) -> SchemeView {
    SchemeView {
        name: (match name {
            Some(n) => n,
            None => file_stem,
        }) + suffix,
        file_name: None,
        palette: palette,
        aliases: aliases,
        origin_url: match origin_url {
            Some(o) => Some(o),
            None => Some(repo_url),
        },
        version: Some(spec_nightly()),
    }
}

/// Builds the candidate scheme for one parsed source document.
pub fn prepare_candidate(parsed: ParsedScheme, file_stem: String, repo_url: &str, suffix: &str) -> (r:
    Scheme)
    ensures
        r@ == spec_prepare(
            opt_view(parsed.name),
            parsed.palette@,
            views_of(parsed.aliases@),
            opt_view(parsed.origin_url),
            file_stem@,
            repo_url@,
            suffix@,
        ),
{
    let base = match parsed.name {
        Some(n) => n,
        None => file_stem,
    };
    let name = base.concat(suffix);
    let origin_url = match parsed.origin_url {
        Some(o) => Some(o),
        None => Some(String::from_str(repo_url)),
    };
    let mut metadata = SchemeMetaData { aliases: parsed.aliases, origin_url, wezterm_version: None };
    apply_nightly_version(&mut metadata);
    Scheme { name, file_name: None, palette: parsed.palette, metadata }
}

/// The archive address a repository's branch is fetched from: a codeberg
/// repository serves `/archive/<branch>.tar.gz`, anything else
/// `/tarball/<branch>`.
pub open spec fn spec_tarball_url(repo_url: Seq<char>, branch: Seq<char>) -> Seq<char> {
    if "https://codeberg.org/"@.is_prefix_of(repo_url) {
        repo_url + "/archive/"@ + branch + ".tar.gz"@
    } else {
        repo_url + "/tarball/"@ + branch
    }
}

/// Builds the tarball address for one configured source repository.
pub fn tarball_url(repo_url: &str, branch: &str) -> (r: String)
    ensures
        r@ == spec_tarball_url(repo_url@, branch@),
{
    if str_starts_with(repo_url, "https://codeberg.org/") {
        String::from_str(repo_url).concat("/archive/").concat(branch).concat(".tar.gz")
    } else {
        String::from_str(repo_url).concat("/tarball/").concat(branch)
    }
}

} // verus!

verus! {

/// The part of a path after its last `/`: the file name.
pub open spec fn spec_after_last_slash(p: Seq<char>) -> Seq<char>
    decreases p.len(),
{
    if p.len() == 0 {
        p
    } else if p.last() == '/' {
        Seq::<char>::empty()
    } else {
        spec_after_last_slash(p.drop_last()).push(p.last())
    }
}

/// Whether a path names a scheme document: its file name ends in `.toml`
/// with a non-empty stem before it.
pub open spec fn spec_is_toml_path(p: Seq<char>) -> bool {
    let f = spec_after_last_slash(p);
    f.len() > 5 && f.skip(f.len() - 5) == ".toml"@
}

proof fn lemma_after_last_slash(p: Seq<char>, j: int)
    requires
        0 <= j <= p.len(),
        forall|k: int| j <= k < p.len() ==> p[k] != '/',
        j > 0 ==> p[j - 1] == '/',
    ensures
        spec_after_last_slash(p) == p.skip(j),
    decreases p.len(),
{
    if p.len() == j {
        assert(p.skip(j).len() == 0);
        if j > 0 {
            assert(p.last() == '/');
        }
        assert(spec_after_last_slash(p) =~= p.skip(j));
    } else {
        assert(p.last() != '/');
        assert(forall|k: int| j <= k < p.drop_last().len() ==> p.drop_last()[k] != '/');
        if j > 0 {
            assert(p.drop_last()[j - 1] == '/');
        }
        lemma_after_last_slash(p.drop_last(), j);
        assert(spec_after_last_slash(p) =~= p.drop_last().skip(j).push(p.last()));
        assert(p.drop_last().skip(j).push(p.last()) =~= p.skip(j));
    }
}

/// Whether an archive entry's path names a scheme document to parse.
pub fn has_toml_extension(path: &str) -> (r: bool)
    ensures
        r == spec_is_toml_path(path@),
{
    let len = path.unicode_len();
    let mut i: usize = 0;
    let mut j: usize = 0;
    while i < len
        invariant
            len == path@.len(),
            i <= len,
            j <= i,
            forall|k: int| j <= k < i ==> path@[k] != '/',
            j > 0 ==> j - 1 < len && path@[j - 1] == '/',
        decreases len - i,
    {
        if path.get_char(i) == '/' {
            j = i + 1;
        }
        i = i + 1;
    }
    proof {
        lemma_after_last_slash(path@, j as int);
    }
    let flen = len - j;
    if flen <= 5 {
        return false;
    }
    let tail = path.substring_char(len - 5, len);
    proof {
        assert(tail@ =~= path@.skip(len - 5));
        assert(path@.skip(j as int).skip(flen - 5) =~= path@.skip(len - 5));
    }
    str_eq(tail, ".toml")
}

} // verus!
