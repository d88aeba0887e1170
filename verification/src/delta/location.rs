//! Where a table is: URLs as plain values, and the normal form that lets a path
//! be joined on.

use url::Url;
use vstd::prelude::*;

use crate::text::{concat2, ends_with, starts_with};

verus! {

/// A parsed URL as plain values.
#[derive(Clone, Debug, PartialEq, Eq)]
pub struct TableUrl {
    /// The whole URL.
    pub href: String,
    /// The scheme, without the colon.
    pub scheme: String,
    /// The user name; empty where there is none.
    pub username: String,
    /// The host, where there is one.
    pub host: Option<String>,
    /// The port, where one is given that is not the scheme's own.
    pub port: Option<u16>,
    /// The path.
    pub path: String,
}

/// The value of an optional text.
pub open spec fn text(o: Option<String>) -> Option<Seq<char>> {
    match o {
        Some(s) => Some(s@),
        None => None,
    }
}

/// A URL's parts: the whole, the scheme, the user name, the host, the port and
/// the path.
pub type UrlParts = (Seq<char>, Seq<char>, Seq<char>, Option<Seq<char>>, Option<u16>, Seq<char>);

impl TableUrl {
    /// The URL's parts.
    pub open spec fn parts(self) -> UrlParts {
        (
            self.href@,
            self.scheme@,
            self.username@,
            text(self.host),
            self.port,
            self.path@,
        )
    }
}

/// What parsing a text as a URL gives: its parts, or why it is none.
pub uninterp spec fn url_parse(s: Seq<char>) -> Result<UrlParts, Seq<char>>;

/// What a text that parses as a URL gives when the URL's path is then replaced.
pub uninterp spec fn url_set_path(s: Seq<char>, path: Seq<char>) -> UrlParts;

/// The parse's outcome as mathematical values.
pub open spec fn parsed_parts(r: Result<TableUrl, String>) -> Result<UrlParts, Seq<char>> {
    match r {
        Ok(u) => Ok(u.parts()),
        Err(e) => Err(e@),
    }
}

/// The URL is not of the `file` scheme, or has neither a host nor a path with a colon or a
/// bar in it. What a path or a host with these is, the text of a `file` URL may leave open:
/// they can be a drive letter, which takes a form of its own and the place of the host.
pub open spec fn plain(p: UrlParts) -> bool {
    p.1 == "file"@ ==> p.3 is None && !p.5.contains(':') && !p.5.contains('|')
}

/// The user name and the host stand for themselves in an authority: neither has an `@` in
/// it, the host is not empty, and where it has a colon in it, it ends in a bracket. There is
/// a port only where there is a host.
pub open spec fn tidy(p: UrlParts) -> bool {
    &&& !p.2.contains('@')
    &&& match p.3 {
        Some(h) => h.len() > 0 && !h.contains('@') && (h.contains(':') ==> h.last() == ']'),
        None => p.4 is None,
    }
}

/// The text of the URL reads as the URL that it is.
pub open spec fn reads_back(p: UrlParts) -> bool {
    url_parse(p.0) == Ok::<UrlParts, Seq<char>>(p)
}

/// `url::Url::parse`, with the parts of the URL taken by its accessors. An `@` in a user
/// name is escaped, one in a host is refused, and so is a colon, but for an IPv6 address in
/// brackets. Where the text starts with one of the schemes of a table's store and `://`, so
/// does that of the URL, and the path is empty or starts with a slash. The text of such a
/// URL, if it is a plain one, reads as the URL: what was escaped, left out or put in order
/// when it was parsed is not changed again.
#[verifier::external_body]
fn parse(s: &str) -> (r: Result<TableUrl, String>)
    ensures
        parsed_parts(r) == url_parse(s@),
        r matches Ok(u) ==> tidy(u.parts()),
        r matches Ok(u) ==> (names_a_store(s@) ==> names_a_store(u.href@) && rooted(u.path@)),
        r matches Ok(u) ==> (names_a_store(s@) && plain(u.parts()) ==> reads_back(u.parts())),
{
    let u = Url::parse(s).map_err(|e| e.to_string())?;
    Ok(TableUrl {
        href: u.as_str().to_string(),
        scheme: u.scheme().to_string(),
        username: u.username().to_string(),
        host: u.host_str().map(str::to_string),
        port: u.port(),
        path: u.path().to_string(),
    })
}

/// The two have the same scheme, user name, host and port.
pub open spec fn same_place(a: UrlParts, b: UrlParts) -> bool {
    a.1 == b.1 && a.2 == b.2 && a.3 == b.3 && a.4 == b.4
}

/// The path is empty or starts with a slash.
pub open spec fn rooted(path: Seq<char>) -> bool {
    path.len() == 0 || path[0] == '/'
}

/// `url::Url::set_path` on the URL that a text parses as, with a path that starts with a
/// slash: the scheme, the user name, the host and the port stay. Where the text starts with
/// one of the schemes of a table's store and `://`, so does that of the result, and the path
/// of the result ends in a slash if the new path does. It is the new path itself if that is
/// the path of the URL, a plain one that ends in no slash, with a slash added. The text of
/// the result, if it is a plain one, reads as the result.
#[verifier::external_body]
fn parse_with_path(s: &str, path: &str) -> (r: Result<TableUrl, String>)
    requires
        path@.len() > 0,
        path@[0] == '/',
    ensures
        url_parse(s@) is Err ==> parsed_parts(r) == url_parse(s@),
        url_parse(s@) is Ok ==> r is Ok,
        r matches Ok(u) ==> u.parts() == url_set_path(s@, path@),
        r matches Ok(u) ==> url_parse(s@) matches Ok(p) && same_place(p, u.parts()),
        r matches Ok(u) ==> (names_a_store(s@) && "/"@.is_suffix_of(path@) ==> "/"@.is_suffix_of(
            u.path@,
        )),
        r matches Ok(u) ==> (names_a_store(s@) ==> names_a_store(u.href@)),
        r matches Ok(u) ==> (names_a_store(s@) && (url_parse(s@) matches Ok(p) && plain(p)
            && !"/"@.is_suffix_of(p.5) && path@ == p.5 + "/"@) ==> u.path@ == path@),
        r matches Ok(u) ==> (names_a_store(s@) && plain(u.parts()) ==> reads_back(u.parts())),
{
    let mut u = Url::parse(s).map_err(|e| e.to_string())?;
    u.set_path(path);
    Ok(TableUrl {
        href: u.as_str().to_string(),
        scheme: u.scheme().to_string(),
        username: u.username().to_string(),
        host: u.host_str().map(str::to_string),
        port: u.port(),
        path: u.path().to_string(),
    })
}

/// What a text that parses as a URL reads when the URL's scheme is then replaced;
/// nothing where the text is no URL or the URL cannot have the scheme.
pub uninterp spec fn url_set_scheme(s: Seq<char>, scheme: Seq<char>) -> Option<Seq<char>>;

/// `url::Url::set_scheme` on the URL that a text parses as.
#[verifier::external_body]
pub(crate) fn parse_with_scheme(s: &str, scheme: &str) -> (r: Option<String>)
    ensures
        text(r) == url_set_scheme(s@, scheme@),
{
    let mut u = Url::parse(s).ok()?;
    u.set_scheme(scheme).ok()?;
    Some(u.to_string())
}

/// What a text that parses as a URL gives when a reference is then joined to the URL: the
/// parts of the URL that the reference is, or why it is none.
pub uninterp spec fn url_join(s: Seq<char>, reference: Seq<char>) -> Result<UrlParts, Seq<char>>;

/// If the one is a URL whose path ends in a slash, the other is one in the same place, with
/// the reference appended to its path.
pub open spec fn appended(
    base: Result<UrlParts, Seq<char>>,
    reference: Seq<char>,
    joined: Result<UrlParts, Seq<char>>,
) -> bool {
    base matches Ok(p) ==> ("/"@.is_suffix_of(p.5) ==> (joined matches Ok(u) && u.5 == p.5
        + reference && same_place(p, u)))
}

/// `url::Url::join` on the URL that a text parses as. Where the text starts with one of the
/// schemes of a table's store and `://`, and the path of its URL ends in a slash, joining
/// `_delta_log/` appends it to the path; the scheme, the user name, the host and the port
/// stay.
#[verifier::external_body]
fn parse_and_join(s: &str, reference: &str) -> (r: Result<TableUrl, String>)
    ensures
        parsed_parts(r) == url_join(s@, reference@),
        names_a_store(s@) && reference@ == "_delta_log/"@ ==> appended(
            url_parse(s@),
            reference@,
            parsed_parts(r),
        ),
{
    let u = Url::parse(s).and_then(|u| u.join(reference)).map_err(|e| e.to_string())?;
    Ok(TableUrl {
        href: u.as_str().to_string(),
        scheme: u.scheme().to_string(),
        username: u.username().to_string(),
        host: u.host_str().map(str::to_string),
        port: u.port(),
        path: u.path().to_string(),
    })
}

/// The URL of a local directory: of the `file` scheme, without a user name or a port, and
/// with a path that ends in a slash.
pub open spec fn is_directory_url(u: TableUrl) -> bool {
    &&& u.scheme@ == "file"@
    &&& u.username@.len() == 0
    &&& u.port is None
    &&& "/"@.is_suffix_of(u.path@)
}

/// A part of the path between slashes is `..`.
pub open spec fn steps_up(path: Seq<char>) -> bool {
    exists|i: int| 0 <= i && i + 4 <= path.len() && #[trigger] path.subrange(i, i + 4) == "/../"@
}

/// The parts are those of the URL of a directory at the path on some platform; nothing,
/// where a platform does not take the path for absolute.
pub uninterp spec fn directory_url_of(path: Seq<char>, parts: Option<UrlParts>) -> bool;

/// The parts of a URL, where there is one.
pub open spec fn parts_of(u: Option<TableUrl>) -> Option<UrlParts> {
    match u {
        Some(x) => Some(x.parts()),
        None => None,
    }
}

/// `url::Url::from_directory_path` on an absolute path: the URL of a local directory.
/// There is none for a path that the platform does not take for absolute. Which host and
/// path the URL of a path has is not spelled out: it depends on the platform. Its text
/// starts with `file://`, and reads as the URL if that is a plain one whose path nowhere
/// steps up to a parent.
#[verifier::external_body]
fn directory_url(path: &str) -> (r: Option<TableUrl>)
    ensures
        r matches Some(u) ==> is_directory_url(u),
        r matches Some(u) ==> tidy(u.parts()),
        r matches Some(u) ==> "file://"@.is_prefix_of(u.href@),
        r matches Some(u) ==> (plain(u.parts()) && !steps_up(u.path@) ==> reads_back(u.parts())),
        directory_url_of(path@, parts_of(r)),
{
    let u = Url::from_directory_path(path).ok()?;
    Some(TableUrl {
        href: u.as_str().to_string(),
        scheme: u.scheme().to_string(),
        username: u.username().to_string(),
        host: u.host_str().map(str::to_string),
        port: u.port(),
        path: u.path().to_string(),
    })
}

impl TableUrl {
    /// Parses a URL.
    pub fn parse(s: &str) -> (r: Result<TableUrl, String>)
        ensures
            parsed_parts(r) == url_parse(s@),
            r matches Ok(u) ==> tidy(u.parts()),
    {
        parse(s)
    }

    /// The URL that a reference is when it is joined to this one. A URL whose text reads as
    /// itself and whose path ends in a slash, as that of every normal form does, has
    /// `_delta_log/` appended to its path.
    pub fn join(&self, reference: &str) -> (r: Result<TableUrl, String>)
        ensures
            parsed_parts(r) == url_join(self.href@, reference@),
            reference@ == "_delta_log/"@ && names_a_store(self.href@) && reads_back(self.parts())
                && "/"@.is_suffix_of(self.path@) ==> (r matches Ok(u) && u.path@ == self.path@
                + reference@ && same_place(self.parts(), u.parts())),
    {
        parse_and_join(self.href.as_str(), reference)
    }

    /// The whole URL.
    pub fn as_str(&self) -> (s: &str)
        ensures
            s@ == self.href@,
    {
        self.href.as_str()
    }

    /// The path.
    pub fn path(&self) -> (s: &str)
        ensures
            s@ == self.path@,
    {
        self.path.as_str()
    }
}

/// The text starts with a scheme that a table may be stored under, and `://`.
pub open spec fn names_a_store(s: Seq<char>) -> bool {
    ||| "s3://"@.is_prefix_of(s)
    ||| "s3a://"@.is_prefix_of(s)
    ||| "az://"@.is_prefix_of(s)
    ||| "azure://"@.is_prefix_of(s)
    ||| "abfs://"@.is_prefix_of(s)
    ||| "abfss://"@.is_prefix_of(s)
    ||| "file://"@.is_prefix_of(s)
}

/// Whether a table's location is a URL of a store, not a bare path.
pub fn is_store_url(s: &str) -> (r: bool)
    ensures
        r == names_a_store(s@),
{
    starts_with(s, "s3://") || starts_with(s, "s3a://") || starts_with(s, "az://") || starts_with(
        s,
        "azure://",
    ) || starts_with(s, "abfs://") || starts_with(s, "abfss://") || starts_with(s, "file://")
}

/// Why a table's location has no normal form.
#[derive(Debug)]
pub enum LocationError {
    /// The URL does not parse.
    InvalidUrl { url: String, reason: String },
    /// The location is a bare path: it has to be made absolute first.
    BarePath { path: String },
    /// The absolute path is no directory URL.
    PathToUrl { path: String },
}

/// The URL's parts where its path ends in a slash, else with a slash added to
/// the path.
pub open spec fn slash_ended(s: Seq<char>) -> Result<UrlParts, Seq<char>> {
    match url_parse(s) {
        Ok(p) => if "/"@.is_suffix_of(p.5) {
            Ok(p)
        } else {
            Ok(url_set_path(s, p.5 + "/"@))
        },
        Err(e) => Err(e),
    }
}

/// A path with a slash added, where it ends in none.
pub open spec fn with_slash(path: Seq<char>) -> Seq<char> {
    if "/"@.is_suffix_of(path) {
        path
    } else {
        path + "/"@
    }
}

/// The normal form of a table's location: a URL whose path ends in a slash, so
/// that joining `_delta_log/` appends to the path and does not replace its last
/// part. Of a plain URL the path is otherwise kept, and its normal form is its own
/// normal form. A bare path is refused: the caller makes it absolute and turns it
/// into a URL with [`normalize_directory`].
pub fn normalize_url(url_str: &str) -> (r: Result<TableUrl, LocationError>)
    ensures
        match r {
            Ok(u) => names_a_store(url_str@) && tidy(u.parts()) && (slash_ended(url_str@) matches Ok(p) && p
                == u.parts()) && "/"@.is_suffix_of(u.path@) && (url_parse(url_str@) matches Ok(p)
                && same_place(p, u.parts()) && names_a_store(u.href@) && (plain(p) ==> u.path@
                == with_slash(p.5) && reads_back(u.parts()) && slash_ended(u.href@) == Ok::<
                UrlParts,
                Seq<char>,
            >(u.parts()))),
            Err(LocationError::BarePath { path }) => !names_a_store(url_str@) && path@ == url_str@,
            Err(LocationError::InvalidUrl { url, reason }) => names_a_store(url_str@)
                && (url_parse(url_str@) matches Err(e) && e == reason@) && url@ == url_str@,
            Err(LocationError::PathToUrl { .. }) => false,
        },
{
    if !is_store_url(url_str) {
        return Err(LocationError::BarePath { path: url_str.to_owned() });
    }
    match parse(url_str) {
        Err(reason) => Err(LocationError::InvalidUrl { url: url_str.to_owned(), reason }),
        Ok(u) => ensure_trailing_slash(url_str, u),
    }
}

proof fn lemma_slash_keeps_plain(p: UrlParts, path: Seq<char>)
    requires
        plain(p),
        path == p.5 + "/"@,
    ensures
        p.1 == "file"@ ==> !path.contains(':') && !path.contains('|'),
{
    reveal_strlit("/");
    if path.contains(':') {
        let i = choose|i: int| 0 <= i < path.len() && path[i] == ':';
        assert(p.5[i] == ':');
    }
    if path.contains('|') {
        let i = choose|i: int| 0 <= i < path.len() && path[i] == '|';
        assert(p.5[i] == '|');
    }
}

/// Adds a slash to the path of the URL that a text parses as, where it ends in
/// none.
fn ensure_trailing_slash(url_str: &str, u: TableUrl) -> (r: Result<TableUrl, LocationError>)
    requires
        names_a_store(url_str@),
        url_parse(url_str@) matches Ok(p) && p == u.parts(),
        names_a_store(u.href@),
        rooted(u.path@),
        plain(u.parts()) ==> reads_back(u.parts()),
    ensures
        r matches Ok(x) && (slash_ended(url_str@) matches Ok(p) && p == x.parts())
            && "/"@.is_suffix_of(x.path@) && same_place(u.parts(), x.parts()) && names_a_store(
            x.href@,
        ) && (plain(u.parts()) ==> x.path@ == with_slash(u.path@) && reads_back(x.parts())),
{
    if ends_with(u.path.as_str(), "/") {
        return Ok(u);
    }
    let path: String = concat2(u.path.as_str(), "/");
    proof {
        reveal_strlit("/");
        assert("/"@ =~= path@.subrange(path@.len() - "/"@.len(), path@.len() as int));
        assert(path@[0] == '/');
        if plain(u.parts()) {
            lemma_slash_keeps_plain(u.parts(), path@);
        }
    }
    match parse_with_path(url_str, path.as_str()) {
        Ok(x) => Ok(x),
        Err(reason) => Err(LocationError::InvalidUrl { url: url_str.to_owned(), reason }),
    }
}

/// The URL of a table at an absolute path.
pub fn normalize_directory(abs_path: &str) -> (r: Result<TableUrl, LocationError>)
    ensures
        match r {
            Ok(u) => is_directory_url(u) && tidy(u.parts()) && directory_url_of(
                abs_path@,
                Some(u.parts()),
            )
                && names_a_store(u.href@) && (plain(u.parts()) && !steps_up(u.path@) ==> reads_back(
                u.parts(),
            ) && slash_ended(u.href@) == Ok::<UrlParts, Seq<char>>(u.parts())),
            Err(e) => (e matches LocationError::PathToUrl { path } && path@ == abs_path@)
                && directory_url_of(abs_path@, None),
        },
{
    match directory_url(abs_path) {
        Some(u) => Ok(u),
        None => Err(LocationError::PathToUrl { path: abs_path.to_owned() }),
    }
}

/// A text that starts with the scheme of any store that a table can have is one of a store,
/// and no other text is.
pub proof fn every_store_scheme_names_a_store(s: Seq<char>)
    ensures
        "s3://"@.is_prefix_of(s) ==> names_a_store(s),
        "s3a://"@.is_prefix_of(s) ==> names_a_store(s),
        "az://"@.is_prefix_of(s) ==> names_a_store(s),
        "azure://"@.is_prefix_of(s) ==> names_a_store(s),
        "abfs://"@.is_prefix_of(s) ==> names_a_store(s),
        "abfss://"@.is_prefix_of(s) ==> names_a_store(s),
        "file://"@.is_prefix_of(s) ==> names_a_store(s),
        names_a_store(s) ==> "s3://"@.is_prefix_of(s) || "s3a://"@.is_prefix_of(s)
            || "az://"@.is_prefix_of(s) || "azure://"@.is_prefix_of(s) || "abfs://"@.is_prefix_of(s)
            || "abfss://"@.is_prefix_of(s) || "file://"@.is_prefix_of(s),
        names_a_store(s) ==> s.contains(':') && s.contains('/'),
        s.len() > 0 && s[0] == '/' ==> !names_a_store(s),
{
    reveal_strlit("s3://");
    reveal_strlit("s3a://");
    reveal_strlit("az://");
    reveal_strlit("azure://");
    reveal_strlit("abfs://");
    reveal_strlit("abfss://");
    reveal_strlit("file://");
    if names_a_store(s) {
        let p = if "s3://"@.is_prefix_of(s) {
            "s3://"@
        } else if "s3a://"@.is_prefix_of(s) {
            "s3a://"@
        } else if "az://"@.is_prefix_of(s) {
            "az://"@
        } else if "azure://"@.is_prefix_of(s) {
            "azure://"@
        } else if "abfs://"@.is_prefix_of(s) {
            "abfs://"@
        } else if "abfss://"@.is_prefix_of(s) {
            "abfss://"@
        } else {
            "file://"@
        };
        let n = p.len() as int;
        assert(p[n - 1] == '/' && p[n - 3] == ':' && p[0] != '/');
        assert(s[n - 1] == p[n - 1] && s[n - 3] == p[n - 3] && s[0] == p[0]);
    }
}

/// A normal form ends in a slash, and has the path of the URL before it.
pub proof fn a_slash_is_added_where_there_is_none(path: Seq<char>)
    ensures
        "/"@.is_suffix_of(with_slash(path)),
        path.is_prefix_of(with_slash(path)),
        path.len() > 0 && path.last() == '/' ==> with_slash(path) == path,
        !(path.len() > 0 && path.last() == '/') ==> with_slash(path).len() == path.len() + 1,
{
    reveal_strlit("/");
    let w = with_slash(path);
    if path.len() > 0 && path.last() == '/' {
        assert(path.subrange(path.len() - 1, path.len() as int) =~= "/"@);
    }
    if "/"@.is_suffix_of(path) {
        assert(path.subrange(path.len() - 1, path.len() as int)[0] == path.last());
        assert(w.subrange(0, path.len() as int) =~= path);
    } else {
        assert(w.subrange(w.len() - 1, w.len() as int) =~= "/"@);
        assert(w.subrange(0, path.len() as int) =~= path);
    }
}

} // verus!
