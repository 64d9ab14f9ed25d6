//! Resolving URLs against the URL of the document or sheet they appear in.
use vstd::prelude::*;
use crate::dom::model::Document;
use url::ParseError;

verus! {

/// The kinds of `url::ParseError`, one for each of its variants in the
/// version built here; `Other` stands for a variant that a later version
/// may add (the outside enum is `non_exhaustive`).
#[derive(Debug, Clone, Copy, PartialEq, Eq, Structural)]
pub enum UrlParseError {
    EmptyHost,
    IdnaError,
    InvalidPort,
    InvalidIpv4Address,
    InvalidIpv6Address,
    InvalidDomainCharacter,
    RelativeUrlWithoutBase,
    RelativeUrlWithCannotBeABaseBase,
    SetHostOnCannotBeABaseUrl,
    Overflow,
    Other,
}

/// The serialization of `url::Url::parse(base)` joined with `href` by
/// `Url::join`, or the kind of the `url::ParseError` that the parse or the
/// join gives. It depends on the two texts alone.
pub uninterp spec fn joined(base: Seq<char>, href: Seq<char>) -> Result<Seq<char>, UrlParseError>;

/// `url::Url::parse` of `base`, then `Url::join` of `href`, serialized; an
/// error is turned into its kind, one arm for each variant. The contract
/// names the result and states nothing of the URL standard that the crate
/// implements.
#[verifier::external_body]
pub(crate) fn join_url(base: &str, href: &str) -> (r: Result<String, UrlParseError>)
    ensures
        match r {
            Ok(u) => joined(base@, href@) == Ok::<Seq<char>, UrlParseError>(u@),
            Err(e) => joined(base@, href@) == Err::<Seq<char>, UrlParseError>(e),
        },
{
    match url::Url::parse(base).and_then(|b| b.join(href)) {
        Ok(u) => Ok(u.as_str().to_owned()),
        Err(ParseError::EmptyHost) => Err(UrlParseError::EmptyHost),
        Err(ParseError::IdnaError) => Err(UrlParseError::IdnaError),
        Err(ParseError::InvalidPort) => Err(UrlParseError::InvalidPort),
        Err(ParseError::InvalidIpv4Address) => Err(UrlParseError::InvalidIpv4Address),
        Err(ParseError::InvalidIpv6Address) => Err(UrlParseError::InvalidIpv6Address),
        Err(ParseError::InvalidDomainCharacter) => Err(UrlParseError::InvalidDomainCharacter),
        Err(ParseError::RelativeUrlWithoutBase) => Err(UrlParseError::RelativeUrlWithoutBase),
        Err(ParseError::RelativeUrlWithCannotBeABaseBase) => Err(UrlParseError::RelativeUrlWithCannotBeABaseBase),
        Err(ParseError::SetHostOnCannotBeABaseUrl) => Err(UrlParseError::SetHostOnCannotBeABaseUrl),
        Err(ParseError::Overflow) => Err(UrlParseError::Overflow),
        Err(_) => Err(UrlParseError::Other),
    }
}

/// The URL that `href` names in a document: resolved against the
/// document's URL; the error is the kind of parse error that resolving
/// gives.
pub fn calculate_url_from_doc(doc: &Document, href: &str) -> (r: Result<String, UrlParseError>)
    ensures
        match r {
            Ok(u) => joined(doc.base_url@, href@) == Ok::<Seq<char>, UrlParseError>(u@),
            Err(e) => joined(doc.base_url@, href@) == Err::<Seq<char>, UrlParseError>(e),
        },
{
    join_url(doc.base_url.as_str(), href)
}

/// The scheme and the path of `url::Url::parse(url)`, when it parses. It
/// depends on the text alone.
pub uninterp spec fn url_scheme_and_path(url: Seq<char>) -> Option<(Seq<char>, Seq<char>)>;

/// `url::Url::parse`, then `Url::scheme` and `Url::path` of the result. The
/// contract names the result and states nothing of the URL standard.
#[verifier::external_body]
pub(crate) fn scheme_and_path(url: &str) -> (r: Option<(String, String)>)
    ensures
        match r {
            Some((s, p)) => url_scheme_and_path(url@) == Some((s@, p@)),
            None => url_scheme_and_path(url@) is None,
        },
{
    url::Url::parse(url).ok().map(|u| (u.scheme().to_owned(), u.path().to_owned()))
}

/// Where an image is read from: a path on disk, or a URL to fetch.
#[derive(Debug, PartialEq, Eq)]
pub enum ImageSource {
    File(String),
    Net(String),
}

/// Why no image source was found for a reference.
#[derive(Debug, PartialEq, Eq)]
pub enum ImageSourceError {
    /// The reference does not resolve against the document's URL.
    Unresolved(UrlParseError),
    /// The resolved URL does not parse again.
    Unparsable(String),
}

/// The source of a resolved URL with the given scheme and path: the path on
/// disk for a `file` URL, else the URL itself.
pub fn image_source_from(url: String, scheme: &str, path: String) -> (r: ImageSource)
    ensures
        scheme@ == "file"@ ==> r == ImageSource::File(path),
        scheme@ != "file"@ ==> r == ImageSource::Net(url),
{
    if scheme.to_owned() == "file".to_owned() {
        ImageSource::File(path)
    } else {
        ImageSource::Net(url)
    }
}

/// Where the image that `href` names in a document is read from: the
/// reference is resolved against the document's URL, and a `file` URL is
/// read from its path, any other URL fetched.
pub fn image_source(doc: &Document, href: &str) -> (r: Result<ImageSource, ImageSourceError>)
    ensures
        match joined(doc.base_url@, href@) {
            Err(e) => r == Err::<ImageSource, ImageSourceError>(ImageSourceError::Unresolved(e)),
            Ok(u) => match url_scheme_and_path(u) {
                None => r matches Err(ImageSourceError::Unparsable(t)) && t@ == u,
                Some((sc, pa)) => if sc == "file"@ {
                    r matches Ok(ImageSource::File(p)) && p@ == pa
                } else {
                    r matches Ok(ImageSource::Net(t)) && t@ == u
                },
            },
        },
{
    match calculate_url_from_doc(doc, href) {
        Err(e) => Err(ImageSourceError::Unresolved(e)),
        Ok(u) => match scheme_and_path(u.as_str()) {
            None => Err(ImageSourceError::Unparsable(u)),
            Some((sc, pa)) => Ok(image_source_from(u, sc.as_str(), pa)),
        },
    }
}

} // verus!
