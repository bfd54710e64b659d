use vstd::prelude::*;

verus! {

#[verifier::external_type_specification]
#[verifier::external_body]
pub struct ExParseError(url::ParseError);

/// Scheme, host, port and path of a URL, each as the URL parser reports it.
pub uninterp spec fn url_parts(input: Seq<char>) -> Option<(Seq<char>, Option<Seq<char>>, Option<u16>, Seq<char>)>;

/// The pieces of a parsed URL; `port` is the explicit port or the scheme's default.
pub struct UrlParts {
    pub scheme: String,
    pub host: Option<String>,
    pub port: Option<u16>,
    pub path: String,
}

impl View for UrlParts {
    type V = (Seq<char>, Option<Seq<char>>, Option<u16>, Seq<char>);

    open spec fn view(&self) -> Self::V {
        (
            self.scheme@,
            match self.host {
                Some(h) => Some(h@),
                None => None,
            },
            self.port,
            self.path@,
        )
    }
}

#[derive(Debug)]
/// Why a URL could not be split into scheme, host, port and path.
pub enum UrlError {
    /// The URL parser rejected the input.
    Invalid(url::ParseError),
    /// The URL has no host (as in `mailto:` URLs).
    MissingHost,
    /// The URL has no explicit port and its scheme has no known default.
    MissingPort,
}

/// Relies on `url::Url::parse`, whose result is read back through `Url::scheme`,
/// `Url::host_str`, `Url::port_or_known_default` and `Url::path`: a function of the input alone.
#[verifier::external_body]
fn split_url(input: &str) -> (r: Result<UrlParts, url::ParseError>)
    ensures
        r is Ok <==> url_parts(input@) is Some,
        r is Ok ==> url_parts(input@) == Some(r->Ok_0@),
{
    match url::Url::parse(input) {
        Ok(u) => Ok(UrlParts {
            scheme: u.scheme().to_string(),
            host: u.host_str().map(|h| h.to_string()),
            port: u.port_or_known_default(),
            path: u.path().to_string(),
        }),
        Err(e) => Err(e),
    }
}

/// Scheme, host, port and path of `parts`, or which of host and port is missing.
pub fn url_fields(parts: UrlParts) -> (r: Result<(String, String, u16, String), UrlError>)
    ensures
        parts.host is None ==> r matches Err(UrlError::MissingHost),
        parts.host is Some && parts.port is None ==> r matches Err(UrlError::MissingPort),
        parts.host is Some && parts.port is Some ==> r is Ok && r->Ok_0.0@ == parts.scheme@
            && r->Ok_0.1@ == parts.host->Some_0@ && r->Ok_0.2 == parts.port->Some_0
            && r->Ok_0.3@ == parts.path@,
{
    match parts.host {
        None => Err(UrlError::MissingHost),
        Some(host) => match parts.port {
            None => Err(UrlError::MissingPort),
            Some(port) => Ok((parts.scheme, host, port, parts.path)),
        },
    }
}

/// Splits `input` into scheme, host, port (explicit or the scheme's default) and path.
pub fn parse_url(input: &str) -> (r: Result<(String, String, u16, String), UrlError>)
    ensures
        url_parts(input@) is None ==> r matches Err(UrlError::Invalid(_)),
        url_parts(input@) matches Some((_, None, _, _)) ==> r matches Err(UrlError::MissingHost),
        url_parts(input@) matches Some((_, Some(_), None, _)) ==> r matches Err(UrlError::MissingPort),
        url_parts(input@) matches Some((s, Some(h), Some(p), q)) ==> r is Ok && r->Ok_0.0@ == s
            && r->Ok_0.1@ == h && r->Ok_0.2 == p && r->Ok_0.3@ == q,
{
    match split_url(input) {
        Err(e) => Err(UrlError::Invalid(e)),
        Ok(parts) => url_fields(parts),
    }
}

} // verus!
