use nami::locator::{parse_url, UrlError};

#[test]
fn http_url_with_default_port() {
    let r = parse_url("http://info.cern.ch/hypertext/WWW/TheProject.html").unwrap();
    assert_eq!(r.0, "http");
    assert_eq!(r.1, "info.cern.ch");
    assert_eq!(r.2, 80);
    assert_eq!(r.3, "/hypertext/WWW/TheProject.html");
}

#[test]
fn explicit_port_wins() {
    let r = parse_url("https://example.com:8443").unwrap();
    assert_eq!(r, ("https".to_string(), "example.com".to_string(), 8443, "/".to_string()));
}

#[test]
fn url_without_host() {
    assert!(matches!(parse_url("mailto:someone@example.com"), Err(UrlError::MissingHost)));
}

#[test]
fn unknown_scheme_without_port() {
    assert!(matches!(parse_url("gopher2://host/x"), Err(UrlError::MissingPort)));
}

#[test]
fn invalid_url() {
    assert!(matches!(parse_url("not a url"), Err(UrlError::Invalid(_))));
}
