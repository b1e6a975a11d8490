use polymath::extract::extract_content;

const PAGE: &str = "<html><head><title>A page</title></head><body>\
<div id=\"nav\"><a href=\"/\">home</a></div>\
<article><p>Alpha beta gamma delta epsilon zeta eta theta iota kappa \
lambda mu nu xi omicron pi rho sigma tau upsilon phi chi psi omega. \
This paragraph carries the readable body of the page, long enough for \
the extractor to score it as the main content.</p></article>\
</body></html>";

#[test]
fn extract_content_returns_cleaned_article_text() {
    let out = extract_content(PAGE.as_bytes(), "http://example.com/a");
    let text = out.expect("extraction should succeed on a plain article");
    // The extractor cleans the page rather than handing it back.
    assert_ne!(text, PAGE.as_bytes().to_vec());
    let s = String::from_utf8(text).unwrap();
    assert!(s.contains("Alpha beta gamma"));
    assert!(!s.contains("<html>"));
}

#[test]
fn extract_content_rejects_an_unparseable_url() {
    assert!(extract_content(PAGE.as_bytes(), "not a url").is_none());
}

#[test]
fn extract_content_is_deterministic() {
    let a = extract_content(PAGE.as_bytes(), "http://example.com/a");
    let b = extract_content(PAGE.as_bytes(), "http://example.com/a");
    assert_eq!(a, b);
}
