//! Content extraction: reducing a fetched HTML document to its
//! readable article text, through the readability crate.
//!
//! Extraction is CPU-bound and pure, so the caller may run it on a
//! blocking-task executor; it holds no shared state.

use vstd::prelude::*;

verus! {

/// What extraction yields for an HTML document fetched at `url`: the
/// cleaned article content that readability computes, or nothing when
/// the step fails (the parser accepts any bytes read from memory, so
/// failure comes from the URL string).  A function of the two
/// arguments alone.
pub uninterp spec fn extracted_of(html: Seq<u8>, url: Seq<char>) -> Option<Seq<u8>>;

/// Relies on readability::extractor::extract for the cleaned article
/// content, and on url::Url::parse to form the base URL argument that
/// link cleanup resolves against.  The outcome — success and the
/// extracted bytes alike — depends on the document bytes and the URL
/// string alone.
#[verifier::external_body]
fn extract_readable(html: &[u8], url: &str) -> (r: Option<Vec<u8>>)
    ensures
        match r {
            Some(t) => extracted_of(html@, url@) == Some(t@),
            None => extracted_of(html@, url@) is None,
        },
{
    let base = match url::Url::parse(url) {
        Ok(u) => u,
        Err(_) => return None,
    };
    let mut input: &[u8] = html;
    match readability::extractor::extract(&mut input, &base) {
        Ok(product) => Some(product.content.into_bytes()),
        Err(_) => None,
    }
}

/// Extracts the readable article text of an HTML page fetched at
/// `url`: exactly the extraction outcome for these inputs, article
/// text or failure.
pub fn extract_content(html: &[u8], url: &str) -> (r: Option<Vec<u8>>)
    ensures
        match r {
            Some(t) => extracted_of(html@, url@) == Some(t@),
            None => extracted_of(html@, url@) is None,
        },
{
    extract_readable(html, url)
}

} // verus!
