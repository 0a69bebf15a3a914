use vstd::prelude::*;

verus! {

/// The `href` attribute values of the anchor (`<a>`) elements of an HTML
/// document, in document order. Parsing HTML is a function of the document
/// text alone; the result is named here rather than written out.
pub uninterp spec fn hrefs_of(body: Seq<char>) -> Seq<Seq<char>>;

/// Relies on `select::document::Document::from`, which parses an HTML
/// document from a string, `Document::find` with the `Name("a")` predicate,
/// which yields the anchor elements in document order, and `Node::attr`,
/// which looks an attribute up by name. All are functions of the document
/// text alone.
#[verifier::external_body]
pub(crate) fn extract_links(body: &str) -> (r: Vec<String>)
    ensures
        r.deep_view() == hrefs_of(body@),
{
    select::document::Document::from(body)
        .find(select::predicate::Name("a"))
        .filter_map(|n| n.attr("href"))
        .map(|s| s.to_string())
        .collect()
}

} // verus!
