//! The HTML queries the link extraction needs, answered by `scraper`.
//!
//! An element is handed back as plain values: the value of one attribute
//! and the concatenated text below it.

use vstd::prelude::*;

verus! {

/// What a selector query reads of one matched element.
pub struct ElementData {
    /// The value of the requested attribute, when the element has it.
    pub attr: Option<String>,
    /// The element's text: its descendant text nodes, concatenated.
    pub text: String,
}

/// The plain value of an `ElementData`.
pub open spec fn element_view(e: ElementData) -> (Option<Seq<char>>, Seq<char>) {
    (
        match e.attr {
            Some(a) => Some(a@),
            None => None,
        },
        e.text@,
    )
}

/// The plain values of a list of `ElementData`.
pub open spec fn elements_view(v: Seq<ElementData>) -> Seq<(Option<Seq<char>>, Seq<char>)> {
    v.map_values(|e: ElementData| element_view(e))
}

/// The plain values of a list of lists of `ElementData`.
pub open spec fn groups_view(v: Seq<Vec<ElementData>>) -> Seq<Seq<(Option<Seq<char>>, Seq<char>)>> {
    v.map_values(|g: Vec<ElementData>| elements_view(g@))
}

/// The message `scraper::Selector::parse` fails with on `selector`, or
/// `None` when the selector parses.
pub uninterp spec fn selector_error(selector: Seq<char>) -> Option<Seq<char>>;

/// `scraper::Selector::parse`, its error shown as text. Trusted: whether a
/// selector parses, and its message, depend on the selector text alone.
#[verifier::external_body]
pub(crate) fn check_selector(selector: &str) -> (r: Option<String>)
    ensures
        match r {
            Some(e) => selector_error(selector@) == Some(e@),
            None => selector_error(selector@).is_none(),
        },
{
    scraper::Selector::parse(selector).err().map(|e| e.to_string())
}

/// The elements of the parsed document `html` that match `selector`, in
/// document order, each with its attribute `attr` and its text.
pub uninterp spec fn document_matches(html: Seq<char>, selector: Seq<char>, attr: Seq<char>) -> Seq<(Option<Seq<char>>, Seq<char>)>;

/// `scraper::Html::select` over `Html::parse_document(html)`. Trusted: the
/// result is `document_matches` of the three texts; what HTML parsing and
/// selector matching compute is not restated.
#[verifier::external_body]
pub(crate) fn select_in_document(html: &str, selector: &str, attr: &str) -> (r: Vec<ElementData>)
    requires
        selector_error(selector@).is_none(),
    ensures
        elements_view(r@) == document_matches(html@, selector@, attr@),
{
    let doc = scraper::Html::parse_document(html);
    match scraper::Selector::parse(selector) {
        Ok(sel) => doc.select(&sel).map(|el| ElementData {
            attr: el.value().attr(attr).map(|a| a.to_string()),
            text: el.text().collect(),
        }).collect(),
        Err(_) => Vec::new(),
    }
}

/// For each element of the parsed document `html` that matches `outer`, in
/// document order, the elements below it that match `inner`, in document
/// order, each with its attribute `attr` and its text.
pub uninterp spec fn nested_matches(html: Seq<char>, outer: Seq<char>, inner: Seq<char>, attr: Seq<char>) -> Seq<Seq<(Option<Seq<char>>, Seq<char>)>>;

/// `scraper::ElementRef::select` within each match of `outer`. Trusted: the
/// result is `nested_matches` of the four texts; what HTML parsing and
/// selector matching compute is not restated.
#[verifier::external_body]
pub(crate) fn select_in_matches(html: &str, outer: &str, inner: &str, attr: &str) -> (r: Vec<Vec<ElementData>>)
    requires
        selector_error(outer@).is_none(),
        selector_error(inner@).is_none(),
    ensures
        groups_view(r@) == nested_matches(html@, outer@, inner@, attr@),
{
    let doc = scraper::Html::parse_document(html);
    match (scraper::Selector::parse(outer), scraper::Selector::parse(inner)) {
        (Ok(o), Ok(i)) => doc.select(&o).map(|m| m.select(&i).map(|el| ElementData {
            attr: el.value().attr(attr).map(|a| a.to_string()),
            text: el.text().collect(),
        }).collect()).collect(),
        _ => Vec::new(),
    }
}

} // verus!
