use crate::cleaner::{links_resolved, prune_subtree, resolve_links, subtree_pruned};
use crate::dom::{append_text, text_of, Dom, NodeView};
use crate::error::Error;
use crate::preprocess::{find_title, preprocess, preprocessed, title_of};
use crate::scorer::{select_top, top_candidate};
use vstd::prelude::*;

verus! {

/// What extraction hands out: the title, the main content as HTML and the
/// same content as plain text.
#[derive(Debug)]
pub struct Product {
    pub title: String,
    pub content: String,
    pub text: String,
}

/// The outcome of the extraction pipeline on a document: the cleaned
/// document, the node that holds the main content, the title and the plain
/// text of the content.
#[derive(Debug)]
pub struct Extraction {
    pub dom: Dom,
    pub top: usize,
    pub title: String,
    pub text: String,
}

/// The node that holds the main content of `nodes`, found after
/// preprocessing.
pub open spec fn main_node(nodes: Seq<NodeView>) -> usize {
    top_candidate(preprocessed(nodes)).0
}

/// The document after preprocessing and cleaning of the main node's subtree
/// against `base`.
pub open spec fn cleaned(nodes: Seq<NodeView>, base: Seq<char>) -> Seq<NodeView> {
    let pre = preprocessed(nodes);
    let top = main_node(nodes) as int;
    subtree_pruned(links_resolved(pre, top, base), top)
}

/// Runs the extraction pipeline on a parsed document: strips content-free
/// nodes, takes the title, picks the main node by link-adjusted score,
/// cleans its subtree with references resolved against `base`, and renders
/// it as plain text. It succeeds on every well-formed document; with no
/// scored node the root is the main node.
pub fn extract_document(dom: Dom, base: &str) -> (r: Extraction)
    requires
        dom.wf(),
    ensures
        r.dom.wf(),
        r.top < r.dom@.len(),
        r.top == main_node(dom@),
        r.title@ == title_of(preprocessed(dom@)),
        r.dom@ == cleaned(dom@, base@),
        r.text@ == text_of(cleaned(dom@, base@), r.top as int),
{
    let mut dom = dom;
    preprocess(&mut dom);
    let title = find_title(&dom);
    let (top, _score) = select_top(&dom);
    resolve_links(&mut dom, top, base);
    prune_subtree(&mut dom, top);
    let mut text = String::new();
    append_text(&dom, top, &mut text);
    assert(Seq::<char>::empty() + text_of(dom@, top as int) =~= text_of(dom@, top as int));
    Extraction { dom, top, title, text }
}

/// Extraction is reproducible: documents with the same content and the same
/// base URL give the same main node, title, cleaned document and plain
/// text, whatever values hold that content.
pub proof fn lemma_extraction_reproducible(a: Seq<NodeView>, b: Seq<NodeView>, base: Seq<char>)
    requires
        a =~= b,
    ensures
        main_node(a) == main_node(b),
        title_of(preprocessed(a)) == title_of(preprocessed(b)),
        cleaned(a, base) == cleaned(b, base),
        text_of(cleaned(a, base), main_node(a) as int) == text_of(
            cleaned(b, base),
            main_node(b) as int,
        ),
{
}

/// Whether an HTTP status is a success (2xx).
pub open spec fn success(status: u16) -> bool {
    200 <= status < 300
}

/// Decides on a fetched response: a success status lets extraction go on,
/// any other status is `Error::Unexpected`.
pub fn check_status(status: u16) -> (r: Result<(), Error>)
    ensures
        r is Ok <==> success(status),
        r is Err ==> r->Err_0 is Unexpected,
{
    if 200 <= status && status < 300 {
        Ok(())
    } else {
        Err(Error::Unexpected)
    }
}

} // verus!
