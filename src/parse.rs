//! Finding a website's main page and the stylesheets that it links.
use vstd::prelude::*;
use crate::document::{get_elements, Document};
use crate::node::{attr_value, str_eq, Node};
use crate::result::{Error, ErrorKind};
use std::path::PathBuf;

verus! {

/// An HTML file of a website.
pub struct HtmlFile(pub PathBuf);

/// A stylesheet path, as written in a link element.
#[derive(Clone, Debug)]
pub struct CssFile(pub String);

/// Picks the main page of a website among its HTML files: none when there is
/// none, the file when there is one, an error when there are several.
pub fn select_main_html(website: PathBuf, mut found: Vec<HtmlFile>) -> (r: Result<Option<HtmlFile>, Error>)
    ensures
        found@.len() == 0 ==> r matches Ok(None),
        found@.len() == 1 ==> r == Ok::<Option<HtmlFile>, Error>(Some(found@[0])),
        found@.len() > 1 ==> (r matches Err(e) && e.path == Some(website) && e.error == ErrorKind::MultipleHtmlFiles(found)),
{
    let n = found.len();
    if n == 0 {
        Ok(None)
    } else if n == 1 {
        let h = found.pop().unwrap();
        Ok(Some(h))
    } else {
        Err(Error { path: Some(website), error: ErrorKind::MultipleHtmlFiles(found) })
    }
}

pub open spec fn link_key() -> Seq<char> {
    seq!['l', 'i', 'n', 'k']
}

pub open spec fn rel_key() -> Seq<char> {
    seq!['r', 'e', 'l']
}

pub open spec fn href_key() -> Seq<char> {
    seq!['h', 'r', 'e', 'f']
}

pub open spec fn stylesheet_value() -> Seq<char> {
    seq!['s', 't', 'y', 'l', 'e', 's', 'h', 'e', 'e', 't']
}

/// The stylesheet path that node `i` links, if it is a `link` element with
/// `rel="stylesheet"` and an `href`.
pub open spec fn stylesheet_of(doc: &Document, i: int) -> Option<Seq<char>> {
    match doc.nodes@[i] {
        Node::Element(e) => if e.name@ == link_key() && attr_value(e.attrs@, rel_key()) == Some(
            stylesheet_value(),
        ) {
            attr_value(e.attrs@, href_key())
        } else {
            None
        },
        _ => None,
    }
}

/// The stylesheet paths that the given nodes link, in order.
pub open spec fn stylesheets_among(doc: &Document, nodes: Seq<usize>) -> Seq<Seq<char>>
    decreases nodes.len(),
{
    if nodes.len() == 0 {
        Seq::empty()
    } else {
        let rest = stylesheets_among(doc, nodes.drop_last());
        match stylesheet_of(doc, nodes.last() as int) {
            Some(p) => rest.push(p),
            None => rest,
        }
    }
}

/// Returns the stylesheet path that node `i` links, if any.
fn stylesheet_at(document: &Document, i: usize) -> (r: Option<String>)
    requires
        i < document.nodes@.len(),
    ensures
        match r {
            Some(p) => stylesheet_of(document, i as int) == Some(p@),
            None => stylesheet_of(document, i as int) is None,
        },
{
    let link = "link";
    let rel = "rel";
    let href = "href";
    let stylesheet = "stylesheet";
    proof {
        reveal_strlit("link");
        reveal_strlit("rel");
        reveal_strlit("href");
        reveal_strlit("stylesheet");
        assert(link@ =~= link_key());
        assert(rel@ =~= rel_key());
        assert(href@ =~= href_key());
        assert(stylesheet@ =~= stylesheet_value());
    }
    match &document.nodes[i] {
        Node::Element(e) => {
            if !str_eq(e.name.as_str(), link) {
                return None;
            }
            let is_sheet = match e.attr(rel) {
                Some(r) => str_eq(r, stylesheet),
                None => false,
            };
            if !is_sheet {
                return None;
            }
            match e.attr(href) {
                Some(h) => Some(h.to_string()),
                None => None,
            }
        },
        _ => None,
    }
}

/// Returns the paths of the stylesheets that the document links, in document
/// order.
pub fn get_stylesheet_paths(document: &Document) -> (r: Vec<CssFile>)
    requires
        document.wf(),
    ensures
        r@.map_values(|c: CssFile| c.0@) == stylesheets_among(document, document.elements_in(document.subtree(0))),
{
    let elements = get_elements(document);
    let mut out: Vec<CssFile> = Vec::new();
    let mut k: usize = 0;
    while k < elements.len()
        invariant
            k <= elements@.len(),
            elements@ == document.elements_in(document.subtree(0)),
            forall|j: int| 0 <= j < elements@.len() ==> (#[trigger] elements@[j]) < document.nodes@.len(),
            out@.map_values(|c: CssFile| c.0@) == stylesheets_among(document, elements@.take(k as int)),
        decreases elements@.len() - k,
    {
        let i = elements[k];
        proof {
            assert(elements@.take(k + 1).drop_last() =~= elements@.take(k as int));
            assert(elements@.take(k + 1).last() == i);
        }
        let ghost before = out@;
        match stylesheet_at(document, i) {
            Some(p) => {
                out.push(CssFile(p));
                proof {
                    assert(out@.map_values(|c: CssFile| c.0@) =~= before.map_values(|c: CssFile| c.0@).push(p@));
                }
            },
            None => {},
        }
        k = k + 1;
    }
    proof {
        assert(elements@.take(k as int) =~= elements@);
    }
    out
}

} // verus!
