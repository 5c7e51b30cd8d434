use mach_6::document::Document;
use mach_6::node::{Element, Node};
use mach_6::parse::{get_stylesheet_paths, select_main_html, HtmlFile};
use mach_6::result::{Error, ErrorKind, IntoErrorExt, IntoResultExt};
use std::io;
use std::path::PathBuf;

fn el(name: &str, attrs: &[(&str, &str)]) -> Node {
    Node::Element(Element::new(
        name.to_string(),
        attrs.iter().map(|(k, v)| (k.to_string(), v.to_string())).collect(),
    ))
}

fn page(links: &[(&str, &str)]) -> Document {
    let mut doc = Document::new_document();
    let html = doc.append(0, el("html", &[]));
    let head = doc.append(html, el("head", &[]));
    for (rel, href) in links {
        doc.append(head, el("link", &[("rel", rel), ("href", href)]));
    }
    let body = doc.append(html, el("body", &[]));
    doc.append(body, el("h1", &[]));
    doc
}

#[test]
fn gets_stylesheet_paths() {
    let doc = page(&[("stylesheet", "style1.css"), ("stylesheet", "style2.css")]);
    let mut paths: Vec<String> = get_stylesheet_paths(&doc).into_iter().map(|c| c.0).collect();
    paths.sort();
    assert_eq!(paths, vec!["style1.css".to_string(), "style2.css".to_string()]);
}

#[test]
fn excludes_non_stylesheet_paths() {
    let doc = page(&[
        ("stylesheet", "style1.css"),
        ("stylesheet", "style2.css"),
        ("prerender", "boogeyman"),
    ]);
    let mut paths: Vec<String> = get_stylesheet_paths(&doc).into_iter().map(|c| c.0).collect();
    paths.sort();
    assert_eq!(paths, vec!["style1.css".to_string(), "style2.css".to_string()]);
}

#[test]
fn link_without_href_is_skipped() {
    let mut doc = Document::new_document();
    let html = doc.append(0, el("html", &[]));
    doc.append(html, el("link", &[("rel", "stylesheet")]));
    assert!(get_stylesheet_paths(&doc).is_empty());
}

#[test]
fn no_main_html() {
    let r = select_main_html(PathBuf::from("site"), vec![]);
    assert!(matches!(r, Ok(None)));
}

#[test]
fn one_main_html() {
    let r = select_main_html(PathBuf::from("site"), vec![HtmlFile(PathBuf::from("site/index.html"))]);
    match r {
        Ok(Some(HtmlFile(p))) => assert_eq!(p, PathBuf::from("site/index.html")),
        _ => panic!("expected the one html file"),
    }
}

#[test]
fn several_main_html_is_an_error() {
    let files = vec![HtmlFile(PathBuf::from("site/1.html")), HtmlFile(PathBuf::from("site/2.html"))];
    let r = select_main_html(PathBuf::from("site"), files);
    match r {
        Err(e) => {
            assert!(e.is_html_and(|v| v.len() == 2));
            assert!(!e.is_io_and(|_| true));
            assert_eq!(e.path, Some(PathBuf::from("site")));
        }
        _ => panic!("expected an error"),
    }
}

#[test]
fn io_error_is_io() {
    let e = Error::with_io_error(io::Error::new(io::ErrorKind::NotFound, "gone"), None);
    assert!(e.is_io_and(|e| e.kind() == io::ErrorKind::NotFound));
    assert!(!e.is_io_and(|e| e.kind() == io::ErrorKind::NotADirectory));
    assert!(!e.is_html_and(|_| true));
    assert!(matches!(e.error, ErrorKind::Io(_)));
    assert!(e.path.is_none());
}

#[test]
fn io_results_become_library_errors() {
    let e = <io::Error as IntoErrorExt>::into_error(io::Error::new(io::ErrorKind::Other, "x"), Some(PathBuf::from("p")));
    assert!(e.is_io_and(|e| e.kind() == io::ErrorKind::Other));
    assert_eq!(e.path, Some(PathBuf::from("p")));
    let ok: io::Result<u32> = Ok(3);
    assert_eq!(ok.into_result(None).ok(), Some(3));
    let bad: io::Result<u32> = Err(io::Error::new(io::ErrorKind::NotFound, "y"));
    match bad.into_result(Some(PathBuf::from("q"))) {
        Err(e) => {
            assert!(e.is_io_and(|e| e.kind() == io::ErrorKind::NotFound));
            assert_eq!(e.path, Some(PathBuf::from("q")));
        }
        Ok(_) => panic!("expected an error"),
    }
}

#[test]
fn stylesheet_paths_follow_document_order() {
    let mut doc = Document::new_document();
    let html = doc.append(0, el("html", &[]));
    let head = doc.append(html, el("head", &[]));
    let body = doc.append(html, el("body", &[]));
    doc.append(body, el("link", &[("rel", "stylesheet"), ("href", "late.css")]));
    doc.append(head, el("link", &[("rel", "stylesheet"), ("href", "early.css")]));
    let paths: Vec<String> = get_stylesheet_paths(&doc).into_iter().map(|c| c.0).collect();
    assert_eq!(paths, vec!["early.css".to_string(), "late.css".to_string()]);
}
