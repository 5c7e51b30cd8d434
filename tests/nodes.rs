use mach_6::document::{get_elements, Document};
use mach_6::node::{CaseSensitivity, Comment, Doctype, Element, Node, Text};

fn el(name: &str, attrs: &[(&str, &str)]) -> Element {
    Element::new(
        name.to_string(),
        attrs.iter().map(|(k, v)| (k.to_string(), v.to_string())).collect(),
    )
}

#[test]
fn test_has_id() {
    let element = el("p", &[("id", "link_id_456")]);
    assert!(element.has_id("link_id_456", CaseSensitivity::CaseSensitive));

    let element = el("p", &[]);
    assert!(!element.has_id("any_link_id", CaseSensitivity::CaseSensitive));
}

#[test]
fn test_is_link() {
    let element = el("link", &[("href", "https://www.example.com")]);
    assert!(element.is_link());

    let element = el("p", &[]);
    assert!(!element.is_link());
}

#[test]
fn test_has_class() {
    let element = el("p", &[("class", "my_class")]);
    assert!(element.has_class("my_class", CaseSensitivity::CaseSensitive));

    let element = el("p", &[]);
    assert!(!element.has_class("my_class", CaseSensitivity::CaseSensitive));
}

#[test]
fn has_class_ascii_case_insensitive() {
    let element = el("p", &[("class", "My_Class")]);
    assert!(!element.has_class("my_class", CaseSensitivity::CaseSensitive));
    assert!(element.has_class("my_class", CaseSensitivity::AsciiCaseInsensitive));
    assert!(!element.has_class("my_clas", CaseSensitivity::AsciiCaseInsensitive));
}

#[test]
fn id_is_first_id_attribute() {
    let element = el("div", &[("title", "t"), ("id", "a")]);
    assert_eq!(element.id(), Some("a"));
    assert_eq!(element.attr("title"), Some("t"));
    assert_eq!(element.attr("missing"), None);
}

#[test]
fn classes_are_distinct_and_ascending() {
    let element = el("div", &[("class", "b"), ("class", "a"), ("class", "b")]);
    assert_eq!(element.classes(), vec!["a".to_string(), "b".to_string()]);
}

#[test]
fn start_tag_lists_attributes() {
    let element = el("a", &[("href", "x.html"), ("class", "big")]);
    assert_eq!(element.start_tag(), "<a class=\"big\" href=\"x.html\">");
    assert_eq!(el("br", &[]).start_tag(), "<br>");
}

#[test]
fn doctype_getters() {
    let d = Doctype {
        name: "html".to_string(),
        public_id: "pub".to_string(),
        system_id: "sys".to_string(),
    };
    assert_eq!(d.name(), "html");
    assert_eq!(d.public_id(), "pub");
    assert_eq!(d.system_id(), "sys");
}

#[test]
fn node_kinds() {
    let t = Node::Text(Text { text: "hi".to_string() });
    assert!(t.is_text());
    assert!(!t.is_element());
    assert_eq!(t.as_text().unwrap().text, "hi");
    let c = Node::Comment(Comment { comment: "c".to_string() });
    assert!(c.is_comment());
    assert!(c.as_element().is_none());
    let e = Node::Element(el("p", &[]));
    assert!(e.is_element());
    assert_eq!(e.as_element().unwrap().name(), "p");
    assert!(Node::Document.is_document());
    assert!(Node::Fragment.is_fragment());
}

#[test]
fn document_structure() {
    let mut doc = Document::new_document();
    let html = doc.append(0, Node::Element(el("html", &[])));
    let text = doc.append(html, Node::Text(Text { text: "x".to_string() }));
    let body = doc.append(html, Node::Element(el("body", &[])));
    let p = doc.append(body, Node::Element(el("p", &[])));
    assert_eq!(doc.node_count(), 5);
    assert_eq!(doc.parent(p), Some(body));
    assert_eq!(doc.children(html), &vec![text, body]);
    assert_eq!(doc.element_ancestors_of(p), vec![html, body]);
    assert_eq!(doc.parent_element_of(html), None);
    assert_eq!(doc.parent_element_of(p), Some(body));
    assert_eq!(get_elements(&doc), vec![html, body, p]);
}

#[test]
fn elements_come_in_preorder_not_storage_order() {
    let mut doc = Document::new_document();
    let a = doc.append(0, el_node("a"));
    let b = doc.append(0, el_node("b"));
    let c = doc.append(a, el_node("c"));
    assert_eq!(get_elements(&doc), vec![a, c, b]);
}

fn el_node(name: &str) -> Node {
    Node::Element(el(name, &[]))
}

#[test]
fn attributes_are_ordered_by_name() {
    let element = el("p", &[("title", "t"), ("class", "c"), ("id", "i"), ("data-x", "d")]);
    let names: Vec<&str> = element.attrs().iter().map(|(k, _)| k.as_str()).collect();
    assert_eq!(names, vec!["class", "data-x", "id", "title"]);
}
