use victor::dom::{Document, ElementData, NodeData};

fn element(name: &str) -> NodeData {
    NodeData::Element(ElementData { name: name.to_string(), id: None, classes: Vec::new() })
}

#[test]
fn new_document_holds_only_the_document_node() {
    let document = Document::new();
    assert_eq!(document.len(), 1);
    assert_eq!(document.document_node_id(), 0);
    assert_eq!(*document.data(0), NodeData::Document);
    assert_eq!(document.first_child(0), None);
    assert_eq!(document.next_sibling(0), None);
    assert_eq!(document.parent(0), None);
    assert_eq!(document.root_element(), None);
}

#[test]
fn append_child_adds_last_children_in_order() {
    let mut document = Document::new();
    let html = document.append_child(0, element("html"));
    let head = document.append_child(html, element("head"));
    let body = document.append_child(html, element("body"));
    let title = document.append_child(head, element("title"));
    let p = document.append_child(body, element("p"));
    let late = document.append_child(head, element("meta"));

    assert_eq!((html, head, body, title, p, late), (1, 2, 3, 4, 5, 6));
    assert_eq!(document.len(), 7);
    assert_eq!(document.first_child(html), Some(head));
    assert_eq!(document.next_sibling(head), Some(body));
    assert_eq!(document.next_sibling(body), None);
    assert_eq!(document.first_child(head), Some(title));
    assert_eq!(document.next_sibling(title), Some(late));
    assert_eq!(document.next_sibling(late), None);
    assert_eq!(document.first_child(body), Some(p));
    assert_eq!(document.first_child(p), None);
    assert_eq!(document.parent(late), Some(head));
    assert_eq!(document.parent(p), Some(body));
    assert_eq!(document.parent(html), Some(0));
    assert_eq!(*document.data(p), element("p"));
}

#[test]
fn root_element_is_the_first_element_under_the_document_node() {
    let mut document = Document::new();
    document.append_child(0, NodeData::Doctype { name: "html".to_string() });
    document.append_child(0, NodeData::Comment { contents: "before".to_string() });
    let html = document.append_child(0, element("html"));
    document.append_child(html, element("body"));
    document.append_child(0, NodeData::Comment { contents: "after".to_string() });
    assert_eq!(document.root_element(), Some(html));
}

#[test]
fn root_element_is_absent_without_elements() {
    let mut document = Document::new();
    document.append_child(0, NodeData::Comment { contents: "only".to_string() });
    document.append_child(
        0,
        NodeData::ProcessingInstruction { target: "xml".to_string(), contents: String::new() },
    );
    assert_eq!(document.root_element(), None);
}
