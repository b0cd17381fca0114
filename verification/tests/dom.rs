use nyaadesu::{Attribute, Document, NodeData};

fn div(class: &str) -> NodeData {
    NodeData::Element {
        name: "div".to_string(),
        attrs: vec![Attribute { name: "class".to_string(), value: class.to_string() }],
    }
}

#[test]
fn a_new_document_holds_its_root_alone() {
    let doc = Document::new();
    assert_eq!(doc.len(), 1);
    assert_eq!(doc.child_count(0), 0);
    assert_eq!(doc.child(0, 0), None);
    assert!(matches!(doc.data(0), Some(NodeData::Other)));
    assert!(doc.data(1).is_none());
    assert!(!doc.is_element(0));
}

#[test]
fn children_stand_in_the_order_they_were_added() {
    let mut doc = Document::new();
    let a = doc.add_child(0, div("a")).unwrap();
    let b = doc.add_child(0, NodeData::Text { contents: "b".to_string() }).unwrap();
    let c = doc.add_child(a, div("c")).unwrap();
    let d = doc.add_child(0, div("d")).unwrap();
    assert_eq!((a, b, c, d), (1, 2, 3, 4));
    assert_eq!(doc.len(), 5);
    assert_eq!(doc.child_count(0), 3);
    assert_eq!(doc.child(0, 0), Some(a));
    assert_eq!(doc.child(0, 1), Some(b));
    assert_eq!(doc.child(0, 2), Some(d));
    assert_eq!(doc.child(0, 3), None);
    assert_eq!(doc.child(a, 0), Some(c));
    assert_eq!(doc.child_count(b), 0);
    assert_eq!(doc.child_count(99), 0);
    assert_eq!(doc.child(99, 0), None);
}

#[test]
fn a_child_of_no_node_is_not_added() {
    let mut doc = Document::new();
    assert_eq!(doc.add_child(1, div("a")), None);
    assert_eq!(doc.add_child(usize::MAX, div("a")), None);
    assert_eq!(doc.len(), 1);
    assert_eq!(doc.child_count(0), 0);
}

#[test]
fn reads_attributes_and_text() {
    let mut doc = Document::new();
    let e = doc
        .add_child(
            0,
            NodeData::Element {
                name: "a".to_string(),
                attrs: vec![
                    Attribute { name: "href".to_string(), value: "/one".to_string() },
                    Attribute { name: "title".to_string(), value: "t".to_string() },
                    Attribute { name: "href".to_string(), value: "/two".to_string() },
                ],
            },
        )
        .unwrap();
    let t = doc.add_child(e, NodeData::Text { contents: "hello".to_string() }).unwrap();
    assert!(doc.is_element(e));
    assert!(!doc.is_element(t));
    assert_eq!(doc.attribute(e, "href"), Some("/two".to_string()));
    assert_eq!(doc.attribute(e, "title"), Some("t".to_string()));
    assert_eq!(doc.attribute(e, "class"), None);
    assert_eq!(doc.attribute(t, "href"), None);
    assert_eq!(doc.attribute(42, "href"), None);
    assert_eq!(doc.text(t), Some("hello".to_string()));
    assert_eq!(doc.text(e), None);
    assert_eq!(doc.text(0), None);
    assert_eq!(doc.text(42), None);
}

#[test]
fn a_document_can_begin_with_any_root() {
    let mut doc = Document::with_root(div("root"));
    assert_eq!(doc.len(), 1);
    assert!(doc.is_element(0));
    assert_eq!(doc.attribute(0, "class"), Some("root".to_string()));
    let t = doc.add_child(0, NodeData::Text { contents: "x".to_string() }).unwrap();
    assert_eq!(doc.child(0, 0), Some(t));
    assert_eq!(doc.text(t), Some("x".to_string()));
}

#[test]
fn adding_many_children_keeps_all_of_them() {
    let mut doc = Document::new();
    let mut parents = vec![0usize];
    for round in 0..200 {
        let parent = parents[round % parents.len()];
        let id = doc.add_child(parent, div("n")).unwrap();
        assert_eq!(id, round + 1);
        parents.push(id);
    }
    assert_eq!(doc.len(), 201);
    let mut total = 0;
    for node in 0..doc.len() {
        total += doc.child_count(node);
    }
    assert_eq!(total, 200);
}
