use xpath_nodeset::dom::Document;
use xpath_nodeset::node::ChildOfElement;
use xpath_nodeset::node::ChildOfRoot;
use xpath_nodeset::node::Node;
use xpath_nodeset::node::ToNode;
use xpath_nodeset::nodeset::EvaluationContext;
use xpath_nodeset::nodeset::Nodeset;

#[test]
fn nodeset_can_include_all_node_types() {
    let mut doc = Document::new(0);
    let mut nodes = Nodeset::new();

    let r = doc.root();
    let e = doc.create_element("element");
    let a = doc.set_attribute_value(e, "name", "value").unwrap();
    let t = doc.create_text("text");
    let c = doc.create_comment("comment");
    let p = doc.create_processing_instruction("pi", None);

    nodes.add(r);
    nodes.add(e);
    nodes.add(a);
    nodes.add(t);
    nodes.add(c);
    nodes.add(p);

    let node_vec: Vec<_> = nodes.iter().iter().collect();

    assert_eq!(6, node_vec.len());
    assert_eq!(node_vec[0], &Node::Root(r));
    assert_eq!(node_vec[1], &Node::Element(e));
    assert_eq!(node_vec[2], &Node::Attribute(a));
    assert_eq!(node_vec[3], &Node::Text(t));
    assert_eq!(node_vec[4], &Node::Comment(c));
    assert_eq!(node_vec[5], &Node::ProcessingInstruction(p));
}

#[test]
fn nodesets_can_be_combined() {
    let mut doc = Document::new(0);

    let mut all_nodes = Nodeset::new();
    let mut nodes1 = Nodeset::new();
    let mut nodes2 = Nodeset::new();

    let e1 = doc.create_element("element1");
    let e2 = doc.create_element("element2");

    all_nodes.add(e1);
    all_nodes.add(e2);

    nodes1.add(e1);
    nodes2.add(e2);

    nodes1.add_nodeset(&nodes2);

    assert_eq!(all_nodes, nodes1);
}

#[test]
fn nodeset_knows_first_node_in_document_order() {
    let mut doc = Document::new(0);

    let c1 = doc.create_comment("1");
    let c2 = doc.create_comment("2");
    assert!(doc.append_root_child(ChildOfRoot::Comment(c1)));
    assert!(doc.append_root_child(ChildOfRoot::Comment(c2)));

    let mut nodes = Nodeset::new();
    nodes.add(c2);
    nodes.add(c1);

    assert_eq!(Some(c1.to_node()), nodes.document_order_first(&doc));
}

#[test]
fn attributes_come_before_children_in_document_order() {
    let mut doc = Document::new(0);

    let parent = doc.create_element("parent");
    let attr = doc.set_attribute_value(parent, "a", "v").unwrap();
    let child = doc.create_element("child");

    assert!(doc.append_root_child(ChildOfRoot::Element(parent)));
    assert!(doc.append_element_child(parent, ChildOfElement::Element(child)));

    let mut nodes = Nodeset::new();
    nodes.add(child);
    nodes.add(attr);

    assert_eq!(Some(attr.to_node()), nodes.document_order_first(&doc));
}

#[test]
fn document_order_first_of_empty_nodeset_is_none() {
    let mut doc = Document::new(0);
    let _ = doc.create_element("unused");
    let nodes = Nodeset::new();
    assert_eq!(None, nodes.document_order_first(&doc));
}

#[test]
fn document_order_first_of_single_member_set() {
    let mut doc = Document::new(0);
    let e = doc.create_element("only");
    assert!(doc.append_root_child(ChildOfRoot::Element(e)));
    let mut nodes = Nodeset::new();
    nodes.add(e);
    assert_eq!(Some(e.to_node()), nodes.document_order_first(&doc));
}

#[test]
fn document_order_first_tolerates_duplicates() {
    let mut doc = Document::new(0);
    let e1 = doc.create_element("one");
    let e2 = doc.create_element("two");
    assert!(doc.append_root_child(ChildOfRoot::Element(e1)));
    assert!(doc.append_root_child(ChildOfRoot::Element(e2)));
    let mut nodes = Nodeset::new();
    nodes.add(e2);
    nodes.add(e2);
    nodes.add(e1);
    nodes.add(e2);
    assert_eq!(4, nodes.size());
    assert_eq!(Some(e1.to_node()), nodes.document_order_first(&doc));
}

#[test]
fn root_comes_first_in_document_order() {
    let mut doc = Document::new(0);
    let e = doc.create_element("e");
    assert!(doc.append_root_child(ChildOfRoot::Element(e)));
    let mut nodes = Nodeset::new();
    nodes.add(e);
    nodes.add(doc.root());
    assert_eq!(Some(doc.root().to_node()), nodes.document_order_first(&doc));
}

#[test]
fn narrowing_accessors_match_only_their_kind() {
    let mut doc = Document::new(0);
    let r = doc.root();
    let e = doc.create_element("element");
    let a = doc.set_attribute_value(e, "name", "value").unwrap();
    let t = doc.create_text("text");
    let c = doc.create_comment("comment");
    let p = doc.create_processing_instruction("pi", None);

    let rn = r.to_node();
    assert_eq!(Some(r), rn.root());
    assert_eq!(None, rn.element());
    assert_eq!(None, rn.attribute());
    assert_eq!(None, rn.text());
    assert_eq!(None, rn.comment());
    assert_eq!(None, rn.processing_instruction());

    let en = e.to_node();
    assert_eq!(None, en.root());
    assert_eq!(Some(e), en.element());
    assert_eq!(None, en.attribute());

    let an = a.to_node();
    assert_eq!(Some(a), an.attribute());
    assert_eq!(None, an.element());

    let tn = t.to_node();
    assert_eq!(Some(t), tn.text());
    assert_eq!(None, tn.comment());

    let cn = c.to_node();
    assert_eq!(Some(c), cn.comment());
    assert_eq!(None, cn.text());

    let pn = p.to_node();
    assert_eq!(Some(p), pn.processing_instruction());
    assert_eq!(None, pn.root());
}

#[test]
fn children_empty_for_leaf_kinds() {
    let mut doc = Document::new(0);
    let e = doc.create_element("e");
    let a = doc.set_attribute_value(e, "n", "v").unwrap();
    let t = doc.create_text("t");
    let c = doc.create_comment("c");
    let p = doc.create_processing_instruction("pi", Some("data"));
    assert!(doc.append_root_child(ChildOfRoot::Element(e)));
    assert!(doc.append_element_child(e, ChildOfElement::Text(t)));

    assert!(a.to_node().children(&doc).is_empty());
    assert!(t.to_node().children(&doc).is_empty());
    assert!(c.to_node().children(&doc).is_empty());
    assert!(p.to_node().children(&doc).is_empty());

    assert_eq!(vec![e.to_node()], doc.root().to_node().children(&doc));
    assert_eq!(vec![t.to_node()], e.to_node().children(&doc));
}

#[test]
fn sibling_axes_read_nearest_first_and_forward() {
    let mut doc = Document::new(0);
    let p = doc.create_element("p");
    assert!(doc.append_root_child(ChildOfRoot::Element(p)));
    let s1 = doc.create_element("s1");
    let s2 = doc.create_text("s2");
    let own = doc.create_element("own");
    let s3 = doc.create_comment("s3");
    assert!(doc.append_element_child(p, ChildOfElement::Element(s1)));
    assert!(doc.append_element_child(p, ChildOfElement::Text(s2)));
    assert!(doc.append_element_child(p, ChildOfElement::Element(own)));
    assert!(doc.append_element_child(p, ChildOfElement::Comment(s3)));

    let own_node = own.to_node();
    assert_eq!(
        vec![s2.to_node(), s1.to_node()],
        own_node.preceding_siblings(&doc)
    );
    assert_eq!(vec![s3.to_node()], own_node.following_siblings(&doc));

    assert!(s1.to_node().preceding_siblings(&doc).is_empty());
    assert!(s3.to_node().following_siblings(&doc).is_empty());
}

#[test]
fn root_and_attributes_report_no_siblings() {
    let mut doc = Document::new(0);
    let e = doc.create_element("e");
    let a = doc.set_attribute_value(e, "n", "v").unwrap();
    let b = doc.set_attribute_value(e, "m", "w").unwrap();
    assert!(doc.append_root_child(ChildOfRoot::Element(e)));

    assert!(doc.root().to_node().preceding_siblings(&doc).is_empty());
    assert!(doc.root().to_node().following_siblings(&doc).is_empty());
    assert!(a.to_node().preceding_siblings(&doc).is_empty());
    assert!(b.to_node().following_siblings(&doc).is_empty());
}

#[test]
fn expanded_names_by_kind() {
    let mut doc = Document::new(0);
    let e = doc.create_element("element");
    let a = doc.set_attribute_value(e, "name", "value").unwrap();
    let t = doc.create_text("text");
    let c = doc.create_comment("comment");
    let p = doc.create_processing_instruction("target", None);

    assert_eq!(
        "element",
        e.to_node().expanded_name(&doc).unwrap().local_part().as_str()
    );
    assert_eq!(
        "name",
        a.to_node().expanded_name(&doc).unwrap().local_part().as_str()
    );
    assert_eq!(
        "target",
        p.to_node().expanded_name(&doc).unwrap().local_part().as_str()
    );
    assert!(doc.root().to_node().expanded_name(&doc).is_none());
    assert!(t.to_node().expanded_name(&doc).is_none());
    assert!(c.to_node().expanded_name(&doc).is_none());
}

#[test]
fn parents_by_kind() {
    let mut doc = Document::new(0);
    let e = doc.create_element("e");
    let a = doc.set_attribute_value(e, "n", "v").unwrap();
    let t = doc.create_text("t");
    assert!(doc.append_root_child(ChildOfRoot::Element(e)));
    assert!(doc.append_element_child(e, ChildOfElement::Text(t)));
    let detached = doc.create_comment("loose");

    assert_eq!(None, doc.root().to_node().parent(&doc));
    assert_eq!(Some(doc.root().to_node()), e.to_node().parent(&doc));
    assert_eq!(Some(e.to_node()), a.to_node().parent(&doc));
    assert_eq!(Some(e.to_node()), t.to_node().parent(&doc));
    assert_eq!(None, detached.to_node().parent(&doc));
}

#[test]
fn every_node_reports_its_document() {
    let mut doc = Document::new(7);
    let e = doc.create_element("e");
    let a = doc.set_attribute_value(e, "n", "v").unwrap();
    let t = doc.create_text("t");
    assert_eq!(7, doc.id());
    assert_eq!(7, doc.root().to_node().document());
    assert_eq!(7, e.to_node().document());
    assert_eq!(7, a.to_node().document());
    assert_eq!(7, t.to_node().document());
}

#[test]
fn appends_refuse_bad_linkage() {
    let mut doc = Document::new(0);
    let detached_parent = doc.create_element("detached");
    let child = doc.create_element("child");

    // the parent is not part of the tree yet
    assert!(!doc.append_element_child(detached_parent, ChildOfElement::Element(child)));

    // a node cannot be appended twice
    assert!(doc.append_root_child(ChildOfRoot::Element(child)));
    assert!(!doc.append_root_child(ChildOfRoot::Element(child)));
    assert!(doc.append_root_child(ChildOfRoot::Element(detached_parent)));
    assert!(!doc.append_element_child(detached_parent, ChildOfElement::Element(child)));

    // a handle of another document is not live here
    let mut other = Document::new(1);
    let foreign = other.create_element("foreign");
    assert!(!doc.append_root_child(ChildOfRoot::Element(foreign)));
    assert!(doc.set_attribute_value(foreign, "n", "v").is_none());
    assert!(other.append_root_child(ChildOfRoot::Element(foreign)));
}

#[test]
fn setting_an_attribute_twice_replaces_its_value() {
    let mut doc = Document::new(0);
    let e = doc.create_element("e");
    let a1 = doc.set_attribute_value(e, "n", "v1").unwrap();
    let a2 = doc.set_attribute_value(e, "n", "v2").unwrap();
    assert_eq!(a1, a2);
    assert_eq!(1, doc.attributes(e).len());
    assert_eq!("v2", doc.attribute_value(a1).unwrap().as_str());

    let b = doc.set_attribute_value(e, "m", "w").unwrap();
    assert_ne!(a1, b);
    assert_eq!(2, doc.attributes(e).len());
    assert_eq!("v2", doc.attribute_value(a1).unwrap().as_str());
    assert_eq!("w", doc.attribute_value(b).unwrap().as_str());
}

#[test]
fn content_getters_read_back_what_was_created() {
    let mut doc = Document::new(0);
    let t = doc.create_text("some text");
    let c = doc.create_comment("a remark");
    assert_eq!("some text", doc.text_value(t).unwrap().as_str());
    assert_eq!("a remark", doc.comment_value(c).unwrap().as_str());
}

#[test]
fn merge_on_empty_receiver_equals_sequential_adds() {
    let mut doc = Document::new(0);
    let e1 = doc.create_element("e1");
    let e2 = doc.create_element("e2");
    let e3 = doc.create_element("e3");

    let mut a = Nodeset::new();
    a.add(e1);
    a.add(e2);
    let mut b = Nodeset::new();
    b.add(e3);

    let mut merged = Nodeset::new();
    merged.add_nodeset(&a);
    merged.add_nodeset(&b);

    let mut by_adds = Nodeset::new();
    by_adds.add(e1);
    by_adds.add(e2);
    by_adds.add(e3);

    assert_eq!(by_adds, merged);
    assert_eq!(3, merged.size());
}

#[test]
fn into_iter_yields_members_in_insertion_order() {
    let mut doc = Document::new(0);
    let e = doc.create_element("e");
    let t = doc.create_text("t");
    let mut nodes = Nodeset::new();
    nodes.add(t);
    nodes.add(e);
    let v = nodes.into_iter();
    assert_eq!(vec![t.to_node(), e.to_node()], v);
}

#[test]
fn nodeset_from_evaluation_contexts() {
    let mut doc = Document::new(0);
    let e = doc.create_element("e");
    let c = doc.create_comment("c");
    let contexts = vec![
        EvaluationContext { node: e.to_node() },
        EvaluationContext { node: c.to_node() },
    ];
    let nodes = Nodeset::from_contexts(&contexts);
    assert_eq!(2, nodes.size());
    let mut expected = Nodeset::new();
    expected.add(e);
    expected.add(c);
    assert_eq!(expected, nodes);
}

#[test]
fn converting_a_node_is_the_identity() {
    let mut doc = Document::new(0);
    let e = doc.create_element("e");
    let n = e.to_node();
    assert_eq!(n, n.to_node());
}

#[test]
fn document_order_interleaves_attributes_and_grandchildren() {
    let mut doc = Document::new(0);
    let outer = doc.create_element("outer");
    let inner = doc.create_element("inner");
    let outer_attr = doc.set_attribute_value(outer, "oa", "1").unwrap();
    let inner_attr = doc.set_attribute_value(inner, "ia", "2").unwrap();
    let leaf = doc.create_text("leaf");
    assert!(doc.append_root_child(ChildOfRoot::Element(outer)));
    assert!(doc.append_element_child(outer, ChildOfElement::Element(inner)));
    assert!(doc.append_element_child(inner, ChildOfElement::Text(leaf)));

    // outer's attribute precedes inner, which precedes inner's attribute,
    // which precedes the leaf
    let mut set1 = Nodeset::new();
    set1.add(inner);
    set1.add(outer_attr);
    assert_eq!(Some(outer_attr.to_node()), set1.document_order_first(&doc));

    let mut set2 = Nodeset::new();
    set2.add(leaf);
    set2.add(inner_attr);
    assert_eq!(Some(inner_attr.to_node()), set2.document_order_first(&doc));

    let mut set3 = Nodeset::new();
    set3.add(inner_attr);
    set3.add(inner);
    assert_eq!(Some(inner.to_node()), set3.document_order_first(&doc));
}

#[test]
fn full_document_order_of_small_tree() {
    let mut doc = Document::new(0);
    let parent = doc.create_element("parent");
    let attr = doc.set_attribute_value(parent, "a", "v").unwrap();
    let child = doc.create_element("child");
    assert!(doc.append_root_child(ChildOfRoot::Element(parent)));
    assert!(doc.append_element_child(parent, ChildOfElement::Element(child)));

    let ord = doc.in_document_order();
    assert_eq!(
        vec![
            doc.root().to_node(),
            parent.to_node(),
            attr.to_node(),
            child.to_node(),
        ],
        ord
    );
}

#[test]
fn attributes_of_one_element_pop_in_reverse_list_order() {
    let mut doc = Document::new(0);
    let e = doc.create_element("e");
    let a1 = doc.set_attribute_value(e, "first", "1").unwrap();
    let a2 = doc.set_attribute_value(e, "second", "2").unwrap();
    assert!(doc.append_root_child(ChildOfRoot::Element(e)));

    let ord = doc.in_document_order();
    assert_eq!(
        vec![doc.root().to_node(), e.to_node(), a2.to_node(), a1.to_node()],
        ord
    );

    let mut nodes = Nodeset::new();
    nodes.add(a1);
    nodes.add(a2);
    assert_eq!(Some(a2.to_node()), nodes.document_order_first(&doc));
}
