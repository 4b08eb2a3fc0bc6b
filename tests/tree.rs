use anatsui_core::document::Document;
use anatsui_core::ids::ObjectId;
use anatsui_core::node::{Node, NodeType};
use anatsui_core::order_key::{fractional_midpoint, key_less};
use anatsui_core::properties::{Color, Float32, Property, PropertyValue};
use anatsui_core::tree::DocumentTree;

fn f(v: f32) -> Float32 {
    Float32::from_bits(v.to_bits())
}

fn node_with_key(id: ObjectId, key: &str) -> Node {
    let mut n = Node::new(id, NodeType::Rectangle);
    n.set_order_index(key.to_string());
    n
}

fn key_of(tree: &DocumentTree, id: ObjectId) -> String {
    tree.get(id).unwrap().order_index().to_string()
}

fn assert_sorted(tree: &DocumentTree, parent: ObjectId) {
    let kids = tree.children(parent);
    for w in kids.windows(2) {
        let a = key_of(tree, w[0]);
        let b = key_of(tree, w[1]);
        assert!(a <= b, "{} > {}", a, b);
    }
}

#[test]
fn test_tree_operations() {
    let mut tree = DocumentTree::new();

    let parent_id = ObjectId::random();
    let parent = Node::new(parent_id, NodeType::Frame);
    tree.insert(parent);

    let child_id = ObjectId::random();
    let child = Node::new(child_id, NodeType::Rectangle);
    tree.insert(child);
    tree.set_parent(child_id, parent_id);

    assert_eq!(tree.children(parent_id), vec![child_id]);
    assert_eq!(tree.parent(child_id), Some(parent_id));
}

#[test]
fn first_inserted_node_becomes_root() {
    let mut tree = DocumentTree::new();
    let a = ObjectId::new(1, 1);
    let b = ObjectId::new(1, 2);
    tree.insert(Node::new(a, NodeType::Document));
    tree.insert(Node::new(b, NodeType::Page));
    assert_eq!(tree.root_id(), a);
    assert_eq!(tree.len(), 2);
    assert!(!tree.is_empty());
    assert_eq!(tree.parent(b), None);
    assert_eq!(tree.children(a), Vec::<ObjectId>::new());
}

#[test]
fn midpoint_lies_strictly_between() {
    let m = fractional_midpoint("0.3", "0.5");
    assert!("0.3" < m.as_str() && m.as_str() < "0.5");
    assert_eq!(m, "0.35");
    let low = fractional_midpoint("0", "0.3");
    assert_eq!(low, "0.05");
    let high = fractional_midpoint("0.7", "1");
    assert_eq!(high, "0.75");
    assert!(key_less("0.3", "0.35"));
    assert!(!key_less("0.35", "0.3"));
    assert!(!key_less("0.5", "0.5"));
}

#[test]
fn two_hundred_insertions_between_the_same_neighbours() {
    // A key that halves a float would collide after some 15 to 17 steps;
    // string keys keep going.
    let low = "0.3".to_string();
    let mut high = "0.5".to_string();
    let mut seen = std::collections::HashSet::new();
    for _ in 0..300 {
        let m = fractional_midpoint(&low, &high);
        assert!(low < m && m < high, "{} not in ({}, {})", m, low, high);
        assert!(seen.insert(m.clone()), "collision at {}", m);
        high = m;
    }
    let mut low = "0.3".to_string();
    let high = "0.5".to_string();
    for _ in 0..300 {
        let m = fractional_midpoint(&low, &high);
        assert!(low < m && m < high);
        low = m;
    }
}

#[test]
fn children_stay_sorted_after_many_operations() {
    let mut tree = DocumentTree::new();
    let root = ObjectId::new(7, 0);
    tree.insert(Node::new(root, NodeType::Page));
    let keys = ["0.9", "0.1", "0.5", "0.3", "0.7", "0.2", "0.8"];
    let mut ids = Vec::new();
    for (i, k) in keys.iter().enumerate() {
        let id = ObjectId::new(7, i as u32 + 1);
        tree.insert(node_with_key(id, k));
        tree.set_parent(id, root);
        ids.push(id);
        assert_sorted(&tree, root);
    }
    tree.move_before(ids[0], ids[1]);
    assert_sorted(&tree, root);
    tree.move_after(ids[1], ids[6]);
    assert_sorted(&tree, root);
    tree.move_before(ids[3], ids[0]);
    assert_sorted(&tree, root);
    tree.set_order_index(ids[4], "0.05".to_string());
    assert_sorted(&tree, root);
    tree.insert(node_with_key(ids[5], "0.95"));
    assert_sorted(&tree, root);
    assert_eq!(tree.children(root).len(), keys.len());
    assert_eq!(*tree.children(root).last().unwrap(), ids[5]);
}

#[test]
fn move_before_places_node_right_before_anchor() {
    let mut tree = DocumentTree::new();
    let parent = ObjectId::new(1, 0);
    tree.insert(Node::new(parent, NodeType::Frame));
    let first = ObjectId::new(1, 1);
    let second = ObjectId::new(1, 2);
    let third = ObjectId::new(1, 3);
    for (id, k) in [(first, "0.3"), (second, "0.5"), (third, "0.7")] {
        tree.insert(node_with_key(id, k));
        tree.set_parent(id, parent);
    }
    assert_eq!(tree.children(parent), vec![first, second, third]);
    tree.move_before(third, second);
    let k = key_of(&tree, third);
    assert!("0.3" < k.as_str() && k.as_str() < "0.5");
    assert_eq!(tree.children(parent), vec![first, third, second]);
    assert_eq!(key_of(&tree, first), "0.3");
    assert_eq!(key_of(&tree, second), "0.5");
}

#[test]
fn move_after_places_node_right_after_anchor() {
    let mut tree = DocumentTree::new();
    let parent = ObjectId::new(1, 0);
    tree.insert(Node::new(parent, NodeType::Frame));
    let a = ObjectId::new(1, 1);
    let b = ObjectId::new(1, 2);
    let c = ObjectId::new(1, 3);
    for (id, k) in [(a, "0.3"), (b, "0.5"), (c, "0.7")] {
        tree.insert(node_with_key(id, k));
        tree.set_parent(id, parent);
    }
    tree.move_after(a, c);
    assert_eq!(tree.children(parent), vec![b, c, a]);
    let k = key_of(&tree, a);
    assert!("0.7" < k.as_str() && k.as_str() < "1");
    tree.move_before(a, b);
    assert_eq!(tree.children(parent), vec![a, b, c]);
    assert!(key_of(&tree, a).as_str() > "0" && key_of(&tree, a).as_str() < "0.5");
}

#[test]
fn move_into_another_parent_reparents() {
    let mut tree = DocumentTree::new();
    let root = ObjectId::new(1, 0);
    let left = ObjectId::new(1, 1);
    let right = ObjectId::new(1, 2);
    let x = ObjectId::new(1, 3);
    let y = ObjectId::new(1, 4);
    tree.insert(Node::new(root, NodeType::Document));
    for id in [left, right] {
        tree.insert(Node::new(id, NodeType::Frame));
        tree.set_parent(id, root);
    }
    tree.insert(node_with_key(x, "0.5"));
    tree.set_parent(x, left);
    tree.insert(node_with_key(y, "0.5"));
    tree.set_parent(y, right);
    tree.move_before(x, y);
    assert_eq!(tree.parent(x), Some(right));
    assert_eq!(tree.children(left), Vec::<ObjectId>::new());
    assert_eq!(tree.children(right), vec![x, y]);
}

#[test]
fn set_parent_refuses_cycles_and_absent_ids() {
    let mut tree = DocumentTree::new();
    let a = ObjectId::new(2, 1);
    let b = ObjectId::new(2, 2);
    let c = ObjectId::new(2, 3);
    for id in [a, b, c] {
        tree.insert(Node::new(id, NodeType::Frame));
    }
    tree.set_parent(b, a);
    tree.set_parent(c, b);
    tree.set_parent(a, c);
    assert_eq!(tree.parent(a), None);
    tree.set_parent(a, a);
    assert_eq!(tree.parent(a), None);
    let ghost = ObjectId::new(9, 9);
    tree.set_parent(ghost, a);
    tree.set_parent(c, ghost);
    assert_eq!(tree.parent(c), Some(b));
    assert_eq!(tree.children(a), vec![b]);
}

#[test]
fn remove_takes_the_whole_subtree() {
    let mut tree = DocumentTree::new();
    let root = ObjectId::new(3, 0);
    let frame = ObjectId::new(3, 1);
    let inner = ObjectId::new(3, 2);
    let leaf = ObjectId::new(3, 3);
    let other = ObjectId::new(3, 4);
    tree.insert(Node::new(root, NodeType::Page));
    for (id, p) in [(frame, root), (inner, frame), (leaf, inner), (other, root)] {
        tree.insert(Node::new(id, NodeType::Frame));
        tree.set_parent(id, p);
    }
    tree.remove(frame);
    for id in [frame, inner, leaf] {
        assert!(tree.get(id).is_none());
        assert_eq!(tree.parent(id), None);
        assert_eq!(tree.children(id), Vec::<ObjectId>::new());
    }
    assert_eq!(tree.children(root), vec![other]);
    assert_eq!(tree.len(), 2);
    tree.remove(ObjectId::new(8, 8));
    assert_eq!(tree.len(), 2);
}

#[test]
fn iter_yields_every_node() {
    let mut tree = DocumentTree::new();
    for i in 0..5 {
        tree.insert(Node::new(ObjectId::new(4, i), NodeType::Group));
    }
    let mut seqs: Vec<u32> = tree.iter().iter().map(|n| n.id().sequence()).collect();
    seqs.sort();
    assert_eq!(seqs, vec![0, 1, 2, 3, 4]);
}

#[test]
fn document_scenario_page_frame_rectangle() {
    let mut doc = Document::new("Untitled");
    assert_eq!(doc.tree().len(), 2);
    let root = doc.root_id();
    let pages = doc.get_children(root);
    assert_eq!(pages.len(), 1);
    let page = pages[0];
    assert_eq!(doc.get_node(page).unwrap().name(), "Page 1");
    let frame = doc.create_frame(f(0.0), f(0.0), f(400.0), f(300.0));
    let rect = doc.create_rectangle(frame, f(10.0), f(20.0), f(100.0), f(50.0));
    assert_eq!(doc.get_children(page), vec![frame]);
    assert_eq!(doc.get_children(frame), vec![rect]);
    let gray = Color::new(f(0.8), f(0.8), f(0.8), f(1.0));
    assert_eq!(doc.get_node(rect).unwrap().fill_color(), gray);
    assert_eq!(doc.get_node_x(rect), f(10.0));
    assert_eq!(doc.get_node_y(rect), f(20.0));
    assert_eq!(doc.get_node_width(rect), f(100.0));
    assert_eq!(doc.get_node_height(rect), f(50.0));
    assert_eq!(doc.version(), 3);
}

#[test]
fn document_edits_count_versions() {
    let mut doc = Document::new("d");
    assert_eq!(doc.name(), "d");
    doc.set_name("e");
    assert_eq!(doc.name(), "e");
    let page = doc.get_children(doc.root_id())[0];
    let e = doc.create_ellipse(page, f(1.0), f(2.0), f(3.0), f(4.0));
    let t = doc.create_text(page, f(5.0), f(6.0), "hello");
    assert_eq!(doc.get_node(e).unwrap().fill_color(), Color::new(f(0.6), f(0.6), f(0.9), f(1.0)));
    assert_eq!(doc.get_node(t).unwrap().fill_color(), Color::black());
    assert_eq!(
        doc.get_node(t).unwrap().get_property(Property::Text),
        Some(&PropertyValue::String("hello".to_string()))
    );
    let v = doc.version();
    doc.set_node_x(e, f(42.0));
    assert_eq!(doc.get_node_x(e), f(42.0));
    assert_eq!(doc.version(), v + 1);
    doc.set_node_x(ObjectId::new(99, 99), f(1.0));
    assert_eq!(doc.version(), v + 1);
    assert_eq!(doc.get_node_x(ObjectId::new(99, 99)), f(0.0));
    doc.delete_node(e);
    assert!(!doc.has_node(e));
    assert_eq!(doc.get_children(page), vec![t]);
}

#[test]
fn node_defaults_and_properties() {
    let mut n = Node::new(ObjectId::new(5, 5), NodeType::Ellipse);
    assert_eq!(n.width(), f(100.0));
    assert_eq!(n.height(), f(100.0));
    assert_eq!(n.opacity(), f(1.0));
    assert_eq!(n.x(), f(0.0));
    assert!(n.visible());
    assert!(!n.locked());
    assert_eq!(n.name(), "Ellipse");
    assert_eq!(n.stroke_color(), Color::transparent());
    assert_eq!(n.fill_color(), Color::zero());
    assert_eq!(n.order_index(), "0.5");
    n.set_property(Property::Width, PropertyValue::Float(f(12.5)));
    n.set_property(Property::Width, PropertyValue::Float(f(13.5)));
    assert_eq!(n.width(), f(13.5));
    assert_eq!(n.properties().len(), 1);
    n.set_property(Property::Name, PropertyValue::String("Ball".to_string()));
    assert_eq!(n.name(), "Ball");
    n.remove_property(Property::Width);
    assert_eq!(n.width(), f(100.0));
    assert_eq!(n.get_property(Property::Width), None);
    n.set_property(Property::Visible, PropertyValue::Bool(false));
    assert!(!n.visible());
}

#[test]
fn object_ids() {
    let id = ObjectId::new(12, 345);
    assert_eq!(id.client_id(), 12);
    assert_eq!(id.sequence(), 345);
    assert_eq!(id.to_string(), "12:345");
    assert_eq!(ObjectId::new(0, 4294967295).to_string(), "0:4294967295");
    let a = ObjectId::random();
    let b = ObjectId::random();
    assert_ne!(a, b);
}

#[test]
fn halving_floats_collides_where_string_keys_do_not() {
    // Parsing keys as floats and printing the average with 15 decimals runs
    // out of precision within a few dozen insertions between the same keys.
    let float_mid = |a: &str, b: &str| -> String {
        let x: f64 = a.parse().unwrap_or(0.0);
        let y: f64 = b.parse().unwrap_or(1.0);
        format!("{:.15}", (x + y) / 2.0)
    };
    let mut high = "0.5".to_string();
    let mut float_failed_at = None;
    for step in 0..200 {
        let m = float_mid("0.3", &high);
        if !("0.3" < m.as_str() && m < high) {
            float_failed_at = Some(step);
            break;
        }
        high = m;
    }
    assert!(float_failed_at.is_some());
    let mut high = "0.5".to_string();
    for _ in 0..200 {
        let m = fractional_midpoint("0.3", &high);
        assert!("0.3" < m.as_str() && m < high);
        high = m;
    }
}

#[test]
fn the_root_never_gets_a_parent() {
    let mut tree = DocumentTree::new();
    let root = ObjectId::new(6, 0);
    let loose = ObjectId::new(6, 1);
    tree.insert(Node::new(root, NodeType::Document));
    tree.insert(Node::new(loose, NodeType::Frame));
    tree.set_parent(root, loose);
    assert_eq!(tree.parent(root), None);
    assert_eq!(tree.children(loose), Vec::<ObjectId>::new());
    let kid = ObjectId::new(6, 2);
    tree.insert(Node::new(kid, NodeType::Frame));
    tree.set_parent(kid, loose);
    tree.move_before(root, kid);
    assert_eq!(tree.parent(root), None);
    assert_eq!(tree.children(loose), vec![kid]);
}

#[test]
fn new_document_holds_root_and_one_empty_page() {
    let doc = Document::new("Doc");
    let root = doc.root_id();
    assert_eq!(doc.tree().len(), 2);
    let pages = doc.get_children(root);
    assert_eq!(pages.len(), 1);
    assert_eq!(doc.get_node(root).unwrap().node_type(), NodeType::Document);
    assert_eq!(doc.get_node(pages[0]).unwrap().node_type(), NodeType::Page);
    assert_eq!(doc.get_children(pages[0]), Vec::<ObjectId>::new());
    assert_eq!(doc.tree().parent(root), None);
}

#[test]
fn appending_after_the_last_sibling_keeps_going() {
    let mut low = "0".to_string();
    let mut seen = std::collections::HashSet::new();
    for _ in 0..200 {
        let m = fractional_midpoint(&low, "1");
        assert!(low < m && m.as_str() < "1");
        assert!(seen.insert(m.clone()));
        low = m;
    }
}

#[test]
fn add_node_places_a_new_node_under_its_parent() {
    let mut doc = Document::new("d");
    let page = doc.get_children(doc.root_id())[0];
    let id = ObjectId::new(77, 1);
    doc.add_node(Node::new(id, NodeType::Group), Some(page));
    assert_eq!(doc.get_children(page), vec![id]);
    // a stored id is replaced in place, not moved
    let mut again = Node::new(id, NodeType::Group);
    again.set_property(Property::Name, PropertyValue::String("g".to_string()));
    doc.add_node(again, Some(doc.root_id()));
    assert_eq!(doc.tree().parent(id), Some(page));
    assert_eq!(doc.get_node(id).unwrap().name(), "g");
}

#[test]
fn moves_among_equal_default_keys_land_next_to_the_anchor() {
    let mut tree = DocumentTree::new();
    let page = ObjectId::new(9, 0);
    tree.insert(Node::new(page, NodeType::Page));
    let first = ObjectId::new(9, 1);
    let second = ObjectId::new(9, 2);
    let third = ObjectId::new(9, 3);
    for id in [first, second, third] {
        tree.insert(Node::new(id, NodeType::Rectangle));
        tree.set_parent(id, page);
    }
    assert_eq!(tree.children(page), vec![first, second, third]);
    tree.move_before(third, second);
    assert_eq!(tree.children(page), vec![first, third, second]);
    assert_eq!(key_of(&tree, third), "0.5");
    tree.move_after(first, second);
    assert_eq!(tree.children(page), vec![third, second, first]);
    assert_sorted(&tree, page);
    // an anchor with a key no midpoint can undercut
    assert_eq!(key_of(&tree, first), "0.55");
    tree.set_order_index(second, "0.50".to_string());
    assert_eq!(tree.children(page), vec![third, second, first]);
    tree.move_before(first, second);
    assert_eq!(tree.children(page), vec![third, first, second]);
    assert_eq!(key_of(&tree, first), "0.50");
    assert_sorted(&tree, page);
}

#[test]
fn rebuild_replays_a_snapshot() {
    let root = ObjectId::new(5, 0);
    let a = ObjectId::new(5, 1);
    let b = ObjectId::new(5, 2);
    let c = ObjectId::new(5, 3);
    let nodes = vec![
        Node::new(root, NodeType::Document),
        Node::new(a, NodeType::Page),
        Node::new(b, NodeType::Frame),
        Node::new(c, NodeType::Frame),
    ];
    let links = vec![(root, vec![a]), (a, vec![c, b])];
    let tree = DocumentTree::rebuild(nodes, &links);
    assert_eq!(tree.root_id(), root);
    assert_eq!(tree.len(), 4);
    assert_eq!(tree.children(root), vec![a]);
    assert_eq!(tree.children(a), vec![c, b]);
    assert_eq!(tree.parent(b), Some(a));
}
