use anatsui_core::codec::{decode_atoms, encode_atoms, Atom};
use anatsui_core::ids::ObjectId;
use anatsui_core::multiplayer::message::Message;
use anatsui_core::node::{Node, NodeType};
use anatsui_core::properties::{Color, Float32, Property, PropertyValue};

fn f(v: f32) -> Float32 {
    Float32::from_bits(v.to_bits())
}

fn same(a: &Message, b: &Message) -> bool {
    format!("{:?}", a) == format!("{:?}", b)
}

#[test]
fn atoms_encode_to_exact_text() {
    let atoms = vec![Atom::Text("Ack".to_string()), Atom::Uint(42), Atom::Text("a:b;".to_string())];
    let text = encode_atoms(&atoms);
    assert_eq!(text, "s3:Acki42;s4:a:b;");
    assert_eq!(decode_atoms(&text), Some(atoms));
    assert_eq!(decode_atoms("i12"), None);
    assert_eq!(decode_atoms("s9:abc"), None);
    assert_eq!(decode_atoms("i99999999999999999999;"), None);
    assert_eq!(decode_atoms(""), Some(vec![]));
}

#[test]
fn every_message_round_trips() {
    let id = ObjectId::new(3, 4);
    let other = ObjectId::new(5, 6);
    let all = vec![
        Message::Join { document_id: "doc".to_string(), client_name: "Zoë \"z\"".to_string() },
        Message::JoinAck { client_id: 7, document_state: "{\"nodes\":[]}".to_string() },
        Message::Leave { client_id: 8 },
        Message::CursorMove { client_id: 9, x: f(-1.25), y: f(3.5) },
        Message::PropertyChange {
            client_id: 1,
            object_id: id,
            property: Property::ParentId,
            value: PropertyValue::Int(-5).encode(),
            sequence: u64::MAX,
        },
        Message::CreateObject {
            client_id: 1,
            object_id: id,
            object_type: "Frame".to_string(),
            parent_id: other,
            order_index: "0.5".to_string(),
            sequence: 2,
        },
        Message::DeleteObject { client_id: 1, object_id: id, sequence: 3 },
        Message::MoveObject {
            client_id: 1,
            object_id: id,
            new_parent_id: other,
            order_index: "0.25".to_string(),
            sequence: 4,
        },
        Message::Ack { sequence: 0 },
        Message::SelectionChange { client_id: 2, selected_ids: vec![id, other] },
        Message::SelectionChange { client_id: 2, selected_ids: vec![] },
        Message::Error { code: 404, message: "".to_string() },
        Message::Ping,
        Message::Pong,
        Message::Unhandled,
    ];
    for m in &all {
        let text = m.to_json();
        let back = Message::from_json(&text).expect("decodes");
        assert!(same(m, &back), "{:?} became {:?}", m, back);
    }
}

#[test]
fn ack_has_a_fixed_wire_form() {
    assert_eq!(Message::Ack { sequence: 12 }.to_json(), "s3:Acks8:sequencei12;");
    assert!(matches!(Message::from_json("s3:Acks8:sequencei12;"), Some(Message::Ack { sequence: 12 })));
}

#[test]
fn unknown_variants_are_unhandled_and_bad_fields_fail() {
    assert!(matches!(Message::from_json("s7:Unknowni1;"), Some(Message::Unhandled)));
    // a known variant with a misnamed field
    assert!(Message::from_json("s3:Acks5:otheri12;").is_none());
    // trailing atoms
    assert!(Message::from_json("s4:Pingi1;").is_none());
    // a client id beyond 32 bits
    assert!(Message::from_json("s5:Leaves9:client_idi4294967296;").is_none());
    assert!(Message::from_json("i1;").is_none());
    assert!(Message::from_json("garbage").is_none());
}

#[test]
fn every_value_round_trips() {
    let all = vec![
        PropertyValue::Float(f(0.1)),
        PropertyValue::Int(i32::MIN),
        PropertyValue::Int(-1),
        PropertyValue::Int(i32::MAX),
        PropertyValue::Bool(true),
        PropertyValue::Bool(false),
        PropertyValue::String("line\nbreak: s3:x".to_string()),
        PropertyValue::Color(Color::new(f(0.2), f(0.4), f(0.6), f(0.8))),
        PropertyValue::Vec2(f(1.0), f(-2.0)),
        PropertyValue::Vec4(f(1.0), f(2.0), f(3.0), f(f32::NAN)),
    ];
    for v in &all {
        let text = v.encode();
        assert_eq!(PropertyValue::decode(&text).as_ref(), Some(v));
    }
    assert_eq!(PropertyValue::Bool(true).encode(), "s4:Booli1;");
    assert_eq!(PropertyValue::Int(-1).encode(), "s3:Inti4294967295;");
    assert_eq!(PropertyValue::decode("s4:Booli2;"), None);
    assert_eq!(PropertyValue::decode("s5:Colori1;"), None);
    assert_eq!(PropertyValue::decode("s4:Nopei1;"), None);
}

#[test]
fn property_indices_round_trip() {
    assert_eq!(Property::X.index(), 0);
    assert_eq!(Property::ParentId.index(), 38);
    assert_eq!(Property::from_index(38), Some(Property::ParentId));
    assert_eq!(Property::from_index(39), None);
}

#[test]
fn nodes_round_trip() {
    let mut n = Node::new(ObjectId::new(11, 22), NodeType::Text);
    n.set_order_index("0.05".to_string());
    n.set_property(Property::Text, PropertyValue::String("hi".to_string()));
    n.set_property(Property::FontSize, PropertyValue::Float(f(16.0)));
    n.set_property(Property::FillColor, PropertyValue::Color(Color::black()));
    n.set_property(Property::LayoutGap, PropertyValue::Vec2(f(1.0), f(2.0)));
    let text = n.encode();
    let back = Node::decode(&text).expect("decodes");
    assert_eq!(back.id(), n.id());
    assert_eq!(back.node_type(), n.node_type());
    assert_eq!(back.order_index(), n.order_index());
    assert_eq!(back.properties(), n.properties());
    assert!(Node::decode(&text[..text.len() - 1]).is_none());
    assert!(Node::decode("s4:Node").is_none());
    let empty = Node::new(ObjectId::new(1, 2), NodeType::Page);
    let back = Node::decode(&empty.encode()).unwrap();
    assert_eq!(back.properties().len(), 0);
    assert_eq!(back.order_index(), "0.5");
}
