use anatsui_core::document::Document;
use anatsui_core::ids::ObjectId;
use anatsui_core::multiplayer::message::Message;
use anatsui_core::multiplayer::sync::SyncEngine;
use anatsui_core::multiplayer::{get_user_color, ClientId, UserCursor};
use anatsui_core::properties::{Float32, Property, PropertyValue};

fn f(v: f32) -> Float32 {
    Float32::from_bits(v.to_bits())
}

fn join_ack(id: u32) -> String {
    Message::JoinAck { client_id: id, document_state: "{}".to_string() }.to_json()
}

fn remote_change(object_id: ObjectId, property: Property, value: &PropertyValue, sequence: u64) -> String {
    Message::PropertyChange { client_id: 9, object_id, property, value: value.encode(), sequence }.to_json()
}

fn connected_engine() -> (SyncEngine, Document) {
    let mut engine = SyncEngine::new();
    let mut doc = Document::new("shared");
    assert_eq!(engine.process_message(&join_ack(4), &mut doc), None);
    (engine, doc)
}

#[test]
fn join_ack_connects_and_disconnect_forgets_id() {
    let (mut engine, _doc) = connected_engine();
    assert!(engine.is_connected());
    assert_eq!(engine.client_id(), Some(4));
    engine.set_connected(false);
    assert!(!engine.is_connected());
    assert_eq!(engine.client_id(), None);
}

#[test]
fn messages_need_a_client_id() {
    let mut engine = SyncEngine::new();
    assert_eq!(engine.create_cursor_message(f(1.0), f(2.0)), None);
    assert_eq!(engine.create_property_change_message(ObjectId::new(1, 1), Property::X, "v"), None);
    let join = engine.create_join_message("doc-1", "Ada");
    match Message::from_json(&join) {
        Some(Message::Join { document_id, client_name }) => {
            assert_eq!(document_id, "doc-1");
            assert_eq!(client_name, "Ada");
        }
        other => panic!("unexpected {:?}", other),
    }
    assert!(!engine.is_connected());
}

#[test]
fn property_change_messages_take_increasing_sequences() {
    let (mut engine, _doc) = connected_engine();
    let obj = ObjectId::new(1, 2);
    let first = engine.create_property_change_message(obj, Property::Width, "w").unwrap();
    let second = engine.create_property_change_message(obj, Property::Width, "w").unwrap();
    match (Message::from_json(&first), Message::from_json(&second)) {
        (
            Some(Message::PropertyChange { sequence: a, client_id, .. }),
            Some(Message::PropertyChange { sequence: b, .. }),
        ) => {
            assert_eq!(client_id, 4);
            assert_eq!(a, 1);
            assert_eq!(b, 2);
        }
        other => panic!("unexpected {:?}", other),
    }
    let cursor = engine.create_cursor_message(f(3.0), f(4.0)).unwrap();
    match Message::from_json(&cursor) {
        Some(Message::CursorMove { client_id, x, y }) => {
            assert_eq!((client_id, x, y), (4, f(3.0), f(4.0)));
        }
        other => panic!("unexpected {:?}", other),
    }
}

#[test]
fn remote_change_is_applied_without_pending_change() {
    let (mut engine, mut doc) = connected_engine();
    let page = doc.get_children(doc.root_id())[0];
    let rect = doc.create_rectangle(page, f(0.0), f(0.0), f(10.0), f(10.0));
    let msg = remote_change(rect, Property::X, &PropertyValue::Float(f(55.0)), 1);
    assert_eq!(engine.process_message(&msg, &mut doc), None);
    assert_eq!(doc.get_node_x(rect), f(55.0));
}

#[test]
fn pending_local_change_wins_until_acknowledged() {
    let (mut engine, mut doc) = connected_engine();
    let page = doc.get_children(doc.root_id())[0];
    let rect = doc.create_rectangle(page, f(0.0), f(0.0), f(10.0), f(10.0));
    // the local edit, shown at once and sent
    doc.set_node_x(rect, f(7.0));
    let sent = engine.propose_property_change(rect, Property::X, PropertyValue::Float(f(7.0))).unwrap();
    let seq = match Message::from_json(&sent) {
        Some(Message::PropertyChange { sequence, value, .. }) => {
            assert_eq!(PropertyValue::decode(&value), Some(PropertyValue::Float(f(7.0))));
            sequence
        }
        other => panic!("unexpected {:?}", other),
    };
    assert!(engine.has_pending_change(rect, Property::X));
    assert_eq!(engine.pending_count(), 1);
    // a concurrent remote edit of the same property is dropped
    let remote = remote_change(rect, Property::X, &PropertyValue::Float(f(99.0)), 50);
    engine.process_message(&remote, &mut doc);
    assert_eq!(doc.get_node_x(rect), f(7.0));
    // another property is not held back
    let other = remote_change(rect, Property::Y, &PropertyValue::Float(f(3.0)), 51);
    engine.process_message(&other, &mut doc);
    assert_eq!(doc.get_node_y(rect), f(3.0));
    // an acknowledgment of another sequence retires nothing
    engine.process_message(&Message::Ack { sequence: seq + 100 }.to_json(), &mut doc);
    assert_eq!(engine.pending_count(), 1);
    // once acknowledged, remote edits apply again
    engine.process_message(&Message::Ack { sequence: seq }.to_json(), &mut doc);
    assert_eq!(engine.pending_count(), 0);
    engine.process_message(&remote, &mut doc);
    assert_eq!(doc.get_node_x(rect), f(99.0));
}

#[test]
fn pending_changes_are_kept_once_per_property() {
    let (mut engine, _doc) = connected_engine();
    let obj = ObjectId::new(3, 3);
    engine.add_pending_change(obj, Property::X, PropertyValue::Float(f(1.0)));
    engine.add_pending_change(obj, Property::X, PropertyValue::Float(f(2.0)));
    engine.add_pending_change(obj, Property::Y, PropertyValue::Float(f(2.0)));
    assert_eq!(engine.pending_count(), 2);
}

#[test]
fn cursors_are_tracked_and_dropped() {
    let (mut engine, mut doc) = connected_engine();
    let mv = Message::CursorMove { client_id: 10, x: f(1.0), y: f(2.0) }.to_json();
    engine.process_message(&mv, &mut doc);
    assert_eq!(engine.cursor_count(), 1);
    let c = engine.cursors()[0];
    assert_eq!(c.name(), "User 10");
    assert_eq!(c.color(), get_user_color(ClientId::new(10)));
    assert_eq!(c.color(), "#1ABCFE");
    assert_eq!((c.x(), c.y()), (f(1.0), f(2.0)));
    let mv2 = Message::CursorMove { client_id: 10, x: f(5.0), y: f(6.0) }.to_json();
    engine.process_message(&mv2, &mut doc);
    assert_eq!(engine.cursor_count(), 1);
    assert_eq!(engine.cursors()[0].x(), f(5.0));
    engine.process_message(&Message::Leave { client_id: 10 }.to_json(), &mut doc);
    assert_eq!(engine.cursor_count(), 0);
}

#[test]
fn ping_gets_pong_and_garbage_gets_nothing() {
    let (mut engine, mut doc) = connected_engine();
    let reply = engine.process_message(&Message::Ping.to_json(), &mut doc).unwrap();
    assert!(matches!(Message::from_json(&reply), Some(Message::Pong)));
    let version = doc.version();
    assert_eq!(engine.process_message("not a message", &mut doc), None);
    assert_eq!(engine.process_message("", &mut doc), None);
    assert_eq!(doc.version(), version);
    assert!(engine.is_connected());
    let err = Message::Error { code: 3, message: "denied".to_string() }.to_json();
    assert_eq!(engine.process_message(&err, &mut doc), None);
}

#[test]
fn user_colors_cycle() {
    assert_eq!(get_user_color(ClientId::new(0)), "#F24E1E");
    assert_eq!(get_user_color(ClientId::new(8)), "#F24E1E");
    assert_eq!(get_user_color(ClientId::new(7)), "#C7B9FF");
    let mut c = UserCursor::new(ClientId::new(2), "Bo", "#000000");
    assert_eq!(c.client_id().value(), 2);
    c.set_position(f(1.5), f(2.5));
    assert_eq!(c.x(), f(1.5));
    assert_eq!(c.y(), f(2.5));
}
