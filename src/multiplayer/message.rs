//! Messages exchanged between clients and the server, and their wire form.
//!
//! On the wire a message is a sequence of atoms (see `codec`): its variant's
//! name as a text, then for each field the field's name as a text followed by
//! its value. Identifiers take two integers, floats their bit pattern,
//! properties their position in the closed set, and a list of identifiers its
//! length followed by the identifiers. A well-formed message whose variant
//! name is unknown decodes to `Unhandled`.
use vstd::prelude::*;
use crate::codec::{
    atom_fits, atoms_view, decode_atoms, enc_atoms, encode_atoms, lemma_atoms_round_trip,
    parse_atoms, same_atoms, same_text, text_at, text_at_exec, u32_of, u32_of_exec, uint_at,
    uint_at_exec, Atom, AtomView,
};
use crate::ids::ObjectId;
use crate::properties::{lemma_property_index, property_at, property_index, Float32, Property};

verus! {

/// A message of the collaboration protocol.
#[derive(Debug)]
pub enum Message {
    /// A client asks to join a document.
    Join {
        document_id: String,
        client_name: String,
    },
    /// The server admits a client, with its id and a snapshot of the document.
    JoinAck {
        client_id: u32,
        document_state: String,
    },
    /// A client left.
    Leave {
        client_id: u32,
    },
    /// A client's cursor moved.
    CursorMove {
        client_id: u32,
        x: Float32,
        y: Float32,
    },
    /// A client set a property; the value is in its serialized form.
    PropertyChange {
        client_id: u32,
        object_id: ObjectId,
        property: Property,
        value: String,
        sequence: u64,
    },
    /// A client created an object.
    CreateObject {
        client_id: u32,
        object_id: ObjectId,
        object_type: String,
        parent_id: ObjectId,
        order_index: String,
        sequence: u64,
    },
    /// A client deleted an object.
    DeleteObject {
        client_id: u32,
        object_id: ObjectId,
        sequence: u64,
    },
    /// A client moved an object to another parent or place.
    MoveObject {
        client_id: u32,
        object_id: ObjectId,
        new_parent_id: ObjectId,
        order_index: String,
        sequence: u64,
    },
    /// The server accepted the change with this sequence number.
    Ack {
        sequence: u64,
    },
    /// A client's selection changed.
    SelectionChange {
        client_id: u32,
        selected_ids: Vec<ObjectId>,
    },
    /// An error to show to the user.
    Error {
        code: u32,
        message: String,
    },
    /// A heartbeat.
    Ping,
    /// The answer to a heartbeat.
    Pong,
    /// A message of a kind this version does not know; it is dropped.
    Unhandled,
}

/// A message with its texts and lists as mathematical sequences.
pub enum MessageView {
    Join {
        document_id: Seq<char>,
        client_name: Seq<char>,
    },
    JoinAck {
        client_id: u32,
        document_state: Seq<char>,
    },
    Leave {
        client_id: u32,
    },
    CursorMove {
        client_id: u32,
        x: Float32,
        y: Float32,
    },
    PropertyChange {
        client_id: u32,
        object_id: ObjectId,
        property: Property,
        value: Seq<char>,
        sequence: u64,
    },
    CreateObject {
        client_id: u32,
        object_id: ObjectId,
        object_type: Seq<char>,
        parent_id: ObjectId,
        order_index: Seq<char>,
        sequence: u64,
    },
    DeleteObject {
        client_id: u32,
        object_id: ObjectId,
        sequence: u64,
    },
    MoveObject {
        client_id: u32,
        object_id: ObjectId,
        new_parent_id: ObjectId,
        order_index: Seq<char>,
        sequence: u64,
    },
    Ack {
        sequence: u64,
    },
    SelectionChange {
        client_id: u32,
        selected_ids: Seq<ObjectId>,
    },
    Error {
        code: u32,
        message: Seq<char>,
    },
    Ping,
    Pong,
    Unhandled,
}

impl View for Message {
    type V = MessageView;

    open spec fn view(&self) -> MessageView {
        match self {
            Message::Join { document_id, client_name } => MessageView::Join { document_id: document_id@, client_name: client_name@ },
            Message::JoinAck { client_id, document_state } => MessageView::JoinAck { client_id: *client_id, document_state: document_state@ },
            Message::Leave { client_id } => MessageView::Leave { client_id: *client_id },
            Message::CursorMove { client_id, x, y } => MessageView::CursorMove { client_id: *client_id, x: *x, y: *y },
            Message::PropertyChange { client_id, object_id, property, value, sequence } => MessageView::PropertyChange { client_id: *client_id, object_id: *object_id, property: *property, value: value@, sequence: *sequence },
            Message::CreateObject { client_id, object_id, object_type, parent_id, order_index, sequence } => MessageView::CreateObject { client_id: *client_id, object_id: *object_id, object_type: object_type@, parent_id: *parent_id, order_index: order_index@, sequence: *sequence },
            Message::DeleteObject { client_id, object_id, sequence } => MessageView::DeleteObject { client_id: *client_id, object_id: *object_id, sequence: *sequence },
            Message::MoveObject { client_id, object_id, new_parent_id, order_index, sequence } => MessageView::MoveObject { client_id: *client_id, object_id: *object_id, new_parent_id: *new_parent_id, order_index: order_index@, sequence: *sequence },
            Message::Ack { sequence } => MessageView::Ack { sequence: *sequence },
            Message::SelectionChange { client_id, selected_ids } => MessageView::SelectionChange { client_id: *client_id, selected_ids: selected_ids@ },
            Message::Error { code, message } => MessageView::Error { code: *code, message: message@ },
            Message::Ping => MessageView::Ping,
            Message::Pong => MessageView::Pong,
            Message::Unhandled => MessageView::Unhandled,
        }
    }
}

pub open spec fn text_atom(s: Seq<char>) -> AtomView {
    AtomView::Text(s)
}

pub open spec fn uint_atom(n: u64) -> AtomView {
    AtomView::Uint(n)
}

pub open spec fn id_atoms(id: ObjectId) -> Seq<AtomView> {
    seq![uint_atom(id.client_id as u64), uint_atom(id.sequence as u64)]
}

pub open spec fn ids_atoms(ids: Seq<ObjectId>) -> Seq<AtomView> {
    Seq::new(
        2 * ids.len(),
        |k: int|
            if k % 2 == 0 {
                uint_atom(ids[k / 2].client_id as u64)
            } else {
                uint_atom(ids[k / 2].sequence as u64)
            },
    )
}

pub open spec fn id_from(l: Seq<AtomView>, i: int) -> ObjectId {
    ObjectId { client_id: u32_of(uint_at(l, i)), sequence: u32_of(uint_at(l, i + 1)) }
}

pub open spec fn ids_from(l: Seq<AtomView>, i: int, count: u64) -> Seq<ObjectId> {
    Seq::new(count as nat, |k: int| id_from(l, i + 2 * k))
}

pub open spec fn property_from(n: u64) -> Property {
    match property_at(n) {
        Some(p) => p,
        None => Property::X,
    }
}

/// The atoms of a message.
pub open spec fn message_atoms(m: MessageView) -> Seq<AtomView> {
    match m {
        MessageView::Join { document_id, client_name } => seq![text_atom("Join"@)] + seq![text_atom("document_id"@)] + seq![text_atom(document_id)] + seq![text_atom("client_name"@)] + seq![text_atom(client_name)],
        MessageView::JoinAck { client_id, document_state } => seq![text_atom("JoinAck"@)] + seq![text_atom("client_id"@)] + seq![uint_atom(client_id as u64)] + seq![text_atom("document_state"@)] + seq![text_atom(document_state)],
        MessageView::Leave { client_id } => seq![text_atom("Leave"@)] + seq![text_atom("client_id"@)] + seq![uint_atom(client_id as u64)],
        MessageView::CursorMove { client_id, x, y } => seq![text_atom("CursorMove"@)] + seq![text_atom("client_id"@)] + seq![uint_atom(client_id as u64)] + seq![text_atom("x"@)] + seq![uint_atom(x.bits as u64)] + seq![text_atom("y"@)] + seq![uint_atom(y.bits as u64)],
        MessageView::PropertyChange { client_id, object_id, property, value, sequence } => seq![text_atom("PropertyChange"@)] + seq![text_atom("client_id"@)] + seq![uint_atom(client_id as u64)] + seq![text_atom("object_id"@)] + id_atoms(object_id) + seq![text_atom("property"@)] + seq![uint_atom(property_index(property))] + seq![text_atom("value"@)] + seq![text_atom(value)] + seq![text_atom("sequence"@)] + seq![uint_atom(sequence)],
        MessageView::CreateObject { client_id, object_id, object_type, parent_id, order_index, sequence } => seq![text_atom("CreateObject"@)] + seq![text_atom("client_id"@)] + seq![uint_atom(client_id as u64)] + seq![text_atom("object_id"@)] + id_atoms(object_id) + seq![text_atom("object_type"@)] + seq![text_atom(object_type)] + seq![text_atom("parent_id"@)] + id_atoms(parent_id) + seq![text_atom("order_index"@)] + seq![text_atom(order_index)] + seq![text_atom("sequence"@)] + seq![uint_atom(sequence)],
        MessageView::DeleteObject { client_id, object_id, sequence } => seq![text_atom("DeleteObject"@)] + seq![text_atom("client_id"@)] + seq![uint_atom(client_id as u64)] + seq![text_atom("object_id"@)] + id_atoms(object_id) + seq![text_atom("sequence"@)] + seq![uint_atom(sequence)],
        MessageView::MoveObject { client_id, object_id, new_parent_id, order_index, sequence } => seq![text_atom("MoveObject"@)] + seq![text_atom("client_id"@)] + seq![uint_atom(client_id as u64)] + seq![text_atom("object_id"@)] + id_atoms(object_id) + seq![text_atom("new_parent_id"@)] + id_atoms(new_parent_id) + seq![text_atom("order_index"@)] + seq![text_atom(order_index)] + seq![text_atom("sequence"@)] + seq![uint_atom(sequence)],
        MessageView::Ack { sequence } => seq![text_atom("Ack"@)] + seq![text_atom("sequence"@)] + seq![uint_atom(sequence)],
        MessageView::SelectionChange { client_id, selected_ids } => seq![text_atom("SelectionChange"@)] + seq![text_atom("client_id"@)] + seq![uint_atom(client_id as u64)] + seq![text_atom("selected_ids"@)] + seq![uint_atom(selected_ids.len() as u64)] + ids_atoms(selected_ids),
        MessageView::Error { code, message } => seq![text_atom("Error"@)] + seq![text_atom("code"@)] + seq![uint_atom(code as u64)] + seq![text_atom("message"@)] + seq![text_atom(message)],
        MessageView::Ping => seq![text_atom("Ping"@)],
        MessageView::Pong => seq![text_atom("Pong"@)],
        MessageView::Unhandled => seq![text_atom("Unhandled"@)],
    }
}

pub open spec fn known_tag(t: Seq<char>) -> bool {
    t == "Join"@
    || t == "JoinAck"@
    || t == "Leave"@
    || t == "CursorMove"@
    || t == "PropertyChange"@
    || t == "CreateObject"@
    || t == "DeleteObject"@
    || t == "MoveObject"@
    || t == "Ack"@
    || t == "SelectionChange"@
    || t == "Error"@
    || t == "Ping"@
    || t == "Pong"@
}

/// The message that atoms `l` would be if its variant is the one `l` names;
/// fields that are missing or of the wrong kind are read as zero or empty.
pub open spec fn candidate(l: Seq<AtomView>) -> MessageView {
    let t = text_at(l, 0);
    if t == "Join"@ {
        MessageView::Join { document_id: text_at(l, 2), client_name: text_at(l, 4) }
    } else if t == "JoinAck"@ {
        MessageView::JoinAck { client_id: u32_of(uint_at(l, 2)), document_state: text_at(l, 4) }
    } else if t == "Leave"@ {
        MessageView::Leave { client_id: u32_of(uint_at(l, 2)) }
    } else if t == "CursorMove"@ {
        MessageView::CursorMove { client_id: u32_of(uint_at(l, 2)), x: Float32 { bits: u32_of(uint_at(l, 4)) }, y: Float32 { bits: u32_of(uint_at(l, 6)) } }
    } else if t == "PropertyChange"@ {
        MessageView::PropertyChange { client_id: u32_of(uint_at(l, 2)), object_id: id_from(l, 4), property: property_from(uint_at(l, 7)), value: text_at(l, 9), sequence: uint_at(l, 11) }
    } else if t == "CreateObject"@ {
        MessageView::CreateObject { client_id: u32_of(uint_at(l, 2)), object_id: id_from(l, 4), object_type: text_at(l, 7), parent_id: id_from(l, 9), order_index: text_at(l, 12), sequence: uint_at(l, 14) }
    } else if t == "DeleteObject"@ {
        MessageView::DeleteObject { client_id: u32_of(uint_at(l, 2)), object_id: id_from(l, 4), sequence: uint_at(l, 7) }
    } else if t == "MoveObject"@ {
        MessageView::MoveObject { client_id: u32_of(uint_at(l, 2)), object_id: id_from(l, 4), new_parent_id: id_from(l, 7), order_index: text_at(l, 10), sequence: uint_at(l, 12) }
    } else if t == "Ack"@ {
        MessageView::Ack { sequence: uint_at(l, 2) }
    } else if t == "SelectionChange"@ {
        MessageView::SelectionChange { client_id: u32_of(uint_at(l, 2)), selected_ids: ids_from(l, 5, uint_at(l, 4)) }
    } else if t == "Error"@ {
        MessageView::Error { code: u32_of(uint_at(l, 2)), message: text_at(l, 4) }
    } else if t == "Ping"@ {
        MessageView::Ping
    } else if t == "Pong"@ {
        MessageView::Pong
    } else {
        MessageView::Unhandled
    }
}

/// The message that atoms `l` stand for: `None` when they are not exactly the
/// atoms of one message, `Unhandled` when they name an unknown variant.
pub open spec fn message_of_atoms(l: Seq<AtomView>) -> Option<MessageView> {
    if l.len() == 0 || !(l[0] is Text) {
        None
    } else if !known_tag(l[0]->Text_0) {
        Some(MessageView::Unhandled)
    } else if message_atoms(candidate(l)) == l {
        Some(candidate(l))
    } else {
        None
    }
}

/// The wire text of a message.
pub open spec fn message_text(m: MessageView) -> Seq<char> {
    enc_atoms(message_atoms(m))
}

/// The message a wire text decodes to.
pub open spec fn decode_message(s: Seq<char>) -> Option<MessageView> {
    match parse_atoms(s) {
        Some(l) => message_of_atoms(l),
        None => None,
    }
}

/// Every text and list of the message has a length that fits in 64 bits.
pub open spec fn message_fits(m: MessageView) -> bool {
    &&& m matches MessageView::SelectionChange { selected_ids, .. } ==> selected_ids.len() <= u64::MAX
    &&& forall|i: int| 0 <= i < message_atoms(m).len() ==> atom_fits(#[trigger] message_atoms(m)[i])
}

/// The characters of each variant name.
proof fn lemma_tag_texts()
    ensures
        "Join"@ == seq!['J', 'o', 'i', 'n'],
        "JoinAck"@ == seq!['J', 'o', 'i', 'n', 'A', 'c', 'k'],
        "Leave"@ == seq!['L', 'e', 'a', 'v', 'e'],
        "CursorMove"@ == seq!['C', 'u', 'r', 's', 'o', 'r', 'M', 'o', 'v', 'e'],
        "PropertyChange"@ == seq!['P', 'r', 'o', 'p', 'e', 'r', 't', 'y', 'C', 'h', 'a', 'n', 'g', 'e'],
        "CreateObject"@ == seq!['C', 'r', 'e', 'a', 't', 'e', 'O', 'b', 'j', 'e', 'c', 't'],
        "DeleteObject"@ == seq!['D', 'e', 'l', 'e', 't', 'e', 'O', 'b', 'j', 'e', 'c', 't'],
        "MoveObject"@ == seq!['M', 'o', 'v', 'e', 'O', 'b', 'j', 'e', 'c', 't'],
        "Ack"@ == seq!['A', 'c', 'k'],
        "SelectionChange"@ == seq!['S', 'e', 'l', 'e', 'c', 't', 'i', 'o', 'n', 'C', 'h', 'a', 'n', 'g', 'e'],
        "Error"@ == seq!['E', 'r', 'r', 'o', 'r'],
        "Ping"@ == seq!['P', 'i', 'n', 'g'],
        "Pong"@ == seq!['P', 'o', 'n', 'g'],
        "Unhandled"@ == seq!['U', 'n', 'h', 'a', 'n', 'd', 'l', 'e', 'd'],
{
    reveal_strlit("Join");
    reveal_strlit("JoinAck");
    reveal_strlit("Leave");
    reveal_strlit("CursorMove");
    reveal_strlit("PropertyChange");
    reveal_strlit("CreateObject");
    reveal_strlit("DeleteObject");
    reveal_strlit("MoveObject");
    reveal_strlit("Ack");
    reveal_strlit("SelectionChange");
    reveal_strlit("Error");
    reveal_strlit("Ping");
    reveal_strlit("Pong");
    reveal_strlit("Unhandled");
}

proof fn lemma_round_trip_join(m: MessageView)
    requires
        m is Join,
    ensures
        message_of_atoms(message_atoms(m)) == Some(m),
{
    match m {
        MessageView::Join { document_id, client_name } => {
            lemma_tag_texts();
            reveal_strlit("client_name");
            reveal_strlit("document_id");
            let l = message_atoms(m);
            assert(l =~= seq![text_atom("Join"@), text_atom("document_id"@), text_atom(document_id), text_atom("client_name"@), text_atom(client_name)]);
            assert(l[0] == text_atom("Join"@));
            assert(text_at(l, 0) == "Join"@);
            assert(candidate(l) == m);
        },
        _ => {},
    }
}

proof fn lemma_round_trip_join_ack(m: MessageView)
    requires
        m is JoinAck,
    ensures
        message_of_atoms(message_atoms(m)) == Some(m),
{
    match m {
        MessageView::JoinAck { client_id, document_state } => {
            lemma_tag_texts();
            reveal_strlit("client_id");
            reveal_strlit("document_state");
            let l = message_atoms(m);
            assert(l =~= seq![text_atom("JoinAck"@), text_atom("client_id"@), uint_atom(client_id as u64), text_atom("document_state"@), text_atom(document_state)]);
            assert(l[0] == text_atom("JoinAck"@));
            assert(text_at(l, 0) == "JoinAck"@);
            assert(candidate(l) == m);
        },
        _ => {},
    }
}

proof fn lemma_round_trip_leave(m: MessageView)
    requires
        m is Leave,
    ensures
        message_of_atoms(message_atoms(m)) == Some(m),
{
    match m {
        MessageView::Leave { client_id } => {
            lemma_tag_texts();
            reveal_strlit("client_id");
            let l = message_atoms(m);
            assert(l =~= seq![text_atom("Leave"@), text_atom("client_id"@), uint_atom(client_id as u64)]);
            assert(l[0] == text_atom("Leave"@));
            assert(text_at(l, 0) == "Leave"@);
            assert(candidate(l) == m);
        },
        _ => {},
    }
}

proof fn lemma_round_trip_cursor_move(m: MessageView)
    requires
        m is CursorMove,
    ensures
        message_of_atoms(message_atoms(m)) == Some(m),
{
    match m {
        MessageView::CursorMove { client_id, x, y } => {
            lemma_tag_texts();
            reveal_strlit("client_id");
            reveal_strlit("x");
            reveal_strlit("y");
            let l = message_atoms(m);
            assert(l =~= seq![text_atom("CursorMove"@), text_atom("client_id"@), uint_atom(client_id as u64), text_atom("x"@), uint_atom(x.bits as u64), text_atom("y"@), uint_atom(y.bits as u64)]);
            assert(l[0] == text_atom("CursorMove"@));
            assert(text_at(l, 0) == "CursorMove"@);
            assert(candidate(l) == m);
        },
        _ => {},
    }
}

proof fn lemma_round_trip_property_change(m: MessageView)
    requires
        m is PropertyChange,
    ensures
        message_of_atoms(message_atoms(m)) == Some(m),
{
    match m {
        MessageView::PropertyChange { client_id, object_id, property, value, sequence } => {
            lemma_tag_texts();
            reveal_strlit("client_id");
            reveal_strlit("object_id");
            reveal_strlit("property");
            reveal_strlit("sequence");
            reveal_strlit("value");
            let l = message_atoms(m);
            assert(l =~= seq![text_atom("PropertyChange"@), text_atom("client_id"@), uint_atom(client_id as u64), text_atom("object_id"@), uint_atom(object_id.client_id as u64), uint_atom(object_id.sequence as u64), text_atom("property"@), uint_atom(property_index(property)), text_atom("value"@), text_atom(value), text_atom("sequence"@), uint_atom(sequence)]);
            assert(l[0] == text_atom("PropertyChange"@));
            assert(text_at(l, 0) == "PropertyChange"@);
            lemma_property_index(property);
            assert(candidate(l) == m);
        },
        _ => {},
    }
}

proof fn lemma_round_trip_create_object(m: MessageView)
    requires
        m is CreateObject,
    ensures
        message_of_atoms(message_atoms(m)) == Some(m),
{
    match m {
        MessageView::CreateObject { client_id, object_id, object_type, parent_id, order_index, sequence } => {
            lemma_tag_texts();
            reveal_strlit("client_id");
            reveal_strlit("object_id");
            reveal_strlit("object_type");
            reveal_strlit("order_index");
            reveal_strlit("parent_id");
            reveal_strlit("sequence");
            let l = message_atoms(m);
            assert(l =~= seq![text_atom("CreateObject"@), text_atom("client_id"@), uint_atom(client_id as u64), text_atom("object_id"@), uint_atom(object_id.client_id as u64), uint_atom(object_id.sequence as u64), text_atom("object_type"@), text_atom(object_type), text_atom("parent_id"@), uint_atom(parent_id.client_id as u64), uint_atom(parent_id.sequence as u64), text_atom("order_index"@), text_atom(order_index), text_atom("sequence"@), uint_atom(sequence)]);
            assert(l[0] == text_atom("CreateObject"@));
            assert(text_at(l, 0) == "CreateObject"@);
            assert(candidate(l) == m);
        },
        _ => {},
    }
}

proof fn lemma_round_trip_delete_object(m: MessageView)
    requires
        m is DeleteObject,
    ensures
        message_of_atoms(message_atoms(m)) == Some(m),
{
    match m {
        MessageView::DeleteObject { client_id, object_id, sequence } => {
            lemma_tag_texts();
            reveal_strlit("client_id");
            reveal_strlit("object_id");
            reveal_strlit("sequence");
            let l = message_atoms(m);
            assert(l =~= seq![text_atom("DeleteObject"@), text_atom("client_id"@), uint_atom(client_id as u64), text_atom("object_id"@), uint_atom(object_id.client_id as u64), uint_atom(object_id.sequence as u64), text_atom("sequence"@), uint_atom(sequence)]);
            assert(l[0] == text_atom("DeleteObject"@));
            assert(text_at(l, 0) == "DeleteObject"@);
            assert("DeleteObject"@[0] != "CreateObject"@[0]);
            assert("DeleteObject"@ != "CreateObject"@);
            assert(candidate(l) == m);
        },
        _ => {},
    }
}

proof fn lemma_round_trip_move_object(m: MessageView)
    requires
        m is MoveObject,
    ensures
        message_of_atoms(message_atoms(m)) == Some(m),
{
    match m {
        MessageView::MoveObject { client_id, object_id, new_parent_id, order_index, sequence } => {
            lemma_tag_texts();
            reveal_strlit("client_id");
            reveal_strlit("new_parent_id");
            reveal_strlit("object_id");
            reveal_strlit("order_index");
            reveal_strlit("sequence");
            let l = message_atoms(m);
            assert(l =~= seq![text_atom("MoveObject"@), text_atom("client_id"@), uint_atom(client_id as u64), text_atom("object_id"@), uint_atom(object_id.client_id as u64), uint_atom(object_id.sequence as u64), text_atom("new_parent_id"@), uint_atom(new_parent_id.client_id as u64), uint_atom(new_parent_id.sequence as u64), text_atom("order_index"@), text_atom(order_index), text_atom("sequence"@), uint_atom(sequence)]);
            assert(l[0] == text_atom("MoveObject"@));
            assert(text_at(l, 0) == "MoveObject"@);
            assert("MoveObject"@[0] != "CursorMove"@[0]);
            assert("MoveObject"@ != "CursorMove"@);
            assert(candidate(l) == m);
        },
        _ => {},
    }
}

proof fn lemma_round_trip_ack(m: MessageView)
    requires
        m is Ack,
    ensures
        message_of_atoms(message_atoms(m)) == Some(m),
{
    match m {
        MessageView::Ack { sequence } => {
            lemma_tag_texts();
            reveal_strlit("sequence");
            let l = message_atoms(m);
            assert(l =~= seq![text_atom("Ack"@), text_atom("sequence"@), uint_atom(sequence)]);
            assert(l[0] == text_atom("Ack"@));
            assert(text_at(l, 0) == "Ack"@);
            assert(candidate(l) == m);
        },
        _ => {},
    }
}

proof fn lemma_round_trip_selection_change(m: MessageView)
    requires
        m is SelectionChange,
        m->SelectionChange_selected_ids.len() <= u64::MAX,
    ensures
        message_of_atoms(message_atoms(m)) == Some(m),
{
    match m {
        MessageView::SelectionChange { client_id, selected_ids } => {
            lemma_tag_texts();
            reveal_strlit("client_id");
            reveal_strlit("selected_ids");
            let l = message_atoms(m);
            assert(l =~= seq![text_atom("SelectionChange"@), text_atom("client_id"@), uint_atom(client_id as u64), text_atom("selected_ids"@), uint_atom(selected_ids.len() as u64)] + ids_atoms(selected_ids));
            assert(l[0] == text_atom("SelectionChange"@));
            assert(text_at(l, 0) == "SelectionChange"@);
            assert(candidate(l) == MessageView::SelectionChange { client_id: u32_of(uint_at(l, 2)), selected_ids: ids_from(l, 5, uint_at(l, 4)) });
            assert(uint_at(l, 4) as nat == selected_ids.len());
            assert forall|k: int| 0 <= k < selected_ids.len() implies #[trigger] candidate(l)->SelectionChange_selected_ids[k] == selected_ids[k] by {
            assert(l[5 + 2 * k] == ids_atoms(selected_ids)[2 * k]);
            assert(l[5 + 2 * k + 1] == ids_atoms(selected_ids)[2 * k + 1]);
            assert((2 * k) % 2 == 0 && (2 * k) / 2 == k);
            assert((2 * k + 1) % 2 == 1 && (2 * k + 1) / 2 == k);
        }
            assert(candidate(l)->SelectionChange_selected_ids =~= selected_ids);
            assert(candidate(l) == m);
        },
        _ => {},
    }
}

proof fn lemma_round_trip_error(m: MessageView)
    requires
        m is Error,
    ensures
        message_of_atoms(message_atoms(m)) == Some(m),
{
    match m {
        MessageView::Error { code, message } => {
            lemma_tag_texts();
            reveal_strlit("code");
            reveal_strlit("message");
            let l = message_atoms(m);
            assert(l =~= seq![text_atom("Error"@), text_atom("code"@), uint_atom(code as u64), text_atom("message"@), text_atom(message)]);
            assert(l[0] == text_atom("Error"@));
            assert(text_at(l, 0) == "Error"@);
            assert("Error"@[0] != "Leave"@[0]);
            assert("Error"@ != "Leave"@);
            assert(candidate(l) == m);
        },
        _ => {},
    }
}

proof fn lemma_round_trip_ping(m: MessageView)
    requires
        m is Ping,
    ensures
        message_of_atoms(message_atoms(m)) == Some(m),
{
    match m {
        MessageView::Ping => {
            lemma_tag_texts();
            let l = message_atoms(m);
            assert(l =~= seq![text_atom("Ping"@)]);
            assert(l[0] == text_atom("Ping"@));
            assert(text_at(l, 0) == "Ping"@);
            assert("Ping"@[0] != "Join"@[0]);
            assert("Ping"@ != "Join"@);
            assert(candidate(l) == m);
        },
        _ => {},
    }
}

proof fn lemma_round_trip_pong(m: MessageView)
    requires
        m is Pong,
    ensures
        message_of_atoms(message_atoms(m)) == Some(m),
{
    match m {
        MessageView::Pong => {
            lemma_tag_texts();
            let l = message_atoms(m);
            assert(l =~= seq![text_atom("Pong"@)]);
            assert(l[0] == text_atom("Pong"@));
            assert(text_at(l, 0) == "Pong"@);
            assert("Pong"@[0] != "Join"@[0]);
            assert("Pong"@ != "Join"@);
            assert("Pong"@[1] != "Ping"@[1]);
            assert("Pong"@ != "Ping"@);
            assert(candidate(l) == m);
        },
        _ => {},
    }
}

proof fn lemma_round_trip_unhandled(m: MessageView)
    requires
        m is Unhandled,
    ensures
        message_of_atoms(message_atoms(m)) == Some(m),
{
    match m {
        MessageView::Unhandled => {
            lemma_tag_texts();
            let l = message_atoms(m);
            assert(l =~= seq![text_atom("Unhandled"@)]);
            assert(l[0] == text_atom("Unhandled"@));
            assert("Unhandled"@ != "Join"@) by { assert("Unhandled"@.len() != "Join"@.len()); }
            assert("Unhandled"@ != "JoinAck"@) by { assert("Unhandled"@.len() != "JoinAck"@.len()); }
            assert("Unhandled"@ != "Leave"@) by { assert("Unhandled"@.len() != "Leave"@.len()); }
            assert("Unhandled"@ != "CursorMove"@) by { assert("Unhandled"@.len() != "CursorMove"@.len()); }
            assert("Unhandled"@ != "PropertyChange"@) by { assert("Unhandled"@.len() != "PropertyChange"@.len()); }
            assert("Unhandled"@ != "CreateObject"@) by { assert("Unhandled"@.len() != "CreateObject"@.len()); }
            assert("Unhandled"@ != "DeleteObject"@) by { assert("Unhandled"@.len() != "DeleteObject"@.len()); }
            assert("Unhandled"@ != "MoveObject"@) by { assert("Unhandled"@.len() != "MoveObject"@.len()); }
            assert("Unhandled"@ != "Ack"@) by { assert("Unhandled"@.len() != "Ack"@.len()); }
            assert("Unhandled"@ != "SelectionChange"@) by { assert("Unhandled"@.len() != "SelectionChange"@.len()); }
            assert("Unhandled"@ != "Error"@) by { assert("Unhandled"@.len() != "Error"@.len()); }
            assert("Unhandled"@ != "Ping"@) by { assert("Unhandled"@.len() != "Ping"@.len()); }
            assert("Unhandled"@ != "Pong"@) by { assert("Unhandled"@.len() != "Pong"@.len()); }
            assert(!known_tag("Unhandled"@));
        },
        _ => {},
    }
}

proof fn lemma_candidate_round_trip(m: MessageView)
    requires
        m matches MessageView::SelectionChange { selected_ids, .. } ==> selected_ids.len() <= u64::MAX,
    ensures
        message_of_atoms(message_atoms(m)) == Some(m),
{
    match m {
        MessageView::Join { .. } => lemma_round_trip_join(m),
        MessageView::JoinAck { .. } => lemma_round_trip_join_ack(m),
        MessageView::Leave { .. } => lemma_round_trip_leave(m),
        MessageView::CursorMove { .. } => lemma_round_trip_cursor_move(m),
        MessageView::PropertyChange { .. } => lemma_round_trip_property_change(m),
        MessageView::CreateObject { .. } => lemma_round_trip_create_object(m),
        MessageView::DeleteObject { .. } => lemma_round_trip_delete_object(m),
        MessageView::MoveObject { .. } => lemma_round_trip_move_object(m),
        MessageView::Ack { .. } => lemma_round_trip_ack(m),
        MessageView::SelectionChange { .. } => lemma_round_trip_selection_change(m),
        MessageView::Error { .. } => lemma_round_trip_error(m),
        MessageView::Ping => lemma_round_trip_ping(m),
        MessageView::Pong => lemma_round_trip_pong(m),
        MessageView::Unhandled => lemma_round_trip_unhandled(m),
    }
}

/// Decoding the wire text of a message gives the message back.
pub proof fn lemma_message_round_trip(m: MessageView)
    requires
        message_fits(m),
    ensures
        decode_message(message_text(m)) == Some(m),
{
    lemma_atoms_round_trip(message_atoms(m));
    lemma_candidate_round_trip(m);
}

} // verus!
verus! {

fn u32_at(l: &Vec<Atom>, i: usize) -> (r: u32)
    ensures
        r == u32_of(uint_at(atoms_view(l@), i as int)),
{
    u32_of_exec(uint_at_exec(l, i))
}

fn id_at(l: &Vec<Atom>, i: usize) -> (r: ObjectId)
    requires
        i < usize::MAX,
    ensures
        r == id_from(atoms_view(l@), i as int),
{
    ObjectId { client_id: u32_at(l, i), sequence: u32_at(l, i + 1) }
}

fn property_at_exec(l: &Vec<Atom>, i: usize) -> (r: Property)
    ensures
        r == property_from(uint_at(atoms_view(l@), i as int)),
{
    match Property::from_index(uint_at_exec(l, i)) {
        Some(p) => p,
        None => Property::X,
    }
}

impl Message {
    /// The atoms of this message.
    pub fn atoms(&self) -> (r: Vec<Atom>)
        ensures
            atoms_view(r@) == message_atoms(self@),
    {
        let mut v: Vec<Atom> = Vec::new();
        match self {
            Message::Join { document_id, client_name } => {
                v.push(Atom::Text(String::from_str("Join")));
                v.push(Atom::Text(String::from_str("document_id")));
                v.push(Atom::Text(document_id.clone()));
                v.push(Atom::Text(String::from_str("client_name")));
                v.push(Atom::Text(client_name.clone()));
            },
            Message::JoinAck { client_id, document_state } => {
                v.push(Atom::Text(String::from_str("JoinAck")));
                v.push(Atom::Text(String::from_str("client_id")));
                v.push(Atom::Uint(*client_id as u64));
                v.push(Atom::Text(String::from_str("document_state")));
                v.push(Atom::Text(document_state.clone()));
            },
            Message::Leave { client_id } => {
                v.push(Atom::Text(String::from_str("Leave")));
                v.push(Atom::Text(String::from_str("client_id")));
                v.push(Atom::Uint(*client_id as u64));
            },
            Message::CursorMove { client_id, x, y } => {
                v.push(Atom::Text(String::from_str("CursorMove")));
                v.push(Atom::Text(String::from_str("client_id")));
                v.push(Atom::Uint(*client_id as u64));
                v.push(Atom::Text(String::from_str("x")));
                v.push(Atom::Uint(x.bits as u64));
                v.push(Atom::Text(String::from_str("y")));
                v.push(Atom::Uint(y.bits as u64));
            },
            Message::PropertyChange { client_id, object_id, property, value, sequence } => {
                v.push(Atom::Text(String::from_str("PropertyChange")));
                v.push(Atom::Text(String::from_str("client_id")));
                v.push(Atom::Uint(*client_id as u64));
                v.push(Atom::Text(String::from_str("object_id")));
                v.push(Atom::Uint(object_id.client_id as u64));
                v.push(Atom::Uint(object_id.sequence as u64));
                v.push(Atom::Text(String::from_str("property")));
                v.push(Atom::Uint(property.index()));
                v.push(Atom::Text(String::from_str("value")));
                v.push(Atom::Text(value.clone()));
                v.push(Atom::Text(String::from_str("sequence")));
                v.push(Atom::Uint(*sequence));
            },
            Message::CreateObject { client_id, object_id, object_type, parent_id, order_index, sequence } => {
                v.push(Atom::Text(String::from_str("CreateObject")));
                v.push(Atom::Text(String::from_str("client_id")));
                v.push(Atom::Uint(*client_id as u64));
                v.push(Atom::Text(String::from_str("object_id")));
                v.push(Atom::Uint(object_id.client_id as u64));
                v.push(Atom::Uint(object_id.sequence as u64));
                v.push(Atom::Text(String::from_str("object_type")));
                v.push(Atom::Text(object_type.clone()));
                v.push(Atom::Text(String::from_str("parent_id")));
                v.push(Atom::Uint(parent_id.client_id as u64));
                v.push(Atom::Uint(parent_id.sequence as u64));
                v.push(Atom::Text(String::from_str("order_index")));
                v.push(Atom::Text(order_index.clone()));
                v.push(Atom::Text(String::from_str("sequence")));
                v.push(Atom::Uint(*sequence));
            },
            Message::DeleteObject { client_id, object_id, sequence } => {
                v.push(Atom::Text(String::from_str("DeleteObject")));
                v.push(Atom::Text(String::from_str("client_id")));
                v.push(Atom::Uint(*client_id as u64));
                v.push(Atom::Text(String::from_str("object_id")));
                v.push(Atom::Uint(object_id.client_id as u64));
                v.push(Atom::Uint(object_id.sequence as u64));
                v.push(Atom::Text(String::from_str("sequence")));
                v.push(Atom::Uint(*sequence));
            },
            Message::MoveObject { client_id, object_id, new_parent_id, order_index, sequence } => {
                v.push(Atom::Text(String::from_str("MoveObject")));
                v.push(Atom::Text(String::from_str("client_id")));
                v.push(Atom::Uint(*client_id as u64));
                v.push(Atom::Text(String::from_str("object_id")));
                v.push(Atom::Uint(object_id.client_id as u64));
                v.push(Atom::Uint(object_id.sequence as u64));
                v.push(Atom::Text(String::from_str("new_parent_id")));
                v.push(Atom::Uint(new_parent_id.client_id as u64));
                v.push(Atom::Uint(new_parent_id.sequence as u64));
                v.push(Atom::Text(String::from_str("order_index")));
                v.push(Atom::Text(order_index.clone()));
                v.push(Atom::Text(String::from_str("sequence")));
                v.push(Atom::Uint(*sequence));
            },
            Message::Ack { sequence } => {
                v.push(Atom::Text(String::from_str("Ack")));
                v.push(Atom::Text(String::from_str("sequence")));
                v.push(Atom::Uint(*sequence));
            },
            Message::SelectionChange { client_id, selected_ids } => {
                v.push(Atom::Text(String::from_str("SelectionChange")));
                v.push(Atom::Text(String::from_str("client_id")));
                v.push(Atom::Uint(*client_id as u64));
                v.push(Atom::Text(String::from_str("selected_ids")));
                v.push(Atom::Uint(selected_ids.len() as u64));
                let ghost base = atoms_view(v@);
                let mut i: usize = 0;
                while i < selected_ids.len()
                    invariant
                        i <= selected_ids@.len(),
                        atoms_view(v@) == base + ids_atoms(selected_ids@.take(i as int)),
                    decreases selected_ids@.len() - i,
                {
                    let id = selected_ids[i];
                    proof {
                        assert(ids_atoms(selected_ids@.take(i + 1)) =~= ids_atoms(selected_ids@.take(i as int)).push(uint_atom(id.client_id as u64)).push(uint_atom(id.sequence as u64))) by {
                            let t = selected_ids@.take(i + 1);
                            assert forall|k: int| 0 <= k < 2 * i implies #[trigger] ids_atoms(t)[k] == ids_atoms(selected_ids@.take(i as int))[k] by {
                                assert(t[k / 2] == selected_ids@.take(i as int)[k / 2]);
                            }
                            assert((2 * i) / 2 == i && (2 * i) % 2 == 0);
                            assert((2 * i + 1) / 2 == i && (2 * i + 1) % 2 == 1);
                        }
                    }
                    let ghost before = v@;
                    v.push(Atom::Uint(id.client_id as u64));
                    v.push(Atom::Uint(id.sequence as u64));
                    proof {
                        assert(v@ == before.push(Atom::Uint(id.client_id as u64)).push(Atom::Uint(id.sequence as u64)));
                        assert(atoms_view(v@) =~= atoms_view(before).push(uint_atom(id.client_id as u64)).push(uint_atom(id.sequence as u64)));
                        assert(atoms_view(v@) =~= base + ids_atoms(selected_ids@.take(i + 1)));
                    }
                    i = i + 1;
                }
                assert(selected_ids@.take(selected_ids@.len() as int) == selected_ids@);
            },
            Message::Error { code, message } => {
                v.push(Atom::Text(String::from_str("Error")));
                v.push(Atom::Text(String::from_str("code")));
                v.push(Atom::Uint(*code as u64));
                v.push(Atom::Text(String::from_str("message")));
                v.push(Atom::Text(message.clone()));
            },
            Message::Ping => {
                v.push(Atom::Text(String::from_str("Ping")));
            },
            Message::Pong => {
                v.push(Atom::Text(String::from_str("Pong")));
            },
            Message::Unhandled => {
                v.push(Atom::Text(String::from_str("Unhandled")));
            },
        }
        assert(atoms_view(v@) =~= message_atoms(self@));
        v
    }

    /// The message that atoms `l` stand for (see `message_of_atoms`).
    pub fn from_atoms(l: &Vec<Atom>) -> (r: Option<Message>)
        ensures
            match r {
                Some(m) => message_of_atoms(atoms_view(l@)) == Some(m@),
                None => message_of_atoms(atoms_view(l@)) is None,
            },
    {
        let ghost lv = atoms_view(l@);
        if l.len() == 0 {
            return None;
        }
        let tag = match &l[0] {
            Atom::Text(t) => t,
            Atom::Uint(_) => {
                return None;
            },
        };
        assert(text_at(lv, 0) == tag@);
        let cand = if same_text(tag.as_str(), "Join") {
            Message::Join {
                document_id: text_at_exec(l, 2),
                client_name: text_at_exec(l, 4),
            }
        } else if same_text(tag.as_str(), "JoinAck") {
            Message::JoinAck {
                client_id: u32_at(l, 2),
                document_state: text_at_exec(l, 4),
            }
        } else if same_text(tag.as_str(), "Leave") {
            Message::Leave {
                client_id: u32_at(l, 2),
            }
        } else if same_text(tag.as_str(), "CursorMove") {
            Message::CursorMove {
                client_id: u32_at(l, 2),
                x: Float32 { bits: u32_at(l, 4) },
                y: Float32 { bits: u32_at(l, 6) },
            }
        } else if same_text(tag.as_str(), "PropertyChange") {
            Message::PropertyChange {
                client_id: u32_at(l, 2),
                object_id: id_at(l, 4),
                property: property_at_exec(l, 7),
                value: text_at_exec(l, 9),
                sequence: uint_at_exec(l, 11),
            }
        } else if same_text(tag.as_str(), "CreateObject") {
            Message::CreateObject {
                client_id: u32_at(l, 2),
                object_id: id_at(l, 4),
                object_type: text_at_exec(l, 7),
                parent_id: id_at(l, 9),
                order_index: text_at_exec(l, 12),
                sequence: uint_at_exec(l, 14),
            }
        } else if same_text(tag.as_str(), "DeleteObject") {
            Message::DeleteObject {
                client_id: u32_at(l, 2),
                object_id: id_at(l, 4),
                sequence: uint_at_exec(l, 7),
            }
        } else if same_text(tag.as_str(), "MoveObject") {
            Message::MoveObject {
                client_id: u32_at(l, 2),
                object_id: id_at(l, 4),
                new_parent_id: id_at(l, 7),
                order_index: text_at_exec(l, 10),
                sequence: uint_at_exec(l, 12),
            }
        } else if same_text(tag.as_str(), "Ack") {
            Message::Ack {
                sequence: uint_at_exec(l, 2),
            }
        } else if same_text(tag.as_str(), "SelectionChange") {
            let count = uint_at_exec(l, 4);
            if l.len() < 5 || count > ((l.len() - 5) / 2) as u64 {
                proof {
                    assert(candidate(lv)->SelectionChange_selected_ids.len() == count);
                    assert(message_atoms(candidate(lv)).len() != lv.len());
                }
                return None;
            }
            let mut selected_ids: Vec<ObjectId> = Vec::new();
            let n_ids = count as usize;
            assert(n_ids == count);
            let mut k: usize = 0;
            while k < n_ids
                invariant
                    n_ids == count,
                    k <= count,
                    l@.len() <= usize::MAX,
                    5 + 2 * count <= l@.len(),
                    lv == atoms_view(l@),
                    selected_ids@ == ids_from(lv, 5, count).take(k as int),
                decreases count - k,
            {
                let id = id_at(l, 5 + 2 * k);
                proof {
                    assert(ids_from(lv, 5, count).take(k + 1) =~= ids_from(lv, 5, count).take(k as int).push(id));
                }
                selected_ids.push(id);
                k = k + 1;
            }
            assert(selected_ids@ =~= ids_from(lv, 5, count));
            Message::SelectionChange {
                client_id: u32_at(l, 2),
                selected_ids,
            }
        } else if same_text(tag.as_str(), "Error") {
            Message::Error {
                code: u32_at(l, 2),
                message: text_at_exec(l, 4),
            }
        } else if same_text(tag.as_str(), "Ping") {
            Message::Ping
        } else if same_text(tag.as_str(), "Pong") {
            Message::Pong
        } else {
            return Some(Message::Unhandled);
        };
        assert(cand@ == candidate(lv));
        let atoms = cand.atoms();
        if same_atoms(&atoms, l) {
            Some(cand)
        } else {
            None
        }
    }

    /// The wire text of this message: its atoms (see `codec`), a
    /// length-prefixed text format of this library rather than JSON.
    pub fn to_json(&self) -> (r: String)
        ensures
            r@ == message_text(self@),
    {
        encode_atoms(&self.atoms())
    }

    /// Decodes a wire text written by `to_json`; `None` when it is malformed.
    pub fn from_json(json: &str) -> (r: Option<Message>)
        ensures
            match r {
                Some(m) => decode_message(json@) == Some(m@),
                None => decode_message(json@) is None,
            },
    {
        match decode_atoms(json) {
            Some(l) => Message::from_atoms(&l),
            None => None,
        }
    }
}

} // verus!
