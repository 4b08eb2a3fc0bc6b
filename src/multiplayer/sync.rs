//! The sync engine: one connection's view of the collaboration session.
//!
//! Conflict policy: a remote property change is applied only when no local
//! change to the same (object, property) is still waiting for the server's
//! acknowledgment; otherwise it is dropped in favour of the local one.
use vstd::prelude::*;
use std::collections::HashMap;
use vstd::relations::injective_on;
use vstd::set_lib::lemma_map_size;
use crate::document::{set_property_effect, Document, DocumentView};
use crate::ids::ObjectId;
use crate::multiplayer::message::{decode_message, message_text, Message, MessageView};
use crate::multiplayer::{placeholder_name, user_color, ClientId, CursorView, UserCursor};
use crate::properties::{decode_value, value_text, Float32, Property, PropertyValue, ValueView};

verus! {

broadcast use vstd::std_specs::hash::group_hash_axioms;

/// A local change that the server has not acknowledged yet.
#[derive(Debug)]
pub struct PendingChange {
    pub object_id: ObjectId,
    pub property: Property,
    pub value: PropertyValue,
    pub sequence: u64,
}

pub struct PendingView {
    pub object_id: ObjectId,
    pub property: Property,
    pub value: ValueView,
    pub sequence: u64,
}

impl View for PendingChange {
    type V = PendingView;

    open spec fn view(&self) -> PendingView {
        PendingView {
            object_id: self.object_id,
            property: self.property,
            value: self.value@,
            sequence: self.sequence,
        }
    }
}

pub open spec fn pending_view(s: Seq<PendingChange>) -> Seq<PendingView> {
    s.map_values(|c: PendingChange| c@)
}

/// Which pending changes a removal takes out.
pub enum PendingFilter {
    /// Those with this sequence number.
    Sequence(u64),
    /// Those for this object and property.
    Key(ObjectId, Property),
}

pub open spec fn filter_hits(f: PendingFilter, c: PendingView) -> bool {
    match f {
        PendingFilter::Sequence(s) => c.sequence == s,
        PendingFilter::Key(o, p) => c.object_id == o && c.property == p,
    }
}

/// The changes of `s` that `f` does not take out, in order.
pub open spec fn pending_without(s: Seq<PendingView>, f: PendingFilter) -> Seq<PendingView>
    decreases s.len(),
{
    if s.len() == 0 {
        s
    } else if filter_hits(f, s[0]) {
        pending_without(s.drop_first(), f)
    } else {
        seq![s[0]] + pending_without(s.drop_first(), f)
    }
}

/// A local change to `(o, p)` is waiting for acknowledgment.
pub open spec fn has_pending(s: Seq<PendingView>, o: ObjectId, p: Property) -> bool {
    exists|i: int| 0 <= i < s.len() && s[i].object_id == o && s[i].property == p
}

/// No two pending changes are for the same object and property.
pub open spec fn pending_keys_unique(s: Seq<PendingView>) -> bool {
    forall|i: int, j: int|
        0 <= i < s.len() && 0 <= j < s.len() && i != j ==> !(s[i].object_id == s[j].object_id
            && s[i].property == s[j].property)
}

/// The state of the engine.
pub struct SyncView {
    pub client_id: Option<u32>,
    pub sequence: u64,
    pub pending: Seq<PendingView>,
    pub cursors: Map<u32, CursorView>,
    pub connected: bool,
}

/// Where a peer's cursor is after it reports `(x, y)`.
pub open spec fn moved_cursor(cursors: Map<u32, CursorView>, id: u32, x: Float32, y: Float32) -> CursorView {
    if cursors.contains_key(id) {
        CursorView { x, y, ..cursors[id] }
    } else {
        CursorView { client_id: id, name: placeholder_name(id), color: user_color(id), x, y }
    }
}

/// The engine state after an inbound message.
pub open spec fn step_sync(s: SyncView, m: MessageView) -> SyncView {
    match m {
        MessageView::JoinAck { client_id, .. } => SyncView { client_id: Some(client_id), connected: true, ..s },
        MessageView::CursorMove { client_id, x, y } => SyncView {
            cursors: s.cursors.insert(client_id, moved_cursor(s.cursors, client_id, x, y)),
            ..s
        },
        MessageView::Ack { sequence } => SyncView {
            pending: pending_without(s.pending, PendingFilter::Sequence(sequence)),
            ..s
        },
        MessageView::Leave { client_id } => SyncView { cursors: s.cursors.remove(client_id), ..s },
        _ => s,
    }
}

/// The answer to an inbound message, if any: a `Pong` for a `Ping`.
pub open spec fn step_reply(m: MessageView) -> Option<Seq<char>> {
    if m is Ping {
        Some(message_text(MessageView::Pong))
    } else {
        None
    }
}

/// The value a remote property change writes into the document: none while a
/// local change to the same object and property is pending, or when the
/// value does not decode.
pub open spec fn remote_value(s: SyncView, m: MessageView) -> Option<ValueView> {
    match m {
        MessageView::PropertyChange { object_id, property, value, .. } => if has_pending(
            s.pending,
            object_id,
            property,
        ) {
            None
        } else {
            decode_value(value)
        },
        _ => None,
    }
}

/// What an inbound message does to the document.
pub open spec fn step_document(s: SyncView, m: MessageView, d0: DocumentView, d1: DocumentView) -> bool {
    match remote_value(s, m) {
        Some(v) => set_property_effect(d0, d1, m->PropertyChange_object_id, m->PropertyChange_property, v),
        None => d1 == d0,
    }
}

/// What processing the text `json` does, whether it decodes or not.
pub open spec fn processed(
    json: Seq<char>,
    s0: SyncView,
    s1: SyncView,
    d0: DocumentView,
    d1: DocumentView,
    r: Option<Seq<char>>,
) -> bool {
    match decode_message(json) {
        None => r is None && s1 == s0 && d1 == d0,
        Some(m) => s1 == step_sync(s0, m) && r == step_reply(m) && step_document(s0, m, d0, d1),
    }
}

/// The state of one client's connection.
pub struct SyncEngine {
    client_id: Option<ClientId>,
    sequence: u64,
    pending_changes: Vec<PendingChange>,
    cursors: HashMap<u32, UserCursor>,
    connected: bool,
}

impl View for SyncEngine {
    type V = SyncView;

    closed spec fn view(&self) -> SyncView {
        SyncView {
            client_id: match self.client_id {
                Some(c) => Some(c.id),
                None => None,
            },
            sequence: self.sequence,
            pending: pending_view(self.pending_changes@),
            cursors: self.cursors@.map_values(|c: UserCursor| c@),
            connected: self.connected,
        }
    }
}

proof fn lemma_without_push(s: Seq<PendingView>, x: PendingView, f: PendingFilter)
    ensures
        pending_without(s.push(x), f) == if filter_hits(f, x) {
            pending_without(s, f)
        } else {
            pending_without(s, f).push(x)
        },
    decreases s.len(),
{
    if s.len() == 0 {
        assert(s.push(x).drop_first() == s);
        assert(s.push(x) == seq![x]);
        assert(seq![x] + s == seq![x]);
    } else {
        assert(s.push(x).drop_first() == s.drop_first().push(x));
        lemma_without_push(s.drop_first(), x, f);
        if !filter_hits(f, s[0]) && !filter_hits(f, x) {
            assert(seq![s[0]] + pending_without(s.drop_first(), f).push(x) == (seq![s[0]]
                + pending_without(s.drop_first(), f)).push(x));
        }
    }
}

/// What survives a removal is what the filter misses, in order.
pub proof fn lemma_without_members(s: Seq<PendingView>, f: PendingFilter)
    ensures
        forall|c: PendingView| pending_without(s, f).contains(c) <==> s.contains(c) && !filter_hits(f, c),
        pending_keys_unique(s) ==> pending_keys_unique(pending_without(s, f)),
    decreases s.len(),
{
    if s.len() > 0 {
        lemma_without_members(s.drop_first(), f);
        let t = pending_without(s.drop_first(), f);
        assert forall|c: PendingView| pending_without(s, f).contains(c) <==> s.contains(c) && !filter_hits(f, c) by {
            if s.contains(c) {
                let i = choose|i: int| 0 <= i < s.len() && s[i] == c;
                if i > 0 {
                    assert(s.drop_first()[i - 1] == c);
                }
            }
            if s.drop_first().contains(c) {
                let i = choose|i: int| 0 <= i < s.drop_first().len() && s.drop_first()[i] == c;
                assert(s[i + 1] == c);
            }
            if !filter_hits(f, s[0]) {
                let w = seq![s[0]] + t;
                if w.contains(c) {
                    let i = choose|i: int| 0 <= i < w.len() && w[i] == c;
                    if i > 0 {
                        assert(t[i - 1] == c);
                    }
                }
                if t.contains(c) {
                    let i = choose|i: int| 0 <= i < t.len() && t[i] == c;
                    assert(w[i + 1] == c);
                }
                if c == s[0] {
                    assert(w[0] == c);
                }
            }
        }
        if pending_keys_unique(s) {
            assert(pending_keys_unique(s.drop_first())) by {
                assert forall|i: int, j: int| 0 <= i < s.drop_first().len() && 0 <= j < s.drop_first().len() && i != j
                    implies !(s.drop_first()[i].object_id == s.drop_first()[j].object_id && s.drop_first()[i].property == s.drop_first()[j].property) by {
                    assert(s.drop_first()[i] == s[i + 1] && s.drop_first()[j] == s[j + 1]);
                }
            }
            if !filter_hits(f, s[0]) {
                let w = seq![s[0]] + t;
                assert forall|i: int, j: int| 0 <= i < w.len() && 0 <= j < w.len() && i != j
                    implies !(w[i].object_id == w[j].object_id && w[i].property == w[j].property) by {
                    if i == 0 && j > 0 {
                        assert(t.contains(w[j]));
                        assert(s.drop_first().contains(w[j]));
                        let k = choose|k: int| 0 <= k < s.drop_first().len() && s.drop_first()[k] == w[j];
                        assert(s[k + 1] == w[j]);
                    } else if j == 0 && i > 0 {
                        assert(t.contains(w[i]));
                        assert(s.drop_first().contains(w[i]));
                        let k = choose|k: int| 0 <= k < s.drop_first().len() && s.drop_first()[k] == w[i];
                        assert(s[k + 1] == w[i]);
                    } else if i > 0 && j > 0 {
                        assert(w[i] == t[i - 1] && w[j] == t[j - 1]);
                    }
                }
            }
        }
    }
}

/// A remote change to an object and property that has a pending local change
/// is dropped: the document stays as it was, so a local value already shown
/// for that property is still the one it holds.
pub proof fn lemma_pending_local_change_wins(
    json: Seq<char>,
    s0: SyncView,
    s1: SyncView,
    d0: DocumentView,
    d1: DocumentView,
    r: Option<Seq<char>>,
    local: PendingView,
)
    requires
        processed(json, s0, s1, d0, d1, r),
        decode_message(json) matches Some(m) && m is PropertyChange && m->PropertyChange_object_id
            == local.object_id && m->PropertyChange_property == local.property,
        s0.pending.contains(local),
    ensures
        d1 == d0,
        d0.tree.nodes.contains_key(local.object_id) && d0.tree.nodes[local.object_id].properties.contains_key(local.property)
            && d0.tree.nodes[local.object_id].properties[local.property] == local.value
            ==> d1.tree.nodes[local.object_id].properties[local.property] == local.value,
{
    let i = choose|i: int| 0 <= i < s0.pending.len() && s0.pending[i] == local;
    assert(has_pending(s0.pending, local.object_id, local.property));
}

/// Once the server acknowledges the sequence number of the pending change to
/// an object and property, a later remote change to them is applied.
pub proof fn lemma_acknowledged_change_admits_remote(
    ack_json: Seq<char>,
    change_json: Seq<char>,
    s0: SyncView,
    s1: SyncView,
    s2: SyncView,
    d0: DocumentView,
    d1: DocumentView,
    d2: DocumentView,
    r1: Option<Seq<char>>,
    r2: Option<Seq<char>>,
    local: PendingView,
    remote: ValueView,
)
    requires
        pending_keys_unique(s0.pending),
        s0.pending.contains(local),
        decode_message(ack_json) == Some(MessageView::Ack { sequence: local.sequence }),
        processed(ack_json, s0, s1, d0, d1, r1),
        decode_message(change_json) matches Some(m) && m is PropertyChange && m->PropertyChange_object_id
            == local.object_id && m->PropertyChange_property == local.property && decode_value(
            m->PropertyChange_value,
        ) == Some(remote),
        processed(change_json, s1, s2, d1, d2, r2),
        d1.tree.nodes.contains_key(local.object_id),
    ensures
        d2.tree.nodes[local.object_id].properties.contains_key(local.property),
        d2.tree.nodes[local.object_id].properties[local.property] == remote,
{
    let f = PendingFilter::Sequence(local.sequence);
    lemma_without_members(s0.pending, f);
    assert(s1.pending == pending_without(s0.pending, f));
    if has_pending(s1.pending, local.object_id, local.property) {
        let i = choose|i: int| 0 <= i < s1.pending.len() && s1.pending[i].object_id == local.object_id && s1.pending[i].property == local.property;
        let e = s1.pending[i];
        assert(s1.pending.contains(e));
        assert(s0.pending.contains(e));
        let a = choose|a: int| 0 <= a < s0.pending.len() && s0.pending[a] == e;
        let b = choose|b: int| 0 <= b < s0.pending.len() && s0.pending[b] == local;
        assert(a == b);
    }
}

impl SyncEngine {
    /// Pending changes never share an object and property, and each cursor
    /// is stored under its own client id.
    pub closed spec fn wf(&self) -> bool {
        pending_keys_unique(self@.pending) && self.cursors_wf() && self@.cursors.dom().finite()
    }

    closed spec fn cursors_wf(&self) -> bool {
        forall|k: u32| #[trigger] self.cursors@.contains_key(k) ==> self.cursors@[k]@.client_id == k
    }

    pub proof fn lemma_wf(&self)
        requires
            self.wf(),
        ensures
            pending_keys_unique(self@.pending),
            self@.cursors.dom().finite(),
    {
    }

    pub fn new() -> (r: SyncEngine)
        ensures
            r.wf(),
            r@.client_id is None,
            r@.sequence == 0,
            r@.pending == Seq::<PendingView>::empty(),
            r@.cursors == Map::<u32, CursorView>::empty(),
            !r@.connected,
    {
        let r = SyncEngine {
            client_id: None,
            sequence: 0,
            pending_changes: Vec::new(),
            cursors: HashMap::new(),
            connected: false,
        };
        assert(r@.pending =~= Seq::<PendingView>::empty());
        assert(r@.cursors =~= Map::<u32, CursorView>::empty());
        r
    }

    pub fn client_id(&self) -> (r: Option<u32>)
        ensures
            r == self@.client_id,
    {
        match self.client_id {
            Some(c) => Some(c.value()),
            None => None,
        }
    }

    pub fn is_connected(&self) -> (r: bool)
        ensures
            r == self@.connected,
    {
        self.connected
    }

    /// Records the connection state; disconnecting forgets the client id.
    pub fn set_connected(&mut self, connected: bool)
        ensures
            final(self)@ == (SyncView {
                connected,
                client_id: if connected { old(self)@.client_id } else { None },
                ..old(self)@
            }),
            final(self).wf() == old(self).wf(),
    {
        self.connected = connected;
        if !connected {
            self.client_id = None;
        }
    }

    /// The request to join a document; the state changes only when the
    /// server's `JoinAck` arrives.
    pub fn create_join_message(&self, document_id: &str, client_name: &str) -> (r: String)
        ensures
            r@ == message_text(MessageView::Join { document_id: document_id@, client_name: client_name@ }),
    {
        Message::Join {
            document_id: String::from_str(document_id),
            client_name: String::from_str(client_name),
        }.to_json()
    }

    /// The message that moves this client's cursor; `None` before the client
    /// has an id.
    pub fn create_cursor_message(&self, x: Float32, y: Float32) -> (r: Option<String>)
        ensures
            match self@.client_id {
                Some(c) => r is Some && r->0@ == message_text(MessageView::CursorMove { client_id: c, x, y }),
                None => r is None,
            },
    {
        match self.client_id {
            Some(c) => Some(Message::CursorMove { client_id: c.value(), x, y }.to_json()),
            None => None,
        }
    }

    /// Takes the next sequence number and builds the message for a property
    /// change with it. `None`, with nothing changed, before the client has an
    /// id or once the sequence numbers are used up.
    pub fn create_property_change_message(
        &mut self,
        object_id: ObjectId,
        property: Property,
        value: &str,
    ) -> (r: Option<String>)
        ensures
            final(self).wf() == old(self).wf(),
            match old(self)@.client_id {
                Some(c) => if old(self)@.sequence < u64::MAX {
                    &&& final(self)@ == (SyncView { sequence: (old(self)@.sequence + 1) as u64, ..old(self)@ })
                    &&& r is Some
                    &&& r->0@ == message_text(MessageView::PropertyChange {
                        client_id: c,
                        object_id,
                        property,
                        value: value@,
                        sequence: (old(self)@.sequence + 1) as u64,
                    })
                } else {
                    r is None && final(self)@ == old(self)@
                },
                None => r is None && final(self)@ == old(self)@,
            },
    {
        match self.client_id {
            Some(c) => {
                if self.sequence == u64::MAX {
                    return None;
                }
                self.sequence = self.sequence + 1;
                Some(
                    Message::PropertyChange {
                        client_id: c.value(),
                        object_id,
                        property,
                        value: String::from_str(value),
                        sequence: self.sequence,
                    }.to_json(),
                )
            },
            None => None,
        }
    }

    /// Takes out the pending changes that `f` hits.
    fn drop_pending(&mut self, f: PendingFilter)
        ensures
            final(self)@ == (SyncView { pending: pending_without(old(self)@.pending, f), ..old(self)@ }),
            final(self).cursors == old(self).cursors,
    {
        let ghost s = pending_view(self.pending_changes@);
        let ghost mut k: int = 0;
        let mut i: usize = 0;
        assert(s.subrange(0, 0) == Seq::<PendingView>::empty());
        assert(s.subrange(0, s.len() as int) == s);
        while i < self.pending_changes.len()
            invariant
                0 <= i <= k <= s.len(),
                i <= self.pending_changes@.len(),
                self.pending_changes@.len() - i == s.len() - k,
                pending_view(self.pending_changes@).subrange(0, i as int) == pending_without(s.subrange(0, k), f),
                pending_view(self.pending_changes@).subrange(i as int, self.pending_changes@.len() as int)
                    == s.subrange(k, s.len() as int),
                self.client_id == old(self).client_id,
                self.sequence == old(self).sequence,
                self.cursors == old(self).cursors,
                self.connected == old(self).connected,
                s == pending_view(old(self).pending_changes@),
            decreases self.pending_changes@.len() - i,
        {
            let ghost cur = pending_view(self.pending_changes@);
            proof {
                assert(cur[i as int] == s[k]) by {
                    assert(cur.subrange(i as int, cur.len() as int)[0] == cur[i as int]);
                    assert(s.subrange(k, s.len() as int)[0] == s[k]);
                }
                assert(s.subrange(0, k + 1) == s.subrange(0, k).push(s[k]));
                lemma_without_push(s.subrange(0, k), s[k], f);
                assert(s.subrange(k + 1, s.len() as int) == s.subrange(k, s.len() as int).drop_first());
            }
            let hit = match f {
                PendingFilter::Sequence(q) => self.pending_changes[i].sequence == q,
                PendingFilter::Key(o, p) => self.pending_changes[i].object_id == o
                    && self.pending_changes[i].property == p,
            };
            if hit {
                self.pending_changes.remove(i);
                proof {
                    let now = pending_view(self.pending_changes@);
                    assert(now.subrange(0, i as int) == cur.subrange(0, i as int));
                    assert(now.subrange(i as int, now.len() as int) == cur.subrange(i + 1, cur.len() as int));
                    assert(cur.subrange(i + 1, cur.len() as int) == cur.subrange(i as int, cur.len() as int).drop_first());
                    k = k + 1;
                }
            } else {
                proof {
                    assert(cur.subrange(0, i + 1) == cur.subrange(0, i as int).push(cur[i as int]));
                    assert(cur.subrange(i + 1, cur.len() as int) == cur.subrange(i as int, cur.len() as int).drop_first());
                    k = k + 1;
                }
                i = i + 1;
            }
        }
        proof {
            let cur = pending_view(self.pending_changes@);
            assert(cur.subrange(i as int, cur.len() as int).len() == 0);
            assert(k == s.len());
            assert(s.subrange(0, k) == s);
            assert(cur == cur.subrange(0, i as int));
        }
        assert(self@.cursors == old(self)@.cursors);
    }

    /// Records a local change as pending under the next sequence number,
    /// replacing any pending change to the same object and property. Nothing
    /// changes once the sequence numbers are used up.
    pub fn add_pending_change(&mut self, object_id: ObjectId, property: Property, value: PropertyValue)
        requires
            old(self).wf(),
        ensures
            final(self).wf(),
            old(self)@.sequence == u64::MAX ==> final(self)@ == old(self)@,
            old(self)@.sequence < u64::MAX ==> final(self)@ == (SyncView {
                sequence: (old(self)@.sequence + 1) as u64,
                pending: pending_without(old(self)@.pending, PendingFilter::Key(object_id, property)).push(
                    PendingView { object_id, property, value: value@, sequence: (old(self)@.sequence + 1) as u64 },
                ),
                ..old(self)@
            }),
    {
        if self.sequence == u64::MAX {
            return;
        }
        let ghost s0 = self@.pending;
        assert(pending_keys_unique(s0));
        self.drop_pending(PendingFilter::Key(object_id, property));
        self.sequence = self.sequence + 1;
        let change = PendingChange { object_id, property, value, sequence: self.sequence };
        let ghost cv = change@;
        self.pending_changes.push(change);
        proof {
            let t = pending_without(s0, PendingFilter::Key(object_id, property));
            lemma_without_members(s0, PendingFilter::Key(object_id, property));
            assert(self@.pending =~= t.push(cv));
            let w = t.push(cv);
            assert forall|i: int, j: int| 0 <= i < w.len() && 0 <= j < w.len() && i != j
                implies !(w[i].object_id == w[j].object_id && w[i].property == w[j].property) by {
                if i == t.len() && j < t.len() {
                    assert(w[j] == t[j]);
                    assert(t.contains(w[j]));
                    assert(!filter_hits(PendingFilter::Key(object_id, property), w[j]));
                } else if j == t.len() && i < t.len() {
                    assert(w[i] == t[i]);
                    assert(t.contains(w[i]));
                    assert(!filter_hits(PendingFilter::Key(object_id, property), w[i]));
                } else {
                    assert(w[i] == t[i] && w[j] == t[j]);
                }
            }
        }
    }

    /// Registers a local change as pending and builds its message, under one
    /// sequence number, so that the server's acknowledgment of the message
    /// retires the pending change. `None`, with nothing changed, before the
    /// client has an id or once the sequence numbers are used up.
    pub fn propose_property_change(
        &mut self,
        object_id: ObjectId,
        property: Property,
        value: PropertyValue,
    ) -> (r: Option<String>)
        requires
            old(self).wf(),
        ensures
            final(self).wf(),
            (old(self)@.client_id is None || old(self)@.sequence == u64::MAX) ==> (r is None && final(self)@ == old(self)@),
            old(self)@.client_id is Some && old(self)@.sequence < u64::MAX ==> {
                let n = (old(self)@.sequence + 1) as u64;
                &&& final(self)@ == (SyncView {
                    sequence: n,
                    pending: pending_without(old(self)@.pending, PendingFilter::Key(object_id, property)).push(
                        PendingView { object_id, property, value: value@, sequence: n },
                    ),
                    ..old(self)@
                })
                &&& r is Some
                &&& r->0@ == message_text(MessageView::PropertyChange {
                    client_id: old(self)@.client_id->0,
                    object_id,
                    property,
                    value: value_text(value@),
                    sequence: n,
                })
            },
    {
        let c = match self.client_id {
            Some(c) => c,
            None => {
                return None;
            },
        };
        if self.sequence == u64::MAX {
            return None;
        }
        let text = value.encode();
        self.add_pending_change(object_id, property, value);
        Some(
            Message::PropertyChange {
                client_id: c.value(),
                object_id,
                property,
                value: text,
                sequence: self.sequence,
            }.to_json(),
        )
    }

    /// Whether a local change to `(object_id, property)` is pending.
    pub fn has_pending_change(&self, object_id: ObjectId, property: Property) -> (r: bool)
        ensures
            r == has_pending(self@.pending, object_id, property),
    {
        let mut i: usize = 0;
        while i < self.pending_changes.len()
            invariant
                i <= self.pending_changes@.len(),
                forall|j: int| 0 <= j < i ==> !(#[trigger] pending_view(self.pending_changes@)[j].object_id == object_id
                    && pending_view(self.pending_changes@)[j].property == property),
            decreases self.pending_changes@.len() - i,
        {
            if self.pending_changes[i].object_id == object_id && self.pending_changes[i].property == property {
                assert(pending_view(self.pending_changes@)[i as int].object_id == object_id);
                return true;
            }
            i = i + 1;
        }
        false
    }

    pub fn cursor_count(&self) -> (r: usize)
        ensures
            r as nat == self@.cursors.len(),
    {
        proof {
            assert(self@.cursors.dom() =~= self.cursors@.dom());
        }
        self.cursors.len()
    }

    pub fn pending_count(&self) -> (r: usize)
        ensures
            r as nat == self@.pending.len(),
    {
        self.pending_changes.len()
    }

    /// The peers' cursors, each once, in no particular order.
    pub fn cursors(&self) -> (r: Vec<&UserCursor>)
        requires
            self.wf(),
        ensures
            r@.len() == self@.cursors.len(),
            forall|i: int|
                0 <= i < r@.len() ==> self@.cursors.contains_key(#[trigger] r@[i]@.client_id)
                    && self@.cursors[r@[i]@.client_id] == r@[i]@,
            forall|i: int, j: int| 0 <= i < j < r@.len() ==> r@[i]@.client_id != r@[j]@.client_id,
    {
        proof {
            assert(self@.cursors.dom() =~= self.cursors@.dom());
        }
        let ghost m = self.cursors@;
        let ghost vals = m.values();
        proof {
            assert(self.cursors_wf());
            let f = |k: u32| m[k];
            assert forall|a: u32, b: u32| m.dom().contains(a) && m.dom().contains(b) && #[trigger] f(a) == #[trigger] f(b) implies a == b by {
                assert(m[a]@.client_id == a);
                assert(m[b]@.client_id == b);
            }
            assert(injective_on(f, m.dom()));
            assert(m.dom().map(f) =~= vals);
            lemma_map_size(m.dom(), vals, f);
        }
        let mut out: Vec<&UserCursor> = Vec::new();
        for c in it: self.cursors.values()
            invariant
                out@ == it.seq().take(it.index() as int),
                it.seq().unref().to_set() == vals,
                it.seq().len() == m.dom().len(),
                vals.len() == m.dom().len(),
                vals.finite(),
                m == self.cursors@,
                forall|k: u32| m.contains_key(k) ==> (#[trigger] m[k])@.client_id == k,
                forall|i: int| 0 <= i < out@.len() ==> vals.contains(*out@[i]),
                forall|i: int, j: int| 0 <= i < j < out@.len() ==> out@[i]@.client_id != out@[j]@.client_id,
        {
            proof {
                let u = it.seq().unref();
                let x = it.index() as int;
                assert(u[x] == *it.seq()[x]);
                assert(u.to_set().contains(u[x]));
                u.lemma_no_dup_set_cardinality();
                assert forall|i: int| 0 <= i < x implies out@[i]@.client_id != u[x]@.client_id by {
                    assert(*out@[i] == u[i]);
                    let k1 = choose|k: u32| m.contains_key(k) && m[k] == u[i];
                    let k2 = choose|k: u32| m.contains_key(k) && m[k] == u[x];
                }
            }
            out.push(c);
        }
        proof {
            assert forall|i: int| 0 <= i < out@.len() implies self@.cursors.contains_key(#[trigger] out@[i]@.client_id)
                && self@.cursors[out@[i]@.client_id] == out@[i]@ by {
                let k = choose|k: u32| self.cursors@.contains_key(k) && self.cursors@[k] == *out@[i];
                assert(self.cursors@[k]@.client_id == k);
            }
        }
        out
    }

    /// Decodes one inbound message and applies it: see `processed`. A text
    /// that does not decode changes nothing and gets no answer.
    pub fn process_message(&mut self, json: &str, document: &mut Document) -> (r: Option<String>)
        requires
            old(self).wf(),
            old(document).wf(),
        ensures
            final(self).wf(),
            final(document).wf(),
            processed(
                json@,
                old(self)@,
                final(self)@,
                old(document)@,
                final(document)@,
                match r {
                    Some(t) => Some(t@),
                    None => None,
                },
            ),
    {
        let message = match Message::from_json(json) {
            Some(m) => m,
            None => {
                return None;
            },
        };
        match message {
            Message::JoinAck { client_id, document_state: _ } => {
                self.client_id = Some(ClientId::new(client_id));
                self.connected = true;
                None
            },
            Message::CursorMove { client_id, x, y } => {
                let ghost before = self@.cursors;
                assert(old(self).cursors_wf());
                match self.cursors.remove(&client_id) {
                    Some(mut cursor) => {
                        cursor.set_position(x, y);
                        self.cursors.insert(client_id, cursor);
                    },
                    None => {
                        let mut cursor = UserCursor::placeholder(client_id);
                        cursor.set_position(x, y);
                        self.cursors.insert(client_id, cursor);
                    },
                }
                assert(self@.cursors =~= before.insert(client_id, moved_cursor(before, client_id, x, y)));
                assert(self.cursors_wf()) by {
                    assert forall|k: u32| #[trigger] self.cursors@.contains_key(k) implies self.cursors@[k]@.client_id == k by {
                        if k != client_id {
                            assert(old(self).cursors@.contains_key(k));
                        }
                    }
                }
                None
            },
            Message::PropertyChange { client_id: _, object_id, property, value, sequence: _ } => {
                if !self.has_pending_change(object_id, property) {
                    match PropertyValue::decode(value.as_str()) {
                        Some(v) => {
                            document.set_node_property(object_id, property, v);
                        },
                        None => {},
                    }
                }
                None
            },
            Message::Ack { sequence } => {
                proof {
                    lemma_without_members(self@.pending, PendingFilter::Sequence(sequence));
                }
                self.drop_pending(PendingFilter::Sequence(sequence));
                None
            },
            Message::Leave { client_id } => {
                let ghost before = self@.cursors;
                self.cursors.remove(&client_id);
                assert(self@.cursors =~= before.remove(client_id));
                assert(self.cursors_wf()) by {
                    assert forall|k: u32| #[trigger] self.cursors@.contains_key(k) implies self.cursors@[k]@.client_id == k by {
                        assert(old(self).cursors@.contains_key(k));
                    }
                }
                None
            },
            Message::Ping => {
                let pong = Message::Pong.to_json();
                Some(pong)
            },
            _ => None,
        }
    }
}

impl Default for SyncEngine {
    fn default() -> (r: SyncEngine)
        ensures
            r.wf(),
            r@.client_id is None,
            r@.sequence == 0,
            r@.pending == Seq::<PendingView>::empty(),
            r@.cursors == Map::<u32, CursorView>::empty(),
            !r@.connected,
    {
        SyncEngine::new()
    }
}

} // verus!
