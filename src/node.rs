//! A single element of the document tree.
use vstd::prelude::*;
use vstd::string::*;
use crate::ids::ObjectId;
use crate::codec::{
    atom_fits, atoms_match_at, atoms_view, decode_atoms, enc_atoms, encode_atoms,
    lemma_atoms_round_trip, parse_atoms, text_at, text_at_exec, u32_of, u32_of_exec, uint_at,
    uint_at_exec, Atom, AtomView,
};
use crate::properties::{
    lemma_property_index, lemma_value_atoms_round_trip, property_at, property_index,
    value_atom_count, value_atom_count_exec, value_atoms, value_fits, value_of_atoms, Color, Float32, Property,
    PropertyValue, ValueView, FLOAT_HUNDRED_BITS, FLOAT_ONE_BITS, FLOAT_ZERO_BITS,
};

verus! {

/// The kind of a node, fixed when it is made.
#[derive(Clone, Copy, Debug, PartialEq, Eq, Structural, Hash)]
pub enum NodeType {
    Document,
    Page,
    Frame,
    Group,
    Rectangle,
    Ellipse,
    Line,
    Vector,
    Text,
    Image,
    Component,
    Instance,
}

/// A node: identity, kind, property values and its order key among siblings.
#[derive(Debug)]
pub struct Node {
    id: ObjectId,
    node_type: NodeType,
    properties: Vec<(Property, PropertyValue)>,
    order_index: String,
}

/// What a node holds, as mathematical values.
pub struct NodeView {
    pub id: ObjectId,
    pub node_type: NodeType,
    pub properties: Map<Property, ValueView>,
    pub order_key: Seq<char>,
}

/// The value of the first entry for `p`, if any.
pub open spec fn lookup(s: Seq<(Property, PropertyValue)>, p: Property) -> Option<PropertyValue>
    decreases s.len(),
{
    if s.len() == 0 {
        None
    } else if s[0].0 == p {
        Some(s[0].1)
    } else {
        lookup(s.drop_first(), p)
    }
}

/// The entries of `s` that are not for `p`, in order.
pub open spec fn entries_without(s: Seq<(Property, PropertyValue)>, p: Property) -> Seq<
    (Property, PropertyValue),
>
    decreases s.len(),
{
    if s.len() == 0 {
        s
    } else if s[0].0 == p {
        entries_without(s.drop_first(), p)
    } else {
        seq![s[0]] + entries_without(s.drop_first(), p)
    }
}

pub open spec fn property_map(s: Seq<(Property, PropertyValue)>) -> Map<Property, ValueView> {
    Map::new(|p: Property| lookup(s, p) is Some, |p: Property| lookup(s, p)->0@)
}

/// The float stored for `p`, or `default` when `p` is unset or holds another kind.
pub open spec fn float_or(m: Map<Property, ValueView>, p: Property, default: u32) -> Float32 {
    if m.contains_key(p) && m[p] is Float {
        m[p]->Float_0
    } else {
        Float32 { bits: default }
    }
}

pub open spec fn color_or(m: Map<Property, ValueView>, p: Property, default: Color) -> Color {
    if m.contains_key(p) && m[p] is Color {
        m[p]->Color_0
    } else {
        default
    }
}

pub open spec fn bool_or(m: Map<Property, ValueView>, p: Property, default: bool) -> bool {
    if m.contains_key(p) && m[p] is Bool {
        m[p]->Bool_0
    } else {
        default
    }
}

pub open spec fn node_type_name(t: NodeType) -> Seq<char> {
    match t {
        NodeType::Document => "Document"@,
        NodeType::Page => "Page"@,
        NodeType::Frame => "Frame"@,
        NodeType::Group => "Group"@,
        NodeType::Rectangle => "Rectangle"@,
        NodeType::Ellipse => "Ellipse"@,
        NodeType::Line => "Line"@,
        NodeType::Vector => "Vector"@,
        NodeType::Text => "Text"@,
        NodeType::Image => "Image"@,
        NodeType::Component => "Component"@,
        NodeType::Instance => "Instance"@,
    }
}

/// The order key a new node gets.
pub open spec fn default_order_key() -> Seq<char> {
    seq!['0', '.', '5']
}

proof fn lemma_lookup_update(s: Seq<(Property, PropertyValue)>, i: int, v: PropertyValue)
    requires
        0 <= i < s.len(),
        forall|j: int| 0 <= j < i ==> (#[trigger] s[j]).0 != s[i].0,
    ensures
        forall|q: Property|
            #[trigger] lookup(s.update(i, (s[i].0, v)), q) == if q == s[i].0 {
                Some(v)
            } else {
                lookup(s, q)
            },
    decreases i,
{
    let t = s.update(i, (s[i].0, v));
    if i > 0 {
        assert forall|j: int| 0 <= j < i - 1 implies (#[trigger] s.drop_first()[j]).0 != s.drop_first()[i - 1].0 by {
            assert(s.drop_first()[j] == s[j + 1]);
        }
        lemma_lookup_update(s.drop_first(), i - 1, v);
        assert(s.drop_first()[i - 1] == s[i]);
        assert(t.drop_first() == s.drop_first().update(i - 1, (s[i].0, v)));
        assert(s[0].0 != s[i].0);
        assert forall|q: Property|
            #[trigger] lookup(t, q) == if q == s[i].0 {
                Some(v)
            } else {
                lookup(s, q)
            } by {
            assert(t[0] == s[0]);
            assert(lookup(t.drop_first(), q) == lookup(s.drop_first().update(i - 1, (s[i].0, v)), q));
        }
    } else {
        assert(t.drop_first() == s.drop_first());
        assert forall|q: Property|
            #[trigger] lookup(t, q) == if q == s[i].0 {
                Some(v)
            } else {
                lookup(s, q)
            } by {
            assert(t[0] == (s[0].0, v));
            assert(lookup(t.drop_first(), q) == lookup(s.drop_first(), q));
        }
    }
}

proof fn lemma_lookup_push(s: Seq<(Property, PropertyValue)>, x: (Property, PropertyValue))
    requires
        lookup(s, x.0) is None,
    ensures
        forall|q: Property|
            #[trigger] lookup(s.push(x), q) == if q == x.0 {
                Some(x.1)
            } else {
                lookup(s, q)
            },
    decreases s.len(),
{
    let t = s.push(x);
    if s.len() > 0 {
        lemma_lookup_push(s.drop_first(), x);
        assert(t.drop_first() == s.drop_first().push(x));
        assert forall|q: Property|
            #[trigger] lookup(t, q) == if q == x.0 {
                Some(x.1)
            } else {
                lookup(s, q)
            } by {
            assert(t[0] == s[0]);
            assert(lookup(t.drop_first(), q) == lookup(s.drop_first().push(x), q));
        }
    } else {
        assert forall|q: Property|
            #[trigger] lookup(t, q) == if q == x.0 {
                Some(x.1)
            } else {
                lookup(s, q)
            } by {
            assert(t[0] == x);
            assert(t.drop_first().len() == 0);
            assert(lookup(t.drop_first(), q) is None);
        }
    }
}

proof fn lemma_lookup_without(s: Seq<(Property, PropertyValue)>, p: Property)
    ensures
        forall|q: Property|
            #[trigger] lookup(entries_without(s, p), q) == if q == p {
                None
            } else {
                lookup(s, q)
            },
    decreases s.len(),
{
    if s.len() > 0 {
        lemma_lookup_without(s.drop_first(), p);
        if s[0].0 != p {
            assert((seq![s[0]] + entries_without(s.drop_first(), p)).drop_first()
                == entries_without(s.drop_first(), p));
        }
    }
}

proof fn lemma_without_push(s: Seq<(Property, PropertyValue)>, x: (Property, PropertyValue), p: Property)
    ensures
        entries_without(s.push(x), p) == if x.0 == p {
            entries_without(s, p)
        } else {
            entries_without(s, p).push(x)
        },
    decreases s.len(),
{
    if s.len() == 0 {
        assert(s.push(x).drop_first() == s);
        assert(seq![x] + s == seq![x]);
        assert(s.push(x) == seq![x]);
    } else {
        assert(s.push(x).drop_first() == s.drop_first().push(x));
        lemma_without_push(s.drop_first(), x, p);
        if s[0].0 != p && x.0 != p {
            assert(seq![s[0]] + entries_without(s.drop_first(), p).push(x) == (seq![s[0]]
                + entries_without(s.drop_first(), p)).push(x));
        }
    }
}

impl View for Node {
    type V = NodeView;

    closed spec fn view(&self) -> NodeView {
        NodeView {
            id: self.id,
            node_type: self.node_type,
            properties: property_map(self.properties@),
            order_key: self.order_index@,
        }
    }
}

impl Node {
    pub fn new(id: ObjectId, node_type: NodeType) -> (r: Node)
        ensures
            r@.id == id,
            r@.node_type == node_type,
            r@.properties == Map::<Property, ValueView>::empty(),
            r@.order_key == default_order_key(),
    {
        proof {
            reveal_strlit("0.5");
        }
        let r = Node {
            id,
            node_type,
            properties: Vec::new(),
            order_index: String::from_str("0.5"),
        };
        assert(property_map(r.properties@) == Map::<Property, ValueView>::empty());
        r
    }

    pub fn id(&self) -> (r: ObjectId)
        ensures
            r == self@.id,
    {
        self.id
    }

    pub fn node_type(&self) -> (r: NodeType)
        ensures
            r == self@.node_type,
    {
        self.node_type
    }

    pub fn order_index(&self) -> (r: &str)
        ensures
            r@ == self@.order_key,
    {
        self.order_index.as_str()
    }

    pub fn set_order_index(&mut self, index: String)
        ensures
            final(self)@ == (NodeView { order_key: index@, ..old(self)@ }),
    {
        self.order_index = index;
    }

    pub fn get_property(&self, property: Property) -> (r: Option<&PropertyValue>)
        ensures
            r is Some <==> self@.properties.contains_key(property),
            r is Some ==> r->0@ == self@.properties[property],
    {
        let mut i: usize = 0;
        assert(self.properties@.subrange(0, self.properties@.len() as int) == self.properties@);
        while i < self.properties.len()
            invariant
                i <= self.properties@.len(),
                lookup(self.properties@, property) == lookup(
                    self.properties@.subrange(i as int, self.properties@.len() as int),
                    property,
                ),
            decreases self.properties@.len() - i,
        {
            let ghost rest = self.properties@.subrange(i as int, self.properties@.len() as int);
            if self.properties[i].0 == property {
                return Some(&self.properties[i].1);
            }
            assert(rest.drop_first() == self.properties@.subrange(
                i + 1,
                self.properties@.len() as int,
            ));
            i = i + 1;
        }
        None
    }

    pub fn set_property(&mut self, property: Property, value: PropertyValue)
        ensures
            final(self)@ == (NodeView {
                properties: old(self)@.properties.insert(property, value@),
                ..old(self)@
            }),
    {
        let mut i: usize = 0;
        let n = self.properties.len();
        while i < n
            invariant
                n == self.properties@.len(),
                i <= n,
                *self == *old(self),
                forall|j: int| 0 <= j < i ==> (#[trigger] self.properties@[j]).0 != property,
            decreases n - i,
        {
            if self.properties[i].0 == property {
                proof {
                    lemma_lookup_update(self.properties@, i as int, value);
                }
                self.properties.set(i, (property, value));
                assert(property_map(self.properties@) =~= old(self)@.properties.insert(
                    property,
                    value@,
                ));
                return;
            }
            i = i + 1;
        }
        proof {
            lemma_lookup_not_found(self.properties@, property);
            lemma_lookup_push(self.properties@, (property, value));
        }
        self.properties.push((property, value));
        assert(property_map(self.properties@) =~= old(self)@.properties.insert(property, value@));
    }

    pub fn remove_property(&mut self, property: Property)
        ensures
            final(self)@ == (NodeView {
                properties: old(self)@.properties.remove(property),
                ..old(self)@
            }),
    {
        let ghost s = self.properties@;
        let ghost mut k: int = 0;
        assert(s.subrange(0, 0) == Seq::<(Property, PropertyValue)>::empty());
        assert(s.subrange(0, s.len() as int) == s);
        let mut i: usize = 0;
        while i < self.properties.len()
            invariant
                0 <= i <= k <= s.len(),
                i <= self.properties@.len(),
                self.properties@.len() - i == s.len() - k,
                self.properties@.subrange(0, i as int) == entries_without(s.subrange(0, k), property),
                self.properties@.subrange(i as int, self.properties@.len() as int) == s.subrange(
                    k,
                    s.len() as int,
                ),
                self.id == old(self).id,
                self.node_type == old(self).node_type,
                self.order_index == old(self).order_index,
            decreases self.properties@.len() - i,
        {
            let ghost cur = self.properties@;
            proof {
                assert(cur[i as int] == s[k]) by {
                    assert(cur.subrange(i as int, cur.len() as int)[0] == cur[i as int]);
                    assert(s.subrange(k, s.len() as int)[0] == s[k]);
                }
                assert(s.subrange(0, k + 1) == s.subrange(0, k).push(s[k]));
                lemma_without_push(s.subrange(0, k), s[k], property);
            }
            if self.properties[i].0 == property {
                self.properties.remove(i);
                proof {
                    assert(self.properties@.subrange(0, i as int) == cur.subrange(0, i as int));
                    assert(self.properties@.subrange(i as int, self.properties@.len() as int)
                        == cur.subrange(i + 1, cur.len() as int));
                    assert(s.subrange(k + 1, s.len() as int) == s.subrange(k, s.len() as int).drop_first());
                    assert(cur.subrange(i + 1, cur.len() as int) == cur.subrange(i as int, cur.len() as int).drop_first());
                    k = k + 1;
                }
            } else {
                proof {
                    assert(cur.subrange(0, i + 1) == cur.subrange(0, i as int).push(cur[i as int]));
                    assert(s.subrange(k + 1, s.len() as int) == s.subrange(k, s.len() as int).drop_first());
                    assert(cur.subrange(i + 1, cur.len() as int) == cur.subrange(i as int, cur.len() as int).drop_first());
                    k = k + 1;
                }
                i = i + 1;
            }
        }
        proof {
            let cur = self.properties@;
            assert(cur.subrange(i as int, cur.len() as int).len() == 0);
            assert(k == s.len());
            assert(s.subrange(0, k) == s);
            assert(cur == cur.subrange(0, i as int));
            lemma_lookup_without(s, property);
        }
        assert(property_map(self.properties@) =~= old(self)@.properties.remove(property));
    }

    /// The property entries, one per set property.
    pub fn properties(&self) -> (r: &Vec<(Property, PropertyValue)>)
        ensures
            property_map(r@) == self@.properties,
    {
        &self.properties
    }
}

proof fn lemma_lookup_not_found(s: Seq<(Property, PropertyValue)>, p: Property)
    requires
        forall|j: int| 0 <= j < s.len() ==> (#[trigger] s[j]).0 != p,
    ensures
        lookup(s, p) is None,
    decreases s.len(),
{
    if s.len() > 0 {
        assert forall|j: int| 0 <= j < s.drop_first().len() implies (#[trigger] s.drop_first()[j]).0 != p by {
            assert(s.drop_first()[j] == s[j + 1]);
        }
        lemma_lookup_not_found(s.drop_first(), p);
    }
}

} // verus!

verus! {

impl Node {
    pub fn x(&self) -> (r: Float32)
        ensures
            r == float_or(self@.properties, Property::X, FLOAT_ZERO_BITS),
    {
        match self.get_property(Property::X) {
            Some(PropertyValue::Float(v)) => *v,
            _ => Float32 { bits: FLOAT_ZERO_BITS },
        }
    }

    pub fn y(&self) -> (r: Float32)
        ensures
            r == float_or(self@.properties, Property::Y, FLOAT_ZERO_BITS),
    {
        match self.get_property(Property::Y) {
            Some(PropertyValue::Float(v)) => *v,
            _ => Float32 { bits: FLOAT_ZERO_BITS },
        }
    }

    pub fn width(&self) -> (r: Float32)
        ensures
            r == float_or(self@.properties, Property::Width, FLOAT_HUNDRED_BITS),
    {
        match self.get_property(Property::Width) {
            Some(PropertyValue::Float(v)) => *v,
            _ => Float32 { bits: FLOAT_HUNDRED_BITS },
        }
    }

    pub fn height(&self) -> (r: Float32)
        ensures
            r == float_or(self@.properties, Property::Height, FLOAT_HUNDRED_BITS),
    {
        match self.get_property(Property::Height) {
            Some(PropertyValue::Float(v)) => *v,
            _ => Float32 { bits: FLOAT_HUNDRED_BITS },
        }
    }

    pub fn rotation(&self) -> (r: Float32)
        ensures
            r == float_or(self@.properties, Property::Rotation, FLOAT_ZERO_BITS),
    {
        match self.get_property(Property::Rotation) {
            Some(PropertyValue::Float(v)) => *v,
            _ => Float32 { bits: FLOAT_ZERO_BITS },
        }
    }

    pub fn opacity(&self) -> (r: Float32)
        ensures
            r == float_or(self@.properties, Property::Opacity, FLOAT_ONE_BITS),
    {
        match self.get_property(Property::Opacity) {
            Some(PropertyValue::Float(v)) => *v,
            _ => Float32 { bits: FLOAT_ONE_BITS },
        }
    }

    pub fn stroke_width(&self) -> (r: Float32)
        ensures
            r == float_or(self@.properties, Property::StrokeWidth, FLOAT_ZERO_BITS),
    {
        match self.get_property(Property::StrokeWidth) {
            Some(PropertyValue::Float(v)) => *v,
            _ => Float32 { bits: FLOAT_ZERO_BITS },
        }
    }

    pub fn corner_radius(&self) -> (r: Float32)
        ensures
            r == float_or(self@.properties, Property::CornerRadius, FLOAT_ZERO_BITS),
    {
        match self.get_property(Property::CornerRadius) {
            Some(PropertyValue::Float(v)) => *v,
            _ => Float32 { bits: FLOAT_ZERO_BITS },
        }
    }

    /// The fill color; all channels zero when unset.
    pub fn fill_color(&self) -> (r: Color)
        ensures
            r == color_or(self@.properties, Property::FillColor, Color::spec_zero()),
    {
        match self.get_property(Property::FillColor) {
            Some(PropertyValue::Color(c)) => *c,
            _ => Color::zero(),
        }
    }

    /// The stroke color; transparent when unset.
    pub fn stroke_color(&self) -> (r: Color)
        ensures
            r == color_or(self@.properties, Property::StrokeColor, Color::spec_zero()),
    {
        match self.get_property(Property::StrokeColor) {
            Some(PropertyValue::Color(c)) => *c,
            _ => Color::transparent(),
        }
    }

    /// The name; the node type's name when unset.
    pub fn name(&self) -> (r: String)
        ensures
            r@ == (if self@.properties.contains_key(Property::Name) && self@.properties[Property::Name] is Text {
                self@.properties[Property::Name]->Text_0
            } else {
                node_type_name(self@.node_type)
            }),
    {
        match self.get_property(Property::Name) {
            Some(PropertyValue::String(s)) => s.clone(),
            _ => String::from_str(node_type_label(self.node_type)),
        }
    }

    pub fn visible(&self) -> (r: bool)
        ensures
            r == bool_or(self@.properties, Property::Visible, true),
    {
        match self.get_property(Property::Visible) {
            Some(PropertyValue::Bool(v)) => *v,
            _ => true,
        }
    }

    pub fn locked(&self) -> (r: bool)
        ensures
            r == bool_or(self@.properties, Property::Locked, false),
    {
        match self.get_property(Property::Locked) {
            Some(PropertyValue::Bool(v)) => *v,
            _ => false,
        }
    }
}

fn node_type_label(t: NodeType) -> (r: &'static str)
    ensures
        r@ == node_type_name(t),
{
    match t {
        NodeType::Document => "Document",
        NodeType::Page => "Page",
        NodeType::Frame => "Frame",
        NodeType::Group => "Group",
        NodeType::Rectangle => "Rectangle",
        NodeType::Ellipse => "Ellipse",
        NodeType::Line => "Line",
        NodeType::Vector => "Vector",
        NodeType::Text => "Text",
        NodeType::Image => "Image",
        NodeType::Component => "Component",
        NodeType::Instance => "Instance",
    }
}

} // verus!

verus! {

pub open spec fn node_type_index(t: NodeType) -> u64 {
    match t {
        NodeType::Document => 0,
        NodeType::Page => 1,
        NodeType::Frame => 2,
        NodeType::Group => 3,
        NodeType::Rectangle => 4,
        NodeType::Ellipse => 5,
        NodeType::Line => 6,
        NodeType::Vector => 7,
        NodeType::Text => 8,
        NodeType::Image => 9,
        NodeType::Component => 10,
        NodeType::Instance => 11,
    }
}

pub open spec fn node_type_at(n: u64) -> NodeType {
    if n == 0 {
        NodeType::Document
    } else if n == 1 {
        NodeType::Page
    } else if n == 2 {
        NodeType::Frame
    } else if n == 3 {
        NodeType::Group
    } else if n == 4 {
        NodeType::Rectangle
    } else if n == 5 {
        NodeType::Ellipse
    } else if n == 6 {
        NodeType::Line
    } else if n == 7 {
        NodeType::Vector
    } else if n == 8 {
        NodeType::Text
    } else if n == 9 {
        NodeType::Image
    } else if n == 10 {
        NodeType::Component
    } else {
        NodeType::Instance
    }
}

/// A node's property entries with their values as views.
pub open spec fn entry_views(s: Seq<(Property, PropertyValue)>) -> Seq<(Property, ValueView)> {
    s.map_values(|e: (Property, PropertyValue)| (e.0, e.1@))
}

pub open spec fn entry_atoms(e: (Property, ValueView)) -> Seq<AtomView> {
    seq![AtomView::Uint(property_index(e.0))] + value_atoms(e.1)
}

pub open spec fn entries_atoms(es: Seq<(Property, ValueView)>) -> Seq<AtomView>
    decreases es.len(),
{
    if es.len() == 0 {
        Seq::empty()
    } else {
        entry_atoms(es[0]) + entries_atoms(es.drop_first())
    }
}

pub open spec fn node_header(id: ObjectId, t: NodeType, key: Seq<char>, n: u64) -> Seq<AtomView> {
    seq![
        AtomView::Text("Node"@),
        AtomView::Text("id"@),
        AtomView::Uint(id.client_id as u64),
        AtomView::Uint(id.sequence as u64),
        AtomView::Text("node_type"@),
        AtomView::Uint(node_type_index(t)),
        AtomView::Text("order_index"@),
        AtomView::Text(key),
        AtomView::Text("properties"@),
        AtomView::Uint(n),
    ]
}

/// The atoms of a node: a header with its id, type, order key and the number
/// of its properties, then each property's position and value.
pub open spec fn node_atoms(id: ObjectId, t: NodeType, key: Seq<char>, es: Seq<(Property, ValueView)>) -> Seq<AtomView> {
    node_header(id, t, key, es.len() as u64) + entries_atoms(es)
}

/// Reads `n` property entries that use up `l`.
pub open spec fn parse_entries(l: Seq<AtomView>, n: nat) -> Option<Seq<(Property, ValueView)>>
    decreases n,
{
    if n == 0 {
        if l.len() == 0 {
            Some(Seq::empty())
        } else {
            None
        }
    } else {
        let k = value_atom_count(text_at(l, 1));
        if l.len() < 1 + k || !(l[0] is Uint) || property_at(l[0]->Uint_0) is None || k == 0 {
            None
        } else {
            match value_of_atoms(l.subrange(1, 1 + k as int)) {
                Some(v) => match parse_entries(l.skip(1 + k as int), (n - 1) as nat) {
                    Some(rest) => Some(seq![(property_at(l[0]->Uint_0)->0, v)] + rest),
                    None => None,
                },
                None => None,
            }
        }
    }
}

/// The id, type, order key and property entries that atoms `l` stand for.
pub open spec fn node_of_atoms(l: Seq<AtomView>) -> Option<
    (ObjectId, NodeType, Seq<char>, Seq<(Property, ValueView)>),
> {
    let id = id_of_atoms(l);
    let t = node_type_at(uint_at(l, 5));
    let key = text_at(l, 7);
    let n = uint_at(l, 9);
    if l.len() >= 10 && l.subrange(0, 10) == node_header(id, t, key, n) {
        match parse_entries(l.skip(10), n as nat) {
            Some(es) => Some((id, t, key, es)),
            None => None,
        }
    } else {
        None
    }
}

pub open spec fn id_of_atoms(l: Seq<AtomView>) -> ObjectId {
    ObjectId { client_id: u32_of(uint_at(l, 2)), sequence: u32_of(uint_at(l, 3)) }
}

/// The serialized form of a node.
pub open spec fn node_text(id: ObjectId, t: NodeType, key: Seq<char>, es: Seq<(Property, ValueView)>) -> Seq<char> {
    enc_atoms(node_atoms(id, t, key, es))
}

pub open spec fn decode_node(s: Seq<char>) -> Option<(ObjectId, NodeType, Seq<char>, Seq<(Property, ValueView)>)> {
    match parse_atoms(s) {
        Some(l) => node_of_atoms(l),
        None => None,
    }
}

/// The property map that entries give, the first entry for a property winning.
pub open spec fn entries_map(es: Seq<(Property, ValueView)>) -> Map<Property, ValueView> {
    Map::new(|p: Property| lookup_entry(es, p) is Some, |p: Property| lookup_entry(es, p)->0)
}

pub open spec fn lookup_entry(es: Seq<(Property, ValueView)>, p: Property) -> Option<ValueView>
    decreases es.len(),
{
    if es.len() == 0 {
        None
    } else if es[0].0 == p {
        Some(es[0].1)
    } else {
        lookup_entry(es.drop_first(), p)
    }
}

proof fn lemma_lookup_entry_views(s: Seq<(Property, PropertyValue)>, p: Property)
    ensures
        lookup_entry(entry_views(s), p) == match lookup(s, p) {
            Some(v) => Some(v@),
            None => None,
        },
    decreases s.len(),
{
    if s.len() > 0 {
        assert(entry_views(s).drop_first() == entry_views(s.drop_first()));
        lemma_lookup_entry_views(s.drop_first(), p);
    }
}

proof fn lemma_parse_entries(es: Seq<(Property, ValueView)>)
    ensures
        parse_entries(entries_atoms(es), es.len()) == Some(es),
    decreases es.len(),
{
    if es.len() > 0 {
        let e = es[0];
        let l = entries_atoms(es);
        let va = value_atoms(e.1);
        lemma_value_atoms_round_trip(e.1);
        lemma_property_index(e.0);
        let rest = entries_atoms(es.drop_first());
        assert(l == seq![AtomView::Uint(property_index(e.0))] + va + rest);
        assert(text_at(l, 1) == text_at(va, 0)) by {
            assert(l[1] == va[0]);
        }
        let k = va.len();
        assert(l.subrange(1, 1 + k as int) == va);
        assert(l.skip(1 + k as int) == rest);
        lemma_parse_entries(es.drop_first());
        assert(seq![e] + es.drop_first() == es);
    }
}

proof fn lemma_entries_atoms_fit(es: Seq<(Property, ValueView)>)
    requires
        forall|i: int| 0 <= i < es.len() ==> value_fits(#[trigger] es[i].1),
    ensures
        forall|i: int| 0 <= i < entries_atoms(es).len() ==> atom_fits(#[trigger] entries_atoms(es)[i]),
    decreases es.len(),
{
    reveal_strlit("Float");
    reveal_strlit("Int");
    reveal_strlit("Bool");
    reveal_strlit("String");
    reveal_strlit("Color");
    reveal_strlit("Vec2");
    reveal_strlit("Vec4");
    if es.len() > 0 {
        assert forall|i: int| 0 <= i < es.drop_first().len() implies value_fits(#[trigger] es.drop_first()[i].1) by {
            assert(es.drop_first()[i] == es[i + 1]);
        }
        lemma_entries_atoms_fit(es.drop_first());
        let a = entry_atoms(es[0]);
        assert(value_fits(es[0].1));
        assert forall|i: int| 0 <= i < a.len() implies atom_fits(#[trigger] a[i]) by {}
        let l = entries_atoms(es);
        assert forall|i: int| 0 <= i < l.len() implies atom_fits(#[trigger] l[i]) by {
            if i < a.len() {
                assert(l[i] == a[i]);
            } else {
                assert(l[i] == entries_atoms(es.drop_first())[i - a.len()]);
            }
        }
    }
}

/// Decoding the serialized form of a node gives back its id, type, order key
/// and property entries (and so its property map).
pub proof fn lemma_node_round_trip(id: ObjectId, t: NodeType, key: Seq<char>, es: Seq<(Property, ValueView)>)
    requires
        key.len() <= u64::MAX,
        es.len() <= u64::MAX,
        forall|i: int| 0 <= i < es.len() ==> value_fits(#[trigger] es[i].1),
    ensures
        decode_node(node_text(id, t, key, es)) == Some((id, t, key, es)),
{
    reveal_strlit("Node");
    reveal_strlit("id");
    reveal_strlit("node_type");
    reveal_strlit("order_index");
    reveal_strlit("properties");
    let h = node_header(id, t, key, es.len() as u64);
    let l = node_atoms(id, t, key, es);
    lemma_entries_atoms_fit(es);
    assert forall|i: int| 0 <= i < l.len() implies atom_fits(#[trigger] l[i]) by {
        if i >= 10 {
            assert(l[i] == entries_atoms(es)[i - 10]);
        }
    }
    lemma_atoms_round_trip(l);
    assert(l.subrange(0, 10) == h);
    assert(l.skip(10) == entries_atoms(es));
    assert(id_of_atoms(l) == id);
    assert(node_type_at(uint_at(l, 5)) == t);
    lemma_parse_entries(es);
}

} // verus!

verus! {

proof fn lemma_entries_atoms_push(es: Seq<(Property, ValueView)>, e: (Property, ValueView))
    ensures
        entries_atoms(es.push(e)) == entries_atoms(es) + entry_atoms(e),
    decreases es.len(),
{
    if es.len() == 0 {
        assert(es.push(e).drop_first() == es);
        assert(entries_atoms(es) == Seq::<AtomView>::empty());
        assert(entries_atoms(es.push(e)) == entry_atoms(e) + entries_atoms(es));
        assert(entry_atoms(e) + Seq::<AtomView>::empty() == entry_atoms(e));
    } else {
        assert(es.push(e).drop_first() == es.drop_first().push(e));
        lemma_entries_atoms_push(es.drop_first(), e);
        assert(entry_atoms(es[0]) + (entries_atoms(es.drop_first()) + entry_atoms(e)) == (entry_atoms(es[0])
            + entries_atoms(es.drop_first())) + entry_atoms(e));
    }
}

fn node_type_from_index(n: u64) -> (r: NodeType)
    ensures
        r == node_type_at(n),
{
    if n == 0 {
        NodeType::Document
    } else if n == 1 {
        NodeType::Page
    } else if n == 2 {
        NodeType::Frame
    } else if n == 3 {
        NodeType::Group
    } else if n == 4 {
        NodeType::Rectangle
    } else if n == 5 {
        NodeType::Ellipse
    } else if n == 6 {
        NodeType::Line
    } else if n == 7 {
        NodeType::Vector
    } else if n == 8 {
        NodeType::Text
    } else if n == 9 {
        NodeType::Image
    } else if n == 10 {
        NodeType::Component
    } else {
        NodeType::Instance
    }
}

fn node_type_index_exec(t: NodeType) -> (r: u64)
    ensures
        r == node_type_index(t),
{
    match t {
        NodeType::Document => 0,
        NodeType::Page => 1,
        NodeType::Frame => 2,
        NodeType::Group => 3,
        NodeType::Rectangle => 4,
        NodeType::Ellipse => 5,
        NodeType::Line => 6,
        NodeType::Vector => 7,
        NodeType::Text => 8,
        NodeType::Image => 9,
        NodeType::Component => 10,
        NodeType::Instance => 11,
    }
}

fn header_atoms(id: ObjectId, t: NodeType, key: &String, n: u64) -> (r: Vec<Atom>)
    ensures
        atoms_view(r@) == node_header(id, t, key@, n),
{
    let mut v: Vec<Atom> = Vec::new();
    v.push(Atom::Text(String::from_str("Node")));
    v.push(Atom::Text(String::from_str("id")));
    v.push(Atom::Uint(id.client_id as u64));
    v.push(Atom::Uint(id.sequence as u64));
    v.push(Atom::Text(String::from_str("node_type")));
    v.push(Atom::Uint(node_type_index_exec(t)));
    v.push(Atom::Text(String::from_str("order_index")));
    v.push(Atom::Text(key.clone()));
    v.push(Atom::Text(String::from_str("properties")));
    v.push(Atom::Uint(n));
    assert(atoms_view(v@) =~= node_header(id, t, key@, n));
    v
}

impl Node {
    /// The property entries, values as views, in stored order.
    pub closed spec fn entries(&self) -> Seq<(Property, ValueView)> {
        entry_views(self.properties@)
    }

    /// The property map is the one the entries give.
    pub proof fn lemma_entries(&self)
        ensures
            self@.properties == entries_map(self.entries()),
    {
        assert forall|p: Property| #[trigger] lookup_entry(self.entries(), p) == match lookup(self.properties@, p) {
            Some(v) => Some(v@),
            None => None,
        } by {
            lemma_lookup_entry_views(self.properties@, p);
        }
        assert(self@.properties =~= entries_map(self.entries()));
    }

    /// The atoms of this node.
    pub fn to_atoms(&self) -> (r: Vec<Atom>)
        ensures
            atoms_view(r@) == node_atoms(self@.id, self@.node_type, self@.order_key, self.entries()),
    {
        let ghost es = self.entries();
        let mut v = header_atoms(self.id, self.node_type, &self.order_index, self.properties.len() as u64);
        let ghost h = atoms_view(v@);
        let mut i: usize = 0;
        assert(es.take(0) == Seq::<(Property, ValueView)>::empty());
        assert(h + entries_atoms(es.take(0)) == h);
        while i < self.properties.len()
            invariant
                i <= self.properties@.len(),
                es == entry_views(self.properties@),
                h == node_header(self@.id, self@.node_type, self@.order_key, es.len() as u64),
                atoms_view(v@) == h + entries_atoms(es.take(i as int)),
            decreases self.properties@.len() - i,
        {
            let ghost before = atoms_view(v@);
            v.push(Atom::Uint(self.properties[i].0.index()));
            let mut va = self.properties[i].1.atoms();
            let ghost vav = atoms_view(va@);
            v.append(&mut va);
            proof {
                let e = es[i as int];
                assert(es.take(i + 1) == es.take(i as int).push(e));
                lemma_entries_atoms_push(es.take(i as int), e);
                assert(atoms_view(v@) =~= before + (seq![AtomView::Uint(property_index(e.0))] + vav));
                assert(h + entries_atoms(es.take(i + 1)) =~= before + entry_atoms(e));
            }
            i = i + 1;
        }
        assert(es.take(es.len() as int) == es);
        v
    }

    /// The serialized form of this node.
    pub fn encode(&self) -> (r: String)
        ensures
            r@ == node_text(self@.id, self@.node_type, self@.order_key, self.entries()),
    {
        encode_atoms(&self.to_atoms())
    }

    /// The node that atoms `l` stand for (see `node_of_atoms`).
    pub fn from_atoms(l: &Vec<Atom>) -> (r: Option<Node>)
        ensures
            match r {
                Some(n) => node_of_atoms(atoms_view(l@)) == Some((n@.id, n@.node_type, n@.order_key, n.entries())),
                None => node_of_atoms(atoms_view(l@)) is None,
            },
    {
        let ghost lv = atoms_view(l@);
        if l.len() < 10 {
            return None;
        }
        let id = ObjectId { client_id: u32_of_exec(uint_at_exec(l, 2)), sequence: u32_of_exec(uint_at_exec(l, 3)) };
        let t = node_type_from_index(uint_at_exec(l, 5));
        let key = text_at_exec(l, 7);
        let n = uint_at_exec(l, 9);
        let header = header_atoms(id, t, &key, n);
        assert(id == id_of_atoms(lv));
        assert(t == node_type_at(uint_at(lv, 5)));
        assert(key@ == text_at(lv, 7));
        assert(n == uint_at(lv, 9));
        assert(atoms_view(header@).len() == 10);
        assert(header@.len() == 10);
        if !atoms_match_at(l, 0, &header) {
            return None;
        }
        assert(lv.subrange(0, 10) == node_header(id, t, key@, n));
        assert(node_of_atoms(lv) == match parse_entries(lv.skip(10), n as nat) {
            Some(es) => Some((id, t, key@, es)),
            None => None,
        });
        let mut entries: Vec<(Property, PropertyValue)> = Vec::new();
        let mut pos: usize = 10;
        let mut k: u64 = 0;
        proof {
            assert(entry_views(entries@) =~= Seq::<(Property, ValueView)>::empty());
            match parse_entries(lv.skip(10), n as nat) {
                Some(rest) => {
                    assert(entry_views(entries@) + rest =~= rest);
                },
                None => {},
            }
        }
        while k < n
            invariant
                10 <= pos <= l@.len(),
                lv == atoms_view(l@),
                node_of_atoms(lv) == match parse_entries(lv.skip(10), n as nat) {
                    Some(es) => Some((id, t, key@, es)),
                    None => None,
                },
                l@.len() <= usize::MAX,
                k <= n,
                parse_entries(lv.skip(10), n as nat) == match parse_entries(lv.skip(pos as int), (n - k) as nat) {
                    Some(rest) => Some(entry_views(entries@) + rest),
                    None => None,
                },
            decreases n - k,
        {
            let ghost s = lv.skip(pos as int);
            if pos >= l.len() {
                return None;
            }
            let p = match &l[pos] {
                Atom::Uint(x) => match Property::from_index(*x) {
                    Some(p) => p,
                    None => {
                        return None;
                    },
                },
                Atom::Text(_) => {
                    return None;
                },
            };
            assert(s[0] == l@[pos as int]@);
            let tag = text_at_exec(l, pos + 1);
            assert(tag@ == text_at(s, 1));
            let c = value_atom_count_exec(tag.as_str());
            if c == 0 || c > l.len() - pos - 1 {
                return None;
            }
            let end = pos + 1 + c;
            let v = match PropertyValue::from_atoms_at(l, pos + 1, end) {
                Some(v) => v,
                None => {
                    assert(s.subrange(1, 1 + c as int) == lv.subrange(pos + 1, end as int));
                    return None;
                },
            };
            proof {
                assert(s.subrange(1, 1 + c as int) == lv.subrange(pos + 1, end as int));
                assert(s.skip(1 + c as int) == lv.skip(end as int));
                let ev = (p, v@);
                assert(entry_views(entries@.push((p, v))) == entry_views(entries@).push(ev));
                match parse_entries(lv.skip(end as int), (n - k - 1) as nat) {
                    Some(rest) => {
                        assert(parse_entries(s, (n - k) as nat) == Some(seq![ev] + rest));
                        assert(entry_views(entries@) + (seq![ev] + rest) == entry_views(entries@).push(ev) + rest);
                    },
                    None => {},
                }
            }
            entries.push((p, v));
            pos = end;
            k = k + 1;
        }
        if pos != l.len() {
            assert(lv.skip(pos as int).len() > 0);
            return None;
        }
        proof {
            assert(lv.skip(pos as int).len() == 0);
            assert(entry_views(entries@) + Seq::<(Property, ValueView)>::empty() == entry_views(entries@));
        }
        Some(Node { id, node_type: t, properties: entries, order_index: key })
    }

    /// Decodes a serialized node; `None` when the text is malformed.
    pub fn decode(text: &str) -> (r: Option<Node>)
        ensures
            match r {
                Some(n) => decode_node(text@) == Some((n@.id, n@.node_type, n@.order_key, n.entries())),
                None => decode_node(text@) is None,
            },
    {
        match decode_atoms(text) {
            Some(l) => Node::from_atoms(&l),
            None => None,
        }
    }
}

} // verus!
