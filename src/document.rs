//! A document: a tree of nodes with a name and a version that counts edits.
use vstd::prelude::*;
use vstd::string::*;
use crate::ids::ObjectId;
use crate::order_key::{key_le, key_lt};
use crate::node::{default_order_key, float_or, Node, NodeType, NodeView};
use crate::properties::{
    color_of_bits, Color, Float32, Property, PropertyValue, ValueView, FLOAT_HUNDRED_BITS,
    FLOAT_ONE_BITS, FLOAT_ZERO_BITS,
};
use crate::tree::{
    children_of, detached, inserted, lemma_fresh_can_parent, okey, placed_by_key, removed,
    reparented, DocumentTree, TreeView,
};

verus! {

/// The bits of the float 0.8.
pub const GRAY_8_BITS: u32 = 0x3F4C_CCCD;

/// The bits of the float 0.6.
pub const GRAY_6_BITS: u32 = 0x3F19_999A;

/// The bits of the float 0.9.
pub const BLUE_9_BITS: u32 = 0x3F66_6666;

/// The bits of the float 16.0.
pub const SIXTEEN_BITS: u32 = 0x4180_0000;

/// The fill a new rectangle gets: opaque gray at 0.8.
pub open spec fn rectangle_fill() -> Color {
    color_of_bits(GRAY_8_BITS, GRAY_8_BITS, GRAY_8_BITS, FLOAT_ONE_BITS)
}

/// The fill a new ellipse gets: opaque (0.6, 0.6, 0.9).
pub open spec fn ellipse_fill() -> Color {
    color_of_bits(GRAY_6_BITS, GRAY_6_BITS, BLUE_9_BITS, FLOAT_ONE_BITS)
}

/// The fill of new text: opaque black.
pub open spec fn text_fill() -> Color {
    color_of_bits(FLOAT_ZERO_BITS, FLOAT_ZERO_BITS, FLOAT_ZERO_BITS, FLOAT_ONE_BITS)
}

pub open spec fn next_version(v: u32) -> u32 {
    if v == u32::MAX {
        0
    } else {
        (v + 1) as u32
    }
}

pub open spec fn box_properties(x: Float32, y: Float32, w: Float32, h: Float32) -> Map<Property, ValueView> {
    Map::<Property, ValueView>::empty().insert(Property::X, ValueView::Float(x)).insert(
        Property::Y,
        ValueView::Float(y),
    ).insert(Property::Width, ValueView::Float(w)).insert(Property::Height, ValueView::Float(h))
}

/// `add_node` puts node `id` under `parent`: the id is new, is not the
/// root's, and the parent is stored.
pub open spec fn placed_under(t: TreeView, id: ObjectId, parent: Option<ObjectId>) -> bool {
    &&& !t.nodes.contains_key(id)
    &&& id != t.root
    &&& parent is Some
    &&& t.nodes.contains_key(parent->0)
}

/// The node `create_frame` makes.
pub open spec fn frame_view(id: ObjectId, x: Float32, y: Float32, w: Float32, h: Float32) -> NodeView {
    NodeView {
        id,
        node_type: NodeType::Frame,
        properties: box_properties(x, y, w, h).insert(Property::Name, ValueView::Text("Frame"@)),
        order_key: default_order_key(),
    }
}

/// The node `create_rectangle` makes.
pub open spec fn rectangle_view(id: ObjectId, x: Float32, y: Float32, w: Float32, h: Float32) -> NodeView {
    NodeView {
        id,
        node_type: NodeType::Rectangle,
        properties: box_properties(x, y, w, h).insert(Property::FillColor, ValueView::Color(rectangle_fill())),
        order_key: default_order_key(),
    }
}

/// The node `create_ellipse` makes.
pub open spec fn ellipse_view(id: ObjectId, x: Float32, y: Float32, w: Float32, h: Float32) -> NodeView {
    NodeView {
        id,
        node_type: NodeType::Ellipse,
        properties: box_properties(x, y, w, h).insert(Property::FillColor, ValueView::Color(ellipse_fill())),
        order_key: default_order_key(),
    }
}

/// The node `create_text` makes.
pub open spec fn text_view(id: ObjectId, x: Float32, y: Float32, content: Seq<char>) -> NodeView {
    NodeView {
        id,
        node_type: NodeType::Text,
        properties: Map::<Property, ValueView>::empty().insert(Property::X, ValueView::Float(x)).insert(
            Property::Y,
            ValueView::Float(y),
        ).insert(Property::Text, ValueView::Text(content)).insert(
            Property::FontSize,
            ValueView::Float(Float32 { bits: SIXTEEN_BITS }),
        ).insert(Property::FillColor, ValueView::Color(text_fill())),
        order_key: default_order_key(),
    }
}

/// The first child of the root, where new frames go.
pub open spec fn first_page(t: TreeView) -> Option<ObjectId> {
    if children_of(t, t.root).len() > 0 {
        Some(children_of(t, t.root)[0])
    } else {
        None
    }
}

/// What a `create_*` call does with the node it made under `parent`: it is
/// stored, and placed under `parent` by its key when `add_node` does so.
pub open spec fn created(before: DocumentView, after: DocumentView, n: NodeView, parent: Option<ObjectId>) -> bool {
    &&& after.name == before.name
    &&& after.version == next_version(before.version)
    &&& after.tree.nodes == before.tree.nodes.insert(n.id, n)
    &&& !placed_under(before.tree, n.id, parent) ==> inserted(before.tree, after.tree, n)
    &&& placed_under(before.tree, n.id, parent) ==> reparented(
        TreeView { nodes: before.tree.nodes.insert(n.id, n), ..before.tree },
        after.tree,
        n.id,
        parent->0,
    )
}

/// A new document's tree: the root, of type `Document`, with one child, a
/// page named "Page 1" that has no children, and nothing else.
pub open spec fn new_document_tree(t: TreeView) -> bool {
    exists|page: ObjectId|
        {
            &&& page != t.root
            &&& t.nodes.dom() == set![t.root, page]
            &&& t.nodes[t.root] == (NodeView {
                id: t.root,
                node_type: NodeType::Document,
                properties: Map::<Property, ValueView>::empty(),
                order_key: default_order_key(),
            })
            &&& t.nodes[page] == (NodeView {
                id: page,
                node_type: NodeType::Page,
                properties: Map::<Property, ValueView>::empty().insert(Property::Name, ValueView::Text("Page 1"@)),
                order_key: default_order_key(),
            })
            &&& t.children == map![t.root => seq![page]]
            &&& t.parent == map![page => t.root]
        }
}

/// A design document.
pub struct Document {
    tree: DocumentTree,
    name: String,
    version: u32,
}

pub struct DocumentView {
    pub tree: TreeView,
    pub name: Seq<char>,
    pub version: u32,
}

impl View for Document {
    type V = DocumentView;

    closed spec fn view(&self) -> DocumentView {
        DocumentView { tree: self.tree@, name: self.name@, version: self.version }
    }
}

impl Document {
    pub closed spec fn wf(&self) -> bool {
        self.tree.wf()
    }

    fn bump_version(&mut self)
        ensures
            final(self).tree == old(self).tree,
            final(self).name == old(self).name,
            final(self).version == next_version(old(self).version),
    {
        if self.version == u32::MAX {
            self.version = 0;
        } else {
            self.version = self.version + 1;
        }
    }

    /// A document holding a root node and one page, "Page 1", under it; the
    /// page's id follows the root's within the same origin.
    pub fn new(name: &str) -> (r: Document)
        ensures
            r.wf(),
            r@.name == name@,
            r@.version == 1,
            new_document_tree(r@.tree),
    {
        let mut tree = DocumentTree::new();
        let root_id = ObjectId::random();
        let page_id = ObjectId::new(
            root_id.client_id,
            if root_id.sequence == u32::MAX {
                0
            } else {
                root_id.sequence + 1
            },
        );
        tree.insert(Node::new(root_id, NodeType::Document));
        let mut page = Node::new(page_id, NodeType::Page);
        page.set_property(Property::Name, PropertyValue::String(String::from_str("Page 1")));
        tree.insert(page);
        proof {
            tree.lemma_wf();
            lemma_fresh_can_parent(tree@, page_id, root_id);
        }
        tree.set_parent(page_id, root_id);
        proof {
            tree.lemma_wf();
            let v = tree@;
            assert(v.children.contains_key(root_id));
            let l = v.children[root_id];
            assert(l.len() == 1);
            assert(l[0] == page_id);
            assert(l =~= seq![page_id]);
            assert(v.nodes.dom() =~= set![root_id, page_id]);
            assert(v.children =~= map![root_id => seq![page_id]]);
            assert(v.parent =~= map![page_id => root_id]);
            assert(v.root == root_id);
        }
        Document { tree, name: String::from_str(name), version: 1 }
    }

    /// Stores `node` and counts the edit. A node new to the tree, other than
    /// the root, is then put under `parent` when that is a stored node. A
    /// node already stored is replaced in place (see `DocumentTree::insert`).
    pub fn add_node(&mut self, node: Node, parent: Option<ObjectId>)
        requires
            old(self).wf(),
        ensures
            final(self).wf(),
            final(self)@.name == old(self)@.name,
            final(self)@.version == next_version(old(self)@.version),
            final(self)@.tree.nodes == old(self)@.tree.nodes.insert(node@.id, node@),
            !placed_under(old(self)@.tree, node@.id, parent) ==> inserted(old(self)@.tree, final(self)@.tree, node@),
            placed_under(old(self)@.tree, node@.id, parent) ==> reparented(
                TreeView { nodes: old(self)@.tree.nodes.insert(node@.id, node@), ..old(self)@.tree },
                final(self)@.tree,
                node@.id,
                parent->0,
            ),
    {
        let ghost v = self@.tree;
        let id = node.id();
        let fresh = !self.tree.contains(id);
        proof {
            self.tree.lemma_wf();
        }
        let root = self.tree.root_id();
        self.tree.insert(node);
        match parent {
            Some(p) => {
                if fresh && self.tree.contains(p) && p != id && id != root {
                    proof {
                        self.tree.lemma_wf();
                        assert(!v.children.contains_key(id));
                        assert(!v.parent.contains_key(id));
                        assert(v.nodes.contains_key(p));
                        assert(v.nodes.dom().contains(p));
                        assert(self.tree@.children == v.children);
                        assert(self.tree@.root == v.root);
                        lemma_fresh_can_parent(self.tree@, id, p);
                    }
                    let ghost mid = self.tree@;
                    self.tree.set_parent(id, p);
                    proof {
                        assert(mid == (TreeView { nodes: v.nodes.insert(id, mid.nodes[id]), ..v }));
                    }
                }
            },
            None => {},
        }
        self.bump_version();
    }

    pub fn name(&self) -> (r: String)
        ensures
            r@ == self@.name,
    {
        self.name.clone()
    }

    pub fn set_name(&mut self, name: &str)
        ensures
            final(self)@ == (DocumentView { name: name@, ..old(self)@ }),
            final(self).wf() == old(self).wf(),
    {
        self.name = String::from_str(name);
    }

    pub fn version(&self) -> (r: u32)
        ensures
            r == self@.version,
    {
        self.version
    }

    pub fn root_id(&self) -> (r: ObjectId)
        ensures
            r == self@.tree.root,
    {
        self.tree.root_id()
    }

    /// The tree of nodes.
    pub fn tree(&self) -> (r: &DocumentTree)
        ensures
            r@ == self@.tree,
            self.wf() ==> r.wf(),
    {
        &self.tree
    }

    /// Creates a frame, named "Frame", on the first page.
    pub fn create_frame(&mut self, x: Float32, y: Float32, width: Float32, height: Float32) -> (r: ObjectId)
        requires
            old(self).wf(),
        ensures
            final(self).wf(),
            created(old(self)@, final(self)@, frame_view(r, x, y, width, height), first_page(old(self)@.tree)),
    {
        let frame_id = ObjectId::random();
        let mut frame = Node::new(frame_id, NodeType::Frame);
        frame.set_property(Property::X, PropertyValue::Float(x));
        frame.set_property(Property::Y, PropertyValue::Float(y));
        frame.set_property(Property::Width, PropertyValue::Float(width));
        frame.set_property(Property::Height, PropertyValue::Float(height));
        frame.set_property(Property::Name, PropertyValue::String(String::from_str("Frame")));
        let page = self.tree.first_page();
        proof {
            self.tree.lemma_wf();
            let v = self@.tree;
            if children_of(v, v.root).len() > 0 {
                let c = children_of(v, v.root)[0];
                assert(v.parent.contains_key(v.children[v.root][0]));
                assert(v.nodes.contains_key(c));
            }
        }
        self.add_node(frame, page);
        frame_id
    }

    /// Creates a rectangle under `parent_id`, filled with gray at 0.8.
    pub fn create_rectangle(
        &mut self,
        parent_id: ObjectId,
        x: Float32,
        y: Float32,
        width: Float32,
        height: Float32,
    ) -> (r: ObjectId)
        requires
            old(self).wf(),
        ensures
            final(self).wf(),
            created(old(self)@, final(self)@, rectangle_view(r, x, y, width, height), Some(parent_id)),
    {
        let rect_id = ObjectId::random();
        let mut rect = Node::new(rect_id, NodeType::Rectangle);
        rect.set_property(Property::X, PropertyValue::Float(x));
        rect.set_property(Property::Y, PropertyValue::Float(y));
        rect.set_property(Property::Width, PropertyValue::Float(width));
        rect.set_property(Property::Height, PropertyValue::Float(height));
        rect.set_property(
            Property::FillColor,
            PropertyValue::Color(Color::from_channel_bits(GRAY_8_BITS, GRAY_8_BITS, GRAY_8_BITS, FLOAT_ONE_BITS)),
        );
        self.add_node(rect, Some(parent_id));
        rect_id
    }

    /// Creates an ellipse under `parent_id`, filled with (0.6, 0.6, 0.9).
    pub fn create_ellipse(
        &mut self,
        parent_id: ObjectId,
        x: Float32,
        y: Float32,
        width: Float32,
        height: Float32,
    ) -> (r: ObjectId)
        requires
            old(self).wf(),
        ensures
            final(self).wf(),
            created(old(self)@, final(self)@, ellipse_view(r, x, y, width, height), Some(parent_id)),
    {
        let ellipse_id = ObjectId::random();
        let mut ellipse = Node::new(ellipse_id, NodeType::Ellipse);
        ellipse.set_property(Property::X, PropertyValue::Float(x));
        ellipse.set_property(Property::Y, PropertyValue::Float(y));
        ellipse.set_property(Property::Width, PropertyValue::Float(width));
        ellipse.set_property(Property::Height, PropertyValue::Float(height));
        ellipse.set_property(
            Property::FillColor,
            PropertyValue::Color(Color::from_channel_bits(GRAY_6_BITS, GRAY_6_BITS, BLUE_9_BITS, FLOAT_ONE_BITS)),
        );
        self.add_node(ellipse, Some(parent_id));
        ellipse_id
    }

    /// Creates a text node under `parent_id`, black, at font size 16.
    pub fn create_text(&mut self, parent_id: ObjectId, x: Float32, y: Float32, content: &str) -> (r: ObjectId)
        requires
            old(self).wf(),
        ensures
            final(self).wf(),
            created(old(self)@, final(self)@, text_view(r, x, y, content@), Some(parent_id)),
    {
        let text_id = ObjectId::random();
        let mut text = Node::new(text_id, NodeType::Text);
        text.set_property(Property::X, PropertyValue::Float(x));
        text.set_property(Property::Y, PropertyValue::Float(y));
        text.set_property(Property::Text, PropertyValue::String(String::from_str(content)));
        text.set_property(Property::FontSize, PropertyValue::Float(Float32 { bits: SIXTEEN_BITS }));
        text.set_property(
            Property::FillColor,
            PropertyValue::Color(Color::from_channel_bits(FLOAT_ZERO_BITS, FLOAT_ZERO_BITS, FLOAT_ZERO_BITS, FLOAT_ONE_BITS)),
        );
        self.add_node(text, Some(parent_id));
        text_id
    }

    pub fn has_node(&self, id: ObjectId) -> (r: bool)
        ensures
            r == self@.tree.nodes.contains_key(id),
    {
        self.tree.contains(id)
    }

    pub fn get_node(&self, id: ObjectId) -> (r: Option<&Node>)
        ensures
            r is Some <==> self@.tree.nodes.contains_key(id),
            r is Some ==> r->0@ == self@.tree.nodes[id],
    {
        self.tree.get(id)
    }

    /// The node's `x` (see `Node::x`), or zero when the node is absent.
    pub fn get_node_x(&self, id: ObjectId) -> (r: Float32)
        ensures
            !self@.tree.nodes.contains_key(id) ==> r == (Float32 { bits: FLOAT_ZERO_BITS }),
            self@.tree.nodes.contains_key(id) ==> r == float_or(self@.tree.nodes[id].properties, Property::X, FLOAT_ZERO_BITS),
    {
        match self.tree.get(id) {
            Some(n) => n.x(),
            None => Float32 { bits: FLOAT_ZERO_BITS },
        }
    }

    /// Sets the node's `x`; nothing changes when it is absent.
    pub fn set_node_x(&mut self, id: ObjectId, x: Float32)
        requires
            old(self).wf(),
        ensures
            final(self).wf(),
            set_property_effect(old(self)@, final(self)@, id, Property::X, ValueView::Float(x)),
    {
        self.set_node_property(id, Property::X, PropertyValue::Float(x));
    }

    /// The node's `y` (see `Node::y`), or zero when the node is absent.
    pub fn get_node_y(&self, id: ObjectId) -> (r: Float32)
        ensures
            !self@.tree.nodes.contains_key(id) ==> r == (Float32 { bits: FLOAT_ZERO_BITS }),
            self@.tree.nodes.contains_key(id) ==> r == float_or(self@.tree.nodes[id].properties, Property::Y, FLOAT_ZERO_BITS),
    {
        match self.tree.get(id) {
            Some(n) => n.y(),
            None => Float32 { bits: FLOAT_ZERO_BITS },
        }
    }

    /// Sets the node's `y`; nothing changes when it is absent.
    pub fn set_node_y(&mut self, id: ObjectId, y: Float32)
        requires
            old(self).wf(),
        ensures
            final(self).wf(),
            set_property_effect(old(self)@, final(self)@, id, Property::Y, ValueView::Float(y)),
    {
        self.set_node_property(id, Property::Y, PropertyValue::Float(y));
    }

    /// The node's `width` (see `Node::width`), or zero when the node is absent.
    pub fn get_node_width(&self, id: ObjectId) -> (r: Float32)
        ensures
            !self@.tree.nodes.contains_key(id) ==> r == (Float32 { bits: FLOAT_ZERO_BITS }),
            self@.tree.nodes.contains_key(id) ==> r == float_or(self@.tree.nodes[id].properties, Property::Width, FLOAT_HUNDRED_BITS),
    {
        match self.tree.get(id) {
            Some(n) => n.width(),
            None => Float32 { bits: FLOAT_ZERO_BITS },
        }
    }

    /// Sets the node's `width`; nothing changes when it is absent.
    pub fn set_node_width(&mut self, id: ObjectId, width: Float32)
        requires
            old(self).wf(),
        ensures
            final(self).wf(),
            set_property_effect(old(self)@, final(self)@, id, Property::Width, ValueView::Float(width)),
    {
        self.set_node_property(id, Property::Width, PropertyValue::Float(width));
    }

    /// The node's `height` (see `Node::height`), or zero when the node is absent.
    pub fn get_node_height(&self, id: ObjectId) -> (r: Float32)
        ensures
            !self@.tree.nodes.contains_key(id) ==> r == (Float32 { bits: FLOAT_ZERO_BITS }),
            self@.tree.nodes.contains_key(id) ==> r == float_or(self@.tree.nodes[id].properties, Property::Height, FLOAT_HUNDRED_BITS),
    {
        match self.tree.get(id) {
            Some(n) => n.height(),
            None => Float32 { bits: FLOAT_ZERO_BITS },
        }
    }

    /// Sets the node's `height`; nothing changes when it is absent.
    pub fn set_node_height(&mut self, id: ObjectId, height: Float32)
        requires
            old(self).wf(),
        ensures
            final(self).wf(),
            set_property_effect(old(self)@, final(self)@, id, Property::Height, ValueView::Float(height)),
    {
        self.set_node_property(id, Property::Height, PropertyValue::Float(height));
    }

    /// Sets a property of node `id` and counts the edit; nothing changes
    /// when the node is absent.
    pub fn set_node_property(&mut self, id: ObjectId, property: Property, value: PropertyValue)
        requires
            old(self).wf(),
        ensures
            final(self).wf(),
            set_property_effect(old(self)@, final(self)@, id, property, value@),
    {
        if self.tree.contains(id) {
            self.tree.set_property(id, property, value);
            self.bump_version();
        }
    }

    /// Deletes node `id` with its subtree (see `DocumentTree::remove`) and
    /// counts the edit.
    pub fn delete_node(&mut self, id: ObjectId)
        requires
            old(self).wf(),
        ensures
            final(self).wf(),
            final(self)@.name == old(self)@.name,
            final(self)@.version == next_version(old(self)@.version),
            !old(self)@.tree.nodes.contains_key(id) ==> final(self)@.tree == old(self)@.tree,
            old(self)@.tree.nodes.contains_key(id) ==> removed(old(self)@.tree, final(self)@.tree, id),
    {
        self.tree.remove(id);
        self.bump_version();
    }

    pub fn get_children(&self, parent_id: ObjectId) -> (r: Vec<ObjectId>)
        ensures
            r@ == children_of(self@.tree, parent_id),
    {
        self.tree.children(parent_id)
    }
}

/// What setting a property does to a document: when the node exists, its
/// property map gets the value and the version moves on; otherwise nothing.
pub open spec fn set_property_effect(
    before: DocumentView,
    after: DocumentView,
    id: ObjectId,
    property: Property,
    value: ValueView,
) -> bool {
    if before.tree.nodes.contains_key(id) {
        &&& after.name == before.name
        &&& after.version == next_version(before.version)
        &&& after.tree == (TreeView {
            nodes: before.tree.nodes.insert(id, NodeView {
                properties: before.tree.nodes[id].properties.insert(property, value),
                ..before.tree.nodes[id]
            }),
            ..before.tree
        })
    } else {
        after == before
    }
}

} // verus!

verus! {

proof fn lemma_placed_alone(w: TreeView, l: Seq<ObjectId>, c: ObjectId)
    requires
        placed_by_key(w, Seq::<ObjectId>::empty(), l, c),
    ensures
        l == seq![c],
{
    let k = choose|k: int|
        0 <= k <= 0 && l == Seq::<ObjectId>::empty().insert(k, c) && (forall|i: int|
            0 <= i < k ==> key_le(okey(w, #[trigger] Seq::<ObjectId>::empty()[i]), okey(w, c))) && (forall|i: int|
            k <= i < 0 ==> key_lt(okey(w, c), okey(w, #[trigger] Seq::<ObjectId>::empty()[i])));
    assert(l =~= seq![c]);
}

/// In a new document, a frame and then a rectangle inside it (both with ids
/// new to the tree) give: the root holds the page, the page holds exactly the
/// frame, and the frame holds exactly the rectangle, with its box and fill.
pub proof fn lemma_page_frame_rectangle(
    d0: DocumentView,
    d1: DocumentView,
    d2: DocumentView,
    f: ObjectId,
    r: ObjectId,
    fx: Float32,
    fy: Float32,
    fw: Float32,
    fh: Float32,
    x: Float32,
    y: Float32,
    w: Float32,
    h: Float32,
)
    requires
        new_document_tree(d0.tree),
        !d0.tree.nodes.contains_key(f),
        created(d0, d1, frame_view(f, fx, fy, fw, fh), first_page(d0.tree)),
        !d1.tree.nodes.contains_key(r),
        created(d1, d2, rectangle_view(r, x, y, w, h), Some(f)),
    ensures
        children_of(d2.tree, d2.tree.root) == seq![first_page(d0.tree)->0],
        children_of(d2.tree, first_page(d0.tree)->0) == seq![f],
        children_of(d2.tree, f) == seq![r],
        d2.tree.nodes[r] == rectangle_view(r, x, y, w, h),
        d2.tree.nodes[f] == frame_view(f, fx, fy, fw, fh),
{
    let t0 = d0.tree;
    let page = choose|page: ObjectId|
        {
            &&& page != t0.root
            &&& t0.nodes.dom() == set![t0.root, page]
            &&& t0.nodes[t0.root] == (NodeView {
                id: t0.root,
                node_type: NodeType::Document,
                properties: Map::<Property, ValueView>::empty(),
                order_key: default_order_key(),
            })
            &&& t0.nodes[page] == (NodeView {
                id: page,
                node_type: NodeType::Page,
                properties: Map::<Property, ValueView>::empty().insert(Property::Name, ValueView::Text("Page 1"@)),
                order_key: default_order_key(),
            })
            &&& t0.children == map![t0.root => seq![page]]
            &&& t0.parent == map![page => t0.root]
        };
    assert(t0.nodes.dom().contains(t0.root));
    assert(t0.nodes.dom().contains(page));
    assert(children_of(t0, t0.root) == seq![page]);
    assert(first_page(t0) == Some(page));
    assert(placed_under(t0, f, Some(page)));
    let m1 = TreeView { nodes: t0.nodes.insert(f, frame_view(f, fx, fy, fw, fh)), ..t0 };
    assert(detached(m1, f) == m1);
    assert(!m1.children.contains_key(page));
    lemma_placed_alone(d1.tree, d1.tree.children[page], f);
    let t1 = d1.tree;
    assert(t1.children == t0.children.insert(page, seq![f]));
    assert(t1.root == t0.root);
    assert(t1.nodes.contains_key(f));
    assert(placed_under(t1, r, Some(f)));
    let m2 = TreeView { nodes: t1.nodes.insert(r, rectangle_view(r, x, y, w, h)), ..t1 };
    assert(detached(m2, r) == m2);
    assert(!t1.children.contains_key(f));
    lemma_placed_alone(d2.tree, d2.tree.children[f], r);
    assert(d2.tree.children == t1.children.insert(f, seq![r]));
    assert(f != r);
}

} // verus!
