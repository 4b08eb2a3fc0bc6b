//! The closed set of node properties and the values they can hold.
use vstd::prelude::*;
use crate::codec::{
    atom_fits, atoms_match_at, atoms_view, decode_atoms, enc_atoms, encode_atoms,
    lemma_atoms_round_trip, parse_atoms, same_text, text_at, text_in, u32_of, u32_of_exec, uint_at,
    uint_in, Atom, AtomView,
};

verus! {

/// Every attribute that can be set on a node.
#[derive(Clone, Copy, Debug, PartialEq, Eq, Structural, Hash)]
pub enum Property {
    X,
    Y,
    Width,
    Height,
    Rotation,
    Opacity,
    Visible,
    Locked,
    FillColor,
    FillOpacity,
    StrokeColor,
    StrokeWidth,
    StrokeOpacity,
    StrokeAlign,
    StrokeCap,
    StrokeJoin,
    CornerRadius,
    Text,
    FontFamily,
    FontSize,
    FontWeight,
    FontStyle,
    TextAlign,
    LineHeight,
    LetterSpacing,
    BlurRadius,
    ShadowColor,
    ShadowOffsetX,
    ShadowOffsetY,
    ShadowBlur,
    ShadowSpread,
    LayoutMode,
    LayoutDirection,
    LayoutGap,
    LayoutPadding,
    LayoutAlign,
    Name,
    Description,
    ParentId,
}

/// A 32-bit IEEE float held as its bit pattern, so that equality and
/// encoding are exact.
#[derive(Clone, Copy, Debug, PartialEq, Eq, Structural, Hash)]
pub struct Float32 {
    pub bits: u32,
}

pub const FLOAT_ZERO_BITS: u32 = 0x0000_0000;

pub const FLOAT_ONE_BITS: u32 = 0x3F80_0000;

pub const FLOAT_HUNDRED_BITS: u32 = 0x42C8_0000;

impl Float32 {
    pub fn from_bits(bits: u32) -> (r: Float32)
        ensures
            r.bits == bits,
    {
        Float32 { bits }
    }

    pub fn to_bits(&self) -> (r: u32)
        ensures
            r == self.bits,
    {
        self.bits
    }
}

/// An RGBA color, each channel a float in `[0, 1]`.
#[derive(Clone, Copy, Debug, PartialEq, Eq, Structural, Hash)]
pub struct Color {
    pub r: Float32,
    pub g: Float32,
    pub b: Float32,
    pub a: Float32,
}

pub open spec fn color_of_bits(r: u32, g: u32, b: u32, a: u32) -> Color {
    Color {
        r: Float32 { bits: r },
        g: Float32 { bits: g },
        b: Float32 { bits: b },
        a: Float32 { bits: a },
    }
}

impl Color {
    pub fn new(r: Float32, g: Float32, b: Float32, a: Float32) -> (c: Color)
        ensures
            c == (Color { r, g, b, a }),
    {
        Color { r, g, b, a }
    }

    pub fn from_channel_bits(r: u32, g: u32, b: u32, a: u32) -> (c: Color)
        ensures
            c == color_of_bits(r, g, b, a),
    {
        Color {
            r: Float32 { bits: r },
            g: Float32 { bits: g },
            b: Float32 { bits: b },
            a: Float32 { bits: a },
        }
    }

    pub open spec fn spec_zero() -> Color {
        color_of_bits(FLOAT_ZERO_BITS, FLOAT_ZERO_BITS, FLOAT_ZERO_BITS, FLOAT_ZERO_BITS)
    }

    /// All four channels zero, the color a node has when none is set.
    pub fn zero() -> (c: Color)
        ensures
            c == Color::spec_zero(),
    {
        Color::from_channel_bits(FLOAT_ZERO_BITS, FLOAT_ZERO_BITS, FLOAT_ZERO_BITS, FLOAT_ZERO_BITS)
    }

    pub fn white() -> (c: Color)
        ensures
            c == color_of_bits(FLOAT_ONE_BITS, FLOAT_ONE_BITS, FLOAT_ONE_BITS, FLOAT_ONE_BITS),
    {
        Color::from_channel_bits(FLOAT_ONE_BITS, FLOAT_ONE_BITS, FLOAT_ONE_BITS, FLOAT_ONE_BITS)
    }

    pub fn black() -> (c: Color)
        ensures
            c == color_of_bits(FLOAT_ZERO_BITS, FLOAT_ZERO_BITS, FLOAT_ZERO_BITS, FLOAT_ONE_BITS),
    {
        Color::from_channel_bits(FLOAT_ZERO_BITS, FLOAT_ZERO_BITS, FLOAT_ZERO_BITS, FLOAT_ONE_BITS)
    }

    pub fn transparent() -> (c: Color)
        ensures
            c == color_of_bits(FLOAT_ZERO_BITS, FLOAT_ZERO_BITS, FLOAT_ZERO_BITS, FLOAT_ZERO_BITS),
    {
        Color::from_channel_bits(FLOAT_ZERO_BITS, FLOAT_ZERO_BITS, FLOAT_ZERO_BITS, FLOAT_ZERO_BITS)
    }

    pub fn red() -> (c: Color)
        ensures
            c == color_of_bits(FLOAT_ONE_BITS, FLOAT_ZERO_BITS, FLOAT_ZERO_BITS, FLOAT_ONE_BITS),
    {
        Color::from_channel_bits(FLOAT_ONE_BITS, FLOAT_ZERO_BITS, FLOAT_ZERO_BITS, FLOAT_ONE_BITS)
    }

    pub fn green() -> (c: Color)
        ensures
            c == color_of_bits(FLOAT_ZERO_BITS, FLOAT_ONE_BITS, FLOAT_ZERO_BITS, FLOAT_ONE_BITS),
    {
        Color::from_channel_bits(FLOAT_ZERO_BITS, FLOAT_ONE_BITS, FLOAT_ZERO_BITS, FLOAT_ONE_BITS)
    }

    pub fn blue() -> (c: Color)
        ensures
            c == color_of_bits(FLOAT_ZERO_BITS, FLOAT_ZERO_BITS, FLOAT_ONE_BITS, FLOAT_ONE_BITS),
    {
        Color::from_channel_bits(FLOAT_ZERO_BITS, FLOAT_ZERO_BITS, FLOAT_ONE_BITS, FLOAT_ONE_BITS)
    }
}

/// The value of a property.
#[derive(Clone, Debug, PartialEq)]
pub enum PropertyValue {
    Float(Float32),
    Int(i32),
    Bool(bool),
    String(String),
    Color(Color),
    Vec2(Float32, Float32),
    Vec4(Float32, Float32, Float32, Float32),
}

} // verus!

verus! {

/// What a property value holds, with text as its characters.
pub enum ValueView {
    Float(Float32),
    Int(i32),
    Bool(bool),
    Text(Seq<char>),
    Color(Color),
    Vec2(Float32, Float32),
    Vec4(Float32, Float32, Float32, Float32),
}

impl View for PropertyValue {
    type V = ValueView;

    open spec fn view(&self) -> ValueView {
        match self {
            PropertyValue::Float(f) => ValueView::Float(*f),
            PropertyValue::Int(i) => ValueView::Int(*i),
            PropertyValue::Bool(b) => ValueView::Bool(*b),
            PropertyValue::String(s) => ValueView::Text(s@),
            PropertyValue::Color(c) => ValueView::Color(*c),
            PropertyValue::Vec2(x, y) => ValueView::Vec2(*x, *y),
            PropertyValue::Vec4(x, y, z, w) => ValueView::Vec4(*x, *y, *z, *w),
        }
    }
}

impl PropertyValue {
    /// A copy of the value.
    pub fn duplicate(&self) -> (r: PropertyValue)
        ensures
            r@ == self@,
    {
        match self {
            PropertyValue::Float(f) => PropertyValue::Float(*f),
            PropertyValue::Int(i) => PropertyValue::Int(*i),
            PropertyValue::Bool(b) => PropertyValue::Bool(*b),
            PropertyValue::String(s) => PropertyValue::String(s.clone()),
            PropertyValue::Color(c) => PropertyValue::Color(*c),
            PropertyValue::Vec2(x, y) => PropertyValue::Vec2(*x, *y),
            PropertyValue::Vec4(x, y, z, w) => PropertyValue::Vec4(*x, *y, *z, *w),
        }
    }
}

} // verus!

verus! {

/// The position of a property in the closed set, as written on the wire.
pub open spec fn property_index(p: Property) -> u64 {
    match p {
        Property::X => 0,
        Property::Y => 1,
        Property::Width => 2,
        Property::Height => 3,
        Property::Rotation => 4,
        Property::Opacity => 5,
        Property::Visible => 6,
        Property::Locked => 7,
        Property::FillColor => 8,
        Property::FillOpacity => 9,
        Property::StrokeColor => 10,
        Property::StrokeWidth => 11,
        Property::StrokeOpacity => 12,
        Property::StrokeAlign => 13,
        Property::StrokeCap => 14,
        Property::StrokeJoin => 15,
        Property::CornerRadius => 16,
        Property::Text => 17,
        Property::FontFamily => 18,
        Property::FontSize => 19,
        Property::FontWeight => 20,
        Property::FontStyle => 21,
        Property::TextAlign => 22,
        Property::LineHeight => 23,
        Property::LetterSpacing => 24,
        Property::BlurRadius => 25,
        Property::ShadowColor => 26,
        Property::ShadowOffsetX => 27,
        Property::ShadowOffsetY => 28,
        Property::ShadowBlur => 29,
        Property::ShadowSpread => 30,
        Property::LayoutMode => 31,
        Property::LayoutDirection => 32,
        Property::LayoutGap => 33,
        Property::LayoutPadding => 34,
        Property::LayoutAlign => 35,
        Property::Name => 36,
        Property::Description => 37,
        Property::ParentId => 38,
    }
}

pub open spec fn property_at(n: u64) -> Option<Property> {
    if n == 0 {
        Some(Property::X)
    } else if n == 1 {
        Some(Property::Y)
    } else if n == 2 {
        Some(Property::Width)
    } else if n == 3 {
        Some(Property::Height)
    } else if n == 4 {
        Some(Property::Rotation)
    } else if n == 5 {
        Some(Property::Opacity)
    } else if n == 6 {
        Some(Property::Visible)
    } else if n == 7 {
        Some(Property::Locked)
    } else if n == 8 {
        Some(Property::FillColor)
    } else if n == 9 {
        Some(Property::FillOpacity)
    } else if n == 10 {
        Some(Property::StrokeColor)
    } else if n == 11 {
        Some(Property::StrokeWidth)
    } else if n == 12 {
        Some(Property::StrokeOpacity)
    } else if n == 13 {
        Some(Property::StrokeAlign)
    } else if n == 14 {
        Some(Property::StrokeCap)
    } else if n == 15 {
        Some(Property::StrokeJoin)
    } else if n == 16 {
        Some(Property::CornerRadius)
    } else if n == 17 {
        Some(Property::Text)
    } else if n == 18 {
        Some(Property::FontFamily)
    } else if n == 19 {
        Some(Property::FontSize)
    } else if n == 20 {
        Some(Property::FontWeight)
    } else if n == 21 {
        Some(Property::FontStyle)
    } else if n == 22 {
        Some(Property::TextAlign)
    } else if n == 23 {
        Some(Property::LineHeight)
    } else if n == 24 {
        Some(Property::LetterSpacing)
    } else if n == 25 {
        Some(Property::BlurRadius)
    } else if n == 26 {
        Some(Property::ShadowColor)
    } else if n == 27 {
        Some(Property::ShadowOffsetX)
    } else if n == 28 {
        Some(Property::ShadowOffsetY)
    } else if n == 29 {
        Some(Property::ShadowBlur)
    } else if n == 30 {
        Some(Property::ShadowSpread)
    } else if n == 31 {
        Some(Property::LayoutMode)
    } else if n == 32 {
        Some(Property::LayoutDirection)
    } else if n == 33 {
        Some(Property::LayoutGap)
    } else if n == 34 {
        Some(Property::LayoutPadding)
    } else if n == 35 {
        Some(Property::LayoutAlign)
    } else if n == 36 {
        Some(Property::Name)
    } else if n == 37 {
        Some(Property::Description)
    } else if n == 38 {
        Some(Property::ParentId)
    } else {
        None
    }
}

/// Every property is found again at its own position.
pub proof fn lemma_property_index(p: Property)
    ensures
        property_at(property_index(p)) == Some(p),
{
}

impl Property {
    pub fn index(&self) -> (r: u64)
        ensures
            r == property_index(*self),
    {
        match self {
            Property::X => 0,
            Property::Y => 1,
            Property::Width => 2,
            Property::Height => 3,
            Property::Rotation => 4,
            Property::Opacity => 5,
            Property::Visible => 6,
            Property::Locked => 7,
            Property::FillColor => 8,
            Property::FillOpacity => 9,
            Property::StrokeColor => 10,
            Property::StrokeWidth => 11,
            Property::StrokeOpacity => 12,
            Property::StrokeAlign => 13,
            Property::StrokeCap => 14,
            Property::StrokeJoin => 15,
            Property::CornerRadius => 16,
            Property::Text => 17,
            Property::FontFamily => 18,
            Property::FontSize => 19,
            Property::FontWeight => 20,
            Property::FontStyle => 21,
            Property::TextAlign => 22,
            Property::LineHeight => 23,
            Property::LetterSpacing => 24,
            Property::BlurRadius => 25,
            Property::ShadowColor => 26,
            Property::ShadowOffsetX => 27,
            Property::ShadowOffsetY => 28,
            Property::ShadowBlur => 29,
            Property::ShadowSpread => 30,
            Property::LayoutMode => 31,
            Property::LayoutDirection => 32,
            Property::LayoutGap => 33,
            Property::LayoutPadding => 34,
            Property::LayoutAlign => 35,
            Property::Name => 36,
            Property::Description => 37,
            Property::ParentId => 38,
        }
    }

    pub fn from_index(n: u64) -> (r: Option<Property>)
        ensures
            r == property_at(n),
    {
        if n == 0 {
            Some(Property::X)
        } else if n == 1 {
            Some(Property::Y)
        } else if n == 2 {
            Some(Property::Width)
        } else if n == 3 {
            Some(Property::Height)
        } else if n == 4 {
            Some(Property::Rotation)
        } else if n == 5 {
            Some(Property::Opacity)
        } else if n == 6 {
            Some(Property::Visible)
        } else if n == 7 {
            Some(Property::Locked)
        } else if n == 8 {
            Some(Property::FillColor)
        } else if n == 9 {
            Some(Property::FillOpacity)
        } else if n == 10 {
            Some(Property::StrokeColor)
        } else if n == 11 {
            Some(Property::StrokeWidth)
        } else if n == 12 {
            Some(Property::StrokeOpacity)
        } else if n == 13 {
            Some(Property::StrokeAlign)
        } else if n == 14 {
            Some(Property::StrokeCap)
        } else if n == 15 {
            Some(Property::StrokeJoin)
        } else if n == 16 {
            Some(Property::CornerRadius)
        } else if n == 17 {
            Some(Property::Text)
        } else if n == 18 {
            Some(Property::FontFamily)
        } else if n == 19 {
            Some(Property::FontSize)
        } else if n == 20 {
            Some(Property::FontWeight)
        } else if n == 21 {
            Some(Property::FontStyle)
        } else if n == 22 {
            Some(Property::TextAlign)
        } else if n == 23 {
            Some(Property::LineHeight)
        } else if n == 24 {
            Some(Property::LetterSpacing)
        } else if n == 25 {
            Some(Property::BlurRadius)
        } else if n == 26 {
            Some(Property::ShadowColor)
        } else if n == 27 {
            Some(Property::ShadowOffsetX)
        } else if n == 28 {
            Some(Property::ShadowOffsetY)
        } else if n == 29 {
            Some(Property::ShadowBlur)
        } else if n == 30 {
            Some(Property::ShadowSpread)
        } else if n == 31 {
            Some(Property::LayoutMode)
        } else if n == 32 {
            Some(Property::LayoutDirection)
        } else if n == 33 {
            Some(Property::LayoutGap)
        } else if n == 34 {
            Some(Property::LayoutPadding)
        } else if n == 35 {
            Some(Property::LayoutAlign)
        } else if n == 36 {
            Some(Property::Name)
        } else if n == 37 {
            Some(Property::Description)
        } else if n == 38 {
            Some(Property::ParentId)
        } else {
            None
        }
    }
}

} // verus!

verus! {

pub open spec fn i32_bits(i: i32) -> u64 {
    if i >= 0 {
        i as u64
    } else {
        (i + 0x1_0000_0000) as u64
    }
}

pub open spec fn i32_of_bits(u: u64) -> i32 {
    if u < 0x8000_0000 {
        u as i32
    } else if u <= u32::MAX {
        (u - 0x1_0000_0000) as i32
    } else {
        0
    }
}

pub open spec fn float_of(u: u64) -> Float32 {
    Float32 { bits: u32_of(u) }
}

/// The atoms of a property value: its kind's name, then its payload.
pub open spec fn value_atoms(v: ValueView) -> Seq<AtomView> {
    match v {
        ValueView::Float(f) => seq![AtomView::Text("Float"@), AtomView::Uint(f.bits as u64)],
        ValueView::Int(i) => seq![AtomView::Text("Int"@), AtomView::Uint(i32_bits(i))],
        ValueView::Bool(b) => seq![AtomView::Text("Bool"@), AtomView::Uint(if b { 1 } else { 0 })],
        ValueView::Text(t) => seq![AtomView::Text("String"@), AtomView::Text(t)],
        ValueView::Color(c) => seq![
            AtomView::Text("Color"@),
            AtomView::Uint(c.r.bits as u64),
            AtomView::Uint(c.g.bits as u64),
            AtomView::Uint(c.b.bits as u64),
            AtomView::Uint(c.a.bits as u64),
        ],
        ValueView::Vec2(x, y) => seq![AtomView::Text("Vec2"@), AtomView::Uint(x.bits as u64), AtomView::Uint(y.bits as u64)],
        ValueView::Vec4(x, y, z, w) => seq![
            AtomView::Text("Vec4"@),
            AtomView::Uint(x.bits as u64),
            AtomView::Uint(y.bits as u64),
            AtomView::Uint(z.bits as u64),
            AtomView::Uint(w.bits as u64),
        ],
    }
}

/// The value that atoms `l` would be, read by the kind `l` names.
pub open spec fn value_candidate(l: Seq<AtomView>) -> Option<ValueView> {
    let t = text_at(l, 0);
    if t == "Float"@ {
        Some(ValueView::Float(float_of(uint_at(l, 1))))
    } else if t == "Int"@ {
        Some(ValueView::Int(i32_of_bits(uint_at(l, 1))))
    } else if t == "Bool"@ {
        Some(ValueView::Bool(uint_at(l, 1) == 1))
    } else if t == "String"@ {
        Some(ValueView::Text(text_at(l, 1)))
    } else if t == "Color"@ {
        Some(ValueView::Color(Color {
            r: float_of(uint_at(l, 1)),
            g: float_of(uint_at(l, 2)),
            b: float_of(uint_at(l, 3)),
            a: float_of(uint_at(l, 4)),
        }))
    } else if t == "Vec2"@ {
        Some(ValueView::Vec2(float_of(uint_at(l, 1)), float_of(uint_at(l, 2))))
    } else if t == "Vec4"@ {
        Some(ValueView::Vec4(float_of(uint_at(l, 1)), float_of(uint_at(l, 2)), float_of(uint_at(l, 3)), float_of(uint_at(l, 4))))
    } else {
        None
    }
}

/// The value that atoms `l` stand for; `None` unless they are exactly the
/// atoms of one value.
pub open spec fn value_of_atoms(l: Seq<AtomView>) -> Option<ValueView> {
    match value_candidate(l) {
        Some(v) => if value_atoms(v) == l {
            Some(v)
        } else {
            None
        },
        None => None,
    }
}

/// The serialized form of a property value.
pub open spec fn value_text(v: ValueView) -> Seq<char> {
    enc_atoms(value_atoms(v))
}

/// The property value a serialized form decodes to.
pub open spec fn decode_value(s: Seq<char>) -> Option<ValueView> {
    match parse_atoms(s) {
        Some(l) => value_of_atoms(l),
        None => None,
    }
}

pub open spec fn value_fits(v: ValueView) -> bool {
    v matches ValueView::Text(t) ==> t.len() <= u64::MAX
}

/// The number of atoms of a value of the kind named `tag`; zero for an
/// unknown kind.
pub open spec fn value_atom_count(tag: Seq<char>) -> nat {
    if tag == "Float"@ || tag == "Int"@ || tag == "Bool"@ || tag == "String"@ {
        2
    } else if tag == "Vec2"@ {
        3
    } else if tag == "Color"@ || tag == "Vec4"@ {
        5
    } else {
        0
    }
}

pub fn value_atom_count_exec(tag: &str) -> (r: usize)
    ensures
        r == value_atom_count(tag@),
{
    if same_text(tag, "Float") || same_text(tag, "Int") || same_text(tag, "Bool") || same_text(tag, "String") {
        2
    } else if same_text(tag, "Vec2") {
        3
    } else if same_text(tag, "Color") || same_text(tag, "Vec4") {
        5
    } else {
        0
    }
}

/// The atoms of a value read back give the value.
pub proof fn lemma_value_atoms_round_trip(v: ValueView)
    ensures
        value_of_atoms(value_atoms(v)) == Some(v),
        value_atom_count(text_at(value_atoms(v), 0)) == value_atoms(v).len(),
{
    reveal_strlit("Float");
    reveal_strlit("Int");
    reveal_strlit("Bool");
    reveal_strlit("String");
    reveal_strlit("Color");
    reveal_strlit("Vec2");
    reveal_strlit("Vec4");
    let l = value_atoms(v);
    assert("Vec2"@[3] != "Vec4"@[3]);
    assert("Vec4"@ != "Vec2"@);
    assert("Bool"@[0] != "Vec2"@[0]);
    assert("Bool"@ != "Vec2"@);
    assert("Vec2"@ != "Bool"@);
    assert("Vec4"@ != "Bool"@);
    assert("Vec4"@[0] != "Bool"@[0]);
    assert("Color"@[0] != "Float"@[0]);
    assert("Color"@ != "Float"@);
    assert("Vec2"@[0] != "Int"@[0]);
    assert("Vec4"@[0] != "Int"@[0]);
    assert(value_candidate(l) == Some(v));
}

/// Decoding the serialized form of a property value gives the value back.
pub proof fn lemma_value_round_trip(v: ValueView)
    requires
        value_fits(v),
    ensures
        decode_value(value_text(v)) == Some(v),
{
    reveal_strlit("Float");
    reveal_strlit("Int");
    reveal_strlit("Bool");
    reveal_strlit("String");
    reveal_strlit("Color");
    reveal_strlit("Vec2");
    reveal_strlit("Vec4");
    let l = value_atoms(v);
    assert forall|i: int| 0 <= i < l.len() implies atom_fits(#[trigger] l[i]) by {}
    lemma_atoms_round_trip(l);
    lemma_value_atoms_round_trip(v);
}

impl PropertyValue {
    /// The atoms of this value.
    pub fn atoms(&self) -> (r: Vec<Atom>)
        ensures
            atoms_view(r@) == value_atoms(self@),
    {
        let mut v: Vec<Atom> = Vec::new();
        match self {
            PropertyValue::Float(f) => {
                v.push(Atom::Text(String::from_str("Float")));
                v.push(Atom::Uint(f.bits as u64));
            },
            PropertyValue::Int(i) => {
                v.push(Atom::Text(String::from_str("Int")));
                let bits: u64 = if *i >= 0 {
                    *i as u64
                } else {
                    (*i as i64 + 0x1_0000_0000) as u64
                };
                v.push(Atom::Uint(bits));
            },
            PropertyValue::Bool(b) => {
                v.push(Atom::Text(String::from_str("Bool")));
                v.push(Atom::Uint(if *b { 1 } else { 0 }));
            },
            PropertyValue::String(t) => {
                v.push(Atom::Text(String::from_str("String")));
                v.push(Atom::Text(t.clone()));
            },
            PropertyValue::Color(c) => {
                v.push(Atom::Text(String::from_str("Color")));
                v.push(Atom::Uint(c.r.bits as u64));
                v.push(Atom::Uint(c.g.bits as u64));
                v.push(Atom::Uint(c.b.bits as u64));
                v.push(Atom::Uint(c.a.bits as u64));
            },
            PropertyValue::Vec2(x, y) => {
                v.push(Atom::Text(String::from_str("Vec2")));
                v.push(Atom::Uint(x.bits as u64));
                v.push(Atom::Uint(y.bits as u64));
            },
            PropertyValue::Vec4(x, y, z, w) => {
                v.push(Atom::Text(String::from_str("Vec4")));
                v.push(Atom::Uint(x.bits as u64));
                v.push(Atom::Uint(y.bits as u64));
                v.push(Atom::Uint(z.bits as u64));
                v.push(Atom::Uint(w.bits as u64));
            },
        }
        assert(atoms_view(v@) =~= value_atoms(self@));
        v
    }

    /// The value that the atoms of `l` from `start` to `end` stand for (see
    /// `value_of_atoms`).
    pub fn from_atoms_at(l: &Vec<Atom>, start: usize, end: usize) -> (r: Option<PropertyValue>)
        requires
            start <= end <= l@.len(),
        ensures
            match r {
                Some(v) => value_of_atoms(atoms_view(l@).subrange(start as int, end as int)) == Some(v@),
                None => value_of_atoms(atoms_view(l@).subrange(start as int, end as int)) is None,
            },
    {
        let ghost lv = atoms_view(l@).subrange(start as int, end as int);
        let tag = text_in(l, start, end, 0);
        let t = tag.as_str();
        let cand = if same_text(t, "Float") {
            PropertyValue::Float(Float32 { bits: u32_of_exec(uint_in(l, start, end, 1)) })
        } else if same_text(t, "Int") {
            let u = uint_in(l, start, end, 1);
            let i: i32 = if u < 0x8000_0000 {
                u as i32
            } else if u <= u32::MAX as u64 {
                (u as i64 - 0x1_0000_0000) as i32
            } else {
                0
            };
            PropertyValue::Int(i)
        } else if same_text(t, "Bool") {
            PropertyValue::Bool(uint_in(l, start, end, 1) == 1)
        } else if same_text(t, "String") {
            PropertyValue::String(text_in(l, start, end, 1))
        } else if same_text(t, "Color") {
            PropertyValue::Color(Color {
                r: Float32 { bits: u32_of_exec(uint_in(l, start, end, 1)) },
                g: Float32 { bits: u32_of_exec(uint_in(l, start, end, 2)) },
                b: Float32 { bits: u32_of_exec(uint_in(l, start, end, 3)) },
                a: Float32 { bits: u32_of_exec(uint_in(l, start, end, 4)) },
            })
        } else if same_text(t, "Vec2") {
            PropertyValue::Vec2(Float32 { bits: u32_of_exec(uint_in(l, start, end, 1)) }, Float32 { bits: u32_of_exec(uint_in(l, start, end, 2)) })
        } else if same_text(t, "Vec4") {
            PropertyValue::Vec4(
                Float32 { bits: u32_of_exec(uint_in(l, start, end, 1)) },
                Float32 { bits: u32_of_exec(uint_in(l, start, end, 2)) },
                Float32 { bits: u32_of_exec(uint_in(l, start, end, 3)) },
                Float32 { bits: u32_of_exec(uint_in(l, start, end, 4)) },
            )
        } else {
            return None;
        };
        assert(value_candidate(lv) == Some(cand@));
        let atoms = cand.atoms();
        if atoms.len() == end - start && atoms_match_at(l, start, &atoms) {
            Some(cand)
        } else {
            None
        }
    }

    /// The value that atoms `l` stand for (see `value_of_atoms`).
    pub fn from_atoms(l: &Vec<Atom>) -> (r: Option<PropertyValue>)
        ensures
            match r {
                Some(v) => value_of_atoms(atoms_view(l@)) == Some(v@),
                None => value_of_atoms(atoms_view(l@)) is None,
            },
    {
        assert(atoms_view(l@).subrange(0, l@.len() as int) == atoms_view(l@));
        PropertyValue::from_atoms_at(l, 0, l.len())
    }

    /// The serialized form of this value.
    pub fn encode(&self) -> (r: String)
        ensures
            r@ == value_text(self@),
    {
        encode_atoms(&self.atoms())
    }

    /// Decodes a serialized value; `None` when the text is malformed.
    pub fn decode(text: &str) -> (r: Option<PropertyValue>)
        ensures
            match r {
                Some(v) => decode_value(text@) == Some(v@),
                None => decode_value(text@) is None,
            },
    {
        match decode_atoms(text) {
            Some(l) => PropertyValue::from_atoms(&l),
            None => None,
        }
    }
}

} // verus!
