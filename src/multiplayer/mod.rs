//! Collaboration: the message protocol, peers' cursors and the
//! per-connection sync engine.
use vstd::prelude::*;
use vstd::string::*;
use crate::properties::Float32;
use crate::text::{decimal, u64_to_decimal};

pub mod message;
pub mod sync;

verus! {

/// The identity the server gives a connected client.
#[derive(Clone, Copy, Debug, PartialEq, Eq, Structural, Hash)]
pub struct ClientId {
    pub id: u32,
}

impl ClientId {
    pub fn new(id: u32) -> (r: ClientId)
        ensures
            r.id == id,
    {
        ClientId { id }
    }

    pub fn value(&self) -> (r: u32)
        ensures
            r == self.id,
    {
        self.id
    }
}

/// Another user's cursor.
#[derive(Debug)]
pub struct UserCursor {
    client_id: ClientId,
    name: String,
    color: String,
    x: Float32,
    y: Float32,
}

pub struct CursorView {
    pub client_id: u32,
    pub name: Seq<char>,
    pub color: Seq<char>,
    pub x: Float32,
    pub y: Float32,
}

impl View for UserCursor {
    type V = CursorView;

    closed spec fn view(&self) -> CursorView {
        CursorView {
            client_id: self.client_id.id,
            name: self.name@,
            color: self.color@,
            x: self.x,
            y: self.y,
        }
    }
}

/// The display colors given to users in turn.
pub open spec fn user_color(id: u32) -> Seq<char> {
    let k = id % 8;
    if k == 0 {
        "#F24E1E"@
    } else if k == 1 {
        "#A259FF"@
    } else if k == 2 {
        "#1ABCFE"@
    } else if k == 3 {
        "#0ACF83"@
    } else if k == 4 {
        "#FF7262"@
    } else if k == 5 {
        "#FFC700"@
    } else if k == 6 {
        "#00C2FF"@
    } else {
        "#C7B9FF"@
    }
}

/// The name shown for a user known only by id: `User <id>`.
pub open spec fn placeholder_name(id: u32) -> Seq<char> {
    "User "@ + decimal(id as nat)
}

/// The color of the user with this id.
pub fn get_user_color(client_id: ClientId) -> (r: String)
    ensures
        r@ == user_color(client_id.id),
{
    let k = client_id.id % 8;
    let c = if k == 0 {
        "#F24E1E"
    } else if k == 1 {
        "#A259FF"
    } else if k == 2 {
        "#1ABCFE"
    } else if k == 3 {
        "#0ACF83"
    } else if k == 4 {
        "#FF7262"
    } else if k == 5 {
        "#FFC700"
    } else if k == 6 {
        "#00C2FF"
    } else {
        "#C7B9FF"
    };
    String::from_str(c)
}

impl UserCursor {
    /// A cursor at the origin.
    pub fn new(client_id: ClientId, name: &str, color: &str) -> (r: UserCursor)
        ensures
            r@ == (CursorView {
                client_id: client_id.id,
                name: name@,
                color: color@,
                x: Float32 { bits: 0 },
                y: Float32 { bits: 0 },
            }),
    {
        UserCursor {
            client_id,
            name: String::from_str(name),
            color: String::from_str(color),
            x: Float32 { bits: 0 },
            y: Float32 { bits: 0 },
        }
    }

    /// A cursor for a user seen for the first time: placeholder name, the
    /// user's color, at the origin.
    pub fn placeholder(id: u32) -> (r: UserCursor)
        ensures
            r@ == (CursorView {
                client_id: id,
                name: placeholder_name(id),
                color: user_color(id),
                x: Float32 { bits: 0 },
                y: Float32 { bits: 0 },
            }),
    {
        let mut name = String::from_str("User ");
        let digits = u64_to_decimal(id as u64);
        name.append(digits.as_str());
        let color = get_user_color(ClientId { id });
        UserCursor { client_id: ClientId { id }, name, color, x: Float32 { bits: 0 }, y: Float32 { bits: 0 } }
    }

    pub fn client_id(&self) -> (r: ClientId)
        ensures
            r.id == self@.client_id,
    {
        self.client_id
    }

    pub fn name(&self) -> (r: String)
        ensures
            r@ == self@.name,
    {
        self.name.clone()
    }

    pub fn color(&self) -> (r: String)
        ensures
            r@ == self@.color,
    {
        self.color.clone()
    }

    pub fn x(&self) -> (r: Float32)
        ensures
            r == self@.x,
    {
        self.x
    }

    pub fn y(&self) -> (r: Float32)
        ensures
            r == self@.y,
    {
        self.y
    }

    pub fn set_position(&mut self, x: Float32, y: Float32)
        ensures
            final(self)@ == (CursorView { x, y, ..old(self)@ }),
    {
        self.x = x;
        self.y = y;
    }
}

} // verus!
