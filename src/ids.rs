//! Object identity: a pair of an origin (the allocating client) and a
//! sequence number that is unique within that origin.
use vstd::prelude::*;
use crate::text::{decimal, u64_to_decimal};

verus! {

/// Globally unique identifier of a document object.
#[derive(Clone, Copy, Debug, PartialEq, Eq, Structural, Hash)]
pub struct ObjectId {
    pub client_id: u32,
    pub sequence: u32,
}

/// The value of four bytes read in little-endian order.
pub open spec fn le_u32(b0: u8, b1: u8, b2: u8, b3: u8) -> int {
    b0 + 256 * b1 + 65536 * b2 + 16777216 * b3
}

/// Relies on uuid::Uuid::new_v4 (and Uuid::as_bytes): sixteen bytes from the
/// system's random source.
#[verifier::external_body]
fn random_uuid_bytes() -> (r: Vec<u8>)
    ensures
        r@.len() == 16,
{
    uuid::Uuid::new_v4().as_bytes().to_vec()
}

fn read_le_u32(b0: u8, b1: u8, b2: u8, b3: u8) -> (r: u32)
    ensures
        r == le_u32(b0, b1, b2, b3),
{
    b0 as u32 + 256 * (b1 as u32) + 65536 * (b2 as u32) + 16777216 * (b3 as u32)
}

impl ObjectId {
    /// The integer that stands for this identifier in the tree's maps; distinct
    /// identifiers have distinct keys.
    pub open spec fn key(self) -> u64 {
        (self.client_id as int * 0x1_0000_0000 + self.sequence as int) as u64
    }

    pub fn new(client_id: u32, sequence: u32) -> (r: ObjectId)
        ensures
            r.client_id == client_id,
            r.sequence == sequence,
    {
        ObjectId { client_id, sequence }
    }

    /// An identifier drawn at random, for use without an origin: unique only
    /// with high probability.
    pub fn random() -> (r: ObjectId) {
        let bytes = random_uuid_bytes();
        ObjectId {
            client_id: read_le_u32(bytes[0], bytes[1], bytes[2], bytes[3]),
            sequence: read_le_u32(bytes[4], bytes[5], bytes[6], bytes[7]),
        }
    }

    pub fn client_id(&self) -> (r: u32)
        ensures
            r == self.client_id,
    {
        self.client_id
    }

    pub fn sequence(&self) -> (r: u32)
        ensures
            r == self.sequence,
    {
        self.sequence
    }

    pub fn map_key(&self) -> (r: u64)
        ensures
            r == self.key(),
    {
        self.client_id as u64 * 0x1_0000_0000 + self.sequence as u64
    }

    /// The identifier written as `origin:sequence` in decimal.
    pub fn to_string(&self) -> (r: String)
        ensures
            r@ == decimal(self.client_id as nat) + seq![':'] + decimal(self.sequence as nat),
    {
        let mut s = u64_to_decimal(self.client_id as u64);
        s.append(":");
        let tail = u64_to_decimal(self.sequence as u64);
        s.append(tail.as_str());
        proof {
            reveal_strlit(":");
        }
        s
    }
}

/// The identifier whose map key is `k`.
pub open spec fn id_of_key(k: u64) -> ObjectId {
    ObjectId { client_id: (k / 0x1_0000_0000) as u32, sequence: (k % 0x1_0000_0000) as u32 }
}

/// Map keys and identifiers are in one-to-one correspondence.
pub proof fn lemma_key_bijective(k: u64, id: ObjectId)
    ensures
        id_of_key(k).key() == k,
        id_of_key(id.key()) == id,
{
}

} // verus!
