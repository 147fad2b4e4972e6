//! Citizenship of the Ruined City: ten thousand credits, once, for ever.
//!
//! What the money buys is a gate, and the ground inside the city's core. The
//! decision lives in a file of its own: whether the player has enrolled.
use vstd::prelude::*;

use crate::bytes::{
    lemma_u32_bytes_len, lemma_u32_round_trip, read_u32, read_u8, stands_at, tag_at, u32_at,
    u32_bytes, u8_at, put_tag, put_u32, put_u8,
};

verus! {

/// What `citizenship.dat` starts with.
pub const MAGIC: [u8; 4] = [0x56, 0x58, 0x43, 0x5a];

/// The layout `citizenship.dat` is written in.
pub const VERSION: u32 = 1;

/// What citizenship costs. Ridiculous on purpose: the city is a place you
/// earn your way into.
pub const PRICE: u64 = 10_000;

/// A town as the city's gatekeepers see it: where its centre stands, and how
/// far its core reaches from the centre each way.
#[derive(Debug)]
pub struct TownSite {
    pub centre: (i32, i32),
    pub core_half: i32,
}

/// Whether the column `(x, z)` is inside the city's core.
pub open spec fn in_core(city: TownSite, x: int, z: int) -> bool {
    let dx = x - city.centre.0;
    let dz = z - city.centre.1;
    -city.core_half <= dx <= city.core_half && -city.core_half <= dz <= city.core_half
}

/// Is this column inside the city's core: the ground citizenship covers?
pub fn inside(city: &TownSite, x: i32, z: i32) -> (inner: bool)
    ensures
        inner == in_core(*city, x as int, z as int),
{
    let dx = x as i64 - city.centre.0 as i64;
    let dz = z as i64 - city.centre.1 as i64;
    let adx = if dx < 0 { -dx } else { dx };
    let adz = if dz < 0 { -dz } else { dz };
    adx <= city.core_half as i64 && adz <= city.core_half as i64
}

/// The whole of `citizenship.dat`.
pub open spec fn citizenship_bytes(enrolled: bool) -> Seq<u8> {
    MAGIC@ + u32_bytes(VERSION) + seq![if enrolled { 1u8 } else { 0u8 }]
}

/// What `citizenship.dat` says: whether the player enrolled, or `None` for a
/// file that is not one, is another version, or stops early.
pub open spec fn parse_citizenship(s: Seq<u8>) -> Option<bool> {
    if stands_at(s, 0, MAGIC@) && u32_at(s, 4) == Some((VERSION, 8int)) {
        match u8_at(s, 8) {
            Some((b, _)) => Some(b != 0),
            None => None,
        }
    } else {
        None
    }
}

/// Write `citizenship.dat`.
pub fn save(enrolled: bool) -> (bytes: Vec<u8>)
    ensures
        bytes@ == citizenship_bytes(enrolled),
{
    let mut out: Vec<u8> = Vec::new();
    put_tag(&mut out, &MAGIC);
    put_u32(&mut out, VERSION);
    put_u8(&mut out, if enrolled { 1 } else { 0 });
    out
}

/// Read `citizenship.dat`.
pub fn read(s: &[u8]) -> (r: Option<bool>)
    ensures
        r == parse_citizenship(s@),
{
    if !tag_at(s, 0, &MAGIC) {
        return None;
    }
    match read_u32(s, 4) {
        Some((v, _)) => if v != VERSION {
            return None;
        },
        None => return None,
    }
    match read_u8(s, 8) {
        Some((b, _)) => Some(b != 0),
        None => None,
    }
}

/// Whether the player is a citizen, from the file if there is one: a missing
/// file means no, and so does a damaged one, which is also reported so the
/// caller can say so rather than silently read it as a refusal.
pub fn load(file: Option<&[u8]>) -> (r: (bool, bool))
    ensures
        file is None ==> r == (false, false),
        file matches Some(s) ==> r == match parse_citizenship(s@) {
            Some(enrolled) => (enrolled, false),
            None => (false, true),
        },
{
    match file {
        None => (false, false),
        Some(s) => match read(s) {
            Some(enrolled) => (enrolled, false),
            None => (false, true),
        },
    }
}

/// **Citizenship survives a save**: what is written reads back as itself.
pub proof fn lemma_citizenship_round_trip(enrolled: bool)
    ensures
        parse_citizenship(citizenship_bytes(enrolled)) == Some(enrolled),
{
    let s = citizenship_bytes(enrolled);
    lemma_u32_bytes_len(VERSION);
    assert(s.subrange(0, 4) =~= MAGIC@);
    assert(s.subrange(4, 8) =~= u32_bytes(VERSION));
    lemma_u32_round_trip(s, 4, VERSION);
}

} // verus!
