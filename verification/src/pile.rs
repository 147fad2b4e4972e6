//! The fleet's base pile, on disk.
//!
//! The pile is what the fuel tank burns out of, so a pile that forgets is a
//! fleet that stops. A fleet with no base writes a present-flag of zero —
//! "there is no pile" is a fact worth recording, not an absence to be inferred
//! from a missing file.
use vstd::prelude::*;

use crate::bytes::{
    lemma_stands_at_end, lemma_u32_bytes_len, lemma_u32_round_trip, put_tag, put_u32, put_u8,
    read_u32, read_u8, stands_at, tag_at, u32_at, u32_bytes, u8_at,
};
use crate::cargo::{lemma_pile_round_trip, names_fit, pile_at, pile_bytes, put_pile, read_pile};
use crate::geometry::{lemma_pos_bytes_len, lemma_pos_round_trip, pos_at, pos_bytes, put_pos, read_pos, BlockPos};
use crate::air::{base_count, same_air, Fleet};
use crate::dig::pile_writable;
use crate::fleet::file_view;
use crate::stockpile::{capped, count_in, rows_view, wf_rows, Stockpile};

verus! {

/// The four bytes `pile.dat` starts with.
pub const MAGIC: [u8; 4] = [0x56, 0x58, 0x42, 0x50];

/// The layout this build writes.
pub const VERSION: u32 = 1;

/// Longest good name accepted.
pub const MAX_NAME: u32 = 64;

/// The declared container the crew unloads into, and what it holds.
#[derive(Debug, Clone, PartialEq, Eq)]
pub struct Base {
    pub position: BlockPos,
    pub stockpile: Stockpile,
}

/// The goods waiting for a container, after the base: nothing at all when
/// there are none, so a fleet holding nothing aside writes what it always did.
pub open spec fn held_bytes(held: Seq<(Seq<char>, u64)>) -> Seq<u8> {
    if held.len() == 0 {
        Seq::empty()
    } else {
        pile_bytes(held)
    }
}

/// The whole of `pile.dat` for a base, or for no base, and for the goods
/// waiting for a container.
pub open spec fn pile_file_bytes(base: Option<(BlockPos, Seq<(Seq<char>, u64)>)>, held: Seq<(Seq<char>, u64)>) -> Seq<u8> {
    MAGIC@ + u32_bytes(VERSION) + match base {
        Some((at, rows)) => seq![1u8] + pos_bytes(at) + pile_bytes(rows),
        None => seq![0u8],
    } + held_bytes(held)
}

/// The goods waiting for a container that the file holds from `at`: none
/// when the file ends there, and otherwise the pile standing there.
pub open spec fn held_at(s: Seq<u8>, at: int) -> Option<Seq<(Seq<char>, u64)>> {
    if at >= s.len() {
        Some(Seq::empty())
    } else {
        match pile_at(s, at, u32::MAX, MAX_NAME) {
            Some((rows, _)) => Some(rows),
            None => None,
        }
    }
}

/// What `pile.dat` says: `None` for a file that is not one or stops early;
/// for one of another version, no base and nothing held; and otherwise the
/// base's position and its rows in file order, if it declares one, and the
/// goods waiting for a container.
pub open spec fn parse_pile_file(s: Seq<u8>) -> Option<
    (Option<(BlockPos, Seq<(Seq<char>, u64)>)>, Seq<(Seq<char>, u64)>),
> {
    if !stands_at(s, 0, MAGIC@) {
        None
    } else {
        match u32_at(s, 4) {
            None => None,
            Some((version, _)) => if version != VERSION {
                Some((None, Seq::empty()))
            } else {
                match u8_at(s, 8) {
                    None => None,
                    Some((present, _)) => if present == 0 {
                        match held_at(s, 9) {
                            Some(held) => Some((None, held)),
                            None => None,
                        }
                    } else {
                        match pos_at(s, 9) {
                            None => None,
                            Some((at, next)) => match pile_at(s, next, u32::MAX, MAX_NAME) {
                                None => None,
                                Some((rows, end)) => match held_at(s, end) {
                                    Some(held) => Some((Some((at, rows)), held)),
                                    None => None,
                                },
                            },
                        }
                    },
                }
            },
        }
    }
}

/// The base as `pile.dat` holds it.
pub open spec fn base_file(base: Option<Base>) -> Option<(BlockPos, Seq<(Seq<char>, u64)>)> {
    match base {
        Some(b) => Some((b.position, b.stockpile@)),
        None => None,
    }
}

/// Write the base, its pile, and the goods waiting for a container the way
/// `pile.dat` holds them.
pub fn save(fleet: &Fleet) -> (bytes: Vec<u8>)
    requires
        fleet.base_of() matches Some(b) ==> pile_writable(b.stockpile),
        pile_writable(fleet.held_back()),
    ensures
        bytes@ == pile_file_bytes(base_file(fleet.base_of()), fleet.held_back()@),
{
    let mut out: Vec<u8> = Vec::new();
    put_tag(&mut out, &MAGIC);
    put_u32(&mut out, VERSION);
    let ghost head = out@;
    match fleet.base() {
        Some(b) => {
            put_u8(&mut out, 1);
            put_pos(&mut out, b.position);
            put_pile(&mut out, &b.stockpile);
            assert(out@ =~= head + (seq![1u8] + pos_bytes(b.position) + pile_bytes(b.stockpile@)));
        },
        None => {
            put_u8(&mut out, 0);
        },
    }
    let ghost body = out@;
    let held = fleet.orphaned();
    if !held.is_empty() {
        put_pile(&mut out, held);
    }
    assert(out@ =~= body + held_bytes(held@));
    out
}

/// The goods waiting for a container from `at`.
fn read_held(s: &[u8], at: usize) -> (r: Option<Stockpile>)
    ensures
        r is None <==> held_at(s@, at as int) is None,
        r matches Some(held) ==> {
            let rows = held_at(s@, at as int).unwrap();
            &&& forall|k: Seq<char>| #![trigger held.count_of(k)] held.count_of(k) == capped(count_in(rows, k) as int)
            &&& wf_rows(rows) ==> held@ == rows
        },
{
    if at >= s.len() {
        let none = Stockpile::new();
        proof {
            assert forall|k: Seq<char>| #[trigger] none.count_of(k) == capped(
                count_in(Seq::<(Seq<char>, u64)>::empty(), k) as int,
            ) by {
                assert(none@ =~= Seq::<(Seq<char>, u64)>::empty());
            }
        }
        return Some(none);
    }
    match read_pile(s, at, u32::MAX, MAX_NAME) {
        Some((held, _)) => Some(held),
        None => None,
    }
}

/// Whether a pile read back is the one the file holds: every good counted
/// as the rows say of it, and exactly the rows when they were well kept.
pub open spec fn pile_read(pile: Stockpile, rows: Seq<(Seq<char>, u64)>) -> bool {
    &&& forall|k: Seq<char>| #![trigger pile.count_of(k)] pile.count_of(k) == capped(count_in(rows, k) as int)
    &&& wf_rows(rows) ==> pile@ == rows
}

/// Read `pile.dat`: `None` for damage, and otherwise the base, if the file
/// declares one, and the goods waiting for a container.
pub fn read(s: &[u8]) -> (r: Option<(Option<(BlockPos, Stockpile)>, Stockpile)>)
    ensures
        r is None <==> parse_pile_file(s@) is None,
        r matches Some((base, held)) ==> {
            &&& parse_pile_file(s@) matches Some((file_base, file_held))
            &&& pile_read(held, file_held)
            &&& match (base, file_base) {
                (None, None) => true,
                (Some((at, pile)), Some((p, rows))) => at == p && pile_read(pile, rows),
                _ => false,
            }
        },
{
    if !tag_at(s, 0, &MAGIC) {
        return None;
    }
    let version = match read_u32(s, 4) {
        Some((v, _)) => v,
        None => return None,
    };
    if version != VERSION {
        let none = Stockpile::new();
        proof {
            assert forall|k: Seq<char>| #[trigger] none.count_of(k) == capped(
                count_in(Seq::<(Seq<char>, u64)>::empty(), k) as int,
            ) by {
                assert(none@ =~= Seq::<(Seq<char>, u64)>::empty());
            }
        }
        return Some((None, none));
    }
    let present = match read_u8(s, 8) {
        Some((p, _)) => p,
        None => return None,
    };
    if present == 0 {
        return match read_held(s, 9) {
            Some(held) => Some((None, held)),
            None => None,
        };
    }
    let (at, next) = match read_pos(s, 9) {
        Some(v) => v,
        None => return None,
    };
    match read_pile(s, next, u32::MAX, MAX_NAME) {
        Some((pile, end)) => match read_held(s, end) {
            Some(held) => Some((Some((at, pile)), held)),
            None => None,
        },
        None => None,
    }
}

/// What loading `pile.dat` makes of a fleet's base and of the goods waiting
/// for a container. A base the file declares is declared again where it
/// stood, picking up what was held aside before, and the saved goods go
/// into it; the file's goods in holding go back into holding. No file, one
/// of another version, and a damaged one leave both as they were.
pub open spec fn pile_restored(before: Fleet, after: Fleet, file: Option<Seq<u8>>) -> bool {
    match file {
        Some(s) => match parse_pile_file(s) {
            Some((Some((at, rows)), held)) => {
                &&& after.base_of() matches Some(b) && b.position == at
                &&& forall|k: Seq<char>|
                    #![trigger base_count(after.base_of(), k)]
                    base_count(after.base_of(), k) == capped(
                        (capped((base_count(before.base_of(), k) + before.held_back().count_of(k)) as int)
                            + capped(count_in(rows, k) as int)) as int,
                    ) as nat
                &&& forall|k: Seq<char>|
                    #![trigger after.held_back().count_of(k)]
                    after.held_back().count_of(k) == capped(count_in(held, k) as int) as nat
            },
            Some((None, held)) => {
                &&& after.base_of() == before.base_of()
                &&& forall|k: Seq<char>|
                    #![trigger after.held_back().count_of(k)]
                    after.held_back().count_of(k) == capped(
                        (before.held_back().count_of(k) + capped(count_in(held, k) as int)) as int,
                    ) as nat
            },
            None => after.base_of() == before.base_of() && after.held_back() == before.held_back(),
        },
        None => after.base_of() == before.base_of() && after.held_back() == before.held_back(),
    }
}

/// Take what a saved `pile.dat` says, tolerating absence and damage; damage
/// is reported so the caller can say so.
pub fn load(fleet: &mut Fleet, file: Option<&[u8]>) -> (damaged: bool)
    ensures
        same_air(*final(fleet), *old(fleet)),
        damaged <==> (file matches Some(s) && parse_pile_file(s@) is None),
        pile_restored(*old(fleet), *final(fleet), file_view(file)),
{
    match file {
        None => false,
        Some(s) => match read(s) {
            None => true,
            Some((base, held)) => {
                match base {
                    Some((at, goods)) => {
                        fleet.set_base(at);
                        let mut goods = goods;
                        let ghost saved = goods;
                        let rows = goods.drain();
                        fleet.receive(&rows);
                        proof {
                            assert forall|k: Seq<char>| #[trigger] count_in(rows_view(rows@), k) == saved.count_of(k) by {}
                        }
                    },
                    None => {},
                }
                let ghost middle = *fleet;
                let mut held = held;
                let ghost kept = held;
                let rows = held.drain();
                fleet.orphan_goods(&rows);
                proof {
                    assert forall|k: Seq<char>| #[trigger] count_in(rows_view(rows@), k) == kept.count_of(k) by {}
                    if base is Some {
                        assert forall|k: Seq<char>| #[trigger] middle.held_back().count_of(k) == 0 by {
                            assert(middle.held_back()@ =~= Seq::<(Seq<char>, u64)>::empty());
                        }
                    }
                }
                false
            },
        },
    }
}

/// **The pile round-trips.** What `pile.dat` is written as reads back as the
/// same base, the same rows and the same goods waiting for a container.
pub proof fn lemma_pile_file_round_trip(base: Option<(BlockPos, Seq<(Seq<char>, u64)>)>, held: Seq<(Seq<char>, u64)>)
    requires
        base matches Some((_, rows)) ==> names_fit(rows, MAX_NAME) && rows.len() <= u32::MAX,
        names_fit(held, MAX_NAME),
        held.len() <= u32::MAX,
    ensures
        parse_pile_file(pile_file_bytes(base, held)) == Some((base, held)),
{
    let s = pile_file_bytes(base, held);
    lemma_u32_bytes_len(VERSION);
    let head = MAGIC@ + u32_bytes(VERSION);
    assert(s.subrange(0, 4) =~= MAGIC@);
    assert(s.subrange(4, 8) =~= u32_bytes(VERSION));
    lemma_u32_round_trip(s, 4, VERSION);
    let body = head + match base {
        Some((at, rows)) => seq![1u8] + pos_bytes(at) + pile_bytes(rows),
        None => seq![0u8],
    };
    assert(s =~= body + held_bytes(held));
    match base {
        Some((at, rows)) => {
            lemma_pos_bytes_len(at);
            assert(s[8] == 1u8);
            assert(s.subrange(9, 21) =~= pos_bytes(at));
            lemma_pos_round_trip(s, 9, at);
            let front = head + seq![1u8] + pos_bytes(at);
            assert(s =~= front + (pile_bytes(rows) + held_bytes(held)));
            lemma_stands_at_end(front, pile_bytes(rows) + held_bytes(held));
            assert(stands_at(s, 21, pile_bytes(rows))) by {
                assert(s.subrange(21, 21 + pile_bytes(rows).len() as int) =~= pile_bytes(rows));
            }
            lemma_pile_round_trip(s, 21, rows, u32::MAX, MAX_NAME);
            assert(body.len() == 21 + pile_bytes(rows).len());
        },
        None => {
            assert(s[8] == 0u8);
            assert(body.len() == 9);
        },
    }
    let end = body.len() as int;
    if held.len() == 0 {
        assert(s =~= body);
    } else {
        lemma_stands_at_end(body, pile_bytes(held));
        lemma_pile_round_trip(s, end, held, u32::MAX, MAX_NAME);
        lemma_u32_bytes_len(held.len() as u32);
    }
}

/// **Goods waiting for a container survive a save.** Loading the `pile.dat`
/// a fleet with no base wrote, into a fleet with no base and nothing held
/// aside, leaves it with no base, holding exactly what the saved fleet held.
pub proof fn lemma_goods_in_holding_survive_a_save(saved: Fleet, fresh: Fleet, after: Fleet)
    requires
        saved.base_of() is None,
        wf_rows(saved.held_back()@),
        names_fit(saved.held_back()@, MAX_NAME),
        saved.held_back()@.len() <= u32::MAX,
        fresh.base_of() is None,
        fresh.held_back()@.len() == 0,
        pile_restored(fresh, after, Some(pile_file_bytes(base_file(saved.base_of()), saved.held_back()@))),
    ensures
        after.base_of() is None,
        forall|k: Seq<char>|
            #![trigger after.held_back().count_of(k)]
            after.held_back().count_of(k) == saved.held_back().count_of(k),
{
    lemma_pile_file_round_trip(None, saved.held_back()@);
    assert forall|k: Seq<char>| #[trigger] after.held_back().count_of(k) == saved.held_back().count_of(k) by {
        crate::stockpile::lemma_count_bounded(saved.held_back()@, k);
        assert(fresh.held_back()@ =~= Seq::<(Seq<char>, u64)>::empty());
        assert(fresh.held_back().count_of(k) == 0);
    }
}

} // verus!
