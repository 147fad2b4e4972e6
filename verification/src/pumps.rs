//! Which pumps are running.
//!
//! A running pump is a standing decision, like which optic the dial was left
//! on, so the set of switched-on positions is written down. How far through
//! its stroke a pump is stays out. A position whose block is no longer a pump
//! is dropped on load rather than kept as a ghost that pumps nothing.
use vstd::prelude::*;

use crate::bytes::{
    lemma_stands_at_end, lemma_u32_bytes_len, lemma_u32_round_trip, put_tag, put_u32, read_u32,
    stands_at, tag_at, u32_at, u32_bytes,
};
use crate::dig::{lemma_positions_round_trip, positions_at, positions_bytes, put_positions, read_positions};
use crate::geometry::BlockPos;

verus! {

/// What `pumps.dat` starts with.
pub const MAGIC: [u8; 4] = [0x56, 0x58, 0x50, 0x55];

/// The layout `pumps.dat` is written in.
pub const VERSION: u32 = 1;

/// A count past this is a corrupt file rather than an ambitious waterworks.
pub const MAX_PUMPS: u32 = 100_000;

/// The whole of `pumps.dat`.
pub open spec fn pumps_bytes(running: Seq<BlockPos>) -> Seq<u8> {
    MAGIC@ + u32_bytes(VERSION) + u32_bytes(running.len() as u32) + positions_bytes(running)
}

/// What `pumps.dat` says: `None` for a damaged file, `Some(None)` for another
/// version, otherwise the positions that were running.
pub open spec fn parse_pumps(s: Seq<u8>) -> Option<Option<Seq<BlockPos>>> {
    if !stands_at(s, 0, MAGIC@) {
        None
    } else {
        match u32_at(s, 4) {
            None => None,
            Some((version, _)) => if version != VERSION {
                Some(None)
            } else {
                match u32_at(s, 8) {
                    Some((n, _)) => if n > MAX_PUMPS {
                        None
                    } else {
                        match positions_at(s, 12, n as nat) {
                            Some((ps, _)) => Some(Some(ps)),
                            None => None,
                        }
                    },
                    None => None,
                }
            },
        }
    }
}

/// Write down which pumps are switched on.
pub fn save(running: &Vec<BlockPos>) -> (bytes: Vec<u8>)
    ensures
        bytes@ == pumps_bytes(running@),
{
    let mut out: Vec<u8> = Vec::new();
    put_tag(&mut out, &MAGIC);
    put_u32(&mut out, VERSION);
    put_u32(&mut out, running.len() as u32);
    put_positions(&mut out, running, running.len());
    assert(running@.take(running@.len() as int) =~= running@);
    out
}

/// Read `pumps.dat`.
pub fn read(s: &[u8]) -> (r: Option<Option<Vec<BlockPos>>>)
    ensures
        r is None <==> parse_pumps(s@) is None,
        (r matches Some(None)) <==> (parse_pumps(s@) matches Some(None)),
        r matches Some(Some(v)) ==> parse_pumps(s@) == Some(Some(v@)),
{
    if !tag_at(s, 0, &MAGIC) {
        return None;
    }
    let version = match read_u32(s, 4) {
        Some((v, _)) => v,
        None => return None,
    };
    if version != VERSION {
        return Some(None);
    }
    let n = match read_u32(s, 8) {
        Some((n, _)) => n,
        None => return None,
    };
    if n > MAX_PUMPS {
        return None;
    }
    match read_positions(s, 12, n) {
        Some((ps, _)) => Some(Some(ps)),
        None => None,
    }
}

/// The positions, in order, whose block is still a pump: `still_pump[i]`
/// says whether the block at `stored[i]` is one now.
pub open spec fn kept_pumps(stored: Seq<BlockPos>, still_pump: Seq<bool>) -> Seq<BlockPos>
    decreases stored.len(),
{
    if stored.len() == 0 || still_pump.len() != stored.len() {
        Seq::empty()
    } else {
        let front = kept_pumps(stored.drop_last(), still_pump.drop_last());
        if still_pump.last() {
            front.push(stored.last())
        } else {
            front
        }
    }
}

/// Keep only the positions that are still pumps.
pub fn still_running(stored: &Vec<BlockPos>, still_pump: &[bool]) -> (running: Vec<BlockPos>)
    requires
        still_pump@.len() == stored@.len(),
    ensures
        running@ == kept_pumps(stored@, still_pump@),
{
    let mut out: Vec<BlockPos> = Vec::new();
    let mut i: usize = 0;
    while i < stored.len()
        invariant
            i <= stored@.len(),
            still_pump@.len() == stored@.len(),
            out@ == kept_pumps(stored@.take(i as int), still_pump@.take(i as int)),
        decreases stored@.len() - i,
    {
        proof {
            assert(stored@.take(i + 1).drop_last() =~= stored@.take(i as int));
            assert(still_pump@.take(i + 1).drop_last() =~= still_pump@.take(i as int));
        }
        if still_pump[i] {
            out.push(stored[i]);
        }
        i = i + 1;
    }
    proof {
        assert(stored@.take(i as int) =~= stored@);
        assert(still_pump@.take(i as int) =~= still_pump@);
    }
    out
}

/// **A running pump is still running after a reload**: `pumps.dat` as
/// written reads back as the same positions, in the same order, for any
/// waterworks no larger than the file allows.
pub proof fn lemma_pumps_round_trip(running: Seq<BlockPos>)
    requires
        running.len() <= MAX_PUMPS,
    ensures
        parse_pumps(pumps_bytes(running)) == Some(Some(running)),
{
    let s = pumps_bytes(running);
    lemma_u32_bytes_len(VERSION);
    lemma_u32_bytes_len(running.len() as u32);
    let head = MAGIC@ + u32_bytes(VERSION) + u32_bytes(running.len() as u32);
    assert(s == head + positions_bytes(running));
    assert(s.subrange(0, 4) =~= MAGIC@);
    assert(s.subrange(4, 8) =~= u32_bytes(VERSION));
    assert(s.subrange(8, 12) =~= u32_bytes(running.len() as u32));
    lemma_u32_round_trip(s, 4, VERSION);
    lemma_u32_round_trip(s, 8, running.len() as u32);
    lemma_stands_at_end(head, positions_bytes(running));
    lemma_positions_round_trip(s, 12, running);
}

} // verus!
