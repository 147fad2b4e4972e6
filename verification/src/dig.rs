//! The dispatch you left running, on disk.
//!
//! A crew is the one part of the game you are meant to walk away from, so the
//! work it was doing is written down: the area you marked, the job board with
//! its claims, every drone with its cargo, the mine-mouth pile, and the heap
//! the crew was stacking. A restored crew picks up where it stopped; it does
//! not run on for the time the game was shut.
//!
//! The file grew twice. Version 2 added the marked-but-undispatched area;
//! version 3 added the spoil heap. Both older versions still load: an absent
//! mark is no mark and an absent heap is no heap, which is exactly true of a
//! save written before either existed.
use vstd::prelude::*;

use crate::bytes::{
    i32_at, i32_bytes, lemma_i32_round_trip, lemma_stands_split, lemma_u32_bytes_len,
    lemma_u32_round_trip, lemma_u64_bytes_len, lemma_u64_round_trip, put_i32, put_tag, put_u32, put_u64, put_u8, read_i32, read_u32, read_u64,
    read_u8, stands_at, tag_at, u32_at, u32_bytes, u64_at, u64_bytes, u8_at,
};
use crate::cargo::{lemma_pile_round_trip, names_fit, pile_at, pile_bytes, put_pile, read_pile};
use crate::geometry::{put_pos, read_pos, VoxelAabb};
use crate::stockpile::key;
use crate::stockpile::{capped, count_in, wf_rows, Stockpile};
use crate::crew::{
    BoardSnapshot, DroneId, DroneSnapshot, DroneState, HeapOrder, Job, JobId, JobKind,
    OperationSnapshot,
};
use crate::geometry::{aabb_of, lemma_pos_bytes_len, lemma_pos_round_trip, pos_at, pos_bytes, BlockPos};
use crate::heap::{is_plan, plan, plan_exists, Ground, HeapPlan, HeapShape};

verus! {

/// What `dig.dat` starts with.
pub const MAGIC: [u8; 4] = [0x56, 0x58, 0x44, 0x47];

/// The layout `dig.dat` is written in: with the mark and the heap.
pub const VERSION: u32 = 3;

/// The first layout, before the marked area was kept.
pub const VERSION_WITHOUT_THE_MARK: u32 = 1;

/// The second layout, before the heap was kept.
pub const VERSION_WITHOUT_THE_HEAP: u32 = 2;

/// Caps, so a damaged file cannot ask for an enormous allocation or assert a
/// crew or a board the game could never have produced.
pub const MAX_DRONES: u32 = 4_096;
pub const MAX_JOBS: u32 = 1_000_000;
pub const MAX_NAME: u32 = 64;
pub const MAX_ROWS: u32 = 4_096;

/// No machine carries more than a few hundred blocks; a thousand times that
/// is past anything reachable and nowhere near a wrap.
pub const MAX_CAPACITY: u64 = 1_000_000;

/// What `dig.dat` holds: an area you marked, and a crew you sent, either of
/// which can be present without the other.
#[derive(Debug)]
pub struct StoredDig {
    pub corners: Vec<BlockPos>,
    pub chosen: usize,
    pub dig: Option<OperationSnapshot>,
}

/// A drone as the file carries it.
pub struct DroneFile {
    pub id: DroneId,
    pub position: BlockPos,
    pub previous_position: BlockPos,
    pub state: DroneState,
    pub cargo: Seq<(Seq<char>, u64)>,
    pub capacity: u64,
    pub grade: i32,
    pub job: Option<JobId>,
    pub denied: Seq<BlockPos>,
    pub denied_job: Option<JobId>,
}

/// A running dispatch as the file carries it.
pub struct OperationFile {
    pub home: BlockPos,
    pub fields_built: u64,
    pub controlled: Option<u32>,
    pub stockpile: Seq<(Seq<char>, u64)>,
    pub entries: Seq<(Job, Option<DroneId>)>,
    pub next_id: u64,
    pub drones: Seq<DroneFile>,
    pub heap: Option<HeapOrder>,
    pub stacked: u64,
}

/// The whole of `dig.dat` as values.
pub struct DigFile {
    pub corners: Seq<BlockPos>,
    pub chosen: u32,
    pub dig: Option<OperationFile>,
}

// ---- writing, as bytes ----

/// An optional `u32`: a present-flag, then the value when there is one.
pub open spec fn opt_u32_bytes(o: Option<u32>) -> Seq<u8> {
    match o {
        None => seq![0u8],
        Some(v) => seq![1u8] + u32_bytes(v),
    }
}

/// An optional `u64`: a present-flag, then the value when there is one.
pub open spec fn opt_u64_bytes(o: Option<u64>) -> Seq<u8> {
    match o {
        None => seq![0u8],
        Some(v) => seq![1u8] + u64_bytes(v),
    }
}

/// A job's number, if there is one.
pub open spec fn job_number(j: Option<JobId>) -> Option<u64> {
    match j {
        None => None,
        Some(id) => Some(id.0),
    }
}

/// A drone's number, if there is one.
pub open spec fn drone_number(d: Option<DroneId>) -> Option<u32> {
    match d {
        None => None,
        Some(id) => Some(id.0),
    }
}

/// A drone's state: a tag, then the job for the states that carry one.
pub open spec fn state_bytes(s: DroneState) -> Seq<u8> {
    match s {
        DroneState::Idle => seq![0u8],
        DroneState::Travelling(j) => seq![1u8] + u64_bytes(j.0),
        DroneState::Digging(j) => seq![2u8] + u64_bytes(j.0),
        DroneState::Hauling => seq![3u8],
        DroneState::Stuck => seq![4u8],
        DroneState::Manual => seq![5u8],
        DroneState::Stacking(j) => seq![6u8] + u64_bytes(j.0),
        DroneState::Lost => seq![7u8],
    }
}

/// A job's kind as its tag.
pub open spec fn kind_tag(k: JobKind) -> u8 {
    match k {
        JobKind::Access => 0,
        JobKind::Extract => 1,
        JobKind::Stack => 2,
    }
}

/// A heap's shape as its tag.
pub open spec fn shape_tag(shape: HeapShape) -> u8 {
    match shape {
        HeapShape::Pyramid => 0,
        HeapShape::Spiral => 1,
        HeapShape::Shaft => 2,
    }
}

/// One row of the board: the job, then who claimed it.
pub open spec fn job_row_bytes(e: (Job, Option<DroneId>)) -> Seq<u8> {
    u64_bytes(e.0.id.0) + seq![kind_tag(e.0.kind)] + pos_bytes(e.0.region.min) + pos_bytes(
        e.0.region.max,
    ) + i32_bytes(e.0.priority) + opt_u32_bytes(drone_number(e.1))
}

/// Board rows, one after another.
pub open spec fn job_rows_bytes(rows: Seq<(Job, Option<DroneId>)>) -> Seq<u8>
    decreases rows.len(),
{
    if rows.len() == 0 {
        Seq::empty()
    } else {
        job_rows_bytes(rows.drop_last()) + job_row_bytes(rows.last())
    }
}

/// Positions, one after another.
pub open spec fn positions_bytes(ps: Seq<BlockPos>) -> Seq<u8>
    decreases ps.len(),
{
    if ps.len() == 0 {
        Seq::empty()
    } else {
        positions_bytes(ps.drop_last()) + pos_bytes(ps.last())
    }
}

/// One drone.
pub open spec fn drone_bytes(d: DroneFile) -> Seq<u8> {
    u32_bytes(d.id.0) + pos_bytes(d.position) + pos_bytes(d.previous_position) + state_bytes(d.state)
        + pile_bytes(d.cargo) + u64_bytes(d.capacity) + i32_bytes(d.grade) + opt_u64_bytes(
        job_number(d.job),
    ) + u32_bytes(d.denied.len() as u32) + positions_bytes(d.denied) + opt_u64_bytes(
        job_number(d.denied_job),
    )
}

/// Drones, one after another.
pub open spec fn drones_bytes(ds: Seq<DroneFile>) -> Seq<u8>
    decreases ds.len(),
{
    if ds.len() == 0 {
        Seq::empty()
    } else {
        drones_bytes(ds.drop_last()) + drone_bytes(ds.last())
    }
}

/// The heap: a present-flag, then its shape, footprint and progress.
pub open spec fn heap_bytes(heap: Option<HeapOrder>, stacked: u64) -> Seq<u8> {
    match heap {
        None => seq![0u8],
        Some(h) => seq![1u8, shape_tag(h.shape)] + pos_bytes(h.footprint.min) + pos_bytes(
            h.footprint.max,
        ) + u64_bytes(stacked),
    }
}

/// A running dispatch, after its present-flag.
pub open spec fn operation_bytes(o: OperationFile) -> Seq<u8> {
    pos_bytes(o.home) + u64_bytes(o.fields_built) + opt_u32_bytes(o.controlled) + pile_bytes(
        o.stockpile,
    ) + u32_bytes(o.entries.len() as u32) + u64_bytes(o.next_id) + job_rows_bytes(o.entries)
        + u32_bytes(o.drones.len() as u32) + drones_bytes(o.drones) + heap_bytes(o.heap, o.stacked)
}

/// The marked area: how many corners, the corners, the method chosen.
pub open spec fn mark_bytes(corners: Seq<BlockPos>, chosen: u32) -> Seq<u8> {
    seq![corners.len() as u8] + positions_bytes(corners) + u32_bytes(chosen)
}

/// The whole of `dig.dat`.
pub open spec fn dig_bytes(f: DigFile) -> Seq<u8> {
    MAGIC@ + u32_bytes(VERSION) + mark_bytes(f.corners, f.chosen) + match f.dig {
        None => seq![0u8],
        Some(o) => seq![1u8] + operation_bytes(o),
    }
}

// ---- reading, as values ----

/// An optional `u32` at `at`: nothing when the flag is neither 0 nor 1.
pub open spec fn opt_u32_at(s: Seq<u8>, at: int) -> Option<(Option<u32>, int)> {
    match u8_at(s, at) {
        Some((0, _)) => Some((None, at + 1)),
        Some((1, _)) => match u32_at(s, at + 1) {
            Some((v, next)) => Some((Some(v), next)),
            None => None,
        },
        _ => None,
    }
}

/// An optional `u64` at `at`: nothing when the flag is neither 0 nor 1.
pub open spec fn opt_u64_at(s: Seq<u8>, at: int) -> Option<(Option<u64>, int)> {
    match u8_at(s, at) {
        Some((0, _)) => Some((None, at + 1)),
        Some((1, _)) => match u64_at(s, at + 1) {
            Some((v, next)) => Some((Some(v), next)),
            None => None,
        },
        _ => None,
    }
}

/// The job number an optional `u64` names.
pub open spec fn job_of(o: Option<u64>) -> Option<JobId> {
    match o {
        None => None,
        Some(v) => Some(JobId(v)),
    }
}

/// The drone number an optional `u32` names.
pub open spec fn drone_of(o: Option<u32>) -> Option<DroneId> {
    match o {
        None => None,
        Some(v) => Some(DroneId(v)),
    }
}

/// A drone's state at `at`: nothing for an unknown tag.
pub open spec fn state_at(s: Seq<u8>, at: int) -> Option<(DroneState, int)> {
    match u8_at(s, at) {
        Some((tag, _)) => if tag == 0 {
            Some((DroneState::Idle, at + 1))
        } else if tag == 3 {
            Some((DroneState::Hauling, at + 1))
        } else if tag == 4 {
            Some((DroneState::Stuck, at + 1))
        } else if tag == 5 {
            Some((DroneState::Manual, at + 1))
        } else if tag == 7 {
            Some((DroneState::Lost, at + 1))
        } else if tag == 1 || tag == 2 || tag == 6 {
            match u64_at(s, at + 1) {
                Some((j, next)) => Some(
                    (
                        if tag == 1 {
                            DroneState::Travelling(JobId(j))
                        } else if tag == 2 {
                            DroneState::Digging(JobId(j))
                        } else {
                            DroneState::Stacking(JobId(j))
                        },
                        next,
                    ),
                ),
                None => None,
            }
        } else {
            None
        },
        None => None,
    }
}

/// The kind a tag names.
pub open spec fn kind_of(tag: u8) -> Option<JobKind> {
    if tag == 0 {
        Some(JobKind::Access)
    } else if tag == 1 {
        Some(JobKind::Extract)
    } else if tag == 2 {
        Some(JobKind::Stack)
    } else {
        None
    }
}

/// The shape a tag names.
pub open spec fn shape_of(tag: u8) -> Option<HeapShape> {
    if tag == 0 {
        Some(HeapShape::Pyramid)
    } else if tag == 1 {
        Some(HeapShape::Spiral)
    } else if tag == 2 {
        Some(HeapShape::Shaft)
    } else {
        None
    }
}

/// The board row at `at`; its region is the box its two corners make.
pub open spec fn job_row_at(s: Seq<u8>, at: int) -> Option<((Job, Option<DroneId>), int)> {
    match (u64_at(s, at), u8_at(s, at + 8), pos_at(s, at + 9), pos_at(s, at + 21), i32_at(s, at + 33)) {
        (Some((id, _)), Some((tag, _)), Some((a, _)), Some((b, _)), Some((priority, _))) => match kind_of(tag) {
            Some(kind) => match opt_u32_at(s, at + 37) {
                Some((claim, next)) => Some(
                    ((Job { id: JobId(id), kind, region: aabb_of(a, b), priority }, drone_of(claim)), next),
                ),
                None => None,
            },
            None => None,
        },
        _ => None,
    }
}

/// The `n` board rows from `at`.
pub open spec fn job_rows_at(s: Seq<u8>, at: int, n: nat) -> Option<(Seq<(Job, Option<DroneId>)>, int)>
    decreases n,
{
    if n == 0 {
        Some((Seq::empty(), at))
    } else {
        match job_rows_at(s, at, (n - 1) as nat) {
            Some((rows, next)) => match job_row_at(s, next) {
                Some((row, after)) => Some((rows.push(row), after)),
                None => None,
            },
            None => None,
        }
    }
}

/// The `n` positions from `at`.
pub open spec fn positions_at(s: Seq<u8>, at: int, n: nat) -> Option<(Seq<BlockPos>, int)>
    decreases n,
{
    if n == 0 {
        Some((Seq::empty(), at))
    } else {
        match positions_at(s, at, (n - 1) as nat) {
            Some((ps, next)) => match pos_at(s, next) {
                Some((p, after)) => Some((ps.push(p), after)),
                None => None,
            },
            None => None,
        }
    }
}

/// The drone at `at`: nothing for one that stops early, carries an unknown
/// state, claims a capacity past any machine's, or a refusal list past any
/// board's.
pub open spec fn drone_at(s: Seq<u8>, at: int) -> Option<(DroneFile, int)> {
    match (u32_at(s, at), pos_at(s, at + 4), pos_at(s, at + 16), state_at(s, at + 28)) {
        (Some((id, _)), Some((position, _)), Some((previous_position, _)), Some((state, a1))) => match pile_at(
            s,
            a1,
            MAX_ROWS,
            MAX_NAME,
        ) {
            Some((cargo, a2)) => match (u64_at(s, a2), i32_at(s, a2 + 8), opt_u64_at(s, a2 + 12)) {
                (Some((capacity, _)), Some((grade, _)), Some((job, a3))) => if capacity > MAX_CAPACITY {
                    None
                } else {
                    match u32_at(s, a3) {
                        Some((n, a4)) => if n > MAX_JOBS {
                            None
                        } else {
                            match positions_at(s, a4, n as nat) {
                                Some((denied, a5)) => match opt_u64_at(s, a5) {
                                    Some((denied_job, a6)) => Some(
                                        (
                                            DroneFile {
                                                id: DroneId(id),
                                                position,
                                                previous_position,
                                                state,
                                                cargo,
                                                capacity,
                                                grade,
                                                job: job_of(job),
                                                denied,
                                                denied_job: job_of(denied_job),
                                            },
                                            a6,
                                        ),
                                    ),
                                    None => None,
                                },
                                None => None,
                            }
                        },
                        None => None,
                    }
                },
                _ => None,
            },
            None => None,
        },
        _ => None,
    }
}

/// The `n` drones from `at`.
pub open spec fn drones_at(s: Seq<u8>, at: int, n: nat) -> Option<(Seq<DroneFile>, int)>
    decreases n,
{
    if n == 0 {
        Some((Seq::empty(), at))
    } else {
        match drones_at(s, at, (n - 1) as nat) {
            Some((ds, next)) => match drone_at(s, next) {
                Some((d, after)) => Some((ds.push(d), after)),
                None => None,
            },
            None => None,
        }
    }
}

/// The heap at `at`, and how far up it had got: a file that stops before the
/// heap's flag has no heap, since a dispatch read in full is still worth
/// keeping; one that stops inside the heap, or names an unknown shape, is
/// damaged.
pub open spec fn heap_at(s: Seq<u8>, at: int) -> Option<(Option<HeapOrder>, u64)> {
    match u8_at(s, at) {
        None => Some((None, 0)),
        Some((0, _)) => Some((None, 0)),
        Some(_) => match u8_at(s, at + 1) {
            Some((tag, _)) => match shape_of(tag) {
                Some(shape) => match (pos_at(s, at + 2), pos_at(s, at + 14), u64_at(s, at + 26)) {
                    (Some((a, _)), Some((b, _)), Some((stacked, _))) => Some(
                        (Some(HeapOrder { shape, footprint: aabb_of(a, b) }), stacked),
                    ),
                    _ => None,
                },
                None => None,
            },
            None => None,
        },
    }
}

/// A running dispatch at `at`, written in `version`: nothing for one that is
/// damaged, has more jobs or drones than could be, or hands the wheel to a
/// drone that is not there.
pub open spec fn operation_at(s: Seq<u8>, at: int, version: u32) -> Option<OperationFile> {
    match (pos_at(s, at), u64_at(s, at + 12), opt_u32_at(s, at + 20)) {
        (Some((home, _)), Some((fields_built, _)), Some((controlled, a1))) => match pile_at(
            s,
            a1,
            MAX_ROWS,
            MAX_NAME,
        ) {
            Some((stockpile, a2)) => match (u32_at(s, a2), u64_at(s, a2 + 4)) {
                (Some((jobs, _)), Some((next_id, _))) => if jobs > MAX_JOBS {
                    None
                } else {
                    match job_rows_at(s, a2 + 12, jobs as nat) {
                        Some((entries, a3)) => match u32_at(s, a3) {
                            Some((crew, a4)) => if crew > MAX_DRONES {
                                None
                            } else {
                                match drones_at(s, a4, crew as nat) {
                                    Some((drones, a5)) => {
                                        let heap = if version >= VERSION {
                                            heap_at(s, a5)
                                        } else {
                                            Some((None, 0u64))
                                        };
                                        match heap {
                                            Some((heap, stacked)) => if controlled matches Some(c)
                                                && c >= drones.len() {
                                                None
                                            } else {
                                                Some(
                                                    OperationFile {
                                                        home,
                                                        fields_built,
                                                        controlled,
                                                        stockpile,
                                                        entries,
                                                        next_id,
                                                        drones,
                                                        heap,
                                                        stacked,
                                                    },
                                                )
                                            },
                                            None => None,
                                        }
                                    },
                                    None => None,
                                }
                            },
                            None => None,
                        },
                        None => None,
                    }
                },
                _ => None,
            },
            None => None,
        },
        _ => None,
    }
}

/// The marked area at `at`, and the position after it: nothing for more than
/// two corners, since two corners is what an area is.
pub open spec fn mark_at(s: Seq<u8>, at: int) -> Option<(Seq<BlockPos>, u32, int)> {
    match u8_at(s, at) {
        Some((n, _)) => if n > 2 {
            None
        } else {
            match positions_at(s, at + 1, n as nat) {
                Some((corners, a1)) => match u32_at(s, a1) {
                    Some((chosen, a2)) => Some((corners, chosen, a2)),
                    None => None,
                },
                None => None,
            }
        },
        None => None,
    }
}

/// What `dig.dat` says: `None` for a damaged file, `Some(None)` for a version
/// this build does not know, otherwise the mark and the dispatch.
pub open spec fn dig_at(s: Seq<u8>) -> Option<Option<DigFile>> {
    if !stands_at(s, 0, MAGIC@) {
        None
    } else {
        match u32_at(s, 4) {
            None => None,
            Some((version, _)) => if version != VERSION && version != VERSION_WITHOUT_THE_HEAP
                && version != VERSION_WITHOUT_THE_MARK {
                Some(None)
            } else {
                let mark = if version == VERSION_WITHOUT_THE_MARK {
                    Some((Seq::<BlockPos>::empty(), 0u32, 8int))
                } else {
                    mark_at(s, 8)
                };
                match mark {
                    Some((corners, chosen, a1)) => match u8_at(s, a1) {
                        Some((present, _)) => if present == 0 {
                            Some(Some(DigFile { corners, chosen, dig: None }))
                        } else {
                            match operation_at(s, a1 + 1, version) {
                                Some(o) => Some(Some(DigFile { corners, chosen, dig: Some(o) })),
                                None => None,
                            }
                        },
                        None => None,
                    },
                    None => None,
                }
            },
        }
    }
}

// ---- reading, in code ----

/// Read an optional `u32`.
pub(crate) fn read_opt_u32(s: &[u8], at: usize) -> (r: Option<(Option<u32>, usize)>)
    ensures
        r matches Some((v, next)) ==> opt_u32_at(s@, at as int) == Some((v, next as int)),
        r is None <==> opt_u32_at(s@, at as int) is None,
{
    match read_u8(s, at) {
        Some((0, next)) => Some((None, next)),
        Some((1, next)) => match read_u32(s, next) {
            Some((v, after)) => Some((Some(v), after)),
            None => None,
        },
        _ => None,
    }
}

/// Read an optional `u64`.
fn read_opt_u64(s: &[u8], at: usize) -> (r: Option<(Option<u64>, usize)>)
    ensures
        r matches Some((v, next)) ==> opt_u64_at(s@, at as int) == Some((v, next as int)),
        r is None <==> opt_u64_at(s@, at as int) is None,
{
    match read_u8(s, at) {
        Some((0, next)) => Some((None, next)),
        Some((1, next)) => match read_u64(s, next) {
            Some((v, after)) => Some((Some(v), after)),
            None => None,
        },
        _ => None,
    }
}

/// Read a drone's state.
fn read_state(s: &[u8], at: usize) -> (r: Option<(DroneState, usize)>)
    ensures
        r matches Some((v, next)) ==> state_at(s@, at as int) == Some((v, next as int)),
        r is None <==> state_at(s@, at as int) is None,
{
    let (tag, next) = match read_u8(s, at) {
        Some(x) => x,
        None => return None,
    };
    if tag == 0 {
        Some((DroneState::Idle, next))
    } else if tag == 3 {
        Some((DroneState::Hauling, next))
    } else if tag == 4 {
        Some((DroneState::Stuck, next))
    } else if tag == 5 {
        Some((DroneState::Manual, next))
    } else if tag == 7 {
        Some((DroneState::Lost, next))
    } else if tag == 1 || tag == 2 || tag == 6 {
        match read_u64(s, next) {
            Some((j, after)) => {
                let state = if tag == 1 {
                    DroneState::Travelling(JobId(j))
                } else if tag == 2 {
                    DroneState::Digging(JobId(j))
                } else {
                    DroneState::Stacking(JobId(j))
                };
                Some((state, after))
            },
            None => None,
        }
    } else {
        None
    }
}

/// Read one board row.
fn read_job_row(s: &[u8], at: usize) -> (r: Option<((Job, Option<DroneId>), usize)>)
    ensures
        r matches Some((v, next)) ==> job_row_at(s@, at as int) == Some((v, next as int)),
        r is None <==> job_row_at(s@, at as int) is None,
{
    let (id, a1) = match read_u64(s, at) {
        Some(x) => x,
        None => return None,
    };
    let (tag, a2) = match read_u8(s, a1) {
        Some(x) => x,
        None => return None,
    };
    let (a, a3) = match read_pos(s, a2) {
        Some(x) => x,
        None => return None,
    };
    let (b, a4) = match read_pos(s, a3) {
        Some(x) => x,
        None => return None,
    };
    let (priority, a5) = match read_i32(s, a4) {
        Some(x) => x,
        None => return None,
    };
    let kind = if tag == 0 {
        JobKind::Access
    } else if tag == 1 {
        JobKind::Extract
    } else if tag == 2 {
        JobKind::Stack
    } else {
        return None;
    };
    let (claim, next) = match read_opt_u32(s, a5) {
        Some(x) => x,
        None => return None,
    };
    let claimed_by = match claim {
        Some(d) => Some(DroneId(d)),
        None => None,
    };
    let job = Job { id: JobId(id), kind, region: VoxelAabb::new(a, b), priority };
    Some(((job, claimed_by), next))
}

/// Read `n` positions.
pub(crate) fn read_positions(s: &[u8], at: usize, n: u32) -> (r: Option<(Vec<BlockPos>, usize)>)
    ensures
        r matches Some((v, next)) ==> positions_at(s@, at as int, n as nat) == Some((v@, next as int)),
        r is None <==> positions_at(s@, at as int, n as nat) is None,
{
    let mut out: Vec<BlockPos> = Vec::new();
    let mut pos = at;
    let mut i: u32 = 0;
    while i < n
        invariant
            i <= n,
            positions_at(s@, at as int, i as nat) == Some((out@, pos as int)),
        decreases n - i,
    {
        match read_pos(s, pos) {
            Some((p, next)) => {
                out.push(p);
                pos = next;
            },
            None => {
                proof {
                    lemma_positions_stop(s@, at as int, i as nat, n as nat);
                }
                return None;
            },
        }
        i = i + 1;
    }
    Some((out, pos))
}

proof fn lemma_positions_stop(s: Seq<u8>, at: int, i: nat, n: nat)
    requires
        i < n,
        positions_at(s, at, (i + 1) as nat) is None,
    ensures
        positions_at(s, at, n) is None,
    decreases n - i,
{
    if n > i + 1 {
        lemma_positions_stop(s, at, i, (n - 1) as nat);
    }
}

proof fn lemma_job_rows_stop(s: Seq<u8>, at: int, i: nat, n: nat)
    requires
        i < n,
        job_rows_at(s, at, (i + 1) as nat) is None,
    ensures
        job_rows_at(s, at, n) is None,
    decreases n - i,
{
    if n > i + 1 {
        lemma_job_rows_stop(s, at, i, (n - 1) as nat);
    }
}

proof fn lemma_drones_stop(s: Seq<u8>, at: int, i: nat, n: nat)
    requires
        i < n,
        drones_at(s, at, (i + 1) as nat) is None,
    ensures
        drones_at(s, at, n) is None,
    decreases n - i,
{
    if n > i + 1 {
        lemma_drones_stop(s, at, i, (n - 1) as nat);
    }
}

/// Read `n` board rows.
fn read_job_rows(s: &[u8], at: usize, n: u32) -> (r: Option<(Vec<(Job, Option<DroneId>)>, usize)>)
    ensures
        r matches Some((v, next)) ==> job_rows_at(s@, at as int, n as nat) == Some((v@, next as int)),
        r is None <==> job_rows_at(s@, at as int, n as nat) is None,
{
    let mut out: Vec<(Job, Option<DroneId>)> = Vec::new();
    let mut pos = at;
    let mut i: u32 = 0;
    while i < n
        invariant
            i <= n,
            job_rows_at(s@, at as int, i as nat) == Some((out@, pos as int)),
        decreases n - i,
    {
        match read_job_row(s, pos) {
            Some((row, next)) => {
                out.push(row);
                pos = next;
            },
            None => {
                proof {
                    lemma_job_rows_stop(s@, at as int, i as nat, n as nat);
                }
                return None;
            },
        }
        i = i + 1;
    }
    Some((out, pos))
}

/// Whether a pile holds what a run of rows says: of every good, the rows'
/// counts summed, and exactly the rows when they were a well-kept pile's.
pub open spec fn pile_matches(pile: Stockpile, rows: Seq<(Seq<char>, u64)>) -> bool {
    &&& forall|k: Seq<char>| #![trigger pile.count_of(k)] pile.count_of(k) == capped(count_in(rows, k) as int)
    &&& wf_rows(rows) ==> pile@ == rows
}

/// Whether a drone is the one the file describes.
pub open spec fn drone_matches(d: DroneSnapshot, f: DroneFile) -> bool {
    &&& d.id == f.id
    &&& d.position == f.position
    &&& d.previous_position == f.previous_position
    &&& d.state == f.state
    &&& pile_matches(d.cargo, f.cargo)
    &&& d.capacity == f.capacity
    &&& d.grade == f.grade
    &&& d.job == f.job
    &&& d.denied@ == f.denied
    &&& d.denied_job == f.denied_job
}

/// Read one drone.
fn read_drone(s: &[u8], at: usize) -> (r: Option<(DroneSnapshot, usize)>)
    ensures
        r matches Some((d, next)) ==> (drone_at(s@, at as int) matches Some((f, end)) && end == next
            && drone_matches(d, f)),
        r is None <==> drone_at(s@, at as int) is None,
{
    let (id, a0) = match read_u32(s, at) {
        Some(x) => x,
        None => return None,
    };
    let (position, b0) = match read_pos(s, a0) {
        Some(x) => x,
        None => return None,
    };
    let (previous_position, c0) = match read_pos(s, b0) {
        Some(x) => x,
        None => return None,
    };
    let (state, a1) = match read_state(s, c0) {
        Some(x) => x,
        None => return None,
    };
    let (cargo, a2) = match read_pile(s, a1, MAX_ROWS, MAX_NAME) {
        Some(x) => x,
        None => return None,
    };
    let (capacity, b2) = match read_u64(s, a2) {
        Some(x) => x,
        None => return None,
    };
    let (grade, c2) = match read_i32(s, b2) {
        Some(x) => x,
        None => return None,
    };
    let (job, a3) = match read_opt_u64(s, c2) {
        Some(x) => x,
        None => return None,
    };
    if capacity > MAX_CAPACITY {
        return None;
    }
    let (n, a4) = match read_u32(s, a3) {
        Some(x) => x,
        None => return None,
    };
    if n > MAX_JOBS {
        return None;
    }
    let (denied, a5) = match read_positions(s, a4, n) {
        Some(x) => x,
        None => return None,
    };
    let (denied_job, a6) = match read_opt_u64(s, a5) {
        Some(x) => x,
        None => return None,
    };
    let d = DroneSnapshot {
        id: DroneId(id),
        position,
        previous_position,
        state,
        cargo,
        capacity,
        grade,
        job: match job {
            Some(j) => Some(JobId(j)),
            None => None,
        },
        denied,
        denied_job: match denied_job {
            Some(j) => Some(JobId(j)),
            None => None,
        },
    };
    Some((d, a6))
}

/// Read `n` drones.
fn read_drones(s: &[u8], at: usize, n: u32) -> (r: Option<(Vec<DroneSnapshot>, usize)>)
    ensures
        r matches Some((v, next)) ==> (drones_at(s@, at as int, n as nat) matches Some((fs, end))
            && end == next && v@.len() == fs.len() && forall|i: int|
            0 <= i < fs.len() ==> drone_matches(#[trigger] v@[i], fs[i])),
        r is None <==> drones_at(s@, at as int, n as nat) is None,
{
    let mut out: Vec<DroneSnapshot> = Vec::new();
    let mut pos = at;
    let mut i: u32 = 0;
    while i < n
        invariant
            i <= n,
            drones_at(s@, at as int, i as nat) matches Some((fs, end)) && end == pos && out@.len()
                == fs.len() && forall|k: int| 0 <= k < fs.len() ==> drone_matches(#[trigger] out@[k], fs[k]),
        decreases n - i,
    {
        let ghost fs = drones_at(s@, at as int, i as nat).unwrap().0;
        match read_drone(s, pos) {
            Some((d, next)) => {
                let ghost f = drone_at(s@, pos as int).unwrap().0;
                out.push(d);
                proof {
                    let grown = fs.push(f);
                    assert(drones_at(s@, at as int, (i + 1) as nat) == Some((grown, next as int)));
                    assert forall|k: int| 0 <= k < grown.len() implies drone_matches(#[trigger] out@[k], grown[k]) by {
                        if k < fs.len() {
                            assert(grown[k] == fs[k]);
                        }
                    }
                }
                pos = next;
            },
            None => {
                proof {
                    lemma_drones_stop(s@, at as int, i as nat, n as nat);
                }
                return None;
            },
        }
        i = i + 1;
    }
    Some((out, pos))
}

/// Read the heap and how far up it had got.
fn read_heap(s: &[u8], at: usize) -> (r: Option<(Option<HeapOrder>, u64)>)
    ensures
        r == heap_at(s@, at as int),
{
    let (present, a1) = match read_u8(s, at) {
        Some(x) => x,
        None => return Some((None, 0)),
    };
    if present == 0 {
        return Some((None, 0));
    }
    let (tag, a2) = match read_u8(s, a1) {
        Some(x) => x,
        None => return None,
    };
    let shape = if tag == 0 {
        HeapShape::Pyramid
    } else if tag == 1 {
        HeapShape::Spiral
    } else if tag == 2 {
        HeapShape::Shaft
    } else {
        return None;
    };
    let (a, a3) = match read_pos(s, a2) {
        Some(x) => x,
        None => return None,
    };
    let (b, a4) = match read_pos(s, a3) {
        Some(x) => x,
        None => return None,
    };
    let (stacked, _) = match read_u64(s, a4) {
        Some(x) => x,
        None => return None,
    };
    Some((Some(HeapOrder { shape, footprint: VoxelAabb::new(a, b) }), stacked))
}

/// A position in a crew, widened back from the file.
pub open spec fn widened(o: Option<u32>) -> Option<usize> {
    match o {
        None => None,
        Some(c) => Some(c as usize),
    }
}

/// Whether a dispatch is the one the file describes.
pub open spec fn operation_matches(o: OperationSnapshot, f: OperationFile) -> bool {
    &&& o.home == f.home
    &&& o.fields_built == f.fields_built
    &&& o.controlled == widened(f.controlled)
    &&& pile_matches(o.stockpile, f.stockpile)
    &&& o.board.entries@ == f.entries
    &&& o.board.next_id == f.next_id
    &&& o.drones@.len() == f.drones.len()
    &&& forall|i: int| 0 <= i < f.drones.len() ==> drone_matches(#[trigger] o.drones@[i], f.drones[i])
    &&& o.heap == f.heap
    &&& o.stacked == f.stacked
}

/// Read a running dispatch written in `version`.
fn read_operation(s: &[u8], at: usize, version: u32) -> (r: Option<OperationSnapshot>)
    ensures
        r matches Some(o) ==> (operation_at(s@, at as int, version) matches Some(f) && operation_matches(o, f)),
        r is None <==> operation_at(s@, at as int, version) is None,
{
    let (home, b0) = match read_pos(s, at) {
        Some(x) => x,
        None => return None,
    };
    let (fields_built, c0) = match read_u64(s, b0) {
        Some(x) => x,
        None => return None,
    };
    let (controlled, a1) = match read_opt_u32(s, c0) {
        Some(x) => x,
        None => return None,
    };
    let (stockpile, a2) = match read_pile(s, a1, MAX_ROWS, MAX_NAME) {
        Some(x) => x,
        None => return None,
    };
    let (jobs, b2) = match read_u32(s, a2) {
        Some(x) => x,
        None => return None,
    };
    let (next_id, c2) = match read_u64(s, b2) {
        Some(x) => x,
        None => return None,
    };
    if jobs > MAX_JOBS {
        return None;
    }
    let (entries, a3) = match read_job_rows(s, c2, jobs) {
        Some(x) => x,
        None => return None,
    };
    let (crew, a4) = match read_u32(s, a3) {
        Some(x) => x,
        None => return None,
    };
    if crew > MAX_DRONES {
        return None;
    }
    let (drones, a5) = match read_drones(s, a4, crew) {
        Some(x) => x,
        None => return None,
    };
    let (heap, stacked) = if version >= VERSION {
        match read_heap(s, a5) {
            Some(x) => x,
            None => return None,
        }
    } else {
        (None, 0)
    };
    let wheel = match controlled {
        Some(c) => {
            if c as usize >= drones.len() {
                return None;
            }
            Some(c as usize)
        },
        None => None,
    };
    Some(
        OperationSnapshot {
            board: BoardSnapshot { entries, next_id },
            stockpile,
            home,
            drones,
            fields_built,
            heap,
            stacked,
            controlled: wheel,
        },
    )
}

/// Read the marked area.
fn read_mark(s: &[u8], at: usize) -> (r: Option<(Vec<BlockPos>, u32, usize)>)
    ensures
        r matches Some((corners, chosen, next)) ==> mark_at(s@, at as int) == Some((corners@, chosen, next as int)),
        r is None <==> mark_at(s@, at as int) is None,
{
    let (n, a0) = match read_u8(s, at) {
        Some(x) => x,
        None => return None,
    };
    if n > 2 {
        return None;
    }
    let (corners, a1) = match read_positions(s, a0, n as u32) {
        Some(x) => x,
        None => return None,
    };
    let (chosen, a2) = match read_u32(s, a1) {
        Some(x) => x,
        None => return None,
    };
    Some((corners, chosen, a2))
}

/// Whether a stored dig is the one the file describes.
pub open spec fn stored_matches(d: StoredDig, f: DigFile) -> bool {
    &&& d.corners@ == f.corners
    &&& d.chosen == f.chosen as usize
    &&& match (d.dig, f.dig) {
        (None, None) => true,
        (Some(o), Some(of)) => operation_matches(o, of),
        _ => false,
    }
}

/// Read `dig.dat`: `None` for a damaged file, `Some(None)` for a version this
/// build does not know, otherwise the area marked and the crew sent.
pub fn read(s: &[u8]) -> (r: Option<Option<StoredDig>>)
    ensures
        r is None <==> dig_at(s@) is None,
        (r matches Some(None)) <==> (dig_at(s@) matches Some(None)),
        r matches Some(Some(d)) ==> (dig_at(s@) matches Some(Some(f)) && stored_matches(d, f)),
{
    if !tag_at(s, 0, &MAGIC) {
        return None;
    }
    let (version, a0) = match read_u32(s, 4) {
        Some(x) => x,
        None => return None,
    };
    if version != VERSION && version != VERSION_WITHOUT_THE_HEAP && version
        != VERSION_WITHOUT_THE_MARK {
        return Some(None);
    }
    let (corners, chosen, a1) = if version == VERSION_WITHOUT_THE_MARK {
        (Vec::new(), 0u32, a0)
    } else {
        match read_mark(s, a0) {
            Some(x) => x,
            None => return None,
        }
    };
    proof {
        if version == VERSION_WITHOUT_THE_MARK {
            assert(corners@ =~= Seq::<BlockPos>::empty());
        }
    }
    let (present, a2) = match read_u8(s, a1) {
        Some(x) => x,
        None => return None,
    };
    if present == 0 {
        return Some(Some(StoredDig { corners, chosen: chosen as usize, dig: None }));
    }
    match read_operation(s, a2, version) {
        Some(o) => Some(Some(StoredDig { corners, chosen: chosen as usize, dig: Some(o) })),
        None => None,
    }
}

// ---- writing, in code ----

/// A drone as the file carries it.
pub open spec fn drone_file(d: DroneSnapshot) -> DroneFile {
    DroneFile {
        id: d.id,
        position: d.position,
        previous_position: d.previous_position,
        state: d.state,
        cargo: d.cargo@,
        capacity: d.capacity,
        grade: d.grade,
        job: d.job,
        denied: d.denied@,
        denied_job: d.denied_job,
    }
}

/// A position in a crew, as the file carries it.
pub open spec fn narrowed(o: Option<usize>) -> Option<u32> {
    match o {
        None => None,
        Some(c) => Some(c as u32),
    }
}

/// A running dispatch as the file carries it.
pub open spec fn operation_file(o: OperationSnapshot) -> OperationFile {
    OperationFile {
        home: o.home,
        fields_built: o.fields_built,
        controlled: narrowed(o.controlled),
        stockpile: o.stockpile@,
        entries: o.board.entries@,
        next_id: o.board.next_id,
        drones: o.drones@.map_values(|d: DroneSnapshot| drone_file(d)),
        heap: o.heap,
        stacked: o.stacked,
    }
}

/// What `dig.dat` carries of a stored dig: at most the first two corners.
pub open spec fn dig_file(d: StoredDig) -> DigFile {
    DigFile {
        corners: if d.corners@.len() <= 2 {
            d.corners@
        } else {
            d.corners@.take(2)
        },
        chosen: d.chosen as u32,
        dig: match d.dig {
            None => None,
            Some(o) => Some(operation_file(o)),
        },
    }
}

/// Whether a pile's rows can be counted in the file's words.
pub open spec fn pile_writable(p: Stockpile) -> bool {
    &&& p@.len() <= u32::MAX
    &&& forall|i: int| 0 <= i < p@.len() ==> #[trigger] key(p@[i].0).len() <= u32::MAX
}

/// Whether every pile in a stored dig can be written.
pub open spec fn writable(d: StoredDig) -> bool {
    d.dig matches Some(o) ==> {
        &&& pile_writable(o.stockpile)
        &&& forall|i: int| 0 <= i < o.drones@.len() ==> pile_writable(#[trigger] o.drones@[i].cargo)
    }
}

pub(crate) fn put_opt_u32(out: &mut Vec<u8>, o: Option<u32>)
    ensures
        final(out)@ == old(out)@ + opt_u32_bytes(o),
{
    match o {
        None => put_u8(out, 0),
        Some(v) => {
            let ghost start = out@;
            put_u8(out, 1);
            put_u32(out, v);
            assert(out@ =~= start + opt_u32_bytes(o));
        },
    }
}

fn put_opt_u64(out: &mut Vec<u8>, o: Option<u64>)
    ensures
        final(out)@ == old(out)@ + opt_u64_bytes(o),
{
    match o {
        None => put_u8(out, 0),
        Some(v) => {
            let ghost start = out@;
            put_u8(out, 1);
            put_u64(out, v);
            assert(out@ =~= start + opt_u64_bytes(o));
        },
    }
}

fn put_state(out: &mut Vec<u8>, state: DroneState)
    ensures
        final(out)@ == old(out)@ + state_bytes(state),
{
    let ghost start = out@;
    match state {
        DroneState::Idle => put_u8(out, 0),
        DroneState::Travelling(j) => {
            put_u8(out, 1);
            put_u64(out, j.0);
        },
        DroneState::Digging(j) => {
            put_u8(out, 2);
            put_u64(out, j.0);
        },
        DroneState::Hauling => put_u8(out, 3),
        DroneState::Stuck => put_u8(out, 4),
        DroneState::Manual => put_u8(out, 5),
        DroneState::Stacking(j) => {
            put_u8(out, 6);
            put_u64(out, j.0);
        },
        DroneState::Lost => put_u8(out, 7),
    }
    assert(out@ =~= start + state_bytes(state));
}

fn put_job_row(out: &mut Vec<u8>, row: (Job, Option<DroneId>))
    ensures
        final(out)@ == old(out)@ + job_row_bytes(row),
{
    let ghost start = out@;
    let (job, claimed_by) = row;
    put_u64(out, job.id.0);
    put_u8(
        out,
        match job.kind {
            JobKind::Access => 0,
            JobKind::Extract => 1,
            JobKind::Stack => 2,
        },
    );
    put_pos(out, job.region.min);
    put_pos(out, job.region.max);
    put_i32(out, job.priority);
    put_opt_u32(
        out,
        match claimed_by {
            Some(d) => Some(d.0),
            None => None,
        },
    );
    assert(out@ =~= start + job_row_bytes(row));
}

pub(crate) fn put_positions(out: &mut Vec<u8>, ps: &Vec<BlockPos>, n: usize)
    requires
        n <= ps@.len(),
    ensures
        final(out)@ == old(out)@ + positions_bytes(ps@.take(n as int)),
{
    let ghost start = out@;
    let mut i: usize = 0;
    while i < n
        invariant
            i <= n <= ps@.len(),
            out@ == start + positions_bytes(ps@.take(i as int)),
        decreases n - i,
    {
        proof {
            assert(ps@.take(i + 1).drop_last() =~= ps@.take(i as int));
            assert(ps@.take(i + 1).last() == ps@[i as int]);
        }
        put_pos(out, ps[i]);
        i = i + 1;
        assert(out@ =~= start + positions_bytes(ps@.take(i as int)));
    }
}

#[verifier::rlimit(100)]
#[verifier::spinoff_prover]
fn put_drone(out: &mut Vec<u8>, d: &DroneSnapshot)
    requires
        pile_writable(d.cargo),
    ensures
        final(out)@ == old(out)@ + drone_bytes(drone_file(*d)),
{
    let ghost start = out@;
    put_u32(out, d.id.0);
    put_pos(out, d.position);
    put_pos(out, d.previous_position);
    put_state(out, d.state);
    put_pile(out, &d.cargo);
    put_u64(out, d.capacity);
    put_i32(out, d.grade);
    put_opt_u64(
        out,
        match d.job {
            Some(j) => Some(j.0),
            None => None,
        },
    );
    put_u32(out, d.denied.len() as u32);
    put_positions(out, &d.denied, d.denied.len());
    put_opt_u64(
        out,
        match d.denied_job {
            Some(j) => Some(j.0),
            None => None,
        },
    );
    assert(d.denied@.take(d.denied@.len() as int) =~= d.denied@);
    assert(out@ =~= start + drone_bytes(drone_file(*d)));
}

fn put_heap(out: &mut Vec<u8>, heap: Option<HeapOrder>, stacked: u64)
    ensures
        final(out)@ == old(out)@ + heap_bytes(heap, stacked),
{
    let ghost start = out@;
    match heap {
        Some(h) => {
            put_u8(out, 1);
            put_u8(
                out,
                match h.shape {
                    HeapShape::Pyramid => 0,
                    HeapShape::Spiral => 1,
                    HeapShape::Shaft => 2,
                },
            );
            put_pos(out, h.footprint.min);
            put_pos(out, h.footprint.max);
            put_u64(out, stacked);
        },
        None => put_u8(out, 0),
    }
    assert(out@ =~= start + heap_bytes(heap, stacked));
}

fn put_job_rows(out: &mut Vec<u8>, entries: &Vec<(Job, Option<DroneId>)>)
    ensures
        final(out)@ == old(out)@ + job_rows_bytes(entries@),
{
    let ghost start = out@;
    let mut i: usize = 0;
    while i < entries.len()
        invariant
            i <= entries@.len(),
            out@ == start + job_rows_bytes(entries@.take(i as int)),
        decreases entries@.len() - i,
    {
        proof {
            assert(entries@.take(i + 1).drop_last() =~= entries@.take(i as int));
            assert(entries@.take(i + 1).last() == entries@[i as int]);
        }
        put_job_row(out, entries[i]);
        i = i + 1;
        assert(out@ =~= start + job_rows_bytes(entries@.take(i as int)));
    }
    assert(entries@.take(i as int) =~= entries@);
}

fn put_drones(out: &mut Vec<u8>, drones: &Vec<DroneSnapshot>)
    requires
        forall|i: int| 0 <= i < drones@.len() ==> pile_writable(#[trigger] drones@[i].cargo),
    ensures
        final(out)@ == old(out)@ + drones_bytes(drones@.map_values(|d: DroneSnapshot| drone_file(d))),
{
    let ghost start = out@;
    let ghost files = drones@.map_values(|d: DroneSnapshot| drone_file(d));
    let mut k: usize = 0;
    while k < drones.len()
        invariant
            k <= drones@.len(),
            files == drones@.map_values(|d: DroneSnapshot| drone_file(d)),
            forall|i: int| 0 <= i < drones@.len() ==> pile_writable(#[trigger] drones@[i].cargo),
            out@ == start + drones_bytes(files.take(k as int)),
        decreases drones@.len() - k,
    {
        proof {
            assert(files.take(k + 1).drop_last() =~= files.take(k as int));
            assert(files.take(k + 1).last() == drone_file(drones@[k as int]));
        }
        put_drone(out, &drones[k]);
        k = k + 1;
        assert(out@ =~= start + drones_bytes(files.take(k as int)));
    }
    assert(files.take(k as int) =~= files);
}

/// After appending `piece` to what held `start + acc`, it holds
/// `start + (acc + piece)`.
proof fn lemma_grow(out: Seq<u8>, start: Seq<u8>, acc: Seq<u8>, piece: Seq<u8>)
    requires
        out == (start + acc) + piece,
    ensures
        out == start + (acc + piece),
{
    vstd::seq_lib::lemma_concat_associative(start, acc, piece);
}

fn put_operation(out: &mut Vec<u8>, o: &OperationSnapshot)
    requires
        pile_writable(o.stockpile),
        forall|i: int| 0 <= i < o.drones@.len() ==> pile_writable(#[trigger] o.drones@[i].cargo),
    ensures
        final(out)@ == old(out)@ + operation_bytes(operation_file(*o)),
{
    let ghost f = operation_file(*o);
    let ghost start = out@;
    put_pos(out, o.home);
    let ghost acc = pos_bytes(f.home);
    put_u64(out, o.fields_built);
    proof { lemma_grow(out@, start, acc, u64_bytes(f.fields_built)); acc = acc + u64_bytes(f.fields_built); }
    put_opt_u32(
        out,
        match o.controlled {
            Some(c) => Some(c as u32),
            None => None,
        },
    );
    proof { lemma_grow(out@, start, acc, opt_u32_bytes(f.controlled)); acc = acc + opt_u32_bytes(f.controlled); }
    put_pile(out, &o.stockpile);
    proof { lemma_grow(out@, start, acc, pile_bytes(f.stockpile)); acc = acc + pile_bytes(f.stockpile); }
    put_u32(out, o.board.entries.len() as u32);
    proof {
        lemma_grow(out@, start, acc, u32_bytes(f.entries.len() as u32));
        acc = acc + u32_bytes(f.entries.len() as u32);
    }
    put_u64(out, o.board.next_id);
    proof { lemma_grow(out@, start, acc, u64_bytes(f.next_id)); acc = acc + u64_bytes(f.next_id); }
    put_job_rows(out, &o.board.entries);
    proof { lemma_grow(out@, start, acc, job_rows_bytes(f.entries)); acc = acc + job_rows_bytes(f.entries); }
    put_u32(out, o.drones.len() as u32);
    proof {
        assert(f.drones.len() == o.drones@.len());
        lemma_grow(out@, start, acc, u32_bytes(f.drones.len() as u32));
        acc = acc + u32_bytes(f.drones.len() as u32);
    }
    put_drones(out, &o.drones);
    proof { lemma_grow(out@, start, acc, drones_bytes(f.drones)); acc = acc + drones_bytes(f.drones); }
    put_heap(out, o.heap, o.stacked);
    proof { lemma_grow(out@, start, acc, heap_bytes(f.heap, f.stacked)); acc = acc + heap_bytes(f.heap, f.stacked); }
    assert(acc == operation_bytes(f));
}

/// Write `dig.dat`: the mark first, whether or not anybody is digging, then
/// the dispatch or a flag saying there is none, so a cancelled dispatch stays
/// cancelled.
pub fn save(d: &StoredDig) -> (bytes: Vec<u8>)
    requires
        writable(*d),
    ensures
        bytes@ == dig_bytes(dig_file(*d)),
{
    let mut out: Vec<u8> = Vec::new();
    put_tag(&mut out, &MAGIC);
    put_u32(&mut out, VERSION);
    let ghost head = out@;
    let n = if d.corners.len() <= 2 { d.corners.len() } else { 2 };
    put_u8(&mut out, n as u8);
    put_positions(&mut out, &d.corners, n);
    put_u32(&mut out, d.chosen as u32);
    proof {
        if d.corners@.len() <= 2 {
            assert(d.corners@.take(n as int) =~= d.corners@);
        }
        assert(out@ =~= head + mark_bytes(dig_file(*d).corners, dig_file(*d).chosen));
    }
    let ghost marked = out@;
    match &d.dig {
        None => put_u8(&mut out, 0),
        Some(o) => {
            put_u8(&mut out, 1);
            put_operation(&mut out, o);
        },
    }
    assert(out@ =~= dig_bytes(dig_file(*d)));
    out
}

// ---- what is written reads back ----

pub(crate) proof fn lemma_opt_u32_round_trip(s: Seq<u8>, at: int, o: Option<u32>)
    requires
        stands_at(s, at, opt_u32_bytes(o)),
    ensures
        opt_u32_at(s, at) == Some((o, at + opt_u32_bytes(o).len())),
{
    assert(s[at] == opt_u32_bytes(o)[0]) by {
        assert(s.subrange(at, at + opt_u32_bytes(o).len())[0] == s[at]);
    }
    if let Some(v) = o {
        lemma_u32_bytes_len(v);
        lemma_stands_split(s, at, seq![1u8], u32_bytes(v));
        lemma_u32_round_trip(s, at + 1, v);
    }
}

proof fn lemma_opt_u64_round_trip(s: Seq<u8>, at: int, o: Option<u64>)
    requires
        stands_at(s, at, opt_u64_bytes(o)),
    ensures
        opt_u64_at(s, at) == Some((o, at + opt_u64_bytes(o).len())),
{
    assert(s[at] == opt_u64_bytes(o)[0]) by {
        assert(s.subrange(at, at + opt_u64_bytes(o).len())[0] == s[at]);
    }
    if let Some(v) = o {
        lemma_u64_bytes_len(v);
        lemma_stands_split(s, at, seq![1u8], u64_bytes(v));
        lemma_u64_round_trip(s, at + 1, v);
    }
}

proof fn lemma_state_round_trip(s: Seq<u8>, at: int, st: DroneState)
    requires
        stands_at(s, at, state_bytes(st)),
    ensures
        state_at(s, at) == Some((st, at + state_bytes(st).len())),
{
    let w = state_bytes(st);
    assert(s[at] == w[0]) by {
        assert(s.subrange(at, at + w.len())[0] == s[at]);
    }
    match st {
        DroneState::Travelling(j) => {
            lemma_u64_bytes_len(j.0);
            lemma_stands_split(s, at, seq![1u8], u64_bytes(j.0));
            lemma_u64_round_trip(s, at + 1, j.0);
        },
        DroneState::Digging(j) => {
            lemma_u64_bytes_len(j.0);
            lemma_stands_split(s, at, seq![2u8], u64_bytes(j.0));
            lemma_u64_round_trip(s, at + 1, j.0);
        },
        DroneState::Stacking(j) => {
            lemma_u64_bytes_len(j.0);
            lemma_stands_split(s, at, seq![6u8], u64_bytes(j.0));
            lemma_u64_round_trip(s, at + 1, j.0);
        },
        _ => {},
    }
}

/// A box whose corners are already in order.
pub open spec fn region_ok(b: VoxelAabb) -> bool {
    b.min.x <= b.max.x && b.min.y <= b.max.y && b.min.z <= b.max.z
}

proof fn lemma_job_row_round_trip(s: Seq<u8>, at: int, row: (Job, Option<DroneId>))
    requires
        stands_at(s, at, job_row_bytes(row)),
        region_ok(row.0.region),
    ensures
        job_row_at(s, at) == Some((row, at + job_row_bytes(row).len())),
{
    let job = row.0;
    let a = u64_bytes(job.id.0);
    let b = seq![kind_tag(job.kind)];
    let c = pos_bytes(job.region.min);
    let d = pos_bytes(job.region.max);
    let e = i32_bytes(job.priority);
    let f = opt_u32_bytes(drone_number(row.1));
    lemma_u64_bytes_len(job.id.0);
    lemma_pos_bytes_len(job.region.min);
    lemma_pos_bytes_len(job.region.max);
    lemma_u32_bytes_len(job.priority as u32);
    lemma_stands_split(s, at, a + b + c + d + e, f);
    lemma_stands_split(s, at, a + b + c + d, e);
    lemma_stands_split(s, at, a + b + c, d);
    lemma_stands_split(s, at, a + b, c);
    lemma_stands_split(s, at, a, b);
    lemma_u64_round_trip(s, at, job.id.0);
    assert(s[at + 8] == kind_tag(job.kind)) by {
        assert(s.subrange(at + 8, at + 9)[0] == s[at + 8]);
    }
    lemma_pos_round_trip(s, at + 9, job.region.min);
    lemma_pos_round_trip(s, at + 21, job.region.max);
    lemma_i32_round_trip(s, at + 33, job.priority);
    lemma_opt_u32_round_trip(s, at + 37, drone_number(row.1));
    assert(aabb_of(job.region.min, job.region.max) == job.region);
}

proof fn lemma_job_rows_round_trip(s: Seq<u8>, at: int, rows: Seq<(Job, Option<DroneId>)>)
    requires
        stands_at(s, at, job_rows_bytes(rows)),
        forall|i: int| 0 <= i < rows.len() ==> region_ok(#[trigger] rows[i].0.region),
    ensures
        job_rows_at(s, at, rows.len()) == Some((rows, at + job_rows_bytes(rows).len())),
    decreases rows.len(),
{
    if rows.len() > 0 {
        let front = rows.drop_last();
        lemma_stands_split(s, at, job_rows_bytes(front), job_row_bytes(rows.last()));
        assert forall|i: int| 0 <= i < front.len() implies region_ok(#[trigger] front[i].0.region) by {
            assert(front[i] == rows[i]);
        }
        lemma_job_rows_round_trip(s, at, front);
        assert(rows[rows.len() - 1] == rows.last());
        lemma_job_row_round_trip(s, at + job_rows_bytes(front).len(), rows.last());
        assert(front.push(rows.last()) =~= rows);
    }
}

pub(crate) proof fn lemma_positions_round_trip(s: Seq<u8>, at: int, ps: Seq<BlockPos>)
    requires
        stands_at(s, at, positions_bytes(ps)),
    ensures
        positions_at(s, at, ps.len()) == Some((ps, at + positions_bytes(ps).len())),
        positions_bytes(ps).len() == 12 * ps.len(),
    decreases ps.len(),
{
    if ps.len() > 0 {
        let front = ps.drop_last();
        lemma_stands_split(s, at, positions_bytes(front), pos_bytes(ps.last()));
        lemma_positions_round_trip(s, at, front);
        lemma_pos_bytes_len(ps.last());
        lemma_pos_round_trip(s, at + positions_bytes(front).len(), ps.last());
        assert(front.push(ps.last()) =~= ps);
    }
}

/// A drone the file can carry and read back as itself.
pub open spec fn drone_ok(d: DroneFile) -> bool {
    &&& d.cargo.len() <= MAX_ROWS
    &&& names_fit(d.cargo, MAX_NAME)
    &&& d.capacity <= MAX_CAPACITY
    &&& d.denied.len() <= MAX_JOBS
}

#[verifier::rlimit(40)]
proof fn lemma_drone_round_trip(s: Seq<u8>, at: int, d: DroneFile)
    requires
        stands_at(s, at, drone_bytes(d)),
        drone_ok(d),
    ensures
        drone_at(s, at) == Some((d, at + drone_bytes(d).len())),
{
    let p1 = u32_bytes(d.id.0);
    let p2 = pos_bytes(d.position);
    let p3 = pos_bytes(d.previous_position);
    let p4 = state_bytes(d.state);
    let p5 = pile_bytes(d.cargo);
    let p6 = u64_bytes(d.capacity);
    let p7 = i32_bytes(d.grade);
    let p8 = opt_u64_bytes(job_number(d.job));
    let p9 = u32_bytes(d.denied.len() as u32);
    let p10 = positions_bytes(d.denied);
    let p11 = opt_u64_bytes(job_number(d.denied_job));
    lemma_u32_bytes_len(d.id.0);
    lemma_pos_bytes_len(d.position);
    lemma_pos_bytes_len(d.previous_position);
    lemma_u64_bytes_len(d.capacity);
    lemma_u32_bytes_len(d.grade as u32);
    lemma_u32_bytes_len(d.denied.len() as u32);
    lemma_stands_split(s, at, p1 + p2 + p3 + p4 + p5 + p6 + p7 + p8 + p9 + p10, p11);
    lemma_stands_split(s, at, p1 + p2 + p3 + p4 + p5 + p6 + p7 + p8 + p9, p10);
    lemma_stands_split(s, at, p1 + p2 + p3 + p4 + p5 + p6 + p7 + p8, p9);
    lemma_stands_split(s, at, p1 + p2 + p3 + p4 + p5 + p6 + p7, p8);
    lemma_stands_split(s, at, p1 + p2 + p3 + p4 + p5 + p6, p7);
    lemma_stands_split(s, at, p1 + p2 + p3 + p4 + p5, p6);
    lemma_stands_split(s, at, p1 + p2 + p3 + p4, p5);
    lemma_stands_split(s, at, p1 + p2 + p3, p4);
    lemma_stands_split(s, at, p1 + p2, p3);
    lemma_stands_split(s, at, p1, p2);
    lemma_u32_round_trip(s, at, d.id.0);
    lemma_pos_round_trip(s, at + 4, d.position);
    lemma_pos_round_trip(s, at + 16, d.previous_position);
    lemma_state_round_trip(s, at + 28, d.state);
    let a1 = at + 28 + p4.len();
    lemma_pile_round_trip(s, a1, d.cargo, MAX_ROWS, MAX_NAME);
    let a2 = a1 + p5.len();
    lemma_u64_round_trip(s, a2, d.capacity);
    lemma_i32_round_trip(s, a2 + 8, d.grade);
    lemma_opt_u64_round_trip(s, a2 + 12, job_number(d.job));
    let a3 = a2 + 12 + p8.len();
    lemma_u32_round_trip(s, a3, d.denied.len() as u32);
    lemma_positions_round_trip(s, a3 + 4, d.denied);
    let a5 = a3 + 4 + p10.len();
    lemma_opt_u64_round_trip(s, a5, job_number(d.denied_job));
    assert(job_of(job_number(d.job)) == d.job);
    assert(job_of(job_number(d.denied_job)) == d.denied_job);
}

proof fn lemma_drones_round_trip(s: Seq<u8>, at: int, ds: Seq<DroneFile>)
    requires
        stands_at(s, at, drones_bytes(ds)),
        forall|i: int| 0 <= i < ds.len() ==> drone_ok(#[trigger] ds[i]),
    ensures
        drones_at(s, at, ds.len()) == Some((ds, at + drones_bytes(ds).len())),
    decreases ds.len(),
{
    if ds.len() > 0 {
        let front = ds.drop_last();
        lemma_stands_split(s, at, drones_bytes(front), drone_bytes(ds.last()));
        assert forall|i: int| 0 <= i < front.len() implies drone_ok(#[trigger] front[i]) by {
            assert(front[i] == ds[i]);
        }
        lemma_drones_round_trip(s, at, front);
        assert(ds[ds.len() - 1] == ds.last());
        lemma_drone_round_trip(s, at + drones_bytes(front).len(), ds.last());
        assert(front.push(ds.last()) =~= ds);
    }
}

proof fn lemma_heap_round_trip(s: Seq<u8>, at: int, heap: Option<HeapOrder>, stacked: u64)
    requires
        stands_at(s, at, heap_bytes(heap, stacked)),
        heap matches Some(h) ==> region_ok(h.footprint),
        heap is None ==> stacked == 0,
    ensures
        heap_at(s, at) == Some((heap, stacked)),
        heap_bytes(heap, stacked).len() >= 1,
{
    let w = heap_bytes(heap, stacked);
    assert(s[at] == w[0]) by {
        assert(s.subrange(at, at + w.len())[0] == s[at]);
    }
    if let Some(h) = heap {
        let a = seq![1u8, shape_tag(h.shape)];
        let b = pos_bytes(h.footprint.min);
        let c = pos_bytes(h.footprint.max);
        let d = u64_bytes(stacked);
        lemma_pos_bytes_len(h.footprint.min);
        lemma_pos_bytes_len(h.footprint.max);
        lemma_u64_bytes_len(stacked);
        lemma_stands_split(s, at, a + b + c, d);
        lemma_stands_split(s, at, a + b, c);
        lemma_stands_split(s, at, a, b);
        assert(s[at + 1] == shape_tag(h.shape)) by {
            assert(s.subrange(at, at + 2)[1] == s[at + 1]);
        }
        lemma_pos_round_trip(s, at + 2, h.footprint.min);
        lemma_pos_round_trip(s, at + 14, h.footprint.max);
        lemma_u64_round_trip(s, at + 26, stacked);
        assert(aabb_of(h.footprint.min, h.footprint.max) == h.footprint);
    }
}

/// A running dispatch the file can carry and read back as itself: no more
/// jobs or drones than the file allows, every box with its corners in order,
/// every drone one the file can carry, the wheel held by a drone that is
/// there, and no progress on a heap that is not.
pub open spec fn operation_ok(o: OperationFile) -> bool {
    &&& o.stockpile.len() <= MAX_ROWS
    &&& names_fit(o.stockpile, MAX_NAME)
    &&& o.entries.len() <= MAX_JOBS
    &&& forall|i: int| 0 <= i < o.entries.len() ==> region_ok(#[trigger] o.entries[i].0.region)
    &&& o.drones.len() <= MAX_DRONES
    &&& forall|i: int| 0 <= i < o.drones.len() ==> drone_ok(#[trigger] o.drones[i])
    &&& o.heap matches Some(h) ==> region_ok(h.footprint)
    &&& o.heap is None ==> o.stacked == 0
    &&& o.controlled matches Some(c) ==> c < o.drones.len()
}

#[verifier::rlimit(40)]
proof fn lemma_operation_round_trip(s: Seq<u8>, at: int, o: OperationFile)
    requires
        stands_at(s, at, operation_bytes(o)),
        operation_ok(o),
    ensures
        operation_at(s, at, VERSION) == Some(o),
{
    let p1 = pos_bytes(o.home);
    let p2 = u64_bytes(o.fields_built);
    let p3 = opt_u32_bytes(o.controlled);
    let p4 = pile_bytes(o.stockpile);
    let p5 = u32_bytes(o.entries.len() as u32);
    let p6 = u64_bytes(o.next_id);
    let p7 = job_rows_bytes(o.entries);
    let p8 = u32_bytes(o.drones.len() as u32);
    let p9 = drones_bytes(o.drones);
    let p10 = heap_bytes(o.heap, o.stacked);
    lemma_pos_bytes_len(o.home);
    lemma_u64_bytes_len(o.fields_built);
    lemma_u32_bytes_len(o.entries.len() as u32);
    lemma_u64_bytes_len(o.next_id);
    lemma_u32_bytes_len(o.drones.len() as u32);
    lemma_stands_split(s, at, p1 + p2 + p3 + p4 + p5 + p6 + p7 + p8 + p9, p10);
    lemma_stands_split(s, at, p1 + p2 + p3 + p4 + p5 + p6 + p7 + p8, p9);
    lemma_stands_split(s, at, p1 + p2 + p3 + p4 + p5 + p6 + p7, p8);
    lemma_stands_split(s, at, p1 + p2 + p3 + p4 + p5 + p6, p7);
    lemma_stands_split(s, at, p1 + p2 + p3 + p4 + p5, p6);
    lemma_stands_split(s, at, p1 + p2 + p3 + p4, p5);
    lemma_stands_split(s, at, p1 + p2 + p3, p4);
    lemma_stands_split(s, at, p1 + p2, p3);
    lemma_stands_split(s, at, p1, p2);
    lemma_pos_round_trip(s, at, o.home);
    lemma_u64_round_trip(s, at + 12, o.fields_built);
    lemma_opt_u32_round_trip(s, at + 20, o.controlled);
    let a1 = at + 20 + p3.len();
    lemma_pile_round_trip(s, a1, o.stockpile, MAX_ROWS, MAX_NAME);
    let a2 = a1 + p4.len();
    lemma_u32_round_trip(s, a2, o.entries.len() as u32);
    lemma_u64_round_trip(s, a2 + 4, o.next_id);
    lemma_job_rows_round_trip(s, a2 + 12, o.entries);
    let a3 = a2 + 12 + p7.len();
    lemma_u32_round_trip(s, a3, o.drones.len() as u32);
    lemma_drones_round_trip(s, a3 + 4, o.drones);
    let a5 = a3 + 4 + p9.len();
    lemma_heap_round_trip(s, a5, o.heap, o.stacked);
}

proof fn lemma_mark_round_trip(s: Seq<u8>, at: int, corners: Seq<BlockPos>, chosen: u32)
    requires
        stands_at(s, at, mark_bytes(corners, chosen)),
        corners.len() <= 2,
    ensures
        mark_at(s, at) == Some((corners, chosen, at + mark_bytes(corners, chosen).len())),
{
    let a = seq![corners.len() as u8];
    let b = positions_bytes(corners);
    let c = u32_bytes(chosen);
    lemma_u32_bytes_len(chosen);
    lemma_stands_split(s, at, a + b, c);
    lemma_stands_split(s, at, a, b);
    assert(s[at] == corners.len() as u8) by {
        assert(s.subrange(at, at + 1)[0] == s[at]);
    }
    lemma_positions_round_trip(s, at + 1, corners);
    lemma_u32_round_trip(s, at + 1 + b.len(), chosen);
}

/// A stored dig the file can carry and read back as itself.
pub open spec fn dig_ok(f: DigFile) -> bool {
    &&& f.corners.len() <= 2
    &&& f.dig matches Some(o) ==> operation_ok(o)
}

/// **The dispatch you left running survives a save**: `dig.dat` as written
/// reads back as the same mark and the same crew, for any dispatch the file
/// can carry.
pub proof fn lemma_dig_round_trip(f: DigFile)
    requires
        dig_ok(f),
    ensures
        dig_at(dig_bytes(f)) == Some(Some(f)),
{
    let s = dig_bytes(f);
    let head = MAGIC@ + u32_bytes(VERSION);
    let mark = mark_bytes(f.corners, f.chosen);
    let rest = match f.dig {
        None => seq![0u8],
        Some(o) => seq![1u8] + operation_bytes(o),
    };
    lemma_u32_bytes_len(VERSION);
    assert(s == head + mark + rest);
    assert(stands_at(s, 0, s)) by {
        assert(s.subrange(0, s.len() as int) =~= s);
    }
    lemma_stands_split(s, 0, head + mark, rest);
    lemma_stands_split(s, 0, head, mark);
    lemma_stands_split(s, 0, MAGIC@, u32_bytes(VERSION));
    lemma_u32_round_trip(s, 4, VERSION);
    lemma_mark_round_trip(s, 8, f.corners, f.chosen);
    let a1: int = 8 + mark.len() as int;
    assert(s[a1] == rest[0]) by {
        assert(s.subrange(a1, a1 + rest.len())[0] == s[a1]);
    }
    if let Some(o) = f.dig {
        lemma_stands_split(s, a1, seq![1u8], operation_bytes(o));
        lemma_operation_round_trip(s, a1 + 1, o);
    }
}

/// What a stored dig writes is one the file can carry back, when its boxes
/// are in order and it is within the file's limits.
pub proof fn lemma_written_dig_is_carried(d: StoredDig)
    requires
        d.dig matches Some(o) ==> operation_ok(operation_file(o)),
    ensures
        dig_ok(dig_file(d)),
{
}

/// The heap a restored crew goes back to stacking: its cells planned again
/// from the footprint and the shape on the ground as it is now, since the
/// cells are a function of those and are not kept.
pub fn replan_heap(order: &HeapOrder, ground: &Ground) -> (r: Option<HeapPlan>)
    ensures
        r is Some <==> plan_exists(*ground, order.footprint, order.shape),
        r matches Some(hp) ==> is_plan(*ground, order.footprint, order.shape, hp),
{
    plan(ground, order.footprint, order.shape)
}

} // verus!
