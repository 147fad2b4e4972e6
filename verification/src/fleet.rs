//! The air side, on disk: your fliers, and every sector you have already swept.
//!
//! A sweep is bought and paid for in fuel, so what the scanner learned is
//! written down, and so is a half-finished sweep. The base and the goods
//! waiting for a container are the pile's concern and live in `pile.dat`;
//! this file restores the air side around them.
use vstd::prelude::*;

use crate::air::{
    same_air, survey_in, survey_view, tidied_from, Fleet, Flier, FlierState, FleetSnapshot,
    Sector, SurveySnapshot,
};
use crate::columns::{column_set, hit_map};
use crate::bytes::{
    i32_at, i32_bytes, lemma_i32_round_trip, lemma_stands_split, lemma_u32_bytes_len,
    lemma_u32_round_trip, lemma_u64_bytes_len, lemma_u64_round_trip, put_i32, put_tag, put_u32,
    put_u64, put_u8, read_i32, read_u32, read_u64, read_u8, stands_at, tag_at, u32_at,
    u32_bytes, u64_at, u64_bytes, u8_at,
};
use crate::cargo::{lemma_pile_round_trip, names_fit, pile_at, pile_bytes, put_pile, read_pile};
use crate::dig::{
    lemma_opt_u32_round_trip, narrowed, opt_u32_at, opt_u32_bytes, pile_matches, pile_writable,
    put_opt_u32, read_opt_u32, widened,
};
use crate::geometry::{lemma_pos_bytes_len, lemma_pos_round_trip, pos_at, pos_bytes, put_pos, read_pos, BlockPos};
use crate::stockpile::Stockpile;

verus! {

/// What `fleet.dat` starts with.
pub const MAGIC: [u8; 4] = [0x56, 0x58, 0x46, 0x4c];

/// The layout `fleet.dat` is written in.
pub const VERSION: u32 = 1;

/// Caps, so a damaged or hand-edited file cannot ask for an enormous
/// allocation or assert a fleet the game could never have produced.
pub const MAX_FLIERS: u32 = 4_096;
pub const MAX_SURVEYS: u32 = 65_536;

/// A sector is 64 blocks square, so 4,096 columns is a full one and a little
/// slack is generous.
pub const MAX_COLUMNS: u32 = 8_192;
pub const MAX_NAME: u32 = 64;
pub const MAX_ROWS: u32 = 4_096;
pub const MAX_CAPACITY: u64 = 1_000_000;

/// The scanner reaches tens of blocks down, not thousands.
pub const MAX_SCAN_DEPTH: i32 = 4_096;

/// A flier as the file carries it.
pub struct FlierFile {
    pub position: BlockPos,
    pub previous_position: BlockPos,
    pub state: FlierState,
    pub cargo: Seq<(Seq<char>, u64)>,
    pub capacity: u64,
}

/// A survey as the file carries it.
pub struct SurveyFile {
    pub sector: Sector,
    pub covered: Seq<(i32, i32)>,
    pub hits: Seq<((i32, i32), (i32, i32))>,
    pub complete: bool,
}

/// The whole of `fleet.dat` as values.
pub struct AirFile {
    pub scan_depth: i32,
    pub controlled: Option<u32>,
    pub fliers: Seq<FlierFile>,
    pub surveys: Seq<SurveyFile>,
}

// ---- writing, as bytes ----

/// A flier's state: a tag, then what the state carries.
pub open spec fn flier_state_bytes(st: FlierState) -> Seq<u8> {
    match st {
        FlierState::Idle => seq![0u8],
        FlierState::Scanning { sector, waypoint } => seq![1u8] + i32_bytes(sector.x) + i32_bytes(
            sector.z,
        ) + u64_bytes(waypoint as u64),
        FlierState::ToPickup { mine } => seq![2u8] + u64_bytes(mine as u64),
        FlierState::ToBase => seq![3u8],
        FlierState::Manual => seq![4u8],
        FlierState::Lost => seq![5u8],
    }
}

/// One flier.
pub open spec fn flier_bytes(f: FlierFile) -> Seq<u8> {
    pos_bytes(f.position) + pos_bytes(f.previous_position) + flier_state_bytes(f.state) + pile_bytes(
        f.cargo,
    ) + u64_bytes(f.capacity)
}

/// Fliers, one after another.
pub open spec fn fliers_bytes(fs: Seq<FlierFile>) -> Seq<u8>
    decreases fs.len(),
{
    if fs.len() == 0 {
        Seq::empty()
    } else {
        fliers_bytes(fs.drop_last()) + flier_bytes(fs.last())
    }
}

/// A column.
pub open spec fn column_bytes(c: (i32, i32)) -> Seq<u8> {
    i32_bytes(c.0) + i32_bytes(c.1)
}

/// Columns, one after another.
pub open spec fn columns_bytes(cs: Seq<(i32, i32)>) -> Seq<u8>
    decreases cs.len(),
{
    if cs.len() == 0 {
        Seq::empty()
    } else {
        columns_bytes(cs.drop_last()) + column_bytes(cs.last())
    }
}

/// A column with ore in range: the column, then the depth and the height to
/// hover at.
pub open spec fn hit_bytes(h: ((i32, i32), (i32, i32))) -> Seq<u8> {
    column_bytes(h.0) + column_bytes(h.1)
}

/// Hits, one after another.
pub open spec fn hits_bytes(hs: Seq<((i32, i32), (i32, i32))>) -> Seq<u8>
    decreases hs.len(),
{
    if hs.len() == 0 {
        Seq::empty()
    } else {
        hits_bytes(hs.drop_last()) + hit_bytes(hs.last())
    }
}

/// One survey.
pub open spec fn survey_bytes(v: SurveyFile) -> Seq<u8> {
    i32_bytes(v.sector.x) + i32_bytes(v.sector.z) + seq![if v.complete { 1u8 } else { 0u8 }]
        + u32_bytes(v.covered.len() as u32) + columns_bytes(v.covered) + u32_bytes(
        v.hits.len() as u32,
    ) + hits_bytes(v.hits)
}

/// Surveys, one after another.
pub open spec fn surveys_bytes(vs: Seq<SurveyFile>) -> Seq<u8>
    decreases vs.len(),
{
    if vs.len() == 0 {
        Seq::empty()
    } else {
        surveys_bytes(vs.drop_last()) + survey_bytes(vs.last())
    }
}

/// The whole of `fleet.dat`.
pub open spec fn fleet_bytes(f: AirFile) -> Seq<u8> {
    MAGIC@ + u32_bytes(VERSION) + i32_bytes(f.scan_depth) + opt_u32_bytes(f.controlled) + u32_bytes(
        f.fliers.len() as u32,
    ) + fliers_bytes(f.fliers) + u32_bytes(f.surveys.len() as u32) + surveys_bytes(f.surveys)
}

// ---- reading, as values ----

/// A flier's state at `at`: nothing for an unknown tag.
pub open spec fn flier_state_at(s: Seq<u8>, at: int) -> Option<(FlierState, int)> {
    match u8_at(s, at) {
        Some((tag, _)) => if tag == 0 {
            Some((FlierState::Idle, at + 1))
        } else if tag == 1 {
            match (i32_at(s, at + 1), i32_at(s, at + 5), u64_at(s, at + 9)) {
                (Some((x, _)), Some((z, _)), Some((w, next))) => Some(
                    (FlierState::Scanning { sector: Sector { x, z }, waypoint: w as usize }, next),
                ),
                _ => None,
            }
        } else if tag == 2 {
            match u64_at(s, at + 1) {
                Some((m, next)) => Some((FlierState::ToPickup { mine: m as usize }, next)),
                None => None,
            }
        } else if tag == 3 {
            Some((FlierState::ToBase, at + 1))
        } else if tag == 4 {
            Some((FlierState::Manual, at + 1))
        } else if tag == 5 {
            Some((FlierState::Lost, at + 1))
        } else {
            None
        },
        None => None,
    }
}

/// The flier at `at`: nothing for one that stops early, is in an unknown
/// state, or claims a capacity past any machine's.
pub open spec fn flier_at(s: Seq<u8>, at: int) -> Option<(FlierFile, int)> {
    match (pos_at(s, at), pos_at(s, at + 12), flier_state_at(s, at + 24)) {
        (Some((position, _)), Some((previous_position, _)), Some((state, a1))) => match pile_at(
            s,
            a1,
            MAX_ROWS,
            MAX_NAME,
        ) {
            Some((cargo, a2)) => match u64_at(s, a2) {
                Some((capacity, a3)) => if capacity > MAX_CAPACITY {
                    None
                } else {
                    Some((FlierFile { position, previous_position, state, cargo, capacity }, a3))
                },
                None => None,
            },
            None => None,
        },
        _ => None,
    }
}

/// The `n` fliers from `at`.
pub open spec fn fliers_at(s: Seq<u8>, at: int, n: nat) -> Option<(Seq<FlierFile>, int)>
    decreases n,
{
    if n == 0 {
        Some((Seq::empty(), at))
    } else {
        match fliers_at(s, at, (n - 1) as nat) {
            Some((fs, next)) => match flier_at(s, next) {
                Some((f, after)) => Some((fs.push(f), after)),
                None => None,
            },
            None => None,
        }
    }
}

/// The column at `at`.
pub open spec fn column_at(s: Seq<u8>, at: int) -> Option<((i32, i32), int)> {
    match (i32_at(s, at), i32_at(s, at + 4)) {
        (Some((x, _)), Some((z, next))) => Some(((x, z), next)),
        _ => None,
    }
}

/// The `n` columns from `at`.
pub open spec fn columns_at(s: Seq<u8>, at: int, n: nat) -> Option<(Seq<(i32, i32)>, int)>
    decreases n,
{
    if n == 0 {
        Some((Seq::empty(), at))
    } else {
        match columns_at(s, at, (n - 1) as nat) {
            Some((cs, next)) => match column_at(s, next) {
                Some((c, after)) => Some((cs.push(c), after)),
                None => None,
            },
            None => None,
        }
    }
}

/// The hit at `at`.
pub open spec fn hit_at(s: Seq<u8>, at: int) -> Option<(((i32, i32), (i32, i32)), int)> {
    match (column_at(s, at), column_at(s, at + 8)) {
        (Some((c, _)), Some((d, next))) => Some(((c, d), next)),
        _ => None,
    }
}

/// The `n` hits from `at`.
pub open spec fn hits_at(s: Seq<u8>, at: int, n: nat) -> Option<(Seq<((i32, i32), (i32, i32))>, int)>
    decreases n,
{
    if n == 0 {
        Some((Seq::empty(), at))
    } else {
        match hits_at(s, at, (n - 1) as nat) {
            Some((hs, next)) => match hit_at(s, next) {
                Some((h, after)) => Some((hs.push(h), after)),
                None => None,
            },
            None => None,
        }
    }
}

/// The survey at `at`: nothing for one that stops early or lists more
/// columns than a sector has.
pub open spec fn survey_at(s: Seq<u8>, at: int) -> Option<(SurveyFile, int)> {
    match (i32_at(s, at), i32_at(s, at + 4), u8_at(s, at + 8), u32_at(s, at + 9)) {
        (Some((x, _)), Some((z, _)), Some((complete, _)), Some((n, a1))) => if n > MAX_COLUMNS {
            None
        } else {
            match columns_at(s, a1, n as nat) {
                Some((covered, a2)) => match u32_at(s, a2) {
                    Some((m, a3)) => if m > MAX_COLUMNS {
                        None
                    } else {
                        match hits_at(s, a3, m as nat) {
                            Some((hits, a4)) => Some(
                                (
                                    SurveyFile {
                                        sector: Sector { x, z },
                                        covered,
                                        hits,
                                        complete: complete != 0,
                                    },
                                    a4,
                                ),
                            ),
                            None => None,
                        }
                    },
                    None => None,
                },
                None => None,
            }
        },
        _ => None,
    }
}

/// The `n` surveys from `at`.
pub open spec fn surveys_at(s: Seq<u8>, at: int, n: nat) -> Option<(Seq<SurveyFile>, int)>
    decreases n,
{
    if n == 0 {
        Some((Seq::empty(), at))
    } else {
        match surveys_at(s, at, (n - 1) as nat) {
            Some((vs, next)) => match survey_at(s, next) {
                Some((v, after)) => Some((vs.push(v), after)),
                None => None,
            },
            None => None,
        }
    }
}

/// What `fleet.dat` says: `None` for a damaged file (including a scanner
/// reach past any scanner's, more fliers or surveys than could be, or a stick
/// held by a flier that is not there), `Some(None)` for another version.
pub open spec fn fleet_at(s: Seq<u8>) -> Option<Option<AirFile>> {
    if !stands_at(s, 0, MAGIC@) {
        None
    } else {
        match u32_at(s, 4) {
            None => None,
            Some((version, _)) => if version != VERSION {
                Some(None)
            } else {
                match (i32_at(s, 8), opt_u32_at(s, 12)) {
                    (Some((scan_depth, _)), Some((controlled, a1))) => if !(0 <= scan_depth
                        <= MAX_SCAN_DEPTH) {
                        None
                    } else {
                        match u32_at(s, a1) {
                            Some((count, a2)) => if count > MAX_FLIERS {
                                None
                            } else {
                                match fliers_at(s, a2, count as nat) {
                                    Some((fliers, a3)) => match u32_at(s, a3) {
                                        Some((surveys_n, a4)) => if surveys_n > MAX_SURVEYS {
                                            None
                                        } else {
                                            match surveys_at(s, a4, surveys_n as nat) {
                                                Some((surveys, _)) => if controlled matches Some(c)
                                                    && c >= fliers.len() {
                                                    None
                                                } else {
                                                    Some(
                                                        Some(
                                                            AirFile {
                                                                scan_depth,
                                                                controlled,
                                                                fliers,
                                                                surveys,
                                                            },
                                                        ),
                                                    )
                                                },
                                                None => None,
                                            }
                                        },
                                        None => None,
                                    },
                                    None => None,
                                }
                            },
                            None => None,
                        }
                    },
                    _ => None,
                }
            },
        }
    }
}

proof fn lemma_fliers_stop(s: Seq<u8>, at: int, i: nat, n: nat)
    requires
        i < n,
        fliers_at(s, at, (i + 1) as nat) is None,
    ensures
        fliers_at(s, at, n) is None,
    decreases n - i,
{
    if n > i + 1 {
        lemma_fliers_stop(s, at, i, (n - 1) as nat);
    }
}

proof fn lemma_columns_stop(s: Seq<u8>, at: int, i: nat, n: nat)
    requires
        i < n,
        columns_at(s, at, (i + 1) as nat) is None,
    ensures
        columns_at(s, at, n) is None,
    decreases n - i,
{
    if n > i + 1 {
        lemma_columns_stop(s, at, i, (n - 1) as nat);
    }
}

proof fn lemma_hits_stop(s: Seq<u8>, at: int, i: nat, n: nat)
    requires
        i < n,
        hits_at(s, at, (i + 1) as nat) is None,
    ensures
        hits_at(s, at, n) is None,
    decreases n - i,
{
    if n > i + 1 {
        lemma_hits_stop(s, at, i, (n - 1) as nat);
    }
}

proof fn lemma_surveys_stop(s: Seq<u8>, at: int, i: nat, n: nat)
    requires
        i < n,
        surveys_at(s, at, (i + 1) as nat) is None,
    ensures
        surveys_at(s, at, n) is None,
    decreases n - i,
{
    if n > i + 1 {
        lemma_surveys_stop(s, at, i, (n - 1) as nat);
    }
}

// ---- reading, in code ----

fn read_flier_state(s: &[u8], at: usize) -> (r: Option<(FlierState, usize)>)
    ensures
        r matches Some((v, next)) ==> flier_state_at(s@, at as int) == Some((v, next as int)),
        r is None <==> flier_state_at(s@, at as int) is None,
{
    let (tag, a1) = match read_u8(s, at) {
        Some(x) => x,
        None => return None,
    };
    if tag == 0 {
        Some((FlierState::Idle, a1))
    } else if tag == 1 {
        let (x, a2) = match read_i32(s, a1) {
            Some(v) => v,
            None => return None,
        };
        let (z, a3) = match read_i32(s, a2) {
            Some(v) => v,
            None => return None,
        };
        let (w, a4) = match read_u64(s, a3) {
            Some(v) => v,
            None => return None,
        };
        Some((FlierState::Scanning { sector: Sector { x, z }, waypoint: w as usize }, a4))
    } else if tag == 2 {
        let (m, a2) = match read_u64(s, a1) {
            Some(v) => v,
            None => return None,
        };
        Some((FlierState::ToPickup { mine: m as usize }, a2))
    } else if tag == 3 {
        Some((FlierState::ToBase, a1))
    } else if tag == 4 {
        Some((FlierState::Manual, a1))
    } else if tag == 5 {
        Some((FlierState::Lost, a1))
    } else {
        None
    }
}

/// Whether a flier is the one the file describes.
pub open spec fn flier_matches(f: Flier, v: FlierFile) -> bool {
    &&& f.position == v.position
    &&& f.previous_position == v.previous_position
    &&& f.state == v.state
    &&& pile_matches(f.cargo, v.cargo)
    &&& f.capacity == v.capacity
}

fn read_flier(s: &[u8], at: usize) -> (r: Option<(Flier, usize)>)
    ensures
        r matches Some((f, next)) ==> (flier_at(s@, at as int) matches Some((v, end)) && end == next
            && flier_matches(f, v)),
        r is None <==> flier_at(s@, at as int) is None,
{
    let (position, a0) = match read_pos(s, at) {
        Some(x) => x,
        None => return None,
    };
    let (previous_position, b0) = match read_pos(s, a0) {
        Some(x) => x,
        None => return None,
    };
    let (state, a1) = match read_flier_state(s, b0) {
        Some(x) => x,
        None => return None,
    };
    let (cargo, a2) = match read_pile(s, a1, MAX_ROWS, MAX_NAME) {
        Some(x) => x,
        None => return None,
    };
    let (capacity, a3) = match read_u64(s, a2) {
        Some(x) => x,
        None => return None,
    };
    if capacity > MAX_CAPACITY {
        return None;
    }
    Some((Flier { position, previous_position, state, cargo, capacity }, a3))
}

fn read_fliers(s: &[u8], at: usize, n: u32) -> (r: Option<(Vec<Flier>, usize)>)
    ensures
        r matches Some((v, next)) ==> (fliers_at(s@, at as int, n as nat) matches Some((fs, end))
            && end == next && v@.len() == fs.len() && forall|i: int|
            0 <= i < fs.len() ==> flier_matches(#[trigger] v@[i], fs[i])),
        r is None <==> fliers_at(s@, at as int, n as nat) is None,
{
    let mut out: Vec<Flier> = Vec::new();
    let mut pos = at;
    let mut i: u32 = 0;
    while i < n
        invariant
            i <= n,
            fliers_at(s@, at as int, i as nat) matches Some((fs, end)) && end == pos && out@.len()
                == fs.len() && forall|k: int| 0 <= k < fs.len() ==> flier_matches(#[trigger] out@[k], fs[k]),
        decreases n - i,
    {
        let ghost fs = fliers_at(s@, at as int, i as nat).unwrap().0;
        match read_flier(s, pos) {
            Some((f, next)) => {
                let ghost v = flier_at(s@, pos as int).unwrap().0;
                out.push(f);
                proof {
                    let grown = fs.push(v);
                    assert(fliers_at(s@, at as int, (i + 1) as nat) == Some((grown, next as int)));
                    assert forall|k: int| 0 <= k < grown.len() implies flier_matches(#[trigger] out@[k], grown[k]) by {
                        if k < fs.len() {
                            assert(grown[k] == fs[k]);
                        }
                    }
                }
                pos = next;
            },
            None => {
                proof {
                    lemma_fliers_stop(s@, at as int, i as nat, n as nat);
                }
                return None;
            },
        }
        i = i + 1;
    }
    Some((out, pos))
}

fn read_column(s: &[u8], at: usize) -> (r: Option<((i32, i32), usize)>)
    ensures
        r matches Some((c, next)) ==> column_at(s@, at as int) == Some((c, next as int)),
        r is None <==> column_at(s@, at as int) is None,
{
    let (x, a1) = match read_i32(s, at) {
        Some(v) => v,
        None => return None,
    };
    let (z, a2) = match read_i32(s, a1) {
        Some(v) => v,
        None => return None,
    };
    Some(((x, z), a2))
}

fn read_columns(s: &[u8], at: usize, n: u32) -> (r: Option<(Vec<(i32, i32)>, usize)>)
    ensures
        r matches Some((v, next)) ==> columns_at(s@, at as int, n as nat) == Some((v@, next as int)),
        r is None <==> columns_at(s@, at as int, n as nat) is None,
{
    let mut out: Vec<(i32, i32)> = Vec::new();
    let mut pos = at;
    let mut i: u32 = 0;
    while i < n
        invariant
            i <= n,
            columns_at(s@, at as int, i as nat) == Some((out@, pos as int)),
        decreases n - i,
    {
        match read_column(s, pos) {
            Some((c, next)) => {
                out.push(c);
                pos = next;
            },
            None => {
                proof {
                    lemma_columns_stop(s@, at as int, i as nat, n as nat);
                }
                return None;
            },
        }
        i = i + 1;
    }
    Some((out, pos))
}

fn read_hits(s: &[u8], at: usize, n: u32) -> (r: Option<(Vec<((i32, i32), (i32, i32))>, usize)>)
    ensures
        r matches Some((v, next)) ==> hits_at(s@, at as int, n as nat) == Some((v@, next as int)),
        r is None <==> hits_at(s@, at as int, n as nat) is None,
{
    let mut out: Vec<((i32, i32), (i32, i32))> = Vec::new();
    let mut pos = at;
    let mut i: u32 = 0;
    while i < n
        invariant
            i <= n,
            hits_at(s@, at as int, i as nat) == Some((out@, pos as int)),
        decreases n - i,
    {
        let (c, a1) = match read_column(s, pos) {
            Some(x) => x,
            None => {
                proof {
                    lemma_hits_stop(s@, at as int, i as nat, n as nat);
                }
                return None;
            },
        };
        let (d, a2) = match read_column(s, a1) {
            Some(x) => x,
            None => {
                proof {
                    lemma_hits_stop(s@, at as int, i as nat, n as nat);
                }
                return None;
            },
        };
        out.push((c, d));
        pos = a2;
        i = i + 1;
    }
    Some((out, pos))
}

/// Whether a survey is the one the file describes.
pub open spec fn survey_matches(v: SurveySnapshot, f: SurveyFile) -> bool {
    &&& v.sector == f.sector
    &&& v.covered@ == f.covered
    &&& v.hits@ == f.hits
    &&& v.complete == f.complete
}

fn read_survey(s: &[u8], at: usize) -> (r: Option<(SurveySnapshot, usize)>)
    ensures
        r matches Some((v, next)) ==> (survey_at(s@, at as int) matches Some((f, end)) && end == next
            && survey_matches(v, f)),
        r is None <==> survey_at(s@, at as int) is None,
{
    let (x, a1) = match read_i32(s, at) {
        Some(v) => v,
        None => return None,
    };
    let (z, a2) = match read_i32(s, a1) {
        Some(v) => v,
        None => return None,
    };
    let (complete, a3) = match read_u8(s, a2) {
        Some(v) => v,
        None => return None,
    };
    let (n, a4) = match read_u32(s, a3) {
        Some(v) => v,
        None => return None,
    };
    if n > MAX_COLUMNS {
        return None;
    }
    let (covered, a5) = match read_columns(s, a4, n) {
        Some(v) => v,
        None => return None,
    };
    let (m, a6) = match read_u32(s, a5) {
        Some(v) => v,
        None => return None,
    };
    if m > MAX_COLUMNS {
        return None;
    }
    let (hits, a7) = match read_hits(s, a6, m) {
        Some(v) => v,
        None => return None,
    };
    Some((SurveySnapshot { sector: Sector { x, z }, covered, hits, complete: complete != 0 }, a7))
}

fn read_surveys(s: &[u8], at: usize, n: u32) -> (r: Option<(Vec<SurveySnapshot>, usize)>)
    ensures
        r matches Some((v, next)) ==> (surveys_at(s@, at as int, n as nat) matches Some((fs, end))
            && end == next && v@.len() == fs.len() && forall|i: int|
            0 <= i < fs.len() ==> survey_matches(#[trigger] v@[i], fs[i])),
        r is None <==> surveys_at(s@, at as int, n as nat) is None,
{
    let mut out: Vec<SurveySnapshot> = Vec::new();
    let mut pos = at;
    let mut i: u32 = 0;
    while i < n
        invariant
            i <= n,
            surveys_at(s@, at as int, i as nat) matches Some((fs, end)) && end == pos && out@.len()
                == fs.len() && forall|k: int| 0 <= k < fs.len() ==> survey_matches(#[trigger] out@[k], fs[k]),
        decreases n - i,
    {
        let ghost fs = surveys_at(s@, at as int, i as nat).unwrap().0;
        match read_survey(s, pos) {
            Some((v, next)) => {
                let ghost f = survey_at(s@, pos as int).unwrap().0;
                out.push(v);
                proof {
                    let grown = fs.push(f);
                    assert(surveys_at(s@, at as int, (i + 1) as nat) == Some((grown, next as int)));
                    assert forall|k: int| 0 <= k < grown.len() implies survey_matches(#[trigger] out@[k], grown[k]) by {
                        if k < fs.len() {
                            assert(grown[k] == fs[k]);
                        }
                    }
                }
                pos = next;
            },
            None => {
                proof {
                    lemma_surveys_stop(s@, at as int, i as nat, n as nat);
                }
                return None;
            },
        }
        i = i + 1;
    }
    Some((out, pos))
}

/// Whether an air side is the one the file describes: the fliers, the reach
/// and the surveys, with no base and nothing waiting for a container, since
/// those are the pile's.
pub open spec fn air_matches(a: FleetSnapshot, f: AirFile) -> bool {
    &&& a.scan_depth == f.scan_depth
    &&& a.controlled == widened(f.controlled)
    &&& a.fliers@.len() == f.fliers.len()
    &&& forall|i: int| 0 <= i < f.fliers.len() ==> flier_matches(#[trigger] a.fliers@[i], f.fliers[i])
    &&& a.surveys@.len() == f.surveys.len()
    &&& forall|i: int| 0 <= i < f.surveys.len() ==> survey_matches(#[trigger] a.surveys@[i], f.surveys[i])
    &&& a.base is None
    &&& a.orphan@.len() == 0
}

/// Read `fleet.dat`: `None` for a damaged file, `Some(None)` for a version
/// this build does not know, otherwise the air side.
pub fn read(s: &[u8]) -> (r: Option<Option<FleetSnapshot>>)
    ensures
        r is None <==> fleet_at(s@) is None,
        (r matches Some(None)) <==> (fleet_at(s@) matches Some(None)),
        r matches Some(Some(a)) ==> (fleet_at(s@) matches Some(Some(f)) && air_matches(a, f)),
{
    if !tag_at(s, 0, &MAGIC) {
        return None;
    }
    let (version, a0) = match read_u32(s, 4) {
        Some(x) => x,
        None => return None,
    };
    if version != VERSION {
        return Some(None);
    }
    let (scan_depth, b0) = match read_i32(s, a0) {
        Some(x) => x,
        None => return None,
    };
    let (controlled, a1) = match read_opt_u32(s, b0) {
        Some(x) => x,
        None => return None,
    };
    if !(0 <= scan_depth && scan_depth <= MAX_SCAN_DEPTH) {
        return None;
    }
    let (count, a2) = match read_u32(s, a1) {
        Some(x) => x,
        None => return None,
    };
    if count > MAX_FLIERS {
        return None;
    }
    let (fliers, a3) = match read_fliers(s, a2, count) {
        Some(x) => x,
        None => return None,
    };
    let (surveys_n, a4) = match read_u32(s, a3) {
        Some(x) => x,
        None => return None,
    };
    if surveys_n > MAX_SURVEYS {
        return None;
    }
    let (surveys, _) = match read_surveys(s, a4, surveys_n) {
        Some(x) => x,
        None => return None,
    };
    let stick = match controlled {
        Some(c) => {
            if c as usize >= fliers.len() {
                return None;
            }
            Some(c as usize)
        },
        None => None,
    };
    Some(
        Some(
            FleetSnapshot {
                fliers,
                base: None,
                scan_depth,
                surveys,
                controlled: stick,
                orphan: Stockpile::new(),
            },
        ),
    )
}

// ---- writing, in code ----

/// A flier as the file carries it.
pub open spec fn flier_file(f: Flier) -> FlierFile {
    FlierFile {
        position: f.position,
        previous_position: f.previous_position,
        state: f.state,
        cargo: f.cargo@,
        capacity: f.capacity,
    }
}

/// A survey as the file carries it.
pub open spec fn survey_file(v: SurveySnapshot) -> SurveyFile {
    SurveyFile { sector: v.sector, covered: v.covered@, hits: v.hits@, complete: v.complete }
}

/// What `fleet.dat` carries of an air side.
pub open spec fn air_file(a: FleetSnapshot) -> AirFile {
    AirFile {
        scan_depth: a.scan_depth,
        controlled: narrowed(a.controlled),
        fliers: a.fliers@.map_values(|f: Flier| flier_file(f)),
        surveys: a.surveys@.map_values(|v: SurveySnapshot| survey_file(v)),
    }
}

fn put_flier_state(out: &mut Vec<u8>, st: FlierState)
    ensures
        final(out)@ == old(out)@ + flier_state_bytes(st),
{
    let ghost start = out@;
    match st {
        FlierState::Idle => put_u8(out, 0),
        FlierState::Scanning { sector, waypoint } => {
            put_u8(out, 1);
            put_i32(out, sector.x);
            put_i32(out, sector.z);
            put_u64(out, waypoint as u64);
        },
        FlierState::ToPickup { mine } => {
            put_u8(out, 2);
            put_u64(out, mine as u64);
        },
        FlierState::ToBase => put_u8(out, 3),
        FlierState::Manual => put_u8(out, 4),
        FlierState::Lost => put_u8(out, 5),
    }
    assert(out@ =~= start + flier_state_bytes(st));
}

fn put_flier(out: &mut Vec<u8>, f: &Flier)
    requires
        pile_writable(f.cargo),
    ensures
        final(out)@ == old(out)@ + flier_bytes(flier_file(*f)),
{
    let ghost start = out@;
    put_pos(out, f.position);
    put_pos(out, f.previous_position);
    put_flier_state(out, f.state);
    put_pile(out, &f.cargo);
    put_u64(out, f.capacity);
    assert(out@ =~= start + flier_bytes(flier_file(*f)));
}

fn put_fliers(out: &mut Vec<u8>, fliers: &Vec<Flier>)
    requires
        forall|i: int| 0 <= i < fliers@.len() ==> pile_writable(#[trigger] fliers@[i].cargo),
    ensures
        final(out)@ == old(out)@ + fliers_bytes(fliers@.map_values(|f: Flier| flier_file(f))),
{
    let ghost start = out@;
    let ghost files = fliers@.map_values(|f: Flier| flier_file(f));
    let mut k: usize = 0;
    while k < fliers.len()
        invariant
            k <= fliers@.len(),
            files == fliers@.map_values(|f: Flier| flier_file(f)),
            forall|i: int| 0 <= i < fliers@.len() ==> pile_writable(#[trigger] fliers@[i].cargo),
            out@ == start + fliers_bytes(files.take(k as int)),
        decreases fliers@.len() - k,
    {
        proof {
            assert(files.take(k + 1).drop_last() =~= files.take(k as int));
            assert(files.take(k + 1).last() == flier_file(fliers@[k as int]));
        }
        put_flier(out, &fliers[k]);
        k = k + 1;
        assert(out@ =~= start + fliers_bytes(files.take(k as int)));
    }
    assert(files.take(k as int) =~= files);
}

fn put_columns(out: &mut Vec<u8>, cs: &Vec<(i32, i32)>)
    ensures
        final(out)@ == old(out)@ + columns_bytes(cs@),
{
    let ghost start = out@;
    let mut k: usize = 0;
    while k < cs.len()
        invariant
            k <= cs@.len(),
            out@ == start + columns_bytes(cs@.take(k as int)),
        decreases cs@.len() - k,
    {
        proof {
            assert(cs@.take(k + 1).drop_last() =~= cs@.take(k as int));
            assert(cs@.take(k + 1).last() == cs@[k as int]);
        }
        put_i32(out, cs[k].0);
        put_i32(out, cs[k].1);
        k = k + 1;
        assert(out@ =~= start + columns_bytes(cs@.take(k as int)));
    }
    assert(cs@.take(k as int) =~= cs@);
}

fn put_hits(out: &mut Vec<u8>, hs: &Vec<((i32, i32), (i32, i32))>)
    ensures
        final(out)@ == old(out)@ + hits_bytes(hs@),
{
    let ghost start = out@;
    let mut k: usize = 0;
    while k < hs.len()
        invariant
            k <= hs@.len(),
            out@ == start + hits_bytes(hs@.take(k as int)),
        decreases hs@.len() - k,
    {
        proof {
            assert(hs@.take(k + 1).drop_last() =~= hs@.take(k as int));
            assert(hs@.take(k + 1).last() == hs@[k as int]);
        }
        let h = hs[k];
        put_i32(out, (h.0).0);
        put_i32(out, (h.0).1);
        put_i32(out, (h.1).0);
        put_i32(out, (h.1).1);
        k = k + 1;
        assert(out@ =~= start + hits_bytes(hs@.take(k as int)));
    }
    assert(hs@.take(k as int) =~= hs@);
}

fn put_survey(out: &mut Vec<u8>, v: &SurveySnapshot)
    ensures
        final(out)@ == old(out)@ + survey_bytes(survey_file(*v)),
{
    let ghost start = out@;
    put_i32(out, v.sector.x);
    put_i32(out, v.sector.z);
    put_u8(out, if v.complete { 1 } else { 0 });
    put_u32(out, v.covered.len() as u32);
    put_columns(out, &v.covered);
    put_u32(out, v.hits.len() as u32);
    put_hits(out, &v.hits);
    assert(out@ =~= start + survey_bytes(survey_file(*v)));
}

fn put_surveys(out: &mut Vec<u8>, surveys: &Vec<SurveySnapshot>)
    ensures
        final(out)@ == old(out)@ + surveys_bytes(surveys@.map_values(|v: SurveySnapshot| survey_file(v))),
{
    let ghost start = out@;
    let ghost files = surveys@.map_values(|v: SurveySnapshot| survey_file(v));
    let mut k: usize = 0;
    while k < surveys.len()
        invariant
            k <= surveys@.len(),
            files == surveys@.map_values(|v: SurveySnapshot| survey_file(v)),
            out@ == start + surveys_bytes(files.take(k as int)),
        decreases surveys@.len() - k,
    {
        proof {
            assert(files.take(k + 1).drop_last() =~= files.take(k as int));
            assert(files.take(k + 1).last() == survey_file(surveys@[k as int]));
        }
        put_survey(out, &surveys[k]);
        k = k + 1;
        assert(out@ =~= start + surveys_bytes(files.take(k as int)));
    }
    assert(files.take(k as int) =~= files);
}

/// Write `fleet.dat`: the scanner's reach, who has the stick, the fliers and
/// every survey, in the order the snapshot holds them.
pub fn save(a: &FleetSnapshot) -> (bytes: Vec<u8>)
    requires
        forall|i: int| 0 <= i < a.fliers@.len() ==> pile_writable(#[trigger] a.fliers@[i].cargo),
    ensures
        bytes@ == fleet_bytes(air_file(*a)),
{
    let ghost f = air_file(*a);
    let mut out: Vec<u8> = Vec::new();
    put_tag(&mut out, &MAGIC);
    put_u32(&mut out, VERSION);
    put_i32(&mut out, a.scan_depth);
    put_opt_u32(
        &mut out,
        match a.controlled {
            Some(c) => Some(c as u32),
            None => None,
        },
    );
    put_u32(&mut out, a.fliers.len() as u32);
    let ghost head = out@;
    put_fliers(&mut out, &a.fliers);
    put_u32(&mut out, a.surveys.len() as u32);
    put_surveys(&mut out, &a.surveys);
    proof {
        assert(f.fliers.len() == a.fliers@.len());
        assert(f.surveys.len() == a.surveys@.len());
        vstd::seq_lib::lemma_concat_associative(head, fliers_bytes(f.fliers), u32_bytes(f.surveys.len() as u32));
    }
    assert(out@ =~= fleet_bytes(f));
    out
}

// ---- what is written reads back ----

proof fn lemma_flier_state_round_trip(s: Seq<u8>, at: int, st: FlierState)
    requires
        stands_at(s, at, flier_state_bytes(st)),
    ensures
        flier_state_at(s, at) == Some((st, at + flier_state_bytes(st).len())),
{
    let w = flier_state_bytes(st);
    assert(s[at] == w[0]) by {
        assert(s.subrange(at, at + w.len())[0] == s[at]);
    }
    match st {
        FlierState::Scanning { sector, waypoint } => {
            let a = seq![1u8];
            let b = i32_bytes(sector.x);
            let c = i32_bytes(sector.z);
            let d = u64_bytes(waypoint as u64);
            lemma_u32_bytes_len(sector.x as u32);
            lemma_u32_bytes_len(sector.z as u32);
            lemma_u64_bytes_len(waypoint as u64);
            lemma_stands_split(s, at, a + b + c, d);
            lemma_stands_split(s, at, a + b, c);
            lemma_stands_split(s, at, a, b);
            lemma_i32_round_trip(s, at + 1, sector.x);
            lemma_i32_round_trip(s, at + 5, sector.z);
            lemma_u64_round_trip(s, at + 9, waypoint as u64);
        },
        FlierState::ToPickup { mine } => {
            lemma_u64_bytes_len(mine as u64);
            lemma_stands_split(s, at, seq![2u8], u64_bytes(mine as u64));
            lemma_u64_round_trip(s, at + 1, mine as u64);
        },
        _ => {},
    }
}

/// A flier the file can carry and read back as itself.
pub open spec fn flier_ok(f: FlierFile) -> bool {
    &&& f.cargo.len() <= MAX_ROWS
    &&& names_fit(f.cargo, MAX_NAME)
    &&& f.capacity <= MAX_CAPACITY
}

proof fn lemma_flier_round_trip(s: Seq<u8>, at: int, f: FlierFile)
    requires
        stands_at(s, at, flier_bytes(f)),
        flier_ok(f),
    ensures
        flier_at(s, at) == Some((f, at + flier_bytes(f).len())),
{
    let p1 = pos_bytes(f.position);
    let p2 = pos_bytes(f.previous_position);
    let p3 = flier_state_bytes(f.state);
    let p4 = pile_bytes(f.cargo);
    let p5 = u64_bytes(f.capacity);
    lemma_pos_bytes_len(f.position);
    lemma_pos_bytes_len(f.previous_position);
    lemma_u64_bytes_len(f.capacity);
    lemma_stands_split(s, at, p1 + p2 + p3 + p4, p5);
    lemma_stands_split(s, at, p1 + p2 + p3, p4);
    lemma_stands_split(s, at, p1 + p2, p3);
    lemma_stands_split(s, at, p1, p2);
    lemma_pos_round_trip(s, at, f.position);
    lemma_pos_round_trip(s, at + 12, f.previous_position);
    lemma_flier_state_round_trip(s, at + 24, f.state);
    let a1 = at + 24 + p3.len();
    lemma_pile_round_trip(s, a1, f.cargo, MAX_ROWS, MAX_NAME);
    lemma_u64_round_trip(s, a1 + p4.len(), f.capacity);
}

proof fn lemma_fliers_round_trip(s: Seq<u8>, at: int, fs: Seq<FlierFile>)
    requires
        stands_at(s, at, fliers_bytes(fs)),
        forall|i: int| 0 <= i < fs.len() ==> flier_ok(#[trigger] fs[i]),
    ensures
        fliers_at(s, at, fs.len()) == Some((fs, at + fliers_bytes(fs).len())),
    decreases fs.len(),
{
    if fs.len() > 0 {
        let front = fs.drop_last();
        lemma_stands_split(s, at, fliers_bytes(front), flier_bytes(fs.last()));
        assert forall|i: int| 0 <= i < front.len() implies flier_ok(#[trigger] front[i]) by {
            assert(front[i] == fs[i]);
        }
        lemma_fliers_round_trip(s, at, front);
        assert(fs[fs.len() - 1] == fs.last());
        lemma_flier_round_trip(s, at + fliers_bytes(front).len(), fs.last());
        assert(front.push(fs.last()) =~= fs);
    }
}

proof fn lemma_column_round_trip(s: Seq<u8>, at: int, c: (i32, i32))
    requires
        stands_at(s, at, column_bytes(c)),
    ensures
        column_at(s, at) == Some((c, at + 8)),
        column_bytes(c).len() == 8,
{
    lemma_u32_bytes_len(c.0 as u32);
    lemma_u32_bytes_len(c.1 as u32);
    lemma_stands_split(s, at, i32_bytes(c.0), i32_bytes(c.1));
    lemma_i32_round_trip(s, at, c.0);
    lemma_i32_round_trip(s, at + 4, c.1);
}

proof fn lemma_columns_round_trip(s: Seq<u8>, at: int, cs: Seq<(i32, i32)>)
    requires
        stands_at(s, at, columns_bytes(cs)),
    ensures
        columns_at(s, at, cs.len()) == Some((cs, at + columns_bytes(cs).len())),
    decreases cs.len(),
{
    if cs.len() > 0 {
        let front = cs.drop_last();
        lemma_stands_split(s, at, columns_bytes(front), column_bytes(cs.last()));
        lemma_columns_round_trip(s, at, front);
        lemma_column_round_trip(s, at + columns_bytes(front).len(), cs.last());
        assert(front.push(cs.last()) =~= cs);
    }
}

proof fn lemma_hits_round_trip(s: Seq<u8>, at: int, hs: Seq<((i32, i32), (i32, i32))>)
    requires
        stands_at(s, at, hits_bytes(hs)),
    ensures
        hits_at(s, at, hs.len()) == Some((hs, at + hits_bytes(hs).len())),
    decreases hs.len(),
{
    if hs.len() > 0 {
        let front = hs.drop_last();
        let h = hs.last();
        lemma_stands_split(s, at, hits_bytes(front), hit_bytes(h));
        lemma_hits_round_trip(s, at, front);
        let p = at + hits_bytes(front).len();
        lemma_stands_split(s, p, column_bytes(h.0), column_bytes(h.1));
        lemma_column_round_trip(s, p, h.0);
        lemma_column_round_trip(s, p + 8, h.1);
        assert(front.push(h) =~= hs);
    }
}

/// A survey the file can carry and read back as itself.
pub open spec fn survey_ok(v: SurveyFile) -> bool {
    v.covered.len() <= MAX_COLUMNS && v.hits.len() <= MAX_COLUMNS
}

proof fn lemma_survey_round_trip(s: Seq<u8>, at: int, v: SurveyFile)
    requires
        stands_at(s, at, survey_bytes(v)),
        survey_ok(v),
    ensures
        survey_at(s, at) == Some((v, at + survey_bytes(v).len())),
{
    let p1 = i32_bytes(v.sector.x);
    let p2 = i32_bytes(v.sector.z);
    let p3 = seq![if v.complete { 1u8 } else { 0u8 }];
    let p4 = u32_bytes(v.covered.len() as u32);
    let p5 = columns_bytes(v.covered);
    let p6 = u32_bytes(v.hits.len() as u32);
    let p7 = hits_bytes(v.hits);
    lemma_u32_bytes_len(v.sector.x as u32);
    lemma_u32_bytes_len(v.sector.z as u32);
    lemma_u32_bytes_len(v.covered.len() as u32);
    lemma_u32_bytes_len(v.hits.len() as u32);
    lemma_stands_split(s, at, p1 + p2 + p3 + p4 + p5 + p6, p7);
    lemma_stands_split(s, at, p1 + p2 + p3 + p4 + p5, p6);
    lemma_stands_split(s, at, p1 + p2 + p3 + p4, p5);
    lemma_stands_split(s, at, p1 + p2 + p3, p4);
    lemma_stands_split(s, at, p1 + p2, p3);
    lemma_stands_split(s, at, p1, p2);
    lemma_i32_round_trip(s, at, v.sector.x);
    lemma_i32_round_trip(s, at + 4, v.sector.z);
    assert(s[at + 8] == p3[0]) by {
        assert(s.subrange(at + 8, at + 9)[0] == s[at + 8]);
    }
    lemma_u32_round_trip(s, at + 9, v.covered.len() as u32);
    lemma_columns_round_trip(s, at + 13, v.covered);
    let a2 = at + 13 + p5.len();
    lemma_u32_round_trip(s, a2, v.hits.len() as u32);
    lemma_hits_round_trip(s, a2 + 4, v.hits);
}

proof fn lemma_surveys_round_trip(s: Seq<u8>, at: int, vs: Seq<SurveyFile>)
    requires
        stands_at(s, at, surveys_bytes(vs)),
        forall|i: int| 0 <= i < vs.len() ==> survey_ok(#[trigger] vs[i]),
    ensures
        surveys_at(s, at, vs.len()) == Some((vs, at + surveys_bytes(vs).len())),
    decreases vs.len(),
{
    if vs.len() > 0 {
        let front = vs.drop_last();
        lemma_stands_split(s, at, surveys_bytes(front), survey_bytes(vs.last()));
        assert forall|i: int| 0 <= i < front.len() implies survey_ok(#[trigger] front[i]) by {
            assert(front[i] == vs[i]);
        }
        lemma_surveys_round_trip(s, at, front);
        assert(vs[vs.len() - 1] == vs.last());
        lemma_survey_round_trip(s, at + surveys_bytes(front).len(), vs.last());
        assert(front.push(vs.last()) =~= vs);
    }
}

/// An air side the file can carry and read back as itself.
pub open spec fn air_ok(f: AirFile) -> bool {
    &&& 0 <= f.scan_depth <= MAX_SCAN_DEPTH
    &&& f.fliers.len() <= MAX_FLIERS
    &&& forall|i: int| 0 <= i < f.fliers.len() ==> flier_ok(#[trigger] f.fliers[i])
    &&& f.surveys.len() <= MAX_SURVEYS
    &&& forall|i: int| 0 <= i < f.surveys.len() ==> survey_ok(#[trigger] f.surveys[i])
    &&& f.controlled matches Some(c) ==> c < f.fliers.len()
}

/// **A fleet round-trips**: `fleet.dat` as written reads back as the same
/// fliers, the same reach and every survey, for any air side the file can
/// carry.
pub proof fn lemma_fleet_round_trip(f: AirFile)
    requires
        air_ok(f),
    ensures
        fleet_at(fleet_bytes(f)) == Some(Some(f)),
{
    let s = fleet_bytes(f);
    let p1 = MAGIC@;
    let p2 = u32_bytes(VERSION);
    let p3 = i32_bytes(f.scan_depth);
    let p4 = opt_u32_bytes(f.controlled);
    let p5 = u32_bytes(f.fliers.len() as u32);
    let p6 = fliers_bytes(f.fliers);
    let p7 = u32_bytes(f.surveys.len() as u32);
    let p8 = surveys_bytes(f.surveys);
    lemma_u32_bytes_len(VERSION);
    lemma_u32_bytes_len(f.scan_depth as u32);
    lemma_u32_bytes_len(f.fliers.len() as u32);
    lemma_u32_bytes_len(f.surveys.len() as u32);
    assert(stands_at(s, 0, s)) by {
        assert(s.subrange(0, s.len() as int) =~= s);
    }
    lemma_stands_split(s, 0, p1 + p2 + p3 + p4 + p5 + p6 + p7, p8);
    lemma_stands_split(s, 0, p1 + p2 + p3 + p4 + p5 + p6, p7);
    lemma_stands_split(s, 0, p1 + p2 + p3 + p4 + p5, p6);
    lemma_stands_split(s, 0, p1 + p2 + p3 + p4, p5);
    lemma_stands_split(s, 0, p1 + p2 + p3, p4);
    lemma_stands_split(s, 0, p1 + p2, p3);
    lemma_stands_split(s, 0, p1, p2);
    lemma_u32_round_trip(s, 4, VERSION);
    lemma_i32_round_trip(s, 8, f.scan_depth);
    lemma_opt_u32_round_trip(s, 12, f.controlled);
    let a1: int = 12 + p4.len() as int;
    lemma_u32_round_trip(s, a1, f.fliers.len() as u32);
    lemma_fliers_round_trip(s, a1 + 4, f.fliers);
    let a3: int = a1 + 4 + p6.len() as int;
    lemma_u32_round_trip(s, a3, f.surveys.len() as u32);
    lemma_surveys_round_trip(s, a3 + 4, f.surveys);
}

/// The survey the file holds for `sector`: the last one naming it.
pub open spec fn survey_file_in(fs: Seq<SurveyFile>, sector: Sector) -> Option<SurveyFile>
    decreases fs.len(),
{
    if fs.len() == 0 {
        None
    } else if fs.last().sector == sector {
        Some(fs.last())
    } else {
        survey_file_in(fs.drop_last(), sector)
    }
}

/// Whether a survey read from a file is the one the file holds.
spec fn survey_read(got: Option<SurveySnapshot>, want: Option<SurveyFile>) -> bool {
    match (got, want) {
        (Some(v), Some(f)) => survey_matches(v, f),
        (None, None) => true,
        _ => false,
    }
}

/// Whether a fleet's survey of a sector is the one the file holds for it, as
/// the fleet keeps it: its columns as a set, its findings as a map from
/// column with the last finding for each.
pub open spec fn survey_restored(got: Option<SurveySnapshot>, want: Option<SurveyFile>) -> bool {
    match (got, want) {
        (Some(v), Some(f)) => survey_view(v) == (f.sector, column_set(f.covered), hit_map(f.hits), f.complete),
        (None, None) => true,
        _ => false,
    }
}

proof fn lemma_surveys_restored(a: Seq<SurveySnapshot>, f: Seq<SurveyFile>, sector: Sector)
    requires
        a.len() == f.len(),
        forall|i: int| 0 <= i < f.len() ==> survey_matches(#[trigger] a[i], f[i]),
    ensures
        survey_read(survey_in(a, sector), survey_file_in(f, sector)),
    decreases a.len(),
{
    if a.len() > 0 {
        assert(survey_matches(a[a.len() - 1], f[f.len() - 1]));
        assert forall|i: int| 0 <= i < f.drop_last().len() implies survey_matches(
            #[trigger] a.drop_last()[i],
            f.drop_last()[i],
        ) by {
            assert(survey_matches(a[i], f[i]));
        }
        lemma_surveys_restored(a.drop_last(), f.drop_last(), sector);
    }
}

/// A file's bytes, if there is a file.
pub open spec fn file_view(file: Option<&[u8]>) -> Option<Seq<u8>> {
    match file {
        Some(s) => Some(s@),
        None => None,
    }
}

/// What loading `fleet.dat` makes of a fleet's air side: a file that reads
/// gives back its scanner reach, who has the stick (nobody's task stashed),
/// its fliers, and every survey as the fleet keeps it; no file, a damaged
/// file, or one of another version leaves the air side as it was.
pub open spec fn air_restored(before: Fleet, after: Fleet, file: Option<Seq<u8>>) -> bool {
    match file {
        None => same_air(after, before),
        Some(s) => match fleet_at(s) {
            Some(Some(f)) => {
                &&& after.depth() == f.scan_depth
                &&& after.stick() == widened(f.controlled)
                &&& after.stash() is None
                &&& after.flier_list().len() == f.fliers.len()
                &&& forall|i: int| 0 <= i < f.fliers.len() ==> flier_matches(#[trigger] after.flier_list()[i], f.fliers[i])
                &&& forall|sector: Sector|
                    #![trigger survey_in(after.survey_list(), sector)]
                    survey_restored(survey_in(after.survey_list(), sector), survey_file_in(f.surveys, sector))
            },
            _ => same_air(after, before),
        },
    }
}

/// Take what a saved `fleet.dat` says of the air side, restoring it around
/// the base and the goods waiting for a container, which are the pile's and
/// stay as they are. Damage is reported so the caller can say so.
pub fn load(fleet: &mut Fleet, file: Option<&[u8]>) -> (damaged: bool)
    ensures
        final(fleet).base_of() == old(fleet).base_of(),
        final(fleet).held_back() == old(fleet).held_back(),
        damaged <==> (file matches Some(s) && fleet_at(s@) is None),
        air_restored(*old(fleet), *final(fleet), file_view(file)),
{
    match file {
        None => false,
        Some(s) => match read(s) {
            None => true,
            Some(None) => false,
            Some(Some(air)) => {
                let ghost got = air;
                fleet.restore_around(air);
                proof {
                    let f = fleet_at(s@)->Some_0->Some_0;
                    assert forall|sector: Sector| #[trigger]
                        survey_restored(survey_in(fleet.survey_list(), sector), survey_file_in(f.surveys, sector)) by {
                        lemma_surveys_restored(got.surveys@, f.surveys, sector);
                        assert(tidied_from(survey_in(fleet.survey_list(), sector), survey_in(got.surveys@, sector)));
                    }
                }
                false
            },
        },
    }
}

} // verus!
