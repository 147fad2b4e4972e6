//! The air side as plain data: fliers, what the scanner has swept, and what
//! a fleet tick achieved.
use vstd::prelude::*;

use crate::columns::{
    column_set, column_set_of, columns_in_order, hit_map, hit_map_of, hits_in_order, insert_column, insert_hit,
    lemma_column_set_of_tidy, lemma_hit_map_of_tidy, lemma_with_column_in_order, lemma_with_hit_in_order,
    with_column, with_hit,
};
use crate::geometry::BlockPos;
use crate::pile::Base;
use crate::stockpile::{
    capped, count_in, lemma_count_at, lemma_count_bounded, lemma_count_le_sum, lemma_sum_concat, rows_view,
    sum_in, Stockpile,
};

verus! {

/// A square of ground the scanner sweeps as one.
#[derive(Debug, Clone, Copy, PartialEq, Eq, Hash, Structural)]
pub struct Sector {
    pub x: i32,
    pub z: i32,
}

/// What a flier is doing.
#[derive(Debug, Clone, Copy, PartialEq, Eq, Structural)]
pub enum FlierState {
    Idle,
    /// Sweeping a sector, this far along its path.
    Scanning { sector: Sector, waypoint: usize },
    /// On its way to pick up from a mine.
    ToPickup { mine: usize },
    ToBase,
    Manual,
    /// Gone into a hillside, and kept so a reload does not resurrect it.
    Lost,
}

/// A flier, as plain data.
#[derive(Debug)]
pub struct Flier {
    pub position: BlockPos,
    pub previous_position: BlockPos,
    pub state: FlierState,
    pub cargo: Stockpile,
    pub capacity: u64,
}

/// What one fleet tick achieved.
#[derive(Debug, Clone, Copy, PartialEq, Eq, Structural)]
pub struct FleetReport {
    /// Blocks unloaded into the base this tick.
    pub delivered: u64,
    /// Sector sweeps that finished this tick.
    pub sectors_completed: u32,
    /// Pings known in the sectors that finished this tick.
    pub pings_found: u32,
}

impl Default for FleetReport {
    fn default() -> (r: FleetReport)
        ensures
            r == (FleetReport { delivered: 0, sectors_completed: 0, pings_found: 0 }),
    {
        FleetReport { delivered: 0, sectors_completed: 0, pings_found: 0 }
    }
}

/// One sector's survey, as plain data.
#[derive(Debug, Clone, PartialEq, Eq)]
pub struct SurveySnapshot {
    pub sector: Sector,
    /// Columns the scanner has covered.
    pub covered: Vec<(i32, i32)>,
    /// `(column, (depth, hover_y))` for every covered column with ore in it.
    pub hits: Vec<((i32, i32), (i32, i32))>,
    pub complete: bool,
}

/// The air side's whole persistent state, as plain data.
#[derive(Debug)]
pub struct FleetSnapshot {
    pub fliers: Vec<Flier>,
    pub base: Option<Base>,
    pub scan_depth: i32,
    pub surveys: Vec<SurveySnapshot>,
    pub controlled: Option<usize>,
    /// Goods waiting for a container: the pile's concern, not the air side's.
    pub orphan: Stockpile,
}

/// Whether sector `a` comes before `b`: by x, then by z.
pub open spec fn sector_before(a: Sector, b: Sector) -> bool {
    a.x < b.x || (a.x == b.x && a.z < b.z)
}

/// Surveys in strictly increasing sector order: one per sector.
pub open spec fn surveys_in_order(s: Seq<SurveySnapshot>) -> bool {
    forall|i: int, j: int| 0 <= i < j < s.len() ==> #[trigger] sector_before(s[i].sector, s[j].sector)
}

/// The survey of `sector`: the last entry that names it.
pub open spec fn survey_in(s: Seq<SurveySnapshot>, sector: Sector) -> Option<SurveySnapshot>
    decreases s.len(),
{
    if s.len() == 0 {
        None
    } else if s.last().sector == sector {
        Some(s.last())
    } else {
        survey_in(s.drop_last(), sector)
    }
}

proof fn lemma_survey_absent(s: Seq<SurveySnapshot>, sector: Sector)
    requires
        forall|i: int| 0 <= i < s.len() ==> #[trigger] s[i].sector != sector,
    ensures
        survey_in(s, sector) is None,
    decreases s.len(),
{
    if s.len() > 0 {
        lemma_survey_absent(s.drop_last(), sector);
    }
}

proof fn lemma_survey_at(s: Seq<SurveySnapshot>, i: int)
    requires
        surveys_in_order(s),
        0 <= i < s.len(),
    ensures
        survey_in(s, s[i].sector) == Some(s[i]),
    decreases s.len(),
{
    if i < s.len() - 1 {
        assert(sector_before(s[i].sector, s[s.len() - 1].sector));
        assert(s.drop_last()[i] == s[i]);
        lemma_survey_at(s.drop_last(), i);
    }
}

proof fn lemma_survey_concat(a: Seq<SurveySnapshot>, b: Seq<SurveySnapshot>, sector: Sector)
    ensures
        survey_in(a + b, sector) == if survey_in(b, sector) is Some {
            survey_in(b, sector)
        } else {
            survey_in(a, sector)
        },
    decreases b.len(),
{
    if b.len() == 0 {
        assert(a + b =~= a);
    } else {
        assert((a + b).drop_last() =~= a + b.drop_last());
        lemma_survey_concat(a, b.drop_last(), sector);
    }
}

proof fn lemma_survey_single(v: SurveySnapshot, sector: Sector)
    ensures
        survey_in(seq![v], sector) == if v.sector == sector {
            Some(v)
        } else {
            None
        },
{
    assert(seq![v].drop_last() =~= Seq::<SurveySnapshot>::empty());
    assert(seq![v].last() == v);
    assert(survey_in(Seq::<SurveySnapshot>::empty(), sector) is None);
}

/// Where `sector` is in surveys kept in order, or where it would go.
fn survey_position(list: &Vec<SurveySnapshot>, sector: Sector) -> (at: usize)
    ensures
        at <= list@.len(),
        forall|j: int| 0 <= j < at ==> #[trigger] sector_before(list@[j].sector, sector),
        at < list@.len() ==> !sector_before(list@[at as int].sector, sector),
{
    let mut i: usize = 0;
    while i < list.len() && (list[i].sector.x < sector.x || (list[i].sector.x == sector.x
        && list[i].sector.z < sector.z))
        invariant
            0 <= i <= list@.len(),
            forall|j: int| 0 <= j < i ==> #[trigger] sector_before(list@[j].sector, sector),
        decreases list@.len() - i,
    {
        i = i + 1;
    }
    i
}

/// Put a survey in its place, replacing the one of the same sector.
fn put_survey(list: &mut Vec<SurveySnapshot>, v: SurveySnapshot)
    requires
        surveys_in_order(old(list)@),
        surveys_tidy(old(list)@),
        survey_tidy(v),
    ensures
        surveys_in_order(final(list)@),
        surveys_tidy(final(list)@),
        forall|sector: Sector|
            #![trigger survey_in(final(list)@, sector)]
            survey_in(final(list)@, sector) == if sector == v.sector {
                Some(v)
            } else {
                survey_in(old(list)@, sector)
            },
{
    let ghost old_list = list@;
    let ghost vv = v;
    let at = survey_position(list, v.sector);
    if at < list.len() && list[at].sector.x == v.sector.x && list[at].sector.z == v.sector.z {
        list.set(at, v);
        proof {
            assert forall|j: int| 0 <= j < list@.len() implies #[trigger] survey_tidy(list@[j]) by {
                if j != at {
                    assert(list@[j] == old_list[j]);
                }
            }
            let before = old_list.take(at as int);
            let tail = old_list.skip(at + 1);
            assert(old_list =~= before + seq![old_list[at as int]] + tail);
            assert(list@ =~= before + seq![vv] + tail);
            assert forall|sector: Sector| #[trigger]
                survey_in(list@, sector) == if sector == vv.sector {
                    Some(vv)
                } else {
                    survey_in(old_list, sector)
                } by {
                lemma_survey_concat(before + seq![old_list[at as int]], tail, sector);
                lemma_survey_concat(before + seq![vv], tail, sector);
                lemma_survey_concat(before, seq![old_list[at as int]], sector);
                lemma_survey_concat(before, seq![vv], sector);
                lemma_survey_single(vv, sector);
                lemma_survey_single(old_list[at as int], sector);
                if sector == vv.sector {
                    assert forall|t: int| 0 <= t < tail.len() implies #[trigger] tail[t].sector != sector by {
                        assert(tail[t] == old_list[at + 1 + t]);
                        assert(sector_before(old_list[at as int].sector, old_list[at + 1 + t].sector));
                    }
                    lemma_survey_absent(tail, sector);
                }
            }
            assert forall|a: int, b: int| 0 <= a < b < list@.len() implies #[trigger] sector_before(
                list@[a].sector,
                list@[b].sector,
            ) by {
                assert(list@[a].sector == old_list[a].sector);
                assert(list@[b].sector == old_list[b].sector);
            }
        }
    } else {
        let ghost here_differs = at < old_list.len() ==> old_list[at as int].sector != vv.sector;
        assert(here_differs);
        list.insert(at, v);
        proof {
            assert forall|j: int| 0 <= j < list@.len() implies #[trigger] survey_tidy(list@[j]) by {
                if j < at {
                    assert(list@[j] == old_list[j]);
                } else if j > at {
                    assert(list@[j] == old_list[j - 1]);
                }
            }
            let before = old_list.take(at as int);
            let after = old_list.skip(at as int);
            assert(old_list =~= before + after);
            assert(list@ =~= before + seq![vv] + after);
            assert forall|j: int| 0 <= j < old_list.len() implies #[trigger] old_list[j].sector != vv.sector by {
                if j > at {
                    assert(sector_before(old_list[at as int].sector, old_list[j].sector));
                    assert(sector_before(vv.sector, old_list[at as int].sector));
                } else if j < at {
                    assert(sector_before(old_list[j].sector, vv.sector));
                }
            }
            assert forall|sector: Sector| #[trigger]
                survey_in(list@, sector) == if sector == vv.sector {
                    Some(vv)
                } else {
                    survey_in(old_list, sector)
                } by {
                lemma_survey_concat(before + seq![vv], after, sector);
                lemma_survey_concat(before, seq![vv], sector);
                lemma_survey_concat(before, after, sector);
                lemma_survey_single(vv, sector);
                if sector == vv.sector {
                    assert forall|t: int| 0 <= t < after.len() implies #[trigger] after[t].sector != sector by {
                        assert(after[t] == old_list[at + t]);
                    }
                    lemma_survey_absent(after, sector);
                }
            }
            assert forall|a: int, b: int| 0 <= a < b < list@.len() implies #[trigger] sector_before(
                list@[a].sector,
                list@[b].sector,
            ) by {
                if b < at {
                    assert(list@[a] == old_list[a] && list@[b] == old_list[b]);
                } else if b == at {
                    assert(list@[a] == old_list[a]);
                } else if a == at {
                    assert(list@[b] == old_list[b - 1]);
                    if b - 1 > at {
                        assert(sector_before(old_list[at as int].sector, old_list[b - 1].sector));
                    }
                } else if a < at {
                    assert(list@[a] == old_list[a] && list@[b] == old_list[b - 1]);
                } else {
                    assert(list@[a] == old_list[a - 1] && list@[b] == old_list[b - 1]);
                }
            }
        }
    }
}

/// A copy of a list of columns.
fn copy_columns(v: &Vec<(i32, i32)>) -> (c: Vec<(i32, i32)>)
    ensures
        c@ == v@,
{
    let mut c: Vec<(i32, i32)> = Vec::new();
    let mut i: usize = 0;
    while i < v.len()
        invariant
            i <= v@.len(),
            c@ == v@.take(i as int),
        decreases v@.len() - i,
    {
        c.push(v[i]);
        i = i + 1;
        assert(c@ =~= v@.take(i as int));
    }
    assert(v@.take(i as int) =~= v@);
    c
}

/// A copy of a list of hits.
fn copy_hits(v: &Vec<((i32, i32), (i32, i32))>) -> (c: Vec<((i32, i32), (i32, i32))>)
    ensures
        c@ == v@,
{
    let mut c: Vec<((i32, i32), (i32, i32))> = Vec::new();
    let mut i: usize = 0;
    while i < v.len()
        invariant
            i <= v@.len(),
            c@ == v@.take(i as int),
        decreases v@.len() - i,
    {
        c.push(v[i]);
        i = i + 1;
        assert(c@ =~= v@.take(i as int));
    }
    assert(v@.take(i as int) =~= v@);
    c
}

/// A survey as values: the sector, what was covered, what was hit, and
/// whether the sweep finished.
pub open spec fn survey_view(v: SurveySnapshot) -> (Sector, Seq<(i32, i32)>, Seq<((i32, i32), (i32, i32))>, bool) {
    (v.sector, v.covered@, v.hits@, v.complete)
}

/// Whether a survey keeps its columns, and its findings, once each in
/// column order: the way a set and a map of columns hold them.
pub open spec fn survey_tidy(v: SurveySnapshot) -> bool {
    columns_in_order(v.covered@) && hits_in_order(v.hits@)
}

/// Whether every survey in a list is tidy.
pub open spec fn surveys_tidy(s: Seq<SurveySnapshot>) -> bool {
    forall|i: int| 0 <= i < s.len() ==> #[trigger] survey_tidy(s[i])
}

/// A survey as the fleet keeps it: its columns as a set, and its findings as
/// a map from column in which a later finding replaces an earlier one.
pub open spec fn tidied(v: SurveySnapshot) -> (Sector, Seq<(i32, i32)>, Seq<((i32, i32), (i32, i32))>, bool) {
    (v.sector, column_set(v.covered@), hit_map(v.hits@), v.complete)
}

/// Whether `got` is `from` as the fleet keeps it, or both are absent.
pub open spec fn tidied_from(got: Option<SurveySnapshot>, from: Option<SurveySnapshot>) -> bool {
    match (got, from) {
        (Some(a), Some(b)) => survey_view(a) == tidied(b),
        (None, None) => true,
        _ => false,
    }
}

/// A survey the fleet already keeps is kept as it is: restoring a fleet from
/// its own snapshot gives back the same surveys.
pub proof fn lemma_tidy_survey_is_kept(v: SurveySnapshot)
    requires
        survey_tidy(v),
    ensures
        tidied(v) == survey_view(v),
{
    lemma_column_set_of_tidy(v.covered@);
    lemma_hit_map_of_tidy(v.hits@);
}

/// A survey as the fleet keeps it.
fn tidy_survey(v: SurveySnapshot) -> (t: SurveySnapshot)
    ensures
        survey_view(t) == tidied(v),
        survey_tidy(t),
        t.sector == v.sector,
{
    SurveySnapshot {
        sector: v.sector,
        covered: column_set_of(&v.covered),
        hits: hit_map_of(&v.hits),
        complete: v.complete,
    }
}

/// A flier as values.
pub open spec fn flier_view(f: Flier) -> (BlockPos, BlockPos, FlierState, Seq<(Seq<char>, u64)>, u64) {
    (f.position, f.previous_position, f.state, f.cargo@, f.capacity)
}

/// A copy of a survey.
pub fn copy_survey(v: &SurveySnapshot) -> (c: SurveySnapshot)
    ensures
        survey_view(c) == survey_view(*v),
{
    SurveySnapshot {
        sector: v.sector,
        covered: copy_columns(&v.covered),
        hits: copy_hits(&v.hits),
        complete: v.complete,
    }
}

/// A copy of a flier.
pub fn copy_flier(f: &Flier) -> (c: Flier)
    ensures
        flier_view(c) == flier_view(*f),
{
    Flier {
        position: f.position,
        previous_position: f.previous_position,
        state: f.state,
        cargo: f.cargo.clone(),
        capacity: f.capacity,
    }
}

/// A base as values: where it stands and what it holds.
pub open spec fn base_view(b: Option<Base>) -> Option<(BlockPos, Seq<(Seq<char>, u64)>)> {
    match b {
        Some(b) => Some((b.position, b.stockpile@)),
        None => None,
    }
}

/// How many of `k` a base holds; none without a base.
pub open spec fn base_count(b: Option<Base>, k: Seq<char>) -> nat {
    match b {
        Some(b) => b.stockpile.count_of(k),
        None => 0,
    }
}

/// Everything a base holds; nothing without a base.
pub open spec fn base_sum(b: Option<Base>) -> nat {
    match b {
        Some(b) => b.stockpile.sum(),
        None => 0,
    }
}

/// Pour goods into a pile, one row at a time.
fn pour(into: &mut Stockpile, goods: &Vec<(String, u64)>)
    ensures
        forall|k: Seq<char>|
            #![trigger final(into).count_of(k)]
            final(into).count_of(k) == capped((old(into).count_of(k) + count_in(rows_view(goods@), k)) as int) as nat,
        old(into).sum() + sum_in(rows_view(goods@)) <= u64::MAX ==> final(into).sum() == old(into).sum() + sum_in(
            rows_view(goods@),
        ),
{
    into.note_well_kept();
    let ghost rows = rows_view(goods@);
    let ghost start = *into;
    let mut i: usize = 0;
    proof {
        assert forall|k: Seq<char>| #[trigger] into.count_of(k) == capped((start.count_of(k) + count_in(rows.take(0), k)) as int) as nat by {
            assert(rows.take(0) =~= Seq::<(Seq<char>, u64)>::empty());
            lemma_count_bounded(start@, k);
        }
    }
    while i < goods.len()
        invariant
            i <= goods@.len(),
            rows == rows_view(goods@),
            rows.len() == goods@.len(),
            forall|k: Seq<char>|
                #![trigger into.count_of(k)]
                into.count_of(k) == capped((start.count_of(k) + count_in(rows.take(i as int), k)) as int) as nat,
            start.sum() + sum_in(rows) <= u64::MAX ==> into.sum() == start.sum() + sum_in(rows.take(i as int)),
        decreases goods@.len() - i,
    {
        proof {
            assert(rows.take(i + 1).drop_last() =~= rows.take(i as int));
            assert(rows.take(i + 1).last() == (goods@[i as int].0@, goods@[i as int].1));
            if start.sum() + sum_in(rows) <= u64::MAX {
                lemma_count_le_sum(into@, goods@[i as int].0@);
                lemma_sum_concat(rows.take(i + 1), rows.skip(i + 1));
                assert(rows.take(i + 1) + rows.skip(i + 1) =~= rows);
            }
        }
        into.add(goods[i].0.as_str(), goods[i].1);
        i = i + 1;
    }
    proof {
        assert(rows.take(i as int) =~= rows);
    }
}


/// The air side of the operation: the fliers, the base they ferry to, every
/// sector surveyed and what it found, the goods waiting for a container, and
/// which flier the player is flying.
#[derive(Debug)]
pub struct Fleet {
    fliers: Vec<Flier>,
    base: Option<Base>,
    /// How deep the scanner reads.
    scan_depth: i32,
    /// One per sector, in sector order.
    surveys: Vec<SurveySnapshot>,
    /// Goods from a broken container, waiting for the next one.
    orphan: Stockpile,
    controlled: Option<usize>,
    /// What the piloted flier was doing before the player took its stick.
    suspended: Option<FlierState>,
}

impl Fleet {
    #[verifier::type_invariant]
    closed spec fn surveys_kept_in_order(self) -> bool {
        surveys_in_order(self.surveys@) && surveys_tidy(self.surveys@)
    }

    /// The fliers, in the order they were added.
    pub closed spec fn flier_list(&self) -> Seq<Flier> {
        self.fliers@
    }

    /// The declared base, if there is one.
    pub closed spec fn base_of(&self) -> Option<Base> {
        self.base
    }

    /// How deep the scanner reads.
    pub closed spec fn depth(&self) -> i32 {
        self.scan_depth
    }

    /// Every survey, in sector order.
    pub closed spec fn survey_list(&self) -> Seq<SurveySnapshot> {
        self.surveys@
    }

    /// The goods waiting for a container.
    pub closed spec fn held_back(&self) -> Stockpile {
        self.orphan
    }

    /// Which flier the player is flying.
    pub closed spec fn stick(&self) -> Option<usize> {
        self.controlled
    }

    /// What the piloted flier was doing before the player took over.
    pub closed spec fn stash(&self) -> Option<FlierState> {
        self.suspended
    }

    /// Build a fleet back from a snapshot. A survey named twice keeps the
    /// later one. Nobody was flying anything before the snapshot was taken
    /// as far as the fleet knows, so nothing is stashed.
    pub fn restore(snapshot: FleetSnapshot) -> (fleet: Fleet)
        ensures
            fleet.flier_list() == snapshot.fliers@,
            fleet.base_of() == snapshot.base,
            fleet.depth() == snapshot.scan_depth,
            fleet.stick() == snapshot.controlled,
            fleet.held_back() == snapshot.orphan,
            fleet.stash() is None,
            forall|sector: Sector|
                #![trigger survey_in(fleet.survey_list(), sector)]
                tidied_from(survey_in(fleet.survey_list(), sector), survey_in(snapshot.surveys@, sector)),
    {
        let FleetSnapshot { fliers, base, scan_depth, surveys, controlled, orphan } = snapshot;
        let ghost all = surveys@;
        let mut rest = surveys;
        let n = rest.len();
        let mut list: Vec<SurveySnapshot> = Vec::new();
        let mut i: usize = 0;
        proof {
            assert(all.skip(0) =~= all);
            assert forall|sector: Sector| #[trigger] tidied_from(survey_in(list@, sector), survey_in(all.take(0), sector)) by {
                assert(all.take(0) =~= list@);
            }
        }
        while rest.len() > 0
            invariant
                i <= all.len(),
                all.len() == n,
                i + rest@.len() == all.len(),
                rest@ == all.skip(i as int),
                surveys_in_order(list@),
                surveys_tidy(list@),
                forall|sector: Sector|
                    #![trigger survey_in(list@, sector)]
                    tidied_from(survey_in(list@, sector), survey_in(all.take(i as int), sector)),
            decreases rest@.len(),
        {
            let raw = rest.remove(0);
            let ghost v = raw;
            let t = tidy_survey(raw);
            let ghost before = list@;
            let ghost tt = t;
            put_survey(&mut list, t);
            proof {
                assert(all.take(i + 1) =~= all.take(i as int) + seq![v]);
                assert forall|sector: Sector| #[trigger] tidied_from(survey_in(list@, sector), survey_in(all.take(i + 1), sector)) by {
                    lemma_survey_concat(all.take(i as int), seq![v], sector);
                    lemma_survey_single(v, sector);
                    assert(survey_in(list@, sector) == if sector == tt.sector {
                        Some(tt)
                    } else {
                        survey_in(before, sector)
                    });
                }
                assert(rest@ =~= all.skip(i + 1));
            }
            i = i + 1;
        }
        proof {
            assert(all.take(i as int) =~= all);
        }
        Fleet { fliers, base, scan_depth, surveys: list, orphan, controlled, suspended: None }
    }

    /// Everything about the air side that outlives a session, as plain data:
    /// the fliers, the base, how deep the scanner reaches, every survey in
    /// sector order, who has the stick, and the goods waiting for a container.
    pub fn snapshot(&self) -> (s: FleetSnapshot)
        ensures
            s.fliers@.len() == self.flier_list().len(),
            forall|i: int| 0 <= i < s.fliers@.len() ==> #[trigger] flier_view(s.fliers@[i]) == flier_view(self.flier_list()[i]),
            base_view(s.base) == base_view(self.base_of()),
            s.scan_depth == self.depth(),
            s.controlled == self.stick(),
            s.surveys@.len() == self.survey_list().len(),
            forall|i: int| 0 <= i < s.surveys@.len() ==> #[trigger] survey_view(s.surveys@[i]) == survey_view(self.survey_list()[i]),
            surveys_in_order(s.surveys@),
            surveys_tidy(s.surveys@),
            s.orphan@ == self.held_back()@,
    {
        proof {
            use_type_invariant(self);
        }
        let mut fliers: Vec<Flier> = Vec::new();
        let mut i: usize = 0;
        while i < self.fliers.len()
            invariant
                i <= self.fliers@.len(),
                fliers@.len() == i,
                forall|j: int| 0 <= j < i ==> #[trigger] flier_view(fliers@[j]) == flier_view(self.fliers@[j]),
            decreases self.fliers@.len() - i,
        {
            fliers.push(copy_flier(&self.fliers[i]));
            i = i + 1;
        }
        let mut surveys: Vec<SurveySnapshot> = Vec::new();
        let mut k: usize = 0;
        while k < self.surveys.len()
            invariant
                k <= self.surveys@.len(),
                surveys@.len() == k,
                forall|j: int| 0 <= j < k ==> #[trigger] survey_view(surveys@[j]) == survey_view(self.surveys@[j]),
            decreases self.surveys@.len() - k,
        {
            surveys.push(copy_survey(&self.surveys[k]));
            k = k + 1;
        }
        proof {
            assert forall|a: int, b: int| 0 <= a < b < surveys@.len() implies #[trigger] sector_before(
                surveys@[a].sector,
                surveys@[b].sector,
            ) by {
                assert(survey_view(surveys@[a]) == survey_view(self.surveys@[a]));
                assert(survey_view(surveys@[b]) == survey_view(self.surveys@[b]));
            }
            assert forall|a: int| 0 <= a < surveys@.len() implies #[trigger] survey_tidy(surveys@[a]) by {
                assert(survey_view(surveys@[a]) == survey_view(self.surveys@[a]));
                assert(survey_tidy(self.surveys@[a]));
            }
        }
        let base = match &self.base {
            Some(b) => Some(Base { position: b.position, stockpile: b.stockpile.clone() }),
            None => None,
        };
        FleetSnapshot {
            fliers,
            base,
            scan_depth: self.scan_depth,
            surveys,
            controlled: self.controlled,
            orphan: self.orphan.clone(),
        }
    }

    /// The fliers.
    pub fn fliers(&self) -> (fliers: &[Flier])
        ensures
            fliers@ == self.flier_list(),
    {
        self.fliers.as_slice()
    }

    /// The declared base, if there is one.
    pub fn base(&self) -> (base: &Option<Base>)
        ensures
            *base == self.base_of(),
    {
        &self.base
    }

    /// How deep the scanner reads.
    pub fn scan_depth(&self) -> (depth: i32)
        ensures
            depth == self.depth(),
    {
        self.scan_depth
    }

    /// Let the scanner read to a new depth, as its upgrades buy.
    pub fn set_scan_depth(&mut self, depth: i32)
        ensures
            final(self).depth() == depth,
            final(self).flier_list() == old(self).flier_list(),
            final(self).base_of() == old(self).base_of(),
            final(self).survey_list() == old(self).survey_list(),
            final(self).held_back() == old(self).held_back(),
            final(self).stick() == old(self).stick(),
            final(self).stash() == old(self).stash(),
    {
        proof {
            use_type_invariant(&*self);
        }
        self.scan_depth = depth;
    }

    /// Goods with no container to sit in, waiting for one.
    pub fn orphaned(&self) -> (pile: &Stockpile)
        ensures
            *pile == self.held_back(),
    {
        &self.orphan
    }

    /// Which flier the player is flying.
    pub fn controlled(&self) -> (c: Option<usize>)
        ensures
            c == self.stick(),
    {
        self.controlled
    }

    /// Has this sector been fully swept?
    pub fn is_surveyed(&self, sector: Sector) -> (done: bool)
        ensures
            done == (survey_in(self.survey_list(), sector) matches Some(v) && v.complete),
    {
        proof {
            use_type_invariant(self);
        }
        let at = survey_position(&self.surveys, sector);
        if at < self.surveys.len() && self.surveys[at].sector.x == sector.x && self.surveys[at].sector.z == sector.z {
            proof {
                lemma_survey_at(self.surveys@, at as int);
            }
            self.surveys[at].complete
        } else {
            proof {
                assert forall|j: int| 0 <= j < self.surveys@.len() implies #[trigger] self.surveys@[j].sector != sector by {
                    if j > at {
                        assert(sector_before(self.surveys@[at as int].sector, self.surveys@[j].sector));
                    } else if j < at {
                        assert(sector_before(self.surveys@[j].sector, sector));
                    }
                }
                lemma_survey_absent(self.surveys@, sector);
            }
            false
        }
    }
}

/// Two fleets that differ at most in their base and the goods waiting for a
/// container.
pub open spec fn same_air(a: Fleet, b: Fleet) -> bool {
    &&& a.flier_list() == b.flier_list()
    &&& a.depth() == b.depth()
    &&& a.survey_list() == b.survey_list()
    &&& a.stick() == b.stick()
    &&& a.stash() == b.stash()
}

/// What placing a container at `position` makes of a fleet: a base there,
/// holding what the base it replaces held and everything that was waiting
/// for a container, count by count (a count that would pass the top of a
/// `u64` stops there), with nothing left waiting and the air untouched.
pub open spec fn base_placed(before: Fleet, after: Fleet, position: BlockPos) -> bool {
    &&& after.base_of() matches Some(b) && b.position == position
    &&& forall|k: Seq<char>|
        #![trigger base_count(after.base_of(), k)]
        base_count(after.base_of(), k) == capped(
            (base_count(before.base_of(), k) + before.held_back().count_of(k)) as int,
        ) as nat
    &&& after.held_back()@.len() == 0
    &&& base_sum(before.base_of()) + before.held_back().sum() <= u64::MAX ==> base_sum(after.base_of())
        == base_sum(before.base_of()) + before.held_back().sum()
    &&& same_air(after, before)
}

/// What breaking the container makes of a fleet: no base, and everything
/// the base held joining what was already waiting for a container, count by
/// count, with the air untouched.
pub open spec fn base_cleared(before: Fleet, after: Fleet) -> bool {
    &&& after.base_of() is None
    &&& forall|k: Seq<char>|
        #![trigger after.held_back().count_of(k)]
        after.held_back().count_of(k) == capped(
            (base_count(before.base_of(), k) + before.held_back().count_of(k)) as int,
        ) as nat
    &&& base_sum(before.base_of()) + before.held_back().sum() <= u64::MAX ==> after.held_back().sum()
        == base_sum(before.base_of()) + before.held_back().sum()
    &&& same_air(after, before)
}

/// **Goods are kept, never lost, when a container breaks.** Breaking it
/// moves every good the base held into holding beside what was already
/// waiting, so the fleet holds exactly what it held; placing the next one
/// puts all of it into the new base, good by good, and leaves nothing
/// waiting. Stated for a fleet whose goods fit in a `u64` count.
pub proof fn lemma_a_broken_container_loses_nothing(before: Fleet, cleared: Fleet, placed: Fleet, position: BlockPos)
    requires
        base_cleared(before, cleared),
        base_placed(cleared, placed, position),
        base_sum(before.base_of()) + before.held_back().sum() <= u64::MAX,
    ensures
        cleared.base_of() is None,
        cleared.held_back().sum() == base_sum(before.base_of()) + before.held_back().sum(),
        forall|k: Seq<char>|
            #![trigger cleared.held_back().count_of(k)]
            cleared.held_back().count_of(k) == base_count(before.base_of(), k) + before.held_back().count_of(k),
        placed.held_back()@.len() == 0,
        base_sum(placed.base_of()) == base_sum(before.base_of()) + before.held_back().sum(),
        forall|k: Seq<char>|
            #![trigger base_count(placed.base_of(), k)]
            base_count(placed.base_of(), k) == base_count(before.base_of(), k) + before.held_back().count_of(k),
        same_air(placed, before),
{
    assert forall|k: Seq<char>| base_count(before.base_of(), k) + before.held_back().count_of(k) <= u64::MAX by {
        lemma_count_le_sum(before.held_back()@, k);
        if let Some(b) = before.base_of() {
            lemma_count_le_sum(b.stockpile@, k);
        }
    }
    assert forall|k: Seq<char>| #[trigger] cleared.held_back().count_of(k) == base_count(before.base_of(), k)
        + before.held_back().count_of(k) by {
        assert(base_count(before.base_of(), k) + before.held_back().count_of(k) <= u64::MAX);
    }
    assert forall|k: Seq<char>| #[trigger] base_count(placed.base_of(), k) == base_count(before.base_of(), k)
        + before.held_back().count_of(k) by {
        assert(base_count(before.base_of(), k) + before.held_back().count_of(k) <= u64::MAX);
        assert(cleared.held_back().count_of(k) == base_count(before.base_of(), k) + before.held_back().count_of(k));
    }
}

impl Fleet {
    /// Declare the base at a placed container. The pile of any base it
    /// replaces comes with it, and so does everything a broken container left
    /// waiting: goods do not evaporate because the box holding them did.
    pub fn set_base(&mut self, position: BlockPos)
        ensures
            base_placed(*old(self), *final(self), position),
    {
        proof {
            use_type_invariant(&*self);
        }
        let ghost was = self.base;
        let mut old_base: Option<Base> = None;
        std::mem::swap(&mut old_base, &mut self.base);
        let mut stockpile = match old_base {
            Some(b) => b.stockpile,
            None => Stockpile::new(),
        };
        let mut held = Stockpile::new();
        std::mem::swap(&mut held, &mut self.orphan);
        let goods = held.drain();
        let ghost start = stockpile;
        pour(&mut stockpile, &goods);
        self.orphan = held;
        self.base = Some(Base { position, stockpile });
    }

    /// The container was broken: no base until another is placed. The goods
    /// are kept, waiting for the next container, and the answer is how much
    /// went into holding.
    pub fn clear_base(&mut self) -> (held: u64)
        ensures
            held == capped(base_sum(old(self).base_of()) as int),
            base_cleared(*old(self), *final(self)),
    {
        proof {
            use_type_invariant(&*self);
        }
        let mut old_base: Option<Base> = None;
        std::mem::swap(&mut old_base, &mut self.base);
        match old_base {
            None => {
                self.orphan.note_well_kept();
                proof {
                    assert forall|k: Seq<char>| #[trigger] self.orphan.count_of(k) == capped(
                        (0 + self.orphan.count_of(k)) as int,
                    ) as nat by {
                        lemma_count_bounded(self.orphan@, k);
                    }
                }
                0
            },
            Some(b) => {
                let mut stockpile = b.stockpile;
                let held = stockpile.total();
                let goods = stockpile.drain();
                let mut orphan = Stockpile::new();
                std::mem::swap(&mut orphan, &mut self.orphan);
                pour(&mut orphan, &goods);
                self.orphan = orphan;
                held
            },
        }
    }

    /// Take the held goods out, leaving none.
    pub fn orphan_take(&mut self) -> (goods: Stockpile)
        ensures
            goods == old(self).held_back(),
            final(self).held_back()@.len() == 0,
            final(self).base_of() == old(self).base_of(),
            same_air(*final(self), *old(self)),
    {
        proof {
            use_type_invariant(&*self);
        }
        let mut goods = Stockpile::new();
        std::mem::swap(&mut goods, &mut self.orphan);
        goods
    }

    /// Put goods into holding directly: what a loader uses to restore what a
    /// broken container was carrying.
    pub fn orphan_goods(&mut self, goods: &Vec<(String, u64)>)
        ensures
            forall|k: Seq<char>|
                #![trigger final(self).held_back().count_of(k)]
                final(self).held_back().count_of(k) == capped(
                    (old(self).held_back().count_of(k) + count_in(rows_view(goods@), k)) as int,
                ) as nat,
            final(self).base_of() == old(self).base_of(),
            same_air(*final(self), *old(self)),
    {
        proof {
            use_type_invariant(&*self);
        }
        let mut orphan = Stockpile::new();
        std::mem::swap(&mut orphan, &mut self.orphan);
        pour(&mut orphan, goods);
        self.orphan = orphan;
    }

    /// Everything the fleet is holding on the ground: the declared pile and
    /// whatever is waiting for a container, stopping at the top of a `u64`.
    pub fn held(&self) -> (n: u64)
        ensures
            n == capped((base_sum(self.base_of()) + self.held_back().sum()) as int),
    {
        let here = match &self.base {
            Some(b) => b.stockpile.total(),
            None => 0,
        };
        here.saturating_add(self.orphan.total())
    }
}

/// A flier doing something else, and otherwise the same.
pub open spec fn with_state(f: Flier, state: FlierState) -> Flier {
    Flier {
        position: f.position,
        previous_position: f.previous_position,
        state,
        cargo: f.cargo,
        capacity: f.capacity,
    }
}

/// Set what one flier is doing.
fn restate(fliers: &mut Vec<Flier>, i: usize, state: FlierState)
    requires
        i < old(fliers)@.len(),
    ensures
        final(fliers)@ == old(fliers)@.update(i as int, with_state(old(fliers)@[i as int], state)),
{
    let ghost was = fliers@;
    let mut f = fliers.remove(i);
    f.state = state;
    fliers.insert(i, f);
    assert(fliers@ =~= was.update(i as int, with_state(was[i as int], state)));
}

/// Who has the stick, as the fleet holds it: the fliers, which one the
/// player is flying, and what that one was doing before.
pub open spec fn take_spec(fs: Seq<Flier>, stick: Option<usize>, stash: Option<FlierState>, index: usize) -> (
    Seq<Flier>,
    Option<usize>,
    Option<FlierState>,
    bool,
) {
    if index >= fs.len() || stick is Some {
        (fs, stick, stash, false)
    } else {
        (
            fs.update(index as int, with_state(fs[index as int], FlierState::Manual)),
            Some(index),
            Some(fs[index as int].state),
            true,
        )
    }
}

/// Handing the stick back: the flier picks up what it was doing, or goes
/// idle if nothing was stashed.
pub open spec fn release_spec(fs: Seq<Flier>, stick: Option<usize>, stash: Option<FlierState>, index: usize) -> (
    Seq<Flier>,
    Option<usize>,
    Option<FlierState>,
    bool,
) {
    if stick != Some(index) {
        (fs, stick, stash, false)
    } else {
        (
            fs.update(
                index as int,
                with_state(
                    fs[index as int],
                    match stash {
                        Some(s) => s,
                        None => FlierState::Idle,
                    },
                ),
            ),
            None,
            None,
            true,
        )
    }
}

/// **Handing the stick back resumes the survey.** Taking control of a flier
/// stashes what it was doing rather than discarding it, so giving control
/// back leaves every flier exactly as it was and nobody flying anything.
pub proof fn lemma_hand_back_resumes(fs: Seq<Flier>, stick: Option<usize>, stash: Option<FlierState>, index: usize)
    requires
        take_spec(fs, stick, stash, index).3,
    ensures
        ({
            let t = take_spec(fs, stick, stash, index);
            let r = release_spec(t.0, t.1, t.2, index);
            r.0 == fs && r.1 is None && r.2 is None && r.3
        }),
{
    let t = take_spec(fs, stick, stash, index);
    let r = release_spec(t.0, t.1, t.2, index);
    assert(with_state(with_state(fs[index as int], FlierState::Manual), fs[index as int].state) == fs[index as int]);
    assert(r.0 =~= fs);
}

impl Fleet {
    /// Add a flier, and say where it stands in the list.
    pub fn add_flier(&mut self, flier: Flier) -> (index: usize)
        requires
            old(self).flier_list().len() < usize::MAX,
        ensures
            index == old(self).flier_list().len(),
            final(self).flier_list() == old(self).flier_list().push(flier),
            final(self).base_of() == old(self).base_of(),
            final(self).held_back() == old(self).held_back(),
            final(self).depth() == old(self).depth(),
            final(self).survey_list() == old(self).survey_list(),
            final(self).stick() == old(self).stick(),
            final(self).stash() == old(self).stash(),
    {
        proof {
            use_type_invariant(&*self);
        }
        let mut fliers: Vec<Flier> = Vec::new();
        std::mem::swap(&mut fliers, &mut self.fliers);
        fliers.push(flier);
        let index = fliers.len() - 1;
        self.fliers = fliers;
        index
    }

    /// Take the stick from a flier. What it was doing is stashed, not
    /// discarded: a survey lives only in the flier, so dropping it would
    /// throw the whole sweep away.
    pub fn take_control(&mut self, index: usize) -> (taken: bool)
        ensures
            (final(self).flier_list(), final(self).stick(), final(self).stash(), taken) == take_spec(
                old(self).flier_list(),
                old(self).stick(),
                old(self).stash(),
                index,
            ),
            final(self).base_of() == old(self).base_of(),
            final(self).held_back() == old(self).held_back(),
            final(self).depth() == old(self).depth(),
            final(self).survey_list() == old(self).survey_list(),
    {
        proof {
            use_type_invariant(&*self);
        }
        if index >= self.fliers.len() || self.controlled.is_some() {
            return false;
        }
        let mut fliers: Vec<Flier> = Vec::new();
        std::mem::swap(&mut fliers, &mut self.fliers);
        self.suspended = Some(fliers[index].state);
        restate(&mut fliers, index, FlierState::Manual);
        self.fliers = fliers;
        self.controlled = Some(index);
        true
    }

    /// Hand the stick back, and the flier picks its task up where it left
    /// off.
    pub fn release_control(&mut self, index: usize) -> (released: bool)
        requires
            old(self).stick() == Some(index) ==> index < old(self).flier_list().len(),
        ensures
            (final(self).flier_list(), final(self).stick(), final(self).stash(), released) == release_spec(
                old(self).flier_list(),
                old(self).stick(),
                old(self).stash(),
                index,
            ),
            final(self).base_of() == old(self).base_of(),
            final(self).held_back() == old(self).held_back(),
            final(self).depth() == old(self).depth(),
            final(self).survey_list() == old(self).survey_list(),
    {
        proof {
            use_type_invariant(&*self);
        }
        match self.controlled {
            Some(c) => {
                if c != index {
                    return false;
                }
            },
            None => return false,
        }
        let resume = match self.suspended {
            Some(s) => s,
            None => FlierState::Idle,
        };
        let mut fliers: Vec<Flier> = Vec::new();
        std::mem::swap(&mut fliers, &mut self.fliers);
        restate(&mut fliers, index, resume);
        self.fliers = fliers;
        self.suspended = None;
        self.controlled = None;
        true
    }
}

/// The sectors whose sweep finished, in list order.
pub open spec fn complete_sectors(s: Seq<SurveySnapshot>) -> Seq<Sector>
    decreases s.len(),
{
    if s.len() == 0 {
        Seq::empty()
    } else if s.last().complete {
        complete_sectors(s.drop_last()).push(s.last().sector)
    } else {
        complete_sectors(s.drop_last())
    }
}

/// What the fliers carry between them, each one's load stopping at the top
/// of a `u64`.
pub open spec fn aboard(fs: Seq<Flier>) -> nat
    decreases fs.len(),
{
    if fs.len() == 0 {
        0
    } else {
        aboard(fs.drop_last()) + capped(fs.last().cargo.sum() as int) as nat
    }
}

/// A survey that has only just been ordered: nothing covered, nothing found.
pub open spec fn fresh_survey(sector: Sector) -> (Sector, Seq<(i32, i32)>, Seq<((i32, i32), (i32, i32))>, bool) {
    (sector, Seq::empty(), Seq::empty(), false)
}

/// Whether a flier is free for work.
fn is_idle(state: FlierState) -> (idle: bool)
    ensures
        idle == (state == FlierState::Idle),
{
    match state {
        FlierState::Idle => true,
        _ => false,
    }
}

impl Fleet {
    /// Send the first idle flier to sweep `sector`, starting its survey over;
    /// the answer says whether one was free. Re-sweeping a finished sector is
    /// a feature: the world changes, and a stale survey lies.
    pub fn dispatch_scan(&mut self, sector: Sector) -> (sent: bool)
        ensures
            sent <==> exists|i: int|
                0 <= i < old(self).flier_list().len() && #[trigger] old(self).flier_list()[i].state
                    == FlierState::Idle,
            sent ==> exists|i: int|
                {
                    &&& 0 <= i < old(self).flier_list().len()
                    &&& old(self).flier_list()[i].state == FlierState::Idle
                    &&& forall|j: int| 0 <= j < i ==> #[trigger] old(self).flier_list()[j].state != FlierState::Idle
                    &&& final(self).flier_list() == old(self).flier_list().update(
                        i,
                        with_state(old(self).flier_list()[i], FlierState::Scanning { sector, waypoint: 0 }),
                    )
                },
            sent ==> (survey_in(final(self).survey_list(), sector) matches Some(v) && survey_view(v)
                == fresh_survey(sector)),
            sent ==> forall|other: Sector|
                #![trigger survey_in(final(self).survey_list(), other)]
                other != sector ==> survey_in(final(self).survey_list(), other) == survey_in(
                    old(self).survey_list(),
                    other,
                ),
            !sent ==> final(self).flier_list() == old(self).flier_list() && final(self).survey_list()
                == old(self).survey_list(),
            final(self).base_of() == old(self).base_of(),
            final(self).held_back() == old(self).held_back(),
            final(self).depth() == old(self).depth(),
            final(self).stick() == old(self).stick(),
            final(self).stash() == old(self).stash(),
    {
        proof {
            use_type_invariant(&*self);
        }
        let mut i: usize = 0;
        while i < self.fliers.len() && !is_idle(self.fliers[i].state)
            invariant
                i <= self.fliers@.len(),
                forall|j: int| 0 <= j < i ==> #[trigger] self.fliers@[j].state != FlierState::Idle,
            decreases self.fliers@.len() - i,
        {
            i = i + 1;
        }
        if i == self.fliers.len() {
            return false;
        }
        assert(self.fliers@[i as int].state == FlierState::Idle);
        let fresh = SurveySnapshot { sector, covered: Vec::new(), hits: Vec::new(), complete: false };
        assert(survey_view(fresh) == fresh_survey(sector));
        assert(survey_tidy(fresh));
        let mut surveys: Vec<SurveySnapshot> = Vec::new();
        std::mem::swap(&mut surveys, &mut self.surveys);
        put_survey(&mut surveys, fresh);
        self.surveys = surveys;
        let mut fliers: Vec<Flier> = Vec::new();
        std::mem::swap(&mut fliers, &mut self.fliers);
        restate(&mut fliers, i, FlierState::Scanning { sector, waypoint: 0 });
        self.fliers = fliers;
        true
    }

    /// The sectors fully swept, in sector order, for the map to shade.
    pub fn surveyed_sectors(&self) -> (sectors: Vec<Sector>)
        ensures
            sectors@ == complete_sectors(self.survey_list()),
    {
        let mut out: Vec<Sector> = Vec::new();
        let mut i: usize = 0;
        while i < self.surveys.len()
            invariant
                i <= self.surveys@.len(),
                out@ == complete_sectors(self.surveys@.take(i as int)),
            decreases self.surveys@.len() - i,
        {
            proof {
                assert(self.surveys@.take(i + 1).drop_last() =~= self.surveys@.take(i as int));
            }
            if self.surveys[i].complete {
                out.push(self.surveys[i].sector);
            }
            i = i + 1;
        }
        proof {
            assert(self.surveys@.take(i as int) =~= self.surveys@);
        }
        out
    }

    /// Blocks held across the air side: aboard the fliers and in the base.
    /// With each mine's own count, the conservation figure for the chain.
    pub fn accounted_blocks(&self) -> (n: u64)
        requires
            aboard(self.flier_list()) + capped(base_sum(self.base_of()) as int) <= u64::MAX,
        ensures
            n == aboard(self.flier_list()) + capped(base_sum(self.base_of()) as int),
    {
        let mut total: u64 = 0;
        let mut i: usize = 0;
        while i < self.fliers.len()
            invariant
                i <= self.fliers@.len(),
                total == aboard(self.fliers@.take(i as int)),
                aboard(self.fliers@) + capped(base_sum(self.base) as int) <= u64::MAX,
            decreases self.fliers@.len() - i,
        {
            proof {
                assert(self.fliers@.take(i + 1).drop_last() =~= self.fliers@.take(i as int));
                lemma_aboard_prefix(self.fliers@, i + 1);
            }
            total = total + self.fliers[i].cargo.total();
            i = i + 1;
        }
        proof {
            assert(self.fliers@.take(i as int) =~= self.fliers@);
        }
        let here = match &self.base {
            Some(b) => b.stockpile.total(),
            None => 0,
        };
        total + here
    }
}

/// What a prefix of the fliers carries is no more than what all of them do.
proof fn lemma_aboard_prefix(fs: Seq<Flier>, n: int)
    requires
        0 <= n <= fs.len(),
    ensures
        aboard(fs.take(n)) <= aboard(fs),
    decreases fs.len() - n,
{
    if n < fs.len() {
        lemma_aboard_prefix(fs, n + 1);
        assert(fs.take(n + 1).drop_last() =~= fs.take(n));
    } else {
        assert(fs.take(n) =~= fs);
    }
}

/// Load a flier from a pile, good by good in the pile's order, as much as
/// still fits: it stops when the flier is full or the pile is empty. Blocks
/// only move; none are made or lost.
pub fn transfer(pile: &mut Stockpile, flier: &mut Flier)
    ensures
        forall|k: Seq<char>|
            #![trigger final(pile).count_of(k)]
            final(pile).count_of(k) + final(flier).cargo.count_of(k) == old(pile).count_of(k) + old(
                flier,
            ).cargo.count_of(k),
        forall|k: Seq<char>|
            #![trigger final(pile).count_of(k)]
            final(pile).count_of(k) <= old(pile).count_of(k),
        old(flier).cargo.sum() <= old(flier).capacity ==> final(flier).cargo.sum() <= final(flier).capacity,
        final(flier).cargo.sum() >= final(flier).capacity || final(pile)@.len() == 0,
        final(flier).position == old(flier).position,
        final(flier).previous_position == old(flier).previous_position,
        final(flier).state == old(flier).state,
        final(flier).capacity == old(flier).capacity,
{
    pile.note_well_kept();
    flier.cargo.note_well_kept();
    let ghost p0 = *pile;
    let ghost c0 = flier.cargo;
    let carrying = flier.cargo.total();
    let mut room: u64 = if flier.capacity > carrying { flier.capacity - carrying } else { 0 };
    let ghost room0 = room;
    while room > 0 && !pile.is_empty()
        invariant
            forall|k: Seq<char>|
                #![trigger pile.count_of(k)]
                pile.count_of(k) + flier.cargo.count_of(k) == p0.count_of(k) + c0.count_of(k),
            forall|k: Seq<char>| #![trigger pile.count_of(k)] pile.count_of(k) <= p0.count_of(k),
            room0 > 0 ==> flier.cargo.sum() + room == flier.capacity,
            room0 == 0 ==> room == 0 && flier.cargo == c0,
            room0 == 0 ==> c0.sum() >= flier.capacity,
            flier.capacity == old(flier).capacity,
            flier.position == old(flier).position,
            flier.previous_position == old(flier).previous_position,
            flier.state == old(flier).state,
        decreases pile.sum(),
    {
        pile.note_well_kept();
        flier.cargo.note_well_kept();
        let rows = pile.entries();
        let name = rows[0].0.clone();
        proof {
            assert(pile@[0] == (rows@[0].0@, rows@[0].1));
            lemma_count_at(pile@, 0);
            assert(pile.count_of(name@) > 0);
            lemma_count_le_sum(flier.cargo@, name@);
        }
        let taken = pile.take(name.as_str(), room);
        flier.cargo.add(name.as_str(), taken);
        room = room - taken;
    }
}

/// A mine as a ferrying flier sees it: where its pile stands, and whether
/// anything is waiting there.
#[derive(Debug, Clone, Copy, PartialEq, Eq, Structural)]
pub struct Pickup {
    pub home: BlockPos,
    pub stocked: bool,
}

/// The square of the ground distance between two cells.
pub open spec fn reach2(a: BlockPos, b: BlockPos) -> int {
    (a.x - b.x) * (a.x - b.x) + (a.z - b.z) * (a.z - b.z)
}

/// The square of the ground distance between two cells.
fn ground_distance2(a: BlockPos, b: BlockPos) -> (d: i128)
    ensures
        d == reach2(a, b),
{
    let dx = a.x as i128 - b.x as i128;
    let dz = a.z as i128 - b.z as i128;
    assert(dx * dx <= 0x1_0000_0000_0000_0000) by (nonlinear_arith)
        requires
            -0x1_0000_0000 <= dx <= 0x1_0000_0000,
    ;
    assert(dz * dz <= 0x1_0000_0000_0000_0000) by (nonlinear_arith)
        requires
            -0x1_0000_0000 <= dz <= 0x1_0000_0000,
    ;
    assert(dx * dx >= 0 && dz * dz >= 0) by (nonlinear_arith);
    dx * dx + dz * dz
}

impl Fleet {
    /// An idle flier with a base to go home to looks for ore waiting at a
    /// mine and goes to get it: the nearest stocked mine, the first listed
    /// among equals. With no base, or nothing waiting anywhere, it stays put.
    pub fn consider_ferrying(&mut self, index: usize, mines: &[Pickup])
        requires
            old(self).base_of() is Some ==> index < old(self).flier_list().len(),
        ensures
            (old(self).base_of() is None || forall|m: int| 0 <= m < mines@.len() ==> !(#[trigger] mines@[m]).stocked)
                ==> final(self).flier_list() == old(self).flier_list(),
            (old(self).base_of() is Some && exists|m: int| 0 <= m < mines@.len() && (#[trigger] mines@[m]).stocked)
                ==> exists|m: int|
                {
                    let here = old(self).flier_list()[index as int].position;
                    &&& 0 <= m < mines@.len()
                    &&& (#[trigger] mines@[m]).stocked
                    &&& forall|j: int| 0 <= j < mines@.len() && #[trigger] mines@[j].stocked ==> reach2(mines@[m].home, here) <= reach2(mines@[j].home, here)
                    &&& forall|j: int| 0 <= j < m && #[trigger] mines@[j].stocked ==> reach2(mines@[m].home, here) < reach2(mines@[j].home, here)
                    &&& final(self).flier_list() == old(self).flier_list().update(
                        index as int,
                        with_state(old(self).flier_list()[index as int], FlierState::ToPickup { mine: m as usize }),
                    )
                },
            final(self).base_of() == old(self).base_of(),
            final(self).held_back() == old(self).held_back(),
            final(self).depth() == old(self).depth(),
            final(self).survey_list() == old(self).survey_list(),
            final(self).stick() == old(self).stick(),
            final(self).stash() == old(self).stash(),
    {
        proof {
            use_type_invariant(&*self);
        }
        if self.base.is_none() {
            return;
        }
        let here = self.fliers[index].position;
        let mut best: Option<(usize, i128)> = None;
        let mut j: usize = 0;
        while j < mines.len()
            invariant
                j <= mines@.len(),
                here == self.fliers@[index as int].position,
                best is None ==> forall|t: int| 0 <= t < j ==> !(#[trigger] mines@[t]).stocked,
                best matches Some((m, d)) ==> {
                    &&& m < j
                    &&& mines@[m as int].stocked
                    &&& d == reach2(mines@[m as int].home, here)
                    &&& forall|t: int| 0 <= t < j && #[trigger] mines@[t].stocked ==> d <= reach2(mines@[t].home, here)
                    &&& forall|t: int| 0 <= t < m && #[trigger] mines@[t].stocked ==> d < reach2(mines@[t].home, here)
                },
            decreases mines@.len() - j,
        {
            if mines[j].stocked {
                let d = ground_distance2(mines[j].home, here);
                match best {
                    None => {
                        best = Some((j, d));
                    },
                    Some((_, bd)) => {
                        if d < bd {
                            best = Some((j, d));
                        }
                    },
                }
            }
            j = j + 1;
        }
        match best {
            None => {},
            Some((m, _)) => {
                let mut fliers: Vec<Flier> = Vec::new();
                std::mem::swap(&mut fliers, &mut self.fliers);
                restate(&mut fliers, index, FlierState::ToPickup { mine: m });
                self.fliers = fliers;
            },
        }
    }
}

impl Fleet {
    /// Unload goods into the base. With no base declared there is nowhere to
    /// put them, and nothing changes.
    pub fn receive(&mut self, goods: &Vec<(String, u64)>)
        ensures
            old(self).base_of() is None ==> final(self).base_of() == old(self).base_of(),
            old(self).base_of() matches Some(b) ==> (final(self).base_of() matches Some(c) && c.position
                == b.position),
            forall|k: Seq<char>|
                #![trigger base_count(final(self).base_of(), k)]
                old(self).base_of() is Some ==> base_count(final(self).base_of(), k) == capped(
                    (base_count(old(self).base_of(), k) + count_in(rows_view(goods@), k)) as int,
                ) as nat,
            final(self).held_back() == old(self).held_back(),
            same_air(*final(self), *old(self)),
    {
        proof {
            use_type_invariant(&*self);
        }
        let mut base: Option<Base> = None;
        std::mem::swap(&mut base, &mut self.base);
        match base {
            Some(b) => {
                let mut stockpile = b.stockpile;
                pour(&mut stockpile, goods);
                self.base = Some(Base { position: b.position, stockpile });
            },
            None => {},
        }
    }

    /// Restore the air side from a snapshot around the base and the goods
    /// waiting for a container, which are the pile's and stay as they are.
    pub fn restore_around(&mut self, air: FleetSnapshot)
        ensures
            final(self).base_of() == old(self).base_of(),
            final(self).held_back() == old(self).held_back(),
            final(self).flier_list() == air.fliers@,
            final(self).depth() == air.scan_depth,
            final(self).stick() == air.controlled,
            final(self).stash() is None,
            forall|sector: Sector|
                #![trigger survey_in(final(self).survey_list(), sector)]
                tidied_from(survey_in(final(self).survey_list(), sector), survey_in(air.surveys@, sector)),
    {
        proof {
            use_type_invariant(&*self);
        }
        let mut base: Option<Base> = None;
        std::mem::swap(&mut base, &mut self.base);
        let orphan = self.orphan_take();
        let FleetSnapshot { fliers, base: _, scan_depth, surveys, controlled, orphan: _ } = air;
        *self = Fleet::restore(FleetSnapshot { fliers, base, scan_depth, surveys, controlled, orphan });
    }
}

/// What a flier does with its turn, besides flying.
#[derive(Debug, Clone, Copy, PartialEq, Eq, Structural)]
pub enum FlierAction {
    /// Nothing this turn but the flight, if any.
    Nothing,
    /// Idle: look for a stocked mine to ferry from.
    LookForWork,
    /// The sweep ran out of waypoints: the sector is surveyed.
    CompleteSurvey(Sector),
    /// Over a waypoint: scan the swath under the flight line there.
    ScanSwath { sector: Sector, waypoint: usize },
    /// Over the mine: load from its pile.
    LoadAtMine(usize),
    /// Over the base: unload into it.
    UnloadAtBase,
}

/// Whether a flier in `state` flies this turn: toward its next waypoint
/// while a sweep has one left, toward a mine that still exists, toward a
/// base that still stands. `waypoints` is the length of the sweep's path.
pub open spec fn flies_spec(state: FlierState, waypoints: usize, mine_known: bool, base_known: bool) -> bool {
    match state {
        FlierState::Scanning { sector, waypoint } => waypoint < waypoints,
        FlierState::ToPickup { mine } => mine_known,
        FlierState::ToBase => base_known,
        _ => false,
    }
}

/// A flier's turn, once it has flown if it flies (`arrived` says whether
/// the flight reached its target). A piloted flier is the player's, and a
/// lost one stays lost; an idle one looks for work; a sweep past its last
/// waypoint is complete, and one over a waypoint scans there and moves on
/// to the next; a flier whose mine was dismantled, or whose base was
/// broken, goes idle holding what it carries; over the mine it loads and
/// turns for home, over the base it unloads and goes idle.
pub open spec fn flier_turn_spec(
    state: FlierState,
    waypoints: usize,
    mine_known: bool,
    base_known: bool,
    arrived: bool,
) -> (FlierState, FlierAction) {
    match state {
        FlierState::Idle => (FlierState::Idle, FlierAction::LookForWork),
        FlierState::Scanning { sector, waypoint } => if waypoint >= waypoints {
            (FlierState::Idle, FlierAction::CompleteSurvey(sector))
        } else if arrived {
            (
                FlierState::Scanning { sector, waypoint: (waypoint + 1) as usize },
                FlierAction::ScanSwath { sector, waypoint },
            )
        } else {
            (state, FlierAction::Nothing)
        },
        FlierState::ToPickup { mine } => if !mine_known {
            (FlierState::Idle, FlierAction::Nothing)
        } else if arrived {
            (FlierState::ToBase, FlierAction::LoadAtMine(mine))
        } else {
            (state, FlierAction::Nothing)
        },
        FlierState::ToBase => if !base_known {
            (FlierState::Idle, FlierAction::Nothing)
        } else if arrived {
            (FlierState::Idle, FlierAction::UnloadAtBase)
        } else {
            (state, FlierAction::Nothing)
        },
        FlierState::Manual => (state, FlierAction::Nothing),
        FlierState::Lost => (state, FlierAction::Nothing),
    }
}

/// Whether a flier in `state` flies this turn; see [`flies_spec`].
pub fn flies(state: FlierState, waypoints: usize, mine_known: bool, base_known: bool) -> (fly: bool)
    ensures
        fly == flies_spec(state, waypoints, mine_known, base_known),
{
    match state {
        FlierState::Scanning { sector: _, waypoint } => waypoint < waypoints,
        FlierState::ToPickup { mine: _ } => mine_known,
        FlierState::ToBase => base_known,
        _ => false,
    }
}

/// Decide a flier's turn: the state it is left in and what it does; see
/// [`flier_turn_spec`].
pub fn flier_turn(state: FlierState, waypoints: usize, mine_known: bool, base_known: bool, arrived: bool) -> (turn: (
    FlierState,
    FlierAction,
))
    ensures
        turn == flier_turn_spec(state, waypoints, mine_known, base_known, arrived),
{
    match state {
        FlierState::Idle => (FlierState::Idle, FlierAction::LookForWork),
        FlierState::Scanning { sector, waypoint } => {
            if waypoint >= waypoints {
                (FlierState::Idle, FlierAction::CompleteSurvey(sector))
            } else if arrived {
                (FlierState::Scanning { sector, waypoint: waypoint + 1 }, FlierAction::ScanSwath { sector, waypoint })
            } else {
                (state, FlierAction::Nothing)
            }
        },
        FlierState::ToPickup { mine } => {
            if !mine_known {
                (FlierState::Idle, FlierAction::Nothing)
            } else if arrived {
                (FlierState::ToBase, FlierAction::LoadAtMine(mine))
            } else {
                (state, FlierAction::Nothing)
            }
        },
        FlierState::ToBase => {
            if !base_known {
                (FlierState::Idle, FlierAction::Nothing)
            } else if arrived {
                (FlierState::Idle, FlierAction::UnloadAtBase)
            } else {
                (state, FlierAction::Nothing)
            }
        },
        FlierState::Manual => (state, FlierAction::Nothing),
        FlierState::Lost => (state, FlierAction::Nothing),
    }
}

/// Where a sweep stands after `n` turns that each reached their waypoint,
/// starting from waypoint `w`.
pub open spec fn swept(sector: Sector, w: usize, waypoints: usize, n: nat) -> FlierState
    decreases n,
{
    if n == 0 {
        FlierState::Scanning { sector, waypoint: w }
    } else {
        flier_turn_spec(swept(sector, w, waypoints, (n - 1) as nat), waypoints, true, true, true).0
    }
}

/// **A sweep visits every waypoint in order, then is complete.** A flier
/// that reaches each waypoint it flies to stands over waypoint `n` after
/// `n` turns, for as many as the path has, and the turn after the last one
/// completes the survey and leaves it idle.
pub proof fn lemma_a_sweep_visits_every_waypoint(sector: Sector, waypoints: usize, n: nat)
    requires
        n <= waypoints,
    ensures
        swept(sector, 0, waypoints, n) == (FlierState::Scanning { sector, waypoint: n as usize }),
        n == waypoints ==> flier_turn_spec(swept(sector, 0, waypoints, n), waypoints, true, true, true)
            == (FlierState::Idle, FlierAction::CompleteSurvey(sector)),
    decreases n,
{
    if n > 0 {
        lemma_a_sweep_visits_every_waypoint(sector, waypoints, (n - 1) as nat);
    }
}

/// Whether `cells` holds column `c`.
fn holds_column(cells: &Vec<(i32, i32)>, c: (i32, i32)) -> (found: bool)
    ensures
        found == cells@.contains(c),
{
    let mut i: usize = 0;
    while i < cells.len()
        invariant
            0 <= i <= cells@.len(),
            forall|j: int| 0 <= j < i ==> cells@[j] != c,
        decreases cells@.len() - i,
    {
        if cells[i].0 == c.0 && cells[i].1 == c.1 {
            return true;
        }
        i = i + 1;
    }
    false
}

/// Where the survey of `sector` is kept, if there is one.
fn find_survey(list: &Vec<SurveySnapshot>, sector: Sector) -> (r: Option<usize>)
    requires
        surveys_in_order(list@),
    ensures
        r matches Some(i) ==> i < list@.len() && list@[i as int].sector == sector && survey_in(list@, sector) == Some(
            list@[i as int],
        ),
        r is None ==> survey_in(list@, sector) is None,
{
    let at = survey_position(list, sector);
    if at < list.len() && list[at].sector.x == sector.x && list[at].sector.z == sector.z {
        proof {
            lemma_survey_at(list@, at as int);
        }
        Some(at)
    } else {
        proof {
            assert forall|j: int| 0 <= j < list@.len() implies #[trigger] list@[j].sector != sector by {
                if j > at {
                    assert(sector_before(list@[at as int].sector, list@[j].sector));
                } else if j < at {
                    assert(sector_before(list@[j].sector, sector));
                }
            }
            lemma_survey_absent(list@, sector);
        }
        None
    }
}

/// A survey as values, or a fresh one for a sector that has none.
pub open spec fn survey_or_fresh(v: Option<SurveySnapshot>, sector: Sector) -> (
    Sector,
    Seq<(i32, i32)>,
    Seq<((i32, i32), (i32, i32))>,
    bool,
) {
    match v {
        Some(v) => survey_view(v),
        None => fresh_survey(sector),
    }
}

/// A survey with `column` newly covered, and what the scanner found under
/// it, if anything, recorded.
pub open spec fn covered_with(
    v: (Sector, Seq<(i32, i32)>, Seq<((i32, i32), (i32, i32))>, bool),
    column: (i32, i32),
    hit: Option<(i32, i32)>,
) -> (Sector, Seq<(i32, i32)>, Seq<((i32, i32), (i32, i32))>, bool) {
    (
        v.0,
        with_column(v.1, column),
        match hit {
            Some(h) => with_hit(v.2, (column, h)),
            None => v.2,
        },
        v.3,
    )
}

/// Whether `sector`'s survey has already covered `column`.
pub open spec fn already_covered(s: Seq<SurveySnapshot>, sector: Sector, column: (i32, i32)) -> bool {
    survey_in(s, sector) matches Some(v) && v.covered@.contains(column)
}

impl Fleet {
    /// Whether the scanner has yet to cover `column` of `sector`: only a
    /// column not yet covered has its ground read.
    pub fn needs_scan(&self, sector: Sector, column: (i32, i32)) -> (needed: bool)
        ensures
            needed == !already_covered(self.survey_list(), sector, column),
    {
        proof {
            use_type_invariant(self);
        }
        match find_survey(&self.surveys, sector) {
            Some(i) => !holds_column(&self.surveys[i].covered, column),
            None => true,
        }
    }

    /// The scanner passed over `column` of `sector`, a column inside the
    /// sector under the flight line: a column not yet covered is covered
    /// now, with what was found under it, if anything (its depth and the
    /// height to hover at), recorded; a sector with no survey starts one. A
    /// column already covered changes nothing. The answer says whether the
    /// column was new.
    pub fn cover(&mut self, sector: Sector, column: (i32, i32), hit: Option<(i32, i32)>) -> (fresh: bool)
        ensures
            fresh == !already_covered(old(self).survey_list(), sector, column),
            fresh ==> (survey_in(final(self).survey_list(), sector) matches Some(v) && survey_view(v) == covered_with(
                survey_or_fresh(survey_in(old(self).survey_list(), sector), sector),
                column,
                hit,
            )),
            !fresh ==> final(self).survey_list() == old(self).survey_list(),
            forall|other: Sector|
                #![trigger survey_in(final(self).survey_list(), other)]
                other != sector ==> survey_in(final(self).survey_list(), other) == survey_in(
                    old(self).survey_list(),
                    other,
                ),
            final(self).flier_list() == old(self).flier_list(),
            final(self).base_of() == old(self).base_of(),
            final(self).held_back() == old(self).held_back(),
            final(self).depth() == old(self).depth(),
            final(self).stick() == old(self).stick(),
            final(self).stash() == old(self).stash(),
    {
        proof {
            use_type_invariant(&*self);
        }
        let found = find_survey(&self.surveys, sector);
        let mut current = match found {
            Some(i) => {
                if holds_column(&self.surveys[i].covered, column) {
                    return false;
                }
                proof {
                    assert(survey_tidy(self.surveys@[i as int]));
                }
                copy_survey(&self.surveys[i])
            },
            None => SurveySnapshot { sector, covered: Vec::new(), hits: Vec::new(), complete: false },
        };
        assert(survey_tidy(current));
        let ghost start = survey_view(current);
        assert(start == survey_or_fresh(survey_in(self.surveys@, sector), sector));
        proof {
            lemma_with_column_in_order(current.covered@, column);
        }
        insert_column(&mut current.covered, column);
        match hit {
            Some(h) => {
                proof {
                    lemma_with_hit_in_order(current.hits@, (column, h));
                }
                insert_hit(&mut current.hits, (column, h));
            },
            None => {},
        }
        assert(survey_view(current) == covered_with(start, column, hit));
        assert(current.sector == sector);
        let mut surveys: Vec<SurveySnapshot> = Vec::new();
        std::mem::swap(&mut surveys, &mut self.surveys);
        put_survey(&mut surveys, current);
        self.surveys = surveys;
        true
    }

    /// A sweep ran out of waypoints: `sector` is surveyed, whatever it has
    /// covered and found standing; a sector with no survey gets an empty
    /// one, complete.
    pub fn complete_survey(&mut self, sector: Sector)
        ensures
            survey_in(final(self).survey_list(), sector) matches Some(v) && survey_view(v) == {
                let was = survey_or_fresh(survey_in(old(self).survey_list(), sector), sector);
                (was.0, was.1, was.2, true)
            },
            forall|other: Sector|
                #![trigger survey_in(final(self).survey_list(), other)]
                other != sector ==> survey_in(final(self).survey_list(), other) == survey_in(
                    old(self).survey_list(),
                    other,
                ),
            final(self).flier_list() == old(self).flier_list(),
            final(self).base_of() == old(self).base_of(),
            final(self).held_back() == old(self).held_back(),
            final(self).depth() == old(self).depth(),
            final(self).stick() == old(self).stick(),
            final(self).stash() == old(self).stash(),
    {
        proof {
            use_type_invariant(&*self);
        }
        let mut current = match find_survey(&self.surveys, sector) {
            Some(i) => {
                proof {
                    assert(survey_tidy(self.surveys@[i as int]));
                }
                copy_survey(&self.surveys[i])
            },
            None => SurveySnapshot { sector, covered: Vec::new(), hits: Vec::new(), complete: false },
        };
        assert(survey_tidy(current));
        current.complete = true;
        assert(survey_tidy(current));
        let mut surveys: Vec<SurveySnapshot> = Vec::new();
        std::mem::swap(&mut surveys, &mut self.surveys);
        put_survey(&mut surveys, current);
        self.surveys = surveys;
    }
}

} // verus!
