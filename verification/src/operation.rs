//! Driving a crew: what one tick of an excavation achieved, how a run of
//! them ended, and the rule each drone follows every tick.
//!
//! # The loop
//!
//! Each drone, each tick, in order: fall if it is standing on nothing, put a
//! full load down (on a heap that wants blocks, else at home), take a job if
//! it has none, cut something if anything in its job is within reach,
//! otherwise drive toward the work. The world is read and changed by the
//! caller; [`drone_turn`] decides from what it read.
use vstd::prelude::*;

use crate::crew::{DroneSnapshot, DroneState, Job, JobId, JobKind};
use crate::geometry::{clamped_box, grown, grows_in_range, hull, BlockPos, VoxelAabb};
use crate::heap::{is_spoil, names_ore};
use crate::stockpile::{
    capped, count_in, lemma_count_absent, lemma_count_bounded, lemma_lex_irreflexive, key, lex_lt,
    sum_in, Stockpile,
};

verus! {

/// What one tick achieved.
#[derive(Debug, Clone, Copy, PartialEq, Eq, Structural)]
pub struct TickReport {
    /// Blocks removed from the world this tick.
    pub dug: u64,
    /// Drones that moved.
    pub moved: u32,
    /// Jobs retired this tick.
    pub completed: u32,
    /// Blocks unloaded into the stockpile.
    pub delivered: u64,
    /// Blocks added to the world this tick, stacked into a spoil heap.
    pub placed: u64,
}

impl Default for TickReport {
    /// A report in which nothing happened.
    fn default() -> (r: TickReport)
        ensures
            r == TickReport::nothing(),
    {
        TickReport { dug: 0, moved: 0, completed: 0, delivered: 0, placed: 0 }
    }
}

impl TickReport {
    /// A report in which nothing happened.
    pub open spec fn nothing() -> TickReport {
        TickReport { dug: 0, moved: 0, completed: 0, delivered: 0, placed: 0 }
    }

    /// Did anything at all happen? A run of ticks where nothing does means the
    /// operation has stalled rather than finished.
    pub fn is_idle(&self) -> (idle: bool)
        ensures
            idle <==> *self == TickReport::nothing(),
    {
        self.dug == 0 && self.moved == 0 && self.completed == 0 && self.delivered == 0
            && self.placed == 0
    }
}

/// How a run of ticks ended.
#[derive(Debug, Clone, Copy, PartialEq, Eq, Structural)]
pub enum RunOutcome {
    /// The board emptied and every drone unloaded.
    Finished,
    /// Nothing changed for long enough to call it stuck.
    Stalled,
    /// Ran out of ticks with work still outstanding.
    OutOfTicks,
}

/// Quiet ticks in a row it takes to call a run stuck rather than a drone
/// walking a long corridor with nothing to report.
pub const PATIENCE: u32 = 64;

/// What a run does after one tick, given how many quiet ticks ran before
/// it: done, when the board is empty and nobody carries anything; stuck,
/// when this tick made the quiet run [`PATIENCE`] long; otherwise on, with
/// the quiet run one longer after a quiet tick and over after a busy one.
pub open spec fn after_tick_spec(quiet: u32, finished: bool, idle: bool) -> Result<u32, RunOutcome> {
    if finished {
        Err(RunOutcome::Finished)
    } else if idle {
        if quiet + 1 >= PATIENCE {
            Err(RunOutcome::Stalled)
        } else {
            Ok((quiet + 1) as u32)
        }
    } else {
        Ok(0)
    }
}

/// Decide what a run does after one tick: `finished` says the board is
/// empty and every drone unloaded, `report` is what the tick achieved, and
/// `quiet` how many quiet ticks came before it. `Ok` carries the quiet count
/// the run goes on with; `Err` is how it ended.
pub fn after_tick(quiet: u32, finished: bool, report: &TickReport) -> (r: Result<u32, RunOutcome>)
    requires
        quiet < PATIENCE,
    ensures
        r == after_tick_spec(quiet, finished, *report == TickReport::nothing()),
{
    if finished {
        return Err(RunOutcome::Finished);
    }
    if report.is_idle() {
        let quiet = quiet + 1;
        if quiet >= PATIENCE {
            return Err(RunOutcome::Stalled);
        }
        Ok(quiet)
    } else {
        Ok(0)
    }
}

/// The quiet count after `n` quiet ticks in a row of an unfinished run, from
/// none: the run goes on for the first `PATIENCE - 1` of them.
pub open spec fn quiet_after(n: nat) -> Result<u32, RunOutcome>
    decreases n,
{
    if n == 0 {
        Ok(0)
    } else {
        match quiet_after((n - 1) as nat) {
            Ok(q) => after_tick_spec(q, false, true),
            Err(e) => Err(e),
        }
    }
}

/// **A run is called stuck after exactly [`PATIENCE`] quiet ticks.** From a
/// busy tick, an unfinished run that then does nothing goes on through
/// `PATIENCE - 1` quiet ticks and stops, stalled, on the next.
pub proof fn lemma_stalls_after_exactly_patience(n: nat)
    requires
        n <= PATIENCE,
    ensures
        n < PATIENCE ==> quiet_after(n) == Ok::<u32, RunOutcome>(n as u32),
        n == PATIENCE ==> quiet_after(n) == Err::<u32, RunOutcome>(RunOutcome::Stalled),
    decreases n,
{
    if n > 0 {
        lemma_stalls_after_exactly_patience((n - 1) as nat);
    }
}

/// How far around an excavation and its home a crew may look: anything
/// inside this margin may be consulted, so it must be real ground rather than
/// the air an unloaded chunk reports.
pub const WORK_MARGIN: i32 = 12;

/// The block box an operation over `region`, hauling to `home`, will read:
/// the excavation and its home together, grown by [`WORK_MARGIN`], with its
/// heights pulled into a world `top` blocks high. Pin this before
/// dispatching, so the same dispatch digs the same hole wherever the player
/// wandered.
pub fn working_span(region: VoxelAabb, home: BlockPos, top: i32) -> (span: VoxelAabb)
    requires
        grows_in_range(hull(region, VoxelAabb { min: home, max: home }), WORK_MARGIN),
    ensures
        span == clamped_box(grown(hull(region, VoxelAabb { min: home, max: home }), WORK_MARGIN), top),
{
    region.union(VoxelAabb::single(home)).expanded(WORK_MARGIN).clamped_to_world(top)
}

/// How close a drone has to be to the drop-off, on every axis, to unload.
pub const DROP_OFF_RANGE: i32 = 2;

/// The distance between two coordinates.
pub open spec fn apart(a: i32, b: i32) -> int {
    if a >= b {
        a - b
    } else {
        b - a
    }
}

/// Whether `p` is close enough to `drop_off` to unload there.
pub open spec fn near_drop_off(p: BlockPos, drop_off: BlockPos) -> bool {
    apart(p.x, drop_off.x) <= DROP_OFF_RANGE && apart(p.y, drop_off.y) <= DROP_OFF_RANGE
        && apart(p.z, drop_off.z) <= DROP_OFF_RANGE
}

/// Whether a drone at `p` is close enough to `drop_off` to unload: within
/// [`DROP_OFF_RANGE`] of it on every axis. The drop-off is where home settles
/// today, and the caller must check against the same cell it walks toward.
pub fn at_drop_off(p: BlockPos, drop_off: BlockPos) -> (near: bool)
    ensures
        near == near_drop_off(p, drop_off),
{
    let dx = p.x as i64 - drop_off.x as i64;
    let dy = p.y as i64 - drop_off.y as i64;
    let dz = p.z as i64 - drop_off.z as i64;
    let range = DROP_OFF_RANGE as i64;
    -range <= dx && dx <= range && -range <= dy && dy <= range && -range <= dz && dz <= range
}

/// Tip a drone's whole load onto the pile: every good it carried joins the
/// pile's count of it (a count that would pass the top of a `u64` stops
/// there), the cargo bed ends empty, and what comes back is how many things
/// were delivered.
pub fn unload(cargo: &mut Stockpile, pile: &mut Stockpile) -> (delivered: u64)
    ensures
        delivered == capped(old(cargo).sum() as int),
        final(cargo)@.len() == 0,
        final(cargo).sum() == 0,
        forall|k: Seq<char>|
            #![trigger final(pile).count_of(k)]
            final(pile).count_of(k) == capped((old(pile).count_of(k) + old(cargo).count_of(k)) as int) as nat,
        old(pile).sum() + old(cargo).sum() <= u64::MAX ==> final(pile).sum() == old(pile).sum() + old(cargo).sum(),
{
    let delivered = cargo.total();
    cargo.note_well_kept();
    pile.note_well_kept();
    let ghost carried = cargo@;
    let ghost before = pile@;
    let goods = cargo.drain();
    proof {
        assert forall|k: Seq<char>| #[trigger] pile.count_of(k) == capped(
            (count_in(before, k) + count_in(carried.take(0), k)) as int,
        ) as nat by {
            lemma_count_bounded(before, k);
            assert(carried.take(0) =~= Seq::<(Seq<char>, u64)>::empty());
        }
    }
    let mut i: usize = 0;
    while i < goods.len()
        invariant
            0 <= i <= goods@.len(),
            crate::stockpile::rows_view(goods@) == carried,
            crate::stockpile::wf_rows(carried),
            crate::stockpile::wf_rows(before),
            forall|k: Seq<char>|
                #![trigger pile.count_of(k)]
                pile.count_of(k) == capped((count_in(before, k) + count_in(carried.take(i as int), k)) as int) as nat,
            sum_in(before) + sum_in(carried) <= u64::MAX ==> pile.sum() == sum_in(before) + sum_in(
                carried.take(i as int),
            ),
        decreases goods@.len() - i,
    {
        let name = goods[i].0.as_str();
        let n = goods[i].1;
        let ghost prior = *pile;
        assert(carried[i as int] == (name@, n));
        pile.add(name, n);
        proof {
            let now = carried.take(i + 1);
            assert(now.drop_last() =~= carried.take(i as int));
            assert(now.last() == carried[i as int]);
            assert forall|j: int| 0 <= j < carried.take(i as int).len() implies #[trigger] carried.take(
                i as int,
            )[j].0 != name@ by {
                assert(carried.take(i as int)[j] == carried[j]);
                assert(lex_lt(key(carried[j].0), key(carried[i as int].0)));
                if carried[j].0 == name@ {
                    lemma_lex_irreflexive(key(name@));
                }
            }
            lemma_count_absent(carried.take(i as int), name@);
            lemma_count_bounded(before, name@);
            if sum_in(before) + sum_in(carried) <= u64::MAX {
                crate::stockpile::lemma_sum_concat(carried.take(i as int), seq![carried[i as int]]);
                crate::stockpile::lemma_sum_single(carried[i as int]);
                assert(carried.take(i as int) + seq![carried[i as int]] =~= now);
                crate::stockpile::lemma_sum_concat(now, carried.skip(i + 1));
                assert(now + carried.skip(i + 1) =~= carried);
                crate::stockpile::lemma_count_le_sum(prior@, name@);
            }
            assert forall|k: Seq<char>| #[trigger] pile.count_of(k) == capped(
                (count_in(before, k) + count_in(now, k)) as int,
            ) as nat by {
                assert(prior.count_of(k) == capped(
                    (count_in(before, k) + count_in(carried.take(i as int), k)) as int,
                ) as nat);
            }
        }
        i = i + 1;
    }
    proof {
        assert(carried.take(i as int) =~= carried);
    }
    delivered
}

/// What a drone reads off the world at the start of its turn, as plain
/// values: the world itself is the caller's to look at.
#[derive(Debug)]
pub struct DroneSight {
    /// Where the drone comes to rest: its own cell when something holds it
    /// up, lower when it cut the ground out from under itself.
    pub settled: BlockPos,
    /// Whether its load is at its limit.
    pub full: bool,
    /// Where home settles today: the cell it unloads beside.
    pub drop_off: BlockPos,
    /// The next step toward the drop-off, from its cached route home or a
    /// fresh one; none when there is no way home from here.
    pub step_home: Option<BlockPos>,
    /// The stacking job it would work if it stacked now: its own, when it
    /// holds one, else the nearest the board has.
    pub stack_job: Option<Job>,
    /// Whether a stacking step would take the drone this tick: anything
    /// [`stack_turn`] decides but handing the job back, with a route found
    /// when it has to travel.
    pub stacks: bool,
    /// The next cell of its job it can cut without moving.
    pub next_cut: Option<BlockPos>,
    /// A cached route toward its job that the world has not outdated:
    /// `Some(Some(step))` a step along it, `Some(None)` a route that has no
    /// way on from here, `None` no such route.
    pub cached_step: Option<Option<BlockPos>>,
    /// Cells of its job's region still waiting to be cut.
    pub remaining: Vec<BlockPos>,
}

/// What a drone does with its turn, once it has fallen as far as it falls.
#[derive(Debug, Clone, Copy, PartialEq, Eq, Structural)]
pub enum DroneAction {
    /// Nothing to do.
    Idle,
    /// Work the heap: the stacking step takes the turn.
    Stack(Job),
    /// At the drop-off: tip the whole load onto the pile.
    Unload,
    /// One step toward the drop-off.
    HaulTo(BlockPos),
    /// Cut this cell, for this job.
    Cut(JobId, BlockPos),
    /// One step along the cached route toward the job.
    Step(JobId, BlockPos),
    /// Route toward the job's cells that can still be worked.
    Travel(JobId),
    /// Nothing is left to cut: retire the job.
    Complete(JobId),
    /// Hand the job back with its work still outstanding.
    Release(JobId),
}

/// A turn decided: whether the drone fell, what it does, and the job and
/// state it is left with. `fresh` says it took on a job whose refusals it
/// starts learning from scratch.
#[derive(Debug, Clone, Copy, PartialEq, Eq, Structural)]
pub struct DroneTurn {
    pub fell: bool,
    pub action: DroneAction,
    pub job: Option<JobId>,
    pub state: DroneState,
    pub fresh: bool,
}

/// Whether a drone carries anything.
pub open spec fn carrying(d: DroneSnapshot) -> bool {
    d.cargo.sum() > 0
}

/// What running its load home does this turn: unload, at the drop-off;
/// step toward it, when there is a way; nothing, when there is none.
pub open spec fn haul_spec(s: DroneSight) -> Option<(DroneAction, DroneState)> {
    if near_drop_off(s.settled, s.drop_off) {
        Some((DroneAction::Unload, DroneState::Idle))
    } else {
        match s.step_home {
            Some(next) => Some((DroneAction::HaulTo(next), DroneState::Hauling)),
            None => None,
        }
    }
}

/// Whether taking `j` is a new claim whose refusals start from nothing:
/// denials are learned per job, and survive claiming the same job again.
pub open spec fn fresh_claim(d: DroneSnapshot, j: Job) -> bool {
    d.job != Some(j.id) && d.denied_job != Some(j.id)
}

/// Whether some cell still waiting has not been refused this drone.
pub open spec fn workable_left(remaining: Seq<BlockPos>, denied: Seq<BlockPos>) -> bool {
    exists|i: int| 0 <= i < remaining.len() && !denied.contains(#[trigger] remaining[i])
}

/// A drone's turn, in order: fall if nothing holds it up; stack its load
/// on a heap that wants blocks if it is full; else run a full load home;
/// else take a job, and with none, bring a part load home or stand idle; a
/// stacking job is worked, or its load taken home; otherwise cut what is in
/// reach, else follow the cached route, else retire a job with nothing
/// left, hand back one whose every remaining cell was refused, or route
/// toward the rest.
pub open spec fn drone_turn_spec(d: DroneSnapshot, s: DroneSight, job: Option<Job>, heap_wants: bool) -> DroneTurn {
    let fell = s.settled != d.position;
    if s.full && heap_wants && s.stack_job is Some && s.stacks {
        let sj = s.stack_job->0;
        DroneTurn { fell, action: DroneAction::Stack(sj), job: Some(sj.id), state: d.state, fresh: false }
    } else if s.full && haul_spec(s) is Some {
        let (a, st) = haul_spec(s)->0;
        DroneTurn { fell, action: a, job: d.job, state: st, fresh: false }
    } else {
        match job {
            None => if carrying(d) && haul_spec(s) is Some {
                let (a, st) = haul_spec(s)->0;
                DroneTurn { fell, action: a, job: None, state: st, fresh: false }
            } else {
                DroneTurn { fell, action: DroneAction::Idle, job: None, state: DroneState::Idle, fresh: false }
            },
            Some(j) => {
                let fresh = fresh_claim(d, j);
                let denied = if fresh { Seq::<BlockPos>::empty() } else { d.denied@ };
                if j.kind == JobKind::Stack {
                    if s.stacks {
                        DroneTurn { fell, action: DroneAction::Stack(j), job: Some(j.id), state: d.state, fresh }
                    } else if carrying(d) && haul_spec(s) is Some {
                        let (a, st) = haul_spec(s)->0;
                        DroneTurn { fell, action: a, job: None, state: st, fresh }
                    } else {
                        DroneTurn { fell, action: DroneAction::Idle, job: None, state: DroneState::Idle, fresh }
                    }
                } else if s.next_cut is Some {
                    DroneTurn {
                        fell,
                        action: DroneAction::Cut(j.id, s.next_cut->0),
                        job: Some(j.id),
                        state: DroneState::Digging(j.id),
                        fresh,
                    }
                } else if s.cached_step is Some {
                    match s.cached_step->0 {
                        Some(next) => DroneTurn {
                            fell,
                            action: DroneAction::Step(j.id, next),
                            job: Some(j.id),
                            state: DroneState::Travelling(j.id),
                            fresh,
                        },
                        None => DroneTurn {
                            fell,
                            action: DroneAction::Release(j.id),
                            job: None,
                            state: DroneState::Stuck,
                            fresh,
                        },
                    }
                } else if s.remaining@.len() == 0 {
                    DroneTurn { fell, action: DroneAction::Complete(j.id), job: None, state: DroneState::Idle, fresh }
                } else if !workable_left(s.remaining@, denied) {
                    DroneTurn { fell, action: DroneAction::Release(j.id), job: None, state: DroneState::Stuck, fresh }
                } else {
                    DroneTurn {
                        fell,
                        action: DroneAction::Travel(j.id),
                        job: Some(j.id),
                        state: DroneState::Travelling(j.id),
                        fresh,
                    }
                }
            },
        }
    }
}

/// Whether `cells` holds `c`.
fn holds(cells: &Vec<BlockPos>, c: BlockPos) -> (found: bool)
    ensures
        found == cells@.contains(c),
{
    let mut i: usize = 0;
    while i < cells.len()
        invariant
            0 <= i <= cells@.len(),
            forall|j: int| 0 <= j < i ==> cells@[j] != c,
        decreases cells@.len() - i,
    {
        if cells[i] == c {
            return true;
        }
        i = i + 1;
    }
    false
}

/// Whether some cell of `remaining` has not been refused.
fn any_workable(remaining: &Vec<BlockPos>, denied: &Vec<BlockPos>) -> (found: bool)
    ensures
        found == workable_left(remaining@, denied@),
{
    let mut i: usize = 0;
    while i < remaining.len()
        invariant
            0 <= i <= remaining@.len(),
            forall|j: int| 0 <= j < i ==> denied@.contains(#[trigger] remaining@[j]),
        decreases remaining@.len() - i,
    {
        if !holds(denied, remaining[i]) {
            return true;
        }
        i = i + 1;
    }
    false
}

/// Decide a drone's turn from what it sees, the job the board would have
/// it on (its own, while the board still has it, else the nearest free
/// one), and whether a heap wants blocks; and leave the drone with the job,
/// the state and the refusals the turn gives it. Its position and cargo are
/// the caller's to change, as the action is carried out.
pub fn drone_turn(d: &mut DroneSnapshot, sees: &DroneSight, job: Option<Job>, heap_wants: bool) -> (turn: DroneTurn)
    ensures
        turn == drone_turn_spec(*old(d), *sees, job, heap_wants),
        final(d).job == turn.job,
        final(d).state == turn.state,
        final(d).denied@ == if turn.fresh { Seq::<BlockPos>::empty() } else { old(d).denied@ },
        final(d).denied_job == if turn.fresh { Some(job->0.id) } else { old(d).denied_job },
        final(d).id == old(d).id,
        final(d).position == old(d).position,
        final(d).previous_position == old(d).previous_position,
        final(d).cargo == old(d).cargo,
        final(d).capacity == old(d).capacity,
        final(d).grade == old(d).grade,
{
    let fell = sees.settled != d.position;
    let carrying = !d.cargo.is_empty();
    let near = at_drop_off(sees.settled, sees.drop_off);
    let haul: Option<(DroneAction, DroneState)> = if near {
        Some((DroneAction::Unload, DroneState::Idle))
    } else {
        match sees.step_home {
            Some(next) => Some((DroneAction::HaulTo(next), DroneState::Hauling)),
            None => None,
        }
    };
    assert(haul == haul_spec(*sees));
    if sees.full && heap_wants && sees.stacks {
        if let Some(sj) = sees.stack_job {
            d.job = Some(sj.id);
            return DroneTurn { fell, action: DroneAction::Stack(sj), job: Some(sj.id), state: d.state, fresh: false };
        }
    }
    if sees.full {
        if let Some((a, st)) = haul {
            d.state = st;
            return DroneTurn { fell, action: a, job: d.job, state: st, fresh: false };
        }
    }
    let j = match job {
        None => {
            d.job = None;
            if carrying {
                if let Some((a, st)) = haul {
                    d.state = st;
                    return DroneTurn { fell, action: a, job: None, state: st, fresh: false };
                }
            }
            d.state = DroneState::Idle;
            return DroneTurn { fell, action: DroneAction::Idle, job: None, state: DroneState::Idle, fresh: false };
        },
        Some(j) => j,
    };
    let fresh = d.job != Some(j.id) && d.denied_job != Some(j.id);
    if fresh {
        d.denied = Vec::new();
        d.denied_job = Some(j.id);
    }
    d.job = Some(j.id);
    let turn = if j.kind == JobKind::Stack {
        if sees.stacks {
            DroneTurn { fell, action: DroneAction::Stack(j), job: Some(j.id), state: d.state, fresh }
        } else {
            match haul {
                Some((a, st)) if carrying => DroneTurn { fell, action: a, job: None, state: st, fresh },
                _ => DroneTurn { fell, action: DroneAction::Idle, job: None, state: DroneState::Idle, fresh },
            }
        }
    } else if let Some(t) = sees.next_cut {
        DroneTurn { fell, action: DroneAction::Cut(j.id, t), job: Some(j.id), state: DroneState::Digging(j.id), fresh }
    } else if let Some(step) = sees.cached_step {
        match step {
            Some(next) => DroneTurn {
                fell,
                action: DroneAction::Step(j.id, next),
                job: Some(j.id),
                state: DroneState::Travelling(j.id),
                fresh,
            },
            None => DroneTurn { fell, action: DroneAction::Release(j.id), job: None, state: DroneState::Stuck, fresh },
        }
    } else if sees.remaining.len() == 0 {
        DroneTurn { fell, action: DroneAction::Complete(j.id), job: None, state: DroneState::Idle, fresh }
    } else if !any_workable(&sees.remaining, &d.denied) {
        DroneTurn { fell, action: DroneAction::Release(j.id), job: None, state: DroneState::Stuck, fresh }
    } else {
        DroneTurn {
            fell,
            action: DroneAction::Travel(j.id),
            job: Some(j.id),
            state: DroneState::Travelling(j.id),
            fresh,
        }
    };
    d.job = turn.job;
    d.state = turn.state;
    turn
}

/// **A job whose every remaining cell was refused is handed back, never
/// retired.** The blocks genuinely remain, so calling the job done would
/// lie: the drone gives it up, stuck, and the work stays on the board.
pub proof fn lemma_refused_work_is_released(d: DroneSnapshot, s: DroneSight, j: Job, heap_wants: bool)
    requires
        !s.full,
        j.kind != JobKind::Stack,
        s.next_cut is None,
        s.cached_step is None,
        s.remaining@.len() > 0,
        !fresh_claim(d, j),
        forall|i: int| 0 <= i < s.remaining@.len() ==> d.denied@.contains(#[trigger] s.remaining@[i]),
    ensures
        drone_turn_spec(d, s, Some(j), heap_wants).action == DroneAction::Release(j.id),
        drone_turn_spec(d, s, Some(j), heap_wants).job is None,
        drone_turn_spec(d, s, Some(j), heap_wants).state == DroneState::Stuck,
{
}

/// **A job is retired only when nothing of it is left to cut**, and only
/// by the drone working it.
pub proof fn lemma_completion_means_nothing_remains(d: DroneSnapshot, s: DroneSight, job: Option<Job>, heap_wants: bool, id: JobId)
    requires
        drone_turn_spec(d, s, job, heap_wants).action == DroneAction::Complete(id),
    ensures
        s.remaining@.len() == 0,
        job matches Some(j) && j.id == id && j.kind != JobKind::Stack,
{
}

/// **A full drone that can get its load away does not cut.** It stacks it
/// on a heap that wants blocks, or runs it home: unloading at the drop-off,
/// stepping toward it otherwise.
pub proof fn lemma_a_full_drone_puts_its_load_down(d: DroneSnapshot, s: DroneSight, job: Option<Job>, heap_wants: bool)
    requires
        s.full,
        haul_spec(s) is Some,
    ensures
        drone_turn_spec(d, s, job, heap_wants).action is Stack
            || drone_turn_spec(d, s, job, heap_wants).action is Unload
            || drone_turn_spec(d, s, job, heap_wants).action is HaulTo,
        near_drop_off(s.settled, s.drop_off) && !(heap_wants && s.stack_job is Some && s.stacks)
            ==> drone_turn_spec(d, s, job, heap_wants).action == DroneAction::Unload,
{
}

/// **Cutting comes before travelling.** A drone on a cutting job with a
/// cell in reach cuts it, whatever its routes say, unless its load has
/// somewhere to go first.
pub proof fn lemma_reach_before_routes(d: DroneSnapshot, s: DroneSight, j: Job, heap_wants: bool)
    requires
        !s.full,
        j.kind != JobKind::Stack,
        s.next_cut is Some,
    ensures
        drone_turn_spec(d, s, Some(j), heap_wants).action == DroneAction::Cut(j.id, s.next_cut->0),
        drone_turn_spec(d, s, Some(j), heap_wants).state == DroneState::Digging(j.id),
{
}

/// The cells of `remaining` that have not been refused, in order: what a
/// drone routes toward when nothing is in reach.
pub fn workable(remaining: &Vec<BlockPos>, denied: &Vec<BlockPos>) -> (cells: Vec<BlockPos>)
    ensures
        cells@ == remaining@.filter(|c: BlockPos| !denied@.contains(c)),
{
    let mut cells: Vec<BlockPos> = Vec::new();
    let mut i: usize = 0;
    while i < remaining.len()
        invariant
            0 <= i <= remaining@.len(),
            cells@ == remaining@.take(i as int).filter(|c: BlockPos| !denied@.contains(c)),
        decreases remaining@.len() - i,
    {
        let c = remaining[i];
        proof {
            reveal(Seq::filter);
            assert(remaining@.take(i + 1).drop_last() =~= remaining@.take(i as int));
            assert(remaining@.take(i + 1).last() == c);
        }
        if !holds(denied, c) {
            cells.push(c);
        }
        i = i + 1;
    }
    assert(remaining@.take(i as int) =~= remaining@);
    cells
}

/// Hand the drone's job back and mark it stuck: no route reaches its work.
pub fn give_up(d: &mut DroneSnapshot)
    ensures
        final(d).job is None,
        final(d).state == DroneState::Stuck,
        final(d).denied@ == old(d).denied@,
        final(d).denied_job == old(d).denied_job,
        final(d).position == old(d).position,
        final(d).cargo == old(d).cargo,
{
    d.job = None;
    d.state = DroneState::Stuck;
}

/// Remember that `cell` was refused this drone, so it moves on rather than
/// asking again: it joins the refusals unless they already hold it.
pub fn note_refusal(d: &mut DroneSnapshot, cell: BlockPos)
    ensures
        final(d).denied@ == if old(d).denied@.contains(cell) {
            old(d).denied@
        } else {
            old(d).denied@.push(cell)
        },
        final(d).job == old(d).job,
        final(d).state == old(d).state,
        final(d).denied_job == old(d).denied_job,
        final(d).position == old(d).position,
        final(d).cargo == old(d).cargo,
{
    if !holds(&d.denied, cell) {
        d.denied.push(cell);
    }
}

/// A cell `o` away from `p`.
pub open spec fn offset_cell(p: BlockPos, o: (i32, i32, i32)) -> BlockPos {
    BlockPos { x: (p.x + o.0) as i32, y: (p.y + o.1) as i32, z: (p.z + o.2) as i32 }
}

/// Whether every cell `offsets` name from `p` is a cell of the world's
/// coordinates.
pub open spec fn offsets_fit(p: BlockPos, offsets: Seq<(i32, i32, i32)>) -> bool {
    forall|i: int|
        0 <= i < offsets.len() ==> i32::MIN <= p.x + (#[trigger] offsets[i]).0 <= i32::MAX
            && i32::MIN <= p.y + offsets[i].1 <= i32::MAX && i32::MIN <= p.z + offsets[i].2 <= i32::MAX
}

/// The first cell, in the order of `offsets` from `i` on, that the heap
/// wants and that has not been refused.
pub open spec fn first_fill(
    p: BlockPos,
    offsets: Seq<(i32, i32, i32)>,
    wanted: Seq<BlockPos>,
    denied: Seq<BlockPos>,
    i: int,
) -> Option<BlockPos>
    decreases offsets.len() - i,
{
    if i < 0 || i >= offsets.len() {
        None
    } else {
        let c = offset_cell(p, offsets[i]);
        if wanted.contains(c) && !denied.contains(c) {
            Some(c)
        } else {
            first_fill(p, offsets, wanted, denied, i + 1)
        }
    }
}

/// The first cell to fill, in the order of `offsets`.
fn find_fill(
    wanted: &Vec<BlockPos>,
    position: BlockPos,
    denied: &Vec<BlockPos>,
    offsets: &[(i32, i32, i32)],
) -> (r: Option<BlockPos>)
    requires
        offsets_fit(position, offsets@),
    ensures
        r == first_fill(position, offsets@, wanted@, denied@, 0),
{
    let mut i: usize = 0;
    while i < offsets.len()
        invariant
            0 <= i <= offsets@.len(),
            offsets_fit(position, offsets@),
            first_fill(position, offsets@, wanted@, denied@, 0)
                == first_fill(position, offsets@, wanted@, denied@, i as int),
        decreases offsets@.len() - i,
    {
        let o = offsets[i];
        assert(i32::MIN <= position.x + offsets@[i as int].0 <= i32::MAX);
        let c = BlockPos { x: position.x + o.0, y: position.y + o.1, z: position.z + o.2 };
        assert(c == offset_cell(position, offsets@[i as int]));
        if holds(wanted, c) && !holds(denied, c) {
            return Some(c);
        }
        i = i + 1;
    }
    None
}

/// What a stacking drone puts where, without moving: the first cell in the
/// order it places (`place_offsets`, lowest first, which is why it never
/// stacks a block onto air) that the heap still wants and that has not been
/// refused it, filled with the first good aboard by name, so the same cargo
/// always stacks the same way. Nothing, with nothing in reach or nothing
/// aboard.
pub fn spoil_to_stack(
    cargo: &Stockpile,
    wanted: &Vec<BlockPos>,
    position: BlockPos,
    denied: &Vec<BlockPos>,
    place_offsets: &[(i32, i32, i32)],
) -> (r: Option<(String, BlockPos)>)
    requires
        offsets_fit(position, place_offsets@),
    ensures
        match first_fill(position, place_offsets@, wanted@, denied@, 0) {
            None => r is None,
            Some(c) => if cargo@.len() == 0 {
                r is None
            } else {
                r matches Some((name, at)) && name@ == cargo@[0].0 && at == c
            },
        },
{
    let target = find_fill(wanted, position, denied, place_offsets);
    let at = match target {
        None => return None,
        Some(c) => c,
    };
    let rows = cargo.entries();
    if rows.len() == 0 {
        return None;
    }
    assert(crate::stockpile::rows_view(rows@)[0] == cargo@[0]);
    Some((rows[0].0.clone(), at))
}

/// What loading spoil takes from one row of the pile, with `aboard`
/// already loaded: nothing of ore, nothing once the drone holds
/// `capacity`; otherwise the row, or as much of it as there is room for.
pub open spec fn spoil_took(row: (Seq<char>, u64), capacity: nat, aboard: nat) -> nat {
    if names_ore(row.0) || aboard >= capacity {
        0
    } else if row.1 < capacity - aboard {
        row.1 as nat
    } else {
        (capacity - aboard) as nat
    }
}

/// How much is aboard after loading spoil from the first `n` rows of a
/// pile, in name order.
pub open spec fn spoil_aboard(rows: Seq<(Seq<char>, u64)>, capacity: nat, n: nat) -> nat
    decreases n,
{
    if n == 0 || n > rows.len() {
        0
    } else {
        let before = spoil_aboard(rows, capacity, (n - 1) as nat);
        before + spoil_took(rows[n - 1], capacity, before)
    }
}

/// How much of `k` loading spoil takes from the first `n` rows of a pile.
pub open spec fn spoil_taken(rows: Seq<(Seq<char>, u64)>, capacity: nat, n: nat, k: Seq<char>) -> nat
    decreases n,
{
    if n == 0 || n > rows.len() {
        0
    } else {
        spoil_taken(rows, capacity, (n - 1) as nat, k) + if rows[n - 1].0 == k {
            spoil_took(rows[n - 1], capacity, spoil_aboard(rows, capacity, (n - 1) as nat))
        } else {
            0
        }
    }
}

/// A name no row before `n` holds has had nothing taken.
proof fn lemma_nothing_taken_before(rows: Seq<(Seq<char>, u64)>, capacity: nat, n: nat, k: Seq<char>)
    requires
        n <= rows.len(),
        forall|j: int| 0 <= j < n ==> #[trigger] rows[j].0 != k,
    ensures
        spoil_taken(rows, capacity, n, k) == 0,
    decreases n,
{
    if n > 0 {
        lemma_nothing_taken_before(rows, capacity, (n - 1) as nat, k);
    }
}

/// Nothing is ever taken of ore.
proof fn lemma_no_ore_taken(rows: Seq<(Seq<char>, u64)>, capacity: nat, n: nat, k: Seq<char>)
    requires
        names_ore(k),
    ensures
        spoil_taken(rows, capacity, n, k) == 0,
    decreases n,
{
    if n > 0 && n <= rows.len() {
        lemma_no_ore_taken(rows, capacity, (n - 1) as nat, k);
    }
}

/// Never more aboard than there is room for.
proof fn lemma_aboard_within(rows: Seq<(Seq<char>, u64)>, capacity: nat, n: nat)
    ensures
        spoil_aboard(rows, capacity, n) <= capacity,
    decreases n,
{
    if n > 0 && n <= rows.len() {
        lemma_aboard_within(rows, capacity, (n - 1) as nat);
    }
}

/// Fill a drone from the pile with spoil, a row at a time in name order,
/// until it holds `capacity`, and say how much went aboard. Only spoil is
/// taken: the ore stays on the pile, which is the bargain of a heap, the
/// stone you could have sold and never the copper.
pub fn load_spoil(pile: &mut Stockpile, cargo: &mut Stockpile, capacity: u64) -> (aboard: u64)
    ensures
        aboard as nat == spoil_aboard(old(pile)@, capacity as nat, old(pile)@.len()),
        aboard <= capacity,
        final(pile).sum() == old(pile).sum() - aboard,
        forall|k: Seq<char>|
            #![trigger final(pile).count_of(k)]
            final(pile).count_of(k) == old(pile).count_of(k) - spoil_taken(
                old(pile)@,
                capacity as nat,
                old(pile)@.len(),
                k,
            ),
        forall|k: Seq<char>|
            #![trigger final(cargo).count_of(k)]
            final(cargo).count_of(k) == capped(
                (old(cargo).count_of(k) + spoil_taken(old(pile)@, capacity as nat, old(pile)@.len(), k)) as int,
            ) as nat,
        forall|k: Seq<char>| #[trigger] names_ore(k) ==> final(pile).count_of(k) == old(pile).count_of(k),
{
    pile.note_well_kept();
    cargo.note_well_kept();
    let ghost p0 = pile@;
    let ghost c0 = cargo@;
    let ghost cap = capacity as nat;
    let listed = pile.clone();
    let rows = listed.entries();
    let mut aboard: u64 = 0;
    let mut i: usize = 0;
    proof {
        assert forall|k: Seq<char>| #[trigger] cargo.count_of(k) == capped(
            (count_in(c0, k) + spoil_taken(p0, cap, 0, k)) as int,
        ) as nat by {
            lemma_count_bounded(c0, k);
        }
    }
    while i < rows.len()
        invariant
            0 <= i <= rows@.len(),
            crate::stockpile::rows_view(rows@) == p0,
            crate::stockpile::wf_rows(p0),
            crate::stockpile::wf_rows(c0),
            aboard as nat == spoil_aboard(p0, cap, i as nat),
            aboard <= capacity,
            cap == capacity as nat,
            pile.sum() == sum_in(p0) - aboard,
            forall|k: Seq<char>|
                #![trigger pile.count_of(k)]
                pile.count_of(k) == count_in(p0, k) - spoil_taken(p0, cap, i as nat, k),
            forall|k: Seq<char>|
                #![trigger cargo.count_of(k)]
                cargo.count_of(k) == capped((count_in(c0, k) + spoil_taken(p0, cap, i as nat, k)) as int) as nat,
        decreases rows@.len() - i,
    {
        let name = rows[i].0.as_str();
        let count = rows[i].1;
        assert(p0[i as int] == (name@, count));
        proof {
            assert forall|j: int| 0 <= j < i implies #[trigger] p0[j].0 != name@ by {
                assert(lex_lt(key(p0[j].0), key(p0[i as int].0)));
                if p0[j].0 == name@ {
                    lemma_lex_irreflexive(key(name@));
                }
            }
            lemma_nothing_taken_before(p0, cap, i as nat, name@);
            crate::stockpile::lemma_count_at(p0, i as int);
            lemma_count_bounded(c0, name@);
        }
        if aboard < capacity && is_spoil(name) {
            let room = capacity - aboard;
            let want = if count < room { count } else { room };
            let ghost pile_before = *pile;
            let ghost cargo_before = *cargo;
            let took = pile.take(name, want);
            assert(took == want);
            cargo.add(name, took);
            aboard = aboard + took;
            proof {
                assert forall|k: Seq<char>| #[trigger] pile.count_of(k) == count_in(p0, k) - spoil_taken(
                    p0,
                    cap,
                    (i + 1) as nat,
                    k,
                ) by {
                    assert(pile_before.count_of(k) == count_in(p0, k) - spoil_taken(p0, cap, i as nat, k));
                }
                assert forall|k: Seq<char>| #[trigger] cargo.count_of(k) == capped(
                    (count_in(c0, k) + spoil_taken(p0, cap, (i + 1) as nat, k)) as int,
                ) as nat by {
                    assert(cargo_before.count_of(k) == capped(
                        (count_in(c0, k) + spoil_taken(p0, cap, i as nat, k)) as int,
                    ) as nat);
                }
            }
        } else {
            proof {
                assert forall|k: Seq<char>| #[trigger] pile.count_of(k) == count_in(p0, k) - spoil_taken(
                    p0,
                    cap,
                    (i + 1) as nat,
                    k,
                ) by {}
                assert forall|k: Seq<char>| #[trigger] cargo.count_of(k) == capped(
                    (count_in(c0, k) + spoil_taken(p0, cap, (i + 1) as nat, k)) as int,
                ) as nat by {}
            }
        }
        i = i + 1;
    }
    proof {
        assert forall|k: Seq<char>| #[trigger] names_ore(k) implies pile.count_of(k) == count_in(p0, k) by {
            lemma_no_ore_taken(p0, cap, p0.len(), k);
        }
    }
    aboard
}

/// What the stacking step does with a drone's turn.
#[derive(Debug, Clone, PartialEq, Eq)]
pub enum StackAction {
    /// Empty, at the pile, with spoil on it: load spoil.
    Load,
    /// Empty, away from the pile, with spoil on it: walk home for more.
    WalkHome,
    /// Nothing to stack with and nothing to fetch, or nothing left it may
    /// fill: hand the job back.
    Release,
    /// The heap's course is full: retire the job.
    Complete,
    /// Put this good in this cell.
    Place(String, BlockPos),
    /// Route toward the cells it may still fill.
    Travel,
}

/// What the stacking step chooses, the good it places aside.
#[derive(Debug, Clone, Copy, PartialEq, Eq, Structural)]
pub enum StackPlan {
    Load,
    WalkHome,
    Release,
    Complete,
    Place(BlockPos),
    Travel,
}

/// The choice a stacking action makes.
pub open spec fn plan_of(a: StackAction) -> StackPlan {
    match a {
        StackAction::Load => StackPlan::Load,
        StackAction::WalkHome => StackPlan::WalkHome,
        StackAction::Release => StackPlan::Release,
        StackAction::Complete => StackPlan::Complete,
        StackAction::Place(_, c) => StackPlan::Place(c),
        StackAction::Travel => StackPlan::Travel,
    }
}

/// Whether a pile holds any spoil.
pub open spec fn spoil_on(rows: Seq<(Seq<char>, u64)>) -> bool {
    exists|i: int| 0 <= i < rows.len() && !names_ore(#[trigger] rows[i].0)
}

/// The stacking step, in order: an empty drone loads spoil at the pile if
/// there is any and it has room, walks home for it if there is any, and
/// otherwise hands the job back; a loaded one retires a course with nothing
/// left to fill, fills the first cell in reach, hands back a course whose
/// every remaining cell was refused it, and otherwise routes toward the
/// rest.
pub open spec fn stack_turn_spec(
    d: DroneSnapshot,
    near_pile: bool,
    pile: Seq<(Seq<char>, u64)>,
    wanted: Seq<BlockPos>,
    place_offsets: Seq<(i32, i32, i32)>,
) -> StackPlan {
    if d.cargo@.len() == 0 {
        if near_pile && d.capacity > 0 && spoil_on(pile) {
            StackPlan::Load
        } else if spoil_on(pile) {
            StackPlan::WalkHome
        } else {
            StackPlan::Release
        }
    } else if wanted.len() == 0 {
        StackPlan::Complete
    } else {
        match first_fill(d.position, place_offsets, wanted, d.denied@, 0) {
            Some(c) => StackPlan::Place(c),
            None => if workable_left(wanted, d.denied@) {
                StackPlan::Travel
            } else {
                StackPlan::Release
            },
        }
    }
}

/// Whether a pile holds any spoil.
fn any_spoil(pile: &Stockpile) -> (found: bool)
    ensures
        found == spoil_on(pile@),
{
    let rows = pile.entries();
    let mut i: usize = 0;
    while i < rows.len()
        invariant
            0 <= i <= rows@.len(),
            crate::stockpile::rows_view(rows@) == pile@,
            forall|j: int| 0 <= j < i ==> names_ore(#[trigger] pile@[j].0),
        decreases rows@.len() - i,
    {
        assert(pile@[i as int].0 == rows@[i as int].0@);
        if is_spoil(rows[i].0.as_str()) {
            return true;
        }
        i = i + 1;
    }
    false
}

/// Decide a stacking drone's turn, on its heap job, from whether it stands
/// at the pile (see [`at_drop_off`]), what is on the pile, the heap's cells
/// in the job that are still air and wanted, and the order it places in;
/// see [`stack_turn_spec`]. A placement names the first good aboard by name,
/// so the same cargo always stacks the same way.
pub fn stack_turn(
    d: &DroneSnapshot,
    near_pile: bool,
    pile: &Stockpile,
    wanted: &Vec<BlockPos>,
    place_offsets: &[(i32, i32, i32)],
) -> (r: StackAction)
    requires
        offsets_fit(d.position, place_offsets@),
    ensures
        plan_of(r) == stack_turn_spec(*d, near_pile, pile@, wanted@, place_offsets@),
        r matches StackAction::Place(name, _) ==> d.cargo@.len() > 0 && name@ == d.cargo@[0].0,
{
    if d.cargo.is_empty() {
        let spoil = any_spoil(pile);
        if near_pile && d.capacity > 0 && spoil {
            return StackAction::Load;
        } else if spoil {
            return StackAction::WalkHome;
        } else {
            return StackAction::Release;
        }
    }
    if wanted.len() == 0 {
        return StackAction::Complete;
    }
    match spoil_to_stack(&d.cargo, wanted, d.position, &d.denied, place_offsets) {
        Some((name, c)) => StackAction::Place(name, c),
        None => {
            if any_workable(wanted, &d.denied) {
                StackAction::Travel
            } else {
                StackAction::Release
            }
        },
    }
}

/// **A loaded drone with a way home is never left standing idle.** Whatever
/// its job, and whether or not a heap turns it down, a drone carrying
/// something that stands at the drop-off or has a step toward it does
/// something with its turn: it is never parked with its load aboard.
pub proof fn lemma_a_loaded_drone_with_a_way_home_never_idles(
    d: DroneSnapshot,
    s: DroneSight,
    job: Option<Job>,
    heap_wants: bool,
)
    requires
        d.cargo.sum() > 0,
        near_drop_off(s.settled, s.drop_off) || s.step_home is Some,
    ensures
        drone_turn_spec(d, s, job, heap_wants).action != DroneAction::Idle,
{
}

/// **A stacking job the heap turns down sends a loaded drone home.** When
/// the heap will not take the drone this turn, a drone carrying a part load
/// runs it home: unloading if it stands at the drop-off, else stepping
/// toward it, and it lets the stacking job go.
pub proof fn lemma_a_refused_heap_sends_the_load_home(d: DroneSnapshot, s: DroneSight, j: Job, heap_wants: bool)
    requires
        j.kind == JobKind::Stack,
        !s.stacks,
        d.cargo.sum() > 0,
        near_drop_off(s.settled, s.drop_off) || s.step_home is Some,
    ensures
        near_drop_off(s.settled, s.drop_off) ==> drone_turn_spec(d, s, Some(j), heap_wants).action
            == DroneAction::Unload && drone_turn_spec(d, s, Some(j), heap_wants).state == DroneState::Idle,
        !near_drop_off(s.settled, s.drop_off) ==> drone_turn_spec(d, s, Some(j), heap_wants).action
            == DroneAction::HaulTo(s.step_home->0) && drone_turn_spec(d, s, Some(j), heap_wants).state
            == DroneState::Hauling,
        !s.full ==> drone_turn_spec(d, s, Some(j), heap_wants).job is None,
{
}

} // verus!
