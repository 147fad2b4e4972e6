use vx_app::crew::{DroneId, DroneSnapshot, DroneState, Job, JobId, JobKind};
use vx_app::geometry::{BlockPos, VoxelAabb};
use vx_app::operation::{
    at_drop_off, drone_turn, give_up, load_spoil, note_refusal, spoil_to_stack, stack_turn, unload,
    workable, DroneAction, DroneSight, StackAction, DROP_OFF_RANGE,
};
use vx_app::stockpile::Stockpile;

fn at(x: i32, y: i32, z: i32) -> BlockPos {
    BlockPos::new(x, y, z)
}

fn drone(position: BlockPos) -> DroneSnapshot {
    DroneSnapshot {
        id: DroneId(0),
        position,
        previous_position: position,
        state: DroneState::Idle,
        cargo: Stockpile::new(),
        capacity: 64,
        grade: 0,
        job: None,
        denied: Vec::new(),
        denied_job: None,
    }
}

fn cut_job(id: u64) -> Job {
    Job {
        id: JobId(id),
        kind: JobKind::Extract,
        region: VoxelAabb { min: at(0, 0, 0), max: at(3, 3, 3) },
        priority: 1,
    }
}

fn sight(settled: BlockPos) -> DroneSight {
    DroneSight {
        settled,
        full: false,
        drop_off: at(100, 0, 100),
        step_home: None,
        stack_job: None,
        stacks: false,
        next_cut: None,
        cached_step: None,
        remaining: Vec::new(),
    }
}

#[test]
fn the_drop_off_is_two_blocks_every_way() {
    assert_eq!(DROP_OFF_RANGE, 2);
    assert!(at_drop_off(at(2, -2, 2), at(0, 0, 0)));
    assert!(!at_drop_off(at(3, 0, 0), at(0, 0, 0)));
    assert!(!at_drop_off(at(0, 0, -3), at(0, 0, 0)));
    assert!(at_drop_off(at(i32::MAX, 0, 0), at(i32::MAX - 1, 1, 0)));
    assert!(!at_drop_off(at(i32::MIN, 0, 0), at(i32::MAX, 0, 0)));
}

#[test]
fn unloading_tips_every_good_onto_the_pile() {
    let mut cargo = Stockpile::new();
    cargo.add("stone", 3);
    cargo.add("copper_ore", 2);
    let mut pile = Stockpile::new();
    pile.add("stone", 5);
    assert_eq!(unload(&mut cargo, &mut pile), 5);
    assert!(cargo.is_empty());
    assert_eq!(pile.count("stone"), 8);
    assert_eq!(pile.count("copper_ore"), 2);
    assert_eq!(pile.total(), 10);
}

#[test]
fn unloading_onto_a_brim_full_row_stops_at_the_top() {
    let mut cargo = Stockpile::new();
    cargo.add("stone", 10);
    let mut pile = Stockpile::new();
    pile.add("stone", u64::MAX - 4);
    assert_eq!(unload(&mut cargo, &mut pile), 10);
    assert_eq!(pile.count("stone"), u64::MAX);
}

#[test]
fn a_stacker_fills_the_lowest_wanted_cell_with_its_first_good() {
    let mut cargo = Stockpile::new();
    cargo.add("stone", 4);
    cargo.add("dirt", 1);
    let offsets = [(1, -1, 0), (1, 0, 0), (1, 1, 0)];
    let wanted = vec![at(1, 1, 0), at(1, 2, 0)];
    let position = at(0, 1, 0);
    assert_eq!(
        spoil_to_stack(&cargo, &wanted, position, &Vec::new(), &offsets),
        Some(("dirt".to_string(), at(1, 1, 0)))
    );
    let refused = vec![at(1, 1, 0)];
    assert_eq!(
        spoil_to_stack(&cargo, &wanted, position, &refused, &offsets),
        Some(("dirt".to_string(), at(1, 2, 0)))
    );
    assert_eq!(spoil_to_stack(&Stockpile::new(), &wanted, position, &Vec::new(), &offsets), None);
    assert_eq!(spoil_to_stack(&cargo, &vec![at(9, 9, 9)], position, &Vec::new(), &offsets), None);
}

#[test]
fn a_full_drone_at_the_drop_off_unloads() {
    let mut d = drone(at(100, 0, 101));
    let mut sees = sight(at(100, 0, 101));
    sees.full = true;
    sees.next_cut = Some(at(100, 0, 102));
    let turn = drone_turn(&mut d, &sees, Some(cut_job(1)), false);
    assert_eq!(turn.action, DroneAction::Unload);
    assert_eq!(d.state, DroneState::Idle);
    assert!(!turn.fell);
}

#[test]
fn a_full_drone_away_from_home_walks_home() {
    let mut d = drone(at(0, 5, 0));
    let mut sees = sight(at(0, 5, 0));
    sees.full = true;
    sees.step_home = Some(at(1, 5, 0));
    let turn = drone_turn(&mut d, &sees, Some(cut_job(1)), false);
    assert_eq!(turn.action, DroneAction::HaulTo(at(1, 5, 0)));
    assert_eq!(d.state, DroneState::Hauling);
}

#[test]
fn a_full_drone_with_no_way_home_keeps_cutting() {
    let mut d = drone(at(0, 5, 0));
    let mut sees = sight(at(0, 5, 0));
    sees.full = true;
    sees.next_cut = Some(at(1, 5, 0));
    let turn = drone_turn(&mut d, &sees, Some(cut_job(1)), false);
    assert_eq!(turn.action, DroneAction::Cut(JobId(1), at(1, 5, 0)));
}

#[test]
fn a_full_drone_stacks_on_a_heap_that_wants_blocks() {
    let mut d = drone(at(0, 5, 0));
    let heap = Job { kind: JobKind::Stack, priority: -1_000, ..cut_job(7) };
    let mut sees = sight(at(0, 5, 0));
    sees.full = true;
    sees.step_home = Some(at(1, 5, 0));
    sees.stack_job = Some(heap);
    sees.stacks = true;
    let turn = drone_turn(&mut d, &sees, Some(cut_job(1)), true);
    assert_eq!(turn.action, DroneAction::Stack(heap));
    assert_eq!(d.job, Some(JobId(7)));
}

#[test]
fn a_drone_cuts_what_is_in_reach_and_learns_afresh_for_a_new_job() {
    let mut d = drone(at(0, 5, 0));
    d.denied = vec![at(9, 9, 9)];
    d.denied_job = Some(JobId(3));
    let mut sees = sight(at(0, 4, 0));
    sees.next_cut = Some(at(1, 4, 0));
    sees.cached_step = Some(Some(at(5, 5, 5)));
    let turn = drone_turn(&mut d, &sees, Some(cut_job(1)), false);
    assert!(turn.fell, "the drone did not fall");
    assert_eq!(turn.action, DroneAction::Cut(JobId(1), at(1, 4, 0)));
    assert_eq!(d.state, DroneState::Digging(JobId(1)));
    assert_eq!(d.job, Some(JobId(1)));
    assert!(d.denied.is_empty(), "refusals carried over to another job");
    assert_eq!(d.denied_job, Some(JobId(1)));
}

#[test]
fn a_drone_follows_its_cached_route() {
    let mut d = drone(at(0, 5, 0));
    let mut sees = sight(at(0, 5, 0));
    sees.cached_step = Some(Some(at(1, 5, 0)));
    sees.remaining = vec![at(3, 3, 3)];
    let turn = drone_turn(&mut d, &sees, Some(cut_job(1)), false);
    assert_eq!(turn.action, DroneAction::Step(JobId(1), at(1, 5, 0)));
    assert_eq!(d.state, DroneState::Travelling(JobId(1)));

    sees.cached_step = Some(None);
    let turn = drone_turn(&mut d, &sees, Some(cut_job(1)), false);
    assert_eq!(turn.action, DroneAction::Release(JobId(1)));
    assert_eq!(d.state, DroneState::Stuck);
    assert_eq!(d.job, None);
}

#[test]
fn a_job_with_nothing_left_is_retired() {
    let mut d = drone(at(0, 5, 0));
    let sees = sight(at(0, 5, 0));
    let turn = drone_turn(&mut d, &sees, Some(cut_job(1)), false);
    assert_eq!(turn.action, DroneAction::Complete(JobId(1)));
    assert_eq!(d.job, None);
    assert_eq!(d.state, DroneState::Idle);
}

#[test]
fn a_job_whose_every_cell_was_refused_is_released_not_retired() {
    let mut d = drone(at(0, 5, 0));
    d.job = Some(JobId(1));
    d.denied_job = Some(JobId(1));
    d.denied = vec![at(1, 1, 1), at(2, 2, 2)];
    let mut sees = sight(at(0, 5, 0));
    sees.remaining = vec![at(2, 2, 2), at(1, 1, 1)];
    let turn = drone_turn(&mut d, &sees, Some(cut_job(1)), false);
    assert_eq!(turn.action, DroneAction::Release(JobId(1)));
    assert_eq!(d.state, DroneState::Stuck);
    assert_eq!(d.denied.len(), 2, "a held job forgot its refusals");

    sees.remaining.push(at(3, 3, 3));
    let mut d2 = drone(at(0, 5, 0));
    d2.job = Some(JobId(1));
    d2.denied_job = Some(JobId(1));
    d2.denied = vec![at(1, 1, 1), at(2, 2, 2)];
    let turn = drone_turn(&mut d2, &sees, Some(cut_job(1)), false);
    assert_eq!(turn.action, DroneAction::Travel(JobId(1)));
    assert_eq!(workable(&sees.remaining, &d2.denied), vec![at(3, 3, 3)]);
}

#[test]
fn a_drone_with_no_job_brings_a_part_load_home_or_idles() {
    let mut d = drone(at(0, 5, 0));
    let mut sees = sight(at(0, 5, 0));
    sees.step_home = Some(at(0, 5, 1));
    let turn = drone_turn(&mut d, &sees, None, false);
    assert_eq!(turn.action, DroneAction::Idle);
    assert_eq!(d.state, DroneState::Idle);

    d.cargo.add("stone", 1);
    let turn = drone_turn(&mut d, &sees, None, false);
    assert_eq!(turn.action, DroneAction::HaulTo(at(0, 5, 1)));
}

#[test]
fn a_refusal_is_remembered_once_and_giving_up_leaves_the_drone_stuck() {
    let mut d = drone(at(0, 5, 0));
    d.job = Some(JobId(4));
    note_refusal(&mut d, at(1, 1, 1));
    note_refusal(&mut d, at(1, 1, 1));
    assert_eq!(d.denied, vec![at(1, 1, 1)]);
    give_up(&mut d);
    assert_eq!(d.job, None);
    assert_eq!(d.state, DroneState::Stuck);
}

#[test]
fn loading_for_a_heap_takes_spoil_and_leaves_the_ore() {
    let mut pile = Stockpile::new();
    pile.add("copper_ore", 5);
    pile.add("dirt", 3);
    pile.add("stone", 10);
    let mut cargo = Stockpile::new();
    assert_eq!(load_spoil(&mut pile, &mut cargo, 8), 8);
    assert_eq!(pile.count("copper_ore"), 5, "the copper went on the heap");
    assert_eq!(pile.count("dirt"), 0);
    assert_eq!(pile.count("stone"), 5);
    assert_eq!(cargo.count("dirt"), 3);
    assert_eq!(cargo.count("stone"), 5);
    assert_eq!(cargo.count("copper_ore"), 0);

    let mut ore_only = Stockpile::new();
    ore_only.add("iron_ore", 4);
    let mut bed = Stockpile::new();
    assert_eq!(load_spoil(&mut ore_only, &mut bed, 64), 0);
    assert_eq!(ore_only.count("iron_ore"), 4);
    assert!(bed.is_empty());
}

#[test]
fn an_empty_stacker_loads_at_the_pile_walks_home_or_gives_up() {
    let d = drone(at(0, 5, 0));
    let offsets = [(1, 0, 0)];
    let wanted = vec![at(1, 5, 0)];
    let mut pile = Stockpile::new();
    pile.add("gold_ore", 3);
    assert_eq!(stack_turn(&d, true, &pile, &wanted, &offsets), StackAction::Release, "ore is not spoil");
    pile.add("stone", 2);
    assert_eq!(stack_turn(&d, true, &pile, &wanted, &offsets), StackAction::Load);
    assert_eq!(stack_turn(&d, false, &pile, &wanted, &offsets), StackAction::WalkHome);
}

#[test]
fn a_loaded_stacker_fills_retires_or_routes() {
    let mut d = drone(at(0, 5, 0));
    d.cargo.add("stone", 2);
    let offsets = [(1, 0, 0)];
    let pile = Stockpile::new();
    assert_eq!(stack_turn(&d, false, &pile, &Vec::new(), &offsets), StackAction::Complete);
    assert_eq!(
        stack_turn(&d, false, &pile, &vec![at(1, 5, 0)], &offsets),
        StackAction::Place("stone".to_string(), at(1, 5, 0))
    );
    assert_eq!(stack_turn(&d, false, &pile, &vec![at(7, 5, 0)], &offsets), StackAction::Travel);
    d.denied = vec![at(7, 5, 0)];
    assert_eq!(stack_turn(&d, false, &pile, &vec![at(7, 5, 0)], &offsets), StackAction::Release);
}
