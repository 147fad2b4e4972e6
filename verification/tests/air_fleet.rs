use vx_app::air::{flier_turn, flies, transfer, Fleet, FlierAction, Flier, FlierState, FleetSnapshot, Pickup, Sector, SurveySnapshot};
use vx_app::geometry::BlockPos;
use vx_app::stockpile::Stockpile;

fn flier_at(x: i32, y: i32, z: i32) -> Flier {
    let at = BlockPos::new(x, y, z);
    Flier { position: at, previous_position: at, state: FlierState::Idle, cargo: Stockpile::new(), capacity: 12 }
}

fn fleet_over() -> Fleet {
    let mut fleet = Fleet::restore(FleetSnapshot {
        fliers: vec![],
        base: None,
        scan_depth: 20,
        surveys: vec![],
        controlled: None,
        orphan: Stockpile::new(),
    });
    fleet.add_flier(flier_at(0, 70, 0));
    fleet
}

#[test]
fn a_fleet_round_trips_through_a_snapshot() {
    let mut fleet = fleet_over();
    fleet.set_base(BlockPos::new(-2, 61, 3));
    fleet.receive(&vec![("engine:copper_ore".to_string(), 12)]);
    fleet.set_scan_depth(41);
    assert!(fleet.dispatch_scan(Sector { x: 0, z: 0 }));
    assert!(!fleet.is_surveyed(Sector { x: 0, z: 0 }));

    let snapshot = fleet.snapshot();
    let back = Fleet::restore(fleet.snapshot());
    assert_eq!(back.scan_depth(), 41);
    assert_eq!(back.base().as_ref().map(|base| base.stockpile.total()), Some(12));
    assert_eq!(back.fliers().len(), fleet.fliers().len());
    assert_eq!(back.is_surveyed(Sector { x: 0, z: 0 }), fleet.is_surveyed(Sector { x: 0, z: 0 }));
    let again = back.snapshot();
    assert_eq!(again.surveys, snapshot.surveys);
    assert_eq!(again.base, snapshot.base);
    assert_eq!(again.controlled, snapshot.controlled);
    assert_eq!(again.fliers[0].state, snapshot.fliers[0].state);
}

#[test]
fn taking_control_of_a_flier_suspends_its_survey_and_hand_back_resumes_it() {
    let mut fleet = fleet_over();
    let sector = Sector { x: 1, z: 1 };
    assert!(fleet.dispatch_scan(sector));
    let mid_sweep = fleet.fliers()[0].state;
    assert!(matches!(mid_sweep, FlierState::Scanning { .. }));

    assert!(fleet.take_control(0));
    assert_eq!(fleet.controlled(), Some(0));
    assert_eq!(fleet.fliers()[0].state, FlierState::Manual);
    assert!(!fleet.take_control(0), "two hands on one stick");

    assert!(!fleet.release_control(1));
    assert!(fleet.release_control(0));
    assert_eq!(fleet.controlled(), None);
    assert_eq!(fleet.fliers()[0].state, mid_sweep, "the survey was lost instead of resumed");
}

#[test]
fn a_busy_flier_cannot_be_dispatched_again() {
    let mut fleet = fleet_over();
    assert!(fleet.dispatch_scan(Sector { x: 0, z: 0 }));
    assert!(!fleet.dispatch_scan(Sector { x: 1, z: 0 }), "one flier took two jobs");
}

#[test]
fn no_base_means_no_ferrying() {
    let mut fleet = fleet_over();
    fleet.consider_ferrying(0, &[Pickup { home: BlockPos::new(20, 61, 20), stocked: true }]);
    assert_eq!(fleet.fliers()[0].state, FlierState::Idle);
}

#[test]
fn the_nearest_stocked_mine_is_the_one_visited() {
    let mut fleet = fleet_over();
    fleet.set_base(BlockPos::new(0, 60, 0));
    fleet.consider_ferrying(
        0,
        &[
            Pickup { home: BlockPos::new(5, 60, 0), stocked: false },
            Pickup { home: BlockPos::new(30, 60, 0), stocked: true },
            Pickup { home: BlockPos::new(-9, 60, 9), stocked: true },
            Pickup { home: BlockPos::new(9, 60, -9), stocked: true },
        ],
    );
    assert_eq!(fleet.fliers()[0].state, FlierState::ToPickup { mine: 2 });
}

#[test]
fn a_broken_container_keeps_its_goods_for_the_next_one() {
    let mut fleet = fleet_over();
    fleet.set_base(BlockPos::new(4, 70, 4));
    fleet.receive(&vec![("engine:copper_ore".to_string(), 91), ("engine:stone".to_string(), 9)]);
    assert_eq!(fleet.held(), 100);
    assert_eq!(fleet.clear_base(), 100);
    assert!(fleet.base().is_none());
    assert_eq!(fleet.orphaned().total(), 100);
    assert_eq!(fleet.held(), 100, "breaking the box lost goods");
    assert_eq!(fleet.clear_base(), 0);

    fleet.set_base(BlockPos::new(8, 70, 8));
    let base = fleet.base().as_ref().expect("no base");
    assert_eq!(base.position, BlockPos::new(8, 70, 8));
    assert_eq!(base.stockpile.count("engine:copper_ore"), 91);
    assert!(fleet.orphaned().is_empty());
    assert_eq!(fleet.held(), 100);
}

#[test]
fn goods_with_no_base_are_not_received() {
    let mut fleet = fleet_over();
    fleet.receive(&vec![("engine:log".to_string(), 3)]);
    assert!(fleet.base().is_none());
    assert_eq!(fleet.held(), 0);
    fleet.orphan_goods(&vec![("engine:log".to_string(), 3)]);
    assert_eq!(fleet.held(), 3);
    let taken = fleet.orphan_take();
    assert_eq!(taken.count("engine:log"), 3);
    assert_eq!(fleet.held(), 0);
}

#[test]
fn the_ferry_moves_every_block_and_loses_none() {
    let mut pile = Stockpile::new();
    pile.add("engine:copper_ore", 10);
    pile.add("engine:stone", 7);
    let mut flier = flier_at(0, 70, 0);
    transfer(&mut pile, &mut flier);
    assert_eq!(flier.cargo.total(), 12, "the flier left with room to spare");
    assert_eq!(flier.cargo.count("engine:copper_ore"), 10);
    assert_eq!(flier.cargo.count("engine:stone"), 2);
    assert_eq!(pile.total(), 5);
    transfer(&mut pile, &mut flier);
    assert_eq!(pile.total(), 5, "a full flier took more");
    let mut light = flier_at(0, 70, 0);
    transfer(&mut pile, &mut light);
    assert!(pile.is_empty());
    assert_eq!(light.cargo.count("engine:stone"), 5);
}

#[test]
fn the_air_side_counts_every_block_it_holds() {
    let mut fleet = fleet_over();
    fleet.set_base(BlockPos::new(0, 60, 0));
    fleet.receive(&vec![("engine:stone".to_string(), 4)]);
    let mut carrier = flier_at(1, 70, 1);
    carrier.cargo.add("engine:copper_ore", 6);
    fleet.add_flier(carrier);
    assert_eq!(fleet.accounted_blocks(), 10);
}

#[test]
fn only_finished_sweeps_are_shaded() {
    let survey = |x: i32, complete: bool| SurveySnapshot {
        sector: Sector { x, z: 0 },
        covered: vec![],
        hits: vec![],
        complete,
    };
    let fleet = Fleet::restore(FleetSnapshot {
        fliers: vec![],
        base: None,
        scan_depth: 20,
        surveys: vec![survey(3, true), survey(-1, false), survey(1, true), survey(3, false), survey(2, true)],
        controlled: None,
        orphan: Stockpile::new(),
    });
    assert_eq!(fleet.surveyed_sectors(), vec![Sector { x: 1, z: 0 }, Sector { x: 2, z: 0 }]);
    assert!(!fleet.is_surveyed(Sector { x: 3, z: 0 }), "the later survey of a sector is the one kept");
    assert!(fleet.is_surveyed(Sector { x: 2, z: 0 }));
    assert_eq!(fleet.snapshot().surveys.len(), 4);
}

#[test]
fn a_restored_survey_keeps_each_column_once_in_column_order() {
    let fleet = Fleet::restore(FleetSnapshot {
        fliers: vec![],
        base: None,
        scan_depth: 20,
        surveys: vec![SurveySnapshot {
            sector: Sector { x: 0, z: 0 },
            covered: vec![(5, 1), (-3, 7), (5, 1), (0, 2), (-3, 4)],
            hits: vec![((5, 1), (40, 90)), ((-3, 7), (12, 80)), ((5, 1), (41, 91))],
            complete: true,
        }],
        controlled: None,
        orphan: Stockpile::new(),
    });
    let surveys = fleet.snapshot().surveys;
    assert_eq!(surveys.len(), 1);
    assert_eq!(surveys[0].covered, vec![(-3, 4), (-3, 7), (0, 2), (5, 1)]);
    assert_eq!(surveys[0].hits, vec![((-3, 7), (12, 80)), ((5, 1), (41, 91))], "the last finding for a column wins");
    assert!(surveys[0].complete);
}

#[test]
fn breaking_a_container_and_placing_another_keeps_every_good() {
    let mut fleet = fleet_over();
    fleet.set_base(BlockPos::new(0, 60, 0));
    fleet.receive(&vec![("engine:copper_ore".to_string(), 31), ("engine:stone".to_string(), 4)]);
    fleet.orphan_goods(&vec![("engine:stone".to_string(), 2)]);
    let before = fleet.held();
    assert_eq!(fleet.clear_base(), 35);
    assert_eq!(fleet.held(), before, "the break lost or made goods");
    assert_eq!(fleet.orphaned().total(), 37);
    fleet.set_base(BlockPos::new(5, 60, 5));
    assert_eq!(fleet.base().as_ref().map(|base| base.stockpile.total()), Some(before));
    assert!(fleet.orphaned().is_empty());
}

#[test]
fn a_flier_turn_follows_its_errand() {
    let sector = Sector { x: 1, z: -2 };
    let scanning = FlierState::Scanning { sector, waypoint: 2 };
    assert!(flies(scanning, 3, false, false));
    assert_eq!(
        flier_turn(scanning, 3, false, false, true),
        (FlierState::Scanning { sector, waypoint: 3 }, FlierAction::ScanSwath { sector, waypoint: 2 })
    );
    assert_eq!(flier_turn(scanning, 3, false, false, false), (scanning, FlierAction::Nothing));
    let done = FlierState::Scanning { sector, waypoint: 3 };
    assert!(!flies(done, 3, true, true));
    assert_eq!(flier_turn(done, 3, true, true, false), (FlierState::Idle, FlierAction::CompleteSurvey(sector)));

    let pickup = FlierState::ToPickup { mine: 4 };
    assert_eq!(flier_turn(pickup, 0, true, true, true), (FlierState::ToBase, FlierAction::LoadAtMine(4)));
    assert_eq!(flier_turn(pickup, 0, false, true, true), (FlierState::Idle, FlierAction::Nothing));
    assert!(!flies(pickup, 0, false, true));

    assert_eq!(flier_turn(FlierState::ToBase, 0, true, true, true), (FlierState::Idle, FlierAction::UnloadAtBase));
    assert_eq!(flier_turn(FlierState::ToBase, 0, true, false, true), (FlierState::Idle, FlierAction::Nothing));
    assert_eq!(flier_turn(FlierState::Idle, 0, true, true, false), (FlierState::Idle, FlierAction::LookForWork));
    assert_eq!(flier_turn(FlierState::Manual, 0, true, true, true), (FlierState::Manual, FlierAction::Nothing));
    assert_eq!(flier_turn(FlierState::Lost, 0, true, true, true), (FlierState::Lost, FlierAction::Nothing));
}

#[test]
fn a_swath_covers_each_column_once_and_a_finished_sweep_is_surveyed() {
    let mut fleet = fleet_over();
    let sector = Sector { x: 3, z: 3 };
    assert!(fleet.needs_scan(sector, (96, 97)));
    assert!(fleet.cover(sector, (96, 97), Some((-12, 70))));
    assert!(fleet.cover(sector, (96, 96), None));
    assert!(!fleet.needs_scan(sector, (96, 97)));
    assert!(!fleet.cover(sector, (96, 97), Some((-1, 70))), "a covered column was read twice");
    assert!(!fleet.is_surveyed(sector));
    fleet.complete_survey(sector);
    assert!(fleet.is_surveyed(sector));
    let surveys = fleet.snapshot().surveys;
    let survey = surveys.iter().find(|s| s.sector == sector).expect("the survey");
    assert_eq!(survey.covered, vec![(96, 96), (96, 97)]);
    assert_eq!(survey.hits, vec![((96, 97), (-12, 70))]);
    assert!(survey.complete);
}
