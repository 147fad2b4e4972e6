use vx_app::drill::{deposit, Deposited, NO_BASE};
use vx_app::drops::Drops;
use vx_app::geometry::BlockPos;
use vx_app::geometry::VoxelAabb;
use vx_app::operation::{after_tick, working_span, RunOutcome, TickReport, PATIENCE, WORK_MARGIN};
use vx_app::pack::{capacity, Pack};
use vx_app::pilot::{Heading, PilotCommand, PilotReport, PilotStep};

#[test]
fn what_you_break_goes_on_your_back() {
    let at = BlockPos::new(3, 40, -2);
    let capacity = capacity(1, 0, 0);
    let mut pack = Pack::new();
    let mut floor = Drops::new();
    assert_eq!(
        deposit(&mut pack, &mut floor, capacity, Some("engine:copper_ore"), at, false),
        Deposited::Packed("engine:copper_ore".into())
    );
    assert_eq!(pack.count("engine:copper_ore"), 1);
    assert!(floor.is_empty(), "something fell that should not have");
}

#[test]
fn a_full_pack_puts_it_on_the_floor() {
    let at = BlockPos::new(3, 200, -2);
    let capacity = capacity(1, 0, 0);
    let mut pack = Pack::new();
    while pack.stow("engine:stone", capacity) {}
    let carried = pack.total();

    let mut floor = Drops::new();
    assert_eq!(
        deposit(&mut pack, &mut floor, capacity, Some("engine:copper_ore"), at, false),
        Deposited::Dropped("engine:copper_ore".into())
    );
    assert_eq!(pack.total(), carried, "a full pack took it anyway");
    assert_eq!(floor.count("engine:copper_ore"), 1, "the ore evaporated");
    assert_eq!(floor.iter()[0].at, at, "it fell somewhere else");
}

#[test]
fn a_supply_cache_yields_its_haul_and_not_itself() {
    let capacity = capacity(1, 0, 0);
    let mut pack = Pack::new();
    let mut floor = Drops::new();
    assert_eq!(
        deposit(&mut pack, &mut floor, capacity, Some("engine:supply_cache"), BlockPos::new(0, 40, 0), true),
        Deposited::Crate
    );
    assert_eq!(pack.total(), 0, "the crate itself landed in the pack");
    assert!(floor.is_empty());
}

#[test]
fn a_block_nobody_knows_is_reported() {
    let mut pack = Pack::new();
    let mut floor = Drops::new();
    assert_eq!(
        deposit(&mut pack, &mut floor, 640, None, BlockPos::new(0, 0, 0), false),
        Deposited::Unknown
    );
    assert!(pack.is_empty());
    assert!(floor.is_empty());
    assert!(NO_BASE.chars().all(|c| c.is_ascii_uppercase() || " .".contains(c)));
}

#[test]
fn a_heading_rotates_by_quarters() {
    assert_eq!(Heading::PosX.rotated(1), Heading::PosZ);
    assert_eq!(Heading::PosX.rotated(-1), Heading::NegZ);
    assert_eq!(Heading::PosX.rotated(4), Heading::PosX);
    assert_eq!(Heading::PosZ.rotated(2), Heading::NegZ);
    assert_eq!(Heading::NegX.rotated(-7), Heading::NegZ);
}

#[test]
fn a_heading_steps_one_cell_on_the_ground() {
    assert_eq!(Heading::PosX.offset(), [1, 0, 0]);
    assert_eq!(Heading::NegX.offset(), [-1, 0, 0]);
    assert_eq!(Heading::PosZ.offset(), [0, 0, 1]);
    assert_eq!(Heading::NegZ.offset(), [0, 0, -1]);
    for h in [Heading::PosX, Heading::NegX, Heading::PosZ, Heading::NegZ] {
        let there = h.offset();
        let back = h.rotated(2).offset();
        assert_eq!([there[0] + back[0], there[1] + back[1], there[2] + back[2]], [0, 0, 0]);
    }
}

#[test]
fn an_idle_command_and_report_are_nothing() {
    assert_eq!(PilotCommand::default(), PilotCommand { heading: None, cut: false, climb: 0 });
    assert_eq!(PilotReport::default(), PilotReport { moved: false, dug: 0, blocked: false, dive: 0 });
    assert_eq!(PilotStep::default(), PilotStep { moved: false, dive: 0 });
}

#[test]
fn a_tick_where_nothing_happened_is_idle() {
    assert!(TickReport::default().is_idle());
    let busy = TickReport { dug: 0, moved: 1, completed: 0, delivered: 0, placed: 0 };
    assert!(!busy.is_idle());
    let stacking = TickReport { placed: 2, ..TickReport::default() };
    assert!(!stacking.is_idle());
}

#[test]
fn the_working_span_covers_the_dig_its_home_and_a_margin() {
    let region = VoxelAabb::new(BlockPos::new(10, 40, 10), BlockPos::new(14, 60, 12));
    let home = BlockPos::new(-3, 65, 20);
    let span = working_span(region, home, 256);
    assert_eq!(span.min, BlockPos::new(-3 - WORK_MARGIN, 40 - WORK_MARGIN, 10 - WORK_MARGIN));
    assert_eq!(span.max, BlockPos::new(14 + WORK_MARGIN, 65 + WORK_MARGIN, 20 + WORK_MARGIN));
    // Pulled into the world at both ends.
    let deep = working_span(VoxelAabb::new(BlockPos::new(0, 2, 0), BlockPos::new(1, 250, 1)), BlockPos::new(0, 64, 0), 256);
    assert_eq!(deep.min.y, 0);
    assert_eq!(deep.max.y, 255);
}

#[test]
fn a_run_is_called_stuck_after_sixty_four_quiet_ticks_and_not_before() {
    let quiet = TickReport::default();
    let busy = TickReport { dug: 1, ..TickReport::default() };
    let mut count = 0u32;
    for tick in 1..=PATIENCE {
        match after_tick(count, false, &quiet) {
            Ok(next) => {
                assert!(tick < PATIENCE, "went on past its patience");
                count = next;
            }
            Err(outcome) => {
                assert_eq!(outcome, RunOutcome::Stalled);
                assert_eq!(tick, PATIENCE, "gave up early");
            }
        }
    }
    assert_eq!(after_tick(10, false, &busy), Ok(0), "a busy tick did not end the quiet run");
    assert_eq!(after_tick(10, true, &quiet), Err(RunOutcome::Finished));
}
