use vx_app::air::{Fleet, FleetSnapshot};
use vx_app::geometry::BlockPos;
use vx_app::keeping::restore_the_fleet;
use vx_app::pile::{load, read, save, MAGIC};
use vx_app::stockpile::Stockpile;

fn a_fleet() -> Fleet {
    Fleet::restore(FleetSnapshot {
        fliers: vec![],
        base: None,
        scan_depth: 20,
        surveys: vec![],
        controlled: None,
        orphan: Stockpile::new(),
    })
}

fn goods(rows: &[(&str, u64)]) -> Vec<(String, u64)> {
    rows.iter().map(|(name, count)| (name.to_string(), *count)).collect()
}

fn based_at(at: BlockPos, rows: &[(&str, u64)]) -> Fleet {
    let mut fleet = a_fleet();
    fleet.set_base(at);
    fleet.receive(&goods(rows));
    fleet
}

#[test]
fn a_pile_round_trips_through_disk() {
    let fleet = based_at(
        BlockPos::new(-16, 73, 8),
        &[("engine:copper_ore", 37), ("engine:stone", 4), ("engine:hho_cell", 2)],
    );
    let bytes = save(&fleet);

    let mut read_back = a_fleet();
    assert!(!load(&mut read_back, Some(&bytes)));
    let base = read_back.base().as_ref().expect("no base came back");
    assert_eq!(base.position, BlockPos::new(-16, 73, 8));
    assert_eq!(base.stockpile.count("engine:copper_ore"), 37);
    assert_eq!(base.stockpile.count("engine:stone"), 4);
    assert_eq!(base.stockpile.count("engine:hho_cell"), 2);
    assert_eq!(base.stockpile.total(), 43);
}

#[test]
fn a_fleet_with_no_base_writes_that_it_has_none() {
    let bytes = save(&a_fleet());
    assert_eq!(bytes.len(), 9);
    assert_eq!(bytes[8], 0);

    // Loading a "no base" file leaves the fleet alone rather than clearing it.
    let mut read_back = a_fleet();
    read_back.set_base(BlockPos::new(1, 2, 3));
    assert!(!load(&mut read_back, Some(&bytes)));
    assert!(read_back.base().is_some());
}

#[test]
fn a_missing_or_damaged_pile_is_no_pile_at_all() {
    let mut fleet = a_fleet();
    assert!(!load(&mut fleet, None));
    assert!(fleet.base().is_none(), "a missing file invented a base");

    let mut fleet = a_fleet();
    assert!(load(&mut fleet, Some(b"NOPE and then some")));
    assert!(fleet.base().is_none(), "a damaged file invented a base");

    assert!(read(b"").is_none());
    let bytes = save(&based_at(BlockPos::new(0, 70, 0), &[("engine:stone", 5)]));
    assert!(read(&bytes[..bytes.len() - 1]).is_none(), "a torn file invented a base");
}

#[test]
fn the_same_pile_writes_the_same_bytes() {
    let fleet = based_at(
        BlockPos::new(0, 70, 0),
        &[("engine:stone", 1), ("engine:copper_ore", 2), ("engine:log", 3)],
    );
    assert_eq!(save(&fleet), save(&fleet));
}

#[test]
fn the_order_goods_were_added_does_not_change_the_bytes() {
    let one = based_at(BlockPos::new(1, 2, 3), &[("engine:stone", 1), ("engine:log", 3)]);
    let two = based_at(BlockPos::new(1, 2, 3), &[("engine:log", 3), ("engine:stone", 1)]);
    assert_eq!(save(&one), save(&two));
}

#[test]
fn a_pile_from_another_version_restores_nothing() {
    let mut bytes = MAGIC.to_vec();
    bytes.extend_from_slice(&7u32.to_le_bytes());
    bytes.push(1);
    let (base, held) = read(&bytes).expect("another version is not damage");
    assert!(base.is_none());
    assert!(held.is_empty());
}

#[test]
fn a_saved_base_is_declared_again_on_load() {
    let saved = based_at(BlockPos::new(-16, 73, 8), &[("engine:copper_ore", 37), ("engine:stone", 4)]);
    let bytes = save(&saved);
    let mut fleet = a_fleet();
    fleet.orphan_goods(&goods(&[("engine:stone", 2)]));
    assert!(!load(&mut fleet, Some(&bytes)));
    let base = fleet.base().as_ref().expect("no base came back");
    assert_eq!(base.position, BlockPos::new(-16, 73, 8));
    assert_eq!(base.stockpile.count("engine:copper_ore"), 37);
    assert_eq!(base.stockpile.count("engine:stone"), 6, "the goods waiting for a container were lost");
    assert!(fleet.orphaned().is_empty());
}

#[test]
fn loading_no_base_leaves_the_fleet_alone() {
    let mut fleet = a_fleet();
    fleet.set_base(BlockPos::new(1, 2, 3));
    assert!(!load(&mut fleet, Some(&save(&a_fleet()))));
    assert!(fleet.base().is_some());
    assert!(!load(&mut fleet, None));
    assert!(load(&mut fleet, Some(b"NOPE and then some")));
    assert_eq!(fleet.base().as_ref().map(|b| b.position), Some(BlockPos::new(1, 2, 3)));
}

#[test]
fn goods_in_holding_are_written_after_the_base() {
    let mut fleet = based_at(BlockPos::new(4, 70, 4), &[("engine:copper_ore", 5)]);
    fleet.orphan_goods(&goods(&[("engine:stone", 3)]));
    let bytes = save(&fleet);
    let (base, held) = read(&bytes).expect("damaged");
    let (at, pile) = base.expect("no base");
    assert_eq!(at, BlockPos::new(4, 70, 4));
    assert_eq!(pile.count("engine:copper_ore"), 5);
    assert_eq!(held.count("engine:stone"), 3);
    assert!(read(&bytes[..bytes.len() - 1]).is_none(), "a torn holding read as whole");
}

#[test]
fn goods_waiting_for_a_container_survive_the_restore() {
    // A fleet holding goods with nowhere to put them: a container was placed,
    // filled, and then broken.
    let mut fleet = a_fleet();
    fleet.set_base(BlockPos::new(4, 70, 4));
    fleet.receive(&goods(&[("engine:copper_ore", 91)]));
    let held = fleet.clear_base();
    assert_eq!(held, 91, "the fixture did not orphan anything");

    let pile = save(&fleet);
    let air = vx_app::fleet::save(&fleet.snapshot());

    let mut restored = a_fleet();
    assert_eq!(restore_the_fleet(&mut restored, Some(&pile), Some(&air)), (false, false));
    assert_eq!(
        restored.orphaned().total(),
        91,
        "the goods waiting for a container were dropped by the restore"
    );
    assert!(restored.base().is_none(), "a broken container came back declared");
}
