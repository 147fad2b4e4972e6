use vx_app::drops::{load, save, Drops, FALL, MAX_DROPS};
use vx_app::geometry::BlockPos;
use vx_app::pack::{capacity, Pack};

/// Which piles a body standing at `(x, y, z)` can reach: the same cell
/// column, within a block and a half.
fn near(drops: &Drops, x: i32, y: i32, z: i32) -> Vec<bool> {
    drops
        .iter()
        .iter()
        .map(|d| (d.at.x - x).abs() <= 1 && (d.at.y - y).abs() <= 1 && (d.at.z - z).abs() <= 1)
        .collect()
}

#[test]
fn a_face_leaves_piles_and_not_a_swarm() {
    let mut drops = Drops::new();
    let at = BlockPos::new(4, 30, 9);
    for _ in 0..40 {
        drops.shed(at, "engine:copper_ore", 1);
    }
    assert_eq!(drops.len(), 1, "one cell should hold one pile per good");
    assert_eq!(drops.count("engine:copper_ore"), 40);
    drops.shed(at, "engine:stone", 3);
    assert_eq!(drops.len(), 2);
}

#[test]
fn walk_over_it_and_it_comes_back() {
    let capacity = capacity(1, 0, 0);
    let mut drops = Drops::new();
    drops.shed(BlockPos::new(0, 40, 0), "engine:copper_ore", 5);
    let mut pack = Pack::new();
    let reach = near(&drops, 20, 40, 0);
    let taken = drops.collect_near(&reach, &mut pack, capacity);
    assert!(taken.is_empty());
    assert_eq!(drops.count("engine:copper_ore"), 5);
    let reach = near(&drops, 0, 40, 0);
    let taken = drops.collect_near(&reach, &mut pack, capacity);
    assert_eq!(taken, vec![("engine:copper_ore".to_string(), 5)]);
    assert!(drops.is_empty(), "an emptied pile should not linger");
    assert_eq!(pack.count("engine:copper_ore"), 5);
}

#[test]
fn a_full_pack_leaves_it_where_it_is() {
    let capacity = capacity(1, 0, 0);
    let mut pack = Pack::new();
    while pack.stow("engine:stone", capacity) {}
    let mut drops = Drops::new();
    drops.shed(BlockPos::new(0, 40, 0), "engine:copper_ore", 5);
    let reach = near(&drops, 0, 40, 0);
    let taken = drops.collect_near(&reach, &mut pack, capacity);
    assert!(taken.is_empty(), "a full pack took something anyway");
    assert_eq!(drops.count("engine:copper_ore"), 5, "and the ore vanished");
    pack.drain();
    for _ in 0..63 {
        pack.stow("engine:stone", capacity);
    }
    let reach = near(&drops, 0, 40, 0);
    let taken = drops.collect_near(&reach, &mut pack, capacity);
    assert!(taken.is_empty(), "ore is heavier than the room left");
}

#[test]
fn the_floor_cannot_run_away() {
    let mut drops = Drops::new();
    for step in 0..(MAX_DROPS as i32 + 40) {
        drops.shed(BlockPos::new(step, 30, 0), "engine:stone", 1);
    }
    assert_eq!(drops.len(), MAX_DROPS);
    assert!(drops.iter().iter().any(|drop| drop.at.x == MAX_DROPS as i32 + 39));
    assert!(!drops.iter().iter().any(|drop| drop.at.x == 0), "the oldest pile survived");
}

#[test]
fn a_drop_falls_to_the_floor_it_was_cut_over() {
    let high = BlockPos::new(0, 70, 0);
    // Six open cells under it, then ground.
    let mut open = vec![true; FALL as usize];
    open[6] = false;
    let rested = Drops::settle(high, &open);
    assert_eq!(rested, BlockPos::new(0, 64, 0));
    // A drop already on the ground does not sink into it.
    let mut floor = vec![true; FALL as usize];
    floor[0] = false;
    assert_eq!(Drops::settle(rested, &floor), rested);
    // Nothing under it for a long way and it stays where it was cut.
    assert_eq!(Drops::settle(high, &vec![true; FALL as usize]), high);
}

#[test]
fn drops_survive_a_save() {
    let mut drops = Drops::new();
    drops.shed(BlockPos::new(-4, 62, 7), "engine:copper_ore", 12);
    drops.shed(BlockPos::new(1_000_000, 8, -900_000), "engine:log", 3);
    let bytes = save(&drops);
    let (back, damaged) = load(Some(&bytes));
    assert!(!damaged);
    assert_eq!(back, drops);
}

#[test]
fn a_missing_or_damaged_floor_is_a_clean_floor() {
    let (fresh, damaged) = load(None);
    assert!(fresh.is_empty());
    assert!(!damaged);
    let (other, _) = load(Some(b"VXDPrubbish"));
    assert!(other.is_empty());
    let mut drops = Drops::new();
    drops.shed(BlockPos::new(1, 2, 3), "engine:log", 4);
    let bytes = save(&drops);
    let (torn, damaged) = load(Some(&bytes[..bytes.len() - 1]));
    assert!(torn.is_empty());
    assert!(damaged);
}

#[test]
fn a_half_fitting_pile_leaves_the_rest_on_the_floor() {
    let capacity = capacity(1, 0, 0);
    let mut pack = Pack::new();
    let mut drops = Drops::default();
    drops.shed(BlockPos::new(1, 40, 1), "engine:uranium_ore", 30);
    let reach = near(&drops, 1, 40, 1);
    let taken = drops.collect_near(&reach, &mut pack, capacity);
    assert_eq!(taken, vec![("engine:uranium_ore".to_string(), 21)]);
    assert_eq!(drops.count("engine:uranium_ore"), 9);
    assert_eq!(pack.count("engine:uranium_ore"), 21);
}

#[test]
fn shedding_nothing_leaves_no_pile() {
    let mut drops = Drops::new();
    drops.shed(BlockPos::new(0, 0, 0), "engine:stone", 0);
    assert!(drops.is_empty());
}
