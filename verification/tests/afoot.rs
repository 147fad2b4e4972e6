use vx_app::afoot::{settle, standable, Ground, Terrain, CLIMB, DROP};
use vx_app::geometry::BlockPos;

const LOW: (i32, i32, i32) = (-45, 30, -45);
const SIZE: (i32, i32, i32) = (90, 70, 90);

/// A world held as solid cells: stone up to `y = 64` over the flats, air
/// above it, so the standable layer is 65; `extra` adds solid cells.
fn flats(extra: &dyn Fn(i32, i32, i32) -> bool) -> Terrain {
    let mut solid = Vec::with_capacity((SIZE.0 * SIZE.1 * SIZE.2) as usize);
    for y in 0..SIZE.1 {
        for z in 0..SIZE.2 {
            for x in 0..SIZE.0 {
                let (wx, wy, wz) = (LOW.0 + x, LOW.1 + y, LOW.2 + z);
                let ground = (-40..40).contains(&wx) && (-40..40).contains(&wz) && (40..=64).contains(&wy);
                solid.push(ground || extra(wx, wy, wz));
            }
        }
    }
    Terrain::new(BlockPos::new(LOW.0, LOW.1, LOW.2), SIZE, solid, 256).expect("the box does not fit")
}

/// A wall along x, `height` blocks over the floor, from `from_z` to `to_z`.
fn wall(x: i32, from_z: i32, to_z: i32, height: i32) -> impl Fn(i32, i32, i32) -> bool {
    move |wx, wy, wz| wx == x && (from_z..=to_z).contains(&wz) && (65..65 + height).contains(&wy)
}

#[test]
fn a_body_stands_on_the_floor_and_not_in_it() {
    let world = flats(&|_, _, _| false);
    assert!(standable(&world, BlockPos::new(0, 65, 0)));
    assert!(!standable(&world, BlockPos::new(0, 64, 0)), "stood inside the floor");
    assert!(!standable(&world, BlockPos::new(0, 70, 0)), "stood in mid air");
}

#[test]
fn a_body_does_not_fit_under_a_one_block_ceiling() {
    let world = flats(&|x, y, z| (x, y, z) == (3, 66, 0));
    assert!(!standable(&world, BlockPos::new(3, 65, 0)));
}

#[test]
fn a_body_climbs_what_a_drone_cannot() {
    let world = flats(&|x, y, z| (4..=8).contains(&x) && (-8..=8).contains(&z) && (65..=66).contains(&y));
    let start = BlockPos::new(0, 65, 0);
    let ground = Ground::sweep(&world, start, 10, 10);
    assert!(
        ground.route_to(BlockPos::new(6, 67, 0)).is_some(),
        "a body could not get up a two-block step"
    );
}

#[test]
fn the_sweep_finds_the_way_round_a_wall() {
    let (a, b) = (wall(4, -12, 5, 4), wall(4, 7, 12, 4));
    let world = flats(&move |x, y, z| a(x, y, z) || b(x, y, z));
    let ground = Ground::sweep(&world, BlockPos::new(0, 65, 0), 16, 12);
    let far = BlockPos::new(8, 65, 0);
    assert!(ground.route_to(far).is_some(), "the far side was never reached");
    let route = ground.route_to(far).expect("no route to the far side");
    assert_eq!(route.first(), Some(&BlockPos::new(0, 65, 0)));
    assert_eq!(route.last(), Some(&far));
    assert!(route.iter().any(|cell| cell.x == 4 && cell.z == 6), "the route did not go through the gap: {route:?}");
    for cell in &route {
        assert!(standable(&world, *cell), "the route stands in {cell:?}");
    }
    for pair in route.windows(2) {
        let (dx, dy, dz) = (pair[1].x - pair[0].x, pair[1].y - pair[0].y, pair[1].z - pair[0].z);
        assert_eq!(dx.abs() + dz.abs(), 1, "a route step that is not one step");
        assert!(-DROP <= dy && dy <= CLIMB);
    }
}

#[test]
fn a_sealed_room_reaches_only_itself() {
    let world = flats(&|x, y, z| {
        let walls = (x == 2 || x == -2) && (-2..=2).contains(&z);
        let ends = (z == 2 || z == -2) && (-2..=2).contains(&x);
        (walls || ends) && (65..69).contains(&y)
    });
    let ground = Ground::sweep(&world, BlockPos::new(0, 65, 0), 16, 12);
    assert_eq!(ground.reachable().len(), 9, "the walls leaked");
    assert!(ground.route_to(BlockPos::new(8, 65, 0)).is_none());
}

#[test]
fn the_same_ground_gives_the_same_route() {
    let a = wall(4, -12, 5, 4);
    let world = flats(&move |x, y, z| a(x, y, z));
    let far = BlockPos::new(8, 65, 0);
    let once = Ground::sweep(&world, BlockPos::new(0, 65, 0), 16, 12).route_to(far);
    let twice = Ground::sweep(&world, BlockPos::new(0, 65, 0), 16, 12).route_to(far);
    assert_eq!(once, twice);
    assert!(once.is_some());
}

#[test]
fn a_body_in_mid_air_falls_to_the_floor_first() {
    let world = flats(&|_, _, _| false);
    assert_eq!(settle(&world, BlockPos::new(3, 90, -2)), BlockPos::new(3, 65, -2));
    assert_eq!(settle(&world, BlockPos::new(3, 65, -2)), BlockPos::new(3, 65, -2));
    let ground = Ground::sweep(&world, BlockPos::new(0, 72, 0), 4, 4);
    assert_eq!(ground.route_to(BlockPos::new(0, 65, 0)), Some(vec![BlockPos::new(0, 65, 0)]));
    assert_eq!(ground.reachable().len(), 81);
}

#[test]
fn a_cliff_deeper_than_a_drop_is_not_stepped_off() {
    // A pit eight deep beside the start: a body will not step into it.
    let world = flats(&|_, _, _| false);
    let pit = Terrain::new(
        BlockPos::new(-10, 40, -10),
        (21, 40, 21),
        {
            let mut v = Vec::new();
            for y in 40..80 {
                for _z in -10..=10 {
                    for x in -10..=10 {
                        v.push(y <= if x >= 3 { 56 } else { 64 });
                    }
                }
            }
            v
        },
        256,
    )
    .expect("box");
    let ground = Ground::sweep(&pit, BlockPos::new(0, 65, 0), 8, 12);
    assert!(ground.route_to(BlockPos::new(5, 57, 0)).is_none(), "stepped off an eight-block cliff");
    assert!(standable(&world, BlockPos::new(5, 65, 0)));
}

#[test]
fn a_box_that_does_not_add_up_is_refused() {
    assert!(Terrain::new(BlockPos::new(0, 0, 0), (2, 2, 2), vec![false; 7], 256).is_none());
    assert!(Terrain::new(BlockPos::new(0, 0, 0), (-1, 2, 2), vec![], 256).is_none());
    assert!(Terrain::new(BlockPos::new(i32::MAX, 0, 0), (2, 1, 1), vec![false; 2], 256).is_none());
    assert!(Terrain::new(BlockPos::new(0, 0, 0), (2, 2, 2), vec![false; 8], 256).is_some());
}

#[test]
fn a_route_over_open_ground_is_as_short_as_a_walk_can_be() {
    let world = flats(&|_, _, _| false);
    let ground = Ground::sweep(&world, BlockPos::new(0, 65, 0), 12, 4);
    let route = ground.route_to(BlockPos::new(5, 65, -3)).expect("open ground was not reached");
    assert_eq!(route.len(), 5 + 3 + 1, "a route over open ground took a detour: {route:?}");

    // Round the wall the shortest way is through the gap at z = 6.
    let (a, b) = (wall(4, -12, 5, 4), wall(4, 7, 12, 4));
    let world = flats(&move |x, y, z| a(x, y, z) || b(x, y, z));
    let ground = Ground::sweep(&world, BlockPos::new(0, 65, 0), 16, 12);
    let route = ground.route_to(BlockPos::new(8, 65, 0)).expect("no route to the far side");
    assert_eq!(route.len(), 4 + 6 + 4 + 6 + 1, "the way round the wall was not the short way: {route:?}");
}
