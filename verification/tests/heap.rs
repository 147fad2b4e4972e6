use std::collections::{HashMap, HashSet};

use vx_app::geometry::{BlockPos, VoxelAabb};
use vx_app::heap::{
    height_at, is_spoil, options, plan, ring_walk, Ground, HeapShape, MAX_COURSES, SHAFT_COURSES,
};

/// How far one step up or down a drone can manage.
const STEP: i32 = 1;

/// A flat world `radius` out from the origin, its surface at `height`.
fn flat(radius: i32, height: i32) -> Ground {
    let mut surface = Vec::new();
    for x in -radius..=radius {
        for z in -radius..=radius {
            surface.push((x, z, height + 1));
        }
    }
    Ground { top: 256, surface }
}

/// A world `radius` out that rises one block every `every` columns along x.
fn slope(radius: i32, height: i32, every: i32) -> Ground {
    let mut surface = Vec::new();
    for x in -radius..=radius {
        for z in -radius..=radius {
            surface.push((x, z, height + 1 + x.div_euclid(every)));
        }
    }
    Ground { top: 256, surface }
}

fn is_solid(ground: &Ground, cell: BlockPos) -> bool {
    match ground.surface_y(cell.x, cell.z) {
        Some(first_open) => cell.y < first_open,
        None => false,
    }
}

fn footprint(min: (i32, i32), max: (i32, i32)) -> VoxelAabb {
    VoxelAabb::new(BlockPos::new(min.0, 0, min.1), BlockPos::new(max.0, 0, max.1))
}

fn key(cell: &BlockPos) -> (i32, i32, i32) {
    (cell.x, cell.y, cell.z)
}

#[test]
fn a_plan_is_buildable_from_the_ground_up() {
    for world in [flat(40, 64), slope(40, 70, 4)] {
        for shape in HeapShape::ALL {
            for (min, max) in [((-4, -4), (4, 4)), ((0, 0), (6, 8)), ((2, 2), (10, 10))] {
                let Some(plan) = plan(&world, footprint(min, max), shape) else {
                    continue;
                };
                let mut filled: HashSet<(i32, i32, i32)> = HashSet::new();
                for cell in &plan.cells {
                    let under = BlockPos::new(cell.x, cell.y - 1, cell.z);
                    let on_ground = is_solid(&world, under);
                    assert!(
                        on_ground || filled.contains(&key(&under)),
                        "{} would put a block at {cell:?} on air: {under:?} is not \
                         ground and has not been filled yet",
                        shape.name()
                    );
                    filled.insert(key(cell));
                }
                assert!(
                    plan.cells.windows(2).all(|pair| pair[0].y <= pair[1].y),
                    "{} is not ordered bottom-up",
                    shape.name()
                );
            }
        }
    }
}

#[test]
fn no_cell_is_asked_for_twice() {
    let world = flat(40, 64);
    for shape in HeapShape::ALL {
        let Some(plan) = plan(&world, footprint((-5, -5), (5, 5)), shape) else {
            continue;
        };
        let unique: HashSet<(i32, i32, i32)> = plan.cells.iter().map(key).collect();
        assert_eq!(unique.len(), plan.cells.len(), "{} lists a cell more than once", shape.name());
        assert_eq!(plan.volume, plan.cells.len() as u64);
    }
}

#[test]
fn a_pyramid_narrows_one_ring_a_course() {
    let world = flat(40, 64);
    let plan = plan(&world, footprint((-4, -4), (4, 4)), HeapShape::Pyramid)
        .expect("a nine-wide pyramid should fit anywhere flat");
    assert_eq!(plan.courses(), 5, "a 9x9 base is five courses");

    let floor = plan.cells[0].y;
    let mut last = None;
    for step in 0..plan.courses() {
        let y = floor + step;
        let width = plan.cells.iter().filter(|cell| cell.y == y).count();
        let side = (1..=width).take_while(|s| s * s <= width).last().unwrap_or(0);
        assert_eq!(side * side, width, "course {step} is not square");
        if let Some(below) = last {
            assert_eq!(side + 2, below, "course {step} did not step in by one ring");
        }
        last = Some(side);
    }
    assert_eq!(last, Some(1), "a pyramid should finish on a single block");
}

#[test]
fn a_spiral_is_a_staircase_a_drone_can_climb() {
    let world = flat(40, 64);
    let plan = plan(&world, footprint((-4, -4), (4, 4)), HeapShape::Spiral)
        .expect("a nine-wide spiral should fit anywhere flat");

    let ring = ring_walk(plan.footprint);
    let mut tops = Vec::new();
    for (x, z) in &ring {
        let top = plan
            .cells
            .iter()
            .filter(|cell| cell.x == *x && cell.z == *z)
            .map(|cell| cell.y)
            .max();
        if let Some(top) = top {
            tops.push(top);
        }
    }
    assert!(tops.len() > 8, "the ramp barely exists: {} cells", tops.len());
    for pair in tops.windows(2) {
        assert!(
            (pair[1] - pair[0]).abs() <= STEP,
            "the ramp steps {} at once; a drone can manage {}",
            (pair[1] - pair[0]).abs(),
            STEP
        );
    }
    assert!(tops.iter().max() > tops.iter().min());
}

#[test]
fn a_shaft_is_a_prism_no_taller_than_a_drone_can_reach() {
    let world = flat(40, 64);
    let plan = plan(&world, footprint((0, 0), (3, 3)), HeapShape::Shaft)
        .expect("a shaft should fit anywhere flat");
    assert_eq!(plan.courses(), SHAFT_COURSES);
    let floor = plan.cells[0].y;
    for step in 0..SHAFT_COURSES {
        let width = plan.cells.iter().filter(|cell| cell.y == floor + step).count();
        assert_eq!(width, 16, "a 4x4 shaft course is sixteen blocks");
    }
}

#[test]
fn a_footprint_too_small_for_a_spiral_says_so() {
    let world = flat(40, 64);
    assert!(plan(&world, footprint((0, 0), (1, 1)), HeapShape::Spiral).is_none());
    assert!(plan(&world, footprint((0, 0), (1, 1)), HeapShape::Shaft).is_some());
    assert!(plan(&world, footprint((0, 0), (1, 1)), HeapShape::Pyramid).is_some());

    let offered = options(&world, footprint((0, 0), (1, 1)));
    assert_eq!(offered.len(), 2);
    assert!(offered.windows(2).all(|pair| pair[0].volume <= pair[1].volume));
}

#[test]
fn every_column_of_a_heap_starts_on_its_own_ground() {
    let world = slope(40, 70, 4);
    let area = footprint((-4, -4), (4, 4));
    for shape in HeapShape::ALL {
        let Some(plan) = plan(&world, area, shape) else {
            continue;
        };
        for cell in &plan.cells {
            let ground = world.surface_y(cell.x, cell.z).expect("no ground under a planned cell");
            assert!(
                cell.y >= ground,
                "{} put a cell at {cell:?} below the ground at {ground}",
                shape.name()
            );
        }
        let mut columns: HashMap<(i32, i32), i32> = HashMap::new();
        for cell in &plan.cells {
            let bottom = columns.entry((cell.x, cell.z)).or_insert(cell.y);
            *bottom = (*bottom).min(cell.y);
        }
        for ((x, z), bottom) in columns {
            assert_eq!(
                Some(bottom),
                world.surface_y(x, z),
                "{} floats the column at ({x}, {z})",
                shape.name()
            );
        }
    }
}

#[test]
fn the_same_footprint_plans_the_same_heap() {
    let world = flat(40, 64);
    for shape in HeapShape::ALL {
        let once = plan(&world, footprint((-3, -3), (5, 5)), shape);
        let twice = plan(&world, footprint((-3, -3), (5, 5)), shape);
        assert_eq!(once, twice, "{} is not deterministic", shape.name());
    }
}

#[test]
fn every_shape_is_named() {
    for shape in HeapShape::ALL {
        assert!(!shape.name().is_empty());
        assert!(shape.name().chars().all(|c| c.is_ascii_lowercase() || c == ' '));
    }
}

#[test]
fn ground_with_no_columns_plans_no_heap() {
    let world = Ground { top: 256, surface: Vec::new() };
    for shape in HeapShape::ALL {
        assert!(plan(&world, footprint((0, 0), (4, 4)), shape).is_none());
    }
    assert!(options(&world, footprint((0, 0), (4, 4))).is_empty());
}

#[test]
fn the_first_entry_for_a_column_is_its_surface() {
    let world = Ground { top: 256, surface: vec![(1, 2, 30), (1, 2, 50), (0, 0, 7)] };
    assert_eq!(world.surface_y(1, 2), Some(30));
    assert_eq!(world.surface_y(0, 0), Some(7));
    assert_eq!(world.surface_y(5, 5), None);
}

#[test]
fn a_ring_walk_goes_once_round_the_edge() {
    let ring = ring_walk(footprint((0, 0), (2, 2)));
    assert_eq!(ring, vec![(0, 0), (1, 0), (2, 0), (2, 1), (2, 2), (1, 2), (0, 2), (0, 1)]);
    assert_eq!(ring_walk(footprint((3, 3), (3, 3))), vec![(3, 3)]);
}

#[test]
fn a_shaft_is_the_same_height_everywhere_and_a_pyramid_peaks_in_the_middle() {
    let area = footprint((-2, -2), (2, 2));
    assert_eq!(height_at(HeapShape::Shaft, area, SHAFT_COURSES, -2, 2), SHAFT_COURSES);
    assert_eq!(height_at(HeapShape::Shaft, area, SHAFT_COURSES, 0, 0), SHAFT_COURSES);
    assert_eq!(height_at(HeapShape::Pyramid, area, 3, 0, 0), 3);
    assert_eq!(height_at(HeapShape::Pyramid, area, 3, -2, 0), 1);
    assert!(MAX_COURSES >= SHAFT_COURSES);
}

#[test]
fn ore_is_never_spoil() {
    assert!(is_spoil("engine:stone"));
    assert!(!is_spoil("engine:copper_ore"));
    assert!(!is_spoil("engine:uranium_ore"));
}
