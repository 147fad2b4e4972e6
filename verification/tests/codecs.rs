use vx_app::air::{Fleet, Flier, FlierState, FleetSnapshot, Sector, SurveySnapshot};
use vx_app::crew::{
    BoardSnapshot, DroneId, DroneSnapshot, DroneState, HeapOrder, Job, JobId, JobKind,
    OperationSnapshot,
};
use vx_app::dig::{read, replan_heap, StoredDig};
use vx_app::fleet::{load, read as read_fleet};
use vx_app::geometry::{BlockPos, VoxelAabb};
use vx_app::heap::{Ground, HeapShape};
use vx_app::stockpile::Stockpile;

fn pile(goods: &[(&str, u64)]) -> Stockpile {
    let mut p = Stockpile::new();
    for (name, count) in goods {
        p.add(name, *count);
    }
    p
}

fn region(a: (i32, i32, i32), b: (i32, i32, i32)) -> VoxelAabb {
    VoxelAabb::new(BlockPos::new(a.0, a.1, a.2), BlockPos::new(b.0, b.1, b.2))
}

fn a_dispatch() -> StoredDig {
    let job = Job { id: JobId(7), kind: JobKind::Extract, region: region((0, 60, 0), (3, 62, 3)), priority: -2 };
    let access = Job { id: JobId(8), kind: JobKind::Access, region: region((4, 61, 0), (4, 62, 0)), priority: 5 };
    let drone = DroneSnapshot {
        id: DroneId(1),
        position: BlockPos::new(2, 63, 1),
        previous_position: BlockPos::new(2, 63, 0),
        state: DroneState::Digging(JobId(7)),
        cargo: pile(&[("engine:copper_ore", 3), ("engine:stone", 9)]),
        capacity: 64,
        grade: 1,
        job: Some(JobId(7)),
        denied: vec![BlockPos::new(9, 9, 9)],
        denied_job: None,
    };
    StoredDig {
        corners: vec![BlockPos::new(0, 60, 0), BlockPos::new(3, 62, 3)],
        chosen: 1,
        dig: Some(OperationSnapshot {
            board: BoardSnapshot { entries: vec![(job, Some(DroneId(1))), (access, None)], next_id: 9 },
            stockpile: pile(&[("engine:log", 2)]),
            home: BlockPos::new(-5, 64, -5),
            drones: vec![drone],
            fields_built: 3,
            heap: Some(HeapOrder { shape: HeapShape::Pyramid, footprint: region((10, 0, 10), (14, 0, 14)) }),
            stacked: 12,
            controlled: Some(0),
        }),
    }
}

#[test]
fn a_dig_in_progress_survives_a_save() {
    let stored = a_dispatch();
    let bytes = vx_app::dig::save(&stored);
    let back = read(&bytes).expect("damaged").expect("unknown version");
    assert_eq!(back.corners, stored.corners);
    assert_eq!(back.chosen, stored.chosen);
    let (o, b) = (stored.dig.as_ref().unwrap(), back.dig.as_ref().expect("the crew was lost"));
    assert_eq!(b.board.entries, o.board.entries);
    assert_eq!(b.board.next_id, o.board.next_id);
    assert_eq!(b.stockpile, o.stockpile);
    assert_eq!(b.home, o.home);
    assert_eq!(b.fields_built, o.fields_built);
    assert_eq!(b.heap, o.heap);
    assert_eq!(b.stacked, o.stacked);
    assert_eq!(b.controlled, o.controlled);
    assert_eq!(b.drones.len(), 1);
    let (d, e) = (&o.drones[0], &b.drones[0]);
    assert_eq!(e.id, d.id);
    assert_eq!(e.position, d.position);
    assert_eq!(e.previous_position, d.previous_position);
    assert_eq!(e.state, d.state);
    assert_eq!(e.cargo, d.cargo);
    assert_eq!(e.capacity, d.capacity);
    assert_eq!(e.grade, d.grade);
    assert_eq!(e.job, d.job);
    assert_eq!(e.denied, d.denied);
    assert_eq!(e.denied_job, d.denied_job);
}

#[test]
fn the_same_dispatch_writes_the_same_bytes() {
    assert_eq!(vx_app::dig::save(&a_dispatch()), vx_app::dig::save(&a_dispatch()));
}

#[test]
fn a_patch_you_marked_but_never_dug_survives_a_save() {
    let marked = StoredDig { corners: vec![BlockPos::new(1, 2, 3)], chosen: 0, dig: None };
    let back = read(&vx_app::dig::save(&marked)).expect("damaged").expect("unknown version");
    assert_eq!(back.corners, marked.corners);
    assert!(back.dig.is_none(), "a cancelled dispatch came back");
}

#[test]
fn a_missing_or_damaged_dig_is_no_dig_at_all() {
    assert!(read(b"not a dig").is_none());
    let bytes = vx_app::dig::save(&a_dispatch());
    assert!(read(&bytes[..bytes.len() - 3]).is_none());
}

#[test]
fn a_heap_order_is_replanned_on_the_ground_it_names() {
    let mut surface = Vec::new();
    for x in 0..20 {
        for z in 0..20 {
            surface.push((x, z, 65));
        }
    }
    let ground = Ground { top: 256, surface };
    let order = HeapOrder { shape: HeapShape::Shaft, footprint: region((2, 0, 2), (5, 0, 5)) };
    let plan = replan_heap(&order, &ground).expect("a shaft fits on flat ground");
    assert_eq!(plan.shape, HeapShape::Shaft);
    assert_eq!(plan.volume, 32);
}

fn a_fleet() -> FleetSnapshot {
    FleetSnapshot {
        fliers: vec![
            Flier {
                position: BlockPos::new(60, 90, 10),
                previous_position: BlockPos::new(59, 90, 10),
                state: FlierState::Scanning { sector: Sector { x: 1, z: -2 }, waypoint: 5 },
                cargo: pile(&[("engine:copper_ore", 4)]),
                capacity: 12,
            },
            Flier {
                position: BlockPos::new(0, 80, 0),
                previous_position: BlockPos::new(0, 80, 0),
                state: FlierState::ToBase,
                cargo: Stockpile::new(),
                capacity: 12,
            },
        ],
        base: None,
        scan_depth: 41,
        surveys: vec![SurveySnapshot {
            sector: Sector { x: 1, z: -2 },
            covered: vec![(60, 10), (61, 10)],
            hits: vec![((61, 10), (55, 90))],
            complete: false,
        }],
        controlled: Some(1),
        orphan: Stockpile::new(),
    }
}

fn an_empty_fleet(orphan: Stockpile) -> Fleet {
    Fleet::restore(FleetSnapshot {
        fliers: vec![],
        base: None,
        scan_depth: 0,
        surveys: vec![],
        controlled: None,
        orphan,
    })
}

#[test]
fn the_sectors_you_paid_to_scan_survive_a_save() {
    let fleet = a_fleet();
    let bytes = vx_app::fleet::save(&fleet);
    let mut back = an_empty_fleet(pile(&[("engine:copper_ore", 91)]));
    assert!(!load(&mut back, Some(&bytes)));
    assert_eq!(back.scan_depth(), 41);
    assert_eq!(back.controlled(), Some(1));
    let snap = back.snapshot();
    assert_eq!(snap.surveys, fleet.surveys);
    assert_eq!(snap.fliers.len(), 2);
    for (a, b) in snap.fliers.iter().zip(fleet.fliers.iter()) {
        assert_eq!(a.position, b.position);
        assert_eq!(a.previous_position, b.previous_position);
        assert_eq!(a.state, b.state);
        assert_eq!(a.cargo, b.cargo);
        assert_eq!(a.capacity, b.capacity);
    }
    assert_eq!(back.orphaned().total(), 91, "the goods waiting for a container were dropped");
    assert!(back.is_surveyed(Sector { x: 1, z: -2 }) == false);
}

#[test]
fn a_damaged_fleet_file_changes_nothing() {
    let mut fleet = Fleet::restore(a_fleet());
    let bytes = vx_app::fleet::save(&a_fleet());
    assert!(load(&mut fleet, Some(&bytes[..bytes.len() - 2])));
    // A file from another build is not damage, and is not believed either.
    assert!(!load(&mut fleet, Some(b"VXFL and then junk")));
    assert_eq!(fleet.scan_depth(), 41);
    assert!(!load(&mut fleet, None));
    assert!(read_fleet(b"").is_none());
}
