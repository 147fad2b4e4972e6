use vx_app::rocket::{Launch, FLIGHT_TICKS};
use vx_app::scout::{age, kind_of, kind_tag, live, MarkKind, MARK_DECAY};

#[test]
fn a_mark_decays_exactly_on_schedule() {
    let seen_at = 100;
    assert!(live(seen_at, seen_at), "the contact was not marked");
    let last_tick = seen_at + MARK_DECAY - 1;
    assert!(live(seen_at, last_tick), "faded a tick early");
    assert!(!live(seen_at, seen_at + MARK_DECAY), "held past its decay");
}

#[test]
fn a_mark_seen_in_the_future_is_brand_new() {
    assert_eq!(age(500, 100), 0);
    assert_eq!(age(100, 350), 250);
    assert!(live(500, 100));
}

#[test]
fn a_mark_kind_round_trips_through_its_tag() {
    for kind in [MarkKind::Person, MarkKind::Machine] {
        assert_eq!(kind_of(kind_tag(kind)), Some(kind));
    }
    assert_eq!(kind_of(2), None);
}

#[test]
fn a_launch_lifts_off_climbs_and_is_gone() {
    let launch = Launch { depart: 1_000, manifest: "40 COPPER ORE".into() };
    assert_eq!(launch.in_flight(1_000), Some(0));
    assert_eq!(launch.in_flight(900), Some(0), "airborne before it left");
    let mut last = None;
    for tick in 1_000..1_000 + FLIGHT_TICKS {
        let flown = launch.in_flight(tick).expect("gone early");
        assert!(Some(flown) >= last, "it came back down at tick {tick}");
        last = Some(flown);
    }
    assert_eq!(last, Some(FLIGHT_TICKS - 1));
    assert_eq!(launch.in_flight(1_000 + FLIGHT_TICKS), None);
}
