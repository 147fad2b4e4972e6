use vx_app::masonry::{Masonry, MAGIC, VERSION};

/// The most growth steps any town in these tests has authored for it.
const MAX_GROWTH: u8 = 4;

#[test]
fn masonry_the_ledger_round_trips() {
    let mut masonry = Masonry::new();
    masonry.record((0, 0), 2);
    masonry.record((-4_096, 8_192), 3);
    let bytes = masonry.save();

    let mut read = Masonry::new();
    assert!(!read.load(Some(&bytes), MAX_GROWTH));
    assert_eq!(read, masonry);
    assert_eq!(read.built((-4_096, 8_192)), 3, "a far town lost its sheds");
    assert_eq!(read.towns(), 2);
}

#[test]
fn a_missing_or_damaged_ledger_is_a_frontier_that_has_not_built_yet() {
    let mut fresh = Masonry::new();
    assert!(!fresh.load(None, MAX_GROWTH));
    assert_eq!(fresh, Masonry::new());

    let mut torn = Masonry::new();
    assert!(torn.load(Some(b"not a ledger at all"), MAX_GROWTH));
    assert_eq!(torn, Masonry::new());
}

#[test]
fn a_ledger_past_the_authored_table_is_refused() {
    let mut wrong = Masonry::new();
    wrong.record((0, 0), MAX_GROWTH + 1);
    let bytes = wrong.save();

    let mut read = Masonry::new();
    assert!(read.load(Some(&bytes), MAX_GROWTH));
    assert_eq!(read, Masonry::new(), "an impossible ledger was accepted");
}

#[test]
fn a_ledger_written_by_hand_reads_back() {
    let mut bytes = MAGIC.to_vec();
    bytes.extend_from_slice(&VERSION.to_le_bytes());
    bytes.extend_from_slice(&1u32.to_le_bytes());
    bytes.extend_from_slice(&(-7i32).to_le_bytes());
    bytes.extend_from_slice(&9i32.to_le_bytes());
    bytes.push(MAX_GROWTH);
    let read = Masonry::read(&bytes, MAX_GROWTH).expect("a good ledger was refused");
    assert_eq!(read.built((-7, 9)), MAX_GROWTH);
    assert_eq!(read.built((9, -7)), 0);
    assert!(Masonry::read(&bytes[..bytes.len() - 1], MAX_GROWTH).is_none());
}

#[test]
fn a_town_builds_what_it_has_earned_and_no_more() {
    let mut masonry = Masonry::default();
    let centre = (120, -40);
    let mut put_up = Vec::new();
    while let Some(step) = masonry.due(centre, 2, MAX_GROWTH) {
        put_up.push(step);
        masonry.record(centre, step + 1);
    }
    assert_eq!(put_up, vec![0, 1], "the town built the wrong steps");
    assert_eq!(masonry.built(centre), 2);
    // Asking again changes nothing.
    assert_eq!(masonry.due(centre, 2, MAX_GROWTH), None);
}

#[test]
fn a_town_cannot_build_past_its_own_table() {
    let mut masonry = Masonry::new();
    let centre = (0, 0);
    while let Some(step) = masonry.due(centre, 200, 3) {
        masonry.record(centre, step + 1);
    }
    assert_eq!(masonry.built(centre), 3);
}

#[test]
fn recording_one_town_leaves_the_others() {
    let mut masonry = Masonry::new();
    masonry.record((1, 1), 1);
    masonry.record((2, 2), 3);
    masonry.record((1, 1), 2);
    assert_eq!(masonry.built((1, 1)), 2);
    assert_eq!(masonry.built((2, 2)), 3);
    assert_eq!(masonry.towns(), 2);
}

#[test]
fn raising_the_same_town_twice_builds_nothing_the_second_time() {
    let mut masonry = Masonry::new();
    let centre = (9, 9);
    let mut first = 0;
    while let Some(step) = masonry.due(centre, 3, MAX_GROWTH) {
        masonry.record(centre, step + 1);
        first += 1;
    }
    let saved = masonry.save();
    let mut second = 0;
    while let Some(step) = masonry.due(centre, 3, MAX_GROWTH) {
        masonry.record(centre, step + 1);
        second += 1;
    }
    assert_eq!((first, second), (3, 0));
    assert_eq!(masonry.save(), saved, "the second pass changed the ledger");
}

#[test]
fn a_damaged_ledger_forgets_what_a_town_had_built() {
    let mut masonry = Masonry::new();
    masonry.record((0, 0), 2);
    assert!(masonry.load(Some(b"not a ledger at all"), MAX_GROWTH));
    assert_eq!(masonry.built((0, 0)), 0);
    assert_eq!(masonry.towns(), 0);
}

#[test]
fn a_town_records_only_what_it_laid() {
    let mut masonry = Masonry::new();
    let centre = (4, -4);
    assert_eq!(masonry.due(centre, 2, MAX_GROWTH), Some(0));
    assert_eq!(masonry.after_laying(centre, 2, MAX_GROWTH, true), Some(1));
    assert_eq!(masonry.built(centre), 1);
    assert_eq!(masonry.after_laying(centre, 2, MAX_GROWTH, false), None);
    assert_eq!(masonry.built(centre), 1, "an unlaid building was recorded");
    assert_eq!(masonry.after_laying(centre, 2, MAX_GROWTH, true), None);
    assert_eq!(masonry.built(centre), 2);
}
