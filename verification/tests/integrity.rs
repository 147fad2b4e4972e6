use vx_app::integrity::{
    impact, Damage, Integrity, HULL, PARTS_PER_PATCH, SLUG_HIT, SPARE_PART,
};
use vx_app::machine::MachineRef;
use vx_app::stockpile::Stockpile;

#[test]
fn a_fresh_machine_is_sound_and_a_hundred_points_is_scrap() {
    let mut integrity = Integrity::default();
    assert_eq!(integrity.damage(MachineRef::Digger(0)), Damage::Sound);
    assert_eq!(integrity.left(MachineRef::Digger(0)), HULL);

    assert!(!integrity.hurt(MachineRef::Digger(0), SLUG_HIT));
    assert_eq!(integrity.damage(MachineRef::Digger(0)), Damage::Dented);
    assert!(!integrity.hurt(MachineRef::Digger(0), SLUG_HIT));
    assert_eq!(integrity.damage(MachineRef::Digger(0)), Damage::Buckled);
    assert!(
        integrity.hurt(MachineRef::Digger(0), SLUG_HIT),
        "the third slug did not finish it"
    );
    assert!(integrity.damage(MachineRef::Digger(0)) == Damage::Wrecked);
    assert_eq!(integrity.left(MachineRef::Digger(0)), 0);
}

#[test]
fn only_the_blow_that_kills_reports_a_kill() {
    let mut integrity = Integrity::default();
    assert!(integrity.hurt(MachineRef::Flier(0), HULL));
    for _ in 0..50 {
        assert!(
            !integrity.hurt(MachineRef::Flier(0), SLUG_HIT),
            "a wreck died twice"
        );
    }
}

#[test]
fn machines_are_hurt_one_at_a_time() {
    let mut integrity = Integrity::default();
    integrity.hurt(MachineRef::Digger(1), HULL);
    assert!(integrity.damage(MachineRef::Digger(1)) == Damage::Wrecked);
    assert_eq!(integrity.damage(MachineRef::Digger(0)), Damage::Sound);
    assert_eq!(integrity.damage(MachineRef::Digger(2)), Damage::Sound);
    assert_eq!(integrity.damage(MachineRef::Flier(1)), Damage::Sound);
}

#[test]
fn the_kestrel_is_absent_from_this_ledger_too() {
    let mut integrity = Integrity::default();
    assert!(!integrity.hurt(MachineRef::Kestrel, HULL * 10));
    assert_ne!(integrity.damage(MachineRef::Kestrel), Damage::Wrecked);
}

#[test]
fn a_dive_costs_more_than_a_scrape() {
    assert_eq!(impact(0), 0);
    assert_eq!(impact(-3), 0, "flying above the rock hurt something");
    assert!(impact(1) < HULL / 4, "a scrape wrote a machine off");
    assert!(impact(4) >= HULL / 2, "a four-block dive barely marked it");
    assert!(impact(6) >= HULL, "flying into a hillside was survivable");
}

#[test]
fn a_patch_costs_parts_and_refuses_a_wreck() {
    let mut integrity = Integrity::default();
    let mut pile = Stockpile::new();
    pile.add(SPARE_PART, 10);

    // Nothing wrong with it: nothing to pay for.
    assert!(!integrity.patch(MachineRef::Digger(0), &mut pile));
    assert_eq!(pile.count(SPARE_PART), 10);

    integrity.hurt(MachineRef::Digger(0), SLUG_HIT);
    assert!(integrity.patch(MachineRef::Digger(0), &mut pile));
    assert_eq!(pile.count(SPARE_PART), 10 - PARTS_PER_PATCH);
    assert_eq!(integrity.damage(MachineRef::Digger(0)), Damage::Sound);

    // Scrap is not patched. It is walked out to.
    integrity.hurt(MachineRef::Digger(0), HULL);
    assert!(!integrity.patch(MachineRef::Digger(0), &mut pile));
    assert!(integrity.damage(MachineRef::Digger(0)) == Damage::Wrecked);
}

#[test]
fn a_patch_you_cannot_pay_for_does_not_happen() {
    let mut integrity = Integrity::default();
    let mut pile = Stockpile::new();
    pile.add(SPARE_PART, PARTS_PER_PATCH - 1);
    integrity.hurt(MachineRef::Digger(0), SLUG_HIT);
    assert!(!integrity.patch(MachineRef::Digger(0), &mut pile));
    assert_eq!(integrity.damage(MachineRef::Digger(0)), Damage::Dented);
    assert_eq!(pile.count(SPARE_PART), PARTS_PER_PATCH - 1);
}

#[test]
fn integrity_the_ledger_round_trips() {
    let mut integrity = Integrity::default();
    integrity.hurt(MachineRef::Digger(0), 17);
    integrity.hurt(MachineRef::Flier(2), HULL);
    let bytes = integrity.save();

    let mut back = Integrity::default();
    assert!(!back.load(Some(&bytes)));
    assert_eq!(back, integrity);
    assert_eq!(back.taken(MachineRef::Digger(0)), 17);
    assert!(back.damage(MachineRef::Flier(2)) == Damage::Wrecked);
}

#[test]
fn an_absent_ledger_is_a_whole_fleet() {
    let mut integrity = Integrity::default();
    integrity.hurt(MachineRef::Digger(0), 40);
    assert!(!integrity.load(None));
    assert_eq!(
        integrity.taken(MachineRef::Digger(0)),
        40,
        "an absent file overwrote a live ledger"
    );
}

#[test]
fn a_torn_ledger_resets_rather_than_failing() {
    let mut integrity = Integrity::default();
    assert!(integrity.load(Some(b"junk not a ledger")));
    assert_eq!(integrity, Integrity::default());
}

#[test]
fn damage_names_every_state() {
    assert_eq!(Damage::of(0), Damage::Sound);
    assert_eq!(Damage::of(1), Damage::Dented);
    assert_eq!(Damage::of(HULL / 2), Damage::Buckled);
    assert_eq!(Damage::of(HULL - 1), Damage::Buckled);
    assert_eq!(Damage::of(HULL), Damage::Wrecked);
    assert_eq!(Damage::Sound.name(), "SOUND");
    assert_eq!(Damage::Wrecked.name(), "WRECKED");
}

#[test]
fn impact_is_quadratic_and_saturates() {
    assert_eq!(impact(1), 6);
    assert_eq!(impact(3), 54);
    assert_eq!(impact(i32::MAX), u32::MAX);
}

#[test]
fn a_truncated_ledger_is_damaged_and_resets_the_live_one() {
    let mut integrity = Integrity::default();
    integrity.hurt(MachineRef::Digger(3), 20);
    let bytes = integrity.save();
    let mut other = Integrity::default();
    other.hurt(MachineRef::Flier(1), 5);
    assert!(other.load(Some(&bytes[..bytes.len() - 1])));
    assert_eq!(other.taken(MachineRef::Flier(1)), 0);
    assert_eq!(other.taken(MachineRef::Digger(3)), 0);
    assert_eq!(other, Integrity::new());
}

#[test]
fn forgetting_a_machine_makes_it_whole() {
    let mut integrity = Integrity::default();
    integrity.hurt(MachineRef::Digger(0), HULL);
    integrity.forget(MachineRef::Digger(0));
    assert_eq!(integrity.damage(MachineRef::Digger(0)), Damage::Sound);
}

#[test]
fn a_patched_or_forgotten_machine_leaves_no_row_behind() {
    let mut integrity = Integrity::new();
    integrity.hurt(MachineRef::Digger(0), 30);
    integrity.hurt(MachineRef::Digger(1), 20);
    assert_eq!(integrity.len(), 2);
    let mut pile = Stockpile::new();
    pile.add(SPARE_PART, PARTS_PER_PATCH);
    assert!(integrity.patch(MachineRef::Digger(0), &mut pile));
    assert_eq!(integrity.len(), 1, "a patched machine kept a dead row");
    integrity.forget(MachineRef::Digger(1));
    assert_eq!(integrity.len(), 0, "a forgotten machine kept a dead row");
    assert_eq!(integrity.save(), Integrity::new().save());
}
