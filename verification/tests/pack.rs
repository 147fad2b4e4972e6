use vx_app::pack_panel::{draw_bar, ACCENT, BAR_BACK, DIM, HEAVY, PANEL_HEIGHT, PANEL_WIDTH};
use vx_app::pack::{
    capacity, comfortable, load, load_byte, quantise, save, weight_of, Pack, DEFAULT_CAPACITY,
    MAX_UPGRADE, UNIT, UNLISTED,
};

#[test]
fn ore_is_heavier_than_leaves() {
    let mut ore = Pack::new();
    let mut leaves = Pack::new();
    for _ in 0..20 {
        ore.goods.add("engine:uranium_ore", 1);
        leaves.goods.add("engine:leaves", 1);
    }
    assert_eq!(ore.total(), leaves.total(), "the counts must match");
    assert!(
        ore.load() > leaves.load() * 10,
        "twenty of the heaviest thing in the game weighed {} against {} \
         for twenty of the lightest",
        ore.load(),
        leaves.load()
    );
    assert!(weight_of("engine:leaves") < weight_of("engine:log"));
    assert!(weight_of("engine:log") < weight_of("engine:stone"));
    assert!(weight_of("engine:stone") < weight_of("engine:copper_ore"));
    assert!(weight_of("engine:copper_ore") < weight_of("engine:copper_bar"));
    assert!(weight_of("engine:copper_bar") < weight_of("engine:uranium_ore"));
}

#[test]
fn the_stock_pack_still_holds_sixty_four_stone() {
    let cap = capacity(1, 0, 0);
    assert_eq!(cap, DEFAULT_CAPACITY * UNIT);
    let mut pack = Pack::new();
    let mut stowed = 0;
    while pack.stow("engine:stone", cap) {
        stowed += 1;
    }
    assert_eq!(stowed, 64, "the stock pack changed size");
    let mut heavy = Pack::new();
    let mut ore = 0;
    while heavy.stow("engine:uranium_ore", cap) {
        ore += 1;
    }
    assert_eq!(ore, 21);
}

#[test]
fn the_pack_slows_first_and_then_stops() {
    let cap = capacity(1, 0, 0);
    let mut pack = Pack::new();
    for _ in 0..15 {
        assert!(pack.stow("engine:stone", cap));
    }
    assert_eq!(load_byte(&pack, cap, 0), 0, "fifteen stone should be free");
    let mut last = 0;
    while pack.stow("engine:stone", cap) {
        let now = load_byte(&pack, cap, 0);
        assert!(now >= last, "the load went down as the pack filled");
        last = now;
    }
    assert_eq!(last, 255, "a full pack is not a full load byte");
    assert!(!pack.stow("engine:stone", cap));
    assert!(!pack.room_for("engine:leaves", cap));
}

#[test]
fn the_frame_carries_more_and_carries_it_easier() {
    let bare = capacity(1, 0, 0);
    let fitted = capacity(1, 0, MAX_UPGRADE);
    assert!(fitted > bare, "five marks of frame bought nothing");
    let mut pack = Pack::new();
    for _ in 0..40 {
        pack.goods.add("engine:stone", 1);
    }
    assert!(load_byte(&pack, bare, 0) > 0);
    assert_eq!(load_byte(&pack, fitted, MAX_UPGRADE), 0);
}

#[test]
fn a_drop_goes_in_as_far_as_it_fits() {
    let cap = capacity(1, 0, 0);
    let mut pack = Pack::new();
    assert_eq!(pack.take_in("engine:uranium_ore", 40, cap), 21);
    assert_eq!(pack.count("engine:uranium_ore"), 21);
    assert_eq!(pack.take_in("engine:uranium_ore", 40, cap), 0);
    assert_eq!(pack.load(), 630);
    assert_eq!(pack.take_in("engine:leaves", 40, cap), 10);
}

#[test]
fn a_pack_round_trips_through_disk() {
    let mut pack = Pack::new();
    pack.goods.add("engine:copper_ore", 12);
    pack.goods.add("engine:log", 3);
    let bytes = save(&pack);
    let (read_back, damaged) = load(Some(&bytes));
    assert!(!damaged);
    assert_eq!(read_back, pack);
    assert_eq!(read_back.load(), pack.load());
}

#[test]
fn a_missing_or_damaged_pack_is_an_empty_pack() {
    let (fresh, damaged) = load(None);
    assert!(fresh.is_empty(), "a fresh world starts carrying");
    assert!(!damaged);
    let (torn, _) = load(Some(b"VXPKnonsense"));
    assert!(torn.is_empty(), "damage should reset, not crash");
    let mut pack = Pack::new();
    pack.goods.add("engine:log", 2);
    let bytes = save(&pack);
    let (cut, damaged) = load(Some(&bytes[..bytes.len() - 1]));
    assert!(cut.is_empty());
    assert!(damaged);
}

#[test]
fn an_unlisted_good_still_weighs_something() {
    assert_eq!(weight_of("engine:something_new"), UNLISTED);
    assert_ne!(UNLISTED, 0, "an unlisted good would be free to carry");
}

#[test]
fn a_pack_from_a_later_build_is_an_empty_pack_and_no_damage() {
    let mut bytes = b"VXPK".to_vec();
    bytes.extend_from_slice(&9u32.to_le_bytes());
    let (pack, damaged) = load(Some(&bytes));
    assert!(pack.is_empty());
    assert!(!damaged);
}

#[test]
fn weights_come_from_the_table() {
    assert_eq!(weight_of("engine:stone"), UNIT);
    assert_eq!(weight_of("engine:uranium_ore"), 30);
    let mut pack = Pack::new();
    pack.goods.add("engine:stone", 3);
    pack.goods.add("engine:uranium_ore", 2);
    assert_eq!(pack.load(), 3 * UNIT + 2 * 30);
    assert_eq!(pack.total(), 5);
}

#[test]
fn quantise_maps_a_fraction_onto_a_byte() {
    assert_eq!(quantise(0, 100), 0);
    assert_eq!(quantise(50, 100), 128);
    assert_eq!(quantise(100, 100), 255);
    assert_eq!(quantise(200, 100), 255);
}

#[test]
fn the_comfortable_stretch_is_under_the_capacity() {
    let cap = capacity(1, 0, 0);
    assert!(comfortable(cap, 0) < cap);
    assert!(comfortable(cap, MAX_UPGRADE) > comfortable(cap, 0));
}

#[test]
fn drain_empties_the_pack_and_hands_everything_out() {
    let mut pack = Pack::new();
    pack.goods.add("engine:log", 4);
    pack.goods.add("engine:stone", 2);
    let goods = pack.drain();
    assert!(pack.is_empty());
    let total: u64 = goods.iter().map(|(_, n)| *n).sum();
    assert_eq!(total, 6);
}

#[test]
fn the_load_bar_is_filled_to_the_load_and_notched_at_the_comfortable_line() {
    let blank = vec![0u8; (PANEL_WIDTH * PANEL_HEIGHT * 4) as usize];
    let at = |x: u32, y: u32| ((y * PANEL_WIDTH + x) * 4) as usize;
    let texel = |pixels: &Vec<u8>, x: u32, y: u32| [pixels[at(x, y)], pixels[at(x, y) + 1], pixels[at(x, y) + 2], pixels[at(x, y) + 3]];

    // A quarter full of a bar a hundred wide, comfortable up to a half.
    let mut pixels = blank.clone();
    draw_bar(&mut pixels, 6, 18, 100, 250, 500, 1000);
    assert_eq!(texel(&pixels, 6, 18), ACCENT);
    assert_eq!(texel(&pixels, 6 + 24, 23), ACCENT);
    assert_eq!(texel(&pixels, 6 + 25, 18), BAR_BACK);
    assert_eq!(texel(&pixels, 6 + 50, 20), DIM, "no notch on the comfortable line");
    assert_eq!(texel(&pixels, 6 + 99, 18), BAR_BACK);
    assert_eq!(texel(&pixels, 6 + 100, 18), [0, 0, 0, 0], "the bar ran past its width");
    assert_eq!(texel(&pixels, 6, 24), [0, 0, 0, 0], "the bar is six pixels high");

    // Over the line it runs hot.
    let mut pixels = blank.clone();
    draw_bar(&mut pixels, 6, 18, 100, 750, 500, 1000);
    assert_eq!(texel(&pixels, 6 + 10, 18), HEAVY);
    assert_eq!(texel(&pixels, 6 + 74, 18), HEAVY);
    assert_eq!(texel(&pixels, 6 + 75, 18), BAR_BACK);

    // Clipped at the panel's edge rather than written past it.
    let mut pixels = blank.clone();
    draw_bar(&mut pixels, PANEL_WIDTH - 4, PANEL_HEIGHT - 2, 100, 1000, 500, 1000);
    let lit = pixels.chunks_exact(4).filter(|texel| *texel != [0, 0, 0, 0]).count();
    assert_eq!(lit, 4 * 2);
}
