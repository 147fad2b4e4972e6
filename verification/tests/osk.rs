use vx_app::osk::{fill, key_at, Osk, COLUMNS, KEYS, OSK_HEIGHT, OSK_WIDTH, ROWS};

#[test]
fn the_whole_alphabet_and_every_digit_are_on_the_board() {
    let all: String = KEYS.concat();
    for character in ('A'..='Z').chain('0'..='9') {
        assert!(all.contains(character), "{character} is not on the board");
    }
    assert!(all.contains(' '), "there is no space key");
}

#[test]
fn the_cursor_wraps_at_every_edge() {
    let mut osk = Osk::default();
    osk.open();
    assert_eq!(osk.cursor(), (0, 0));
    // Left from the first column lands on the last, not nowhere.
    osk.move_cursor(-1, 0);
    assert_eq!(osk.cursor(), (0, COLUMNS - 1));
    osk.move_cursor(0, -1);
    assert_eq!(osk.cursor(), (ROWS - 1, COLUMNS - 1));
    osk.move_cursor(1, 1);
    assert_eq!(osk.cursor(), (0, 0));
}

#[test]
fn the_cursor_picks_the_key_it_is_over() {
    let mut osk = Osk::default();
    osk.open();
    assert_eq!(osk.picked(), 'A');
    osk.move_cursor(1, 0);
    assert_eq!(osk.picked(), 'B');
    osk.move_cursor(0, 1);
    assert_eq!(osk.picked(), 'L');
    // The bottom right is the space key.
    let mut corner = Osk::default();
    corner.open();
    corner.move_cursor(-1, -1);
    assert_eq!(corner.picked(), ' ');
}

#[test]
fn a_verb_can_be_typed_from_the_board_alone() {
    let mut osk = Osk::default();
    osk.open();
    // What the terminal's line holds: every typed character, upper-cased.
    let mut typed = String::new();
    for wanted in "FOUND".chars() {
        let mut steps = 0;
        while osk.picked() != wanted {
            osk.move_cursor(1, 0);
            if osk.cursor().1 == 0 {
                osk.move_cursor(0, 1);
            }
            steps += 1;
            assert!(steps < ROWS * COLUMNS * 2, "{wanted} is unreachable on the board");
        }
        typed.push(osk.picked().to_ascii_uppercase());
    }
    assert_eq!(typed, "FOUND");
}

#[test]
fn every_row_is_as_wide_as_the_board() {
    for row in KEYS {
        assert_eq!(row.chars().count(), COLUMNS, "a row is the wrong width: {row:?}");
    }
    assert_eq!(KEYS.len(), ROWS);
}

#[test]
fn key_at_reads_the_grid_and_clamps_past_it() {
    assert_eq!(key_at(0, 0), 'A');
    assert_eq!(key_at(1, 1), 'L');
    assert_eq!(key_at(2, 9), '3');
    assert_eq!(key_at(3, 9), ' ');
    assert_eq!(key_at(9, 9), ' ');
    assert_eq!(key_at(0, 40), 'J');
}

#[test]
fn a_long_move_wraps_as_often_as_it_must() {
    let mut osk = Osk::default();
    osk.open();
    osk.move_cursor(23, 9);
    assert_eq!(osk.cursor(), (1, 3));
    osk.move_cursor(-24, -6);
    assert_eq!(osk.cursor(), (3, 9));
}

#[test]
fn opening_the_board_puts_the_cursor_home() {
    let mut osk = Osk::default();
    osk.open();
    osk.move_cursor(4, 2);
    osk.close();
    osk.open();
    assert_eq!(osk.cursor(), (0, 0));
}

#[test]
fn a_filled_rectangle_is_clipped_to_the_board() {
    let mut pixels = vec![7u8; (OSK_WIDTH * OSK_HEIGHT * 4) as usize];
    let colour = [1, 2, 3, 4];
    fill(&mut pixels, -3, -3, 17, 13, colour);
    let at = |x: u32, y: u32| ((y * OSK_WIDTH + x) * 4) as usize;
    assert_eq!(&pixels[at(0, 0)..at(0, 0) + 4], &colour, "the corner inside was not filled");
    assert_eq!(&pixels[at(13, 9)..at(13, 9) + 4], &colour);
    assert_eq!(&pixels[at(14, 9)..at(14, 9) + 4], &[7, 7, 7, 7], "filled past the right edge");
    assert_eq!(&pixels[at(13, 10)..at(13, 10) + 4], &[7, 7, 7, 7], "filled past the bottom edge");

    // A rectangle hanging off the far corner fills only what is on the board.
    let mut pixels = vec![0u8; (OSK_WIDTH * OSK_HEIGHT * 4) as usize];
    fill(&mut pixels, OSK_WIDTH as i32 - 2, OSK_HEIGHT as i32 - 1, 10, 10, colour);
    let lit = pixels.chunks_exact(4).filter(|texel| *texel == colour).count();
    assert_eq!(lit, 2);
}

#[test]
fn the_board_says_whether_it_is_up() {
    let mut osk = Osk::new();
    assert!(!osk.is_up());
    osk.open();
    assert!(osk.is_up());
    osk.close();
    assert!(!osk.is_up());
}
