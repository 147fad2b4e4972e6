//! The on-screen keyboard: typing without a keyboard.
//!
//! A pad cannot press a letter, so it gets a grid and a cursor, and what it
//! produces goes to the same place the window's text lands. The state is a
//! row, a column and whether the board is up; the drawing is a function of
//! that state.
use vstd::prelude::*;

verus! {

/// The grid, row by row. Space is the wide key at the end of the last row.
pub const KEYS: [&'static str; 4] = ["ABCDEFGHIJ", "KLMNOPQRST", "UVWXYZ0123", "456789-,. "];

/// Columns in the grid.
pub const COLUMNS: usize = 10;

/// Rows in the grid.
pub const ROWS: usize = 4;

/// The panel's size in texture pixels.
pub const OSK_WIDTH: u32 = 200;
pub const OSK_HEIGHT: u32 = 76;

/// The character at a grid position, clamped onto the grid.
pub open spec fn key_spec(row: int, column: int) -> char {
    let r = if row > 3 {
        3int
    } else {
        row
    };
    let c = if column > 9 {
        9int
    } else {
        column
    };
    KEYS@[r]@[c]
}

/// The character at a grid position.
pub fn key_at(row: usize, column: usize) -> (key: char)
    ensures
        key == key_spec(row as int, column as int),
{
    let r = if row > ROWS - 1 { ROWS - 1 } else { row };
    let c = if column > COLUMNS - 1 { COLUMNS - 1 } else { column };
    proof {
        reveal_strlit("ABCDEFGHIJ");
        reveal_strlit("KLMNOPQRST");
        reveal_strlit("UVWXYZ0123");
        reveal_strlit("456789-,. ");
    }
    let line = KEYS[r];
    line.get_char(c)
}

/// `x` wrapped into `0..n`, counting down from the top for a negative `x`.
pub open spec fn wrapped(x: int, n: int) -> int {
    x % n
}

/// Where the cursor is, and whether the board is up at all.
#[derive(Debug, Clone, Copy, PartialEq, Eq, Structural)]
pub struct Osk {
    open: bool,
    row: usize,
    column: usize,
}

impl Osk {
    /// The cursor's row and column.
    pub closed spec fn at(&self) -> (int, int) {
        (self.row as int, self.column as int)
    }

    /// Whether the board is up.
    pub closed spec fn up(&self) -> bool {
        self.open
    }

    /// The cursor is on the grid.
    pub closed spec fn placed(&self) -> bool {
        self.row < ROWS && self.column < COLUMNS
    }

    /// Whether the board is up.
    pub fn is_up(&self) -> (up: bool)
        ensures
            up == self.up(),
    {
        self.open
    }

    /// Down, with the cursor at the top left.
    pub fn new() -> (osk: Osk)
        ensures
            !osk.up(),
            osk.placed(),
            osk.at() == (0int, 0int),
    {
        Osk { open: false, row: 0, column: 0 }
    }

    /// Raise the board, cursor back at the top left.
    pub fn open(&mut self)
        ensures
            final(self).up(),
            final(self).placed(),
            final(self).at() == (0int, 0int),
    {
        self.open = true;
        self.row = 0;
        self.column = 0;
    }

    /// Put the board away. The cursor stays where it was.
    pub fn close(&mut self)
        ensures
            !final(self).up(),
            final(self).at() == old(self).at(),
            final(self).placed() == old(self).placed(),
    {
        self.open = false;
    }

    /// The cursor's row and column.
    pub fn cursor(&self) -> (at: (usize, usize))
        ensures
            (at.0 as int, at.1 as int) == self.at(),
            self.placed() <==> at.0 < ROWS && at.1 < COLUMNS,
    {
        (self.row, self.column)
    }

    /// Move the cursor, wrapping at every edge.
    pub fn move_cursor(&mut self, dx: i32, dy: i32)
        ensures
            final(self).up() == old(self).up(),
            final(self).placed(),
            old(self).placed() ==> final(self).at() == (
                wrapped(old(self).at().0 + dy, ROWS as int),
                wrapped(old(self).at().1 + dx, COLUMNS as int),
            ),
    {
        let column = (self.column % COLUMNS) as i64 + dx as i64;
        let row = (self.row % ROWS) as i64 + dy as i64;
        let c = match column.checked_rem_euclid(COLUMNS as i64) {
            Some(v) => v,
            None => 0,
        };
        let r = match row.checked_rem_euclid(ROWS as i64) {
            Some(v) => v,
            None => 0,
        };
        self.column = c as usize;
        self.row = r as usize;
    }

    /// The character under the cursor.
    pub fn picked(&self) -> (key: char)
        ensures
            key == key_spec(self.at().0, self.at().1),
    {
        key_at(self.row, self.column)
    }
}

impl Default for Osk {
    fn default() -> (osk: Osk)
        ensures
            !osk.up(),
            osk.placed(),
            osk.at() == (0int, 0int),
    {
        Osk::new()
    }
}

/// **The cursor wraps at every edge.** Two moves are one move by their sum,
/// and a whole lap in either direction comes back where it started.
pub proof fn lemma_moves_compose(row: int, column: int, dx1: int, dy1: int, dx2: int, dy2: int)
    requires
        0 <= row < ROWS,
        0 <= column < COLUMNS,
    ensures
        wrapped(wrapped(column + dx1, COLUMNS as int) + dx2, COLUMNS as int) == wrapped(
            column + dx1 + dx2,
            COLUMNS as int,
        ),
        wrapped(wrapped(row + dy1, ROWS as int) + dy2, ROWS as int) == wrapped(
            row + dy1 + dy2,
            ROWS as int,
        ),
        wrapped(column + COLUMNS, COLUMNS as int) == column,
        wrapped(column - COLUMNS, COLUMNS as int) == column,
        wrapped(row + ROWS, ROWS as int) == row,
        wrapped(row - ROWS, ROWS as int) == row,
{
    vstd::arithmetic::div_mod::lemma_add_mod_noop_right(dx2, column + dx1, 10);
    vstd::arithmetic::div_mod::lemma_add_mod_noop_right(dy2, row + dy1, 4);
    vstd::arithmetic::div_mod::lemma_mod_add_multiples_vanish(column, 10);
    vstd::arithmetic::div_mod::lemma_mod_sub_multiples_vanish(column, 10);
    vstd::arithmetic::div_mod::lemma_mod_add_multiples_vanish(row, 4);
    vstd::arithmetic::div_mod::lemma_mod_sub_multiples_vanish(row, 4);
    vstd::arithmetic::div_mod::lemma_small_mod(column as nat, 10);
    vstd::arithmetic::div_mod::lemma_small_mod(row as nat, 4);
}

/// Where channel `k` of the board's pixel at `(column, row)` sits in its
/// buffer: four bytes a pixel, row after row.
pub open spec fn osk_texel(row: int, column: int, k: int) -> int {
    (row * OSK_WIDTH + column) * 4 + k
}

/// Whether the pixel at `(column, row)` lies in the rectangle `width` wide
/// and `height` high whose top left corner is `(x, y)`.
pub open spec fn in_rect(x: int, y: int, width: int, height: int, column: int, row: int) -> bool {
    x <= column < x + width && y <= row < y + height
}

/// A filled rectangle, clipped to the board: every pixel of the board inside
/// it takes `colour`, and nothing else in the buffer changes.
pub fn fill(pixels: &mut Vec<u8>, x: i32, y: i32, width: i32, height: i32, colour: [u8; 4])
    requires
        old(pixels)@.len() >= OSK_WIDTH * OSK_HEIGHT * 4,
        i32::MIN <= x + width <= i32::MAX,
        i32::MIN <= y + height <= i32::MAX,
    ensures
        final(pixels)@.len() == old(pixels)@.len(),
        forall|row: int, column: int, k: int|
            0 <= row < OSK_HEIGHT && 0 <= column < OSK_WIDTH && 0 <= k < 4 ==> #[trigger] final(pixels)@[osk_texel(
                row,
                column,
                k,
            )] == if in_rect(x as int, y as int, width as int, height as int, column, row) {
                colour@[k]
            } else {
                old(pixels)@[osk_texel(row, column, k)]
            },
        forall|i: int| OSK_WIDTH * OSK_HEIGHT * 4 <= i < old(pixels)@.len() ==> #[trigger] final(pixels)@[i] == old(pixels)@[i],
{
    let w: i32 = OSK_WIDTH as i32;
    let h: i32 = OSK_HEIGHT as i32;
    let top: i32 = if y < 0 { 0 } else { y };
    let bottom: i32 = if y + height > h { h } else { y + height };
    let left: i32 = if x < 0 { 0 } else { x };
    let right: i32 = if x + width > w { w } else { x + width };
    let ghost before = pixels@;
    let mut row: i32 = top;
    while row < bottom
        invariant
            0 <= top <= row,
            row <= bottom || bottom < top,
            bottom <= h,
            0 <= left,
            right <= w,
            top == (if y < 0 { 0 } else { y }),
            bottom == (if y + height > h { h as int } else { y + height }),
            left == (if x < 0 { 0 } else { x }),
            right == (if x + width > w { w as int } else { x + width }),
            w == OSK_WIDTH,
            h == OSK_HEIGHT,
            pixels@.len() == before.len(),
            before.len() >= OSK_WIDTH * OSK_HEIGHT * 4,
            forall|r: int, c: int, k: int|
                0 <= r < OSK_HEIGHT && 0 <= c < OSK_WIDTH && 0 <= k < 4 ==> #[trigger] pixels@[osk_texel(r, c, k)]
                    == if in_rect(x as int, y as int, width as int, height as int, c, r) && r < row {
                    colour@[k]
                } else {
                    before[osk_texel(r, c, k)]
                },
            forall|i: int| OSK_WIDTH * OSK_HEIGHT * 4 <= i < before.len() ==> #[trigger] pixels@[i] == before[i],
        decreases bottom - row,
    {
        let mut column: i32 = left;
        while column < right
            invariant
                0 <= top <= row < bottom <= h,
                0 <= left <= column,
                column <= right || right < left,
                right <= w,
                top == (if y < 0 { 0 } else { y }),
                bottom == (if y + height > h { h as int } else { y + height }),
                left == (if x < 0 { 0 } else { x }),
                right == (if x + width > w { w as int } else { x + width }),
                w == OSK_WIDTH,
                h == OSK_HEIGHT,
                pixels@.len() == before.len(),
                before.len() >= OSK_WIDTH * OSK_HEIGHT * 4,
                forall|r: int, c: int, k: int|
                    0 <= r < OSK_HEIGHT && 0 <= c < OSK_WIDTH && 0 <= k < 4 ==> #[trigger] pixels@[osk_texel(r, c, k)]
                        == if in_rect(x as int, y as int, width as int, height as int, c, r) && (r < row || (r == row
                        && c < column)) {
                        colour@[k]
                    } else {
                        before[osk_texel(r, c, k)]
                    },
                forall|i: int| OSK_WIDTH * OSK_HEIGHT * 4 <= i < before.len() ==> #[trigger] pixels@[i] == before[i],
            decreases right - column,
        {
            let at: usize = ((row * w + column) * 4) as usize;
            assert(at as int == osk_texel(row as int, column as int, 0));
            let ghost was = pixels@;
            pixels.set(at, colour[0]);
            pixels.set(at + 1, colour[1]);
            pixels.set(at + 2, colour[2]);
            pixels.set(at + 3, colour[3]);
            proof {
                assert forall|r: int, c: int, k: int|
                    0 <= r < OSK_HEIGHT && 0 <= c < OSK_WIDTH && 0 <= k < 4 implies #[trigger] pixels@[osk_texel(r, c, k)]
                    == if in_rect(x as int, y as int, width as int, height as int, c, r) && (r < row || (r == row
                    && c < column + 1)) {
                    colour@[k]
                } else {
                    before[osk_texel(r, c, k)]
                } by {
                    if r == row && c == column {
                        assert(osk_texel(r, c, k) == at + k);
                    } else {
                        assert(osk_texel(r, c, k) != at as int + 0);
                        assert(osk_texel(r, c, k) != at as int + 1);
                        assert(osk_texel(r, c, k) != at as int + 2);
                        assert(osk_texel(r, c, k) != at as int + 3);
                        assert(pixels@[osk_texel(r, c, k)] == was[osk_texel(r, c, k)]);
                    }
                }
            }
            column = column + 1;
        }
        row = row + 1;
    }
}

} // verus!
