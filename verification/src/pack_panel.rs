//! What the pack panel says: how heavy, how it feels, and what is in it,
//! heaviest first.
//!
//! Heaviest first because what you would put down to make room is the
//! question a pack panel exists to answer, and name order does not answer it.
//! Ties break on the name so the readout cannot reshuffle between frames.
use vstd::prelude::*;

use crate::pack::{comfortable, comfortable_spec, lemma_weight_positive, weight_of, weight_spec, Pack, UNIT};
use crate::stockpile::{
    byte_order, capped, key, lemma_key_injective, lemma_lex_asymmetric, lemma_lex_irreflexive,
    lemma_lex_total, lemma_lex_transitive, lex_lt, rows_view, sorted_rows,
};
use crate::text::{decimal, push_decimal};

verus! {

/// How many rows the panel lists before it summarises the rest.
pub const ROWS: usize = 12;

/// The panel's size in texture pixels.
pub const PANEL_WIDTH: u32 = 220;
pub const PANEL_HEIGHT: u32 = 190;

/// The comfortable line's notch on the bar.
pub const DIM: [u8; 4] = [150, 150, 155, 255];

/// The bar filled while the load is comfortable.
pub const ACCENT: [u8; 4] = [255, 170, 60, 255];

/// The bar filled once the load is over the comfortable line.
pub const HEAVY: [u8; 4] = [235, 110, 70, 255];

/// The bar where nothing fills it.
pub const BAR_BACK: [u8; 4] = [38, 40, 48, 255];

/// What a row weighs in all.
pub open spec fn heft(r: (Seq<char>, u64)) -> int {
    weight_spec(r.0) * r.1
}

/// Whether row `a` is listed before row `b`: heavier first, then by name.
pub open spec fn listed_before(a: (Seq<char>, u64), b: (Seq<char>, u64)) -> bool {
    heft(a) > heft(b) || (heft(a) == heft(b) && lex_lt(key(a.0), key(b.0)))
}

/// Rows in listing order.
pub open spec fn listed(rows: Seq<(Seq<char>, u64)>) -> bool {
    forall|i: int, j: int| 0 <= i < j < rows.len() ==> listed_before(#[trigger] rows[i], #[trigger] rows[j])
}

proof fn lemma_listed_transitive(a: (Seq<char>, u64), b: (Seq<char>, u64), c: (Seq<char>, u64))
    requires
        listed_before(a, b),
        listed_before(b, c),
    ensures
        listed_before(a, c),
{
    if heft(a) == heft(b) && heft(b) == heft(c) {
        lemma_lex_transitive(key(a.0), key(b.0), key(c.0));
    }
}

proof fn lemma_listed_total(a: (Seq<char>, u64), b: (Seq<char>, u64))
    requires
        a.0 != b.0,
    ensures
        listed_before(a, b) || listed_before(b, a),
        !(listed_before(a, b) && listed_before(b, a)),
{
    if key(a.0) == key(b.0) {
        lemma_key_injective(a.0, b.0);
    }
    lemma_lex_total(key(a.0), key(b.0));
    if lex_lt(key(a.0), key(b.0)) {
        lemma_lex_asymmetric(key(a.0), key(b.0));
    }
}

/// Whether `a` is listed before `b`, computed.
fn before(a: &(String, u64), b: &(String, u64)) -> (r: bool)
    ensures
        r == listed_before((a.0@, a.1), (b.0@, b.1)),
{
    proof {
        lemma_weight_positive(a.0@);
        lemma_weight_positive(b.0@);
    }
    let wa = weight_of(a.0.as_str()) as u128;
    let wb = weight_of(b.0.as_str()) as u128;
    assert(wa * (a.1 as u128) <= 30 * 0x1_0000_0000_0000_0000) by (nonlinear_arith)
        requires
            wa <= 30,
            a.1 <= 0xffff_ffff_ffff_ffff,
    ;
    assert(wb * (b.1 as u128) <= 30 * 0x1_0000_0000_0000_0000) by (nonlinear_arith)
        requires
            wb <= 30,
            b.1 <= 0xffff_ffff_ffff_ffff,
    ;
    let ha = wa * a.1 as u128;
    let hb = wb * b.1 as u128;
    if ha != hb {
        ha > hb
    } else {
        byte_order(a.0.as_str().as_bytes(), b.0.as_str().as_bytes()) == -1
    }
}

/// A pack's rows in listing order.
pub fn heaviest_first(pack: &Pack) -> (rows: Vec<(String, u64)>)
    ensures
        listed(rows_view(rows@)),
        rows@.len() == pack.goods@.len(),
        forall|r: (Seq<char>, u64)| #[trigger] rows_view(rows@).contains(r) <==> pack.goods@.contains(r),
{
    pack.goods.note_well_kept();
    let source = pack.entries();
    let ghost goods = pack.goods@;
    let mut out: Vec<(String, u64)> = Vec::new();
    let mut i: usize = 0;
    while i < source.len()
        invariant
            i <= source@.len(),
            rows_view(source@) == goods,
            sorted_rows(goods),
            listed(rows_view(out@)),
            out@.len() == i,
            forall|r: (Seq<char>, u64)| #[trigger] rows_view(out@).contains(r) <==> goods.take(i as int).contains(r),
        decreases source@.len() - i,
    {
        let row = (source[i].0.clone(), source[i].1);
        let ghost x = (row.0@, row.1);
        let ghost was = rows_view(out@);
        proof {
            assert(goods[i as int] == x);
            assert forall|t: int| 0 <= t < was.len() implies was[t].0 != x.0 by {
                assert(was.contains(was[t]));
                assert(goods.take(i as int).contains(was[t]));
                let u = choose|u: int| 0 <= u < i && goods.take(i as int)[u] == was[t];
                assert(goods[u] == was[t]);
                assert(lex_lt(key(goods[u].0), key(goods[i as int].0)));
                if was[t].0 == x.0 {
                    lemma_lex_irreflexive(key(x.0));
                }
            }
        }
        let mut k: usize = 0;
        let mut placed = false;
        while k < out.len() && !placed
            invariant
                k <= out@.len(),
                was == rows_view(out@),
                forall|t: int| 0 <= t < k ==> listed_before(#[trigger] was[t], x),
                forall|t: int| 0 <= t < was.len() ==> was[t].0 != x.0,
                placed ==> k < out@.len() && listed_before(x, was[k as int]),
                x == (row.0@, row.1),
            decreases out@.len() - k + (if placed { 0int } else { 1int }),
        {
            assert(was[k as int] == (out@[k as int].0@, out@[k as int].1));
            if before(&row, &out[k]) {
                placed = true;
            } else {
                proof {
                    lemma_listed_total(was[k as int], x);
                }
                k = k + 1;
            }
        }
        out.insert(k, row);
        proof {
            was.insert_ensures(k as int, x);
            let now = rows_view(out@);
            assert(now =~= was.insert(k as int, x));
            assert forall|a: int, b: int| 0 <= a < b < now.len() implies listed_before(#[trigger] now[a], #[trigger] now[b]) by {
                if b < k {
                    assert(now[a] == was[a] && now[b] == was[b]);
                } else if b == k {
                    assert(now[a] == was[a]);
                } else if a < k {
                    assert(now[a] == was[a] && now[b] == was[b - 1]);
                } else if a == k {
                    assert(now[b] == was[b - 1]);
                    assert(listed_before(x, was[k as int]));
                    if b - 1 > k {
                        lemma_listed_transitive(x, was[k as int], was[b - 1]);
                    }
                } else {
                    assert(now[a] == was[a - 1] && now[b] == was[b - 1]);
                }
            }
            let before_rows = goods.take(i as int);
            let after_rows = goods.take(i + 1);
            assert(after_rows =~= before_rows.push(x));
            assert forall|r: (Seq<char>, u64)| #[trigger] now.contains(r) <==> after_rows.contains(r) by {
                if now.contains(r) {
                    let t = choose|t: int| 0 <= t < now.len() && now[t] == r;
                    if t < k {
                        assert(was[t] == r);
                        assert(was.contains(r));
                        let u = choose|u: int| 0 <= u < before_rows.len() && before_rows[u] == r;
                        assert(after_rows[u] == r);
                    } else if t == k {
                        assert(after_rows[i as int] == r);
                    } else {
                        assert(was[t - 1] == r);
                        assert(was.contains(r));
                        let u = choose|u: int| 0 <= u < before_rows.len() && before_rows[u] == r;
                        assert(after_rows[u] == r);
                    }
                }
                if after_rows.contains(r) {
                    let u = choose|u: int| 0 <= u < after_rows.len() && after_rows[u] == r;
                    if u < i {
                        assert(before_rows[u] == r);
                        assert(before_rows.contains(r));
                        assert(was.contains(r));
                        let t = choose|t: int| 0 <= t < was.len() && was[t] == r;
                        if t < k {
                            assert(now[t] == r);
                        } else {
                            assert(now[t + 1] == r);
                        }
                    } else {
                        assert(now[k as int] == r);
                    }
                }
            }
        }
        i = i + 1;
    }
    proof {
        assert(goods.take(i as int) =~= goods);
    }
    out
}

/// What the panel says, as values.
#[derive(Debug)]
pub struct PackReadout {
    /// The load over the cap, in whole units: `"12/64"`.
    pub weight: String,
    /// Past the comfortable line, so the figures are drawn as heavy.
    pub heavy: bool,
    /// How it feels.
    pub note: &'static str,
    /// The pack holds nothing.
    pub empty: bool,
    /// The rows listed, heaviest first: name, count, and weight in whole
    /// units.
    pub rows: Vec<(String, u64, u64)>,
    /// How many more kinds there are than the panel lists.
    pub more: usize,
}

/// How the load feels: full once another unit would not fit, heavy past the
/// comfortable line, comfortable otherwise.
pub open spec fn feeling(load: u64, capacity: u64, easy: u64) -> Seq<char> {
    if load > (if capacity >= UNIT { capacity - UNIT } else { 0 }) {
        "FULL. WHAT YOU CUT WILL DROP."@
    } else if load > easy {
        "HEAVY. YOU ARE WALKING SLOWER."@
    } else {
        "COMFORTABLE."@
    }
}

/// What the pack panel says for this pack and carrying limit.
pub fn pack_readout(pack: &Pack, capacity: u64, exo_marks: u32) -> (r: PackReadout)
    requires
        capacity <= u64::MAX / 8,
    ensures
        ({
            let load = capped(pack.weight() as int);
            let easy = comfortable_spec(capacity, exo_marks);
            &&& r.weight@ == decimal((load / UNIT) as nat) + "/"@ + decimal((capacity / UNIT) as nat)
            &&& r.heavy == (load > easy)
            &&& r.note@ == feeling(load, capacity, easy)
            &&& r.empty == (pack.goods@.len() == 0)
            &&& r.more == if pack.goods@.len() > ROWS {
                pack.goods@.len() - ROWS
            } else {
                0
            }
            &&& exists|order: Seq<(Seq<char>, u64)>|
                {
                    &&& listed(order)
                    &&& order.len() == pack.goods@.len()
                    &&& (forall|x: (Seq<char>, u64)| #[trigger] order.contains(x) <==> pack.goods@.contains(x))
                    &&& r.rows@.len() == if order.len() > ROWS {
                        ROWS as int
                    } else {
                        order.len() as int
                    }
                    &&& forall|i: int|
                        0 <= i < r.rows@.len() ==> (#[trigger] r.rows@[i]).0@ == order[i].0 && r.rows@[i].1
                            == order[i].1 && r.rows@[i].2 == capped(heft(order[i]) / UNIT as int)
                }
        }),
{
    let load = pack.load();
    proof {
        crate::pack::lemma_ease_fits(capacity, exo_marks);
    }
    let easy = comfortable(capacity, exo_marks);
    let mut weight = String::new();
    push_decimal(&mut weight, load / UNIT);
    weight.append("/");
    push_decimal(&mut weight, capacity / UNIT);
    proof {
        reveal_strlit("/");
        reveal_strlit("FULL. WHAT YOU CUT WILL DROP.");
        reveal_strlit("HEAVY. YOU ARE WALKING SLOWER.");
        reveal_strlit("COMFORTABLE.");
    }
    let full_at = if capacity >= UNIT { capacity - UNIT } else { 0 };
    let note = if load > full_at {
        "FULL. WHAT YOU CUT WILL DROP."
    } else if load > easy {
        "HEAVY. YOU ARE WALKING SLOWER."
    } else {
        "COMFORTABLE."
    };
    let order = heaviest_first(pack);
    let ghost ov = rows_view(order@);
    let shown = if order.len() > ROWS { ROWS } else { order.len() };
    let mut rows: Vec<(String, u64, u64)> = Vec::new();
    let mut i: usize = 0;
    while i < shown
        invariant
            i <= shown <= order@.len(),
            ov == rows_view(order@),
            rows@.len() == i,
            forall|t: int|
                0 <= t < i ==> (#[trigger] rows@[t]).0@ == ov[t].0 && rows@[t].1 == ov[t].1 && rows@[t].2
                    == capped(heft(ov[t]) / UNIT as int),
        decreases shown - i,
    {
        let (name, count) = (order[i].0.clone(), order[i].1);
        proof {
            assert(ov[i as int] == (order@[i as int].0@, order@[i as int].1));
            lemma_weight_positive(name@);
        }
        let w = weight_of(name.as_str()) as u128;
        assert(w * (count as u128) <= 30 * 0x1_0000_0000_0000_0000) by (nonlinear_arith)
            requires
                w <= 30,
                count <= 0xffff_ffff_ffff_ffff,
        ;
        let mass_wide = (w * count as u128) / (UNIT as u128);
        let mass: u64 = if mass_wide > u64::MAX as u128 { u64::MAX } else { mass_wide as u64 };
        rows.push((name, count, mass));
        i = i + 1;
    }
    let more = if order.len() > ROWS { order.len() - ROWS } else { 0 };
    PackReadout { weight, heavy: load > easy, note, empty: pack.is_empty(), rows, more }
}

/// Where channel `k` of the panel's pixel at `(column, row)` sits in its
/// buffer: four bytes a pixel, row after row.
pub open spec fn panel_texel(row: int, column: int, k: int) -> int {
    (row * PANEL_WIDTH + column) * 4 + k
}

/// What a bar measures against: the capacity, or one for none.
pub open spec fn bar_span(capacity: u64) -> int {
    if capacity == 0 {
        1
    } else {
        capacity as int
    }
}

/// A quantity as far as the bar shows it: no more than the whole bar.
pub open spec fn bar_kept(part: u64, capacity: u64) -> int {
    if part < bar_span(capacity) {
        part as int
    } else {
        bar_span(capacity)
    }
}

/// How far along a bar `width` wide a quantity `part` of `capacity` reaches.
pub open spec fn bar_reach(width: u32, part: u64, capacity: u64) -> int {
    (width * bar_kept(part, capacity)) / bar_span(capacity)
}

/// The colour of the bar `along` pixels in: the notch on the comfortable
/// line, then filled up to the load (hot once over the line), then empty.
pub open spec fn bar_colour(along: int, width: u32, load: u64, easy: u64, capacity: u64) -> [u8; 4] {
    if along == bar_reach(width, easy, capacity) {
        DIM
    } else if along < bar_reach(width, load, capacity) {
        if load > easy {
            HEAVY
        } else {
            ACCENT
        }
    } else {
        BAR_BACK
    }
}

/// The load bar, six pixels high and `width` wide at `(x, y)`, clipped to
/// the panel, with the comfortable line notched into it. Nothing else in the
/// buffer changes.
pub fn draw_bar(pixels: &mut Vec<u8>, x: u32, y: u32, width: u32, load: u64, easy: u64, capacity: u64)
    requires
        old(pixels)@.len() >= PANEL_WIDTH * PANEL_HEIGHT * 4,
        y + 6 <= u32::MAX,
        x + width <= u32::MAX,
        width * bar_kept(load, capacity) <= u64::MAX,
        width * bar_kept(easy, capacity) <= u64::MAX,
    ensures
        final(pixels)@.len() == old(pixels)@.len(),
        forall|row: int, column: int, k: int|
            0 <= row < PANEL_HEIGHT && 0 <= column < PANEL_WIDTH && 0 <= k < 4 ==> #[trigger] final(pixels)@[panel_texel(
                row,
                column,
                k,
            )] == if y <= row < y + 6 && x <= column < x + width {
                bar_colour(column - x, width, load, easy, capacity)@[k]
            } else {
                old(pixels)@[panel_texel(row, column, k)]
            },
        forall|i: int| PANEL_WIDTH * PANEL_HEIGHT * 4 <= i < old(pixels)@.len() ==> #[trigger] final(pixels)@[i]
            == old(pixels)@[i],
{
    let span: u64 = if capacity == 0 { 1 } else { capacity };
    let filled_part: u64 = if load < span { load } else { span };
    let notch_part: u64 = if easy < span { easy } else { span };
    assert(filled_part == bar_kept(load, capacity) && notch_part == bar_kept(easy, capacity));
    let filled: u64 = (width as u64) * filled_part / span;
    let notch: u64 = (width as u64) * notch_part / span;
    assert(filled <= width && notch <= width) by (nonlinear_arith)
        requires
            filled == (width as int) * (filled_part as int) / (span as int),
            notch == (width as int) * (notch_part as int) / (span as int),
            filled_part <= span,
            notch_part <= span,
            span >= 1,
    ;
    assert(filled == bar_reach(width, load, capacity));
    assert(notch == bar_reach(width, easy, capacity));
    let bottom: u32 = if y + 6 < PANEL_HEIGHT { y + 6 } else { PANEL_HEIGHT };
    let right: u32 = if x + width < PANEL_WIDTH { x + width } else { PANEL_WIDTH };
    let ghost before = pixels@;
    let mut py: u32 = y;
    while py < bottom
        invariant
            y <= py,
            py <= bottom || bottom < y,
            bottom <= PANEL_HEIGHT,
            right <= PANEL_WIDTH,
            bottom == (if y + 6 < PANEL_HEIGHT { y + 6 } else { PANEL_HEIGHT as int }),
            right == (if x + width < PANEL_WIDTH { x + width } else { PANEL_WIDTH as int }),
            filled == bar_reach(width, load, capacity),
            notch == bar_reach(width, easy, capacity),
            pixels@.len() == before.len(),
            before.len() >= PANEL_WIDTH * PANEL_HEIGHT * 4,
            forall|r: int, c: int, k: int|
                0 <= r < PANEL_HEIGHT && 0 <= c < PANEL_WIDTH && 0 <= k < 4 ==> #[trigger] pixels@[panel_texel(r, c, k)]
                    == if y <= r < py && x <= c < x + width {
                    bar_colour(c - x, width, load, easy, capacity)@[k]
                } else {
                    before[panel_texel(r, c, k)]
                },
            forall|i: int| PANEL_WIDTH * PANEL_HEIGHT * 4 <= i < before.len() ==> #[trigger] pixels@[i] == before[i],
        decreases bottom - py,
    {
        let mut px: u32 = x;
        while px < right
            invariant
                y <= py < bottom <= PANEL_HEIGHT,
                x <= px,
                px <= right || right < x,
                right <= PANEL_WIDTH,
                bottom == (if y + 6 < PANEL_HEIGHT { y + 6 } else { PANEL_HEIGHT as int }),
                right == (if x + width < PANEL_WIDTH { x + width } else { PANEL_WIDTH as int }),
                filled == bar_reach(width, load, capacity),
                notch == bar_reach(width, easy, capacity),
                pixels@.len() == before.len(),
                before.len() >= PANEL_WIDTH * PANEL_HEIGHT * 4,
                forall|r: int, c: int, k: int|
                    0 <= r < PANEL_HEIGHT && 0 <= c < PANEL_WIDTH && 0 <= k < 4 ==> #[trigger] pixels@[panel_texel(r, c, k)]
                        == if x <= c < x + width && (y <= r < py || (r == py && c < px)) {
                        bar_colour(c - x, width, load, easy, capacity)@[k]
                    } else {
                        before[panel_texel(r, c, k)]
                    },
                forall|i: int| PANEL_WIDTH * PANEL_HEIGHT * 4 <= i < before.len() ==> #[trigger] pixels@[i] == before[i],
            decreases right - px,
        {
            let along = (px - x) as u64;
            let texel: [u8; 4] = if along == notch {
                DIM
            } else if along < filled {
                if load > easy { HEAVY } else { ACCENT }
            } else {
                BAR_BACK
            };
            assert(texel == bar_colour(px - x, width, load, easy, capacity));
            let at: usize = ((py * PANEL_WIDTH + px) * 4) as usize;
            assert(at as int == panel_texel(py as int, px as int, 0));
            let ghost was = pixels@;
            pixels.set(at, texel[0]);
            pixels.set(at + 1, texel[1]);
            pixels.set(at + 2, texel[2]);
            pixels.set(at + 3, texel[3]);
            proof {
                assert forall|r: int, c: int, k: int|
                    0 <= r < PANEL_HEIGHT && 0 <= c < PANEL_WIDTH && 0 <= k < 4 implies #[trigger] pixels@[panel_texel(r, c, k)]
                    == if x <= c < x + width && (y <= r < py || (r == py && c < px + 1)) {
                    bar_colour(c - x, width, load, easy, capacity)@[k]
                } else {
                    before[panel_texel(r, c, k)]
                } by {
                    if r == py && c == px {
                        assert(panel_texel(r, c, k) == at + k);
                    } else {
                        assert(panel_texel(r, c, k) != at as int + 0);
                        assert(panel_texel(r, c, k) != at as int + 1);
                        assert(panel_texel(r, c, k) != at as int + 2);
                        assert(panel_texel(r, c, k) != at as int + 3);
                        assert(pixels@[panel_texel(r, c, k)] == was[panel_texel(r, c, k)]);
                    }
                }
            }
            px = px + 1;
        }
        py = py + 1;
    }
}

} // verus!
