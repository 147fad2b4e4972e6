//! What you are carrying, on your back, right now.
//!
//! # Weight, not count
//!
//! A pack of leaves and a pack of uranium are the same number of blocks and
//! not remotely the same walk home. [`WEIGHTS`] says what each thing weighs
//! against [`UNIT`], one block of plain stone, and the base capacity is the old
//! block count times `UNIT`, so a fresh player still carries sixty-four stone.
//!
//! Under the comfortable line you walk at full speed; over it you slow; at the
//! cap nothing more goes in: slow first, then a hard stop.
use vstd::prelude::*;

use crate::bytes::{
    lemma_stands_at_end, lemma_u32_bytes_len, lemma_u32_round_trip, put_tag, put_u32,
    read_u32, stands_at, tag_at, u32_at, u32_bytes,
};
use crate::cargo::{lemma_pile_round_trip, names_fit, pile_at, pile_bytes, put_pile, read_pile};
use crate::pile::Base;
use crate::stockpile::{
    capped, count_in, key, lemma_count_bounded, rows_view, sum_in, wf_rows, Stockpile,
};

verus! {

/// The four bytes `pack.dat` starts with.
pub const MAGIC: [u8; 4] = [0x56, 0x58, 0x50, 0x4b];

/// The layout this build writes.
pub const VERSION: u32 = 1;

/// Longest good name accepted, so a damaged file cannot ask for a huge buffer.
pub const MAX_NAME: u32 = 64;

/// A cap on how many kinds a pack can hold.
pub const MAX_ROWS: u32 = 4_096;

/// What one block of plain stone weighs.
pub const UNIT: u64 = 10;

/// What anything unlisted weighs: stone, the least surprising guess.
pub const UNLISTED: u64 = UNIT;

/// Blocks a machine or a person carries before anything is upgraded.
pub const DEFAULT_CAPACITY: u64 = 64;

/// Marks an upgrade line goes up to.
pub const MAX_UPGRADE: u32 = 5;

/// What each thing weighs, against [`UNIT`]: foliage is nothing, timber is
/// light for its bulk, rock is the reference, metal and ore are heavy, and
/// uranium is the heaviest thing a person can pick up.
pub const WEIGHTS: [(&'static str, u64); 55] = [
    ("engine:leaves", 1),
    ("engine:needles", 1),
    ("engine:bog_needles", 1),
    ("engine:grass", 1),
    ("engine:tall_grass", 1),
    ("engine:snowy_grass", 1),
    ("engine:ash", 2),
    ("engine:ember", 2),
    ("engine:sphagnum", 2),
    ("engine:snowy_sphagnum", 2),
    ("engine:hho_cell", 3),
    ("engine:gas_cell", 3),
    ("engine:plank", 4),
    ("engine:roof", 4),
    ("engine:catwalk", 4),
    ("engine:footing", 4),
    ("engine:bog_log", 5),
    ("engine:log", 6),
    ("engine:spruce_log", 6),
    ("engine:prime_timber", 7),
    ("engine:ancient_log", 12),
    ("engine:sand", 8),
    ("engine:snowy_sand", 8),
    ("engine:dirt", 8),
    ("engine:stone", 10),
    ("engine:ice", 10),
    ("engine:water", 10),
    ("engine:bedrock", 10),
    ("engine:gas_shale", 10),
    ("engine:oil_sand", 11),
    ("engine:supply_cache", 12),
    ("engine:chest", 14),
    ("engine:container", 15),
    ("engine:mailbox", 15),
    ("engine:ward_cot", 15),
    ("engine:roost", 15),
    ("engine:wellhead", 16),
    ("engine:pump", 16),
    ("engine:printer", 18),
    ("engine:electrolyser", 18),
    ("engine:counter", 18),
    ("engine:beacon", 18),
    ("engine:mast", 18),
    ("engine:permit_box_i", 15),
    ("engine:permit_box_ii", 15),
    ("engine:permit_box_iii", 15),
    ("engine:rusted_metal", 18),
    ("engine:metal_wall", 20),
    ("engine:rampart", 20),
    ("engine:bunker_shell", 20),
    ("engine:vault", 24),
    ("engine:oil_barrel", 22),
    ("engine:copper_ore", 18),
    ("engine:copper_bar", 25),
    ("engine:uranium_ore", 30),
];

/// The weight table as names and weights.
pub open spec fn weight_table() -> Seq<(Seq<char>, u64)> {
    WEIGHTS@.map_values(|row: (&'static str, u64)| (row.0@, row.1))
}

/// The weight of the first row naming `name`, or [`UNLISTED`].
pub open spec fn weight_in(table: Seq<(Seq<char>, u64)>, name: Seq<char>) -> u64
    decreases table.len(),
{
    if table.len() == 0 {
        UNLISTED
    } else if table[0].0 == name {
        table[0].1
    } else {
        weight_in(table.drop_first(), name)
    }
}

/// What one of `name` weighs.
pub open spec fn weight_spec(name: Seq<char>) -> u64 {
    weight_in(weight_table(), name)
}

/// What one of `name` weighs.
pub fn weight_of(name: &str) -> (w: u64)
    ensures
        w == weight_spec(name@),
{
    let want = name.as_bytes();
    let mut i: usize = 0;
    assert(weight_table().skip(0) =~= weight_table());
    while i < WEIGHTS.len()
        invariant
            0 <= i <= WEIGHTS@.len(),
            want@ == key(name@),
            weight_spec(name@) == weight_in(weight_table().skip(i as int), name@),
        decreases WEIGHTS@.len() - i,
    {
        let (good, weight) = WEIGHTS[i];
        let ghost rest = weight_table().skip(i as int);
        proof {
            assert(rest[0] == (good@, weight));
            assert(rest.drop_first() =~= weight_table().skip(i + 1));
        }
        if crate::stockpile::byte_order(good.as_bytes(), want) == 0 {
            proof {
                crate::stockpile::lemma_key_injective(good@, name@);
            }
            return weight;
        }
        proof {
            if good@ == name@ {
                assert(key(good@) == key(name@));
            }
        }
        i = i + 1;
    }
    UNLISTED
}

/// A multiplication that stops at the top rather than wrapping.
pub fn saturating_mul_u64(x: u64, y: u64) -> (r: u64)
    ensures
        r == capped(x * y),
{
    match x.checked_mul(y) {
        Some(v) => v,
        None => u64::MAX,
    }
}

/// The carrying skill's curve: a quarter more per level past the first.
pub open spec fn skill_capacity_spec(base: u64, level: u32) -> u64 {
    if level <= 1 {
        base
    } else {
        capped(base + (base / 4) * (level - 1))
    }
}

/// What the carrying skill lets you lift, in blocks.
pub fn skill_capacity(base: u64, level: u32) -> (blocks: u64)
    ensures
        blocks == skill_capacity_spec(base, level),
{
    if level <= 1 {
        base
    } else {
        base.saturating_add(saturating_mul_u64(base / 4, (level - 1) as u64))
    }
}

/// The pack line's curve: sixteen blocks more per mark, up to the last mark.
pub open spec fn pack_capacity_spec(blocks: u64, marks: u32) -> u64 {
    capped(blocks + 16 * if marks > MAX_UPGRADE {
        MAX_UPGRADE as int
    } else {
        marks as int
    })
}

/// What the pack upgrades let you carry, in blocks.
pub fn pack_capacity(blocks: u64, marks: u32) -> (more: u64)
    ensures
        more == pack_capacity_spec(blocks, marks),
{
    let marks = if marks > MAX_UPGRADE { MAX_UPGRADE } else { marks };
    blocks.saturating_add(16 * marks as u64)
}

/// The powered frame's curve: a tenth more per mark, up to the last mark.
pub open spec fn exo_capacity_spec(units: u64, marks: u32) -> u64 {
    capped(units + (units / 10) * if marks > MAX_UPGRADE {
        MAX_UPGRADE as int
    } else {
        marks as int
    })
}

/// What the powered frame lets you carry, in units.
pub fn exo_capacity(units: u64, marks: u32) -> (more: u64)
    ensures
        more == exo_capacity_spec(units, marks),
{
    let marks = if marks > MAX_UPGRADE { MAX_UPGRADE } else { marks };
    units.saturating_add(saturating_mul_u64(units / 10, marks as u64))
}

/// What you can carry before the frame gives out, in units.
pub open spec fn capacity_spec(logistics: u32, pack_marks: u32, exo_marks: u32) -> u64 {
    exo_capacity_spec(
        capped(pack_capacity_spec(skill_capacity_spec(DEFAULT_CAPACITY, logistics), pack_marks) * UNIT),
        exo_marks,
    )
}

/// What you can carry before the frame gives out, in [`UNIT`]s.
pub fn capacity(logistics: u32, pack_marks: u32, exo_marks: u32) -> (units: u64)
    ensures
        units == capacity_spec(logistics, pack_marks, exo_marks),
{
    let blocks = pack_capacity(skill_capacity(DEFAULT_CAPACITY, logistics), pack_marks);
    exo_capacity(saturating_mul_u64(blocks, UNIT), exo_marks)
}

/// The load you can carry without feeling it: three tenths of the cap bare,
/// and a tenth more per mark of the frame.
/// Tenths of the capacity that carry without being felt: three, and one more
/// for each mark of the exoskeleton, up to the last mark there is.
pub open spec fn ease_tenths(exo_marks: u32) -> int {
    3 + if exo_marks > MAX_UPGRADE {
        MAX_UPGRADE as int
    } else {
        exo_marks as int
    }
}

pub open spec fn comfortable_spec(capacity: u64, exo_marks: u32) -> u64 {
    (capacity * ease_tenths(exo_marks) / 10) as u64
}

/// The load you can carry without feeling it.
pub fn comfortable(capacity: u64, exo_marks: u32) -> (easy: u64)
    requires
        capacity * ease_tenths(exo_marks) <= u64::MAX,
    ensures
        easy == comfortable_spec(capacity, exo_marks),
        easy <= capacity,
{
    let marks = if exo_marks > MAX_UPGRADE { MAX_UPGRADE } else { exo_marks };
    assert(capacity * (3 + marks as u64) <= capacity * 8) by (nonlinear_arith)
        requires
            marks <= 5,
    ;
    let easy = capacity * (3 + marks as u64) / 10;
    easy
}

/// A capacity of at most an eighth of a `u64` leaves room for every mark.
pub proof fn lemma_ease_fits(capacity: u64, exo_marks: u32)
    requires
        capacity <= u64::MAX / 8,
    ensures
        capacity * ease_tenths(exo_marks) <= u64::MAX,
{
    assert(capacity * ease_tenths(exo_marks) <= capacity * 8) by (nonlinear_arith)
        requires
            3 <= ease_tenths(exo_marks) <= 8,
    ;
}

/// `part` of `whole`, in 255ths, rounded to nearest and never past 255.
pub open spec fn quantised(part: u64, whole: u64) -> u8 {
    if whole == 0 {
        if part > 0 {
            255
        } else {
            0
        }
    } else {
        let p = if part > whole {
            whole as int
        } else {
            part as int
        };
        ((p * 255 + whole / 2) / whole as int) as u8
    }
}

/// `part` of `whole` as the byte the journal carries.
pub fn quantise(part: u64, whole: u64) -> (byte: u8)
    ensures
        byte == quantised(part, whole),
{
    if whole == 0 {
        return if part > 0 { 255 } else { 0 };
    }
    let p: u128 = if part > whole { whole as u128 } else { part as u128 };
    let w: u128 = whole as u128;
    assert(p * 255 <= w * 255) by (nonlinear_arith)
        requires
            p <= w,
    ;
    let scaled = (p * 255 + w / 2) / w;
    assert(scaled <= 255) by (nonlinear_arith)
        requires
            p <= w,
            w > 0,
            scaled == (p * 255 + w / 2) / (w as int),
    ;
    scaled as u8
}

/// How much a row of goods weighs, exactly.
pub open spec fn load_in(rows: Seq<(Seq<char>, u64)>) -> nat
    decreases rows.len(),
{
    if rows.len() == 0 {
        0
    } else {
        load_in(rows.drop_last()) + (weight_spec(rows.last().0) as nat) * (rows.last().1 as nat)
    }
}

pub proof fn lemma_load_concat(a: Seq<(Seq<char>, u64)>, b: Seq<(Seq<char>, u64)>)
    ensures
        load_in(a + b) == load_in(a) + load_in(b),
    decreases b.len(),
{
    if b.len() == 0 {
        assert(a + b =~= a);
    } else {
        assert((a + b).drop_last() =~= a + b.drop_last());
        lemma_load_concat(a, b.drop_last());
    }
}

pub proof fn lemma_load_single(r: (Seq<char>, u64))
    ensures
        load_in(seq![r]) == (weight_spec(r.0) as nat) * (r.1 as nat),
{
    assert(seq![r].drop_last() =~= Seq::<(Seq<char>, u64)>::empty());
    assert(seq![r].last() == r);
    assert(load_in(Seq::<(Seq<char>, u64)>::empty()) == 0);
}

/// Adding `amount` of one good to a pile adds that good's weight for every
/// one that actually went in.
pub proof fn lemma_add_weight(before: Seq<(Seq<char>, u64)>, after: Seq<(Seq<char>, u64)>, name: Seq<char>, amount: u64)
    requires
        (exists|i: int|
            0 <= i < before.len() && before[i].0 == name && after == before.update(
                i,
                (name, capped(before[i].1 + amount)),
            )) || (exists|i: int| 0 <= i <= before.len() && after == before.insert(i, (name, amount))),
    ensures
        load_in(after) <= load_in(before) + (weight_spec(name) as nat) * (amount as nat),
        (forall|i: int| 0 <= i < before.len() && before[i].0 == name ==> before[i].1 + amount <= u64::MAX)
            ==> load_in(after) == load_in(before) + (weight_spec(name) as nat) * (amount as nat),
{
    if exists|i: int|
        0 <= i < before.len() && before[i].0 == name && after == before.update(
            i,
            (name, capped(before[i].1 + amount)),
        ) {
        let i = choose|i: int|
            0 <= i < before.len() && before[i].0 == name && after == before.update(
                i,
                (name, capped(before[i].1 + amount)),
            );
        let r = (name, capped(before[i].1 + amount));
        let front = before.take(i);
        let tail = before.skip(i + 1);
        assert(before =~= front + seq![before[i]] + tail);
        assert(after =~= front + seq![r] + tail);
        lemma_load_concat(front + seq![before[i]], tail);
        lemma_load_concat(front + seq![r], tail);
        lemma_load_concat(front, seq![before[i]]);
        lemma_load_concat(front, seq![r]);
        lemma_load_single(before[i]);
        lemma_load_single(r);
        let w = weight_spec(name) as nat;
        assert(w * (r.1 as nat) <= w * (before[i].1 as nat) + w * (amount as nat)) by (nonlinear_arith)
            requires
                r.1 <= before[i].1 + amount,
        ;
        if before[i].1 + amount <= u64::MAX {
            assert(w * (r.1 as nat) == w * (before[i].1 as nat) + w * (amount as nat)) by (nonlinear_arith)
                requires
                    r.1 == before[i].1 + amount,
            ;
        }
    } else {
        let i = choose|i: int| 0 <= i <= before.len() && after == before.insert(i, (name, amount));
        let r = (name, amount);
        let front = before.take(i);
        let tail = before.skip(i);
        assert(before =~= front + tail);
        assert(after =~= front + seq![r] + tail);
        lemma_load_concat(front + seq![r], tail);
        lemma_load_concat(front, seq![r]);
        lemma_load_concat(front, tail);
        lemma_load_single(r);
    }
}

/// No row holds more things than the whole pile weighs.
pub proof fn lemma_row_within_load(rows: Seq<(Seq<char>, u64)>, i: int)
    requires
        0 <= i < rows.len(),
    ensures
        rows[i].1 as nat <= load_in(rows),
{
    let front = rows.take(i);
    let tail = rows.skip(i + 1);
    assert(rows =~= front + seq![rows[i]] + tail);
    lemma_load_concat(front + seq![rows[i]], tail);
    lemma_load_concat(front, seq![rows[i]]);
    lemma_load_single(rows[i]);
    lemma_weight_positive(rows[i].0);
    let w = weight_spec(rows[i].0) as nat;
    assert(rows[i].1 as nat <= w * (rows[i].1 as nat)) by (nonlinear_arith)
        requires
            w >= 1,
    ;
}

/// Nothing in the table is weightless, and neither is anything unlisted.
pub proof fn lemma_weight_positive(name: Seq<char>)
    ensures
        1 <= weight_spec(name) <= 30,
{
    assert forall|i: int| 0 <= i < weight_table().len() implies 1 <= #[trigger] weight_table()[i].1 <= 30 by {
        assert(weight_table()[i] == (WEIGHTS@[i].0@, WEIGHTS@[i].1));
    }
    lemma_weights_positive(weight_table(), name);
}

proof fn lemma_weights_positive(table: Seq<(Seq<char>, u64)>, name: Seq<char>)
    requires
        forall|i: int| 0 <= i < table.len() ==> 1 <= #[trigger] table[i].1 <= 30,
    ensures
        1 <= weight_in(table, name) <= 30,
    decreases table.len(),
{
    if table.len() > 0 && table[0].0 != name {
        assert forall|i: int| 0 <= i < table.drop_first().len() implies 1 <= #[trigger] table.drop_first()[i].1 <= 30 by {
            assert(table.drop_first()[i] == table[i + 1]);
        }
        lemma_weights_positive(table.drop_first(), name);
    }
}

/// How many of `amount` of `name` fit in a pack weighing `weight` under
/// `capacity`: as many whole ones as the room left takes.
pub open spec fn fit_spec(weight: nat, name: Seq<char>, amount: u64, capacity: u64) -> u64 {
    let w: int = if weight_spec(name) == 0 {
        1
    } else {
        weight_spec(name) as int
    };
    let load = capped(weight as int);
    let room: int = if load >= capacity {
        0
    } else {
        capacity - load
    };
    if room / w < amount {
        (room / w) as u64
    } else {
        amount
    }
}

/// What you are carrying.
#[derive(Debug, PartialEq, Eq)]
pub struct Pack {
    pub goods: Stockpile,
}

impl Default for Pack {
    /// An empty pack.
    fn default() -> (pack: Pack)
        ensures
            pack.goods@.len() == 0,
    {
        Pack::new()
    }
}

impl Pack {
    /// What the pack weighs, exactly.
    pub open spec fn weight(&self) -> nat {
        load_in(self.goods@)
    }

    /// An empty pack.
    pub fn new() -> (pack: Pack)
        ensures
            pack.goods@.len() == 0,
    {
        Pack { goods: Stockpile::new() }
    }

    /// What it all weighs, stopping at the top of a `u64`.
    pub fn load(&self) -> (units: u64)
        ensures
            units == capped(self.weight() as int),
    {
        let rows = self.goods.entries();
        let ghost view = rows_view(rows@);
        let mut total: u64 = 0;
        let mut i: usize = 0;
        while i < rows.len()
            invariant
                0 <= i <= rows@.len(),
                view == self.goods@,
                view == rows_view(rows@),
                total == capped(load_in(view.take(i as int)) as int),
            decreases rows@.len() - i,
        {
            let w = weight_of(rows[i].0.as_str());
            let term = saturating_mul_u64(w, rows[i].1);
            proof {
                assert(view[i as int] == (rows@[i as int].0@, rows@[i as int].1));
                assert(view.take(i + 1).drop_last() =~= view.take(i as int));
                assert(view.take(i + 1).last() == view[i as int]);
            }
            total = total.saturating_add(term);
            i = i + 1;
        }
        assert(view.take(i as int) =~= view);
        total
    }

    /// How many of `name` are in there.
    pub fn count(&self, name: &str) -> (n: u64)
        ensures
            n as nat == self.goods.count_of(name@),
    {
        self.goods.count(name)
    }

    /// How many things, ignoring what they weigh.
    pub fn total(&self) -> (n: u64)
        ensures
            n == capped(self.goods.sum() as int),
    {
        self.goods.total()
    }

    /// Nothing in it.
    pub fn is_empty(&self) -> (empty: bool)
        ensures
            empty <==> self.goods@.len() == 0,
    {
        self.goods.is_empty()
    }

    /// Every row, in name order.
    pub fn entries(&self) -> (rows: &[(String, u64)])
        ensures
            rows_view(rows@) == self.goods@,
    {
        self.goods.entries()
    }

    /// Whether one more of `name` would fit under `capacity`.
    pub fn room_for(&self, name: &str, capacity: u64) -> (fits: bool)
        ensures
            fits <==> capped(self.weight() + weight_spec(name@) as int) <= capacity,
    {
        self.load().saturating_add(weight_of(name)) <= capacity
    }

    /// Put one of `name` in, if it fits. `true` when it went in.
    pub fn stow(&mut self, name: &str, capacity: u64) -> (stowed: bool)
        ensures
            stowed <==> capped(old(self).weight() + weight_spec(name@) as int) <= capacity,
            stowed && capacity < u64::MAX ==> final(self).weight() <= capacity,
            stowed && old(self).weight() + weight_spec(name@) <= u64::MAX ==> final(self).weight() == old(
                self,
            ).weight() + weight_spec(name@),
            !stowed ==> final(self).goods@ == old(self).goods@,
            forall|k: Seq<char>|
                #![trigger final(self).goods.count_of(k)]
                final(self).goods.count_of(k) == if stowed && k == name@ {
                    capped((old(self).goods.count_of(k) + 1) as int) as nat
                } else {
                    old(self).goods.count_of(k)
                },
    {
        if !self.room_for(name, capacity) {
            return false;
        }
        let ghost before = self.goods@;
        self.goods.add(name, 1);
        proof {
            lemma_weight_positive(name@);
            if load_in(before) + weight_spec(name@) <= u64::MAX {
                assert forall|i: int| 0 <= i < before.len() && before[i].0 == name@ implies before[i].1 + 1
                    <= u64::MAX by {
                    lemma_row_within_load(before, i);
                }
            }
            lemma_add_weight(before, self.goods@, name@, 1);
        }
        true
    }

    /// Put up to `amount` of `name` in, and say how many actually fitted: as
    /// many whole ones as the room left under `capacity` takes.
    pub fn take_in(&mut self, name: &str, amount: u64, capacity: u64) -> (fits: u64)
        ensures
            fits == fit_spec(old(self).weight(), name@, amount, capacity),
            final(self).weight() == old(self).weight() + (weight_spec(name@) as nat) * (fits as nat),
            forall|k: Seq<char>|
                #![trigger final(self).goods.count_of(k)]
                final(self).goods.count_of(k) == if k == name@ {
                    capped((old(self).goods.count_of(k) + fits) as int) as nat
                } else {
                    old(self).goods.count_of(k)
                },
            old(self).weight() <= capacity ==> final(self).weight() <= capacity,
    {
        let w = weight_of(name);
        let weight = if w == 0 { 1 } else { w };
        let room = capacity.saturating_sub(self.load());
        let whole = room / weight;
        let fits = if whole < amount { whole } else { amount };
        if fits > 0 {
            let ghost before = self.goods@;
            self.goods.add(name, fits);
            proof {
                lemma_weight_positive(name@);
                let wn = weight_spec(name@) as nat;
                assert(wn * (fits as nat) <= (room as nat) && (fits as nat) <= wn * (fits as nat))
                    by (nonlinear_arith)
                    requires
                        fits as int <= (room as int) / (wn as int),
                        wn >= 1,
                        room >= 0,
                ;
                assert forall|i: int| 0 <= i < before.len() && before[i].0 == name@ implies before[i].1
                    + fits <= u64::MAX by {
                    lemma_row_within_load(before, i);
                }
                lemma_add_weight(before, self.goods@, name@, fits);
            }
        } else {
            self.goods.note_well_kept();
            proof {
                assert((weight_spec(name@) as nat) * (fits as nat) == 0) by (nonlinear_arith)
                    requires
                        fits == 0,
                ;
                assert forall|k: Seq<char>| #[trigger] self.goods.count_of(k) == if k == name@ {
                    capped((old(self).goods.count_of(k) + fits) as int) as nat
                } else {
                    old(self).goods.count_of(k)
                } by {
                    crate::stockpile::lemma_count_bounded(self.goods@, k);
                }
            }
        }
        fits
    }

    /// Empty it, handing back what was in it.
    pub fn drain(&mut self) -> (goods: Vec<(String, u64)>)
        ensures
            rows_view(goods@) == old(self).goods@,
            final(self).goods@.len() == 0,
    {
        self.goods.drain()
    }
}

/// How full the pack is, as the byte the journal carries: nothing up to the
/// comfortable line, then a ramp to 255 at the cap.
pub open spec fn load_byte_spec(load: u64, capacity: u64, exo_marks: u32) -> u8 {
    let easy = comfortable_spec(capacity, exo_marks);
    if load <= easy {
        0
    } else {
        quantised((load - easy) as u64, (capacity - easy) as u64)
    }
}

/// How full the pack is, as the byte the journal carries.
pub fn load_byte(pack: &Pack, capacity: u64, exo_marks: u32) -> (byte: u8)
    requires
        capacity * ease_tenths(exo_marks) <= u64::MAX,
    ensures
        byte == load_byte_spec(capped(pack.weight() as int), capacity, exo_marks),
{
    let easy = comfortable(capacity, exo_marks);
    let load = pack.load();
    if load <= easy {
        return 0;
    }
    quantise(load - easy, capacity - easy)
}

/// **Slow first, then a hard stop.** The load byte never goes down as the
/// pack fills: nothing up to the comfortable line, and a full byte at the cap.
pub proof fn lemma_load_byte_rises(lighter: u64, heavier: u64, capacity: u64, exo_marks: u32)
    requires
        lighter <= heavier,
        capacity <= u64::MAX / 8,
    ensures
        load_byte_spec(lighter, capacity, exo_marks) <= load_byte_spec(heavier, capacity, exo_marks),
        lighter <= comfortable_spec(capacity, exo_marks) ==> load_byte_spec(lighter, capacity, exo_marks) == 0,
        comfortable_spec(capacity, exo_marks) < capacity <= heavier ==> load_byte_spec(heavier, capacity, exo_marks) == 255,
{
    let m: int = if exo_marks > MAX_UPGRADE { MAX_UPGRADE as int } else { exo_marks as int };
    assert(capacity * (3 + m) <= capacity * 10) by (nonlinear_arith)
        requires
            0 <= m <= 5,
    ;
    let easy = comfortable_spec(capacity, exo_marks);
    assert(easy <= capacity);
    let whole = (capacity - easy) as int;
    if lighter > easy {
        let a = if lighter - easy > whole { whole } else { lighter - easy };
        let b = if heavier - easy > whole { whole } else { heavier - easy };
        if whole > 0 {
            assert(a <= b);
            let qa = (a * 255 + whole / 2) / whole;
            let qb = (b * 255 + whole / 2) / whole;
            assert(qa <= qb && qb <= 255 && qa >= 0) by (nonlinear_arith)
                requires
                    0 <= a <= b <= whole,
                    whole > 0,
                    qa == (a * 255 + whole / 2) / whole,
                    qb == (b * 255 + whole / 2) / whole,
            ;
            assert(load_byte_spec(lighter, capacity, exo_marks) == qa as u8);
            assert(load_byte_spec(heavier, capacity, exo_marks) == qb as u8);
        }
    }
    if easy < capacity && capacity <= heavier {
        let q = (whole * 255 + whole / 2) / whole;
        assert(q == 255) by (nonlinear_arith)
            requires
                whole > 0,
                q == (whole * 255 + whole / 2) / whole,
        ;
    }
}

/// Tip the whole pack into the base's pile, and say how many things moved.
///
/// With no base declared nothing moves and the pack keeps everything: there
/// is nowhere to put it down.
pub fn tip(pack: &mut Pack, base: &mut Option<Base>) -> (moved: u64)
    ensures
        *old(base) is None ==> moved == 0 && final(pack).goods@ == old(pack).goods@ && *final(base) is None,
        *old(base) matches Some(b) ==> {
            &&& moved == capped(old(pack).goods.sum() as int)
            &&& final(pack).goods@.len() == 0
            &&& *final(base) matches Some(after)
            &&& after.position == b.position
            &&& forall|k: Seq<char>|
                #![trigger after.stockpile.count_of(k)]
                after.stockpile.count_of(k) == capped((b.stockpile.count_of(k) + old(pack).goods.count_of(k)) as int)
        },
{
    let mut declared = match base.take() {
        Some(b) => b,
        None => return 0,
    };
    let ghost start = declared.stockpile;
    declared.stockpile.note_well_kept();
    let goods = pack.drain();
    let ghost rows = rows_view(goods@);
    let mut moved: u64 = 0;
    let mut i: usize = 0;
    proof {
        assert(rows.take(0) =~= Seq::<(Seq<char>, u64)>::empty());
        assert forall|k: Seq<char>| #[trigger] declared.stockpile.count_of(k) == capped(
            (start.count_of(k) + count_in(rows.take(0), k)) as int,
        ) by {
            lemma_count_bounded(start@, k);
        }
    }
    while i < goods.len()
        invariant
            0 <= i <= goods@.len(),
            rows == rows_view(goods@),
            declared.position == old(base)->0.position,
            start == old(base)->0.stockpile,
            moved == capped(sum_in(rows.take(i as int)) as int),
            forall|k: Seq<char>|
                #![trigger declared.stockpile.count_of(k)]
                declared.stockpile.count_of(k) == capped((start.count_of(k) + count_in(rows.take(i as int), k)) as int),
        decreases goods@.len() - i,
    {
        let ghost was = declared.stockpile;
        declared.stockpile.note_well_kept();
        declared.stockpile.add(goods[i].0.as_str(), goods[i].1);
        proof {
            assert(rows[i as int] == (goods@[i as int].0@, goods@[i as int].1));
            assert(rows.take(i + 1).drop_last() =~= rows.take(i as int));
            assert(rows.take(i + 1).last() == rows[i as int]);
            assert forall|k: Seq<char>| #[trigger] declared.stockpile.count_of(k) == capped(
                (start.count_of(k) + count_in(rows.take(i + 1), k)) as int,
            ) by {
                lemma_count_bounded(was@, k);
            }
        }
        moved = moved.saturating_add(goods[i].1);
        i = i + 1;
    }
    proof {
        assert(rows.take(i as int) =~= rows);
    }
    *base = Some(declared);
    moved
}

/// The whole of `pack.dat` for a pack's rows.
pub open spec fn pack_file_bytes(rows: Seq<(Seq<char>, u64)>) -> Seq<u8> {
    MAGIC@ + u32_bytes(VERSION) + pile_bytes(rows)
}

/// What `pack.dat` says: `None` for a file that is not one, stops early,
/// claims too many rows or too long a name; `Some(None)` for a version this
/// build does not know; otherwise the rows in file order.
pub open spec fn parse_pack(s: Seq<u8>) -> Option<Option<Seq<(Seq<char>, u64)>>> {
    if !stands_at(s, 0, MAGIC@) {
        None
    } else {
        match u32_at(s, 4) {
            None => None,
            Some((version, _)) => if version == 0 || version > VERSION {
                Some(None)
            } else {
                match pile_at(s, 8, MAX_ROWS, MAX_NAME) {
                    None => None,
                    Some((rows, _)) => Some(Some(rows)),
                }
            },
        }
    }
}

/// Write the pack the way `pack.dat` holds it.
pub fn save(pack: &Pack) -> (bytes: Vec<u8>)
    requires
        pack.goods@.len() <= u32::MAX,
        forall|i: int| 0 <= i < pack.goods@.len() ==> #[trigger] key(pack.goods@[i].0).len() <= u32::MAX,
    ensures
        bytes@ == pack_file_bytes(pack.goods@),
{
    let mut out: Vec<u8> = Vec::new();
    put_tag(&mut out, &MAGIC);
    put_u32(&mut out, VERSION);
    put_pile(&mut out, &pack.goods);
    out
}

/// Read `pack.dat`: `None` for damage, `Some(None)` for a version this build
/// does not know, otherwise a pack holding what the rows say.
pub fn read(s: &[u8]) -> (r: Option<Option<Pack>>)
    ensures
        r is None <==> parse_pack(s@) is None,
        r matches Some(None) ==> parse_pack(s@) == Some(None::<Seq<(Seq<char>, u64)>>),
        r matches Some(Some(pack)) ==> {
            &&& parse_pack(s@) matches Some(Some(rows))
            &&& forall|k: Seq<char>|
                #![trigger pack.goods.count_of(k)]
                pack.goods.count_of(k) == capped(count_in(rows, k) as int)
            &&& wf_rows(rows) ==> pack.goods@ == rows
        },
{
    if !tag_at(s, 0, &MAGIC) {
        return None;
    }
    let version = match read_u32(s, 4) {
        Some((v, _)) => v,
        None => return None,
    };
    if version == 0 || version > VERSION {
        return Some(None);
    }
    match read_pile(s, 8, MAX_ROWS, MAX_NAME) {
        Some((goods, _)) => Some(Some(Pack { goods })),
        None => None,
    }
}

/// Read it back, tolerating absence and damage: no file, an unknown version
/// and a damaged file are all an empty pack. The flag says the file was
/// damaged, so the caller can say so.
pub fn load(file: Option<&[u8]>) -> (loaded: (Pack, bool))
    ensures
        loaded.1 <==> (file matches Some(s) && parse_pack(s@) is None),
        match file {
            Some(s) => match parse_pack(s@) {
                Some(Some(rows)) => (forall|k: Seq<char>|
                    #![trigger loaded.0.goods.count_of(k)]
                    loaded.0.goods.count_of(k) == capped(count_in(rows, k) as int)) && (wf_rows(rows)
                    ==> loaded.0.goods@ == rows),
                _ => loaded.0.goods@.len() == 0,
            },
            None => loaded.0.goods@.len() == 0,
        },
{
    match file {
        None => (Pack::new(), false),
        Some(s) => match read(s) {
            Some(Some(pack)) => (pack, false),
            Some(None) => (Pack::new(), false),
            None => (Pack::new(), true),
        },
    }
}

/// **A pack round-trips through disk.** What `pack.dat` is written as reads
/// back as the same rows, for any pack whose names fit the file.
pub proof fn lemma_pack_round_trip(rows: Seq<(Seq<char>, u64)>)
    requires
        names_fit(rows, MAX_NAME),
        rows.len() <= MAX_ROWS,
    ensures
        parse_pack(pack_file_bytes(rows)) == Some(Some(rows)),
{
    let s = pack_file_bytes(rows);
    lemma_u32_bytes_len(VERSION);
    let head = MAGIC@ + u32_bytes(VERSION);
    assert(s.subrange(0, 4) =~= MAGIC@);
    assert(s.subrange(4, 8) =~= u32_bytes(VERSION));
    lemma_u32_round_trip(s, 4, VERSION);
    lemma_stands_at_end(head, pile_bytes(rows));
    lemma_pile_round_trip(s, 8, rows, MAX_ROWS, MAX_NAME);
}

} // verus!
